//! The in-memory task collection and its mutation operations.

use vstd::prelude::*;
use vstd::pervasive::VecAdditionalExecFns;

verus! {

/// One to-do item: an identifier, a user-supplied description, and a
/// completion flag.
pub struct Task {
    pub id: u32,
    pub description: String,
    pub completed: bool,
}

/// The mathematical value of a [`Task`]: the same three fields, with the
/// description as a sequence of characters.
pub struct TaskModel {
    pub id: u32,
    pub description: Seq<char>,
    pub completed: bool,
}

impl View for Task {
    type V = TaskModel;

    open spec fn view(&self) -> TaskModel {
        TaskModel { id: self.id, description: self.description@, completed: self.completed }
    }
}

/// The sequence of task models described by a sequence of tasks.
pub open spec fn models(ts: Seq<Task>) -> Seq<TaskModel> {
    ts.map_values(|t: Task| t@)
}

/// The ordered task collection. Iteration order is insertion order.
pub struct TodoList {
    tasks: Vec<Task>,
}

impl View for TodoList {
    type V = Seq<TaskModel>;

    closed spec fn view(&self) -> Seq<TaskModel> {
        models(self.tasks@)
    }
}

/// The effect of adding a description `d` to a store holding `s`: a new
/// incomplete task is appended, with id one more than the current count.
pub open spec fn add_spec(s: Seq<TaskModel>, d: Seq<char>) -> Seq<TaskModel> {
    s.push(TaskModel { id: (s.len() + 1) as u32, description: d, completed: false })
}

/// The effect of removing an id: every task with that id is dropped and the
/// rest keep their order.
pub open spec fn remove_spec(s: Seq<TaskModel>, id: u32) -> Seq<TaskModel> {
    s.filter(|t: TaskModel| t.id != id)
}

/// Whether some task in `s` carries the given id.
pub open spec fn has_task(s: Seq<TaskModel>, id: u32) -> bool {
    exists|i: int| 0 <= i < s.len() && s[i].id == id
}

/// The given task with its description replaced.
pub open spec fn with_description(t: TaskModel, d: Seq<char>) -> TaskModel {
    TaskModel { id: t.id, description: d, completed: t.completed }
}

/// The given task with its completion flag set.
pub open spec fn with_completed(t: TaskModel) -> TaskModel {
    TaskModel { id: t.id, description: t.description, completed: true }
}

/// The effect of editing an id: the first matching task gets the new
/// description; with no match the sequence is unchanged.
pub open spec fn edit_spec(s: Seq<TaskModel>, id: u32, d: Seq<char>) -> Seq<TaskModel>
    decreases s.len(),
{
    if s.len() == 0 {
        s
    } else if s[0].id == id {
        seq![with_description(s[0], d)] + s.drop_first()
    } else {
        seq![s[0]] + edit_spec(s.drop_first(), id, d)
    }
}

/// The effect of completing an id: the first matching task has its flag set
/// to true; with no match the sequence is unchanged.
pub open spec fn mark_spec(s: Seq<TaskModel>, id: u32) -> Seq<TaskModel>
    decreases s.len(),
{
    if s.len() == 0 {
        s
    } else if s[0].id == id {
        seq![with_completed(s[0])] + s.drop_first()
    } else {
        seq![s[0]] + mark_spec(s.drop_first(), id)
    }
}

/// Whether the ids in `s` are exactly `1..=len` in order, as they are after
/// any run of adds on an empty store.
pub open spec fn ids_sequential(s: Seq<TaskModel>) -> bool {
    forall|i: int| 0 <= i < s.len() ==> s[i].id as int == i + 1
}

/// Law: a store built by adds alone numbers its tasks `1..=N` in insertion
/// order. The empty store satisfies `ids_sequential`, and each add preserves
/// it, giving the new task the next id.
pub proof fn lemma_add_preserves_sequential_ids(s: Seq<TaskModel>, d: Seq<char>)
    requires
        ids_sequential(s),
        s.len() < u32::MAX,
    ensures
        ids_sequential(Seq::<TaskModel>::empty()),
        ids_sequential(add_spec(s, d)),
        add_spec(s, d)[s.len() as int].id as int == s.len() + 1,
{
}

/// Law: removing an id twice is the same as removing it once; the second
/// call is a no-op.
pub proof fn lemma_remove_idempotent(s: Seq<TaskModel>, id: u32)
    ensures
        remove_spec(remove_spec(s, id), id) == remove_spec(s, id),
    decreases s.len(),
{
    reveal(Seq::filter);
    if s.len() == 0 {
        assert(remove_spec(s, id) =~= s);
    } else {
        lemma_remove_idempotent(s.drop_last(), id);
        let r = remove_spec(s.drop_last(), id);
        let l = s.last();
        if l.id != id {
            assert(remove_spec(s, id) == r.push(l));
            assert((r.push(l)).drop_last() =~= r);
            assert((r.push(l)).len() > 0);
            assert(remove_spec(r.push(l), id) == remove_spec(r, id).push(l));
        } else {
            assert(remove_spec(s, id) == r);
        }
    }
}

/// Law: a clear always yields the empty collection, and the next add on an
/// empty collection assigns id 1.
pub proof fn lemma_add_to_empty(d: Seq<char>)
    ensures
        add_spec(Seq::<TaskModel>::empty(), d) == seq![
            TaskModel { id: 1, description: d, completed: false },
        ],
{
    assert(add_spec(Seq::<TaskModel>::empty(), d) =~= seq![
        TaskModel { id: 1, description: d, completed: false },
    ]);
}

/// A sequence with no task carrying `id` has none in its tail either.
proof fn lemma_has_task_tail(s: Seq<TaskModel>, id: u32)
    requires
        s.len() > 0,
        !has_task(s, id),
    ensures
        !has_task(s.drop_first(), id),
{
    if has_task(s.drop_first(), id) {
        let i = choose|i: int| 0 <= i < s.drop_first().len() && s.drop_first()[i].id == id;
        assert(s[i + 1].id == id);
    }
}

/// Law: editing an id that no task carries leaves the collection unchanged.
pub proof fn lemma_edit_absent(s: Seq<TaskModel>, id: u32, d: Seq<char>)
    requires
        !has_task(s, id),
    ensures
        edit_spec(s, id, d) == s,
    decreases s.len(),
{
    if s.len() > 0 {
        assert(s[0].id != id);
        lemma_has_task_tail(s, id);
        lemma_edit_absent(s.drop_first(), id, d);
        assert(edit_spec(s, id, d) =~= s);
    }
}

/// Law: completing an id that no task carries leaves the collection
/// unchanged.
pub proof fn lemma_mark_absent(s: Seq<TaskModel>, id: u32)
    requires
        !has_task(s, id),
    ensures
        mark_spec(s, id) == s,
    decreases s.len(),
{
    if s.len() > 0 {
        assert(s[0].id != id);
        lemma_has_task_tail(s, id);
        lemma_mark_absent(s.drop_first(), id);
        assert(mark_spec(s, id) =~= s);
    }
}

/// With the first matching index at `k`, an edit is a point update at `k`.
pub proof fn lemma_edit_found(s: Seq<TaskModel>, id: u32, d: Seq<char>, k: int)
    requires
        0 <= k < s.len(),
        s[k].id == id,
        forall|j: int| 0 <= j < k ==> s[j].id != id,
    ensures
        edit_spec(s, id, d) == s.update(k, with_description(s[k], d)),
    decreases k,
{
    if k == 0 {
        assert(edit_spec(s, id, d) =~= s.update(0, with_description(s[0], d)));
    } else {
        assert(s[0].id != id);
        lemma_edit_found(s.drop_first(), id, d, k - 1);
        assert(edit_spec(s, id, d) =~= s.update(k, with_description(s[k], d)));
    }
}

/// With the first matching index at `k`, completing is a point update at `k`.
pub proof fn lemma_mark_found(s: Seq<TaskModel>, id: u32, k: int)
    requires
        0 <= k < s.len(),
        s[k].id == id,
        forall|j: int| 0 <= j < k ==> s[j].id != id,
    ensures
        mark_spec(s, id) == s.update(k, with_completed(s[k])),
    decreases k,
{
    if k == 0 {
        assert(mark_spec(s, id) =~= s.update(0, with_completed(s[0])));
    } else {
        assert(s[0].id != id);
        lemma_mark_found(s.drop_first(), id, k - 1);
        assert(mark_spec(s, id) =~= s.update(k, with_completed(s[k])));
    }
}

impl TodoList {
    /// Creates an empty store.
    pub fn new() -> (r: Self)
        ensures
            r@ == Seq::<TaskModel>::empty(),
    {
        let r = TodoList { tasks: Vec::new() };
        proof {
            assert(r@ =~= Seq::<TaskModel>::empty());
        }
        r
    }

    /// The number of tasks currently held.
    pub fn len(&self) -> (n: usize)
        ensures
            n == self@.len(),
    {
        self.tasks.len()
    }

    /// Read-only access to the ordered tasks.
    pub fn tasks(&self) -> (r: &Vec<Task>)
        ensures
            models(r@) == self@,
    {
        &self.tasks
    }

    /// Wraps an already-built task list into a store, as when the list was
    /// decoded from persisted state.
    pub fn from_tasks(tasks: Vec<Task>) -> (r: Self)
        ensures
            r@ == models(tasks@),
    {
        TodoList { tasks }
    }

    /// Appends a new task with id `count + 1`, the given description, and
    /// `completed` false. The description is not validated; it may be empty.
    pub fn add_task(&mut self, description: String)
        requires
            old(self)@.len() < u32::MAX,
        ensures
            final(self)@ == add_spec(old(self)@, description@),
    {
        let id = self.tasks.len() as u32 + 1;
        let ghost d = description@;
        self.tasks.push(Task { id, description, completed: false });
        proof {
            assert(self@ =~= add_spec(old(self)@, d));
        }
    }

    /// Removes every task whose id equals the given value. With no match the
    /// call is a silent no-op.
    pub fn remove_task(&mut self, id: u32)
        ensures
            final(self)@ == remove_spec(old(self)@, id),
    {
        let ghost orig = self.tasks@;
        let mut i: usize = 0;
        let ghost mut j: int = 0;
        proof {
            reveal(Seq::filter);
            assert(models(orig.take(0)) =~= Seq::<TaskModel>::empty());
            assert(models(self.tasks@).take(0) =~= Seq::<TaskModel>::empty());
            assert(remove_spec(models(orig.take(0)), id) =~= Seq::<TaskModel>::empty());
        }
        while i < self.tasks.len()
            invariant
                0 <= i <= self.tasks@.len(),
                i <= j <= orig.len(),
                self.tasks@.skip(i as int) =~= orig.skip(j),
                models(self.tasks@).take(i as int) =~= remove_spec(models(orig.take(j)), id),
            decreases orig.len() - j,
        {
            proof {
                reveal(Seq::filter);
                assert(self.tasks@.skip(i as int).len() == orig.skip(j).len());
                assert(j < orig.len());
                assert(self.tasks@.skip(i as int)[0] == orig.skip(j)[0]);
                assert(self.tasks@[i as int] == orig[j]);
                assert(models(orig.take(j + 1)).drop_last() =~= models(orig.take(j)));
                assert(models(orig.take(j + 1)).last() == orig[j]@);
            }
            if self.tasks[i].id == id {
                let ghost before = self.tasks@;
                self.tasks.remove(i);
                proof {
                    reveal(Seq::filter);
                    assert(self.tasks@.len() == before.len() - 1);
                    assert forall|k: int| 0 <= k < self.tasks@.len() - i implies self.tasks@.skip(
                        i as int,
                    )[k] == orig.skip(j + 1)[k] by {
                        assert(self.tasks@.skip(i as int)[k] == self.tasks@[i + k]);
                        assert(self.tasks@[i + k] == before[i + 1 + k]);
                        assert(before[i + 1 + k] == before.skip(i as int)[1 + k]);
                        assert(before.skip(i as int)[1 + k] == orig.skip(j)[1 + k]);
                        assert(orig.skip(j)[1 + k] == orig[j + 1 + k]);
                    }
                    assert(self.tasks@.skip(i as int) =~= orig.skip(j + 1));
                    assert forall|k: int| 0 <= k < i implies self.tasks@[k] == before[k] by {
                    }
                    assert(models(self.tasks@).take(i as int) =~= models(before).take(i as int));
                    assert(remove_spec(models(orig.take(j + 1)), id) =~= remove_spec(
                        models(orig.take(j)),
                        id,
                    ));
                    j = j + 1;
                }
            } else {
                proof {
                    reveal(Seq::filter);
                    assert forall|k: int| 0 <= k < self.tasks@.len() - i - 1 implies #[trigger] self.tasks@.skip(
                        i + 1,
                    )[k] == orig.skip(j + 1)[k] by {
                        assert(self.tasks@.skip(i + 1)[k] == self.tasks@[i + 1 + k]);
                        assert(self.tasks@[i + 1 + k] == self.tasks@.skip(i as int)[1 + k]);
                        assert(self.tasks@.skip(i as int)[1 + k] == orig.skip(j)[1 + k]);
                        assert(orig.skip(j)[1 + k] == orig[j + 1 + k]);
                    }
                    assert(self.tasks@.skip(i + 1) =~= orig.skip(j + 1));
                    assert(remove_spec(models(orig.take(j + 1)), id) =~= remove_spec(
                        models(orig.take(j)),
                        id,
                    ).push(orig[j]@));
                    assert(models(self.tasks@).take(i + 1) =~= models(self.tasks@).take(
                        i as int,
                    ).push(orig[j]@));
                    j = j + 1;
                }
                i = i + 1;
            }
        }
        proof {
            assert(orig.skip(j).len() == 0);
            assert(j == orig.len());
            assert(orig.take(j) =~= orig);
            assert(models(self.tasks@).take(i as int) =~= models(self.tasks@));
            assert(self@ =~= remove_spec(old(self)@, id));
        }
    }

    /// The index of the first task with the given id, if any.
    fn find_first(&self, id: u32) -> (r: Option<usize>)
        ensures
            match r {
                Some(i) => i < self@.len() && self@[i as int].id == id && (forall|j: int|
                    0 <= j < i ==> self@[j].id != id),
                None => !has_task(self@, id),
            },
    {
        let mut i: usize = 0;
        while i < self.tasks.len()
            invariant
                0 <= i <= self@.len(),
                self@.len() == self.tasks@.len(),
                forall|j: int| 0 <= j < i ==> self@[j].id != id,
            decreases self.tasks@.len() - i,
        {
            if self.tasks[i].id == id {
                return Some(i);
            }
            i = i + 1;
        }
        proof {
            if has_task(self@, id) {
                let k = choose|k: int| 0 <= k < self@.len() && self@[k].id == id;
                assert(self@[k].id != id);
            }
        }
        None
    }

    /// Replaces the description of the first task with the given id; with no
    /// match the call is a silent no-op.
    pub fn edit_task(&mut self, id: u32, description: String)
        ensures
            final(self)@ == edit_spec(old(self)@, id, description@),
    {
        let ghost d = description@;
        match self.find_first(id) {
            Some(i) => {
                let tid = self.tasks[i].id;
                let comp = self.tasks[i].completed;
                self.tasks.set(i, Task { id: tid, description, completed: comp });
                proof {
                    lemma_edit_found(old(self)@, id, d, i as int);
                    assert(self@ =~= old(self)@.update(
                        i as int,
                        with_description(old(self)@[i as int], d),
                    ));
                }
            },
            None => {
                proof {
                    lemma_edit_absent(old(self)@, id, d);
                }
            },
        }
    }

    /// Sets the completion flag of the first task with the given id; with no
    /// match the call is a silent no-op. The flag only ever moves from false
    /// to true.
    pub fn mark_completed(&mut self, id: u32)
        ensures
            final(self)@ == mark_spec(old(self)@, id),
    {
        match self.find_first(id) {
            Some(i) => {
                let tid = self.tasks[i].id;
                let desc = self.tasks[i].description.clone();
                self.tasks.set(i, Task { id: tid, description: desc, completed: true });
                proof {
                    lemma_mark_found(old(self)@, id, i as int);
                    assert(self@ =~= old(self)@.update(
                        i as int,
                        with_completed(old(self)@[i as int]),
                    ));
                }
            },
            None => {
                proof {
                    lemma_mark_absent(old(self)@, id);
                }
            },
        }
    }

    /// Empties the collection unconditionally.
    pub fn clear(&mut self)
        ensures
            final(self)@ == Seq::<TaskModel>::empty(),
    {
        self.tasks.clear();
        proof {
            assert(self@ =~= Seq::<TaskModel>::empty());
        }
    }
}

} // verus!
