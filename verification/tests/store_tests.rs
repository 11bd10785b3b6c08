use task_store::TodoList;

#[test]
fn sequential_ids_after_adds() {
    let mut tl = TodoList::new();
    tl.add_task(String::from("first"));
    tl.add_task(String::from("second"));
    tl.add_task(String::from("third"));
    let ts = tl.tasks();
    assert_eq!(ts.len(), 3);
    assert_eq!(ts[0].id, 1);
    assert_eq!(ts[1].id, 2);
    assert_eq!(ts[2].id, 3);
    assert_eq!(ts[0].description, "first");
    assert_eq!(ts[1].description, "second");
    assert_eq!(ts[2].description, "third");
    assert!(!ts[0].completed);
    assert!(!ts[1].completed);
    assert!(!ts[2].completed);
}

#[test]
fn remove_twice_is_noop() {
    let mut tl = TodoList::new();
    tl.add_task(String::from("a"));
    tl.add_task(String::from("b"));
    tl.remove_task(1);
    assert_eq!(tl.len(), 1);
    assert_eq!(tl.tasks()[0].id, 2);
    tl.remove_task(1);
    assert_eq!(tl.len(), 1);
    assert_eq!(tl.tasks()[0].id, 2);
    assert_eq!(tl.tasks()[0].description, "b");
}

#[test]
fn remove_missing_id_is_noop() {
    let mut tl = TodoList::new();
    tl.add_task(String::from("only"));
    tl.remove_task(42);
    assert_eq!(tl.len(), 1);
    assert_eq!(tl.tasks()[0].id, 1);
}

#[test]
fn edit_missing_id_leaves_store_unchanged() {
    let mut tl = TodoList::new();
    tl.add_task(String::from("keep me"));
    tl.edit_task(9, String::from("new text"));
    assert_eq!(tl.len(), 1);
    assert_eq!(tl.tasks()[0].id, 1);
    assert_eq!(tl.tasks()[0].description, "keep me");
    assert!(!tl.tasks()[0].completed);
}

#[test]
fn mark_missing_id_leaves_store_unchanged() {
    let mut tl = TodoList::new();
    tl.add_task(String::from("keep me"));
    tl.mark_completed(9);
    assert_eq!(tl.len(), 1);
    assert!(!tl.tasks()[0].completed);
}

#[test]
fn edit_replaces_description_of_match() {
    let mut tl = TodoList::new();
    tl.add_task(String::from("old"));
    tl.add_task(String::from("other"));
    tl.edit_task(1, String::from("new"));
    assert_eq!(tl.tasks()[0].description, "new");
    assert_eq!(tl.tasks()[1].description, "other");
    assert_eq!(tl.tasks()[0].id, 1);
}

#[test]
fn edit_changes_first_match_only() {
    // ids can collide after a removal; an edit touches the first match only
    let mut tl = TodoList::new();
    tl.add_task(String::from("a"));
    tl.add_task(String::from("b"));
    tl.remove_task(1);
    tl.add_task(String::from("c"));
    assert_eq!(tl.tasks()[0].id, 2);
    assert_eq!(tl.tasks()[1].id, 2);
    tl.edit_task(2, String::from("edited"));
    assert_eq!(tl.tasks()[0].description, "edited");
    assert_eq!(tl.tasks()[1].description, "c");
}

#[test]
fn remove_removes_every_match() {
    let mut tl = TodoList::new();
    tl.add_task(String::from("a"));
    tl.add_task(String::from("b"));
    tl.remove_task(1);
    tl.add_task(String::from("c"));
    assert_eq!(tl.len(), 2);
    tl.remove_task(2);
    assert_eq!(tl.len(), 0);
}

#[test]
fn clear_empties_and_restarts_ids() {
    let mut tl = TodoList::new();
    tl.add_task(String::from("a"));
    tl.add_task(String::from("b"));
    tl.mark_completed(2);
    tl.clear();
    assert_eq!(tl.len(), 0);
    tl.add_task(String::from("fresh"));
    assert_eq!(tl.tasks()[0].id, 1);
    assert!(!tl.tasks()[0].completed);
}

#[test]
fn scenario_removed_id_is_reused() {
    let mut tl = TodoList::new();
    tl.add_task(String::from("Buy milk"));
    tl.add_task(String::from("Walk dog"));
    assert_eq!(tl.tasks()[0].id, 1);
    assert!(!tl.tasks()[0].completed);
    assert_eq!(tl.tasks()[1].id, 2);
    tl.remove_task(1);
    assert_eq!(tl.len(), 1);
    assert_eq!(tl.tasks()[0].id, 2);
    assert_eq!(tl.tasks()[0].description, "Walk dog");
    tl.add_task(String::from("Read book"));
    // the new id is count + 1 = 2, colliding with the surviving task
    assert_eq!(tl.tasks()[1].id, 2);
    assert_eq!(tl.tasks()[1].description, "Read book");
}

#[test]
fn scenario_mark_completed_flips_only_target() {
    let mut tl = TodoList::new();
    tl.add_task(String::from("a"));
    tl.add_task(String::from("b"));
    tl.mark_completed(2);
    assert!(!tl.tasks()[0].completed);
    assert!(tl.tasks()[1].completed);
    assert_eq!(tl.tasks()[1].description, "b");
    assert_eq!(tl.tasks()[1].id, 2);
}

#[test]
fn empty_description_is_permitted() {
    let mut tl = TodoList::new();
    tl.add_task(String::new());
    assert_eq!(tl.len(), 1);
    assert_eq!(tl.tasks()[0].description, "");
}
