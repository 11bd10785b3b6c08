//! The persisted text form of a task list and its parser.
//!
//! A list is written as a JSON-style array of records,
//! `[{"id":1,"description":"...","completed":false},...]`, with `"` and `\`
//! escaped inside descriptions by a leading backslash. The parser accepts
//! exactly the texts this encoder produces, and parsing an encoded list is
//! proved to give back the original list.

use vstd::prelude::*;
use vstd::string::StrSliceExecFns;

use crate::store::Task;
use crate::store::TaskModel;
use crate::store::TodoList;
use crate::store::models;

verus! {

// ---------------------------------------------------------------------------
// Characters and decimal numbers
// ---------------------------------------------------------------------------

/// Whether `c` is a decimal digit.
pub open spec fn is_digit(c: char) -> bool {
    c == '0' || c == '1' || c == '2' || c == '3' || c == '4' || c == '5' || c == '6' || c == '7'
        || c == '8' || c == '9'
}

/// The numeric value of a digit character.
pub open spec fn digit_val(c: char) -> nat {
    if c == '0' {
        0
    } else if c == '1' {
        1
    } else if c == '2' {
        2
    } else if c == '3' {
        3
    } else if c == '4' {
        4
    } else if c == '5' {
        5
    } else if c == '6' {
        6
    } else if c == '7' {
        7
    } else if c == '8' {
        8
    } else {
        9
    }
}

/// The digit character for a value below ten.
pub open spec fn digit_char(d: nat) -> char {
    if d == 0 {
        '0'
    } else if d == 1 {
        '1'
    } else if d == 2 {
        '2'
    } else if d == 3 {
        '3'
    } else if d == 4 {
        '4'
    } else if d == 5 {
        '5'
    } else if d == 6 {
        '6'
    } else if d == 7 {
        '7'
    } else if d == 8 {
        '8'
    } else {
        '9'
    }
}

/// The decimal digits of `n`, most significant first, without leading zeros
/// (`0` itself is written as one digit).
pub open spec fn spec_digits(n: nat) -> Seq<char>
    decreases n,
{
    if n < 10 {
        seq![digit_char(n)]
    } else {
        spec_digits(n / 10).push(digit_char(n % 10))
    }
}

/// The number denoted by a sequence of digit characters, most significant
/// first.
pub open spec fn seq_val(s: Seq<char>) -> nat
    decreases s.len(),
{
    if s.len() == 0 {
        0
    } else {
        seq_val(s.drop_last()) * 10 + digit_val(s.last())
    }
}

/// The first index at or after `i` whose character is not a digit.
pub open spec fn digits_end(s: Seq<char>, i: int) -> int
    decreases s.len() - i,
{
    if i < s.len() && is_digit(s[i]) {
        digits_end(s, i + 1)
    } else {
        i
    }
}

/// Reads an unsigned decimal number at `i`: at least one digit, and a value
/// that fits in 32 bits.
pub open spec fn parse_u32_at(s: Seq<char>, i: int) -> Option<(u32, int)> {
    let j = digits_end(s, i);
    if j == i {
        None
    } else if seq_val(s.subrange(i, j)) > u32::MAX {
        None
    } else {
        Some((seq_val(s.subrange(i, j)) as u32, j))
    }
}

// ---------------------------------------------------------------------------
// Escaped strings
// ---------------------------------------------------------------------------

/// The escaped form of one description character: quote and backslash get a
/// leading backslash, every other character stands for itself.
pub open spec fn escape_char(c: char) -> Seq<char> {
    if c == '"' || c == '\\' {
        seq!['\\', c]
    } else {
        seq![c]
    }
}

/// The escaped form of a whole description.
pub open spec fn escape_seq(s: Seq<char>) -> Seq<char>
    decreases s.len(),
{
    if s.len() == 0 {
        Seq::empty()
    } else {
        escape_char(s[0]) + escape_seq(s.drop_first())
    }
}

/// Reads an escaped string body starting at `i` up to and including its
/// closing quote, returning the unescaped content.
pub open spec fn parse_string_body(s: Seq<char>, i: int) -> Option<(Seq<char>, int)>
    decreases s.len() - i,
{
    if i < 0 || i >= s.len() {
        None
    } else if s[i] == '"' {
        Some((Seq::empty(), i + 1))
    } else if s[i] == '\\' {
        if i + 1 < s.len() && (s[i + 1] == '"' || s[i + 1] == '\\') {
            match parse_string_body(s, i + 2) {
                Some((t, j)) => Some((seq![s[i + 1]] + t, j)),
                None => None,
            }
        } else {
            None
        }
    } else {
        match parse_string_body(s, i + 1) {
            Some((t, j)) => Some((seq![s[i]] + t, j)),
            None => None,
        }
    }
}

// ---------------------------------------------------------------------------
// Records and the list
// ---------------------------------------------------------------------------

/// The fixed text before a record's id.
pub open spec fn lit_id() -> Seq<char> {
    seq!['{', '"', 'i', 'd', '"', ':']
}

/// The fixed text between a record's id and its description, including the
/// description's opening quote.
pub open spec fn lit_description() -> Seq<char> {
    seq![',', '"', 'd', 'e', 's', 'c', 'r', 'i', 'p', 't', 'i', 'o', 'n', '"', ':', '"']
}

/// The fixed text between a record's description and its completion flag.
pub open spec fn lit_completed() -> Seq<char> {
    seq![',', '"', 'c', 'o', 'm', 'p', 'l', 'e', 't', 'e', 'd', '"', ':']
}

/// The text of the boolean `true`.
pub open spec fn lit_true() -> Seq<char> {
    seq!['t', 'r', 'u', 'e']
}

/// The text of the boolean `false`.
pub open spec fn lit_false() -> Seq<char> {
    seq!['f', 'a', 'l', 's', 'e']
}

/// Whether the fixed text `l` stands at index `i` of `s`.
pub open spec fn lit_at(s: Seq<char>, i: int, l: Seq<char>) -> bool {
    0 <= i && i + l.len() <= s.len() && s.subrange(i, i + l.len() as int) == l
}

/// The text form of one task record.
pub open spec fn encode_task(t: TaskModel) -> Seq<char> {
    lit_id() + spec_digits(t.id as nat) + lit_description() + escape_seq(t.description) + seq!['"']
        + lit_completed() + (if t.completed {
        lit_true()
    } else {
        lit_false()
    }) + seq!['}']
}

/// The text form of the records, separated by commas.
pub open spec fn encode_items(ts: Seq<TaskModel>) -> Seq<char>
    decreases ts.len(),
{
    if ts.len() == 0 {
        Seq::empty()
    } else if ts.len() == 1 {
        encode_task(ts[0])
    } else {
        encode_task(ts[0]) + seq![','] + encode_items(ts.drop_first())
    }
}

/// The text form of a whole task list.
pub open spec fn encode_list(ts: Seq<TaskModel>) -> Seq<char> {
    seq!['['] + encode_items(ts) + seq![']']
}

/// Reads one task record starting at `i`.
pub open spec fn parse_task_at(s: Seq<char>, i: int) -> Option<(TaskModel, int)> {
    if !lit_at(s, i, lit_id()) {
        None
    } else {
        match parse_u32_at(s, i + lit_id().len() as int) {
            None => None,
            Some((id, i2)) => {
                if !lit_at(s, i2, lit_description()) {
                    None
                } else {
                    match parse_string_body(s, i2 + lit_description().len() as int) {
                        None => None,
                        Some((d, i3)) => {
                            if !lit_at(s, i3, lit_completed()) {
                                None
                            } else {
                                let i4 = i3 + lit_completed().len() as int;
                                let flag = if lit_at(s, i4, lit_true()) {
                                    Some((true, i4 + 4))
                                } else if lit_at(s, i4, lit_false()) {
                                    Some((false, i4 + 5))
                                } else {
                                    None
                                };
                                match flag {
                                    None => None,
                                    Some((completed, i5)) => {
                                        if i5 < s.len() && s[i5] == '}' {
                                            Some(
                                                (
                                                    TaskModel { id, description: d, completed },
                                                    i5 + 1,
                                                ),
                                            )
                                        } else {
                                            None
                                        }
                                    },
                                }
                            }
                        },
                    }
                }
            },
        }
    }
}

/// Reads one or more comma-separated task records starting at `i`.
pub open spec fn parse_items_at(s: Seq<char>, i: int) -> Option<(Seq<TaskModel>, int)>
    decreases s.len() - i,
{
    match parse_task_at(s, i) {
        None => None,
        Some((t, j)) => {
            if i < j && j < s.len() && s[j] == ',' {
                match parse_items_at(s, j + 1) {
                    None => None,
                    Some((ts, k)) => Some((seq![t] + ts, k)),
                }
            } else {
                Some((seq![t], j))
            }
        },
    }
}

/// Reads a whole task list: the text must be consumed exactly.
pub open spec fn parse_list(s: Seq<char>) -> Option<Seq<TaskModel>> {
    if s.len() == 2 && s[0] == '[' && s[1] == ']' {
        Some(Seq::empty())
    } else if s.len() >= 2 && s[0] == '[' {
        match parse_items_at(s, 1) {
            None => None,
            Some((ts, j)) => {
                if j == s.len() - 1 && s[j] == ']' {
                    Some(ts)
                } else {
                    None
                }
            },
        }
    } else {
        None
    }
}

// ---------------------------------------------------------------------------
// The round-trip proof: parsing an encoded list gives back the list
// ---------------------------------------------------------------------------

/// A fixed text standing at `i` splits into its two halves.
proof fn lemma_lit_at_split(s: Seq<char>, i: int, a: Seq<char>, b: Seq<char>)
    requires
        lit_at(s, i, a + b),
    ensures
        lit_at(s, i, a),
        lit_at(s, i + a.len(), b),
{
    let w = s.subrange(i, i + (a + b).len() as int);
    assert(s.subrange(i, i + a.len() as int) =~= a) by {
        assert forall|k: int| 0 <= k < a.len() implies #[trigger] s.subrange(
            i,
            i + a.len() as int,
        )[k] == a[k] by {
            assert(s[i + k] == w[k]);
            assert(w[k] == (a + b)[k]);
        }
    }
    assert(s.subrange(i + a.len(), i + a.len() + b.len() as int) =~= b) by {
        assert forall|k: int| 0 <= k < b.len() implies #[trigger] s.subrange(
            i + a.len(),
            i + a.len() + b.len() as int,
        )[k] == b[k] by {
            assert(s[i + a.len() + k] == w[a.len() + k]);
            assert(w[a.len() + k] == (a + b)[a.len() + k]);
        }
    }
}

/// Two adjacent fixed texts merge into one.
proof fn lemma_lit_at_merge(s: Seq<char>, i: int, a: Seq<char>, b: Seq<char>)
    requires
        lit_at(s, i, a),
        lit_at(s, i + a.len(), b),
    ensures
        lit_at(s, i, a + b),
{
    assert(s.subrange(i, i + (a + b).len() as int) =~= a + b) by {
        assert forall|k: int| 0 <= k < (a + b).len() implies #[trigger] s.subrange(
            i,
            i + (a + b).len() as int,
        )[k] == (a + b)[k] by {
            if k < a.len() {
                assert(s[i + k] == s.subrange(i, i + a.len() as int)[k]);
            } else {
                assert(s[i + k] == s.subrange(i + a.len(), i + a.len() + b.len() as int)[k
                    - a.len()]);
            }
        }
    }
}

/// A one-character fixed text pins down the character.
proof fn lemma_lit_at_char(s: Seq<char>, i: int, c: char)
    requires
        lit_at(s, i, seq![c]),
    ensures
        0 <= i < s.len(),
        s[i] == c,
{
    assert(s[i] == s.subrange(i, i + 1)[0]);
}

/// The decimal digits of a number: never empty, all digit characters, and
/// they denote the number itself.
proof fn lemma_spec_digits(n: nat)
    ensures
        spec_digits(n).len() >= 1,
        forall|k: int| 0 <= k < spec_digits(n).len() ==> is_digit(#[trigger] spec_digits(n)[k]),
        seq_val(spec_digits(n)) == n,
    decreases n,
{
    assert(n % 10 < 10 && n / 10 * 10 + n % 10 == n) by (nonlinear_arith);
    if n < 10 {
        let d = spec_digits(n);
        assert(d.drop_last() =~= Seq::<char>::empty());
        assert(seq_val(d) == seq_val(Seq::<char>::empty()) * 10 + digit_val(digit_char(n)));
    } else {
        lemma_spec_digits(n / 10);
        assert(n / 10 < n) by (nonlinear_arith)
            requires n >= 10,
        ;
        let p = spec_digits(n / 10);
        let d = spec_digits(n);
        assert(d == p.push(digit_char(n % 10)));
        assert(d.drop_last() =~= p);
        assert(seq_val(d) == seq_val(p) * 10 + digit_val(digit_char(n % 10)));
        assert forall|k: int| 0 <= k < d.len() implies is_digit(#[trigger] d[k]) by {
            if k < p.len() {
                assert(d[k] == p[k]);
            }
        }
    }
}

/// A run of digit characters bounded by a non-digit ends exactly at the
/// boundary.
proof fn lemma_digits_end_of(s: Seq<char>, i: int, k: int)
    requires
        0 <= i,
        0 <= k,
        i + k <= s.len(),
        forall|m: int| 0 <= m < k ==> is_digit(#[trigger] s[i + m]),
        i + k == s.len() || !is_digit(s[i + k]),
    ensures
        digits_end(s, i) == i + k,
    decreases k,
{
    if k == 0 {
    } else {
        assert(is_digit(s[i + 0]));
        assert forall|m: int| 0 <= m < k - 1 implies is_digit(#[trigger] s[(i + 1) + m]) by {
            assert(is_digit(s[i + (m + 1)]));
        }
        lemma_digits_end_of(s, i + 1, k - 1);
    }
}

/// Parsing the encoded digits of `n`, with a non-digit right after them,
/// yields `n` back.
proof fn lemma_parse_u32(s: Seq<char>, i: int, n: nat)
    requires
        n <= u32::MAX,
        lit_at(s, i, spec_digits(n)),
        i + spec_digits(n).len() == s.len() || !is_digit(s[i + spec_digits(n).len()]),
    ensures
        parse_u32_at(s, i) == Some((n as u32, i + spec_digits(n).len() as int)),
{
    lemma_spec_digits(n);
    let d = spec_digits(n);
    let j = i + d.len() as int;
    assert forall|m: int| 0 <= m < d.len() implies is_digit(#[trigger] s[i + m]) by {
        assert(s[i + m] == s.subrange(i, j)[m]);
    }
    lemma_digits_end_of(s, i, d.len() as int);
    assert(s.subrange(i, j) == d);
    assert(seq_val(s.subrange(i, j)) == n);
}

/// Parsing an escaped description followed by its closing quote yields the
/// description back.
proof fn lemma_parse_string_body(s: Seq<char>, i: int, d: Seq<char>)
    requires
        lit_at(s, i, escape_seq(d) + seq!['"']),
    ensures
        parse_string_body(s, i) == Some((d, i + escape_seq(d).len() + 1)),
    decreases d.len(),
{
    if d.len() == 0 {
        assert(escape_seq(d) + seq!['"'] =~= seq!['"']);
        lemma_lit_at_char(s, i, '"');
        assert(parse_string_body(s, i) == Some((Seq::<char>::empty(), i + 1)));
        assert(d =~= Seq::<char>::empty());
    } else {
        let e = escape_char(d[0]);
        let rest = escape_seq(d.drop_first());
        assert(escape_seq(d) == e + rest);
        assert(escape_seq(d) + seq!['"'] =~= e + (rest + seq!['"']));
        lemma_lit_at_split(s, i, e, rest + seq!['"']);
        lemma_parse_string_body(s, i + e.len(), d.drop_first());
        if d[0] == '"' || d[0] == '\\' {
            assert(e =~= seq!['\\'] + seq![d[0]]);
            lemma_lit_at_split(s, i, seq!['\\'], seq![d[0]]);
            lemma_lit_at_char(s, i, '\\');
            lemma_lit_at_char(s, i + 1, d[0]);
            assert(i + 1 < s.len());
            assert(parse_string_body(s, i) == Some((seq![s[i + 1]] + d.drop_first(), i + 2
                + rest.len() + 1)));
            assert(seq![d[0]] + d.drop_first() =~= d);
        } else {
            assert(e =~= seq![d[0]]);
            lemma_lit_at_char(s, i, d[0]);
            assert(s[i] != '"' && s[i] != '\\');
            assert(parse_string_body(s, i) == Some((seq![s[i]] + d.drop_first(), i + 1
                + rest.len() + 1)));
            assert(seq![d[0]] + d.drop_first() =~= d);
        }
    }
}

/// Parsing an encoded task record yields the record back.
proof fn lemma_parse_task(s: Seq<char>, i: int, t: TaskModel)
    requires
        lit_at(s, i, encode_task(t)),
    ensures
        parse_task_at(s, i) == Some((t, i + encode_task(t).len() as int)),
        encode_task(t).len() > 0,
{
    let dig = spec_digits(t.id as nat);
    let esc = escape_seq(t.description);
    let bl = if t.completed {
        lit_true()
    } else {
        lit_false()
    };
    let p1 = lit_id() + dig;
    let p2 = p1 + lit_description();
    let p3 = p2 + esc;
    let p4 = p3 + seq!['"'];
    let p5 = p4 + lit_completed();
    let p6 = p5 + bl;
    assert(encode_task(t) == p6 + seq!['}']);
    lemma_lit_at_split(s, i, p6, seq!['}']);
    lemma_lit_at_split(s, i, p5, bl);
    lemma_lit_at_split(s, i, p4, lit_completed());
    lemma_lit_at_split(s, i, p3, seq!['"']);
    lemma_lit_at_split(s, i, p2, esc);
    lemma_lit_at_split(s, i, p1, lit_description());
    lemma_lit_at_split(s, i, lit_id(), dig);

    let i1 = i + 6;
    let i2 = i1 + dig.len() as int;
    let i3 = i2 + 16;
    let i4 = i3 + esc.len() as int;
    let i5 = i4 + 1;
    let i6 = i5 + 13;
    let i7 = i6 + bl.len() as int;

    // the id's digits are followed by the comma that opens the next field
    assert(s[i2] == s.subrange(i2, i2 + 16)[0]);
    assert(s[i2] == ',');
    assert(!is_digit(','));
    lemma_spec_digits(t.id as nat);
    lemma_parse_u32(s, i1, t.id as nat);
    assert(parse_u32_at(s, i1) == Some((t.id, i2)));

    // the escaped description together with its closing quote
    lemma_lit_at_merge(s, i3, esc, seq!['"']);
    lemma_parse_string_body(s, i3, t.description);
    assert(parse_string_body(s, i3) == Some((t.description, i5)));

    // the completion flag
    if t.completed {
        assert(lit_at(s, i6, lit_true()));
    } else {
        assert(s[i6] == s.subrange(i6, i6 + 5)[0]);
        assert(s[i6] == 'f');
        assert(!lit_at(s, i6, lit_true())) by {
            if lit_at(s, i6, lit_true()) {
                assert(s[i6] == s.subrange(i6, i6 + 4)[0]);
            }
        }
        assert(lit_at(s, i6, lit_false()));
    }

    // the closing brace
    lemma_lit_at_char(s, i7, '}');
    assert(parse_task_at(s, i) == Some((t, i7 + 1)));
}

/// Parsing encoded records, with a character other than a comma right after
/// them, yields the records back.
proof fn lemma_parse_items(s: Seq<char>, i: int, ts: Seq<TaskModel>)
    requires
        ts.len() >= 1,
        lit_at(s, i, encode_items(ts)),
        i + encode_items(ts).len() < s.len(),
        s[i + encode_items(ts).len()] != ',',
    ensures
        parse_items_at(s, i) == Some((ts, i + encode_items(ts).len() as int)),
    decreases ts.len(),
{
    if ts.len() == 1 {
        assert(encode_items(ts) == encode_task(ts[0]));
        lemma_parse_task(s, i, ts[0]);
        let j = i + encode_task(ts[0]).len() as int;
        assert(s[j] != ',');
        assert(seq![ts[0]] =~= ts);
    } else {
        let head = encode_task(ts[0]);
        let rest = encode_items(ts.drop_first());
        assert(encode_items(ts) == head + seq![','] + rest);
        lemma_lit_at_split(s, i, head + seq![','], rest);
        lemma_lit_at_split(s, i, head, seq![',']);
        lemma_parse_task(s, i, ts[0]);
        let j0 = i + head.len() as int;
        lemma_lit_at_char(s, j0, ',');
        lemma_parse_items(s, j0 + 1, ts.drop_first());
        assert(seq![ts[0]] + ts.drop_first() =~= ts);
    }
}

/// Law: the persisted text of any task list parses back to that very list,
/// field for field and in the same order.
pub proof fn lemma_encode_parse_round_trip(ts: Seq<TaskModel>)
    ensures
        parse_list(encode_list(ts)) == Some(ts),
{
    let s = encode_list(ts);
    if ts.len() == 0 {
        assert(encode_items(ts) == Seq::<char>::empty());
        assert(s =~= seq!['[', ']']);
        assert(s[0] == '[' && s[1] == ']');
    } else {
        let items = encode_items(ts);
        assert(s == seq!['['] + items + seq![']']);
        assert(s.subrange(0, s.len() as int) =~= s);
        assert(lit_at(s, 0, seq!['['] + items + seq![']']));
        lemma_lit_at_split(s, 0, seq!['['] + items, seq![']']);
        lemma_lit_at_split(s, 0, seq!['['], items);
        lemma_lit_at_char(s, 0, '[');
        lemma_lit_at_char(s, 1 + items.len() as int, ']');
        lemma_parse_items(s, 1, ts);
        assert(s.len() > 2) by {
            lemma_spec_digits(ts[0].id as nat);
            if ts.len() == 1 {
                assert(items == encode_task(ts[0]));
            } else {
                assert(items == encode_task(ts[0]) + seq![','] + encode_items(ts.drop_first()));
            }
        }
        assert(parse_list(s) == Some(ts));
    }
}

// ---------------------------------------------------------------------------
// The executable encoder
// ---------------------------------------------------------------------------

/// Appending a character extends the escaped text by that character's
/// escaped form.
proof fn lemma_escape_seq_push(s: Seq<char>, c: char)
    ensures
        escape_seq(s.push(c)) == escape_seq(s) + escape_char(c),
    decreases s.len(),
{
    if s.len() == 0 {
        assert(s.push(c).drop_first() =~= Seq::<char>::empty());
        assert(escape_seq(s.push(c)) =~= escape_seq(s) + escape_char(c));
    } else {
        assert(s.push(c).drop_first() =~= s.drop_first().push(c));
        lemma_escape_seq_push(s.drop_first(), c);
        assert(s.push(c)[0] == s[0]);
        assert(escape_seq(s.push(c)) == escape_char(s.push(c)[0]) + escape_seq(
            s.push(c).drop_first(),
        ));
        assert(escape_seq(s.push(c)) == escape_char(s[0]) + (escape_seq(s.drop_first())
            + escape_char(c)));
        assert(escape_seq(s) == escape_char(s[0]) + escape_seq(s.drop_first()));
        assert(escape_seq(s.push(c)) =~= escape_seq(s) + escape_char(c));
    }
}

/// Appending a record extends the encoded items by a comma and that record.
proof fn lemma_encode_items_push(ts: Seq<TaskModel>, t: TaskModel)
    requires
        ts.len() >= 1,
    ensures
        encode_items(ts.push(t)) == encode_items(ts) + seq![','] + encode_task(t),
    decreases ts.len(),
{
    let p = ts.push(t);
    if ts.len() == 1 {
        assert(p.drop_first() =~= seq![t]);
        assert(encode_items(seq![t]) == encode_task(t));
        assert(encode_items(p) =~= encode_items(ts) + seq![','] + encode_task(t));
    } else {
        assert(p.drop_first() =~= ts.drop_first().push(t));
        lemma_encode_items_push(ts.drop_first(), t);
        assert(encode_items(p) =~= encode_items(ts) + seq![','] + encode_task(t));
    }
}

/// The digit character of a value below ten.
fn digit_to_char(d: u32) -> (c: char)
    requires
        d < 10,
    ensures
        c == digit_char(d as nat),
{
    match d {
        0 => '0',
        1 => '1',
        2 => '2',
        3 => '3',
        4 => '4',
        5 => '5',
        6 => '6',
        7 => '7',
        8 => '8',
        _ => '9',
    }
}

/// Appends the decimal digits of `n`.
fn push_digits(n: u32, out: &mut Vec<char>)
    ensures
        final(out)@ == old(out)@ + spec_digits(n as nat),
    decreases n,
{
    if n < 10 {
        out.push(digit_to_char(n));
        proof {
            assert(out@ =~= old(out)@ + spec_digits(n as nat));
        }
    } else {
        push_digits(n / 10, out);
        out.push(digit_to_char(n % 10));
        proof {
            assert(out@ =~= old(out)@ + spec_digits(n as nat));
        }
    }
}

/// Appends the characters of `s` unchanged.
fn push_str_chars(out: &mut Vec<char>, s: &str)
    ensures
        final(out)@ == old(out)@ + s@,
{
    let n = s.unicode_len();
    let mut i: usize = 0;
    while i < n
        invariant
            n == s@.len(),
            i <= n,
            out@ == old(out)@ + s@.take(i as int),
        decreases n - i,
    {
        let c = s.get_char(i);
        out.push(c);
        proof {
            assert(old(out)@ + s@.take(i as int + 1) =~= (old(out)@ + s@.take(i as int)).push(
                s@[i as int],
            ));
        }
        i = i + 1;
    }
    proof {
        assert(s@.take(n as int) =~= s@);
    }
}

/// Appends the escaped form of `d`.
fn push_escaped(out: &mut Vec<char>, d: &str)
    ensures
        final(out)@ == old(out)@ + escape_seq(d@),
{
    let n = d.unicode_len();
    let mut i: usize = 0;
    proof {
        assert(escape_seq(d@.take(0)) =~= Seq::<char>::empty());
        assert(out@ =~= out@ + escape_seq(d@.take(0)));
    }
    while i < n
        invariant
            n == d@.len(),
            i <= n,
            out@ == old(out)@ + escape_seq(d@.take(i as int)),
        decreases n - i,
    {
        let c = d.get_char(i);
        if c == '"' || c == '\\' {
            out.push('\\');
        }
        out.push(c);
        proof {
            lemma_escape_seq_push(d@.take(i as int), d@[i as int]);
            assert(d@.take(i as int + 1) =~= d@.take(i as int).push(d@[i as int]));
            assert(out@ =~= old(out)@ + escape_seq(d@.take(i as int + 1)));
        }
        i = i + 1;
    }
    proof {
        assert(d@.take(n as int) =~= d@);
    }
}

/// Appends the text form of one task record.
fn encode_task_exec(t: &Task, out: &mut Vec<char>)
    ensures
        final(out)@ == old(out)@ + encode_task(t@),
{
    push_str_chars(out, "{\"id\":");
    proof {
        reveal_strlit("{\"id\":");
        assert("{\"id\":"@ =~= lit_id());
    }
    push_digits(t.id, out);
    push_str_chars(out, ",\"description\":\"");
    proof {
        reveal_strlit(",\"description\":\"");
        assert(",\"description\":\""@ =~= lit_description());
    }
    push_escaped(out, t.description.as_str());
    out.push('"');
    push_str_chars(out, ",\"completed\":");
    proof {
        reveal_strlit(",\"completed\":");
        assert(",\"completed\":"@ =~= lit_completed());
    }
    if t.completed {
        push_str_chars(out, "true");
        proof {
            reveal_strlit("true");
            assert("true"@ =~= lit_true());
        }
    } else {
        push_str_chars(out, "false");
        proof {
            reveal_strlit("false");
            assert("false"@ =~= lit_false());
        }
    }
    out.push('}');
    proof {
        assert(out@ =~= old(out)@ + encode_task(t@));
    }
}

/// Relies on `String`'s `FromIterator` over `char`: collecting an iterator
/// of characters builds the string of exactly those characters in order.
#[verifier::external_body]
fn chars_to_string(v: &Vec<char>) -> (r: String)
    ensures
        r@ == v@,
{
    v.iter().collect()
}

// ---------------------------------------------------------------------------
// The executable parser
// ---------------------------------------------------------------------------

/// Why a persisted task list could not be loaded.
#[derive(Clone, Copy, Debug, PartialEq, Eq, Structural)]
pub enum LoadError {
    /// The persisted location could not be read at all.
    Unreadable,
    /// The location was read, but its content is not an encoded task list.
    Malformed,
}

/// Whether the character at `j` is a decimal digit.
fn digit_at(s: &Vec<char>, j: usize) -> (b: bool)
    requires
        j < s@.len(),
    ensures
        b == is_digit(s@[j as int]),
{
    let c = s[j];
    match c {
        '0' | '1' | '2' | '3' | '4' | '5' | '6' | '7' | '8' | '9' => true,
        _ => false,
    }
}

/// The numeric value of a digit character.
fn digit_value(c: char) -> (d: u32)
    requires
        is_digit(c),
    ensures
        d == digit_val(c),
{
    match c {
        '0' => 0,
        '1' => 1,
        '2' => 2,
        '3' => 3,
        '4' => 4,
        '5' => 5,
        '6' => 6,
        '7' => 7,
        '8' => 8,
        _ => 9,
    }
}

/// A digit run denotes at least as much as any of its prefixes.
proof fn lemma_seq_val_prefix_le(s: Seq<char>, i: int, k: int, j: int)
    requires
        0 <= i <= k <= j <= s.len(),
    ensures
        seq_val(s.subrange(i, k)) <= seq_val(s.subrange(i, j)),
    decreases j - k,
{
    if k < j {
        lemma_seq_val_prefix_le(s, i, k, j - 1);
        assert(s.subrange(i, j).drop_last() =~= s.subrange(i, j - 1));
        assert(seq_val(s.subrange(i, j)) == seq_val(s.subrange(i, j - 1)) * 10 + digit_val(
            s[j - 1],
        ));
        assert(seq_val(s.subrange(i, j - 1)) * 10 >= seq_val(s.subrange(i, j - 1)));
    }
}

/// Reads an unsigned 32-bit decimal number, mirroring `parse_u32_at`.
fn parse_u32_exec(s: &Vec<char>, i: usize) -> (r: Option<(u32, usize)>)
    requires
        i <= s@.len(),
    ensures
        match r {
            Some((v, j)) => parse_u32_at(s@, i as int) == Some((v, j as int)) && i < j <= s@.len(),
            None => parse_u32_at(s@, i as int) is None,
        },
{
    let mut j: usize = i;
    let mut more = j < s.len() && digit_at(s, j);
    while more
        invariant
            i <= j <= s@.len(),
            s@.len() <= usize::MAX,
            digits_end(s@, i as int) == digits_end(s@, j as int),
            forall|m: int| i <= m < j ==> is_digit(#[trigger] s@[m]),
            more == (j < s@.len() && is_digit(s@[j as int])),
        decreases s@.len() - j,
    {
        proof {
            assert(digits_end(s@, j as int) == digits_end(s@, j as int + 1));
        }
        j = j + 1;
        more = j < s.len() && digit_at(s, j);
    }
    assert(digits_end(s@, i as int) == j);
    if j == i {
        return None;
    }
    let mut acc: u64 = 0;
    let mut k: usize = i;
    proof {
        assert(s@.subrange(i as int, i as int) =~= Seq::<char>::empty());
    }
    while k < j
        invariant
            i <= k <= j <= s@.len(),
            s@.len() <= usize::MAX,
            forall|m: int| i <= m < j ==> is_digit(#[trigger] s@[m]),
            acc == seq_val(s@.subrange(i as int, k as int)),
            acc <= u32::MAX as u64,
            digits_end(s@, i as int) == j,
        decreases j - k,
    {
        let d = digit_value(s[k]);
        proof {
            assert(is_digit(s@[k as int]));
            assert(s@.subrange(i as int, k as int + 1).drop_last() =~= s@.subrange(
                i as int,
                k as int,
            ));
            assert(seq_val(s@.subrange(i as int, k as int + 1)) == seq_val(
                s@.subrange(i as int, k as int),
            ) * 10 + digit_val(s@[k as int]));
            assert(digit_val(s@[k as int]) == d);
        }
        acc = acc * 10 + d as u64;
        if acc > u32::MAX as u64 {
            proof {
                lemma_seq_val_prefix_le(s@, i as int, k as int + 1, j as int);
            }
            return None;
        }
        k = k + 1;
    }
    Some((acc as u32, j))
}

/// Whether the characters of `l` stand at index `i`, mirroring `lit_at`.
fn lit_at_exec(s: &Vec<char>, i: usize, l: &str) -> (b: bool)
    requires
        i <= s@.len(),
    ensures
        b == lit_at(s@, i as int, l@),
{
    let n = l.unicode_len();
    if n > s.len() - i {
        return false;
    }
    let mut k: usize = 0;
    while k < n
        invariant
            0 <= k <= n,
            n == l@.len(),
            i + n <= s@.len(),
            s@.len() <= usize::MAX,
            forall|m: int| 0 <= m < k ==> s@[i + m] == l@[m],
        decreases n - k,
    {
        if s[i + k] != l.get_char(k) {
            proof {
                assert(s@.subrange(i as int, i + l@.len() as int)[k as int] == s@[i + k]);
            }
            return false;
        }
        k = k + 1;
    }
    proof {
        assert(s@.subrange(i as int, i + l@.len() as int) =~= l@);
    }
    true
}

/// `r` with the already-read characters `p` put back in front.
spec fn chars_with_prefix(p: Seq<char>, r: Option<(Seq<char>, int)>) -> Option<(Seq<char>, int)> {
    match r {
        Some((t, j)) => Some((p + t, j)),
        None => None,
    }
}

/// Reads an escaped string body up to and including its closing quote,
/// mirroring `parse_string_body`.
fn parse_string_body_exec(s: &Vec<char>, i: usize) -> (r: Option<(Vec<char>, usize)>)
    requires
        i <= s@.len(),
    ensures
        match r {
            Some((t, j)) => parse_string_body(s@, i as int) == Some((t@, j as int)) && i < j
                <= s@.len(),
            None => parse_string_body(s@, i as int) is None,
        },
{
    let mut acc: Vec<char> = Vec::new();
    let mut k: usize = i;
    proof {
        assert(acc@ =~= Seq::<char>::empty());
        match parse_string_body(s@, i as int) {
            Some((t, j)) => {
                assert(acc@ + t =~= t);
            },
            None => {},
        }
    }
    while k < s.len()
        invariant
            i <= k <= s@.len(),
            parse_string_body(s@, i as int) == chars_with_prefix(
                acc@,
                parse_string_body(s@, k as int),
            ),
        decreases s@.len() - k,
    {
        let c = s[k];
        if c == '"' {
            proof {
                assert(parse_string_body(s@, k as int) == Some((Seq::<char>::empty(), k + 1)));
                assert(acc@ + Seq::<char>::empty() =~= acc@);
            }
            return Some((acc, k + 1));
        } else if c == '\\' {
            if k + 1 < s.len() && (s[k + 1] == '"' || s[k + 1] == '\\') {
                let ghost accp = acc@;
                acc.push(s[k + 1]);
                proof {
                    match parse_string_body(s@, k as int + 2) {
                        Some((t, j)) => {
                            assert(parse_string_body(s@, k as int) == Some((seq![s@[k + 1]] + t,
                                j,
                            )));
                            assert(accp + (seq![s@[k + 1]] + t) =~= acc@ + t);
                        },
                        None => {},
                    }
                }
                k = k + 2;
            } else {
                return None;
            }
        } else {
            let ghost accp = acc@;
            acc.push(c);
            proof {
                match parse_string_body(s@, k as int + 1) {
                    Some((t, j)) => {
                        assert(parse_string_body(s@, k as int) == Some((seq![s@[k as int]] + t,
                            j,
                        )));
                        assert(accp + (seq![s@[k as int]] + t) =~= acc@ + t);
                    },
                    None => {},
                }
            }
            k = k + 1;
        }
    }
    None
}

/// Reads one task record, mirroring `parse_task_at`.
fn parse_task_exec(s: &Vec<char>, i: usize) -> (r: Option<(Task, usize)>)
    requires
        i <= s@.len(),
    ensures
        match r {
            Some((t, j)) => parse_task_at(s@, i as int) == Some((t@, j as int)) && i < j
                <= s@.len(),
            None => parse_task_at(s@, i as int) is None,
        },
{
    proof {
        reveal_strlit("{\"id\":");
        assert("{\"id\":"@ =~= lit_id());
        reveal_strlit(",\"description\":\"");
        assert(",\"description\":\""@ =~= lit_description());
        reveal_strlit(",\"completed\":");
        assert(",\"completed\":"@ =~= lit_completed());
        reveal_strlit("true");
        assert("true"@ =~= lit_true());
        reveal_strlit("false");
        assert("false"@ =~= lit_false());
    }
    let n = s.len();
    if !lit_at_exec(s, i, "{\"id\":") {
        return None;
    }
    let i1 = i + 6;
    let (id, i2) = match parse_u32_exec(s, i1) {
        None => {
            return None;
        },
        Some(p) => p,
    };
    if !lit_at_exec(s, i2, ",\"description\":\"") {
        return None;
    }
    let i3 = i2 + 16;
    let (d, i4) = match parse_string_body_exec(s, i3) {
        None => {
            return None;
        },
        Some(p) => p,
    };
    if !lit_at_exec(s, i4, ",\"completed\":") {
        return None;
    }
    let i5 = i4 + 13;
    let (completed, i6) = if lit_at_exec(s, i5, "true") {
        (true, i5 + 4)
    } else if lit_at_exec(s, i5, "false") {
        (false, i5 + 5)
    } else {
        return None;
    };
    if i6 < n && s[i6] == '}' {
        let description = chars_to_string(&d);
        Some((Task { id, description, completed }, i6 + 1))
    } else {
        None
    }
}

/// `r` with the already-read records `p` put back in front.
spec fn items_with_prefix(p: Seq<TaskModel>, r: Option<(Seq<TaskModel>, int)>) -> Option<
    (Seq<TaskModel>, int),
> {
    match r {
        Some((ts, j)) => Some((p + ts, j)),
        None => None,
    }
}

/// Reads one or more comma-separated task records, mirroring
/// `parse_items_at`.
fn parse_items_exec(s: &Vec<char>, i: usize) -> (r: Option<(Vec<Task>, usize)>)
    requires
        i <= s@.len(),
    ensures
        match r {
            Some((v, j)) => parse_items_at(s@, i as int) == Some((models(v@), j as int)) && i < j
                <= s@.len(),
            None => parse_items_at(s@, i as int) is None,
        },
{
    let mut acc: Vec<Task> = Vec::new();
    let mut k: usize = i;
    proof {
        assert(models(acc@) =~= Seq::<TaskModel>::empty());
        match parse_items_at(s@, i as int) {
            Some((ts, j)) => {
                assert(models(acc@) + ts =~= ts);
            },
            None => {},
        }
    }
    loop
        invariant
            i <= k <= s@.len(),
            parse_items_at(s@, i as int) == items_with_prefix(
                models(acc@),
                parse_items_at(s@, k as int),
            ),
        decreases s@.len() - k,
    {
        match parse_task_exec(s, k) {
            None => {
                return None;
            },
            Some((t, j)) => {
                if j < s.len() && s[j] == ',' {
                    let ghost accp = models(acc@);
                    let ghost tm = t@;
                    acc.push(t);
                    proof {
                        assert(models(acc@) =~= accp.push(tm));
                        match parse_items_at(s@, j as int + 1) {
                            Some((ts, j2)) => {
                                assert(parse_items_at(s@, k as int) == Some((seq![tm] + ts, j2)));
                                assert(accp + (seq![tm] + ts) =~= accp.push(tm) + ts);
                            },
                            None => {},
                        }
                    }
                    k = j + 1;
                } else {
                    let ghost accp = models(acc@);
                    let ghost tm = t@;
                    acc.push(t);
                    proof {
                        assert(models(acc@) =~= accp.push(tm));
                        assert(parse_items_at(s@, k as int) == Some((seq![tm], j as int)));
                        assert(accp + seq![tm] =~= accp.push(tm));
                    }
                    return Some((acc, j));
                }
            },
        }
    }
}

/// The characters of `s`, in order.
fn str_chars(s: &str) -> (r: Vec<char>)
    ensures
        r@ == s@,
{
    let n = s.unicode_len();
    let mut r: Vec<char> = Vec::new();
    let mut i: usize = 0;
    while i < n
        invariant
            n == s@.len(),
            i <= n,
            r@ == s@.take(i as int),
        decreases n - i,
    {
        r.push(s.get_char(i));
        proof {
            assert(s@.take(i as int + 1) =~= s@.take(i as int).push(s@[i as int]));
        }
        i = i + 1;
    }
    proof {
        assert(s@.take(n as int) =~= s@);
    }
    r
}

impl TodoList {
    /// The persisted text form of the whole store.
    pub fn encode(&self) -> (r: String)
        ensures
            r@ == encode_list(self@),
    {
        let ts: &Vec<Task> = self.tasks();
        let mut out: Vec<char> = Vec::new();
        out.push('[');
        let n = ts.len();
        let mut i: usize = 0;
        proof {
            assert(out@ =~= seq!['[']);
            assert(models(ts@).take(0) =~= Seq::<TaskModel>::empty());
            assert(seq!['['] + encode_items(Seq::<TaskModel>::empty()) =~= seq!['[']);
        }
        while i < n
            invariant
                n == ts@.len(),
                models(ts@) == self@,
                i <= n,
                out@ == seq!['['] + encode_items(models(ts@).take(i as int)),
            decreases n - i,
        {
            if i > 0 {
                out.push(',');
            }
            encode_task_exec(&ts[i], &mut out);
            proof {
                let m = models(ts@);
                assert(m.take(i as int + 1) =~= m.take(i as int).push(ts@[i as int]@));
                if i == 0 {
                    assert(m.take(1) =~= seq![ts@[0]@]);
                    assert(encode_items(seq![ts@[0]@]) == encode_task(ts@[0]@));
                } else {
                    lemma_encode_items_push(m.take(i as int), ts@[i as int]@);
                }
                assert(out@ =~= seq!['['] + encode_items(m.take(i as int + 1)));
            }
            i = i + 1;
        }
        out.push(']');
        proof {
            assert(models(ts@).take(n as int) =~= models(ts@));
            assert(out@ =~= encode_list(self@));
        }
        chars_to_string(&out)
    }

    /// Reads a store back from its persisted text form. Succeeds exactly on
    /// the texts `encode` produces; anything else is `Malformed`.
    pub fn decode(s: &str) -> (r: Result<TodoList, LoadError>)
        ensures
            match r {
                Ok(tl) => parse_list(s@) == Some(tl@),
                Err(e) => parse_list(s@) is None && e == LoadError::Malformed,
            },
    {
        let cs = str_chars(s);
        if cs.len() == 2 && cs[0] == '[' && cs[1] == ']' {
            return Ok(TodoList::new());
        }
        if cs.len() >= 2 && cs[0] == '[' {
            match parse_items_exec(&cs, 1) {
                None => Err(LoadError::Malformed),
                Some((v, j)) => {
                    if j == cs.len() - 1 && cs[j] == ']' {
                        Ok(TodoList::from_tasks(v))
                    } else {
                        Err(LoadError::Malformed)
                    }
                },
            }
        } else {
            Err(LoadError::Malformed)
        }
    }

    /// The fallback used at startup: the loaded store where loading
    /// succeeded, and an empty store where it failed.
    pub fn or_empty(r: Result<TodoList, LoadError>) -> (t: TodoList)
        ensures
            match r {
                Ok(tl) => t@ == tl@,
                Err(_) => t@ == Seq::<TaskModel>::empty(),
            },
    {
        match r {
            Ok(tl) => tl,
            Err(_) => TodoList::new(),
        }
    }
}

} // verus!
