//! The canonical JSON text of a store, and its grammar.
//!
//! `canon_state` is the exact character sequence the store is persisted as:
//! an object with a `tasks` array and a `next_task_id` counter, description
//! text escaped so that quotes and backslashes survive. The `parse_*` spec
//! functions form a deterministic recursive-descent reading of that grammar;
//! `lemma_parse_state_of_canon` proves that parsing inverts encoding.

use vstd::prelude::*;

use crate::model::{StateView, TaskView};

verus! {

// ---------------------------------------------------------------------------
// Characters and decimal digits
// ---------------------------------------------------------------------------

/// Whether the character is a decimal digit.
pub open spec fn is_digit(c: char) -> bool {
    c == '0' || c == '1' || c == '2' || c == '3' || c == '4' || c == '5' || c == '6' || c == '7'
        || c == '8' || c == '9'
}

/// The character for one decimal digit value.
pub open spec fn digit_char(d: int) -> char {
    if d == 0 {
        '0'
    } else if d == 1 {
        '1'
    } else if d == 2 {
        '2'
    } else if d == 3 {
        '3'
    } else if d == 4 {
        '4'
    } else if d == 5 {
        '5'
    } else if d == 6 {
        '6'
    } else if d == 7 {
        '7'
    } else if d == 8 {
        '8'
    } else {
        '9'
    }
}

/// The value of one decimal digit character.
pub open spec fn digit_val(c: char) -> int {
    if c == '0' {
        0
    } else if c == '1' {
        1
    } else if c == '2' {
        2
    } else if c == '3' {
        3
    } else if c == '4' {
        4
    } else if c == '5' {
        5
    } else if c == '6' {
        6
    } else if c == '7' {
        7
    } else if c == '8' {
        8
    } else {
        9
    }
}

/// The decimal digit string of a non-negative number, most significant
/// digit first, no leading zeros (`0` itself is the single digit `0`).
pub open spec fn dec_digits(n: nat) -> Seq<char>
    decreases n,
{
    if n < 10 {
        seq![digit_char(n as int)]
    } else {
        dec_digits(n / 10).push(digit_char((n % 10) as int))
    }
}

// ---------------------------------------------------------------------------
// Encoding
// ---------------------------------------------------------------------------

/// How one description character is written inside a JSON string: quotes
/// and backslashes get a backslash escape, everything else stands as is.
pub open spec fn esc_char(c: char) -> Seq<char> {
    if c == '"' {
        seq!['\\', '"']
    } else if c == '\\' {
        seq!['\\', '\\']
    } else {
        seq![c]
    }
}

/// The escaped form of a whole description.
pub open spec fn esc(s: Seq<char>) -> Seq<char>
    decreases s.len(),
{
    if s.len() == 0 {
        Seq::empty()
    } else {
        esc_char(s[0]) + esc(s.drop_first())
    }
}

/// The opening of the store object: `{"tasks":[`.
pub open spec fn lit_header() -> Seq<char> {
    seq!['{', '"', 't', 'a', 's', 'k', 's', '"', ':', '[']
}

/// The opening of one task object: `{"id":`.
pub open spec fn lit_id() -> Seq<char> {
    seq!['{', '"', 'i', 'd', '"', ':']
}

/// The middle of one task object: `,"description":"`.
pub open spec fn lit_desc() -> Seq<char> {
    seq![',', '"', 'd', 'e', 's', 'c', 'r', 'i', 'p', 't', 'i', 'o', 'n', '"', ':', '"']
}

/// The counter field that follows the task array: `,"next_task_id":`.
pub open spec fn lit_next() -> Seq<char> {
    seq![',', '"', 'n', 'e', 'x', 't', '_', 't', 'a', 's', 'k', '_', 'i', 'd', '"', ':']
}

/// The canonical text of one task.
pub open spec fn canon_task(t: TaskView) -> Seq<char> {
    lit_id() + dec_digits(t.id as nat) + lit_desc() + esc(t.description) + seq!['"', '}']
}

/// The canonical text of every task after the first, each with its
/// separating comma.
pub open spec fn canon_rest(ts: Seq<TaskView>) -> Seq<char>
    decreases ts.len(),
{
    if ts.len() == 0 {
        Seq::empty()
    } else {
        seq![','] + canon_task(ts[0]) + canon_rest(ts.drop_first())
    }
}

/// The canonical text of the task array's contents.
pub open spec fn canon_tasks(ts: Seq<TaskView>) -> Seq<char> {
    if ts.len() == 0 {
        Seq::empty()
    } else {
        canon_task(ts[0]) + canon_rest(ts.drop_first())
    }
}

/// The canonical text of the whole store.
pub open spec fn canon_state(v: StateView) -> Seq<char> {
    lit_header() + canon_tasks(v.tasks) + seq![']'] + lit_next() + dec_digits(
        v.next_task_id as nat,
    ) + seq!['}']
}

/// Every identifier and the counter fit the machine integer and are
/// non-negative, so the canonical text is meaningful.
pub open spec fn ids_bounded(v: StateView) -> bool {
    &&& 0 <= v.next_task_id <= i32::MAX
    &&& forall|i: int| 0 <= i < v.tasks.len() ==> 0 <= #[trigger] v.tasks[i].id <= i32::MAX
}

// ---------------------------------------------------------------------------
// Parsing
// ---------------------------------------------------------------------------

/// Whether the text begins with the given prefix.
pub open spec fn starts_with(s: Seq<char>, p: Seq<char>) -> bool {
    p.len() <= s.len() && s.take(p.len() as int) == p
}

/// Consume an exact literal, yielding the rest of the text.
pub open spec fn parse_lit(s: Seq<char>, lit: Seq<char>) -> Option<Seq<char>> {
    if starts_with(s, lit) {
        Some(s.skip(lit.len() as int))
    } else {
        None
    }
}

/// Length of the leading run of digit characters.
pub open spec fn count_digits(s: Seq<char>) -> nat
    decreases s.len(),
{
    if s.len() > 0 && is_digit(s[0]) {
        1 + count_digits(s.drop_first())
    } else {
        0
    }
}

/// The number a digit string stands for.
pub open spec fn digits_val(p: Seq<char>) -> int
    decreases p.len(),
{
    if p.len() == 0 {
        0
    } else {
        digits_val(p.drop_last()) * 10 + digit_val(p.last())
    }
}

/// Consume a non-negative number: the maximal digit run, rejected when it
/// is empty or its value does not fit the machine integer.
pub open spec fn parse_number(s: Seq<char>) -> Option<(int, Seq<char>)> {
    let k = count_digits(s) as int;
    if k == 0 {
        None
    } else {
        let v = digits_val(s.take(k));
        if v <= i32::MAX {
            Some((v, s.skip(k)))
        } else {
            None
        }
    }
}

/// Consume a string body up to and including its closing quote, undoing
/// the escapes; any other use of a backslash, or a missing closing quote,
/// is a parse failure.
pub open spec fn parse_string_body(s: Seq<char>) -> Option<(Seq<char>, Seq<char>)>
    decreases s.len(),
{
    if s.len() == 0 {
        None
    } else if s[0] == '"' {
        Some((Seq::empty(), s.drop_first()))
    } else if s[0] == '\\' {
        if s.len() >= 2 && (s[1] == '"' || s[1] == '\\') {
            match parse_string_body(s.skip(2)) {
                Some(r) => Some((seq![s[1]] + r.0, r.1)),
                None => None,
            }
        } else {
            None
        }
    } else {
        match parse_string_body(s.drop_first()) {
            Some(r) => Some((seq![s[0]] + r.0, r.1)),
            None => None,
        }
    }
}

/// Consume one task object.
pub open spec fn parse_task(s: Seq<char>) -> Option<(TaskView, Seq<char>)> {
    match parse_lit(s, lit_id()) {
        None => None,
        Some(r1) => match parse_number(r1) {
            None => None,
            Some((id, r2)) => match parse_lit(r2, lit_desc()) {
                None => None,
                Some(r3) => match parse_string_body(r3) {
                    None => None,
                    Some((d, r4)) => match parse_lit(r4, seq!['}']) {
                        None => None,
                        Some(r5) => Some((TaskView { id, description: d }, r5)),
                    },
                },
            },
        },
    }
}

/// Consume a non-empty comma-separated task list and its closing bracket.
pub open spec fn parse_tasks1(s: Seq<char>) -> Option<(Seq<TaskView>, Seq<char>)>
    decreases s.len(),
    via parse_tasks1_dec
{
    match parse_task(s) {
        None => None,
        Some((t, r)) => {
            if starts_with(r, seq![',']) {
                match parse_tasks1(r.skip(1)) {
                    None => None,
                    Some((ts, r2)) => Some((seq![t] + ts, r2)),
                }
            } else if starts_with(r, seq![']']) {
                Some((seq![t], r.skip(1)))
            } else {
                None
            }
        },
    }
}

#[via_fn]
proof fn parse_tasks1_dec(s: Seq<char>) {
    lemma_parse_task_consumes(s);
}

/// Consume the task array's contents and its closing bracket.
pub open spec fn parse_tasks(s: Seq<char>) -> Option<(Seq<TaskView>, Seq<char>)> {
    if starts_with(s, seq![']']) {
        Some((Seq::empty(), s.skip(1)))
    } else {
        parse_tasks1(s)
    }
}

/// Read a whole store from its text; `None` on any deviation from the
/// canonical grammar.
pub open spec fn parse_state(s: Seq<char>) -> Option<StateView> {
    match parse_lit(s, lit_header()) {
        None => None,
        Some(r1) => match parse_tasks(r1) {
            None => None,
            Some((ts, r2)) => match parse_lit(r2, lit_next()) {
                None => None,
                Some(r3) => match parse_number(r3) {
                    None => None,
                    Some((n, r4)) => if r4 == seq!['}'] {
                        Some(StateView { tasks: ts, next_task_id: n })
                    } else {
                        None
                    },
                },
            },
        },
    }
}

// ---------------------------------------------------------------------------
// How much each parser consumes
// ---------------------------------------------------------------------------

/// The leading digit run never runs past the end of the text.
pub proof fn lemma_count_digits_le(s: Seq<char>)
    ensures
        count_digits(s) <= s.len(),
    decreases s.len(),
{
    if s.len() > 0 && is_digit(s[0]) {
        lemma_count_digits_le(s.drop_first());
    }
}

/// A successful string body consumes at least its closing quote.
pub proof fn lemma_parse_string_body_consumes(s: Seq<char>)
    ensures
        parse_string_body(s) matches Some(r) ==> r.1.len() < s.len(),
    decreases s.len(),
{
    if s.len() == 0 {
    } else if s[0] == '"' {
    } else if s[0] == '\\' {
        if s.len() >= 2 && (s[1] == '"' || s[1] == '\\') {
            lemma_parse_string_body_consumes(s.skip(2));
        }
    } else {
        lemma_parse_string_body_consumes(s.drop_first());
    }
}

/// A successful task consumes at least its braces.
pub proof fn lemma_parse_task_consumes(s: Seq<char>)
    ensures
        parse_task(s) matches Some(r) ==> r.1.len() < s.len(),
{
    match parse_lit(s, lit_id()) {
        None => {},
        Some(r1) => {
            lemma_count_digits_le(r1);
            match parse_number(r1) {
                None => {},
                Some((id, r2)) => match parse_lit(r2, lit_desc()) {
                    None => {},
                    Some(r3) => {
                        lemma_parse_string_body_consumes(r3);
                    },
                },
            }
        },
    }
}

// ---------------------------------------------------------------------------
// Parsing inverts encoding
// ---------------------------------------------------------------------------

/// A decimal digit string is non-empty and consists of digits.
pub proof fn lemma_dec_digits_are_digits(n: nat)
    ensures
        dec_digits(n).len() >= 1,
        forall|i: int| 0 <= i < dec_digits(n).len() ==> is_digit(#[trigger] dec_digits(n)[i]),
    decreases n,
{
    if n < 10 {
    } else {
        lemma_dec_digits_are_digits(n / 10);
        let p = dec_digits(n / 10);
        let w = dec_digits(n);
        assert(w == p.push(digit_char((n % 10) as int)));
        assert forall|i: int| 0 <= i < w.len() implies is_digit(w[i]) by {
            if i < p.len() {
                assert(w[i] == p[i]);
            }
        }
    }
}

/// A digit run followed by a non-digit is counted exactly.
pub proof fn lemma_count_digits_exact(p: Seq<char>, rest: Seq<char>)
    requires
        forall|i: int| 0 <= i < p.len() ==> is_digit(#[trigger] p[i]),
        rest.len() == 0 || !is_digit(rest[0]),
    ensures
        count_digits(p + rest) == p.len(),
    decreases p.len(),
{
    if p.len() == 0 {
        assert(p + rest =~= rest);
    } else {
        assert((p + rest)[0] == p[0]);
        assert((p + rest).drop_first() =~= p.drop_first() + rest);
        assert forall|i: int| 0 <= i < p.drop_first().len() implies is_digit(
            #[trigger] p.drop_first()[i],
        ) by {
            assert(p.drop_first()[i] == p[i + 1]);
        }
        lemma_count_digits_exact(p.drop_first(), rest);
    }
}

/// The number read back from a digit string is the number written.
pub proof fn lemma_digits_val_of_dec(n: nat)
    ensures
        digits_val(dec_digits(n)) == n,
    decreases n,
{
    if n < 10 {
        let p = dec_digits(n);
        assert(p.drop_last() =~= Seq::<char>::empty());
        assert(p.last() == digit_char(n as int));
        assert(digit_val(digit_char(n as int)) == n as int);
        assert(digits_val(p) == digits_val(Seq::<char>::empty()) * 10 + digit_val(p.last()));
    } else {
        lemma_digits_val_of_dec(n / 10);
        let p = dec_digits(n / 10);
        let c = digit_char((n % 10) as int);
        assert(dec_digits(n) == p.push(c));
        assert(p.push(c).drop_last() =~= p);
        assert(p.push(c).last() == c);
        assert(digit_val(c) == n % 10);
        assert(digits_val(p.push(c)) == digits_val(p) * 10 + digit_val(c));
        assert((n / 10) * 10 + n % 10 == n) by (nonlinear_arith);
    }
}

/// Parsing a number reads back exactly the number that was written.
pub proof fn lemma_parse_number_of_dec(n: nat, rest: Seq<char>)
    requires
        n <= i32::MAX,
        rest.len() == 0 || !is_digit(rest[0]),
    ensures
        parse_number(dec_digits(n) + rest) == Some((n as int, rest)),
{
    let p = dec_digits(n);
    lemma_dec_digits_are_digits(n);
    lemma_count_digits_exact(p, rest);
    lemma_digits_val_of_dec(n);
    let s = p + rest;
    assert(s.take(p.len() as int) =~= p);
    assert(s.skip(p.len() as int) =~= rest);
}

/// Parsing a string body reads back exactly the text that was escaped.
pub proof fn lemma_parse_string_of_esc(d: Seq<char>, rest: Seq<char>)
    ensures
        parse_string_body(esc(d) + seq!['"'] + rest) == Some((d, rest)),
    decreases d.len(),
{
    let s = esc(d) + seq!['"'] + rest;
    if d.len() == 0 {
        assert(esc(d) =~= Seq::<char>::empty());
        assert(s =~= seq!['"'] + rest);
        assert(s[0] == '"');
        assert(s.drop_first() =~= rest);
    } else {
        let c = d[0];
        let dr = d.drop_first();
        assert(esc(d) == esc_char(c) + esc(dr));
        lemma_parse_string_of_esc(dr, rest);
        if c == '"' {
            assert(s[0] == '\\');
            assert(s[1] == '"');
            assert(s.skip(2) =~= esc(dr) + seq!['"'] + rest);
            assert(seq![s[1]] + dr =~= d);
        } else if c == '\\' {
            assert(s[0] == '\\');
            assert(s[1] == '\\');
            assert(s.skip(2) =~= esc(dr) + seq!['"'] + rest);
            assert(seq![s[1]] + dr =~= d);
        } else {
            assert(s[0] == c);
            assert(s.drop_first() =~= esc(dr) + seq!['"'] + rest);
            assert(seq![s[0]] + dr =~= d);
        }
    }
}

/// Escaping distributes over concatenation.
pub proof fn lemma_esc_append(a: Seq<char>, b: Seq<char>)
    ensures
        esc(a + b) == esc(a) + esc(b),
    decreases a.len(),
{
    if a.len() == 0 {
        assert(a + b =~= b);
        assert(esc(a) + esc(b) =~= esc(b));
    } else {
        assert((a + b)[0] == a[0]);
        assert((a + b).drop_first() =~= a.drop_first() + b);
        lemma_esc_append(a.drop_first(), b);
        assert(esc_char(a[0]) + (esc(a.drop_first()) + esc(b)) =~= (esc_char(a[0]) + esc(
            a.drop_first(),
        )) + esc(b));
        assert(esc(a + b) == esc_char(a[0]) + esc(a.drop_first() + b));
    }
}

/// The exact digit-run length, characterized from the outside: a run of
/// digits that stops at the end or at a non-digit.
pub proof fn lemma_count_digits_is(t: Seq<char>, c: int)
    requires
        0 <= c <= t.len(),
        forall|m: int| 0 <= m < c ==> is_digit(#[trigger] t[m]),
        c == t.len() || !is_digit(t[c]),
    ensures
        count_digits(t) == c,
    decreases t.len(),
{
    if c == 0 {
    } else {
        assert(is_digit(t[0]));
        let tr = t.drop_first();
        assert forall|m: int| 0 <= m < c - 1 implies is_digit(#[trigger] tr[m]) by {
            assert(tr[m] == t[m + 1]);
        }
        if c - 1 < tr.len() {
            assert(tr[c - 1] == t[c]);
        }
        lemma_count_digits_is(tr, c - 1);
    }
}

/// A digit string's value is never negative.
pub proof fn lemma_digits_val_nonneg(p: Seq<char>)
    ensures
        digits_val(p) >= 0,
    decreases p.len(),
{
    if p.len() > 0 {
        lemma_digits_val_nonneg(p.drop_last());
    }
}

/// A digit string's value only grows as more digits follow.
pub proof fn lemma_digits_val_mono(p: Seq<char>, m: int)
    requires
        0 <= m <= p.len(),
    ensures
        digits_val(p.take(m)) <= digits_val(p),
    decreases p.len(),
{
    if m == p.len() {
        assert(p.take(m) =~= p);
    } else {
        let q = p.drop_last();
        lemma_digits_val_nonneg(q);
        lemma_digits_val_mono(q, m);
        assert(q.take(m) =~= p.take(m));
        assert(digits_val(p) == digits_val(q) * 10 + digit_val(p.last()));
        assert(digit_val(p.last()) >= 0);
        assert(digits_val(q) * 10 >= digits_val(q)) by (nonlinear_arith)
            requires
                digits_val(q) >= 0,
        ;
    }
}

/// A literal written first is read back first.
pub proof fn lemma_parse_lit_prepend(lit: Seq<char>, rest: Seq<char>)
    ensures
        parse_lit(lit + rest, lit) == Some(rest),
{
    assert((lit + rest).take(lit.len() as int) =~= lit);
    assert((lit + rest).skip(lit.len() as int) =~= rest);
}

/// Parsing a task reads back exactly the task that was written.
pub proof fn lemma_parse_task_of_canon(t: TaskView, rest: Seq<char>)
    requires
        0 <= t.id <= i32::MAX,
    ensures
        parse_task(canon_task(t) + rest) == Some((t, rest)),
{
    let s = canon_task(t) + rest;
    let b = lit_desc() + (esc(t.description) + (seq!['"'] + (seq!['}'] + rest)));
    let a1 = dec_digits(t.id as nat) + b;
    assert(s =~= lit_id() + a1);
    lemma_parse_lit_prepend(lit_id(), a1);
    assert(parse_lit(s, lit_id()) == Some(a1));
    assert(b[0] == lit_desc()[0]);
    assert(!is_digit(b[0]));
    lemma_parse_number_of_dec(t.id as nat, b);
    assert(parse_number(a1) == Some((t.id, b)));
    let c0 = esc(t.description) + (seq!['"'] + (seq!['}'] + rest));
    lemma_parse_lit_prepend(lit_desc(), c0);
    assert(parse_lit(b, lit_desc()) == Some(c0));
    assert(c0 =~= esc(t.description) + seq!['"'] + (seq!['}'] + rest));
    lemma_parse_string_of_esc(t.description, seq!['}'] + rest);
    assert(parse_string_body(c0) == Some((t.description, seq!['}'] + rest)));
    lemma_parse_lit_prepend(seq!['}'], rest);
    assert(parse_lit(seq!['}'] + rest, seq!['}']) == Some(rest));
    assert(parse_task(s) == Some((TaskView { id: t.id, description: t.description }, rest)));
    assert(TaskView { id: t.id, description: t.description } == t);
}

/// Parsing a non-empty task list reads back exactly the tasks written.
pub proof fn lemma_parse_tasks1_of_canon(ts: Seq<TaskView>, rest: Seq<char>)
    requires
        ts.len() >= 1,
        forall|i: int| 0 <= i < ts.len() ==> 0 <= #[trigger] ts[i].id <= i32::MAX,
    ensures
        parse_tasks1(canon_tasks(ts) + seq![']'] + rest) == Some((ts, rest)),
    decreases ts.len(),
{
    let s = canon_tasks(ts) + seq![']'] + rest;
    let t0 = ts[0];
    let tr = ts.drop_first();
    if ts.len() == 1 {
        assert(canon_rest(tr) =~= Seq::<char>::empty());
        let r0 = seq![']'] + rest;
        assert(s =~= canon_task(t0) + r0);
        lemma_parse_task_of_canon(t0, r0);
        assert(parse_task(s) == Some((t0, r0)));
        assert(r0[0] == ']');
        assert(!starts_with(r0, seq![','])) by {
            assert(r0.take(1)[0] == ']');
        }
        assert(starts_with(r0, seq![']'])) by {
            assert(r0.take(1) =~= seq![']']);
        }
        assert(r0.skip(1) =~= rest);
        assert(seq![t0] =~= ts);
    } else {
        assert(tr.len() >= 1);
        assert(canon_rest(tr) == seq![','] + canon_task(tr[0]) + canon_rest(tr.drop_first()));
        assert(canon_rest(tr) =~= seq![','] + canon_tasks(tr));
        let r1 = seq![','] + (canon_tasks(tr) + (seq![']'] + rest));
        assert(s =~= canon_task(t0) + r1);
        lemma_parse_task_of_canon(t0, r1);
        assert(parse_task(s) == Some((t0, r1)));
        assert(starts_with(r1, seq![','])) by {
            assert(r1.take(1) =~= seq![',']);
        }
        assert(r1.skip(1) =~= canon_tasks(tr) + seq![']'] + rest);
        assert forall|i: int| 0 <= i < tr.len() implies 0 <= #[trigger] tr[i].id <= i32::MAX by {
            assert(tr[i] == ts[i + 1]);
        }
        lemma_parse_tasks1_of_canon(tr, rest);
        assert(seq![t0] + tr =~= ts);
    }
}

/// Parsing the canonical text of a store yields that store back: the task
/// sequence in the same order with the same content, and the same counter.
pub proof fn lemma_parse_state_of_canon(v: StateView)
    requires
        ids_bounded(v),
    ensures
        parse_state(canon_state(v)) == Some(v),
{
    let s = canon_state(v);
    let b = lit_next() + (dec_digits(v.next_task_id as nat) + seq!['}']);
    let a = canon_tasks(v.tasks) + (seq![']'] + b);
    assert(s =~= lit_header() + a);
    lemma_parse_lit_prepend(lit_header(), a);
    assert(parse_lit(s, lit_header()) == Some(a));
    if v.tasks.len() == 0 {
        assert(canon_tasks(v.tasks) =~= Seq::<char>::empty());
        assert(a =~= seq![']'] + b);
        assert(starts_with(a, seq![']'])) by {
            assert(a.take(1) =~= seq![']']);
        }
        assert(a.skip(1) =~= b);
        assert(parse_tasks(a) == Some((Seq::<TaskView>::empty(), b)));
        assert(v.tasks =~= Seq::<TaskView>::empty());
    } else {
        assert(canon_tasks(v.tasks).len() > 0) by {
            assert(canon_tasks(v.tasks) == canon_task(v.tasks[0]) + canon_rest(
                v.tasks.drop_first(),
            ));
        }
        assert(a[0] == canon_tasks(v.tasks)[0]);
        assert(canon_tasks(v.tasks)[0] == canon_task(v.tasks[0])[0]);
        assert(canon_task(v.tasks[0])[0] == lit_id()[0]);
        assert(a[0] == '{');
        assert(!starts_with(a, seq![']'])) by {
            assert(a.take(1)[0] == '{');
        }
        assert(a =~= canon_tasks(v.tasks) + seq![']'] + b);
        lemma_parse_tasks1_of_canon(v.tasks, b);
        assert(parse_tasks(a) == Some((v.tasks, b)));
    }
    let c0 = dec_digits(v.next_task_id as nat) + seq!['}'];
    lemma_parse_lit_prepend(lit_next(), c0);
    assert(parse_lit(b, lit_next()) == Some(c0));
    lemma_parse_number_of_dec(v.next_task_id as nat, seq!['}']);
    assert(parse_number(c0) == Some((v.next_task_id, seq!['}'])));
    assert(parse_state(s) == Some(StateView { tasks: v.tasks, next_task_id: v.next_task_id }));
    assert(StateView { tasks: v.tasks, next_task_id: v.next_task_id } == v);
}

} // verus!
