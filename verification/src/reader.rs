//! Reading a store back from its canonical JSON text.
//!
//! Each scanner walks the text from a character position and is proved to
//! return exactly what the corresponding grammar function in `codec` says
//! the suffix at that position parses to.

use vstd::prelude::*;

use crate::codec::{
    count_digits, digit_val, digits_val, is_digit, lemma_count_digits_is, lemma_digits_val_mono,
    lemma_digits_val_nonneg, lit_desc, lit_header, lit_id, lit_next, parse_lit, parse_number,
    parse_state, parse_string_body, parse_task, parse_tasks, parse_tasks1, starts_with,
};
use crate::model::TaskView;
use crate::state::{tasks_view, AppState, Task};
use crate::writer::push_char;
use vstd::pervasive::unreached;
use vstd::string::StrSliceExecFns;

verus! {

/// The value of one digit character, `None` for any other character.
fn digit_of(c: char) -> (r: Option<u32>)
    ensures
        r is Some <==> is_digit(c),
        r matches Some(d) ==> d < 10 && d == digit_val(c),
{
    match c {
        '0' => Some(0),
        '1' => Some(1),
        '2' => Some(2),
        '3' => Some(3),
        '4' => Some(4),
        '5' => Some(5),
        '6' => Some(6),
        '7' => Some(7),
        '8' => Some(8),
        '9' => Some(9),
        _ => None,
    }
}

/// Match an exact literal at a position, yielding the position after it.
fn expect_lit(s: &str, i: usize, lit: &str) -> (r: Option<usize>)
    requires
        i <= s@.len(),
    ensures
        match r {
            Some(j) => {
                &&& parse_lit(s@.skip(i as int), lit@) == Some(s@.skip(j as int))
                &&& j == i + lit@.len()
                &&& j <= s@.len()
            },
            None => parse_lit(s@.skip(i as int), lit@) is None,
        },
{
    let n = s.unicode_len();
    let m = lit.unicode_len();
    if m > n - i {
        proof {
            assert(s@.skip(i as int).len() == n - i);
            assert(!starts_with(s@.skip(i as int), lit@));
        }
        return None;
    }
    let mut j: usize = 0;
    while j < m
        invariant
            j <= m,
            m == lit@.len(),
            n == s@.len(),
            i + m <= n,
            forall|k: int| 0 <= k < j ==> s@[i + k] == lit@[k],
        decreases m - j,
    {
        let a = s.get_char(i + j);
        let b = lit.get_char(j);
        if a != b {
            proof {
                let t = s@.skip(i as int);
                assert(t.len() >= m);
                if starts_with(t, lit@) {
                    assert(t.take(m as int)[j as int] == t[j as int]);
                    assert(t[j as int] == s@[i + j]);
                    assert(lit@[j as int] == s@[i + j]);
                }
            }
            return None;
        }
        j = j + 1;
    }
    proof {
        let t = s@.skip(i as int);
        assert(t.take(m as int) =~= lit@);
        assert(t.skip(m as int) =~= s@.skip(i as int + m as int));
    }
    Some(i + m)
}

/// Scan a non-negative number at a position: the maximal digit run,
/// rejected when it is empty or its value does not fit the machine integer.
fn scan_number(s: &str, i: usize) -> (r: Option<(i32, usize)>)
    requires
        i <= s@.len(),
    ensures
        match r {
            Some(p) => {
                &&& parse_number(s@.skip(i as int)) == Some((p.0 as int, s@.skip(p.1 as int)))
                &&& i < p.1 <= s@.len()
                &&& p.0 >= 0
            },
            None => parse_number(s@.skip(i as int)) is None,
        },
{
    let ghost t = s@.skip(i as int);
    let n = s.unicode_len();
    // length of the digit run
    let mut k: usize = i;
    while k < n
        invariant
            i <= k <= n,
            n == s@.len(),
            forall|m: int| i <= m < k ==> is_digit(#[trigger] s@[m]),
        ensures
            i <= k <= n,
            forall|m: int| i <= m < k ==> is_digit(#[trigger] s@[m]),
            k == n || !is_digit(s@[k as int]),
        decreases n - k,
    {
        if digit_of(s.get_char(k)).is_none() {
            break;
        }
        k = k + 1;
    }
    proof {
        assert forall|m: int| 0 <= m < k - i implies is_digit(#[trigger] t[m]) by {
            assert(t[m] == s@[i + m]);
        }
        if (k as int) < n {
            assert(t[k - i] == s@[k as int]);
        }
        lemma_count_digits_is(t, k - i);
    }
    if k == i {
        return None;
    }
    // the value of the run, watching for overflow
    let mut acc: u32 = 0;
    let mut m: usize = i;
    while m < k
        invariant
            i <= m <= k <= n,
            n == s@.len(),
            t == s@.skip(i as int),
            count_digits(t) == k - i,
            forall|q: int| i <= q < k ==> is_digit(#[trigger] s@[q]),
            acc <= 0x7fff_ffff,
            acc as int == digits_val(t.take(m - i)),
        decreases k - m,
    {
        let d = match digit_of(s.get_char(m)) {
            Some(d) => d,
            None => {
                proof {
                    assert(is_digit(s@[m as int]));
                }
                // a digit run position always holds a digit
                unreached()
            },
        };
        proof {
            assert(t.take(m - i + 1) =~= t.take(m - i).push(t[m - i]));
            assert(t[m - i] == s@[m as int]);
            assert(t.take(m - i).push(t[m - i]).drop_last() =~= t.take(m - i));
            assert(digits_val(t.take(m - i + 1)) == digits_val(t.take(m - i)) * 10 + digit_val(
                s@[m as int],
            ));
        }
        if acc > (0x7fff_ffffu32 - d) / 10 {
            proof {
                let full = t.take(k - i);
                assert(acc as int * 10 + d > 0x7fff_ffff) by (nonlinear_arith)
                    requires
                        acc as int > (0x7fff_ffff - d as int) / 10,
                        0 <= d < 10,
                        acc as int >= 0,
                ;
                assert(digits_val(t.take(m - i + 1)) > i32::MAX);
                lemma_digits_val_mono(full, m - i + 1);
                assert(full.take(m - i + 1) =~= t.take(m - i + 1));
                assert(digits_val(full) > i32::MAX);
            }
            return None;
        }
        acc = acc * 10 + d;
        proof {
            assert(acc as int == digits_val(t.take(m - i + 1)));
        }
        m = m + 1;
    }
    proof {
        assert(t.take(k - i) == t.take(count_digits(t) as int));
        assert(t.skip(k - i) =~= s@.skip(k as int));
        lemma_digits_val_nonneg(t.take(k - i));
    }
    Some((acc as i32, k))
}

/// Scan a string body at a position (after its opening quote), undoing the
/// escapes, up to and including the closing quote.
fn scan_string(s: &str, i: usize) -> (r: Option<(String, usize)>)
    requires
        i <= s@.len(),
    ensures
        match r {
            Some(p) => {
                &&& parse_string_body(s@.skip(i as int)) == Some((p.0@, s@.skip(p.1 as int)))
                &&& i < p.1 <= s@.len()
            },
            None => parse_string_body(s@.skip(i as int)) is None,
        },
{
    let n = s.unicode_len();
    let mut out = String::new();
    let mut j: usize = i;
    while j < n
        invariant
            i <= j <= n,
            n == s@.len(),
            parse_string_body(s@.skip(i as int)) == (match parse_string_body(s@.skip(j as int)) {
                Some(r) => Some((out@ + r.0, r.1)),
                None => None::<(Seq<char>, Seq<char>)>,
            }),
        decreases n - j,
    {
        let c = s.get_char(j);
        let ghost tj = s@.skip(j as int);
        proof {
            assert(tj[0] == s@[j as int]);
        }
        if c == '"' {
            proof {
                assert(tj.drop_first() =~= s@.skip(j as int + 1));
                assert(parse_string_body(tj) == Some(
                    (Seq::<char>::empty(), s@.skip(j as int + 1)),
                ));
                assert(out@ + Seq::<char>::empty() =~= out@);
            }
            return Some((out, j + 1));
        } else if c == '\\' {
            if j + 1 >= n {
                proof {
                    assert(tj.len() == 1);
                    assert(parse_string_body(tj) is None);
                }
                return None;
            }
            let c2 = s.get_char(j + 1);
            proof {
                assert(tj[1] == s@[j as int + 1]);
            }
            if c2 == '"' || c2 == '\\' {
                let ghost out0 = out@;
                push_char(&mut out, c2);
                proof {
                    assert(tj.skip(2) =~= s@.skip(j as int + 2));
                    match parse_string_body(s@.skip(j as int + 2)) {
                        Some(r) => {
                            assert(parse_string_body(tj) == Some((seq![c2] + r.0, r.1)));
                            assert(out0 + (seq![c2] + r.0) =~= out@ + r.0);
                        },
                        None => {
                            assert(parse_string_body(tj) is None);
                        },
                    }
                }
                j = j + 2;
            } else {
                proof {
                    assert(parse_string_body(tj) is None);
                }
                return None;
            }
        } else {
            let ghost out0 = out@;
            push_char(&mut out, c);
            proof {
                assert(tj.drop_first() =~= s@.skip(j as int + 1));
                match parse_string_body(s@.skip(j as int + 1)) {
                    Some(r) => {
                        assert(parse_string_body(tj) == Some((seq![c] + r.0, r.1)));
                        assert(out0 + (seq![c] + r.0) =~= out@ + r.0);
                    },
                    None => {
                        assert(parse_string_body(tj) is None);
                    },
                }
            }
            j = j + 1;
        }
    }
    proof {
        assert(s@.skip(j as int) =~= Seq::<char>::empty());
        assert(parse_string_body(s@.skip(j as int)) is None);
    }
    None
}

/// Scan one task object at a position.
fn scan_task(s: &str, i: usize) -> (r: Option<(Task, usize)>)
    requires
        i <= s@.len(),
    ensures
        match r {
            Some(p) => {
                &&& parse_task(s@.skip(i as int)) == Some((p.0@, s@.skip(p.1 as int)))
                &&& i < p.1 <= s@.len()
            },
            None => parse_task(s@.skip(i as int)) is None,
        },
{
    proof {
        reveal_strlit("{\"id\":");
        assert("{\"id\":"@ =~= lit_id());
        reveal_strlit(",\"description\":\"");
        assert(",\"description\":\""@ =~= lit_desc());
        reveal_strlit("}");
        assert("}"@ =~= seq!['}']);
    }
    let j1 = match expect_lit(s, i, "{\"id\":") {
        Some(j) => j,
        None => {
            return None;
        },
    };
    let (id, j2) = match scan_number(s, j1) {
        Some(p) => p,
        None => {
            return None;
        },
    };
    let j3 = match expect_lit(s, j2, ",\"description\":\"") {
        Some(j) => j,
        None => {
            return None;
        },
    };
    let (d, j4) = match scan_string(s, j3) {
        Some(p) => p,
        None => {
            return None;
        },
    };
    let j5 = match expect_lit(s, j4, "}") {
        Some(j) => j,
        None => {
            return None;
        },
    };
    Some((Task { id, description: d }, j5))
}

/// Scan the task array's contents and its closing bracket at a position.
fn scan_tasks(s: &str, i: usize) -> (r: Option<(Vec<Task>, usize)>)
    requires
        i <= s@.len(),
    ensures
        match r {
            Some(p) => {
                &&& parse_tasks(s@.skip(i as int)) == Some((tasks_view(p.0@), s@.skip(p.1 as int)))
                &&& i < p.1 <= s@.len()
            },
            None => parse_tasks(s@.skip(i as int)) is None,
        },
{
    let n = s.unicode_len();
    let ghost t0 = s@.skip(i as int);
    if i >= n {
        proof {
            assert(t0.len() == 0);
            assert(!starts_with(t0, seq![']']));
            crate::codec::lemma_parse_task_consumes(t0);
            match parse_task(t0) {
                Some(p) => {
                    assert(false);
                },
                None => {},
            }
        }
        return None;
    }
    let c0 = s.get_char(i);
    proof {
        assert(t0[0] == s@[i as int]);
    }
    if c0 == ']' {
        proof {
            assert(starts_with(t0, seq![']'])) by {
                assert(t0.take(1) =~= seq![']']);
            }
            assert(t0.skip(1) =~= s@.skip(i as int + 1));
            assert(tasks_view(Seq::<Task>::empty()) =~= Seq::<TaskView>::empty());
        }
        let empty: Vec<Task> = Vec::new();
        return Some((empty, i + 1));
    }
    proof {
        assert(!starts_with(t0, seq![']'])) by {
            assert(t0.take(1)[0] == s@[i as int]);
        }
        assert(parse_tasks(t0) == parse_tasks1(t0));
    }
    let mut acc: Vec<Task> = Vec::new();
    let mut j: usize = i;
    loop
        invariant
            i <= j <= n,
            n == s@.len(),
            t0 == s@.skip(i as int),
            parse_tasks1(t0) == (match parse_tasks1(s@.skip(j as int)) {
                Some(r) => Some((tasks_view(acc@) + r.0, r.1)),
                None => None::<(Seq<TaskView>, Seq<char>)>,
            }),
            parse_tasks(t0) == parse_tasks1(t0),
        decreases n - j,
    {
        let ghost tj = s@.skip(j as int);
        let (task, j2) = match scan_task(s, j) {
            Some(p) => p,
            None => {
                return None;
            },
        };
        let ghost tv = task@;
        let ghost acc0 = acc@;
        acc.push(task);
        proof {
            assert(tasks_view(acc@) =~= tasks_view(acc0) + seq![tv]);
        }
        if j2 >= n {
            proof {
                assert(s@.skip(j2 as int).len() == 0);
                assert(!starts_with(s@.skip(j2 as int), seq![',']));
                assert(!starts_with(s@.skip(j2 as int), seq![']']));
            }
            return None;
        }
        let c = s.get_char(j2);
        proof {
            assert(s@.skip(j2 as int)[0] == s@[j2 as int]);
        }
        if c == ',' {
            proof {
                assert(starts_with(s@.skip(j2 as int), seq![','])) by {
                    assert(s@.skip(j2 as int).take(1) =~= seq![',']);
                }
                assert(s@.skip(j2 as int).skip(1) =~= s@.skip(j2 as int + 1));
                match parse_tasks1(s@.skip(j2 as int + 1)) {
                    Some(r) => {
                        assert(parse_tasks1(tj) == Some((seq![tv] + r.0, r.1)));
                        assert(tasks_view(acc0) + (seq![tv] + r.0) =~= tasks_view(acc@) + r.0);
                    },
                    None => {
                        assert(parse_tasks1(tj) is None);
                    },
                }
            }
            j = j2 + 1;
        } else if c == ']' {
            proof {
                assert(!starts_with(s@.skip(j2 as int), seq![','])) by {
                    assert(s@.skip(j2 as int).take(1)[0] == s@[j2 as int]);
                }
                assert(starts_with(s@.skip(j2 as int), seq![']'])) by {
                    assert(s@.skip(j2 as int).take(1) =~= seq![']']);
                }
                assert(s@.skip(j2 as int).skip(1) =~= s@.skip(j2 as int + 1));
                assert(parse_tasks1(tj) == Some((seq![tv], s@.skip(j2 as int + 1))));
                assert(tasks_view(acc0) + seq![tv] =~= tasks_view(acc@));
            }
            return Some((acc, j2 + 1));
        } else {
            proof {
                assert(!starts_with(s@.skip(j2 as int), seq![','])) by {
                    assert(s@.skip(j2 as int).take(1)[0] == s@[j2 as int]);
                }
                assert(!starts_with(s@.skip(j2 as int), seq![']'])) by {
                    assert(s@.skip(j2 as int).take(1)[0] == s@[j2 as int]);
                }
                assert(parse_tasks1(tj) is None);
            }
            return None;
        }
    }
}

/// Read a whole store from persisted text; `None` on any deviation from
/// the canonical grammar, including numbers that do not fit or trailing
/// characters after the closing brace.
pub fn parse_app_state(s: &str) -> (r: Option<AppState>)
    ensures
        match r {
            Some(st) => parse_state(s@) == Some(st@),
            None => parse_state(s@) is None,
        },
{
    proof {
        assert(s@.skip(0) =~= s@);
        reveal_strlit("{\"tasks\":[");
        assert("{\"tasks\":["@ =~= lit_header());
        reveal_strlit(",\"next_task_id\":");
        assert(",\"next_task_id\":"@ =~= lit_next());
    }
    let j1 = match expect_lit(s, 0, "{\"tasks\":[") {
        Some(j) => j,
        None => {
            return None;
        },
    };
    let (tasks, j2) = match scan_tasks(s, j1) {
        Some(p) => p,
        None => {
            return None;
        },
    };
    let j3 = match expect_lit(s, j2, ",\"next_task_id\":") {
        Some(j) => j,
        None => {
            return None;
        },
    };
    let (next_id, j4) = match scan_number(s, j3) {
        Some(p) => p,
        None => {
            return None;
        },
    };
    let n = s.unicode_len();
    if j4 < n && n - j4 == 1 {
        let c = s.get_char(j4);
        if c == '}' {
            proof {
                assert(s@.skip(j4 as int)[0] == '}');
                assert(s@.skip(j4 as int) =~= seq!['}']);
            }
            let st = AppState { tasks, next_task_id: next_id };
            return Some(st);
        }
        proof {
            assert(s@.skip(j4 as int)[0] == s@[j4 as int]);
            assert(s@.skip(j4 as int) != seq!['}']) by {
                assert(seq!['}'][0] == '}');
            }
        }
        return None;
    }
    proof {
        assert(s@.skip(j4 as int).len() != 1);
        assert(s@.skip(j4 as int) != seq!['}']) by {
            assert(seq!['}'].len() == 1);
        }
    }
    None
}

} // verus!
