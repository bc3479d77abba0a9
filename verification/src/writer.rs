//! Rendering a store to its canonical JSON text.

use vstd::prelude::*;

use crate::codec::{
    canon_rest, canon_state, canon_task, canon_tasks, dec_digits, digit_char, esc, esc_char,
    lit_desc, lit_header, lit_id, lit_next,
};
use crate::model::TaskView;
use crate::state::{tasks_view, AppState, Task};
use vstd::string::StringExecFns;

verus! {

/// Relies on `String::push`: appends the given character to the end of
/// the string.
#[verifier::external_body]
pub(crate) fn push_char(out: &mut String, c: char)
    ensures
        final(out)@ == old(out)@.push(c),
{
    out.push(c);
}

/// Append the character of one decimal digit value.
fn push_digit(out: &mut String, d: u32)
    requires
        d < 10,
    ensures
        final(out)@ == old(out)@.push(digit_char(d as int)),
{
    let c: char = match d {
        0 => '0',
        1 => '1',
        2 => '2',
        3 => '3',
        4 => '4',
        5 => '5',
        6 => '6',
        7 => '7',
        8 => '8',
        _ => '9',
    };
    proof {
        assert(c == digit_char(d as int));
    }
    push_char(out, c);
}

/// Append the decimal digit string of a number.
fn push_number(out: &mut String, n: u32)
    ensures
        final(out)@ == old(out)@ + dec_digits(n as nat),
    decreases n,
{
    if n < 10 {
        push_digit(out, n);
        proof {
            assert(old(out)@.push(digit_char(n as int)) =~= old(out)@ + dec_digits(n as nat));
        }
    } else {
        push_number(out, n / 10);
        push_digit(out, n % 10);
        proof {
            assert((n / 10) as nat == (n as nat) / 10);
            assert((n % 10) as nat == (n as nat) % 10);
            assert(dec_digits(n as nat) == dec_digits((n as nat) / 10).push(
                digit_char(((n as nat) % 10) as int),
            ));
            assert((old(out)@ + dec_digits((n as nat) / 10)).push(
                digit_char(((n as nat) % 10) as int),
            ) =~= old(out)@ + dec_digits(n as nat));
        }
    }
}

/// Append one description character in its escaped form.
fn push_esc_char(out: &mut String, c: char)
    ensures
        final(out)@ == old(out)@ + esc_char(c),
{
    if c == '"' {
        push_char(out, '\\');
        push_char(out, '"');
        proof {
            assert(old(out)@.push('\\').push('"') =~= old(out)@ + esc_char(c));
        }
    } else if c == '\\' {
        push_char(out, '\\');
        push_char(out, '\\');
        proof {
            assert(old(out)@.push('\\').push('\\') =~= old(out)@ + esc_char(c));
        }
    } else {
        push_char(out, c);
        proof {
            assert(old(out)@.push(c) =~= old(out)@ + esc_char(c));
        }
    }
}

/// Append a whole description in its escaped form.
fn push_escaped(out: &mut String, d: &str)
    ensures
        final(out)@ == old(out)@ + esc(d@),
{
    let len = d.unicode_len();
    let mut j: usize = 0;
    while j < len
        invariant
            j <= len,
            len == d@.len(),
            out@ == old(out)@ + esc(d@.take(j as int)),
        decreases len - j,
    {
        let c = d.get_char(j);
        push_esc_char(out, c);
        proof {
            crate::codec::lemma_esc_append(d@.take(j as int), seq![c]);
            assert(d@.take(j as int + 1) =~= d@.take(j as int) + seq![c]);
            assert(esc(seq![c]) =~= esc_char(c)) by {
                assert(seq![c].drop_first() =~= Seq::<char>::empty());
                assert(seq![c][0] == c);
                assert(esc(seq![c]) == esc_char(c) + esc(Seq::<char>::empty()));
                assert(esc(Seq::<char>::empty()) == Seq::<char>::empty());
                assert(esc_char(c) + Seq::<char>::empty() =~= esc_char(c));
            }
            assert(out@ =~= old(out)@ + esc(d@.take(j as int + 1)));
        }
        j = j + 1;
    }
    proof {
        assert(d@.take(len as int) =~= d@);
    }
}

/// Append the opening of the store object.
fn push_header(out: &mut String)
    ensures
        final(out)@ == old(out)@ + lit_header(),
{
    out.append("{\"tasks\":[");
    proof {
        reveal_strlit("{\"tasks\":[");
        assert("{\"tasks\":["@ =~= lit_header());
    }
}

/// Append the opening of one task object.
fn push_id_key(out: &mut String)
    ensures
        final(out)@ == old(out)@ + lit_id(),
{
    out.append("{\"id\":");
    proof {
        reveal_strlit("{\"id\":");
        assert("{\"id\":"@ =~= lit_id());
    }
}

/// Append the description key of one task object.
fn push_desc_key(out: &mut String)
    ensures
        final(out)@ == old(out)@ + lit_desc(),
{
    out.append(",\"description\":\"");
    proof {
        reveal_strlit(",\"description\":\"");
        assert(",\"description\":\""@ =~= lit_desc());
    }
}

/// Append the counter key that follows the task array.
fn push_next_key(out: &mut String)
    ensures
        final(out)@ == old(out)@ + lit_next(),
{
    out.append(",\"next_task_id\":");
    proof {
        reveal_strlit(",\"next_task_id\":");
        assert(",\"next_task_id\":"@ =~= lit_next());
    }
}

/// Append the canonical text of one task.
fn push_task(out: &mut String, t: &Task)
    requires
        t@.id >= 0,
    ensures
        final(out)@ == old(out)@ + canon_task(t@),
{
    push_id_key(out);
    push_number(out, t.id as u32);
    push_desc_key(out);
    push_escaped(out, t.description.as_str());
    push_char(out, '"');
    push_char(out, '}');
    proof {
        assert((t.id as u32) as nat == t@.id as nat);
        assert(out@ =~= old(out)@ + canon_task(t@));
    }
}

/// Append every task after the first, each with its separating comma.
fn push_rest(out: &mut String, tasks: &Vec<Task>, k: usize)
    requires
        1 <= k <= tasks@.len(),
        forall|i: int| 0 <= i < tasks@.len() ==> #[trigger] tasks@[i]@.id >= 0,
    ensures
        final(out)@ == old(out)@ + canon_rest(tasks_view(tasks@).skip(k as int)),
    decreases tasks@.len() - k,
{
    let ghost v = tasks_view(tasks@);
    if k < tasks.len() {
        push_char(out, ',');
        push_task(out, &tasks[k]);
        push_rest(out, tasks, k + 1);
        proof {
            assert(v.skip(k as int)[0] == v[k as int]);
            assert(v.skip(k as int).drop_first() =~= v.skip(k as int + 1));
            assert(canon_rest(v.skip(k as int)) == seq![','] + canon_task(v[k as int])
                + canon_rest(v.skip(k as int + 1)));
            assert(v[k as int] == tasks@[k as int]@);
            assert(out@ =~= old(out)@ + canon_rest(v.skip(k as int)));
        }
    } else {
        proof {
            assert(v.skip(k as int) =~= Seq::<TaskView>::empty());
        }
    }
}

impl AppState {
    /// The canonical JSON text of a well-formed store.
    pub fn serialize(&self) -> (out: String)
        requires
            self@.wf(),
        ensures
            out@ == canon_state(self@),
    {
        let ghost v = self@;
        let mut out = String::new();
        push_header(&mut out);
        if self.tasks.len() > 0 {
            proof {
                assert forall|i: int| 0 <= i < self.tasks@.len() implies #[trigger] self.tasks@[i]@.id
                    >= 0 by {
                    assert(v.tasks[i] == self.tasks@[i]@);
                }
            }
            push_task(&mut out, &self.tasks[0]);
            push_rest(&mut out, &self.tasks, 1);
            proof {
                assert(v.tasks.skip(1) =~= v.tasks.drop_first());
                assert(canon_tasks(v.tasks) == canon_task(v.tasks[0]) + canon_rest(
                    v.tasks.drop_first(),
                ));
                assert(v.tasks[0] == self.tasks@[0]@);
                assert(out@ =~= Seq::<char>::empty() + lit_header() + canon_tasks(v.tasks));
            }
        } else {
            proof {
                assert(canon_tasks(v.tasks) =~= Seq::<char>::empty());
                assert(out@ =~= Seq::<char>::empty() + lit_header() + canon_tasks(v.tasks));
            }
        }
        push_char(&mut out, ']');
        push_next_key(&mut out);
        push_number(&mut out, self.next_task_id as u32);
        push_char(&mut out, '}');
        proof {
            assert((self.next_task_id as u32) as nat == v.next_task_id as nat);
            assert(out@ =~= canon_state(v));
        }
        out
    }

    /// The canonical JSON text of the store, or `None` for a store whose
    /// public fields were edited into a shape that is not well-formed.
    pub fn to_json(&self) -> (r: Option<String>)
        ensures
            self@.wf() ==> (r matches Some(out) && out@ == canon_state(self@)),
            !self@.wf() ==> r is None,
    {
        if self.wf_check() {
            Some(self.serialize())
        } else {
            None
        }
    }
}

} // verus!
