//! Mathematical model of the task store: ghost views of the data, the
//! meaning of each mutation, and the laws those meanings obey.

use vstd::prelude::*;

verus! {

/// View of one task: its identifier and its description text.
#[verifier::ext_equal]
pub struct TaskView {
    pub id: int,
    pub description: Seq<char>,
}

/// View of the whole store: the task sequence in display order and the
/// next identifier to hand out.
#[verifier::ext_equal]
pub struct StateView {
    pub tasks: Seq<TaskView>,
    pub next_task_id: int,
}

impl StateView {
    /// The empty store: no tasks, identifiers start at 0.
    pub open spec fn empty() -> StateView {
        StateView { tasks: Seq::empty(), next_task_id: 0 }
    }

    /// Well-formedness: the counter fits the machine integer used for it,
    /// every identifier is non-negative and below the counter, and all
    /// identifiers are pairwise distinct.
    pub open spec fn wf(self) -> bool {
        &&& 0 <= self.next_task_id <= i32::MAX
        &&& forall|i: int|
            0 <= i < self.tasks.len() ==> 0 <= #[trigger] self.tasks[i].id < self.next_task_id
        &&& forall|i: int, j: int|
            0 <= i < j < self.tasks.len() ==> #[trigger] self.tasks[i].id != #[trigger] self.tasks[j].id
    }
}

/// What adding a task does: append a task carrying the current counter value
/// and the given description, and advance the counter by exactly one.
pub open spec fn spec_add(s: StateView, d: Seq<char>) -> StateView {
    StateView {
        tasks: s.tasks.push(TaskView { id: s.next_task_id, description: d }),
        next_task_id: s.next_task_id + 1,
    }
}

/// What removing an identifier does to the task sequence: drop the first
/// task whose identifier matches, keep everything else in order.
pub open spec fn spec_remove_first(tasks: Seq<TaskView>, id: int) -> Seq<TaskView>
    decreases tasks.len(),
{
    if tasks.len() == 0 {
        tasks
    } else if tasks[0].id == id {
        tasks.drop_first()
    } else {
        seq![tasks[0]] + spec_remove_first(tasks.drop_first(), id)
    }
}

/// Whether some task in the sequence carries the identifier.
pub open spec fn has_id(tasks: Seq<TaskView>, id: int) -> bool {
    exists|i: int| 0 <= i < tasks.len() && #[trigger] tasks[i].id == id
}

/// Index of the first task carrying the identifier (meaningful when
/// `has_id` holds).
pub open spec fn first_id_index(tasks: Seq<TaskView>, id: int) -> int
    decreases tasks.len(),
{
    if tasks.len() == 0 {
        0
    } else if tasks[0].id == id {
        0
    } else {
        1 + first_id_index(tasks.drop_first(), id)
    }
}

/// Removing an identifier that no task carries changes nothing.
pub proof fn lemma_remove_absent_is_noop(tasks: Seq<TaskView>, id: int)
    requires
        !has_id(tasks, id),
    ensures
        spec_remove_first(tasks, id) == tasks,
    decreases tasks.len(),
{
    if tasks.len() == 0 {
    } else {
        assert(tasks[0].id != id);
        assert forall|i: int| 0 <= i < tasks.drop_first().len() implies #[trigger] tasks.drop_first()[i].id
            != id by {
            assert(tasks.drop_first()[i] == tasks[i + 1]);
        }
        lemma_remove_absent_is_noop(tasks.drop_first(), id);
        assert(seq![tasks[0]] + tasks.drop_first() =~= tasks);
    }
}

/// Removing an identifier that some task carries removes exactly the first
/// such task: the result is the sequence with the entry at the first matching
/// index cut out, every other entry kept in relative order.
pub proof fn lemma_remove_present(tasks: Seq<TaskView>, id: int)
    requires
        has_id(tasks, id),
    ensures
        ({
            let i = first_id_index(tasks, id);
            &&& 0 <= i < tasks.len()
            &&& tasks[i].id == id
            &&& forall|k: int| 0 <= k < i ==> #[trigger] tasks[k].id != id
            &&& spec_remove_first(tasks, id) == tasks.subrange(0, i) + tasks.subrange(
                i + 1,
                tasks.len() as int,
            )
            &&& spec_remove_first(tasks, id).len() == tasks.len() - 1
        }),
    decreases tasks.len(),
{
    let i = first_id_index(tasks, id);
    if tasks[0].id == id {
        assert(tasks.drop_first() =~= tasks.subrange(0, 0) + tasks.subrange(
            1,
            tasks.len() as int,
        ));
    } else {
        let rest = tasks.drop_first();
        let w = choose|w: int| 0 <= w < tasks.len() && #[trigger] tasks[w].id == id;
        assert(rest[w - 1] == tasks[w]);
        assert(has_id(rest, id));
        lemma_remove_present(rest, id);
        let ir = first_id_index(rest, id);
        assert(i == 1 + ir);
        assert(tasks[i] == rest[ir]);
        assert forall|k: int| 0 <= k < i implies #[trigger] tasks[k].id != id by {
            if k > 0 {
                assert(tasks[k] == rest[k - 1]);
            }
        }
        assert(seq![tasks[0]] + (rest.subrange(0, ir) + rest.subrange(ir + 1, rest.len() as int))
            =~= tasks.subrange(0, i) + tasks.subrange(i + 1, tasks.len() as int));
    }
}

/// Adding preserves well-formedness whenever the counter has room.
pub proof fn lemma_add_wf(s: StateView, d: Seq<char>)
    requires
        s.wf(),
        s.next_task_id < i32::MAX,
    ensures
        spec_add(s, d).wf(),
{
    let r = spec_add(s, d);
    assert forall|i: int| 0 <= i < r.tasks.len() implies 0 <= #[trigger] r.tasks[i].id
        < r.next_task_id by {
        if i < s.tasks.len() {
            assert(r.tasks[i] == s.tasks[i]);
        }
    }
    assert forall|i: int, j: int| 0 <= i < j < r.tasks.len() implies #[trigger] r.tasks[i].id
        != #[trigger] r.tasks[j].id by {
        if j < s.tasks.len() {
            assert(r.tasks[i] == s.tasks[i] && r.tasks[j] == s.tasks[j]);
        } else {
            assert(r.tasks[i] == s.tasks[i] && r.tasks[j].id == s.next_task_id);
        }
    }
}

/// Removing preserves well-formedness.
pub proof fn lemma_remove_wf(s: StateView, id: int)
    requires
        s.wf(),
    ensures
        (StateView { tasks: spec_remove_first(s.tasks, id), next_task_id: s.next_task_id }).wf(),
{
    if has_id(s.tasks, id) {
        lemma_remove_present(s.tasks, id);
        let i = first_id_index(s.tasks, id);
        let r = spec_remove_first(s.tasks, id);
        assert forall|k: int| 0 <= k < r.len() implies 0 <= #[trigger] r[k].id < s.next_task_id by {
            if k < i {
                assert(r[k] == s.tasks[k]);
            } else {
                assert(r[k] == s.tasks[k + 1]);
            }
        }
        assert forall|k: int, l: int| 0 <= k < l < r.len() implies #[trigger] r[k].id
            != #[trigger] r[l].id by {
            let ks: int = if k < i {
                k
            } else {
                k + 1
            };
            let ls: int = if l < i {
                l
            } else {
                l + 1
            };
            assert(r[k] == s.tasks[ks] && r[l] == s.tasks[ls]);
        }
    } else {
        lemma_remove_absent_is_noop(s.tasks, id);
    }
}

/// Iterated adding: the store after a whole sequence of descriptions has
/// been added, one by one, in order.
pub open spec fn spec_add_all(s: StateView, ds: Seq<Seq<char>>) -> StateView
    decreases ds.len(),
{
    if ds.len() == 0 {
        s
    } else {
        spec_add_all(spec_add(s, ds[0]), ds.drop_first())
    }
}

/// Adding descriptions d1..dn to a store yields exactly n new tasks, in call
/// order, carrying consecutive identifiers that start at the counter value
/// the store had before the first call; the tasks already present are
/// untouched and the counter advances by exactly n.
pub proof fn lemma_add_all(s: StateView, ds: Seq<Seq<char>>)
    ensures
        ({
            let r = spec_add_all(s, ds);
            &&& r.tasks.len() == s.tasks.len() + ds.len()
            &&& r.next_task_id == s.next_task_id + ds.len()
            &&& forall|j: int| 0 <= j < s.tasks.len() ==> #[trigger] r.tasks[j] == s.tasks[j]
            &&& forall|j: int|
                0 <= j < ds.len() ==> #[trigger] r.tasks[s.tasks.len() + j] == (TaskView {
                    id: s.next_task_id + j,
                    description: ds[j],
                })
            &&& forall|j1: int, j2: int|
                0 <= j1 < j2 < ds.len() ==> #[trigger] r.tasks[s.tasks.len() + j1].id
                    < #[trigger] r.tasks[s.tasks.len() + j2].id
        }),
    decreases ds.len(),
{
    if ds.len() == 0 {
    } else {
        let s1 = spec_add(s, ds[0]);
        let rest = ds.drop_first();
        lemma_add_all(s1, rest);
        let r = spec_add_all(s, ds);
        assert(r == spec_add_all(s1, rest));
        assert forall|j: int| 0 <= j < s.tasks.len() implies #[trigger] r.tasks[j]
            == s.tasks[j] by {
            assert(r.tasks[j] == s1.tasks[j]);
        }
        assert forall|j: int| 0 <= j < ds.len() implies #[trigger] r.tasks[s.tasks.len() + j]
            == (TaskView { id: s.next_task_id + j, description: ds[j] }) by {
            if j == 0 {
                assert(r.tasks[s1.tasks.len() - 1] == s1.tasks[s1.tasks.len() - 1]);
                assert(s1.tasks[s.tasks.len() as int] == (TaskView {
                    id: s.next_task_id,
                    description: ds[0],
                }));
            } else {
                assert(rest[j - 1] == ds[j]);
                assert(r.tasks[s1.tasks.len() + (j - 1)] == (TaskView {
                    id: s1.next_task_id + (j - 1),
                    description: rest[j - 1],
                }));
            }
        }
    }
}

/// Adding any sequence of descriptions to a well-formed store with enough
/// counter room yields a well-formed store: in particular the n new
/// identifiers are pairwise distinct and strictly increasing.
pub proof fn lemma_add_all_wf(s: StateView, ds: Seq<Seq<char>>)
    requires
        s.wf(),
        s.next_task_id + ds.len() <= i32::MAX,
    ensures
        spec_add_all(s, ds).wf(),
    decreases ds.len(),
{
    if ds.len() == 0 {
    } else {
        lemma_add_wf(s, ds[0]);
        lemma_add_all_wf(spec_add(s, ds[0]), ds.drop_first());
    }
}

} // verus!
