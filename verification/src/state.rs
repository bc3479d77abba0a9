//! The executable store: the task records, the allocation counter, and the
//! add / remove / replace operations, each pinned to its model in `model`.

use vstd::prelude::*;

use crate::model::{
    first_id_index, has_id, lemma_add_wf, lemma_remove_absent_is_noop, lemma_remove_present,
    lemma_remove_wf, spec_add, spec_remove_first, StateView, TaskView,
};
use vstd::string::StringExecFns;

verus! {

/// One to-do item: a store-assigned identifier and caller-supplied text.
pub struct Task {
    pub id: i32,
    pub description: String,
}

impl View for Task {
    type V = TaskView;

    open spec fn view(&self) -> TaskView {
        TaskView { id: self.id as int, description: self.description@ }
    }
}

/// View of a sequence of task records.
pub open spec fn tasks_view(ts: Seq<Task>) -> Seq<TaskView> {
    Seq::new(ts.len(), |i: int| ts[i]@)
}

/// The store: the task list in display order plus the identifier allocator.
pub struct AppState {
    pub tasks: Vec<Task>,
    pub next_task_id: i32,
}

impl View for AppState {
    type V = StateView;

    open spec fn view(&self) -> StateView {
        StateView { tasks: tasks_view(self.tasks@), next_task_id: self.next_task_id as int }
    }
}

impl AppState {
    /// The empty store: no tasks, identifiers start at 0.
    pub fn new() -> (s: AppState)
        ensures
            s@ == StateView::empty(),
            s@.wf(),
    {
        let s = AppState { tasks: Vec::new(), next_task_id: 0 };
        proof {
            assert(s@.tasks =~= Seq::<TaskView>::empty());
            assert(s@ =~= StateView::empty());
        }
        s
    }

    /// Append a new task carrying the given description under a fresh
    /// identifier, advance the counter, and return a copy of the task.
    pub fn add_task(&mut self, task_description: &str) -> (task: Task)
        requires
            old(self)@.next_task_id < i32::MAX,
        ensures
            final(self)@ == spec_add(old(self)@, task_description@),
            task@ == (TaskView { id: old(self)@.next_task_id, description: task_description@ }),
            old(self)@.wf() ==> final(self)@.wf(),
    {
        let id = self.next_task_id;
        self.next_task_id = self.next_task_id + 1;
        let new_task = Task { id, description: String::from_str(task_description) };
        let task_copy = Task { id, description: String::from_str(task_description) };
        self.tasks.push(new_task);
        proof {
            assert(self@.tasks =~= spec_add(old(self)@, task_description@).tasks);
            assert(self@ =~= spec_add(old(self)@, task_description@));
            if old(self)@.wf() {
                lemma_add_wf(old(self)@, task_description@);
            }
        }
        task_copy
    }

    /// Remove the first task whose identifier matches, if any; an unknown
    /// identifier leaves the store unchanged.
    pub fn remove_task(&mut self, task_id: i32)
        ensures
            final(self)@.next_task_id == old(self)@.next_task_id,
            final(self)@.tasks == spec_remove_first(old(self)@.tasks, task_id as int),
            old(self)@.wf() ==> final(self)@.wf(),
    {
        let ghost t0 = self@.tasks;
        match find_index(&self.tasks, task_id) {
            Some(i) => {
                self.tasks.remove(i);
                proof {
                    assert(has_id(t0, task_id as int)) by {
                        assert(t0[i as int].id == task_id as int);
                    }
                    lemma_remove_present(t0, task_id as int);
                    let f = first_id_index(t0, task_id as int);
                    assert(f == i as int) by {
                        if f < i as int {
                            assert(t0[f].id != task_id as int);
                        }
                        if f > i as int {
                            assert(t0[i as int].id != task_id as int);
                        }
                    }
                    assert(self@.tasks =~= t0.subrange(0, i as int) + t0.subrange(
                        i as int + 1,
                        t0.len() as int,
                    ));
                    if old(self)@.wf() {
                        lemma_remove_wf(old(self)@, task_id as int);
                    }
                }
            },
            None => {
                proof {
                    assert(!has_id(t0, task_id as int));
                    lemma_remove_absent_is_noop(t0, task_id as int);
                    if old(self)@.wf() {
                        lemma_remove_wf(old(self)@, task_id as int);
                    }
                }
            },
        }
    }

    /// Replace the whole store with another one.
    pub fn replace_with(&mut self, other: AppState)
        ensures
            final(self)@ == other@,
    {
        let AppState { tasks, next_task_id } = other;
        self.tasks = tasks;
        self.next_task_id = next_task_id;
    }

    /// A structural copy of the store: same tasks, same counter.
    pub fn duplicate(&self) -> (copy: AppState)
        ensures
            copy@ == self@,
    {
        let mut tasks: Vec<Task> = Vec::new();
        let mut i: usize = 0;
        while i < self.tasks.len()
            invariant
                i <= self.tasks@.len(),
                tasks_view(tasks@) =~= tasks_view(self.tasks@).take(i as int),
            decreases self.tasks@.len() - i,
        {
            let t = &self.tasks[i];
            let rec = Task { id: t.id, description: t.description.clone() };
            let ghost recv = rec@;
            proof {
                assert(recv == self.tasks@[i as int]@);
            }
            let ghost before = tasks@;
            tasks.push(rec);
            proof {
                assert(tasks_view(before).len() == before.len());
                assert(before.len() == i as int);
                assert(tasks@[before.len() as int]@ == recv);
                assert forall|k: int| 0 <= k < i + 1 implies #[trigger] tasks_view(tasks@)[k]
                    == tasks_view(self.tasks@).take(i as int + 1)[k] by {
                    if k < i as int {
                        assert(tasks@[k] == before[k]);
                        assert(tasks_view(before)[k] == tasks_view(self.tasks@).take(i as int)[k]);
                    } else {
                        assert(tasks@[k]@ == recv);
                    }
                }
                assert(tasks_view(tasks@) =~= tasks_view(self.tasks@).take(i as int + 1));
            }
            i = i + 1;
        }
        let copy = AppState { tasks, next_task_id: self.next_task_id };
        proof {
            assert(copy@.tasks =~= self@.tasks);
            assert(copy@ =~= self@);
        }
        copy
    }

    /// Whether the store is well-formed: identifiers unique, non-negative,
    /// and all below the allocation counter.
    pub fn wf_check(&self) -> (ok: bool)
        ensures
            ok == self@.wf(),
    {
        if self.next_task_id < 0 {
            return false;
        }
        let n = self.tasks.len();
        let mut i: usize = 0;
        while i < n
            invariant
                i <= n,
                n == self.tasks@.len(),
                0 <= self.next_task_id,
                forall|k: int|
                    0 <= k < i ==> 0 <= #[trigger] self@.tasks[k].id < self@.next_task_id,
                forall|k: int, l: int|
                    0 <= k < l < i ==> #[trigger] self@.tasks[k].id != #[trigger] self@.tasks[l].id,
            decreases n - i,
        {
            let ti = self.tasks[i].id;
            proof {
                assert(self@.tasks[i as int].id == ti as int);
            }
            if ti < 0 || ti >= self.next_task_id {
                proof {
                    assert(!self@.wf());
                }
                return false;
            }
            let mut j: usize = 0;
            while j < i
                invariant
                    j <= i < n,
                    n == self.tasks@.len(),
                    ti == self@.tasks[i as int].id,
                    forall|k: int| 0 <= k < j ==> #[trigger] self@.tasks[k].id != ti as int,
                decreases i - j,
            {
                if self.tasks[j].id == ti {
                    proof {
                        assert(self@.tasks[j as int].id == self@.tasks[i as int].id);
                        assert(!self@.wf());
                    }
                    return false;
                }
                j = j + 1;
            }
            i = i + 1;
        }
        true
    }
}

impl Default for AppState {
    /// The empty store.
    fn default() -> (s: AppState)
        ensures
            s@ == StateView::empty(),
            s@.wf(),
    {
        AppState::new()
    }
}

/// Index of the first task record carrying the identifier, if any.
fn find_index(tasks: &Vec<Task>, task_id: i32) -> (r: Option<usize>)
    ensures
        match r {
            Some(i) => i < tasks@.len() && tasks@[i as int]@.id == task_id as int && forall|k: int|
                0 <= k < i ==> #[trigger] tasks@[k]@.id != task_id as int,
            None => forall|k: int|
                0 <= k < tasks@.len() ==> #[trigger] tasks@[k]@.id != task_id as int,
        },
{
    let n = tasks.len();
    let mut i: usize = 0;
    while i < n
        invariant
            i <= n,
            n == tasks@.len(),
            forall|k: int| 0 <= k < i ==> #[trigger] tasks@[k]@.id != task_id as int,
        decreases n - i,
    {
        if tasks[i].id == task_id {
            return Some(i);
        }
        i = i + 1;
    }
    None
}

} // verus!
