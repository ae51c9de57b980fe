//! The task store: an ordered collection of tasks with unique identifiers.
//!
//! Identifiers follow the smallest-free-integer policy: a new task gets the
//! smallest positive integer that no present task carries, so the identifier
//! of a deleted task is handed out again. Every operation takes the store by
//! `&self` or `&mut self`; a caller that shares the store between workers
//! holds one lock for the whole call.

use vstd::prelude::*;
use std::collections::HashSet;
use crate::task::{Task, TaskView};
use crate::model::{
    added, added_all, any_id_in, completed_all, deleted_all, description_views, has_id,
    ids_positive, ids_unique, is_smallest_free, lemma_deleted_all, lemma_has_id_push,
    lemma_single_id,
    lemma_smallest_free_exists, lemma_smallest_free_is_unique, lemma_used_prefix_fits, marked,
    smallest_free_id, task_views,
};
use crate::laws::{lemma_add_keeps_ids_unique, lemma_completion_is_idempotent};

verus! {

broadcast use vstd::std_specs::hash::group_hash_axioms;

/// Whether `id` occurs in `ids`.
pub fn contains_id(ids: &Vec<u64>, id: u64) -> (found: bool)
    ensures
        found == ids@.contains(id),
{
    let mut k: usize = 0;
    while k < ids.len()
        invariant
            k <= ids.len(),
            forall|j: int| 0 <= j < k ==> ids@[j] != id,
        decreases ids.len() - k,
    {
        if ids[k] == id {
            return true;
        }
        k += 1;
    }
    false
}

/// An ordered collection of tasks, no two of which share an identifier.
pub struct TaskStore {
    tasks: Vec<Task>,
}

impl View for TaskStore {
    type V = Seq<TaskView>;

    closed spec fn view(&self) -> Seq<TaskView> {
        task_views(self.tasks@)
    }
}

impl TaskStore {
    /// What every store satisfies: identifiers are positive and no two
    /// tasks share one.
    #[verifier::type_invariant]
    closed spec fn well_formed(&self) -> bool {
        ids_unique(task_views(self.tasks@)) && ids_positive(task_views(self.tasks@))
    }

    /// Hands the tasks out and leaves the store empty until they are put
    /// back.
    fn take_tasks(&mut self) -> (tasks: Vec<Task>)
        ensures
            tasks@ == old(self).tasks@,
            ids_unique(task_views(tasks@)),
            ids_positive(task_views(tasks@)),
    {
        proof {
            use_type_invariant(&*self);
        }
        let mut tasks: Vec<Task> = Vec::new();
        core::mem::swap(&mut self.tasks, &mut tasks);
        tasks
    }

    /// An empty store.
    pub fn new() -> (store: Self)
        ensures
            store@ == Seq::<TaskView>::empty(),
    {
        let store = TaskStore { tasks: Vec::new() };
        assert(store@ =~= Seq::<TaskView>::empty());
        store
    }

    /// The number of tasks present.
    pub fn len(&self) -> (n: usize)
        ensures
            n == self@.len(),
    {
        self.tasks.len()
    }

    /// The identifier that the next added task will receive: the smallest
    /// positive integer that no present task carries.
    pub fn next_id(&self) -> (id: u64)
        requires
            self@.len() < u64::MAX,
        ensures
            is_smallest_free(self@, id),
            id == smallest_free_id(self@),
            id <= self@.len() + 1,
    {
        let mut used: HashSet<u64> = HashSet::new();
        let n = self.tasks.len();
        let mut i: usize = 0;
        while i < n
            invariant
                i <= n,
                n == self.tasks@.len(),
                forall|id: u64|
                    used@.contains(id) <==> has_id(task_views(self.tasks@.take(i as int)), id),
            decreases n - i,
        {
            let ghost before = task_views(self.tasks@.take(i as int));
            let ghost after = task_views(self.tasks@.take(i + 1));
            used.insert(self.tasks[i].id);
            proof {
                assert(after =~= before.push(self.tasks@[i as int]@));
                assert forall|id: u64| used@.contains(id) <==> has_id(after, id) by {
                    lemma_has_id_push(before, self.tasks@[i as int]@, id);
                }
            }
            i += 1;
        }
        assert(self.tasks@.take(n as int) =~= self.tasks@);
        let mut candidate: u64 = 1;
        while used.contains(&candidate)
            invariant
                1 <= candidate <= self@.len() + 1,
                self@.len() < u64::MAX,
                forall|id: u64| used@.contains(id) <==> has_id(self@, id),
                forall|j: u64| 1 <= j < candidate ==> #[trigger] has_id(self@, j),
            decreases self@.len() + 1 - candidate,
        {
            proof {
                lemma_used_prefix_fits(self@, candidate + 1);
            }
            candidate += 1;
        }
        proof {
            lemma_smallest_free_exists(self@);
            lemma_smallest_free_is_unique(self@, candidate, smallest_free_id(self@));
        }
        candidate
    }

    /// Adds one task with the given description, not completed, at the end,
    /// and returns a copy of it.
    pub fn add(&mut self, description: String) -> (task: Task)
        requires
            old(self)@.len() < u64::MAX,
        ensures
            final(self)@ == added(old(self)@, description@),
            task@ == final(self)@.last(),
            is_smallest_free(old(self)@, task.id),
            ids_unique(final(self)@),
            ids_positive(final(self)@),
    {
        let id = self.next_id();
        let task = Task::new(id, description);
        let ghost before = self@;
        let mut tasks = self.take_tasks();
        tasks.push(task.clone());
        proof {
            assert(task_views(tasks@) =~= before.push(task@));
            lemma_add_keeps_ids_unique(before, task.description@);
        }
        self.tasks = tasks;
        task
    }

    /// Adds one task for each description, in the given order, each
    /// allocation seeing the tasks created before it, and returns copies of
    /// the created tasks in that order.
    pub fn add_batch(&mut self, descriptions: Vec<String>) -> (created: Vec<Task>)
        requires
            old(self)@.len() + descriptions@.len() <= u64::MAX,
        ensures
            ids_unique(final(self)@),
            ids_positive(final(self)@),
            final(self)@ == added_all(old(self)@, description_views(descriptions@)),
            final(self)@.len() == old(self)@.len() + descriptions@.len(),
            created@.len() == descriptions@.len(),
            task_views(created@) == final(self)@.subrange(
                old(self)@.len() as int,
                final(self)@.len() as int,
            ),
    {
        let ghost before = self@;
        let ghost texts = description_views(descriptions@);
        let mut created: Vec<Task> = Vec::new();
        proof {
            use_type_invariant(&*self);
        }
        assert(task_views(created@) =~= self@.subrange(before.len() as int, self@.len() as int));
        assert(texts.take(0) =~= Seq::<Seq<char>>::empty());
        for description in it: descriptions
            invariant
                it.seq() == descriptions@,
                texts == description_views(descriptions@),
                ids_unique(self@),
                ids_positive(self@),
                before.len() + descriptions@.len() <= u64::MAX,
                self@.len() == before.len() + it.index(),
                self@ == added_all(before, texts.take(it.index() as int)),
                task_views(created@) == self@.subrange(before.len() as int, self@.len() as int),
        {
            let ghost prev_created = task_views(created@);
            let ghost text = description@;
            let task = self.add(description);
            created.push(task);
            proof {
                let done = texts.take(it.index() + 1);
                assert(done.drop_last() =~= texts.take(it.index() as int));
                assert(done.last() == text);
                assert(task_views(created@) =~= prev_created.push(task@));
                assert(task_views(created@) =~= self@.subrange(
                    before.len() as int,
                    self@.len() as int,
                ));
            }
        }
        assert(texts.take(texts.len() as int) =~= texts);
        created
    }

    /// A copy of all tasks, in insertion order.
    pub fn list(&self) -> (snapshot: Vec<Task>)
        ensures
            snapshot@.len() == self@.len(),
            task_views(snapshot@) == self@,
            ids_unique(self@),
            ids_positive(self@),
    {
        proof {
            use_type_invariant(self);
        }
        let snapshot = self.tasks.clone();
        assert(snapshot@ =~= self.tasks@);
        snapshot
    }

    /// Marks the task with the given identifier as completed and says
    /// whether there is such a task.
    pub fn complete(&mut self, id: u64) -> (found: bool)
        ensures
            final(self)@ == completed_all(old(self)@, set![id]),
            found == has_id(old(self)@, id),
            ids_unique(final(self)@),
            ids_positive(final(self)@),
    {
        let ids: Vec<u64> = vec![id];
        proof {
            lemma_single_id(self@, ids@, id);
        }
        self.complete_batch(&ids)
    }

    /// Removes the task with the given identifier and says whether there
    /// was such a task.
    pub fn delete(&mut self, id: u64) -> (found: bool)
        ensures
            final(self)@ == deleted_all(old(self)@, set![id]),
            found == has_id(old(self)@, id),
            ids_unique(final(self)@),
            ids_positive(final(self)@),
    {
        let ids: Vec<u64> = vec![id];
        proof {
            lemma_single_id(self@, ids@, id);
        }
        self.delete_batch(&ids)
    }

    /// Marks every task whose identifier occurs in `ids` as completed and
    /// says whether there was such a task.
    pub fn complete_batch(&mut self, ids: &Vec<u64>) -> (updated: bool)
        ensures
            final(self)@ == completed_all(old(self)@, ids@.to_set()),
            updated == any_id_in(old(self)@, ids@.to_set()),
            ids_unique(final(self)@),
            ids_positive(final(self)@),
    {
        let ghost before = self@;
        let ghost wanted = ids@.to_set();
        let mut updated = false;
        let mut tasks = self.take_tasks();
        let n = tasks.len();
        let mut i: usize = 0;
        while i < n
            invariant
                i <= n,
                n == before.len(),
                tasks@.len() == n,
                wanted == ids@.to_set(),
                forall|k: int|
                    0 <= k < i ==> #[trigger] task_views(tasks@)[k] == completed_all(
                        before,
                        wanted,
                    )[k],
                forall|k: int| i <= k < n ==> #[trigger] task_views(tasks@)[k] == before[k],
                updated == any_id_in(before.take(i as int), wanted),
            decreases n - i,
        {
            let ghost prev = tasks@;
            assert(task_views(tasks@)[i as int] == before[i as int]);
            if contains_id(ids, tasks[i].id) {
                tasks[i].completed = true;
                updated = true;
                proof {
                    assert(tasks@[i as int]@ == marked(before[i as int]));
                    assert forall|k: int| 0 <= k < n && k != i implies #[trigger] task_views(
                        tasks@,
                    )[k] == task_views(prev)[k] by {
                        assert(tasks@[k] == prev[k]);
                    }
                    assert(before.take(i + 1)[i as int] == before[i as int]);
                }
            } else {
                proof {
                    if any_id_in(before.take(i + 1), wanted) {
                        let k = choose|k: int|
                            0 <= k < i + 1 && wanted.contains(
                                (#[trigger] before.take(i + 1)[k]).id,
                            );
                        if k < i {
                            assert(before.take(i as int)[k] == before[k]);
                        }
                    }
                    if any_id_in(before.take(i as int), wanted) {
                        let k = choose|k: int|
                            0 <= k < i && wanted.contains((#[trigger] before.take(i as int)[k]).id);
                        assert(before.take(i + 1)[k] == before[k]);
                    }
                }
            }
            i += 1;
        }
        proof {
            assert(before.take(n as int) =~= before);
            assert(task_views(tasks@) =~= completed_all(before, wanted));
            lemma_completion_is_idempotent(before, wanted);
        }
        self.tasks = tasks;
        updated
    }

    /// Removes every task whose identifier occurs in `ids`, keeping the
    /// others in their order, and says whether any task was removed.
    pub fn delete_batch(&mut self, ids: &Vec<u64>) -> (deleted: bool)
        ensures
            final(self)@ == deleted_all(old(self)@, ids@.to_set()),
            deleted == (final(self)@.len() < old(self)@.len()),
            deleted == any_id_in(old(self)@, ids@.to_set()),
            ids_unique(final(self)@),
            ids_positive(final(self)@),
    {
        let ghost before = self@;
        let ghost wanted = ids@.to_set();
        let ghost keep = |t: TaskView| !wanted.contains(t.id);
        let present = self.take_tasks();
        let len_before = present.len();
        let mut kept: Vec<Task> = Vec::new();
        for task in it: present
            invariant
                it.seq() == present@,
                before == task_views(present@),
                wanted == ids@.to_set(),
                keep == |t: TaskView| !wanted.contains(t.id),
                task_views(kept@) == task_views(present@.take(it.index() as int)).filter(keep),
        {
            let ghost seen = task_views(present@.take(it.index() as int));
            proof {
                assert(task_views(present@.take(it.index() + 1)) =~= seen.push(task@));
                seen.lemma_filter_push(task@, keep);
            }
            if !contains_id(ids, task.id) {
                let ghost kept_before = task_views(kept@);
                kept.push(task);
                assert(task_views(kept@) =~= kept_before.push(task@));
            }
        }
        proof {
            assert(present@.take(present@.len() as int) =~= present@);
            lemma_deleted_all(before, wanted);
        }
        let deleted = kept.len() < len_before;
        self.tasks = kept;
        deleted
    }
}

} // verus!
