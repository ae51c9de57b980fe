//! What holds of the store's operations, whatever the contents and the
//! arguments: proved over the model that the operations' contracts use.

use vstd::prelude::*;
use crate::task::TaskView;
use crate::model::{
    added, added_all, any_id_in, completed_all, deleted_all, has_id, ids_positive, ids_unique,
    is_smallest_free, lemma_deleted_all, lemma_has_id_push, lemma_push_keeps_unique,
    lemma_smallest_free_exists, lemma_smallest_free_is_unique, smallest_free_id,
};

verus! {

/// One add puts a task with the smallest free identifier at the end and
/// keeps identifiers unique and positive.
pub proof fn lemma_add_keeps_ids_unique(s: Seq<TaskView>, description: Seq<char>)
    requires
        ids_unique(s),
        s.len() < u64::MAX,
    ensures
        ids_unique(added(s, description)),
        ids_positive(s) ==> ids_positive(added(s, description)),
        added(s, description).len() == s.len() + 1,
        is_smallest_free(s, added(s, description).last().id),
{
    lemma_smallest_free_exists(s);
    let t = added(s, description).last();
    lemma_push_keeps_unique(s, t);
    if ids_positive(s) {
        let p = added(s, description);
        assert forall|i: int| 0 <= i < p.len() implies (#[trigger] p[i]).id >= 1 by {
            if i < s.len() {
                assert(p[i] == s[i]);
            }
        }
    }
}

/// Uniqueness: after any sequence of adds, no two tasks that are present
/// share an identifier, and the tasks that were there before stay in place.
pub proof fn lemma_adds_keep_ids_unique(s: Seq<TaskView>, descriptions: Seq<Seq<char>>)
    requires
        ids_unique(s),
        s.len() + descriptions.len() <= u64::MAX,
    ensures
        ids_unique(added_all(s, descriptions)),
        ids_positive(s) ==> ids_positive(added_all(s, descriptions)),
        added_all(s, descriptions).len() == s.len() + descriptions.len(),
        added_all(s, descriptions).take(s.len() as int) == s,
    decreases descriptions.len(),
{
    if descriptions.len() == 0 {
        assert(s.take(s.len() as int) =~= s);
    } else {
        let earlier = added_all(s, descriptions.drop_last());
        lemma_adds_keep_ids_unique(s, descriptions.drop_last());
        lemma_add_keeps_ids_unique(earlier, descriptions.last());
        assert(added_all(s, descriptions).take(s.len() as int) =~= earlier.take(s.len() as int));
    }
}

/// Uniqueness from the start: any sequence of adds on an empty store gives
/// tasks with pairwise different, positive identifiers.
pub proof fn lemma_adds_from_empty_are_unique(descriptions: Seq<Seq<char>>)
    requires
        descriptions.len() <= u64::MAX,
    ensures
        ids_unique(added_all(Seq::empty(), descriptions)),
        ids_positive(added_all(Seq::empty(), descriptions)),
{
    lemma_adds_keep_ids_unique(Seq::empty(), descriptions);
}

/// A batch is its adds in a row: a batch of one does what a single add
/// does, and a batch in two parts does what the two parts do one after the
/// other.
pub proof fn lemma_batch_is_adds_in_a_row(
    s: Seq<TaskView>,
    single: Seq<char>,
    first: Seq<Seq<char>>,
    rest: Seq<Seq<char>>,
)
    ensures
        added_all(s, seq![single]) == added(s, single),
        added_all(s, first.push(single)) == added(added_all(s, first), single),
        added_all(s, first + rest) == added_all(added_all(s, first), rest),
    decreases rest.len(),
{
    assert(seq![single].drop_last() =~= Seq::<Seq<char>>::empty());
    assert(added_all(s, seq![single].drop_last()) == s);
    assert(first.push(single).drop_last() =~= first);
    if rest.len() == 0 {
        assert(first + rest =~= first);
    } else {
        lemma_batch_is_adds_in_a_row(s, single, first, rest.drop_last());
        assert((first + rest).drop_last() =~= first + rest.drop_last());
        assert((first + rest).last() == rest.last());
    }
}

/// A batch on an empty store numbers its tasks 1, 2, 3, ... in the order of
/// the descriptions, each with its own description and not completed.
pub proof fn lemma_batch_on_empty_counts_from_one(descriptions: Seq<Seq<char>>)
    requires
        descriptions.len() <= u64::MAX,
    ensures
        added_all(Seq::empty(), descriptions).len() == descriptions.len(),
        forall|i: int|
            0 <= i < descriptions.len() ==> {
                &&& (#[trigger] added_all(Seq::empty(), descriptions)[i]).id == i + 1
                &&& added_all(Seq::empty(), descriptions)[i].description == descriptions[i]
                &&& !added_all(Seq::empty(), descriptions)[i].completed
            },
    decreases descriptions.len(),
{
    if descriptions.len() > 0 {
        let front = descriptions.drop_last();
        let earlier = added_all(Seq::empty(), front);
        lemma_batch_on_empty_counts_from_one(front);
        let next = (front.len() + 1) as u64;
        assert(is_smallest_free(earlier, next)) by {
            if has_id(earlier, next) {
                let k = choose|k: int| 0 <= k < earlier.len() && (#[trigger] earlier[k]).id == next;
                assert(earlier[k].id == k + 1);
            }
            assert forall|j: u64| 1 <= j < next implies #[trigger] has_id(earlier, j) by {
                assert(earlier[j - 1].id == j);
            }
        }
        lemma_smallest_free_exists(earlier);
        lemma_smallest_free_is_unique(earlier, next, smallest_free_id(earlier));
        let all = added_all(Seq::empty(), descriptions);
        assert forall|i: int| 0 <= i < descriptions.len() implies {
            &&& (#[trigger] all[i]).id == i + 1
            &&& all[i].description == descriptions[i]
            &&& !all[i].completed
        } by {
            if i < front.len() {
                assert(all[i] == earlier[i]);
                assert(descriptions[i] == front[i]);
            }
        }
    }
}

/// A batch and a single add never collide: wherever the single add falls
/// among the adds of the batch (before all of them when `first` is empty,
/// after all of them when `rest` is empty), no two tasks share an
/// identifier afterwards.
pub proof fn lemma_batch_and_single_add_never_collide(
    s: Seq<TaskView>,
    first: Seq<Seq<char>>,
    single: Seq<char>,
    rest: Seq<Seq<char>>,
)
    requires
        ids_unique(s),
        s.len() + first.len() + 1 + rest.len() <= u64::MAX,
    ensures
        ids_unique(added_all(added(added_all(s, first), single), rest)),
        ids_unique(added(added_all(s, first + rest), single)),
        ids_unique(added_all(added(s, single), first + rest)),
{
    lemma_adds_keep_ids_unique(s, first);
    lemma_add_keeps_ids_unique(added_all(s, first), single);
    lemma_adds_keep_ids_unique(added(added_all(s, first), single), rest);
    lemma_adds_keep_ids_unique(s, first + rest);
    lemma_add_keeps_ids_unique(added_all(s, first + rest), single);
    lemma_add_keeps_ids_unique(s, single);
    lemma_adds_keep_ids_unique(added(s, single), first + rest);
}

/// Reuse of identifiers: once a task is deleted, its identifier is free
/// again, and the next add takes it unless a smaller one was free already.
pub proof fn lemma_deleted_id_is_reused(s: Seq<TaskView>, id: u64)
    requires
        s.len() < u64::MAX,
        id >= 1,
        has_id(s, id),
    ensures
        smallest_free_id(deleted_all(s, set![id])) == if id < smallest_free_id(s) {
            id
        } else {
            smallest_free_id(s)
        },
{
    let after = deleted_all(s, set![id]);
    lemma_deleted_all(s, set![id]);
    lemma_smallest_free_exists(s);
    lemma_smallest_free_exists(after);
    let free = smallest_free_id(s);
    let next = if id < free { id } else { free };
    assert(is_smallest_free(after, next)) by {
        assert forall|j: u64| 1 <= j < next implies #[trigger] has_id(after, j) by {
            assert(has_id(s, j));
        }
    }
    lemma_smallest_free_is_unique(after, next, smallest_free_id(after));
}

/// Idempotent completion: completing the same identifiers a second time
/// changes nothing and finds the same tasks; after the first time every
/// task with one of the identifiers is completed, and every other task is
/// as it was.
pub proof fn lemma_completion_is_idempotent(s: Seq<TaskView>, ids: Set<u64>)
    ensures
        completed_all(completed_all(s, ids), ids) == completed_all(s, ids),
        any_id_in(completed_all(s, ids), ids) == any_id_in(s, ids),
        completed_all(s, ids).len() == s.len(),
        forall|i: int| 0 <= i < s.len() && ids.contains(s[i].id) ==> {
            &&& (#[trigger] completed_all(s, ids)[i]).completed
            &&& completed_all(s, ids)[i].id == s[i].id
            &&& completed_all(s, ids)[i].description == s[i].description
        },
        forall|i: int|
            0 <= i < s.len() && !ids.contains(s[i].id) ==> #[trigger] completed_all(s, ids)[i]
                == s[i],
        forall|id: u64| has_id(completed_all(s, ids), id) == has_id(s, id),
        ids_unique(s) ==> ids_unique(completed_all(s, ids)),
        ids_positive(s) ==> ids_positive(completed_all(s, ids)),
{
    let once = completed_all(s, ids);
    assert(completed_all(once, ids) =~= once);
    assert(forall|i: int| 0 <= i < s.len() ==> (#[trigger] once[i]).id == s[i].id);
    if any_id_in(s, ids) {
        let k = choose|k: int| 0 <= k < s.len() && ids.contains((#[trigger] s[k]).id);
        assert(ids.contains(once[k].id));
    }
    if any_id_in(once, ids) {
        let k = choose|k: int| 0 <= k < once.len() && ids.contains((#[trigger] once[k]).id);
        assert(ids.contains(s[k].id));
    }
    assert forall|id: u64| has_id(once, id) == has_id(s, id) by {
        if has_id(s, id) {
            let k = choose|k: int| 0 <= k < s.len() && (#[trigger] s[k]).id == id;
            assert(once[k].id == id);
        }
        if has_id(once, id) {
            let k = choose|k: int| 0 <= k < once.len() && (#[trigger] once[k]).id == id;
            assert(s[k].id == id);
        }
    }
    if ids_unique(s) {
        assert forall|i: int, j: int| 0 <= i < j < once.len() implies (#[trigger] once[i]).id
            != (#[trigger] once[j]).id by {
            assert(s[i].id != s[j].id);
        }
    }
    if ids_positive(s) {
        assert forall|i: int| 0 <= i < once.len() implies (#[trigger] once[i]).id >= 1 by {
            assert(s[i].id >= 1);
        }
    }
}

/// Not found: when no task carries one of the identifiers, completing and
/// deleting by them leave the contents as they are; on an empty store no
/// identifier is found.
pub proof fn lemma_absent_ids_change_nothing(s: Seq<TaskView>, ids: Set<u64>)
    requires
        !any_id_in(s, ids),
    ensures
        completed_all(s, ids) == s,
        deleted_all(s, ids) == s,
{
    assert(completed_all(s, ids) =~= s);
    lemma_deleted_all(s, ids);
}

/// On an empty store no identifier is found.
pub proof fn lemma_empty_store_has_no_ids(ids: Set<u64>, id: u64)
    ensures
        !has_id(Seq::empty(), id),
        !any_id_in(Seq::empty(), ids),
{
}

/// Deleting keeps the order and the uniqueness of what stays: the result
/// holds exactly the tasks whose identifiers were not asked for.
pub proof fn lemma_delete_keeps_ids_unique(s: Seq<TaskView>, ids: Set<u64>)
    requires
        ids_unique(s),
    ensures
        ids_unique(deleted_all(s, ids)),
        forall|id: u64| has_id(deleted_all(s, ids), id) <==> has_id(s, id) && !ids.contains(id),
        !any_id_in(deleted_all(s, ids), ids),
{
    lemma_deleted_all(s, ids);
    let after = deleted_all(s, ids);
    if any_id_in(after, ids) {
        let k = choose|k: int| 0 <= k < after.len() && ids.contains((#[trigger] after[k]).id);
        assert(has_id(after, after[k].id));
    }
}

} // verus!
