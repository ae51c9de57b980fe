//! The store's contents as a sequence of task views, and what each
//! operation does to that sequence.

use vstd::prelude::*;
use crate::task::{Task, TaskView};

verus! {

/// The views of a sequence of tasks, in the same order.
pub open spec fn task_views(tasks: Seq<Task>) -> Seq<TaskView> {
    tasks.map_values(|t: Task| t@)
}

/// The views of a sequence of description strings, in the same order.
pub open spec fn description_views(descriptions: Seq<String>) -> Seq<Seq<char>> {
    descriptions.map_values(|d: String| d@)
}

/// Some task of `s` carries the identifier `id`.
pub open spec fn has_id(s: Seq<TaskView>, id: u64) -> bool {
    exists|i: int| 0 <= i < s.len() && (#[trigger] s[i]).id == id
}

/// No two tasks of `s` share an identifier.
pub open spec fn ids_unique(s: Seq<TaskView>) -> bool {
    forall|i: int, j: int| 0 <= i < j < s.len() ==> (#[trigger] s[i]).id != (#[trigger] s[j]).id
}

/// Every identifier in `s` is a positive integer.
pub open spec fn ids_positive(s: Seq<TaskView>) -> bool {
    forall|i: int| 0 <= i < s.len() ==> (#[trigger] s[i]).id >= 1
}

/// `id` is the smallest positive integer that no task of `s` carries.
pub open spec fn is_smallest_free(s: Seq<TaskView>, id: u64) -> bool {
    &&& id >= 1
    &&& !has_id(s, id)
    &&& forall|j: u64| 1 <= j < id ==> #[trigger] has_id(s, j)
}

/// The identifier that the next added task receives.
pub open spec fn smallest_free_id(s: Seq<TaskView>) -> u64 {
    choose|id: u64| is_smallest_free(s, id)
}

/// The contents after one task with the given description was added.
pub open spec fn added(s: Seq<TaskView>, description: Seq<char>) -> Seq<TaskView> {
    s.push(TaskView { id: smallest_free_id(s), description, completed: false })
}

/// The contents after the descriptions were added one by one, each
/// allocation seeing the tasks that the earlier ones created.
pub open spec fn added_all(s: Seq<TaskView>, descriptions: Seq<Seq<char>>) -> Seq<TaskView>
    decreases descriptions.len(),
{
    if descriptions.len() == 0 {
        s
    } else {
        added(added_all(s, descriptions.drop_last()), descriptions.last())
    }
}

/// A task with its completion flag set.
pub open spec fn marked(t: TaskView) -> TaskView {
    TaskView { id: t.id, description: t.description, completed: true }
}

/// The contents after every task whose identifier is in `ids` was marked
/// completed.
pub open spec fn completed_all(s: Seq<TaskView>, ids: Set<u64>) -> Seq<TaskView> {
    Seq::new(s.len(), |i: int| if ids.contains(s[i].id) { marked(s[i]) } else { s[i] })
}

/// The contents after every task whose identifier is in `ids` was removed.
pub open spec fn deleted_all(s: Seq<TaskView>, ids: Set<u64>) -> Seq<TaskView> {
    s.filter(|t: TaskView| !ids.contains(t.id))
}

/// Some task of `s` carries an identifier from `ids`.
pub open spec fn any_id_in(s: Seq<TaskView>, ids: Set<u64>) -> bool {
    exists|i: int| 0 <= i < s.len() && ids.contains((#[trigger] s[i]).id)
}

/// At most one identifier is the smallest free one.
pub proof fn lemma_smallest_free_is_unique(s: Seq<TaskView>, a: u64, b: u64)
    requires
        is_smallest_free(s, a),
        is_smallest_free(s, b),
    ensures
        a == b,
{
    if a < b {
        assert(has_id(s, a));
    } else if b < a {
        assert(has_id(s, b));
    }
}

/// When the positive integers below `bound` are all in use, there are at
/// least `bound - 1` tasks.
pub proof fn lemma_used_prefix_fits(s: Seq<TaskView>, bound: int)
    requires
        1 <= bound <= u64::MAX + 1,
        forall|j: u64| 1 <= j < bound ==> #[trigger] has_id(s, j),
    ensures
        bound - 1 <= s.len(),
{
    let ids = s.map_values(|t: TaskView| t.id as int);
    let below = vstd::set_lib::set_int_range(1, bound);
    vstd::set_lib::lemma_int_range(1, bound);
    ids.lemma_cardinality_of_set();
    assert forall|j: int| below.contains(j) implies ids.to_set().contains(j) by {
        assert(has_id(s, j as u64));
        let i = choose|i: int| 0 <= i < s.len() && (#[trigger] s[i]).id == j as u64;
        assert(ids[i] == j);
        assert(ids.contains(j));
    }
    vstd::set_lib::lemma_len_subset(below, ids.to_set());
}

/// A store with fewer than `u64::MAX` tasks has a smallest free identifier.
pub proof fn lemma_smallest_free_exists(s: Seq<TaskView>)
    requires
        s.len() < u64::MAX,
    ensures
        is_smallest_free(s, smallest_free_id(s)),
{
    lemma_free_from(s, 1);
}

/// When everything below `from` is in use, a smallest free identifier
/// exists at or above `from`.
proof fn lemma_free_from(s: Seq<TaskView>, from: u64)
    requires
        s.len() < u64::MAX,
        from >= 1,
        forall|j: u64| 1 <= j < from ==> #[trigger] has_id(s, j),
    ensures
        is_smallest_free(s, smallest_free_id(s)),
    decreases s.len() + 1 - from,
{
    if has_id(s, from) {
        lemma_used_prefix_fits(s, from + 1);
        lemma_free_from(s, (from + 1) as u64);
    } else {
        assert(is_smallest_free(s, from));
    }
}

/// What removal by a set of identifiers leaves: a subsequence without
/// those identifiers, shorter exactly when one of them was present, and
/// with unique, positive identifiers where `s` had them.
pub proof fn lemma_deleted_all(s: Seq<TaskView>, ids: Set<u64>)
    ensures
        deleted_all(s, ids).len() <= s.len(),
        deleted_all(s, ids).len() < s.len() <==> any_id_in(s, ids),
        !any_id_in(s, ids) ==> deleted_all(s, ids) == s,
        forall|id: u64| has_id(deleted_all(s, ids), id) <==> has_id(s, id) && !ids.contains(id),
        ids_unique(s) ==> ids_unique(deleted_all(s, ids)),
        ids_positive(s) ==> ids_positive(deleted_all(s, ids)),
    decreases s.len(),
{
    let keep = |t: TaskView| !ids.contains(t.id);
    if s.len() == 0 {
        assert(s.filter(keep) =~= s) by {
            reveal(Seq::filter);
        }
    } else {
        let front = s.drop_last();
        let last = s.last();
        lemma_deleted_all(front, ids);
        assert(s =~= front.push(last));
        front.lemma_filter_push(last, keep);
        let r = deleted_all(s, ids);
        let rf = deleted_all(front, ids);
        // presence of identifiers
        assert(any_id_in(s, ids) <==> any_id_in(front, ids) || ids.contains(last.id)) by {
            if any_id_in(front, ids) {
                let k = choose|k: int| 0 <= k < front.len() && ids.contains((#[trigger] front[k]).id);
                assert(s[k] == front[k]);
            }
            if ids.contains(last.id) {
                assert(s[s.len() - 1] == last);
            }
            if any_id_in(s, ids) {
                let k = choose|k: int| 0 <= k < s.len() && ids.contains((#[trigger] s[k]).id);
                if k < front.len() {
                    assert(front[k] == s[k]);
                }
            }
        }
        assert forall|id: u64| has_id(r, id) <==> has_id(s, id) && !ids.contains(id) by {
            lemma_has_id_push(front, last, id);
            if keep(last) {
                lemma_has_id_push(rf, last, id);
            }
        }
        if ids_unique(s) {
            assert(ids_unique(front)) by {
                assert(forall|k: int| 0 <= k < front.len() ==> front[k] == s[k]);
            }
            if keep(last) {
                assert(!has_id(front, last.id)) by {
                    if has_id(front, last.id) {
                        let k = choose|k: int| 0 <= k < front.len() && (#[trigger] front[k]).id == last.id;
                        assert(s[k].id == s[s.len() - 1].id);
                    }
                }
                lemma_push_keeps_unique(rf, last);
            }
        }
        if ids_positive(s) {
            assert(ids_positive(front)) by {
                assert(forall|k: int| 0 <= k < front.len() ==> front[k] == s[k]);
            }
            assert(last == s[s.len() - 1]);
        }
        if !any_id_in(s, ids) {
            assert(r =~= s);
        }
    }
}

/// The identifiers of a sequence with one more task at its end.
pub proof fn lemma_has_id_push(s: Seq<TaskView>, t: TaskView, id: u64)
    ensures
        has_id(s.push(t), id) <==> has_id(s, id) || t.id == id,
{
    let p = s.push(t);
    if has_id(s, id) {
        let k = choose|k: int| 0 <= k < s.len() && (#[trigger] s[k]).id == id;
        assert(p[k].id == id);
    }
    if t.id == id {
        assert(p[s.len() as int].id == id);
    }
    if has_id(p, id) {
        let k = choose|k: int| 0 <= k < p.len() && (#[trigger] p[k]).id == id;
        if k < s.len() {
            assert(s[k].id == id);
        }
    }
}

/// Appending a task whose identifier is not in use keeps identifiers unique.
pub proof fn lemma_push_keeps_unique(s: Seq<TaskView>, t: TaskView)
    requires
        ids_unique(s),
        !has_id(s, t.id),
    ensures
        ids_unique(s.push(t)),
{
    let p = s.push(t);
    assert forall|i: int, j: int| 0 <= i < j < p.len() implies (#[trigger] p[i]).id != (#[trigger] p[j]).id by {
        if j < s.len() {
            assert(p[i] == s[i] && p[j] == s[j]);
        } else {
            assert(p[i] == s[i]);
        }
    }
}

/// A one-element list of identifiers stands for the set of that one
/// identifier, and a task carries an identifier of that set exactly when it
/// carries that identifier.
pub proof fn lemma_single_id(s: Seq<TaskView>, ids: Seq<u64>, id: u64)
    requires
        ids.len() == 1,
        ids[0] == id,
    ensures
        ids.to_set() == set![id],
        any_id_in(s, set![id]) <==> has_id(s, id),
{
    assert(ids.to_set() =~= set![id]) by {
        assert(ids.contains(id));
    }
    if has_id(s, id) {
        let k = choose|k: int| 0 <= k < s.len() && (#[trigger] s[k]).id == id;
        assert(set![id].contains(s[k].id));
    }
}

} // verus!
