use vstd::prelude::*;
use crate::models::task::Task;
use crate::models::tree::{
    ancestor, distinct_ids, forest_tasks, has_id, is_root, kids, later_has_id, live_from,
    parent_of, reaches_root_in, roots, task_by_id, tree_tasks,
};
use vstd::seq_lib::lemma_no_dup_in_concat;

verus! {

/// One step of `live_from`, and what it does to the ids that occur.
pub(crate) proof fn lemma_live_step(s: Seq<Task>, k: int)
    requires
        0 <= k < s.len(),
        distinct_ids(live_from(s, k + 1)),
        ({
            let live = live_from(s, k + 1);
            forall|id: i64| #[trigger] has_id(live, id) <==> later_has_id(s, k + 1, id)
        }),
    ensures
        distinct_ids(live_from(s, k)),
        forall|id: i64| #[trigger] has_id(live_from(s, k), id) <==> later_has_id(s, k, id),
        later_has_id(s, k + 1, s[k].id) ==> live_from(s, k) == live_from(s, k + 1),
        !later_has_id(s, k + 1, s[k].id) ==> live_from(s, k) == seq![s[k]] + live_from(s, k + 1),
{
    let live = live_from(s, k + 1);
    let live2 = live_from(s, k);
    assert forall|id: i64| #[trigger] has_id(live2, id) <==> later_has_id(s, k, id) by {
        if later_has_id(s, k + 1, s[k].id) {
            assert(live2 == live);
            if later_has_id(s, k, id) {
                let i = choose|i: int| k <= i < s.len() && 0 <= i && (#[trigger] s[i]).id == id;
                if i == k {
                    assert(later_has_id(s, k + 1, id));
                } else {
                    assert(later_has_id(s, k + 1, id));
                }
            }
            if has_id(live2, id) {
                assert(later_has_id(s, k + 1, id));
                let i = choose|i: int| k + 1 <= i < s.len() && 0 <= i && (#[trigger] s[i]).id == id;
                assert(k <= i < s.len() && s[i].id == id);
            }
        } else {
            assert(live2 == seq![s[k]] + live);
            if later_has_id(s, k, id) {
                let i = choose|i: int| k <= i < s.len() && 0 <= i && (#[trigger] s[i]).id == id;
                if i == k {
                    assert(live2[0].id == id);
                } else {
                    assert(later_has_id(s, k + 1, id));
                    assert(has_id(live, id));
                    let j = choose|j: int| 0 <= j < live.len() && (#[trigger] live[j]).id == id;
                    assert(live2[j + 1].id == id);
                }
            }
            if has_id(live2, id) {
                let j = choose|j: int| 0 <= j < live2.len() && (#[trigger] live2[j]).id == id;
                if j == 0 {
                    assert(s[k].id == id);
                } else {
                    assert(live[j - 1].id == id);
                    assert(has_id(live, id));
                    let i = choose|i: int|
                        k + 1 <= i < s.len() && 0 <= i && (#[trigger] s[i]).id == id;
                    assert(k <= i < s.len() && s[i].id == id);
                }
            }
        }
    }
    if !later_has_id(s, k + 1, s[k].id) {
        assert forall|i: int, j: int|
            0 <= i < live2.len() && 0 <= j < live2.len() && i != j implies (#[trigger] live2[i]).id
            != (#[trigger] live2[j]).id by {
            if i > 0 && j > 0 {
                assert(live2[i] == live[i - 1]);
                assert(live2[j] == live[j - 1]);
            } else if i == 0 {
                assert(live2[j] == live[j - 1]);
                assert(has_id(live, live[j - 1].id));
            } else {
                assert(live2[i] == live[i - 1]);
                assert(has_id(live, live[i - 1].id));
            }
        }
    }
}


/// `t` is `x` or one of the tasks on the chain of parents of `x`.
pub open spec fn reaches(l: Seq<Task>, x: Task, t: Task) -> bool {
    exists|k: nat| #[trigger] ancestor(l, x, k) == Some(t)
}

/// The chain of parents of `x` passes through one of `ts`.
pub open spec fn reaches_one(l: Seq<Task>, x: Task, ts: Seq<Task>) -> bool {
    exists|j: int| 0 <= j < ts.len() && reaches(l, x, #[trigger] ts[j])
}

/// Where ids are distinct, two tasks of the list with one id are one task.
pub(crate) proof fn lemma_same_id_same_task(l: Seq<Task>, x: Task, y: Task)
    requires
        distinct_ids(l),
        l.contains(x),
        l.contains(y),
        x.id == y.id,
    ensures
        x == y,
{
    let i = choose|i: int| 0 <= i < l.len() && l[i] == x;
    let j = choose|j: int| 0 <= j < l.len() && l[j] == y;
    if i != j {
        assert(l[i].id != l[j].id);
    }
}

/// Where ids are distinct, a task of the list is the task found by its id.
pub(crate) proof fn lemma_task_by_id(l: Seq<Task>, t: Task)
    requires
        distinct_ids(l),
        l.contains(t),
    ensures
        has_id(l, t.id),
        task_by_id(l, t.id) == t,
        l.contains(task_by_id(l, t.id)),
{
    let i = choose|i: int| 0 <= i < l.len() && l[i] == t;
    assert(l[i].id == t.id);
    let j = choose|j: int| 0 <= j < l.len() && (#[trigger] l[j]).id == t.id;
    lemma_same_id_same_task(l, l[j], t);
}

/// A list with distinct ids holds no task twice.
pub(crate) proof fn lemma_distinct_ids_no_duplicates(l: Seq<Task>)
    requires
        distinct_ids(l),
    ensures
        l.no_duplicates(),
{
    assert forall|i: int, j: int| 0 <= i < l.len() && 0 <= j < l.len() && i != j implies l[i]
        != l[j] by {
        assert(l[i].id != l[j].id);
    }
}

/// Picking tasks out of a list that holds none twice gives such a list again.
pub(crate) proof fn lemma_filter_no_duplicates(s: Seq<Task>, pred: spec_fn(Task) -> bool)
    requires
        s.no_duplicates(),
    ensures
        s.filter(pred).no_duplicates(),
    decreases s.len(),
{
    reveal(Seq::filter);
    if s.len() > 0 {
        let init = s.drop_last();
        lemma_filter_no_duplicates(init, pred);
        if pred(s.last()) {
            let f = init.filter(pred);
            assert forall|i: int| 0 <= i < f.len() implies f[i] != s.last() by {
                assert(f.contains(f[i]));
                init.lemma_filter_contains_rev(pred, f[i]);
                let j = choose|j: int| 0 <= j < init.len() && init[j] == f[i];
                assert(s[j] == f[i]);
            }
            assert(f.push(s.last()).no_duplicates());
        }
    }
}

/// What holds of a task found among the tasks that name `t` as parent.
pub(crate) proof fn lemma_kid(l: Seq<Task>, t: Task, c: Task)
    requires
        distinct_ids(l),
        l.contains(t),
        kids(l, t.id).contains(c),
    ensures
        l.contains(c),
        c.parent_id == Some(t.id),
        parent_of(l, c) == Some(t),
        ancestor(l, c, 1) == Some(t),
{
    let pred = |x: Task| x.parent_id == Some(t.id);
    l.lemma_filter_contains_rev(pred, c);
    let i = choose|i: int| 0 <= i < l.filter(pred).len() && l.filter(pred)[i] == c;
    l.lemma_filter_pred(pred, i);
    lemma_task_by_id(l, t);
    assert(ancestor(l, c, 0) == Some(c));
    reveal_with_fuel(ancestor, 2);
}

/// A chain of parents that has ended has ended for every greater number of
/// steps.
pub(crate) proof fn lemma_ancestor_none_stays(l: Seq<Task>, t: Task, k: nat, k2: nat)
    requires
        ancestor(l, t, k) is None,
        k <= k2,
    ensures
        ancestor(l, t, k2) is None,
    decreases k2,
{
    if k2 > k {
        lemma_ancestor_none_stays(l, t, k, (k2 - 1) as nat);
    }
}

/// Steps along the chain of parents add up.
pub(crate) proof fn lemma_ancestor_compose(l: Seq<Task>, x: Task, k: nat, u: Task, m: nat)
    requires
        ancestor(l, x, k) == Some(u),
    ensures
        ancestor(l, x, k + m) == ancestor(l, u, m),
    decreases m,
{
    if m > 0 {
        lemma_ancestor_compose(l, x, k, u, (m - 1) as nat);
        assert(k + m - 1 == k + (m - 1) as nat);
    }
}

/// A chain of parents ends at a root after one number of steps only.
pub(crate) proof fn lemma_root_distance_unique(l: Seq<Task>, t: Task, r1: nat, r2: nat)
    requires
        reaches_root_in(l, t, r1),
        reaches_root_in(l, t, r2),
    ensures
        r1 == r2,
{
    if r1 < r2 {
        assert(ancestor(l, t, r1 + 1) is None);
        lemma_ancestor_none_stays(l, t, r1 + 1, r2);
    } else if r2 < r1 {
        assert(ancestor(l, t, r2 + 1) is None);
        lemma_ancestor_none_stays(l, t, r2 + 1, r1);
    }
}

/// A task that stands `k` steps below a task `q` steps from a root stands
/// `k + q` steps from that root.
pub(crate) proof fn lemma_root_distance_below(l: Seq<Task>, x: Task, k: nat, u: Task, q: nat)
    requires
        ancestor(l, x, k) == Some(u),
        reaches_root_in(l, u, q),
    ensures
        reaches_root_in(l, x, k + q),
{
    lemma_ancestor_compose(l, x, k, u, q);
}

/// The tree below a task that reaches a root lists no task twice, and lists
/// only tasks of `l` whose chain of parents passes through that task.
pub(crate) proof fn lemma_tree_tasks_distinct(l: Seq<Task>, t: Task, depth: nat, r: nat)
    requires
        distinct_ids(l),
        l.contains(t),
        reaches_root_in(l, t, r),
    ensures
        tree_tasks(l, t, depth).no_duplicates(),
        forall|x: Task| #[trigger]
            tree_tasks(l, t, depth).contains(x) ==> l.contains(x) && reaches(l, x, t),
    decreases depth, 0nat,
{
    let whole = tree_tasks(l, t, depth);
    assert(ancestor(l, t, 0) == Some(t));
    if depth == 0 {
        assert(whole =~= seq![t]);
        assert forall|x: Task| #[trigger] whole.contains(x) implies l.contains(x) && reaches(
            l,
            x,
            t,
        ) by {
            assert(x == t);
        }
    } else {
        let ks = kids(l, t.id);
        let below = forest_tasks(l, ks, (depth - 1) as nat);
        assert(whole == seq![t] + below);
        lemma_distinct_ids_no_duplicates(l);
        lemma_filter_no_duplicates(l, |x: Task| x.parent_id == Some(t.id));
        assert forall|j: int| 0 <= j < ks.len() implies l.contains(#[trigger] ks[j])
            && reaches_root_in(l, ks[j], r + 1) by {
            assert(ks.contains(ks[j]));
            lemma_kid(l, t, ks[j]);
            lemma_root_distance_below(l, ks[j], 1, t, r);
        }
        lemma_forest_tasks_distinct(l, ks, (depth - 1) as nat, r + 1);
        assert forall|i: int, j: int| 0 <= i < 1 && 0 <= j < below.len() implies seq![t][i]
            != below[j] by {
            let x = below[j];
            assert(below.contains(x));
            if x == t {
                let jj = choose|jj: int| 0 <= jj < ks.len() && reaches(l, x, #[trigger] ks[jj]);
                let k = choose|k: nat| #[trigger] ancestor(l, x, k) == Some(ks[jj]);
                lemma_root_distance_below(l, x, k, ks[jj], r + 1);
                lemma_root_distance_unique(l, t, r, k + (r + 1));
            }
        }
        lemma_no_dup_in_concat(seq![t], below);
        assert forall|x: Task| #[trigger] whole.contains(x) implies l.contains(x) && reaches(
            l,
            x,
            t,
        ) by {
            let i = choose|i: int| 0 <= i < whole.len() && whole[i] == x;
            if i == 0 {
                assert(x == t);
            } else {
                assert(below[i - 1] == x);
                assert(below.contains(x));
                let jj = choose|jj: int| 0 <= jj < ks.len() && reaches(l, x, #[trigger] ks[jj]);
                let k = choose|k: nat| #[trigger] ancestor(l, x, k) == Some(ks[jj]);
                assert(ks.contains(ks[jj]));
                lemma_kid(l, t, ks[jj]);
                assert(ancestor(l, x, k + 1) == Some(t));
            }
        }
    }
}

/// The trees below tasks that all stand the same number of steps from a root
/// list no task twice between them.
pub(crate) proof fn lemma_forest_tasks_distinct(l: Seq<Task>, ts: Seq<Task>, depth: nat, r: nat)
    requires
        distinct_ids(l),
        ts.no_duplicates(),
        forall|j: int|
            0 <= j < ts.len() ==> l.contains(#[trigger] ts[j]) && reaches_root_in(l, ts[j], r),
    ensures
        forest_tasks(l, ts, depth).no_duplicates(),
        forall|x: Task| #[trigger]
            forest_tasks(l, ts, depth).contains(x) ==> l.contains(x) && reaches_one(l, x, ts),
    decreases depth, 1 + ts.len(),
{
    let whole = forest_tasks(l, ts, depth);
    if ts.len() > 0 {
        let init = ts.drop_last();
        let last = ts.last();
        let a = forest_tasks(l, init, depth);
        let b = tree_tasks(l, last, depth);
        assert(whole == a + b);
        assert forall|j: int| 0 <= j < init.len() implies l.contains(#[trigger] init[j])
            && reaches_root_in(l, init[j], r) by {
            assert(init[j] == ts[j]);
        }
        lemma_forest_tasks_distinct(l, init, depth, r);
        lemma_tree_tasks_distinct(l, last, depth, r);
        assert forall|i: int, j: int| 0 <= i < a.len() && 0 <= j < b.len() implies a[i]
            != b[j] by {
            let x = a[i];
            assert(a.contains(x));
            if x == b[j] {
                assert(b.contains(x));
                let jj = choose|jj: int|
                    0 <= jj < init.len() && reaches(l, x, #[trigger] init[jj]);
                let k1 = choose|k: nat| #[trigger] ancestor(l, x, k) == Some(init[jj]);
                let k2 = choose|k: nat| #[trigger] ancestor(l, x, k) == Some(last);
                assert(init[jj] == ts[jj]);
                lemma_root_distance_below(l, x, k1, init[jj], r);
                lemma_root_distance_below(l, x, k2, last, r);
                lemma_root_distance_unique(l, x, k1 + r, k2 + r);
                assert(ts[jj] == ts[ts.len() - 1]);
            }
        }
        lemma_no_dup_in_concat(a, b);
        assert forall|x: Task| #[trigger] whole.contains(x) implies l.contains(x) && reaches_one(
            l,
            x,
            ts,
        ) by {
            let i = choose|i: int| 0 <= i < whole.len() && whole[i] == x;
            if i < a.len() {
                assert(a[i] == x);
                assert(a.contains(x));
                let jj = choose|jj: int|
                    0 <= jj < init.len() && reaches(l, x, #[trigger] init[jj]);
                assert(init[jj] == ts[jj]);
            } else {
                assert(b[i - a.len()] == x);
                assert(b.contains(x));
                assert(reaches(l, x, ts[ts.len() - 1]));
            }
        }
    }
}

/// The forest below the roots of `l` lists no task twice.
pub(crate) proof fn lemma_root_forest_distinct(l: Seq<Task>, depth: nat)
    requires
        distinct_ids(l),
    ensures
        forest_tasks(l, roots(l), depth).no_duplicates(),
        forall|x: Task| #[trigger]
            forest_tasks(l, roots(l), depth).contains(x) ==> l.contains(x),
{
    let rs = roots(l);
    let pred = |t: Task| is_root(l, t);
    lemma_distinct_ids_no_duplicates(l);
    lemma_filter_no_duplicates(l, pred);
    assert forall|j: int| 0 <= j < rs.len() implies l.contains(#[trigger] rs[j])
        && reaches_root_in(l, rs[j], 0) by {
        assert(rs.contains(rs[j]));
        l.lemma_filter_contains_rev(pred, rs[j]);
        l.lemma_filter_pred(pred, j);
    }
    lemma_forest_tasks_distinct(l, rs, depth, 0);
}


/// An id occurs in two lists joined exactly if it occurs in one of them.
pub(crate) proof fn lemma_has_id_concat(a: Seq<Task>, b: Seq<Task>, id: i64)
    ensures
        has_id(a + b, id) <==> has_id(a, id) || has_id(b, id),
{
    let ab = a + b;
    if has_id(a, id) {
        let i = choose|i: int| 0 <= i < a.len() && (#[trigger] a[i]).id == id;
        assert(ab[i].id == id);
    }
    if has_id(b, id) {
        let i = choose|i: int| 0 <= i < b.len() && (#[trigger] b[i]).id == id;
        assert(ab[a.len() + i].id == id);
    }
    if has_id(ab, id) {
        let i = choose|i: int| 0 <= i < ab.len() && (#[trigger] ab[i]).id == id;
        if i < a.len() {
            assert(a[i].id == id);
        } else {
            assert(b[i - a.len()].id == id);
        }
    }
}

/// The forest below the first `k + 1` tasks of `ts` is the forest below the
/// first `k`, followed by the tree below the next one.
pub(crate) proof fn lemma_forest_take_step(l: Seq<Task>, ts: Seq<Task>, depth: nat, k: int)
    requires
        0 <= k < ts.len(),
    ensures
        forest_tasks(l, ts.take(k + 1), depth) == forest_tasks(l, ts.take(k), depth) + tree_tasks(
            l,
            ts[k],
            depth,
        ),
{
    assert(ts.take(k + 1).drop_last() =~= ts.take(k));
    assert(ts.take(k + 1).last() == ts[k]);
}

/// The forest below the first `k` tasks of `ts` opens the forest below `ts`.
pub(crate) proof fn lemma_forest_prefix(l: Seq<Task>, ts: Seq<Task>, depth: nat, k: int)
    requires
        0 <= k <= ts.len(),
    ensures
        forest_tasks(l, ts.take(k), depth).len() <= forest_tasks(l, ts, depth).len(),
        forest_tasks(l, ts, depth).take(forest_tasks(l, ts.take(k), depth).len() as int)
            == forest_tasks(l, ts.take(k), depth),
    decreases ts.len(),
{
    if k == ts.len() {
        assert(ts.take(k) =~= ts);
        assert(forest_tasks(l, ts, depth).take(forest_tasks(l, ts, depth).len() as int)
            =~= forest_tasks(l, ts, depth));
    } else {
        let init = ts.drop_last();
        assert(init.take(k) =~= ts.take(k));
        lemma_forest_prefix(l, init, depth, k);
        let a = forest_tasks(l, ts.take(k), depth);
        let w1 = forest_tasks(l, init, depth);
        let w = forest_tasks(l, ts, depth);
        assert(w == w1 + tree_tasks(l, ts.last(), depth));
        assert(w.take(a.len() as int) =~= w1.take(a.len() as int));
    }
}

/// Within a forest that lists no task twice, the tree below the `k`-th task
/// lists no task twice and shares no id with the trees before it.
pub(crate) proof fn lemma_next_tree(l: Seq<Task>, ts: Seq<Task>, depth: nat, k: int)
    requires
        distinct_ids(l),
        0 <= k < ts.len(),
        forest_tasks(l, ts, depth).no_duplicates(),
        forall|x: Task| #[trigger] forest_tasks(l, ts, depth).contains(x) ==> l.contains(x),
    ensures
        tree_tasks(l, ts[k], depth).no_duplicates(),
        forall|x: Task| #[trigger]
            tree_tasks(l, ts[k], depth).contains(x) ==> {
                &&& forest_tasks(l, ts, depth).contains(x)
                &&& !has_id(forest_tasks(l, ts.take(k), depth), x.id)
            },
{
    let w = forest_tasks(l, ts, depth);
    let a = forest_tasks(l, ts.take(k), depth);
    let b = tree_tasks(l, ts[k], depth);
    let ab = forest_tasks(l, ts.take(k + 1), depth);
    lemma_forest_take_step(l, ts, depth, k);
    lemma_forest_prefix(l, ts, depth, k + 1);
    assert(ab == a + b);
    assert(w.take(ab.len() as int) == ab);
    assert forall|i: int| 0 <= i < ab.len() implies #[trigger] ab[i] == w[i] by {
        assert(w.take(ab.len() as int)[i] == w[i]);
    }
    assert forall|i: int, j: int| 0 <= i < b.len() && 0 <= j < b.len() && i != j implies b[i]
        != b[j] by {
        assert(ab[a.len() + i] == b[i]);
        assert(ab[a.len() + j] == b[j]);
    }
    assert forall|x: Task| #[trigger] b.contains(x) implies w.contains(x) && !has_id(
        a,
        x.id,
    ) by {
        let j = choose|j: int| 0 <= j < b.len() && b[j] == x;
        assert(ab[a.len() + j] == x);
        assert(w[a.len() + j] == x);
        assert(w.contains(x));
        if has_id(a, x.id) {
            let i = choose|i: int| 0 <= i < a.len() && (#[trigger] a[i]).id == x.id;
            assert(ab[i] == a[i]);
            assert(w[i] == a[i]);
            assert(w.contains(a[i]));
            lemma_same_id_same_task(l, a[i], x);
        }
    }
}


/// `now` holds exactly the keys of `before` that are no id of a task of
/// `gone`.
pub open spec fn keeps<V>(now: Map<i64, V>, before: Map<i64, V>, gone: Seq<Task>) -> bool {
    &&& forall|id: i64| #[trigger] now.contains_key(id) ==> before.contains_key(id) && !has_id(gone, id)
    &&& forall|id: i64| #[trigger] before.contains_key(id) && !has_id(gone, id) ==> now.contains_key(id)
}

/// Keys kept twice over are the keys kept once over both lists of tasks.
pub(crate) proof fn lemma_keeps_chain<V>(
    a: Map<i64, V>,
    b: Map<i64, V>,
    c: Map<i64, V>,
    gone1: Seq<Task>,
    gone2: Seq<Task>,
)
    requires
        keeps(b, a, gone1),
        keeps(c, b, gone2),
    ensures
        keeps(c, a, gone1 + gone2),
        c.dom().subset_of(b.dom()),
{
    assert forall|id: i64| #[trigger] c.contains_key(id) implies a.contains_key(id) && !has_id(
        gone1 + gone2,
        id,
    ) by {
        lemma_has_id_concat(gone1, gone2, id);
        assert(b.contains_key(id));
    }
    assert forall|id: i64| #[trigger] a.contains_key(id) && !has_id(gone1 + gone2, id) implies c.contains_key(
        id,
    ) by {
        lemma_has_id_concat(gone1, gone2, id);
        assert(b.contains_key(id));
    }
}

/// A map keeps all its keys where no task is gone.
pub(crate) proof fn lemma_keeps_all<V>(a: Map<i64, V>)
    ensures
        keeps(a, a, Seq::<Task>::empty()),
{
}

/// Removing the key of one task keeps the keys of all others.
pub(crate) proof fn lemma_keeps_one<V>(a: Map<i64, V>, t: Task)
    ensures
        keeps(a.remove(t.id), a, seq![t]),
{
    assert(has_id(seq![t], t.id)) by {
        assert(seq![t][0].id == t.id);
    }
    assert forall|id: i64| has_id(seq![t], id) implies id == t.id by {
        let i = choose|i: int| 0 <= i < seq![t].len() && (#[trigger] seq![t][i]).id == id;
    }
}

} // verus!
