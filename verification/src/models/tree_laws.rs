use vstd::prelude::*;
use crate::models::task::Task;
use crate::models::tree::{
    ancestor, distinct_ids, forest_of, forest_tasks, has_id, is_root, kids, later_has_id,
    live_from, live_tasks, parent_of, reaches_root_in, roots, tree_model, tree_tasks, TreeModel,
};
use crate::models::tree_proofs::{
    lemma_ancestor_compose, lemma_ancestor_none_stays, lemma_distinct_ids_no_duplicates,
    lemma_filter_no_duplicates, lemma_forest_tasks_distinct, lemma_kid, lemma_live_step,
    lemma_root_distance_below,
    lemma_root_distance_unique, lemma_root_forest_distinct, lemma_same_id_same_task, reaches,
    reaches_one,
};
use vstd::set_lib::lemma_len_subset;

verus! {

/// The tasks of a tree, each parent before its subtasks.
pub open spec fn tasks_of(t: TreeModel) -> Seq<Task>
    decreases t, 1nat,
{
    seq![t.task] + forest_list(t.subtasks)
}

/// The tasks of a list of trees, tree after tree.
pub open spec fn forest_list(f: Seq<TreeModel>) -> Seq<Task>
    decreases f, 0nat,
{
    if f.len() == 0 {
        Seq::empty()
    } else {
        forest_list(f.drop_last()) + tasks_of(f.last())
    }
}

/// The number of nodes in a list of trees.
pub open spec fn node_count(f: Seq<TreeModel>) -> nat {
    forest_list(f).len()
}

/// Every subtask in `t` names the task it hangs below as its parent, and no
/// chain of subtasks in `t` is longer than `depth`.
pub open spec fn well_linked(t: TreeModel, depth: nat) -> bool
    decreases depth,
{
    if depth == 0 {
        t.subtasks.len() == 0
    } else {
        forall|k: int|
            0 <= k < t.subtasks.len() ==> {
                &&& (#[trigger] t.subtasks[k]).task.parent_id == Some(t.task.id)
                &&& well_linked(t.subtasks[k], (depth - 1) as nat)
            }
    }
}

proof fn lemma_tree_list(l: Seq<Task>, t: Task, depth: nat)
    ensures
        tasks_of(tree_model(l, t, depth)) == tree_tasks(l, t, depth),
    decreases depth, 0nat,
{
    if depth == 0 {
        assert(forest_list(tree_model(l, t, depth).subtasks) =~= Seq::<Task>::empty());
    } else {
        lemma_forest_list(l, kids(l, t.id), (depth - 1) as nat, tree_model(l, t, depth).subtasks);
    }
}

proof fn lemma_forest_list(l: Seq<Task>, ts: Seq<Task>, depth: nat, f: Seq<TreeModel>)
    requires
        f.len() == ts.len(),
        forall|j: int| 0 <= j < ts.len() ==> #[trigger] f[j] == tree_model(l, ts[j], depth),
    ensures
        forest_list(f) == forest_tasks(l, ts, depth),
    decreases depth, 1 + ts.len(),
{
    if ts.len() > 0 {
        lemma_forest_list(l, ts.drop_last(), depth, f.drop_last());
        lemma_tree_list(l, ts.last(), depth);
    }
}

/// The listing of the forest of `s` is the listing below the roots of its
/// live tasks.
pub proof fn lemma_forest_listing(s: Seq<Task>)
    ensures
        forest_list(forest_of(s)) == forest_tasks(
            live_tasks(s),
            roots(live_tasks(s)),
            live_tasks(s).len(),
        ),
{
    let l = live_tasks(s);
    lemma_forest_list(l, roots(l), l.len(), forest_of(s));
}

/// The live tasks of `s` from `from` on carry pairwise distinct ids, are
/// tasks of `s`, and carry exactly the ids that occur in `s` from `from` on.
pub proof fn lemma_live_from(s: Seq<Task>, from: int)
    requires
        0 <= from <= s.len(),
    ensures
        distinct_ids(live_from(s, from)),
        forall|id: i64| #[trigger] has_id(live_from(s, from), id) <==> later_has_id(s, from, id),
        forall|x: Task| #[trigger] live_from(s, from).contains(x) ==> s.contains(x),
        live_from(s, from).len() <= s.len() - from,
        forall|i: int|
            from <= i < s.len() && !later_has_id(s, i + 1, s[i].id) ==> live_from(
                s,
                from,
            ).contains(#[trigger] s[i]),
    decreases s.len() - from,
{
    let live = live_from(s, from);
    if from < s.len() {
        let rest = live_from(s, from + 1);
        lemma_live_from(s, from + 1);
        lemma_live_step(s, from);
        assert forall|x: Task| #[trigger] live.contains(x) implies s.contains(x) by {
            let j = choose|j: int| 0 <= j < live.len() && live[j] == x;
            if later_has_id(s, from + 1, s[from].id) {
                assert(rest.contains(x));
            } else if j == 0 {
                assert(s[from] == x);
            } else {
                assert(rest[j - 1] == x);
                assert(rest.contains(x));
            }
        }
        assert forall|i: int|
            from <= i < s.len() && !later_has_id(s, i + 1, s[i].id) implies live.contains(
            #[trigger] s[i],
        ) by {
            if i == from {
                assert(live[0] == s[i]);
            } else {
                assert(rest.contains(s[i]));
                let j = choose|j: int| 0 <= j < rest.len() && rest[j] == s[i];
                if !later_has_id(s, from + 1, s[from].id) {
                    assert(live[j + 1] == s[i]);
                }
            }
        }
    } else {
        assert forall|id: i64| #[trigger] has_id(live, id) <==> later_has_id(s, from, id) by {}
    }
}

/// A list without repeated ids is its own list of live tasks.
pub proof fn lemma_live_of_distinct(s: Seq<Task>)
    requires
        distinct_ids(s),
    ensures
        live_tasks(s) == s,
{
    lemma_live_suffix(s, 0);
    assert(s.subrange(0, s.len() as int) =~= s);
}

proof fn lemma_live_suffix(s: Seq<Task>, from: int)
    requires
        distinct_ids(s),
        0 <= from <= s.len(),
    ensures
        live_from(s, from) == s.subrange(from, s.len() as int),
    decreases s.len() - from,
{
    if from < s.len() {
        lemma_live_suffix(s, from + 1);
        if later_has_id(s, from + 1, s[from].id) {
            let i = choose|i: int|
                from + 1 <= i < s.len() && 0 <= i && (#[trigger] s[i]).id == s[from].id;
            assert(s[i].id != s[from].id);
        }
        assert(seq![s[from]] + s.subrange(from + 1, s.len() as int) =~= s.subrange(
            from,
            s.len() as int,
        ));
    } else {
        assert(live_from(s, from) =~= s.subrange(from, s.len() as int));
    }
}

/// No task stands twice in the forest: the forest of `s` lists pairwise
/// distinct ids, and every task it lists is a task of `s`.
pub proof fn lemma_forest_lists_no_task_twice(s: Seq<Task>)
    ensures
        distinct_ids(forest_list(forest_of(s))),
        forall|x: Task| #[trigger] forest_list(forest_of(s)).contains(x) ==> s.contains(x),
        node_count(forest_of(s)) <= s.len(),
{
    let l = live_tasks(s);
    let f = forest_list(forest_of(s));
    lemma_forest_listing(s);
    lemma_live_from(s, 0);
    lemma_root_forest_distinct(l, l.len());
    assert forall|i: int, j: int| 0 <= i < f.len() && 0 <= j < f.len() && i != j implies (
    #[trigger] f[i]).id != (#[trigger] f[j]).id by {
        assert(f.contains(f[i]));
        assert(f.contains(f[j]));
        if f[i].id == f[j].id {
            lemma_same_id_same_task(l, f[i], f[j]);
        }
    }
    lemma_listed_at_most(l, f);
}

proof fn lemma_listed_at_most(l: Seq<Task>, f: Seq<Task>)
    requires
        f.no_duplicates(),
        forall|x: Task| #[trigger] f.contains(x) ==> l.contains(x),
    ensures
        f.len() <= l.len(),
{
    f.unique_seq_to_set();
    l.lemma_cardinality_of_set();
    assert(f.to_set().subset_of(l.to_set())) by {
        assert forall|x: Task| f.to_set().contains(x) implies l.to_set().contains(x) by {
            assert(f.contains(x));
        }
    }
    lemma_len_subset(f.to_set(), l.to_set());
}


proof fn lemma_ancestor_in_list(l: Seq<Task>, t: Task, k: nat)
    requires
        l.contains(t),
        ancestor(l, t, k) is Some,
    ensures
        l.contains(ancestor(l, t, k).unwrap()),
    decreases k,
{
    if k > 0 {
        let before = ancestor(l, t, (k - 1) as nat);
        lemma_ancestor_in_list(l, t, (k - 1) as nat);
        let u = before.unwrap();
        let p = u.parent_id.unwrap();
        let i = choose|i: int| 0 <= i < l.len() && (#[trigger] l[i]).id == p;
        assert(l.contains(l[i]));
    }
}

/// A chain of parents that ends at a root is shorter than the list: it
/// passes through no task twice.
pub proof fn lemma_root_distance_bound(l: Seq<Task>, t: Task, r: nat)
    requires
        l.contains(t),
        reaches_root_in(l, t, r),
    ensures
        r < l.len(),
{
    let chain = Seq::new(r + 1, |k: int| ancestor(l, t, k as nat).unwrap());
    assert forall|k: int| 0 <= k <= r implies ancestor(l, t, k as nat) is Some && l.contains(
        #[trigger] chain[k],
    ) && reaches_root_in(l, chain[k], (r - k) as nat) by {
        if ancestor(l, t, k as nat) is None {
            lemma_ancestor_none_stays(l, t, k as nat, r);
        }
        lemma_ancestor_in_list(l, t, k as nat);
        lemma_ancestor_compose(l, t, k as nat, chain[k], (r - k) as nat);
        assert(k as nat + (r - k) as nat == r);
    }
    assert forall|i: int, j: int|
        0 <= i < chain.len() && 0 <= j < chain.len() && i != j implies chain[i] != chain[j] by {
        if chain[i] == chain[j] {
            lemma_root_distance_unique(l, chain[i], (r - i) as nat, (r - j) as nat);
        }
    }
    assert forall|x: Task| #[trigger] chain.contains(x) implies l.contains(x) by {
        let k = choose|k: int| 0 <= k < chain.len() && chain[k] == x;
        assert(l.contains(chain[k]));
    }
    lemma_listed_at_most(l, chain);
}

proof fn lemma_tree_model_stable(l: Seq<Task>, t: Task, r: nat, depth: nat, deeper: nat)
    requires
        distinct_ids(l),
        l.contains(t),
        reaches_root_in(l, t, r),
        depth + r >= l.len(),
        deeper >= depth,
    ensures
        tree_model(l, t, deeper) == tree_model(l, t, depth),
    decreases depth,
{
    lemma_root_distance_bound(l, t, r);
    let ks = kids(l, t.id);
    assert forall|j: int| 0 <= j < ks.len() implies tree_model(
        l,
        #[trigger] ks[j],
        (deeper - 1) as nat,
    ) == tree_model(l, ks[j], (depth - 1) as nat) by {
        assert(ks.contains(ks[j]));
        lemma_kid(l, t, ks[j]);
        lemma_root_distance_below(l, ks[j], 1, t, r);
        lemma_tree_model_stable(l, ks[j], r + 1, (depth - 1) as nat, (deeper - 1) as nat);
    }
    assert(tree_model(l, t, deeper).subtasks =~= tree_model(l, t, depth).subtasks);
}

proof fn lemma_root_is_listed(l: Seq<Task>, k: int)
    requires
        0 <= k < roots(l).len(),
    ensures
        l.contains(roots(l)[k]),
        is_root(l, roots(l)[k]),
        reaches_root_in(l, roots(l)[k], 0),
{
    let pred = |t: Task| is_root(l, t);
    let rs = roots(l);
    assert(rs.contains(rs[k]));
    l.lemma_filter_contains_rev(pred, rs[k]);
    l.lemma_filter_pred(pred, k);
}

/// The cut in `forest_of` removes nothing: a cut at any greater depth gives
/// the same trees.
pub proof fn lemma_forest_is_complete(s: Seq<Task>, depth: nat)
    requires
        depth >= live_tasks(s).len(),
    ensures
        forall|k: int|
            0 <= k < forest_of(s).len() ==> #[trigger] forest_of(s)[k] == tree_model(
                live_tasks(s),
                roots(live_tasks(s))[k],
                depth,
            ),
{
    let l = live_tasks(s);
    lemma_live_from(s, 0);
    assert forall|k: int| 0 <= k < forest_of(s).len() implies #[trigger] forest_of(s)[k]
        == tree_model(l, roots(l)[k], depth) by {
        lemma_root_is_listed(l, k);
        lemma_tree_model_stable(l, roots(l)[k], 0, l.len(), depth);
    }
}

proof fn lemma_tree_is_well_linked(l: Seq<Task>, t: Task, depth: nat)
    ensures
        well_linked(tree_model(l, t, depth), depth),
    decreases depth,
{
    if depth > 0 {
        let ks = kids(l, t.id);
        let tree = tree_model(l, t, depth);
        assert forall|k: int| 0 <= k < tree.subtasks.len() implies (
        #[trigger] tree.subtasks[k]).task.parent_id == Some(tree.task.id) && well_linked(
            tree.subtasks[k],
            (depth - 1) as nat,
        ) by {
            l.lemma_filter_pred(|c: Task| c.parent_id == Some(t.id), k);
            lemma_tree_is_well_linked(l, ks[k], (depth - 1) as nat);
        }
    }
}

/// Every tree of the forest starts at a task that names no parent among the
/// live tasks, every subtask names the task it hangs below as its parent, and
/// no chain of subtasks is longer than the list.
pub proof fn lemma_forest_is_well_linked(s: Seq<Task>)
    ensures
        live_tasks(s).len() <= s.len(),
        forall|k: int|
            0 <= k < forest_of(s).len() ==> {
                &&& is_root(live_tasks(s), (#[trigger] forest_of(s)[k]).task)
                &&& well_linked(forest_of(s)[k], live_tasks(s).len())
            },
{
    let l = live_tasks(s);
    lemma_live_from(s, 0);
    assert forall|k: int| 0 <= k < forest_of(s).len() implies is_root(
        l,
        (#[trigger] forest_of(s)[k]).task,
    ) && well_linked(forest_of(s)[k], l.len()) by {
        lemma_root_is_listed(l, k);
        lemma_tree_is_well_linked(l, roots(l)[k], l.len());
    }
}

/// From every task in the forest the chain of parents ends at a root, after
/// fewer steps than the list has tasks: no cycle of parents is in the forest.
pub proof fn lemma_forest_tasks_reach_roots(s: Seq<Task>)
    ensures
        forall|x: Task| #[trigger]
            forest_list(forest_of(s)).contains(x) ==> exists|r: nat|
                r < s.len() && reaches_root_in(live_tasks(s), x, r),
{
    let l = live_tasks(s);
    let rs = roots(l);
    lemma_forest_listing(s);
    lemma_live_from(s, 0);
    lemma_distinct_ids_no_duplicates(l);
    assert(rs.no_duplicates()) by {
        lemma_filter_no_duplicates(l, |t: Task| is_root(l, t));
    }
    assert forall|j: int| 0 <= j < rs.len() implies l.contains(#[trigger] rs[j])
        && reaches_root_in(l, rs[j], 0) by {
        lemma_root_is_listed(l, j);
    }
    lemma_forest_tasks_distinct(l, rs, l.len(), 0);
    assert forall|x: Task| #[trigger] forest_list(forest_of(s)).contains(x) implies exists|r: nat|
        r < s.len() && reaches_root_in(l, x, r) by {
        assert(reaches_one(l, x, rs));
        let j = choose|j: int| 0 <= j < rs.len() && reaches(l, x, #[trigger] rs[j]);
        let k = choose|k: nat| #[trigger] ancestor(l, x, k) == Some(rs[j]);
        lemma_root_distance_below(l, x, k, rs[j], 0);
        lemma_root_distance_bound(l, x, k);
        assert(k < s.len() && reaches_root_in(l, x, k));
    }
}

/// A task that is the last of `s` with its id, and names no parent or a
/// parent that `s` does not hold, is the task of one of the forest's roots.
pub proof fn lemma_unparented_task_is_root(s: Seq<Task>, i: int)
    requires
        0 <= i < s.len(),
        !later_has_id(s, i + 1, s[i].id),
        s[i].parent_id matches Some(p) ==> !has_id(s, p),
    ensures
        exists|k: int| 0 <= k < forest_of(s).len() && (#[trigger] forest_of(s)[k]).task == s[i],
{
    let l = live_tasks(s);
    let pred = |t: Task| is_root(l, t);
    lemma_live_from(s, 0);
    assert(l.contains(s[i]));
    if s[i].parent_id is Some {
        let p = s[i].parent_id.unwrap();
        if has_id(l, p) {
            assert(later_has_id(s, 0, p));
            let j = choose|j: int| 0 <= j < s.len() && 0 <= j && (#[trigger] s[j]).id == p;
            assert(has_id(s, p));
        }
    }
    assert(is_root(l, s[i]));
    let j = choose|j: int| 0 <= j < l.len() && l[j] == s[i];
    l.lemma_filter_contains(pred, j);
    let k = choose|k: int| 0 <= k < roots(l).len() && roots(l)[k] == s[i];
    assert(forest_of(s)[k].task == s[i]);
}

proof fn lemma_in_forest(l: Seq<Task>, ts: Seq<Task>, depth: nat, j: int, x: Task)
    requires
        0 <= j < ts.len(),
        tree_tasks(l, ts[j], depth).contains(x),
    ensures
        forest_tasks(l, ts, depth).contains(x),
    decreases ts.len(),
{
    let a = forest_tasks(l, ts.drop_last(), depth);
    let b = tree_tasks(l, ts.last(), depth);
    if j == ts.len() - 1 {
        let i = choose|i: int| 0 <= i < b.len() && b[i] == x;
        assert((a + b)[a.len() + i] == x);
    } else {
        assert(ts.drop_last()[j] == ts[j]);
        lemma_in_forest(l, ts.drop_last(), depth, j, x);
        let i = choose|i: int| 0 <= i < a.len() && a[i] == x;
        assert((a + b)[i] == x);
    }
}

proof fn lemma_kid_in_deeper_tree(l: Seq<Task>, a: Task, depth: nat, x: Task, c: Task)
    requires
        tree_tasks(l, a, depth).contains(x),
        kids(l, x.id).contains(c),
    ensures
        tree_tasks(l, a, depth + 1).contains(c),
    decreases depth, 0nat,
{
    let whole = tree_tasks(l, a, depth);
    let deeper = tree_tasks(l, a, depth + 1);
    let below = forest_tasks(l, kids(l, a.id), depth);
    assert(deeper == seq![a] + below);
    let i = choose|i: int| 0 <= i < whole.len() && whole[i] == x;
    if i == 0 {
        let ks = kids(l, a.id);
        let j = choose|j: int| 0 <= j < ks.len() && ks[j] == c;
        assert(tree_tasks(l, c, depth)[0] == c);
        lemma_in_forest(l, ks, depth, j, c);
    } else {
        let shallow = forest_tasks(l, kids(l, a.id), (depth - 1) as nat);
        assert(shallow[i - 1] == x);
        lemma_kid_in_deeper_forest(l, kids(l, a.id), (depth - 1) as nat, x, c);
    }
    let m = choose|m: int| 0 <= m < below.len() && below[m] == c;
    assert(deeper[m + 1] == c);
}

proof fn lemma_kid_in_deeper_forest(l: Seq<Task>, ts: Seq<Task>, depth: nat, x: Task, c: Task)
    requires
        forest_tasks(l, ts, depth).contains(x),
        kids(l, x.id).contains(c),
    ensures
        forest_tasks(l, ts, depth + 1).contains(c),
    decreases depth, 1 + ts.len(),
{
    let whole = forest_tasks(l, ts, depth);
    let i = choose|i: int| 0 <= i < whole.len() && whole[i] == x;
    let a = forest_tasks(l, ts.drop_last(), depth);
    let b = tree_tasks(l, ts.last(), depth);
    let a2 = forest_tasks(l, ts.drop_last(), depth + 1);
    let b2 = tree_tasks(l, ts.last(), depth + 1);
    if i < a.len() {
        assert(a[i] == x);
        lemma_kid_in_deeper_forest(l, ts.drop_last(), depth, x, c);
        let m = choose|m: int| 0 <= m < a2.len() && a2[m] == c;
        assert((a2 + b2)[m] == c);
    } else {
        assert(b[i - a.len()] == x);
        lemma_kid_in_deeper_tree(l, ts.last(), depth, x, c);
        let m = choose|m: int| 0 <= m < b2.len() && b2[m] == c;
        assert((a2 + b2)[a2.len() + m] == c);
    }
}

proof fn lemma_rooted_task_is_listed(l: Seq<Task>, t: Task, r: nat, depth: nat)
    requires
        distinct_ids(l),
        l.contains(t),
        reaches_root_in(l, t, r),
        r <= depth,
    ensures
        forest_tasks(l, roots(l), depth).contains(t),
    decreases r,
{
    assert(ancestor(l, t, 0) == Some(t));
    if r == 0 {
        let pred = |x: Task| is_root(l, x);
        let j = choose|j: int| 0 <= j < l.len() && l[j] == t;
        l.lemma_filter_contains(pred, j);
        let k = choose|k: int| 0 <= k < roots(l).len() && roots(l)[k] == t;
        assert(tree_tasks(l, t, depth)[0] == t);
        lemma_in_forest(l, roots(l), depth, k, t);
    } else {
        if ancestor(l, t, 1) is None {
            lemma_ancestor_none_stays(l, t, 1, r);
        }
        let u = ancestor(l, t, 1).unwrap();
        assert(parent_of(l, t) == Some(u));
        lemma_ancestor_in_list(l, t, 1);
        lemma_ancestor_compose(l, t, 1, u, (r - 1) as nat);
        assert(1 + (r - 1) as nat == r);
        lemma_rooted_task_is_listed(l, u, (r - 1) as nat, (depth - 1) as nat);
        let p = t.parent_id.unwrap();
        let i = choose|i: int| 0 <= i < l.len() && (#[trigger] l[i]).id == p;
        assert(u.id == p);
        let j = choose|j: int| 0 <= j < l.len() && l[j] == t;
        l.lemma_filter_contains(|c: Task| c.parent_id == Some(u.id), j);
        lemma_kid_in_deeper_forest(l, roots(l), (depth - 1) as nat, u, t);
    }
}

/// The chain of parents of `t` within `l` ends at a root.
pub open spec fn reaches_root(l: Seq<Task>, t: Task) -> bool {
    exists|r: nat| reaches_root_in(l, t, r)
}

/// Where no id occurs twice and the chain of parents of every task ends at a
/// root, the forest holds every task: it has as many nodes as the list has
/// tasks.
pub proof fn lemma_forest_holds_every_task(s: Seq<Task>)
    requires
        distinct_ids(s),
        forall|i: int| 0 <= i < s.len() ==> reaches_root(s, #[trigger] s[i]),
    ensures
        node_count(forest_of(s)) == s.len(),
        forall|i: int| 0 <= i < s.len() ==> forest_list(forest_of(s)).contains(#[trigger] s[i]),
{
    let f = forest_list(forest_of(s));
    lemma_live_of_distinct(s);
    lemma_forest_listing(s);
    lemma_root_forest_distinct(s, s.len());
    lemma_distinct_ids_no_duplicates(s);
    assert forall|i: int| 0 <= i < s.len() implies f.contains(#[trigger] s[i]) by {
        let r = choose|r: nat| reaches_root_in(s, s[i], r);
        assert(s.contains(s[i]));
        lemma_root_distance_bound(s, s[i], r);
        lemma_rooted_task_is_listed(s, s[i], r, s.len());
    }
    assert forall|x: Task| #[trigger] s.contains(x) implies f.contains(x) by {
        let i = choose|i: int| 0 <= i < s.len() && s[i] == x;
        assert(f.contains(s[i]));
    }
    lemma_listed_at_most(s, f);
    lemma_listed_at_most(f, s);
}

} // verus!
