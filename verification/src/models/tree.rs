use vstd::prelude::*;
use crate::models::task::{copy_task, Task};
use crate::models::tree_proofs::{
    keeps, lemma_forest_take_step, lemma_has_id_concat, lemma_keeps_all, lemma_keeps_chain,
    lemma_keeps_one,
    lemma_live_step, lemma_next_tree,
    lemma_root_forest_distinct, lemma_same_id_same_task, lemma_task_by_id,
};
use vstd::set_lib::lemma_len_subset;
use std::collections::HashMap;

verus! {

broadcast use vstd::std_specs::hash::group_hash_axioms;

/// A task together with the trees of its subtasks, in order.
#[derive(Debug)]
pub struct TaskTree {
    pub task: Task,
    pub subtasks: Vec<TaskTree>,
}

/// The mathematical value of a [`TaskTree`]: a task and the values of its
/// subtask trees.
pub struct TreeModel {
    pub task: Task,
    pub subtasks: Seq<TreeModel>,
}

impl View for TaskTree {
    type V = TreeModel;

    open spec fn view(&self) -> TreeModel
        decreases self,
    {
        TreeModel {
            task: self.task,
            subtasks: Seq::new(
                self.subtasks@.len(),
                |i: int|
                    if 0 <= i < self.subtasks@.len() {
                        self.subtasks@[i].view()
                    } else {
                        arbitrary()
                    },
            ),
        }
    }
}

/// A copy of `tree`.
pub fn copy_tree(tree: &TaskTree) -> (copy: TaskTree)
    ensures
        copy@ == tree@,
    decreases tree,
{
    let mut subtasks: Vec<TaskTree> = Vec::new();
    let n = tree.subtasks.len();
    let mut i: usize = 0;
    while i < n
        invariant
            n == tree.subtasks@.len(),
            0 <= i <= n,
            subtasks@.len() == i,
            forall|j: int| 0 <= j < i ==> (#[trigger] subtasks@[j])@ == tree.subtasks@[j]@,
        decreases n - i,
    {
        let child = copy_tree(&tree.subtasks[i]);
        subtasks.push(child);
        i += 1;
    }
    let copy = TaskTree { task: copy_task(&tree.task), subtasks };
    proof {
        reveal_with_fuel(<TaskTree as View>::view, 2);
        assert(copy@.subtasks =~= tree@.subtasks);
    }
    copy
}

impl Clone for TaskTree {
    fn clone(&self) -> (copy: TaskTree)
        ensures
            copy@ == self@,
    {
        copy_tree(self)
    }
}

/// The values of a list of trees, element by element.
pub open spec fn forest_view(f: Seq<TaskTree>) -> Seq<TreeModel> {
    Seq::new(f.len(), |i: int| f[i]@)
}

/// Some task of `s` carries the id `id`.
pub open spec fn has_id(s: Seq<Task>, id: i64) -> bool {
    exists|i: int| 0 <= i < s.len() && (#[trigger] s[i]).id == id
}

/// Some task of `s` at index `from` or later carries the id `id`.
pub open spec fn later_has_id(s: Seq<Task>, from: int, id: i64) -> bool {
    exists|i: int| from <= i < s.len() && 0 <= i && (#[trigger] s[i]).id == id
}

/// The tasks of `s` from index `from` on whose id does not occur again
/// further back in `s`, in the order of `s`.
pub open spec fn live_from(s: Seq<Task>, from: int) -> Seq<Task>
    decreases s.len() - from,
{
    if from < 0 || from >= s.len() {
        Seq::empty()
    } else if later_has_id(s, from + 1, s[from].id) {
        live_from(s, from + 1)
    } else {
        seq![s[from]] + live_from(s, from + 1)
    }
}

/// The tasks that take part in a tree: where an id occurs more than once in
/// `s`, only its last occurrence counts.
pub open spec fn live_tasks(s: Seq<Task>) -> Seq<Task> {
    live_from(s, 0)
}

/// `t` starts a tree of its own within `l`: it names no parent, or a parent
/// that `l` does not hold.
pub open spec fn is_root(l: Seq<Task>, t: Task) -> bool {
    match t.parent_id {
        None => true,
        Some(p) => !has_id(l, p),
    }
}

/// The tasks of `ts` that are roots within `l`, in the order of `ts`.
pub open spec fn roots_among(l: Seq<Task>, ts: Seq<Task>) -> Seq<Task> {
    ts.filter(|t: Task| is_root(l, t))
}

/// The roots of `l`, in the order of `l`.
pub open spec fn roots(l: Seq<Task>) -> Seq<Task> {
    roots_among(l, l)
}

/// The tasks of `ts` that name `p` as their parent, in the order of `ts`.
pub open spec fn kids(ts: Seq<Task>, p: i64) -> Seq<Task> {
    ts.filter(|t: Task| t.parent_id == Some(p))
}

/// The tree below `t` within `l`, cut off `depth` levels below `t`: `t`
/// itself, then the trees of the tasks that name it as parent, in the order of
/// `l`.
pub open spec fn tree_model(l: Seq<Task>, t: Task, depth: nat) -> TreeModel
    decreases depth,
{
    TreeModel {
        task: t,
        subtasks: if depth == 0 {
            Seq::empty()
        } else {
            kids(l, t.id).map_values(|c: Task| tree_model(l, c, (depth - 1) as nat))
        },
    }
}

/// The forest of a flat task list: one tree for each root among the live
/// tasks, in list order. No chain of subtasks is as long as the list, so the
/// cut at that depth removes nothing (see `lemma_forest_is_complete`).
pub open spec fn forest_of(s: Seq<Task>) -> Seq<TreeModel> {
    let l = live_tasks(s);
    roots(l).map_values(|t: Task| tree_model(l, t, l.len()))
}

/// The ids of a list of tasks, element by element.
pub open spec fn ids_of(ts: Seq<Task>) -> Seq<i64> {
    ts.map_values(|t: Task| t.id)
}

/// No two tasks of `l` share an id.
pub open spec fn distinct_ids(l: Seq<Task>) -> bool {
    forall|i: int, j: int|
        0 <= i < l.len() && 0 <= j < l.len() && i != j ==> (#[trigger] l[i]).id != (
        #[trigger] l[j]).id
}

/// The tasks of `tree_model(l, t, depth)`, parent before subtasks.
pub open spec fn tree_tasks(l: Seq<Task>, t: Task, depth: nat) -> Seq<Task>
    decreases depth, 0nat,
{
    seq![t] + if depth == 0 {
        Seq::empty()
    } else {
        forest_tasks(l, kids(l, t.id), (depth - 1) as nat)
    }
}

/// The tasks of the trees of depth `depth` below each task of `ts`, tree after
/// tree.
pub open spec fn forest_tasks(l: Seq<Task>, ts: Seq<Task>, depth: nat) -> Seq<Task>
    decreases depth, 1 + ts.len(),
{
    if ts.len() == 0 {
        Seq::empty()
    } else {
        forest_tasks(l, ts.drop_last(), depth) + tree_tasks(l, ts.last(), depth)
    }
}

/// The task of `l` that carries the id `id`, where there is one.
pub open spec fn task_by_id(l: Seq<Task>, id: i64) -> Task {
    l[choose|i: int| 0 <= i < l.len() && (#[trigger] l[i]).id == id]
}

/// The task of `l` that `t` names as its parent, where `l` holds one.
pub open spec fn parent_of(l: Seq<Task>, t: Task) -> Option<Task> {
    match t.parent_id {
        Some(p) => if has_id(l, p) {
            Some(task_by_id(l, p))
        } else {
            None
        },
        None => None,
    }
}

/// The task reached from `t` by `steps` steps from a task to its parent
/// within `l`, where the chain of parents is that long.
pub open spec fn ancestor(l: Seq<Task>, t: Task, steps: nat) -> Option<Task>
    decreases steps,
{
    if steps == 0 {
        Some(t)
    } else {
        match ancestor(l, t, (steps - 1) as nat) {
            Some(u) => parent_of(l, u),
            None => None,
        }
    }
}

/// The chain of parents of `t` within `l` ends at a root after exactly
/// `steps` steps.
pub open spec fn reaches_root_in(l: Seq<Task>, t: Task, steps: nat) -> bool {
    &&& ancestor(l, t, steps) is Some
    &&& parent_of(l, ancestor(l, t, steps).unwrap()) is None
}

/// Every entry of `nodes` is a childless node that holds the task of `l` with
/// the entry's key as id.
spec fn nodes_hold(nodes: Map<i64, TaskTree>, l: Seq<Task>) -> bool {
    forall|id: i64| #[trigger]
        nodes.contains_key(id) ==> {
            &&& l.contains(nodes[id].task)
            &&& nodes[id].task.id == id
            &&& nodes[id].subtasks@.len() == 0
        }
}

/// `children` lists, for every id of `l`, the ids of the tasks among `ts`
/// that name it as parent; an id without such tasks may be absent.
spec fn children_hold(children: Map<i64, Vec<i64>>, l: Seq<Task>, ts: Seq<Task>) -> bool {
    &&& forall|p: i64| #[trigger] children.contains_key(p) ==> has_id(l, p)
    &&& forall|p: i64| #[trigger]
        has_id(l, p) ==> ids_of(kids(ts, p)) == if children.contains_key(p) {
            children[p]@
        } else {
            Seq::<i64>::empty()
        }
}

fn index_tasks(tasks: Vec<Task>) -> (r: (HashMap<i64, TaskTree>, Vec<(i64, Option<i64>)>))
    ensures
        ({
            let l = live_tasks(tasks@);
            let (nodes, order) = r;
            &&& distinct_ids(l)
            &&& nodes_hold(nodes@, l)
            &&& forall|id: i64| #[trigger] nodes@.contains_key(id) <==> has_id(l, id)
            &&& nodes@.dom().len() == l.len()
            &&& order@.len() == l.len()
            &&& forall|j: int|
                0 <= j < l.len() ==> #[trigger] order@[j] == (
                    l[l.len() - 1 - j].id,
                    l[l.len() - 1 - j].parent_id,
                )
        }),
{
    let ghost s = tasks@;
    let mut rest = tasks;
    let mut nodes: HashMap<i64, TaskTree> = HashMap::new();
    let mut order: Vec<(i64, Option<i64>)> = Vec::new();
    proof {
        assert(live_from(s, s.len() as int) =~= Seq::<Task>::empty());
    }
    loop
        invariant
            rest@.len() <= s.len(),
            rest@ == s.take(rest@.len() as int),
            distinct_ids(live_from(s, rest@.len() as int)),
            nodes_hold(nodes@, live_from(s, rest@.len() as int)),
            forall|id: i64| #[trigger]
                nodes@.contains_key(id) <==> has_id(live_from(s, rest@.len() as int), id),
            forall|id: i64| #[trigger]
                has_id(live_from(s, rest@.len() as int), id) <==> later_has_id(
                    s,
                    rest@.len() as int,
                    id,
                ),
            nodes@.dom().len() == live_from(s, rest@.len() as int).len(),
            order@.len() == live_from(s, rest@.len() as int).len(),
            forall|j: int|
                0 <= j < order@.len() ==> #[trigger] order@[j] == ({
                    let l = live_from(s, rest@.len() as int);
                    (l[l.len() - 1 - j].id, l[l.len() - 1 - j].parent_id)
                }),
        ensures
            rest@.len() == 0,
        decreases rest@.len(),
    {
        let ghost k = rest@.len() as int;
        let ghost live = live_from(s, k);
        match rest.pop() {
            None => {
                break ;
            },
            Some(task) => {
                let id = task.id;
                let parent = task.parent_id;
                proof {
                    assert(task == s[k - 1]);
                    assert(rest@ =~= s.take(k - 1));
                    lemma_live_step(s, k - 1);
                }
                if !nodes.contains_key(&id) {
                    order.push((id, parent));
                    nodes.insert(id, TaskTree { task, subtasks: Vec::new() });
                    proof {
                        let live2 = live_from(s, k - 1);
                        assert(live2 == seq![s[k - 1]] + live);
                        assert(forall|j: int| 0 < j < live2.len() ==> live2[j] == live[j - 1]);
                        assert(live2[0] == s[k - 1]);
                        assert forall|i: int| 0 <= i < live.len() implies live2.contains(
                            #[trigger] live[i],
                        ) by {
                            assert(live2[i + 1] == live[i]);
                        }
                        assert(live2.contains(s[k - 1]));
                    }
                }
            },
        }
    }
    (nodes, order)
}

/// Sorts the live tasks into roots and, for each parent, its subtasks, both
/// in list order. `order` holds the id and parent of each live task, last
/// task first.
fn link_tasks(
    order: &Vec<(i64, Option<i64>)>,
    nodes: &HashMap<i64, TaskTree>,
    Ghost(l): Ghost<Seq<Task>>,
) -> (r: (Vec<i64>, HashMap<i64, Vec<i64>>))
    requires
        order@.len() == l.len(),
        forall|j: int|
            0 <= j < l.len() ==> #[trigger] order@[j] == (
                l[l.len() - 1 - j].id,
                l[l.len() - 1 - j].parent_id,
            ),
        forall|id: i64| #[trigger] nodes@.contains_key(id) <==> has_id(l, id),
    ensures
        r.0@ == ids_of(roots(l)),
        children_hold(r.1@, l, l),
{
    let mut root_ids: Vec<i64> = Vec::new();
    let mut children: HashMap<i64, Vec<i64>> = HashMap::new();
    let m = order.len();
    let mut i: usize = 0;
    proof {
        reveal(Seq::filter);
        assert(l.take(0) =~= Seq::<Task>::empty());
        assert(ids_of(roots_among(l, l.take(0))) =~= Seq::<i64>::empty());
        assert forall|p: i64| #[trigger] has_id(l, p) implies ids_of(kids(l.take(0), p))
            == Seq::<i64>::empty() by {
            assert(ids_of(kids(l.take(0), p)) =~= Seq::<i64>::empty());
        }
    }
    while i < m
        invariant
            m == l.len(),
            m == order@.len(),
            0 <= i <= m,
            forall|j: int|
                0 <= j < l.len() ==> #[trigger] order@[j] == (
                    l[l.len() - 1 - j].id,
                    l[l.len() - 1 - j].parent_id,
                ),
            forall|id: i64| #[trigger] nodes@.contains_key(id) <==> has_id(l, id),
            root_ids@ == ids_of(roots_among(l, l.take(i as int))),
            children_hold(children@, l, l.take(i as int)),
        decreases m - i,
    {
        let (id, parent) = order[m - 1 - i];
        let ghost t = l[i as int];
        let ghost before = l.take(i as int);
        let ghost after = l.take(i + 1);
        let ghost old_children = children@;
        proof {
            assert(order@[m - 1 - i] == (t.id, t.parent_id));
            assert(after =~= before.push(t));
            before.lemma_filter_push(t, |t: Task| is_root(l, t));
            assert forall|q: i64| true implies #[trigger] kids(after, q) == if t.parent_id == Some(
                q,
            ) {
                kids(before, q).push(t)
            } else {
                kids(before, q)
            } by {
                before.lemma_filter_push(t, |t: Task| t.parent_id == Some(q));
            }
        }
        let is_child = match parent {
            None => false,
            Some(p) => nodes.contains_key(&p),
        };
        if is_child {
            let p = parent.unwrap();
            let mut list = match children.remove(&p) {
                Some(v) => v,
                None => Vec::new(),
            };
            list.push(id);
            children.insert(p, list);
            proof {
                assert(ids_of(roots_among(l, after)) == ids_of(roots_among(l, before)));
                assert forall|q: i64| #[trigger] has_id(l, q) implies ids_of(kids(after, q))
                    == if children@.contains_key(q) {
                    children@[q]@
                } else {
                    Seq::<i64>::empty()
                } by {
                    if q == p {
                        assert(ids_of(kids(before, q).push(t)) =~= ids_of(kids(before, q)).push(
                            t.id,
                        ));
                    } else {
                        assert(old_children.contains_key(q) == children@.contains_key(q));
                    }
                }
            }
        } else {
            root_ids.push(id);
            proof {
                assert(is_root(l, t));
                assert(ids_of(roots_among(l, before).push(t)) =~= ids_of(
                    roots_among(l, before),
                ).push(t.id));
                assert forall|q: i64| #[trigger] has_id(l, q) implies ids_of(kids(after, q))
                    == if children@.contains_key(q) {
                    children@[q]@
                } else {
                    Seq::<i64>::empty()
                } by {
                    assert(t.parent_id != Some(q));
                }
            }
        }
        i += 1;
    }
    proof {
        assert(l.take(m as int) =~= l);
    }
    (root_ids, children)
}

/// Takes the node of `task_id` out of `nodes` and hangs below it the trees of
/// the tasks that name it as parent, each built the same way.
fn build_subtree(
    task_id: i64,
    nodes: &mut HashMap<i64, TaskTree>,
    children: &HashMap<i64, Vec<i64>>,
    Ghost(l): Ghost<Seq<Task>>,
    Ghost(t): Ghost<Task>,
    Ghost(depth): Ghost<nat>,
) -> (r: Option<TaskTree>)
    requires
        distinct_ids(l),
        l.contains(t),
        t.id == task_id,
        children_hold(children@, l, l),
        nodes_hold(old(nodes)@, l),
        old(nodes)@.dom().len() <= depth,
        tree_tasks(l, t, depth).no_duplicates(),
        forall|x: Task| #[trigger]
            tree_tasks(l, t, depth).contains(x) ==> l.contains(x) && old(nodes)@.contains_key(
                x.id,
            ),
    ensures
        r is Some,
        r.unwrap()@ == tree_model(l, t, depth),
        nodes_hold(final(nodes)@, l),
        keeps(final(nodes)@, old(nodes)@, tree_tasks(l, t, depth)),
    decreases depth,
{
    let ghost nodes0 = nodes@;
    let ghost whole = tree_tasks(l, t, depth);
    proof {
        assert(whole[0] == t);
        assert(whole.contains(t));
        assert(nodes0.dom().contains(task_id));
        assert(nodes0.dom().len() > 0) by {
            if nodes0.dom().len() == 0 {
                assert(nodes0.dom() =~= Set::<i64>::empty());
            }
        }
    }
    let mut node = match nodes.remove(&task_id) {
        None => {
            return None;
        },
        Some(n) => n,
    };
    let ghost ks = kids(l, t.id);
    let ghost below = (depth - 1) as nat;
    proof {
        lemma_same_id_same_task(l, node.task, t);
        nodes0.lemma_remove_key_len(task_id);
        assert(whole == seq![t] + forest_tasks(l, ks, below));
        lemma_task_by_id(l, t);
        assert(ks.take(0) =~= Seq::<Task>::empty());
        lemma_keeps_one(nodes0, t);
        assert(seq![t] + forest_tasks(l, ks.take(0), below) =~= seq![t]);
    }
    match children.get(&task_id) {
        None => {
            proof {
                assert(ids_of(ks).len() == 0);
                assert(ks.len() == 0);
            }
        },
        Some(child_ids) => {
            let n = child_ids.len();
            let mut k: usize = 0;
            proof {
                assert(ids_of(ks) == child_ids@);
                assert(ks.len() == n);
            }
            while k < n
                invariant
                    distinct_ids(l),
                    l.contains(t),
                    children_hold(children@, l, l),
                    depth >= 1,
                    below == depth - 1,
                    ks == kids(l, t.id),
                    ids_of(ks) == child_ids@,
                    n == child_ids@.len(),
                    n == ks.len(),
                    0 <= k <= n,
                    whole == seq![t] + forest_tasks(l, ks, below),
                    whole == tree_tasks(l, t, depth),
                    whole.no_duplicates(),
                    forall|x: Task| #[trigger]
                        whole.contains(x) ==> l.contains(x) && nodes0.contains_key(x.id),
                    node.task == t,
                    node.subtasks@.len() == k,
                    forall|j: int|
                        0 <= j < k ==> (#[trigger] node.subtasks@[j])@ == tree_model(
                            l,
                            ks[j],
                            below,
                        ),
                    nodes_hold(nodes@, l),
                    nodes@.dom().len() <= below,
                    keeps(nodes@, nodes0, seq![t] + forest_tasks(l, ks.take(k as int), below)),
                decreases n - k,
            {
                let child_id = child_ids[k];
                let ghost c = ks[k as int];
                let ghost done = forest_tasks(l, ks.take(k as int), below);
                let ghost sub = tree_tasks(l, c, below);
                let ghost nodes1 = nodes@;
                proof {
                    assert(ids_of(ks)[k as int] == c.id);
                    assert forall|i: int, j: int|
                        0 <= i < forest_tasks(l, ks, below).len() && 0 <= j < forest_tasks(
                            l,
                            ks,
                            below,
                        ).len() && i != j implies forest_tasks(l, ks, below)[i] != forest_tasks(
                        l,
                        ks,
                        below,
                    )[j] by {
                        assert(whole[i + 1] == forest_tasks(l, ks, below)[i]);
                        assert(whole[j + 1] == forest_tasks(l, ks, below)[j]);
                    }
                    assert forall|x: Task| #[trigger]
                        forest_tasks(l, ks, below).contains(x) implies l.contains(x) && x != t
                        && whole.contains(x) by {
                        let i = choose|i: int|
                            0 <= i < forest_tasks(l, ks, below).len() && forest_tasks(
                                l,
                                ks,
                                below,
                            )[i] == x;
                        assert(whole[i + 1] == x);
                        assert(whole[0] == t);
                        assert(whole.contains(x));
                    }
                    lemma_next_tree(l, ks, below, k as int);
                    lemma_forest_take_step(l, ks, below, k as int);
                    assert(sub[0] == c);
                    assert(sub.contains(c));
                    assert forall|x: Task| #[trigger] sub.contains(x) implies l.contains(x)
                        && nodes1.contains_key(x.id) by {
                        assert(forest_tasks(l, ks, below).contains(x));
                        lemma_has_id_concat(seq![t], done, x.id);
                        if has_id(seq![t], x.id) {
                            lemma_same_id_same_task(l, x, t);
                        }
                    }
                }
                let built = build_subtree(
                    child_id,
                    nodes,
                    children,
                    Ghost(l),
                    Ghost(c),
                    Ghost(below),
                );
                let ghost before = node.subtasks@;
                match built {
                    Some(child) => {
                        node.subtasks.push(child);
                    },
                    None => {},
                }
                proof {
                    assert(node.subtasks@ == before.push(built.unwrap()));
                    lemma_keeps_chain(nodes0, nodes1, nodes@, seq![t] + done, sub);
                    assert((seq![t] + done) + sub =~= seq![t] + forest_tasks(
                        l,
                        ks.take(k + 1),
                        below,
                    ));
                    lemma_len_subset(nodes@.dom(), nodes1.dom());
                }
                k += 1;
            }
        },
    }
    proof {
        assert(ks.take(ks.len() as int) =~= ks);
        assert(node@.subtasks =~= tree_model(l, t, depth).subtasks);
    }
    Some(node)
}

/// Builds the forest of a flat task list.
///
/// Where an id occurs more than once, its last occurrence is the task that
/// takes part. A task that names no parent, or a parent the list does not
/// hold, starts a tree; every other task hangs below the task it names, after
/// the tasks that stand before it in the list and name the same parent. A
/// task whose chain of parents never reaches such a root is in no tree.
pub fn build_task_tree(tasks: Vec<Task>) -> (forest: Vec<TaskTree>)
    ensures
        forest_view(forest@) == forest_of(tasks@),
{
    let ghost l = live_tasks(tasks@);
    let ghost depth = l.len();
    let (mut nodes, order) = index_tasks(tasks);
    let (root_ids, children) = link_tasks(&order, &nodes, Ghost(l));
    let ghost rs = roots(l);
    let ghost nodes0 = nodes@;
    let mut forest: Vec<TaskTree> = Vec::new();
    let n = root_ids.len();
    let mut k: usize = 0;
    proof {
        lemma_root_forest_distinct(l, depth);
        assert(rs.take(0) =~= Seq::<Task>::empty());
        lemma_keeps_all(nodes0);
    }
    while k < n
        invariant
            distinct_ids(l),
            children_hold(children@, l, l),
            depth == l.len(),
            rs == roots(l),
            root_ids@ == ids_of(rs),
            n == root_ids@.len(),
            n == rs.len(),
            0 <= k <= n,
            forest_tasks(l, rs, depth).no_duplicates(),
            forall|x: Task| #[trigger]
                forest_tasks(l, rs, depth).contains(x) ==> l.contains(x),
            forall|id: i64| #[trigger] nodes0.contains_key(id) <==> has_id(l, id),
            forest@.len() == k,
            forall|j: int|
                0 <= j < k ==> (#[trigger] forest@[j])@ == tree_model(l, rs[j], depth),
            nodes_hold(nodes@, l),
            nodes@.dom().len() <= depth,
            keeps(nodes@, nodes0, forest_tasks(l, rs.take(k as int), depth)),
        decreases n - k,
    {
        let root_id = root_ids[k];
        let ghost t = rs[k as int];
        let ghost done = forest_tasks(l, rs.take(k as int), depth);
        let ghost sub = tree_tasks(l, t, depth);
        let ghost nodes1 = nodes@;
        proof {
            assert(ids_of(rs)[k as int] == t.id);
            lemma_next_tree(l, rs, depth, k as int);
            lemma_forest_take_step(l, rs, depth, k as int);
            assert(sub[0] == t);
            assert(sub.contains(t));
            assert forall|x: Task| #[trigger] sub.contains(x) implies l.contains(x)
                && nodes1.contains_key(x.id) by {
                assert(forest_tasks(l, rs, depth).contains(x));
                lemma_task_by_id(l, x);
                assert(nodes0.contains_key(x.id));
                assert(!has_id(done, x.id));
            }
        }
        let built = build_subtree(root_id, &mut nodes, &children, Ghost(l), Ghost(t), Ghost(depth));
        let ghost before = forest@;
        match built {
            Some(tree) => {
                forest.push(tree);
            },
            None => {},
        }
        proof {
            assert(forest@ == before.push(built.unwrap()));
            lemma_keeps_chain(nodes0, nodes1, nodes@, done, sub);
            lemma_len_subset(nodes@.dom(), nodes1.dom());
        }
        k += 1;
    }
    proof {
        assert(forest_view(forest@) =~= forest_of(tasks@));
    }
    forest
}

} // verus!
