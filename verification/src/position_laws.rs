use vstd::prelude::*;
use crate::models::task::Task;
use crate::models::tree::{distinct_ids, has_id};
use crate::positions::{
    after_move, dense, first_with_id, group_holds, group_max, group_size, in_group,
    next_position_of, reorder_plan, reordered, shifted,
};

verus! {

proof fn lemma_group_max(s: Seq<Task>, p: Option<i64>, c: Option<i64>)
    ensures
        group_max(s, p, c) is None <==> group_size(s, p, c) == 0,
        group_size(s, p, c) == 0 ==> forall|i: int|
            0 <= i < s.len() ==> !in_group(#[trigger] s[i], p, c),
        group_max(s, p, c) matches Some(m) ==> {
            &&& group_holds(s, p, c, m)
            &&& forall|i: int|
                0 <= i < s.len() && in_group(#[trigger] s[i], p, c) ==> s[i].position <= m
        },
    decreases s.len(),
{
    if s.len() > 0 {
        let init = s.drop_last();
        lemma_group_max(init, p, c);
        assert forall|i: int| 0 <= i < init.len() implies init[i] == s[i] by {}
        if group_size(s, p, c) == 0 {
            assert forall|i: int| 0 <= i < s.len() implies !in_group(#[trigger] s[i], p, c) by {
                if i < init.len() {
                    assert(init[i] == s[i]);
                }
            }
        }
        if group_max(s, p, c) is Some {
            let m = group_max(s, p, c).unwrap();
            if in_group(s.last(), p, c) && m == s.last().position {
                assert(in_group(s[s.len() - 1], p, c));
            } else {
                let m0 = group_max(init, p, c).unwrap();
                let w = choose|i: int|
                    0 <= i < init.len() && in_group(#[trigger] init[i], p, c) && init[i].position
                        == m0;
                assert(s[w] == init[w]);
            }
            assert forall|i: int| 0 <= i < s.len() && in_group(#[trigger] s[i], p, c) implies s[i].position
                <= m by {
                if i < init.len() {
                    assert(init[i] == s[i]);
                }
            }
        }
    }
}

proof fn lemma_same_groups(s: Seq<Task>, s2: Seq<Task>, p: Option<i64>, c: Option<i64>)
    requires
        s.len() == s2.len(),
        forall|i: int| 0 <= i < s.len() ==> in_group(#[trigger] s2[i], p, c) == in_group(s[i], p, c),
    ensures
        group_size(s2, p, c) == group_size(s, p, c),
    decreases s.len(),
{
    if s.len() > 0 {
        assert forall|i: int| 0 <= i < s.len() - 1 implies in_group(
            #[trigger] s2.drop_last()[i],
            p,
            c,
        ) == in_group(s.drop_last()[i], p, c) by {
            assert(s2.drop_last()[i] == s2[i]);
            assert(s.drop_last()[i] == s[i]);
        }
        lemma_same_groups(s.drop_last(), s2.drop_last(), p, c);
        assert(in_group(s2[s.len() - 1], p, c) == in_group(s[s.len() - 1], p, c));
    }
}

/// A list in which a group's members and their positions are those of a list
/// where the group is dense has the group dense too.
proof fn lemma_dense_transfer(s: Seq<Task>, s2: Seq<Task>, p: Option<i64>, c: Option<i64>)
    requires
        s.len() == s2.len(),
        forall|i: int| 0 <= i < s.len() ==> in_group(#[trigger] s2[i], p, c) == in_group(s[i], p, c),
        forall|i: int|
            0 <= i < s.len() && in_group(#[trigger] s[i], p, c) ==> s2[i].position == s[i].position,
        dense(s, p, c),
    ensures
        dense(s2, p, c),
{
    reveal(dense);
    lemma_same_groups(s, s2, p, c);
    let k = group_size(s, p, c);
    assert forall|i: int| 0 <= i < s2.len() && in_group(#[trigger] s2[i], p, c) implies 0
        <= s2[i].position < k by {
        assert(in_group(s[i], p, c));
    }
    assert forall|i: int, j: int|
        0 <= i < s2.len() && 0 <= j < s2.len() && i != j && in_group(#[trigger] s2[i], p, c)
            && in_group(#[trigger] s2[j], p, c) implies s2[i].position != s2[j].position by {
        assert(in_group(s[i], p, c) && in_group(s[j], p, c));
    }
    assert forall|q: int| 0 <= q < k implies #[trigger] group_holds(s2, p, c, q) by {
        assert(group_holds(s, p, c, q));
        let w = choose|i: int|
            0 <= i < s.len() && in_group(#[trigger] s[i], p, c) && s[i].position == q;
        assert(in_group(s2[w], p, c) && s2[w].position == q);
    }
}

/// In an empty list every group is dense.
pub proof fn lemma_empty_is_dense(p: Option<i64>, c: Option<i64>)
    ensures
        dense(Seq::<Task>::empty(), p, c),
{
    reveal(dense);
}

/// In a dense group the next position is the number of members.
pub proof fn lemma_next_position_of_dense(s: Seq<Task>, p: Option<i64>, c: Option<i64>)
    requires
        dense(s, p, c),
    ensures
        next_position_of(s, p, c) == group_size(s, p, c),
{
    reveal(dense);
    lemma_group_max(s, p, c);
    let k = group_size(s, p, c);
    if k > 0 {
        let m = group_max(s, p, c).unwrap();
        assert(group_holds(s, p, c, k - 1));
        let w = choose|i: int|
            0 <= i < s.len() && in_group(#[trigger] s[i], p, c) && s[i].position == k - 1;
        assert(s[w].position <= m);
        let v = choose|i: int|
            0 <= i < s.len() && in_group(#[trigger] s[i], p, c) && s[i].position == m;
        assert(s[v].position < k);
    }
}

/// Adding a task at the next position of its group keeps every dense group
/// dense.
pub proof fn lemma_create_keeps_dense(s: Seq<Task>, t: Task, p: Option<i64>, c: Option<i64>)
    requires
        dense(s, p, c),
        in_group(t, p, c) ==> t.position == next_position_of(s, p, c),
    ensures
        dense(s.push(t), p, c),
{
    reveal(dense);
    let s2 = s.push(t);
    let k = group_size(s, p, c);
    let k2 = group_size(s2, p, c);
    assert(s2.drop_last() =~= s);
    assert(s2.last() == t);
    lemma_next_position_of_dense(s, p, c);
    assert forall|i: int| 0 <= i < s2.len() && in_group(#[trigger] s2[i], p, c) implies 0
        <= s2[i].position < k2 by {
        if i < s.len() {
            assert(s2[i] == s[i]);
        }
    }
    assert forall|i: int, j: int|
        0 <= i < s2.len() && 0 <= j < s2.len() && i != j && in_group(#[trigger] s2[i], p, c)
            && in_group(#[trigger] s2[j], p, c) implies s2[i].position != s2[j].position by {
        if i < s.len() {
            assert(s2[i] == s[i]);
        }
        if j < s.len() {
            assert(s2[j] == s[j]);
        }
    }
    assert forall|q: int| 0 <= q < k2 implies #[trigger] group_holds(s2, p, c, q) by {
        if q < k {
            assert(group_holds(s, p, c, q));
            let w = choose|i: int|
                0 <= i < s.len() && in_group(#[trigger] s[i], p, c) && s[i].position == q;
            assert(s2[w] == s[w]);
        } else {
            assert(in_group(s2[s.len() as int], p, c) && s2[s.len() as int].position == q);
        }
    }
}

/// Moving a task to the position where it stands changes nothing.
pub proof fn lemma_reorder_to_same_position(s: Seq<Task>, id: i64)
    requires
        has_id(s, id),
    ensures
        reordered(s, id, s[first_with_id(s, id)].position) == s,
{
}

proof fn lemma_first_with_id(s: Seq<Task>, id: i64)
    requires
        has_id(s, id),
    ensures
        0 <= first_with_id(s, id) < s.len(),
        s[first_with_id(s, id)].id == id,
        distinct_ids(s) ==> forall|i: int|
            0 <= i < s.len() && (#[trigger] s[i]).id == id ==> i == first_with_id(s, id),
{
    lemma_has_first(s, id, s.len() as int);
    let w = first_with_id(s, id);
    if distinct_ids(s) {
        assert forall|i: int| 0 <= i < s.len() && (#[trigger] s[i]).id == id implies i == w by {
            if i != w {
                assert(s[i].id != s[w].id);
            }
        }
    }
}

proof fn lemma_has_first(s: Seq<Task>, id: i64, n: int)
    requires
        0 <= n <= s.len(),
        exists|i: int| 0 <= i < n && (#[trigger] s[i]).id == id,
    ensures
        exists|i: int|
            0 <= i < s.len() && s[i].id == id && forall|j: int|
                0 <= j < i ==> (#[trigger] s[j]).id != id,
    decreases n,
{
    if exists|i: int| 0 <= i < n - 1 && (#[trigger] s[i]).id == id {
        lemma_has_first(s, id, n - 1);
    } else {
        let i = n - 1;
        assert(s[i].id == id && forall|j: int| 0 <= j < i ==> (#[trigger] s[j]).id != id);
    }
}

/// Moving a task within its group keeps every dense group dense, where no two
/// tasks share an id and the new position is one of the group's positions.
pub proof fn lemma_reorder_keeps_dense(
    s: Seq<Task>,
    id: i64,
    new: i32,
    p: Option<i64>,
    c: Option<i64>,
)
    requires
        distinct_ids(s),
        has_id(s, id),
        dense(s, p, c),
        in_group(s[first_with_id(s, id)], p, c) ==> 0 <= new < group_size(s, p, c),
    ensures
        dense(reordered(s, id, new), p, c),
{
    reveal(dense);
    lemma_first_with_id(s, id);
    let at = first_with_id(s, id);
    let target = s[at];
    let old = target.position;
    let s2 = reordered(s, id, new);
    if old == new {
    } else if !in_group(target, p, c) {
        assert forall|i: int| 0 <= i < s.len() && in_group(#[trigger] s[i], p, c) implies s2[i]
            == s[i] by {
            assert(i != at);
        }
        lemma_dense_transfer(s, s2, p, c);
    } else {
        let plan = reorder_plan(old, new);
        let k = group_size(s, p, c);
        lemma_same_groups(s, s2, p, c);
        assert forall|i: int| 0 <= i < s.len() implies (#[trigger] s2[i]).position == if i == at {
            new as int
        } else if in_group(s[i], p, c) {
            shifted(plan, s[i].position as int)
        } else {
            s[i].position as int
        } by {
            assert(s2[i] == after_move(s[i], id, target, new));
            if i != at && in_group(s[i], p, c) {
                assert(0 <= s[i].position < k);
            }
        }
        assert forall|i: int| 0 <= i < s2.len() && in_group(#[trigger] s2[i], p, c) implies 0
            <= s2[i].position < k by {
            assert(in_group(s[i], p, c));
            assert(0 <= s[i].position < k);
        }
        assert forall|i: int, j: int|
            0 <= i < s2.len() && 0 <= j < s2.len() && i != j && in_group(#[trigger] s2[i], p, c)
                && in_group(#[trigger] s2[j], p, c) implies s2[i].position != s2[j].position by {
            assert(in_group(s[i], p, c) && in_group(s[j], p, c));
            assert(s[i].position != s[j].position);
            assert(in_group(s[at], p, c));
            if i != at {
                assert(s[i].position != s[at].position);
            }
            if j != at {
                assert(s[j].position != s[at].position);
            }
        }
        assert forall|q: int| 0 <= q < k implies #[trigger] group_holds(s2, p, c, q) by {
            let from = if q == new {
                old as int
            } else if old < new && old <= q < new {
                q + 1
            } else if new < old && new < q <= old {
                q - 1
            } else {
                q
            };
            assert(0 <= old < k);
            assert(group_holds(s, p, c, from));
            let w = choose|i: int|
                0 <= i < s.len() && in_group(#[trigger] s[i], p, c) && s[i].position == from;
            assert(in_group(s[at], p, c));
            if w != at {
                assert(s[w].position != s[at].position);
            }
            assert(in_group(s2[w], p, c) && s2[w].position == q);
        }
    }
}

/// Moving a task keeps dense every group that is dense, where no two tasks
/// share an id and, for the task's own group, the new position is one of the
/// group's positions.
pub proof fn lemma_reorder_keeps_groups_dense(s: Seq<Task>, id: i64, new: i32)
    ensures
        forall|p: Option<i64>, c: Option<i64>|
            has_id(s, id) && distinct_ids(s) && dense(s, p, c) && (in_group(
                s[first_with_id(s, id)],
                p,
                c,
            ) ==> 0 <= new < group_size(s, p, c)) ==> #[trigger] dense(reordered(s, id, new), p, c),
{
    assert forall|p: Option<i64>, c: Option<i64>|
        has_id(s, id) && distinct_ids(s) && dense(s, p, c) && (in_group(
            s[first_with_id(s, id)],
            p,
            c,
        ) ==> 0 <= new < group_size(s, p, c)) implies #[trigger] dense(
        reordered(s, id, new),
        p,
        c,
    ) by {
        lemma_reorder_keeps_dense(s, id, new, p, c);
    }
}

/// Adding a task at the next position of its group keeps dense every group
/// that is dense.
pub proof fn lemma_create_keeps_groups_dense(s: Seq<Task>, t: Task)
    requires
        t.position == next_position_of(s, t.parent_id, t.category_id),
    ensures
        forall|p: Option<i64>, c: Option<i64>| dense(s, p, c) ==> #[trigger] dense(s.push(t), p, c),
{
    assert forall|p: Option<i64>, c: Option<i64>| dense(s, p, c) implies #[trigger] dense(
        s.push(t),
        p,
        c,
    ) by {
        lemma_create_keeps_dense(s, t, p, c);
    }
}

/// Moving a task leaves every task its id: distinct ids stay distinct.
pub proof fn lemma_reorder_keeps_ids_distinct(s: Seq<Task>, id: i64, new: i32)
    ensures
        distinct_ids(s) ==> distinct_ids(reordered(s, id, new)),
{
    let s2 = reordered(s, id, new);
    if distinct_ids(s) {
        assert forall|i: int, j: int|
            0 <= i < s2.len() && 0 <= j < s2.len() && i != j implies (#[trigger] s2[i]).id != (
        #[trigger] s2[j]).id by {
            assert(s2[i].id == s[i].id && s2[j].id == s[j].id);
        }
    }
}

/// A step in the life of a task list: a task is added, or the task with an
/// id moves to a position.
pub enum ListStep {
    Create(Task),
    Reorder(i64, i32),
}

/// `step` can be taken on `s`: a task is added under an id that is not in
/// use, at the next position of its group; a task that is there moves to one
/// of the positions of its group.
pub open spec fn step_allowed(s: Seq<Task>, step: ListStep) -> bool {
    match step {
        ListStep::Create(t) => !has_id(s, t.id) && t.position == next_position_of(
            s,
            t.parent_id,
            t.category_id,
        ),
        ListStep::Reorder(id, new) => {
            let moved = s[first_with_id(s, id)];
            has_id(s, id) && 0 <= new < group_size(s, moved.parent_id, moved.category_id)
        },
    }
}

/// The list after `step`.
pub open spec fn after_step(s: Seq<Task>, step: ListStep) -> Seq<Task> {
    match step {
        ListStep::Create(t) => s.push(t),
        ListStep::Reorder(id, new) => reordered(s, id, new),
    }
}

/// Every one of `steps` can be taken in turn, starting from `s`.
pub open spec fn steps_allowed(s: Seq<Task>, steps: Seq<ListStep>) -> bool
    decreases steps.len(),
{
    steps.len() == 0 || (step_allowed(s, steps[0]) && steps_allowed(
        after_step(s, steps[0]),
        steps.drop_first(),
    ))
}

/// The list after all of `steps`, taken in turn.
pub open spec fn after_steps(s: Seq<Task>, steps: Seq<ListStep>) -> Seq<Task>
    decreases steps.len(),
{
    if steps.len() == 0 {
        s
    } else {
        after_steps(after_step(s, steps[0]), steps.drop_first())
    }
}

/// Every group of `s` is dense.
pub open spec fn all_dense(s: Seq<Task>) -> bool {
    forall|p: Option<i64>, c: Option<i64>| #[trigger] dense(s, p, c)
}

proof fn lemma_step_keeps_ids_distinct(s: Seq<Task>, step: ListStep)
    requires
        distinct_ids(s),
        step_allowed(s, step),
    ensures
        distinct_ids(after_step(s, step)),
{
    let s2 = after_step(s, step);
    match step {
        ListStep::Create(t) => {
            assert forall|i: int, j: int|
                0 <= i < s2.len() && 0 <= j < s2.len() && i != j implies (#[trigger] s2[i]).id != (
            #[trigger] s2[j]).id by {
                if i < s.len() && j < s.len() {
                    assert(s2[i] == s[i] && s2[j] == s[j]);
                } else if i < s.len() {
                    assert(s2[i] == s[i]);
                } else {
                    assert(s2[j] == s[j]);
                }
            }
        },
        ListStep::Reorder(id, new) => {
            assert forall|i: int, j: int|
                0 <= i < s2.len() && 0 <= j < s2.len() && i != j implies (#[trigger] s2[i]).id != (
            #[trigger] s2[j]).id by {
                assert(s2[i].id == s[i].id && s2[j].id == s[j].id);
            }
        },
    }
}

/// From a list without tasks, or any list whose groups are all dense and
/// whose ids are distinct, every run of allowed steps leads to a list whose
/// groups are all dense.
pub proof fn lemma_steps_keep_dense(s: Seq<Task>, steps: Seq<ListStep>)
    requires
        distinct_ids(s),
        all_dense(s),
        steps_allowed(s, steps),
    ensures
        all_dense(after_steps(s, steps)),
        distinct_ids(after_steps(s, steps)),
    decreases steps.len(),
{
    if steps.len() > 0 {
        let step = steps[0];
        let s2 = after_step(s, step);
        lemma_step_keeps_ids_distinct(s, step);
        match step {
            ListStep::Create(t) => {
                lemma_create_keeps_groups_dense(s, t);
            },
            ListStep::Reorder(id, new) => {
                lemma_reorder_keeps_groups_dense(s, id, new);
            },
        }
        assert(all_dense(s2)) by {
            assert forall|p: Option<i64>, c: Option<i64>| #[trigger] dense(s2, p, c) by {
                assert(dense(s, p, c));
            }
        }
        lemma_steps_keep_dense(s2, steps.drop_first());
    }
}

/// The empty list has distinct ids and only dense groups: it is a start for
/// `lemma_steps_keep_dense`.
pub proof fn lemma_empty_is_all_dense()
    ensures
        all_dense(Seq::<Task>::empty()),
        distinct_ids(Seq::<Task>::empty()),
{
    assert forall|p: Option<i64>, c: Option<i64>| #[trigger] dense(Seq::<Task>::empty(), p, c) by {
        lemma_empty_is_dense(p, c);
    }
}

} // verus!
