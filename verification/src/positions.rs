use vstd::prelude::*;
use crate::error::{record_not_found, AppError, ErrorKind, ErrorView};
use crate::models::task::Task;
use crate::models::tree::{distinct_ids, has_id};
use crate::position_laws::{lemma_reorder_keeps_groups_dense, lemma_reorder_keeps_ids_distinct};
use crate::query::{
    bind_i32, bind_i64, bind_opt_i64, bound_or_null, bound_values, placeholder, push_sql,
    sql_text, start_query, BoundValue, SqlQuery,
};

verus! {

/// `t` belongs to the group of tasks with this parent and this category. An
/// absent parent or category matches only an absent one.
pub open spec fn in_group(t: Task, parent_id: Option<i64>, category_id: Option<i64>) -> bool {
    t.parent_id == parent_id && t.category_id == category_id
}

/// The greatest position among the tasks of `s` in the group, if the group
/// has a member.
pub open spec fn group_max(s: Seq<Task>, parent_id: Option<i64>, category_id: Option<i64>) -> Option<
    int,
>
    decreases s.len(),
{
    if s.len() == 0 {
        None
    } else {
        let before = group_max(s.drop_last(), parent_id, category_id);
        if in_group(s.last(), parent_id, category_id) {
            match before {
                Some(m) if m >= s.last().position => before,
                _ => Some(s.last().position as int),
            }
        } else {
            before
        }
    }
}

/// The position for a new member of the group: one past the greatest so far,
/// or 0 for the first member.
pub open spec fn next_position_of(
    s: Seq<Task>,
    parent_id: Option<i64>,
    category_id: Option<i64>,
) -> int {
    match group_max(s, parent_id, category_id) {
        Some(m) => m + 1,
        None => 0,
    }
}

/// The number of tasks of `s` in the group.
pub open spec fn group_size(s: Seq<Task>, parent_id: Option<i64>, category_id: Option<i64>) -> nat
    decreases s.len(),
{
    if s.len() == 0 {
        0
    } else {
        group_size(s.drop_last(), parent_id, category_id) + if in_group(
            s.last(),
            parent_id,
            category_id,
        ) {
            1nat
        } else {
            0nat
        }
    }
}

/// The positions of the group's members are 0, 1, ..., k - 1 for its k
/// members: each in that range, no two equal, none missing.
#[verifier::opaque]
pub open spec fn dense(s: Seq<Task>, parent_id: Option<i64>, category_id: Option<i64>) -> bool {
    let k = group_size(s, parent_id, category_id);
    &&& forall|i: int|
        0 <= i < s.len() && in_group(#[trigger] s[i], parent_id, category_id) ==> 0
            <= s[i].position < k
    &&& forall|i: int, j: int|
        0 <= i < s.len() && 0 <= j < s.len() && i != j && in_group(
            #[trigger] s[i],
            parent_id,
            category_id,
        ) && in_group(#[trigger] s[j], parent_id, category_id) ==> s[i].position != s[j].position
    &&& forall|q: int| 0 <= q < k ==> #[trigger] group_holds(s, parent_id, category_id, q)
}

/// Some member of the group stands at position `q`.
pub open spec fn group_holds(
    s: Seq<Task>,
    parent_id: Option<i64>,
    category_id: Option<i64>,
    q: int,
) -> bool {
    exists|i: int|
        0 <= i < s.len() && in_group(#[trigger] s[i], parent_id, category_id) && s[i].position == q
}

/// The index of the first task of `s` with the id `id`.
pub open spec fn first_with_id(s: Seq<Task>, id: i64) -> int {
    choose|i: int| 0 <= i < s.len() && s[i].id == id && forall|j: int| 0 <= j < i ==> (#[trigger] s[j]).id != id
}

/// A run of positions and the step by which its members move.
#[derive(Debug, Clone, Copy, PartialEq, Eq, Structural)]
pub struct PositionShift {
    /// The first position of the run.
    pub low: i32,
    /// The last position of the run.
    pub high: i32,
    /// The step: -1 towards the front, 1 towards the back.
    pub delta: i32,
}

/// What moving a task from `old` to `new` asks of its siblings: nothing where
/// the two are equal; where it moves back, those after `old` up to `new` step
/// forward; where it moves forward, those from `new` to before `old` step
/// back.
pub open spec fn reorder_plan(old: i32, new: i32) -> Option<PositionShift> {
    if old == new {
        None
    } else if old < new {
        Some(PositionShift { low: (old + 1) as i32, high: new, delta: -1i32 })
    } else {
        Some(PositionShift { low: new, high: (old - 1) as i32, delta: 1i32 })
    }
}

/// Where a sibling at `position` stands once `plan` is carried out.
pub open spec fn shifted(plan: Option<PositionShift>, position: int) -> int {
    match plan {
        Some(shift) if shift.low <= position <= shift.high => position + shift.delta,
        _ => position,
    }
}

/// `t` after the task `target` has moved to `new`: the task with the moved
/// id stands at `new`, its siblings make room, every other task is as it was.
pub open spec fn after_move(t: Task, id: i64, target: Task, new: i32) -> Task {
    if t.id == id {
        Task { position: new, ..t }
    } else if in_group(t, target.parent_id, target.category_id) {
        Task { position: shifted(reorder_plan(target.position, new), t.position as int) as i32, ..t }
    } else {
        t
    }
}

/// The list after the task with id `id` has moved to position `new` within
/// its group. A move to where the task already stands changes nothing.
pub open spec fn reordered(s: Seq<Task>, id: i64, new: i32) -> Seq<Task> {
    let target = s[first_with_id(s, id)];
    if target.position == new {
        s
    } else {
        Seq::new(s.len(), |i: int| after_move(s[i], id, target, new))
    }
}

/// The message of the failure reported when a group has no position left.
pub open spec fn no_position_left() -> Seq<char> {
    "No position left in the group"@
}

/// Whether `t` belongs to the group with this parent and this category.
pub fn same_group(t: &Task, parent_id: Option<i64>, category_id: Option<i64>) -> (b: bool)
    ensures
        b == in_group(*t, parent_id, category_id),
{
    t.parent_id == parent_id && t.category_id == category_id
}

/// The position for a new member of the group within `tasks`: one past the
/// greatest position in the group, or 0 where the group is empty. Fails with
/// a database error where that number is past the last position there is.
pub fn next_position(tasks: &Vec<Task>, parent_id: Option<i64>, category_id: Option<i64>) -> (r:
    Result<i32, AppError>)
    ensures
        match r {
            Ok(p) => p == next_position_of(tasks@, parent_id, category_id),
            Err(e) => next_position_of(tasks@, parent_id, category_id) > i32::MAX && e@ == (
                ErrorView { kind: ErrorKind::DatabaseError, message: no_position_left() }
            ),
        },
{
    let mut max: Option<i32> = None;
    let n = tasks.len();
    let mut i: usize = 0;
    proof {
        assert(tasks@.take(0) =~= Seq::<Task>::empty());
    }
    while i < n
        invariant
            n == tasks@.len(),
            0 <= i <= n,
            match max {
                Some(m) => group_max(tasks@.take(i as int), parent_id, category_id) == Some(
                    m as int,
                ),
                None => group_max(tasks@.take(i as int), parent_id, category_id) is None,
            },
        decreases n - i,
    {
        proof {
            assert(tasks@.take(i + 1).drop_last() =~= tasks@.take(i as int));
            assert(tasks@.take(i + 1).last() == tasks@[i as int]);
        }
        if same_group(&tasks[i], parent_id, category_id) {
            let p = tasks[i].position;
            max = match max {
                Some(m) => if m >= p {
                    Some(m)
                } else {
                    Some(p)
                },
                None => Some(p),
            };
        }
        i += 1;
    }
    proof {
        assert(tasks@.take(n as int) =~= tasks@);
    }
    position_after(max)
}

/// The position after the greatest position `greatest` of a group, or 0 for
/// a group without members. Fails with a database error where there is no
/// position after the greatest.
pub fn position_after(greatest: Option<i32>) -> (r: Result<i32, AppError>)
    ensures
        match r {
            Ok(p) => match greatest {
                Some(m) => p == m + 1,
                None => p == 0,
            },
            Err(e) => greatest == Some(i32::MAX) && e@ == (
                ErrorView { kind: ErrorKind::DatabaseError, message: no_position_left() }
            ),
        },
{
    match greatest {
        None => Ok(0),
        Some(m) => if m == i32::MAX {
            Err(AppError::DatabaseError("No position left in the group".to_string()))
        } else {
            Ok(m + 1)
        },
    }
}

/// Decides what a move from `old` to `new` asks of the siblings.
pub fn plan_reorder(old: i32, new: i32) -> (plan: Option<PositionShift>)
    ensures
        plan == reorder_plan(old, new),
{
    if old == new {
        None
    } else if old < new {
        Some(PositionShift { low: old + 1, high: new, delta: -1 })
    } else {
        Some(PositionShift { low: new, high: old - 1, delta: 1 })
    }
}

/// The index of the first task with the id `id`, if there is one.
pub fn find_task(tasks: &Vec<Task>, id: i64) -> (r: Option<usize>)
    ensures
        match r {
            Some(i) => has_id(tasks@, id) && i == first_with_id(tasks@, id) && i < tasks@.len()
                && tasks@[i as int].id == id,
            None => !has_id(tasks@, id),
        },
{
    let n = tasks.len();
    let mut i: usize = 0;
    while i < n
        invariant
            n == tasks@.len(),
            0 <= i <= n,
            forall|j: int| 0 <= j < i ==> (#[trigger] tasks@[j]).id != id,
        decreases n - i,
    {
        if tasks[i].id == id {
            proof {
                let s = tasks@;
                let w = first_with_id(s, id);
                assert(0 <= i < s.len() && s[i as int].id == id && forall|j: int|
                    0 <= j < i ==> (#[trigger] s[j]).id != id);
                assert(0 <= w < s.len() && s[w].id == id && forall|j: int|
                    0 <= j < w ==> (#[trigger] s[j]).id != id);
                if w < i {
                    assert(s[w].id != id);
                }
                if i < w {
                    assert(s[i as int].id != id);
                }
            }
            return Some(i);
        }
        i += 1;
    }
    None
}

/// Moves the task with id `id` to position `new_position` within its group:
/// the siblings between the old and the new position step aside by one, and
/// the task takes the new position. Fails with "not found", and changes
/// nothing, where no task has that id.
pub fn reorder_task(tasks: &mut Vec<Task>, id: i64, new_position: i32) -> (r: Result<(), AppError>)
    ensures
        match r {
            Ok(_) => has_id(old(tasks)@, id) && final(tasks)@ == reordered(
                old(tasks)@,
                id,
                new_position,
            ),
            Err(e) => !has_id(old(tasks)@, id) && final(tasks)@ == old(tasks)@ && e@ == (
                ErrorView { kind: ErrorKind::NotFound, message: record_not_found() }
            ),
        },
        forall|p: Option<i64>, c: Option<i64>|
            distinct_ids(old(tasks)@) && dense(old(tasks)@, p, c) && (in_group(
                old(tasks)@[first_with_id(old(tasks)@, id)],
                p,
                c,
            ) ==> 0 <= new_position < group_size(old(tasks)@, p, c)) ==> #[trigger] dense(
                final(tasks)@,
                p,
                c,
            ),
        distinct_ids(old(tasks)@) ==> distinct_ids(final(tasks)@),
{
    let ghost given = tasks@;
    proof {
        lemma_reorder_keeps_groups_dense(given, id, new_position);
        lemma_reorder_keeps_ids_distinct(given, id, new_position);
    }
    let found = find_task(tasks, id);
    let at = match found {
        None => {
            return Err(AppError::NotFound("Record not found".to_string()));
        },
        Some(at) => at,
    };
    let old_position = tasks[at].position;
    let parent_id = tasks[at].parent_id;
    let category_id = tasks[at].category_id;
    let plan = plan_reorder(old_position, new_position);
    let shift = match plan {
        None => {
            return Ok(());
        },
        Some(shift) => shift,
    };
    let ghost s = tasks@;
    let ghost target = s[at as int];
    let n = tasks.len();
    let mut i: usize = 0;
    while i < n
        invariant
            n == s.len(),
            tasks@.len() == n,
            0 <= i <= n,
            target.position == old_position,
            target.parent_id == parent_id,
            target.category_id == category_id,
            old_position != new_position,
            plan == reorder_plan(old_position, new_position),
            plan == Some(shift),
            forall|j: int| 0 <= j < i ==> #[trigger] tasks@[j] == after_move(s[j], id, target, new_position),
            forall|j: int| i <= j < n ==> #[trigger] tasks@[j] == s[j],
        decreases n - i,
    {
        if tasks[i].id == id {
            tasks[i].position = new_position;
        } else if same_group(&tasks[i], parent_id, category_id) {
            let p = tasks[i].position;
            if shift.low <= p && p <= shift.high {
                tasks[i].position = p + shift.delta;
            }
            proof {
                assert(tasks@[i as int] == after_move(s[i as int], id, target, new_position));
            }
        }
        i += 1;
    }
    proof {
        assert(tasks@ =~= reordered(s, id, new_position));
    }
    Ok(())
}

/// The text of the statement that asks the store for the greatest position
/// in a group. The comparison by `IS` lets an absent key match an absent one.
pub open spec fn greatest_position_sql() -> Seq<char> {
    "SELECT MAX(position) FROM tasks WHERE parent_id IS "@ + placeholder()
        + " AND category_id IS "@ + placeholder()
}

/// Builds the statement that asks the store for the greatest position in the
/// group with this parent and this category.
pub fn greatest_position_query(parent_id: Option<i64>, category_id: Option<i64>) -> (q: SqlQuery)
    ensures
        sql_text(q) == greatest_position_sql(),
        bound_values(q) == seq![bound_or_null(parent_id), bound_or_null(category_id)],
{
    let mut q = start_query("SELECT MAX(position) FROM tasks WHERE parent_id IS ");
    bind_opt_i64(&mut q, parent_id);
    push_sql(&mut q, " AND category_id IS ");
    bind_opt_i64(&mut q, category_id);
    proof {
        assert(bound_values(q) =~= seq![bound_or_null(parent_id), bound_or_null(category_id)]);
    }
    q
}

/// The text of the statement that carries out a shift among the siblings of
/// a moved task.
pub open spec fn shift_sql() -> Seq<char> {
    "UPDATE tasks SET position = position + "@ + placeholder() + " WHERE parent_id IS "@
        + placeholder() + " AND category_id IS "@ + placeholder() + " AND position >= "@
        + placeholder() + " AND position <= "@ + placeholder() + " AND id <> "@ + placeholder()
}

/// Builds the statement that moves the siblings of `moved` in the run of
/// `shift` by its step; `moved` itself stays where it is.
pub fn shift_query(moved: &Task, shift: PositionShift) -> (q: SqlQuery)
    ensures
        sql_text(q) == shift_sql(),
        bound_values(q) == seq![
            BoundValue::Int(shift.delta),
            bound_or_null(moved.parent_id),
            bound_or_null(moved.category_id),
            BoundValue::Int(shift.low),
            BoundValue::Int(shift.high),
            BoundValue::Int64(moved.id),
        ],
{
    let mut q = start_query("UPDATE tasks SET position = position + ");
    bind_i32(&mut q, shift.delta);
    push_sql(&mut q, " WHERE parent_id IS ");
    bind_opt_i64(&mut q, moved.parent_id);
    push_sql(&mut q, " AND category_id IS ");
    bind_opt_i64(&mut q, moved.category_id);
    push_sql(&mut q, " AND position >= ");
    bind_i32(&mut q, shift.low);
    push_sql(&mut q, " AND position <= ");
    bind_i32(&mut q, shift.high);
    push_sql(&mut q, " AND id <> ");
    bind_i64(&mut q, moved.id);
    proof {
        assert(bound_values(q) =~= seq![
            BoundValue::Int(shift.delta),
            bound_or_null(moved.parent_id),
            bound_or_null(moved.category_id),
            BoundValue::Int(shift.low),
            BoundValue::Int(shift.high),
            BoundValue::Int64(moved.id),
        ]);
    }
    q
}

/// The text of the statement that puts a task at a position.
pub open spec fn place_sql() -> Seq<char> {
    "UPDATE tasks SET position = "@ + placeholder() + " WHERE id = "@ + placeholder()
}

/// Builds the statement that puts the task with id `id` at `position`.
pub fn place_query(id: i64, position: i32) -> (q: SqlQuery)
    ensures
        sql_text(q) == place_sql(),
        bound_values(q) == seq![BoundValue::Int(position), BoundValue::Int64(id)],
{
    let mut q = start_query("UPDATE tasks SET position = ");
    bind_i32(&mut q, position);
    push_sql(&mut q, " WHERE id = ");
    bind_i64(&mut q, id);
    proof {
        assert(bound_values(q) =~= seq![BoundValue::Int(position), BoundValue::Int64(id)]);
    }
    q
}

} // verus!
