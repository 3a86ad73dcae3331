use vstd::prelude::*;
use crate::clock::current_timestamp;
use crate::error::{record_not_found, AppError, ErrorKind, ErrorView};
use crate::commands::categories::{category_exists, has_category};
use crate::models::category::Category;
use crate::models::task::{copy_task, CreateTaskInput, Task, UpdateTaskInput};
use crate::models::tree::{distinct_ids, has_id};
use crate::position_laws::lemma_create_keeps_groups_dense;
use crate::positions::{
    dense, find_task, first_with_id, next_position, next_position_of, no_position_left,
};
use crate::query::{
    bind_bool, bind_i32, bind_i64, bind_if, bind_opt_i64, bind_opt_text, bind_text,
    bound_or_null, bound_values, placeholder, push_sql, set_i32, set_i64, set_if, set_text,
    sql_text, start_query, BoundValue, SqlQuery,
};
use crate::text::{trim_bounds, trim_text, trimmed};

verus! {

/// The greatest number of characters a title may have once trimmed.
pub const MAX_TITLE_CHARS: usize = 500;

/// The message of the failure reported for a title that is empty once
/// trimmed.
pub open spec fn title_is_empty() -> Seq<char> {
    "Title cannot be empty"@
}

/// The message of the failure reported for a title that is too long.
pub open spec fn title_is_too_long() -> Seq<char> {
    "Title is too long (max 500 characters)"@
}

/// What is wrong with a title that has `chars` characters once trimmed, if
/// anything: it must have one character at least and 500 at most.
pub open spec fn length_fault(chars: nat) -> Option<Seq<char>> {
    if chars == 0 {
        Some(title_is_empty())
    } else if chars > MAX_TITLE_CHARS {
        Some(title_is_too_long())
    } else {
        None
    }
}

/// What is wrong with a title, if anything: the fault of its length once
/// trimmed.
pub open spec fn title_fault(title: Seq<char>) -> Option<Seq<char>> {
    length_fault(trimmed(title).len())
}

/// The validation failure with the message `message`.
pub open spec fn validation_failure(message: Seq<char>) -> ErrorView {
    ErrorView { kind: ErrorKind::ValidationError, message }
}

/// The database failure with the message `message`.
pub open spec fn database_failure(message: Seq<char>) -> ErrorView {
    ErrorView { kind: ErrorKind::DatabaseError, message }
}

/// The failure reported when an expected row is absent.
pub open spec fn not_found_failure() -> ErrorView {
    ErrorView { kind: ErrorKind::NotFound, message: record_not_found() }
}

/// Checks the length that a title has once trimmed: accepted from 1 to 500
/// characters, refused with a validation error that carries the fault
/// otherwise.
pub fn check_title_length(chars: usize) -> (r: Result<(), AppError>)
    ensures
        match r {
            Ok(_) => length_fault(chars as nat) is None,
            Err(e) => length_fault(chars as nat) is Some && e@ == validation_failure(
                length_fault(chars as nat).unwrap(),
            ),
        },
{
    if chars == 0 {
        return Err(AppError::ValidationError("Title cannot be empty".to_string()));
    }
    if chars > MAX_TITLE_CHARS {
        return Err(
            AppError::ValidationError("Title is too long (max 500 characters)".to_string()),
        );
    }
    Ok(())
}

/// Checks a title: accepted exactly where `title_fault` finds nothing,
/// refused with a validation error that carries the fault otherwise.
pub fn validate_task_title(title: &str) -> (r: Result<(), AppError>)
    ensures
        match r {
            Ok(_) => title_fault(title@) is None,
            Err(e) => title_fault(title@) is Some && e@ == validation_failure(
                title_fault(title@).unwrap(),
            ),
        },
{
    let (start, end) = trim_bounds(title);
    check_title_length(end - start)
}

/// `p` is one of the four priorities that a task can have.
pub open spec fn is_priority(p: Seq<char>) -> bool {
    p == "Urgent"@ || p == "High"@ || p == "Medium"@ || p == "Low"@
}

/// The message of the failure reported for a priority that is none of the
/// four.
pub open spec fn priority_refused() -> Seq<char> {
    "Priority must be one of Urgent, High, Medium, Low"@
}

/// Checks a priority: accepted exactly where it is one of the four, refused
/// with a database error otherwise, as the store refuses it.
pub fn check_priority(priority: &str) -> (r: Result<(), AppError>)
    ensures
        match r {
            Ok(_) => is_priority(priority@),
            Err(e) => !is_priority(priority@) && e@ == database_failure(priority_refused()),
        },
{
    let given = priority.to_string();
    if given == "Urgent".to_string() || given == "High".to_string() || given
        == "Medium".to_string() || given == "Low".to_string() {
        Ok(())
    } else {
        Err(
            AppError::DatabaseError(
                "Priority must be one of Urgent, High, Medium, Low".to_string(),
            ),
        )
    }
}

/// What is wrong with what `input` asks for, as far as the task alone shows
/// it: the fault of its title, or else a priority that is none of the four.
pub open spec fn new_task_fault(input: CreateTaskInput) -> Option<ErrorView> {
    match title_fault(input.title@) {
        Some(fault) => Some(validation_failure(fault)),
        None => if is_priority(input.priority@) {
            None
        } else {
            Some(database_failure(priority_refused()))
        },
    }
}

/// `t` is the task that `input` asks for, with the id `id`, at `position`,
/// made at the time `now`: the title trimmed, not done, never completed.
pub open spec fn is_new_task(t: Task, id: i64, input: CreateTaskInput, position: i32, now: i64) -> bool {
    &&& t.id == id
    &&& t.title@ == trimmed(input.title@)
    &&& t.description == input.description
    &&& t.category_id == input.category_id
    &&& t.priority == input.priority
    &&& t.parent_id == input.parent_id
    &&& !t.is_done
    &&& t.position == position
    &&& t.due_date == input.due_date
    &&& t.created_at == now
    &&& t.updated_at == now
    &&& t.completed_at is None
}

/// Makes the task that `input` asks for. Fails where the title is not valid
/// or, else, the priority is none of the four.
pub fn new_task(id: i64, input: CreateTaskInput, position: i32, now: i64) -> (r: Result<
    Task,
    AppError,
>)
    ensures
        match r {
            Ok(t) => new_task_fault(input) is None && is_new_task(t, id, input, position, now),
            Err(e) => new_task_fault(input) == Some(e@),
        },
{
    match validate_task_title(input.title.as_str()) {
        Err(e) => {
            return Err(e);
        },
        Ok(_) => {},
    }
    match check_priority(input.priority.as_str()) {
        Err(e) => {
            return Err(e);
        },
        Ok(_) => {},
    }
    let title = trim_text(input.title.as_str());
    Ok(
        Task {
            id,
            title,
            description: input.description,
            category_id: input.category_id,
            priority: input.priority,
            parent_id: input.parent_id,
            is_done: false,
            position,
            due_date: input.due_date,
            created_at: now,
            updated_at: now,
            completed_at: None,
        },
    )
}

/// The text of the statement that stores a new task and hands the stored row
/// back. The store gives the row its id; a new task is not done and has no
/// time of completion.
pub open spec fn insert_task_sql() -> Seq<char> {
    "INSERT INTO tasks (title, description, category_id, priority, parent_id, position, due_date, created_at, updated_at) VALUES ("@
        + placeholder() + ", "@ + placeholder() + ", "@ + placeholder() + ", "@ + placeholder()
        + ", "@ + placeholder() + ", "@ + placeholder() + ", "@ + placeholder() + ", "@
        + placeholder() + ", "@ + placeholder() + ") RETURNING *"@
}

/// The values bound by `insert_task_sql`, in the order of their
/// placeholders.
pub open spec fn insert_task_binds(task: Task) -> Seq<BoundValue> {
    seq![
        BoundValue::Text(task.title@),
        match task.description {
            Some(d) => BoundValue::Text(d@),
            None => BoundValue::Null,
        },
        bound_or_null(task.category_id),
        BoundValue::Text(task.priority@),
        bound_or_null(task.parent_id),
        BoundValue::Int(task.position),
        bound_or_null(task.due_date),
        BoundValue::Int64(task.created_at),
        BoundValue::Int64(task.updated_at),
    ]
}

/// Builds the statement that stores `task` as a new row. Every value travels
/// as a bound value, none in the text.
pub fn insert_task_query(task: Task) -> (q: SqlQuery)
    ensures
        sql_text(q) == insert_task_sql(),
        bound_values(q) == insert_task_binds(task),
{
    let mut q = start_query(
        "INSERT INTO tasks (title, description, category_id, priority, parent_id, position, due_date, created_at, updated_at) VALUES (",
    );
    bind_text(&mut q, task.title);
    push_sql(&mut q, ", ");
    bind_opt_text(&mut q, task.description);
    push_sql(&mut q, ", ");
    bind_opt_i64(&mut q, task.category_id);
    push_sql(&mut q, ", ");
    bind_text(&mut q, task.priority);
    push_sql(&mut q, ", ");
    bind_opt_i64(&mut q, task.parent_id);
    push_sql(&mut q, ", ");
    bind_i32(&mut q, task.position);
    push_sql(&mut q, ", ");
    bind_opt_i64(&mut q, task.due_date);
    push_sql(&mut q, ", ");
    bind_i64(&mut q, task.created_at);
    push_sql(&mut q, ", ");
    bind_i64(&mut q, task.updated_at);
    push_sql(&mut q, ") RETURNING *");
    proof {
        assert(bound_values(q) =~= insert_task_binds(task));
    }
    q
}

/// The message of the failure reported for a new task under an id that a
/// task already has.
pub open spec fn id_in_use() -> Seq<char> {
    "Task id is already in use"@
}

/// The message of the failure reported for a parent id that names no task.
pub open spec fn no_such_parent() -> Seq<char> {
    "Parent task does not exist"@
}

/// The message of the failure reported for a category id that names no
/// category.
pub open spec fn no_such_category() -> Seq<char> {
    "Category does not exist"@
}

/// Why the task that `input` asks for cannot be added under the id `id` to
/// the tasks `s`, beside the categories `cats`, if it cannot: the faults of
/// the task itself; no position left in its group; an id in use; a parent or
/// a category that is not there.
pub open spec fn create_fault(
    s: Seq<Task>,
    cats: Seq<Category>,
    id: i64,
    input: CreateTaskInput,
) -> Option<ErrorView> {
    if new_task_fault(input) is Some {
        new_task_fault(input)
    } else if next_position_of(s, input.parent_id, input.category_id) > i32::MAX {
        Some(database_failure(no_position_left()))
    } else if has_id(s, id) {
        Some(database_failure(id_in_use()))
    } else if input.parent_id matches Some(p) && !has_id(s, p) {
        Some(database_failure(no_such_parent()))
    } else if input.category_id matches Some(c) && !has_category(cats, c) {
        Some(database_failure(no_such_category()))
    } else {
        None
    }
}

/// Adds the task that `input` asks for to `tasks`, with the id `id`, at the
/// next position of its group and stamped with the current time, and returns
/// a copy of it. Fails and changes nothing exactly where `create_fault` names
/// a fault.
pub fn create_task(
    tasks: &mut Vec<Task>,
    categories: &Vec<Category>,
    id: i64,
    input: CreateTaskInput,
) -> (r: Result<Task, AppError>)
    ensures
        match r {
            Ok(t) => {
                &&& create_fault(old(tasks)@, categories@, id, input) is None
                &&& is_new_task(
                    t,
                    id,
                    input,
                    next_position_of(old(tasks)@, input.parent_id, input.category_id) as i32,
                    t.created_at,
                )
                &&& final(tasks)@ == old(tasks)@.push(t)
            },
            Err(e) => {
                &&& create_fault(old(tasks)@, categories@, id, input) == Some(e@)
                &&& final(tasks)@ == old(tasks)@
            },
        },
        forall|p: Option<i64>, c: Option<i64>|
            dense(old(tasks)@, p, c) ==> #[trigger] dense(final(tasks)@, p, c),
        distinct_ids(old(tasks)@) ==> distinct_ids(final(tasks)@),
{
    let ghost given = tasks@;
    match validate_task_title(input.title.as_str()) {
        Err(e) => {
            return Err(e);
        },
        Ok(_) => {},
    }
    match check_priority(input.priority.as_str()) {
        Err(e) => {
            return Err(e);
        },
        Ok(_) => {},
    }
    let now = current_timestamp();
    let position = match next_position(tasks, input.parent_id, input.category_id) {
        Err(e) => {
            return Err(e);
        },
        Ok(p) => p,
    };
    if find_task(tasks, id).is_some() {
        return Err(AppError::DatabaseError("Task id is already in use".to_string()));
    }
    match input.parent_id {
        Some(p) => {
            if find_task(tasks, p).is_none() {
                return Err(AppError::DatabaseError("Parent task does not exist".to_string()));
            }
        },
        None => {},
    }
    match input.category_id {
        Some(c) => {
            if !category_exists(categories, c) {
                return Err(AppError::DatabaseError("Category does not exist".to_string()));
            }
        },
        None => {},
    }
    match new_task(id, input, position, now) {
        Err(e) => Err(e),
        Ok(task) => {
            let copy = copy_task(&task);
            tasks.push(task);
            proof {
                lemma_create_keeps_groups_dense(given, copy);
                lemma_push_keeps_ids_distinct(given, copy);
            }
            Ok(copy)
        },
    }
}

proof fn lemma_push_keeps_ids_distinct(s: Seq<Task>, t: Task)
    requires
        !has_id(s, t.id),
    ensures
        distinct_ids(s) ==> distinct_ids(s.push(t)),
{
    let s2 = s.push(t);
    if distinct_ids(s) {
        assert forall|i: int, j: int|
            0 <= i < s2.len() && 0 <= j < s2.len() && i != j implies (#[trigger] s2[i]).id != (
        #[trigger] s2[j]).id by {
            if i < s.len() && j < s.len() {
                assert(s2[i] == s[i] && s2[j] == s[j]);
            } else if i < s.len() {
                assert(s2[i] == s[i]);
            } else {
                assert(s2[j] == s[j]);
            }
        }
    }
}

/// When a task was completed, after a patch that may set whether it is done:
/// set to `now` where the patch marks it done, cleared where the patch marks
/// it not done, left alone where the patch is silent.
pub open spec fn completed_after(before: Option<i64>, is_done: Option<bool>, now: i64) -> Option<
    i64,
> {
    match is_done {
        Some(true) => Some(now),
        Some(false) => None,
        None => before,
    }
}

/// `after` is `before` patched by `input` at the time `now`: every field that
/// `input` supplies is replaced, the title by its trimmed form; the others
/// stay; the time of the update is `now`.
pub open spec fn is_patched_task(after: Task, before: Task, input: UpdateTaskInput, now: i64) -> bool {
    &&& after.id == before.id
    &&& match input.title {
        Some(title) => after.title@ == trimmed(title@),
        None => after.title == before.title,
    }
    &&& match input.description {
        Some(d) => after.description == Some(d),
        None => after.description == before.description,
    }
    &&& match input.category_id {
        Some(c) => after.category_id == Some(c),
        None => after.category_id == before.category_id,
    }
    &&& match input.priority {
        Some(p) => after.priority == p,
        None => after.priority == before.priority,
    }
    &&& match input.parent_id {
        Some(p) => after.parent_id == Some(p),
        None => after.parent_id == before.parent_id,
    }
    &&& match input.is_done {
        Some(d) => after.is_done == d,
        None => after.is_done == before.is_done,
    }
    &&& match input.position {
        Some(p) => after.position == p,
        None => after.position == before.position,
    }
    &&& match input.due_date {
        Some(d) => after.due_date == Some(d),
        None => after.due_date == before.due_date,
    }
    &&& after.created_at == before.created_at
    &&& after.updated_at == now
    &&& after.completed_at == completed_after(before.completed_at, input.is_done, now)
}

/// What is wrong with the title of a patch, if it supplies one.
pub open spec fn patch_title_fault(input: UpdateTaskInput) -> Option<Seq<char>> {
    match input.title {
        Some(title) => title_fault(title@),
        None => None,
    }
}

/// The priority of a patch, if it supplies one, is one of the four.
pub open spec fn patch_priority_allowed(input: UpdateTaskInput) -> bool {
    match input.priority {
        Some(p) => is_priority(p@),
        None => true,
    }
}

/// What is wrong with a patch, as far as the patch alone shows it: the fault
/// of its title, or else a priority that is none of the four.
pub open spec fn patch_fault(input: UpdateTaskInput) -> Option<ErrorView> {
    match patch_title_fault(input) {
        Some(fault) => Some(validation_failure(fault)),
        None => if patch_priority_allowed(input) {
            None
        } else {
            Some(database_failure(priority_refused()))
        },
    }
}

/// Patches `task` by `input`, whose title is valid where it has one, at the
/// time `now`.
fn patch_task(task: Task, input: UpdateTaskInput, now: i64) -> (after: Task)
    requires
        patch_title_fault(input) is None,
    ensures
        is_patched_task(after, task, input, now),
{
    let title = match input.title {
        Some(title) => trim_text(title.as_str()),
        None => task.title,
    };
    let completed_at = match input.is_done {
        Some(true) => Some(now),
        Some(false) => None,
        None => task.completed_at,
    };
    Task {
        id: task.id,
        title,
        description: match input.description {
            Some(d) => Some(d),
            None => task.description,
        },
        category_id: match input.category_id {
            Some(c) => Some(c),
            None => task.category_id,
        },
        priority: match input.priority {
            Some(p) => p,
            None => task.priority,
        },
        parent_id: match input.parent_id {
            Some(p) => Some(p),
            None => task.parent_id,
        },
        is_done: match input.is_done {
            Some(d) => d,
            None => task.is_done,
        },
        position: match input.position {
            Some(p) => p,
            None => task.position,
        },
        due_date: match input.due_date {
            Some(d) => Some(d),
            None => task.due_date,
        },
        created_at: task.created_at,
        updated_at: now,
        completed_at,
    }
}

/// Checks the title of a patch, where it supplies one.
fn validate_patch_title(input: &UpdateTaskInput) -> (r: Result<(), AppError>)
    ensures
        match r {
            Ok(_) => patch_title_fault(*input) is None,
            Err(e) => patch_title_fault(*input) is Some && e@ == validation_failure(
                patch_title_fault(*input).unwrap(),
            ),
        },
{
    match &input.title {
        Some(title) => validate_task_title(title.as_str()),
        None => Ok(()),
    }
}

/// Checks the priority of a patch, where it supplies one.
fn validate_patch_priority(input: &UpdateTaskInput) -> (r: Result<(), AppError>)
    ensures
        match r {
            Ok(_) => patch_priority_allowed(*input),
            Err(e) => !patch_priority_allowed(*input) && e@ == database_failure(
                priority_refused(),
            ),
        },
{
    match &input.priority {
        Some(priority) => check_priority(priority.as_str()),
        None => Ok(()),
    }
}

/// Checks a patch as far as the patch alone shows its faults.
fn validate_patch(input: &UpdateTaskInput) -> (r: Result<(), AppError>)
    ensures
        match r {
            Ok(_) => patch_fault(*input) is None,
            Err(e) => patch_fault(*input) == Some(e@),
        },
{
    match validate_patch_title(input) {
        Err(e) => Err(e),
        Ok(_) => validate_patch_priority(input),
    }
}

/// Patches `task` by `input` at the time `now`. Fails where the patch
/// supplies a title that is not valid or, else, a priority that is none of
/// the four.
pub fn apply_task_update(task: Task, input: UpdateTaskInput, now: i64) -> (r: Result<
    Task,
    AppError,
>)
    ensures
        match r {
            Ok(after) => patch_fault(input) is None && is_patched_task(after, task, input, now),
            Err(e) => patch_fault(input) == Some(e@),
        },
{
    match validate_patch(&input) {
        Err(e) => Err(e),
        Ok(_) => Ok(patch_task(task, input, now)),
    }
}

/// Marking a task done stamps its completion, and marking it not done after
/// that clears the stamp.
pub proof fn lemma_done_then_undone(before: Option<i64>, first: i64, second: i64)
    ensures
        completed_after(before, Some(true), first) is Some,
        completed_after(completed_after(before, Some(true), first), Some(false), second) is None,
{
}

/// After a patch that says whether the task is done, the task has a time of
/// completion exactly if it is done.
pub proof fn lemma_completed_iff_done(after: Task, before: Task, input: UpdateTaskInput, now: i64)
    requires
        is_patched_task(after, before, input, now),
        input.is_done is Some,
    ensures
        after.completed_at is Some <==> after.is_done,
{
}


/// Why the task with id `id` among the tasks `s`, beside the categories
/// `cats`, cannot be patched by `input`, if it cannot: a title that is not
/// valid; no task with that id; a priority that is none of the four; a new
/// parent or a new category that is not there.
pub open spec fn update_fault(
    s: Seq<Task>,
    cats: Seq<Category>,
    id: i64,
    input: UpdateTaskInput,
) -> Option<ErrorView> {
    if patch_title_fault(input) is Some {
        Some(validation_failure(patch_title_fault(input).unwrap()))
    } else if !has_id(s, id) {
        Some(not_found_failure())
    } else if !patch_priority_allowed(input) {
        Some(database_failure(priority_refused()))
    } else if input.parent_id matches Some(p) && !has_id(s, p) {
        Some(database_failure(no_such_parent()))
    } else if input.category_id matches Some(c) && !has_category(cats, c) {
        Some(database_failure(no_such_category()))
    } else {
        None
    }
}

/// Patches the task with id `id` in `tasks` by `input`, stamped with the
/// current time, and returns a copy of the patched task. Fails and changes
/// nothing exactly where `update_fault` names a fault.
pub fn update_task(
    tasks: &mut Vec<Task>,
    categories: &Vec<Category>,
    id: i64,
    input: UpdateTaskInput,
) -> (r: Result<Task, AppError>)
    ensures
        match r {
            Ok(after) => {
                &&& update_fault(old(tasks)@, categories@, id, input) is None
                &&& is_patched_task(
                    after,
                    old(tasks)@[first_with_id(old(tasks)@, id)],
                    input,
                    after.updated_at,
                )
                &&& final(tasks)@ == old(tasks)@.update(first_with_id(old(tasks)@, id), after)
            },
            Err(e) => {
                &&& update_fault(old(tasks)@, categories@, id, input) == Some(e@)
                &&& final(tasks)@ == old(tasks)@
            },
        },
        distinct_ids(old(tasks)@) ==> distinct_ids(final(tasks)@),
{
    match validate_patch_title(&input) {
        Err(e) => {
            return Err(e);
        },
        Ok(_) => {},
    }
    let at = match find_task(tasks, id) {
        None => {
            return Err(AppError::NotFound("Record not found".to_string()));
        },
        Some(at) => at,
    };
    match validate_patch_priority(&input) {
        Err(e) => {
            return Err(e);
        },
        Ok(_) => {},
    }
    match input.parent_id {
        Some(p) => {
            if find_task(tasks, p).is_none() {
                return Err(AppError::DatabaseError("Parent task does not exist".to_string()));
            }
        },
        None => {},
    }
    match input.category_id {
        Some(c) => {
            if !category_exists(categories, c) {
                return Err(AppError::DatabaseError("Category does not exist".to_string()));
            }
        },
        None => {},
    }
    let now = current_timestamp();
    let ghost before = tasks@;
    let task = tasks.remove(at);
    let after = patch_task(task, input, now);
    let copy = copy_task(&after);
    tasks.insert(at, after);
    proof {
        lemma_remove_insert(before, at as int, copy);
        lemma_update_keeps_ids_distinct(before, at as int, copy);
    }
    Ok(copy)
}

proof fn lemma_update_keeps_ids_distinct(s: Seq<Task>, at: int, t: Task)
    requires
        0 <= at < s.len(),
        t.id == s[at].id,
    ensures
        distinct_ids(s) ==> distinct_ids(s.update(at, t)),
{
    let s2 = s.update(at, t);
    if distinct_ids(s) {
        assert forall|i: int, j: int|
            0 <= i < s2.len() && 0 <= j < s2.len() && i != j implies (#[trigger] s2[i]).id != (
        #[trigger] s2[j]).id by {
            assert(s2[i].id == s[i].id && s2[j].id == s[j].id);
        }
    }
}

proof fn lemma_remove_insert(s: Seq<Task>, at: int, t: Task)
    requires
        0 <= at < s.len(),
    ensures
        s.remove(at).insert(at, t) == s.update(at, t),
{
    assert(s.remove(at).insert(at, t) =~= s.update(at, t));
}

/// The part of an update statement that records whether the task is done: a
/// task marked done gets the time of completion bound, a task marked not done
/// has it cleared.
pub open spec fn done_sql(is_done: Option<bool>) -> Seq<char> {
    match is_done {
        Some(true) => ", is_done = "@ + placeholder() + ", completed_at = "@ + placeholder(),
        Some(false) => ", is_done = "@ + placeholder() + ", completed_at = NULL"@,
        None => Seq::empty(),
    }
}

/// The values bound by `done_sql`.
pub open spec fn done_binds(is_done: Option<bool>, now: i64) -> Seq<BoundValue> {
    match is_done {
        Some(true) => seq![BoundValue::Int(1), BoundValue::Int64(now)],
        Some(false) => seq![BoundValue::Int(0)],
        None => Seq::empty(),
    }
}

/// The text of the statement that patches a task by `input`: the time of the
/// update is always set, every other column only where `input` supplies it.
pub open spec fn task_update_sql(input: UpdateTaskInput) -> Seq<char> {
    "UPDATE tasks SET updated_at = "@ + placeholder() + set_if(
        input.title is Some,
        ", title = "@,
    ) + set_if(input.description is Some, ", description = "@) + set_if(
        input.category_id is Some,
        ", category_id = "@,
    ) + set_if(input.priority is Some, ", priority = "@) + set_if(
        input.parent_id is Some,
        ", parent_id = "@,
    ) + set_if(input.position is Some, ", position = "@) + set_if(
        input.due_date is Some,
        ", due_date = "@,
    ) + done_sql(input.is_done) + " WHERE id = "@ + placeholder() + " RETURNING *"@
}

/// The values bound by `task_update_sql`, in the order of their
/// placeholders. The title is bound in its trimmed form.
pub open spec fn task_update_binds(id: i64, input: UpdateTaskInput, now: i64) -> Seq<BoundValue> {
    seq![BoundValue::Int64(now)] + bind_if(
        match input.title {
            Some(v) => Some(BoundValue::Text(trimmed(v@))),
            None => None,
        },
    ) + bind_if(
        match input.description {
            Some(v) => Some(BoundValue::Text(v@)),
            None => None,
        },
    ) + bind_if(
        match input.category_id {
            Some(v) => Some(BoundValue::Int64(v)),
            None => None,
        },
    ) + bind_if(
        match input.priority {
            Some(v) => Some(BoundValue::Text(v@)),
            None => None,
        },
    ) + bind_if(
        match input.parent_id {
            Some(v) => Some(BoundValue::Int64(v)),
            None => None,
        },
    ) + bind_if(
        match input.position {
            Some(v) => Some(BoundValue::Int(v)),
            None => None,
        },
    ) + bind_if(
        match input.due_date {
            Some(v) => Some(BoundValue::Int64(v)),
            None => None,
        },
    ) + done_binds(input.is_done, now) + seq![BoundValue::Int64(id)]
}

/// Appends what records whether the task is done, where the patch says so.
fn set_done(q: &mut SqlQuery, is_done: Option<bool>, now: i64)
    ensures
        sql_text(*final(q)) == sql_text(*old(q)) + done_sql(is_done),
        bound_values(*final(q)) == bound_values(*old(q)) + done_binds(is_done, now),
{
    let ghost sql = sql_text(*q);
    let ghost binds = bound_values(*q);
    match is_done {
        Some(done) => {
            push_sql(q, ", is_done = ");
            bind_bool(q, done);
            if done {
                push_sql(q, ", completed_at = ");
                bind_i64(q, now);
            } else {
                push_sql(q, ", completed_at = NULL");
            }
            proof {
                assert(sql_text(*q) =~= sql + done_sql(is_done));
                assert(bound_values(*q) =~= binds + done_binds(is_done, now));
            }
        },
        None => {
            proof {
                assert(sql_text(*q) =~= sql + Seq::<char>::empty());
                assert(bound_values(*q) =~= binds + Seq::<BoundValue>::empty());
            }
        },
    }
}

/// Builds the statement that patches the task with id `id` by `input` at the
/// time `now` and hands the patched row back. Every value travels as a bound
/// value, none in the text. Fails, with the title's fault, where the patch
/// supplies a title that is not valid. Whether the priority is one of the
/// four is for the store to say when it runs the statement.
pub fn update_task_query(id: i64, input: UpdateTaskInput, now: i64) -> (r: Result<
    SqlQuery,
    AppError,
>)
    ensures
        match r {
            Ok(q) => {
                &&& patch_title_fault(input) is None
                &&& sql_text(q) == task_update_sql(input)
                &&& bound_values(q) == task_update_binds(id, input, now)
            },
            Err(e) => patch_title_fault(input) is Some && e@ == validation_failure(
                patch_title_fault(input).unwrap(),
            ),
        },
{
    match validate_patch_title(&input) {
        Err(e) => {
            return Err(e);
        },
        Ok(_) => {},
    }
    let title = match input.title {
        Some(title) => Some(trim_text(title.as_str())),
        None => None,
    };
    let mut q = start_query("UPDATE tasks SET updated_at = ");
    bind_i64(&mut q, now);
    proof {
        assert(bound_values(q) =~= seq![BoundValue::Int64(now)]);
    }
    set_text(&mut q, ", title = ", title);
    set_text(&mut q, ", description = ", input.description);
    set_i64(&mut q, ", category_id = ", input.category_id);
    set_text(&mut q, ", priority = ", input.priority);
    set_i64(&mut q, ", parent_id = ", input.parent_id);
    set_i32(&mut q, ", position = ", input.position);
    set_i64(&mut q, ", due_date = ", input.due_date);
    set_done(&mut q, input.is_done, now);
    push_sql(&mut q, " WHERE id = ");
    bind_i64(&mut q, id);
    push_sql(&mut q, " RETURNING *");
    proof {
        assert(bound_values(q) =~= task_update_binds(id, input, now));
    }
    Ok(q)
}

} // verus!
