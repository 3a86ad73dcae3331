use vstd::prelude::*;

verus! {

/// One task row. `parent_id` and `category_id` are weak references: either may
/// name a row that does not exist.
#[derive(Debug, Clone)]
pub struct Task {
    pub id: i64,
    pub title: String,
    pub description: Option<String>,
    pub category_id: Option<i64>,
    pub priority: String,
    pub parent_id: Option<i64>,
    pub is_done: bool,
    pub position: i32,
    pub due_date: Option<i64>,
    pub created_at: i64,
    pub updated_at: i64,
    pub completed_at: Option<i64>,
}

/// What a caller supplies to create a task.
#[derive(Debug)]
pub struct CreateTaskInput {
    pub title: String,
    pub description: Option<String>,
    pub category_id: Option<i64>,
    pub priority: String,
    pub parent_id: Option<i64>,
    pub due_date: Option<i64>,
}

/// A partial patch of a task: absent fields are left as they are.
#[derive(Debug)]
pub struct UpdateTaskInput {
    pub title: Option<String>,
    pub description: Option<String>,
    pub category_id: Option<i64>,
    pub priority: Option<String>,
    pub parent_id: Option<i64>,
    pub is_done: Option<bool>,
    pub position: Option<i32>,
    pub due_date: Option<i64>,
}

/// A copy of `t`.
pub fn copy_task(t: &Task) -> (r: Task)
    ensures
        r == *t,
{
    Task {
        id: t.id,
        title: t.title.clone(),
        description: match &t.description {
            Some(d) => Some(d.clone()),
            None => None,
        },
        category_id: t.category_id,
        priority: t.priority.clone(),
        parent_id: t.parent_id,
        is_done: t.is_done,
        position: t.position,
        due_date: t.due_date,
        created_at: t.created_at,
        updated_at: t.updated_at,
        completed_at: t.completed_at,
    }
}

} // verus!
