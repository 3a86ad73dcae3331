use task_manager::commands::categories::new_category;
use task_manager::commands::tasks::{create_task, update_task};
use task_manager::error::AppError;
use task_manager::models::{
    build_task_tree, Category, CreateCategoryInput, CreateTaskInput, Task, UpdateTaskInput,
};
use task_manager::positions::reorder_task;

fn categories() -> Vec<Category> {
    let mut list = Vec::new();
    for id in 1..=9 {
        list.push(new_category(
            id,
            CreateCategoryInput { name: format!("Category {}", id), color: "#414868".to_string() },
            0,
        ));
    }
    list
}

fn add(tasks: &mut Vec<Task>, id: i64, input: CreateTaskInput) -> Result<Task, AppError> {
    create_task(tasks, &categories(), id, input)
}

fn amend(tasks: &mut Vec<Task>, id: i64, input: UpdateTaskInput) -> Result<Task, AppError> {
    update_task(tasks, &categories(), id, input)
}

fn input(title: &str, priority: &str, parent_id: Option<i64>) -> CreateTaskInput {
    CreateTaskInput {
        title: title.to_string(),
        description: None,
        category_id: None,
        priority: priority.to_string(),
        parent_id,
        due_date: None,
    }
}

#[test]
fn test_create_task_success() {
    let mut tasks: Vec<Task> = Vec::new();

    let input = CreateTaskInput {
        title: "Test Task".to_string(),
        description: Some("Test description".to_string()),
        category_id: None,
        priority: "High".to_string(),
        parent_id: None,
        due_date: None,
    };

    let result = add(&mut tasks, 1, input);

    assert!(result.is_ok());
    let task = result.unwrap();
    assert_eq!(task.title, "Test Task");
    assert_eq!(task.description, Some("Test description".to_string()));
    assert_eq!(task.priority, "High");
    assert_eq!(task.is_done, false);
    assert_eq!(task.position, 0);
}

#[test]
fn test_create_task_trims_whitespace() {
    let mut tasks: Vec<Task> = Vec::new();

    let input = CreateTaskInput {
        title: "  Task with spaces  ".to_string(),
        description: None,
        category_id: None,
        priority: "Low".to_string(),
        parent_id: None,
        due_date: None,
    };

    let result = add(&mut tasks, 1, input);

    assert!(result.is_ok());
    let task = result.unwrap();
    assert_eq!(task.title, "Task with spaces");
}

#[test]
fn test_get_all_tasks() {
    let mut tasks: Vec<Task> = Vec::new();

    add(&mut tasks, 1, input("Task 1", "High", None)).unwrap();
    add(&mut tasks, 2, input("Task 2", "Low", None)).unwrap();

    assert_eq!(tasks.len(), 2);
    assert_eq!(tasks[0].title, "Task 1");
    assert_eq!(tasks[1].title, "Task 2");
}

#[test]
fn test_update_task() {
    let mut tasks: Vec<Task> = Vec::new();

    let task = add(&mut tasks, 1, input("Original Title", "Medium", None)).unwrap();

    let update_input = UpdateTaskInput {
        title: Some("Updated Title".to_string()),
        description: Some("New description".to_string()),
        category_id: None,
        priority: Some("Urgent".to_string()),
        parent_id: None,
        is_done: Some(true),
        position: None,
        due_date: None,
    };

    let updated = amend(&mut tasks, task.id, update_input).unwrap();

    assert_eq!(updated.title, "Updated Title");
    assert_eq!(updated.description, Some("New description".to_string()));
    assert_eq!(updated.priority, "Urgent");
    assert_eq!(updated.is_done, true);
    assert!(updated.completed_at.is_some());
}

#[test]
fn test_update_task_mark_undone() {
    let mut tasks: Vec<Task> = Vec::new();

    let task = add(&mut tasks, 1, input("Task", "Medium", None)).unwrap();

    let mark_done = UpdateTaskInput {
        title: None,
        description: None,
        category_id: None,
        priority: None,
        parent_id: None,
        is_done: Some(true),
        position: None,
        due_date: None,
    };
    amend(&mut tasks, task.id, mark_done).unwrap();

    let mark_undone = UpdateTaskInput {
        title: None,
        description: None,
        category_id: None,
        priority: None,
        parent_id: None,
        is_done: Some(false),
        position: None,
        due_date: None,
    };
    let updated = amend(&mut tasks, task.id, mark_undone).unwrap();

    assert_eq!(updated.is_done, false);
    assert!(updated.completed_at.is_none());
}

#[test]
fn test_get_task_tree_simple() {
    let mut tasks: Vec<Task> = Vec::new();

    let parent = add(&mut tasks, 1, input("Parent", "High", None)).unwrap();
    add(&mut tasks, 2, input("Child 1", "Medium", Some(parent.id))).unwrap();
    add(&mut tasks, 3, input("Child 2", "Low", Some(parent.id))).unwrap();

    let tree = build_task_tree(tasks);

    assert_eq!(tree.len(), 1, "Should have 1 root");
    assert_eq!(tree[0].task.title, "Parent");
    assert_eq!(tree[0].subtasks.len(), 2, "Parent should have 2 children");
}

#[test]
fn test_reorder_task() {
    let mut tasks: Vec<Task> = Vec::new();

    let task1 = add(&mut tasks, 1, input("Task 1", "Medium", None)).unwrap();
    let task2 = add(&mut tasks, 2, input("Task 2", "Medium", None)).unwrap();
    let task3 = add(&mut tasks, 3, input("Task 3", "Medium", None)).unwrap();

    reorder_task(&mut tasks, task1.id, 2).unwrap();

    let task1_updated = tasks.iter().find(|t| t.id == task1.id).unwrap();
    let task2_updated = tasks.iter().find(|t| t.id == task2.id).unwrap();
    let task3_updated = tasks.iter().find(|t| t.id == task3.id).unwrap();

    assert_eq!(task2_updated.position, 0);
    assert_eq!(task3_updated.position, 1);
    assert_eq!(task1_updated.position, 2);
}
