use task_manager::commands::categories::{apply_category_update, new_category};
use task_manager::models::Category;
use task_manager::commands::tasks::{apply_task_update, create_task, new_task, update_task};
use task_manager::models::task::copy_task;
use task_manager::db::schema::{default_categories, needs_default_categories};
use task_manager::error::{AppError, ErrorKind};
use task_manager::models::{CreateCategoryInput, CreateTaskInput, Task, UpdateCategoryInput, UpdateTaskInput};

fn categories() -> Vec<Category> {
    let mut list = Vec::new();
    for id in 1..=9 {
        list.push(new_category(
            id,
            CreateCategoryInput { name: format!("Category {}", id), color: "#414868".to_string() },
            0,
        ));
    }
    list
}

fn add(tasks: &mut Vec<Task>, id: i64, input: CreateTaskInput) -> Result<Task, AppError> {
    create_task(tasks, &categories(), id, input)
}

fn amend(tasks: &mut Vec<Task>, id: i64, input: UpdateTaskInput) -> Result<Task, AppError> {
    update_task(tasks, &categories(), id, input)
}

fn input(title: &str) -> CreateTaskInput {
    CreateTaskInput {
        title: title.to_string(),
        description: None,
        category_id: None,
        priority: "Medium".to_string(),
        parent_id: None,
        due_date: None,
    }
}

fn no_change() -> UpdateTaskInput {
    UpdateTaskInput {
        title: None,
        description: None,
        category_id: None,
        priority: None,
        parent_id: None,
        is_done: None,
        position: None,
        due_date: None,
    }
}

fn done(value: bool) -> UpdateTaskInput {
    let mut patch = no_change();
    patch.is_done = Some(value);
    patch
}

#[test]
fn a_new_task_has_the_fields_asked_for() {
    let asked = CreateTaskInput {
        title: "Test Task".to_string(),
        description: Some("Test description".to_string()),
        category_id: Some(4),
        priority: "High".to_string(),
        parent_id: Some(2),
        due_date: Some(99),
    };
    let task = new_task(17, asked, 3, 1000).unwrap();
    assert_eq!(task.id, 17);
    assert_eq!(task.title, "Test Task");
    assert_eq!(task.description, Some("Test description".to_string()));
    assert_eq!(task.category_id, Some(4));
    assert_eq!(task.priority, "High");
    assert_eq!(task.parent_id, Some(2));
    assert_eq!(task.is_done, false);
    assert_eq!(task.position, 3);
    assert_eq!(task.due_date, Some(99));
    assert_eq!(task.created_at, 1000);
    assert_eq!(task.updated_at, 1000);
    assert_eq!(task.completed_at, None);
}

#[test]
fn a_new_task_has_its_title_trimmed() {
    let task = new_task(1, input("  Task with spaces  "), 0, 5).unwrap();
    assert_eq!(task.title, "Task with spaces");
}

#[test]
fn a_new_task_needs_a_valid_title() {
    match new_task(1, input("   "), 0, 5) {
        Err(AppError::ValidationError(msg)) => assert_eq!(msg, "Title cannot be empty"),
        _ => panic!("Expected ValidationError"),
    }
    match new_task(1, input(&"a".repeat(501)), 0, 5) {
        Err(AppError::ValidationError(msg)) => {
            assert_eq!(msg, "Title is too long (max 500 characters)")
        }
        _ => panic!("Expected ValidationError"),
    }
}

#[test]
fn create_task_stamps_the_current_time() {
    let mut tasks = Vec::new();
    let task = add(&mut tasks, 1, input("now")).unwrap();
    assert!(task.created_at > 1_600_000_000);
    assert_eq!(task.created_at, task.updated_at);
    assert_eq!(tasks.len(), 1);
    assert_eq!(tasks[0].title, "now");
    assert_eq!(tasks[0].created_at, task.created_at);
}

#[test]
fn create_task_with_a_bad_title_adds_nothing() {
    let mut tasks = Vec::new();
    assert!(add(&mut tasks, 1, input("")).is_err());
    assert_eq!(tasks.len(), 0);
}

#[test]
fn a_patch_replaces_only_what_it_supplies() {
    let before = new_task(1, input("Old Title"), 2, 10).unwrap();
    let patch = UpdateTaskInput {
        title: Some("  Updated Title ".to_string()),
        description: Some("New description".to_string()),
        category_id: None,
        priority: Some("Urgent".to_string()),
        parent_id: None,
        is_done: Some(true),
        position: None,
        due_date: None,
    };
    let after = apply_task_update(before, patch, 50).unwrap();
    assert_eq!(after.id, 1);
    assert_eq!(after.title, "Updated Title");
    assert_eq!(after.description, Some("New description".to_string()));
    assert_eq!(after.priority, "Urgent");
    assert_eq!(after.category_id, None);
    assert_eq!(after.parent_id, None);
    assert_eq!(after.position, 2);
    assert_eq!(after.is_done, true);
    assert_eq!(after.completed_at, Some(50));
    assert_eq!(after.created_at, 10);
    assert_eq!(after.updated_at, 50);
}

#[test]
fn a_patch_can_set_every_field() {
    let before = new_task(1, input("t"), 0, 10).unwrap();
    let patch = UpdateTaskInput {
        title: Some("x".to_string()),
        description: Some("d".to_string()),
        category_id: Some(3),
        priority: Some("Low".to_string()),
        parent_id: Some(8),
        is_done: Some(false),
        position: Some(6),
        due_date: Some(77),
    };
    let after = apply_task_update(before, patch, 20).unwrap();
    assert_eq!(after.title, "x");
    assert_eq!(after.description, Some("d".to_string()));
    assert_eq!(after.category_id, Some(3));
    assert_eq!(after.priority, "Low");
    assert_eq!(after.parent_id, Some(8));
    assert_eq!(after.is_done, false);
    assert_eq!(after.position, 6);
    assert_eq!(after.due_date, Some(77));
    assert_eq!(after.completed_at, None);
}

#[test]
fn done_then_undone_clears_the_completion_time() {
    let task = new_task(1, input("Task"), 0, 10).unwrap();
    let task = apply_task_update(task, done(true), 20).unwrap();
    assert_eq!(task.is_done, true);
    assert_eq!(task.completed_at, Some(20));
    let task = apply_task_update(task, done(false), 30).unwrap();
    assert_eq!(task.is_done, false);
    assert!(task.completed_at.is_none());
    assert_eq!(task.updated_at, 30);
}

#[test]
fn a_silent_patch_keeps_the_completion_time() {
    let task = new_task(1, input("Task"), 0, 10).unwrap();
    let task = apply_task_update(task, done(true), 20).unwrap();
    let task = apply_task_update(task, no_change(), 30).unwrap();
    assert_eq!(task.completed_at, Some(20));
    assert_eq!(task.is_done, true);
    assert_eq!(task.updated_at, 30);
}

#[test]
fn a_patch_with_a_bad_title_fails() {
    let task = new_task(1, input("Task"), 0, 10).unwrap();
    let mut patch = no_change();
    patch.title = Some("  ".to_string());
    match apply_task_update(task, patch, 30) {
        Err(e) => {
            assert_eq!(e.kind(), ErrorKind::ValidationError);
            assert_eq!(e.message(), "Title cannot be empty");
        }
        Ok(_) => panic!("Expected ValidationError"),
    }
}

#[test]
fn update_task_patches_the_task_in_the_list() {
    let mut tasks: Vec<Task> = Vec::new();
    add(&mut tasks, 1, input("one")).unwrap();
    add(&mut tasks, 2, input("two")).unwrap();
    add(&mut tasks, 3, input("three")).unwrap();
    let mut patch = done(true);
    patch.title = Some("second".to_string());
    let after = amend(&mut tasks, 2, patch).unwrap();
    assert_eq!(after.title, "second");
    assert!(after.completed_at.is_some());
    assert_eq!(tasks.len(), 3);
    assert_eq!(tasks[0].title, "one");
    assert_eq!(tasks[1].title, "second");
    assert_eq!(tasks[1].id, 2);
    assert_eq!(tasks[1].is_done, true);
    assert_eq!(tasks[1].completed_at, after.completed_at);
    assert_eq!(tasks[2].title, "three");
}

#[test]
fn update_task_fails_for_an_unknown_id() {
    let mut tasks: Vec<Task> = Vec::new();
    add(&mut tasks, 1, input("one")).unwrap();
    match amend(&mut tasks, 5, done(true)) {
        Err(AppError::NotFound(msg)) => assert_eq!(msg, "Record not found"),
        _ => panic!("Expected NotFound"),
    }
    assert_eq!(tasks[0].is_done, false);
}

#[test]
fn update_task_checks_the_title_before_the_id() {
    let mut tasks: Vec<Task> = Vec::new();
    let mut patch = no_change();
    patch.title = Some("".to_string());
    match amend(&mut tasks, 5, patch) {
        Err(AppError::ValidationError(msg)) => assert_eq!(msg, "Title cannot be empty"),
        _ => panic!("Expected ValidationError"),
    }
}

#[test]
fn a_copy_equals_the_task() {
    let mut task = new_task(3, input("copy me"), 4, 10).unwrap();
    task.description = Some("d".to_string());
    task.completed_at = Some(9);
    let copy = copy_task(&task);
    assert_eq!(copy.id, 3);
    assert_eq!(copy.title, "copy me");
    assert_eq!(copy.description, Some("d".to_string()));
    assert_eq!(copy.priority, "Medium");
    assert_eq!(copy.position, 4);
    assert_eq!(copy.completed_at, Some(9));
    assert_eq!(copy.created_at, 10);
}

#[test]
fn category_patch_and_creation() {
    let c = new_category(
        2,
        CreateCategoryInput { name: "Work".to_string(), color: "#e0af68".to_string() },
        100,
    );
    assert_eq!((c.id, c.created_at, c.updated_at), (2, 100, 100));
    assert_eq!(c.name, "Work");
    assert_eq!(c.color, "#e0af68");
    let c = apply_category_update(
        c,
        UpdateCategoryInput { name: Some("Job".to_string()), color: None },
        200,
    );
    assert_eq!(c.name, "Job");
    assert_eq!(c.color, "#e0af68");
    assert_eq!((c.id, c.created_at, c.updated_at), (2, 100, 200));
    let c = apply_category_update(
        c,
        UpdateCategoryInput { name: None, color: Some("#000000".to_string()) },
        300,
    );
    assert_eq!(c.name, "Job");
    assert_eq!(c.color, "#000000");
    assert_eq!(c.updated_at, 300);
}

#[test]
fn a_fresh_store_gets_four_categories() {
    assert!(needs_default_categories(0));
    assert!(!needs_default_categories(1));
    assert!(!needs_default_categories(4));
    let defaults = default_categories();
    let pairs: Vec<(String, String)> =
        defaults.into_iter().map(|c| (c.name, c.color)).collect();
    assert_eq!(
        pairs,
        vec![
            ("Personal".to_string(), "#9ece6a".to_string()),
            ("Tech Guild".to_string(), "#7aa2f7".to_string()),
            ("Work".to_string(), "#e0af68".to_string()),
            ("Other".to_string(), "#414868".to_string()),
        ]
    );
}
