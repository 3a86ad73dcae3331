use task_manager::commands::categories::{category_exists, new_category};
use task_manager::commands::tasks::{
    apply_task_update, check_priority, check_title_length, create_task, new_task, update_task,
    update_task_query,
};
use task_manager::error::{AppError, ErrorKind};
use task_manager::models::{
    Category, CreateCategoryInput, CreateTaskInput, Task, UpdateTaskInput,
};

fn category(id: i64) -> Category {
    new_category(
        id,
        CreateCategoryInput { name: format!("Category {}", id), color: "#7aa2f7".to_string() },
        0,
    )
}

fn input(title: &str, priority: &str) -> CreateTaskInput {
    CreateTaskInput {
        title: title.to_string(),
        description: None,
        category_id: None,
        priority: priority.to_string(),
        parent_id: None,
        due_date: None,
    }
}

fn no_change() -> UpdateTaskInput {
    UpdateTaskInput {
        title: None,
        description: None,
        category_id: None,
        priority: None,
        parent_id: None,
        is_done: None,
        position: None,
        due_date: None,
    }
}

fn expect(result: Result<Task, AppError>, kind: ErrorKind, message: &str) {
    match result {
        Err(e) => {
            assert_eq!(e.kind(), kind);
            assert_eq!(e.message(), message);
        }
        Ok(_) => panic!("Expected a failure"),
    }
}

const PRIORITY: &str = "Priority must be one of Urgent, High, Medium, Low";

#[test]
fn the_four_priorities_and_no_other() {
    for p in ["Urgent", "High", "Medium", "Low"] {
        assert!(check_priority(p).is_ok());
    }
    for p in ["", "urgent", "HIGH", "Medium ", " Low", "Bogus", "Lowest", "Urgen"] {
        match check_priority(p) {
            Err(AppError::DatabaseError(msg)) => assert_eq!(msg, PRIORITY),
            _ => panic!("Expected DatabaseError"),
        }
    }
}

#[test]
fn the_limits_of_a_title_length() {
    assert!(check_title_length(1).is_ok());
    assert!(check_title_length(500).is_ok());
    match check_title_length(0) {
        Err(AppError::ValidationError(msg)) => assert_eq!(msg, "Title cannot be empty"),
        _ => panic!("Expected ValidationError"),
    }
    match check_title_length(501) {
        Err(AppError::ValidationError(msg)) => {
            assert_eq!(msg, "Title is too long (max 500 characters)")
        }
        _ => panic!("Expected ValidationError"),
    }
    assert!(check_title_length(usize::MAX).is_err());
}

#[test]
fn a_new_task_needs_one_of_the_four_priorities() {
    expect(new_task(1, input("t", "Bogus"), 0, 5), ErrorKind::DatabaseError, PRIORITY);
    expect(new_task(1, input("", "Bogus"), 0, 5), ErrorKind::ValidationError, "Title cannot be empty");
    assert!(new_task(1, input("t", "Urgent"), 0, 5).is_ok());
}

#[test]
fn a_patch_needs_one_of_the_four_priorities() {
    let task = new_task(1, input("t", "Low"), 0, 5).unwrap();
    let mut patch = no_change();
    patch.priority = Some("Bogus".to_string());
    expect(apply_task_update(task, patch, 9), ErrorKind::DatabaseError, PRIORITY);

    let mut patch = no_change();
    patch.priority = Some("Bogus".to_string());
    patch.title = Some("  ".to_string());
    expect(
        apply_task_update(new_task(1, input("t", "Low"), 0, 5).unwrap(), patch, 9),
        ErrorKind::ValidationError,
        "Title cannot be empty",
    );

    let mut patch = no_change();
    patch.priority = Some("Bogus".to_string());
    assert!(update_task_query(1, patch, 9).is_ok());
}

#[test]
fn update_task_refuses_a_bad_priority_and_changes_nothing() {
    let mut tasks: Vec<Task> = Vec::new();
    create_task(&mut tasks, &Vec::new(), 7, input("one", "Medium")).unwrap();
    let stamped = tasks[0].updated_at;
    let mut patch = no_change();
    patch.priority = Some("Bogus".to_string());
    patch.description = Some("never stored".to_string());
    expect(update_task(&mut tasks, &Vec::new(), 7, patch), ErrorKind::DatabaseError, PRIORITY);
    assert_eq!(tasks.len(), 1);
    assert_eq!(tasks[0].priority, "Medium");
    assert_eq!(tasks[0].description, None);
    assert_eq!(tasks[0].updated_at, stamped);
}

#[test]
fn update_task_reports_a_missing_task_before_a_bad_priority() {
    let mut tasks: Vec<Task> = Vec::new();
    create_task(&mut tasks, &Vec::new(), 7, input("one", "Medium")).unwrap();
    let mut patch = no_change();
    patch.priority = Some("Bogus".to_string());
    expect(update_task(&mut tasks, &Vec::new(), 8, patch), ErrorKind::NotFound, "Record not found");
}

#[test]
fn update_task_refuses_a_parent_or_category_that_is_not_there() {
    let categories = vec![category(3)];
    let mut tasks: Vec<Task> = Vec::new();
    create_task(&mut tasks, &categories, 1, input("one", "Medium")).unwrap();
    create_task(&mut tasks, &categories, 2, input("two", "Medium")).unwrap();

    let mut patch = no_change();
    patch.parent_id = Some(99);
    expect(
        update_task(&mut tasks, &categories, 2, patch),
        ErrorKind::DatabaseError,
        "Parent task does not exist",
    );
    assert_eq!(tasks[1].parent_id, None);

    let mut patch = no_change();
    patch.category_id = Some(4);
    expect(
        update_task(&mut tasks, &categories, 2, patch),
        ErrorKind::DatabaseError,
        "Category does not exist",
    );
    assert_eq!(tasks[1].category_id, None);

    let mut patch = no_change();
    patch.parent_id = Some(1);
    patch.category_id = Some(3);
    let after = update_task(&mut tasks, &categories, 2, patch).unwrap();
    assert_eq!(after.parent_id, Some(1));
    assert_eq!(after.category_id, Some(3));
    assert_eq!(tasks[1].parent_id, Some(1));
    assert_eq!(tasks[1].category_id, Some(3));
}

#[test]
fn create_task_refuses_a_bad_priority_and_adds_nothing() {
    let mut tasks: Vec<Task> = Vec::new();
    expect(
        create_task(&mut tasks, &Vec::new(), 1, input("t", "Bogus")),
        ErrorKind::DatabaseError,
        PRIORITY,
    );
    assert_eq!(tasks.len(), 0);
}

#[test]
fn create_task_refuses_an_id_in_use() {
    let mut tasks: Vec<Task> = Vec::new();
    create_task(&mut tasks, &Vec::new(), 1, input("first", "Low")).unwrap();
    expect(
        create_task(&mut tasks, &Vec::new(), 1, input("second", "Low")),
        ErrorKind::DatabaseError,
        "Task id is already in use",
    );
    assert_eq!(tasks.len(), 1);
    assert_eq!(tasks[0].title, "first");
}

#[test]
fn create_task_refuses_a_parent_or_category_that_is_not_there() {
    let categories = vec![category(3)];
    let mut tasks: Vec<Task> = Vec::new();
    create_task(&mut tasks, &categories, 1, input("root", "Low")).unwrap();

    let mut asked = input("child", "Low");
    asked.parent_id = Some(2);
    expect(
        create_task(&mut tasks, &categories, 5, asked),
        ErrorKind::DatabaseError,
        "Parent task does not exist",
    );

    let mut asked = input("child", "Low");
    asked.category_id = Some(8);
    expect(
        create_task(&mut tasks, &categories, 5, asked),
        ErrorKind::DatabaseError,
        "Category does not exist",
    );
    assert_eq!(tasks.len(), 1);

    let mut asked = input("child", "Low");
    asked.parent_id = Some(1);
    asked.category_id = Some(3);
    let child = create_task(&mut tasks, &categories, 5, asked).unwrap();
    assert_eq!(child.parent_id, Some(1));
    assert_eq!(child.category_id, Some(3));
    assert_eq!(child.position, 0);
    assert_eq!(tasks.len(), 2);
}

#[test]
fn a_category_is_found_by_its_id() {
    let categories = vec![category(3), category(5)];
    assert!(category_exists(&categories, 3));
    assert!(category_exists(&categories, 5));
    assert!(!category_exists(&categories, 4));
    assert!(!category_exists(&Vec::new(), 3));
}
