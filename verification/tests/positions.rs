use task_manager::commands::categories::new_category;
use task_manager::commands::tasks::{create_task, new_task};
use task_manager::error::{AppError, ErrorKind};
use task_manager::models::{Category, CreateCategoryInput, CreateTaskInput, Task};
use task_manager::positions::{
    find_task, next_position, plan_reorder, reorder_task, same_group, PositionShift,
};

fn categories() -> Vec<Category> {
    let mut list = Vec::new();
    for id in 1..=9 {
        list.push(new_category(
            id,
            CreateCategoryInput { name: format!("Category {}", id), color: "#414868".to_string() },
            0,
        ));
    }
    list
}

fn add(tasks: &mut Vec<Task>, id: i64, input: CreateTaskInput) -> Result<Task, AppError> {
    create_task(tasks, &categories(), id, input)
}

fn input(title: &str, parent_id: Option<i64>, category_id: Option<i64>) -> CreateTaskInput {
    CreateTaskInput {
        title: title.to_string(),
        description: None,
        category_id,
        priority: "Medium".to_string(),
        parent_id,
        due_date: None,
    }
}

fn task(id: i64, parent_id: Option<i64>, category_id: Option<i64>, position: i32) -> Task {
    new_task(id, input("t", parent_id, category_id), position, 0).unwrap()
}

fn position_of(tasks: &Vec<Task>, id: i64) -> i32 {
    tasks.iter().find(|t| t.id == id).unwrap().position
}

fn group_positions(tasks: &Vec<Task>, parent_id: Option<i64>, category_id: Option<i64>) -> Vec<i32> {
    let mut ps: Vec<i32> = tasks
        .iter()
        .filter(|t| t.parent_id == parent_id && t.category_id == category_id)
        .map(|t| t.position)
        .collect();
    ps.sort();
    ps
}

#[test]
fn created_tasks_take_positions_in_order() {
    let mut tasks = Vec::new();
    let a = add(&mut tasks, 1, input("A", None, None)).unwrap();
    let b = add(&mut tasks, 2, input("B", None, None)).unwrap();
    let c = add(&mut tasks, 3, input("C", None, None)).unwrap();
    assert_eq!((a.position, b.position, c.position), (0, 1, 2));
    assert_eq!(tasks.len(), 3);
}

#[test]
fn moving_the_first_of_three_to_the_end() {
    let mut tasks = Vec::new();
    let a = add(&mut tasks, 1, input("A", None, None)).unwrap();
    let b = add(&mut tasks, 2, input("B", None, None)).unwrap();
    let c = add(&mut tasks, 3, input("C", None, None)).unwrap();
    assert!(reorder_task(&mut tasks, a.id, 2).is_ok());
    assert_eq!(position_of(&tasks, b.id), 0);
    assert_eq!(position_of(&tasks, c.id), 1);
    assert_eq!(position_of(&tasks, a.id), 2);
}

#[test]
fn moving_the_last_of_four_to_the_front() {
    let mut tasks = vec![
        task(1, None, None, 0),
        task(2, None, None, 1),
        task(3, None, None, 2),
        task(4, None, None, 3),
    ];
    assert!(reorder_task(&mut tasks, 4, 1).is_ok());
    assert_eq!(position_of(&tasks, 1), 0);
    assert_eq!(position_of(&tasks, 4), 1);
    assert_eq!(position_of(&tasks, 2), 2);
    assert_eq!(position_of(&tasks, 3), 3);
}

#[test]
fn moving_to_the_same_position_changes_nothing() {
    let mut tasks = vec![task(1, None, None, 0), task(2, None, None, 1), task(3, None, None, 2)];
    assert!(reorder_task(&mut tasks, 2, 1).is_ok());
    assert_eq!(position_of(&tasks, 1), 0);
    assert_eq!(position_of(&tasks, 2), 1);
    assert_eq!(position_of(&tasks, 3), 2);
}

#[test]
fn a_move_leaves_other_groups_alone() {
    let mut tasks = vec![
        task(1, None, None, 0),
        task(2, None, Some(5), 0),
        task(3, None, None, 1),
        task(4, Some(1), None, 0),
        task(5, None, Some(5), 1),
        task(6, None, None, 2),
        task(7, Some(1), None, 1),
    ];
    assert!(reorder_task(&mut tasks, 6, 0).is_ok());
    assert_eq!(position_of(&tasks, 6), 0);
    assert_eq!(position_of(&tasks, 1), 1);
    assert_eq!(position_of(&tasks, 3), 2);
    assert_eq!(position_of(&tasks, 2), 0);
    assert_eq!(position_of(&tasks, 5), 1);
    assert_eq!(position_of(&tasks, 4), 0);
    assert_eq!(position_of(&tasks, 7), 1);
}

#[test]
fn groups_stay_dense_under_creates_and_moves() {
    let mut tasks = Vec::new();
    let mut id = 0;
    for round in 0..6 {
        for (parent, category) in [(None, None), (Some(1), None), (None, Some(2)), (Some(1), Some(2))] {
            id += 1;
            add(&mut tasks, id, input("t", parent, category)).unwrap();
            let size = group_positions(&tasks, parent, category).len() as i32;
            let target = (round * 7 + id as i32) % size;
            reorder_task(&mut tasks, id, target).unwrap();
            let mover = ((id - 1) % 4) + 1;
            let p = tasks.iter().find(|t| t.id == mover).unwrap().parent_id;
            let c = tasks.iter().find(|t| t.id == mover).unwrap().category_id;
            let n = group_positions(&tasks, p, c).len() as i32;
            reorder_task(&mut tasks, mover, (round + 1) % n).unwrap();
        }
    }
    for (parent, category) in [(None, None), (Some(1), None), (None, Some(2)), (Some(1), Some(2))] {
        let ps = group_positions(&tasks, parent, category);
        let want: Vec<i32> = (0..ps.len() as i32).collect();
        assert_eq!(ps, want);
    }
}

#[test]
fn moving_a_task_that_is_not_there_fails() {
    let mut tasks = vec![task(1, None, None, 0)];
    match reorder_task(&mut tasks, 99, 0) {
        Err(AppError::NotFound(msg)) => assert_eq!(msg, "Record not found"),
        _ => panic!("Expected NotFound"),
    }
    assert_eq!(position_of(&tasks, 1), 0);
}

#[test]
fn next_position_is_one_past_the_greatest() {
    let tasks = vec![
        task(1, None, None, 0),
        task(2, None, None, 4),
        task(3, Some(1), None, 9),
        task(4, None, Some(1), 2),
    ];
    assert_eq!(next_position(&tasks, None, None).unwrap(), 5);
    assert_eq!(next_position(&tasks, Some(1), None).unwrap(), 10);
    assert_eq!(next_position(&tasks, None, Some(1)).unwrap(), 3);
    assert_eq!(next_position(&tasks, Some(1), Some(1)).unwrap(), 0);
    assert_eq!(next_position(&Vec::new(), None, None).unwrap(), 0);
}

#[test]
fn next_position_after_a_negative_position() {
    let tasks = vec![task(1, None, None, -5)];
    assert_eq!(next_position(&tasks, None, None).unwrap(), -4);
}

#[test]
fn next_position_fails_when_none_is_left() {
    let tasks = vec![task(1, None, None, i32::MAX)];
    match next_position(&tasks, None, None) {
        Err(e) => {
            assert_eq!(e.kind(), ErrorKind::DatabaseError);
            assert_eq!(e.message(), "No position left in the group");
        }
        Ok(_) => panic!("Expected DatabaseError"),
    }
}

#[test]
fn an_absent_key_matches_only_an_absent_key() {
    let t = task(1, None, Some(3), 0);
    assert!(same_group(&t, None, Some(3)));
    assert!(!same_group(&t, None, None));
    assert!(!same_group(&t, Some(3), Some(3)));
    assert!(!same_group(&t, None, Some(4)));
}

#[test]
fn plans_for_the_three_kinds_of_move() {
    assert_eq!(plan_reorder(3, 3), None);
    assert_eq!(plan_reorder(0, 2), Some(PositionShift { low: 1, high: 2, delta: -1 }));
    assert_eq!(plan_reorder(5, 1), Some(PositionShift { low: 1, high: 4, delta: 1 }));
    assert_eq!(
        plan_reorder(i32::MIN, i32::MAX),
        Some(PositionShift { low: i32::MIN + 1, high: i32::MAX, delta: -1 })
    );
}

#[test]
fn find_task_gives_the_first_with_the_id() {
    let tasks = vec![task(4, None, None, 0), task(7, None, None, 1), task(7, None, None, 2)];
    assert_eq!(find_task(&tasks, 7), Some(1));
    assert_eq!(find_task(&tasks, 4), Some(0));
    assert_eq!(find_task(&tasks, 5), None);
}
