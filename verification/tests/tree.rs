use task_manager::models::{build_task_tree, Task, TaskTree};

fn create_test_task(id: i64, title: &str, parent_id: Option<i64>) -> Task {
    Task {
        id,
        title: title.to_string(),
        description: None,
        category_id: None,
        priority: "Medium".to_string(),
        parent_id,
        is_done: false,
        position: 0,
        due_date: None,
        created_at: 0,
        updated_at: 0,
        completed_at: None,
    }
}

fn count_nodes(forest: &Vec<TaskTree>) -> usize {
    let mut n = 0;
    for tree in forest.iter() {
        n += 1 + count_nodes(&tree.subtasks);
    }
    n
}

fn ids_in_order(forest: &Vec<TaskTree>, out: &mut Vec<i64>) {
    for tree in forest.iter() {
        out.push(tree.task.id);
        ids_in_order(&tree.subtasks, out);
    }
}

#[test]
fn test_build_task_tree_empty() {
    let tasks = vec![];
    let tree = build_task_tree(tasks);
    assert_eq!(tree.len(), 0);
}

#[test]
fn test_build_task_tree_single_root() {
    let tasks = vec![create_test_task(1, "Task 1", None)];
    let tree = build_task_tree(tasks);

    assert_eq!(tree.len(), 1);
    assert_eq!(tree[0].task.id, 1);
    assert_eq!(tree[0].task.title, "Task 1");
    assert_eq!(tree[0].subtasks.len(), 0);
}

#[test]
fn test_build_task_tree_multiple_roots() {
    let tasks = vec![
        create_test_task(1, "Task 1", None),
        create_test_task(2, "Task 2", None),
        create_test_task(3, "Task 3", None),
    ];
    let tree = build_task_tree(tasks);

    assert_eq!(tree.len(), 3);

    let ids: Vec<i64> = tree.iter().map(|t| t.task.id).collect();
    assert!(ids.contains(&1));
    assert!(ids.contains(&2));
    assert!(ids.contains(&3));
}

#[test]
fn test_build_task_tree_simple_hierarchy() {
    let tasks = vec![
        create_test_task(1, "Parent", None),
        create_test_task(2, "Child 1", Some(1)),
        create_test_task(3, "Child 2", Some(1)),
    ];
    let tree = build_task_tree(tasks);

    assert_eq!(tree.len(), 1, "Should have 1 root");
    assert_eq!(tree[0].task.id, 1);
    assert_eq!(tree[0].subtasks.len(), 2, "Parent should have 2 children");

    let subtask_ids: Vec<i64> = tree[0].subtasks.iter().map(|t| t.task.id).collect();
    assert!(subtask_ids.contains(&2));
    assert!(subtask_ids.contains(&3));
}

#[test]
fn test_build_task_tree_deep_nesting() {
    // A chain: 1 -> 2 -> 3 -> 4 -> 5
    let tasks = vec![
        create_test_task(1, "Level 1", None),
        create_test_task(2, "Level 2", Some(1)),
        create_test_task(3, "Level 3", Some(2)),
        create_test_task(4, "Level 4", Some(3)),
        create_test_task(5, "Level 5", Some(4)),
    ];
    let tree = build_task_tree(tasks);

    assert_eq!(tree.len(), 1, "Should have 1 root");

    let level1 = &tree[0];
    assert_eq!(level1.task.id, 1);
    assert_eq!(level1.subtasks.len(), 1);

    let level2 = &level1.subtasks[0];
    assert_eq!(level2.task.id, 2);
    assert_eq!(level2.subtasks.len(), 1);

    let level3 = &level2.subtasks[0];
    assert_eq!(level3.task.id, 3);
    assert_eq!(level3.subtasks.len(), 1);

    let level4 = &level3.subtasks[0];
    assert_eq!(level4.task.id, 4);
    assert_eq!(level4.subtasks.len(), 1);

    let level5 = &level4.subtasks[0];
    assert_eq!(level5.task.id, 5);
    assert_eq!(level5.subtasks.len(), 0);
}

#[test]
fn test_build_task_tree_complex_hierarchy() {
    let tasks = vec![
        create_test_task(1, "Root 1", None),
        create_test_task(2, "Root 1 - Child 1", Some(1)),
        create_test_task(3, "Root 1 - Child 2", Some(1)),
        create_test_task(4, "Root 1 - Child 1 - Grandchild", Some(2)),
        create_test_task(5, "Root 2", None),
        create_test_task(6, "Root 2 - Child 1", Some(5)),
    ];
    let tree = build_task_tree(tasks);

    assert_eq!(tree.len(), 2, "Should have 2 roots");

    let root1 = tree.iter().find(|t| t.task.id == 1).expect("Root 1 not found");
    let root2 = tree.iter().find(|t| t.task.id == 5).expect("Root 2 not found");

    assert_eq!(root1.subtasks.len(), 2);

    let child1 = root1.subtasks.iter().find(|t| t.task.id == 2).unwrap();
    assert_eq!(child1.subtasks.len(), 1);
    assert_eq!(child1.subtasks[0].task.id, 4);

    assert_eq!(root2.subtasks.len(), 1);
    assert_eq!(root2.subtasks[0].task.id, 6);
}

#[test]
fn test_build_task_tree_orphaned_child() {
    // A child that names a parent the list does not hold starts a tree of its own
    let tasks = vec![
        create_test_task(1, "Root", None),
        create_test_task(2, "Orphan", Some(999)),
    ];
    let tree = build_task_tree(tasks);

    assert_eq!(tree.len(), 2, "Root and orphan should both appear");
    assert_eq!(tree[0].task.id, 1);
    assert_eq!(tree[1].task.id, 2);
    assert_eq!(tree[1].task.parent_id, Some(999));
    assert_eq!(tree[1].subtasks.len(), 0);
}

#[test]
fn roots_and_subtasks_keep_list_order() {
    let tasks = vec![
        create_test_task(7, "Root b", None),
        create_test_task(3, "b2", Some(7)),
        create_test_task(9, "Root a", None),
        create_test_task(1, "b1", Some(7)),
        create_test_task(4, "a1", Some(9)),
        create_test_task(2, "b2x", Some(3)),
    ];
    let tree = build_task_tree(tasks);
    let mut ids = Vec::new();
    ids_in_order(&tree, &mut ids);
    assert_eq!(ids, vec![7, 3, 2, 1, 9, 4]);
    assert_eq!(tree[0].subtasks[0].task.title, "b2");
    assert_eq!(tree[0].subtasks[1].task.title, "b1");
}

#[test]
fn subtask_listed_before_its_parent_is_still_attached() {
    let tasks = vec![
        create_test_task(2, "Child", Some(1)),
        create_test_task(1, "Parent", None),
    ];
    let tree = build_task_tree(tasks);
    assert_eq!(tree.len(), 1);
    assert_eq!(tree[0].task.id, 1);
    assert_eq!(tree[0].subtasks.len(), 1);
    assert_eq!(tree[0].subtasks[0].task.id, 2);
}

#[test]
fn every_task_of_an_acyclic_list_is_in_the_forest() {
    let tasks = vec![
        create_test_task(1, "a", None),
        create_test_task(2, "b", Some(1)),
        create_test_task(3, "c", Some(2)),
        create_test_task(4, "d", Some(77)),
        create_test_task(5, "e", Some(4)),
        create_test_task(6, "f", Some(1)),
    ];
    let n = tasks.len();
    let tree = build_task_tree(tasks);
    assert_eq!(count_nodes(&tree), n);
    let mut ids = Vec::new();
    ids_in_order(&tree, &mut ids);
    let mut sorted = ids.clone();
    sorted.sort();
    sorted.dedup();
    assert_eq!(sorted.len(), n);
}

#[test]
fn tasks_on_a_cycle_are_in_no_tree() {
    let tasks = vec![
        create_test_task(1, "Root", None),
        create_test_task(2, "x", Some(3)),
        create_test_task(3, "y", Some(2)),
        create_test_task(4, "below the cycle", Some(3)),
        create_test_task(5, "own parent", Some(5)),
    ];
    let tree = build_task_tree(tasks);
    assert_eq!(tree.len(), 1);
    assert_eq!(tree[0].task.id, 1);
    assert_eq!(count_nodes(&tree), 1);
}

#[test]
fn last_task_with_an_id_is_the_one_that_counts() {
    let tasks = vec![
        create_test_task(1, "first", None),
        create_test_task(2, "child", Some(1)),
        create_test_task(1, "second", None),
    ];
    let tree = build_task_tree(tasks);
    assert_eq!(tree.len(), 1);
    assert_eq!(tree[0].task.title, "second");
    assert_eq!(tree[0].subtasks.len(), 1);
    assert_eq!(tree[0].subtasks[0].task.id, 2);
    assert_eq!(count_nodes(&tree), 2);
}

#[test]
fn parent_with_two_children_gives_one_root() {
    let tasks = vec![
        create_test_task(10, "Parent", None),
        create_test_task(11, "Child1", Some(10)),
        create_test_task(12, "Child2", Some(10)),
    ];
    let tree = build_task_tree(tasks);
    assert_eq!(tree.len(), 1);
    assert_eq!(tree[0].task.title, "Parent");
    assert_eq!(tree[0].subtasks.len(), 2);
    assert_eq!(tree[0].subtasks[0].task.title, "Child1");
    assert_eq!(tree[0].subtasks[1].task.title, "Child2");
}

#[test]
fn long_chain_is_built_whole() {
    let mut tasks = Vec::new();
    tasks.push(create_test_task(0, "t", None));
    let mut i = 1;
    while i < 200 {
        tasks.push(create_test_task(i, "t", Some(i - 1)));
        i += 1;
    }
    let tree = build_task_tree(tasks);
    assert_eq!(tree.len(), 1);
    assert_eq!(count_nodes(&tree), 200);
    let mut node = &tree[0];
    let mut depth = 0;
    while node.subtasks.len() > 0 {
        assert_eq!(node.subtasks.len(), 1);
        node = &node.subtasks[0];
        depth += 1;
    }
    assert_eq!(depth, 199);
    assert_eq!(node.task.id, 199);
}

#[test]
fn a_cloned_tree_has_the_same_nodes() {
    let tasks = vec![
        create_test_task(1, "Root", None),
        create_test_task(2, "Child", Some(1)),
        create_test_task(3, "Grandchild", Some(2)),
        create_test_task(4, "Other child", Some(1)),
    ];
    let tree = build_task_tree(tasks);
    let copy = tree[0].clone();
    let mut ids = Vec::new();
    ids_in_order(&vec![copy], &mut ids);
    assert_eq!(ids, vec![1, 2, 3, 4]);
    let again = tree.clone();
    assert_eq!(again.len(), 1);
    assert_eq!(again[0].task.title, "Root");
    assert_eq!(again[0].subtasks[0].subtasks[0].task.title, "Grandchild");
    assert_eq!(again[0].subtasks[1].task.title, "Other child");
}
