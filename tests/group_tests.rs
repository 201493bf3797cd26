use task_rotation::{create_members, create_tasks, partition_tasks, Group, NoDataError, Task};

fn group_with(name: &str, tasks: usize, members: usize) -> Group {
    let mut group = Group::new(name);
    for task in create_tasks(tasks) {
        group.add_task(task)
    }
    for person in create_members(members) {
        group.add_member(person)
    }
    group
}

fn bundle_sizes(group: &Group) -> Vec<usize> {
    group
        .task_groups()
        .as_ref()
        .unwrap()
        .iter()
        .map(|b| b.len())
        .collect()
}

fn assignments(group: &Group) -> Vec<Option<usize>> {
    group
        .members()
        .as_ref()
        .unwrap()
        .iter()
        .map(|m| m.assigned_group)
        .collect()
}

fn names(tasks: &[Task]) -> Vec<String> {
    tasks.iter().map(|t| t.name.clone()).collect()
}

#[test]
fn should_add_member_to_group() {
    let mut group = Group::new("Doing_team");
    for person in create_members(2) {
        group.add_member(person)
    }

    assert_eq!(group.members().as_ref().unwrap()[1].name, "Member 2".to_string());
}

#[test]
fn should_add_task_to_group() {
    let mut group = Group::new("Doing_team");
    for task in create_tasks(2) {
        group.add_task(task)
    }
    assert_eq!(group.tasks().as_ref().unwrap()[0].name, "task 1".to_string())
}

#[test]
fn should_setup_group_with_more_tasks_than_members_that_is_evenly_divisible() {
    let mut evenly_divisible_group = Group::new("Evenly Group");
    for task in create_tasks(6) {
        evenly_divisible_group.add_task(task)
    }
    for person in create_members(3) {
        evenly_divisible_group.add_member(person)
    }

    let compare: usize = 3;
    let length = evenly_divisible_group
        .task_groups()
        .as_ref()
        .map(|group| group.len())
        .unwrap();
    assert_eq!(length, compare);

    let members = evenly_divisible_group.members().as_ref().unwrap();
    assert_eq!(members[2].assigned_group.unwrap(), 2);
}

#[test]
fn should_setup_group_with_more_tasks_than_members_that_is_unevenly_divisible_which_results_to_one(
) {
    let mut unevenly_divisible_group = Group::new("UnEven Group");
    for task in create_tasks(6) {
        unevenly_divisible_group.add_task(task)
    }
    for person in create_members(4) {
        unevenly_divisible_group.add_member(person)
    }

    let compare: usize = 2;
    let first_group_length = unevenly_divisible_group
        .task_groups()
        .as_ref()
        .map(|groups| groups[0].len())
        .unwrap();

    assert_eq!(first_group_length, compare);

    let members = unevenly_divisible_group.members().as_ref().unwrap();
    assert_eq!(members[0].assigned_group.unwrap(), 0)
}

#[test]
fn should_setup_group_with_more_tasks_than_members_that_is_unevenly_divisible_which_results_to_more_than_one(
) {
    let mut unevenly_divisible_group = Group::new("UnEven Group");
    for task in create_tasks(15) {
        unevenly_divisible_group.add_task(task)
    }
    for person in create_members(4) {
        unevenly_divisible_group.add_member(person)
    }

    let compare: usize = 4;
    let first_group_length = unevenly_divisible_group
        .task_groups()
        .as_ref()
        .map(|groups| groups[0].len())
        .unwrap();

    assert_eq!(first_group_length, compare);

    let members = unevenly_divisible_group.members().as_ref().unwrap();
    assert_eq!(members[0].assigned_group.unwrap(), 0)
}

#[test]
fn should_setup_group_with_less_tasks_than_memebers() {
    let mut group_with_less_tasks = Group::new("More tasks group");

    for task in create_tasks(3) {
        group_with_less_tasks.add_task(task)
    }
    for person in create_members(4) {
        group_with_less_tasks.add_member(person)
    }

    let members = group_with_less_tasks.members().as_ref().unwrap();
    assert_eq!(members[2].assigned_group.unwrap(), 2);
    assert_eq!(members[3].assigned_group.is_none(), true);
}

#[test]
fn should_rest_task_assignment_and_task_groups() {
    let mut group = Group::new("Group update");
    // 6 and 3 = 2 task each
    for task in create_tasks(6) {
        group.add_task(task)
    }
    for person in create_members(3) {
        group.add_member(person)
    }

    // 6 and 4 = 1 task each with two task groups having two
    group.add_member("Member 4".to_string());
    let task_groups = group.task_groups().as_ref().unwrap();

    assert_eq!(task_groups[0].len(), 2);
    assert_eq!(task_groups[2].len(), 1);
}

#[test]
fn should_rotate_task_assignments() {
    let mut group = Group::new("Group update");

    for task in create_tasks(6) {
        group.add_task(task)
    }
    for person in create_members(3) {
        group.add_member(person)
    }

    group.rotate_tasks().unwrap();

    let members = group.members().as_ref().unwrap();
    assert_eq!(members[0].assigned_group, Some(1))
}

#[test]
fn should_not_rotate_tasks_with_no_members_or_tasks() {
    let mut empty_group = Group::new("Empty Group");

    assert_eq!(empty_group.rotate_tasks().is_err(), true);
}

#[test]
fn should_create_task_assignment() {
    let group = group_with("Assigned Group", 6, 3);
    let assigned = group.get_task_assignments().unwrap();
    assert_eq!(assigned.len(), 3);
    assert_eq!(assigned[0].0, "Member 1".to_string());
    let bundle = assigned[0].1.as_ref().unwrap();
    assert_eq!(names(bundle), vec!["task 1".to_string(), "task 2".to_string()]);
}

#[test]
fn new_group_is_empty_and_named() {
    let group = Group::new("Doing_team");
    assert_eq!(group.name, "Doing_team".to_string());
    assert!(group.members().is_none());
    assert!(group.tasks().is_none());
    assert!(group.task_groups().is_none());
}

#[test]
fn bundles_wait_until_both_sides_exist() {
    let mut group = Group::new("Waiting");
    for task in create_tasks(4) {
        group.add_task(task)
    }
    assert!(group.task_groups().is_none());
    let mut members_only = Group::new("Members only");
    members_only.add_member("Member 1".to_string());
    assert!(members_only.task_groups().is_none());
    assert_eq!(assignments(&members_only), vec![None]);
}

#[test]
fn even_split_concatenates_to_the_tasks() {
    let group = group_with("Concat", 6, 3);
    let flat: Vec<String> = group
        .task_groups()
        .as_ref()
        .unwrap()
        .iter()
        .flat_map(|b| names(b))
        .collect();
    let expected: Vec<String> = (1..7).map(|i| format!("task {}", i)).collect();
    assert_eq!(flat, expected);
}

#[test]
fn fewer_tasks_concatenate_to_the_tasks() {
    let group = group_with("Concat", 3, 5);
    let flat: Vec<String> = group
        .task_groups()
        .as_ref()
        .unwrap()
        .iter()
        .flat_map(|b| names(b))
        .collect();
    assert_eq!(flat, vec!["task 1", "task 2", "task 3"]);
}

#[test]
fn even_split_sizes() {
    let group = group_with("Even", 12, 4);
    assert_eq!(bundle_sizes(&group), vec![3, 3, 3, 3]);
    assert_eq!(assignments(&group), vec![Some(0), Some(1), Some(2), Some(3)]);
}

#[test]
fn uneven_split_six_over_four() {
    let group = group_with("UnEven Group", 6, 4);
    assert_eq!(bundle_sizes(&group), vec![2, 2, 1, 1]);
    let bundles = group.task_groups().as_ref().unwrap();
    assert_eq!(names(&bundles[0]), vec!["task 1", "task 5"]);
    assert_eq!(names(&bundles[1]), vec!["task 2", "task 6"]);
    assert_eq!(names(&bundles[2]), vec!["task 3"]);
    assert_eq!(names(&bundles[3]), vec!["task 4"]);
}

#[test]
fn uneven_split_fifteen_over_four() {
    let group = group_with("UnEven Group", 15, 4);
    assert_eq!(bundle_sizes(&group), vec![4, 4, 4, 3]);
    let bundles = group.task_groups().as_ref().unwrap();
    assert_eq!(names(&bundles[0]), vec!["task 1", "task 2", "task 3", "task 13"]);
    assert_eq!(names(&bundles[3]), vec!["task 10", "task 11", "task 12"]);
}

#[test]
fn fewer_tasks_than_members_gives_singletons() {
    let group = group_with("More tasks group", 3, 4);
    assert_eq!(bundle_sizes(&group), vec![1, 1, 1]);
    assert_eq!(assignments(&group), vec![Some(0), Some(1), Some(2), None]);
}

#[test]
fn adding_a_member_rebuilds_the_bundles() {
    let mut group = group_with("Group update", 6, 3);
    assert_eq!(bundle_sizes(&group), vec![2, 2, 2]);
    group.add_member("Member 4".to_string());
    assert_eq!(bundle_sizes(&group), vec![2, 2, 1, 1]);
    assert_eq!(assignments(&group), vec![Some(0), Some(1), Some(2), Some(3)]);
}

#[test]
fn adding_a_task_rebuilds_the_bundles() {
    let mut group = group_with("Group update", 6, 3);
    group.add_task(Task::new("extra".to_string(), "late".to_string()));
    assert_eq!(bundle_sizes(&group), vec![3, 2, 2]);
    let bundles = group.task_groups().as_ref().unwrap();
    assert_eq!(names(&bundles[0]), vec!["task 1", "task 2", "extra"]);
}

#[test]
fn rotation_moves_each_index_one_place_left() {
    let mut group = group_with("Rotate", 6, 3);
    assert_eq!(assignments(&group), vec![Some(0), Some(1), Some(2)]);
    group.rotate_tasks().unwrap();
    assert_eq!(assignments(&group), vec![Some(1), Some(2), Some(0)]);
    assert_eq!(bundle_sizes(&group), vec![2, 2, 2]);
}

#[test]
fn rotation_carries_a_missing_bundle_along() {
    let mut group = group_with("Rotate", 3, 4);
    group.rotate_tasks().unwrap();
    assert_eq!(assignments(&group), vec![Some(1), Some(2), None, Some(0)]);
}

#[test]
fn rebuild_after_rotation_restores_positions() {
    let mut group = group_with("Rotate", 3, 4);
    group.rotate_tasks().unwrap();
    group.add_member("Member 5".to_string());
    assert_eq!(assignments(&group), vec![Some(0), Some(1), Some(2), None, None]);
}

#[test]
fn rotating_a_single_member_changes_nothing() {
    let mut group = group_with("Solo", 1, 1);
    assert_eq!(assignments(&group), vec![Some(0)]);
    group.rotate_tasks().unwrap();
    assert_eq!(assignments(&group), vec![Some(0)]);
    assert_eq!(bundle_sizes(&group), vec![1]);
}

#[test]
fn rotation_without_data_fails() {
    let mut group = Group::new("Empty Group");
    assert_eq!(group.rotate_tasks(), Err(NoDataError));
    let mut tasks_only = Group::new("Tasks only");
    tasks_only.add_task(Task::new("a".to_string(), "b".to_string()));
    assert_eq!(tasks_only.rotate_tasks(), Err(NoDataError));
    assert_eq!(NoDataError.message(), "No tasks or members added");
}

#[test]
fn assignments_without_data_fail() {
    let group = Group::new("Empty Group");
    assert!(group.get_task_assignments().is_err());
    let mut members_only = Group::new("Members only");
    members_only.add_member("Member 1".to_string());
    assert_eq!(members_only.get_task_assignments().err(), Some(NoDataError));
}

#[test]
fn assignments_list_unassigned_members() {
    let group = group_with("Few tasks", 2, 3);
    let assigned = group.get_task_assignments().unwrap();
    assert_eq!(assigned.len(), 3);
    assert_eq!(assigned[2].0, "Member 3".to_string());
    assert!(assigned[2].1.is_none());
    assert_eq!(names(assigned[1].1.as_ref().unwrap()), vec!["task 2"]);
}

#[test]
fn assignments_follow_rotation() {
    let mut group = group_with("Rotate", 6, 3);
    group.rotate_tasks().unwrap();
    let assigned = group.get_task_assignments().unwrap();
    assert_eq!(assigned[0].0, "Member 1".to_string());
    assert_eq!(names(assigned[0].1.as_ref().unwrap()), vec!["task 3", "task 4"]);
}

#[test]
fn later_member_with_the_same_name_wins() {
    let mut group = Group::new("Twins");
    for task in create_tasks(3) {
        group.add_task(task)
    }
    group.add_member("Ann".to_string());
    group.add_member("Bob".to_string());
    group.add_member("Ann".to_string());
    let assigned = group.get_task_assignments().unwrap();
    assert_eq!(assigned.len(), 2);
    let ann = assigned.iter().find(|e| e.0 == "Ann").unwrap();
    assert_eq!(names(ann.1.as_ref().unwrap()), vec!["task 3"]);
    let bob = assigned.iter().find(|e| e.0 == "Bob").unwrap();
    assert_eq!(names(bob.1.as_ref().unwrap()), vec!["task 2"]);
}

#[test]
fn sample_data_is_numbered_in_decimal() {
    let tasks = create_tasks(12);
    assert_eq!(tasks.len(), 12);
    assert_eq!(tasks[11].name, "task 12");
    assert_eq!(tasks[11].details, "Do not forget to do task: 12 it in the morning");
    let members = create_members(10);
    assert_eq!(members.len(), 10);
    assert_eq!(members[9], "Member 10");
    assert!(create_tasks(0).is_empty());
}

#[test]
fn partition_of_no_tasks_is_empty() {
    let none: Vec<Task> = Vec::new();
    assert!(partition_tasks(&none, 3).is_empty());
}

#[test]
fn partition_seven_over_three() {
    let tasks = create_tasks(7);
    let bundles = partition_tasks(&tasks, 3);
    let sizes: Vec<usize> = bundles.iter().map(|b| b.len()).collect();
    assert_eq!(sizes, vec![3, 2, 2]);
    assert_eq!(names(&bundles[0]), vec!["task 1", "task 2", "task 7"]);
    assert_eq!(names(&bundles[2]), vec!["task 5", "task 6"]);
}

#[test]
fn partition_with_one_member_keeps_everything_together() {
    let tasks = create_tasks(5);
    let bundles = partition_tasks(&tasks, 1);
    assert_eq!(bundles.len(), 1);
    assert_eq!(names(&bundles[0]), names(&tasks));
}
