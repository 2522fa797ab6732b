use task_tracker::shell::{entered_priority, join_words, parse_status};
use task_tracker::{Priority, Task, TaskError, TaskManager, TaskStatus, CLI};

#[test]
fn test_task_creation() {
    let task = Task::new(1, "Test Task".to_string(), "Description".to_string(), Priority::High);
    assert_eq!(task.id, 1);
    assert_eq!(task.title, "Test Task");
    assert_eq!(task.priority, Priority::High);
    assert_eq!(task.status, TaskStatus::Pending);
}

#[test]
fn test_task_manager_add_task() {
    let mut manager = TaskManager::new();
    let result = manager.add_task("Test".to_string(), "Description".to_string(), Priority::Low);
    assert!(result.is_ok());
    assert_eq!(result.unwrap(), 1);
}

#[test]
fn test_duplicate_task_error() {
    let mut manager = TaskManager::new();
    manager.add_task("Test".to_string(), "Description".to_string(), Priority::Low).unwrap();
    let result = manager.add_task("Test".to_string(), "Another Description".to_string(), Priority::High);
    assert!(result.is_err());
}

#[test]
fn test_task_filtering() {
    let mut manager = TaskManager::new();
    manager.add_task("Buy groceries".to_string(), "Milk and bread".to_string(), Priority::Medium).unwrap();
    manager.add_task("Walk dog".to_string(), "Morning walk".to_string(), Priority::Low).unwrap();

    let filtered = manager.filter_tasks("dog");
    assert_eq!(filtered.len(), 1);
    assert_eq!(filtered[0].title, "Walk dog");
}

#[test]
fn ids_ascend_from_one_for_distinct_titles() {
    let mut m = TaskManager::new();
    assert_eq!(m.add_task("a".to_string(), "".to_string(), Priority::Low), Ok(1));
    assert_eq!(m.add_task("b".to_string(), "".to_string(), Priority::Low), Ok(2));
    assert_eq!(m.add_task("c".to_string(), "".to_string(), Priority::High), Ok(3));
    assert_eq!(m.next_id(), 4);
}

#[test]
fn duplicate_title_is_case_sensitive() {
    let mut m = TaskManager::new();
    assert_eq!(m.add_task("Test".to_string(), "d".to_string(), Priority::Low), Ok(1));
    assert_eq!(m.add_task("Test".to_string(), "d2".to_string(), Priority::High), Err(TaskError::DuplicateTask));
    assert_eq!(m.add_task("test".to_string(), "d3".to_string(), Priority::High), Ok(2));
    assert_eq!(m.list_tasks().len(), 2);
    assert_eq!(m.next_id(), 3);
}

#[test]
fn deleted_id_is_not_found_and_not_reused() {
    let mut m = TaskManager::new();
    m.add_task("one".to_string(), "".to_string(), Priority::Low).unwrap();
    m.add_task("two".to_string(), "".to_string(), Priority::Low).unwrap();
    assert_eq!(m.delete_task(2), Ok(()));
    assert_eq!(m.get_task(2).err(), Some(TaskError::TaskNotFound));
    assert_eq!(m.delete_task(2), Err(TaskError::TaskNotFound));
    assert_eq!(m.add_task("three".to_string(), "".to_string(), Priority::Low), Ok(3));
    assert_eq!(m.add_task("two".to_string(), "".to_string(), Priority::Low), Ok(4));
    assert_eq!(m.get_task(2).err(), Some(TaskError::TaskNotFound));
    let ids: Vec<u32> = m.list_tasks().iter().map(|t| t.id).collect();
    assert_eq!(ids, vec![1, 3, 4]);
}

#[test]
fn add_tag_twice_keeps_one_copy_in_order() {
    let mut m = TaskManager::new();
    m.add_task("t".to_string(), "".to_string(), Priority::Low).unwrap();
    assert_eq!(m.add_tag_to_task(1, "home".to_string()), Ok(()));
    assert_eq!(m.add_tag_to_task(1, "work".to_string()), Ok(()));
    assert_eq!(m.add_tag_to_task(1, "home".to_string()), Ok(()));
    assert_eq!(m.add_tag_to_task(1, "Home".to_string()), Ok(()));
    let tags = m.get_task(1).unwrap().tags.clone();
    assert_eq!(tags, vec!["home".to_string(), "work".to_string(), "Home".to_string()]);
    assert_eq!(m.add_tag_to_task(9, "x".to_string()), Err(TaskError::TaskNotFound));
}

#[test]
fn statistics_after_completing_one_of_two() {
    let mut m = TaskManager::new();
    m.add_task("Buy groceries".to_string(), "Milk and bread".to_string(), Priority::Medium).unwrap();
    m.add_task("Walk dog".to_string(), "Morning walk".to_string(), Priority::Low).unwrap();
    assert_eq!(m.update_task_status(1, TaskStatus::Completed), Ok(()));
    let (total, completed, in_progress, pending) = m.get_statistics();
    assert_eq!((total, completed, in_progress, pending), (2, 1, 0, 1));
    assert_eq!(completed * 1000 / total, 500);
}

#[test]
fn statistics_partition_after_mixed_operations() {
    let mut m = TaskManager::new();
    for title in ["a", "b", "c", "d"] {
        m.add_task(title.to_string(), "".to_string(), Priority::Low).unwrap();
    }
    m.update_task_status(1, TaskStatus::InProgress).unwrap();
    m.update_task_status(2, TaskStatus::Completed).unwrap();
    m.update_task_status(2, TaskStatus::Completed).unwrap();
    m.delete_task(3).unwrap();
    assert_eq!(m.update_task_status(3, TaskStatus::Pending), Err(TaskError::TaskNotFound));
    let (total, completed, in_progress, pending) = m.get_statistics();
    assert_eq!((total, completed, in_progress, pending), (3, 1, 1, 1));
    assert_eq!(completed + in_progress + pending, total);
    assert_eq!(TaskManager::new().get_statistics(), (0, 0, 0, 0));
}

#[test]
fn filter_ignores_case_and_searches_every_field() {
    let mut m = TaskManager::new();
    m.add_task("Buy groceries".to_string(), "Milk and bread".to_string(), Priority::Medium).unwrap();
    m.add_task("Walk dog".to_string(), "Morning walk".to_string(), Priority::Low).unwrap();
    m.add_task("Report".to_string(), "quarterly".to_string(), Priority::High).unwrap();
    m.add_tag_to_task(3, "Office".to_string()).unwrap();

    let ids = |v: Vec<&Task>| v.iter().map(|t| t.id).collect::<Vec<u32>>();
    assert_eq!(ids(m.filter_tasks("DOG")), vec![2]);
    assert_eq!(ids(m.filter_tasks("bread")), vec![1]);
    assert_eq!(ids(m.filter_tasks("office")), vec![3]);
    assert_eq!(ids(m.filter_tasks("WALK")), vec![2]);
    assert_eq!(ids(m.filter_tasks("r")), vec![1, 2, 3]);
    assert!(m.filter_tasks("nothing here").is_empty());
    assert_eq!(ids(m.filter_tasks("")), vec![1, 2, 3]);
}

#[test]
fn filter_on_task_directly() {
    let mut t = Task::new(7, "Plan".to_string(), "Trip".to_string(), Priority::Low);
    assert!(!t.matches_filter("beach"));
    t.add_tag("Beach".to_string());
    assert!(t.matches_filter("bEaCh"));
    assert!(t.matches_filter("TRIP"));
}

#[test]
fn queries_by_priority_and_status() {
    let mut m = TaskManager::new();
    m.add_task("a".to_string(), "".to_string(), Priority::High).unwrap();
    m.add_task("b".to_string(), "".to_string(), Priority::Low).unwrap();
    m.add_task("c".to_string(), "".to_string(), Priority::High).unwrap();
    m.update_task_status(3, TaskStatus::Completed).unwrap();
    let ids = |v: Vec<&Task>| v.iter().map(|t| t.id).collect::<Vec<u32>>();
    assert_eq!(ids(m.get_tasks_by_priority(Priority::High)), vec![1, 3]);
    assert!(m.get_tasks_by_priority(Priority::Critical).is_empty());
    assert_eq!(ids(m.get_tasks_by_status(TaskStatus::Pending)), vec![1, 2]);
    assert_eq!(ids(m.get_tasks_by_status(TaskStatus::Completed)), vec![3]);
    assert!(m.get_tasks_by_status(TaskStatus::InProgress).is_empty());
}

#[test]
fn list_is_in_ascending_id_order() {
    let mut m = TaskManager::new();
    for title in ["x", "y", "z"] {
        m.add_task(title.to_string(), "".to_string(), Priority::Low).unwrap();
    }
    let titles: Vec<String> = m.list_tasks().iter().map(|t| t.title.clone()).collect();
    assert_eq!(titles, vec!["x", "y", "z"]);
    assert!(TaskManager::new().list_tasks().is_empty());
}

#[test]
fn get_task_mut_changes_in_place() {
    let mut m = TaskManager::new();
    m.add_task("a".to_string(), "".to_string(), Priority::Low).unwrap();
    m.get_task_mut(1).unwrap().update_status(TaskStatus::InProgress);
    assert_eq!(m.get_task(1).unwrap().status, TaskStatus::InProgress);
    assert!(m.get_task_mut(5).is_err());
}

#[test]
fn priority_words_and_letters() {
    assert_eq!(Priority::from_str("low"), Ok(Priority::Low));
    assert_eq!(Priority::from_str("L"), Ok(Priority::Low));
    assert_eq!(Priority::from_str("Medium"), Ok(Priority::Medium));
    assert_eq!(Priority::from_str("m"), Ok(Priority::Medium));
    assert_eq!(Priority::from_str("HIGH"), Ok(Priority::High));
    assert_eq!(Priority::from_str("c"), Ok(Priority::Critical));
    assert_eq!(Priority::from_str("urgent"), Err(TaskError::InvalidInput));
    assert_eq!(Priority::from_str(""), Err(TaskError::InvalidInput));
    assert_eq!(Priority::from_lowercase("critical"), Ok(Priority::Critical));
    assert_eq!(Priority::from_lowercase("High"), Err(TaskError::InvalidInput));
}

#[test]
fn entered_priority_defaults_to_medium() {
    assert_eq!(entered_priority("H"), Priority::High);
    assert_eq!(entered_priority("whatever"), Priority::Medium);
}

#[test]
fn status_tokens_are_exact() {
    assert_eq!(parse_status("pending"), Some(TaskStatus::Pending));
    assert_eq!(parse_status("progress"), Some(TaskStatus::InProgress));
    assert_eq!(parse_status("completed"), Some(TaskStatus::Completed));
    assert_eq!(parse_status("Completed"), None);
    assert_eq!(parse_status("done"), None);
}

#[test]
fn words_join_with_single_spaces() {
    let words = vec!["needs".to_string(), "review".to_string(), "soon".to_string()];
    assert_eq!(join_words(&words), "needs review soon");
    assert_eq!(join_words(&vec!["one".to_string()]), "one");
    assert_eq!(join_words(&Vec::new()), "");
}

#[test]
fn labels_and_messages() {
    assert_eq!(Priority::Critical.label(), "Critical");
    assert_eq!(TaskStatus::InProgress.label(), "In Progress");
    assert_eq!(TaskError::DuplicateTask.message(), "Task with this title already exists");
    assert_eq!(TaskError::TaskNotFound.message(), "Task not found");
    assert_eq!(TaskError::InvalidInput.message(), "Invalid input provided");
}

#[test]
fn shell_starts_with_empty_store() {
    let cli = CLI::new();
    assert_eq!(cli.task_manager.get_statistics(), (0, 0, 0, 0));
    assert_eq!(cli.task_manager.next_id(), 1);
}
