use assoc_table::tasks::Command;
use assoc_table::tasks::Priority;
use assoc_table::tasks::Task;
use assoc_table::tasks::TasksManager;
use assoc_table::tasks::parse_command;
use assoc_table::tasks::priority_from_index;
use assoc_table::tasks::status_label;

fn task_at(name: &str, priority: Priority, add_time: i64) -> Task {
    Task::new_at(name.to_string(), String::new(), priority, add_time)
}

#[test]
fn priority_labels() {
    assert_eq!(Priority::Low.to_string(), "Низкий");
    assert_eq!(Priority::Medium.to_string(), "Средний");
    assert_eq!(Priority::High.to_string(), "Высокий");
}

#[test]
fn priority_display_rank() {
    assert_eq!(Priority::High.order(), 0);
    assert_eq!(Priority::Medium.order(), 1);
    assert_eq!(Priority::Low.order(), 2);
}

#[test]
fn priority_selected_by_console_index() {
    assert_eq!(priority_from_index("1"), Some(Priority::High));
    assert_eq!(priority_from_index("2"), Some(Priority::Medium));
    assert_eq!(priority_from_index("3"), Some(Priority::Low));
    assert_eq!(priority_from_index("4"), None);
    assert_eq!(priority_from_index(""), None);
    assert_eq!(priority_from_index("12"), None);
}

#[test]
fn command_selected_by_console_index() {
    assert_eq!(parse_command("1"), Command::AddTask);
    assert_eq!(parse_command("2"), Command::FindTask);
    assert_eq!(parse_command("3"), Command::EditTask);
    assert_eq!(parse_command("4"), Command::RemoveTask);
    assert_eq!(parse_command("5"), Command::PrintTasks);
    assert_eq!(parse_command("6"), Command::StoreToFile);
    assert_eq!(parse_command("7"), Command::ReadFromFile);
    assert_eq!(parse_command("8"), Command::MarkCompleted);
    assert_eq!(parse_command("9"), Command::Invalid);
    assert_eq!(parse_command(""), Command::Invalid);
}

#[test]
fn status_labels() {
    assert_eq!(status_label(true), "Выполнено");
    assert_eq!(status_label(false), "Не выполнено");
}

#[test]
fn new_task_starts_uncompleted() {
    let t = Task::new("wash".to_string(), "the dishes".to_string(), Priority::Medium);
    assert_eq!(t.name, "wash");
    assert_eq!(t.description, "the dishes");
    assert_eq!(t.priority, Priority::Medium);
    assert!(!t.completed);
}

#[test]
fn mark_as_completed_flips_only_the_flag() {
    let mut t = task_at("a", Priority::Low, 5);
    t.mark_as_completed();
    assert!(t.completed);
    assert_eq!(t.name, "a");
    assert_eq!(t.add_time, 5);
}

#[test]
fn find_task_reports_first_match() {
    let mut m = TasksManager::new();
    m.add_task(task_at("a", Priority::Low, 1));
    m.add_task(task_at("b", Priority::Low, 2));
    m.add_task(task_at("b", Priority::High, 3));
    assert_eq!(m.find_task("b"), Some(1));
    assert_eq!(m.find_task("a"), Some(0));
    assert_eq!(m.find_task("c"), None);
}

#[test]
fn remove_task_deletes_first_match() {
    let mut m = TasksManager::new();
    m.add_task(task_at("a", Priority::Low, 1));
    m.add_task(task_at("b", Priority::Low, 2));
    assert!(m.remove_task("a"));
    assert_eq!(m.len(), 1);
    assert_eq!(m.find_task("a"), None);
    assert!(!m.remove_task("a"));
    assert_eq!(m.len(), 1);
}

#[test]
fn edit_task_keeps_time_and_completion() {
    let mut m = TasksManager::new();
    m.add_task(task_at("old", Priority::Low, 42));
    m.mark_task_completed(0);
    let replacement = task_at("new", Priority::High, 7);
    assert!(m.edit_task("old", replacement));
    let t = m.get_task(0).unwrap();
    assert_eq!(t.name, "new");
    assert_eq!(t.priority, Priority::High);
    assert_eq!(t.add_time, 42);
    assert!(t.completed);
    let other = task_at("x", Priority::Low, 0);
    assert!(!m.edit_task("missing", other));
}

#[test]
fn mark_task_completed_by_position() {
    let mut m = TasksManager::new();
    m.add_task(task_at("a", Priority::Low, 1));
    assert!(m.mark_task_completed(0));
    assert!(m.get_task(0).unwrap().completed);
    assert!(!m.mark_task_completed(9));
}

#[test]
fn display_order_ranks_priority_then_time_then_position() {
    let mut m = TasksManager::new();
    m.add_task(task_at("low-late", Priority::Low, 50));
    m.add_task(task_at("high-late", Priority::High, 40));
    m.add_task(task_at("medium", Priority::Medium, 10));
    m.add_task(task_at("high-early", Priority::High, 20));
    m.add_task(task_at("low-tied", Priority::Low, 50));
    let ord = m.display_order();
    // high by time, then medium, then the two tied low tasks in insertion order
    assert_eq!(ord, vec![3, 1, 2, 0, 4]);
}

#[test]
fn display_order_of_empty_manager_is_empty() {
    let m = TasksManager::new();
    assert_eq!(m.display_order(), Vec::<usize>::new());
}
