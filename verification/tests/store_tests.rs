use todo_store::store::TaskStore;
use todo_store::task::Task;

fn task_eq(a: &Task, b: &Task) -> bool {
    a.todo == b.todo && a.isdone == b.isdone && a.ispriority == b.ispriority && a.created_at
        == b.created_at && a.updated_at == b.updated_at
}

fn lists_eq(a: &Vec<Task>, b: &Vec<Task>) -> bool {
    a.len() == b.len() && a.iter().zip(b.iter()).all(|(x, y)| task_eq(x, y))
}

#[test]
fn new_store_is_empty() {
    let s = TaskStore::new();
    assert_eq!(s.len(), 0);
    assert_eq!(s.get_todos().len(), 0);
}

#[test]
fn add_appends_with_defaults() {
    let mut s = TaskStore::new();
    s.add_todo("Buy milk".to_string(), true);
    let list = s.get_todos();
    assert_eq!(list.len(), 1);
    let t = &list[0];
    assert_eq!(t.todo, "Buy milk");
    assert!(!t.isdone);
    assert!(t.ispriority);
    assert_eq!(t.updated_at, "");
    assert!(!t.created_at.is_empty());
    let parsed = chrono::DateTime::parse_from_str(&t.created_at, "%Y-%m-%d %H:%M:%S%.f %#z");
    assert!(parsed.is_ok(), "created_at not a timestamp: {}", t.created_at);
}

#[test]
fn add_keeps_earlier_tasks() {
    let mut s = TaskStore::new();
    s.add_at("a".to_string(), false, "t1".to_string());
    s.add_at("b".to_string(), true, "t2".to_string());
    let list = s.get_todos();
    assert_eq!(list.len(), 2);
    assert_eq!(list[0].todo, "a");
    assert_eq!(list[0].created_at, "t1");
    assert_eq!(list[1].todo, "b");
    assert!(list[1].ispriority);
}

#[test]
fn update_sets_done_and_clears_priority() {
    let mut s = TaskStore::new();
    s.add_todo("write report".to_string(), true);
    let created = s.get_todos()[0].created_at.clone();
    let mut tries = 0;
    loop {
        s.update_todo(0, true);
        let u = s.get_todos()[0].updated_at.clone();
        if u != created || tries > 100 {
            break;
        }
        tries += 1;
    }
    let list = s.get_todos();
    let t = &list[0];
    assert!(t.isdone);
    assert!(!t.ispriority);
    assert_eq!(t.todo, "write report");
    assert_eq!(t.created_at, created);
    assert!(!t.updated_at.is_empty());
    assert!(t.updated_at > t.created_at, "updated_at not later: {} vs {}", t.updated_at, t.created_at);
}

#[test]
fn update_with_fixed_time_is_exact() {
    let mut s = TaskStore::new();
    s.add_at("a".to_string(), true, "2024-01-01 09:00:00 +07".to_string());
    s.update_at(0, false, "2024-01-02 10:00:00 +07".to_string());
    let t = &s.get_todos()[0];
    assert!(!t.isdone);
    assert!(!t.ispriority);
    assert_eq!(t.created_at, "2024-01-01 09:00:00 +07");
    assert_eq!(t.updated_at, "2024-01-02 10:00:00 +07");
}

#[test]
fn remove_shifts_later_tasks() {
    let mut s = TaskStore::new();
    s.add_at("a".to_string(), false, "t1".to_string());
    s.add_at("b".to_string(), false, "t2".to_string());
    s.add_at("c".to_string(), false, "t3".to_string());
    s.remove_todo(1);
    let list = s.get_todos();
    assert_eq!(list.len(), 2);
    assert_eq!(list[0].todo, "a");
    assert_eq!(list[1].todo, "c");
}

#[test]
fn out_of_bounds_is_a_byte_for_byte_no_op() {
    let mut s = TaskStore::new();
    s.add_at("a".to_string(), false, "t1".to_string());
    s.add_at("b".to_string(), true, "t2".to_string());
    let before_list = s.get_todos();
    let before_bytes = s.persisted();
    s.update_todo(2, true);
    s.update_todo(17, false);
    s.remove_todo(2);
    s.remove_todo(999);
    assert!(lists_eq(&s.get_todos(), &before_list));
    assert_eq!(s.persisted(), before_bytes);
}

#[test]
fn list_is_idempotent() {
    let mut s = TaskStore::new();
    s.add_todo("x".to_string(), false);
    s.add_todo("y".to_string(), true);
    let a = s.get_todos();
    let b = s.get_todos();
    assert!(lists_eq(&a, &b));
}

#[test]
fn scenario_add_update_remove() {
    let mut s = TaskStore::new();
    assert_eq!(s.get_todos().len(), 0);
    s.add_todo("Buy milk".to_string(), true);
    let list = s.get_todos();
    assert_eq!(list.len(), 1);
    assert_eq!(list[0].todo, "Buy milk");
    assert!(!list[0].isdone);
    assert!(list[0].ispriority);
    assert_eq!(list[0].updated_at, "");
    s.update_todo(0, true);
    let list = s.get_todos();
    assert!(list[0].isdone);
    assert!(!list[0].ispriority);
    assert!(!list[0].updated_at.is_empty());
    s.remove_todo(0);
    assert_eq!(s.get_todos().len(), 0);
}

#[test]
fn persistence_survives_restart() {
    let mut s = TaskStore::new();
    s.add_at("a".to_string(), true, "2024-01-01 09:00:00 +07".to_string());
    s.add_at("b".to_string(), false, "2024-01-01 09:01:00 +07".to_string());
    s.add_at("c".to_string(), true, "2024-01-01 09:02:00 +07".to_string());
    s.update_at(1, true, "2024-01-01 09:03:00 +07".to_string());
    s.remove_todo(0);
    let saved = s.persisted();
    let reloaded = TaskStore::from_persisted(&saved);
    assert!(lists_eq(&reloaded.get_todos(), &s.get_todos()));
    assert_eq!(reloaded.persisted(), saved);
}

#[test]
fn round_trip_many_tasks() {
    let mut s = TaskStore::new();
    for i in 0..25 {
        let text = format!("task number {}", i);
        let stamp = format!("2024-01-01 09:{:02}:00 +07", i);
        s.add_at(text, i % 3 == 0, stamp);
    }
    s.update_at(7, true, "2024-01-02 00:00:00 +07".to_string());
    let saved = s.persisted();
    let reloaded = TaskStore::from_persisted(&saved);
    assert!(lists_eq(&reloaded.get_todos(), &s.get_todos()));
}
