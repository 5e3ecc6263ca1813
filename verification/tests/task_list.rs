use todo_core::task_list::TaskList;

#[test]
fn add_appends_non_empty_task() {
    let mut list = TaskList::new();
    let id = list.add("買い物").expect("空でないので追加される");
    assert_eq!(list.tasks().len(), 1);
    assert_eq!(list.tasks()[0].title, "買い物");
    assert_eq!(list.tasks()[0].id, id);
    assert!(!list.tasks()[0].completed);
}

#[test]
fn add_ignores_empty_and_whitespace() {
    let mut list = TaskList::new();
    assert_eq!(list.add(""), None);
    assert_eq!(list.add("   "), None);
    assert_eq!(list.add("\t\n"), None);
    assert_eq!(list.tasks().len(), 0);
}

#[test]
fn add_trims_and_preserves_order() {
    let mut list = TaskList::new();
    list.add("  一番目  ");
    list.add("二番目");
    assert_eq!(list.tasks()[0].title, "一番目");
    assert_eq!(list.tasks()[1].title, "二番目");
}

#[test]
fn ids_are_unique_and_incrementing() {
    let mut list = TaskList::new();
    let a = list.add("a").unwrap();
    let b = list.add("b").unwrap();
    assert_ne!(a, b);
}

#[test]
fn toggle_flips_completed() {
    let mut list = TaskList::new();
    let id = list.add("タスク").unwrap();
    assert!(!list.tasks()[0].completed);
    list.toggle(id);
    assert!(list.tasks()[0].completed);
    list.toggle(id);
    assert!(!list.tasks()[0].completed);
}

#[test]
fn toggle_unknown_id_is_noop() {
    let mut list = TaskList::new();
    list.add("タスク").unwrap();
    list.toggle(9999); // 存在しないID
    assert!(!list.tasks()[0].completed);
}

#[test]
fn remove_unknown_id_is_noop() {
    let mut list = TaskList::new();
    list.add("タスク").unwrap();
    list.remove(9999); // 存在しないID
    assert_eq!(list.tasks().len(), 1);
}

#[test]
fn remove_deletes_target_only() {
    let mut list = TaskList::new();
    let a = list.add("a").unwrap();
    let b = list.add("b").unwrap();
    list.remove(a);
    assert_eq!(list.tasks().len(), 1);
    assert_eq!(list.tasks()[0].id, b);
}

#[test]
fn remaining_count_tracks_completion() {
    let mut list = TaskList::new();
    let a = list.add("a").unwrap();
    let _b = list.add("b").unwrap();
    let c = list.add("c").unwrap();
    assert_eq!(list.remaining_count(), 3);
    list.toggle(a);
    assert_eq!(list.remaining_count(), 2);
    list.toggle(c);
    assert_eq!(list.remaining_count(), 1);
    list.remove(a); // 完了済みを削除しても未完了数は変わらない
    assert_eq!(list.remaining_count(), 1);
}

#[test]
fn new_list_is_empty_and_ids_start_at_one() {
    let mut list = TaskList::new();
    assert_eq!(list.tasks().len(), 0);
    assert_eq!(list.remaining_count(), 0);
    assert_eq!(list.add("x"), Some(1));
    assert_eq!(list.add("y"), Some(2));
}

#[test]
fn default_list_starts_ids_at_zero() {
    let mut list = TaskList::default();
    assert_eq!(list.tasks().len(), 0);
    assert_eq!(list.add("x"), Some(0));
    assert_eq!(list.add("y"), Some(1));
}

#[test]
fn ignored_title_does_not_use_an_id() {
    let mut list = TaskList::new();
    assert_eq!(list.add("  "), None);
    assert_eq!(list.add("z"), Some(1));
}

#[test]
fn add_trims_unicode_white_space() {
    let mut list = TaskList::new();
    let id = list.add("\u{3000}\u{a0}買う\u{2003}\u{85}\r\n");
    assert_eq!(id, Some(1));
    assert_eq!(list.tasks()[0].title, "買う");
    assert_eq!(list.add("\u{3000}\u{2028}\u{205f}"), None);
}

#[test]
fn add_keeps_inner_white_space() {
    let mut list = TaskList::new();
    list.add("  a  b ");
    assert_eq!(list.tasks()[0].title, "a  b");
}

#[test]
fn add_does_not_trim_zero_width_space() {
    let mut list = TaskList::new();
    assert_eq!(list.add("\u{200b}"), Some(1));
    assert_eq!(list.tasks()[0].title, "\u{200b}");
}

#[test]
fn toggle_twice_restores_every_task() {
    let mut list = TaskList::new();
    let a = list.add("a").unwrap();
    list.add("b");
    list.toggle(a);
    list.toggle(a);
    assert!(list.tasks().iter().all(|t| !t.completed));
    assert_eq!(list.remaining_count(), 2);
}

#[test]
fn toggle_changes_only_the_target() {
    let mut list = TaskList::new();
    let a = list.add("a").unwrap();
    let b = list.add("b").unwrap();
    list.toggle(b);
    assert!(!list.tasks()[0].completed);
    assert!(list.tasks()[1].completed);
    assert_eq!(list.tasks()[0].id, a);
}

#[test]
fn remove_keeps_order_of_the_rest() {
    let mut list = TaskList::new();
    let a = list.add("a").unwrap();
    let b = list.add("b").unwrap();
    let c = list.add("c").unwrap();
    list.remove(b);
    let ids: Vec<u64> = list.tasks().iter().map(|t| t.id).collect();
    assert_eq!(ids, vec![a, c]);
}

#[test]
fn removing_an_open_task_lowers_the_count() {
    let mut list = TaskList::new();
    let a = list.add("a").unwrap();
    list.add("b");
    list.remove(a);
    assert_eq!(list.remaining_count(), 1);
}

#[test]
fn ids_are_not_reused_after_remove() {
    let mut list = TaskList::new();
    let a = list.add("a").unwrap();
    list.remove(a);
    let b = list.add("b").unwrap();
    assert!(b > a);
}
