use paradox::clause::Clause;
use paradox::literal::Literal;
use paradox::watch::{init_watches, WatchLists, Watcher};

fn lit(i: i32) -> Literal {
    Literal::from_dimacs(i)
}

#[test]
fn test_watcher_creation() {
    let w = Watcher::new(5, lit(3));
    assert_eq!(w.clause, 5);
    assert_eq!(w.blocker, lit(3));
}

#[test]
fn test_watch_lists_creation() {
    let watches = WatchLists::new(10);
    assert!(watches.watches(lit(10)).is_empty());
    assert!(watches.watches(lit(-10)).is_empty());
}

#[test]
fn test_add_watch() {
    let mut watches = WatchLists::new(5);
    watches.add_watch(lit(1), 0, lit(2));
    watches.add_watch(lit(1), 1, lit(3));
    watches.add_watch(lit(-2), 2, lit(1));
    assert_eq!(watches.watches(lit(1)).len(), 2);
    assert_eq!(watches.watches(lit(-2)).len(), 1);
    assert!(watches.watches(lit(2)).is_empty());
}

#[test]
fn test_remove_watch() {
    let mut watches = WatchLists::new(5);
    watches.add_watch(lit(1), 0, lit(2));
    watches.add_watch(lit(1), 1, lit(3));
    watches.remove_watch(lit(1), 0);
    let list = watches.watches(lit(1));
    assert_eq!(list.len(), 1);
    assert_eq!(list[0].clause, 1);
}

#[test]
fn test_is_watching() {
    let mut watches = WatchLists::new(5);
    watches.add_watch(lit(1), 0, lit(2));
    assert!(watches.is_watching(lit(1), 0));
    assert!(!watches.is_watching(lit(1), 1));
    assert!(!watches.is_watching(lit(2), 0));
}

#[test]
fn watch_test_resize() {
    let mut watches = WatchLists::new(2);
    watches.add_watch(lit(10), 0, lit(5));
    assert_eq!(watches.watches(lit(10)).len(), 1);
}

#[test]
fn test_clear() {
    let mut watches = WatchLists::new(5);
    watches.add_watch(lit(1), 0, lit(2));
    watches.add_watch(lit(3), 1, lit(4));
    watches.clear();
    assert!(watches.watches(lit(1)).is_empty());
    assert!(watches.watches(lit(3)).is_empty());
}

#[test]
fn test_total_watchers() {
    let mut watches = WatchLists::new(5);
    assert_eq!(watches.total_watchers(), 0);
    watches.add_watch(lit(1), 0, lit(2));
    watches.add_watch(lit(1), 1, lit(3));
    watches.add_watch(lit(-2), 2, lit(1));
    assert_eq!(watches.total_watchers(), 3);
}

#[test]
fn test_init_watches() {
    let clauses = vec![
        Clause::new(vec![lit(1), lit(2), lit(3)]),
        Clause::new(vec![lit(-1), lit(-2)]),
        Clause::new(vec![lit(4)]),
    ];
    let mut watches = WatchLists::new(4);
    init_watches(&mut watches, &clauses);
    assert!(watches.is_watching(lit(1), 0));
    assert!(watches.is_watching(lit(2), 0));
    assert!(!watches.is_watching(lit(3), 0));
    assert!(watches.is_watching(lit(-1), 1));
    assert!(watches.is_watching(lit(-2), 1));
    assert_eq!(watches.total_watchers(), 4);
}

#[test]
fn test_watches_mut() {
    let mut watches = WatchLists::new(5);
    watches.add_watch(lit(1), 0, lit(2));
    let list = watches.watches_mut(lit(1));
    list[0].blocker = lit(5);
    assert_eq!(watches.watches(lit(1))[0].blocker, lit(5));
}

#[test]
fn remove_watch_keeps_other_clauses_in_order() {
    let mut watches = WatchLists::new(3);
    watches.add_watch(lit(-3), 4, lit(1));
    watches.add_watch(lit(-3), 7, lit(2));
    watches.add_watch(lit(-3), 9, lit(2));
    watches.remove_watch(lit(-3), 7);
    let clauses: Vec<usize> = watches.watches(lit(-3)).iter().map(|w| w.clause).collect();
    assert_eq!(clauses, vec![4, 9]);
    watches.remove_watch(lit(-3), 42);
    assert_eq!(watches.total_watchers(), 2);
}
