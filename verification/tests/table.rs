use lbucket::pocket::Pocket;
use lbucket::pocket::PocketRegistry;
use lbucket::table::CountTable;

#[test]
fn table_counts_per_key() {
    let mut t = CountTable::new();
    assert_eq!(t.get("a"), None);
    t.increment("a");
    t.increment("a");
    t.increment("b");
    assert_eq!(t.get("a"), Some(2));
    assert_eq!(t.get("b"), Some(1));
    assert_eq!(t.len(), 2);
}

#[test]
fn table_decrement_clamps_and_drops() {
    let mut t = CountTable::new();
    t.increment("a");
    t.decrement("a", 5);
    assert_eq!(t.get("a"), Some(0));
    t.decrement("absent", 3);
    assert_eq!(t.get("absent"), None);
    t.remove("a");
    assert_eq!(t.get("a"), None);
    t.remove("a");
    assert_eq!(t.len(), 0);
}

#[test]
fn table_increment_saturates() {
    let mut t = CountTable::new();
    t.increment("a");
    for _ in 0..3 {
        t.decrement("a", 0);
    }
    assert_eq!(t.get("a"), Some(1));
}

#[test]
fn pocket_accumulates_decrements() {
    let mut p = Pocket::new(777);
    assert_eq!(p.pocket_instant, 777);
    p.increment("x");
    p.increment("x");
    p.increment("y");
    assert_eq!(p.decrement.get("x"), Some(2));
    assert_eq!(p.decrement.get("y"), Some(1));
}

#[test]
fn registry_keeps_one_pocket_per_instant() {
    let mut r = PocketRegistry::new();
    assert!(r.register_decrement(100, "a"));
    assert!(!r.register_decrement(100, "a"));
    assert!(!r.register_decrement(100, "b"));
    assert!(r.register_decrement(101, "a"));
    assert_eq!(r.len(), 2);

    let p = r.take(100).expect("instant 100 has a live pocket");
    assert_eq!(p.pocket_instant, 100);
    assert_eq!(p.decrement.get("a"), Some(2));
    assert_eq!(p.decrement.get("b"), Some(1));
    assert_eq!(r.len(), 1);
    assert!(r.take(100).is_none());
}
