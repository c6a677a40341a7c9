use mycelial_state::clock::VectorClock;

#[test]
fn test_vector_clock() {
    let mut clock1 = VectorClock::new();
    let mut clock2 = VectorClock::new();

    clock1.increment("peer1");
    clock1.increment("peer1");
    clock2.increment("peer2");

    assert_eq!(clock1.get("peer1"), 2);
    assert_eq!(clock1.get("peer2"), 0);

    assert!(clock1.is_concurrent(&clock2));

    clock1.merge(&clock2);
    assert_eq!(clock1.get("peer2"), 1);
}

#[test]
fn merge_is_commutative_on_values() {
    let mut a = VectorClock::new();
    let mut b = VectorClock::new();
    a.increment("p");
    a.increment("p");
    b.increment("p");
    b.increment("q");

    let mut ab = a.clone();
    ab.merge(&b);
    let mut ba = b.clone();
    ba.merge(&a);

    assert_eq!(ab.get("p"), 2);
    assert_eq!(ba.get("p"), 2);
    assert_eq!(ab.get("q"), 1);
    assert_eq!(ba.get("q"), 1);
    assert_eq!(ab.get("r"), 0);
    assert_eq!(ba.get("r"), 0);
}

#[test]
fn merge_is_idempotent_on_values() {
    let mut a = VectorClock::new();
    a.increment("p");
    a.increment("q");
    let snapshot = a.clone();
    a.merge(&snapshot);
    assert_eq!(a.get("p"), 1);
    assert_eq!(a.get("q"), 1);
}

#[test]
fn merge_takes_elementwise_max() {
    let mut a = VectorClock::new();
    let mut b = VectorClock::new();
    a.increment("x");
    a.increment("x");
    a.increment("y");
    b.increment("x");
    b.increment("z");
    a.merge(&b);
    assert_eq!(a.get("x"), 2);
    assert_eq!(a.get("y"), 1);
    assert_eq!(a.get("z"), 1);
}

#[test]
fn happens_before_orders_causal_histories() {
    let mut a = VectorClock::new();
    a.increment("p");
    let mut b = a.clone();
    b.increment("p");
    assert!(a.happens_before(&b));
    assert!(!b.happens_before(&a));
    assert!(!a.is_concurrent(&b));
    // A clock never happens before itself.
    let c = a.clone();
    assert!(!a.happens_before(&c));
}
