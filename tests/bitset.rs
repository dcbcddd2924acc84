use rust_maze_solver::bitset::NodeBitset;

#[test]
fn test_node_bitset_basic() {
    let mut visited = NodeBitset::new();
    assert_eq!(visited.contains(10), false);
    visited.set(10);
    assert_eq!(visited.contains(10), true);
    visited.clear(10);
    assert_eq!(visited.contains(10), false);
}

#[test]
fn test_node_bitset_multiple() {
    let mut visited = NodeBitset::new();
    for i in 0..100 {
        visited.set(i);
    }
    assert_eq!(visited.count(), 100);

    for i in 0..100 {
        assert_eq!(visited.contains(i), true);
    }

    for i in 100..200 {
        assert_eq!(visited.contains(i), false);
    }
}

#[test]
fn bitset_set_twice_counts_once() {
    let mut b = NodeBitset::new();
    b.set(5);
    b.set(5);
    assert_eq!(b.count(), 1);
    b.clear(5);
    b.clear(5);
    assert_eq!(b.count(), 0);
    assert!(!b.contains(5));
}

#[test]
fn bitset_edges_of_range() {
    let mut b = NodeBitset::new();
    b.set(0);
    b.set(63);
    b.set(64);
    b.set(2047);
    assert_eq!(b.count(), 4);
    assert!(b.contains(0) && b.contains(63) && b.contains(64) && b.contains(2047));
    assert!(!b.contains(1) && !b.contains(62) && !b.contains(65) && !b.contains(2046));
    b.clear(63);
    assert!(!b.contains(63));
    assert!(b.contains(64));
    assert_eq!(b.count(), 3);
}
