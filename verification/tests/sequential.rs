use unique_type_id::allocator::{gen_id, IdOutcome};
use unique_type_id::counter::SequentialCounter;
use unique_type_id::registry::file_string_to_tree;

/// The registry text the default types file holds.
fn types_file() -> String {
    "Test1=1\nTest2=2\nTest3=5\nTest4=0\nTest5=3\n".to_string()
}

/// The registry text of the alternate, hand-written types file.
fn types2_file() -> String {
    "Test1=115\nTest2=232\n".to_string()
}

/// Looks a name up in the registry text; a name the registry already
/// holds keeps its stable id, only an absent one draws from the counter.
fn sequential_id(contents: &str, counter: &mut SequentialCounter, name: &str) -> u64 {
    let map = file_string_to_tree(contents.to_string());
    match gen_id(&map, name, 0) {
        IdOutcome::Existing { id } => id,
        IdOutcome::Fresh { .. } => counter.next_id(),
    }
}

#[test]
fn sequential_simple() {
    let contents = types_file();
    let mut counter = SequentialCounter::new();
    assert_eq!(sequential_id(&contents, &mut counter, "Test1"), 1u64);
    assert_eq!(sequential_id(&contents, &mut counter, "Test2"), 2u64);
}

#[test]
fn sequential_simple_second() {
    let contents = types_file();
    let mut counter = SequentialCounter::new();
    assert_eq!(sequential_id(&contents, &mut counter, "Test1"), 1u64);
    assert_eq!(sequential_id(&contents, &mut counter, "Test2"), 2u64);
}

#[test]
fn sequential_different_file() {
    let contents = types2_file();
    let mut counter = SequentialCounter::new();
    assert_eq!(sequential_id(&contents, &mut counter, "Test1"), 115u64);
    assert_eq!(sequential_id(&contents, &mut counter, "Test2"), 232u64);
}

#[test]
fn sequential_counter_counts_calls() {
    let mut counter = SequentialCounter::new();
    assert_eq!(counter.count(), 0u64);
    for expected in 0u64..6u64 {
        assert_eq!(counter.next_id(), expected);
    }
    assert_eq!(counter.count(), 6u64);
}

#[test]
fn sequential_counters_are_independent() {
    let mut one = SequentialCounter::new();
    let mut two = SequentialCounter::new();
    assert_eq!(one.next_id(), 0u64);
    assert_eq!(one.next_id(), 1u64);
    assert_eq!(two.next_id(), 0u64);
    assert_eq!(one.next_id(), 2u64);
    assert_eq!(two.next_id(), 1u64);
}
