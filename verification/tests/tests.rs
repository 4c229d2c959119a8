use unique_type_id::allocator::{gen_id, IdOutcome};
use unique_type_id::narrow::{narrow_id, IdWidth};
use unique_type_id::registry::{file_string_to_tree, render_pair_line, Registry};
use unique_type_id::TypeId;

/// The registry text the default types file holds.
fn types_file() -> String {
    "Test1=1\nTest2=2\nTest3=5\nTest4=0\nTest5=3\n".to_string()
}

/// The registry text of the alternate, hand-written types file.
fn types2_file() -> String {
    "Test1=115\nTest2=232\n".to_string()
}

/// Looks a name up in the registry text, appending a fresh record to the
/// text when the name is new, as one locked allocation does.
fn allocate(contents: &mut String, name: &str, start: u64) -> u64 {
    let map = file_string_to_tree(contents.clone());
    assert!(start <= u64::MAX - map.len() as u64);
    match gen_id(&map, name, start) {
        IdOutcome::Existing { id } => id,
        IdOutcome::Fresh { id } => {
            contents.push_str(&render_pair_line(name, id));
            id
        }
    }
}

#[test]
fn check_simple() {
    let mut contents = types_file();
    assert_eq!(allocate(&mut contents, "Test1", 0), 1u64);
    assert_eq!(allocate(&mut contents, "Test2", 0), 2u64);
}

#[test]
fn check_simple_custom_type() {
    let mut contents = types_file();
    let id1 = allocate(&mut contents, "Test1", 0);
    let id2 = allocate(&mut contents, "Test2", 0);
    assert_eq!(narrow_id(id1, IdWidth::I16), Ok(1u64));
    assert_eq!(narrow_id(id2, IdWidth::I16), Ok(2u64));
    assert_eq!(id1 as i16, 1i16);
    assert_eq!(id2 as i16, 2i16);
}

#[test]
fn check_simple_second() {
    let mut contents = types_file();
    assert_eq!(allocate(&mut contents, "Test1", 0), 1u64);
    assert_eq!(allocate(&mut contents, "Test2", 0), 2u64);
    assert_eq!(allocate(&mut contents, "Test3", 0), 5u64);
    assert_eq!(allocate(&mut contents, "Test4", 0), 0u64);
    assert_eq!(allocate(&mut contents, "Test5", 0), 3u64);

    // a second lookup returns the same id as the first
    assert_eq!(TypeId(allocate(&mut contents, "Test1", 0)), TypeId(1u64));
    assert_eq!(TypeId(allocate(&mut contents, "Test2", 0)), TypeId(2u64));
    assert_eq!(TypeId(allocate(&mut contents, "Test3", 0)), TypeId(5u64));
    assert_eq!(TypeId(allocate(&mut contents, "Test4", 0)), TypeId(0u64));
    assert_eq!(TypeId(allocate(&mut contents, "Test5", 0)), TypeId(3u64));
}

#[test]
fn check_different_file() {
    let mut contents = types2_file();
    assert_eq!(allocate(&mut contents, "Test1", 0), 115u64);
    assert_eq!(allocate(&mut contents, "Test2", 0), 232u64);
    assert_eq!(allocate(&mut contents, "Test3", 0), 0u64);
    assert_eq!(allocate(&mut contents, "Test4", 0), 1u64);
}

#[test]
fn check_simple_empty_file() {
    let mut contents = String::new();
    let unique_ids = [
        allocate(&mut contents, "Test1", 0),
        allocate(&mut contents, "Test2", 0),
    ];
    assert!(unique_ids.contains(&0u64));
    assert!(unique_ids.contains(&1u64));
    assert_ne!(unique_ids[0], unique_ids[1]);
}

#[test]
fn check_empty_file_custom_start() {
    let mut contents = String::new();
    let unique_ids = [
        allocate(&mut contents, "Test1", 23),
        allocate(&mut contents, "Test2", 23),
    ];
    assert!(unique_ids.contains(&23u64));
    assert!(unique_ids.contains(&24u64));
    assert_ne!(unique_ids[0], unique_ids[1]);
}

#[test]
fn lookup_hit_appends_nothing() {
    let mut contents = types_file();
    let before = contents.len();
    assert_eq!(allocate(&mut contents, "Test1", 0), 1u64);
    assert_eq!(allocate(&mut contents, "Test1", 0), 1u64);
    assert_eq!(contents.len(), before);
    let map = file_string_to_tree(contents);
    assert!(matches!(
        gen_id(&map, "Test1", 0),
        IdOutcome::Existing { id: 1 }
    ));
}

#[test]
fn gap_filling_takes_first_free_slot() {
    let mut contents = "a=0\nb=1\nc=3\n".to_string();
    assert_eq!(allocate(&mut contents, "fresh", 0), 2u64);
    assert_eq!(allocate(&mut contents, "later", 0), 4u64);
}

#[test]
fn start_offset_skips_lower_gaps() {
    let mut contents = "a=5\n".to_string();
    assert_eq!(allocate(&mut contents, "b", 3), 3u64);
    let mut contents2 = "a=3\nb=4\n".to_string();
    assert_eq!(allocate(&mut contents2, "c", 3), 5u64);
}

#[test]
fn cross_registry_independence() {
    let mut reg_a = String::new();
    let mut reg_b = String::new();
    assert_eq!(allocate(&mut reg_a, "Foo", 0), 0u64);
    assert_eq!(allocate(&mut reg_a, "Bar", 0), 1u64);
    assert_eq!(allocate(&mut reg_a, "Baz", 0), 2u64);
    // the same names against an untouched registry start over
    assert_eq!(allocate(&mut reg_b, "Foo", 0), 0u64);
    assert_eq!(allocate(&mut reg_b, "Bar", 0), 1u64);
    // and the first registry still answers from its own records alone
    assert_eq!(allocate(&mut reg_a, "Foo", 0), 0u64);
}

#[test]
fn serialized_allocations_stay_distinct() {
    let mut contents = String::new();
    let names = ["N0", "N1", "N2", "N3", "N4", "N5", "N6", "N7"];
    let mut ids = Vec::new();
    for name in names.iter() {
        ids.push(allocate(&mut contents, name, 0));
    }
    for i in 0..ids.len() {
        for j in 0..ids.len() {
            if i != j {
                assert_ne!(ids[i], ids[j]);
            }
        }
    }
    let map = file_string_to_tree(contents);
    assert_eq!(map.len(), names.len());
}

#[test]
fn registry_insert_overwrites() {
    let mut map = Registry::new();
    assert_eq!(map.len(), 0);
    map.insert("A".to_string(), 1);
    map.insert("B".to_string(), 2);
    assert_eq!(map.len(), 2);
    map.insert("A".to_string(), 9);
    assert_eq!(map.len(), 2);
    assert_eq!(map.get("A"), Some(9u64));
    assert_eq!(map.get("B"), Some(2u64));
    assert_eq!(map.get("C"), None);
    assert!(map.contains_id(9));
    assert!(!map.contains_id(1));
}

#[test]
fn type_id_is_a_plain_value() {
    assert_eq!(TypeId(7), TypeId(7));
    assert_ne!(TypeId(7), TypeId(8));
    assert_eq!(TypeId(7).0, 7u64);
}
