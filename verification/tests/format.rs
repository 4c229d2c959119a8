use unique_type_id::narrow::{narrow_id, IdWidth, NarrowingFailure};
use unique_type_id::registry::{file_string_to_tree, pair_from_line, render_pair_line};

#[test]
fn line_with_name_and_number_parses() {
    assert_eq!(pair_from_line("Foo=7"), Some(("Foo".to_string(), 7u64)));
    assert_eq!(pair_from_line("=5"), Some(("".to_string(), 5u64)));
    assert_eq!(pair_from_line("x=+9"), Some(("x".to_string(), 9u64)));
    assert_eq!(pair_from_line("x=007"), Some(("x".to_string(), 7u64)));
    assert_eq!(
        pair_from_line("x=18446744073709551615"),
        Some(("x".to_string(), u64::MAX))
    );
}

#[test]
fn value_is_read_up_to_a_second_separator() {
    assert_eq!(pair_from_line("a=1=2"), Some(("a".to_string(), 1u64)));
    assert_eq!(pair_from_line("a=1=junk"), Some(("a".to_string(), 1u64)));
}

#[test]
fn malformed_lines_have_no_record() {
    assert_eq!(pair_from_line(""), None);
    assert_eq!(pair_from_line("no separator"), None);
    assert_eq!(pair_from_line("x="), None);
    assert_eq!(pair_from_line("x=abc"), None);
    assert_eq!(pair_from_line("x=-1"), None);
    assert_eq!(pair_from_line("x= 7"), None);
    assert_eq!(pair_from_line("x=7 "), None);
    assert_eq!(pair_from_line("x=18446744073709551616"), None);
}

#[test]
fn value_parsing_matches_the_standard_library() {
    let samples = [
        "0",
        "7",
        "007",
        "+9",
        "+",
        "",
        " 7",
        "7 ",
        "-1",
        "1_0",
        "0x10",
        "12e3",
        "１２３",
        "18446744073709551615",
        "+18446744073709551615",
        "18446744073709551616",
        "99999999999999999999999999",
    ];
    for s in samples {
        let parsed = pair_from_line(&format!("k={}", s)).map(|p| p.1);
        assert_eq!(parsed, s.parse::<u64>().ok());
    }
}

#[test]
fn names_may_hold_any_non_separator_text() {
    assert_eq!(
        pair_from_line("some name=3"),
        Some(("some name".to_string(), 3u64))
    );
    assert_eq!(
        pair_from_line("Ünïcödé=44"),
        Some(("Ünïcödé".to_string(), 44u64))
    );
}

#[test]
fn loading_skips_malformed_lines() {
    let text = "good=1\nbroken\nalso=bad\n\nlast=4\n".to_string();
    let map = file_string_to_tree(text);
    assert_eq!(map.len(), 2);
    assert_eq!(map.get("good"), Some(1u64));
    assert_eq!(map.get("last"), Some(4u64));
    assert_eq!(map.get("broken"), None);
}

#[test]
fn loading_splits_on_both_break_characters() {
    let map = file_string_to_tree("a=1\r\nb=2\rc=3\nd=4".to_string());
    assert_eq!(map.len(), 4);
    assert_eq!(map.get("a"), Some(1u64));
    assert_eq!(map.get("b"), Some(2u64));
    assert_eq!(map.get("c"), Some(3u64));
    assert_eq!(map.get("d"), Some(4u64));
}

#[test]
fn later_duplicate_line_wins() {
    let map = file_string_to_tree("A=1\nB=7\nA=2\n".to_string());
    assert_eq!(map.len(), 2);
    assert_eq!(map.get("A"), Some(2u64));
    assert_eq!(map.get("B"), Some(7u64));
}

#[test]
fn empty_text_is_an_empty_mapping() {
    let map = file_string_to_tree(String::new());
    assert_eq!(map.len(), 0);
    assert_eq!(map.get("anything"), None);
}

#[test]
fn rendered_record_is_one_line() {
    assert_eq!(render_pair_line("Foo", 7), "Foo=7\n");
    assert_eq!(render_pair_line("", 0), "=0\n");
    assert_eq!(
        render_pair_line("x", u64::MAX),
        "x=18446744073709551615\n"
    );
}

#[test]
fn appended_record_loads_back() {
    let mut contents = String::new();
    contents.push_str(&render_pair_line("Foo", 7));
    let map = file_string_to_tree(contents.clone());
    assert_eq!(map.get("Foo"), Some(7u64));

    contents.push_str(&render_pair_line("Bar", 0));
    let map = file_string_to_tree(contents.clone());
    assert_eq!(map.len(), 2);
    assert_eq!(map.get("Foo"), Some(7u64));
    assert_eq!(map.get("Bar"), Some(0u64));
}

#[test]
fn narrowing_accepts_what_fits() {
    assert_eq!(narrow_id(255, IdWidth::U8), Ok(255u64));
    assert_eq!(narrow_id(65535, IdWidth::U16), Ok(65535u64));
    assert_eq!(narrow_id(4294967295, IdWidth::U32), Ok(4294967295u64));
    assert_eq!(narrow_id(u64::MAX, IdWidth::U64), Ok(u64::MAX));
    assert_eq!(narrow_id(127, IdWidth::I8), Ok(127u64));
    assert_eq!(narrow_id(32767, IdWidth::I16), Ok(32767u64));
    assert_eq!(narrow_id(2147483647, IdWidth::I32), Ok(2147483647u64));
    assert_eq!(narrow_id(9223372036854775807, IdWidth::I64), Ok(9223372036854775807u64));
}

#[test]
fn narrowing_reports_what_does_not_fit() {
    for (id, target_type) in [
        (256u64, IdWidth::U8),
        (65536u64, IdWidth::U16),
        (4294967296u64, IdWidth::U32),
        (128u64, IdWidth::I8),
        (32768u64, IdWidth::I16),
        (2147483648u64, IdWidth::I32),
        (9223372036854775808u64, IdWidth::I64),
    ] {
        assert_eq!(
            narrow_id(id, target_type),
            Err(NarrowingFailure { id, target_type })
        );
    }
}
