use hyperion::fs::{dir_entry_ok_exec, parse_dir_entry};

#[test]
fn entries_of_a_listing() {
    let e = parse_dir_entry("file.txt 42 f\n").unwrap();
    assert_eq!((e.file_name.as_str(), e.size, e.is_dir), ("file.txt", 42, false));
    let e = parse_dir_entry("  bin 0 d").unwrap();
    assert_eq!((e.file_name.as_str(), e.size, e.is_dir), ("bin", 0, true));
    // white space of any kind is trimmed at both ends
    let e = parse_dir_entry("\u{3000}n +7 d\u{a0}").unwrap();
    assert_eq!((e.file_name.as_str(), e.size, e.is_dir), ("n", 7, true));
    // everything after the second space is the kind
    let e = parse_dir_entry("a 1 d d").unwrap();
    assert!(!e.is_dir);
}

#[test]
fn lines_without_three_fields() {
    assert!(parse_dir_entry("").is_none());
    assert!(parse_dir_entry("name 12").is_none());
    assert!(parse_dir_entry("   ").is_none());
}

#[test]
fn sizes_that_do_not_read_as_numbers() {
    assert!(dir_entry_ok_exec("a 1 d"));
    assert!(dir_entry_ok_exec("a b"));
    assert!(!dir_entry_ok_exec("a b c"));
    assert!(!dir_entry_ok_exec("a  b c"));
    assert!(!dir_entry_ok_exec("a + c"));
    assert!(!dir_entry_ok_exec("a -1 c"));
    assert!(!dir_entry_ok_exec("a 99999999999999999999999 f"));
    assert!(dir_entry_ok_exec("a 18446744073709551615 f"));
}
