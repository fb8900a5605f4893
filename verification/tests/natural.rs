use abireport_rs::byte_order::in_byte_order;
use abireport_rs::capture::{AbiCapture, ElfKind};
use abireport_rs::natural::{compare_natural, sort_natural, Rank};

fn strings(names: &[&str]) -> Vec<String> {
    names.iter().map(|s| s.to_string()).collect()
}

#[test]
fn numeric_runs_compare_by_value() {
    assert_eq!(compare_natural("lib2.so", "lib10.so"), Rank::Before);
    assert_eq!(compare_natural("lib10.so", "lib2.so"), Rank::After);
    assert_eq!(compare_natural("lib10.so", "lib10.so"), Rank::Same);
    assert_eq!(compare_natural("item2", "item10"), Rank::Before);
    assert!("lib2.so" > "lib10.so");
}

#[test]
fn leading_zeros_do_not_count() {
    assert_eq!(compare_natural("lib01.so", "lib1.so"), Rank::Same);
    assert_eq!(compare_natural("file0002.txt", "file1B.txt"), Rank::After);
    assert_eq!(compare_natural("file0002.txt", "file11.txt"), Rank::Before);
}

#[test]
fn shorter_name_comes_first() {
    assert_eq!(compare_natural("lib", "lib1"), Rank::Before);
    assert_eq!(compare_natural("", "a"), Rank::Before);
    assert_eq!(compare_natural("", ""), Rank::Same);
}

#[test]
fn sort_natural_orders_digit_runs() {
    let sorted = sort_natural(strings(&["lib10.so", "lib2.so", "lib1.so"]));
    assert_eq!(sorted, strings(&["lib1.so", "lib2.so", "lib10.so"]));
}

#[test]
fn sort_natural_keeps_repeats_and_ties() {
    let sorted = sort_natural(strings(&["b", "a1", "a01", "b", "a001", "a"]));
    assert_eq!(sorted, strings(&["a", "a1", "a01", "a001", "b", "b"]));
    let sorted = sort_natural(strings(&[
        "file1.txt",
        "file1B.txt",
        "file00.txt",
        "file11.txt",
        "file0002.txt",
    ]));
    assert_eq!(
        sorted,
        strings(&["file00.txt", "file1.txt", "file1B.txt", "file0002.txt", "file11.txt"])
    );
    assert!(sort_natural(Vec::new()).is_empty());
}

#[test]
fn byte_order_is_plain_lexicographic_order() {
    assert!(in_byte_order("lib10.so", "lib2.so"));
    assert!(!in_byte_order("lib2.so", "lib10.so"));
    assert!(in_byte_order("lib01.so", "lib1.so"));
    assert!(!in_byte_order("lib1.so", "lib01.so"));
    assert!(in_byte_order("a", "a"));
    assert!(in_byte_order("", "a"));
    assert!(!in_byte_order("a", ""));
    assert!(in_byte_order("a", "ab"));
    assert!(!in_byte_order("ab", "a"));
    assert!(in_byte_order("z", "é"));
}

#[test]
fn new_capture_sorts_its_lists() {
    let capture = AbiCapture::new(
        ElfKind::Executable,
        "tool".to_string(),
        strings(&["sym10", "sym9"]),
        strings(&["main", "_start"]),
        strings(&["libz.so.10", "libc.so.6", "libz.so.9"]),
        Some("/opt/lib".to_string()),
        None,
        None,
    );
    assert_eq!(capture.kind(), ElfKind::Executable);
    assert_eq!(capture.filename(), "tool");
    assert_eq!(capture.imported_symbols(), &strings(&["sym9", "sym10"]));
    assert_eq!(capture.exported_symbols(), &strings(&["_start", "main"]));
    assert_eq!(capture.needed_deps(), &strings(&["libc.so.6", "libz.so.9", "libz.so.10"]));
    assert_eq!(capture.rpath(), &Some("/opt/lib".to_string()));
    assert_eq!(capture.runpath(), &None);
    assert_eq!(capture.soname(), &None);
    assert!(capture.optional_deps().is_empty());
    assert!(capture.manual_deps().is_empty());
    assert_eq!(capture.clone(), capture);
}
