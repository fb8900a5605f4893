use abireport_rs::capture::{AbiCapture, ElfKind};
use abireport_rs::report::{AbiReport, AggregationError};

fn strings(names: &[&str]) -> Vec<String> {
    names.iter().map(|s| s.to_string()).collect()
}

fn library(filename: &str, soname: Option<&str>, exported: &[&str], needed: &[&str]) -> AbiCapture {
    AbiCapture::new(
        ElfKind::SharedObject,
        filename.to_string(),
        strings(&["malloc"]),
        strings(exported),
        strings(needed),
        None,
        None,
        soname.map(|s| s.to_string()),
    )
}

fn build(captures: Vec<AbiCapture>) -> AbiReport {
    match AbiReport::build(captures) {
        Ok(report) => report,
        Err(e) => panic!("the batch makes a report: {:?}", e),
    }
}

fn rejection(captures: Vec<AbiCapture>) -> AggregationError {
    match AbiReport::build(captures) {
        Ok(_) => panic!("the batch makes no report"),
        Err(e) => e,
    }
}

fn filenames(report: &AbiReport) -> Vec<String> {
    report.captures().iter().map(|c| c.filename().clone()).collect()
}

fn a() -> AbiCapture {
    library("lib10.so", Some("libten.so.1"), &["ten", "shared"], &["libtwo.so.1"])
}

fn b() -> AbiCapture {
    library("lib2.so", Some("libtwo.so.1"), &["two", "shared"], &[])
}

fn c() -> AbiCapture {
    library("app", None, &["main"], &["libten.so.1"])
}

#[test]
fn captures_are_indexed_in_natural_order() {
    let report = build(vec![a(), b(), c()]);
    assert_eq!(report.len(), 3);
    assert_eq!(filenames(&report), strings(&["app", "lib2.so", "lib10.so"]));
    assert_eq!(report.index_of("app"), Some(0));
    assert_eq!(report.index_of("lib2.so"), Some(1));
    assert_eq!(report.index_of("lib10.so"), Some(2));
    assert_eq!(report.index_of("lib3.so"), None);
}

#[test]
fn order_of_the_batch_does_not_show() {
    let first = build(vec![a(), b(), c()]);
    let second = build(vec![c(), a(), b()]);
    assert_eq!(first.captures(), second.captures());
    for name in ["app", "lib2.so", "lib10.so", "none"] {
        assert_eq!(first.index_of(name), second.index_of(name));
        assert_eq!(first.soname_of_filename(name), second.soname_of_filename(name));
        assert_eq!(first.symbols_of_file(name), second.symbols_of_file(name));
    }
    for symbol in ["ten", "two", "shared", "main", "malloc"] {
        assert_eq!(first.files_with_symbol(symbol), second.files_with_symbol(symbol));
    }
    for soname in ["libten.so.1", "libtwo.so.1", "libc.so.6"] {
        assert_eq!(first.filename_of_soname(soname), second.filename_of_soname(soname));
    }
}

#[test]
fn names_that_tie_in_natural_order_have_a_fixed_order() {
    let tied = |name: &str| library(name, None, &[], &[]);
    let first = build(vec![tied("lib1.so"), tied("lib01.so"), tied("lib001.so"), tied("lib0.so")]);
    let second = build(vec![tied("lib001.so"), tied("lib0.so"), tied("lib01.so"), tied("lib1.so")]);
    let expected = strings(&["lib0.so", "lib001.so", "lib01.so", "lib1.so"]);
    assert_eq!(filenames(&first), expected);
    assert_eq!(filenames(&second), expected);
}

#[test]
fn empty_batch_makes_an_empty_report() {
    let report = build(Vec::new());
    assert_eq!(report.len(), 0);
    assert!(report.files_with_symbol("foo").is_empty());
    assert_eq!(report.index_of("foo"), None);
    assert_eq!(report.filename_of_soname("foo"), None);
    assert_eq!(report.soname_of_filename("foo"), None);
    assert_eq!(report.symbols_of_file("foo"), None);
    assert_eq!(AbiReport::new().len(), 0);
}

#[test]
fn queries_answer_from_the_captures() {
    let report = build(vec![a(), b(), c()]);
    assert_eq!(report.files_with_symbol("shared"), strings(&["lib2.so", "lib10.so"]));
    assert_eq!(report.files_with_symbol("ten"), strings(&["lib10.so"]));
    assert_eq!(report.files_with_symbol("main"), strings(&["app"]));
    assert!(report.files_with_symbol("malloc").is_empty());
    assert!(report.files_with_symbol("").is_empty());
    assert_eq!(report.filename_of_soname("libten.so.1"), Some(&"lib10.so".to_string()));
    assert_eq!(report.filename_of_soname("lib10.so"), None);
    assert_eq!(report.soname_of_filename("lib2.so"), Some(&"libtwo.so.1".to_string()));
    assert_eq!(report.soname_of_filename("app"), None);
    assert_eq!(report.soname_of_filename("libtwo.so.1"), None);
    assert_eq!(
        report.symbols_of_file("lib10.so"),
        Some((&strings(&["malloc"]), &strings(&["shared", "ten"])))
    );
    assert_eq!(report.symbols_of_file("missing"), None);
}

#[test]
fn symbol_exported_twice_by_one_file_lists_the_file_once() {
    let twice = library("libdup.so", None, &["f", "g", "f"], &[]);
    assert_eq!(twice.exported_symbols(), &strings(&["f", "f", "g"]));
    let report = build(vec![twice, library("libother.so", None, &["f"], &[])]);
    assert_eq!(report.files_with_symbol("f"), strings(&["libdup.so", "libother.so"]));
    assert_eq!(report.files_with_symbol("g"), strings(&["libdup.so"]));
}

#[test]
fn duplicate_filename_is_rejected() {
    let first = library("libfoo.so", None, &["x"], &[]);
    let second = library("libfoo.so", Some("libfoo.so.1"), &["y"], &[]);
    assert_eq!(
        rejection(vec![first, second]),
        AggregationError::DuplicateFilename("libfoo.so".to_string())
    );
    assert_eq!(
        rejection(vec![a(), library("libfoo.so", None, &[], &[]), b(), a(), b()]),
        AggregationError::DuplicateFilename("lib10.so".to_string())
    );
}

#[test]
fn duplicate_filename_leaves_the_report_unchanged() {
    let mut report = build(vec![library("libfoo.so", Some("libfoo.so.1"), &["x"], &[])]);
    let again = library("libfoo.so", Some("libother.so.1"), &["y"], &[]);
    assert_eq!(
        report.add(again),
        Err(AggregationError::DuplicateFilename("libfoo.so".to_string()))
    );
    assert_eq!(report.len(), 1);
    assert_eq!(report.files_with_symbol("x"), strings(&["libfoo.so"]));
    assert!(report.files_with_symbol("y").is_empty());
    assert_eq!(report.soname_of_filename("libfoo.so"), Some(&"libfoo.so.1".to_string()));
    assert_eq!(report.filename_of_soname("libother.so.1"), None);
    assert_eq!(report.index_of("libfoo.so"), Some(0));
}

#[test]
fn soname_conflict_names_both_files() {
    let a = || library("libfoo.so.1", Some("libfoo.so.1"), &[], &[]);
    let b = || library("libfoo-compat.so", Some("libfoo.so.1"), &[], &[]);
    let expected = AggregationError::ConflictingSoname {
        soname: "libfoo.so.1".to_string(),
        first: "libfoo-compat.so".to_string(),
        second: "libfoo.so.1".to_string(),
    };
    assert_eq!(rejection(vec![a(), b()]), expected);
    assert_eq!(rejection(vec![b(), a()]), expected);

    let mut report = build(vec![a()]);
    assert_eq!(
        report.add(b()),
        Err(AggregationError::ConflictingSoname {
            soname: "libfoo.so.1".to_string(),
            first: "libfoo.so.1".to_string(),
            second: "libfoo-compat.so".to_string(),
        })
    );
    assert_eq!(report.len(), 1);
    assert_eq!(report.filename_of_soname("libfoo.so.1"), Some(&"libfoo.so.1".to_string()));
    assert_eq!(report.index_of("libfoo-compat.so"), None);
}

#[test]
fn duplicate_filename_is_reported_before_a_soname_conflict() {
    let batch = vec![
        library("liba.so", Some("libx.so.1"), &[], &[]),
        library("libb.so", Some("libx.so.1"), &[], &[]),
        library("liba.so", None, &[], &[]),
    ];
    assert_eq!(rejection(batch), AggregationError::DuplicateFilename("liba.so".to_string()));
}

#[test]
fn captures_without_soname_do_not_conflict() {
    let report = build(vec![library("x", None, &[], &[]), library("y", None, &[], &[])]);
    assert_eq!(report.len(), 2);
}

#[test]
fn add_gives_the_report_of_a_rebuild() {
    let mut report = AbiReport::new();
    assert_eq!(report.add(a()), Ok(0));
    assert_eq!(report.add(b()), Ok(0));
    assert_eq!(report.index_of("lib10.so"), Some(1));
    assert_eq!(report.add(c()), Ok(0));
    assert_eq!(report.add(library("lib3.so", None, &["shared"], &[])), Ok(2));

    let rebuilt = build(vec![a(), b(), c(), library("lib3.so", None, &["shared"], &[])]);
    assert_eq!(report.captures(), rebuilt.captures());
    assert_eq!(filenames(&report), strings(&["app", "lib2.so", "lib3.so", "lib10.so"]));
    assert_eq!(report.files_with_symbol("shared"), rebuilt.files_with_symbol("shared"));
    assert_eq!(report.files_with_symbol("shared"), strings(&["lib2.so", "lib3.so", "lib10.so"]));
    assert_eq!(report.filename_of_soname("libten.so.1"), Some(&"lib10.so".to_string()));
    assert_eq!(report.index_of("lib10.so"), Some(3));
}
