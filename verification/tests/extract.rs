use abireport_rs::capture::{AbiCapture, CaptureError, ElfKind};
use abireport_rs::extract::{
    assemble_capture, capture_from_tables, classify_symbols, find_dynamic_link, load_tables, elf_kind, parse_dynamic_section, parse_dynsyms_section,
    parse_elf, parse_elf_or_static, resolve_dynamic, resolve_symbols, DynString, DynSymbol,
    SymbolClass, DT_NEEDED, DT_RPATH, DT_RUNPATH, DT_SONAME,
};
use abireport_rs::report::AbiReport;
use abireport_rs::tables::{ElfTables, RawDyn, RawSymbol, SectionLink};
use elf::string_table::StringTable;

const ET_REL: u16 = 1;
const ET_EXEC: u16 = 2;
const ET_DYN: u16 = 3;
const SHT_PROGBITS: u32 = 1;
const SHT_STRTAB: u32 = 3;
const SHT_DYNAMIC: u32 = 6;
const SHT_DYNSYM: u32 = 11;

/// A little-endian ELF64 symbol table entry.
fn symbol_bytes(name: u32, other: u8, shndx: u16) -> Vec<u8> {
    let mut out = Vec::new();
    out.extend_from_slice(&name.to_le_bytes());
    out.push(0x12);
    out.push(other);
    out.extend_from_slice(&shndx.to_le_bytes());
    out.extend_from_slice(&0u64.to_le_bytes());
    out.extend_from_slice(&0u64.to_le_bytes());
    out
}

/// A little-endian ELF64 dynamic section entry.
fn dyn_bytes(tag: i64, value: u64) -> Vec<u8> {
    let mut out = Vec::new();
    out.extend_from_slice(&tag.to_le_bytes());
    out.extend_from_slice(&value.to_le_bytes());
    out
}

/// A little-endian ELF64 section header.
fn section_header(kind: u32, offset: u64, size: u64, link: u32, entsize: u64) -> Vec<u8> {
    let mut out = Vec::new();
    out.extend_from_slice(&0u32.to_le_bytes());
    out.extend_from_slice(&kind.to_le_bytes());
    out.extend_from_slice(&0u64.to_le_bytes());
    out.extend_from_slice(&0u64.to_le_bytes());
    out.extend_from_slice(&offset.to_le_bytes());
    out.extend_from_slice(&size.to_le_bytes());
    out.extend_from_slice(&link.to_le_bytes());
    out.extend_from_slice(&0u32.to_le_bytes());
    out.extend_from_slice(&1u64.to_le_bytes());
    out.extend_from_slice(&entsize.to_le_bytes());
    out
}

/// The file header of a little-endian ELF64 image whose section headers start
/// at `shoff`.
fn file_header(file_type: u16, shoff: u64, shnum: u16) -> Vec<u8> {
    let mut out = vec![0x7f, b'E', b'L', b'F', 2, 1, 1, 0, 0, 0, 0, 0, 0, 0, 0, 0];
    out.extend_from_slice(&file_type.to_le_bytes());
    out.extend_from_slice(&62u16.to_le_bytes());
    out.extend_from_slice(&1u32.to_le_bytes());
    out.extend_from_slice(&0u64.to_le_bytes());
    out.extend_from_slice(&0u64.to_le_bytes());
    out.extend_from_slice(&shoff.to_le_bytes());
    out.extend_from_slice(&0u32.to_le_bytes());
    out.extend_from_slice(&64u16.to_le_bytes());
    out.extend_from_slice(&0u16.to_le_bytes());
    out.extend_from_slice(&0u16.to_le_bytes());
    out.extend_from_slice(&64u16.to_le_bytes());
    out.extend_from_slice(&shnum.to_le_bytes());
    out.extend_from_slice(&0u16.to_le_bytes());
    out
}

/// An image with a dynamic symbol table and a dynamic section. The symbol
/// table refers to section 2, which holds `strings`; the dynamic section
/// refers to section `dynamic_link`. Section 4 holds `other_strings`, and
/// section 5 holds no string table.
fn linked_image(
    file_type: u16,
    strings: &[u8],
    other_strings: &[u8],
    dynamic_link: u32,
    symbols: &[Vec<u8>],
    entries: &[Vec<u8>],
) -> Vec<u8> {
    let symtab: Vec<u8> = symbols.concat();
    let dynamic: Vec<u8> = entries.concat();
    let str_off = 64u64;
    let other_off = str_off + strings.len() as u64;
    let sym_off = other_off + other_strings.len() as u64;
    let dyn_off = sym_off + symtab.len() as u64;
    let shoff = dyn_off + dynamic.len() as u64;
    let mut out = file_header(file_type, shoff, 6);
    out.extend_from_slice(strings);
    out.extend_from_slice(other_strings);
    out.extend_from_slice(&symtab);
    out.extend_from_slice(&dynamic);
    out.extend_from_slice(&section_header(0, 0, 0, 0, 0));
    out.extend_from_slice(&section_header(SHT_DYNSYM, sym_off, symtab.len() as u64, 2, 24));
    out.extend_from_slice(&section_header(SHT_STRTAB, str_off, strings.len() as u64, 0, 0));
    out.extend_from_slice(&section_header(
        SHT_DYNAMIC,
        dyn_off,
        dynamic.len() as u64,
        dynamic_link,
        16,
    ));
    out.extend_from_slice(&section_header(SHT_STRTAB, other_off, other_strings.len() as u64, 0, 0));
    out.extend_from_slice(&section_header(SHT_PROGBITS, str_off, strings.len() as u64, 0, 0));
    out
}

/// An image whose dynamic symbol table and dynamic section refer to one
/// string table.
fn dynamic_image(file_type: u16, strings: &[u8], symbols: &[Vec<u8>], entries: &[Vec<u8>]) -> Vec<u8> {
    linked_image(file_type, strings, b"\0", 2, symbols, entries)
}

/// An image with a dynamic symbol table and no dynamic section.
fn symbols_only_image(strings: &[u8], symbols: &[Vec<u8>]) -> Vec<u8> {
    let symtab: Vec<u8> = symbols.concat();
    let sym_off = 64 + strings.len() as u64;
    let mut out = file_header(ET_DYN, sym_off + symtab.len() as u64, 3);
    out.extend_from_slice(strings);
    out.extend_from_slice(&symtab);
    out.extend_from_slice(&section_header(0, 0, 0, 0, 0));
    out.extend_from_slice(&section_header(SHT_DYNSYM, sym_off, symtab.len() as u64, 2, 24));
    out.extend_from_slice(&section_header(SHT_STRTAB, 64, strings.len() as u64, 0, 0));
    out
}

/// An image with section headers and no dynamic data.
fn static_image(file_type: u16) -> Vec<u8> {
    let strings = b"\0.text\0";
    let mut out = file_header(file_type, 64 + strings.len() as u64, 2);
    out.extend_from_slice(strings);
    out.extend_from_slice(&section_header(0, 0, 0, 0, 0));
    out.extend_from_slice(&section_header(SHT_STRTAB, 64, strings.len() as u64, 0, 0));
    out
}

// offsets:          0 1    5    9       16        26                42    48
const STRINGS: &[u8] = b"\0foo\0bar\0malloc\0libc.so.6\0libexample.so.1\0/opt\0secret\0";

fn example_image() -> Vec<u8> {
    dynamic_image(
        ET_DYN,
        STRINGS,
        &[
            symbol_bytes(1, 0, 7),
            symbol_bytes(9, 0, 0),
            symbol_bytes(5, 0, 7),
            symbol_bytes(48, 2, 7),
        ],
        &[dyn_bytes(DT_NEEDED, 16), dyn_bytes(DT_SONAME, 26), dyn_bytes(0, 0)],
    )
}

fn strings(names: &[&str]) -> Vec<String> {
    names.iter().map(|s| s.to_string()).collect()
}

#[test]
fn end_to_end_shared_object() {
    let capture = parse_elf("libexample.so.1.0", &example_image()).unwrap();
    assert_eq!(capture.kind(), ElfKind::SharedObject);
    assert_eq!(capture.filename(), "libexample.so.1.0");
    assert_eq!(capture.exported_symbols(), &strings(&["bar", "foo"]));
    assert_eq!(capture.imported_symbols(), &strings(&["malloc"]));
    assert_eq!(capture.needed_deps(), &strings(&["libc.so.6"]));
    assert_eq!(capture.soname(), &Some("libexample.so.1".to_string()));
    assert_eq!(capture.rpath(), &None);
    assert_eq!(capture.runpath(), &None);
    assert!(capture.optional_deps().is_empty());
    assert!(capture.manual_deps().is_empty());

    let report = match AbiReport::build(vec![capture]) {
        Ok(report) => report,
        Err(e) => panic!("a single capture makes a report: {:?}", e),
    };
    assert_eq!(report.files_with_symbol("foo"), strings(&["libexample.so.1.0"]));
    assert_eq!(
        report.filename_of_soname("libexample.so.1"),
        Some(&"libexample.so.1.0".to_string())
    );
    assert_eq!(
        report.soname_of_filename("libexample.so.1.0"),
        Some(&"libexample.so.1".to_string())
    );
    assert!(report.files_with_symbol("secret").is_empty());
    assert!(report.files_with_symbol("malloc").is_empty());
}

#[test]
fn extraction_is_repeatable() {
    let image = example_image();
    let first = parse_elf("libexample.so", &image);
    let second = parse_elf("libexample.so", &image);
    assert!(first.is_ok());
    assert_eq!(first, second);
    let bad = vec![1u8, 2, 3];
    assert_eq!(parse_elf("x", &bad), parse_elf("x", &bad));
}

#[test]
fn bytes_that_are_no_elf_image_are_malformed() {
    assert_eq!(parse_elf("empty", &[]), Err(CaptureError::MalformedElf));
    assert_eq!(parse_elf("text", b"#!/bin/sh\necho\n"), Err(CaptureError::MalformedElf));
    let mut truncated = example_image();
    truncated.truncate(40);
    assert_eq!(parse_elf("cut", &truncated), Err(CaptureError::MalformedElf));
    let mut cut_sections = example_image();
    let len = cut_sections.len();
    cut_sections.truncate(len - 10);
    assert_eq!(parse_elf("cut", &cut_sections), Err(CaptureError::MalformedElf));
    assert_eq!(parse_elf_or_static("empty", &[]), Err(CaptureError::MalformedElf));
}

#[test]
fn image_without_dynamic_data_is_told_apart() {
    let image = static_image(ET_EXEC);
    assert_eq!(parse_elf("static", &image), Err(CaptureError::MissingDynamicData));
    let capture = parse_elf_or_static("static", &image).unwrap();
    assert_eq!(capture.kind(), ElfKind::Executable);
    assert_eq!(capture.filename(), "static");
    assert!(capture.imported_symbols().is_empty());
    assert!(capture.exported_symbols().is_empty());
    assert!(capture.needed_deps().is_empty());
    assert_eq!(capture.soname(), &None);
    assert_eq!(capture.rpath(), &None);
    assert_eq!(capture.runpath(), &None);
    assert_eq!(capture, AbiCapture::without_dynamic_data(ElfKind::Executable, "static".to_string()));
}

#[test]
fn lenient_extraction_keeps_dynamic_captures() {
    let image = example_image();
    assert_eq!(parse_elf_or_static("lib.so", &image), parse_elf("lib.so", &image));
}

#[test]
fn symbol_name_outside_the_string_table_is_rejected() {
    let image = dynamic_image(ET_DYN, STRINGS, &[symbol_bytes(4000, 0, 0)], &[dyn_bytes(0, 0)]);
    assert_eq!(parse_elf("bad", &image), Err(CaptureError::BadStringOffset));
    assert_eq!(parse_elf_or_static("bad", &image), Err(CaptureError::BadStringOffset));
}

#[test]
fn dependency_name_outside_the_string_table_is_rejected() {
    let image =
        dynamic_image(ET_DYN, STRINGS, &[symbol_bytes(1, 0, 7)], &[dyn_bytes(DT_NEEDED, 4000)]);
    assert_eq!(parse_elf("bad", &image), Err(CaptureError::BadStringOffset));
}

#[test]
fn values_of_other_tags_are_not_looked_up() {
    let image =
        dynamic_image(ET_DYN, STRINGS, &[symbol_bytes(1, 0, 7)], &[dyn_bytes(12, 4000)]);
    let capture = parse_elf("ok", &image).unwrap();
    assert!(capture.needed_deps().is_empty());
    assert_eq!(capture.exported_symbols(), &strings(&["foo"]));
}

#[test]
fn unnamed_undefined_symbol_is_imported() {
    let image = dynamic_image(
        ET_DYN,
        STRINGS,
        &[symbol_bytes(0, 0, 0), symbol_bytes(9, 0, 0)],
        &[dyn_bytes(0, 0)],
    );
    let capture = parse_elf("lib.so", &image).unwrap();
    assert_eq!(capture.imported_symbols(), &strings(&["", "malloc"]));
}

#[test]
fn last_search_path_wins() {
    let image = dynamic_image(
        ET_EXEC,
        STRINGS,
        &[],
        &[
            dyn_bytes(DT_RPATH, 1),
            dyn_bytes(DT_RUNPATH, 5),
            dyn_bytes(DT_RPATH, 42),
            dyn_bytes(DT_RUNPATH, 42),
        ],
    );
    let capture = parse_elf("tool", &image).unwrap();
    assert_eq!(capture.kind(), ElfKind::Executable);
    assert_eq!(capture.rpath(), &Some("/opt".to_string()));
    assert_eq!(capture.runpath(), &Some("/opt".to_string()));
    assert_eq!(capture.soname(), &None);
}

#[test]
fn file_type_decides_the_kind() {
    assert_eq!(elf_kind(ET_EXEC), ElfKind::Executable);
    assert_eq!(elf_kind(ET_DYN), ElfKind::SharedObject);
    assert_eq!(elf_kind(ET_REL), ElfKind::Unknown);
    assert_eq!(elf_kind(0), ElfKind::Unknown);
    assert_eq!(elf_kind(4), ElfKind::Unknown);
    assert_eq!(elf_kind(0xffff), ElfKind::Unknown);
    let image = dynamic_image(ET_REL, STRINGS, &[], &[]);
    assert_eq!(parse_elf("x.o", &image).unwrap().kind(), ElfKind::Unknown);
}

fn symbol(name: &str, undefined: bool, visibility: u8) -> DynSymbol {
    DynSymbol { name: name.to_string(), undefined, visibility }
}

#[test]
fn classes_follow_definedness_and_visibility() {
    assert_eq!(symbol("a", true, 0).class(), SymbolClass::Imported);
    assert_eq!(symbol("a", true, 2).class(), SymbolClass::Imported);
    assert_eq!(symbol("a", false, 0).class(), SymbolClass::Exported);
    assert_eq!(symbol("a", false, 1).class(), SymbolClass::Ignored);
    assert_eq!(symbol("a", false, 2).class(), SymbolClass::Ignored);
    assert_eq!(symbol("a", false, 3).class(), SymbolClass::Ignored);
}

#[test]
fn classification_partitions_the_table() {
    let table = vec![
        symbol("write", true, 0),
        symbol("api10", false, 0),
        symbol("helper", false, 2),
        symbol("api2", false, 0),
        symbol("write", true, 0),
        symbol("guard", false, 3),
        symbol("", true, 0),
    ];
    let lists = classify_symbols(&table);
    assert_eq!(lists.imported, strings(&["write", "write", ""]));
    assert_eq!(lists.exported, strings(&["api10", "api2"]));
    assert_eq!(lists.ignored, strings(&["helper", "guard"]));
    assert_eq!(lists.imported.len() + lists.exported.len() + lists.ignored.len(), table.len());

    let (imported, exported) = parse_dynsyms_section(&table);
    assert_eq!(imported, strings(&["", "write", "write"]));
    assert_eq!(exported, strings(&["api2", "api10"]));
}

#[test]
fn dynamic_entries_are_routed_by_tag() {
    let entries = vec![
        DynString { tag: DT_NEEDED, text: "libz.so.10".to_string() },
        DynString { tag: DT_SONAME, text: "libold.so".to_string() },
        DynString { tag: DT_NEEDED, text: "libz.so.9".to_string() },
        DynString { tag: DT_RUNPATH, text: "/usr/lib".to_string() },
        DynString { tag: 7, text: "ignored".to_string() },
        DynString { tag: DT_SONAME, text: "libnew.so".to_string() },
    ];
    let (needed, rpath, runpath, soname) = parse_dynamic_section(&entries);
    assert_eq!(needed, strings(&["libz.so.9", "libz.so.10"]));
    assert_eq!(rpath, None);
    assert_eq!(runpath, Some("/usr/lib".to_string()));
    assert_eq!(soname, Some("libnew.so".to_string()));

    let (needed, rpath, runpath, soname) = parse_dynamic_section(&Vec::new());
    assert!(needed.is_empty());
    assert_eq!((rpath, runpath, soname), (None, None, None));
}

#[test]
fn capture_is_assembled_from_plain_values() {
    let table = vec![symbol("foo", false, 0), symbol("malloc", true, 0), symbol("bar", false, 0)];
    let entries = vec![
        DynString { tag: DT_NEEDED, text: "libc.so.6".to_string() },
        DynString { tag: DT_SONAME, text: "libexample.so.1".to_string() },
    ];
    let capture = assemble_capture("libexample.so", ElfKind::SharedObject, &table, &entries);
    assert_eq!(
        capture,
        AbiCapture::new(
            ElfKind::SharedObject,
            "libexample.so".to_string(),
            strings(&["malloc"]),
            strings(&["foo", "bar"]),
            strings(&["libc.so.6"]),
            None,
            None,
            Some("libexample.so.1".to_string()),
        )
    );
    assert_eq!(capture.exported_symbols(), &strings(&["bar", "foo"]));
}

#[test]
fn symbols_get_their_names_from_the_string_table() {
    let table = StringTable::new(b"\0foo\0bar\0");
    let raw = vec![
        RawSymbol { name_offset: 5, undefined: true, visibility: 0 },
        RawSymbol { name_offset: 1, undefined: false, visibility: 2 },
        RawSymbol { name_offset: 2, undefined: false, visibility: 0 },
        RawSymbol { name_offset: 0, undefined: true, visibility: 0 },
    ];
    assert_eq!(
        resolve_symbols(&raw, &table),
        Ok(vec![symbol("bar", true, 0), symbol("foo", false, 2), symbol("oo", false, 0), symbol("", true, 0)])
    );
    let beyond = vec![RawSymbol { name_offset: 9, undefined: true, visibility: 0 }];
    assert_eq!(resolve_symbols(&beyond, &table), Err(CaptureError::BadStringOffset));
    let unterminated = StringTable::new(b"\0foo");
    let raw = vec![RawSymbol { name_offset: 1, undefined: true, visibility: 0 }];
    assert_eq!(resolve_symbols(&raw, &unterminated), Err(CaptureError::BadStringOffset));
    let not_utf8 = StringTable::new(b"\0\xff\xfe\0");
    assert_eq!(resolve_symbols(&raw, &not_utf8), Err(CaptureError::BadStringOffset));
    assert_eq!(resolve_symbols(&Vec::new(), &StringTable::new(b"")), Ok(Vec::new()));
}

#[test]
fn dynamic_entries_get_their_strings_from_the_string_table() {
    let table = StringTable::new(b"\0libc.so.6\0/opt\0");
    let raw = vec![
        RawDyn { tag: DT_NEEDED, value: 1 },
        RawDyn { tag: 5, value: 0x4000 },
        RawDyn { tag: DT_RPATH, value: 11 },
        RawDyn { tag: 0, value: 0 },
    ];
    assert_eq!(
        resolve_dynamic(&raw, &table),
        Ok(vec![
            DynString { tag: DT_NEEDED, text: "libc.so.6".to_string() },
            DynString { tag: DT_RPATH, text: "/opt".to_string() },
        ])
    );
    let beyond = vec![RawDyn { tag: DT_SONAME, value: 16 }];
    assert_eq!(resolve_dynamic(&beyond, &table), Err(CaptureError::BadStringOffset));
    let huge = vec![RawDyn { tag: DT_RUNPATH, value: u64::MAX }];
    assert_eq!(resolve_dynamic(&huge, &table), Err(CaptureError::BadStringOffset));
}

#[test]
fn capture_is_taken_from_given_tables() {
    let full = ElfTables {
        file_type: ET_DYN,
        symbols: Some(vec![
            RawSymbol { name_offset: 1, undefined: false, visibility: 0 },
            RawSymbol { name_offset: 9, undefined: true, visibility: 0 },
        ]),
        strings: Some(StringTable::new(STRINGS)),
        entries: Some(vec![RawDyn { tag: DT_NEEDED, value: 16 }, RawDyn { tag: DT_RUNPATH, value: 42 }]),
        dynamic_strings: Some(StringTable::new(STRINGS)),
    };
    let capture = capture_from_tables("lib.so", &full).unwrap();
    assert_eq!(capture.kind(), ElfKind::SharedObject);
    assert_eq!(capture.exported_symbols(), &strings(&["foo"]));
    assert_eq!(capture.imported_symbols(), &strings(&["malloc"]));
    assert_eq!(capture.needed_deps(), &strings(&["libc.so.6"]));
    assert_eq!(capture.runpath(), &Some("/opt".to_string()));

    let no_symbols = ElfTables {
        file_type: ET_EXEC,
        symbols: None,
        strings: Some(StringTable::new(STRINGS)),
        entries: Some(Vec::new()),
        dynamic_strings: Some(StringTable::new(STRINGS)),
    };
    assert_eq!(capture_from_tables("a", &no_symbols), Err(CaptureError::MissingDynamicData));
    let no_strings = ElfTables {
        file_type: ET_EXEC,
        symbols: Some(Vec::new()),
        strings: None,
        entries: Some(Vec::new()),
        dynamic_strings: Some(StringTable::new(STRINGS)),
    };
    assert_eq!(capture_from_tables("a", &no_strings), Err(CaptureError::MissingDynamicData));
    let no_entries = ElfTables {
        file_type: ET_EXEC,
        symbols: Some(vec![RawSymbol { name_offset: 4000, undefined: true, visibility: 0 }]),
        strings: Some(StringTable::new(STRINGS)),
        entries: None,
        dynamic_strings: Some(StringTable::new(STRINGS)),
    };
    assert_eq!(capture_from_tables("a", &no_entries), Err(CaptureError::MissingDynamicData));
    let bad_offset = ElfTables {
        file_type: ET_EXEC,
        symbols: Some(Vec::new()),
        strings: Some(StringTable::new(STRINGS)),
        entries: Some(vec![RawDyn { tag: DT_SONAME, value: 4000 }]),
        dynamic_strings: Some(StringTable::new(STRINGS)),
    };
    assert_eq!(capture_from_tables("a", &bad_offset), Err(CaptureError::BadStringOffset));
    let no_dynamic_strings = ElfTables {
        file_type: ET_EXEC,
        symbols: Some(Vec::new()),
        strings: Some(StringTable::new(STRINGS)),
        entries: Some(Vec::new()),
        dynamic_strings: None,
    };
    assert_eq!(
        capture_from_tables("a", &no_dynamic_strings),
        Err(CaptureError::MissingDynamicData)
    );
}

#[test]
fn dynamic_entries_use_the_string_table_of_the_dynamic_section() {
    let tables = ElfTables {
        file_type: ET_DYN,
        symbols: Some(vec![RawSymbol { name_offset: 1, undefined: true, visibility: 0 }]),
        strings: Some(StringTable::new(b"\0malloc\0\0\0\0")),
        entries: Some(vec![RawDyn { tag: DT_NEEDED, value: 1 }]),
        dynamic_strings: Some(StringTable::new(b"\0libc.so.6\0")),
    };
    let capture = capture_from_tables("lib.so", &tables).unwrap();
    assert_eq!(capture.needed_deps(), &strings(&["libc.so.6"]));
    assert_eq!(capture.imported_symbols(), &strings(&["malloc"]));
    assert_eq!(capture.rpath(), &None);
    assert_eq!(capture.runpath(), &None);
    assert_eq!(capture.soname(), &None);
}

#[test]
fn image_with_two_string_tables_keeps_them_apart() {
    let image = linked_image(
        ET_DYN,
        b"\0malloc\0\0\0\0foo\0",
        b"\0libc.so.6\0libtwo.so.1\0",
        4,
        &[symbol_bytes(1, 0, 0), symbol_bytes(11, 0, 7)],
        &[dyn_bytes(DT_NEEDED, 1), dyn_bytes(DT_SONAME, 11), dyn_bytes(0, 0)],
    );
    let capture = parse_elf("libtwo.so", &image).unwrap();
    assert_eq!(capture.needed_deps(), &strings(&["libc.so.6"]));
    assert_eq!(capture.soname(), &Some("libtwo.so.1".to_string()));
    assert_eq!(capture.imported_symbols(), &strings(&["malloc"]));
    assert_eq!(capture.exported_symbols(), &strings(&["foo"]));

    let tables = load_tables(&image).unwrap();
    assert_eq!(tables.file_type, ET_DYN);
    assert_eq!(tables.symbols.as_ref().map(|s| s.len()), Some(2));
    assert_eq!(tables.entries.as_ref().map(|e| e.len()), Some(3));
    assert_eq!(tables.strings.unwrap().get(1).unwrap(), "malloc");
    assert_eq!(tables.dynamic_strings.unwrap().get(1).unwrap(), "libc.so.6");
}

#[test]
fn offset_that_only_the_symbol_strings_hold_is_rejected_for_a_dynamic_entry() {
    let image = linked_image(
        ET_DYN,
        b"\0a_long_symbol_name\0",
        b"\0x\0",
        4,
        &[symbol_bytes(1, 0, 0)],
        &[dyn_bytes(DT_NEEDED, 5)],
    );
    assert_eq!(parse_elf("lib.so", &image), Err(CaptureError::BadStringOffset));
}

#[test]
fn dynamic_section_that_refers_to_no_string_table_is_malformed() {
    let not_a_string_table =
        linked_image(ET_DYN, STRINGS, b"\0", 5, &[symbol_bytes(1, 0, 7)], &[dyn_bytes(0, 0)]);
    assert_eq!(parse_elf("lib.so", &not_a_string_table), Err(CaptureError::MalformedElf));
    assert!(load_tables(&not_a_string_table).is_err());
    let no_such_section =
        linked_image(ET_DYN, STRINGS, b"\0", 40, &[symbol_bytes(1, 0, 7)], &[dyn_bytes(0, 0)]);
    assert_eq!(parse_elf("lib.so", &no_such_section), Err(CaptureError::MalformedElf));
    assert_eq!(parse_elf_or_static("lib.so", &no_such_section), Err(CaptureError::MalformedElf));
}

#[test]
fn image_without_a_dynamic_section_has_no_dynamic_data() {
    let image = symbols_only_image(STRINGS, &[symbol_bytes(1, 0, 7)]);
    let tables = load_tables(&image).unwrap();
    assert!(tables.symbols.is_some());
    assert!(tables.strings.is_some());
    assert!(tables.entries.is_none());
    assert!(tables.dynamic_strings.is_none());
    assert_eq!(parse_elf("lib.so", &image), Err(CaptureError::MissingDynamicData));
    let capture = parse_elf_or_static("lib.so", &image).unwrap();
    assert_eq!(capture.kind(), ElfKind::SharedObject);
    assert!(capture.exported_symbols().is_empty());
}

#[test]
fn link_of_the_dynamic_section_is_that_of_the_last_such_section() {
    let link = |kind: u32, link: u32| SectionLink { kind, link };
    assert_eq!(find_dynamic_link(&Vec::new()), None);
    assert_eq!(find_dynamic_link(&vec![link(0, 0), link(SHT_DYNSYM, 2), link(SHT_STRTAB, 0)]), None);
    assert_eq!(
        find_dynamic_link(&vec![link(0, 0), link(SHT_DYNSYM, 2), link(SHT_DYNAMIC, 7)]),
        Some(7)
    );
    assert_eq!(
        find_dynamic_link(&vec![link(SHT_DYNAMIC, 3), link(SHT_STRTAB, 9), link(SHT_DYNAMIC, 4)]),
        Some(4)
    );
    assert_eq!(find_dynamic_link(&vec![link(SHT_DYNAMIC, 0)]), Some(0));
}

#[test]
fn loading_tables_fails_on_bytes_that_are_no_image() {
    assert!(matches!(load_tables(&[]), Err(CaptureError::MalformedElf)));
    assert!(matches!(load_tables(b"not an image"), Err(CaptureError::MalformedElf)));
    let image = static_image(ET_EXEC);
    let tables = load_tables(&image).unwrap();
    assert_eq!(tables.file_type, ET_EXEC);
    assert!(tables.symbols.is_none() && tables.entries.is_none());
    assert!(tables.strings.is_none() && tables.dynamic_strings.is_none());
}

#[test]
fn end_to_end_with_an_unnamed_first_symbol() {
    let image = linked_image(
        ET_DYN,
        b"\0foo\0bar\0malloc\0",
        b"\0libc.so.6\0libexample.so.1\0",
        4,
        &[
            symbol_bytes(0, 0, 0),
            symbol_bytes(1, 0, 7),
            symbol_bytes(9, 0, 0),
            symbol_bytes(5, 0, 7),
        ],
        &[dyn_bytes(DT_NEEDED, 1), dyn_bytes(DT_SONAME, 11), dyn_bytes(0, 0)],
    );
    let capture = parse_elf("libexample.so.1.0", &image).unwrap();
    assert_eq!(capture.kind(), ElfKind::SharedObject);
    assert_eq!(capture.exported_symbols(), &strings(&["bar", "foo"]));
    assert_eq!(capture.imported_symbols(), &strings(&["", "malloc"]));
    assert_eq!(capture.needed_deps(), &strings(&["libc.so.6"]));
    assert_eq!(capture.soname(), &Some("libexample.so.1".to_string()));
    assert_eq!(capture.rpath(), &None);
    assert_eq!(capture.runpath(), &None);

    let report = match AbiReport::build(vec![capture]) {
        Ok(report) => report,
        Err(e) => panic!("a single capture makes a report: {:?}", e),
    };
    assert_eq!(report.files_with_symbol("foo"), strings(&["libexample.so.1.0"]));
    assert_eq!(report.files_with_symbol("bar"), strings(&["libexample.so.1.0"]));
    assert_eq!(
        report.filename_of_soname("libexample.so.1"),
        Some(&"libexample.so.1.0".to_string())
    );
    assert_eq!(report.index_of("libexample.so.1.0"), Some(0));
}
