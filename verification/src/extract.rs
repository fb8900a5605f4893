//! Taking an ABI capture from the bytes of one ELF image.

use crate::capture::{static_capture, text, AbiCapture, CaptureError, CaptureView, ElfKind};
use crate::natural::{in_natural_order, natural_sorted, sort_natural, views};
use crate::tables::{
    elf_section_strings, elf_sections, elf_tables, read_section_strings, read_sections,
    read_tables, string_at, string_table_entries, CommonTablesView, ElfTables, ElfTablesView,
    RawDyn, RawSymbol, SectionLink,
};
use elf::string_table::StringTable;
use vstd::prelude::*;

verus! {

/// File type of an executable.
pub const ET_EXEC: u16 = 2;

/// File type of a shared object.
pub const ET_DYN: u16 = 3;

/// Type of the section that holds the dynamic entries.
pub const SHT_DYNAMIC: u32 = 6;

/// The default symbol visibility.
pub const STV_DEFAULT: u8 = 0;

/// Tag of a dynamic entry that names a needed shared object.
pub const DT_NEEDED: i64 = 1;

/// Tag of the dynamic entry that names the shared object itself.
pub const DT_SONAME: i64 = 14;

/// Tag of the dynamic entry that holds the legacy library search path.
pub const DT_RPATH: i64 = 15;

/// Tag of the dynamic entry that holds the library search path.
pub const DT_RUNPATH: i64 = 29;

/// The kind of binary that a file type stands for.
pub open spec fn kind_of(file_type: u16) -> ElfKind {
    if file_type == ET_EXEC {
        ElfKind::Executable
    } else if file_type == ET_DYN {
        ElfKind::SharedObject
    } else {
        ElfKind::Unknown
    }
}

/// Classifies the type field of a file header.
pub fn elf_kind(file_type: u16) -> (kind: ElfKind)
    ensures
        kind == kind_of(file_type),
{
    if file_type == ET_EXEC {
        ElfKind::Executable
    } else if file_type == ET_DYN {
        ElfKind::SharedObject
    } else {
        ElfKind::Unknown
    }
}

/// How a dynamic symbol bears on the ABI of its binary.
#[derive(Clone, Copy, Debug, PartialEq, Eq, Structural)]
pub enum SymbolClass {
    /// Referred to and not defined here.
    Imported,
    /// Defined here with default visibility.
    Exported,
    /// Defined here and not visible to other binaries.
    Ignored,
}

/// A dynamic symbol with its name.
#[derive(Debug, PartialEq, Eq)]
pub struct DynSymbol {
    pub name: String,
    /// Whether no section of the binary defines the symbol.
    pub undefined: bool,
    /// Visibility of the symbol; zero is the default visibility.
    pub visibility: u8,
}

/// Mathematical content of a [`DynSymbol`].
pub struct DynSymbolView {
    pub name: Seq<char>,
    pub undefined: bool,
    pub visibility: u8,
}

impl DynSymbolView {
    /// An undefined symbol is imported. A defined one is exported where its
    /// visibility is the default, and ignored otherwise.
    pub open spec fn class(self) -> SymbolClass {
        if self.undefined {
            SymbolClass::Imported
        } else if self.visibility == STV_DEFAULT {
            SymbolClass::Exported
        } else {
            SymbolClass::Ignored
        }
    }
}

impl View for DynSymbol {
    type V = DynSymbolView;

    open spec fn view(&self) -> DynSymbolView {
        DynSymbolView { name: self.name@, undefined: self.undefined, visibility: self.visibility }
    }
}

impl DynSymbol {
    /// The class of the symbol.
    pub fn class(&self) -> (class: SymbolClass)
        ensures
            class == self@.class(),
    {
        if self.undefined {
            SymbolClass::Imported
        } else if self.visibility == STV_DEFAULT {
            SymbolClass::Exported
        } else {
            SymbolClass::Ignored
        }
    }
}

/// The views of a sequence of symbols.
pub open spec fn symbol_views(symbols: Seq<DynSymbol>) -> Seq<DynSymbolView> {
    symbols.map_values(|s: DynSymbol| s@)
}

/// The names of the symbols of one class, in table order.
pub open spec fn names_in_class(symbols: Seq<DynSymbolView>, class: SymbolClass) -> Seq<
    Seq<char>,
> {
    symbols.filter(|s: DynSymbolView| s.class() == class).map_values(|s: DynSymbolView| s.name)
}

/// The names of a symbol table, one list for each class, in table order.
#[derive(Debug, PartialEq, Eq)]
pub struct SymbolLists {
    pub imported: Vec<String>,
    pub exported: Vec<String>,
    pub ignored: Vec<String>,
}

proof fn lemma_names_in_class_step(symbols: Seq<DynSymbolView>, i: int, class: SymbolClass)
    requires
        0 <= i < symbols.len(),
    ensures
        names_in_class(symbols.take(i + 1), class) == if symbols[i].class() == class {
            names_in_class(symbols.take(i), class).push(symbols[i].name)
        } else {
            names_in_class(symbols.take(i), class)
        },
{
    let pred = |s: DynSymbolView| s.class() == class;
    let name = |s: DynSymbolView| s.name;
    assert(symbols.take(i + 1) =~= symbols.take(i).push(symbols[i]));
    symbols.take(i).lemma_filter_push(symbols[i], pred);
    if symbols[i].class() == class {
        assert(symbols.take(i).filter(pred).push(symbols[i]).map_values(name)
            =~= symbols.take(i).filter(pred).map_values(name).push(symbols[i].name));
    }
}

/// Splits the names of a symbol table by class.
pub fn classify_symbols(symbols: &Vec<DynSymbol>) -> (lists: SymbolLists)
    ensures
        views(lists.imported@) == names_in_class(symbol_views(symbols@), SymbolClass::Imported),
        views(lists.exported@) == names_in_class(symbol_views(symbols@), SymbolClass::Exported),
        views(lists.ignored@) == names_in_class(symbol_views(symbols@), SymbolClass::Ignored),
{
    let mut imported: Vec<String> = Vec::new();
    let mut exported: Vec<String> = Vec::new();
    let mut ignored: Vec<String> = Vec::new();
    let ghost all = symbol_views(symbols@);
    let mut i: usize = 0;
    assert(all.take(0) =~= Seq::empty());
    assert(views(imported@) =~= names_in_class(all.take(0), SymbolClass::Imported));
    assert(views(exported@) =~= names_in_class(all.take(0), SymbolClass::Exported));
    assert(views(ignored@) =~= names_in_class(all.take(0), SymbolClass::Ignored));
    while i < symbols.len()
        invariant
            i <= symbols.len(),
            all == symbol_views(symbols@),
            views(imported@) == names_in_class(all.take(i as int), SymbolClass::Imported),
            views(exported@) == names_in_class(all.take(i as int), SymbolClass::Exported),
            views(ignored@) == names_in_class(all.take(i as int), SymbolClass::Ignored),
        decreases symbols.len() - i,
    {
        let symbol = &symbols[i];
        let name = symbol.name.clone();
        proof {
            lemma_names_in_class_step(all, i as int, SymbolClass::Imported);
            lemma_names_in_class_step(all, i as int, SymbolClass::Exported);
            lemma_names_in_class_step(all, i as int, SymbolClass::Ignored);
        }
        let ghost before_imported = imported@;
        let ghost before_exported = exported@;
        let ghost before_ignored = ignored@;
        match symbol.class() {
            SymbolClass::Imported => {
                imported.push(name);
                assert(views(imported@) =~= views(before_imported).push(name@));
            },
            SymbolClass::Exported => {
                exported.push(name);
                assert(views(exported@) =~= views(before_exported).push(name@));
            },
            SymbolClass::Ignored => {
                ignored.push(name);
                assert(views(ignored@) =~= views(before_ignored).push(name@));
            },
        }
        i += 1;
    }
    assert(all.take(symbols.len() as int) =~= all);
    SymbolLists { imported, exported, ignored }
}

/// The imported and the exported symbols of a dynamic symbol table, each list
/// in natural order. Symbols that are defined and not visible are in neither.
pub fn parse_dynsyms_section(symbols: &Vec<DynSymbol>) -> (lists: (Vec<String>, Vec<String>))
    ensures
        views(lists.0@) == natural_sorted(
            names_in_class(symbol_views(symbols@), SymbolClass::Imported),
        ),
        views(lists.1@) == natural_sorted(
            names_in_class(symbol_views(symbols@), SymbolClass::Exported),
        ),
        in_natural_order(views(lists.0@)),
        in_natural_order(views(lists.1@)),
        views(lists.0@).to_multiset() == names_in_class(
            symbol_views(symbols@),
            SymbolClass::Imported,
        ).to_multiset(),
        views(lists.1@).to_multiset() == names_in_class(
            symbol_views(symbols@),
            SymbolClass::Exported,
        ).to_multiset(),
{
    let lists = classify_symbols(symbols);
    (sort_natural(lists.imported), sort_natural(lists.exported))
}

/// A dynamic entry whose value names a string, with that string.
#[derive(Debug, PartialEq, Eq)]
pub struct DynString {
    pub tag: i64,
    pub text: String,
}

/// Mathematical content of a [`DynString`].
pub struct DynStringView {
    pub tag: i64,
    pub text: Seq<char>,
}

impl View for DynString {
    type V = DynStringView;

    open spec fn view(&self) -> DynStringView {
        DynStringView { tag: self.tag, text: self.text@ }
    }
}

/// The views of a sequence of dynamic entries.
pub open spec fn dyn_views(entries: Seq<DynString>) -> Seq<DynStringView> {
    entries.map_values(|e: DynString| e@)
}

/// The strings of the entries that carry `tag`, in table order.
pub open spec fn texts_with_tag(entries: Seq<DynStringView>, tag: i64) -> Seq<Seq<char>> {
    entries.filter(|e: DynStringView| e.tag == tag).map_values(|e: DynStringView| e.text)
}

/// The string of the last entry that carries `tag`, if there is one.
pub open spec fn last_with_tag(entries: Seq<DynStringView>, tag: i64) -> Option<Seq<char>> {
    let texts = texts_with_tag(entries, tag);
    if texts.len() == 0 {
        None
    } else {
        Some(texts.last())
    }
}

proof fn lemma_texts_with_tag_step(entries: Seq<DynStringView>, i: int, tag: i64)
    requires
        0 <= i < entries.len(),
    ensures
        texts_with_tag(entries.take(i + 1), tag) == if entries[i].tag == tag {
            texts_with_tag(entries.take(i), tag).push(entries[i].text)
        } else {
            texts_with_tag(entries.take(i), tag)
        },
{
    let pred = |e: DynStringView| e.tag == tag;
    let text_of = |e: DynStringView| e.text;
    assert(entries.take(i + 1) =~= entries.take(i).push(entries[i]));
    entries.take(i).lemma_filter_push(entries[i], pred);
    if entries[i].tag == tag {
        assert(entries.take(i).filter(pred).push(entries[i]).map_values(text_of)
            =~= entries.take(i).filter(pred).map_values(text_of).push(entries[i].text));
    }
}

/// What the dynamic section says of a binary: the needed shared objects in
/// natural order, then the legacy search path, the search path and the name of
/// the shared object itself, each taken from the last entry that gives it.
/// Entries with other tags are passed over.
pub fn parse_dynamic_section(entries: &Vec<DynString>) -> (found: (
    Vec<String>,
    Option<String>,
    Option<String>,
    Option<String>,
))
    ensures
        views(found.0@) == natural_sorted(texts_with_tag(dyn_views(entries@), DT_NEEDED)),
        in_natural_order(views(found.0@)),
        views(found.0@).to_multiset() == texts_with_tag(
            dyn_views(entries@),
            DT_NEEDED,
        ).to_multiset(),
        text(found.1) == last_with_tag(dyn_views(entries@), DT_RPATH),
        text(found.2) == last_with_tag(dyn_views(entries@), DT_RUNPATH),
        text(found.3) == last_with_tag(dyn_views(entries@), DT_SONAME),
{
    let mut needed: Vec<String> = Vec::new();
    let mut rpath: Option<String> = None;
    let mut runpath: Option<String> = None;
    let mut soname: Option<String> = None;
    let ghost all = dyn_views(entries@);
    let mut i: usize = 0;
    assert(all.take(0) =~= Seq::empty());
    assert(views(needed@) =~= texts_with_tag(all.take(0), DT_NEEDED));
    while i < entries.len()
        invariant
            i <= entries.len(),
            all == dyn_views(entries@),
            views(needed@) == texts_with_tag(all.take(i as int), DT_NEEDED),
            text(rpath) == last_with_tag(all.take(i as int), DT_RPATH),
            text(runpath) == last_with_tag(all.take(i as int), DT_RUNPATH),
            text(soname) == last_with_tag(all.take(i as int), DT_SONAME),
        decreases entries.len() - i,
    {
        let entry = &entries[i];
        proof {
            lemma_texts_with_tag_step(all, i as int, DT_NEEDED);
            lemma_texts_with_tag_step(all, i as int, DT_RPATH);
            lemma_texts_with_tag_step(all, i as int, DT_RUNPATH);
            lemma_texts_with_tag_step(all, i as int, DT_SONAME);
        }
        if entry.tag == DT_NEEDED {
            let ghost before = needed@;
            needed.push(entry.text.clone());
            assert(views(needed@) =~= views(before).push(entry.text@));
        } else if entry.tag == DT_RPATH {
            rpath = Some(entry.text.clone());
        } else if entry.tag == DT_RUNPATH {
            runpath = Some(entry.text.clone());
        } else if entry.tag == DT_SONAME {
            soname = Some(entry.text.clone());
        }
        i += 1;
    }
    assert(all.take(entries.len() as int) =~= all);
    (sort_natural(needed), rpath, runpath, soname)
}

/// Whether the string table holds a name for every symbol.
pub open spec fn symbols_resolvable(symbols: Seq<RawSymbol>, strings: Map<int, Seq<char>>) -> bool {
    forall|i: int|
        0 <= i < symbols.len() ==> strings.contains_key((#[trigger] symbols[i]).name_offset as int)
}

/// The symbols of a table, each with the name that the string table gives it.
pub open spec fn resolved_symbols(symbols: Seq<RawSymbol>, strings: Map<int, Seq<char>>) -> Seq<
    DynSymbolView,
> {
    symbols.map_values(
        |s: RawSymbol|
            DynSymbolView {
                name: strings[s.name_offset as int],
                undefined: s.undefined,
                visibility: s.visibility,
            },
    )
}

/// Looks up the name of every symbol. Fails with `BadStringOffset` where the
/// string table holds no string for one of them.
pub fn resolve_symbols(symbols: &Vec<RawSymbol>, strings: &StringTable) -> (resolved: Result<
    Vec<DynSymbol>,
    CaptureError,
>)
    ensures
        resolved is Ok <==> symbols_resolvable(symbols@, string_table_entries(*strings)),
        resolved matches Ok(v) ==> symbol_views(v@) == resolved_symbols(
            symbols@,
            string_table_entries(*strings),
        ),
        resolved matches Err(e) ==> e == CaptureError::BadStringOffset,
{
    let mut out: Vec<DynSymbol> = Vec::new();
    let ghost table = string_table_entries(*strings);
    let mut i: usize = 0;
    assert(symbol_views(out@) =~= resolved_symbols(symbols@.take(0), table));
    while i < symbols.len()
        invariant
            i <= symbols.len(),
            table == string_table_entries(*strings),
            symbols_resolvable(symbols@.take(i as int), table),
            symbol_views(out@) == resolved_symbols(symbols@.take(i as int), table),
        decreases symbols.len() - i,
    {
        let symbol = symbols[i];
        match string_at(strings, symbol.name_offset as usize) {
            Ok(name) => {
                let ghost before = out@;
                let resolved = DynSymbol {
                    name,
                    undefined: symbol.undefined,
                    visibility: symbol.visibility,
                };
                out.push(resolved);
                assert(symbol_views(out@) =~= symbol_views(before).push(resolved@));
                assert(symbols@.take(i + 1) =~= symbols@.take(i as int).push(symbol));
            },
            Err(_) => {
                assert(!table.contains_key(symbols@[i as int].name_offset as int));
                return Err(CaptureError::BadStringOffset);
            },
        }
        i += 1;
    }
    assert(symbols@.take(symbols.len() as int) =~= symbols@);
    Ok(out)
}

/// Whether the value of an entry with this tag is the offset of a string.
pub open spec fn is_string_tag(tag: i64) -> bool {
    tag == DT_NEEDED || tag == DT_RPATH || tag == DT_RUNPATH || tag == DT_SONAME
}

/// Whether the string table holds the string of every entry that names one.
pub open spec fn dynamic_resolvable(entries: Seq<RawDyn>, strings: Map<int, Seq<char>>) -> bool {
    forall|i: int|
        0 <= i < entries.len() && is_string_tag((#[trigger] entries[i]).tag) ==> entries[i].value
            <= usize::MAX && strings.contains_key(entries[i].value as int)
}

/// The entries that name a string, each with its string, in table order.
pub open spec fn resolved_dynamic(entries: Seq<RawDyn>, strings: Map<int, Seq<char>>) -> Seq<
    DynStringView,
> {
    entries.filter(|e: RawDyn| is_string_tag(e.tag)).map_values(
        |e: RawDyn| DynStringView { tag: e.tag, text: strings[e.value as int] },
    )
}

proof fn lemma_resolved_dynamic_step(entries: Seq<RawDyn>, i: int, strings: Map<int, Seq<char>>)
    requires
        0 <= i < entries.len(),
    ensures
        resolved_dynamic(entries.take(i + 1), strings) == if is_string_tag(entries[i].tag) {
            resolved_dynamic(entries.take(i), strings).push(
                DynStringView { tag: entries[i].tag, text: strings[entries[i].value as int] },
            )
        } else {
            resolved_dynamic(entries.take(i), strings)
        },
{
    let pred = |e: RawDyn| is_string_tag(e.tag);
    let resolve = |e: RawDyn| DynStringView { tag: e.tag, text: strings[e.value as int] };
    assert(entries.take(i + 1) =~= entries.take(i).push(entries[i]));
    entries.take(i).lemma_filter_push(entries[i], pred);
    if is_string_tag(entries[i].tag) {
        assert(entries.take(i).filter(pred).push(entries[i]).map_values(resolve)
            =~= entries.take(i).filter(pred).map_values(resolve).push(resolve(entries[i])));
    }
}

/// Looks up the string of every dynamic entry that names a needed shared
/// object, a search path or the shared object itself, and drops the other
/// entries. Fails with `BadStringOffset` where the string table holds no
/// string for one of them.
pub fn resolve_dynamic(entries: &Vec<RawDyn>, strings: &StringTable) -> (resolved: Result<
    Vec<DynString>,
    CaptureError,
>)
    ensures
        resolved is Ok <==> dynamic_resolvable(entries@, string_table_entries(*strings)),
        resolved matches Ok(v) ==> dyn_views(v@) == resolved_dynamic(
            entries@,
            string_table_entries(*strings),
        ),
        resolved matches Err(e) ==> e == CaptureError::BadStringOffset,
{
    let mut out: Vec<DynString> = Vec::new();
    let ghost table = string_table_entries(*strings);
    let mut i: usize = 0;
    assert(entries@.take(0) =~= Seq::empty());
    assert(dyn_views(out@) =~= resolved_dynamic(entries@.take(0), table));
    while i < entries.len()
        invariant
            i <= entries.len(),
            table == string_table_entries(*strings),
            dynamic_resolvable(entries@.take(i as int), table),
            dyn_views(out@) == resolved_dynamic(entries@.take(i as int), table),
        decreases entries.len() - i,
    {
        let entry = entries[i];
        proof {
            lemma_resolved_dynamic_step(entries@, i as int, table);
        }
        if entry.tag == DT_NEEDED || entry.tag == DT_RPATH || entry.tag == DT_RUNPATH || entry.tag
            == DT_SONAME {
            if entry.value > usize::MAX as u64 {
                return Err(CaptureError::BadStringOffset);
            }
            match string_at(strings, entry.value as usize) {
                Ok(found) => {
                    let ghost before = out@;
                    out.push(DynString { tag: entry.tag, text: found });
                    assert(dyn_views(out@) =~= dyn_views(before).push(
                        DynStringView { tag: entry.tag, text: found@ },
                    ));
                },
                Err(_) => {
                    return Err(CaptureError::BadStringOffset);
                },
            }
        }
        assert(entries@.take(i + 1) =~= entries@.take(i as int).push(entry));
        i += 1;
    }
    assert(entries@.take(entries.len() as int) =~= entries@);
    Ok(out)
}

/// The capture of a binary named `filename` with the given symbols and
/// dynamic entries.
pub open spec fn capture_of(
    filename: Seq<char>,
    kind: ElfKind,
    symbols: Seq<DynSymbolView>,
    entries: Seq<DynStringView>,
) -> CaptureView {
    CaptureView {
        kind,
        filename,
        imported_symbols: natural_sorted(names_in_class(symbols, SymbolClass::Imported)),
        exported_symbols: natural_sorted(names_in_class(symbols, SymbolClass::Exported)),
        manual_deps: Seq::empty(),
        needed_deps: natural_sorted(texts_with_tag(entries, DT_NEEDED)),
        optional_deps: Seq::empty(),
        rpath: last_with_tag(entries, DT_RPATH),
        runpath: last_with_tag(entries, DT_RUNPATH),
        soname: last_with_tag(entries, DT_SONAME),
    }
}

/// The lists of `capture` hold the imported names, the exported names and the
/// needed names of the given symbols and entries, each as often as these do.
pub open spec fn keeps_names(
    capture: CaptureView,
    symbols: Seq<DynSymbolView>,
    entries: Seq<DynStringView>,
) -> bool {
    &&& capture.imported_symbols.to_multiset() == names_in_class(
        symbols,
        SymbolClass::Imported,
    ).to_multiset()
    &&& capture.exported_symbols.to_multiset() == names_in_class(
        symbols,
        SymbolClass::Exported,
    ).to_multiset()
    &&& capture.needed_deps.to_multiset() == texts_with_tag(entries, DT_NEEDED).to_multiset()
}

/// Puts a capture together from the symbols and the dynamic entries of a
/// binary.
pub fn assemble_capture(
    file_name: &str,
    kind: ElfKind,
    symbols: &Vec<DynSymbol>,
    entries: &Vec<DynString>,
) -> (capture: AbiCapture)
    ensures
        capture@ == capture_of(file_name@, kind, symbol_views(symbols@), dyn_views(entries@)),
        capture@.wf(),
        keeps_names(capture@, symbol_views(symbols@), dyn_views(entries@)),
{
    let (imported, exported) = parse_dynsyms_section(symbols);
    let (needed, rpath, runpath, soname) = parse_dynamic_section(entries);
    AbiCapture::from_sorted(
        kind,
        file_name.to_owned(),
        imported,
        exported,
        needed,
        rpath,
        runpath,
        soname,
    )
}

/// The dynamic symbols of an image, each with its name from the string table
/// that the symbol table refers to.
pub open spec fn image_symbols(tables: ElfTablesView) -> Seq<DynSymbolView> {
    resolved_symbols(tables.symbols->0, tables.strings->0)
}

/// The dynamic entries of an image that name a string, each with its string
/// from the string table that the dynamic section refers to.
pub open spec fn image_entries(tables: ElfTablesView) -> Seq<DynStringView> {
    resolved_dynamic(tables.entries->0, tables.dynamic_strings->0)
}

/// The image has the dynamic symbols, the dynamic section and the string table
/// of each.
pub open spec fn has_dynamic_data(tables: ElfTablesView) -> bool {
    &&& tables.symbols is Some
    &&& tables.strings is Some
    &&& tables.entries is Some
    &&& tables.dynamic_strings is Some
}

/// What the tables of an image yield for a binary named `filename`: an image
/// that lacks the dynamic symbols, the dynamic section or the string table of
/// either has no dynamic data; one whose entries name strings that their
/// string table does not hold is rejected; any other gives its capture. The
/// names of symbols come from the string table of the symbols, the strings of
/// dynamic entries from the string table of the dynamic section.
pub open spec fn extraction(filename: Seq<char>, tables: ElfTablesView) -> Result<
    CaptureView,
    CaptureError,
> {
    if !has_dynamic_data(tables) {
        Err(CaptureError::MissingDynamicData)
    } else if !symbols_resolvable(tables.symbols->0, tables.strings->0) || !dynamic_resolvable(
        tables.entries->0,
        tables.dynamic_strings->0,
    ) {
        Err(CaptureError::BadStringOffset)
    } else {
        Ok(
            capture_of(
                filename,
                kind_of(tables.file_type),
                image_symbols(tables),
                image_entries(tables),
            ),
        )
    }
}

/// The link of the dynamic section: that of the last section of its type,
/// which is the one that the dynamic entries of an image are read from.
pub open spec fn dynamic_link(sections: Seq<SectionLink>) -> Option<u32> {
    let dynamic = sections.filter(|s: SectionLink| s.kind == SHT_DYNAMIC);
    if dynamic.len() == 0 {
        None
    } else {
        Some(dynamic.last().link)
    }
}

/// Finds the index of the string table that the dynamic section refers to.
pub fn find_dynamic_link(sections: &Vec<SectionLink>) -> (link: Option<u32>)
    ensures
        link == dynamic_link(sections@),
{
    let mut link: Option<u32> = None;
    let mut i: usize = 0;
    assert(sections@.take(0) =~= Seq::empty());
    while i < sections.len()
        invariant
            i <= sections.len(),
            link == dynamic_link(sections@.take(i as int)),
        decreases sections.len() - i,
    {
        proof {
            assert(sections@.take(i + 1) =~= sections@.take(i as int).push(sections@[i as int]));
            sections@.take(i as int).lemma_filter_push(
                sections@[i as int],
                |s: SectionLink| s.kind == SHT_DYNAMIC,
            );
        }
        if sections[i].kind == SHT_DYNAMIC {
            link = Some(sections[i].link);
        }
        i += 1;
    }
    assert(sections@.take(sections.len() as int) =~= sections@);
    link
}

/// The tables of an image with the string table that `strings` gives for its
/// dynamic section.
pub open spec fn with_dynamic_strings(
    common: CommonTablesView,
    strings: Option<Map<int, Seq<char>>>,
) -> ElfTablesView {
    ElfTablesView {
        file_type: common.file_type,
        symbols: common.symbols,
        strings: common.strings,
        entries: common.entries,
        dynamic_strings: strings,
    }
}

/// What the bytes of a file hold for dynamic linking. Bytes that are no
/// well-formed image are malformed, and so is an image whose dynamic section
/// refers to a section that is no string table. The string table of the
/// dynamic section is absent where no section holds dynamic entries.
pub open spec fn image_tables(data: Seq<u8>) -> Result<ElfTablesView, CaptureError> {
    match (elf_tables(data), elf_sections(data)) {
        (Some(common), Some(sections)) => {
            let link = match sections {
                Some(sections) => dynamic_link(sections),
                None => None,
            };
            match link {
                None => Ok(with_dynamic_strings(common, None)),
                Some(index) => match elf_section_strings(data, index as int) {
                    Some(strings) => Ok(with_dynamic_strings(common, strings)),
                    None => Err(CaptureError::MalformedElf),
                },
            }
        },
        _ => Err(CaptureError::MalformedElf),
    }
}

/// The mathematical content of the result of reading the tables of an image.
pub open spec fn tables_outcome(result: Result<ElfTables, CaptureError>) -> Result<
    ElfTablesView,
    CaptureError,
> {
    match result {
        Ok(tables) => Ok(tables@),
        Err(e) => Err(e),
    }
}

/// Reads what an image holds for dynamic linking: the dynamic symbols with
/// the string table that they refer to, and the dynamic section with the
/// string table that it refers to, which need not be the same.
pub fn load_tables<'data>(file_data: &'data [u8]) -> (result: Result<
    ElfTables<'data>,
    CaptureError,
>)
    ensures
        tables_outcome(result) == image_tables(file_data@),
{
    let common = match read_tables(file_data) {
        Ok(common) => common,
        Err(_) => {
            return Err(CaptureError::MalformedElf);
        },
    };
    let sections = match read_sections(file_data) {
        Ok(sections) => sections,
        Err(_) => {
            return Err(CaptureError::MalformedElf);
        },
    };
    let link = match &sections {
        Some(sections) => find_dynamic_link(sections),
        None => None,
    };
    let dynamic_strings = match link {
        Some(index) => match read_section_strings(file_data, index as usize) {
            Ok(strings) => strings,
            Err(_) => {
                return Err(CaptureError::MalformedElf);
            },
        },
        None => None,
    };
    Ok(
        ElfTables {
            file_type: common.file_type,
            symbols: common.symbols,
            strings: common.strings,
            entries: common.entries,
            dynamic_strings,
        },
    )
}

/// What the bytes of a file named `filename` yield.
pub open spec fn parse_outcome(filename: Seq<char>, data: Seq<u8>) -> Result<
    CaptureView,
    CaptureError,
> {
    match image_tables(data) {
        Err(e) => Err(e),
        Ok(tables) => extraction(filename, tables),
    }
}

/// As [`parse_outcome`], with the empty capture for an image without dynamic
/// data.
pub open spec fn parse_outcome_or_static(filename: Seq<char>, data: Seq<u8>) -> Result<
    CaptureView,
    CaptureError,
> {
    match parse_outcome(filename, data) {
        Err(CaptureError::MissingDynamicData) => Ok(
            static_capture(kind_of(image_tables(data)->Ok_0.file_type), filename),
        ),
        other => other,
    }
}

/// The mathematical content of the result of an extraction.
pub open spec fn outcome(result: Result<AbiCapture, CaptureError>) -> Result<
    CaptureView,
    CaptureError,
> {
    match result {
        Ok(capture) => Ok(capture@),
        Err(e) => Err(e),
    }
}

/// Takes the capture of a binary from the tables of its image.
pub fn capture_from_tables(file_name: &str, tables: &ElfTables) -> (result: Result<
    AbiCapture,
    CaptureError,
>)
    ensures
        outcome(result) == extraction(file_name@, tables@),
        result matches Ok(capture) ==> capture@.wf() && keeps_names(
            capture@,
            image_symbols(tables@),
            image_entries(tables@),
        ),
{
    let symbols = match &tables.symbols {
        Some(symbols) => symbols,
        None => {
            return Err(CaptureError::MissingDynamicData);
        },
    };
    let strings = match &tables.strings {
        Some(strings) => strings,
        None => {
            return Err(CaptureError::MissingDynamicData);
        },
    };
    let entries = match &tables.entries {
        Some(entries) => entries,
        None => {
            return Err(CaptureError::MissingDynamicData);
        },
    };
    let dynamic_strings = match &tables.dynamic_strings {
        Some(strings) => strings,
        None => {
            return Err(CaptureError::MissingDynamicData);
        },
    };
    let symbols = match resolve_symbols(symbols, strings) {
        Ok(symbols) => symbols,
        Err(e) => {
            return Err(e);
        },
    };
    let entries = match resolve_dynamic(entries, dynamic_strings) {
        Ok(entries) => entries,
        Err(e) => {
            return Err(e);
        },
    };
    Ok(assemble_capture(file_name, elf_kind(tables.file_type), &symbols, &entries))
}

/// Takes the capture of the binary whose file is named `file_name` and holds
/// `file_data`.
///
/// Fails with `MalformedElf` where the bytes are no well-formed ELF image,
/// with `MissingDynamicData` where the image lacks the dynamic symbols, the
/// dynamic section or the string table of either, and with `BadStringOffset`
/// where a table entry names a string that its string table does not hold.
pub fn parse_elf(file_name: &str, file_data: &[u8]) -> (result: Result<AbiCapture, CaptureError>)
    ensures
        outcome(result) == parse_outcome(file_name@, file_data@),
        result matches Ok(capture) ==> capture@.wf() && keeps_names(
            capture@,
            image_symbols(image_tables(file_data@)->Ok_0),
            image_entries(image_tables(file_data@)->Ok_0),
        ),
{
    match load_tables(file_data) {
        Ok(tables) => capture_from_tables(file_name, &tables),
        Err(e) => Err(e),
    }
}

/// As [`parse_elf`], but an image without dynamic data, such as a statically
/// linked binary, gives a capture with empty lists and no path attributes.
pub fn parse_elf_or_static(file_name: &str, file_data: &[u8]) -> (result: Result<
    AbiCapture,
    CaptureError,
>)
    ensures
        outcome(result) == parse_outcome_or_static(file_name@, file_data@),
        result matches Ok(capture) ==> capture@.wf(),
        result matches Ok(capture) ==> has_dynamic_data(image_tables(file_data@)->Ok_0)
            ==> keeps_names(
            capture@,
            image_symbols(image_tables(file_data@)->Ok_0),
            image_entries(image_tables(file_data@)->Ok_0),
        ),
{
    match load_tables(file_data) {
        Ok(tables) => match capture_from_tables(file_name, &tables) {
            Err(CaptureError::MissingDynamicData) => Ok(
                AbiCapture::without_dynamic_data(elf_kind(tables.file_type), file_name.to_owned()),
            ),
            other => other,
        },
        Err(e) => Err(e),
    }
}

} // verus!
