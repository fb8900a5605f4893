//! What holds of extraction and aggregation as a whole.

use crate::capture::{CaptureError, CaptureView};
use crate::extract::{
    extraction, image_entries, image_symbols, keeps_names, kind_of, last_with_tag,
    names_in_class, parse_outcome, texts_with_tag, DynSymbolView, SymbolClass, DT_NEEDED,
    DT_RPATH, DT_RUNPATH, DT_SONAME,
};
use crate::tables::ElfTablesView;
use crate::index_order::{
    by_filename_bytes, distinct_filenames, indexed, lemma_distinct_rearranged, CaptureKey,
};
use crate::natural::in_natural_order;
use crate::report::ReportView;
use vstd::multiset::{group_multiset_axioms, lemma_multiset_empty_len};
use vstd::prelude::*;
use vstd::seq_lib::{to_multiset_build, to_multiset_contains, to_multiset_len};

verus! {

/// The names of a symbol table, in table order.
pub open spec fn symbol_names(symbols: Seq<DynSymbolView>) -> Seq<Seq<char>> {
    symbols.map_values(|s: DynSymbolView| s.name)
}

/// Classification is a partition: every entry of a symbol table has one class,
/// and the imported, the exported and the ignored names together are the names
/// of the table, each as often as the table holds it.
pub proof fn lemma_classification_partition(symbols: Seq<DynSymbolView>)
    ensures
        names_in_class(symbols, SymbolClass::Imported).len() + names_in_class(
            symbols,
            SymbolClass::Exported,
        ).len() + names_in_class(symbols, SymbolClass::Ignored).len() == symbols.len(),
        symbol_names(symbols).to_multiset() == names_in_class(
            symbols,
            SymbolClass::Imported,
        ).to_multiset().add(names_in_class(symbols, SymbolClass::Exported).to_multiset()).add(
            names_in_class(symbols, SymbolClass::Ignored).to_multiset(),
        ),
    decreases symbols.len(),
{
    broadcast use group_multiset_axioms;

    let imported = |s: DynSymbolView| s.class() == SymbolClass::Imported;
    let exported = |s: DynSymbolView| s.class() == SymbolClass::Exported;
    let ignored = |s: DynSymbolView| s.class() == SymbolClass::Ignored;
    let name = |s: DynSymbolView| s.name;
    if symbols.len() == 0 {
        let none = Seq::<Seq<char>>::empty();
        assert(symbol_names(symbols) =~= none);
        assert(names_in_class(symbols, SymbolClass::Imported) =~= none);
        assert(names_in_class(symbols, SymbolClass::Exported) =~= none);
        assert(names_in_class(symbols, SymbolClass::Ignored) =~= none);
        to_multiset_len(none);
        lemma_multiset_empty_len(none.to_multiset());
        assert(none.to_multiset().add(none.to_multiset()).add(none.to_multiset())
            =~= none.to_multiset());
    } else {
        let shorter = symbols.drop_last();
        let last = symbols.last();
        lemma_classification_partition(shorter);
        assert(shorter.push(last) =~= symbols);
        shorter.lemma_filter_push(last, imported);
        shorter.lemma_filter_push(last, exported);
        shorter.lemma_filter_push(last, ignored);
        assert(symbol_names(symbols) =~= symbol_names(shorter).push(last.name));
        to_multiset_build(symbol_names(shorter), last.name);
        let a = names_in_class(shorter, SymbolClass::Imported);
        let b = names_in_class(shorter, SymbolClass::Exported);
        let c = names_in_class(shorter, SymbolClass::Ignored);
        match last.class() {
            SymbolClass::Imported => {
                assert(names_in_class(symbols, SymbolClass::Imported) =~= a.push(last.name));
                to_multiset_build(a, last.name);
                assert(a.to_multiset().insert(last.name).add(b.to_multiset()).add(
                    c.to_multiset(),
                ) =~= a.to_multiset().add(b.to_multiset()).add(c.to_multiset()).insert(
                    last.name,
                ));
            },
            SymbolClass::Exported => {
                assert(names_in_class(symbols, SymbolClass::Exported) =~= b.push(last.name));
                to_multiset_build(b, last.name);
                assert(a.to_multiset().add(b.to_multiset().insert(last.name)).add(
                    c.to_multiset(),
                ) =~= a.to_multiset().add(b.to_multiset()).add(c.to_multiset()).insert(
                    last.name,
                ));
            },
            SymbolClass::Ignored => {
                assert(names_in_class(symbols, SymbolClass::Ignored) =~= c.push(last.name));
                to_multiset_build(c, last.name);
                assert(a.to_multiset().add(b.to_multiset()).add(
                    c.to_multiset().insert(last.name),
                ) =~= a.to_multiset().add(b.to_multiset()).add(c.to_multiset()).insert(
                    last.name,
                ));
            },
        }
    }
}

/// Extraction is repeatable: what one file yields depends on its name and its
/// bytes alone, so two extractions of the same file give equal outcomes.
pub proof fn lemma_extraction_repeatable(
    filename: Seq<char>,
    data: Seq<u8>,
    first: Result<CaptureView, CaptureError>,
    second: Result<CaptureView, CaptureError>,
)
    requires
        first == parse_outcome(filename, data),
        second == parse_outcome(filename, data),
    ensures
        first == second,
{
}

/// The order of a batch does not show in its report: two batches that hold the
/// same captures agree on whether their file names are distinct, and get the
/// same index order, hence the same answer to every query.
pub proof fn lemma_index_order_independent(a: Seq<CaptureView>, b: Seq<CaptureView>)
    requires
        a.to_multiset() == b.to_multiset(),
    ensures
        distinct_filenames(a) == distinct_filenames(b),
        indexed(a) == indexed(b),
        (ReportView { captures: indexed(a) }) == (ReportView { captures: indexed(b) }),
{
    if distinct_filenames(a) {
        lemma_distinct_rearranged(a, b, CaptureKey::Filename);
    }
    if distinct_filenames(b) {
        lemma_distinct_rearranged(b, a, CaptureKey::Filename);
    }
    assert(by_filename_bytes(a) == by_filename_bytes(b));
}

/// Adding a capture gives the report that is built from scratch with the
/// capture included: where `report` holds the captures of `batch` in any
/// order, `report` with `capture` is indexed as `batch` with `capture` is.
pub proof fn lemma_add_matches_rebuild(
    batch: Seq<CaptureView>,
    report: Seq<CaptureView>,
    capture: CaptureView,
)
    requires
        report.to_multiset() == batch.to_multiset(),
    ensures
        indexed(report.push(capture)) == indexed(batch.push(capture)),
{
    to_multiset_build(report, capture);
    to_multiset_build(batch, capture);
    lemma_index_order_independent(report.push(capture), batch.push(capture));
}

/// The names of `names` that are not empty, in their order.
pub open spec fn named(names: Seq<Seq<char>>) -> Seq<Seq<char>> {
    names.filter(|name: Seq<char>| name.len() > 0)
}

/// A sequence that holds what a sequence of one item holds is that sequence.
pub proof fn lemma_rearranged_single<A>(s: Seq<A>, x: A)
    requires
        s.to_multiset() == seq![x].to_multiset(),
    ensures
        s == seq![x],
{
    broadcast use group_multiset_axioms;

    let single = seq![x];
    to_multiset_len(s);
    to_multiset_len(single);
    assert(s.len() == 1);
    assert(s.contains(s[0]));
    to_multiset_contains(s, s[0]);
    to_multiset_contains(single, s[0]);
    assert(single.contains(s[0]));
    assert(s =~= single);
}

/// Filtering keeps an item as often as the sequence holds it, or not at all.
proof fn lemma_filter_count<A>(s: Seq<A>, keep: spec_fn(A) -> bool, x: A)
    ensures
        s.filter(keep).to_multiset().count(x) == if keep(x) {
            s.to_multiset().count(x)
        } else {
            0
        },
    decreases s.len(),
{
    broadcast use group_multiset_axioms;

    if s.len() == 0 {
        assert(s.filter(keep) =~= s);
        to_multiset_len(s);
        lemma_multiset_empty_len(s.to_multiset());
    } else {
        let shorter = s.drop_last();
        let last = s.last();
        assert(shorter.push(last) =~= s);
        shorter.lemma_filter_push(last, keep);
        lemma_filter_count(shorter, keep, x);
        to_multiset_build(shorter, last);
        if keep(last) {
            to_multiset_build(shorter.filter(keep), last);
        }
    }
}

/// Two sequences that hold the same items hold the same items after
/// filtering.
pub proof fn lemma_filter_rearranged<A>(a: Seq<A>, b: Seq<A>, keep: spec_fn(A) -> bool)
    requires
        a.to_multiset() == b.to_multiset(),
    ensures
        a.filter(keep).to_multiset() == b.filter(keep).to_multiset(),
{
    broadcast use group_multiset_axioms;

    assert forall|x: A|
        a.filter(keep).to_multiset().count(x) == b.filter(keep).to_multiset().count(x) by {
        lemma_filter_count(a, keep, x);
        lemma_filter_count(b, keep, x);
    }
    assert(a.filter(keep).to_multiset() =~= b.filter(keep).to_multiset());
}

/// What the capture of an image says, where the image needs one shared object
/// and imports one named symbol: the needed list is that object, the imported
/// list is that symbol beside unnamed ones, the exported list holds the
/// exported names of the symbol table in natural order, and kind, file name,
/// soname and search paths are those of the image. Here `capture` is any
/// capture that an extraction from `tables` may give.
pub proof fn lemma_capture_of_image(
    filename: Seq<char>,
    tables: ElfTablesView,
    capture: CaptureView,
    needed: Seq<char>,
    imported: Seq<char>,
)
    requires
        extraction(filename, tables) == Ok::<CaptureView, CaptureError>(capture),
        capture.wf(),
        keeps_names(capture, image_symbols(tables), image_entries(tables)),
        texts_with_tag(image_entries(tables), DT_NEEDED) == seq![needed],
        named(names_in_class(image_symbols(tables), SymbolClass::Imported)) == seq![imported],
    ensures
        capture.kind == kind_of(tables.file_type),
        capture.filename == filename,
        capture.needed_deps == seq![needed],
        named(capture.imported_symbols) == seq![imported],
        capture.exported_symbols.to_multiset() == names_in_class(
            image_symbols(tables),
            SymbolClass::Exported,
        ).to_multiset(),
        in_natural_order(capture.exported_symbols),
        capture.soname == last_with_tag(image_entries(tables), DT_SONAME),
        capture.rpath == last_with_tag(image_entries(tables), DT_RPATH),
        capture.runpath == last_with_tag(image_entries(tables), DT_RUNPATH),
        capture.optional_deps.len() == 0,
        capture.manual_deps.len() == 0,
{
    lemma_rearranged_single(capture.needed_deps, needed);
    lemma_filter_rearranged(
        capture.imported_symbols,
        names_in_class(image_symbols(tables), SymbolClass::Imported),
        |name: Seq<char>| name.len() > 0,
    );
    lemma_rearranged_single(named(capture.imported_symbols), imported);
}

/// A report of one capture answers for that capture: the report holds it
/// alone, names its file for every symbol that it exports, and names its file
/// for the soname that it claims. Here `report` is any report that a build
/// from the one capture may give.
pub proof fn lemma_report_of_one(report: ReportView, capture: CaptureView, symbol: Seq<char>)
    requires
        report.captures.to_multiset() == seq![capture].to_multiset(),
    ensures
        report.captures == seq![capture],
        report.index_of(capture.filename) == Some(0int),
        capture.exported_symbols.contains(symbol) ==> report.files_with_symbol(symbol) == seq![
            capture.filename,
        ],
        !capture.exported_symbols.contains(symbol) ==> report.files_with_symbol(symbol).len() == 0,
        capture.soname matches Some(soname) ==> report.filename_of_soname(soname) == Some(
            capture.filename,
        ),
        report.soname_of_filename(capture.filename) == capture.soname,
{
    lemma_rearranged_single(report.captures, capture);
    let none = Seq::<CaptureView>::empty();
    let exports = |c: CaptureView| c.exported_symbols.contains(symbol);
    assert(none.push(capture) =~= report.captures);
    none.lemma_filter_push(capture, exports);
    assert(none.filter(exports) =~= none);
    if capture.exported_symbols.contains(symbol) {
        assert(report.files_with_symbol(symbol) =~= seq![capture.filename]);
    }
    assert(report.is_file(0, capture.filename));
    let at = choose|i: int| report.is_file(i, capture.filename);
    assert(at == 0);
    if capture.soname is Some {
        assert(report.claims(0, capture.soname->0));
        let owner = choose|i: int| report.claims(i, capture.soname->0);
        assert(owner == 0);
    }
}

} // verus!
