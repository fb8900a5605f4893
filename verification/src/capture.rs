//! The ABI capture of one binary.

use crate::natural::{in_natural_order, natural_sorted, sort_natural, views};
use vstd::prelude::*;

verus! {

/// What kind of binary a capture was taken from.
#[derive(Clone, Copy, Debug, PartialEq, Eq, Structural)]
pub enum ElfKind {
    Executable,
    SharedObject,
    Unknown,
}

/// Why no capture could be taken from a file.
#[derive(Clone, Copy, Debug, PartialEq, Eq, Structural)]
pub enum CaptureError {
    /// The path does not exist.
    NotFound,
    /// The file exists and could not be read.
    Unreadable,
    /// The bytes are no well-formed ELF image.
    MalformedElf,
    /// The image lacks the dynamic symbol table, the dynamic section or the
    /// string table of either, as a statically linked binary does.
    MissingDynamicData,
    /// A table entry names a string that its string table does not hold.
    BadStringOffset,
}

/// The view of an optional string.
pub open spec fn text(s: Option<String>) -> Option<Seq<char>> {
    match s {
        Some(s) => Some(s@),
        None => None,
    }
}

/// Mathematical content of an [`AbiCapture`].
pub struct CaptureView {
    pub kind: ElfKind,
    pub filename: Seq<char>,
    pub imported_symbols: Seq<Seq<char>>,
    pub exported_symbols: Seq<Seq<char>>,
    pub manual_deps: Seq<Seq<char>>,
    pub needed_deps: Seq<Seq<char>>,
    pub optional_deps: Seq<Seq<char>>,
    pub rpath: Option<Seq<char>>,
    pub runpath: Option<Seq<char>>,
    pub soname: Option<Seq<char>>,
}

impl CaptureView {
    /// The symbol lists and the needed dependencies are in natural order.
    pub open spec fn wf(self) -> bool {
        &&& in_natural_order(self.imported_symbols)
        &&& in_natural_order(self.exported_symbols)
        &&& in_natural_order(self.needed_deps)
    }
}

/// What one binary imports, exports and depends on.
#[derive(Debug, PartialEq, Eq)]
pub struct AbiCapture {
    kind: ElfKind,
    filename: String,
    imported_symbols: Vec<String>,
    exported_symbols: Vec<String>,
    manual_deps: Vec<String>,
    needed_deps: Vec<String>,
    optional_deps: Vec<String>,
    rpath: Option<String>,
    runpath: Option<String>,
    soname: Option<String>,
}

impl View for AbiCapture {
    type V = CaptureView;

    closed spec fn view(&self) -> CaptureView {
        CaptureView {
            kind: self.kind,
            filename: self.filename@,
            imported_symbols: views(self.imported_symbols@),
            exported_symbols: views(self.exported_symbols@),
            manual_deps: views(self.manual_deps@),
            needed_deps: views(self.needed_deps@),
            optional_deps: views(self.optional_deps@),
            rpath: text(self.rpath),
            runpath: text(self.runpath),
            soname: text(self.soname),
        }
    }
}

impl Clone for AbiCapture {
    fn clone(&self) -> (copy: AbiCapture)
        ensures
            copy@ == self@,
    {
        proof {
            use_type_invariant(self);
        }
        let copy = AbiCapture {
            kind: self.kind,
            filename: self.filename.clone(),
            imported_symbols: self.imported_symbols.clone(),
            exported_symbols: self.exported_symbols.clone(),
            manual_deps: self.manual_deps.clone(),
            needed_deps: self.needed_deps.clone(),
            optional_deps: self.optional_deps.clone(),
            rpath: self.rpath.clone(),
            runpath: self.runpath.clone(),
            soname: self.soname.clone(),
        };
        assert(views(copy.imported_symbols@) =~= views(self.imported_symbols@));
        assert(views(copy.exported_symbols@) =~= views(self.exported_symbols@));
        assert(views(copy.manual_deps@) =~= views(self.manual_deps@));
        assert(views(copy.needed_deps@) =~= views(self.needed_deps@));
        assert(views(copy.optional_deps@) =~= views(self.optional_deps@));
        copy
    }
}

impl AbiCapture {
    #[verifier::type_invariant]
    closed spec fn inv(self) -> bool {
        self@.wf()
    }

    /// A capture of the given lists, each brought into natural order. The
    /// optional and manual dependencies start out empty.
    pub fn new(
        kind: ElfKind,
        filename: String,
        imported_symbols: Vec<String>,
        exported_symbols: Vec<String>,
        needed_deps: Vec<String>,
        rpath: Option<String>,
        runpath: Option<String>,
        soname: Option<String>,
    ) -> (capture: AbiCapture)
        ensures
            capture@ == (CaptureView {
                kind,
                filename: filename@,
                imported_symbols: natural_sorted(views(imported_symbols@)),
                exported_symbols: natural_sorted(views(exported_symbols@)),
                manual_deps: Seq::empty(),
                needed_deps: natural_sorted(views(needed_deps@)),
                optional_deps: Seq::empty(),
                rpath: text(rpath),
                runpath: text(runpath),
                soname: text(soname),
            }),
            capture@.wf(),
            capture@.imported_symbols.to_multiset() == views(imported_symbols@).to_multiset(),
            capture@.exported_symbols.to_multiset() == views(exported_symbols@).to_multiset(),
            capture@.needed_deps.to_multiset() == views(needed_deps@).to_multiset(),
    {
        let imported_symbols = sort_natural(imported_symbols);
        let exported_symbols = sort_natural(exported_symbols);
        let needed_deps = sort_natural(needed_deps);
        AbiCapture::from_sorted(
            kind,
            filename,
            imported_symbols,
            exported_symbols,
            needed_deps,
            rpath,
            runpath,
            soname,
        )
    }

    /// A capture of lists that are in natural order already.
    pub(crate) fn from_sorted(
        kind: ElfKind,
        filename: String,
        imported_symbols: Vec<String>,
        exported_symbols: Vec<String>,
        needed_deps: Vec<String>,
        rpath: Option<String>,
        runpath: Option<String>,
        soname: Option<String>,
    ) -> (capture: AbiCapture)
        requires
            in_natural_order(views(imported_symbols@)),
            in_natural_order(views(exported_symbols@)),
            in_natural_order(views(needed_deps@)),
        ensures
            capture@ == (CaptureView {
                kind,
                filename: filename@,
                imported_symbols: views(imported_symbols@),
                exported_symbols: views(exported_symbols@),
                manual_deps: Seq::empty(),
                needed_deps: views(needed_deps@),
                optional_deps: Seq::empty(),
                rpath: text(rpath),
                runpath: text(runpath),
                soname: text(soname),
            }),
            capture@.wf(),
    {
        let capture = AbiCapture {
            kind,
            filename,
            imported_symbols,
            exported_symbols,
            manual_deps: Vec::new(),
            needed_deps,
            optional_deps: Vec::new(),
            rpath,
            runpath,
            soname,
        };
        assert(capture@.manual_deps =~= Seq::empty());
        assert(capture@.optional_deps =~= Seq::empty());
        capture
    }

    /// A capture of a binary without dynamic data: every list is empty and
    /// every path attribute is absent.
    pub fn without_dynamic_data(kind: ElfKind, filename: String) -> (capture: AbiCapture)
        ensures
            capture@ == static_capture(kind, filename@),
            capture@.wf(),
    {
        let capture = AbiCapture::from_sorted(
            kind,
            filename,
            Vec::new(),
            Vec::new(),
            Vec::new(),
            None,
            None,
            None,
        );
        assert(capture@.imported_symbols =~= Seq::empty());
        assert(capture@.exported_symbols =~= Seq::empty());
        assert(capture@.needed_deps =~= Seq::empty());
        capture
    }

    pub fn kind(&self) -> (kind: ElfKind)
        ensures
            kind == self@.kind,
    {
        self.kind
    }

    pub fn filename(&self) -> (filename: &String)
        ensures
            filename@ == self@.filename,
    {
        &self.filename
    }

    /// The symbols that the binary refers to and does not define.
    pub fn imported_symbols(&self) -> (symbols: &Vec<String>)
        ensures
            views(symbols@) == self@.imported_symbols,
            in_natural_order(views(symbols@)),
    {
        proof {
            use_type_invariant(self);
        }
        &self.imported_symbols
    }

    /// The symbols that the binary defines with default visibility.
    pub fn exported_symbols(&self) -> (symbols: &Vec<String>)
        ensures
            views(symbols@) == self@.exported_symbols,
            in_natural_order(views(symbols@)),
    {
        proof {
            use_type_invariant(self);
        }
        &self.exported_symbols
    }

    /// The shared objects that the binary was linked against.
    pub fn needed_deps(&self) -> (deps: &Vec<String>)
        ensures
            views(deps@) == self@.needed_deps,
            in_natural_order(views(deps@)),
    {
        proof {
            use_type_invariant(self);
        }
        &self.needed_deps
    }

    /// Dependencies that the binary opens at run time; none are detected.
    pub fn optional_deps(&self) -> (deps: &Vec<String>)
        ensures
            views(deps@) == self@.optional_deps,
    {
        &self.optional_deps
    }

    /// Dependencies that a packager declared; none are recorded.
    pub fn manual_deps(&self) -> (deps: &Vec<String>)
        ensures
            views(deps@) == self@.manual_deps,
    {
        &self.manual_deps
    }

    pub fn rpath(&self) -> (rpath: &Option<String>)
        ensures
            text(*rpath) == self@.rpath,
    {
        &self.rpath
    }

    pub fn runpath(&self) -> (runpath: &Option<String>)
        ensures
            text(*runpath) == self@.runpath,
    {
        &self.runpath
    }

    pub fn soname(&self) -> (soname: &Option<String>)
        ensures
            text(*soname) == self@.soname,
    {
        &self.soname
    }
}

/// The capture of a binary named `filename` that has no dynamic data.
pub open spec fn static_capture(kind: ElfKind, filename: Seq<char>) -> CaptureView {
    CaptureView {
        kind,
        filename,
        imported_symbols: Seq::empty(),
        exported_symbols: Seq::empty(),
        manual_deps: Seq::empty(),
        needed_deps: Seq::empty(),
        optional_deps: Seq::empty(),
        rpath: None,
        runpath: None,
        soname: None,
    }
}

} // verus!
