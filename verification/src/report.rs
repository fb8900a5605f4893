//! The report that cross-references the captures of a set of binaries.

use crate::capture::{text, AbiCapture, CaptureView};
use crate::index_order::{
    arrange, capture_views, distinct_by, distinct_filenames, distinct_sonames, filenames, indexed,
    key_of, lemma_distinct_rearranged, CaptureKey,
};
use crate::natural::{in_natural_order, views};
use vstd::hash_map::StringHashMap;
use vstd::prelude::*;
use vstd::seq_lib::group_to_multiset_ensures;

verus! {

/// Why a set of captures cannot make up one report.
#[derive(Debug, PartialEq, Eq)]
pub enum AggregationError {
    /// Two captures have this file name.
    DuplicateFilename(String),
    /// Two captures claim one soname.
    ConflictingSoname {
        soname: String,
        /// File name of the capture that holds the soname.
        first: String,
        /// File name of the capture that claims it as well.
        second: String,
    },
}

/// Mathematical content of an [`AggregationError`].
pub enum AggregationErrorView {
    DuplicateFilename(Seq<char>),
    ConflictingSoname { soname: Seq<char>, first: Seq<char>, second: Seq<char> },
}

impl View for AggregationError {
    type V = AggregationErrorView;

    open spec fn view(&self) -> AggregationErrorView {
        match self {
            AggregationError::DuplicateFilename(name) => AggregationErrorView::DuplicateFilename(
                name@,
            ),
            AggregationError::ConflictingSoname { soname, first, second } => {
                AggregationErrorView::ConflictingSoname {
                    soname: soname@,
                    first: first@,
                    second: second@,
                }
            },
        }
    }
}

/// Capture `j` is the first that repeats a name under `key`, and capture `i`
/// is the one before it that has that name.
pub open spec fn first_clash(captures: Seq<CaptureView>, key: CaptureKey, i: int, j: int) -> bool {
    &&& 0 <= i < j < captures.len()
    &&& key_of(captures[i], key) is Some
    &&& key_of(captures[i], key) == key_of(captures[j], key)
    &&& distinct_by(captures.take(j), key)
}

/// The name of a capture under `key`.
fn key_text(capture: &AbiCapture, key: CaptureKey) -> (name: Option<&String>)
    ensures
        match name {
            Some(name) => key_of(capture@, key) == Some(name@),
            None => key_of(capture@, key) is None,
        },
{
    match key {
        CaptureKey::Filename => Some(capture.filename()),
        CaptureKey::Soname => match capture.soname() {
            Some(soname) => Some(soname),
            None => None,
        },
    }
}

/// Looks for the first capture that repeats a name under `key`.
fn find_clash(captures: &Vec<AbiCapture>, key: CaptureKey) -> (clash: Option<(usize, usize)>)
    ensures
        clash is None <==> distinct_by(capture_views(captures@), key),
        clash matches Some((i, j)) ==> first_clash(
            capture_views(captures@),
            key,
            i as int,
            j as int,
        ),
{
    let ghost all = capture_views(captures@);
    let mut seen: StringHashMap<usize> = StringHashMap::new();
    let mut j: usize = 0;
    while j < captures.len()
        invariant
            j <= captures.len(),
            all == capture_views(captures@),
            distinct_by(all.take(j as int), key),
            forall|name: Seq<char>| #[trigger]
                seen@.contains_key(name) ==> seen@[name] < j && key_of(all[seen@[name] as int], key)
                    == Some(name),
            forall|i: int|
                0 <= i < j && key_of(#[trigger] all[i], key) is Some ==> seen@.contains_key(
                    key_of(all[i], key)->0,
                ),
        decreases captures.len() - j,
    {
        assert(all[j as int] == captures@[j as int]@);
        match key_text(&captures[j], key) {
            Some(name) => {
                match seen.get(name.as_str()) {
                    Some(i) => {
                        assert(!distinct_by(all, key)) by {
                            assert(key_of(all[*i as int], key) == key_of(all[j as int], key));
                        }
                        return Some((*i, j));
                    },
                    None => {
                        seen.insert(name.clone(), j);
                    },
                }
            },
            None => {},
        }
        proof {
            let longer = all.take(j + 1);
            let shorter = all.take(j as int);
            assert forall|a: int, b: int|
                0 <= a < b < longer.len() && key_of(#[trigger] longer[a], key) is Some implies key_of(
                longer[a],
                key,
            ) != key_of(#[trigger] longer[b], key) by {
                assert(longer[a] == all[a] && longer[b] == all[b]);
                if b < j {
                    assert(shorter[a] == all[a] && shorter[b] == all[b]);
                }
            }
        }
        j += 1;
    }
    assert(all.take(captures.len() as int) =~= all);
    None
}

/// Mathematical content of an [`AbiReport`]: its captures in index order.
pub struct ReportView {
    pub captures: Seq<CaptureView>,
}

impl ReportView {
    /// No two captures share a file name or a soname, and the file names are
    /// in natural order.
    pub open spec fn wf(self) -> bool {
        &&& distinct_filenames(self.captures)
        &&& distinct_sonames(self.captures)
        &&& in_natural_order(filenames(self.captures))
    }

    /// Whether capture `i` is the one of the file named `name`.
    pub open spec fn is_file(self, i: int, name: Seq<char>) -> bool {
        0 <= i < self.captures.len() && self.captures[i].filename == name
    }

    /// Whether capture `i` claims `soname`.
    pub open spec fn claims(self, i: int, soname: Seq<char>) -> bool {
        0 <= i < self.captures.len() && self.captures[i].soname == Some(soname)
    }

    /// The index of the capture of the file named `name`.
    pub open spec fn index_of(self, name: Seq<char>) -> Option<int> {
        if exists|i: int| self.is_file(i, name) {
            Some(choose|i: int| self.is_file(i, name))
        } else {
            None
        }
    }

    /// The file names of the captures that export `symbol`, in index order.
    pub open spec fn files_with_symbol(self, symbol: Seq<char>) -> Seq<Seq<char>> {
        self.captures.filter(|c: CaptureView| c.exported_symbols.contains(symbol)).map_values(
            |c: CaptureView| c.filename,
        )
    }

    /// The imported and the exported symbols of the file named `name`.
    pub open spec fn symbols_of_file(self, name: Seq<char>) -> Option<
        (Seq<Seq<char>>, Seq<Seq<char>>),
    > {
        match self.index_of(name) {
            Some(i) => Some(
                (self.captures[i].imported_symbols, self.captures[i].exported_symbols),
            ),
            None => None,
        }
    }

    /// The name of the file that claims `soname`.
    pub open spec fn filename_of_soname(self, soname: Seq<char>) -> Option<Seq<char>> {
        if exists|i: int| self.claims(i, soname) {
            Some(self.captures[choose|i: int| self.claims(i, soname)].filename)
        } else {
            None
        }
    }

    /// The soname that the file named `name` claims.
    pub open spec fn soname_of_filename(self, name: Seq<char>) -> Option<Seq<char>> {
        match self.index_of(name) {
            Some(i) => self.captures[i].soname,
            None => None,
        }
    }
}

/// `map` takes the file name of each of the first `n` captures to its index.
spec fn index_map_ok(map: Map<Seq<char>, usize>, captures: Seq<CaptureView>, n: int) -> bool {
    &&& forall|name: Seq<char>| #[trigger]
        map.contains_key(name) ==> map[name] < n && captures[map[name] as int].filename == name
    &&& forall|i: int|
        0 <= i < n ==> map.contains_key((#[trigger] captures[i]).filename)
            && map[captures[i].filename] == i
}

/// `map` takes the file name of each of the first `n` captures to its soname.
spec fn soname_map_ok(
    map: Map<Seq<char>, Option<String>>,
    captures: Seq<CaptureView>,
    n: int,
) -> bool {
    &&& forall|name: Seq<char>| #[trigger]
        map.contains_key(name) ==> exists|i: int|
            0 <= i < n && (#[trigger] captures[i]).filename == name
    &&& forall|i: int|
        0 <= i < n ==> map.contains_key((#[trigger] captures[i]).filename) && text(
            map[captures[i].filename],
        ) == captures[i].soname
}

/// `map` takes each soname that one of the first `n` captures claims to the
/// file name of that capture.
spec fn owner_map_ok(map: Map<Seq<char>, String>, captures: Seq<CaptureView>, n: int) -> bool {
    &&& forall|soname: Seq<char>| #[trigger]
        map.contains_key(soname) ==> exists|i: int|
            0 <= i < n && (#[trigger] captures[i]).soname == Some(soname)
    &&& forall|i: int|
        0 <= i < n && (#[trigger] captures[i]).soname is Some ==> map.contains_key(
            captures[i].soname->0,
        ) && map[captures[i].soname->0]@ == captures[i].filename
}

fn build_index_map(captures: &Vec<AbiCapture>) -> (map: StringHashMap<usize>)
    requires
        distinct_filenames(capture_views(captures@)),
    ensures
        index_map_ok(map@, capture_views(captures@), captures.len() as int),
{
    let ghost all = capture_views(captures@);
    let mut map: StringHashMap<usize> = StringHashMap::new();
    let mut n: usize = 0;
    while n < captures.len()
        invariant
            n <= captures.len(),
            all == capture_views(captures@),
            distinct_filenames(all),
            index_map_ok(map@, all, n as int),
        decreases captures.len() - n,
    {
        assert(all[n as int] == captures@[n as int]@);
        map.insert(captures[n].filename().clone(), n);
        proof {
            assert forall|i: int| 0 <= i < n + 1 implies map@.contains_key(
                (#[trigger] all[i]).filename,
            ) && map@[all[i].filename] == i by {
                if i < n {
                    assert(key_of(all[i], CaptureKey::Filename) != key_of(
                        all[n as int],
                        CaptureKey::Filename,
                    ));
                }
            }
        }
        n += 1;
    }
    map
}

fn build_soname_map(captures: &Vec<AbiCapture>) -> (map: StringHashMap<Option<String>>)
    requires
        distinct_filenames(capture_views(captures@)),
    ensures
        soname_map_ok(map@, capture_views(captures@), captures.len() as int),
{
    let ghost all = capture_views(captures@);
    let mut map: StringHashMap<Option<String>> = StringHashMap::new();
    let mut n: usize = 0;
    while n < captures.len()
        invariant
            n <= captures.len(),
            all == capture_views(captures@),
            distinct_filenames(all),
            soname_map_ok(map@, all, n as int),
        decreases captures.len() - n,
    {
        let ghost before = map@;
        assert(all[n as int] == captures@[n as int]@);
        let soname = captures[n].soname().clone();
        map.insert(captures[n].filename().clone(), soname);
        proof {
            assert forall|i: int| 0 <= i < n + 1 implies map@.contains_key(
                (#[trigger] all[i]).filename,
            ) && text(map@[all[i].filename]) == all[i].soname by {
                if i < n {
                    assert(key_of(all[i], CaptureKey::Filename) != key_of(
                        all[n as int],
                        CaptureKey::Filename,
                    ));
                }
            }
            assert forall|name: Seq<char>| #[trigger] map@.contains_key(name) implies exists|
                i: int,
            |
                0 <= i < n + 1 && (#[trigger] all[i]).filename == name by {
                if name == all[n as int].filename {
                    assert(all[n as int].filename == name);
                } else {
                    assert(before.contains_key(name));
                    let i = choose|i: int| 0 <= i < n && (#[trigger] all[i]).filename == name;
                    assert(all[i].filename == name);
                }
            }
        }
        n += 1;
    }
    map
}

fn build_owner_map(captures: &Vec<AbiCapture>) -> (map: StringHashMap<String>)
    requires
        distinct_sonames(capture_views(captures@)),
    ensures
        owner_map_ok(map@, capture_views(captures@), captures.len() as int),
{
    let ghost all = capture_views(captures@);
    let mut map: StringHashMap<String> = StringHashMap::new();
    let mut n: usize = 0;
    while n < captures.len()
        invariant
            n <= captures.len(),
            all == capture_views(captures@),
            distinct_sonames(all),
            owner_map_ok(map@, all, n as int),
        decreases captures.len() - n,
    {
        let ghost before = map@;
        assert(all[n as int] == captures@[n as int]@);
        match captures[n].soname() {
            Some(soname) => {
                map.insert(soname.clone(), captures[n].filename().clone());
                proof {
                    assert forall|i: int|
                        0 <= i < n + 1 && (#[trigger] all[i]).soname is Some implies map@.contains_key(
                        all[i].soname->0,
                    ) && map@[all[i].soname->0]@ == all[i].filename by {
                        if i < n {
                            assert(key_of(all[i], CaptureKey::Soname) != key_of(
                                all[n as int],
                                CaptureKey::Soname,
                            ));
                        }
                    }
                    assert forall|name: Seq<char>| #[trigger]
                        map@.contains_key(name) implies exists|i: int|
                        0 <= i < n + 1 && (#[trigger] all[i]).soname == Some(name) by {
                        if name == soname@ {
                            assert(all[n as int].soname == Some(name));
                        } else {
                            assert(before.contains_key(name));
                            let i = choose|i: int|
                                0 <= i < n && (#[trigger] all[i]).soname == Some(name);
                            assert(all[i].soname == Some(name));
                        }
                    }
                }
            },
            None => {
                proof {
                    assert forall|name: Seq<char>| #[trigger]
                        map@.contains_key(name) implies exists|i: int|
                        0 <= i < n + 1 && (#[trigger] all[i]).soname == Some(name) by {
                        let i = choose|i: int|
                            0 <= i < n && (#[trigger] all[i]).soname == Some(name);
                        assert(all[i].soname == Some(name));
                    }
                }
            },
        }
        n += 1;
    }
    map
}

/// Capture `i` exports `symbol`, as far as the first `n` captures and the
/// first `m` exported symbols of capture `n` go.
spec fn exported_within(
    captures: Seq<CaptureView>,
    i: int,
    symbol: Seq<char>,
    n: int,
    m: int,
) -> bool {
    ||| 0 <= i < n && captures[i].exported_symbols.contains(symbol)
    ||| i == n && 0 <= n < captures.len() && captures[n].exported_symbols.take(m).contains(
        symbol,
    )
}

/// The indices rise strictly.
spec fn ascending(indices: Seq<usize>) -> bool {
    forall|a: int, b: int| 0 <= a < b < indices.len() ==> indices[a] < indices[b]
}

/// `indices` lists, in rising order, the captures that export `symbol`.
spec fn lists_exporters(
    indices: Seq<usize>,
    captures: Seq<CaptureView>,
    symbol: Seq<char>,
    n: int,
    m: int,
) -> bool {
    &&& indices.len() > 0
    &&& ascending(indices)
    &&& forall|k: int|
        0 <= k < indices.len() ==> exported_within(captures, #[trigger] indices[k] as int, symbol, n, m)
    &&& forall|i: int| #[trigger]
        exported_within(captures, i, symbol, n, m) ==> indices.contains(i as usize)
}

/// What `map` holds for `symbol` is the list of the captures that export it.
spec fn exporters_at(
    map: Map<Seq<char>, Vec<usize>>,
    captures: Seq<CaptureView>,
    symbol: Seq<char>,
    n: int,
    m: int,
) -> bool {
    if map.contains_key(symbol) {
        lists_exporters(map[symbol]@, captures, symbol, n, m)
    } else {
        forall|i: int| !#[trigger] exported_within(captures, i, symbol, n, m)
    }
}

/// `map` takes each exported symbol to the list of the captures that export
/// it.
spec fn exporters_ok(
    map: Map<Seq<char>, Vec<usize>>,
    captures: Seq<CaptureView>,
    n: int,
    m: int,
) -> bool {
    forall|symbol: Seq<char>| #[trigger] exporters_at(map, captures, symbol, n, m)
}

proof fn lemma_exported_within_next_capture(captures: Seq<CaptureView>, n: int)
    requires
        0 <= n < captures.len(),
    ensures
        forall|i: int, symbol: Seq<char>|
            exported_within(captures, i, symbol, n, captures[n].exported_symbols.len() as int)
                == #[trigger] exported_within(captures, i, symbol, n + 1, 0),
{
    let exported = captures[n].exported_symbols;
    assert(exported.take(exported.len() as int) =~= exported);
    if n + 1 < captures.len() {
        assert(captures[n + 1].exported_symbols.take(0) =~= Seq::empty());
    }
}

proof fn lemma_exported_within_next_symbol(
    captures: Seq<CaptureView>,
    i: int,
    symbol: Seq<char>,
    n: int,
    m: int,
)
    requires
        0 <= n < captures.len(),
        0 <= m < captures[n].exported_symbols.len(),
    ensures
        exported_within(captures, i, symbol, n, m + 1) == (exported_within(
            captures,
            i,
            symbol,
            n,
            m,
        ) || (i == n && captures[n].exported_symbols[m] == symbol)),
{
    let exported = captures[n].exported_symbols;
    let shorter = exported.take(m);
    let longer = exported.take(m + 1);
    assert(longer =~= shorter.push(exported[m]));
    if longer.contains(symbol) {
        let k = choose|k: int| 0 <= k < longer.len() && longer[k] == symbol;
        if k < m {
            assert(shorter[k] == symbol);
        }
    }
    if shorter.contains(symbol) {
        let k = choose|k: int| 0 <= k < shorter.len() && shorter[k] == symbol;
        assert(longer[k] == symbol);
    }
    if exported[m] == symbol {
        assert(longer[m] == symbol);
    }
}

/// Records that capture `n` exports `symbol`.
fn note_exporter(
    map: &mut StringHashMap<Vec<usize>>,
    symbol: &String,
    n: usize,
    Ghost(captures): Ghost<Seq<CaptureView>>,
    Ghost(m): Ghost<int>,
)
    requires
        0 <= n < captures.len(),
        0 <= m < captures[n as int].exported_symbols.len(),
        captures[n as int].exported_symbols[m] == symbol@,
        exporters_ok(old(map)@, captures, n as int, m),
    ensures
        exporters_ok(final(map)@, captures, n as int, m + 1),
{
    let ghost before = map@;
    let ghost base: Seq<usize> = if before.contains_key(symbol@) {
        before[symbol@]@
    } else {
        Seq::empty()
    };
    assert(exporters_at(before, captures, symbol@, n as int, m));
    let mut indices: Vec<usize> = Vec::new();
    let mut listed = false;
    match map.get(symbol.as_str()) {
        Some(known) => {
            indices = known.clone();
            assert(indices@ =~= known@);
            listed = known[known.len() - 1] == n;
        },
        None => {},
    }
    assert(indices@ == base);
    proof {
        // The captures listed so far lie at or before `n`, and `n` is listed
        // exactly where it stands last.
        assert forall|k: int| 0 <= k < base.len() implies #[trigger] base[k] <= n && (!listed
            ==> base[k] < n) by {
            let last = base.len() - 1;
            assert(exported_within(captures, base[k] as int, symbol@, n as int, m));
            assert(exported_within(captures, base[last] as int, symbol@, n as int, m));
            if k < last {
                assert(base[k] < base[last]);
            }
        }
        if listed {
            assert(base[base.len() - 1] == n);
            assert(base.contains(n));
        }
    }
    if !listed {
        indices.push(n);
    }
    let ghost listing = indices@;
    proof {
        assert(listing == if listed {
            base
        } else {
            base.push(n)
        });
        assert(listing.contains(n)) by {
            if !listed {
                assert(listing[base.len() as int] == n);
            }
        }
        assert forall|x: usize| base.contains(x) implies listing.contains(x) by {
            let k = choose|k: int| 0 <= k < base.len() && base[k] == x;
            assert(listing[k] == x);
        }
        assert(ascending(listing));
    }
    map.insert(symbol.clone(), indices);
    proof {
        assert forall|other: Seq<char>| #[trigger]
            exporters_at(map@, captures, other, n as int, m + 1) by {
            assert(exporters_at(before, captures, other, n as int, m));
            assert forall|i: int|
                #![trigger exported_within(captures, i, other, n as int, m + 1)]
                exported_within(captures, i, other, n as int, m + 1) == (exported_within(
                    captures,
                    i,
                    other,
                    n as int,
                    m,
                ) || (i == n && captures[n as int].exported_symbols[m] == other)) by {
                lemma_exported_within_next_symbol(captures, i, other, n as int, m);
            }
            if other == symbol@ {
                assert(map@.contains_key(other));
                assert(map@[other]@ == listing);
                assert forall|i: int| #[trigger]
                    exported_within(captures, i, other, n as int, m + 1) implies listing.contains(
                    i as usize,
                ) by {
                    if exported_within(captures, i, other, n as int, m) {
                        assert(before.contains_key(other));
                        assert(base.contains(i as usize));
                    } else {
                        assert(i == n);
                    }
                }
                assert forall|k: int| 0 <= k < listing.len() implies exported_within(
                    captures,
                    #[trigger] listing[k] as int,
                    other,
                    n as int,
                    m + 1,
                ) by {
                    if k < base.len() {
                        assert(listing[k] == base[k]);
                        assert(exported_within(captures, base[k] as int, other, n as int, m));
                    } else {
                        assert(listing[k] == n);
                    }
                }
                assert(lists_exporters(listing, captures, other, n as int, m + 1));
            } else {
                if before.contains_key(other) {
                    assert(map@.contains_key(other));
                    assert(map@[other] == before[other]);
                    let kept = before[other]@;
                    assert forall|k: int| 0 <= k < kept.len() implies exported_within(
                        captures,
                        #[trigger] kept[k] as int,
                        other,
                        n as int,
                        m + 1,
                    ) by {
                        assert(exported_within(captures, kept[k] as int, other, n as int, m));
                    }
                    assert forall|i: int| #[trigger]
                        exported_within(captures, i, other, n as int, m + 1) implies kept.contains(
                        i as usize,
                    ) by {
                        assert(exported_within(captures, i, other, n as int, m));
                    }
                    assert(lists_exporters(kept, captures, other, n as int, m + 1));
                } else {
                    assert(!map@.contains_key(other));
                    assert forall|i: int| !#[trigger] exported_within(
                        captures,
                        i,
                        other,
                        n as int,
                        m + 1,
                    ) by {
                        assert(!exported_within(captures, i, other, n as int, m));
                    }
                }
            }
        }
    }
}

fn build_exporters(captures: &Vec<AbiCapture>) -> (map: StringHashMap<Vec<usize>>)
    ensures
        exporters_ok(map@, capture_views(captures@), captures.len() as int, 0),
{
    let ghost all = capture_views(captures@);
    let mut map: StringHashMap<Vec<usize>> = StringHashMap::new();
    let mut n: usize = 0;
    assert forall|symbol: Seq<char>| #[trigger] exporters_at(map@, all, symbol, 0, 0) by {
        if all.len() > 0 {
            assert(all[0].exported_symbols.take(0) =~= Seq::empty());
        }
    }
    while n < captures.len()
        invariant
            n <= captures.len(),
            all == capture_views(captures@),
            exporters_ok(map@, all, n as int, 0),
        decreases captures.len() - n,
    {
        assert(all[n as int] == captures@[n as int]@);
        let exported = captures[n].exported_symbols();
        let mut m: usize = 0;
        while m < exported.len()
            invariant
                m <= exported.len(),
                n < captures.len(),
                all == capture_views(captures@),
                views(exported@) == all[n as int].exported_symbols,
                exporters_ok(map@, all, n as int, m as int),
            decreases exported.len() - m,
        {
            assert(views(exported@)[m as int] == exported@[m as int]@);
            note_exporter(&mut map, &exported[m], n, Ghost(all), Ghost(m as int));
            m += 1;
        }
        proof {
            lemma_exported_within_next_capture(all, n as int);
            assert forall|symbol: Seq<char>| #[trigger]
                exporters_at(map@, all, symbol, n + 1, 0) by {
                assert(exporters_at(map@, all, symbol, n as int, m as int));
                if map@.contains_key(symbol) {
                    let listing = map@[symbol]@;
                    assert forall|k: int| 0 <= k < listing.len() implies exported_within(
                        all,
                        #[trigger] listing[k] as int,
                        symbol,
                        n + 1,
                        0,
                    ) by {
                        assert(exported_within(all, listing[k] as int, symbol, n as int, m as int));
                    }
                }
            }
        }
        n += 1;
    }
    map
}

/// The captures at rising positions that cover every exporter of `symbol` are
/// the exporters of `symbol` in index order.
proof fn lemma_filter_by_positions(
    captures: Seq<CaptureView>,
    symbol: Seq<char>,
    positions: Seq<usize>,
)
    requires
        captures.len() <= usize::MAX,
        ascending(positions),
        forall|k: int|
            0 <= k < positions.len() ==> (#[trigger] positions[k]) < captures.len()
                && captures[positions[k] as int].exported_symbols.contains(symbol),
        forall|i: int|
            0 <= i < captures.len() && (#[trigger] captures[i]).exported_symbols.contains(symbol)
                ==> positions.contains(i as usize),
    ensures
        captures.filter(|c: CaptureView| c.exported_symbols.contains(symbol))
            == positions.map_values(|i: usize| captures[i as int]),
    decreases captures.len(),
{
    let pred = |c: CaptureView| c.exported_symbols.contains(symbol);
    if captures.len() == 0 {
        assert(positions.len() == 0) by {
            if positions.len() > 0 {
                assert(positions[0] < captures.len());
            }
        }
        assert(captures.filter(pred) =~= positions.map_values(|i: usize| captures[i as int]));
    } else {
        let last = captures.len() - 1;
        let shorter = captures.drop_last();
        assert(shorter.push(captures[last]) =~= captures);
        shorter.lemma_filter_push(captures[last], pred);
        if pred(captures[last]) {
            assert(positions.contains(last as usize));
            let at = choose|k: int| 0 <= k < positions.len() && positions[k] == last as usize;
            assert(at == positions.len() - 1) by {
                if at < positions.len() - 1 {
                    assert(positions[at] < positions[positions.len() - 1]);
                }
            }
            let fewer = positions.drop_last();
            assert forall|i: int|
                0 <= i < shorter.len() && (#[trigger] shorter[i]).exported_symbols.contains(
                    symbol,
                ) implies fewer.contains(i as usize) by {
                assert(captures[i] == shorter[i]);
                let k = choose|k: int| 0 <= k < positions.len() && positions[k] == i as usize;
                assert(fewer[k] == i as usize);
            }
            assert forall|k: int| 0 <= k < fewer.len() implies (#[trigger] fewer[k])
                < shorter.len() && shorter[fewer[k] as int].exported_symbols.contains(symbol) by {
                assert(positions[k] < positions[at]);
                assert(shorter[fewer[k] as int] == captures[positions[k] as int]);
            }
            lemma_filter_by_positions(shorter, symbol, fewer);
            assert(fewer.map_values(|i: usize| shorter[i as int]).push(captures[last])
                =~= positions.map_values(|i: usize| captures[i as int]));
        } else {
            assert forall|k: int| 0 <= k < positions.len() implies (#[trigger] positions[k])
                < shorter.len() && shorter[positions[k] as int].exported_symbols.contains(
                symbol,
            ) by {
                assert(captures[positions[k] as int].exported_symbols.contains(symbol));
                assert(shorter[positions[k] as int] == captures[positions[k] as int]);
            }
            assert forall|i: int|
                0 <= i < shorter.len() && (#[trigger] shorter[i]).exported_symbols.contains(
                    symbol,
                ) implies positions.contains(i as usize) by {
                assert(captures[i] == shorter[i]);
            }
            lemma_filter_by_positions(shorter, symbol, positions);
            assert(positions.map_values(|i: usize| shorter[i as int]) =~= positions.map_values(
                |i: usize| captures[i as int],
            ));
        }
    }
}

/// `name` is the file name that is first repeated in `batch`.
pub open spec fn duplicated_in(batch: Seq<CaptureView>, name: Seq<char>) -> bool {
    exists|i: int, j: int| #[trigger]
        first_clash(batch, CaptureKey::Filename, i, j) && batch[j].filename == name
}

/// The file named `second` is the first in `captures` to claim a soname that
/// a capture before it holds: `soname`, which the file named `first` holds.
pub open spec fn conflict_in(
    captures: Seq<CaptureView>,
    soname: Seq<char>,
    first: Seq<char>,
    second: Seq<char>,
) -> bool {
    exists|i: int, j: int| #[trigger]
        first_clash(captures, CaptureKey::Soname, i, j) && captures[j].soname == Some(soname)
            && captures[i].filename == first && captures[j].filename == second
}

/// The cross-reference of a set of captures: which files export a symbol,
/// which symbols a file has, which file claims a soname and which soname a
/// file claims.
pub struct AbiReport {
    captures: Vec<AbiCapture>,
    filename_index: StringHashMap<usize>,
    symbol_to_captures: StringHashMap<Vec<usize>>,
    soname_to_filename: StringHashMap<String>,
    filename_to_soname: StringHashMap<Option<String>>,
}

impl View for AbiReport {
    type V = ReportView;

    closed spec fn view(&self) -> ReportView {
        ReportView { captures: capture_views(self.captures@) }
    }
}

impl AbiReport {
    /// The captures are in index order without a shared file name or soname,
    /// and every mapping says what the captures say.
    pub closed spec fn wf(&self) -> bool {
        let captures = capture_views(self.captures@);
        &&& self@.wf()
        &&& index_map_ok(self.filename_index@, captures, captures.len() as int)
        &&& exporters_ok(self.symbol_to_captures@, captures, captures.len() as int, 0)
        &&& owner_map_ok(self.soname_to_filename@, captures, captures.len() as int)
        &&& soname_map_ok(self.filename_to_soname@, captures, captures.len() as int)
    }

    /// A well-formed report holds well-formed content.
    pub proof fn lemma_view_wf(&self)
        requires
            self.wf(),
        ensures
            self@.wf(),
    {
    }

    /// Indexes captures that stand in index order already.
    fn index_arranged(captures: Vec<AbiCapture>) -> (report: AbiReport)
        requires
            distinct_filenames(capture_views(captures@)),
            distinct_sonames(capture_views(captures@)),
            in_natural_order(filenames(capture_views(captures@))),
        ensures
            report.wf(),
            report@.wf(),
            report@.captures == capture_views(captures@),
    {
        let filename_index = build_index_map(&captures);
        let symbol_to_captures = build_exporters(&captures);
        let soname_to_filename = build_owner_map(&captures);
        let filename_to_soname = build_soname_map(&captures);
        AbiReport {
            captures,
            filename_index,
            symbol_to_captures,
            soname_to_filename,
            filename_to_soname,
        }
    }

    /// A report without captures.
    pub fn new() -> (report: AbiReport)
        ensures
            report.wf(),
            report@.wf(),
            report@.captures == Seq::<CaptureView>::empty(),
    {
        let captures: Vec<AbiCapture> = Vec::new();
        assert(capture_views(captures@) =~= Seq::empty());
        assert(filenames(capture_views(captures@)) =~= Seq::empty());
        AbiReport::index_arranged(captures)
    }

    /// The number of captures.
    pub fn len(&self) -> (len: usize)
        ensures
            len == self@.captures.len(),
    {
        self.captures.len()
    }

    /// The captures in index order.
    pub fn captures(&self) -> (captures: &Vec<AbiCapture>)
        ensures
            capture_views(captures@) == self@.captures,
    {
        &self.captures
    }

    /// The index of the capture of the file named `filename`.
    pub fn index_of(&self, filename: &str) -> (index: Option<usize>)
        requires
            self.wf(),
        ensures
            match index {
                Some(i) => self@.index_of(filename@) == Some(i as int) && self@.is_file(
                    i as int,
                    filename@,
                ),
                None => self@.index_of(filename@) is None,
            },
    {
        let ghost view = self@;
        match self.filename_index.get(filename) {
            Some(i) => {
                proof {
                    assert(view.is_file(*i as int, filename@));
                    let chosen = choose|j: int| view.is_file(j, filename@);
                    assert(view.captures[chosen].filename == filename@);
                }
                Some(*i)
            },
            None => {
                proof {
                    if exists|j: int| view.is_file(j, filename@) {
                        let j = choose|j: int| view.is_file(j, filename@);
                        assert(view.captures[j].filename == filename@);
                    }
                }
                None
            },
        }
    }

    /// The files that export `symbol`, in index order.
    pub fn files_with_symbol(&self, symbol: &str) -> (files: Vec<String>)
        requires
            self.wf(),
        ensures
            views(files@) == self@.files_with_symbol(symbol@),
    {
        let ghost captures = capture_views(self.captures@);
        let ghost len = captures.len() as int;
        let count = self.captures.len();
        assert(captures.len() == count);
        let mut files: Vec<String> = Vec::new();
        assert(exporters_at(self.symbol_to_captures@, captures, symbol@, len, 0));
        match self.symbol_to_captures.get(symbol) {
            Some(indices) => {
                let mut k: usize = 0;
                assert(views(files@) =~= indices@.take(0).map_values(
                    |i: usize| captures[i as int].filename,
                ));
                while k < indices.len()
                    invariant
                        k <= indices.len(),
                        captures == capture_views(self.captures@),
                        len == captures.len(),
                        lists_exporters(indices@, captures, symbol@, len, 0),
                        views(files@) == indices@.take(k as int).map_values(
                            |i: usize| captures[i as int].filename,
                        ),
                    decreases indices.len() - k,
                {
                    let i = indices[k];
                    assert(exported_within(captures, indices@[k as int] as int, symbol@, len, 0));
                    assert(captures[i as int] == self.captures@[i as int]@);
                    let ghost before = files@;
                    files.push(self.captures[i].filename().clone());
                    assert(views(files@) =~= views(before).push(captures[i as int].filename));
                    assert(indices@.take(k + 1) =~= indices@.take(k as int).push(i));
                    assert(indices@.take(k + 1).map_values(|i: usize| captures[i as int].filename)
                        =~= indices@.take(k as int).map_values(
                        |i: usize| captures[i as int].filename,
                    ).push(captures[i as int].filename));
                    k += 1;
                }
                proof {
                    assert(indices@.take(indices@.len() as int) =~= indices@);
                    assert forall|k: int| 0 <= k < indices@.len() implies (
                    #[trigger] indices@[k]) < captures.len()
                        && captures[indices@[k] as int].exported_symbols.contains(symbol@) by {
                        assert(exported_within(captures, indices@[k] as int, symbol@, len, 0));
                    }
                    assert forall|i: int|
                        0 <= i < captures.len() && (
                        #[trigger] captures[i]).exported_symbols.contains(
                            symbol@,
                        ) implies indices@.contains(i as usize) by {
                        assert(exported_within(captures, i, symbol@, len, 0));
                    }
                    lemma_filter_by_positions(captures, symbol@, indices@);
                    assert(indices@.map_values(|i: usize| captures[i as int]).map_values(
                        |c: CaptureView| c.filename,
                    ) =~= indices@.map_values(|i: usize| captures[i as int].filename));
                }
            },
            None => {
                proof {
                    let none: Seq<usize> = Seq::empty();
                    assert forall|i: int|
                        0 <= i < captures.len() && (
                        #[trigger] captures[i]).exported_symbols.contains(
                            symbol@,
                        ) implies none.contains(i as usize) by {
                        assert(exported_within(captures, i, symbol@, len, 0));
                    }
                    lemma_filter_by_positions(captures, symbol@, none);
                    assert(views(files@) =~= none.map_values(
                        |i: usize| captures[i as int],
                    ).map_values(|c: CaptureView| c.filename));
                }
            },
        }
        files
    }

    /// The imported and the exported symbols of the file named `filename`.
    pub fn symbols_of_file(&self, filename: &str) -> (symbols: Option<
        (&Vec<String>, &Vec<String>),
    >)
        requires
            self.wf(),
        ensures
            match symbols {
                Some((imported, exported)) => self@.symbols_of_file(filename@) == Some(
                    (views(imported@), views(exported@)),
                ),
                None => self@.symbols_of_file(filename@) is None,
            },
    {
        match self.index_of(filename) {
            Some(i) => {
                assert(self@.captures[i as int] == self.captures@[i as int]@);
                let capture = &self.captures[i];
                Some((capture.imported_symbols(), capture.exported_symbols()))
            },
            None => None,
        }
    }

    /// The name of the file that claims `soname`.
    pub fn filename_of_soname(&self, soname: &str) -> (filename: Option<&String>)
        requires
            self.wf(),
        ensures
            match filename {
                Some(name) => self@.filename_of_soname(soname@) == Some(name@),
                None => self@.filename_of_soname(soname@) is None,
            },
    {
        let ghost view = self@;
        match self.soname_to_filename.get(soname) {
            Some(name) => {
                proof {
                    let i = choose|i: int|
                        0 <= i < view.captures.len() && (#[trigger] view.captures[i]).soname
                            == Some(soname@);
                    assert(view.claims(i, soname@));
                    let chosen = choose|j: int| view.claims(j, soname@);
                    assert(view.captures[chosen].soname is Some);
                    assert(view.captures[chosen].filename == name@);
                }
                Some(name)
            },
            None => {
                proof {
                    if exists|j: int| view.claims(j, soname@) {
                        let j = choose|j: int| view.claims(j, soname@);
                        assert(view.captures[j].soname is Some);
                    }
                }
                None
            },
        }
    }

    /// The soname that the file named `filename` claims.
    pub fn soname_of_filename(&self, filename: &str) -> (soname: Option<&String>)
        requires
            self.wf(),
        ensures
            match soname {
                Some(soname) => self@.soname_of_filename(filename@) == Some(soname@),
                None => self@.soname_of_filename(filename@) is None,
            },
    {
        let ghost view = self@;
        match self.filename_to_soname.get(filename) {
            Some(soname) => {
                proof {
                    let i = choose|i: int|
                        0 <= i < view.captures.len() && (#[trigger] view.captures[i]).filename
                            == filename@;
                    assert(view.is_file(i, filename@));
                    let chosen = choose|j: int| view.is_file(j, filename@);
                    assert(view.captures[chosen].filename == filename@);
                    assert(text(*soname) == view.captures[chosen].soname);
                }
                match soname {
                    Some(soname) => Some(soname),
                    None => None,
                }
            },
            None => {
                proof {
                    if exists|j: int| view.is_file(j, filename@) {
                        let j = choose|j: int| view.is_file(j, filename@);
                        assert(view.captures[j].filename == filename@);
                    }
                }
                None
            },
        }
    }
}

impl AbiReport {
    /// Builds the report of a batch of captures.
    ///
    /// The captures are indexed by the natural order of their file names,
    /// whatever the order of the batch. A batch in which two captures have one
    /// file name is rejected, with the name that is repeated first in the
    /// batch. One in which two captures claim one soname is rejected, with the
    /// first capture in index order that claims a soname which a capture before
    /// it holds.
    pub fn build(captures: Vec<AbiCapture>) -> (result: Result<AbiReport, AggregationError>)
        ensures
            result is Ok <==> distinct_filenames(capture_views(captures@)) && distinct_sonames(
                capture_views(captures@),
            ),
            distinct_filenames(capture_views(captures@)) ==> {
                &&& indexed(capture_views(captures@)).to_multiset() == capture_views(
                    captures@,
                ).to_multiset()
                &&& distinct_filenames(indexed(capture_views(captures@)))
                &&& in_natural_order(filenames(indexed(capture_views(captures@))))
            },
            match result {
                Ok(report) => {
                    &&& report.wf()
                    &&& report@.wf()
                    &&& report@.captures == indexed(capture_views(captures@))
                    &&& report@.captures.to_multiset() == capture_views(captures@).to_multiset()
                },
                Err(e) => match e@ {
                    AggregationErrorView::DuplicateFilename(name) => duplicated_in(
                        capture_views(captures@),
                        name,
                    ),
                    AggregationErrorView::ConflictingSoname { soname, first, second } => {
                        &&& distinct_filenames(capture_views(captures@))
                        &&& conflict_in(indexed(capture_views(captures@)), soname, first, second)
                    },
                },
            },
    {
        let ghost batch = capture_views(captures@);
        match find_clash(&captures, CaptureKey::Filename) {
            Some((i, j)) => {
                assert(batch[j as int] == captures@[j as int]@);
                assert(first_clash(batch, CaptureKey::Filename, i as int, j as int));
                return Err(AggregationError::DuplicateFilename(captures[j].filename().clone()));
            },
            None => {},
        }
        let arranged = arrange(captures);
        let ghost order = capture_views(arranged@);
        proof {
            if distinct_sonames(batch) {
                lemma_distinct_rearranged(batch, order, CaptureKey::Soname);
            }
            if distinct_sonames(order) {
                lemma_distinct_rearranged(order, batch, CaptureKey::Soname);
            }
        }
        match find_clash(&arranged, CaptureKey::Soname) {
            Some((i, j)) => {
                assert(order[i as int] == arranged@[i as int]@);
                assert(order[j as int] == arranged@[j as int]@);
                assert(first_clash(order, CaptureKey::Soname, i as int, j as int));
                let soname = key_text(&arranged[j], CaptureKey::Soname).unwrap();
                return Err(
                    AggregationError::ConflictingSoname {
                        soname: soname.clone(),
                        first: arranged[i].filename().clone(),
                        second: arranged[j].filename().clone(),
                    },
                );
            },
            None => {},
        }
        Ok(AbiReport::index_arranged(arranged))
    }

    /// Adds one capture and returns the index that it has afterwards. The
    /// report is then the one that is built from all its captures at once, so
    /// the indices of other captures may have moved.
    ///
    /// A capture whose file name the report has already is rejected, and so is
    /// one whose soname another file holds; the report is then as it was.
    pub fn add(&mut self, capture: AbiCapture) -> (result: Result<usize, AggregationError>)
        requires
            old(self).wf(),
        ensures
            final(self).wf(),
            final(self)@.wf(),
            match result {
                Ok(index) => {
                    &&& old(self)@.index_of(capture@.filename) is None
                    &&& capture@.soname matches Some(soname) ==> old(self)@.filename_of_soname(
                        soname,
                    ) is None
                    &&& final(self)@.captures == indexed(old(self)@.captures.push(capture@))
                    &&& final(self)@.captures.to_multiset() == old(self)@.captures.push(
                        capture@,
                    ).to_multiset()
                    &&& final(self)@.is_file(index as int, capture@.filename)
                    &&& final(self)@.captures[index as int] == capture@
                },
                Err(e) => {
                    &&& *final(self) == *old(self)
                    &&& match e@ {
                        AggregationErrorView::DuplicateFilename(name) => {
                            &&& name == capture@.filename
                            &&& old(self)@.index_of(name) is Some
                        },
                        AggregationErrorView::ConflictingSoname { soname, first, second } => {
                            &&& old(self)@.index_of(capture@.filename) is None
                            &&& capture@.soname == Some(soname)
                            &&& old(self)@.filename_of_soname(soname) == Some(first)
                            &&& second == capture@.filename
                        },
                    }
                },
            },
    {
        let ghost start = self@;
        let ghost before = self@.captures;
        let ghost added = capture@;
        if self.index_of(capture.filename().as_str()).is_some() {
            return Err(AggregationError::DuplicateFilename(capture.filename().clone()));
        }
        match capture.soname() {
            Some(soname) => {
                match self.filename_of_soname(soname.as_str()) {
                    Some(owner) => {
                        return Err(
                            AggregationError::ConflictingSoname {
                                soname: soname.clone(),
                                first: owner.clone(),
                                second: capture.filename().clone(),
                            },
                        );
                    },
                    None => {},
                }
            },
            None => {},
        }
        let name = capture.filename().clone();
        let mut captures: Vec<AbiCapture> = Vec::new();
        core::mem::swap(&mut captures, &mut self.captures);
        assert(capture_views(captures@) == before);
        captures.push(capture);
        let ghost batch = capture_views(captures@);
        proof {
            assert(batch =~= before.push(added));
            assert forall|i: int| 0 <= i < before.len() implies key_of(
                #[trigger] before[i],
                CaptureKey::Filename,
            ) != key_of(added, CaptureKey::Filename) by {
                if before[i].filename == added.filename {
                    assert(start.is_file(i, added.filename));
                }
            }
            assert forall|i: int|
                0 <= i < before.len() && key_of(added, CaptureKey::Soname) is Some implies key_of(
                #[trigger] before[i],
                CaptureKey::Soname,
            ) != key_of(added, CaptureKey::Soname) by {
                if before[i].soname == added.soname {
                    assert(start.claims(i, added.soname->0));
                }
            }
            lemma_distinct_with(before, added, CaptureKey::Filename);
            lemma_distinct_with(before, added, CaptureKey::Soname);
        }
        let arranged = arrange(captures);
        proof {
            lemma_distinct_rearranged(batch, capture_views(arranged@), CaptureKey::Soname);
        }
        *self = AbiReport::index_arranged(arranged);
        let index = self.index_of(name.as_str());
        proof {
            broadcast use group_to_multiset_ensures;

            let after = self@.captures;
            assert(batch[before.len() as int] == added);
            assert(batch.contains(added));
            assert(after.to_multiset().count(added) > 0);
            assert(after.contains(added));
            let p = choose|p: int| 0 <= p < after.len() && after[p] == added;
            assert(self@.is_file(p, added.filename));
            assert(index is Some);
            let i = index->0 as int;
            if p < i {
                assert(key_of(after[p], CaptureKey::Filename) != key_of(
                    after[i],
                    CaptureKey::Filename,
                ));
            } else if i < p {
                assert(key_of(after[i], CaptureKey::Filename) != key_of(
                    after[p],
                    CaptureKey::Filename,
                ));
            }
        }
        Ok(index.unwrap())
    }
}

/// Where no capture of `captures` has the name that `added` has under `key`,
/// no two captures share a name under `key` once `added` has joined them.
proof fn lemma_distinct_with(captures: Seq<CaptureView>, added: CaptureView, key: CaptureKey)
    requires
        distinct_by(captures, key),
        forall|i: int|
            0 <= i < captures.len() && key_of(added, key) is Some ==> key_of(
                #[trigger] captures[i],
                key,
            ) != key_of(added, key),
    ensures
        distinct_by(captures.push(added), key),
{
    let longer = captures.push(added);
    assert forall|i: int, j: int|
        0 <= i < j < longer.len() && key_of(#[trigger] longer[i], key) is Some implies key_of(
        longer[i],
        key,
    ) != key_of(#[trigger] longer[j], key) by {
        assert(longer[i] == captures[i]);
        if j < captures.len() {
            assert(longer[j] == captures[j]);
        }
    }
}

} // verus!
