//! Which captures a binary links to, directly or through other binaries, and
//! which of them provide a symbol.
//!
//! A capture depends on another where it needs the soname that the other
//! claims. Dependencies may run in circles; the search marks each capture once
//! and so comes to an end.

use crate::index_order::{capture_views, key_of, CaptureKey};
use crate::natural::views;
use crate::report::{AbiReport, ReportView};
use vstd::prelude::*;

verus! {

impl ReportView {
    /// Capture `i` needs the soname that capture `j` claims.
    pub open spec fn depends_on(self, i: int, j: int) -> bool {
        &&& 0 <= i < self.captures.len()
        &&& 0 <= j < self.captures.len()
        &&& self.captures[j].soname is Some
        &&& self.captures[i].needed_deps.contains(self.captures[j].soname->0)
    }

    /// Each capture of `chain` depends on the next one.
    pub open spec fn is_chain(self, chain: Seq<int>) -> bool {
        &&& chain.len() >= 2
        &&& forall|k: int|
            0 <= k < chain.len() - 1 ==> self.depends_on(#[trigger] chain[k], chain[k + 1])
    }

    /// A chain of dependencies leads from capture `from` to capture `to`.
    pub open spec fn links_to(self, from: int, to: int) -> bool {
        exists|chain: Seq<int>|
            #![trigger self.is_chain(chain)]
            self.is_chain(chain) && chain.first() == from && chain.last() == to
    }

    /// A chain of dependencies leads from capture `from` to the file named
    /// `name`.
    pub open spec fn links_to_file(self, from: int, name: Seq<char>) -> bool {
        match self.index_of(name) {
            Some(to) => self.links_to(from, to),
            None => false,
        }
    }

    /// The files that capture `from` links to and that export `symbol`, in
    /// index order.
    pub open spec fn linked_files_with_symbol(self, from: int, symbol: Seq<char>) -> Seq<
        Seq<char>,
    > {
        self.files_with_symbol(symbol).filter(|name: Seq<char>| self.links_to_file(from, name))
    }
}

/// How many captures are not marked.
spec fn unmarked(marks: Seq<bool>) -> nat
    decreases marks.len(),
{
    if marks.len() == 0 {
        0
    } else {
        unmarked(marks.drop_last()) + if marks.last() {
            0nat
        } else {
            1nat
        }
    }
}

proof fn lemma_mark_one(marks: Seq<bool>, j: int)
    requires
        0 <= j < marks.len(),
        !marks[j],
    ensures
        unmarked(marks.update(j, true)) + 1 == unmarked(marks),
    decreases marks.len(),
{
    let marked = marks.update(j, true);
    if j == marks.len() - 1 {
        assert(marked.drop_last() =~= marks.drop_last());
    } else {
        assert(marked.drop_last() =~= marks.drop_last().update(j, true));
        lemma_mark_one(marks.drop_last(), j);
    }
}

/// A chain grows by a capture that its last capture depends on.
proof fn lemma_chain_grows(report: ReportView, chain: Seq<int>, next: int)
    requires
        report.is_chain(chain),
        report.depends_on(chain.last(), next),
    ensures
        report.is_chain(chain.push(next)),
        chain.push(next).first() == chain.first(),
        chain.push(next).last() == next,
{
    let longer = chain.push(next);
    assert forall|k: int| 0 <= k < longer.len() - 1 implies report.depends_on(
        #[trigger] longer[k],
        longer[k + 1],
    ) by {
        if k < chain.len() - 1 {
            assert(report.depends_on(chain[k], chain[k + 1]));
        }
    }
}

/// One dependency makes a chain.
proof fn lemma_chain_of_two(report: ReportView, from: int, to: int)
    requires
        report.depends_on(from, to),
    ensures
        report.links_to(from, to),
{
    let chain = seq![from, to];
    assert(report.is_chain(chain));
    assert(chain.first() == from && chain.last() == to);
}

/// Whoever is linked to links on to what it depends on.
proof fn lemma_link_grows(report: ReportView, from: int, via: int, to: int)
    requires
        report.links_to(from, via),
        report.depends_on(via, to),
    ensures
        report.links_to(from, to),
{
    let chain = choose|chain: Seq<int>|
        #![trigger report.is_chain(chain)]
        report.is_chain(chain) && chain.first() == from && chain.last() == via;
    lemma_chain_grows(report, chain, to);
    assert(report.is_chain(chain.push(to)));
}

/// The marks are closed under dependencies: what the start or a marked
/// capture depends on is marked.
spec fn closed_marks(report: ReportView, start: int, marks: Seq<bool>) -> bool {
    forall|i: int, j: int|
        (i == start || (0 <= i < marks.len() && marks[i])) && #[trigger] report.depends_on(i, j)
            ==> marks[j]
}

/// Closed marks hold every capture that a chain from the start leads to.
proof fn lemma_closed_marks_hold_chain(
    report: ReportView,
    start: int,
    marks: Seq<bool>,
    chain: Seq<int>,
    k: int,
)
    requires
        marks.len() == report.captures.len(),
        closed_marks(report, start, marks),
        report.is_chain(chain),
        chain.first() == start,
        1 <= k < chain.len(),
    ensures
        0 <= chain[k] < marks.len(),
        marks[chain[k]],
    decreases k,
{
    assert(report.depends_on(chain[k - 1], chain[k]));
    if k > 1 {
        lemma_closed_marks_hold_chain(report, start, marks, chain, k - 1);
    }
}

/// Capture `x` waits in `work` for its dependencies to be followed.
spec fn waiting(work: Seq<usize>, x: int) -> bool {
    exists|w: int| 0 <= w < work.len() && #[trigger] work[w] == x
}

/// Capture `j` claims a soname among the first `d` that capture `i` needs.
spec fn depends_within(report: ReportView, i: int, j: int, d: int) -> bool {
    &&& 0 <= i < report.captures.len()
    &&& 0 <= j < report.captures.len()
    &&& report.captures[j].soname is Some
    &&& report.captures[i].needed_deps.take(d).contains(report.captures[j].soname->0)
}

impl AbiReport {
    /// The index of the capture that claims `soname`.
    fn index_of_soname(&self, soname: &str) -> (index: Option<usize>)
        requires
            self.wf(),
        ensures
            match index {
                Some(j) => self@.claims(j as int, soname@),
                None => forall|j: int| !self@.claims(j, soname@),
            },
    {
        proof {
            self.lemma_view_wf();
        }
        let ghost report = self@;
        match self.filename_of_soname(soname) {
            Some(name) => {
                let index = self.index_of(name.as_str());
                proof {
                    let k = choose|k: int| report.claims(k, soname@);
                    assert(report.is_file(k, name@));
                    assert(index is Some);
                    let j = index->0 as int;
                    if j < k {
                        assert(key_of(report.captures[j], CaptureKey::Filename) != key_of(
                            report.captures[k],
                            CaptureKey::Filename,
                        ));
                    } else if k < j {
                        assert(key_of(report.captures[k], CaptureKey::Filename) != key_of(
                            report.captures[j],
                            CaptureKey::Filename,
                        ));
                    }
                }
                index
            },
            None => None,
        }
    }

    /// Marks the captures that the capture at `start` links to: those that it
    /// depends on, those that these depend on, and so on. Its own mark is set
    /// where a circle of dependencies leads back to it.
    pub fn linked_captures(&self, start: usize) -> (marks: Vec<bool>)
        requires
            self.wf(),
        ensures
            marks.len() == self@.captures.len(),
            forall|j: int|
                0 <= j < marks.len() ==> marks@[j] == self@.links_to(start as int, j),
    {
        proof {
            self.lemma_view_wf();
        }
        let ghost report = self@;
        let captures = self.captures();
        let count = captures.len();
        let mut marks: Vec<bool> = Vec::new();
        while marks.len() < count
            invariant
                marks.len() <= count,
                forall|j: int| 0 <= j < marks.len() ==> !marks@[j],
            decreases count - marks.len(),
        {
            marks.push(false);
        }
        let mut work: Vec<usize> = Vec::new();
        if start < count {
            work.push(start);
            assert(work@[0] == start);
            assert(waiting(work@, start as int));
        }
        while work.len() > 0
            invariant
                self.wf(),
                report == self@,
                report.wf(),
                capture_views(captures@) == report.captures,
                count == captures.len(),
                marks.len() == count,
                forall|j: int|
                    0 <= j < count && marks@[j] ==> report.links_to(start as int, j),
                forall|w: int|
                    0 <= w < work.len() ==> (#[trigger] work@[w]) < count && (work@[w] == start
                        || marks@[work@[w] as int]),
                forall|i: int, j: int|
                    (i == start || (0 <= i < count && marks@[i])) && !waiting(work@, i)
                        && #[trigger] report.depends_on(i, j) ==> marks@[j],
            decreases 2 * unmarked(marks@) + work.len(),
        {
            let ghost budget = 2 * unmarked(marks@) + work.len();
            let ghost work_before = work@;
            let i = work.pop().unwrap();
            assert(work_before[work_before.len() - 1] == i);
            assert(report.captures[i as int] == captures@[i as int]@);
            let needed = captures[i].needed_deps();
            let mut d: usize = 0;
            assert(report.captures[i as int].needed_deps.take(0) =~= Seq::empty());
            assert forall|x: int| #[trigger] waiting(work_before, x) && x != i implies waiting(
                work@,
                x,
            ) by {
                let w = choose|w: int|
                    0 <= w < work_before.len() && #[trigger] work_before[w] == x;
                assert(work@[w] == x);
            }
            while d < needed.len()
                invariant
                    self.wf(),
                    report == self@,
                    report.wf(),
                    capture_views(captures@) == report.captures,
                    count == captures.len(),
                    marks.len() == count,
                    d <= needed.len(),
                    i < count,
                    i == start || marks@[i as int],
                    views(needed@) == report.captures[i as int].needed_deps,
                    2 * unmarked(marks@) + work.len() < budget,
                    forall|j: int|
                        0 <= j < count && marks@[j] ==> report.links_to(start as int, j),
                    forall|w: int|
                        0 <= w < work.len() ==> (#[trigger] work@[w]) < count && (work@[w]
                            == start || marks@[work@[w] as int]),
                    forall|x: int, j: int|
                        (x == start || (0 <= x < count && marks@[x])) && x != i && !waiting(
                            work@,
                            x,
                        ) && #[trigger] report.depends_on(x, j) ==> marks@[j],
                    forall|j: int| #[trigger] depends_within(report, i as int, j, d as int)
                        ==> marks@[j],
                decreases needed.len() - d,
            {
                let ghost marks_before = marks@;
                let ghost work_inner = work@;
                let found = self.index_of_soname(needed[d].as_str());
                assert(views(needed@)[d as int] == needed@[d as int]@);
                match found {
                    Some(j) => {
                        proof {
                            assert(report.captures[i as int].needed_deps[d as int]
                                == report.captures[j as int].soname->0);
                            assert(report.depends_on(i as int, j as int));
                            if i == start {
                                lemma_chain_of_two(report, start as int, j as int);
                            } else {
                                lemma_link_grows(report, start as int, i as int, j as int);
                            }
                        }
                        if !marks[j] {
                            marks.set(j, true);
                            work.push(j);
                            proof {
                                lemma_mark_one(marks_before, j as int);
                                assert(work@[work_inner.len() as int] == j);
                                assert forall|w: int| 0 <= w < work.len() implies (
                                #[trigger] work@[w]) < count && (work@[w] == start
                                    || marks@[work@[w] as int]) by {
                                    if w < work_inner.len() {
                                        assert(work@[w] == work_inner[w]);
                                    }
                                }
                                assert(waiting(work@, j as int));
                                assert forall|x: int, y: int|
                                    (x == start || (0 <= x < count && marks@[x])) && x != i
                                        && !waiting(work@, x)
                                        && #[trigger] report.depends_on(x, y) implies marks@[y] by {
                                    assert(x != j);
                                    assert(!waiting(work_inner, x)) by {
                                        if waiting(work_inner, x) {
                                            let w = choose|w: int|
                                                0 <= w < work_inner.len()
                                                    && #[trigger] work_inner[w] == x;
                                            assert(work@[w] == x);
                                        }
                                    }
                                    assert(marks_before[y]);
                                }
                            }
                        }
                    },
                    None => {},
                }
                proof {
                    let deps = report.captures[i as int].needed_deps;
                    let shorter = deps.take(d as int);
                    let longer = deps.take(d + 1);
                    assert(longer =~= shorter.push(deps[d as int]));
                    assert forall|y: int| #[trigger]
                        depends_within(report, i as int, y, d + 1) implies marks@[y] by {
                        let soname = report.captures[y].soname->0;
                        let k = choose|k: int| 0 <= k < longer.len() && longer[k] == soname;
                        if k < d {
                            assert(shorter[k] == soname);
                            assert(depends_within(report, i as int, y, d as int));
                            assert(marks_before[y]);
                        } else {
                            assert(report.claims(y, needed@[d as int]@));
                            assert(found is Some);
                            let j = found->0 as int;
                            if j < y {
                                assert(key_of(report.captures[j], CaptureKey::Soname) != key_of(
                                    report.captures[y],
                                    CaptureKey::Soname,
                                ));
                            } else if y < j {
                                assert(key_of(report.captures[y], CaptureKey::Soname) != key_of(
                                    report.captures[j],
                                    CaptureKey::Soname,
                                ));
                            }
                        }
                    }
                }
                d += 1;
            }
            proof {
                let deps = report.captures[i as int].needed_deps;
                assert(deps.take(needed.len() as int) =~= deps);
                assert forall|x: int, y: int|
                    (x == start || (0 <= x < count && marks@[x])) && !waiting(work@, x)
                        && #[trigger] report.depends_on(x, y) implies marks@[y] by {
                    if x == i {
                        assert(depends_within(report, i as int, y, needed.len() as int));
                    }
                }
            }
        }
        proof {
            assert forall|j: int| 0 <= j < marks.len() implies marks@[j] == report.links_to(
                start as int,
                j,
            ) by {
                if report.links_to(start as int, j) {
                    let chain = choose|chain: Seq<int>|
                        #![trigger report.is_chain(chain)]
                        report.is_chain(chain) && chain.first() == start && chain.last() == j;
                    assert(closed_marks(report, start as int, marks@)) by {
                        assert forall|x: int, y: int|
                            (x == start || (0 <= x < marks@.len() && marks@[x]))
                                && #[trigger] report.depends_on(x, y) implies marks@[y] by {
                            assert(!waiting(work@, x));
                        }
                    }
                    lemma_closed_marks_hold_chain(
                        report,
                        start as int,
                        marks@,
                        chain,
                        chain.len() - 1,
                    );
                }
            }
        }
        marks
    }

    /// The files that export `symbol` among those that the file named
    /// `filename` links to, in index order; `None` where the report has no
    /// file of that name.
    pub fn linked_files_with_symbol(&self, filename: &str, symbol: &str) -> (files: Option<
        Vec<String>,
    >)
        requires
            self.wf(),
        ensures
            match files {
                Some(files) => self@.index_of(filename@) matches Some(from) && views(files@)
                    == self@.linked_files_with_symbol(from, symbol@),
                None => self@.index_of(filename@) is None,
            },
    {
        let ghost report = self@;
        let start = match self.index_of(filename) {
            Some(start) => start,
            None => {
                return None;
            },
        };
        let marks = self.linked_captures(start);
        let exporters = self.files_with_symbol(symbol);
        let ghost all = views(exporters@);
        let ghost linked = |name: Seq<char>| report.links_to_file(start as int, name);
        let mut files: Vec<String> = Vec::new();
        let mut k: usize = 0;
        assert(all.take(0) =~= Seq::empty());
        assert(views(files@) =~= all.take(0).filter(linked));
        while k < exporters.len()
            invariant
                self.wf(),
                report == self@,
                k <= exporters.len(),
                all == views(exporters@),
                marks.len() == report.captures.len(),
                forall|j: int|
                    0 <= j < marks.len() ==> marks@[j] == report.links_to(start as int, j),
                linked == (|name: Seq<char>| report.links_to_file(start as int, name)),
                views(files@) == all.take(k as int).filter(linked),
            decreases exporters.len() - k,
        {
            let name = &exporters[k];
            assert(all[k as int] == name@);
            let keep = match self.index_of(name.as_str()) {
                Some(j) => marks[j],
                None => false,
            };
            assert(keep == linked(name@));
            proof {
                assert(all.take(k + 1) =~= all.take(k as int).push(name@));
                all.take(k as int).lemma_filter_push(name@, linked);
            }
            if keep {
                let ghost before = files@;
                files.push(name.clone());
                assert(views(files@) =~= views(before).push(name@));
            }
            k += 1;
        }
        assert(all.take(exporters.len() as int) =~= all);
        Some(files)
    }
}

} // verus!
