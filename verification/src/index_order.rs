//! The order in which a report indexes its captures.
//!
//! Captures are first arranged by the byte order of their file names, which is
//! one fixed arrangement of any batch with distinct file names, and then
//! sorted stably by natural order. The position of a capture therefore depends
//! on the file names of the batch alone, not on the order in which they came.

use crate::byte_order::{
    in_byte_order, lemma_name_le_antisymmetric, lemma_name_le_reflexive, lemma_name_le_total,
    lemma_name_le_transitive, name_le,
};
use crate::capture::{AbiCapture, CaptureView};
use crate::natural::in_natural_order;
use natural_sort_rs::NaturalSort;
use vstd::prelude::*;
use vstd::multiset::{group_multiset_axioms, lemma_multiset_empty_len, Multiset};
use vstd::seq_lib::{group_to_multiset_ensures, to_multiset_build, to_multiset_insert, to_multiset_len};

verus! {

/// The views of a sequence of captures.
pub open spec fn capture_views(captures: Seq<AbiCapture>) -> Seq<CaptureView> {
    captures.map_values(|c: AbiCapture| c@)
}

/// The file names of a sequence of captures.
pub open spec fn filenames(captures: Seq<CaptureView>) -> Seq<Seq<char>> {
    captures.map_values(|c: CaptureView| c.filename)
}

/// A name by which a report finds a capture.
#[derive(Clone, Copy, Debug, PartialEq, Eq, Structural)]
pub enum CaptureKey {
    Filename,
    Soname,
}

/// The name that a capture has under `key`, if it has one.
pub open spec fn key_of(capture: CaptureView, key: CaptureKey) -> Option<Seq<char>> {
    match key {
        CaptureKey::Filename => Some(capture.filename),
        CaptureKey::Soname => capture.soname,
    }
}

/// No two captures have the same name under `key`.
pub open spec fn distinct_by(captures: Seq<CaptureView>, key: CaptureKey) -> bool {
    forall|i: int, j: int|
        0 <= i < j < captures.len() && key_of(#[trigger] captures[i], key) is Some ==> key_of(
            captures[i],
            key,
        ) != key_of(#[trigger] captures[j], key)
}

/// No two captures have the same file name.
pub open spec fn distinct_filenames(captures: Seq<CaptureView>) -> bool {
    distinct_by(captures, CaptureKey::Filename)
}

/// No two captures claim the same soname.
pub open spec fn distinct_sonames(captures: Seq<CaptureView>) -> bool {
    distinct_by(captures, CaptureKey::Soname)
}

/// Every capture is in byte order with the ones behind it.
pub open spec fn captures_in_byte_order(captures: Seq<CaptureView>) -> bool {
    forall|i: int, j: int|
        0 <= i < j < captures.len() ==> name_le(
            (#[trigger] captures[i]).filename,
            (#[trigger] captures[j]).filename,
        )
}

/// The captures of a batch, arranged by the byte order of their file names.
pub open spec fn by_filename_bytes(captures: Seq<CaptureView>) -> Seq<CaptureView> {
    choose|c: Seq<CaptureView>|
        captures_in_byte_order(c) && c.to_multiset() == captures.to_multiset()
}

/// The given captures, sorted stably by the natural order of their file names.
pub uninterp spec fn natural_by_filename(captures: Seq<CaptureView>) -> Seq<CaptureView>;

/// The captures of a batch in the order in which a report indexes them.
pub open spec fn indexed(captures: Seq<CaptureView>) -> Seq<CaptureView> {
    natural_by_filename(by_filename_bytes(captures))
}

/// Where a capture named `name` goes into `sorted`: behind the last capture
/// that is in byte order with it.
spec fn slot(sorted: Seq<CaptureView>, name: Seq<char>) -> int
    decreases sorted.len(),
{
    if sorted.len() == 0 {
        0
    } else if name_le(sorted.last().filename, name) {
        sorted.len() as int
    } else {
        slot(sorted.drop_last(), name)
    }
}

proof fn lemma_slot(sorted: Seq<CaptureView>, name: Seq<char>)
    requires
        captures_in_byte_order(sorted),
    ensures
        0 <= slot(sorted, name) <= sorted.len(),
        forall|k: int|
            0 <= k < slot(sorted, name) ==> name_le((#[trigger] sorted[k]).filename, name),
        forall|k: int|
            slot(sorted, name) <= k < sorted.len() ==> name_le(
                name,
                (#[trigger] sorted[k]).filename,
            ),
    decreases sorted.len(),
{
    if sorted.len() > 0 {
        let last = sorted.len() - 1;
        if name_le(sorted[last].filename, name) {
            assert forall|k: int| 0 <= k < sorted.len() implies name_le(
                (#[trigger] sorted[k]).filename,
                name,
            ) by {
                if k < last {
                    assert(name_le(sorted[k].filename, sorted[last].filename));
                    lemma_name_le_transitive(sorted[k].filename, sorted[last].filename, name);
                }
            }
        } else {
            let shorter = sorted.drop_last();
            assert forall|i: int, j: int| 0 <= i < j < shorter.len() implies name_le(
                (#[trigger] shorter[i]).filename,
                (#[trigger] shorter[j]).filename,
            ) by {
                assert(shorter[i] == sorted[i] && shorter[j] == sorted[j]);
            }
            lemma_slot(shorter, name);
            lemma_name_le_total(sorted[last].filename, name);
            assert forall|k: int| 0 <= k < slot(sorted, name) implies name_le(
                (#[trigger] sorted[k]).filename,
                name,
            ) by {
                assert(shorter[k] == sorted[k]);
            }
            assert forall|k: int| slot(sorted, name) <= k < sorted.len() implies name_le(
                name,
                (#[trigger] sorted[k]).filename,
            ) by {
                if k < last {
                    assert(shorter[k] == sorted[k]);
                }
            }
        }
    }
}

/// Every batch has an arrangement in byte order, and [`by_filename_bytes`]
/// is one.
pub proof fn lemma_byte_order_exists(batch: Seq<CaptureView>)
    ensures
        captures_in_byte_order(by_filename_bytes(batch)),
        by_filename_bytes(batch).to_multiset() == batch.to_multiset(),
    decreases batch.len(),
{
    broadcast use group_multiset_axioms;

    if batch.len() == 0 {
        assert(captures_in_byte_order(batch));
    } else {
        let added = batch.last();
        let before = by_filename_bytes(batch.drop_last());
        lemma_byte_order_exists(batch.drop_last());
        lemma_slot(before, added.filename);
        let at = slot(before, added.filename);
        let after = before.insert(at, added);
        assert forall|i: int, j: int| 0 <= i < j < after.len() implies name_le(
            (#[trigger] after[i]).filename,
            (#[trigger] after[j]).filename,
        ) by {
            if j < at {
                assert(after[i] == before[i] && after[j] == before[j]);
            } else if j == at {
                assert(after[i] == before[i]);
            } else if i < at {
                assert(after[i] == before[i] && after[j] == before[j - 1]);
            } else if i == at {
                assert(after[j] == before[j - 1]);
            } else {
                assert(after[i] == before[i - 1] && after[j] == before[j - 1]);
            }
        }
        to_multiset_insert(before, at, added);
        assert(batch.drop_last().push(added) =~= batch);
        to_multiset_build(batch.drop_last(), added);
        assert(captures_in_byte_order(after) && after.to_multiset() == batch.to_multiset());
    }
}

/// A batch with distinct file names has one arrangement in byte order only.
pub proof fn lemma_byte_order_unique(a: Seq<CaptureView>, b: Seq<CaptureView>)
    requires
        captures_in_byte_order(a),
        captures_in_byte_order(b),
        a.to_multiset() == b.to_multiset(),
        distinct_filenames(a),
    ensures
        a == b,
    decreases a.len(),
{
    broadcast use group_to_multiset_ensures;

    assert(a.len() == b.len()) by {
        to_multiset_len(a);
        to_multiset_len(b);
    }
    if a.len() == 0 {
        assert(a =~= b);
    } else {
        let n = a.len() - 1;
        assert(b.to_multiset().count(a[n]) > 0) by {
            assert(a.contains(a[n]));
        }
        assert(b.contains(a[n]));
        let k = choose|k: int| 0 <= k < b.len() && b[k] == a[n];
        assert(a.to_multiset().count(b[n]) > 0) by {
            assert(b.contains(b[n]));
        }
        assert(a.contains(b[n]));
        let m = choose|m: int| 0 <= m < a.len() && a[m] == b[n];
        assert(name_le(a[n].filename, b[n].filename)) by {
            if k < n {
                assert(name_le(b[k].filename, b[n].filename));
            } else {
                lemma_name_le_reflexive(a[n].filename);
            }
        }
        assert(m == n) by {
            if m < n {
                assert(name_le(a[m].filename, a[n].filename));
                lemma_name_le_antisymmetric(a[m].filename, a[n].filename);
                assert(key_of(a[m], CaptureKey::Filename) != key_of(a[n], CaptureKey::Filename));
            }
        }
        assert(a.drop_last().push(a[n]) =~= a);
        assert(b.drop_last().push(b[n]) =~= b);
        assert(a.drop_last().to_multiset() =~= a.to_multiset().remove(a[n])) by {
            assert(a.drop_last() =~= a.remove(n));
        }
        assert(b.drop_last().to_multiset() =~= b.to_multiset().remove(b[n])) by {
            assert(b.drop_last() =~= b.remove(n));
        }
        assert(distinct_filenames(a.drop_last())) by {
            assert forall|i: int, j: int| 0 <= i < j < a.drop_last().len() implies (
            #[trigger] a.drop_last()[i]).filename != (#[trigger] a.drop_last()[j]).filename by {
                assert(a.drop_last()[i] == a[i]);
                assert(a.drop_last()[j] == a[j]);
                assert(key_of(a[i], CaptureKey::Filename) != key_of(a[j], CaptureKey::Filename));
            }
        }
        assert(captures_in_byte_order(a.drop_last())) by {
            assert forall|i: int, j: int| 0 <= i < j < a.drop_last().len() implies name_le(
                (#[trigger] a.drop_last()[i]).filename,
                (#[trigger] a.drop_last()[j]).filename,
            ) by {
                assert(a.drop_last()[i] == a[i]);
                assert(a.drop_last()[j] == a[j]);
            }
        }
        assert(captures_in_byte_order(b.drop_last())) by {
            assert forall|i: int, j: int| 0 <= i < j < b.drop_last().len() implies name_le(
                (#[trigger] b.drop_last()[i]).filename,
                (#[trigger] b.drop_last()[j]).filename,
            ) by {
                assert(b.drop_last()[i] == b[i]);
                assert(b.drop_last()[j] == b[j]);
            }
        }
        lemma_byte_order_unique(a.drop_last(), b.drop_last());
        assert(a =~= b);
    }
}

/// Where no two captures of a batch share a file name or a name under `key`,
/// none of an arrangement of the batch do.
pub proof fn lemma_distinct_rearranged(a: Seq<CaptureView>, b: Seq<CaptureView>, key: CaptureKey)
    requires
        distinct_filenames(a),
        distinct_by(a, key),
        a.to_multiset() == b.to_multiset(),
    ensures
        distinct_by(b, key),
{
    broadcast use group_to_multiset_ensures;

    assert(a.no_duplicates()) by {
        assert forall|i: int, j: int| 0 <= i < a.len() && 0 <= j < a.len() && i != j implies a[i]
            != a[j] by {
            if i < j {
                assert(a[i].filename != a[j].filename);
            } else {
                assert(a[j].filename != a[i].filename);
            }
        }
    }
    a.lemma_multiset_has_no_duplicates();
    b.lemma_multiset_has_no_duplicates_conv();
    assert forall|i: int, j: int|
        0 <= i < j < b.len() && key_of(#[trigger] b[i], key) is Some implies key_of(b[i], key)
        != key_of(#[trigger] b[j], key) by {
        assert(b[i] != b[j]);
        assert(a.to_multiset().count(b[i]) > 0) by {
            assert(b.contains(b[i]));
        }
        assert(a.to_multiset().count(b[j]) > 0) by {
            assert(b.contains(b[j]));
        }
        assert(a.contains(b[i]));
        assert(a.contains(b[j]));
        let p = choose|p: int| 0 <= p < a.len() && a[p] == b[i];
        let q = choose|q: int| 0 <= q < a.len() && a[q] == b[j];
        if p < q {
            assert(key_of(a[p], key) != key_of(a[q], key));
        } else {
            assert(key_of(a[q], key) is Some ==> key_of(a[q], key) != key_of(a[p], key));
        }
    }
}

/// `natural_sort_rs::NaturalSort::natural_sort_by_cached_key` with the file
/// name as the key, which is the stable sort of std by that key under
/// `natural_cmp`. Nothing is proved of it: the contract claims that the
/// outcome depends on the captures alone, that it holds each capture as often
/// as the input does, and that no file name of it stands after a later one
/// under `natural_cmp`.
#[verifier::external_body]
fn sort_by_natural_filename(captures: &mut Vec<AbiCapture>)
    ensures
        capture_views(final(captures)@) == natural_by_filename(capture_views(old(captures)@)),
        capture_views(final(captures)@).to_multiset() == capture_views(
            old(captures)@,
        ).to_multiset(),
        in_natural_order(filenames(capture_views(final(captures)@))),
{
    captures.natural_sort_by_cached_key::<str, _, _>(|c| c.filename().clone());
}

/// Where a capture named `name` goes into `sorted` so that it stays in byte
/// order: behind every capture that is in byte order with it.
fn insert_position(sorted: &Vec<AbiCapture>, name: &str) -> (pos: usize)
    requires
        captures_in_byte_order(capture_views(sorted@)),
    ensures
        pos <= sorted.len(),
        forall|k: int| 0 <= k < pos ==> name_le(#[trigger] sorted@[k]@.filename, name@),
        forall|k: int| pos <= k < sorted.len() ==> name_le(name@, #[trigger] sorted@[k]@.filename),
{
    let mut pos = sorted.len();
    while pos > 0 && !in_byte_order(sorted[pos - 1].filename().as_str(), name)
        invariant
            pos <= sorted.len(),
            forall|k: int|
                pos <= k < sorted.len() ==> name_le(name@, #[trigger] sorted@[k]@.filename),
        decreases pos,
    {
        proof {
            lemma_name_le_total(sorted@[pos - 1]@.filename, name@);
        }
        pos -= 1;
    }
    proof {
        let views = capture_views(sorted@);
        assert forall|k: int| 0 <= k < pos implies name_le(
            #[trigger] sorted@[k]@.filename,
            name@,
        ) by {
            assert(views[k] == sorted@[k]@);
            assert(views[pos - 1] == sorted@[pos - 1]@);
            if k < pos - 1 {
                assert(name_le(views[k].filename, views[pos - 1].filename));
                lemma_name_le_transitive(
                    sorted@[k]@.filename,
                    sorted@[pos - 1]@.filename,
                    name@,
                );
            }
        }
    }
    pos
}

/// A sequence without items holds nothing.
proof fn lemma_no_captures(captures: Seq<CaptureView>)
    requires
        captures.len() == 0,
    ensures
        captures.to_multiset() =~= Multiset::empty(),
{
    to_multiset_len(captures);
    lemma_multiset_empty_len(captures.to_multiset());
}

/// The same captures, last first.
fn reversed(captures: Vec<AbiCapture>) -> (turned: Vec<AbiCapture>)
    ensures
        turned@ == captures@.reverse(),
        capture_views(turned@).to_multiset() == capture_views(captures@).to_multiset(),
{
    broadcast use group_multiset_axioms;

    let mut rest = captures;
    let mut turned: Vec<AbiCapture> = Vec::new();
    proof {
        lemma_no_captures(capture_views(turned@));
    }
    while rest.len() > 0
        invariant
            turned.len() + rest.len() == captures.len(),
            rest@ == captures@.take(rest.len() as int),
            forall|i: int|
                0 <= i < turned.len() ==> turned@[i] == captures@[captures.len() - 1 - i],
            capture_views(turned@).to_multiset().add(capture_views(rest@).to_multiset())
                =~= capture_views(captures@).to_multiset(),
        decreases rest.len(),
    {
        let ghost rest_before = rest@;
        let ghost turned_before = turned@;
        let capture = rest.pop().unwrap();
        assert(capture == captures@[rest.len() as int]);
        assert(rest@ =~= captures@.take(rest.len() as int));
        assert(capture_views(rest_before) =~= capture_views(rest@).push(capture@));
        turned.push(capture);
        assert(capture_views(turned@) =~= capture_views(turned_before).push(capture@));
        proof {
            to_multiset_build(capture_views(rest@), capture@);
            to_multiset_build(capture_views(turned_before), capture@);
        }
    }
    proof {
        lemma_no_captures(capture_views(rest@));
        assert(turned@ =~= captures@.reverse());
    }
    turned
}

/// Arranges captures by the byte order of their file names.
pub fn sort_by_filename_bytes(captures: Vec<AbiCapture>) -> (sorted: Vec<AbiCapture>)
    ensures
        captures_in_byte_order(capture_views(sorted@)),
        capture_views(sorted@).to_multiset() == capture_views(captures@).to_multiset(),
{
    broadcast use group_multiset_axioms;

    let mut rest = reversed(captures);
    let mut sorted: Vec<AbiCapture> = Vec::new();
    proof {
        lemma_no_captures(capture_views(sorted@));
    }
    while rest.len() > 0
        invariant
            captures_in_byte_order(capture_views(sorted@)),
            capture_views(sorted@).to_multiset().add(capture_views(rest@).to_multiset())
                =~= capture_views(captures@).to_multiset(),
        decreases rest.len(),
    {
        let ghost rest_before = rest@;
        let ghost sorted_before = sorted@;
        let capture = rest.pop().unwrap();
        assert(capture_views(rest_before) =~= capture_views(rest@).push(capture@));
        let pos = insert_position(&sorted, capture.filename().as_str());
        sorted.insert(pos, capture);
        proof {
            let before = capture_views(sorted_before);
            let after = capture_views(sorted@);
            assert(after =~= before.insert(pos as int, capture@));
            to_multiset_build(capture_views(rest@), capture@);
            to_multiset_insert(before, pos as int, capture@);
            assert forall|i: int, j: int| 0 <= i < j < after.len() implies name_le(
                (#[trigger] after[i]).filename,
                (#[trigger] after[j]).filename,
            ) by {
                if j < pos {
                    assert(after[i] == before[i] && after[j] == before[j]);
                } else if j == pos {
                    assert(after[i] == sorted_before[i]@);
                } else if i < pos {
                    assert(after[i] == before[i] && after[j] == before[j - 1]);
                } else if i == pos {
                    assert(after[j] == sorted_before[j - 1]@);
                } else {
                    assert(after[i] == before[i - 1] && after[j] == before[j - 1]);
                }
            }
        }
    }
    proof {
        lemma_no_captures(capture_views(rest@));
    }
    sorted
}

/// Brings a batch with distinct file names into the order in which a report
/// indexes it.
pub(crate) fn arrange(captures: Vec<AbiCapture>) -> (arranged: Vec<AbiCapture>)
    requires
        distinct_filenames(capture_views(captures@)),
    ensures
        capture_views(arranged@) == indexed(capture_views(captures@)),
        capture_views(arranged@).to_multiset() == capture_views(captures@).to_multiset(),
        distinct_filenames(capture_views(arranged@)),
        in_natural_order(filenames(capture_views(arranged@))),
{
    let ghost batch = capture_views(captures@);
    let mut arranged = sort_by_filename_bytes(captures);
    proof {
        let sorted = capture_views(arranged@);
        let chosen = by_filename_bytes(batch);
        lemma_byte_order_exists(batch);
        lemma_distinct_rearranged(batch, sorted, CaptureKey::Filename);
        lemma_byte_order_unique(sorted, chosen);
    }
    sort_by_natural_filename(&mut arranged);
    proof {
        lemma_distinct_rearranged(batch, capture_views(arranged@), CaptureKey::Filename);
    }
    arranged
}

} // verus!
