//! Laws of the listing engine that relate several operations: a
//! listing is uniquely determined once every note carries a distinct
//! rank, so reordering, re-listing and renaming behave predictably.

use crate::listing::{listing_names, note_le, note_leq_fn, spec_rank};
use crate::notes::NoteV;
use crate::sidecar::{lemma_order_of_list_rank, spec_order_of_list};
use vstd::prelude::*;
use vstd::relations::sorted_by;

verus! {

/// Two sequences sorted by the same relation and made of the same
/// records are the same sequence, provided records tied under the
/// relation are identical.
proof fn lemma_sorted_unique(s1: Seq<NoteV>, s2: Seq<NoteV>, leq: spec_fn(NoteV, NoteV) -> bool)
    requires
        sorted_by(s1, leq),
        sorted_by(s2, leq),
        s1.to_multiset() == s2.to_multiset(),
        forall|a: NoteV, b: NoteV|
            #![trigger leq(a, b), leq(b, a)]
            s1.contains(a) && s1.contains(b) && leq(a, b) && leq(b, a) ==> a == b,
    ensures
        s1 == s2,
    decreases s1.len(),
{
    s1.to_multiset_ensures();
    s2.to_multiset_ensures();
    if s1.len() == 0 {
        assert(s2.to_multiset().len() == 0);
        assert(s1 =~= s2);
    } else {
        assert(s2.len() == s1.len());
        let h1 = s1[0];
        let h2 = s2[0];
        assert(s1.contains(h1));
        assert(s2.contains(h2));
        assert(s1.to_multiset().count(h2) > 0);
        assert(s1.contains(h2));
        assert(s2.to_multiset().count(h1) > 0);
        assert(s2.contains(h1));
        let i1 = choose|i: int| 0 <= i < s1.len() && s1[i] == h2;
        let i2 = choose|i: int| 0 <= i < s2.len() && s2[i] == h1;
        if h1 != h2 {
            assert(i1 != 0);
            assert(i2 != 0);
            assert(leq(h1, h2));
            assert(leq(h2, h1));
            assert(h1 == h2);
        }
        let t1 = s1.drop_first();
        let t2 = s2.drop_first();
        assert(t1 =~= s1.remove(0));
        assert(t2 =~= s2.remove(0));
        assert(t1.to_multiset() == s1.to_multiset().remove(h1));
        assert(t2.to_multiset() == s2.to_multiset().remove(h2));
        assert(t1.to_multiset() == t2.to_multiset());
        assert(sorted_by(t1, leq)) by {
            assert(forall|i: int, j: int|
                0 <= i < j < t1.len() ==> t1[i] == s1[i + 1] && t1[j] == s1[j + 1]);
        }
        assert(sorted_by(t2, leq)) by {
            assert(forall|i: int, j: int|
                0 <= i < j < t2.len() ==> t2[i] == s2[i + 1] && t2[j] == s2[j + 1]);
        }
        assert(forall|a: NoteV| t1.contains(a) ==> s1.contains(a)) by {
            t1.to_multiset_ensures();
        }
        assert forall|a: NoteV, b: NoteV|
            #![trigger leq(a, b), leq(b, a)]
            t1.contains(a) && t1.contains(b) && leq(a, b) && leq(b, a) implies a == b by {
            assert(s1.contains(a) && s1.contains(b));
        }
        lemma_sorted_unique(t1, t2, leq);
        assert(s1 =~= seq![h1] + t1);
        assert(s2 =~= seq![h2] + t2);
    }
}

/// Filename distinctness survives rearrangement: any sequence made of
/// the same records as one whose filenames are pairwise distinct has
/// pairwise distinct filenames too.  This carries the hypothesis of
/// the laws below from a listing's input to its sorted output.
pub proof fn lemma_distinct_names_carry(s1: Seq<NoteV>, s2: Seq<NoteV>)
    requires
        s1.to_multiset() == s2.to_multiset(),
        forall|i: int, j: int| 0 <= i < j < s1.len() ==> s1[i].filename != s1[j].filename,
    ensures
        forall|i: int, j: int| 0 <= i < j < s2.len() ==> s2[i].filename != s2[j].filename,
{
    s1.to_multiset_ensures();
    s2.to_multiset_ensures();
    assert(s1.no_duplicates());
    s1.lemma_multiset_has_no_duplicates();
    s2.lemma_multiset_has_no_duplicates_conv();
    assert forall|i: int, j: int|
        0 <= i < j < s2.len() implies s2[i].filename != s2[j].filename by {
        if s2[i].filename == s2[j].filename {
            assert(s2[i] != s2[j]);
            assert(s2.contains(s2[i]) && s2.contains(s2[j]));
            assert(s1.to_multiset().count(s2[i]) > 0);
            assert(s1.contains(s2[i]));
            assert(s1.to_multiset().count(s2[j]) > 0);
            assert(s1.contains(s2[j]));
            let ia = choose|k: int| 0 <= k < s1.len() && s1[k] == s2[i];
            let ib = choose|k: int| 0 <= k < s1.len() && s1[k] == s2[j];
            assert(ia != ib);
            if ia < ib {
                assert(s1[ia].filename != s1[ib].filename);
            } else {
                assert(s1[ib].filename != s1[ia].filename);
            }
        }
    }
}

/// After an explicit reorder of the whole listing, the next listing
/// shows the notes exactly in the order given — provided the given
/// sequence respects pin precedence (pinned notes first), as any
/// sequence mirroring a listing does.
///
/// `notes` are the records in the order the reorder call named them;
/// `listed` is any listing computed under the reorder's order store.
pub proof fn lemma_reorder_then_list(notes: Seq<NoteV>, listed: Seq<NoteV>)
    requires
        notes.len() <= usize::MAX,
        forall|p: int, q: int|
            0 <= p < q < notes.len() ==> notes[p].filename != notes[q].filename,
        forall|p: int, q: int| 0 <= p < q < notes.len() && notes[q].pinned ==> notes[p].pinned,
        sorted_by(listed, note_leq_fn(spec_order_of_list(listing_names(notes)))),
        listed.to_multiset() == notes.to_multiset(),
    ensures
        listed == notes,
{
    let names = listing_names(notes);
    let o = spec_order_of_list(names);
    let leq = note_leq_fn(o);
    assert(forall|p: int, q: int| 0 <= p < q < names.len() ==> names[p] != names[q]);
    assert forall|p: int, q: int| 0 <= p < q < notes.len() implies leq(notes[p], notes[q]) by {
        lemma_order_of_list_rank(names, p);
        lemma_order_of_list_rank(names, q);
        assert(spec_rank(o, notes[p].filename) == Some(p as usize));
        assert(spec_rank(o, notes[q].filename) == Some(q as usize));
        if notes[p].pinned != notes[q].pinned {
            assert(notes[p].pinned);
        }
        assert(note_le(o, notes[p], notes[q]));
    }
    assert(sorted_by(notes, leq));
    notes.to_multiset_ensures();
    listed.to_multiset_ensures();
    assert forall|a: NoteV, b: NoteV|
        #![trigger leq(a, b), leq(b, a)]
        listed.contains(a) && listed.contains(b) && leq(a, b) && leq(b, a) implies a == b by {
        assert(notes.to_multiset().count(a) > 0);
        assert(notes.contains(a));
        assert(notes.to_multiset().count(b) > 0);
        assert(notes.contains(b));
        let ia = choose|i: int| 0 <= i < notes.len() && notes[i] == a;
        let ib = choose|i: int| 0 <= i < notes.len() && notes[i] == b;
        lemma_order_of_list_rank(names, ia);
        lemma_order_of_list_rank(names, ib);
        assert(spec_rank(o, a.filename) == Some(ia as usize));
        assert(spec_rank(o, b.filename) == Some(ib as usize));
        if a.pinned == b.pinned {
            assert(ia as usize <= ib as usize && ib as usize <= ia as usize);
            assert(ia == ib);
        }
    }
    lemma_sorted_unique(listed, notes, leq);
}

/// Listing twice with no mutation in between gives the same sequence:
/// the first listing's self-heal freezes exactly its own order (rank
/// `i` for position `i`), and any listing computed under that healed
/// store — over the same records — is the first listing again.
pub proof fn lemma_list_idempotent(first: Seq<NoteV>, second: Seq<NoteV>)
    requires
        first.len() <= usize::MAX,
        forall|p: int, q: int|
            0 <= p < q < first.len() ==> first[p].filename != first[q].filename,
        forall|p: int, q: int| 0 <= p < q < first.len() && first[q].pinned ==> first[p].pinned,
        sorted_by(second, note_leq_fn(spec_order_of_list(listing_names(first)))),
        second.to_multiset() == first.to_multiset(),
    ensures
        second == first,
{
    lemma_reorder_then_list(first, second);
}

/// A rename keeps the renamed note's place: when every listed note has
/// a rank, the ranks are distinct, and the order store migrates the old
/// name's rank to the new name, the next listing is the old one with
/// just that record replaced — the new name stands exactly where the
/// old one stood.  (The note's pin state must carry over; pin entries
/// are keyed by filename and do not migrate, so this holds of unpinned
/// notes, and of pinned ones only if their pin entry is re-created.)
pub proof fn lemma_rename_preserves_rank(
    before: Seq<NoteV>,
    o: Map<Seq<char>, usize>,
    p: int,
    renamed: NoteV,
    after: Seq<NoteV>,
)
    requires
        0 <= p < before.len(),
        before.len() <= usize::MAX,
        forall|i: int, j: int|
            0 <= i < j < before.len() ==> before[i].filename != before[j].filename,
        forall|i: int| 0 <= i < before.len() ==> o.contains_key(#[trigger] before[i].filename),
        forall|i: int, j: int|
            0 <= i < j < before.len() ==> o[before[i].filename] != o[before[j].filename],
        sorted_by(before, note_leq_fn(o)),
        renamed.pinned == before[p].pinned,
        forall|i: int| 0 <= i < before.len() ==> #[trigger] before[i].filename != renamed.filename,
        sorted_by(
            after,
            note_leq_fn(
                o.remove(before[p].filename).insert(renamed.filename, o[before[p].filename]),
            ),
        ),
        after.to_multiset() == before.update(p, renamed).to_multiset(),
    ensures
        after == before.update(p, renamed),
{
    let x = before[p].filename;
    let y = renamed.filename;
    let o2 = o.remove(x).insert(y, o[x]);
    let expected = before.update(p, renamed);
    let leq2 = note_leq_fn(o2);
    assert forall|i: int| 0 <= i < expected.len() implies spec_rank(
        o2,
        #[trigger] expected[i].filename,
    ) == spec_rank(o, before[i].filename) && expected[i].pinned == before[i].pinned by {
        if i == p {
            assert(expected[i] == renamed);
            assert(o2.contains_key(y) && o2[y] == o[x]);
        } else {
            assert(expected[i] == before[i]);
            assert(before[i].filename != x && before[i].filename != y);
        }
    }
    assert forall|i: int, j: int| 0 <= i < j < expected.len() implies leq2(
        expected[i],
        expected[j],
    ) by {
        let leq = note_leq_fn(o);
        assert(leq(before[i], before[j]));
        assert(note_le(o, before[i], before[j]));
        assert(note_le(o2, expected[i], expected[j]));
    }
    assert(sorted_by(expected, leq2));
    expected.to_multiset_ensures();
    after.to_multiset_ensures();
    assert forall|i: int, j: int|
        0 <= i < j < expected.len() implies o2[expected[i].filename]
        != o2[expected[j].filename] by {
        assert(o2[expected[i].filename] == o[before[i].filename]);
        assert(o2[expected[j].filename] == o[before[j].filename]);
    }
    assert forall|a: NoteV, b: NoteV|
        #![trigger leq2(a, b), leq2(b, a)]
        after.contains(a) && after.contains(b) && leq2(a, b) && leq2(b, a) implies a == b by {
        assert(expected.to_multiset().count(a) > 0);
        assert(expected.contains(a));
        assert(expected.to_multiset().count(b) > 0);
        assert(expected.contains(b));
        let ia = choose|i: int| 0 <= i < expected.len() && expected[i] == a;
        let ib = choose|i: int| 0 <= i < expected.len() && expected[i] == b;
        assert(spec_rank(o2, a.filename) == spec_rank(o, before[ia].filename));
        assert(spec_rank(o2, b.filename) == spec_rank(o, before[ib].filename));
        if a.pinned == b.pinned {
            assert(o2[a.filename] <= o2[b.filename] && o2[b.filename] <= o2[a.filename]);
            if ia != ib {
                if ia < ib {
                    assert(o2[expected[ia].filename] != o2[expected[ib].filename]);
                } else {
                    assert(o2[expected[ib].filename] != o2[expected[ia].filename]);
                }
            }
            assert(ia == ib);
        }
    }
    lemma_sorted_unique(after, expected, leq2);
}

} // verus!
