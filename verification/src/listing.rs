//! The listing and ordering engine: one total preorder over note
//! records — pinned before unpinned, explicit rank before any tie
//! break — a verified sort by it, and the self-healing of the order
//! store after each listing.

use crate::notes::{
    MemoMetadata, NoteFile, NoteV, build_memo_metadata, is_note_filename, spec_build_note,
    spec_is_note_filename,
};
use crate::sidecar::{AssocList, PinEntry, PinEntryV, spec_order_of_list, update_memo_order};
use crate::strutil::{lemma_lex_le_total, lemma_lex_le_trans, lex_le, opt_lex_le, str_lex_le};
use vstd::prelude::*;
use vstd::multiset::Multiset;
use vstd::relations::sorted_by;

verus! {

/// The rank the order store gives a filename, if any.
pub open spec fn spec_rank(order: Map<Seq<char>, usize>, f: Seq<char>) -> Option<usize> {
    if order.contains_key(f) {
        Some(order[f])
    } else {
        None
    }
}

/// `a` may stand at or before `b` in a listing under `order`:
/// pinned notes before unpinned ones; within a group, a note with an
/// explicit rank before one without, ranks ascending; with no ranks,
/// pinned notes tie-break by pin time ascending (a stamped pin time
/// before a missing one) and unpinned notes by update time descending.
/// Ordering a stamped pin time before a missing one keeps the relation
/// transitive, which a sort needs; treating that pair as a mutual tie
/// would not compose into a total preorder.  A pinned entry without a
/// pin time only arises from a hand-edited pin document.
pub open spec fn note_le(order: Map<Seq<char>, usize>, a: NoteV, b: NoteV) -> bool {
    if a.pinned != b.pinned {
        a.pinned
    } else {
        match (spec_rank(order, a.filename), spec_rank(order, b.filename)) {
            (Option::Some(x), Option::Some(y)) => x <= y,
            (Option::Some(_), Option::None) => true,
            (Option::None, Option::Some(_)) => false,
            (Option::None, Option::None) => if a.pinned {
                opt_lex_le(a.pinned_at, b.pinned_at)
            } else {
                lex_le(b.updated_at, a.updated_at)
            },
        }
    }
}

/// The listing order as a relation, for `sorted_by`.
pub open spec fn note_leq_fn(order: Map<Seq<char>, usize>) -> spec_fn(NoteV, NoteV) -> bool {
    |a: NoteV, b: NoteV| note_le(order, a, b)
}

/// Any two notes are comparable.
pub proof fn lemma_note_le_total(order: Map<Seq<char>, usize>, a: NoteV, b: NoteV)
    ensures
        note_le(order, a, b) || note_le(order, b, a),
{
    if a.pinned == b.pinned {
        match (spec_rank(order, a.filename), spec_rank(order, b.filename)) {
            (Option::Some(_), Option::Some(_)) => {},
            (Option::None, Option::None) => {
                if a.pinned {
                    match (a.pinned_at, b.pinned_at) {
                        (Option::Some(x), Option::Some(y)) => lemma_lex_le_total(x, y),
                        _ => {},
                    }
                } else {
                    lemma_lex_le_total(b.updated_at, a.updated_at);
                }
            },
            _ => {},
        }
    }
}

/// The listing order is transitive.
pub proof fn lemma_note_le_trans(order: Map<Seq<char>, usize>, a: NoteV, b: NoteV, c: NoteV)
    requires
        note_le(order, a, b),
        note_le(order, b, c),
    ensures
        note_le(order, a, c),
{
    if a.pinned == b.pinned && b.pinned == c.pinned {
        match (
            spec_rank(order, a.filename),
            spec_rank(order, b.filename),
            spec_rank(order, c.filename),
        ) {
            (Option::None, Option::None, Option::None) => {
                if a.pinned {
                    match (a.pinned_at, b.pinned_at, c.pinned_at) {
                        (Option::Some(x), Option::Some(y), Option::Some(z)) => {
                            lemma_lex_le_trans(x, y, z);
                        },
                        _ => {},
                    }
                } else {
                    lemma_lex_le_trans(c.updated_at, b.updated_at, a.updated_at);
                }
            },
            _ => {},
        }
    }
}

/// Decides the listing order in executable code.
pub fn note_le_exec(order: &AssocList<usize>, a: &MemoMetadata, b: &MemoMetadata) -> (r: bool)
    requires
        order.wf(),
    ensures
        r == note_le(order@, a@, b@),
{
    if a.pinned != b.pinned {
        return a.pinned;
    }
    let ra = order.get(&a.filename);
    let rb = order.get(&b.filename);
    match (ra, rb) {
        (Some(x), Some(y)) => *x <= *y,
        (Some(_), None) => true,
        (None, Some(_)) => false,
        (None, None) => {
            if a.pinned {
                match (&a.pinned_at, &b.pinned_at) {
                    (Some(x), Some(y)) => str_lex_le(x.as_str(), y.as_str()),
                    (Some(_), None) => true,
                    (None, Some(_)) => false,
                    (None, None) => true,
                }
            } else {
                str_lex_le(b.updated_at.as_str(), a.updated_at.as_str())
            }
        },
    }
}

/// The views of a record vector.
pub open spec fn note_views(s: Seq<MemoMetadata>) -> Seq<NoteV> {
    s.map_values(|m: MemoMetadata| m@)
}

/// Sorts the records by the listing order: the result is a
/// rearrangement of the input, ordered by `note_le`.
pub fn sort_notes(order: &AssocList<usize>, notes: Vec<MemoMetadata>) -> (r: Vec<MemoMetadata>)
    requires
        order.wf(),
    ensures
        note_views(r@).to_multiset() == note_views(notes@).to_multiset(),
        sorted_by(note_views(r@), note_leq_fn(order@)),
{
    broadcast use vstd::seq_lib::group_to_multiset_ensures;

    let ghost leq = note_leq_fn(order@);
    let ghost input = note_views(notes@);
    let mut work = notes;
    let mut out: Vec<MemoMetadata> = Vec::new();
    while work.len() > 0
        invariant
            order.wf(),
            leq == note_leq_fn(order@),
            note_views(out@).to_multiset().add(note_views(work@).to_multiset())
                =~= input.to_multiset(),
            sorted_by(note_views(out@), leq),
            forall|p: int, q: int|
                0 <= p < out@.len() && 0 <= q < work@.len() ==> leq(
                    note_views(out@)[p],
                    note_views(work@)[q],
                ),
        decreases work@.len(),
    {
        let mut m: usize = 0;
        let mut j: usize = 1;
        proof {
            lemma_note_le_total(order@, work@[0]@, work@[0]@);
        }
        while j < work.len()
            invariant
                order.wf(),
                work@.len() > 0,
                m < j <= work@.len(),
                forall|k: int| 0 <= k < j ==> note_le(order@, work@[m as int]@, #[trigger] work@[k]@),
            decreases work@.len() - j,
        {
            if !note_le_exec(order, &work[m], &work[j]) {
                proof {
                    lemma_note_le_total(order@, work@[m as int]@, work@[j as int]@);
                    assert forall|k: int| 0 <= k < j + 1 implies note_le(
                        order@,
                        work@[j as int]@,
                        #[trigger] work@[k]@,
                    ) by {
                        if k < j {
                            lemma_note_le_trans(
                                order@,
                                work@[j as int]@,
                                work@[m as int]@,
                                work@[k]@,
                            );
                        } else {
                            lemma_note_le_total(order@, work@[j as int]@, work@[j as int]@);
                        }
                    }
                }
                m = j;
            }
            j = j + 1;
        }
        proof {
            assert forall|k: int| 0 <= k < work@.len() implies leq(
                note_views(work@)[m as int],
                note_views(work@)[k],
            ) by {
                assert(note_le(order@, work@[m as int]@, work@[k]@));
            }
        }
        let ghost old_work = work@;
        let ghost old_out = out@;
        let x = work.remove(m);
        out.push(x);
        proof {
            let xv = x@;
            note_views(old_work).to_multiset_ensures();
            note_views(work@).to_multiset_ensures();
            note_views(old_out).to_multiset_ensures();
            note_views(out@).to_multiset_ensures();
            assert(note_views(old_work)[m as int] == xv);
            assert(note_views(work@) =~= note_views(old_work).remove(m as int));
            assert(note_views(out@) =~= note_views(old_out).push(xv));
            assert(note_views(old_work).to_multiset().count(xv) > 0) by {
                assert((m as int) < note_views(old_work).len() && note_views(old_work)[m as int]
                    == xv);
                assert(note_views(old_work).contains(xv));
            }
            assert(note_views(out@).to_multiset().add(note_views(work@).to_multiset())
                =~= note_views(old_out).to_multiset().add(note_views(old_work).to_multiset()));
            assert forall|p: int, q: int|
                0 <= p < q < note_views(out@).len() implies leq(
                note_views(out@)[p],
                note_views(out@)[q],
            ) by {
                if q == note_views(out@).len() - 1 {
                    assert(note_views(out@)[q] == xv);
                }
            }
            assert forall|p: int, q: int|
                0 <= p < out@.len() && 0 <= q < work@.len() implies leq(
                note_views(out@)[p],
                note_views(work@)[q],
            ) by {
                let wq = note_views(work@)[q];
                if q < m as int {
                    assert(wq == note_views(old_work)[q]);
                } else {
                    assert(wq == note_views(old_work)[q + 1]);
                }
                if p < out@.len() - 1 {
                    assert(note_views(out@)[p] == note_views(old_out)[p]);
                } else {
                    assert(note_views(out@)[p] == xv);
                }
            }
        }
    }
    proof {
        assert(note_views(work@).to_multiset() =~= Multiset::<NoteV>::empty()) by {
            assert(note_views(work@) =~= Seq::<NoteV>::empty());
        }
        assert(note_views(out@).to_multiset() =~= input.to_multiset());
    }
    out
}

/// The record a file contributes to a listing.
pub open spec fn spec_build_file(f: NoteFile, pins: Map<Seq<char>, PinEntryV>) -> NoteV {
    spec_build_note(f.filename@, f.content@, f.created_at@, f.updated_at@, pins)
}

/// The records a listing is made of: one per file whose name has a
/// note extension, built against the one pin-store snapshot.
pub open spec fn spec_listing_input(
    files: Seq<NoteFile>,
    pins: Map<Seq<char>, PinEntryV>,
) -> Seq<NoteV>
    decreases files.len(),
{
    if files.len() == 0 {
        Seq::empty()
    } else {
        let rest = spec_listing_input(files.drop_first(), pins);
        if spec_is_note_filename(files[0].filename@) {
            seq![spec_build_file(files[0], pins)] + rest
        } else {
            rest
        }
    }
}

proof fn lemma_listing_input_snoc(files: Seq<NoteFile>, f: NoteFile, pins: Map<Seq<char>, PinEntryV>)
    ensures
        spec_listing_input(files.push(f), pins) == if spec_is_note_filename(f.filename@) {
            spec_listing_input(files, pins).push(spec_build_file(f, pins))
        } else {
            spec_listing_input(files, pins)
        },
    decreases files.len(),
{
    let t = files.push(f);
    assert(t.len() == files.len() + 1);
    if files.len() == 0 {
        assert(t[0] == f);
        assert(t.drop_first() =~= Seq::<NoteFile>::empty());
        assert(spec_listing_input(Seq::<NoteFile>::empty(), pins) == Seq::<NoteV>::empty());
        assert(spec_listing_input(files, pins) == Seq::<NoteV>::empty());
        if spec_is_note_filename(f.filename@) {
            assert(spec_listing_input(t, pins) == seq![spec_build_file(f, pins)] + Seq::<
                NoteV,
            >::empty());
            assert(seq![spec_build_file(f, pins)] + Seq::<NoteV>::empty() =~= Seq::<
                NoteV,
            >::empty().push(spec_build_file(f, pins)));
        }
    } else {
        assert(t[0] == files[0]);
        assert(t.drop_first() =~= files.drop_first().push(f));
        lemma_listing_input_snoc(files.drop_first(), f, pins);
        if spec_is_note_filename(files[0].filename@) && spec_is_note_filename(f.filename@) {
            assert(seq![spec_build_file(files[0], pins)] + spec_listing_input(
                files.drop_first(),
                pins,
            ).push(spec_build_file(f, pins)) =~= (seq![spec_build_file(files[0], pins)]
                + spec_listing_input(files.drop_first(), pins)).push(spec_build_file(f, pins)));
        }
    }
}

/// The filenames of a listing, in order.
pub open spec fn listing_names(s: Seq<NoteV>) -> Seq<Seq<char>> {
    s.map_values(|n: NoteV| n.filename)
}

/// Produces the listing: keeps the note files, builds one record per
/// file against the pin snapshot, sorts by the listing order, and —
/// when any listed note has no rank yet — returns the healed order
/// store that freezes the just-computed order, rank 0 first.
pub fn list_memos(
    files: Vec<NoteFile>,
    pins: &AssocList<PinEntry>,
    order: &AssocList<usize>,
) -> (r: (Vec<MemoMetadata>, Option<AssocList<usize>>))
    requires
        pins.wf(),
        order.wf(),
    ensures
        note_views(r.0@).to_multiset() == spec_listing_input(files@, pins@).to_multiset(),
        sorted_by(note_views(r.0@), note_leq_fn(order@)),
        forall|i: int, j: int|
            0 <= i < j < r.0@.len() && note_views(r.0@)[j].pinned ==> note_views(
                r.0@,
            )[i].pinned,
        match r.1 {
            Some(healed) => {
                &&& healed.wf()
                &&& (exists|i: int|
                    0 <= i < r.0@.len() && !order@.contains_key(note_views(r.0@)[i].filename))
                &&& healed@ == spec_order_of_list(listing_names(note_views(r.0@)))
            },
            None => forall|i: int|
                0 <= i < r.0@.len() ==> order@.contains_key(note_views(r.0@)[i].filename),
        },
{
    let mut records: Vec<MemoMetadata> = Vec::new();
    let mut i: usize = 0;
    while i < files.len()
        invariant
            pins.wf(),
            i <= files@.len(),
            note_views(records@) == spec_listing_input(files@.subrange(0, i as int), pins@),
        decreases files@.len() - i,
    {
        proof {
            lemma_listing_input_snoc(files@.subrange(0, i as int), files@[i as int], pins@);
            assert(files@.subrange(0, i as int).push(files@[i as int]) =~= files@.subrange(
                0,
                i as int + 1,
            ));
        }
        if is_note_filename(files[i].filename.as_str()) {
            let f = &files[i];
            let rec = build_memo_metadata(
                f.filename.clone(),
                f.content.clone(),
                f.created_at.clone(),
                f.updated_at.clone(),
                pins,
            );
            let ghost old_records = records@;
            records.push(rec);
            proof {
                assert(note_views(records@) =~= note_views(old_records).push(rec@));
            }
        }
        i = i + 1;
    }
    proof {
        assert(files@.subrange(0, files@.len() as int) =~= files@);
    }
    let sorted = sort_notes(order, records);
    proof {
        assert forall|i: int, j: int|
            0 <= i < j < sorted@.len() && note_views(sorted@)[j].pinned implies note_views(
            sorted@,
        )[i].pinned by {
            let leq = note_leq_fn(order@);
            assert(leq(note_views(sorted@)[i], note_views(sorted@)[j]));
            assert(note_le(order@, note_views(sorted@)[i], note_views(sorted@)[j]));
        }
    }
    let mut has_unordered = false;
    let mut names: Vec<String> = Vec::new();
    let mut k: usize = 0;
    while k < sorted.len()
        invariant
            order.wf(),
            k <= sorted@.len(),
            names@.map_values(|s: String| s@) =~= listing_names(
                note_views(sorted@.subrange(0, k as int)),
            ),
            has_unordered == exists|i: int|
                0 <= i < k && !order@.contains_key(note_views(sorted@)[i].filename),
        decreases sorted@.len() - k,
    {
        let c = order.contains(&sorted[k].filename);
        let ghost old_h = has_unordered;
        if !c {
            has_unordered = true;
        }
        proof {
            assert(sorted@[k as int]@.filename == note_views(sorted@)[k as int].filename);
            if !c {
                assert(exists|i: int|
                    0 <= i < k + 1 && !order@.contains_key(note_views(sorted@)[i].filename)) by {
                    assert(!order@.contains_key(note_views(sorted@)[k as int].filename));
                }
            } else if old_h {
                let w = choose|i: int|
                    0 <= i < k && !order@.contains_key(note_views(sorted@)[i].filename);
                assert(0 <= w < k + 1 && !order@.contains_key(note_views(sorted@)[w].filename));
            } else {
                assert(forall|i: int|
                    0 <= i < k + 1 ==> order@.contains_key(
                        #[trigger] note_views(sorted@)[i].filename,
                    ));
            }
        }
        names.push(sorted[k].filename.clone());
        proof {
            assert(note_views(sorted@.subrange(0, k as int + 1)) =~= note_views(
                sorted@.subrange(0, k as int),
            ).push(sorted@[k as int]@));
            assert(names@.map_values(|s: String| s@) =~= listing_names(
                note_views(sorted@.subrange(0, k as int)),
            ).push(sorted@[k as int]@.filename));
        }
        k = k + 1;
    }
    proof {
        assert(sorted@.subrange(0, sorted@.len() as int) =~= sorted@);
    }
    if has_unordered {
        let healed = update_memo_order(&names);
        (sorted, Some(healed))
    } else {
        (sorted, None)
    }
}

} // verus!
