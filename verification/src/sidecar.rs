//! The two sidecar stores: pin state and custom order, each a whole
//! JSON document mapping a filename to a value.  Both are held as an
//! association list with distinct keys, viewed as a `Map` from the
//! filename's characters to the value's view.

use crate::ext;
use vstd::prelude::*;

verus! {

/// Mathematical view of a pin entry.
pub ghost struct PinEntryV {
    pub pinned: bool,
    pub pinned_at: Option<Seq<char>>,
}

/// One pin record: whether the note is pinned, and when it was pinned.
/// An unpinned record is kept, not deleted, once it exists.
pub struct PinEntry {
    pub pinned: bool,
    pub pinned_at: Option<String>,
}

impl View for PinEntry {
    type V = PinEntryV;

    open spec fn view(&self) -> PinEntryV {
        PinEntryV {
            pinned: self.pinned,
            pinned_at: match self.pinned_at {
                Option::Some(s) => Some(s@),
                Option::None => None,
            },
        }
    }
}

/// The map an entry sequence denotes: later entries win.
pub open spec fn assoc_map<V: View>(s: Seq<(String, V)>) -> Map<Seq<char>, V::V>
    decreases s.len(),
{
    if s.len() == 0 {
        Map::empty()
    } else {
        assoc_map(s.drop_last()).insert(s.last().0@, s.last().1@)
    }
}

/// No two entries share a key.
pub open spec fn distinct_keys<V>(s: Seq<(String, V)>) -> bool {
    forall|i: int, j: int| 0 <= i < j < s.len() ==> s[i].0@ != s[j].0@
}

/// A whole sidecar document: filename-keyed entries, distinct keys.
pub struct AssocList<V> {
    entries: Vec<(String, V)>,
}

impl<V: View> View for AssocList<V> {
    type V = Map<Seq<char>, V::V>;

    closed spec fn view(&self) -> Map<Seq<char>, V::V> {
        assoc_map(self.entries@)
    }
}

pub proof fn lemma_assoc_contains<V: View>(s: Seq<(String, V)>, k: Seq<char>)
    ensures
        assoc_map(s).contains_key(k) <==> exists|i: int| 0 <= i < s.len() && s[i].0@ == k,
    decreases s.len(),
{
    if s.len() > 0 {
        lemma_assoc_contains(s.drop_last(), k);
        if s.last().0@ == k {
            assert(s[s.len() - 1].0@ == k);
        } else if assoc_map(s).contains_key(k) {
            let i = choose|i: int| 0 <= i < s.drop_last().len() && s.drop_last()[i].0@ == k;
            assert(s[i].0@ == k);
        } else {
            assert(forall|i: int|
                0 <= i < s.len() - 1 ==> s.drop_last()[i] == s[i]);
        }
    }
}

pub proof fn lemma_assoc_get<V: View>(s: Seq<(String, V)>, i: int)
    requires
        distinct_keys(s),
        0 <= i < s.len(),
    ensures
        assoc_map(s).contains_key(s[i].0@),
        assoc_map(s)[s[i].0@] == s[i].1@,
    decreases s.len(),
{
    if i == s.len() - 1 {
    } else {
        assert(forall|j: int| 0 <= j < s.len() - 1 ==> s.drop_last()[j] == s[j]);
        assert(distinct_keys(s.drop_last()));
        lemma_assoc_get(s.drop_last(), i);
        assert(s[i].0@ != s.last().0@);
    }
}

proof fn lemma_assoc_remove<V: View>(s: Seq<(String, V)>, i: int)
    requires
        distinct_keys(s),
        0 <= i < s.len(),
    ensures
        assoc_map(s.remove(i)) == assoc_map(s).remove(s[i].0@),
    decreases s.len(),
{
    if i == s.len() - 1 {
        assert(s.remove(i) =~= s.drop_last());
        lemma_assoc_contains(s.drop_last(), s[i].0@);
        assert(forall|j: int| 0 <= j < s.len() - 1 ==> s.drop_last()[j] == s[j]);
        assert(!assoc_map(s.drop_last()).contains_key(s[i].0@));
        assert(assoc_map(s.drop_last()).insert(s.last().0@, s.last().1@).remove(s[i].0@)
            =~= assoc_map(s.drop_last()));
    } else {
        assert(forall|j: int| 0 <= j < s.len() - 1 ==> s.drop_last()[j] == s[j]);
        assert(distinct_keys(s.drop_last()));
        lemma_assoc_remove(s.drop_last(), i);
        assert(s.remove(i).drop_last() =~= s.drop_last().remove(i));
        assert(s.remove(i).last() == s.last());
        assert(s[i].0@ != s.last().0@);
        assert(assoc_map(s.drop_last()).remove(s[i].0@).insert(s.last().0@, s.last().1@)
            =~= assoc_map(s.drop_last()).insert(s.last().0@, s.last().1@).remove(s[i].0@));
    }
}

impl<V: View> AssocList<V> {
    /// Entries have distinct keys; established by the constructors and
    /// preserved by every method.
    pub closed spec fn wf(&self) -> bool {
        distinct_keys(self.entries@)
    }

    /// The empty document.
    pub fn new() -> (r: Self)
        ensures
            r.wf(),
            r@ == Map::<Seq<char>, V::V>::empty(),
    {
        let r = AssocList { entries: Vec::new() };
        proof {
            assert(r@ =~= Map::<Seq<char>, V::V>::empty());
        }
        r
    }

    fn index_of(&self, name: &String) -> (r: Option<usize>)
        ensures
            match r {
                Some(i) => i < self.entries@.len() && self.entries@[i as int].0@ == name@,
                None => forall|i: int| 0 <= i < self.entries@.len() ==> self.entries@[i].0@ != name@,
            },
    {
        let mut i: usize = 0;
        while i < self.entries.len()
            invariant
                i <= self.entries@.len(),
                forall|j: int| 0 <= j < i ==> self.entries@[j].0@ != name@,
            decreases self.entries@.len() - i,
        {
            if self.entries[i].0 == *name {
                return Some(i);
            }
            i = i + 1;
        }
        None
    }

    /// Looks a filename up.
    pub fn get(&self, name: &String) -> (r: Option<&V>)
        requires
            self.wf(),
        ensures
            match r {
                Some(v) => self@.contains_key(name@) && v@ == self@[name@],
                None => !self@.contains_key(name@),
            },
    {
        match self.index_of(name) {
            Some(i) => {
                proof {
                    lemma_assoc_get(self.entries@, i as int);
                }
                Some(&self.entries[i].1)
            },
            None => {
                proof {
                    lemma_assoc_contains(self.entries@, name@);
                }
                None
            },
        }
    }

    /// Whether the filename has an entry.
    pub fn contains(&self, name: &String) -> (r: bool)
        requires
            self.wf(),
        ensures
            r == self@.contains_key(name@),
    {
        match self.get(name) {
            Some(_) => true,
            None => false,
        }
    }

    /// Inserts or replaces the entry under `name`.
    pub fn set(&mut self, name: &String, v: V)
        requires
            old(self).wf(),
        ensures
            final(self).wf(),
            final(self)@ == old(self)@.insert(name@, v@),
    {
        let ghost s0 = self.entries@;
        match self.index_of(name) {
            Some(i) => {
                proof {
                    lemma_assoc_remove(self.entries@, i as int);
                }
                self.entries.remove(i);
                proof {
                    assert(forall|p: int, q: int|
                        0 <= p < q < self.entries@.len() ==> self.entries@[p].0@
                            != self.entries@[q].0@) by {
                        assert(forall|p: int|
                            0 <= p < self.entries@.len() ==> self.entries@[p] == if p < i as int {
                                s0[p]
                            } else {
                                s0[p + 1]
                            });
                    }
                    lemma_assoc_contains(self.entries@, name@);
                }
                let ghost s1 = self.entries@;
                self.entries.push((name.clone(), v));
                proof {
                    assert(self.entries@.drop_last() =~= s1);
                    assert(forall|j: int| 0 <= j < s1.len() ==> s1[j].0@ != name@);
                    assert(self@ =~= old(self)@.insert(name@, v@));
                }
            },
            None => {
                let ghost s1 = self.entries@;
                self.entries.push((name.clone(), v));
                proof {
                    assert(self.entries@.drop_last() =~= s1);
                    assert(self@ =~= old(self)@.insert(name@, v@));
                }
            },
        }
    }

    /// Removes the entry under `name`, handing it back if it was there.
    pub fn remove(&mut self, name: &String) -> (r: Option<V>)
        requires
            old(self).wf(),
        ensures
            final(self).wf(),
            final(self)@ == old(self)@.remove(name@),
            match r {
                Some(v) => old(self)@.contains_key(name@) && v@ == old(self)@[name@],
                None => !old(self)@.contains_key(name@),
            },
    {
        let ghost s0 = self.entries@;
        match self.index_of(name) {
            Some(i) => {
                proof {
                    lemma_assoc_get(self.entries@, i as int);
                    lemma_assoc_remove(self.entries@, i as int);
                }
                let v = self.entries.remove(i);
                proof {
                    assert(forall|p: int, q: int|
                        0 <= p < q < self.entries@.len() ==> self.entries@[p].0@
                            != self.entries@[q].0@) by {
                        assert(forall|p: int|
                            0 <= p < self.entries@.len() ==> self.entries@[p] == if p < i as int {
                                s0[p]
                            } else {
                                s0[p + 1]
                            });
                    }
                }
                Some(v.1)
            },
            None => {
                proof {
                    lemma_assoc_contains(self.entries@, name@);
                    assert(self@ =~= old(self)@.remove(name@));
                }
                None
            },
        }
    }

    /// The raw entries, for callers that persist the document.
    pub fn items(&self) -> (r: &Vec<(String, V)>)
        requires
            self.wf(),
        ensures
            distinct_keys(r@),
            assoc_map(r@) == self@,
    {
        &self.entries
    }
}

/// Whether `f` is pinned under the pin document `m`: an absent entry
/// means unpinned.
pub open spec fn spec_pinned(m: Map<Seq<char>, PinEntryV>, f: Seq<char>) -> bool {
    m.contains_key(f) && m[f].pinned
}

/// The pin timestamp of `f` under `m`, if any.
pub open spec fn spec_pinned_at(m: Map<Seq<char>, PinEntryV>, f: Seq<char>) -> Option<Seq<char>> {
    if m.contains_key(f) {
        m[f].pinned_at
    } else {
        None
    }
}

/// The pin document after toggling `f` at time `now`: pinning stamps
/// the time, unpinning clears it, and a note never seen before is
/// pinned.
pub open spec fn spec_toggle(
    m: Map<Seq<char>, PinEntryV>,
    f: Seq<char>,
    now: Seq<char>,
) -> Map<Seq<char>, PinEntryV> {
    if spec_pinned(m, f) {
        m.insert(f, PinEntryV { pinned: false, pinned_at: None })
    } else {
        m.insert(f, PinEntryV { pinned: true, pinned_at: Some(now) })
    }
}

impl AssocList<PinEntry> {
    /// Flips the pin state of `filename`, stamping `now` on a
    /// transition to pinned, and returns the new state.
    pub fn toggle_pin(&mut self, filename: &String, now: String) -> (r: bool)
        requires
            old(self).wf(),
        ensures
            final(self).wf(),
            r == !spec_pinned(old(self)@, filename@),
            final(self)@ == spec_toggle(old(self)@, filename@, now@),
    {
        let currently = match self.get(filename) {
            Some(e) => e.pinned,
            None => false,
        };
        if currently {
            self.set(filename, PinEntry { pinned: false, pinned_at: None });
            false
        } else {
            self.set(filename, PinEntry { pinned: true, pinned_at: Some(now) });
            true
        }
    }
}

impl AssocList<PinEntry> {
    /// Flips the pin state of `filename`, stamping the current UTC
    /// time on a transition to pinned, and returns the new state.
    pub fn toggle_pin_now(&mut self, filename: &String) -> (r: bool)
        requires
            old(self).wf(),
        ensures
            final(self).wf(),
            r == !spec_pinned(old(self)@, filename@),
            exists|t: Seq<char>| final(self)@ == spec_toggle(old(self)@, filename@, t),
    {
        let now = ext::utc_now_rfc3339();
        let ghost t = now@;
        let r = self.toggle_pin(filename, now);
        proof {
            assert(self@ == spec_toggle(old(self)@, filename@, t));
        }
        r
    }
}

/// Toggling a note that is not pinned, twice, leaves it unpinned with
/// no pin timestamp, whatever the two clock readings were.
pub proof fn lemma_toggle_twice_unpins(
    m: Map<Seq<char>, PinEntryV>,
    f: Seq<char>,
    t1: Seq<char>,
    t2: Seq<char>,
)
    requires
        !spec_pinned(m, f),
    ensures
        ({
            let m2 = spec_toggle(spec_toggle(m, f, t1), f, t2);
            &&& m2.contains_key(f)
            &&& m2[f] == (PinEntryV { pinned: false, pinned_at: None::<Seq<char>> })
            &&& !spec_pinned(m2, f)
        }),
{
}

impl AssocList<usize> {
    /// Moves the rank of `old_name` to `new_name` when there is one,
    /// as a rename must.  Returns whether the document changed (and so
    /// needs persisting).
    pub fn migrate(&mut self, old_name: &String, new_name: &String) -> (r: bool)
        requires
            old(self).wf(),
        ensures
            final(self).wf(),
            r == old(self)@.contains_key(old_name@),
            r ==> final(self)@ == old(self)@.remove(old_name@).insert(
                new_name@,
                old(self)@[old_name@],
            ),
            !r ==> final(self)@ == old(self)@,
    {
        match self.remove(old_name) {
            Some(rank) => {
                self.set(new_name, rank);
                true
            },
            None => false,
        }
    }
}

/// The order document that ranks `names` in the given order: the entry
/// of `names[i]` is `i`, a later occurrence winning over an earlier
/// one.
pub open spec fn spec_order_of_list(names: Seq<Seq<char>>) -> Map<Seq<char>, usize>
    decreases names.len(),
{
    if names.len() == 0 {
        Map::empty()
    } else {
        spec_order_of_list(names.drop_last()).insert(names.last(), (names.len() - 1) as usize)
    }
}

/// Builds the order document that records exactly the given listing
/// order, rank 0 first.  Used both for an explicit reorder request and
/// for the self-heal step of a listing.
pub fn update_memo_order(filenames: &Vec<String>) -> (r: AssocList<usize>)
    ensures
        r.wf(),
        r@ == spec_order_of_list(filenames@.map_values(|s: String| s@)),
{
    let mut r: AssocList<usize> = AssocList::new();
    let mut i: usize = 0;
    while i < filenames.len()
        invariant
            i <= filenames@.len(),
            r.wf(),
            r@ == spec_order_of_list(
                filenames@.subrange(0, i as int).map_values(|s: String| s@),
            ),
        decreases filenames@.len() - i,
    {
        r.set(&filenames[i], i);
        proof {
            let prev = filenames@.subrange(0, i as int).map_values(|s: String| s@);
            let cur = filenames@.subrange(0, i as int + 1).map_values(|s: String| s@);
            assert(cur.drop_last() =~= prev);
            assert(cur.last() == filenames@[i as int]@);
        }
        i = i + 1;
    }
    proof {
        assert(filenames@.subrange(0, filenames@.len() as int) =~= filenames@);
    }
    r
}

/// With distinct names, the order document of a list ranks each name
/// by its position.
pub proof fn lemma_order_of_list_rank(names: Seq<Seq<char>>, i: int)
    requires
        forall|p: int, q: int| 0 <= p < q < names.len() ==> names[p] != names[q],
        0 <= i < names.len(),
    ensures
        spec_order_of_list(names).contains_key(names[i]),
        spec_order_of_list(names)[names[i]] == i as usize,
    decreases names.len(),
{
    if i == names.len() - 1 {
    } else {
        assert(forall|j: int| 0 <= j < names.len() - 1 ==> names.drop_last()[j] == names[j]);
        lemma_order_of_list_rank(names.drop_last(), i);
        assert(names[i] != names.last());
    }
}

/// Reads one pin entry out of a parsed JSON value: an object with a
/// boolean `pinned` and an optional string-or-null `pinnedAt`.  Any
/// other shape is malformed.
fn pin_entry_of_value(v: &serde_json::Value) -> Option<PinEntry> {
    let pinned = match ext::value_get(v, "pinned") {
        Some(b) => match ext::value_as_bool(b) {
            Some(b) => b,
            None => {
                return None;
            },
        },
        None => {
            return None;
        },
    };
    let pinned_at = match ext::value_get(v, "pinnedAt") {
        Some(t) => {
            if ext::value_is_null(t) {
                None
            } else {
                match ext::value_as_str(t) {
                    Some(s) => Some(s),
                    None => {
                        return None;
                    },
                }
            }
        },
        None => None,
    };
    Some(PinEntry { pinned, pinned_at })
}

/// Parses the pin document.  A text that is not a JSON object — or any
/// entry of the wrong shape — yields the empty document, so corrupt
/// pin state reads as "nothing pinned" instead of failing the caller.
/// The entry values pass through opaque JSON values (their shape has
/// no plain-data type an outside parse could be named over), so the
/// contract fixes the not-an-object case and bounds the keys; the
/// listing engine downstream is verified over every pin document.
pub fn parse_pins_doc(s: &str) -> (r: AssocList<PinEntry>)
    ensures
        r.wf(),
        match ext::json_object_keys(s@) {
            Option::Some(ks) => forall|k: Seq<char>| r@.contains_key(k) ==> ks.contains(k),
            Option::None => r@ == Map::<Seq<char>, PinEntryV>::empty(),
        },
{
    match ext::parse_json_object(s) {
        None => AssocList::new(),
        Some(pairs) => {
            let ghost ks = pairs@.map_values(|p: (String, serde_json::Value)| p.0@);
            let mut r: AssocList<PinEntry> = AssocList::new();
            let mut i: usize = 0;
            while i < pairs.len()
                invariant
                    i <= pairs@.len(),
                    r.wf(),
                    ks == pairs@.map_values(|p: (String, serde_json::Value)| p.0@),
                    forall|k: Seq<char>|
                        r@.contains_key(k) ==> exists|t: int| 0 <= t < i && ks[t] == k,
                decreases pairs@.len() - i,
            {
                let ghost r0 = r@;
                match pin_entry_of_value(&pairs[i].1) {
                    Some(e) => {
                        r.set(&pairs[i].0, e);
                        proof {
                            assert(ks[i as int] == pairs@[i as int].0@);
                            assert forall|k: Seq<char>| r@.contains_key(k) implies exists|t: int|
                                0 <= t < i + 1 && ks[t] == k by {
                                if k != pairs@[i as int].0@ {
                                    assert(r0.contains_key(k));
                                    let t = choose|t: int| 0 <= t < i && ks[t] == k;
                                    assert(0 <= t < i + 1 && ks[t] == k);
                                } else {
                                    assert(ks[i as int] == k);
                                }
                            }
                        }
                    },
                    None => {
                        return AssocList::new();
                    },
                }
                i = i + 1;
            }
            proof {
                assert forall|k: Seq<char>| r@.contains_key(k) implies ks.contains(k) by {
                    let t = choose|t: int| 0 <= t < i && ks[t] == k;
                    assert(ks[t] == k);
                }
            }
            r
        },
    }
}

/// Parses the order document: exactly the filename-to-rank map the
/// text denotes; a text that is not a JSON object of integer ranks
/// yields the empty document, so corrupt order state reads as "no
/// custom order" instead of failing the caller.
pub fn parse_order_doc(s: &str) -> (r: AssocList<usize>)
    ensures
        r.wf(),
        match ext::order_doc_of(s@) {
            Option::Some(m) => r@ == m,
            Option::None => r@ == Map::<Seq<char>, usize>::empty(),
        },
{
    match ext::parse_order_json(s) {
        None => AssocList::new(),
        Some(pairs) => {
            let mut r: AssocList<usize> = AssocList::new();
            let mut i: usize = 0;
            while i < pairs.len()
                invariant
                    i <= pairs@.len(),
                    r.wf(),
                    r@ == assoc_map(pairs@.subrange(0, i as int)),
                decreases pairs@.len() - i,
            {
                r.set(&pairs[i].0, pairs[i].1);
                proof {
                    let prev = pairs@.subrange(0, i as int);
                    let cur = pairs@.subrange(0, i as int + 1);
                    assert(cur.drop_last() =~= prev);
                    assert(cur.last() == pairs@[i as int]);
                }
                i = i + 1;
            }
            proof {
                assert(pairs@.subrange(0, pairs@.len() as int) =~= pairs@);
            }
            r
        },
    }
}

} // verus!
