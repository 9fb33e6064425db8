//! The information-set store: a keyed collection of `InfoSet` accumulators
//! with get-or-create-on-read semantics, the single piece of shared mutable
//! state in the solver. It is backed by a vector in insertion order, with
//! the invariant that no two entries share a key, so across a run it holds
//! exactly one entry per (card, history) decision point actually visited.

use vstd::prelude::*;
use crate::infoset::fresh_s;
use crate::infoset::iset_ok;
use crate::infoset::InfoSet;

verus! {

/// Two entries clash when they carry the same (card, history-code) key.
pub open spec fn same_key(x: InfoSet, y: InfoSet) -> bool {
    x.card == y.card && x.hist == y.hist
}

/// Entry `x` carries the key (card, hist).
pub open spec fn is_key(x: InfoSet, card: u8, hist: u64) -> bool {
    x.card == card && x.hist == hist
}

/// The store's invariant: every entry is well formed and keys are unique.
pub open spec fn store_ok(s: Seq<InfoSet>) -> bool {
    &&& forall|j: int| 0 <= j < s.len() ==> iset_ok(#[trigger] s[j])
    &&& forall|j: int, k: int|
        0 <= j < k < s.len() ==> !same_key(#[trigger] s[j], #[trigger] s[k])
}

/// The index of the first entry with the key, or -1 when there is none.
pub open spec fn find_s(s: Seq<InfoSet>, card: u8, hist: u64) -> int
    decreases s.len(),
{
    if s.len() == 0 {
        -1
    } else if is_key(s[0], card, hist) {
        0
    } else {
        let r = find_s(s.drop_first(), card, hist);
        if r == -1 {
            -1
        } else {
            r + 1
        }
    }
}

/// What `find_s` means pointwise: -1 exactly when no entry has the key,
/// otherwise the first index that does.
pub proof fn lemma_find_props(s: Seq<InfoSet>, card: u8, hist: u64)
    ensures
        find_s(s, card, hist) == -1 ==> forall|j: int|
            0 <= j < s.len() ==> !is_key(#[trigger] s[j], card, hist),
        find_s(s, card, hist) != -1 ==> {
            &&& 0 <= find_s(s, card, hist) < s.len()
            &&& is_key(s[find_s(s, card, hist)], card, hist)
            &&& forall|j: int|
                0 <= j < find_s(s, card, hist) ==> !is_key(#[trigger] s[j], card, hist)
        },
    decreases s.len(),
{
    if s.len() > 0 {
        if !is_key(s[0], card, hist) {
            lemma_find_props(s.drop_first(), card, hist);
            assert(forall|j: int|
                1 <= j < s.len() ==> s.drop_first()[j - 1] == #[trigger] s[j]);
        }
    }
}

/// Get-or-create on the sequence model: the store after a lookup for the
/// key, and the index the entry then has.
pub open spec fn touch_s(s: Seq<InfoSet>, card: u8, hist: u64) -> (Seq<InfoSet>, int) {
    let f = find_s(s, card, hist);
    if f == -1 {
        (s.push(fresh_s(card, hist)), s.len() as int)
    } else {
        (s, f)
    }
}

/// The information-set store.
pub struct Store {
    pub sets: Vec<InfoSet>,
}

impl View for Store {
    type V = Seq<InfoSet>;

    open spec fn view(&self) -> Seq<InfoSet> {
        self.sets@
    }
}

impl Store {
    /// An empty store: the state the driver starts every run from.
    pub fn new() -> (r: Store)
        ensures
            r@ == Seq::<InfoSet>::empty(),
            store_ok(r@),
    {
        let v: Vec<InfoSet> = Vec::new();
        proof {
            assert(v@ =~= Seq::<InfoSet>::empty());
        }
        Store { sets: v }
    }

    /// The number of entries.
    pub fn len(&self) -> (r: usize)
        ensures
            r == self@.len(),
    {
        self.sets.len()
    }

    /// Read one entry.
    pub fn get(&self, i: usize) -> (r: &InfoSet)
        requires
            i < self@.len(),
        ensures
            *r == self@[i as int],
    {
        &self.sets[i]
    }

    /// Overwrite one entry. The traversal uses this to fold reach and
    /// regret increments into an information set in place.
    pub fn set_entry(&mut self, i: usize, e: InfoSet)
        requires
            i < old(self)@.len(),
        ensures
            final(self)@ == old(self)@.update(i as int, e),
    {
        self.sets[i] = e;
    }

    /// Look the key up, inserting a freshly initialized information set
    /// first when it is unknown, and return the entry's index.
    pub fn get_or_create(&mut self, card: u8, hist: u64) -> (i: usize)
        requires
            store_ok(old(self)@),
            card < 3,
        ensures
            final(self)@ == touch_s(old(self)@, card, hist).0,
            i == touch_s(old(self)@, card, hist).1,
            store_ok(final(self)@),
            i < final(self)@.len(),
            is_key(final(self)@[i as int], card, hist),
            old(self)@.len() <= final(self)@.len(),
    {
        let n = self.sets.len();
        let mut i: usize = 0;
        while i < n
            invariant
                n == self@.len(),
                0 <= i <= n,
                *self == *old(self),
                store_ok(self@),
                forall|j: int| 0 <= j < i ==> !is_key(#[trigger] self@[j], card, hist),
            decreases n - i,
        {
            if self.sets[i].card == card && self.sets[i].hist == hist {
                proof {
                    lemma_find_props(self@, card, hist);
                    let f = find_s(self@, card, hist);
                    assert(is_key(self@[i as int], card, hist));
                    assert(f != -1);
                    assert(f == i as int);
                }
                return i;
            }
            i = i + 1;
        }
        proof {
            lemma_find_props(self@, card, hist);
            assert(find_s(self@, card, hist) != -1 ==> is_key(
                self@[find_s(self@, card, hist)],
                card,
                hist,
            ));
            assert(find_s(old(self)@, card, hist) == -1);
        }
        let entry = InfoSet::new(card, hist);
        self.sets.push(entry);
        proof {
            assert(self@ =~= old(self)@.push(fresh_s(card, hist)));
        }
        n
    }
}

} // verus!
