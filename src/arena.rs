use vstd::prelude::*;
use crate::tile::Tier;

verus! {

/// Number of live entries in a tombstoned slot sequence.
pub open spec fn count_live(s: Seq<Option<Tier>>) -> nat
    decreases s.len(),
{
    if s.len() == 0 {
        0
    } else {
        count_live(s.drop_last()) + if s.last() is Some { 1nat } else { 0nat }
    }
}

/// The live slot inserted most recently before `i`, if any.
pub open spec fn prev_live(s: Seq<Option<Tier>>, i: int) -> Option<int>
    decreases i,
{
    if i <= 0 || i > s.len() {
        None
    } else if s[i - 1] is Some {
        Some(i - 1)
    } else {
        prev_live(s, i - 1)
    }
}

pub proof fn lemma_prev_live(s: Seq<Option<Tier>>, i: int)
    requires
        i <= s.len(),
    ensures
        prev_live(s, i) matches Some(j) ==> 0 <= j < i && s[j] is Some,
    decreases i,
{
    if i > 0 && s[i - 1] is None {
        lemma_prev_live(s, i - 1);
    }
}

pub proof fn lemma_count_le_len(s: Seq<Option<Tier>>)
    ensures
        count_live(s) <= s.len(),
    decreases s.len(),
{
    if s.len() > 0 {
        lemma_count_le_len(s.drop_last());
    }
}

pub proof fn lemma_count_update(s: Seq<Option<Tier>>, i: int, v: Option<Tier>)
    requires
        0 <= i < s.len(),
    ensures
        count_live(s.update(i, v)) + (if s[i] is Some { 1int } else { 0int }) == count_live(s)
            + (if v is Some { 1int } else { 0int }),
    decreases s.len(),
{
    let t = s.update(i, v);
    if i == s.len() - 1 {
        assert(t.drop_last() =~= s.drop_last());
    } else {
        lemma_count_update(s.drop_last(), i, v);
        assert(t.drop_last() =~= s.drop_last().update(i, v));
    }
}

/// The stack of tiles at one cell: an insertion-ordered list whose slot
/// indices stay valid until that very slot is deleted.
pub struct Tiers {
    tiers: Vec<Option<Tier>>,
    live: usize,
}

impl View for Tiers {
    type V = Seq<Option<Tier>>;

    closed spec fn view(&self) -> Seq<Option<Tier>> {
        self.tiers@
    }
}

impl Tiers {
    pub open spec fn wf(&self) -> bool {
        self.live_spec() == count_live(self@) && self@.len() <= usize::MAX
    }

    pub closed spec fn live_spec(&self) -> nat {
        self.live as nat
    }

    /// Whether `slot` refers to a tile that is currently stored.
    pub open spec fn is_live(&self, slot: int) -> bool {
        0 <= slot < self@.len() && self@[slot] is Some
    }

    pub fn new() -> (r: Self)
        ensures
            r.wf(),
            r@ == Seq::<Option<Tier>>::empty(),
    {
        Tiers { tiers: Vec::new(), live: 0 }
    }

    /// Number of tiles currently stored.
    pub fn len(&self) -> (r: usize)
        requires
            self.wf(),
        ensures
            r == count_live(self@),
    {
        self.live
    }

    /// Appends a tile and returns its slot, which no earlier push returned.
    pub fn push_back(&mut self, tier: Tier) -> (slot: usize)
        requires
            old(self).wf(),
        ensures
            final(self).wf(),
            slot == old(self)@.len(),
            final(self)@ == old(self)@.push(Some(tier)),
    {
        proof {
            lemma_count_le_len(self@);
            assert(self@.push(Some(tier)).drop_last() =~= self@);
        }
        let slot = self.tiers.len();
        self.tiers.push(Some(tier));
        let n = self.tiers.len();
        assert(n == slot + 1);
        self.live = self.live + 1;
        slot
    }

    /// The tile stored at a live slot.
    pub fn get(&self, slot: usize) -> (r: Tier)
        requires
            self.is_live(slot as int),
        ensures
            Some(r) == self@[slot as int],
    {
        self.tiers[slot].unwrap()
    }

    /// Overwrites the tile stored at a live slot in place.
    pub fn set(&mut self, slot: usize, tier: Tier)
        requires
            old(self).wf(),
            old(self).is_live(slot as int),
        ensures
            final(self).wf(),
            final(self)@ == old(self)@.update(slot as int, Some(tier)),
    {
        proof {
            lemma_count_update(self@, slot as int, Some(tier));
        }
        self.tiers.set(slot, Some(tier));
    }

    /// Removes the tile at a live slot; every other slot keeps its index.
    pub fn delete(&mut self, slot: usize)
        requires
            old(self).wf(),
            old(self).is_live(slot as int),
        ensures
            final(self).wf(),
            final(self)@ == old(self)@.update(slot as int, None),
    {
        proof {
            lemma_count_update(self@, slot as int, None);
        }
        self.tiers.set(slot, None);
        self.live = self.live - 1;
    }

    /// The live slot inserted immediately before `slot`, skipping deleted ones.
    pub fn previous(&self, slot: usize) -> (r: Option<usize>)
        requires
            slot <= self@.len(),
        ensures
            r matches Some(j) ==> prev_live(self@, slot as int) == Some(j as int),
            r is None ==> prev_live(self@, slot as int) is None,
    {
        let mut i: usize = slot;
        while i > 0
            invariant
                i <= slot <= self@.len(),
                prev_live(self@, slot as int) == prev_live(self@, i as int),
            decreases i,
        {
            if self.tiers[i - 1].is_some() {
                return Some(i - 1);
            }
            i = i - 1;
        }
        None
    }

    /// The glyph of the topmost tile, or a blank for an empty cell.
    pub open spec fn glyph_spec(&self) -> char {
        match prev_live(self@, self@.len() as int) {
            Some(j) => self@[j]->0.glyph_spec(),
            None => ' ',
        }
    }

    pub fn glyph(&self) -> (r: char)
        ensures
            r == self.glyph_spec(),
    {
        match self.back() {
            Some((tier, _)) => tier.glyph(),
            None => ' ',
        }
    }

    /// The most recently inserted tile that is still stored, with its slot.
    pub fn back(&self) -> (r: Option<(Tier, usize)>)
        ensures
            r matches Some(p) ==> prev_live(self@, self@.len() as int) == Some(p.1 as int)
                && self@[p.1 as int] == Some(p.0),
            r is None ==> prev_live(self@, self@.len() as int) is None,
    {
        proof {
            lemma_prev_live(self@, self@.len() as int);
        }
        match self.previous(self.tiers.len()) {
            Some(j) => Some((self.tiers[j].unwrap(), j)),
            None => None,
        }
    }
}

} // verus!
