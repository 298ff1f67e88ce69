//! A map from tree positions to node hashes, as a proof or a cache holds it.
use vstd::prelude::*;

use std::collections::HashMap;

use crate::geometry::{distinct_positions, position_set, position_views};
use crate::position::LogTreePosition;

verus! {

broadcast use vstd::std_specs::hash::group_hash_axioms;

/// The number of indexes a level can hold: `2^64`.
pub open spec fn level_span() -> nat {
    0x1_0000_0000_0000_0000
}

/// The integer that keys a position in the map: its level, then its index.
pub open spec fn position_key(p: (nat, nat)) -> nat {
    p.0 * level_span() + p.1
}

/// Whether a position is one that a `LogTreePosition` can hold.
pub open spec fn position_in_range(p: (nat, nat)) -> bool {
    p.0 <= usize::MAX && p.1 <= u64::MAX
}

proof fn lemma_key_bounds(p: (nat, nat))
    requires
        position_in_range(p),
    ensures
        position_key(p) <= u128::MAX,
{
    assert(p.0 * level_span() <= 0xffff_ffff_ffff_ffff * level_span()) by (nonlinear_arith)
        requires
            p.0 <= 0xffff_ffff_ffff_ffff,
    ;
}

proof fn lemma_key_injective(a: (nat, nat), b: (nat, nat))
    requires
        position_in_range(a),
        position_in_range(b),
        position_key(a) == position_key(b),
    ensures
        a == b,
{
    vstd::arithmetic::div_mod::lemma_fundamental_div_mod_converse(
        position_key(a) as int,
        level_span() as int,
        a.0 as int,
        a.1 as int,
    );
    vstd::arithmetic::div_mod::lemma_fundamental_div_mod_converse(
        position_key(b) as int,
        level_span() as int,
        b.0 as int,
        b.1 as int,
    );
}

fn key_of(p: &LogTreePosition) -> (k: u128)
    ensures
        k as nat == position_key(p@),
{
    proof {
        lemma_key_bounds(p@);
    }
    (p.level as u128) * 0x1_0000_0000_0000_0000u128 + (p.index as u128)
}

/// Node hashes by tree position.
pub struct ProofMap {
    /// The hashes, keyed by `position_key`.
    map: HashMap<u128, String>,
    /// The positions that the map holds, each once.
    positions: Vec<LogTreePosition>,
}

impl View for ProofMap {
    type V = Map<(nat, nat), Seq<char>>;

    closed spec fn view(&self) -> Map<(nat, nat), Seq<char>> {
        Map::new(
            |p: (nat, nat)| position_set(self.positions@).contains(p),
            |p: (nat, nat)| self.map@[position_key(p) as u128]@,
        )
    }
}

impl ProofMap {
    /// The positions are listed once each, and the map holds a hash at
    /// exactly the keys of the listed positions.
    pub closed spec fn wf(&self) -> bool {
        &&& distinct_positions(self.positions@)
        &&& forall|p: (nat, nat)|
            #![trigger self.map@.contains_key(position_key(p) as u128)]
            position_in_range(p) ==> (self.map@.contains_key(position_key(p) as u128)
                <==> position_set(self.positions@).contains(p))
    }

    /// An empty map.
    pub fn new() -> (r: ProofMap)
        ensures
            r.wf(),
            r@ == Map::<(nat, nat), Seq<char>>::empty(),
    {
        let r = ProofMap { map: HashMap::new(), positions: Vec::new() };
        assert(position_views(r.positions@) =~= Seq::empty());
        assert(position_set(r.positions@) =~= Set::empty());
        assert(r@ =~= Map::<(nat, nat), Seq<char>>::empty());
        r
    }

    /// Number of positions in the map.
    pub fn len(&self) -> (r: usize)
        requires
            self.wf(),
        ensures
            r == self@.len(),
    {
        proof {
            assert(distinct_positions(self.positions@));
            assert(position_views(self.positions@).no_duplicates());
            position_views(self.positions@).unique_seq_to_set();
            assert(self@.dom() =~= position_set(self.positions@));
            assert(position_views(self.positions@).len() == self.positions@.len());
        }
        self.positions.len()
    }

    /// Whether the map is empty.
    pub fn is_empty(&self) -> (r: bool)
        requires
            self.wf(),
        ensures
            r == (self@.len() == 0),
    {
        self.len() == 0
    }

    /// The hash at a position, if the map holds one.
    pub fn get(&self, p: &LogTreePosition) -> (r: Option<&String>)
        requires
            self.wf(),
        ensures
            r is Some <==> self@.contains_key(p@),
            r matches Some(h) ==> h@ == self@[p@],
    {
        let k = key_of(p);
        assert(self.map@.contains_key(position_key(p@) as u128) <==> position_set(
            self.positions@,
        ).contains(p@));
        self.map.get(&k)
    }

    /// Whether the map holds a hash at a position.
    pub fn contains_key(&self, p: &LogTreePosition) -> (r: bool)
        requires
            self.wf(),
        ensures
            r == self@.contains_key(p@),
    {
        self.get(p).is_some()
    }

    /// Sets the hash at a position, replacing any earlier one.
    pub fn insert(&mut self, p: LogTreePosition, h: String)
        requires
            old(self).wf(),
        ensures
            final(self).wf(),
            final(self)@ == old(self)@.insert(p@, h@),
    {
        let ghost before = *self;
        let k = key_of(&p);
        assert(self.map@.contains_key(position_key(p@) as u128) <==> position_set(
            self.positions@,
        ).contains(p@));
        if !self.map.contains_key(&k) {
            let ghost pv = self.positions@;
            self.positions.push(p);
            assert(position_views(self.positions@) =~= position_views(pv).push(p@));
            proof {
                position_views(pv).lemma_push_to_set_commute(p@);
            }
        } else {
            assert(position_set(self.positions@).insert(p@) =~= position_set(self.positions@));
        }
        self.map.insert(k, h);
        assert(position_set(self.positions@) == position_set(before.positions@).insert(p@));
        assert forall|q: (nat, nat)|
            #![trigger self.map@.contains_key(position_key(q) as u128)]
            position_in_range(q) implies (self.map@.contains_key(position_key(q) as u128)
            <==> position_set(self.positions@).contains(q)) by {
            lemma_key_bounds(q);
            lemma_key_bounds(p@);
            if position_key(q) == position_key(p@) {
                lemma_key_injective(q, p@);
            }
            assert(before.map@.contains_key(position_key(q) as u128) <==> position_set(
                before.positions@,
            ).contains(q));
        }
        assert forall|q: (nat, nat)| #[trigger] self@.contains_key(q) && q != p@ implies self@[q]
            == before@[q] by {
            let qs = position_views(self.positions@);
            let i = choose|i: int| 0 <= i < qs.len() && qs[i] == q;
            assert(position_in_range(q));
            lemma_key_bounds(q);
            lemma_key_bounds(p@);
            if position_key(q) == position_key(p@) {
                lemma_key_injective(q, p@);
            }
        }
        assert(self@ =~= before@.insert(p@, h@));
    }

    /// A map with the same positions and hashes.
    pub fn copy(&self) -> (r: ProofMap)
        requires
            self.wf(),
        ensures
            r.wf(),
            r@ == self@,
    {
        let mut r = ProofMap::new();
        r.extend(self);
        assert(r@ =~= self@);
        r
    }

    /// Sets the hashes of `other` at its positions, replacing earlier ones.
    pub fn extend(&mut self, other: &ProofMap)
        requires
            old(self).wf(),
            other.wf(),
        ensures
            final(self).wf(),
            final(self)@ == old(self)@.union_prefer_right(other@),
    {
        let ghost start = self@;
        let mut i: usize = 0;
        while i < other.positions.len()
            invariant
                0 <= i <= other.positions.len(),
                self.wf(),
                other.wf(),
                self@ == start.union_prefer_right(
                    other@.restrict(position_views(other.positions@).subrange(0, i as int).to_set()),
                ),
            decreases other.positions.len() - i,
        {
            let p = other.positions[i];
            let ghost before = position_views(other.positions@).subrange(0, i as int);
            assert(position_views(other.positions@).subrange(0, i + 1) =~= before.push(p@));
            proof {
                before.lemma_push_to_set_commute(p@);
            }
            assert(position_views(other.positions@)[i as int] == p@);
            assert(other@.contains_key(p@));
            let h = other.get(&p).unwrap().clone();
            self.insert(p, h);
            assert(self@ =~= start.union_prefer_right(
                other@.restrict(before.push(p@).to_set()),
            ));
            i = i + 1;
        }
        assert(position_views(other.positions@).subrange(0, i as int) =~= position_views(
            other.positions@,
        ));
        assert(other@.restrict(position_set(other.positions@)) =~= other@);
    }

    /// The positions in the map.
    pub fn positions(&self) -> (r: Vec<LogTreePosition>)
        requires
            self.wf(),
        ensures
            r@.map_values(|p: LogTreePosition| p@).to_set() == self@.dom(),
    {
        let mut r: Vec<LogTreePosition> = Vec::new();
        let mut i: usize = 0;
        while i < self.positions.len()
            invariant
                0 <= i <= self.positions.len(),
                r@.len() == i,
                forall|k: int| 0 <= k < i ==> #[trigger] r@[k] == self.positions@[k],
            decreases self.positions.len() - i,
        {
            r.push(self.positions[i]);
            i = i + 1;
        }
        assert(r@ =~= self.positions@);
        assert(self@.dom() =~= position_set(self.positions@));
        r
    }
}

} // verus!
