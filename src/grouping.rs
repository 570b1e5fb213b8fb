//! Queries over one unit of a grouping: who contests it and how many seats
//! it fills. Every electoral method resolves tiers through these.
use crate::model::{CandidateID, DistrictID, ElectionStage, Grouping};
use crate::order::{ascending, lemma_push_to_set, ordered, sorted_ids};
use std::collections::HashSet;
use vstd::prelude::*;

verus! {

broadcast use vstd::std_specs::hash::group_hash_axioms;

/// Candidates contesting any district of `tier`.
pub open spec fn tier_candidates(stage: ElectionStage, tier: Set<DistrictID>) -> Set<CandidateID> {
    Set::new(
        |c: CandidateID|
            exists|d: DistrictID| tier.contains(d) && #[trigger] stage.districts@[d].candidates@.contains(c),
    )
}

/// Total seat count of the listed districts.
pub open spec fn seats_sum(stage: ElectionStage, ds: Seq<DistrictID>) -> nat
    decreases ds.len(),
{
    if ds.len() == 0 {
        0
    } else {
        seats_sum(stage, ds.drop_last()) + stage.districts@[ds.last()].seats as nat
    }
}

/// Total seat count of the districts of `tier`.
pub open spec fn tier_seats(stage: ElectionStage, tier: Set<DistrictID>) -> nat {
    seats_sum(stage, ordered(tier))
}

proof fn lemma_tier_candidates_insert(stage: ElectionStage, s: Set<DistrictID>, d: DistrictID)
    ensures
        tier_candidates(stage, s.insert(d)) == tier_candidates(stage, s).union(
            stage.districts@[d].candidates@,
        ),
{
    let l = tier_candidates(stage, s.insert(d));
    let r = tier_candidates(stage, s).union(stage.districts@[d].candidates@);
    assert forall|c: CandidateID| l.contains(c) implies r.contains(c) by {
        let e = choose|e: DistrictID| s.insert(d).contains(e) && #[trigger] stage.districts@[e].candidates@.contains(c);
        if e != d {
            assert(s.contains(e));
        }
    }
    assert(l =~= r);
}

/// An ascending sequence of IDs holds at most one entry per `u32` value.
pub proof fn lemma_ascending_len(q: Seq<u32>)
    requires
        ascending(q),
    ensures
        q.len() <= 0x1_0000_0000,
        forall|i: int| 0 <= i < q.len() ==> q[i] >= i,
    decreases q.len(),
{
    if q.len() > 0 {
        lemma_ascending_len(q.drop_last());
        assert forall|i: int| 0 <= i < q.len() implies q[i] >= i by {
            if i < q.len() - 1 {
                assert(q.drop_last()[i] == q[i]);
            } else if i > 0 {
                assert(q.drop_last()[i - 1] >= i - 1);
                assert(q[i - 1] < q[i]);
            }
        }
        assert(q[q.len() - 1] >= q.len() - 1);
    }
}

impl Grouping {
    /// All candidates contesting the districts of unit `grouping`.
    pub fn candidates(&self, grouping: usize, stage: &ElectionStage) -> (r: HashSet<CandidateID>)
        requires
            grouping < self.0@.len(),
            forall|d: DistrictID| #[trigger] self.0@[grouping as int]@.contains(d) ==> stage.districts@.contains_key(d),
        ensures
            r@ == tier_candidates(*stage, self.0@[grouping as int]@),
    {
        let districts = &self.0[grouping];
        let mut r: HashSet<CandidateID> = HashSet::new();
        proof {
            assert(tier_candidates(*stage, Set::empty()) =~= Set::empty());
            assert(Seq::<&DistrictID>::empty().unref().to_set() =~= Set::empty());
        }
        for d in it: districts.iter()
            invariant
                it.seq().unref().to_set() == districts@,
                forall|d: DistrictID| #[trigger] districts@.contains(d) ==> stage.districts@.contains_key(d),
                r@ == tier_candidates(*stage, it.history().unref().to_set()),
                it.index() == it.seq().len() ==> r@ == tier_candidates(*stage, districts@),
        {
            let ghost done = it.history();
            let ghost before = r@;
            assert(districts@.contains(*d)) by {
                assert(it.seq().unref()[it.index()] == *d);
            }
            let district = stage.districts.get(d).unwrap();
            for c in it2: district.candidates.iter()
                invariant
                    it2.seq().unref().to_set() == district.candidates@,
                    r@ == before.union(it2.history().unref().to_set()),
                    it2.index() == it2.seq().len() ==> r@ == before.union(district.candidates@),
            {
                let ghost done2 = it2.history();
                r.insert(*c);
                proof {
                    assert(done2.push(c).unref() =~= done2.unref().push(*c));
                    lemma_push_to_set(done2.unref(), *c);
                    assert(r@ =~= before.union(done2.push(c).unref().to_set()));
                    assert(it2.index() + 1 == it2.seq().len() ==> done2.push(c) =~= it2.seq());
                }
            }
            proof {
                assert(before.union(Seq::<&CandidateID>::empty().unref().to_set()) =~= before);
                assert(done.push(d).unref() =~= done.unref().push(*d));
                lemma_push_to_set(done.unref(), *d);
                lemma_tier_candidates_insert(*stage, done.unref().to_set(), *d);
                assert(it.index() + 1 == it.seq().len() ==> done.push(d) =~= it.seq());
            }
        }
        r
    }

    /// Total seats of the districts of unit `grouping`.
    pub fn seats(&self, grouping: usize, stage: &ElectionStage) -> (r: u64)
        requires
            grouping < self.0@.len(),
            forall|d: DistrictID| #[trigger] self.0@[grouping as int]@.contains(d) ==> stage.districts@.contains_key(d),
        ensures
            r == tier_seats(*stage, self.0@[grouping as int]@),
    {
        let ids = sorted_ids(&self.0[grouping]);
        let ghost tier = self.0@[grouping as int]@;
        proof {
            lemma_ascending_len(ids@);
        }
        let mut total: u64 = 0;
        let mut i: usize = 0;
        while i < ids.len()
            invariant
                ids@ == ordered(tier),
                ids@.to_set() == tier,
                ascending(ids@),
                ids@.len() <= 0x1_0000_0000,
                i <= ids@.len(),
                total == seats_sum(*stage, ids@.take(i as int)),
                total <= 255 * i,
                forall|d: DistrictID| #[trigger] tier.contains(d) ==> stage.districts@.contains_key(d),
            decreases ids@.len() - i,
        {
            let d = ids[i];
            assert(tier.contains(d)) by {
                assert(ids@[i as int] == d);
                assert(ids@.to_set().contains(d));
            }
            let district = stage.districts.get(&d).unwrap();
            assert(ids@.take(i + 1).drop_last() =~= ids@.take(i as int));
            total = total + district.seats as u64;
            i = i + 1;
        }
        assert(ids@.take(i as int) =~= ids@);
        total
    }

    /// The indices of the units.
    pub fn keys(&self) -> (r: std::ops::Range<usize>)
        ensures
            r.start == 0,
            r.end == self.0@.len(),
    {
        0..self.0.len()
    }

    /// The units, in index order.
    pub fn values(&self) -> (r: &Vec<HashSet<DistrictID>>)
        ensures
            r@ == self.0@,
    {
        &self.0
    }

    /// The units with their indices, in index order.
    pub fn iter(&self) -> (r: Vec<(usize, &HashSet<DistrictID>)>)
        ensures
            r@.len() == self.0@.len(),
            forall|i: int| 0 <= i < r@.len() ==> (#[trigger] r@[i]).0 == i && *r@[i].1 == self.0@[i],
    {
        let mut r: Vec<(usize, &HashSet<DistrictID>)> = Vec::new();
        let mut i: usize = 0;
        while i < self.0.len()
            invariant
                i <= self.0@.len(),
                r@.len() == i,
                forall|k: int| 0 <= k < i ==> (#[trigger] r@[k]).0 == k && *r@[k].1 == self.0@[k],
            decreases self.0@.len() - i,
        {
            r.push((i, &self.0[i]));
            i = i + 1;
        }
        r
    }
}

} // verus!
