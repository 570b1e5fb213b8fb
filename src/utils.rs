//! Party lists: which candidates of a list belong to a party.
use crate::model::{CandidateID, DistrictID, ElectionStage, PartyID, PartyListSource};
use crate::model::SeatResult;
use crate::order::{ascending, lemma_ordered_of, lemma_push_to_set, ordered, sorted_ids};
use crate::stats::{count_sum, distinct_keys, lemma_ascending_no_dup, lemma_count_sum_bump, lemma_filter_count};
use vstd::prelude::*;

verus! {

broadcast use vstd::std_specs::hash::group_hash_axioms;

/// Candidate `c` runs for `party`.
pub open spec fn in_party(stage: ElectionStage, party: PartyID, c: CandidateID) -> bool {
    stage.candidates@[c].party == Some(party)
}

/// The membership test for `party`, as a predicate.
pub open spec fn member_of(stage: ElectionStage, party: PartyID) -> spec_fn(CandidateID) -> bool {
    |c: CandidateID| in_party(stage, party, c)
}

/// The list that `source` names for district `d`: the district's own
/// candidates, or those of its area.
pub open spec fn list_base(stage: ElectionStage, source: PartyListSource, d: DistrictID) -> Set<CandidateID> {
    match source {
        PartyListSource::Area => stage.areas@[stage.districts@[d].area].candidates@,
        PartyListSource::District => stage.districts@[d].candidates@,
    }
}

/// The candidates of `party` on the list that `source` names for `d`.
pub open spec fn party_list_set(
    stage: ElectionStage,
    party: PartyID,
    source: PartyListSource,
    d: DistrictID,
) -> Set<CandidateID> {
    list_base(stage, source, d).filter(member_of(stage, party))
}

/// The list named by `source` for `d` can be read: the district (and for an
/// area list its area) exists, and every listed candidate is known.
pub open spec fn list_readable(stage: ElectionStage, source: PartyListSource, d: DistrictID) -> bool {
    &&& stage.districts@.contains_key(d)
    &&& source == PartyListSource::Area ==> stage.areas@.contains_key(stage.districts@[d].area)
    &&& forall|c: CandidateID| #[trigger] list_base(stage, source, d).contains(c) ==> stage.candidates@.contains_key(c)
}

/// Keeps those of `candidates` who run for `party`, in their order.
pub fn party_candidates(stage: &ElectionStage, party: PartyID, candidates: &Vec<CandidateID>) -> (r: Vec<CandidateID>)
    requires
        forall|i: int| 0 <= i < candidates@.len() ==> stage.candidates@.contains_key(#[trigger] candidates@[i]),
    ensures
        r@ == candidates@.filter(member_of(*stage, party)),
{
    let ghost pred = member_of(*stage, party);
    let mut r: Vec<CandidateID> = Vec::new();
    let mut i: usize = 0;
    while i < candidates.len()
        invariant
            i <= candidates@.len(),
            pred == member_of(*stage, party),
            forall|i: int| 0 <= i < candidates@.len() ==> stage.candidates@.contains_key(#[trigger] candidates@[i]),
            r@ == candidates@.take(i as int).filter(pred),
        decreases candidates@.len() - i,
    {
        let c = candidates[i];
        let cand = stage.candidates.get(&c).unwrap();
        let member = match cand.party {
            Some(p) => p == party,
            None => false,
        };
        assert(*cand == stage.candidates@[c]);
        assert(member == in_party(*stage, party, c));
        assert(member == pred(c));
        proof {
            assert(candidates@.take(i + 1) =~= candidates@.take(i as int).push(c));
            candidates@.take(i as int).lemma_filter_push(c, pred);
        }
        if member {
            r.push(c);
        }
        i = i + 1;
    }
    assert(candidates@.take(i as int) =~= candidates@);
    r
}

/// The candidates of `party` on the list that `source` names for
/// `district`, in increasing ID order.
pub fn party_list(stage: &ElectionStage, party: PartyID, source: PartyListSource, district: DistrictID) -> (r: Vec<CandidateID>)
    requires
        list_readable(*stage, source, district),
    ensures
        r@ == ordered(party_list_set(*stage, party, source, district)),
        ascending(r@),
        r@.to_set() == party_list_set(*stage, party, source, district),
{
    let d = stage.districts.get(&district).unwrap();
    let ids = match source {
        PartyListSource::Area => {
            let area = stage.areas.get(&d.area).unwrap();
            sorted_ids(&area.candidates)
        },
        PartyListSource::District => sorted_ids(&d.candidates),
    };
    let ghost base = list_base(*stage, source, district);
    let ghost pred = member_of(*stage, party);
    let mut r: Vec<CandidateID> = Vec::new();
    let mut i: usize = 0;
    while i < ids.len()
        invariant
            i <= ids@.len(),
            pred == member_of(*stage, party),
            base == list_base(*stage, source, district),
            ascending(ids@),
            ids@.to_set() == base,
            forall|c: CandidateID| #[trigger] base.contains(c) ==> stage.candidates@.contains_key(c),
            ascending(r@),
            forall|k: int| 0 <= k < r@.len() ==> exists|j: int| 0 <= j < i && ids@[j] == #[trigger] r@[k],
            r@.to_set() == ids@.take(i as int).to_set().filter(pred),
        decreases ids@.len() - i,
    {
        let c = ids[i];
        assert(base.contains(c)) by {
            assert(ids@[i as int] == c);
        }
        let cand = stage.candidates.get(&c).unwrap();
        let member = match cand.party {
            Some(p) => p == party,
            None => false,
        };
        assert(*cand == stage.candidates@[c]);
        assert(member == in_party(*stage, party, c));
        assert(member == pred(c));
        let ghost before = r@;
        proof {
            assert(ids@.take(i + 1) =~= ids@.take(i as int).push(c));
            lemma_push_to_set(ids@.take(i as int), c);
        }
        if member {
            r.push(c);
            proof {
                lemma_push_to_set(before, c);
                assert forall|a: int, b: int| 0 <= a < b < r@.len() implies r@[a] < r@[b] by {
                    if b == r@.len() - 1 {
                        let j = choose|j: int| 0 <= j < i && ids@[j] == #[trigger] before[a];
                    }
                }
                assert forall|k: int| 0 <= k < r@.len() implies exists|j: int| 0 <= j < i + 1 && ids@[j] == #[trigger] r@[k] by {
                    if k == r@.len() - 1 {
                        assert(ids@[i as int] == r@[k]);
                    } else {
                        assert(before[k] == r@[k]);
                    }
                }
            }
        }
        assert(r@.to_set() =~= ids@.take(i + 1).to_set().filter(pred));
        i = i + 1;
    }
    assert(ids@.take(i as int) =~= ids@);
    assert(r@.to_set() =~= party_list_set(*stage, party, source, district));
    proof {
        lemma_ordered_of(r@);
    }
    r
}

/// The party of candidate `c`; `None` for an independent.
pub open spec fn party_of(stage: ElectionStage, c: CandidateID) -> Option<PartyID> {
    stage.candidates@[c].party
}

/// Membership in the group of party `k`, as a predicate.
pub open spec fn with_party(stage: ElectionStage, k: Option<PartyID>) -> spec_fn(CandidateID) -> bool {
    |c: CandidateID| party_of(stage, c) == k
}

fn same_party(a: Option<PartyID>, b: Option<PartyID>) -> (r: bool)
    ensures
        r == (a == b),
{
    match (a, b) {
        (Some(x), Some(y)) => x == y,
        (None, None) => true,
        _ => false,
    }
}

/// Counts the winners per party; `None` counts all independents together.
/// The groups come in the order of their lowest candidate ID.
pub fn seats_by_party(stage: &ElectionStage, seats: &SeatResult) -> (r: Vec<(Option<PartyID>, usize)>)
    requires
        forall|c: CandidateID| #[trigger] seats.seats@.contains(c) ==> stage.candidates@.contains_key(c),
    ensures
        distinct_keys(r@),
        forall|i: int| 0 <= i < r@.len() ==> (#[trigger] r@[i]).1 == seats.seats@.filter(with_party(*stage, r@[i].0)).len() && r@[i].1 > 0,
        forall|c: CandidateID| #[trigger] seats.seats@.contains(c) ==> exists|i: int| 0 <= i < r@.len() && (#[trigger] r@[i]).0 == party_of(*stage, c),
        count_sum(r@) == seats.seats@.len(),
{
    broadcast use vstd::seq_lib::group_filter_ensures;
    broadcast use Seq::lemma_filter_contains_rev;

    let ids = sorted_ids(&seats.seats);
    let mut r: Vec<(Option<PartyID>, usize)> = Vec::new();
    let mut i: usize = 0;
    while i < ids.len()
        invariant
            i <= ids@.len(),
            ascending(ids@),
            ids@.to_set() == seats.seats@,
            forall|c: CandidateID| #[trigger] seats.seats@.contains(c) ==> stage.candidates@.contains_key(c),
            distinct_keys(r@),
            forall|j: int| 0 <= j < r@.len() ==> (#[trigger] r@[j]).1 == ids@.take(i as int).filter(with_party(*stage, r@[j].0)).len() && r@[j].1 > 0,
            forall|k: int| 0 <= k < i ==> exists|j: int| 0 <= j < r@.len() && (#[trigger] r@[j]).0 == party_of(*stage, #[trigger] ids@[k]),
            count_sum(r@) == i,
        decreases ids@.len() - i,
    {
        let c = ids[i];
        assert(seats.seats@.contains(c)) by {
            assert(ids@[i as int] == c);
        }
        let cand = stage.candidates.get(&c).unwrap();
        let key = cand.party;
        assert(key == party_of(*stage, c));
        let ghost q = ids@.take(i as int);
        let ghost before = r@;
        assert(ids@.take(i + 1) =~= q.push(c));
        let mut j: usize = 0;
        while j < r.len() && !same_party(r[j].0, key)
            invariant
                j <= r@.len(),
                forall|m: int| 0 <= m < j ==> r@[m].0 != key,
            decreases r@.len() - j,
        {
            j = j + 1;
        }
        if j < r.len() {
            let n = r[j].1;
            assert(n <= i) by {
                assert(q.filter(with_party(*stage, key)).len() <= q.len());
            }
            r.set(j, (key, n + 1));
            proof {
                lemma_count_sum_bump(before, j as int, (key, (n + 1) as usize));
            }
        } else {
            r.push((key, 1));
            proof {
                assert(q.filter(with_party(*stage, key)).len() == 0) by {
                    let f = q.filter(with_party(*stage, key));
                    if f.len() > 0 {
                        assert(f.contains(f[0]));
                        q.lemma_filter_contains_rev(with_party(*stage, key), f[0]);
                        let k = choose|k: int| 0 <= k < q.len() && q[k] == f[0];
                        assert(ids@[k] == f[0]);
                        let m = choose|m: int| 0 <= m < before.len() && (#[trigger] before[m]).0 == party_of(*stage, ids@[k]);
                    }
                }
                assert(r@.drop_last() =~= before);
            }
        }
        proof {
            assert forall|m: int| 0 <= m < r@.len() implies (#[trigger] r@[m]).1 == ids@.take(i + 1).filter(with_party(*stage, r@[m].0)).len() && r@[m].1 > 0 by {
                q.lemma_filter_push(c, with_party(*stage, r@[m].0));
            }
            assert forall|k: int| 0 <= k < i + 1 implies exists|m: int| 0 <= m < r@.len() && (#[trigger] r@[m]).0 == party_of(*stage, #[trigger] ids@[k]) by {
                if k < i {
                    let m = choose|m: int| 0 <= m < before.len() && (#[trigger] before[m]).0 == party_of(*stage, ids@[k]);
                    assert(r@[m].0 == before[m].0);
                } else {
                    assert(r@[j as int].0 == key);
                }
            }
        }
        i = i + 1;
    }
    proof {
        assert(ids@.take(i as int) =~= ids@);
        lemma_ascending_no_dup(ids@);
        ids@.unique_seq_to_set();
        assert forall|m: int| 0 <= m < r@.len() implies (#[trigger] r@[m]).1 == seats.seats@.filter(with_party(*stage, r@[m].0)).len() by {
            lemma_filter_count(ids@, with_party(*stage, r@[m].0));
        }
        assert forall|c: CandidateID| #[trigger] seats.seats@.contains(c) implies exists|m: int| 0 <= m < r@.len() && (#[trigger] r@[m]).0 == party_of(*stage, c) by {
            assert(ids@.to_set().contains(c));
            let k = choose|k: int| 0 <= k < ids@.len() && ids@[k] == c;
        }
    }
    r
}

} // verus!
