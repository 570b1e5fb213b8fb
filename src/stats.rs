//! Seat statistics: the winners of a run grouped by party.
use crate::model::{CandidateID, ElectionStage, PartyID, SeatResult};
use crate::order::{ascending, sorted_ids};
use vstd::prelude::*;

verus! {

broadcast use vstd::std_specs::hash::group_hash_axioms;

/// The group a winner counts towards: a party, or the independent winner
/// alone.
#[derive(Debug, Clone, Copy, PartialEq, Eq, Structural, Hash)]
pub enum StatsParty {
    Party(PartyID),
    Ind(CandidateID),
}

/// The sum of the counts of a tally.
pub open spec fn count_sum<K>(r: Seq<(K, usize)>) -> nat
    decreases r.len(),
{
    if r.len() == 0 {
        0
    } else {
        count_sum(r.drop_last()) + r.last().1 as nat
    }
}

/// The keys of a tally are pairwise distinct.
pub open spec fn distinct_keys<K>(r: Seq<(K, usize)>) -> bool {
    forall|i: int, j: int| 0 <= i < j < r.len() ==> r[i].0 != r[j].0
}

pub proof fn lemma_count_sum_bump<K>(r: Seq<(K, usize)>, j: int, x: (K, usize))
    requires
        0 <= j < r.len(),
        x.1 == r[j].1 + 1,
    ensures
        count_sum(r.update(j, x)) == count_sum(r) + 1,
    decreases r.len(),
{
    let u = r.update(j, x);
    if j == r.len() - 1 {
        assert(u.drop_last() =~= r.drop_last());
    } else {
        lemma_count_sum_bump(r.drop_last(), j, x);
        assert(u.drop_last() =~= r.drop_last().update(j, x));
    }
}

/// Filtering a sequence without duplicates counts as filtering its set.
pub proof fn lemma_filter_count(q: Seq<CandidateID>, p: spec_fn(CandidateID) -> bool)
    requires
        q.no_duplicates(),
    ensures
        q.filter(p).len() == q.to_set().filter(p).len(),
        q.filter(p).no_duplicates(),
        q.filter(p).to_set() == q.to_set().filter(p),
    decreases q.len(),
{
    broadcast use vstd::seq_lib::group_filter_ensures;
    broadcast use Seq::lemma_filter_contains_rev;

    if q.len() > 0 {
        let t = q.drop_last();
        let x = q.last();
        assert(t.no_duplicates());
        lemma_filter_count(t, p);
        assert(q =~= t.push(x));
        t.lemma_filter_push(x, p);
        assert(!t.contains(x));
        if p(x) {
            assert(!t.filter(p).contains(x));
            assert(q.filter(p) == t.filter(p).push(x));
            assert(q.filter(p).no_duplicates());
            crate::order::lemma_push_to_set(t.filter(p), x);
            crate::order::lemma_push_to_set(t, x);
            assert(q.filter(p).to_set() =~= q.to_set().filter(p));
        } else {
            crate::order::lemma_push_to_set(t, x);
            assert(q.filter(p).to_set() =~= q.to_set().filter(p));
        }
        q.filter(p).unique_seq_to_set();
    } else {
        assert(q.to_set().filter(p) =~= Set::empty());
        assert(q.filter(p).to_set() =~= Set::empty());
    }
}

/// The group that winner `c` counts towards.
pub open spec fn stats_key(stage: ElectionStage, c: CandidateID) -> StatsParty {
    match stage.candidates@[c].party {
        Some(p) => StatsParty::Party(p),
        None => StatsParty::Ind(c),
    }
}

/// Membership in group `k`, as a predicate.
pub open spec fn in_group(stage: ElectionStage, k: StatsParty) -> spec_fn(CandidateID) -> bool {
    |c: CandidateID| stats_key(stage, c) == k
}

/// An ascending sequence has no duplicates.
pub proof fn lemma_ascending_no_dup(q: Seq<CandidateID>)
    requires
        ascending(q),
    ensures
        q.no_duplicates(),
{
}

/// Counts the winners per party; each independent winner is a group alone.
/// The groups come in the order of their lowest candidate ID.
pub fn seats_by_party(stage: &ElectionStage, seats: &SeatResult) -> (r: Vec<(StatsParty, usize)>)
    requires
        forall|c: CandidateID| #[trigger] seats.seats@.contains(c) ==> stage.candidates@.contains_key(c),
    ensures
        distinct_keys(r@),
        forall|i: int| 0 <= i < r@.len() ==> (#[trigger] r@[i]).1 == seats.seats@.filter(in_group(*stage, r@[i].0)).len() && r@[i].1 > 0,
        forall|c: CandidateID| #[trigger] seats.seats@.contains(c) ==> exists|i: int| 0 <= i < r@.len() && (#[trigger] r@[i]).0 == stats_key(*stage, c),
        count_sum(r@) == seats.seats@.len(),
{
    broadcast use vstd::seq_lib::group_filter_ensures;
    broadcast use Seq::lemma_filter_contains_rev;

    let ids = sorted_ids(&seats.seats);
    let mut r: Vec<(StatsParty, usize)> = Vec::new();
    let mut i: usize = 0;
    while i < ids.len()
        invariant
            i <= ids@.len(),
            ascending(ids@),
            ids@.to_set() == seats.seats@,
            forall|c: CandidateID| #[trigger] seats.seats@.contains(c) ==> stage.candidates@.contains_key(c),
            distinct_keys(r@),
            forall|j: int| 0 <= j < r@.len() ==> (#[trigger] r@[j]).1 == ids@.take(i as int).filter(in_group(*stage, r@[j].0)).len() && r@[j].1 > 0,
            forall|k: int| 0 <= k < i ==> exists|j: int| 0 <= j < r@.len() && (#[trigger] r@[j]).0 == stats_key(*stage, #[trigger] ids@[k]),
            count_sum(r@) == i,
        decreases ids@.len() - i,
    {
        let c = ids[i];
        assert(seats.seats@.contains(c)) by {
            assert(ids@[i as int] == c);
        }
        let cand = stage.candidates.get(&c).unwrap();
        let key = match cand.party {
            Some(p) => StatsParty::Party(p),
            None => StatsParty::Ind(c),
        };
        assert(key == stats_key(*stage, c));
        let ghost q = ids@.take(i as int);
        let ghost before = r@;
        assert(ids@.take(i + 1) =~= q.push(c));
        let mut j: usize = 0;
        while j < r.len() && r[j].0 != key
            invariant
                j <= r@.len(),
                forall|m: int| 0 <= m < j ==> r@[m].0 != key,
            decreases r@.len() - j,
        {
            j = j + 1;
        }
        if j < r.len() {
            let n = r[j].1;
            assert(n <= i) by {
                assert(q.filter(in_group(*stage, key)).len() <= q.len());
            }
            r.set(j, (key, n + 1));
            proof {
                lemma_count_sum_bump(before, j as int, (key, (n + 1) as usize));
            }
        } else {
            r.push((key, 1));
            proof {
                assert(q.filter(in_group(*stage, key)).len() == 0) by {
                    let f = q.filter(in_group(*stage, key));
                    if f.len() > 0 {
                        assert(f.contains(f[0]));
                        q.lemma_filter_contains_rev(in_group(*stage, key), f[0]);
                        let k = choose|k: int| 0 <= k < q.len() && q[k] == f[0];
                        assert(ids@[k] == f[0]);
                        let m = choose|m: int| 0 <= m < before.len() && (#[trigger] before[m]).0 == stats_key(*stage, ids@[k]);
                    }
                }
                assert(r@.drop_last() =~= before);
            }
        }
        proof {
            assert forall|m: int| 0 <= m < r@.len() implies (#[trigger] r@[m]).1 == ids@.take(i + 1).filter(in_group(*stage, r@[m].0)).len() && r@[m].1 > 0 by {
                q.lemma_filter_push(c, in_group(*stage, r@[m].0));
            }
            assert forall|k: int| 0 <= k < i + 1 implies exists|m: int| 0 <= m < r@.len() && (#[trigger] r@[m]).0 == stats_key(*stage, #[trigger] ids@[k]) by {
                if k < i {
                    let m = choose|m: int| 0 <= m < before.len() && (#[trigger] before[m]).0 == stats_key(*stage, ids@[k]);
                    assert(r@[m].0 == before[m].0);
                } else {
                    assert(r@[j as int].0 == key);
                }
            }
        }
        i = i + 1;
    }
    proof {
        assert(ids@.take(i as int) =~= ids@);
        lemma_ascending_no_dup(ids@);
        ids@.unique_seq_to_set();
        assert forall|m: int| 0 <= m < r@.len() implies (#[trigger] r@[m]).1 == seats.seats@.filter(in_group(*stage, r@[m].0)).len() by {
            lemma_filter_count(ids@, in_group(*stage, r@[m].0));
        }
        assert forall|c: CandidateID| #[trigger] seats.seats@.contains(c) implies exists|m: int| 0 <= m < r@.len() && (#[trigger] r@[m]).0 == stats_key(*stage, c) by {
            assert(ids@.to_set().contains(c));
            let k = choose|k: int| 0 <= k < ids@.len() && ids@[k] == c;
        }
    }
    r
}

} // verus!
