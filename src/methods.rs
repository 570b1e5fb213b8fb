//! Electoral methods: plurality (first past the post, generalised to
//! multi-member units) and the reserved proportional divisor method.
use crate::grouping::tier_seats;
use crate::model::{
    grouping_covered, results_cover, stage_wf, CandidateID, DistrictID, DistrictResults, ElectionResults,
    ElectionStage, Grouping, PartyID, PartyListSource, SeatResult,
};
use crate::order::{lemma_ordered, ordered, sorted_ids, sorted_keys, sorted_party_keys, widen};
use crate::utils::{party_list, party_list_set};
use std::collections::HashSet;
use vstd::prelude::*;
use vstd::set_lib::{lemma_int_range, lemma_len_subset, lemma_map_size, lemma_subset_equality, set_int_range};

verus! {

broadcast use vstd::std_specs::hash::group_hash_axioms;

/// Why a method produced no seat result.
#[derive(Debug, Clone, Copy, PartialEq, Eq, Structural)]
pub enum MethodError {
    /// A district recorded only list votes, and this party has nobody on
    /// the list that would take them.
    PartyWithoutListCandidate(PartyID),
    /// The method is declared but has no allocation rule.
    MethodNotImplemented,
}

/// The candidates who may take the list votes of `party` in district `d`:
/// the party's candidates on the district list when the district's list
/// votes go to district lists and that list has any, else on the area list.
pub open spec fn recipient_pool(stage: ElectionStage, party: PartyID, source: PartyListSource, d: DistrictID) -> Set<CandidateID> {
    let local = party_list_set(stage, party, PartyListSource::District, d);
    if source == PartyListSource::District && !local.is_empty() {
        local
    } else {
        party_list_set(stage, party, PartyListSource::Area, d)
    }
}

/// The candidate credited with the list votes of `party` in `d`: the lowest
/// ID in its recipient pool.
pub open spec fn list_recipient(stage: ElectionStage, party: PartyID, source: PartyListSource, d: DistrictID) -> CandidateID {
    ordered(recipient_pool(stage, party, source, d))[0]
}

/// The votes of district `d` can be credited to candidates: it has
/// candidate votes, or every party with list votes has a recipient.
pub open spec fn district_ok(stage: ElectionStage, res: DistrictResults, d: DistrictID) -> bool {
    !res.candidate_votes@.is_empty() || forall|p: PartyID| #[trigger] res.party_votes@.contains_key(p)
        ==> !recipient_pool(stage, p, res.party_list_source, d).is_empty()
}

/// The (candidate, votes) entries of district `d`: its candidate votes in
/// candidate order or, without any, each party's list votes credited to the
/// party's list recipient, in party order.
pub open spec fn district_entries(stage: ElectionStage, res: DistrictResults, d: DistrictID) -> Seq<(CandidateID, u32)> {
    if !res.candidate_votes@.is_empty() {
        ordered(res.candidate_votes@.dom()).map_values(|c: CandidateID| (c, res.candidate_votes@[c]))
    } else {
        ordered(widen(res.party_votes@.dom())).map_values(
            |p: u32| (list_recipient(stage, p as u8, res.party_list_source, d), res.party_votes@[p as u8]),
        )
    }
}

/// The entries of the listed districts, one district after another.
pub open spec fn tier_entries(stage: ElectionStage, results: ElectionResults, ds: Seq<DistrictID>) -> Seq<(CandidateID, u32)>
    decreases ds.len(),
{
    if ds.len() == 0 {
        seq![]
    } else {
        tier_entries(stage, results, ds.drop_last()) + district_entries(stage, results.districts@[ds.last()], ds.last())
    }
}

/// Every listed district can be credited.
pub open spec fn tier_ok(stage: ElectionStage, results: ElectionResults, ds: Seq<DistrictID>) -> bool {
    forall|i: int| 0 <= i < ds.len() ==> district_ok(stage, results.districts@[#[trigger] ds[i]], ds[i])
}

/// Entry `a` ranks ahead of entry `b`: more votes, or as many votes and a
/// lower candidate ID.
pub open spec fn ahead(a: (CandidateID, u32), b: (CandidateID, u32)) -> bool {
    a.1 > b.1 || (a.1 == b.1 && a.0 < b.0)
}

/// The predicate "ranks ahead of `b`".
pub open spec fn ahead_of(b: (CandidateID, u32)) -> spec_fn((CandidateID, u32)) -> bool {
    |a: (CandidateID, u32)| ahead(a, b)
}

/// How many entries rank ahead of `x`: its place in the ranking.
pub open spec fn rank(e: Seq<(CandidateID, u32)>, x: (CandidateID, u32)) -> nat {
    e.filter(ahead_of(x)).len()
}

/// The candidates that place among the first `n` of the ranking.
pub open spec fn winners(e: Seq<(CandidateID, u32)>, n: nat) -> Set<CandidateID> {
    Set::new(|c: CandidateID| exists|i: int| 0 <= i < e.len() && (#[trigger] e[i]).0 == c && rank(e, e[i]) < n)
}

/// The winners of one unit: its ranked entries, cut at its seat count.
pub open spec fn tier_winners(stage: ElectionStage, results: ElectionResults, tier: Set<DistrictID>) -> Set<CandidateID> {
    winners(tier_entries(stage, results, ordered(tier)), tier_seats(stage, tier))
}

/// Plurality seats over the first units of a grouping.
pub open spec fn plurality_seats(stage: ElectionStage, results: ElectionResults, g: Seq<HashSet<DistrictID>>) -> Set<CandidateID>
    decreases g.len(),
{
    if g.len() == 0 {
        Set::empty()
    } else {
        plurality_seats(stage, results, g.drop_last()).union(tier_winners(stage, results, g.last()@))
    }
}

/// Every unit of the grouping can be credited.
pub open spec fn plurality_ok(stage: ElectionStage, results: ElectionResults, g: Seq<HashSet<DistrictID>>) -> bool {
    forall|i: int| 0 <= i < g.len() ==> tier_ok(stage, results, ordered(#[trigger] g[i]@))
}

/// Party `p` has list votes in a district of the grouping and nobody to take them.
pub open spec fn unplaced_party(stage: ElectionStage, results: ElectionResults, g: Seq<HashSet<DistrictID>>, p: PartyID) -> bool {
    exists|i: int, d: DistrictID| 0 <= i < g.len() && #[trigger] g[i]@.contains(d) && {
        let res = results.districts@[d];
        &&& res.candidate_votes@.is_empty()
        &&& res.party_votes@.contains_key(p)
        &&& recipient_pool(stage, p, res.party_list_source, d).is_empty()
    }
}

/// The inputs of a run refer to each other consistently.
pub open spec fn run_ready(stage: ElectionStage, results: ElectionResults, g: Seq<HashSet<DistrictID>>) -> bool {
    &&& stage_wf(stage)
    &&& grouping_covered(stage, g)
    &&& results_cover(results, g)
}

/// The candidate who takes the list votes of `party` in district `d`.
fn find_recipient(stage: &ElectionStage, party: PartyID, source: PartyListSource, d: DistrictID) -> (r: Result<CandidateID, MethodError>)
    requires
        stage_wf(*stage),
        stage.districts@.contains_key(d),
    ensures
        match r {
            Ok(c) => !recipient_pool(*stage, party, source, d).is_empty() && c == list_recipient(*stage, party, source, d),
            Err(e) => recipient_pool(*stage, party, source, d).is_empty() && e == MethodError::PartyWithoutListCandidate(party),
        },
{
    let ghost local = party_list_set(*stage, party, PartyListSource::District, d);
    let ghost area = party_list_set(*stage, party, PartyListSource::Area, d);
    let mut list: Vec<CandidateID> = Vec::new();
    let from_district = match source {
        PartyListSource::District => true,
        PartyListSource::Area => false,
    };
    if from_district {
        list = party_list(stage, party, PartyListSource::District, d);
        if list.len() > 0 {
            assert(local.contains(list@[0]));
        }
    }
    if list.len() == 0 {
        list = party_list(stage, party, PartyListSource::Area, d);
        if list.len() > 0 {
            assert(area.contains(list@[0]));
        }
    }
    if list.len() == 0 {
        assert(recipient_pool(*stage, party, source, d) =~= Set::empty());
        Err(MethodError::PartyWithoutListCandidate(party))
    } else {
        Ok(list[0])
    }
}

/// Appends the entries of district `d` to `out`.
fn push_district_entries(
    stage: &ElectionStage,
    results: &ElectionResults,
    d: DistrictID,
    out: &mut Vec<(CandidateID, u32)>,
) -> (r: Result<(), MethodError>)
    requires
        stage_wf(*stage),
        stage.districts@.contains_key(d),
        results.districts@.contains_key(d),
    ensures
        match r {
            Ok(()) => district_ok(*stage, results.districts@[d], d)
                && final(out)@ == old(out)@ + district_entries(*stage, results.districts@[d], d),
            Err(e) => !district_ok(*stage, results.districts@[d], d) && exists|p: PartyID| {
                &&& e == MethodError::PartyWithoutListCandidate(p)
                &&& results.districts@[d].candidate_votes@.is_empty()
                &&& #[trigger] results.districts@[d].party_votes@.contains_key(p)
                &&& recipient_pool(*stage, p, results.districts@[d].party_list_source, d).is_empty()
            },
        },
{
    let res = results.districts.get(&d).unwrap();
    let ghost start = out@;
    if !res.candidate_votes.is_empty() {
        let ids = sorted_keys(&res.candidate_votes);
        let ghost f = |c: CandidateID| (c, res.candidate_votes@[c]);
        let mut i: usize = 0;
        while i < ids.len()
            invariant
                i <= ids@.len(),
                ids@.to_set() == res.candidate_votes@.dom(),
                f == (|c: CandidateID| (c, res.candidate_votes@[c])),
                out@.len() == start.len() + i,
                out@.take(start.len() as int) == start,
                forall|j: int| 0 <= j < i ==> out@[start.len() + j] == f(ids@[j]),
            decreases ids@.len() - i,
        {
            let c = ids[i];
            assert(res.candidate_votes@.contains_key(c)) by {
                assert(ids@[i as int] == c);
                assert(ids@.to_set().contains(c));
            }
            let v = *res.candidate_votes.get(&c).unwrap();
            let ghost before = out@;
            out.push((c, v));
            assert(out@.take(start.len() as int) =~= before.take(start.len() as int));
            i = i + 1;
        }
        assert(out@ =~= start + ids@.map_values(f));
        Ok(())
    } else {
        let ids = sorted_party_keys(&res.party_votes);
        let source = res.party_list_source;
        let ghost f = |p: u32| (list_recipient(*stage, p as u8, source, d), res.party_votes@[p as u8]);
        let mut i: usize = 0;
        while i < ids.len()
            invariant
                i <= ids@.len(),
                stage_wf(*stage),
                stage.districts@.contains_key(d),
                *res == results.districts@[d],
                source == res.party_list_source,
                res.candidate_votes@.is_empty(),
                ids@.to_set() == widen(res.party_votes@.dom()),
                forall|j: int| 0 <= j < ids@.len() ==> ids@[j] < 256 && res.party_votes@.contains_key(#[trigger] ids@[j] as u8),
                f == (|p: u32| (list_recipient(*stage, p as u8, source, d), res.party_votes@[p as u8])),
                out@.len() == start.len() + i,
                out@.take(start.len() as int) == start,
                forall|j: int| 0 <= j < i ==> out@[start.len() + j] == f(ids@[j]),
                forall|j: int| 0 <= j < i ==> !recipient_pool(*stage, (#[trigger] ids@[j]) as u8, source, d).is_empty(),
            decreases ids@.len() - i,
        {
            let p = ids[i] as u8;
            assert(res.party_votes@.contains_key(p));
            let c = match find_recipient(stage, p, source, d) {
                Ok(c) => c,
                Err(e) => {
                    assert(res.party_votes@.contains_key(p));
                    return Err(e);
                },
            };
            let v = *res.party_votes.get(&p).unwrap();
            let ghost before = out@;
            out.push((c, v));
            assert(out@.take(start.len() as int) =~= before.take(start.len() as int));
            i = i + 1;
        }
        assert(out@ =~= start + ids@.map_values(f));
        assert forall|p: PartyID| #[trigger] res.party_votes@.contains_key(p)
            implies !recipient_pool(*stage, p, source, d).is_empty() by {
            assert(widen(res.party_votes@.dom()).contains(p as u32));
            assert(ids@.to_set().contains(p as u32));
            let j = choose|j: int| 0 <= j < ids@.len() && ids@[j] == p as u32;
            assert(ids@[j] as u8 == p);
        }
        Ok(())
    }
}

/// The entries of the districts of one unit, in district order.
fn gather_tier(stage: &ElectionStage, results: &ElectionResults, tier: &HashSet<DistrictID>) -> (r: Result<Vec<(CandidateID, u32)>, MethodError>)
    requires
        stage_wf(*stage),
        forall|d: DistrictID| #[trigger] tier@.contains(d) ==> stage.districts@.contains_key(d) && results.districts@.contains_key(d),
    ensures
        match r {
            Ok(v) => tier_ok(*stage, *results, ordered(tier@)) && v@ == tier_entries(*stage, *results, ordered(tier@)),
            Err(e) => !tier_ok(*stage, *results, ordered(tier@)) && exists|p: PartyID, d: DistrictID| {
                &&& e == MethodError::PartyWithoutListCandidate(p)
                &&& #[trigger] tier@.contains(d)
                &&& results.districts@[d].candidate_votes@.is_empty()
                &&& #[trigger] results.districts@[d].party_votes@.contains_key(p)
                &&& recipient_pool(*stage, p, results.districts@[d].party_list_source, d).is_empty()
            },
        },
{
    let ids = sorted_ids(tier);
    let mut out: Vec<(CandidateID, u32)> = Vec::new();
    let mut i: usize = 0;
    while i < ids.len()
        invariant
            i <= ids@.len(),
            stage_wf(*stage),
            ids@ == ordered(tier@),
            ids@.to_set() == tier@,
            forall|d: DistrictID| #[trigger] tier@.contains(d) ==> stage.districts@.contains_key(d) && results.districts@.contains_key(d),
            tier_ok(*stage, *results, ids@.take(i as int)),
            out@ == tier_entries(*stage, *results, ids@.take(i as int)),
        decreases ids@.len() - i,
    {
        let d = ids[i];
        assert(tier@.contains(d)) by {
            assert(ids@[i as int] == d);
        }
        let ghost before = out@;
        match push_district_entries(stage, results, d, &mut out) {
            Ok(()) => {},
            Err(e) => {
                assert(!tier_ok(*stage, *results, ids@)) by {
                    assert(ids@[i as int] == d);
                }
                return Err(e);
            },
        }
        assert(ids@.take(i + 1).drop_last() =~= ids@.take(i as int));
        assert(ids@.take(i + 1).last() == d);
        i = i + 1;
    }
    assert(ids@.take(i as int) =~= ids@);
    Ok(out)
}

/// The place of `x` in the ranking of `entries`.
fn rank_of(entries: &Vec<(CandidateID, u32)>, x: (CandidateID, u32)) -> (r: usize)
    ensures
        r == rank(entries@, x),
{
    let mut count: usize = 0;
    let mut j: usize = 0;
    while j < entries.len()
        invariant
            j <= entries@.len(),
            count == entries@.take(j as int).filter(ahead_of(x)).len(),
            count <= j,
        decreases entries@.len() - j,
    {
        let a = entries[j];
        proof {
            assert(entries@.take(j + 1) =~= entries@.take(j as int).push(a));
            entries@.take(j as int).lemma_filter_push(a, ahead_of(x));
        }
        if a.1 > x.1 || (a.1 == x.1 && a.0 < x.0) {
            count = count + 1;
        }
        j = j + 1;
    }
    assert(entries@.take(j as int) =~= entries@);
    count
}

/// Adds to `out` the candidates that place among the first `seats`.
fn add_winners(entries: &Vec<(CandidateID, u32)>, seats: u64, out: &mut HashSet<CandidateID>)
    ensures
        final(out)@ == old(out)@.union(winners(entries@, seats as nat)),
{
    let ghost start = out@;
    let ghost e = entries@;
    let mut i: usize = 0;
    while i < entries.len()
        invariant
            i <= e.len(),
            e == entries@,
            out@ == start.union(Set::new(|c: CandidateID| exists|k: int| 0 <= k < i && (#[trigger] e[k]).0 == c && rank(e, e[k]) < seats)),
        decreases e.len() - i,
    {
        let x = entries[i];
        let r = rank_of(entries, x);
        if (r as u64) < seats {
            out.insert(x.0);
        }
        proof {
            let lo = Set::new(|c: CandidateID| exists|k: int| 0 <= k < i && (#[trigger] e[k]).0 == c && rank(e, e[k]) < seats);
            let hi = Set::new(|c: CandidateID| exists|k: int| 0 <= k < i + 1 && (#[trigger] e[k]).0 == c && rank(e, e[k]) < seats);
            assert forall|c: CandidateID| hi.contains(c) implies (lo.contains(c) || (c == x.0 && r < seats)) by {
                let k = choose|k: int| 0 <= k < i + 1 && (#[trigger] e[k]).0 == c && rank(e, e[k]) < seats;
                if k < i {
                    assert(lo.contains(c));
                }
            }
            if r < seats {
                assert(hi.contains(x.0)) by {
                    assert(e[i as int] == x);
                }
            }
            assert(out@ =~= start.union(hi));
        }
        i = i + 1;
    }
    assert(out@ =~= old(out)@.union(winners(entries@, seats as nat)));
}

/// A seat-allocation method.
pub trait ElectoralMethod {
    /// The unit size (district magnitude) the method is designed for.
    spec fn spec_district_size(&self) -> u32;

    /// `r` is what the method yields on these inputs.
    spec fn yields(
        &self,
        stage: ElectionStage,
        results: ElectionResults,
        g: Seq<HashSet<DistrictID>>,
        r: Result<SeatResult, MethodError>,
    ) -> bool;

    /// The unit size the method is designed for; it picks the grouping.
    fn district_size(&self) -> (r: u32)
        ensures
            r == self.spec_district_size(),
    ;

    /// Allocates the seats of every unit of `g`.
    fn run(&self, stage: &ElectionStage, results: &ElectionResults, g: &Grouping) -> (r: Result<SeatResult, MethodError>)
        requires
            run_ready(*stage, *results, g.0@),
        ensures
            self.yields(*stage, *results, g.0@, r),
    ;
}

/// Plurality: in each unit the candidates with the most votes take its seats.
#[derive(Debug, Clone, Copy)]
pub struct FPTP;

impl ElectoralMethod for FPTP {
    open spec fn spec_district_size(&self) -> u32 {
        1
    }

    open spec fn yields(
        &self,
        stage: ElectionStage,
        results: ElectionResults,
        g: Seq<HashSet<DistrictID>>,
        r: Result<SeatResult, MethodError>,
    ) -> bool {
        match r {
            Ok(s) => plurality_ok(stage, results, g) && s.seats@ == plurality_seats(stage, results, g),
            Err(e) => !plurality_ok(stage, results, g) && exists|p: PartyID|
                e == MethodError::PartyWithoutListCandidate(p) && #[trigger] unplaced_party(stage, results, g, p),
        }
    }

    fn district_size(&self) -> (r: u32) {
        1
    }

    fn run(&self, stage: &ElectionStage, results: &ElectionResults, g: &Grouping) -> (r: Result<SeatResult, MethodError>) {
        let mut successful: HashSet<CandidateID> = HashSet::new();
        let mut i: usize = 0;
        assert(plurality_seats(*stage, *results, g.0@.take(0)) == Set::<CandidateID>::empty());
        while i < g.0.len()
            invariant
                i <= g.0@.len(),
                run_ready(*stage, *results, g.0@),
                plurality_ok(*stage, *results, g.0@.take(i as int)),
                successful@ == plurality_seats(*stage, *results, g.0@.take(i as int)),
            decreases g.0@.len() - i,
        {
            let tier = &g.0[i];
            assert(forall|d: DistrictID| #[trigger] tier@.contains(d) ==> g.0@[i as int]@.contains(d));
            let entries = match gather_tier(stage, results, tier) {
                Ok(v) => v,
                Err(e) => {
                    proof {
                        let (p, d) = choose|p: PartyID, d: DistrictID| {
                            &&& e == MethodError::PartyWithoutListCandidate(p)
                            &&& #[trigger] tier@.contains(d)
                            &&& results.districts@[d].candidate_votes@.is_empty()
                            &&& #[trigger] results.districts@[d].party_votes@.contains_key(p)
                            &&& recipient_pool(*stage, p, results.districts@[d].party_list_source, d).is_empty()
                        };
                        assert(g.0@[i as int]@.contains(d));
                        assert(unplaced_party(*stage, *results, g.0@, p));
                        assert(g.0@[i as int] == *tier);
                    }
                    return Err(e);
                },
            };
            let seats = g.seats(i, stage);
            add_winners(&entries, seats, &mut successful);
            proof {
                assert(g.0@.take(i + 1).drop_last() =~= g.0@.take(i as int));
                assert(g.0@.take(i + 1).last() == *tier);
                assert forall|k: int| 0 <= k < i + 1 implies tier_ok(*stage, *results, ordered(#[trigger] g.0@.take(i + 1)[k]@)) by {
                    if k < i {
                        assert(g.0@.take(i + 1)[k] == g.0@.take(i as int)[k]);
                    }
                }
            }
            i = i + 1;
        }
        assert(g.0@.take(i as int) =~= g.0@);
        Ok(SeatResult { seats: successful })
    }
}

/// The proportional divisor method. Its allocation rule is not settled, so
/// a run always reports that it is not implemented.
#[derive(Debug, Clone, Copy)]
pub struct DMP {
    /// The list vote threshold, in thousandths of the vote.
    pub threshold: u32,
}

impl ElectoralMethod for DMP {
    open spec fn spec_district_size(&self) -> u32 {
        2
    }

    open spec fn yields(
        &self,
        stage: ElectionStage,
        results: ElectionResults,
        g: Seq<HashSet<DistrictID>>,
        r: Result<SeatResult, MethodError>,
    ) -> bool {
        r matches Err(MethodError::MethodNotImplemented)
    }

    fn district_size(&self) -> (r: u32) {
        2
    }

    fn run(&self, stage: &ElectionStage, results: &ElectionResults, g: &Grouping) -> (r: Result<SeatResult, MethodError>) {
        Err(MethodError::MethodNotImplemented)
    }
}

/// The electoral methods, as one closed choice.
#[derive(Debug, Clone, Copy, PartialEq, Eq, Structural)]
pub enum Method {
    /// First past the post, see `FPTP`.
    Plurality,
    /// The reserved divisor method, see `DMP`.
    ProportionalDivisor { threshold: u32 },
}

impl Method {
    /// The unit size the chosen method is designed for.
    pub fn district_size(&self) -> (r: u32)
        ensures
            r == match self {
                Method::Plurality => FPTP.spec_district_size(),
                Method::ProportionalDivisor { threshold } => (DMP { threshold: *threshold }).spec_district_size(),
            },
    {
        match self {
            Method::Plurality => FPTP.district_size(),
            Method::ProportionalDivisor { threshold } => DMP { threshold: *threshold }.district_size(),
        }
    }

    /// Runs the chosen method.
    pub fn run(&self, stage: &ElectionStage, results: &ElectionResults, g: &Grouping) -> (r: Result<SeatResult, MethodError>)
        requires
            run_ready(*stage, *results, g.0@),
        ensures
            match self {
                Method::Plurality => FPTP.yields(*stage, *results, g.0@, r),
                Method::ProportionalDivisor { threshold } => (DMP { threshold: *threshold }).yields(*stage, *results, g.0@, r),
            },
    {
        match self {
            Method::Plurality => FPTP.run(stage, results, g),
            Method::ProportionalDivisor { threshold } => DMP { threshold: *threshold }.run(stage, results, g),
        }
    }
}

/// Plurality is deterministic: two runs on the same stage, results and
/// grouping both succeed or both fail, and award the same set of seats.
pub proof fn lemma_plurality_deterministic(
    stage: ElectionStage,
    results: ElectionResults,
    g: Seq<HashSet<DistrictID>>,
    first: Result<SeatResult, MethodError>,
    second: Result<SeatResult, MethodError>,
)
    requires
        FPTP.yields(stage, results, g, first),
        FPTP.yields(stage, results, g, second),
    ensures
        first is Ok <==> second is Ok,
        first is Ok ==> first->Ok_0.seats@ == second->Ok_0.seats@,
{
}

/// List-vote resolution: in a district with party votes alone, each party
/// with votes is credited, with its full vote total, to one candidate: the
/// lowest ID of the party on its applicable list.
pub proof fn lemma_list_vote_resolution(stage: ElectionStage, res: DistrictResults, d: DistrictID, p: PartyID)
    requires
        res.candidate_votes@.is_empty(),
        res.party_votes@.contains_key(p),
        !recipient_pool(stage, p, res.party_list_source, d).is_empty(),
    ensures
        ({
            let pool = recipient_pool(stage, p, res.party_list_source, d);
            let c = list_recipient(stage, p, res.party_list_source, d);
            &&& pool.contains(c)
            &&& forall|o: CandidateID| #[trigger] pool.contains(o) ==> c <= o
            &&& stage.candidates@[c].party == Some(p)
            &&& exists|i: int| 0 <= i < district_entries(stage, res, d).len() && #[trigger] district_entries(stage, res, d)[i] == (c, res.party_votes@[p])
        }),
{
    let pool = recipient_pool(stage, p, res.party_list_source, d);
    let c = list_recipient(stage, p, res.party_list_source, d);
    lemma_ordered(pool);
    let o = ordered(pool);
    assert(o.len() > 0) by {
        let x = pool.choose();
        assert(o.to_set().contains(x));
    }
    assert(o.to_set().contains(o[0]));
    assert forall|x: CandidateID| #[trigger] pool.contains(x) implies c <= x by {
        assert(o.to_set().contains(x));
        let k = choose|k: int| 0 <= k < o.len() && o[k] == x;
        if k > 0 {
            assert(o[0] < o[k]);
        }
    }
    let parties = ordered(widen(res.party_votes@.dom()));
    lemma_ordered(widen(res.party_votes@.dom()));
    assert(parties.to_set().contains(p as u32));
    let i = choose|i: int| 0 <= i < parties.len() && parties[i] == p as u32;
    let e = district_entries(stage, res, d);
    assert(e[i] == (c, res.party_votes@[p]));
}

/// The entries name pairwise distinct candidates.
pub open spec fn distinct_candidates(e: Seq<(CandidateID, u32)>) -> bool {
    forall|i: int, j: int| 0 <= i < j < e.len() ==> e[i].0 != e[j].0
}

/// Indices of the entries ranked ahead of `x`.
spec fn ahead_indices(e: Seq<(CandidateID, u32)>, x: (CandidateID, u32)) -> Set<int> {
    Set::new(|k: int| 0 <= k < e.len() && ahead(e[k], x))
}

proof fn lemma_rank_indices(e: Seq<(CandidateID, u32)>, x: (CandidateID, u32))
    ensures
        ahead_indices(e, x).finite(),
        rank(e, x) == ahead_indices(e, x).len(),
    decreases e.len(),
{
    lemma_int_range(0, e.len() as int);
    assert(ahead_indices(e, x).subset_of(set_int_range(0, e.len() as int)));
    vstd::set_lib::lemma_set_subset_finite(set_int_range(0, e.len() as int), ahead_indices(e, x));
    if e.len() > 0 {
        let t = e.drop_last();
        lemma_rank_indices(t, x);
        assert(e =~= t.push(e.last()));
        t.lemma_filter_push(e.last(), ahead_of(x));
        let last = e.len() - 1;
        if ahead(e.last(), x) {
            assert(ahead_indices(e, x) =~= ahead_indices(t, x).insert(last));
        } else {
            assert(ahead_indices(e, x) =~= ahead_indices(t, x));
        }
    } else {
        assert(ahead_indices(e, x) =~= Set::empty());
    }
}

/// With distinct candidates, the ranks of the entries are exactly 0, 1, ...
proof fn lemma_ranks_distinct(e: Seq<(CandidateID, u32)>, i: int, j: int)
    requires
        distinct_candidates(e),
        0 <= i < e.len(),
        0 <= j < e.len(),
        i != j,
    ensures
        rank(e, e[i]) != rank(e, e[j]),
        rank(e, e[i]) < e.len(),
{
    lemma_rank_indices(e, e[i]);
    lemma_rank_indices(e, e[j]);
    lemma_int_range(0, e.len() as int);
    assert(e[i].0 != e[j].0);
    assert(ahead_indices(e, e[i]).subset_of(set_int_range(0, e.len() as int).remove(i)));
    lemma_len_subset(ahead_indices(e, e[i]), set_int_range(0, e.len() as int).remove(i));
    let (a, b) = if ahead(e[i], e[j]) { (i, j) } else { (j, i) };
    assert(ahead(e[a], e[b]));
    assert(ahead_indices(e, e[a]).insert(a).subset_of(ahead_indices(e, e[b])));
    assert(!ahead_indices(e, e[a]).contains(a));
    lemma_len_subset(ahead_indices(e, e[a]).insert(a), ahead_indices(e, e[b]));
}

/// With distinct candidates and at least `n` entries, exactly `n`
/// candidates place among the first `n`.
pub proof fn lemma_winners_count(e: Seq<(CandidateID, u32)>, n: nat)
    requires
        distinct_candidates(e),
        n <= e.len(),
    ensures
        winners(e, n).finite(),
        winners(e, n).len() == n,
{
    let len = e.len() as int;
    let idx = set_int_range(0, len);
    lemma_int_range(0, len);
    let f = |i: int| rank(e, e[i]) as int;
    assert forall|i: int, j: int| idx.contains(i) && idx.contains(j) && #[trigger] f(i) == #[trigger] f(j) implies i == j by {
        if i != j {
            lemma_ranks_distinct(e, i, j);
        }
    }
    assert(vstd::relations::injective_on(f, idx));
    lemma_map_size(idx, idx.map(f), f);
    assert forall|r: int| #[trigger] idx.map(f).contains(r) implies idx.contains(r) by {
        let i = choose|i: int| idx.contains(i) && f(i) == r;
        if i != 0 || len > 1 {
            let k = if i == 0 { 1int } else { 0int };
            if len > 1 {
                lemma_ranks_distinct(e, i, k);
            }
        }
        lemma_rank_indices(e, e[i]);
        assert(ahead_indices(e, e[i]).subset_of(idx.remove(i)));
        lemma_len_subset(ahead_indices(e, e[i]), idx.remove(i));
    }
    lemma_subset_equality(idx.map(f), idx);
    let w = Set::new(|i: int| 0 <= i < len && rank(e, e[i]) < n);
    let low = set_int_range(0, n as int);
    lemma_int_range(0, n as int);
    assert(w.map(f) =~= low) by {
        assert forall|r: int| #[trigger] low.contains(r) implies w.map(f).contains(r) by {
            assert(idx.contains(r));
            assert(idx.map(f).contains(r));
            let i = choose|i: int| idx.contains(i) && f(i) == r;
            assert(w.contains(i));
        }
    }
    assert(w.subset_of(idx));
    vstd::set_lib::lemma_set_subset_finite(idx, w);
    assert(vstd::relations::injective_on(f, w));
    lemma_map_size(w, low, f);
    let g = |i: int| e[i].0;
    assert(vstd::relations::injective_on(g, w)) by {
        assert forall|i: int, j: int| w.contains(i) && w.contains(j) && #[trigger] g(i) == #[trigger] g(j) implies i == j by {
            if i < j {
                assert(e[i].0 != e[j].0);
            } else if j < i {
                assert(e[j].0 != e[i].0);
            }
        }
    }
    assert(w.map(g) =~= winners(e, n)) by {
        assert forall|c: CandidateID| #[trigger] winners(e, n).contains(c) implies w.map(g).contains(c) by {
            let i = choose|i: int| 0 <= i < e.len() && (#[trigger] e[i]).0 == c && rank(e, e[i]) < n;
            assert(w.contains(i));
        }
    }
    lemma_map_size(w, winners(e, n), g);
}

/// Sum of the seats won per unit over the first units of a grouping.
pub open spec fn awarded_sum(stage: ElectionStage, results: ElectionResults, g: Seq<HashSet<DistrictID>>) -> nat
    decreases g.len(),
{
    if g.len() == 0 {
        0
    } else {
        awarded_sum(stage, results, g.drop_last()) + tier_winners(stage, results, g.last()@).len()
    }
}

/// Sum of the seat counts of the units of a grouping.
pub open spec fn grouping_seats(stage: ElectionStage, g: Seq<HashSet<DistrictID>>) -> nat
    decreases g.len(),
{
    if g.len() == 0 {
        0
    } else {
        grouping_seats(stage, g.drop_last()) + tier_seats(stage, g.last()@)
    }
}

/// Every unit offers distinct candidates, at least as many as its seats.
pub open spec fn units_contested(stage: ElectionStage, results: ElectionResults, g: Seq<HashSet<DistrictID>>) -> bool {
    forall|i: int| 0 <= i < g.len() ==> {
        let e = #[trigger] tier_entries(stage, results, ordered(g[i]@));
        distinct_candidates(e) && tier_seats(stage, g[i]@) <= e.len()
    }
}

/// Seats awarded add up: where every unit offers distinct candidates, at
/// least as many as its seats, the seats a plurality run awards across the
/// units of a grouping sum to the seats of the districts it covers.
pub proof fn lemma_plurality_seat_total(stage: ElectionStage, results: ElectionResults, g: Seq<HashSet<DistrictID>>)
    requires
        units_contested(stage, results, g),
    ensures
        awarded_sum(stage, results, g) == grouping_seats(stage, g),
    decreases g.len(),
{
    if g.len() > 0 {
        let t = g.drop_last();
        assert(units_contested(stage, results, t)) by {
            assert forall|i: int| 0 <= i < t.len() implies {
                let e = #[trigger] tier_entries(stage, results, ordered(t[i]@));
                distinct_candidates(e) && tier_seats(stage, t[i]@) <= e.len()
            } by {
                assert(t[i] == g[i]);
                let e = tier_entries(stage, results, ordered(g[i]@));
            }
        }
        lemma_plurality_seat_total(stage, results, t);
        let last = g.len() - 1;
        let e = tier_entries(stage, results, ordered(g[last]@));
        lemma_winners_count(e, tier_seats(stage, g[last]@));
    }
}

} // verus!
