use std::collections::{HashMap, HashSet};
use vsim::methods::{ElectoralMethod, Method, MethodError, DMP, FPTP};
use vsim::model::{
    Area, Candidate, Date, District, DistrictResults, ElectionResults, ElectionStage, Grouping,
    Party, PartyListSource, PartyType,
};

fn set(ids: &[u32]) -> HashSet<u32> {
    ids.iter().copied().collect()
}

fn party(name: &str) -> Party {
    Party { name: name.to_string(), type_: PartyType::Other, color: 0xaaaaaa }
}

/// Two parties, one area; districts 1 and 2 with one seat each.
/// District 1: candidates 10 (party 0), 11 (party 1), 12 (independent).
/// District 2: candidates 20 (party 0), 21 (party 1).
/// Area list: 30, 31 (party 0), 32 (party 1).
fn stage() -> ElectionStage {
    let mut candidates = HashMap::new();
    for (id, p) in [(10, Some(0)), (11, Some(1)), (12, None), (20, Some(0)), (21, Some(1)), (30, Some(0)), (31, Some(0)), (32, Some(1))] {
        candidates.insert(id, Candidate { name: None, party: p });
    }
    let mut parties = HashMap::new();
    parties.insert(0u8, party("Zero"));
    parties.insert(1u8, party("One"));
    let mut districts = HashMap::new();
    districts.insert(1u32, District { name: "One".to_string(), seats: 1, area: 7, candidates: set(&[10, 11, 12]) });
    districts.insert(2u32, District { name: "Two".to_string(), seats: 1, area: 7, candidates: set(&[20, 21]) });
    let mut areas = HashMap::new();
    areas.insert(7u16, Area { name: "Area".to_string(), districts: set(&[1, 2]), candidates: set(&[30, 31, 32]), seats: 0 });
    ElectionStage { districts, candidates, parties, areas }
}

fn candidate_votes(votes: &[(u32, u32)]) -> DistrictResults {
    DistrictResults {
        party_votes: HashMap::new(),
        party_list_source: PartyListSource::District,
        candidate_votes: votes.iter().copied().collect(),
    }
}

fn party_votes(votes: &[(u8, u32)], source: PartyListSource) -> DistrictResults {
    DistrictResults { party_votes: votes.iter().copied().collect(), party_list_source: source, candidate_votes: HashMap::new() }
}

fn results(d1: DistrictResults, d2: DistrictResults) -> ElectionResults {
    let mut districts = HashMap::new();
    districts.insert(1u32, d1);
    districts.insert(2u32, d2);
    ElectionResults { districts, date: Date::new(2019, 10, 21) }
}

fn singles() -> Grouping {
    Grouping(vec![set(&[1]), set(&[2])])
}

#[test]
fn plurality_picks_the_top_candidate_of_each_district() {
    let r = results(candidate_votes(&[(10, 50), (11, 70), (12, 10)]), candidate_votes(&[(20, 90), (21, 30)]));
    let seats = FPTP.run(&stage(), &r, &singles()).unwrap();
    assert_eq!(seats.seats, set(&[11, 20]));
}

#[test]
fn plurality_breaks_vote_ties_by_lowest_candidate_id() {
    let r = results(candidate_votes(&[(12, 40), (11, 40), (10, 40)]), candidate_votes(&[(21, 5), (20, 5)]));
    let seats = FPTP.run(&stage(), &r, &singles()).unwrap();
    assert_eq!(seats.seats, set(&[10, 20]));
}

#[test]
fn plurality_fills_every_seat_of_a_merged_unit() {
    let r = results(candidate_votes(&[(10, 50), (11, 70), (12, 10)]), candidate_votes(&[(20, 90), (21, 30)]));
    let merged = Grouping(vec![set(&[1, 2])]);
    let seats = FPTP.run(&stage(), &r, &merged).unwrap();
    assert_eq!(seats.seats, set(&[20, 11]));
    assert_eq!(merged.seats(0, &stage()), 2);
}

#[test]
fn plurality_seat_total_matches_grouping_seats() {
    let st = stage();
    let r = results(candidate_votes(&[(10, 5), (11, 6), (12, 7)]), candidate_votes(&[(20, 1), (21, 2)]));
    let g = singles();
    let seats = FPTP.run(&st, &r, &g).unwrap();
    let total: u64 = (0..g.0.len()).map(|i| g.seats(i, &st)).sum();
    assert_eq!(seats.seats.len() as u64, total);
}

#[test]
fn plurality_is_deterministic() {
    let st = stage();
    let r = results(candidate_votes(&[(10, 3), (11, 3), (12, 3)]), party_votes(&[(0, 8), (1, 9)], PartyListSource::District));
    let g = singles();
    let first = FPTP.run(&st, &r, &g).unwrap();
    let second = FPTP.run(&st, &r, &g).unwrap();
    assert_eq!(first.seats, second.seats);
    assert_eq!(first.seats, set(&[10, 21]));
}

#[test]
fn list_votes_go_to_the_lowest_id_on_the_district_list() {
    // District 2 has list votes only; party 0's district list is {20}, party 1's is {21}.
    let r = results(candidate_votes(&[(10, 1)]), party_votes(&[(0, 100), (1, 60)], PartyListSource::District));
    let seats = FPTP.run(&stage(), &r, &singles()).unwrap();
    assert_eq!(seats.seats, set(&[10, 20]));
}

#[test]
fn list_votes_go_to_the_lowest_id_on_the_area_list() {
    // Party 0's area list is {30, 31}: 30 takes the votes.
    let r = results(candidate_votes(&[(10, 1)]), party_votes(&[(0, 100), (1, 60)], PartyListSource::Area));
    let seats = FPTP.run(&stage(), &r, &singles()).unwrap();
    assert_eq!(seats.seats, set(&[10, 30]));
}

#[test]
fn list_votes_fall_back_to_the_area_list() {
    // Party 1 has nobody on district 1's list besides 11; remove it by using a
    // district whose list lacks the party: district 1 has no candidate of a third party.
    let mut st = stage();
    st.parties.insert(2, party("Two"));
    st.candidates.insert(40, Candidate { name: None, party: Some(2) });
    st.areas.get_mut(&7).unwrap().candidates.insert(40);
    let r = results(party_votes(&[(2, 500), (0, 10)], PartyListSource::District), candidate_votes(&[(20, 1)]));
    let seats = FPTP.run(&st, &r, &singles()).unwrap();
    assert_eq!(seats.seats, set(&[40, 20]));
}

#[test]
fn list_votes_without_any_list_candidate_fail() {
    let mut st = stage();
    st.parties.insert(5, party("Five"));
    let r = results(candidate_votes(&[(10, 1)]), party_votes(&[(5, 10)], PartyListSource::Area));
    let err = FPTP.run(&st, &r, &singles()).unwrap_err();
    assert_eq!(err, MethodError::PartyWithoutListCandidate(5));
}

#[test]
fn proportional_method_reports_not_implemented() {
    let r = results(candidate_votes(&[(10, 1)]), candidate_votes(&[(20, 1)]));
    let err = DMP { threshold: 50 }.run(&stage(), &r, &singles()).unwrap_err();
    assert_eq!(err, MethodError::MethodNotImplemented);
}

#[test]
fn methods_declare_their_unit_size() {
    assert_eq!(FPTP.district_size(), 1);
    assert_eq!(DMP { threshold: 0 }.district_size(), 2);
}

#[test]
fn empty_grouping_awards_nothing() {
    let r = results(candidate_votes(&[(10, 1)]), candidate_votes(&[(20, 1)]));
    let seats = FPTP.run(&stage(), &r, &Grouping(vec![])).unwrap();
    assert!(seats.seats.is_empty());
}

#[test]
fn unit_with_fewer_candidates_than_seats_awards_all_of_them() {
    let mut st = stage();
    st.districts.get_mut(&2).unwrap().seats = 3;
    let r = results(candidate_votes(&[(10, 1)]), candidate_votes(&[(20, 4), (21, 9)]));
    let seats = FPTP.run(&st, &r, &singles()).unwrap();
    assert_eq!(seats.seats, set(&[10, 20, 21]));
}

#[test]
fn method_choice_dispatches() {
    let r = results(candidate_votes(&[(10, 50), (11, 70)]), candidate_votes(&[(20, 90), (21, 30)]));
    assert_eq!(Method::Plurality.district_size(), 1);
    assert_eq!(Method::ProportionalDivisor { threshold: 50 }.district_size(), 2);
    assert_eq!(Method::Plurality.run(&stage(), &r, &singles()).unwrap().seats, set(&[11, 20]));
    assert_eq!(
        Method::ProportionalDivisor { threshold: 50 }.run(&stage(), &r, &singles()).unwrap_err(),
        MethodError::MethodNotImplemented
    );
}
