use std::collections::{HashMap, HashSet};
use vsim::model::{
    Area, Candidate, Date, District, ElectionStage, Grouping, Party, PartyListSource, PartyType, SeatResult,
};
use vsim::stats::StatsParty;
use vsim::utils::{party_candidates, party_list};

fn set(ids: &[u32]) -> HashSet<u32> {
    ids.iter().copied().collect()
}

/// Districts 1 (seats 1) and 2 (seats 3) in area 4; candidates 5..=9.
fn stage() -> ElectionStage {
    let mut candidates = HashMap::new();
    for (id, p) in [(5, Some(0u8)), (6, Some(1)), (7, None), (8, Some(0)), (9, Some(0))] {
        candidates.insert(id, Candidate { name: Some(format!("C{}", id)), party: p });
    }
    let mut parties = HashMap::new();
    parties.insert(0u8, Party { name: "A".to_string(), type_: PartyType::Green, color: 1 });
    parties.insert(1u8, Party { name: "B".to_string(), type_: PartyType::Liberal, color: 2 });
    let mut districts = HashMap::new();
    districts.insert(1u32, District { name: "D1".to_string(), seats: 1, area: 4, candidates: set(&[5, 6, 7]) });
    districts.insert(2u32, District { name: "D2".to_string(), seats: 3, area: 4, candidates: set(&[7, 8]) });
    let mut areas = HashMap::new();
    areas.insert(4u16, Area { name: "Area".to_string(), districts: set(&[1, 2]), candidates: set(&[9, 8, 6]), seats: 2 });
    ElectionStage { districts, candidates, parties, areas }
}

#[test]
fn grouping_candidates_is_the_union_of_its_districts() {
    let g = Grouping(vec![set(&[1]), set(&[1, 2]), set(&[])]);
    let st = stage();
    assert_eq!(g.candidates(0, &st), set(&[5, 6, 7]));
    assert_eq!(g.candidates(1, &st), set(&[5, 6, 7, 8]));
    assert!(g.candidates(2, &st).is_empty());
}

#[test]
fn grouping_seats_sums_district_seats() {
    let g = Grouping(vec![set(&[1]), set(&[1, 2]), set(&[])]);
    let st = stage();
    assert_eq!(g.seats(0, &st), 1);
    assert_eq!(g.seats(1, &st), 4);
    assert_eq!(g.seats(2, &st), 0);
}

#[test]
fn grouping_keys_values_iter() {
    let g = Grouping(vec![set(&[1]), set(&[2])]);
    assert_eq!(g.keys().collect::<Vec<_>>(), vec![0, 1]);
    assert_eq!(g.values().len(), 2);
    let pairs = g.iter();
    assert_eq!(pairs.len(), 2);
    assert_eq!(pairs[1].0, 1);
    assert_eq!(*pairs[1].1, set(&[2]));
}

#[test]
fn party_candidates_keeps_members_in_order() {
    let st = stage();
    assert_eq!(party_candidates(&st, 0, &vec![9, 6, 5, 7, 8]), vec![9, 5, 8]);
    assert_eq!(party_candidates(&st, 1, &vec![9, 6, 5]), vec![6]);
    assert!(party_candidates(&st, 3, &vec![5, 6]).is_empty());
}

#[test]
fn party_list_reads_the_named_list_in_id_order() {
    let st = stage();
    assert_eq!(party_list(&st, 0, PartyListSource::District, 1), vec![5]);
    assert_eq!(party_list(&st, 0, PartyListSource::Area, 1), vec![8, 9]);
    assert_eq!(party_list(&st, 1, PartyListSource::Area, 2), vec![6]);
    assert!(party_list(&st, 1, PartyListSource::District, 2).is_empty());
}

#[test]
fn seats_by_party_counts_independents_together() {
    let st = stage();
    let seats = SeatResult { seats: set(&[5, 7, 8, 6]) };
    let mut counts = vsim::utils::seats_by_party(&st, &seats);
    counts.sort();
    assert_eq!(counts, vec![(None, 1), (Some(0), 2), (Some(1), 1)]);
    assert_eq!(counts.iter().map(|c| c.1).sum::<usize>(), seats.seats.len());
}

#[test]
fn stats_seats_by_party_counts_each_independent_alone() {
    let mut st = stage();
    st.candidates.insert(10, Candidate { name: None, party: None });
    let seats = SeatResult { seats: set(&[7, 10, 9, 8]) };
    let counts = vsim::stats::seats_by_party(&st, &seats);
    let as_map: HashMap<StatsParty, usize> = counts.iter().copied().collect();
    assert_eq!(as_map.len(), counts.len());
    assert_eq!(as_map[&StatsParty::Party(0)], 2);
    assert_eq!(as_map[&StatsParty::Ind(7)], 1);
    assert_eq!(as_map[&StatsParty::Ind(10)], 1);
    assert_eq!(counts.iter().map(|c| c.1).sum::<usize>(), seats.seats.len());
    // groups come in the order of their lowest candidate
    assert_eq!(counts[0].0, StatsParty::Ind(7));
}

#[test]
fn seats_by_party_of_no_seats_is_empty() {
    let st = stage();
    let seats = SeatResult { seats: HashSet::new() };
    assert!(vsim::stats::seats_by_party(&st, &seats).is_empty());
    assert!(vsim::utils::seats_by_party(&st, &seats).is_empty());
}

#[test]
fn date_and_party_type_defaults() {
    let d = Date::new(2017, 9, 24);
    assert_eq!((d.year, d.month, d.day), (2017, 9, 24));
    assert_eq!(PartyType::default(), PartyType::Other);
    assert!(PartyType::Left < PartyType::Fascist);
    assert!(PartyType::Other < PartyType::Conservative);
}
