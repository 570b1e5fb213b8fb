use std::collections::{HashMap, HashSet};
use vsim::codec::{decode, encode, DecodeError};
use vsim::model::{
    Area, Candidate, Date, District, DistrictResults, ElectionResults, ElectionStage, Grouping, Groupings, Party,
    PartyListSource, PartyType,
};

fn set(ids: &[u32]) -> HashSet<u32> {
    ids.iter().copied().collect()
}

fn dataset() -> (ElectionStage, ElectionResults, Groupings) {
    let mut candidates = HashMap::new();
    candidates.insert(1u32, Candidate { name: Some("Ann Émile".to_string()), party: Some(3) });
    candidates.insert(2u32, Candidate { name: None, party: None });
    candidates.insert(70000u32, Candidate { name: Some("x".repeat(300)), party: Some(200) });
    let mut parties = HashMap::new();
    parties.insert(3u8, Party { name: "Grün".to_string(), type_: PartyType::Green, color: 0x19a329 });
    parties.insert(200u8, Party { name: String::new(), type_: PartyType::Fascist, color: u32::MAX });
    let mut districts = HashMap::new();
    for id in 0..20u32 {
        districts.insert(id, District { name: format!("D{}", id), seats: (id % 3) as u8 + 1, area: 300, candidates: set(&[1, 2]) });
    }
    let mut areas = HashMap::new();
    areas.insert(300u16, Area { name: "Nord".to_string(), districts: (0..20).collect(), candidates: HashSet::new(), seats: 4 });
    let stage = ElectionStage { districts, candidates, parties, areas };
    let mut rd = HashMap::new();
    rd.insert(0u32, DistrictResults { party_votes: HashMap::new(), party_list_source: PartyListSource::District, candidate_votes: [(1u32, 10u32), (2, 70000)].into_iter().collect() });
    rd.insert(1u32, DistrictResults { party_votes: [(3u8, 5u32)].into_iter().collect(), party_list_source: PartyListSource::Area, candidate_votes: HashMap::new() });
    let results = ElectionResults { districts: rd, date: Date::new(2017, 9, 24) };
    let mut groupings = HashMap::new();
    groupings.insert(1u32, Grouping((0..20).map(|i| set(&[i])).collect()));
    groupings.insert(2u32, Grouping(vec![set(&[0, 1]), set(&[])]));
    (stage, results, groupings)
}

fn same_stage(a: &ElectionStage, b: &ElectionStage) {
    assert_eq!(a.districts.len(), b.districts.len());
    for (id, d) in &a.districts {
        let e = &b.districts[id];
        assert_eq!((&d.name, d.seats, d.area, &d.candidates), (&e.name, e.seats, e.area, &e.candidates));
    }
    assert_eq!(a.candidates.len(), b.candidates.len());
    for (id, c) in &a.candidates {
        let e = &b.candidates[id];
        assert_eq!((&c.name, c.party), (&e.name, e.party));
    }
    assert_eq!(a.parties.len(), b.parties.len());
    for (id, p) in &a.parties {
        let e = &b.parties[id];
        assert_eq!((&p.name, p.type_, p.color), (&e.name, e.type_, e.color));
    }
    assert_eq!(a.areas.len(), b.areas.len());
    for (id, x) in &a.areas {
        let e = &b.areas[id];
        assert_eq!((&x.name, &x.districts, &x.candidates, x.seats), (&e.name, &e.districts, &e.candidates, e.seats));
    }
}

#[test]
fn container_round_trip() {
    let (stage, results, groupings) = dataset();
    let bytes = encode(&stage, &results, &groupings).unwrap();
    let (s2, r2, g2) = decode(&bytes).unwrap();
    same_stage(&stage, &s2);
    assert_eq!(results.date, r2.date);
    assert_eq!(results.districts.len(), r2.districts.len());
    for (id, d) in &results.districts {
        let e = &r2.districts[id];
        assert_eq!((&d.party_votes, d.party_list_source, &d.candidate_votes), (&e.party_votes, e.party_list_source, &e.candidate_votes));
    }
    assert_eq!(groupings.len(), g2.len());
    for (k, g) in &groupings {
        assert_eq!(g.0, g2[k].0);
    }
}

#[test]
fn container_encoding_is_canonical() {
    let (stage, results, groupings) = dataset();
    let a = encode(&stage, &results, &groupings).unwrap();
    let (s2, r2, g2) = decode(&a).unwrap();
    let b = encode(&s2, &r2, &g2).unwrap();
    assert_eq!(a, b);
}

#[test]
fn container_of_empty_dataset() {
    let stage = ElectionStage { districts: HashMap::new(), candidates: HashMap::new(), parties: HashMap::new(), areas: HashMap::new() };
    let results = ElectionResults { districts: HashMap::new(), date: Date::new(1, 2, 3) };
    let bytes = encode(&stage, &results, &HashMap::new()).unwrap();
    // [ [{}, {}, {}, {}], [{}, [1, 2, 3]], {} ] with integers in their five-byte form
    assert_eq!(
        bytes,
        vec![0x93, 0x94, 0x80, 0x80, 0x80, 0x80, 0x92, 0x80, 0x93, 0xce, 0, 0, 0, 1, 0xce, 0, 0, 0, 2, 0xce, 0, 0, 0, 3, 0x80]
    );
    let (s, r, g) = decode(&bytes).unwrap();
    assert!(s.districts.is_empty() && g.is_empty());
    assert_eq!(r.date, Date::new(1, 2, 3));
}

#[test]
fn decode_rejects_truncated_input() {
    let (stage, results, groupings) = dataset();
    let bytes = encode(&stage, &results, &groupings).unwrap();
    for cut in [0, 1, bytes.len() / 2, bytes.len() - 1] {
        assert_eq!(decode(&bytes[..cut]).unwrap_err(), DecodeError::Malformed);
    }
}

#[test]
fn decode_rejects_trailing_and_malformed_bytes() {
    let (stage, results, groupings) = dataset();
    let mut bytes = encode(&stage, &results, &groupings).unwrap();
    bytes.push(0);
    assert_eq!(decode(&bytes).unwrap_err(), DecodeError::Malformed);
    assert_eq!(decode(&[0x92, 0x80, 0x80]).unwrap_err(), DecodeError::Malformed);
    assert_eq!(decode(&[0xc0]).unwrap_err(), DecodeError::Malformed);
}

#[test]
fn decode_rejects_duplicate_keys() {
    // groupings map with key 1 twice
    let mut bytes = vec![0x93, 0x94, 0x80, 0x80, 0x80, 0x80, 0x92, 0x80, 0x93, 0xce, 0, 0, 0, 1, 0xce, 0, 0, 0, 2, 0xce, 0, 0, 0, 3];
    bytes.extend_from_slice(&[0x82, 0xce, 0, 0, 0, 1, 0x91, 0x90, 0xce, 0, 0, 0, 1, 0x91, 0x90]);
    assert_eq!(decode(&bytes).unwrap_err(), DecodeError::Malformed);
    bytes[24] = 0x81;
    bytes.truncate(32);
    let (_, _, g) = decode(&bytes).unwrap();
    assert!(g[&1].0.is_empty());
}

#[test]
fn decode_rejects_out_of_range_small_integers() {
    // a district-results map keyed by party 300 is not a party ID
    let bytes = vec![0x93, 0x94, 0x80, 0x80, 0x81, 0xce, 0, 0, 1, 0x2c, 0x93, 0xa0, 0xce, 0, 0, 0, 0, 0xce, 0, 0, 0, 0, 0x80, 0x92, 0x80, 0x93, 0xce, 0, 0, 0, 1, 0xce, 0, 0, 0, 2, 0xce, 0, 0, 0, 3, 0x80];
    assert_eq!(decode(&bytes).unwrap_err(), DecodeError::Malformed);
}
