//! The election domain model: the ballot configuration before the vote
//! (stage), the recorded votes (results), district groupings and seat results.
use std::collections::{HashMap, HashSet};
use vstd::prelude::*;

verus! {

pub type DistrictID = u32;

pub type AreaID = u16;

pub type CandidateID = u32;

pub type PartyID = u8;

pub type SeatCount = u32;

/// A calendar date.
#[derive(Debug, Clone, Copy, PartialEq, Eq, Structural)]
pub struct Date {
    pub year: u32,
    pub month: u8,
    pub day: u8,
}

impl Date {
    pub fn new(year: u32, month: u8, day: u8) -> (r: Date)
        ensures
            r.year == year,
            r.month == month,
            r.day == day,
    {
        Date { year, month, day }
    }
}

/// Ballot configuration before the election.
#[derive(Debug)]
pub struct ElectionStage {
    pub districts: HashMap<DistrictID, District>,
    pub candidates: HashMap<CandidateID, Candidate>,
    pub parties: HashMap<PartyID, Party>,
    pub areas: HashMap<AreaID, Area>,
}

/// A set of districts, such as a province or state. A country without
/// electorally relevant provinces uses one area for the whole country.
#[derive(Debug)]
pub struct Area {
    pub name: String,
    /// Districts inside this area.
    pub districts: HashSet<DistrictID>,
    /// Candidates on the area-wide (regional) lists.
    pub candidates: HashSet<CandidateID>,
    /// Seats this area is entitled to beyond its local district seats.
    pub seats: SeatCount,
}

/// An electoral district: the smallest electoral unit.
#[derive(Debug)]
pub struct District {
    pub name: String,
    pub seats: u8,
    pub area: AreaID,
    /// Candidates running in this district (locally or on a local list).
    pub candidates: HashSet<CandidateID>,
}

/// A candidate. Candidates of district-wide races belong to
/// `District::candidates`, those of area-wide lists to `Area::candidates`,
/// and those running in both to both.
#[derive(Debug, Clone)]
pub struct Candidate {
    /// `None` where the name is not known.
    pub name: Option<String>,
    /// `None` for an independent.
    pub party: Option<PartyID>,
}

#[derive(Debug, Clone)]
pub struct Party {
    pub name: String,
    pub type_: PartyType,
    pub color: u32,
}

/// The political category of a party, in layout order.
#[derive(Debug, Clone, Copy, PartialEq, Eq, Structural, PartialOrd, Ord, Hash)]
pub enum PartyType {
    Left,
    SocialDemocratic,
    Green,
    Liberal,
    Other,
    Conservative,
    Fascist,
}

impl Default for PartyType {
    fn default() -> (r: PartyType)
        ensures
            r == PartyType::Other,
    {
        PartyType::Other
    }
}

/// A partition of districts into the units at which a method allocates
/// seats: each entry is one unit (a tier partition).
#[derive(Debug)]
pub struct Grouping(pub Vec<HashSet<DistrictID>>);

/// The groupings of a dataset, keyed by the unit size they serve.
pub type Groupings = HashMap<u32, Grouping>;

/// The recorded votes of an election.
#[derive(Debug)]
pub struct ElectionResults {
    pub districts: HashMap<DistrictID, DistrictResults>,
    pub date: Date,
}

/// Which list of candidates takes the seats won by party (list) votes.
#[derive(Debug, Clone, Copy, PartialEq, Eq, Structural, Hash)]
pub enum PartyListSource {
    Area,
    District,
}

/// The votes of one district.
#[derive(Debug)]
pub struct DistrictResults {
    /// Votes for a party, as in closed party-list elections.
    pub party_votes: HashMap<PartyID, u32>,
    pub party_list_source: PartyListSource,
    /// Votes for individual candidates.
    pub candidate_votes: HashMap<CandidateID, u32>,
}

/// The winners of one run of an electoral method.
#[derive(Debug)]
pub struct SeatResult {
    pub seats: HashSet<CandidateID>,
}

/// The references of a stage are closed: districts lie in known areas,
/// listed candidates exist, and candidates' parties exist.
pub open spec fn stage_wf(stage: ElectionStage) -> bool {
    &&& forall|d: DistrictID| #[trigger] stage.districts@.contains_key(d) ==> {
        &&& stage.areas@.contains_key(stage.districts@[d].area)
        &&& forall|c: CandidateID| #[trigger] stage.districts@[d].candidates@.contains(c)
            ==> stage.candidates@.contains_key(c)
    }
    &&& forall|a: AreaID| #[trigger] stage.areas@.contains_key(a)
        ==> forall|c: CandidateID| #[trigger] stage.areas@[a].candidates@.contains(c)
        ==> stage.candidates@.contains_key(c)
    &&& forall|c: CandidateID| #[trigger] stage.candidates@.contains_key(c)
        ==> (stage.candidates@[c].party matches Some(p) ==> stage.parties@.contains_key(p))
}

/// Every district of every unit of the grouping exists in the stage.
pub open spec fn grouping_covered(stage: ElectionStage, g: Seq<HashSet<DistrictID>>) -> bool {
    forall|i: int, d: DistrictID|
        0 <= i < g.len() && #[trigger] g[i]@.contains(d) ==> stage.districts@.contains_key(d)
}

/// Every district of every unit of the grouping has recorded results.
pub open spec fn results_cover(results: ElectionResults, g: Seq<HashSet<DistrictID>>) -> bool {
    forall|i: int, d: DistrictID|
        0 <= i < g.len() && #[trigger] g[i]@.contains(d) ==> results.districts@.contains_key(d)
}

} // verus!
