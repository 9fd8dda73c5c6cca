use vstd::prelude::*;

use std::collections::HashMap;

use crate::table::{name_map, NameTable};
use crate::tile::TrackTile;
use crate::types::QTableEntry;

verus! {

/// Number of recent races kept per car.
pub const MAX_CAR_RECENT_RACES: usize = 9;

/// Number of recent races kept per track.
pub const MAX_TRACK_RECENT_RACES: usize = 32;

/// Longest race, in ticks.
pub const MAX_TICKS: u32 = 100;

#[derive(Clone, Debug)]
pub struct InstantiateMsg {
    pub admin: String,
    pub track_contract: String,
    pub car_contract: String,
}

#[derive(Clone, Debug)]
pub struct Rank {
    pub car_id: String,
    pub rank: u32,
}

#[derive(Clone, Debug)]
pub struct Position {
    pub car_id: String,
    pub x: u32,
    pub y: u32,
}

#[derive(Clone, Debug)]
pub struct Action {
    pub action: String,
    pub resulting_position: Position,
}

#[derive(Clone, Debug)]
pub struct PlayByPlay {
    pub starting_position: Position,
    pub actions: Vec<Action>,
}

#[derive(Clone, Debug)]
pub struct Step {
    pub car_id: String,
    pub steps_taken: u32,
}

/// Outcome of one simulated race.
#[derive(Clone, Debug)]
pub struct RaceResult {
    pub race_id: String,
    pub track_id: u128,
    pub car_ids: Vec<String>,
    pub winner_ids: Vec<String>,
    pub rankings: Vec<Rank>,
    pub play_by_play: HashMap<String, PlayByPlay>,
    pub steps_taken: Vec<Step>,
}

#[derive(Clone, Debug)]
pub struct RaceResultResponse {
    pub result: RaceResult,
}

#[derive(Clone, Debug)]
pub struct RecentRacesResponse {
    pub races: Vec<RaceResult>,
}

/// A car during a simulated race.
#[derive(Clone, Debug)]
pub struct CarState {
    pub car_id: String,
    pub tile: TrackTile,
    pub x: i32,
    pub y: i32,
    pub stuck: bool,
    pub finished: bool,
    pub steps_taken: u32,
    pub last_action: usize,
    /// (state hash, action, tile) of each move, for the learning updates after the race
    pub action_history: Vec<([u8; 32], usize, TrackTile)>,
    /// Whether the last move ran into a wall
    pub hit_wall: bool,
    /// Speed given by the current tile
    pub current_speed: u32,
    /// Q-values of the car used during the race
    pub q_table: Vec<QTableEntry>,
}

/// A race in progress.
#[derive(Clone, Debug)]
pub struct RaceState {
    pub cars: Vec<CarState>,
    pub track_layout: Vec<Vec<TrackTile>>,
    pub tick: u32,
    pub play_by_play: HashMap<String, PlayByPlay>,
}

#[derive(Clone, Debug)]
pub struct Config {
    pub admin: String,
    pub track_contract: String,
    pub car_contract: String,
    pub max_ticks: u32,
    pub max_recent_races: u32,
}

#[derive(Clone, Debug)]
pub struct ConfigResponse {
    pub config: Config,
}

/// Errors of the race history.
#[derive(Clone, Copy, Debug, PartialEq, Eq, Structural)]
pub enum RaceEngineError {
    /// Neither a car nor a track was named.
    NoCarOrTrackId,
    /// No race was recorded for the named car or track.
    NotFound,
}

/// The history after recording `r`: the `max` most recent races, oldest first.
pub open spec fn keep_recent<T>(races: Seq<T>, r: T, max: int) -> Seq<T> {
    let all = races.push(r);
    if all.len() > max {
        all.subrange(all.len() - max, all.len() as int)
    } else {
        all
    }
}

/// A history keeps at most `max` races, ends with the race just recorded, and is the most
/// recent part of the earlier history followed by that race.
pub proof fn lemma_keep_recent<T>(races: Seq<T>, r: T, max: int)
    requires
        max >= 1,
    ensures
        keep_recent(races, r, max).len() <= max,
        keep_recent(races, r, max).len() == if races.len() + 1 > max { max } else { races.len() + 1 as int },
        keep_recent(races, r, max).last() == r,
        keep_recent(races, r, max) == races.push(r).subrange(races.len() + 1 - keep_recent(races, r, max).len(), races.len() + 1 as int),
{
    let all = races.push(r);
    assert(all.subrange(0, all.len() as int) =~= all);
}

fn keep_last<T>(races: Vec<T>, max: usize) -> (r: Vec<T>)
    ensures
        r@ == if races@.len() > max {
            races@.subrange(races@.len() - max, races@.len() as int)
        } else {
            races@
        },
{
    let mut races = races;
    if races.len() > max {
        let cut = races.len() - max;
        let tail = races.split_off(cut);
        tail
    } else {
        races
    }
}

/// Action values stored under `(car, hash)`: the last entry with that key wins.
pub open spec fn find_state(e: Seq<(String, [u8; 32], [i32; 4])>, car: Seq<char>, hash: Seq<u8>) -> Option<[i32; 4]>
    decreases e.len(),
{
    if e.len() == 0 {
        None
    } else if e.last().0@ == car && e.last().1@ == hash {
        Some(e.last().2)
    } else {
        find_state(e.drop_last(), car, hash)
    }
}

/// The map that a list of action-value entries stands for.
pub open spec fn state_map(e: Seq<(String, [u8; 32], [i32; 4])>) -> Map<(Seq<char>, Seq<u8>), Seq<i32>> {
    Map::new(
        |k: (Seq<char>, Seq<u8>)| find_state(e, k.0, k.1) is Some,
        |k: (Seq<char>, Seq<u8>)| find_state(e, k.0, k.1).unwrap()@,
    )
}

proof fn lemma_find_state_update(e: Seq<(String, [u8; 32], [i32; 4])>, i: int, entry: (String, [u8; 32], [i32; 4]), x: Seq<char>, y: Seq<u8>)
    requires
        0 <= i < e.len(),
        entry.0@ == e[i].0@,
        entry.1@ == e[i].1@,
        forall|j: int| i < j < e.len() ==> !(#[trigger] e[j].0@ == e[i].0@ && e[j].1@ == e[i].1@),
    ensures
        find_state(e.update(i, entry), x, y) == if x == e[i].0@ && y == e[i].1@ {
            Some(entry.2)
        } else {
            find_state(e, x, y)
        },
    decreases e.len(),
{
    let e2 = e.update(i, entry);
    if i == e.len() - 1 {
        assert(e2.drop_last() =~= e.drop_last());
    } else {
        assert(e2.drop_last() =~= e.drop_last().update(i, entry));
        assert(e2.last() == e.last());
        assert(e.last() == e[e.len() - 1]);
        lemma_find_state_update(e.drop_last(), i, entry, x, y);
    }
}

fn same_hash(a: &[u8; 32], b: &[u8; 32]) -> (r: bool)
    ensures
        r == (a@ == b@),
{
    let mut i: usize = 0;
    while i < 32
        invariant
            i <= 32,
            a@.len() == 32,
            b@.len() == 32,
            forall|k: int| 0 <= k < i ==> a@[k] == b@[k],
        decreases 32 - i,
    {
        if a[i] != b[i] {
            return false;
        }
        i += 1;
    }
    assert(a@ =~= b@);
    true
}

/// Configuration, recent race history and action values of the race engine.
pub struct RaceEngineState {
    config: Config,
    car_recent_races: NameTable<Vec<RaceResult>>,
    track_recent_races: NameTable<Vec<RaceResult>>,
    q_table: Vec<(String, [u8; 32], [i32; 4])>,
}

impl RaceEngineState {
    pub closed spec fn config(&self) -> Config {
        self.config
    }

    /// Recent races per car.
    pub closed spec fn car_races(&self) -> Map<Seq<char>, Seq<RaceResult>> {
        self.car_recent_races@.map_values(|v: Vec<RaceResult>| v@)
    }

    /// Recent races per track.
    pub closed spec fn track_races(&self) -> Map<Seq<char>, Seq<RaceResult>> {
        self.track_recent_races@.map_values(|v: Vec<RaceResult>| v@)
    }

    /// Action values (up, down, left, right) per car and 32-byte state hash.
    pub closed spec fn q_view(&self) -> Map<(Seq<char>, Seq<u8>), Seq<i32>> {
        state_map(self.q_table@)
    }

    /// Position of the last entry with key `(car, hash)`.
    fn q_position(&self, car: &String, hash: &[u8; 32]) -> (r: Option<usize>)
        ensures
            r is None ==> find_state(self.q_table@, car@, hash@) is None,
            r matches Some(i) ==> {
                &&& i < self.q_table@.len()
                &&& self.q_table@[i as int].0@ == car@
                &&& self.q_table@[i as int].1@ == hash@
                &&& find_state(self.q_table@, car@, hash@) == Some(self.q_table@[i as int].2)
                &&& forall|j: int| i < j < self.q_table@.len() ==> !(#[trigger] self.q_table@[j].0@ == car@ && self.q_table@[j].1@ == hash@)
            },
    {
        let mut n = self.q_table.len();
        assert(self.q_table@.take(n as int) =~= self.q_table@);
        while n > 0
            invariant
                n <= self.q_table@.len(),
                find_state(self.q_table@, car@, hash@) == find_state(self.q_table@.take(n as int), car@, hash@),
                forall|j: int| n <= j < self.q_table@.len() ==> !(#[trigger] self.q_table@[j].0@ == car@ && self.q_table@[j].1@ == hash@),
            decreases n,
        {
            let e = &self.q_table[n - 1];
            let ghost t = self.q_table@.take(n as int);
            assert(t.drop_last() =~= self.q_table@.take(n - 1));
            assert(t.last() == self.q_table@[n - 1]);
            if e.0 == *car && same_hash(&e.1, hash) {
                return Some(n - 1);
            }
            n -= 1;
        }
        None
    }

    /// Action values stored for a state of a car.
    pub fn get_q_values(&self, car_id: &String, state_hash: &[u8; 32]) -> (r: Option<[i32; 4]>)
        ensures
            r is Some == self.q_view().contains_key((car_id@, state_hash@)),
            r matches Some(v) ==> v@ == self.q_view()[(car_id@, state_hash@)],
    {
        match self.q_position(car_id, state_hash) {
            Some(i) => Some(self.q_table[i].2),
            None => None,
        }
    }

    /// Stores the action values of a state of a car, replacing any earlier values.
    pub fn set_q_values(&mut self, car_id: String, state_hash: [u8; 32], q_values: [i32; 4])
        ensures
            final(self).q_view() == old(self).q_view().insert((car_id@, state_hash@), q_values@),
            final(self).config() == old(self).config(),
            final(self).car_races() == old(self).car_races(),
            final(self).track_races() == old(self).track_races(),
    {
        let ghost key = (car_id@, state_hash@);
        let ghost before = self.q_view();
        match self.q_position(&car_id, &state_hash) {
            Some(i) => {
                let ghost e = self.q_table@;
                let entry = (car_id, state_hash, q_values);
                proof {
                    assert forall|x: Seq<char>, y: Seq<u8>| #[trigger] find_state(e.update(i as int, entry), x, y) == if x == e[i as int].0@ && y == e[i as int].1@ {
                        Some(q_values)
                    } else {
                        find_state(e, x, y)
                    } by {
                        lemma_find_state_update(e, i as int, entry, x, y);
                    }
                }
                self.q_table.set(i, entry);
            },
            None => {
                let ghost e = self.q_table@;
                self.q_table.push((car_id, state_hash, q_values));
                proof {
                    assert forall|x: Seq<char>, y: Seq<u8>| #[trigger] find_state(self.q_table@, x, y) == if x == key.0 && y == key.1 {
                        Some(q_values)
                    } else {
                        find_state(e, x, y)
                    } by {
                        assert(self.q_table@.drop_last() =~= e);
                    }
                }
            },
        }
        assert(self.q_view() =~= before.insert(key, q_values@));
    }

    /// A race engine with the given configuration and no recorded race.
    pub fn new(config: Config) -> (s: Self)
        ensures
            s.config() == config,
            s.car_races() == Map::<Seq<char>, Seq<RaceResult>>::empty(),
            s.track_races() == Map::<Seq<char>, Seq<RaceResult>>::empty(),
            s.q_view() == Map::<(Seq<char>, Seq<u8>), Seq<i32>>::empty(),
    {
        let s = RaceEngineState {
            config,
            car_recent_races: NameTable::new(),
            track_recent_races: NameTable::new(),
            q_table: Vec::new(),
        };
        assert(s.q_view() =~= Map::<(Seq<char>, Seq<u8>), Seq<i32>>::empty());
        assert(s.car_races() =~= Map::<Seq<char>, Seq<RaceResult>>::empty());
        assert(s.track_races() =~= Map::<Seq<char>, Seq<RaceResult>>::empty());
        s
    }

    /// A race engine holding the given configuration, recent races per car and per track
    /// (later entries win), and action values.
    pub fn from_parts(
        config: Config,
        car_races: Vec<(String, Vec<RaceResult>)>,
        track_races: Vec<(String, Vec<RaceResult>)>,
        q_table: Vec<(String, [u8; 32], [i32; 4])>,
    ) -> (s: Self)
        ensures
            s.config() == config,
            s.car_races() == name_map(car_races@).map_values(|v: Vec<RaceResult>| v@),
            s.track_races() == name_map(track_races@).map_values(|v: Vec<RaceResult>| v@),
            s.q_view() == state_map(q_table@),
    {
        RaceEngineState {
            config,
            car_recent_races: NameTable::from_entries(car_races),
            track_recent_races: NameTable::from_entries(track_races),
            q_table,
        }
    }

    /// The configuration and entries of the race engine, as `from_parts` takes them.
    pub fn into_parts(self) -> (r: (Config, Vec<(String, Vec<RaceResult>)>, Vec<(String, Vec<RaceResult>)>, Vec<(String, [u8; 32], [i32; 4])>))
        ensures
            r.0 == self.config(),
            name_map(r.1@).map_values(|v: Vec<RaceResult>| v@) == self.car_races(),
            name_map(r.2@).map_values(|v: Vec<RaceResult>| v@) == self.track_races(),
            state_map(r.3@) == self.q_view(),
    {
        (self.config, self.car_recent_races.into_entries(), self.track_recent_races.into_entries(), self.q_table)
    }

    pub fn get_config(&self) -> (c: &Config)
        ensures
            *c == self.config(),
    {
        &self.config
    }

    pub fn set_config(&mut self, config: Config)
        ensures
            final(self).config() == config,
            final(self).car_races() == old(self).car_races(),
            final(self).track_races() == old(self).track_races(),
            final(self).q_view() == old(self).q_view(),
    {
        self.config = config;
    }

    /// Recent races of the car (when `car_id` is given) or else of the track.
    pub fn get_recent_races(&self, car_id: Option<String>, track_id: Option<String>) -> (r: Result<&Vec<RaceResult>, RaceEngineError>)
        ensures
            (match (car_id, track_id) {
                (Some(c), _) => if self.car_races().contains_key(c@) {
                    r matches Ok(v) && v@ == self.car_races()[c@]
                } else {
                    r == Err::<&Vec<RaceResult>, RaceEngineError>(RaceEngineError::NotFound)
                },
                (None, Some(t)) => if self.track_races().contains_key(t@) {
                    r matches Ok(v) && v@ == self.track_races()[t@]
                } else {
                    r == Err::<&Vec<RaceResult>, RaceEngineError>(RaceEngineError::NotFound)
                },
                (None, None) => r == Err::<&Vec<RaceResult>, RaceEngineError>(RaceEngineError::NoCarOrTrackId),
            }),
    {
        if let Some(car_id) = car_id {
            match self.car_recent_races.get_ref(&car_id) {
                Some(v) => Ok(v),
                None => Err(RaceEngineError::NotFound),
            }
        } else if let Some(track_id) = track_id {
            match self.track_recent_races.get_ref(&track_id) {
                Some(v) => Ok(v),
                None => Err(RaceEngineError::NotFound),
            }
        } else {
            Err(RaceEngineError::NoCarOrTrackId)
        }
    }

    /// Records a race in the history of the car (when `car_id` is given, keeping its 9 most
    /// recent races) or else of the track (keeping its 32 most recent races).
    pub fn add_recent_race(&mut self, race_result: RaceResult, car_id: Option<String>, track_id: Option<String>) -> (r: Result<(), RaceEngineError>)
        ensures
            r is Err <==> car_id is None && track_id is None,
            r matches Err(e) ==> e == RaceEngineError::NoCarOrTrackId,
            final(self).config() == old(self).config(),
            final(self).q_view() == old(self).q_view(),
            (match (car_id, track_id) {
                (Some(c), _) => {
                    let before = if old(self).car_races().contains_key(c@) { old(self).car_races()[c@] } else { Seq::empty() };
                    &&& final(self).car_races() == old(self).car_races().insert(c@, keep_recent(before, race_result, MAX_CAR_RECENT_RACES as int))
                    &&& final(self).track_races() == old(self).track_races()
                },
                (None, Some(t)) => {
                    let before = if old(self).track_races().contains_key(t@) { old(self).track_races()[t@] } else { Seq::empty() };
                    &&& final(self).track_races() == old(self).track_races().insert(t@, keep_recent(before, race_result, MAX_TRACK_RECENT_RACES as int))
                    &&& final(self).car_races() == old(self).car_races()
                },
                (None, None) => final(self).car_races() == old(self).car_races() && final(self).track_races() == old(self).track_races(),
            }),
    {
        let ghost r0 = race_result;
        if let Some(car_id) = car_id {
            let ghost before = self.car_races();
            let mut races = self.car_recent_races.take_list(&car_id);
            races.push(race_result);
            let races = keep_last(races, MAX_CAR_RECENT_RACES);
            let ghost key = car_id@;
            let ghost list = races@;
            self.car_recent_races.set(car_id, races);
            assert(self.car_races() =~= before.insert(key, list));
            Ok(())
        } else if let Some(track_id) = track_id {
            let ghost before = self.track_races();
            let mut races = self.track_recent_races.take_list(&track_id);
            races.push(race_result);
            let races = keep_last(races, MAX_TRACK_RECENT_RACES);
            let ghost key = track_id@;
            let ghost list = races@;
            self.track_recent_races.set(track_id, races);
            assert(self.track_races() =~= before.insert(key, list));
            Ok(())
        } else {
            Err(RaceEngineError::NoCarOrTrackId)
        }
    }
}

} // verus!
