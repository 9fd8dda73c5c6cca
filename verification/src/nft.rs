use vstd::prelude::*;

use std::collections::HashMap;

use crate::table::{name_map, name_position};

verus! {

broadcast use vstd::std_specs::hash::group_hash_axioms;

#[derive(Clone, Debug)]
pub struct InstantiateMsg {}

/// Race record of a car on one track.
#[derive(Clone, Copy, Debug, PartialEq, Eq, Structural)]
pub struct TrackPerformance {
    pub wins: u64,
    pub losses: u64,
    pub best_time: u64,
}

/// A minted car token.
#[derive(Clone, Debug)]
pub struct CarState {
    pub owner: String,
    pub training_steps: u64,
    pub total_races: u64,
    /// track id -> performance
    pub history: Vec<(u64, TrackPerformance)>,
}

#[derive(Clone, Debug)]
pub enum ExecuteMsg {
    Mint { car_id: u64 },
    Burn { car_id: u64 },
}

#[derive(Clone, Debug)]
pub enum ContractError {
    Unauthorized,
    /// No car is stored under the identifier.
    NotFound,
}

/// Car tokens and their Q-tables.
pub struct CarNft {
    cars: HashMap<u64, CarState>,
    /// Q-values per car, as entries keyed by state (later entries win)
    q_tables: HashMap<u64, Vec<(String, [i32; 5])>>,
}

impl CarNft {
    /// Stored cars by identifier.
    pub closed spec fn cars(&self) -> Map<u64, CarState> {
        self.cars@
    }

    /// Q-values of a state of a car, all zero when none are stored.
    pub closed spec fn q_of(&self, car_id: u64, state_hash: Seq<char>) -> Seq<i32> {
        if self.q_tables@.contains_key(car_id) && name_map(self.q_tables@[car_id]@).contains_key(state_hash) {
            name_map(self.q_tables@[car_id]@)[state_hash]@
        } else {
            Seq::new(5, |i: int| 0i32)
        }
    }

    pub fn instantiate(_msg: InstantiateMsg) -> (s: Self)
        ensures
            s.cars() == Map::<u64, CarState>::empty(),
            forall|c: u64, h: Seq<char>| #[trigger] s.q_of(c, h) == Seq::new(5, |i: int| 0i32),
    {
        let s = CarNft { cars: HashMap::new(), q_tables: HashMap::new() };
        s
    }

    /// Car tokens by identifier, and Q-values per car as entries keyed by state.
    pub fn from_parts(cars: HashMap<u64, CarState>, q_tables: HashMap<u64, Vec<(String, [i32; 5])>>) -> (s: Self)
        ensures
            s.cars() == cars@,
            forall|c: u64, h: Seq<char>| #[trigger] s.q_of(c, h) == if q_tables@.contains_key(c) && name_map(q_tables@[c]@).contains_key(h) {
                name_map(q_tables@[c]@)[h]@
            } else {
                Seq::new(5, |i: int| 0i32)
            },
    {
        CarNft { cars, q_tables }
    }

    /// The car tokens and Q-value entries, as `from_parts` takes them.
    pub fn into_parts(self) -> (r: (HashMap<u64, CarState>, HashMap<u64, Vec<(String, [i32; 5])>>))
        ensures
            r.0@ == self.cars(),
            forall|c: u64, h: Seq<char>| #[trigger] self.q_of(c, h) == if r.1@.contains_key(c) && name_map(r.1@[c]@).contains_key(h) {
                name_map(r.1@[c]@)[h]@
            } else {
                Seq::new(5, |i: int| 0i32)
            },
    {
        (self.cars, self.q_tables)
    }

    /// Stores a fresh car owned by `sender` under `car_id`, replacing any car stored there.
    pub fn execute_mint(&mut self, sender: String, car_id: u64)
        ensures
            final(self).cars() == old(self).cars().insert(
                car_id,
                CarState { owner: sender, training_steps: 0, total_races: 0, history: final(self).cars()[car_id].history },
            ),
            final(self).cars()[car_id].history@ == Seq::<(u64, TrackPerformance)>::empty(),
            forall|c: u64, h: Seq<char>| #[trigger] final(self).q_of(c, h) == old(self).q_of(c, h),
    {
        let car = CarState { owner: sender, training_steps: 0, total_races: 0, history: Vec::new() };
        self.cars.insert(car_id, car);
    }

    /// The owner removes the car and its whole Q-table.
    pub fn execute_burn(&mut self, sender: &String, car_id: u64) -> (r: Result<(), ContractError>)
        ensures
            r is Ok <==> old(self).cars().contains_key(car_id) && old(self).cars()[car_id].owner@ == sender@,
            r matches Err(e) ==> if old(self).cars().contains_key(car_id) { e is Unauthorized } else { e is NotFound },
            r is Err ==> final(self).cars() == old(self).cars()
                && forall|c: u64, h: Seq<char>| #[trigger] final(self).q_of(c, h) == old(self).q_of(c, h),
            r is Ok ==> final(self).cars() == old(self).cars().remove(car_id)
                && forall|c: u64, h: Seq<char>| #[trigger] final(self).q_of(c, h) == if c == car_id {
                    Seq::new(5, |i: int| 0i32)
                } else {
                    old(self).q_of(c, h)
                },
    {
        let authorized = match self.cars.get(&car_id) {
            None => return Err(ContractError::NotFound),
            Some(car) => car.owner == *sender,
        };
        if !authorized {
            return Err(ContractError::Unauthorized);
        }
        self.cars.remove(&car_id);
        self.q_tables.remove(&car_id);
        Ok(())
    }

    /// Mints or burns as the message says.
    pub fn execute(&mut self, sender: String, msg: ExecuteMsg) -> (r: Result<(), ContractError>)
        ensures
            (match msg {
                ExecuteMsg::Mint { car_id } => {
                    &&& r is Ok
                    &&& final(self).cars() == old(self).cars().insert(
                        car_id,
                        CarState { owner: sender, training_steps: 0, total_races: 0, history: final(self).cars()[car_id].history },
                    )
                    &&& final(self).cars()[car_id].history@ == Seq::<(u64, TrackPerformance)>::empty()
                    &&& forall|c: u64, h: Seq<char>| #[trigger] final(self).q_of(c, h) == old(self).q_of(c, h)
                },
                ExecuteMsg::Burn { car_id } => {
                    &&& r is Ok <==> old(self).cars().contains_key(car_id) && old(self).cars()[car_id].owner@ == sender@
                    &&& r matches Err(e) ==> if old(self).cars().contains_key(car_id) { e is Unauthorized } else { e is NotFound }
                    &&& r is Err ==> final(self).cars() == old(self).cars()
                        && forall|c: u64, h: Seq<char>| #[trigger] final(self).q_of(c, h) == old(self).q_of(c, h)
                    &&& r is Ok ==> final(self).cars() == old(self).cars().remove(car_id)
                        && forall|c: u64, h: Seq<char>| #[trigger] final(self).q_of(c, h) == if c == car_id {
                            Seq::new(5, |i: int| 0i32)
                        } else {
                            old(self).q_of(c, h)
                        }
                },
            }),
    {
        match msg {
            ExecuteMsg::Mint { car_id } => {
                self.execute_mint(sender, car_id);
                Ok(())
            },
            ExecuteMsg::Burn { car_id } => self.execute_burn(&sender, car_id),
        }
    }

    /// Q-values of a state of a car, all zero when none are stored.
    pub fn query_q_values(&self, car_id: u64, state_hash: String) -> (r: [i32; 5])
        ensures
            r@ == self.q_of(car_id, state_hash@),
    {
        let r: [i32; 5] = match self.q_tables.get(&car_id) {
            Some(t) => match name_position(t, &state_hash) {
                Some(i) => t[i].1,
                None => [0; 5],
            },
            None => [0; 5],
        };
        assert(r@ =~= self.q_of(car_id, state_hash@));
        r
    }

    /// The stored car.
    pub fn query_metadata(&self, car_id: u64) -> (r: Result<&CarState, ContractError>)
        ensures
            r is Ok <==> self.cars().contains_key(car_id),
            r matches Ok(c) ==> *c == self.cars()[car_id],
            r matches Err(e) ==> e is NotFound,
    {
        match self.cars.get(&car_id) {
            Some(c) => Ok(c),
            None => Err(ContractError::NotFound),
        }
    }
}

} // verus!
