use vstd::prelude::*;

use crate::text::{decimal, digits_value, is_u128_text, parse_u128, u128_to_decimal, unsigned_digits};
use crate::types::{GetQResponse, QTableEntry};

verus! {

/// Number of cars listed when no limit is given.
pub const MAX_LIMIT: u32 = 32;

#[derive(Clone, Debug)]
pub struct InstantiateMsg {
    pub admin: String,
}

#[derive(Clone, Debug)]
pub struct CarAttribute {
    /// Type of the attribute (e.g., "Speed", "Handling", "Durability")
    pub trait_type: String,
    /// Value of the attribute (e.g., "High", "Medium", "Low")
    pub value: String,
}

#[derive(Clone, Debug)]
pub struct CarMetadata {
    /// Name of the car
    pub name: String,
    /// Optional description of the car
    pub description: Option<String>,
    /// Optional URI to the car's image
    pub image_uri: Option<String>,
    /// Optional list of car attributes/traits
    pub attributes: Option<Vec<CarAttribute>>,
}

/// A minted car: its owners, its metadata and when it was minted.
#[derive(Clone, Debug)]
pub struct CarInfo {
    pub owners: Vec<String>,
    pub metadata: Option<CarMetadata>,
    pub created_at: u64,
}

#[derive(Clone, Debug)]
pub struct GetCarInfoResponse {
    pub car_id: String,
    pub owners: Vec<String>,
    pub metadata: Option<CarMetadata>,
}

#[derive(Clone, Debug)]
pub struct OwnerOfResponse {
    pub owners: Vec<String>,
}

#[derive(Clone, Debug)]
pub struct NftInfoResponse {
    pub car_id: String,
    pub owners: Vec<String>,
    pub metadata: Option<CarMetadata>,
}

#[derive(Clone, Debug)]
pub struct AllTokensResponse {
    pub tokens: Vec<String>,
}

/// Errors of the car registry.
#[derive(Clone, Debug)]
pub enum CarError {
    Unauthorized,
    CarHasNoOwners { car_id: u128 },
    CarNotFound { car_id: u128 },
    /// The car identifier is not the decimal text of a `u128`.
    InvalidCarId { car_id: String },
}

/// The texts of a list of strings.
pub open spec fn names(v: Seq<String>) -> Seq<Seq<char>> {
    v.map_values(|s: String| s@)
}

pub open spec fn opt_text(o: Option<String>) -> Option<Seq<char>> {
    match o {
        Some(s) => Some(s@),
        None => None,
    }
}

pub open spec fn attributes_view(v: Seq<CarAttribute>) -> Seq<(Seq<char>, Seq<char>)> {
    v.map_values(|a: CarAttribute| (a.trait_type@, a.value@))
}

/// The content of metadata: name, description, image URI and attributes.
pub open spec fn metadata_view(m: CarMetadata) -> (Seq<char>, Option<Seq<char>>, Option<Seq<char>>, Option<Seq<(Seq<char>, Seq<char>)>>) {
    (
        m.name@,
        opt_text(m.description),
        opt_text(m.image_uri),
        match m.attributes {
            Some(v) => Some(attributes_view(v@)),
            None => None,
        },
    )
}

pub open spec fn opt_metadata_view(m: Option<CarMetadata>) -> Option<(Seq<char>, Option<Seq<char>>, Option<Seq<char>>, Option<Seq<(Seq<char>, Seq<char>)>>)> {
    match m {
        Some(m) => Some(metadata_view(m)),
        None => None,
    }
}

fn copy_text(o: &Option<String>) -> (r: Option<String>)
    ensures
        opt_text(r) == opt_text(*o),
{
    match o {
        Some(s) => Some(s.clone()),
        None => None,
    }
}

fn copy_names(v: &Vec<String>) -> (r: Vec<String>)
    ensures
        names(r@) == names(v@),
{
    let mut r: Vec<String> = Vec::new();
    let mut i: usize = 0;
    while i < v.len()
        invariant
            i <= v@.len(),
            r@.len() == i,
            forall|j: int| 0 <= j < i ==> (#[trigger] r@[j])@ == v@[j]@,
        decreases v@.len() - i,
    {
        r.push(v[i].clone());
        i += 1;
    }
    assert(names(r@) =~= names(v@));
    r
}

fn copy_metadata(m: &CarMetadata) -> (r: CarMetadata)
    ensures
        metadata_view(r) == metadata_view(*m),
{
    let attributes = match &m.attributes {
        Some(v) => {
            let mut r: Vec<CarAttribute> = Vec::new();
            let mut i: usize = 0;
            while i < v.len()
                invariant
                    i <= v@.len(),
                    r@.len() == i,
                    forall|j: int| 0 <= j < i ==> (#[trigger] r@[j]).trait_type@ == v@[j].trait_type@ && r@[j].value@ == v@[j].value@,
                decreases v@.len() - i,
            {
                r.push(CarAttribute { trait_type: v[i].trait_type.clone(), value: v[i].value.clone() });
                i += 1;
            }
            assert(attributes_view(r@) =~= attributes_view(v@));
            Some(r)
        },
        None => None,
    };
    CarMetadata {
        name: m.name.clone(),
        description: copy_text(&m.description),
        image_uri: copy_text(&m.image_uri),
        attributes,
    }
}

fn copy_opt_metadata(m: &Option<CarMetadata>) -> (r: Option<CarMetadata>)
    ensures
        opt_metadata_view(r) == opt_metadata_view(*m),
{
    match m {
        Some(m) => Some(copy_metadata(m)),
        None => None,
    }
}

proof fn lemma_names_push(v: Seq<String>, s: String)
    ensures
        names(v.push(s)) == names(v).push(s@),
{
    assert(names(v.push(s)) =~= names(v).push(s@));
}

/// Whether `name` is in `list`.
pub fn contains_name(list: &Vec<String>, name: &String) -> (b: bool)
    ensures
        b == names(list@).contains(name@),
{
    let mut i: usize = 0;
    while i < list.len()
        invariant
            i <= list@.len(),
            forall|j: int| 0 <= j < i ==> (#[trigger] list@[j])@ != name@,
        decreases list@.len() - i,
    {
        if list[i] == *name {
            assert(names(list@)[i as int] == name@);
            return true;
        }
        i += 1;
    }
    assert(!names(list@).contains(name@)) by {
        if names(list@).contains(name@) {
            let j = choose|j: int| 0 <= j < names(list@).len() && names(list@)[j] == name@;
            assert(list@[j]@ == name@);
        }
    }
    false
}

/// Owners after adding `new` one by one, skipping any already present.
pub open spec fn add_owners(owners: Seq<Seq<char>>, new: Seq<Seq<char>>) -> Seq<Seq<char>>
    decreases new.len(),
{
    if new.len() == 0 {
        owners
    } else {
        let prev = add_owners(owners, new.drop_last());
        if prev.contains(new.last()) {
            prev
        } else {
            prev.push(new.last())
        }
    }
}

/// Owners that are not in `removed`, in their order.
pub open spec fn remove_owners(owners: Seq<Seq<char>>, removed: Seq<Seq<char>>) -> Seq<Seq<char>>
    decreases owners.len(),
{
    if owners.len() == 0 {
        owners
    } else {
        let prev = remove_owners(owners.drop_last(), removed);
        if removed.contains(owners.last()) {
            prev
        } else {
            prev.push(owners.last())
        }
    }
}

/// Adding owners keeps every earlier owner, adds every new one, adds nothing else, and
/// introduces no duplicate.
pub proof fn lemma_add_owners(owners: Seq<Seq<char>>, new: Seq<Seq<char>>)
    ensures
        forall|o: Seq<char>| #[trigger] add_owners(owners, new).contains(o) <==> (owners.contains(o) || new.contains(o)),
        owners.no_duplicates() ==> add_owners(owners, new).no_duplicates(),
    decreases new.len(),
{
    if new.len() > 0 {
        let prev = add_owners(owners, new.drop_last());
        lemma_add_owners(owners, new.drop_last());
        assert forall|o: Seq<char>| #[trigger] add_owners(owners, new).contains(o) <==> (owners.contains(o) || new.contains(o)) by {
            if new.contains(o) && !new.drop_last().contains(o) {
                let j = choose|j: int| 0 <= j < new.len() && new[j] == o;
                if j < new.len() - 1 {
                    assert(new.drop_last()[j] == o);
                }
            }
            if new.drop_last().contains(o) {
                let j = choose|j: int| 0 <= j < new.drop_last().len() && new.drop_last()[j] == o;
                assert(new[j] == o);
            }
            if !prev.contains(new.last()) {
                let r = prev.push(new.last());
                if r.contains(o) {
                    let j = choose|j: int| 0 <= j < r.len() && r[j] == o;
                    if j < prev.len() {
                        assert(prev[j] == o);
                    }
                }
                if prev.contains(o) {
                    let j = choose|j: int| 0 <= j < prev.len() && prev[j] == o;
                    assert(r[j] == o);
                }
                assert(r[r.len() - 1] == new.last());
            }
            assert(new[new.len() - 1] == new.last());
        }
    }
}

/// Removing owners drops exactly the removed names.
pub proof fn lemma_remove_owners(owners: Seq<Seq<char>>, removed: Seq<Seq<char>>)
    ensures
        forall|o: Seq<char>| #[trigger] remove_owners(owners, removed).contains(o) <==> (owners.contains(o) && !removed.contains(o)),
    decreases owners.len(),
{
    if owners.len() > 0 {
        let p = owners.drop_last();
        let prev = remove_owners(p, removed);
        lemma_remove_owners(p, removed);
        assert forall|o: Seq<char>| #[trigger] remove_owners(owners, removed).contains(o) <==> (owners.contains(o) && !removed.contains(o)) by {
            if p.contains(o) {
                let j = choose|j: int| 0 <= j < p.len() && p[j] == o;
                assert(owners[j] == o);
            }
            if owners.contains(o) {
                let j = choose|j: int| 0 <= j < owners.len() && owners[j] == o;
                if j < owners.len() - 1 {
                    assert(p[j] == o);
                }
            }
            if !removed.contains(owners.last()) {
                let r = prev.push(owners.last());
                if r.contains(o) {
                    let j = choose|j: int| 0 <= j < r.len() && r[j] == o;
                    if j < prev.len() {
                        assert(prev[j] == o);
                    }
                }
                if prev.contains(o) {
                    let j = choose|j: int| 0 <= j < prev.len() && prev[j] == o;
                    assert(r[j] == o);
                }
                assert(r[r.len() - 1] == owners.last());
            }
            assert(owners[owners.len() - 1] == owners.last());
        }
    }
}

/// `e[i]` is the latest entry of `e` for the state `h` of the car `car`.
pub open spec fn is_latest_q(e: Seq<(u128, String, [i32; 4])>, car: u128, h: Seq<char>, i: int) -> bool {
    &&& 0 <= i < e.len()
    &&& e[i].0 == car
    &&& e[i].1@ == h
    &&& forall|j: int| i < j < e.len() ==> !((#[trigger] e[j]).0 == car && e[j].1@ == h)
}

/// The Q-values of the state `h` of the car `car`: those of its latest entry in `e`, all zero
/// when there is none.
pub open spec fn q_entry_of(e: Seq<(u128, String, [i32; 4])>, car: u128, h: Seq<char>) -> Seq<i32> {
    if exists|i: int| is_latest_q(e, car, h, i) {
        e[choose|i: int| is_latest_q(e, car, h, i)].2@
    } else {
        seq![0i32, 0i32, 0i32, 0i32]
    }
}

/// The states of the car `car` that have an entry in `e`.
pub open spec fn states_of(e: Seq<(u128, String, [i32; 4])>, car: u128) -> Set<Seq<char>> {
    Set::new(|h: Seq<char>| exists|i: int| 0 <= i < e.len() && (#[trigger] e[i]).0 == car && e[i].1@ == h)
}

proof fn lemma_latest_exists(e: Seq<(u128, String, [i32; 4])>, car: u128, h: Seq<char>, i: int)
    requires
        0 <= i < e.len(),
        e[i].0 == car,
        e[i].1@ == h,
    ensures
        exists|k: int| is_latest_q(e, car, h, k),
    decreases e.len() - i,
{
    if !is_latest_q(e, car, h, i) {
        let j = choose|j: int| i < j < e.len() && (#[trigger] e[j]).0 == car && e[j].1@ == h;
        lemma_latest_exists(e, car, h, j);
    }
}

/// Minted cars, where each car's identifier is its position, and the Q-values stored for the
/// cars' states.
pub struct CarRegistry {
    admin: String,
    cars: Vec<CarInfo>,
    /// (car, state, values); a later entry for the same car and state replaces an earlier one
    q_table: Vec<(u128, String, [i32; 4])>,
}

impl CarRegistry {
    /// The minted cars in order of identifier.
    pub closed spec fn cars(&self) -> Seq<CarInfo> {
        self.cars@
    }

    pub closed spec fn admin(&self) -> Seq<char> {
        self.admin@
    }

    /// The stored Q-value entries: car, state and values.
    pub closed spec fn q_entries(&self) -> Seq<(u128, String, [i32; 4])> {
        self.q_table@
    }

    /// Q-values of the state `h` of the car `car`, all zero when none are stored.
    pub open spec fn q_of(&self, car: u128, h: Seq<char>) -> Seq<i32> {
        q_entry_of(self.q_entries(), car, h)
    }

    /// The states of the car `car` that have stored Q-values.
    pub open spec fn stored_states(&self, car: u128) -> Set<Seq<char>> {
        states_of(self.q_entries(), car)
    }

    /// Owners of the car `car_id`.
    pub open spec fn owners_of(&self, car_id: int) -> Seq<Seq<char>> {
        names(self.cars()[car_id].owners@)
    }

    /// `q` holds one entry for each stored state of the car `car`, each with that state's
    /// Q-values, and nothing else.
    pub open spec fn is_car_table(&self, car: u128, q: Seq<QTableEntry>) -> bool {
        &&& forall|i: int| 0 <= i < q.len() ==> {
            &&& self.stored_states(car).contains((#[trigger] q[i]).state_hash@)
            &&& q[i].action_values@ == self.q_of(car, q[i].state_hash@)
        }
        &&& forall|h: Seq<char>| #[trigger] self.stored_states(car).contains(h) ==> exists|i: int|
            0 <= i < q.len() && (#[trigger] q[i]).state_hash@ == h
        &&& forall|i: int, j: int| 0 <= i < j < q.len() ==> (#[trigger] q[i]).state_hash@ != (#[trigger] q[j]).state_hash@
    }

    /// A registry without cars administered by the (validated) `msg.admin`.
    pub fn instantiate(msg: InstantiateMsg) -> (r: Self)
        ensures
            r.cars() == Seq::<CarInfo>::empty(),
            r.admin() == msg.admin@,
            r.q_entries() == Seq::<(u128, String, [i32; 4])>::empty(),
    {
        CarRegistry { admin: msg.admin, cars: Vec::new(), q_table: Vec::new() }
    }

    /// A registry holding `cars`, in order of identifier.
    pub fn from_parts(admin: String, cars: Vec<CarInfo>) -> (r: Self)
        ensures
            r.cars() == cars@,
            r.admin() == admin@,
            r.q_entries() == Seq::<(u128, String, [i32; 4])>::empty(),
    {
        CarRegistry { admin, cars, q_table: Vec::new() }
    }

    /// The same registry with `q_table` as its stored Q-value entries (car, state, values).
    pub fn with_q_table(self, q_table: Vec<(u128, String, [i32; 4])>) -> (r: Self)
        ensures
            r.cars() == self.cars(),
            r.admin() == self.admin(),
            r.q_entries() == q_table@,
    {
        CarRegistry { admin: self.admin, cars: self.cars, q_table }
    }

    /// The admin and the minted cars in order of identifier.
    pub fn into_parts(self) -> (r: (String, Vec<CarInfo>))
        ensures
            r.0@ == self.admin(),
            r.1@ == self.cars(),
    {
        (self.admin, self.cars)
    }

    /// Mints a car for the (validated) owners under the next identifier.
    pub fn execute_mint(&mut self, owners: Vec<String>, metadata: Option<CarMetadata>, created_at: u64) -> (car_id: u128)
        ensures
            car_id == old(self).cars().len(),
            final(self).cars() == old(self).cars().push(CarInfo { owners, metadata, created_at }),
            final(self).admin() == old(self).admin(),
            final(self).q_entries() == old(self).q_entries(),
    {
        let car_id = self.cars.len() as u128;
        self.cars.push(CarInfo { owners, metadata, created_at });
        car_id
    }

    /// Checks that `sender` owns the car `car_id`.
    pub fn check_owner(&self, car_id: u128, sender: &String) -> (r: Result<(), CarError>)
        ensures
            r is Ok <==> car_id < self.cars().len() && self.owners_of(car_id as int).contains(sender@),
            r matches Err(e) ==> (if car_id < self.cars().len() {
                e is Unauthorized
            } else {
                e matches CarError::CarNotFound { car_id: c } && c == car_id
            }),
    {
        if car_id >= self.cars.len() as u128 {
            return Err(CarError::CarNotFound { car_id });
        }
        if !contains_name(&self.cars[car_id as usize].owners, sender) {
            return Err(CarError::Unauthorized);
        }
        Ok(())
    }

    /// An owner adds (`is_add`) or removes the (validated) `new_owners`. Adding skips names
    /// that already own the car; removing must leave at least one owner.
    pub fn execute_update_owner(&mut self, sender: &String, car_id: u128, new_owners: Vec<String>, is_add: bool) -> (r: Result<(), CarError>)
        ensures
            ({
                let authorized = car_id < old(self).cars().len() && old(self).owners_of(car_id as int).contains(sender@);
                let result = if is_add {
                    add_owners(old(self).owners_of(car_id as int), names(new_owners@))
                } else {
                    remove_owners(old(self).owners_of(car_id as int), names(new_owners@))
                };
                &&& r is Ok <==> authorized && result.len() > 0
                &&& (r matches Err(e) ==> if car_id >= old(self).cars().len() {
                    e matches CarError::CarNotFound { car_id: c } && c == car_id
                } else if !authorized {
                    e is Unauthorized
                } else {
                    e matches CarError::CarHasNoOwners { car_id: c } && c == car_id
                })
                &&& r is Err ==> final(self).cars() == old(self).cars()
                &&& r is Ok ==> {
                    &&& final(self).cars().len() == old(self).cars().len()
                    &&& forall|i: int| 0 <= i < old(self).cars().len() && i != car_id ==> #[trigger] final(self).cars()[i] == old(self).cars()[i]
                    &&& final(self).owners_of(car_id as int) == result
                    &&& final(self).cars()[car_id as int].metadata == old(self).cars()[car_id as int].metadata
                    &&& final(self).cars()[car_id as int].created_at == old(self).cars()[car_id as int].created_at
                }
            }),
            final(self).admin() == old(self).admin(),
            final(self).q_entries() == old(self).q_entries(),
    {
        if let Err(e) = self.check_owner(car_id, sender) {
            return Err(e);
        }
        let n = self.cars.len();
        assert(car_id < n);
        let idx = car_id as usize;
        assert(idx == car_id);
        let ghost current = names(self.cars@[idx as int].owners@);
        assert(current == self.owners_of(car_id as int));
        assert(current.contains(sender@));
        let owners: Vec<String> = if is_add {
            let mut owners = copy_names(&self.cars[idx].owners);
            let mut i: usize = 0;
            assert(new_owners@.take(0) =~= Seq::<String>::empty());
            assert(names(new_owners@.take(0)) =~= Seq::<Seq<char>>::empty());
            while i < new_owners.len()
                invariant
                    i <= new_owners@.len(),
                    names(owners@) == add_owners(current, names(new_owners@.take(i as int))),
                decreases new_owners@.len() - i,
            {
                let ghost ts = names(new_owners@.take(i + 1));
                assert(ts.drop_last() =~= names(new_owners@.take(i as int)));
                assert(ts.last() == new_owners@[i as int]@);
                let ghost prev = add_owners(current, ts.drop_last());
                if !contains_name(&owners, &new_owners[i]) {
                    let name = new_owners[i].clone();
                    proof {
                        lemma_names_push(owners@, name);
                    }
                    owners.push(name);
                    assert(add_owners(current, ts) == prev.push(ts.last()));
                } else {
                    assert(add_owners(current, ts) == prev);
                }
                i += 1;
            }
            assert(new_owners@.take(new_owners@.len() as int) =~= new_owners@);
            proof {
                lemma_add_owners(current, names(new_owners@));
                assert(add_owners(current, names(new_owners@)).contains(sender@));
            }
            owners
        } else {
            let old_owners = &self.cars[idx].owners;
            let ghost removed = names(new_owners@);
            let mut owners: Vec<String> = Vec::new();
            let mut i: usize = 0;
            assert(old_owners@.take(0) =~= Seq::<String>::empty());
            assert(names(old_owners@.take(0)) =~= Seq::<Seq<char>>::empty());
            assert(names(owners@) =~= Seq::<Seq<char>>::empty());
            while i < old_owners.len()
                invariant
                    i <= old_owners@.len(),
                    removed == names(new_owners@),
                    names(owners@) == remove_owners(names(old_owners@.take(i as int)), removed),
                decreases old_owners@.len() - i,
            {
                let ghost ts = names(old_owners@.take(i + 1));
                assert(ts.drop_last() =~= names(old_owners@.take(i as int)));
                assert(ts.last() == old_owners@[i as int]@);
                let ghost prev = remove_owners(ts.drop_last(), removed);
                if !contains_name(&new_owners, &old_owners[i]) {
                    let name = old_owners[i].clone();
                    proof {
                        lemma_names_push(owners@, name);
                    }
                    owners.push(name);
                    assert(remove_owners(ts, removed) == prev.push(ts.last()));
                } else {
                    assert(remove_owners(ts, removed) == prev);
                }
                i += 1;
            }
            assert(old_owners@.take(old_owners@.len() as int) =~= old_owners@);
            if owners.len() == 0 {
                return Err(CarError::CarHasNoOwners { car_id });
            }
            owners
        };
        self.cars[idx].owners = owners;
        Ok(())
    }

    /// An owner replaces the car's metadata.
    pub fn execute_update_car_metadata(&mut self, sender: &String, car_id: u128, metadata: CarMetadata) -> (r: Result<(), CarError>)
        ensures
            r is Ok <==> car_id < old(self).cars().len() && old(self).owners_of(car_id as int).contains(sender@),
            (r matches Err(e) ==> if car_id < old(self).cars().len() {
                e is Unauthorized
            } else {
                e matches CarError::CarNotFound { car_id: c } && c == car_id
            }),
            r is Err ==> final(self).cars() == old(self).cars(),
            r is Ok ==> final(self).cars() == old(self).cars().update(
                car_id as int,
                CarInfo { metadata: Some(metadata), ..old(self).cars()[car_id as int] },
            ),
            final(self).admin() == old(self).admin(),
            final(self).q_entries() == old(self).q_entries(),
    {
        if let Err(e) = self.check_owner(car_id, sender) {
            return Err(e);
        }
        let n = self.cars.len();
        assert(car_id < n);
        let idx = car_id as usize;
        self.cars[idx].metadata = Some(metadata);
        Ok(())
    }

    /// An owner hands the car to the (validated) `to`, who becomes its only owner.
    pub fn execute_transfer(&mut self, sender: &String, car_id: u128, to: String) -> (r: Result<(), CarError>)
        ensures
            r is Ok <==> car_id < old(self).cars().len() && old(self).owners_of(car_id as int).contains(sender@),
            (r matches Err(e) ==> if car_id < old(self).cars().len() {
                e is Unauthorized
            } else {
                e matches CarError::CarNotFound { car_id: c } && c == car_id
            }),
            r is Err ==> final(self).cars() == old(self).cars(),
            r is Ok ==> {
                &&& final(self).cars().len() == old(self).cars().len()
                &&& forall|i: int| 0 <= i < old(self).cars().len() && i != car_id ==> #[trigger] final(self).cars()[i] == old(self).cars()[i]
                &&& final(self).owners_of(car_id as int) == seq![to@]
                &&& final(self).cars()[car_id as int].metadata == old(self).cars()[car_id as int].metadata
                &&& final(self).cars()[car_id as int].created_at == old(self).cars()[car_id as int].created_at
            },
            final(self).admin() == old(self).admin(),
            final(self).q_entries() == old(self).q_entries(),
    {
        if let Err(e) = self.check_owner(car_id, sender) {
            return Err(e);
        }
        let n = self.cars.len();
        assert(car_id < n);
        let idx = car_id as usize;
        let mut owners: Vec<String> = Vec::new();
        owners.push(to);
        assert(names(owners@) =~= seq![to@]);
        self.cars[idx].owners = owners;
        Ok(())
    }

    fn info_response(&self, idx: usize) -> (r: GetCarInfoResponse)
        requires
            idx < self.cars().len(),
        ensures
            r.car_id@ == decimal(idx as nat),
            names(r.owners@) == self.owners_of(idx as int),
            opt_metadata_view(r.metadata) == opt_metadata_view(self.cars()[idx as int].metadata),
    {
        let c = &self.cars[idx];
        GetCarInfoResponse {
            car_id: u128_to_decimal(idx as u128),
            owners: copy_names(&c.owners),
            metadata: copy_opt_metadata(&c.metadata),
        }
    }

    /// Information on one car (`car_id`), or else on the cars after `start_after` in
    /// ascending order of identifier, at most `limit` of them (32 when no limit is given).
    pub fn query_car_info(&self, car_id: Option<u128>, start_after: Option<u128>, limit: Option<u32>) -> (r: Result<Vec<GetCarInfoResponse>, CarError>)
        ensures
            ({
                let n = self.cars().len() as int;
                let ids: Seq<int> = match car_id {
                    Some(id) => seq![id as int],
                    None => {
                        let start = match start_after { Some(s) => s + 1, None => 0int };
                        let lim = match limit { Some(l) => l as int, None => MAX_LIMIT as int };
                        let count = if start >= n { 0 } else if n - start < lim { n - start } else { lim };
                        Seq::new(count as nat, |i: int| start + i)
                    },
                };
                &&& r is Err <==> (car_id matches Some(id) && id >= n)
                &&& (r matches Err(e) ==> (car_id matches Some(id) && e matches CarError::CarNotFound { car_id: c } && c == id))
                &&& (r matches Ok(v) ==> {
                    &&& v@.len() == ids.len()
                    &&& forall|i: int| 0 <= i < v@.len() ==> {
                        &&& (#[trigger] v@[i]).car_id@ == decimal(ids[i] as nat)
                        &&& names(v@[i].owners@) == self.owners_of(ids[i])
                        &&& opt_metadata_view(v@[i].metadata) == opt_metadata_view(self.cars()[ids[i]].metadata)
                    }
                })
            }),
    {
        let n = self.cars.len();
        if let Some(id) = car_id {
            if id >= n as u128 {
                return Err(CarError::CarNotFound { car_id: id });
            }
            let mut v: Vec<GetCarInfoResponse> = Vec::new();
            v.push(self.info_response(id as usize));
            return Ok(v);
        }
        let lim: u32 = match limit {
            Some(l) => l,
            None => MAX_LIMIT,
        };
        let start: usize = match start_after {
            Some(s) => if s >= n as u128 { n } else { (s + 1) as usize },
            None => 0,
        };
        let ghost spec_start = match start_after { Some(s) => s + 1, None => 0int };
        let mut v: Vec<GetCarInfoResponse> = Vec::new();
        let mut i = start;
        while i < n && ((i - start) as u64) < lim as u64
            invariant
                start <= i <= n,
                n == self.cars@.len(),
                start == spec_start || (start == n && spec_start >= n),
                v@.len() == i - start,
                i - start <= lim,
                forall|j: int| 0 <= j < v@.len() ==> {
                    &&& (#[trigger] v@[j]).car_id@ == decimal((start + j) as nat)
                    &&& names(v@[j].owners@) == self.owners_of(start + j)
                    &&& opt_metadata_view(v@[j].metadata) == opt_metadata_view(self.cars()[start + j].metadata)
                },
            decreases n - i,
        {
            v.push(self.info_response(i));
            i += 1;
        }
        Ok(v)
    }

    /// Owners of a car.
    pub fn query_owner_of(&self, car_id: u128) -> (r: Result<OwnerOfResponse, CarError>)
        ensures
            r is Err <==> car_id >= self.cars().len(),
            r matches Err(e) ==> (e matches CarError::CarNotFound { car_id: c } && c == car_id),
            r matches Ok(resp) ==> names(resp.owners@) == self.owners_of(car_id as int),
    {
        let n = self.cars.len();
        if car_id >= n as u128 {
            return Err(CarError::CarNotFound { car_id });
        }
        Ok(OwnerOfResponse { owners: copy_names(&self.cars[car_id as usize].owners) })
    }

    /// Identifier, owners and metadata of a car.
    pub fn query_nft_info(&self, car_id: u128) -> (r: Result<NftInfoResponse, CarError>)
        ensures
            r is Err <==> car_id >= self.cars().len(),
            r matches Err(e) ==> (e matches CarError::CarNotFound { car_id: c } && c == car_id),
            (r matches Ok(resp) ==> {
                &&& resp.car_id@ == decimal(car_id as nat)
                &&& names(resp.owners@) == self.owners_of(car_id as int)
                &&& opt_metadata_view(resp.metadata) == opt_metadata_view(self.cars()[car_id as int].metadata)
            }),
    {
        let n = self.cars.len();
        if car_id >= n as u128 {
            return Err(CarError::CarNotFound { car_id });
        }
        let info = self.info_response(car_id as usize);
        Ok(NftInfoResponse { car_id: info.car_id, owners: info.owners, metadata: info.metadata })
    }

    /// The stored Q-values of the state `h` of the car `id`, all zero when none are stored.
    fn q_entry(&self, id: u128, h: String) -> (r: QTableEntry)
        ensures
            r.state_hash@ == h@,
            r.action_values@ == self.q_of(id, h@),
    {
        let ghost e = self.q_table@;
        let n = self.q_table.len();
        // the latest entry for the state wins
        let mut values: [i32; 4] = [0, 0, 0, 0];
        let mut found: Option<usize> = None;
        let mut i: usize = 0;
        while i < n
            invariant
                e == self.q_table@,
                n == e.len(),
                i <= n,
                found matches Some(k) ==> k < i && e[k as int].0 == id && e[k as int].1@ == h@ && values@ == e[k as int].2@
                    && forall|j: int| k < j < i ==> !((#[trigger] e[j]).0 == id && e[j].1@ == h@),
                found is None ==> values@ == seq![0i32, 0i32, 0i32, 0i32]
                    && forall|j: int| 0 <= j < i ==> !((#[trigger] e[j]).0 == id && e[j].1@ == h@),
            decreases n - i,
        {
            if self.q_table[i].0 == id && self.q_table[i].1 == h {
                values = self.q_table[i].2;
                found = Some(i);
            }
            i += 1;
        }
        proof {
            match found {
                Some(k) => {
                    assert(is_latest_q(e, id, h@, k as int));
                    let l = choose|l: int| is_latest_q(e, id, h@, l);
                    if l < k {
                        assert(e[k as int].0 == id);
                    } else if l > k {
                        assert(e[l].0 == id);
                    }
                    assert(self.q_of(id, h@) == values@);
                },
                None => {
                    assert(!exists|k: int| is_latest_q(e, id, h@, k));
                    assert(values@ =~= seq![0i32, 0i32, 0i32, 0i32]);
                },
            }
        }
        QTableEntry { state_hash: h, action_values: values }
    }

    /// One entry for each stored state of the car `id`, with its Q-values.
    fn q_entries_of_car(&self, id: u128) -> (q: Vec<QTableEntry>)
        ensures
            self.is_car_table(id, q@),
    {
        let ghost e = self.q_table@;
        let n = self.q_table.len();
        // every entry of the car that no later entry replaces, in order
        let mut q_values: Vec<QTableEntry> = Vec::new();
        let ghost mut from: Seq<int> = Seq::empty();
        let mut i: usize = 0;
        while i < n
            invariant
                e == self.q_table@,
                n == e.len(),
                i <= n,
                from.len() == q_values@.len(),
                forall|k: int| 0 <= k < from.len() ==> {
                    &&& 0 <= #[trigger] from[k] < i
                    &&& is_latest_q(e, id, q_values@[k].state_hash@, from[k])
                    &&& q_values@[k].action_values@ == e[from[k]].2@
                },
                forall|k: int, m: int| 0 <= k < m < from.len() ==> #[trigger] from[k] < #[trigger] from[m],
                forall|j: int| 0 <= j < i && is_latest_q(e, id, (#[trigger] e[j]).1@, j) ==> exists|k: int|
                    0 <= k < from.len() && #[trigger] from[k] == j,
            decreases n - i,
        {
            let ghost from0 = from;
            if self.q_table[i].0 == id {
                let mut later = false;
                let mut j: usize = i + 1;
                while j < n
                    invariant
                        e == self.q_table@,
                        n == e.len(),
                        i < j <= n,
                        later <==> exists|m: int| i < m < j && (#[trigger] e[m]).0 == id && e[m].1@ == e[i as int].1@,
                    decreases n - j,
                {
                    if self.q_table[j].0 == id && self.q_table[j].1 == self.q_table[i].1 {
                        later = true;
                    }
                    j += 1;
                }
                if !later {
                    let entry = QTableEntry { state_hash: self.q_table[i].1.clone(), action_values: self.q_table[i].2 };
                    q_values.push(entry);
                    proof {
                        from = from.push(i as int);
                        assert(is_latest_q(e, id, e[i as int].1@, i as int));
                        assert(from[from.len() - 1] == i);
                    }
                }
            }
            proof {
                assert forall|j: int| 0 <= j < i + 1 && is_latest_q(e, id, (#[trigger] e[j]).1@, j) implies exists|k: int|
                    0 <= k < from.len() && #[trigger] from[k] == j by {
                    if j < i {
                        let k = choose|k: int| 0 <= k < from0.len() && #[trigger] from0[k] == j;
                        assert(from[k] == from0[k]);
                    } else {
                        assert(from[from.len() - 1] == i);
                    }
                }
            }
            i += 1;
        }
        proof {
            let q = q_values@;
            assert forall|k: int| 0 <= k < q.len() implies {
                &&& self.stored_states(id).contains((#[trigger] q[k]).state_hash@)
                &&& q[k].action_values@ == self.q_of(id, q[k].state_hash@)
            } by {
                let f = from[k];
                assert(is_latest_q(e, id, q[k].state_hash@, f));
                assert(e[f].0 == id && e[f].1@ == q[k].state_hash@);
            }
            assert forall|h: Seq<char>| #[trigger] self.stored_states(id).contains(h) implies exists|k: int|
                0 <= k < q.len() && (#[trigger] q[k]).state_hash@ == h by {
                let i0 = choose|i0: int| 0 <= i0 < e.len() && (#[trigger] e[i0]).0 == id && e[i0].1@ == h;
                lemma_latest_exists(e, id, h, i0);
                let l = choose|l: int| is_latest_q(e, id, h, l);
                assert(is_latest_q(e, id, e[l].1@, l));
                let k = choose|k: int| 0 <= k < from.len() && #[trigger] from[k] == l;
                assert(is_latest_q(e, id, q[k].state_hash@, l));
            }
            assert forall|a: int, b: int| 0 <= a < b < q.len() implies (#[trigger] q[a]).state_hash@ != (#[trigger] q[b]).state_hash@ by {
                assert(from[a] < from[b]);
                assert(is_latest_q(e, id, q[a].state_hash@, from[a]));
                assert(is_latest_q(e, id, q[b].state_hash@, from[b]));
                if q[a].state_hash@ == q[b].state_hash@ {
                    assert(e[from[b]].0 == id);
                }
            }
        }
        q_values
    }

    /// The stored Q-values of the car whose identifier is the decimal text `car_id`: of the
    /// state `state_hash` alone (all zero when none are stored), or else one entry for each
    /// stored state of the car. An identifier that is not a `u128` is refused.
    pub fn query_q_values(&self, car_id: String, state_hash: Option<String>) -> (r: Result<GetQResponse, CarError>)
        ensures
            r is Err <==> !is_u128_text(car_id@),
            r matches Err(e) ==> (e matches CarError::InvalidCarId { car_id: c } && c@ == car_id@),
            r matches Ok(resp) ==> resp.car_id@ == car_id@,
            (r matches Ok(resp) ==> match state_hash {
                Some(h) => {
                    &&& resp.q_values@.len() == 1
                    &&& resp.q_values@[0].state_hash@ == h@
                    &&& resp.q_values@[0].action_values@ == self.q_of(digits_value(unsigned_digits(car_id@)) as u128, h@)
                },
                None => self.is_car_table(digits_value(unsigned_digits(car_id@)) as u128, resp.q_values@),
            }),
    {
        let id = match parse_u128(&car_id) {
            Some(n) => n,
            None => return Err(CarError::InvalidCarId { car_id }),
        };
        assert(id == digits_value(unsigned_digits(car_id@)) as u128);
        let q_values = match state_hash {
            Some(h) => {
                let mut v: Vec<QTableEntry> = Vec::new();
                v.push(self.q_entry(id, h));
                v
            },
            None => self.q_entries_of_car(id),
        };
        Ok(GetQResponse { car_id, q_values })
    }

    /// Identifiers of all cars in ascending order, in decimal.
    pub fn query_all_tokens(&self) -> (r: AllTokensResponse)
        ensures
            r.tokens@.len() == self.cars().len(),
            forall|i: int| 0 <= i < r.tokens@.len() ==> (#[trigger] r.tokens@[i])@ == decimal(i as nat),
    {
        let mut tokens: Vec<String> = Vec::new();
        let mut i: usize = 0;
        while i < self.cars.len()
            invariant
                i <= self.cars@.len(),
                tokens@.len() == i,
                forall|j: int| 0 <= j < i ==> (#[trigger] tokens@[j])@ == decimal(j as nat),
            decreases self.cars@.len() - i,
        {
            tokens.push(u128_to_decimal(i as u128));
            i += 1;
        }
        AllTokensResponse { tokens }
    }
}

} // verus!
