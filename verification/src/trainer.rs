use vstd::prelude::*;

use crate::table::{name_map, pair_map, NameTable, PairTable};
use crate::text::{decimal, hex_encode, hex_lower, u128_to_decimal};
use vstd::string::StringExecFns;
use vstd::utf8::encode_utf8;

verus! {

/// Upper bound of a stored Q-value.
pub const MAX_Q_VALUE: i32 = 100;

/// Lower bound of a stored Q-value.
pub const MIN_Q_VALUE: i32 = -100;

/// Number of actions a car can take: Forward, Up, Down, Left, Stay.
pub const ACTION_COUNT: u8 = 5;

pub const STUCK_PENALTY: i32 = -5;
pub const WALL_PENALTY: i32 = -8;
pub const NO_MOVE_PENALTY: i32 = -2;
pub const EXPLORATION_BONUS: i32 = 6;

/// Kind of reward that a training step received.
#[derive(Clone, Copy, Debug, PartialEq, Eq, Structural)]
pub enum RewardType {
    /// Distance-based reward with specific value
    Distance(i32),
    /// Penalty for getting stuck
    Stuck,
    /// Penalty for hitting a wall
    Wall,
    /// Penalty for no movement
    NoMove,
    /// Bonus for exploration
    Explore,
    /// Rank-based reward (0 = 1st place, 1 = 2nd place, ...)
    Rank(u8),
}

#[derive(Clone, Debug)]
pub struct InstantiateMsg {
    /// The admin address that can control the trainer contract
    pub admin: String,
}

/// Errors of the trainer.
#[derive(Clone, Debug)]
pub enum TrainerError {
    InvalidAction { action: usize },
    TrainingSessionAlreadyActive { car_id: String },
    TrainingSessionNotFound { car_id: String },
    InvalidTrainingConfig,
    InvalidRewardConfig,
}

/// Description of an error.
pub open spec fn error_message(e: TrainerError) -> Seq<char> {
    match e {
        TrainerError::InvalidAction { action } => "Invalid action: "@ + decimal(action as nat),
        TrainerError::TrainingSessionAlreadyActive { car_id } => "Training session already active for car: "@ + car_id@,
        TrainerError::TrainingSessionNotFound { car_id } => "Training session not found for car: "@ + car_id@,
        TrainerError::InvalidTrainingConfig => "Invalid training configuration"@,
        TrainerError::InvalidRewardConfig => "Invalid reward configuration"@,
    }
}

impl TrainerError {
    /// Description of the error.
    pub fn message(&self) -> (s: String)
        ensures
            s@ == error_message(*self),
    {
        match self {
            TrainerError::InvalidAction { action } => {
                let mut s = String::from_str("Invalid action: ");
                let n = u128_to_decimal(*action as u128);
                s.append(n.as_str());
                s
            },
            TrainerError::TrainingSessionAlreadyActive { car_id } => {
                let mut s = String::from_str("Training session already active for car: ");
                s.append(car_id.as_str());
                s
            },
            TrainerError::TrainingSessionNotFound { car_id } => {
                let mut s = String::from_str("Training session not found for car: ");
                s.append(car_id.as_str());
                s
            },
            TrainerError::InvalidTrainingConfig => String::from_str("Invalid training configuration"),
            TrainerError::InvalidRewardConfig => String::from_str("Invalid reward configuration"),
        }
    }
}

/// Reward for finishing in the given place: 100, 50, 25 and 10 for the first four places,
/// nothing for later places.
pub open spec fn rank_reward(rank: u8) -> i32 {
    if rank == 0 {
        100
    } else if rank == 1 {
        50
    } else if rank == 2 {
        25
    } else if rank == 3 {
        10
    } else {
        0
    }
}

/// Numeric reward of a reward type.
pub open spec fn reward_value(reward_type: RewardType) -> i32 {
    match reward_type {
        RewardType::Distance(v) => v,
        RewardType::Stuck => STUCK_PENALTY,
        RewardType::Wall => WALL_PENALTY,
        RewardType::NoMove => NO_MOVE_PENALTY,
        RewardType::Explore => EXPLORATION_BONUS,
        RewardType::Rank(r) => rank_reward(r),
    }
}

/// Numeric reward of a reward type.
pub fn calculate_reward(reward_type: RewardType) -> (r: i32)
    ensures
        r == reward_value(reward_type),
{
    match reward_type {
        RewardType::Distance(val) => val,
        RewardType::Stuck => STUCK_PENALTY,
        RewardType::Wall => WALL_PENALTY,
        RewardType::NoMove => NO_MOVE_PENALTY,
        RewardType::Explore => EXPLORATION_BONUS,
        RewardType::Rank(rank) => {
            if rank == 0 {
                100
            } else if rank == 1 {
                50
            } else if rank == 2 {
                25
            } else if rank == 3 {
                10
            } else {
                0
            }
        },
    }
}

/// `num / den` rounded to the nearest integer, halves away from zero.
pub open spec fn round_div(num: int, den: int) -> int {
    if num >= 0 {
        (2 * num + den) / (2 * den)
    } else {
        -((2 * (-num) + den) / (2 * den))
    }
}

/// The Q-learning target `Q + α (r + γ max Q' - Q)` with learning rate `α = 1/10` and
/// discount `γ = 9/10`, rounded to the nearest integer (halves away from zero).
pub open spec fn q_target(old: int, reward: int, max_next: int) -> int {
    round_div(90 * old + 10 * reward + 9 * max_next, 100)
}

/// `v` brought into `[MIN_Q_VALUE, MAX_Q_VALUE]`.
pub open spec fn clamp_q(v: int) -> int {
    if v < MIN_Q_VALUE {
        MIN_Q_VALUE as int
    } else if v > MAX_Q_VALUE {
        MAX_Q_VALUE as int
    } else {
        v
    }
}

/// The new value of a Q-table entry after one learning step.
pub open spec fn updated_q(old: i32, reward: i32, max_next: i32) -> i32 {
    clamp_q(q_target(old as int, reward as int, max_next as int)) as i32
}

/// New value of a Q-table entry after one learning step:
/// `Q + α (r + γ max Q' - Q)` with `α = 1/10`, `γ = 9/10`, rounded to the nearest integer
/// and clamped to `[MIN_Q_VALUE, MAX_Q_VALUE]`.
pub fn q_learning_value(old_value: i32, reward: i32, max_next_q: i32) -> (r: i32)
    ensures
        r == updated_q(old_value, reward, max_next_q),
        MIN_Q_VALUE <= r <= MAX_Q_VALUE,
{
    let num: i64 = 90 * (old_value as i64) + 10 * (reward as i64) + 9 * (max_next_q as i64);
    let rounded: i64 = if num >= 0 {
        (2 * num + 100) / 200
    } else {
        -((2 * (-num) + 100) / 200)
    };
    if rounded < MIN_Q_VALUE as i64 {
        MIN_Q_VALUE
    } else if rounded > MAX_Q_VALUE as i64 {
        MAX_Q_VALUE
    } else {
        rounded as i32
    }
}

/// One learning step computes the exact value `0.9 Q + 0.1 (r + 0.9 m)`, that is
/// `(90 Q + 10 r + 9 m) / 100`, for any old value `Q`, reward `r` and best next value `m`
/// (negative ones included). It rounds it to the nearest integer, halves away from zero, and
/// brings it into `[-100, 100]`.
pub proof fn lemma_q_update_rounds_exact_value(old: i32, reward: i32, max_next: i32)
    ensures
        ({
            let x = 90 * old + 10 * reward + 9 * max_next;
            let r = updated_q(old, reward, max_next) as int;
            &&& -10000 <= x <= 10000 ==> -50 <= 100 * r - x <= 50
            &&& -10000 <= x <= 10000 && 100 * r - x == 50 ==> x > 0
            &&& -10000 <= x <= 10000 && 100 * r - x == -50 ==> x < 0
            &&& x > 10000 ==> r == 100
            &&& x < -10000 ==> r == -100
        }),
{
    let x = 90 * old + 10 * reward + 9 * max_next;
    if x >= 0 {
        let q = (2 * x + 100) / 200;
        assert(200 * q <= 2 * x + 100 < 200 * q + 200) by (nonlinear_arith)
            requires
                q == (2 * x + 100) / 200,
                x >= 0,
        ;
    } else {
        let q = (2 * (-x) + 100) / 200;
        assert(200 * q <= 2 * (-x) + 100 < 200 * q + 200) by (nonlinear_arith)
            requires
                q == (2 * (-x) + 100) / 200,
                x < 0,
        ;
    }
}

/// Largest of the Q-values of a state.
pub open spec fn max_q(q: Seq<i32>) -> i32
    decreases q.len(),
{
    if q.len() <= 1 {
        if q.len() == 0 { 0 } else { q[0] }
    } else {
        let m = max_q(q.drop_last());
        if q.last() > m { q.last() } else { m }
    }
}

/// The best Q-value of a state is one of its values and no smaller than any of them.
pub proof fn lemma_max_q(q: Seq<i32>)
    requires
        q.len() > 0,
    ensures
        exists|i: int| 0 <= i < q.len() && q[i] == max_q(q),
        forall|i: int| 0 <= i < q.len() ==> q[i] <= max_q(q),
    decreases q.len(),
{
    if q.len() > 1 {
        let p = q.drop_last();
        lemma_max_q(p);
        assert forall|i: int| 0 <= i < q.len() implies q[i] <= max_q(q) by {
            if i < q.len() - 1 {
                assert(q[i] == p[i]);
            }
        }
        if q.last() <= max_q(p) {
            let i = choose|i: int| 0 <= i < p.len() && p[i] == max_q(p);
            assert(q[i] == p[i]);
        } else {
            assert(q[q.len() - 1] == max_q(q));
        }
    } else {
        assert(q[0] == max_q(q));
    }
}

/// Largest of the five Q-values of a state.
pub fn max_q_value(q: &[i32; 5]) -> (m: i32)
    ensures
        m == max_q(q@),
        exists|i: int| 0 <= i < 5 && q@[i] == m,
        forall|i: int| 0 <= i < 5 ==> q@[i] <= m,
{
    let mut m = q[0];
    let mut i: usize = 1;
    assert(q@.take(1).drop_last() =~= Seq::<i32>::empty());
    while i < 5
        invariant
            1 <= i <= 5,
            q@.len() == 5,
            m == max_q(q@.take(i as int)),
        decreases 5 - i,
    {
        assert(q@.take(i + 1).drop_last() =~= q@.take(i as int));
        assert(q@.take(i + 1).last() == q@[i as int]);
        if q[i] > m {
            m = q[i];
        }
        i += 1;
    }
    assert(q@.take(5) =~= q@);
    proof {
        lemma_max_q(q@);
    }
    m
}

/// The Q-values of a state, all zero for a state never trained.
pub open spec fn stored_q(q: Map<(Seq<char>, Seq<char>), Seq<i32>>, car: Seq<char>, state: Seq<char>) -> Seq<i32> {
    if q.contains_key((car, state)) {
        q[(car, state)]
    } else {
        Seq::new(5, |i: int| 0i32)
    }
}

/// Largest Q-value of the next state, or 0 when there is no next state.
pub open spec fn next_max(q: Map<(Seq<char>, Seq<char>), Seq<i32>>, car: Seq<char>, next: Option<Seq<char>>) -> i32 {
    match next {
        Some(n) => max_q(stored_q(q, car, n)),
        None => 0,
    }
}

/// The Q-table after one learning step of `car` in `state` with `action` and `reward`.
pub open spec fn q_step(
    q: Map<(Seq<char>, Seq<char>), Seq<i32>>,
    car: Seq<char>,
    state: Seq<char>,
    action: int,
    reward: i32,
    next: Option<Seq<char>>,
) -> Map<(Seq<char>, Seq<char>), Seq<i32>> {
    let cur = stored_q(q, car, state);
    q.insert((car, state), cur.update(action, updated_q(cur[action], reward, next_max(q, car, next))))
}

/// Every state of the table has five Q-values, each in `[MIN_Q_VALUE, MAX_Q_VALUE]`.
pub open spec fn q_in_range(q: Map<(Seq<char>, Seq<char>), Seq<i32>>) -> bool {
    &&& forall|k: (Seq<char>, Seq<char>)| #[trigger] q.contains_key(k) ==> q[k].len() == ACTION_COUNT
    &&& forall|k: (Seq<char>, Seq<char>), i: int|
        q.contains_key(k) && 0 <= i < q[k].len() ==> MIN_Q_VALUE <= #[trigger] q[k][i] <= MAX_Q_VALUE
}

/// A learning step keeps every Q-value of the table in `[MIN_Q_VALUE, MAX_Q_VALUE]`.
pub proof fn lemma_q_step_in_range(
    q: Map<(Seq<char>, Seq<char>), Seq<i32>>,
    car: Seq<char>,
    state: Seq<char>,
    action: int,
    reward: i32,
    next: Option<Seq<char>>,
)
    requires
        q_in_range(q),
        0 <= action < ACTION_COUNT,
    ensures
        q_in_range(q_step(q, car, state, action, reward, next)),
{
    let cur = stored_q(q, car, state);
    let v = updated_q(cur[action], reward, next_max(q, car, next));
    let q2 = q_step(q, car, state, action, reward, next);
    assert(MIN_Q_VALUE <= v <= MAX_Q_VALUE);
    assert(cur.len() == ACTION_COUNT);
    assert forall|k: (Seq<char>, Seq<char>), i: int| q2.contains_key(k) && 0 <= i < q2[k].len() implies MIN_Q_VALUE <= #[trigger] q2[k][i] <= MAX_Q_VALUE by {
        if k == (car, state) {
            if i != action {
                assert(q2[k][i] == cur[i]);
                if !q.contains_key(k) {
                    assert(cur[i] == 0);
                }
            }
        }
    }
}

/// Number of training updates recorded for `car`.
pub open spec fn updates_of(stats: Map<Seq<char>, u32>, car: Seq<char>) -> int {
    if stats.contains_key(car) {
        stats[car] as int
    } else {
        0
    }
}

/// One learning step of a batch; states are identified by 32-byte hashes.
#[derive(Clone, Debug)]
pub struct QUpdate {
    /// Unique identifier for the car being trained
    pub car_id: String,
    /// Hash representing the current state of the car
    pub state_hash: String,
    /// Action taken (0..5)
    pub action: u8,
    /// Type and value of reward received for this action
    pub reward_type: RewardType,
    /// Hash of the next state (None if terminal state)
    pub next_state_hash: Option<String>,
}

/// Q-table key of a state hash in a batch: its UTF-8 bytes in lower-case hexadecimal.
pub open spec fn batch_key(hash: Seq<char>) -> Seq<char> {
    hex_lower(encode_utf8(hash))
}

pub open spec fn update_state(u: QUpdate) -> Seq<char> {
    batch_key(u.state_hash@)
}

pub open spec fn update_next(u: QUpdate) -> Option<Seq<char>> {
    match u.next_state_hash {
        Some(h) => Some(batch_key(h@)),
        None => None,
    }
}

/// Q-table after the updates, applied in order.
pub open spec fn batch_q(q: Map<(Seq<char>, Seq<char>), Seq<i32>>, us: Seq<QUpdate>) -> Map<(Seq<char>, Seq<char>), Seq<i32>>
    decreases us.len(),
{
    if us.len() == 0 {
        q
    } else {
        let u = us.last();
        q_step(batch_q(q, us.drop_last()), u.car_id@, update_state(u), u.action as int, reward_value(u.reward_type), update_next(u))
    }
}

/// Update counts after the updates, applied in order.
pub open spec fn batch_stats(stats: Map<Seq<char>, u32>, us: Seq<QUpdate>) -> Map<Seq<char>, u32>
    decreases us.len(),
{
    if us.len() == 0 {
        stats
    } else {
        let prev = batch_stats(stats, us.drop_last());
        let car = us.last().car_id@;
        prev.insert(car, (updates_of(prev, car) + 1) as u32)
    }
}

/// Sum of the rewards of the updates.
pub open spec fn batch_reward(us: Seq<QUpdate>) -> int
    decreases us.len(),
{
    if us.len() == 0 {
        0
    } else {
        batch_reward(us.drop_last()) + reward_value(us.last().reward_type)
    }
}

/// Applying the updates in order keeps every update count below `u32::MAX` before it is
/// raised, and every running total of the rewards and the number of updates within `i32`.
pub open spec fn batch_fits(stats: Map<Seq<char>, u32>, us: Seq<QUpdate>) -> bool
    decreases us.len(),
{
    if us.len() == 0 {
        true
    } else {
        &&& batch_fits(stats, us.drop_last())
        &&& updates_of(batch_stats(stats, us.drop_last()), us.last().car_id@) < u32::MAX
        &&& i32::MIN <= batch_reward(us) <= i32::MAX
        &&& us.len() <= i32::MAX
    }
}

/// `j` is the position of the first update with an invalid action, or the length when all
/// actions are valid.
pub open spec fn first_invalid(us: Seq<QUpdate>, j: int) -> bool {
    &&& 0 <= j <= us.len()
    &&& forall|k: int| 0 <= k < j ==> (#[trigger] us[k]).action < ACTION_COUNT
    &&& j < us.len() ==> us[j].action >= ACTION_COUNT
}

proof fn lemma_first_invalid_unique(us: Seq<QUpdate>, j1: int, j2: int)
    requires
        first_invalid(us, j1),
        first_invalid(us, j2),
    ensures
        j1 == j2,
{
    if j1 < j2 {
        assert(us[j1].action < ACTION_COUNT);
    } else if j2 < j1 {
        assert(us[j2].action < ACTION_COUNT);
    }
}

proof fn lemma_fits_prefix(stats: Map<Seq<char>, u32>, us: Seq<QUpdate>, i: int)
    requires
        batch_fits(stats, us),
        0 <= i <= us.len(),
    ensures
        batch_fits(stats, us.take(i)),
    decreases us.len(),
{
    if i == us.len() {
        assert(us.take(i) =~= us);
    } else {
        assert(us.drop_last().take(i) =~= us.take(i));
        lemma_fits_prefix(stats, us.drop_last(), i);
    }
}

/// Applying a batch is applying its updates one at a time: a batch ending in `u` is the
/// batch without `u` followed by the single step `u`.
pub proof fn lemma_batch_is_sequential(
    q: Map<(Seq<char>, Seq<char>), Seq<i32>>,
    stats: Map<Seq<char>, u32>,
    us: Seq<QUpdate>,
    u: QUpdate,
)
    ensures
        batch_q(q, us.push(u)) == q_step(batch_q(q, us), u.car_id@, update_state(u), u.action as int, reward_value(u.reward_type), update_next(u)),
        batch_stats(stats, us.push(u)) == batch_stats(stats, us).insert(u.car_id@, (updates_of(batch_stats(stats, us), u.car_id@) + 1) as u32),
        batch_reward(us.push(u)) == batch_reward(us) + reward_value(u.reward_type),
{
    assert(us.push(u).drop_last() =~= us);
}

/// Number of updates of `car` in the batch.
pub open spec fn updates_for(us: Seq<QUpdate>, car: Seq<char>) -> int
    decreases us.len(),
{
    if us.len() == 0 {
        0
    } else {
        updates_for(us.drop_last(), car) + if us.last().car_id@ == car { 1int } else { 0int }
    }
}

/// Applying a batch raises each car's update count by the number of its updates in the batch.
pub proof fn lemma_batch_counts(stats: Map<Seq<char>, u32>, us: Seq<QUpdate>, car: Seq<char>)
    requires
        batch_fits(stats, us),
    ensures
        updates_of(batch_stats(stats, us), car) == updates_of(stats, car) + updates_for(us, car),
    decreases us.len(),
{
    if us.len() > 0 {
        lemma_batch_counts(stats, us.drop_last(), car);
    }
}

/// Applying a batch keeps every Q-value of the table in `[MIN_Q_VALUE, MAX_Q_VALUE]`.
pub proof fn lemma_batch_in_range(q: Map<(Seq<char>, Seq<char>), Seq<i32>>, us: Seq<QUpdate>)
    requires
        q_in_range(q),
        forall|j: int| 0 <= j < us.len() ==> (#[trigger] us[j]).action < ACTION_COUNT,
    ensures
        q_in_range(batch_q(q, us)),
    decreases us.len(),
{
    if us.len() > 0 {
        let u = us.last();
        assert(u == us[us.len() - 1]);
        assert forall|j: int| 0 <= j < us.drop_last().len() implies (#[trigger] us.drop_last()[j]).action < ACTION_COUNT by {
            assert(us.drop_last()[j] == us[j]);
        }
        lemma_batch_in_range(q, us.drop_last());
        lemma_q_step_in_range(batch_q(q, us.drop_last()), u.car_id@, update_state(u), u.action as int, reward_value(u.reward_type), update_next(u));
    }
}

/// Attributes reported for one learning step.
#[derive(Clone, Copy, Debug, PartialEq, Eq, Structural)]
pub struct QValueUpdate {
    pub old_value: i32,
    pub new_value: i32,
    pub reward: i32,
}

/// Attributes reported for a batch of learning steps.
#[derive(Clone, Copy, Debug, PartialEq, Eq, Structural)]
pub struct BatchUpdateSummary {
    pub total_updates: i32,
    pub total_reward: i32,
}

#[derive(Clone, Debug)]
pub struct GetCarTrainingStatsResponse {
    pub car_id: String,
    pub training_updates: u32,
}

#[derive(Clone, Debug)]
pub struct GetTrackResultsResponse {
    pub car_id: String,
    pub track_id: String,
    pub wins: u32,
    pub losses: u32,
}

#[derive(Clone, Debug)]
pub struct GetQValueResponse {
    pub car_id: String,
    pub state_hash: String,
    pub q_values: [i32; 5],
}

/// State of the trainer: Q-values per (car, state), number of training updates per car,
/// and wins and losses per (car, track).
pub struct TrainerState {
    admin: String,
    q_table: PairTable<[i32; 5]>,
    training_stats: NameTable<u32>,
    track_results: PairTable<(u32, u32)>,
}

impl TrainerState {
    /// Q-values per (car, state).
    pub closed spec fn q_view(&self) -> Map<(Seq<char>, Seq<char>), Seq<i32>> {
        self.q_table@.map_values(|v: [i32; 5]| v@)
    }

    /// Number of training updates per car.
    pub closed spec fn stats_view(&self) -> Map<Seq<char>, u32> {
        self.training_stats@
    }

    /// Wins and losses per (car, track).
    pub closed spec fn results_view(&self) -> Map<(Seq<char>, Seq<char>), (u32, u32)> {
        self.track_results@
    }

    pub closed spec fn admin(&self) -> Seq<char> {
        self.admin@
    }

    /// A trainer with no Q-values, statistics or results, administered by the (validated)
    /// `msg.admin`.
    pub fn instantiate(msg: InstantiateMsg) -> (s: Self)
        ensures
            s.q_view() == Map::<(Seq<char>, Seq<char>), Seq<i32>>::empty(),
            s.stats_view() == Map::<Seq<char>, u32>::empty(),
            s.results_view() == Map::<(Seq<char>, Seq<char>), (u32, u32)>::empty(),
            s.admin() == msg.admin@,
    {
        let s = TrainerState {
            admin: msg.admin,
            q_table: PairTable::new(),
            training_stats: NameTable::new(),
            track_results: PairTable::new(),
        };
        assert(s.q_view() =~= Map::<(Seq<char>, Seq<char>), Seq<i32>>::empty());
        s
    }

    /// A trainer holding the given entries: Q-values per (car, state), update counts per car,
    /// and wins and losses per (car, track); later entries win.
    pub fn from_parts(
        admin: String,
        q_values: Vec<(String, String, [i32; 5])>,
        training_stats: Vec<(String, u32)>,
        track_results: Vec<(String, String, (u32, u32))>,
    ) -> (s: Self)
        ensures
            s.q_view() == pair_map(q_values@).map_values(|v: [i32; 5]| v@),
            s.stats_view() == name_map(training_stats@),
            s.results_view() == pair_map(track_results@),
            s.admin() == admin@,
    {
        TrainerState {
            admin,
            q_table: PairTable::from_entries(q_values),
            training_stats: NameTable::from_entries(training_stats),
            track_results: PairTable::from_entries(track_results),
        }
    }

    /// The admin and the entries of the trainer, as `from_parts` takes them.
    pub fn into_parts(self) -> (r: (String, Vec<(String, String, [i32; 5])>, Vec<(String, u32)>, Vec<(String, String, (u32, u32))>))
        ensures
            r.0@ == self.admin(),
            pair_map(r.1@).map_values(|v: [i32; 5]| v@) == self.q_view(),
            name_map(r.2@) == self.stats_view(),
            pair_map(r.3@) == self.results_view(),
    {
        (self.admin, self.q_table.into_entries(), self.training_stats.into_entries(), self.track_results.into_entries())
    }

    /// The Q-values stored for `state` of `car`, if any.
    pub fn get_q_values(&self, car_id: &String, state_hash: &String) -> (r: Option<[i32; 5]>)
        ensures
            r is Some == self.q_view().contains_key((car_id@, state_hash@)),
            r matches Some(v) ==> v@ == self.q_view()[(car_id@, state_hash@)],
    {
        self.q_table.get(car_id, state_hash)
    }

    /// Stores the Q-values of `state` of `car`.
    pub fn set_q_values(&mut self, car_id: String, state_hash: String, q_values: [i32; 5])
        ensures
            final(self).q_view() == old(self).q_view().insert((car_id@, state_hash@), q_values@),
            final(self).stats_view() == old(self).stats_view(),
            final(self).results_view() == old(self).results_view(),
            final(self).admin() == old(self).admin(),
    {
        let ghost before = self.q_view();
        let ghost key = (car_id@, state_hash@);
        self.q_table.set(car_id, state_hash, q_values);
        assert(self.q_view() =~= before.insert(key, q_values@));
    }

    /// Number of training updates of `car`, if any was recorded.
    pub fn get_training_stats(&self, car_id: &String) -> (r: Option<u32>)
        ensures
            r is Some == self.stats_view().contains_key(car_id@),
            r matches Some(n) ==> n == self.stats_view()[car_id@],
    {
        self.training_stats.get(car_id)
    }

    /// Records one more training update of `car` and returns the new count.
    pub fn increment_training_stats(&mut self, car_id: &String) -> (n: u32)
        requires
            updates_of(old(self).stats_view(), car_id@) < u32::MAX,
        ensures
            n == updates_of(old(self).stats_view(), car_id@) + 1,
            final(self).stats_view() == old(self).stats_view().insert(car_id@, n),
            final(self).q_view() == old(self).q_view(),
            final(self).results_view() == old(self).results_view(),
            final(self).admin() == old(self).admin(),
    {
        let current = match self.training_stats.get(car_id) {
            Some(n) => n,
            None => 0,
        };
        let new_count = current + 1;
        self.training_stats.set(car_id.clone(), new_count);
        new_count
    }

    /// Wins and losses of `car` on `track`, if any were recorded.
    pub fn get_track_results(&self, car_id: &String, track_id: &String) -> (r: Option<(u32, u32)>)
        ensures
            r is Some == self.results_view().contains_key((car_id@, track_id@)),
            r matches Some(p) ==> p == self.results_view()[(car_id@, track_id@)],
    {
        self.track_results.get(car_id, track_id)
    }

    /// Records a win (`won`) or a loss of `car` on `track`; returns the new wins and losses.
    pub fn update_track_results(&mut self, car_id: &String, track_id: &String, won: bool) -> (r: (u32, u32))
        requires
            ({
                let p = if old(self).results_view().contains_key((car_id@, track_id@)) {
                    old(self).results_view()[(car_id@, track_id@)]
                } else {
                    (0u32, 0u32)
                };
                if won { p.0 < u32::MAX } else { p.1 < u32::MAX }
            }),
        ensures
            ({
                let p = if old(self).results_view().contains_key((car_id@, track_id@)) {
                    old(self).results_view()[(car_id@, track_id@)]
                } else {
                    (0u32, 0u32)
                };
                &&& r == if won { ((p.0 + 1) as u32, p.1) } else { (p.0, (p.1 + 1) as u32) }
                &&& final(self).results_view() == old(self).results_view().insert((car_id@, track_id@), r)
            }),
            final(self).q_view() == old(self).q_view(),
            final(self).stats_view() == old(self).stats_view(),
            final(self).admin() == old(self).admin(),
    {
        let (mut wins, mut losses) = match self.track_results.get(car_id, track_id) {
            Some(p) => p,
            None => (0, 0),
        };
        if won {
            wins += 1;
        } else {
            losses += 1;
        }
        self.track_results.set(car_id.clone(), track_id.clone(), (wins, losses));
        (wins, losses)
    }

    /// One learning step; the action must be valid.
    pub(crate) fn apply_update(
        &mut self,
        car_id: &String,
        state_hash: String,
        action: u8,
        reward: i32,
        next_state_hash: &Option<String>,
    ) -> (r: QValueUpdate)
        requires
            action < ACTION_COUNT,
            updates_of(old(self).stats_view(), car_id@) < u32::MAX,
        ensures
            ({
                let next = match next_state_hash { Some(h) => Some(h@), None => None };
                let cur = stored_q(old(self).q_view(), car_id@, state_hash@);
                &&& final(self).q_view() == q_step(old(self).q_view(), car_id@, state_hash@, action as int, reward, next)
                &&& r.old_value == cur[action as int]
                &&& r.new_value == updated_q(cur[action as int], reward, next_max(old(self).q_view(), car_id@, next))
                &&& r.reward == reward
            }),
            final(self).stats_view() == old(self).stats_view().insert(car_id@, (updates_of(old(self).stats_view(), car_id@) + 1) as u32),
            final(self).results_view() == old(self).results_view(),
            final(self).admin() == old(self).admin(),
    {
        let ghost q0 = self.q_view();
        let ghost next = match next_state_hash { Some(h) => Some(h@), None => None };
        let mut q_values: [i32; 5] = match self.q_table.get(car_id, &state_hash) {
            Some(v) => v,
            None => [0; 5],
        };
        assert(q_values@ == stored_q(q0, car_id@, state_hash@)) by {
            if !q0.contains_key((car_id@, state_hash@)) {
                assert(q_values@ =~= Seq::new(5, |i: int| 0i32));
            }
        }
        let max_next_q = match next_state_hash {
            Some(next_hash) => {
                let next_q: [i32; 5] = match self.q_table.get(car_id, next_hash) {
                    Some(v) => v,
                    None => [0; 5],
                };
                assert(next_q@ == stored_q(q0, car_id@, next_hash@)) by {
                    if !q0.contains_key((car_id@, next_hash@)) {
                        assert(next_q@ =~= Seq::new(5, |i: int| 0i32));
                    }
                }
                max_q_value(&next_q)
            },
            None => 0,
        };
        let old_value = q_values[action as usize];
        let new_value = q_learning_value(old_value, reward, max_next_q);
        q_values[action as usize] = new_value;
        self.set_q_values(car_id.clone(), state_hash, q_values);
        self.increment_training_stats(car_id);
        QValueUpdate { old_value, new_value, reward }
    }

    /// One learning step of `car` in `state`: the Q-value of `action` moves towards the
    /// reward plus the discounted best Q-value of the next state, and the car's update count
    /// grows by one. An action outside `0..5` is refused and changes nothing.
    pub fn execute_update_q_value(
        &mut self,
        car_id: String,
        state_hash: String,
        action: u8,
        reward_type: RewardType,
        next_state_hash: Option<String>,
    ) -> (r: Result<QValueUpdate, TrainerError>)
        requires
            action < ACTION_COUNT ==> updates_of(old(self).stats_view(), car_id@) < u32::MAX,
        ensures
            r is Err <==> action >= ACTION_COUNT,
            r matches Err(e) ==> (e matches TrainerError::InvalidAction { action: a } && a == action),
            r is Err ==> final(self).q_view() == old(self).q_view() && final(self).stats_view() == old(self).stats_view(),
            (r matches Ok(u) ==> {
                let next = match next_state_hash { Some(h) => Some(h@), None => None };
                let cur = stored_q(old(self).q_view(), car_id@, state_hash@);
                let reward = reward_value(reward_type);
                &&& final(self).q_view() == q_step(old(self).q_view(), car_id@, state_hash@, action as int, reward, next)
                &&& final(self).stats_view() == old(self).stats_view().insert(car_id@, (updates_of(old(self).stats_view(), car_id@) + 1) as u32)
                &&& u.old_value == cur[action as int]
                &&& u.new_value == updated_q(cur[action as int], reward, next_max(old(self).q_view(), car_id@, next))
                &&& u.reward == reward
            }),
            final(self).results_view() == old(self).results_view(),
            final(self).admin() == old(self).admin(),
    {
        if action >= ACTION_COUNT {
            return Err(TrainerError::InvalidAction { action: action as usize });
        }
        let reward = calculate_reward(reward_type);
        Ok(self.apply_update(&car_id, state_hash, action, reward, &next_state_hash))
    }

    /// Applies the learning steps in order, each as `execute_update_q_value` does, with the
    /// hashes written in lower-case hexadecimal as Q-table keys. At the first invalid action
    /// the batch stops with that action as the error; the steps before it stay applied.
    pub fn execute_batch_update_q_values(&mut self, updates: Vec<QUpdate>) -> (r: Result<BatchUpdateSummary, TrainerError>)
        requires
            forall|j: int| first_invalid(updates@, j) ==> batch_fits(old(self).stats_view(), updates@.take(j)),
        ensures
            r is Err <==> exists|j: int| 0 <= j < updates@.len() && (#[trigger] updates@[j]).action >= ACTION_COUNT,
            (r matches Err(e) ==> exists|j: int| #[trigger] first_invalid(updates@, j) && j < updates@.len() && {
                &&& e matches TrainerError::InvalidAction { action: a } && a == updates@[j].action
                &&& final(self).q_view() == batch_q(old(self).q_view(), updates@.take(j))
                &&& final(self).stats_view() == batch_stats(old(self).stats_view(), updates@.take(j))
            }),
            (r matches Ok(s) ==> {
                &&& final(self).q_view() == batch_q(old(self).q_view(), updates@)
                &&& final(self).stats_view() == batch_stats(old(self).stats_view(), updates@)
                &&& s.total_updates == updates@.len()
                &&& s.total_reward == batch_reward(updates@)
            }),
            final(self).results_view() == old(self).results_view(),
            final(self).admin() == old(self).admin(),
    {
        let n = updates.len();
        let mut j0: usize = 0;
        while j0 < n && updates[j0].action < ACTION_COUNT
            invariant
                n == updates@.len(),
                j0 <= n,
                forall|k: int| 0 <= k < j0 ==> (#[trigger] updates@[k]).action < ACTION_COUNT,
            decreases n - j0,
        {
            j0 += 1;
        }
        assert(first_invalid(updates@, j0 as int));
        let ghost q0 = self.q_view();
        let ghost s0 = self.stats_view();
        let ghost prefix = updates@.take(j0 as int);
        assert(batch_fits(s0, prefix));
        let mut total_updates: i32 = 0;
        let mut total_reward: i32 = 0;
        let mut i: usize = 0;
        assert(updates@.take(0) =~= Seq::<QUpdate>::empty());
        while i < j0
            invariant
                n == updates@.len(),
                i <= j0 <= n,
                prefix == updates@.take(j0 as int),
                forall|k: int| 0 <= k < j0 ==> (#[trigger] updates@[k]).action < ACTION_COUNT,
                batch_fits(s0, prefix),
                self.q_view() == batch_q(q0, updates@.take(i as int)),
                self.stats_view() == batch_stats(s0, updates@.take(i as int)),
                self.results_view() == old(self).results_view(),
                self.admin() == old(self).admin(),
                total_updates == i,
                total_reward == batch_reward(updates@.take(i as int)),
            decreases j0 - i,
        {
            let u = &updates[i];
            let ghost t = updates@.take(i + 1);
            proof {
                lemma_fits_prefix(s0, prefix, i + 1);
                assert(prefix.take(i + 1) =~= t);
                assert(t.drop_last() =~= updates@.take(i as int));
                assert(t.last() == updates@[i as int]);
            }
            let reward = calculate_reward(u.reward_type);
            let state_key = hex_encode(&u.state_hash);
            let next_key = match &u.next_state_hash {
                Some(h) => Some(hex_encode(h)),
                None => None,
            };
            self.apply_update(&u.car_id, state_key, u.action, reward, &next_key);
            total_updates += 1;
            total_reward += reward;
            i += 1;
        }
        if j0 < n {
            return Err(TrainerError::InvalidAction { action: updates[j0].action as usize });
        }
        assert(updates@.take(n as int) =~= updates@);
        Ok(BatchUpdateSummary { total_updates, total_reward })
    }

    /// Whether the updates before the first invalid action keep every update count and every
    /// running total within its type, as `execute_batch_update_q_values` requires.
    pub fn batch_fits_check(&self, updates: &Vec<QUpdate>) -> (b: bool)
        ensures
            b <==> forall|j: int| first_invalid(updates@, j) ==> batch_fits(self.stats_view(), updates@.take(j)),
    {
        let ghost s0 = self.stats_view();
        let n = updates.len();
        let mut j0: usize = 0;
        while j0 < n && updates[j0].action < ACTION_COUNT
            invariant
                n == updates@.len(),
                j0 <= n,
                forall|k: int| 0 <= k < j0 ==> (#[trigger] updates@[k]).action < ACTION_COUNT,
            decreases n - j0,
        {
            j0 += 1;
        }
        assert(first_invalid(updates@, j0 as int));
        assert forall|j: int| first_invalid(updates@, j) implies j == j0 by {
            lemma_first_invalid_unique(updates@, j, j0 as int);
        }
        let mut counts: NameTable<u32> = NameTable::new();
        let mut sum: i64 = 0;
        let mut i: usize = 0;
        assert(updates@.take(0) =~= Seq::<QUpdate>::empty());
        while i < j0
            invariant
                n == updates@.len(),
                j0 <= n,
                i <= j0,
                first_invalid(updates@, j0 as int),
                s0 == self.stats_view(),
                batch_fits(s0, updates@.take(i as int)),
                sum == batch_reward(updates@.take(i as int)),
                i32::MIN <= sum <= i32::MAX,
                forall|c: Seq<char>| #[trigger] updates_of(batch_stats(s0, updates@.take(i as int)), c) == if counts@.contains_key(c) {
                    counts@[c] as int
                } else {
                    updates_of(s0, c)
                },
            decreases j0 - i,
        {
            let u = &updates[i];
            let ghost t = updates@.take(i + 1);
            assert(t.drop_last() =~= updates@.take(i as int));
            assert(t.last() == updates@[i as int]);
            let current: u32 = match counts.get(&u.car_id) {
                Some(c) => c,
                None => match self.training_stats.get(&u.car_id) {
                    Some(c) => c,
                    None => 0,
                },
            };
            assert(current == updates_of(batch_stats(s0, updates@.take(i as int)), u.car_id@));
            if current == u32::MAX {
                assert(!batch_fits(s0, t));
                proof {
                    if batch_fits(s0, updates@.take(j0 as int)) {
                        lemma_fits_prefix(s0, updates@.take(j0 as int), i + 1);
                        assert(updates@.take(j0 as int).take(i + 1) =~= t);
                    }
                }
                return false;
            }
            let r = calculate_reward(u.reward_type);
            sum = sum + r as i64;
            if sum < i32::MIN as i64 || sum > i32::MAX as i64 || i + 1 > i32::MAX as usize {
                assert(!batch_fits(s0, t));
                proof {
                    if batch_fits(s0, updates@.take(j0 as int)) {
                        lemma_fits_prefix(s0, updates@.take(j0 as int), i + 1);
                        assert(updates@.take(j0 as int).take(i + 1) =~= t);
                    }
                }
                return false;
            }
            let ghost before = counts@;
            counts.set(u.car_id.clone(), current + 1);
            proof {
                let bs = batch_stats(s0, updates@.take(i as int));
                assert forall|c: Seq<char>| #[trigger] updates_of(batch_stats(s0, t), c) == if counts@.contains_key(c) {
                    counts@[c] as int
                } else {
                    updates_of(s0, c)
                } by {
                    assert(updates_of(bs, c) == if before.contains_key(c) { before[c] as int } else { updates_of(s0, c) });
                }
                assert(batch_fits(s0, t));
            }
            i += 1;
        }
        true
    }

    /// Number of training updates of `car` (0 when none was recorded).
    pub fn query_car_training_stats(&self, car_id: String) -> (r: GetCarTrainingStatsResponse)
        ensures
            r.car_id@ == car_id@,
            r.training_updates == updates_of(self.stats_view(), car_id@),
    {
        let updates = match self.training_stats.get(&car_id) {
            Some(n) => n,
            None => 0,
        };
        GetCarTrainingStatsResponse { car_id, training_updates: updates }
    }

    /// Wins and losses of `car` on `track` (0 and 0 when none were recorded).
    pub fn query_track_results(&self, car_id: String, track_id: String) -> (r: GetTrackResultsResponse)
        ensures
            r.car_id@ == car_id@,
            r.track_id@ == track_id@,
            self.results_view().contains_key((car_id@, track_id@)) ==> (r.wins, r.losses) == self.results_view()[(car_id@, track_id@)],
            !self.results_view().contains_key((car_id@, track_id@)) ==> r.wins == 0 && r.losses == 0,
    {
        let (wins, losses) = match self.track_results.get(&car_id, &track_id) {
            Some(p) => p,
            None => (0, 0),
        };
        GetTrackResultsResponse { car_id, track_id, wins, losses }
    }

    /// Q-values of `state` of `car` (all zero for a state never trained).
    pub fn query_q_value(&self, car_id: String, state_hash: String) -> (r: GetQValueResponse)
        ensures
            r.car_id@ == car_id@,
            r.state_hash@ == state_hash@,
            r.q_values@ == stored_q(self.q_view(), car_id@, state_hash@),
    {
        let q_values: [i32; 5] = match self.q_table.get(&car_id, &state_hash) {
            Some(v) => v,
            None => [0; 5],
        };
        assert(q_values@ == stored_q(self.q_view(), car_id@, state_hash@)) by {
            if !self.q_view().contains_key((car_id@, state_hash@)) {
                assert(q_values@ =~= Seq::new(5, |i: int| 0i32));
            }
        }
        GetQValueResponse { car_id, state_hash, q_values }
    }
}

/// Linear congruential generator used to drive training steps deterministically:
/// `(1103515245 * seed + 12345) mod 2^32`, reduced modulo `modulus`.
pub fn simple_random(seed: u32, modulus: u32) -> (r: u32)
    requires
        modulus > 0,
    ensures
        r == ((1103515245 * seed + 12345) % 0x1_0000_0000) % (modulus as int),
        r < modulus,
{
    let a: u32 = 1103515245;
    let c: u32 = 12345;
    let v = a.wrapping_mul(seed).wrapping_add(c);
    proof {
        let p = 0x1_0000_0000int;
        assert(a.wrapping_mul(seed) == (a * seed) % p);
        assert(v == ((a * seed) % p + c) % p);
        vstd::arithmetic::div_mod::lemma_add_mod_noop(a * seed, c as int, p);
    }
    v % modulus
}

} // verus!
