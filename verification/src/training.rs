use vstd::prelude::*;

use crate::text::{decimal, u128_to_decimal};
use crate::trainer::{
    TrainerError,
    lemma_q_step_in_range, q_in_range, q_step, reward_value, simple_random, updates_of, RewardType, TrainerState, ACTION_COUNT,
};
use vstd::string::StringExecFns;

verus! {

/// The anti-stuck rules of a training configuration: after `stuck_threshold` consecutive
/// moves other than forward the car is forced forward, and after `force_forward_after`
/// consecutive forward moves it may explore among the first four actions.
#[derive(Clone, Copy, Debug, PartialEq, Eq, Structural)]
pub struct TrainingRules {
    pub stuck_threshold: u32,
    pub force_forward_after: u32,
    pub enable_anti_stuck: bool,
}

/// Running totals of a training session.
#[derive(Clone, Copy, Debug, PartialEq, Eq, Structural)]
pub struct TrainingTotals {
    pub total_updates: i32,
    pub total_reward: i32,
    pub optimal_actions: i32,
    pub stuck_actions: i32,
}

/// A training session may start only when the car has none running.
pub fn check_no_active_session(car_id: &String, session_active: bool) -> (r: Result<(), TrainerError>)
    ensures
        r is Err <==> session_active,
        r matches Err(e) ==> (e matches TrainerError::TrainingSessionAlreadyActive { car_id: c } && c@ == car_id@),
{
    if session_active {
        Err(TrainerError::TrainingSessionAlreadyActive { car_id: car_id.clone() })
    } else {
        Ok(())
    }
}

/// The track a training session runs on: the requested one, or `default_track`.
pub fn training_track_id(track_id: Option<String>) -> (t: String)
    ensures
        t@ == match track_id {
            Some(id) => id@,
            None => "default_track"@,
        },
{
    match track_id {
        Some(id) => id,
        None => String::from_str("default_track"),
    }
}

/// The draw of step `step` of a round, in `0..1000`.
pub open spec fn step_draw(step: int) -> int {
    ((1103515245 * step + 12345) % 0x1_0000_0000) % 1000
}

/// Action taken at `step` after `forward` consecutive forward moves and `non_forward`
/// consecutive other moves, where `explore` says whether the step explores.
pub open spec fn choose_action(rules: TrainingRules, forward: int, non_forward: int, explore: bool, step: int) -> u8 {
    if rules.enable_anti_stuck && non_forward >= rules.stuck_threshold {
        0
    } else if rules.enable_anti_stuck && forward >= rules.force_forward_after {
        if explore { (step % 4) as u8 } else { 0 }
    } else if explore {
        (step % 5) as u8
    } else {
        0
    }
}

/// Chooses the action of a training step.
pub fn select_action(rules: &TrainingRules, forward: u32, non_forward: u32, explore: bool, step: u32) -> (a: u8)
    ensures
        a == choose_action(*rules, forward as int, non_forward as int, explore, step as int),
        a < ACTION_COUNT,
{
    if rules.enable_anti_stuck && non_forward >= rules.stuck_threshold {
        0
    } else if rules.enable_anti_stuck && forward >= rules.force_forward_after {
        if explore { (step % 4) as u8 } else { 0 }
    } else if explore {
        (step % 5) as u8
    } else {
        0
    }
}

/// A step explores when its draw is below `explore_below`.
pub open spec fn explores(explore_below: u32, step: int) -> bool {
    step_draw(step) < explore_below
}

/// Counters after the first `j` steps of a round: consecutive forward moves, consecutive
/// other moves, forward moves, and other moves made at or past the stuck threshold.
pub open spec fn round_counters(rules: TrainingRules, explore_below: u32, j: int) -> (int, int, int, int)
    decreases j,
{
    if j <= 0 {
        (0, 0, 0, 0)
    } else {
        let c = round_counters(rules, explore_below, j - 1);
        if choose_action(rules, c.0, c.1, explores(explore_below, j - 1), j - 1) == 0 {
            (c.0 + 1, 0, c.2 + 1, c.3)
        } else {
            (0, c.1 + 1, c.2, if c.1 + 1 >= rules.stuck_threshold { c.3 + 1 } else { c.3 })
        }
    }
}

/// Action taken at step `j` of a round.
pub open spec fn round_action(rules: TrainingRules, explore_below: u32, j: int) -> u8 {
    let c = round_counters(rules, explore_below, j);
    choose_action(rules, c.0, c.1, explores(explore_below, j), j)
}

proof fn lemma_round_counters(rules: TrainingRules, explore_below: u32, j: int)
    requires
        j >= 0,
    ensures
        ({
            let c = round_counters(rules, explore_below, j);
            &&& 0 <= c.0 <= j
            &&& 0 <= c.1 <= j
            &&& 0 <= c.2 <= j
            &&& 0 <= c.3 <= j
        }),
    decreases j,
{
    if j > 0 {
        lemma_round_counters(rules, explore_below, j - 1);
    }
}

/// Name of the state at `step` of `round`: `training_{round}_{step}`.
pub open spec fn training_state(round: int, step: int) -> Seq<char> {
    "training_"@ + decimal(round as nat) + "_"@ + decimal(step as nat)
}

/// State after `step` in a round of `steps` steps; none after the last step.
pub open spec fn training_next(round: int, step: int, steps: int) -> Option<Seq<char>> {
    if step + 1 < steps {
        Some(training_state(round, step + 1))
    } else {
        None
    }
}

/// Q-table after the first `j` steps of a round rewarded by `rewards`.
pub open spec fn round_q(
    q: Map<(Seq<char>, Seq<char>), Seq<i32>>,
    car: Seq<char>,
    rules: TrainingRules,
    round: int,
    explore_below: u32,
    rewards: Seq<RewardType>,
    j: int,
) -> Map<(Seq<char>, Seq<char>), Seq<i32>>
    decreases j,
{
    if j <= 0 {
        q
    } else {
        q_step(
            round_q(q, car, rules, round, explore_below, rewards, j - 1),
            car,
            training_state(round, j - 1),
            round_action(rules, explore_below, j - 1) as int,
            reward_value(rewards[j - 1]),
            training_next(round, j - 1, rewards.len() as int),
        )
    }
}

/// Step `j` of a round is one learning step, as `execute_update_q_value` makes it, of the car
/// in `training_{round}_{j}` with the step's action and reward, whose next state is
/// `training_{round}_{j + 1}` (its best Q-value at that moment enters the update) for every
/// step but the last, which has none.
pub proof fn lemma_round_step(
    q: Map<(Seq<char>, Seq<char>), Seq<i32>>,
    car: Seq<char>,
    rules: TrainingRules,
    round: int,
    explore_below: u32,
    rewards: Seq<RewardType>,
    j: int,
)
    requires
        0 <= j < rewards.len(),
    ensures
        round_q(q, car, rules, round, explore_below, rewards, j + 1) == q_step(
            round_q(q, car, rules, round, explore_below, rewards, j),
            car,
            "training_"@ + decimal(round as nat) + "_"@ + decimal(j as nat),
            round_action(rules, explore_below, j) as int,
            reward_value(rewards[j]),
            if j + 1 < rewards.len() {
                Some("training_"@ + decimal(round as nat) + "_"@ + decimal((j + 1) as nat))
            } else {
                None
            },
        ),
{
}

/// A training round keeps every Q-value of the table in `[MIN_Q_VALUE, MAX_Q_VALUE]`.
pub proof fn lemma_round_in_range(
    q: Map<(Seq<char>, Seq<char>), Seq<i32>>,
    car: Seq<char>,
    rules: TrainingRules,
    round: int,
    explore_below: u32,
    rewards: Seq<RewardType>,
    j: int,
)
    requires
        q_in_range(q),
    ensures
        q_in_range(round_q(q, car, rules, round, explore_below, rewards, j)),
    decreases j,
{
    if j > 0 {
        lemma_round_in_range(q, car, rules, round, explore_below, rewards, j - 1);
        let a = round_action(rules, explore_below, j - 1);
        assert(a < ACTION_COUNT);
        lemma_q_step_in_range(
            round_q(q, car, rules, round, explore_below, rewards, j - 1),
            car,
            training_state(round, j - 1),
            a as int,
            reward_value(rewards[j - 1]),
            training_next(round, j - 1, rewards.len() as int),
        );
    }
}

/// Sum of the first `j` rewards.
pub open spec fn reward_sum(rewards: Seq<RewardType>, j: int) -> int
    decreases j,
{
    if j <= 0 {
        0
    } else {
        reward_sum(rewards, j - 1) + reward_value(rewards[j - 1])
    }
}

/// A round of `rewards.len()` steps keeps the car's update count and every running total
/// within their types.
pub open spec fn round_fits(stats: Map<Seq<char>, u32>, car: Seq<char>, totals: TrainingTotals, rewards: Seq<RewardType>) -> bool {
    let n = rewards.len() as int;
    &&& updates_of(stats, car) + n <= u32::MAX
    &&& totals.total_updates + n <= i32::MAX
    &&& totals.optimal_actions + n <= i32::MAX
    &&& totals.stuck_actions + n <= i32::MAX
    &&& forall|j: int| 0 <= j <= n ==> i32::MIN <= totals.total_reward + #[trigger] reward_sum(rewards, j) <= i32::MAX
}

/// Update counts after `n` more updates of `car`.
pub open spec fn stats_after(stats: Map<Seq<char>, u32>, car: Seq<char>, n: int) -> Map<Seq<char>, u32> {
    if n == 0 {
        stats
    } else {
        stats.insert(car, (updates_of(stats, car) + n) as u32)
    }
}

fn training_state_name(round: u32, step: u32) -> (s: String)
    ensures
        s@ == training_state(round as int, step as int),
{
    let mut s = String::from_str("training_");
    let r = u128_to_decimal(round as u128);
    s.append(r.as_str());
    s.append("_");
    let t = u128_to_decimal(step as u128);
    s.append(t.as_str());
    s
}

impl TrainerState {
    /// Whether a round rewarded by `rewards` fits the car's update count and the totals.
    pub fn training_round_fits(&self, car_id: &String, totals: &TrainingTotals, rewards: &Vec<RewardType>) -> (b: bool)
        ensures
            b == round_fits(self.stats_view(), car_id@, *totals, rewards@),
    {
        let n = rewards.len();
        let count: u64 = match self.get_training_stats(car_id) {
            Some(c) => c as u64,
            None => 0,
        };
        if n as u64 > u32::MAX as u64 - count {
            return false;
        }
        if n as i64 > i32::MAX as i64 - totals.total_updates as i64
            || n as i64 > i32::MAX as i64 - totals.optimal_actions as i64
            || n as i64 > i32::MAX as i64 - totals.stuck_actions as i64 {
            return false;
        }
        let mut sum: i64 = totals.total_reward as i64;
        let mut j: usize = 0;
        while j < n
            invariant
                n == rewards@.len(),
                j <= n,
                sum == totals.total_reward + reward_sum(rewards@, j as int),
                forall|k: int| 0 <= k <= j ==> i32::MIN <= totals.total_reward + #[trigger] reward_sum(rewards@, k) <= i32::MAX,
            decreases n - j,
        {
            let r = crate::trainer::calculate_reward(rewards[j]);
            sum = sum + r as i64;
            if sum < i32::MIN as i64 || sum > i32::MAX as i64 {
                assert(!(i32::MIN <= totals.total_reward + reward_sum(rewards@, j + 1) <= i32::MAX));
                return false;
            }
            j += 1;
        }
        true
    }

    /// One training round: step `s` is in state `training_{round}_{s}`, is rewarded by
    /// `rewards[s]`, explores when its draw `simple_random(s, 1000)` is below `explore_below`,
    /// chooses its action by the anti-stuck rules, and updates the Q-table as
    /// `execute_update_q_value` does. The totals grow by the round's figures.
    pub fn execute_training_round(
        &mut self,
        car_id: &String,
        rules: &TrainingRules,
        round: u32,
        explore_below: u32,
        rewards: &Vec<RewardType>,
        totals: &mut TrainingTotals,
    )
        requires
            round_fits(old(self).stats_view(), car_id@, *old(totals), rewards@),
        ensures
            final(self).q_view() == round_q(old(self).q_view(), car_id@, *rules, round as int, explore_below, rewards@, rewards@.len() as int),
            final(self).stats_view() == stats_after(old(self).stats_view(), car_id@, rewards@.len() as int),
            final(self).results_view() == old(self).results_view(),
            final(self).admin() == old(self).admin(),
            ({
                let c = round_counters(*rules, explore_below, rewards@.len() as int);
                &&& final(totals).total_updates == old(totals).total_updates + rewards@.len()
                &&& final(totals).total_reward == old(totals).total_reward + reward_sum(rewards@, rewards@.len() as int)
                &&& final(totals).optimal_actions == old(totals).optimal_actions + c.2
                &&& final(totals).stuck_actions == old(totals).stuck_actions + c.3
            }),
    {
        let ghost q0 = self.q_view();
        let ghost s0 = self.stats_view();
        let ghost t0 = *totals;
        let ghost car = car_id@;
        let n = rewards.len();
        let mut forward: u32 = 0;
        let mut non_forward: u32 = 0;
        let mut i: usize = 0;
        while i < n
            invariant
                n == rewards@.len(),
                i <= n,
                round_fits(s0, car, t0, rewards@),
                car == car_id@,
                self.q_view() == round_q(q0, car, *rules, round as int, explore_below, rewards@, i as int),
                self.stats_view() == stats_after(s0, car, i as int),
                self.results_view() == old(self).results_view(),
                self.admin() == old(self).admin(),
                ({
                    let c = round_counters(*rules, explore_below, i as int);
                    &&& forward == c.0
                    &&& non_forward == c.1
                    &&& totals.total_updates == t0.total_updates + i
                    &&& totals.total_reward == t0.total_reward + reward_sum(rewards@, i as int)
                    &&& totals.optimal_actions == t0.optimal_actions + c.2
                    &&& totals.stuck_actions == t0.stuck_actions + c.3
                }),
            decreases n - i,
        {
            proof {
                lemma_round_counters(*rules, explore_below, i as int);
                lemma_round_counters(*rules, explore_below, i + 1);
            }
            let step = i as u32;
            let explore = simple_random(step, 1000) < explore_below;
            let action = select_action(rules, forward, non_forward, explore, step);
            let state = training_state_name(round, step);
            let next = if i + 1 < n {
                Some(training_state_name(round, step + 1))
            } else {
                None
            };
            let reward = crate::trainer::calculate_reward(rewards[i]);
            assert(updates_of(self.stats_view(), car) == updates_of(s0, car) + i);
            self.apply_update(car_id, state, action, reward, &next);
            assert(self.stats_view() =~= stats_after(s0, car, i + 1));
            totals.total_updates = totals.total_updates + 1;
            assert(reward_sum(rewards@, i + 1) == reward_sum(rewards@, i as int) + reward);
            totals.total_reward = totals.total_reward + reward;
            if action == 0 {
                forward = forward + 1;
                non_forward = 0;
                totals.optimal_actions = totals.optimal_actions + 1;
            } else {
                non_forward = non_forward + 1;
                forward = 0;
                if non_forward >= rules.stuck_threshold {
                    totals.stuck_actions = totals.stuck_actions + 1;
                }
            }
            i += 1;
        }
    }
}

} // verus!
