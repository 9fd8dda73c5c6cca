use vstd::prelude::*;

verus! {

/// Q-values of one state, as exchanged with the car contract.
#[derive(Clone, Debug)]
pub struct QTableEntry {
    /// Hash representing the state of the car
    pub state_hash: String,
    /// Q-values for all 4 actions [Up, Down, Left, Right]
    pub action_values: [i32; 4],
}

#[derive(Clone, Debug)]
pub struct GetQResponse {
    pub car_id: String,
    pub q_values: Vec<QTableEntry>,
}

/// Rewards for finishing in each place.
#[derive(Clone, Copy, Debug, PartialEq, Eq, Structural)]
pub struct RankReward {
    pub first: i32,
    pub second: i32,
    pub third: i32,
    pub other: i32,
}

/// Reward values used while racing with training enabled.
#[derive(Clone, Copy, Debug, PartialEq, Eq, Structural)]
pub struct RewardNumbers {
    pub distance: i32,
    pub stuck: i32,
    pub wall: i32,
    pub no_move: i32,
    pub explore: i32,
    pub rank: RankReward,
}

/// Stage-specific rewards for track progression.
#[derive(Clone, Copy, Debug, PartialEq, Eq, Structural)]
pub struct StageRewards {
    pub early_stage_reward: i32,
    pub middle_stage_reward: i32,
    pub late_stage_reward: i32,
    pub finish_reward: i32,
}

/// Training strategy.
#[derive(Clone, Copy, Debug, PartialEq, Eq, Structural)]
pub enum TrainingType {
    AntiStuck,
    Progressive,
    Enhanced,
    Balanced,
    Custom,
}

#[derive(Clone, Copy, Debug, PartialEq, Eq, Structural)]
pub enum TournamentCriteria {
    Random,
    TopTrained { min_training_updates: u32 },
    AllCars,
}

#[derive(Clone, Copy, Debug, PartialEq, Eq, Structural)]
pub enum TournamentStatus {
    NotStarted,
    InProgress,
    Completed,
}

#[derive(Clone, Debug)]
pub struct TournamentMatch {
    pub match_id: String,
    pub car1: String,
    pub car2: String,
    pub winner: Option<String>,
    pub completed: bool,
}

#[derive(Clone, Debug)]
pub struct TournamentResult {
    pub car_id: String,
    pub rank: u32,
    pub wins: u32,
    pub losses: u32,
}

#[derive(Clone, Debug)]
pub struct TournamentRanking {
    pub car_id: String,
    pub rank: u32,
    pub wins: u32,
    pub losses: u32,
}

} // verus!
