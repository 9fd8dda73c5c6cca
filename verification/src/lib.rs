//! Verified core of a grid-racing game: track tiles, track validation and
//! distance preprocessing, Q-learning updates, car ownership registries and
//! bounded race histories.

pub mod car;
pub mod grid;
pub mod nft;
pub mod race;
pub mod search;
pub mod table;
pub mod text;
pub mod tile;
pub mod track;
pub mod track_manager;
pub mod trainer;
pub mod training;
pub mod types;
