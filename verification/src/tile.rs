use vstd::prelude::*;

verus! {

/// Speed modifier of an ordinary tile; larger values are boosts, smaller ones slow the car.
pub const NORMAL_SPEED: u32 = 2;

/// Speed modifier that a boost tile is usually created with.
pub const DEFAULT_BOOST_SPEED: u8 = 3;

/// Terrain properties of one tile of a track.
#[derive(Clone, Copy, Debug, PartialEq, Eq, Structural)]
pub struct TileProperties {
    /// Speed modifier (2 = normal, 1 = slow, 3 = boost, etc.)
    pub speed_modifier: u32,
    /// Whether this tile blocks movement
    pub blocks_movement: bool,
    /// Whether this tile causes the car to skip the next turn
    pub skip_next_turn: bool,
    /// Damage dealt to a car entering this tile (negative for healing)
    pub damage: i32,
    /// Whether this tile is a finish line
    pub is_finish: bool,
    /// Whether this tile is a start line
    pub is_start: bool,
}

/// The properties of a plain tile: normal speed and no special effect.
pub open spec fn plain_tile() -> TileProperties {
    TileProperties {
        speed_modifier: NORMAL_SPEED,
        blocks_movement: false,
        skip_next_turn: false,
        damage: 0,
        is_finish: false,
        is_start: false,
    }
}

impl Default for TileProperties {
    fn default() -> (t: Self)
        ensures
            t == plain_tile(),
    {
        TileProperties {
            speed_modifier: NORMAL_SPEED,
            blocks_movement: false,
            skip_next_turn: false,
            damage: 0,
            is_finish: false,
            is_start: false,
        }
    }
}

impl TileProperties {
    /// Create a normal tile
    pub fn normal() -> (t: Self)
        ensures
            t == plain_tile(),
    {
        Self::default()
    }

    /// Create a boost tile
    pub fn boost(speed_modifier: u32) -> (t: Self)
        ensures
            t == (TileProperties { speed_modifier, ..plain_tile() }),
    {
        TileProperties { speed_modifier, ..Self::default() }
    }

    /// Create a sticky tile
    pub fn sticky() -> (t: Self)
        ensures
            t == (TileProperties { skip_next_turn: true, ..plain_tile() }),
    {
        TileProperties { skip_next_turn: true, ..Self::default() }
    }

    /// Create a wall tile
    pub fn wall() -> (t: Self)
        ensures
            t == (TileProperties { blocks_movement: true, ..plain_tile() }),
    {
        TileProperties { blocks_movement: true, ..Self::default() }
    }

    /// Create a finish tile
    pub fn finish() -> (t: Self)
        ensures
            t == (TileProperties { is_finish: true, ..plain_tile() }),
    {
        TileProperties { is_finish: true, ..Self::default() }
    }

    /// Create a start tile
    pub fn start() -> (t: Self)
        ensures
            t == (TileProperties { is_start: true, ..plain_tile() }),
    {
        TileProperties { is_start: true, ..Self::default() }
    }

    /// Create a damage tile (e.g., spikes)
    pub fn damage(damage_amount: i32) -> (t: Self)
        ensures
            t == (TileProperties { damage: damage_amount, ..plain_tile() }),
    {
        TileProperties { damage: damage_amount, ..Self::default() }
    }

    /// Create a healing tile: healing is negative damage.
    pub fn healing(heal_amount: i32) -> (t: Self)
        requires
            heal_amount != i32::MIN,
        ensures
            t == (TileProperties { damage: -heal_amount as i32, ..plain_tile() }),
    {
        TileProperties { damage: -heal_amount, ..Self::default() }
    }

    /// Get the effective speed modifier for this tile
    pub fn get_speed_modifier(&self) -> (r: u32)
        ensures
            r == self.speed_modifier,
    {
        self.speed_modifier
    }

    /// Check if this tile blocks movement
    pub fn blocks_movement(&self) -> (r: bool)
        ensures
            r == self.blocks_movement,
    {
        self.blocks_movement
    }

    /// Check if this tile causes the car to skip the next turn
    pub fn skip_next_turn(&self) -> (r: bool)
        ensures
            r == self.skip_next_turn,
    {
        self.skip_next_turn
    }

    /// Get the damage/healing amount for this tile
    pub fn get_damage(&self) -> (r: i32)
        ensures
            r == self.damage,
    {
        self.damage
    }

    /// Check if this tile is a finish line
    pub fn is_finish(&self) -> (r: bool)
        ensures
            r == self.is_finish,
    {
        self.is_finish
    }

    /// Check if this tile is a start line
    pub fn is_start(&self) -> (r: bool)
        ensures
            r == self.is_start,
    {
        self.is_start
    }
}

/// A tile of a stored track, with its distance to the nearest finish tile.
#[derive(Clone, Copy, Debug, PartialEq, Eq, Structural)]
pub struct TrackTile {
    /// Properties of the track tile
    pub properties: TileProperties,
    /// Progress towards the finish line in positions
    pub progress_towards_finish: u16,
    /// x position of the tile
    pub x: u8,
    /// y position of the tile
    pub y: u8,
}

} // verus!
