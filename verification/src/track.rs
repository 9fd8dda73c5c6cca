use vstd::prelude::*;

use crate::grid::{count_grid, count_where, in_grid, is_grid};
use crate::search::{
    best_via, finish_goal, lemma_best_via, lemma_reaches_some_finish, lemma_reaches_wider_goal, lemma_reverse_walk,
    level_search, min_steps, point_goal, reaches_from, step_value,
};
use crate::tile::{TileProperties, TrackTile, NORMAL_SPEED};

verus! {

/// Reasons for refusing a track.
#[derive(Clone, Copy, Debug, PartialEq, Eq, Structural)]
pub enum TrackManagerError {
    InvalidTrackDimensions { width: u8, height: u8 },
    NoFinishTile,
    NoStartTile,
    NoAccessiblePath,
    TrackTooSmall { width: u8, height: u8 },
    TrackTooLarge { width: u8, height: u8 },
    TrackNotFound { track_id: u128 },
}

/// Smallest accepted width and height of a track.
pub const MIN_TRACK_SIDE: u8 = 3;

/// Largest accepted width and height of a track.
pub const MAX_TRACK_SIDE: u8 = 50;

/// The layout has `height` rows of `width` tiles.
pub open spec fn layout_ok(l: Seq<Vec<TileProperties>>, width: u8, height: u8) -> bool {
    is_grid(l, width as int, height as int)
}

pub open spec fn tile_of(l: Seq<Vec<TileProperties>>, x: int, y: int) -> TileProperties {
    l[y]@[x]
}

/// Movement checks in the reachability search compare signed 8-bit coordinates; on a track
/// with a side of 128 or more every neighbour fails that comparison.
pub open spec fn small_track(width: u8, height: u8) -> bool {
    width < 128 && height < 128
}

/// Whether a walk from `(x, y)` can reach a finish tile, as the reachability search decides it.
pub open spec fn can_reach_spec(l: Seq<Vec<TileProperties>>, width: u8, height: u8, x: int, y: int) -> bool {
    if small_track(width, height) {
        exists|k: nat| #[trigger] reaches_from(l, finish_goal(l), width as int, height as int, x, y, k)
    } else {
        tile_of(l, x, y).is_finish
    }
}

/// Coordinates whose signed 8-bit neighbour computation overflows.
pub open spec fn bad_coord(x: int, y: int) -> bool {
    x == 127 || x == 128 || y == 127 || y == 128
}

/// `(x, y)` gives the progress value that the track stores for it: 0 on a finish tile,
/// `u16::MAX` on any other wall, and otherwise the least number of moves to a finish tile.
pub open spec fn progress_ok(l: Seq<Vec<TileProperties>>, width: u8, height: u8, x: int, y: int, d: u16) -> bool {
    if tile_of(l, x, y).is_finish {
        d == 0
    } else if tile_of(l, x, y).blocks_movement {
        d == u16::MAX
    } else {
        min_steps(l, finish_goal(l), width as int, height as int, x, y, d)
    }
}

fn finish_mask(layout: &Vec<Vec<TileProperties>>, width: u8, height: u8) -> (mask: Vec<Vec<bool>>)
    requires
        layout_ok(layout@, width, height),
    ensures
        is_grid(mask@, width as int, height as int),
        forall|x: int, y: int|
            in_grid(width as int, height as int, x, y) ==> #[trigger] mask@[y]@[x] == (finish_goal(layout@))(x, y),
{
    let mut mask: Vec<Vec<bool>> = Vec::new();
    let mut y: usize = 0;
    while y < height as usize
        invariant
            layout_ok(layout@, width, height),
            y <= height,
            mask@.len() == y,
            forall|yy: int| 0 <= yy < y ==> #[trigger] mask@[yy]@.len() == width,
            forall|xx: int, yy: int|
                0 <= yy < y && 0 <= xx < width ==> #[trigger] mask@[yy]@[xx] == layout@[yy]@[xx].is_finish,
        decreases height - y,
    {
        let mut row: Vec<bool> = Vec::new();
        let mut x: usize = 0;
        while x < width as usize
            invariant
                layout_ok(layout@, width, height),
                y < height,
                x <= width,
                row@.len() == x,
                forall|xx: int| 0 <= xx < x ==> #[trigger] row@[xx] == layout@[y as int]@[xx].is_finish,
            decreases width - x,
        {
            row.push(layout[y][x].is_finish);
            x += 1;
        }
        mask.push(row);
        y += 1;
    }
    mask
}

fn point_mask(width: u8, height: u8, ex: u8, ey: u8) -> (mask: Vec<Vec<bool>>)
    ensures
        is_grid(mask@, width as int, height as int),
        forall|x: int, y: int|
            in_grid(width as int, height as int, x, y) ==> #[trigger] mask@[y]@[x] == (point_goal(ex as int, ey as int))(x, y),
{
    let mut mask: Vec<Vec<bool>> = Vec::new();
    let mut y: u8 = 0;
    while y < height
        invariant
            y <= height,
            mask@.len() == y,
            forall|yy: int| 0 <= yy < y ==> #[trigger] mask@[yy]@.len() == width,
            forall|xx: int, yy: int|
                0 <= yy < y && 0 <= xx < width ==> #[trigger] mask@[yy]@[xx] == (xx == ex && yy == ey),
        decreases height - y,
    {
        let mut row: Vec<bool> = Vec::new();
        let mut x: u8 = 0;
        while x < width
            invariant
                y < height,
                x <= width,
                row@.len() == x,
                forall|xx: int| 0 <= xx < x ==> #[trigger] row@[xx] == (xx == ex && y == ey),
            decreases width - x,
        {
            row.push(x == ex && y == ey);
            x += 1;
        }
        mask.push(row);
        y += 1;
    }
    mask
}

/// Checks whether a walk from the tile `(start_x, start_y)` through tiles that do not block
/// movement can reach a finish tile. The tile the walk starts on may itself block movement.
pub fn can_reach_finish(
    layout: &Vec<Vec<TileProperties>>,
    start_x: u8,
    start_y: u8,
    width: u8,
    height: u8,
) -> (r: bool)
    requires
        layout_ok(layout@, width, height),
        start_x < width,
        start_y < height,
        tile_of(layout@, start_x as int, start_y as int).is_finish || !bad_coord(start_x as int, start_y as int),
    ensures
        r == can_reach_spec(layout@, width, height, start_x as int, start_y as int),
{
    if width >= 128 || height >= 128 {
        return layout[start_y as usize][start_x as usize].is_finish;
    }
    let mask = finish_mask(layout, width, height);
    let dist = level_search(layout, &mask, width, height, Ghost(finish_goal(layout@)));
    let d = dist[start_y as usize][start_x as usize];
    proof {
        let l = layout@;
        let (x, y) = (start_x as int, start_y as int);
        assert(min_steps(l, finish_goal(l), width as int, height as int, x, y, d));
        if d != u16::MAX {
            assert(reaches_from(l, finish_goal(l), width as int, height as int, x, y, d as nat));
        }
    }
    d != u16::MAX
}

/// One more than the distance held at `(nx, ny)` when that tile is open and holds one, else
/// `u16::MAX`.
fn step_via(
    layout: &Vec<Vec<TileProperties>>,
    dist: &Vec<Vec<u16>>,
    width: u8,
    height: u8,
    nx: u16,
    ny: u16,
) -> (r: u16)
    requires
        layout_ok(layout@, width, height),
        is_grid(dist@, width as int, height as int),
        forall|x: int, y: int|
            in_grid(width as int, height as int, x, y) && #[trigger] dist@[y]@[x] != u16::MAX ==> dist@[y]@[x]
                <= 255 * 255 + 1,
    ensures
        r == step_value(layout@, dist@, width as int, height as int, nx as int, ny as int),
{
    if nx < width as u16 && ny < height as u16 {
        let v = dist[ny as usize][nx as usize];
        if !layout[ny as usize][nx as usize].blocks_movement && v != u16::MAX {
            assert(dist@[ny as int]@[nx as int] != u16::MAX ==> dist@[ny as int]@[nx as int] <= 255 * 255 + 1);
            return v + 1;
        }
    }
    u16::MAX
}

/// Least number of moves from `(start_x, start_y)` to `(end_x, end_y)` through tiles that do
/// not block movement (the start tile itself is not checked, and it may lie outside the
/// grid), or `u16::MAX` when the end cannot be reached.
pub fn astar_distance(
    start_x: u8,
    start_y: u8,
    end_x: u8,
    end_y: u8,
    layout: &Vec<Vec<TileProperties>>,
    width: u8,
    height: u8,
) -> (d: u16)
    requires
        layout_ok(layout@, width, height),
    ensures
        min_steps(layout@, point_goal(end_x as int, end_y as int), width as int, height as int, start_x as int, start_y as int, d),
{
    let mask = point_mask(width, height, end_x, end_y);
    let dist = level_search(layout, &mask, width, height, Ghost(point_goal(end_x as int, end_y as int)));
    if start_x < width && start_y < height {
        return dist[start_y as usize][start_x as usize];
    }
    if start_x == end_x && start_y == end_y {
        return 0;
    }
    // a start outside the grid: step onto one of its neighbours first
    let (sx, sy) = (start_x as u16, start_y as u16);
    let ghost (l, w, h, dv) = (layout@, width as int, height as int, dist@);
    let a = step_via(layout, &dist, width, height, sx, sy + 1);
    let b = if sy > 0 {
        step_via(layout, &dist, width, height, sx, sy - 1)
    } else {
        u16::MAX
    };
    let c = step_via(layout, &dist, width, height, sx + 1, sy);
    let e = if sx > 0 {
        step_via(layout, &dist, width, height, sx - 1, sy)
    } else {
        u16::MAX
    };
    let ab = if a <= b {
        a
    } else {
        b
    };
    let ce = if c <= e {
        c
    } else {
        e
    };
    let best = if ab <= ce {
        ab
    } else {
        ce
    };
    proof {
        let (x, y) = (start_x as int, start_y as int);
        assert(b == step_value(l, dv, w, h, x, y - 1));
        assert(e == step_value(l, dv, w, h, x - 1, y));
        assert(best == best_via(l, dv, w, h, x, y));
        lemma_best_via(l, point_goal(end_x as int, end_y as int), w, h, dv, x, y);
    }
    best
}

/// The distance stored for an open tile that is not a finish tile is the least of the
/// `astar_distance` values from that tile to each finish tile of the grid: it is at most each
/// of them, and unless it is `u16::MAX` (no finish tile can be reached) it equals the one to
/// some finish tile.
pub proof fn lemma_distance_is_nearest_finish(
    l: Seq<Vec<TileProperties>>,
    width: u8,
    height: u8,
    x: int,
    y: int,
    d: u16,
)
    requires
        layout_ok(l, width, height),
        in_grid(width as int, height as int, x, y),
        !tile_of(l, x, y).is_finish,
        !tile_of(l, x, y).blocks_movement,
        progress_ok(l, width, height, x, y, d),
    ensures
        forall|fx: int, fy: int, d2: u16|
            in_grid(width as int, height as int, fx, fy) && tile_of(l, fx, fy).is_finish && #[trigger] min_steps(
                l,
                point_goal(fx, fy),
                width as int,
                height as int,
                x,
                y,
                d2,
            ) ==> d <= d2,
        d != u16::MAX ==> exists|fx: int, fy: int|
            in_grid(width as int, height as int, fx, fy) && tile_of(l, fx, fy).is_finish && #[trigger] min_steps(
                l,
                point_goal(fx, fy),
                width as int,
                height as int,
                x,
                y,
                d,
            ),
{
    let (w, h) = (width as int, height as int);
    let fin = finish_goal(l);
    assert(min_steps(l, fin, w, h, x, y, d));
    assert forall|fx: int, fy: int, d2: u16|
        in_grid(w, h, fx, fy) && tile_of(l, fx, fy).is_finish && #[trigger] min_steps(
            l,
            point_goal(fx, fy),
            w,
            h,
            x,
            y,
            d2,
        ) implies d <= d2 by {
        if d2 != u16::MAX {
            assert forall|a: int, b: int| #[trigger] (point_goal(fx, fy))(a, b) implies fin(a, b) by {}
            lemma_reaches_wider_goal(l, point_goal(fx, fy), fin, w, h, x, y, d2 as nat);
            if d2 < d {
                assert(!reaches_from(l, fin, w, h, x, y, d2 as nat));
            }
        }
    }
    if d != u16::MAX {
        let f = lemma_reaches_some_finish(l, w, h, x, y, d as nat);
        let pg = point_goal(f.0, f.1);
        assert forall|a: int, b: int| #[trigger] pg(a, b) implies fin(a, b) by {}
        assert forall|j: nat| j < d implies !#[trigger] reaches_from(l, pg, w, h, x, y, j) by {
            if reaches_from(l, pg, w, h, x, y, j) {
                lemma_reaches_wider_goal(l, pg, fin, w, h, x, y, j);
            }
        }
        assert(min_steps(l, pg, w, h, x, y, d));
    }
}

/// Between two tiles that do not block movement, `astar_distance` is the same in both
/// directions: `d1` from `(ax, ay)` to `(bx, by)` equals `d2` from `(bx, by)` to `(ax, ay)`.
pub proof fn lemma_distance_symmetric(
    l: Seq<Vec<TileProperties>>,
    width: u8,
    height: u8,
    ax: int,
    ay: int,
    bx: int,
    by: int,
    d1: u16,
    d2: u16,
)
    requires
        layout_ok(l, width, height),
        in_grid(width as int, height as int, ax, ay),
        in_grid(width as int, height as int, bx, by),
        !tile_of(l, ax, ay).blocks_movement,
        !tile_of(l, bx, by).blocks_movement,
        min_steps(l, point_goal(bx, by), width as int, height as int, ax, ay, d1),
        min_steps(l, point_goal(ax, ay), width as int, height as int, bx, by, d2),
    ensures
        d1 == d2,
{
    let (w, h) = (width as int, height as int);
    if d1 != u16::MAX {
        lemma_reverse_walk(l, w, h, ax, ay, bx, by, d1 as nat);
        if d2 == u16::MAX || d1 < d2 {
            assert(reaches_from(l, point_goal(ax, ay), w, h, bx, by, d1 as nat));
        }
    }
    if d2 != u16::MAX {
        lemma_reverse_walk(l, w, h, bx, by, ax, ay, d2 as nat);
        if d1 == u16::MAX || d2 < d1 {
            assert(reaches_from(l, point_goal(bx, by), w, h, ax, ay, d2 as nat));
        }
    }
}

/// Distance from every tile to the nearest finish tile: 0 on finish tiles, `u16::MAX` on
/// walls and on tiles from which no finish tile can be reached.
pub fn calculate_distances_with_astar(
    layout: &Vec<Vec<TileProperties>>,
    width: u8,
    height: u8,
) -> (distances: Vec<Vec<u16>>)
    requires
        layout_ok(layout@, width, height),
    ensures
        is_grid(distances@, width as int, height as int),
        forall|x: int, y: int|
            in_grid(width as int, height as int, x, y) ==> #[trigger] progress_ok(
                layout@,
                width,
                height,
                x,
                y,
                distances@[y]@[x],
            ),
{
    let mask = finish_mask(layout, width, height);
    let dist = level_search(layout, &mask, width, height, Ghost(finish_goal(layout@)));
    let mut distances: Vec<Vec<u16>> = Vec::new();
    let mut y: usize = 0;
    while y < height as usize
        invariant
            layout_ok(layout@, width, height),
            is_grid(dist@, width as int, height as int),
            forall|x: int, y: int|
                in_grid(width as int, height as int, x, y) ==> #[trigger] min_steps(
                    layout@,
                    finish_goal(layout@),
                    width as int,
                    height as int,
                    x,
                    y,
                    dist@[y]@[x],
                ),
            y <= height,
            distances@.len() == y,
            forall|yy: int| 0 <= yy < y ==> #[trigger] distances@[yy]@.len() == width,
            forall|xx: int, yy: int|
                0 <= yy < y && 0 <= xx < width ==> #[trigger] progress_ok(layout@, width, height, xx, yy, distances@[yy]@[xx]),
        decreases height - y,
    {
        let mut row: Vec<u16> = Vec::new();
        let mut x: usize = 0;
        while x < width as usize
            invariant
                layout_ok(layout@, width, height),
                is_grid(dist@, width as int, height as int),
                forall|x: int, y: int|
                    in_grid(width as int, height as int, x, y) ==> #[trigger] min_steps(
                        layout@,
                        finish_goal(layout@),
                        width as int,
                        height as int,
                        x,
                        y,
                        dist@[y]@[x],
                    ),
                y < height,
                x <= width,
                row@.len() == x,
                forall|xx: int| 0 <= xx < x ==> #[trigger] progress_ok(layout@, width, height, xx, y as int, row@[xx]),
            decreases width - x,
        {
            let tile = &layout[y][x];
            if tile.is_finish {
                row.push(0);
            } else if tile.blocks_movement {
                row.push(u16::MAX);
            } else {
                assert(min_steps(layout@, finish_goal(layout@), width as int, height as int, x as int, y as int, dist@[y as int]@[x as int]));
                row.push(dist[y][x]);
            }
            x += 1;
        }
        distances.push(row);
        y += 1;
    }
    distances
}

/// Turns the tile properties into stored track tiles, each with its coordinates and its
/// distance to the nearest finish tile.
pub fn calculate_progress_towards_finish(
    layout: &Vec<Vec<TileProperties>>,
    width: u8,
    height: u8,
) -> (track_layout: Vec<Vec<TrackTile>>)
    requires
        layout_ok(layout@, width, height),
    ensures
        is_grid(track_layout@, width as int, height as int),
        forall|x: int, y: int| in_grid(width as int, height as int, x, y) ==> {
            let t = #[trigger] track_layout@[y]@[x];
            &&& t.properties == tile_of(layout@, x, y)
            &&& t.x == x
            &&& t.y == y
            &&& progress_ok(layout@, width, height, x, y, t.progress_towards_finish)
        },
{
    let distances = calculate_distances_with_astar(layout, width, height);
    let mut track_layout: Vec<Vec<TrackTile>> = Vec::new();
    let mut y: u8 = 0;
    while y < height
        invariant
            layout_ok(layout@, width, height),
            is_grid(distances@, width as int, height as int),
            forall|x: int, y: int|
                in_grid(width as int, height as int, x, y) ==> #[trigger] progress_ok(
                    layout@,
                    width,
                    height,
                    x,
                    y,
                    distances@[y]@[x],
                ),
            y <= height,
            track_layout@.len() == y,
            forall|yy: int| 0 <= yy < y ==> #[trigger] track_layout@[yy]@.len() == width,
            forall|xx: int, yy: int| 0 <= yy < y && 0 <= xx < width ==> {
                let t = #[trigger] track_layout@[yy]@[xx];
                &&& t.properties == tile_of(layout@, xx, yy)
                &&& t.x == xx
                &&& t.y == yy
                &&& progress_ok(layout@, width, height, xx, yy, t.progress_towards_finish)
            },
        decreases height - y,
    {
        let mut row: Vec<TrackTile> = Vec::new();
        let mut x: u8 = 0;
        while x < width
            invariant
                layout_ok(layout@, width, height),
                is_grid(distances@, width as int, height as int),
                forall|x: int, y: int|
                    in_grid(width as int, height as int, x, y) ==> #[trigger] progress_ok(
                        layout@,
                        width,
                        height,
                        x,
                        y,
                        distances@[y]@[x],
                    ),
                y < height,
                x <= width,
                row@.len() == x,
                forall|xx: int| 0 <= xx < x ==> {
                    let t = #[trigger] row@[xx];
                    &&& t.properties == tile_of(layout@, xx, y as int)
                    &&& t.x == xx
                    &&& t.y == y
                    &&& progress_ok(layout@, width, height, xx, y as int, t.progress_towards_finish)
                },
            decreases width - x,
        {
            let properties = layout[y as usize][x as usize];
            let distance = distances[y as usize][x as usize];
            assert(progress_ok(layout@, width, height, x as int, y as int, distances@[y as int]@[x as int]));
            row.push(TrackTile { properties, progress_towards_finish: distance, x, y });
            x += 1;
        }
        track_layout.push(row);
        y += 1;
    }
    track_layout
}

/// Tile counts of a track by kind.
#[derive(Clone, Copy, Debug, PartialEq, Eq, Structural)]
pub struct TrackStats {
    pub finish_tiles: u32,
    pub boost_tiles: u32,
    pub slow_tiles: u32,
    pub stick_tiles: u32,
    pub wall_tiles: u32,
    pub normal_tiles: u32,
}

/// Kind under which a tile is counted, the first that applies in this order: finish (0),
/// boost (1), slow (2), sticky (3), wall (4), normal (5).
pub open spec fn tile_category(t: TileProperties) -> int {
    if t.is_finish {
        0
    } else if t.speed_modifier > NORMAL_SPEED {
        1
    } else if t.speed_modifier < NORMAL_SPEED {
        2
    } else if t.skip_next_turn {
        3
    } else if t.blocks_movement {
        4
    } else {
        5
    }
}

pub open spec fn in_category(c: int) -> spec_fn(TileProperties) -> bool {
    |t: TileProperties| tile_category(t) == c
}

/// The counts of each kind over the whole layout.
pub open spec fn stats_of(l: Seq<Vec<TileProperties>>) -> (int, int, int, int, int, int) {
    (
        count_grid(l, in_category(0)) as int,
        count_grid(l, in_category(1)) as int,
        count_grid(l, in_category(2)) as int,
        count_grid(l, in_category(3)) as int,
        count_grid(l, in_category(4)) as int,
        count_grid(l, in_category(5)) as int,
    )
}

pub open spec fn partial_stats(l: Seq<Vec<TileProperties>>, y: int, x: int, c: int) -> int {
    (count_grid(l.take(y), in_category(c)) + count_where(l[y]@.take(x), in_category(c))) as int
}

proof fn lemma_partial_stats_step(l: Seq<Vec<TileProperties>>, y: int, x: int, c: int)
    requires
        0 <= y < l.len(),
        0 <= x < l[y]@.len(),
    ensures
        partial_stats(l, y, x + 1, c) == partial_stats(l, y, x, c) + if tile_category(l[y]@[x]) == c {
            1int
        } else {
            0int
        },
{
    let r = l[y]@;
    assert(r.take(x + 1).drop_last() =~= r.take(x));
    assert(r.take(x + 1).last() == r[x]);
}

proof fn lemma_partial_stats_row(l: Seq<Vec<TileProperties>>, y: int, c: int)
    requires
        0 <= y < l.len(),
    ensures
        partial_stats(l, y, l[y]@.len() as int, c) == count_grid(l.take(y + 1), in_category(c)),
{
    let r = l[y]@;
    assert(r.take(r.len() as int) =~= r);
    assert(l.take(y + 1).drop_last() =~= l.take(y));
    assert(l.take(y + 1).last() == l[y]);
}

/// The tile statistics by the tiles' own fields: finish tiles; among the rest, those faster
/// than normal speed (boost) and those slower (slow); among tiles of normal speed, those that
/// skip the next turn (sticky), then walls, then all others (normal).
pub proof fn lemma_statistics_by_fields(l: Seq<Vec<TileProperties>>)
    ensures
        stats_of(l).0 == count_grid(l, |t: TileProperties| t.is_finish),
        stats_of(l).1 == count_grid(l, |t: TileProperties| !t.is_finish && t.speed_modifier > 2),
        stats_of(l).2 == count_grid(l, |t: TileProperties| !t.is_finish && t.speed_modifier < 2),
        stats_of(l).3 == count_grid(l, |t: TileProperties| !t.is_finish && t.speed_modifier == 2 && t.skip_next_turn),
        stats_of(l).4 == count_grid(
            l,
            |t: TileProperties| !t.is_finish && t.speed_modifier == 2 && !t.skip_next_turn && t.blocks_movement,
        ),
        stats_of(l).5 == count_grid(
            l,
            |t: TileProperties| !t.is_finish && t.speed_modifier == 2 && !t.skip_next_turn && !t.blocks_movement,
        ),
{
    assert(in_category(0) =~= |t: TileProperties| t.is_finish);
    assert(in_category(1) =~= |t: TileProperties| !t.is_finish && t.speed_modifier > 2);
    assert(in_category(2) =~= |t: TileProperties| !t.is_finish && t.speed_modifier < 2);
    assert(in_category(3) =~= |t: TileProperties| !t.is_finish && t.speed_modifier == 2 && t.skip_next_turn);
    assert(in_category(4) =~= |t: TileProperties|
        !t.is_finish && t.speed_modifier == 2 && !t.skip_next_turn && t.blocks_movement);
    assert(in_category(5) =~= |t: TileProperties|
        !t.is_finish && t.speed_modifier == 2 && !t.skip_next_turn && !t.blocks_movement);
}

/// Counts the tiles of the layout by kind; the six counts add up to `width * height`.
pub fn calculate_track_statistics(layout: &Vec<Vec<TileProperties>>, width: u8, height: u8) -> (stats: TrackStats)
    requires
        layout_ok(layout@, width, height),
    ensures
        stats.finish_tiles == stats_of(layout@).0,
        stats.boost_tiles == stats_of(layout@).1,
        stats.slow_tiles == stats_of(layout@).2,
        stats.stick_tiles == stats_of(layout@).3,
        stats.wall_tiles == stats_of(layout@).4,
        stats.normal_tiles == stats_of(layout@).5,
        stats.finish_tiles + stats.boost_tiles + stats.slow_tiles + stats.stick_tiles + stats.wall_tiles
            + stats.normal_tiles == width * height,
{
    let mut stats = TrackStats {
        finish_tiles: 0,
        boost_tiles: 0,
        slow_tiles: 0,
        stick_tiles: 0,
        wall_tiles: 0,
        normal_tiles: 0,
    };
    let ghost l = layout@;
    assert(l.take(0) =~= Seq::<Vec<TileProperties>>::empty());
    let mut y: u8 = 0;
    while y < height
        invariant
            layout_ok(l, width, height),
            l == layout@,
            y <= height,
            stats.finish_tiles == count_grid(l.take(y as int), in_category(0)),
            stats.boost_tiles == count_grid(l.take(y as int), in_category(1)),
            stats.slow_tiles == count_grid(l.take(y as int), in_category(2)),
            stats.stick_tiles == count_grid(l.take(y as int), in_category(3)),
            stats.wall_tiles == count_grid(l.take(y as int), in_category(4)),
            stats.normal_tiles == count_grid(l.take(y as int), in_category(5)),
            stats.finish_tiles + stats.boost_tiles + stats.slow_tiles + stats.stick_tiles + stats.wall_tiles
                + stats.normal_tiles == y * width,
        decreases height - y,
    {
        let mut x: u8 = 0;
        assert(l[y as int]@.take(0) =~= Seq::<TileProperties>::empty());
        assert(y * width <= 254 * 255) by (nonlinear_arith)
            requires
                y < height,
                height <= 255,
                width <= 255,
        ;
        while x < width
            invariant
                layout_ok(l, width, height),
                l == layout@,
                y < height,
                x <= width,
                y * width <= 254 * 255,
                stats.finish_tiles == partial_stats(l, y as int, x as int, 0),
                stats.boost_tiles == partial_stats(l, y as int, x as int, 1),
                stats.slow_tiles == partial_stats(l, y as int, x as int, 2),
                stats.stick_tiles == partial_stats(l, y as int, x as int, 3),
                stats.wall_tiles == partial_stats(l, y as int, x as int, 4),
                stats.normal_tiles == partial_stats(l, y as int, x as int, 5),
                stats.finish_tiles + stats.boost_tiles + stats.slow_tiles + stats.stick_tiles
                    + stats.wall_tiles + stats.normal_tiles == y * width + x,
            decreases width - x,
        {
            let tile = &layout[y as usize][x as usize];
            proof {
                lemma_partial_stats_step(l, y as int, x as int, 0);
                lemma_partial_stats_step(l, y as int, x as int, 1);
                lemma_partial_stats_step(l, y as int, x as int, 2);
                lemma_partial_stats_step(l, y as int, x as int, 3);
                lemma_partial_stats_step(l, y as int, x as int, 4);
                lemma_partial_stats_step(l, y as int, x as int, 5);
            }
            if tile.is_finish {
                stats.finish_tiles += 1;
            } else if tile.speed_modifier > NORMAL_SPEED {
                stats.boost_tiles += 1;
            } else if tile.speed_modifier < NORMAL_SPEED {
                stats.slow_tiles += 1;
            } else if tile.skip_next_turn {
                stats.stick_tiles += 1;
            } else if tile.blocks_movement {
                stats.wall_tiles += 1;
            } else {
                stats.normal_tiles += 1;
            }
            x += 1;
        }
        proof {
            lemma_partial_stats_row(l, y as int, 0);
            lemma_partial_stats_row(l, y as int, 1);
            lemma_partial_stats_row(l, y as int, 2);
            lemma_partial_stats_row(l, y as int, 3);
            lemma_partial_stats_row(l, y as int, 4);
            lemma_partial_stats_row(l, y as int, 5);
            assert(y * width + width == (y + 1) * width) by (nonlinear_arith);
        }
        y += 1;
    }
    assert(l.take(height as int) =~= l);
    assert(height * width == width * height) by (nonlinear_arith);
    stats
}

/// A finish tile (`finish`) or a start tile (`!finish`).
pub open spec fn tile_matches(finish: bool, t: TileProperties) -> bool {
    if finish {
        t.is_finish
    } else {
        t.is_start
    }
}

/// The layout holds a finish tile (`finish`) or a start tile (`!finish`).
pub open spec fn layout_has(l: Seq<Vec<TileProperties>>, width: u8, height: u8, finish: bool) -> bool {
    exists|x: int, y: int| in_grid(width as int, height as int, x, y) && #[trigger] tile_matches(finish, tile_of(l, x, y))
}

/// `(x2, y2)` comes before `(x, y)` in row-major order.
pub open spec fn row_major_before(x2: int, y2: int, x: int, y: int) -> bool {
    y2 < y || (y2 == y && x2 < x)
}

/// Every start tile of the layout can reach a finish tile.
pub open spec fn starts_reach_finish(l: Seq<Vec<TileProperties>>, width: u8, height: u8) -> bool {
    forall|x: int, y: int|
        in_grid(width as int, height as int, x, y) && #[trigger] tile_of(l, x, y).is_start ==> can_reach_spec(
            l,
            width,
            height,
            x,
            y,
        )
}

/// The reachability check of validation meets, before any failing start tile, a start tile
/// whose neighbour coordinates overflow a signed byte.
pub open spec fn reach_check_overflows(l: Seq<Vec<TileProperties>>, width: u8, height: u8) -> bool {
    &&& layout_has(l, width, height, true)
    &&& layout_has(l, width, height, false)
    &&& exists|x: int, y: int| {
        &&& in_grid(width as int, height as int, x, y)
        &&& #[trigger] tile_of(l, x, y).is_start
        &&& !tile_of(l, x, y).is_finish
        &&& bad_coord(x, y)
        &&& forall|x2: int, y2: int|
            in_grid(width as int, height as int, x2, y2) && row_major_before(x2, y2, x, y)
                && #[trigger] tile_of(l, x2, y2).is_start ==> can_reach_spec(l, width, height, x2, y2)
    }
}

/// The outcome of validating a layout.
pub open spec fn validation_result(l: Seq<Vec<TileProperties>>, width: u8, height: u8) -> Result<(), TrackManagerError> {
    if !layout_has(l, width, height, true) {
        Err(TrackManagerError::NoFinishTile)
    } else if !layout_has(l, width, height, false) {
        Err(TrackManagerError::NoStartTile)
    } else if !starts_reach_finish(l, width, height) {
        Err(TrackManagerError::NoAccessiblePath)
    } else if width < MIN_TRACK_SIDE || height < MIN_TRACK_SIDE {
        Err(TrackManagerError::TrackTooSmall { width, height })
    } else if width > MAX_TRACK_SIDE || height > MAX_TRACK_SIDE {
        Err(TrackManagerError::TrackTooLarge { width, height })
    } else {
        Ok(())
    }
}

/// A layout with a finish tile, a start tile, a path from every start tile to a finish tile,
/// and both sides between 3 and 50 tiles validates, and only such a layout. A track is refused as too small only when
/// a side is under 3, and as too large only when a side is over 50.
pub proof fn lemma_validation_sizes(l: Seq<Vec<TileProperties>>, width: u8, height: u8)
    ensures
        layout_has(l, width, height, true) && layout_has(l, width, height, false) && starts_reach_finish(l, width, height)
            && 3 <= width <= 50 && 3 <= height <= 50 ==> validation_result(l, width, height) == Ok::<(), TrackManagerError>(()),
        validation_result(l, width, height) is Ok ==> layout_has(l, width, height, true) && layout_has(l, width, height, false)
            && starts_reach_finish(l, width, height) && 3 <= width <= 50 && 3 <= height <= 50,
        validation_result(l, width, height) matches Err(TrackManagerError::TrackTooSmall { width: w, height: h }) ==> (
            w == width && h == height && (width < 3 || height < 3)),
        validation_result(l, width, height) matches Err(TrackManagerError::TrackTooLarge { width: w, height: h }) ==> (
            w == width && h == height && (width > 50 || height > 50)),
{
}

fn find_tile(layout: &Vec<Vec<TileProperties>>, width: u8, height: u8, finish: bool) -> (found: bool)
    requires
        layout_ok(layout@, width, height),
    ensures
        found == layout_has(layout@, width, height, finish),
{
    let mut y: usize = 0;
    while y < height as usize
        invariant
            layout_ok(layout@, width, height),
            y <= height,
            forall|xx: int, yy: int| 0 <= yy < y && 0 <= xx < width ==> !#[trigger] tile_matches(finish, tile_of(layout@, xx, yy)),
        decreases height - y,
    {
        let mut x: usize = 0;
        while x < width as usize
            invariant
                layout_ok(layout@, width, height),
                y < height,
                x <= width,
                forall|xx: int, yy: int|
                    (0 <= yy < y && 0 <= xx < width) || (yy == y && 0 <= xx < x) ==> !#[trigger] tile_matches(finish, tile_of(layout@, xx, yy)),
            decreases width - x,
        {
            let tile = &layout[y][x];
            let hit = if finish { tile.is_finish } else { tile.is_start };
            if hit {
                assert(tile_matches(finish, tile_of(layout@, x as int, y as int)));
                return true;
            }
            x += 1;
        }
        y += 1;
    }
    false
}

/// Whether validating the layout would meet, before any start tile that fails, a start tile
/// whose neighbour coordinates overflow a signed byte.
pub fn reach_check_would_overflow(layout: &Vec<Vec<TileProperties>>, width: u8, height: u8) -> (b: bool)
    requires
        layout_ok(layout@, width, height),
    ensures
        b == reach_check_overflows(layout@, width, height),
{
    let ghost l = layout@;
    if !find_tile(layout, width, height, true) || !find_tile(layout, width, height, false) {
        return false;
    }
    let mut y: u8 = 0;
    while y < height
        invariant
            layout_ok(l, width, height),
            l == layout@,
            layout_has(l, width, height, true),
            layout_has(l, width, height, false),
            y <= height,
            forall|xx: int, yy: int|
                in_grid(width as int, height as int, xx, yy) && yy < y && #[trigger] tile_of(l, xx, yy).is_start
                    ==> can_reach_spec(l, width, height, xx, yy) && (tile_of(l, xx, yy).is_finish || !bad_coord(xx, yy)),
        decreases height - y,
    {
        let mut x: u8 = 0;
        while x < width
            invariant
                layout_ok(l, width, height),
                l == layout@,
                layout_has(l, width, height, true),
                layout_has(l, width, height, false),
                y < height,
                x <= width,
                forall|xx: int, yy: int|
                    in_grid(width as int, height as int, xx, yy) && row_major_before(xx, yy, x as int, y as int)
                        && #[trigger] tile_of(l, xx, yy).is_start
                        ==> can_reach_spec(l, width, height, xx, yy) && (tile_of(l, xx, yy).is_finish || !bad_coord(xx, yy)),
            decreases width - x,
        {
            let tile = &layout[y as usize][x as usize];
            if tile.is_start {
                if !tile.is_finish && (x == 127 || x == 128 || y == 127 || y == 128) {
                    proof {
                        assert(tile_of(l, x as int, y as int).is_start);
                    }
                    return true;
                }
                if !can_reach_finish(layout, x, y, width, height) {
                    proof {
                        if reach_check_overflows(l, width, height) {
                            let (bx, by) = choose|bx: int, by: int| {
                                &&& in_grid(width as int, height as int, bx, by)
                                &&& #[trigger] tile_of(l, bx, by).is_start
                                &&& !tile_of(l, bx, by).is_finish
                                &&& bad_coord(bx, by)
                                &&& forall|x2: int, y2: int|
                                    in_grid(width as int, height as int, x2, y2) && row_major_before(x2, y2, bx, by)
                                        && #[trigger] tile_of(l, x2, y2).is_start ==> can_reach_spec(l, width, height, x2, y2)
                            };
                            if row_major_before(bx, by, x as int, y as int) {
                                assert(tile_of(l, bx, by).is_start);
                            } else if bx == x && by == y {
                            } else {
                                assert(row_major_before(x as int, y as int, bx, by));
                                assert(tile_of(l, x as int, y as int).is_start);
                            }
                        }
                    }
                    return false;
                }
            }
            x += 1;
        }
        y += 1;
    }
    proof {
        if reach_check_overflows(l, width, height) {
            let (bx, by) = choose|bx: int, by: int| {
                &&& in_grid(width as int, height as int, bx, by)
                &&& #[trigger] tile_of(l, bx, by).is_start
                &&& !tile_of(l, bx, by).is_finish
                &&& bad_coord(bx, by)
                &&& forall|x2: int, y2: int|
                    in_grid(width as int, height as int, x2, y2) && row_major_before(x2, y2, bx, by)
                        && #[trigger] tile_of(l, x2, y2).is_start ==> can_reach_spec(l, width, height, x2, y2)
            };
            assert(tile_of(l, bx, by).is_start);
        }
    }
    false
}

/// Checks the basic requirements of a track: a finish tile, a start tile, a path from every
/// start tile to a finish tile, and a size between 3x3 and 50x50, in that order.
pub fn validate_track_layout(layout: &Vec<Vec<TileProperties>>, width: u8, height: u8) -> (r: Result<(), TrackManagerError>)
    requires
        layout_ok(layout@, width, height),
        !reach_check_overflows(layout@, width, height),
    ensures
        r == validation_result(layout@, width, height),
{
    let ghost l = layout@;
    if !find_tile(layout, width, height, true) {
        return Err(TrackManagerError::NoFinishTile);
    }
    if !find_tile(layout, width, height, false) {
        return Err(TrackManagerError::NoStartTile);
    }
    let mut y: u8 = 0;
    while y < height
        invariant
            layout_ok(l, width, height),
            l == layout@,
            !reach_check_overflows(l, width, height),
            layout_has(l, width, height, true),
            layout_has(l, width, height, false),
            y <= height,
            forall|xx: int, yy: int|
                in_grid(width as int, height as int, xx, yy) && yy < y && #[trigger] tile_of(l, xx, yy).is_start
                    ==> can_reach_spec(l, width, height, xx, yy),
        decreases height - y,
    {
        let mut x: u8 = 0;
        while x < width
            invariant
                layout_ok(l, width, height),
                l == layout@,
                !reach_check_overflows(l, width, height),
                layout_has(l, width, height, true),
                layout_has(l, width, height, false),
                y < height,
                x <= width,
                forall|xx: int, yy: int|
                    in_grid(width as int, height as int, xx, yy) && row_major_before(xx, yy, x as int, y as int)
                        && #[trigger] tile_of(l, xx, yy).is_start ==> can_reach_spec(l, width, height, xx, yy),
            decreases width - x,
        {
            if layout[y as usize][x as usize].is_start {
                proof {
                    if !tile_of(l, x as int, y as int).is_finish && bad_coord(x as int, y as int) {
                        assert(reach_check_overflows(l, width, height));
                    }
                }
                if !can_reach_finish(layout, x, y, width, height) {
                    return Err(TrackManagerError::NoAccessiblePath);
                }
            }
            x += 1;
        }
        y += 1;
    }
    assert(starts_reach_finish(l, width, height));
    if width < MIN_TRACK_SIDE || height < MIN_TRACK_SIDE {
        return Err(TrackManagerError::TrackTooSmall { width, height });
    }
    if width > MAX_TRACK_SIDE || height > MAX_TRACK_SIDE {
        return Err(TrackManagerError::TrackTooLarge { width, height });
    }
    Ok(())
}

/// On a track that passes validation, every start tile that does not itself block movement
/// gets a finite distance to the finish: the least number of moves to a finish tile.
pub proof fn lemma_valid_track_starts_reach(l: Seq<Vec<TileProperties>>, width: u8, height: u8, d: Seq<Vec<u16>>)
    requires
        layout_ok(l, width, height),
        validation_result(l, width, height) is Ok,
        is_grid(d, width as int, height as int),
        forall|x: int, y: int| in_grid(width as int, height as int, x, y) ==> #[trigger] progress_ok(l, width, height, x, y, d[y]@[x]),
    ensures
        forall|x: int, y: int|
            in_grid(width as int, height as int, x, y) && #[trigger] tile_of(l, x, y).is_start && !tile_of(l, x, y).blocks_movement
                ==> d[y]@[x] != u16::MAX && min_steps(l, finish_goal(l), width as int, height as int, x, y, d[y]@[x])
                    || tile_of(l, x, y).is_finish && d[y]@[x] == 0,
{
    assert(small_track(width, height));
    assert forall|x: int, y: int|
        in_grid(width as int, height as int, x, y) && #[trigger] tile_of(l, x, y).is_start && !tile_of(l, x, y).blocks_movement
            implies d[y]@[x] != u16::MAX && min_steps(l, finish_goal(l), width as int, height as int, x, y, d[y]@[x])
                || tile_of(l, x, y).is_finish && d[y]@[x] == 0 by {
        assert(progress_ok(l, width, height, x, y, d[y]@[x]));
        if !tile_of(l, x, y).is_finish {
            assert(can_reach_spec(l, width, height, x, y));
            let k = choose|k: nat| #[trigger] reaches_from(l, finish_goal(l), width as int, height as int, x, y, k);
            assert(reaches_from(l, finish_goal(l), width as int, height as int, x, y, k));
        }
    }
}

} // verus!
