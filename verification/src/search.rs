use vstd::prelude::*;

use crate::grid::{count_grid, in_grid, is_grid, lemma_count_grid_bound, lemma_count_grid_update};
use crate::tile::TileProperties;

verus! {

/// The tile at `(x, y)` is inside the grid and does not block movement.
pub open spec fn open_tile(l: Seq<Vec<TileProperties>>, w: int, h: int, x: int, y: int) -> bool {
    in_grid(w, h, x, y) && !l[y]@[x].blocks_movement
}

/// From `(x, y)` a goal tile can be reached in at most `k` moves. Each move goes to one of
/// the four orthogonal neighbours and must enter a tile that does not block movement; the
/// tile the walk starts on is not itself checked.
pub open spec fn reaches_from(
    l: Seq<Vec<TileProperties>>,
    goal: spec_fn(int, int) -> bool,
    w: int,
    h: int,
    x: int,
    y: int,
    k: nat,
) -> bool
    decreases k,
{
    goal(x, y) || (k > 0 && (
        (open_tile(l, w, h, x, y + 1) && reaches_from(l, goal, w, h, x, y + 1, (k - 1) as nat))
        || (open_tile(l, w, h, x, y - 1) && reaches_from(l, goal, w, h, x, y - 1, (k - 1) as nat))
        || (open_tile(l, w, h, x + 1, y) && reaches_from(l, goal, w, h, x + 1, y, (k - 1) as nat))
        || (open_tile(l, w, h, x - 1, y) && reaches_from(l, goal, w, h, x - 1, y, (k - 1) as nat))))
}

/// `d` is the least number of moves from `(x, y)` to a goal tile, or `u16::MAX` when no
/// goal tile can be reached at all.
pub open spec fn min_steps(
    l: Seq<Vec<TileProperties>>,
    goal: spec_fn(int, int) -> bool,
    w: int,
    h: int,
    x: int,
    y: int,
    d: u16,
) -> bool {
    if d == u16::MAX {
        forall|j: nat| !#[trigger] reaches_from(l, goal, w, h, x, y, j)
    } else {
        &&& reaches_from(l, goal, w, h, x, y, d as nat)
        &&& forall|j: nat| j < d ==> !#[trigger] reaches_from(l, goal, w, h, x, y, j)
    }
}

/// Goal: any finish tile.
pub open spec fn finish_goal(l: Seq<Vec<TileProperties>>) -> spec_fn(int, int) -> bool {
    |x: int, y: int| l[y]@[x].is_finish
}

/// Goal: the single tile `(ex, ey)`.
pub open spec fn point_goal(ex: int, ey: int) -> spec_fn(int, int) -> bool {
    |x: int, y: int| x == ex && y == ey
}

/// `(nx, ny)` is one of the four orthogonal neighbours of `(x, y)`.
pub open spec fn adjacent(x: int, y: int, nx: int, ny: int) -> bool {
    (nx == x && (ny == y + 1 || ny == y - 1)) || (ny == y && (nx == x + 1 || nx == x - 1))
}

pub proof fn lemma_step_back(
    l: Seq<Vec<TileProperties>>,
    goal: spec_fn(int, int) -> bool,
    w: int,
    h: int,
    x: int,
    y: int,
    nx: int,
    ny: int,
    j: nat,
)
    requires
        adjacent(x, y, nx, ny),
        open_tile(l, w, h, nx, ny),
        reaches_from(l, goal, w, h, nx, ny, j),
    ensures
        reaches_from(l, goal, w, h, x, y, j + 1),
{
    assert(((j + 1) - 1) as nat == j);
}

pub proof fn lemma_reaches_succ(
    l: Seq<Vec<TileProperties>>,
    goal: spec_fn(int, int) -> bool,
    w: int,
    h: int,
    x: int,
    y: int,
    k: nat,
)
    requires
        reaches_from(l, goal, w, h, x, y, k),
    ensures
        reaches_from(l, goal, w, h, x, y, k + 1),
    decreases k,
{
    if !goal(x, y) {
        let k1 = (k - 1) as nat;
        if open_tile(l, w, h, x, y + 1) && reaches_from(l, goal, w, h, x, y + 1, k1) {
            lemma_reaches_succ(l, goal, w, h, x, y + 1, k1);
            lemma_step_back(l, goal, w, h, x, y, x, y + 1, k);
        } else if open_tile(l, w, h, x, y - 1) && reaches_from(l, goal, w, h, x, y - 1, k1) {
            lemma_reaches_succ(l, goal, w, h, x, y - 1, k1);
            lemma_step_back(l, goal, w, h, x, y, x, y - 1, k);
        } else if open_tile(l, w, h, x + 1, y) && reaches_from(l, goal, w, h, x + 1, y, k1) {
            lemma_reaches_succ(l, goal, w, h, x + 1, y, k1);
            lemma_step_back(l, goal, w, h, x, y, x + 1, y, k);
        } else {
            lemma_reaches_succ(l, goal, w, h, x - 1, y, k1);
            lemma_step_back(l, goal, w, h, x, y, x - 1, y, k);
        }
    }
}

/// Reaching a goal within `k` moves implies reaching it within any larger budget.
pub proof fn lemma_reaches_mono(
    l: Seq<Vec<TileProperties>>,
    goal: spec_fn(int, int) -> bool,
    w: int,
    h: int,
    x: int,
    y: int,
    k: nat,
    k2: nat,
)
    requires
        reaches_from(l, goal, w, h, x, y, k),
        k <= k2,
    ensures
        reaches_from(l, goal, w, h, x, y, k2),
    decreases k2 - k,
{
    if k < k2 {
        lemma_reaches_succ(l, goal, w, h, x, y, k);
        lemma_reaches_mono(l, goal, w, h, x, y, k + 1, k2);
    }
}

/// A walk from `(x, y)` to `(nx, ny)` extends to an open neighbour `(ax, ay)` of the end by one
/// more move.
pub proof fn lemma_extend_end(
    l: Seq<Vec<TileProperties>>,
    w: int,
    h: int,
    x: int,
    y: int,
    nx: int,
    ny: int,
    ax: int,
    ay: int,
    j: nat,
)
    requires
        reaches_from(l, point_goal(nx, ny), w, h, x, y, j),
        adjacent(nx, ny, ax, ay),
        open_tile(l, w, h, ax, ay),
    ensures
        reaches_from(l, point_goal(ax, ay), w, h, x, y, j + 1),
    decreases j,
{
    let pa = point_goal(ax, ay);
    if x == nx && y == ny {
        assert(pa(ax, ay));
        lemma_step_back(l, pa, w, h, x, y, ax, ay, j);
    } else {
        let pn = point_goal(nx, ny);
        let j1 = (j - 1) as nat;
        let (mx, my) = if open_tile(l, w, h, x, y + 1) && reaches_from(l, pn, w, h, x, y + 1, j1) {
            (x, y + 1)
        } else if open_tile(l, w, h, x, y - 1) && reaches_from(l, pn, w, h, x, y - 1, j1) {
            (x, y - 1)
        } else if open_tile(l, w, h, x + 1, y) && reaches_from(l, pn, w, h, x + 1, y, j1) {
            (x + 1, y)
        } else {
            (x - 1, y)
        };
        lemma_extend_end(l, w, h, mx, my, nx, ny, ax, ay, j1);
        lemma_step_back(l, pa, w, h, x, y, mx, my, j);
        assert(j1 + 1 == j);
    }
}

/// A walk of `k` moves from the open tile `(ax, ay)` to `(bx, by)`, read backwards, is a walk
/// of `k` moves from `(bx, by)` to `(ax, ay)`.
pub proof fn lemma_reverse_walk(
    l: Seq<Vec<TileProperties>>,
    w: int,
    h: int,
    ax: int,
    ay: int,
    bx: int,
    by: int,
    k: nat,
)
    requires
        open_tile(l, w, h, ax, ay),
        reaches_from(l, point_goal(bx, by), w, h, ax, ay, k),
    ensures
        reaches_from(l, point_goal(ax, ay), w, h, bx, by, k),
    decreases k,
{
    let pa = point_goal(ax, ay);
    let pb = point_goal(bx, by);
    if ax == bx && ay == by {
        assert(pa(bx, by));
    } else {
        let k1 = (k - 1) as nat;
        let (nx, ny) = if open_tile(l, w, h, ax, ay + 1) && reaches_from(l, pb, w, h, ax, ay + 1, k1) {
            (ax, ay + 1)
        } else if open_tile(l, w, h, ax, ay - 1) && reaches_from(l, pb, w, h, ax, ay - 1, k1) {
            (ax, ay - 1)
        } else if open_tile(l, w, h, ax + 1, ay) && reaches_from(l, pb, w, h, ax + 1, ay, k1) {
            (ax + 1, ay)
        } else {
            (ax - 1, ay)
        };
        lemma_reverse_walk(l, w, h, nx, ny, bx, by, k1);
        lemma_extend_end(l, w, h, bx, by, nx, ny, ax, ay, k1);
        assert(k1 + 1 == k);
    }
}

/// A walk that reaches a goal of `g1` also reaches a goal of any wider `g2` in as many moves.
pub proof fn lemma_reaches_wider_goal(
    l: Seq<Vec<TileProperties>>,
    g1: spec_fn(int, int) -> bool,
    g2: spec_fn(int, int) -> bool,
    w: int,
    h: int,
    x: int,
    y: int,
    k: nat,
)
    requires
        reaches_from(l, g1, w, h, x, y, k),
        forall|a: int, b: int| #[trigger] g1(a, b) ==> g2(a, b),
    ensures
        reaches_from(l, g2, w, h, x, y, k),
    decreases k,
{
    if !g1(x, y) {
        let k1 = (k - 1) as nat;
        if open_tile(l, w, h, x, y + 1) && reaches_from(l, g1, w, h, x, y + 1, k1) {
            lemma_reaches_wider_goal(l, g1, g2, w, h, x, y + 1, k1);
        } else if open_tile(l, w, h, x, y - 1) && reaches_from(l, g1, w, h, x, y - 1, k1) {
            lemma_reaches_wider_goal(l, g1, g2, w, h, x, y - 1, k1);
        } else if open_tile(l, w, h, x + 1, y) && reaches_from(l, g1, w, h, x + 1, y, k1) {
            lemma_reaches_wider_goal(l, g1, g2, w, h, x + 1, y, k1);
        } else {
            lemma_reaches_wider_goal(l, g1, g2, w, h, x - 1, y, k1);
        }
    }
}

/// A walk from a tile of the grid that reaches some finish tile within `k` moves reaches one
/// particular finish tile of the grid within `k` moves.
pub proof fn lemma_reaches_some_finish(
    l: Seq<Vec<TileProperties>>,
    w: int,
    h: int,
    x: int,
    y: int,
    k: nat,
) -> (f: (int, int))
    requires
        in_grid(w, h, x, y),
        reaches_from(l, finish_goal(l), w, h, x, y, k),
    ensures
        in_grid(w, h, f.0, f.1),
        l[f.1]@[f.0].is_finish,
        reaches_from(l, point_goal(f.0, f.1), w, h, x, y, k),
    decreases k,
{
    if l[y]@[x].is_finish {
        (x, y)
    } else {
        let k1 = (k - 1) as nat;
        let (nx, ny) = if open_tile(l, w, h, x, y + 1) && reaches_from(l, finish_goal(l), w, h, x, y + 1, k1) {
            (x, y + 1)
        } else if open_tile(l, w, h, x, y - 1) && reaches_from(l, finish_goal(l), w, h, x, y - 1, k1) {
            (x, y - 1)
        } else if open_tile(l, w, h, x + 1, y) && reaches_from(l, finish_goal(l), w, h, x + 1, y, k1) {
            (x + 1, y)
        } else {
            (x - 1, y)
        };
        let f = lemma_reaches_some_finish(l, w, h, nx, ny, k1);
        lemma_step_back(l, point_goal(f.0, f.1), w, h, x, y, nx, ny, k1);
        assert(k1 + 1 == k);
        f
    }
}

/// What a walk gains by first stepping onto `(nx, ny)`: one more than the distance held there,
/// or `u16::MAX` when that tile is not open or holds no distance.
pub open spec fn step_value(l: Seq<Vec<TileProperties>>, d: Seq<Vec<u16>>, w: int, h: int, nx: int, ny: int) -> int {
    if open_tile(l, w, h, nx, ny) && d[ny]@[nx] != u16::MAX {
        d[ny]@[nx] + 1
    } else {
        u16::MAX as int
    }
}

pub open spec fn min_int(a: int, b: int) -> int {
    if a <= b {
        a
    } else {
        b
    }
}

/// The least of `step_value` over the four neighbours of `(x, y)`.
pub open spec fn best_via(l: Seq<Vec<TileProperties>>, d: Seq<Vec<u16>>, w: int, h: int, x: int, y: int) -> int {
    min_int(
        min_int(step_value(l, d, w, h, x, y + 1), step_value(l, d, w, h, x, y - 1)),
        min_int(step_value(l, d, w, h, x + 1, y), step_value(l, d, w, h, x - 1, y)),
    )
}

/// From a tile that is not a goal, given the exact distances of all grid tiles, the least
/// number of moves is the best of its neighbours plus one.
pub proof fn lemma_best_via(
    l: Seq<Vec<TileProperties>>,
    goal: spec_fn(int, int) -> bool,
    w: int,
    h: int,
    d: Seq<Vec<u16>>,
    x: int,
    y: int,
)
    requires
        forall|a: int, b: int| in_grid(w, h, a, b) ==> #[trigger] min_steps(l, goal, w, h, a, b, d[b]@[a]),
        forall|a: int, b: int| in_grid(w, h, a, b) && #[trigger] d[b]@[a] != u16::MAX ==> d[b]@[a] <= 255 * 255 + 1,
        !goal(x, y),
    ensures
        min_steps(l, goal, w, h, x, y, best_via(l, d, w, h, x, y) as u16),
        0 <= best_via(l, d, w, h, x, y) <= u16::MAX,
{
    let r = best_via(l, d, w, h, x, y);
    let nbs = seq![(x, y + 1), (x, y - 1), (x + 1, y), (x - 1, y)];
    assert forall|i: int| 0 <= i < 4 implies r <= #[trigger] step_value(l, d, w, h, nbs[i].0, nbs[i].1) && step_value(
        l,
        d,
        w,
        h,
        nbs[i].0,
        nbs[i].1,
    ) <= u16::MAX by {
        let (nx, ny) = nbs[i];
        if open_tile(l, w, h, nx, ny) {
            assert(d[ny]@[nx] != u16::MAX ==> d[ny]@[nx] <= 255 * 255 + 1);
        }
    }
    assert(exists|i: int| 0 <= i < 4 && r == #[trigger] step_value(l, d, w, h, nbs[i].0, nbs[i].1)) by {
        if r == step_value(l, d, w, h, x, y + 1) {
            assert(r == step_value(l, d, w, h, nbs[0].0, nbs[0].1));
        } else if r == step_value(l, d, w, h, x, y - 1) {
            assert(r == step_value(l, d, w, h, nbs[1].0, nbs[1].1));
        } else if r == step_value(l, d, w, h, x + 1, y) {
            assert(r == step_value(l, d, w, h, nbs[2].0, nbs[2].1));
        } else {
            assert(r == step_value(l, d, w, h, nbs[3].0, nbs[3].1));
        }
    }
    // no walk of `j` moves is shorter than `r`
    assert forall|j: nat| j < r implies !#[trigger] reaches_from(l, goal, w, h, x, y, j) by {
        if reaches_from(l, goal, w, h, x, y, j) {
            let j1 = (j - 1) as nat;
            let i = choose|i: int|
                0 <= i < 4 && open_tile(l, w, h, nbs[i].0, nbs[i].1) && reaches_from(
                    l,
                    goal,
                    w,
                    h,
                    nbs[i].0,
                    nbs[i].1,
                    j1,
                );
            let (nx, ny) = nbs[i];
            assert(min_steps(l, goal, w, h, nx, ny, d[ny]@[nx]));
            assert(r <= step_value(l, d, w, h, nbs[i].0, nbs[i].1));
        }
    }
    if r != u16::MAX {
        let i = choose|i: int| 0 <= i < 4 && r == #[trigger] step_value(l, d, w, h, nbs[i].0, nbs[i].1);
        let (nx, ny) = nbs[i];
        assert(min_steps(l, goal, w, h, nx, ny, d[ny]@[nx]));
        lemma_step_back(l, goal, w, h, x, y, nx, ny, d[ny]@[nx] as nat);
    } else {
        assert forall|j: nat| !#[trigger] reaches_from(l, goal, w, h, x, y, j) by {
            if reaches_from(l, goal, w, h, x, y, j) {
                let j1 = (j - 1) as nat;
                let i = choose|i: int|
                    0 <= i < 4 && open_tile(l, w, h, nbs[i].0, nbs[i].1) && reaches_from(
                        l,
                        goal,
                        w,
                        h,
                        nbs[i].0,
                        nbs[i].1,
                        j1,
                    );
                let (nx, ny) = nbs[i];
                assert(min_steps(l, goal, w, h, nx, ny, d[ny]@[nx]));
                assert(d[ny]@[nx] != u16::MAX ==> d[ny]@[nx] <= 255 * 255 + 1);
                assert(r <= step_value(l, d, w, h, nbs[i].0, nbs[i].1));
            }
        }
    }
}

/// Per-tile invariant of the level-by-level search after all levels up to `k` are done.
pub open spec fn level_cell(
    l: Seq<Vec<TileProperties>>,
    goal: spec_fn(int, int) -> bool,
    w: int,
    h: int,
    d: Seq<Vec<u16>>,
    x: int,
    y: int,
    k: nat,
) -> bool {
    let v = d[y]@[x];
    if v == u16::MAX {
        !reaches_from(l, goal, w, h, x, y, k)
    } else {
        &&& v <= k
        &&& reaches_from(l, goal, w, h, x, y, v as nat)
        &&& (v == 0 || !reaches_from(l, goal, w, h, x, y, (v - 1) as nat))
    }
}

pub open spec fn level_inv(
    l: Seq<Vec<TileProperties>>,
    goal: spec_fn(int, int) -> bool,
    w: int,
    h: int,
    d: Seq<Vec<u16>>,
    k: nat,
) -> bool {
    forall|x: int, y: int| in_grid(w, h, x, y) ==> #[trigger] level_cell(l, goal, w, h, d, x, y, k)
}

/// Some open neighbour of `(x, y)` holds the value `k` in `d`.
pub open spec fn has_level_nb(
    l: Seq<Vec<TileProperties>>,
    w: int,
    h: int,
    d: Seq<Vec<u16>>,
    x: int,
    y: int,
    k: int,
) -> bool {
    ||| (open_tile(l, w, h, x, y + 1) && d[y + 1]@[x] == k)
    ||| (open_tile(l, w, h, x, y - 1) && d[y - 1]@[x] == k)
    ||| (open_tile(l, w, h, x + 1, y) && d[y]@[x + 1] == k)
    ||| (open_tile(l, w, h, x - 1, y) && d[y]@[x - 1] == k)
}

/// How one round of the search treats the tile `(x, y)`.
pub open spec fn round_cell(
    l: Seq<Vec<TileProperties>>,
    w: int,
    h: int,
    old: Seq<Vec<u16>>,
    new: Seq<Vec<u16>>,
    x: int,
    y: int,
    k: int,
) -> bool {
    ||| (new[y]@[x] == old[y]@[x] && (old[y]@[x] == u16::MAX ==> !has_level_nb(l, w, h, old, x, y, k)))
    ||| (old[y]@[x] == u16::MAX && new[y]@[x] == k + 1 && has_level_nb(l, w, h, old, x, y, k))
}

proof fn lemma_round_cell(
    l: Seq<Vec<TileProperties>>,
    goal: spec_fn(int, int) -> bool,
    w: int,
    h: int,
    old: Seq<Vec<u16>>,
    new: Seq<Vec<u16>>,
    k: nat,
    x: int,
    y: int,
)
    requires
        is_grid(l, w, h),
        is_grid(old, w, h),
        is_grid(new, w, h),
        k + 1 < u16::MAX,
        level_inv(l, goal, w, h, old, k),
        in_grid(w, h, x, y),
        round_cell(l, w, h, old, new, x, y, k as int),
    ensures
        level_cell(l, goal, w, h, new, x, y, k + 1),
{
    assert(level_cell(l, goal, w, h, old, x, y, k));
    let v = old[y]@[x];
    if new[y]@[x] == v {
        if v == u16::MAX {
            if reaches_from(l, goal, w, h, x, y, k + 1) {
                if goal(x, y) {
                    lemma_reaches_mono(l, goal, w, h, x, y, 0, k);
                } else {
                    // some open neighbour reaches a goal within k moves
                    let nbs = seq![(x, y + 1), (x, y - 1), (x + 1, y), (x - 1, y)];
                    let i = choose|i: int|
                        0 <= i < 4 && open_tile(l, w, h, nbs[i].0, nbs[i].1) && reaches_from(
                            l,
                            goal,
                            w,
                            h,
                            nbs[i].0,
                            nbs[i].1,
                            k,
                        );
                    let (nx, ny) = nbs[i];
                    assert(level_cell(l, goal, w, h, old, nx, ny, k));
                    let vn = old[ny]@[nx];
                    if vn != u16::MAX && (vn as int) < (k as int) {
                        lemma_step_back(l, goal, w, h, x, y, nx, ny, vn as nat);
                        lemma_reaches_mono(l, goal, w, h, x, y, (vn + 1) as nat, k);
                    }
                }
            }
        }
    } else {
        let nbs = seq![(x, y + 1), (x, y - 1), (x + 1, y), (x - 1, y)];
        let i = choose|i: int|
            0 <= i < 4 && open_tile(l, w, h, nbs[i].0, nbs[i].1) && old[nbs[i].1]@[nbs[i].0] == k;
        let (nx, ny) = nbs[i];
        assert(level_cell(l, goal, w, h, old, nx, ny, k));
        lemma_step_back(l, goal, w, h, x, y, nx, ny, k);
    }
}

pub proof fn lemma_round(
    l: Seq<Vec<TileProperties>>,
    goal: spec_fn(int, int) -> bool,
    w: int,
    h: int,
    old: Seq<Vec<u16>>,
    new: Seq<Vec<u16>>,
    k: nat,
)
    requires
        is_grid(l, w, h),
        is_grid(old, w, h),
        is_grid(new, w, h),
        k + 1 < u16::MAX,
        level_inv(l, goal, w, h, old, k),
        forall|x: int, y: int| in_grid(w, h, x, y) ==> #[trigger] round_cell(l, w, h, old, new, x, y, k as int),
    ensures
        level_inv(l, goal, w, h, new, k + 1),
{
    assert forall|x: int, y: int| in_grid(w, h, x, y) implies #[trigger] level_cell(
        l,
        goal,
        w,
        h,
        new,
        x,
        y,
        k + 1,
    ) by {
        assert(round_cell(l, w, h, old, new, x, y, k as int));
        lemma_round_cell(l, goal, w, h, old, new, k, x, y);
    }
}

proof fn lemma_unreachable(
    l: Seq<Vec<TileProperties>>,
    goal: spec_fn(int, int) -> bool,
    w: int,
    h: int,
    d: Seq<Vec<u16>>,
    k: nat,
    x: int,
    y: int,
    j: nat,
)
    requires
        is_grid(l, w, h),
        is_grid(d, w, h),
        level_inv(l, goal, w, h, d, k),
        forall|x: int, y: int| in_grid(w, h, x, y) ==> #[trigger] d[y]@[x] != k,
        in_grid(w, h, x, y),
        d[y]@[x] == u16::MAX,
    ensures
        !reaches_from(l, goal, w, h, x, y, j),
    decreases j,
{
    assert(level_cell(l, goal, w, h, d, x, y, k));
    if reaches_from(l, goal, w, h, x, y, j) {
        if j <= k {
            lemma_reaches_mono(l, goal, w, h, x, y, j, k);
        } else if goal(x, y) {
            lemma_reaches_mono(l, goal, w, h, x, y, 0, k);
        } else {
            let j1 = (j - 1) as nat;
            let nbs = seq![(x, y + 1), (x, y - 1), (x + 1, y), (x - 1, y)];
            let i = choose|i: int|
                0 <= i < 4 && open_tile(l, w, h, nbs[i].0, nbs[i].1) && reaches_from(
                    l,
                    goal,
                    w,
                    h,
                    nbs[i].0,
                    nbs[i].1,
                    j1,
                );
            let (nx, ny) = nbs[i];
            assert(level_cell(l, goal, w, h, d, nx, ny, k));
            let vn = d[ny]@[nx];
            if vn == u16::MAX {
                lemma_unreachable(l, goal, w, h, d, k, nx, ny, j1);
            } else {
                assert(d[ny]@[nx] != k);
                lemma_step_back(l, goal, w, h, x, y, nx, ny, vn as nat);
                lemma_reaches_mono(l, goal, w, h, x, y, (vn + 1) as nat, k);
            }
        }
    }
}

/// Once a round adds no tile, every value is the exact least number of moves.
pub proof fn lemma_search_done(
    l: Seq<Vec<TileProperties>>,
    goal: spec_fn(int, int) -> bool,
    w: int,
    h: int,
    d: Seq<Vec<u16>>,
    k: nat,
)
    requires
        is_grid(l, w, h),
        is_grid(d, w, h),
        level_inv(l, goal, w, h, d, k),
        forall|x: int, y: int| in_grid(w, h, x, y) ==> #[trigger] d[y]@[x] != k,
    ensures
        forall|x: int, y: int| in_grid(w, h, x, y) ==> #[trigger] min_steps(l, goal, w, h, x, y, d[y]@[x]),
{
    assert forall|x: int, y: int| in_grid(w, h, x, y) implies #[trigger] min_steps(
        l,
        goal,
        w,
        h,
        x,
        y,
        d[y]@[x],
    ) by {
        assert(level_cell(l, goal, w, h, d, x, y, k));
        let v = d[y]@[x];
        if v == u16::MAX {
            assert forall|j: nat| !#[trigger] reaches_from(l, goal, w, h, x, y, j) by {
                lemma_unreachable(l, goal, w, h, d, k, x, y, j);
            }
        } else {
            assert forall|j: nat| j < v implies !#[trigger] reaches_from(l, goal, w, h, x, y, j) by {
                if reaches_from(l, goal, w, h, x, y, j) {
                    lemma_reaches_mono(l, goal, w, h, x, y, j, (v - 1) as nat);
                }
            }
        }
    }
}

pub open spec fn is_unset(v: u16) -> bool {
    v == u16::MAX
}

/// Multi-source level-by-level search. Every tile marked in `goal_mask` starts at distance 0;
/// in round `k` each tile still without a distance takes `k + 1` when one of its open
/// neighbours holds `k`. The result holds, for every tile, the least number of moves from it
/// to a marked tile, or `u16::MAX`.
#[verifier::loop_isolation(false)]
pub fn level_search(
    layout: &Vec<Vec<TileProperties>>,
    goal_mask: &Vec<Vec<bool>>,
    width: u8,
    height: u8,
    Ghost(goal): Ghost<spec_fn(int, int) -> bool>,
) -> (dist: Vec<Vec<u16>>)
    requires
        is_grid(layout@, width as int, height as int),
        is_grid(goal_mask@, width as int, height as int),
        forall|x: int, y: int|
            in_grid(width as int, height as int, x, y) ==> #[trigger] goal_mask@[y]@[x] == goal(x, y),
    ensures
        is_grid(dist@, width as int, height as int),
        forall|x: int, y: int|
            in_grid(width as int, height as int, x, y) ==> #[trigger] min_steps(
                layout@,
                goal,
                width as int,
                height as int,
                x,
                y,
                dist@[y]@[x],
            ),
        forall|x: int, y: int|
            in_grid(width as int, height as int, x, y) && #[trigger] dist@[y]@[x] != u16::MAX ==> dist@[y]@[x]
                <= 255 * 255 + 1,
{
    let w = width as usize;
    let h = height as usize;
    let ghost wi = width as int;
    let ghost hi = height as int;
    let ghost l = layout@;
    let ghost unset = |v: u16| is_unset(v);
    // level 0: the goal tiles
    let mut dist: Vec<Vec<u16>> = Vec::new();
    let mut y: usize = 0;
    while y < h
        invariant
            y <= h,
            dist@.len() == y,
            forall|yy: int| 0 <= yy < y ==> #[trigger] dist@[yy]@.len() == w,
            forall|xx: int, yy: int|
                0 <= yy < y && 0 <= xx < w ==> #[trigger] dist@[yy]@[xx] == if goal(xx, yy) {
                    0u16
                } else {
                    u16::MAX
                },
        decreases h - y,
    {
        let mut row: Vec<u16> = Vec::new();
        let mut x: usize = 0;
        while x < w
            invariant
                x <= w,
                row@.len() == x,
                forall|xx: int| 0 <= xx < x ==> #[trigger] row@[xx] == if goal(xx, y as int) {
                    0u16
                } else {
                    u16::MAX
                },
            decreases w - x,
        {
            if goal_mask[y][x] {
                row.push(0);
            } else {
                row.push(u16::MAX);
            }
            x += 1;
        }
        dist.push(row);
        y += 1;
    }
    assert(level_inv(l, goal, wi, hi, dist@, 0)) by {
        assert forall|x: int, y: int| in_grid(wi, hi, x, y) implies #[trigger] level_cell(
            l,
            goal,
            wi,
            hi,
            dist@,
            x,
            y,
            0,
        ) by {
            assert(dist@[y]@[x] == if goal(x, y) {
                0u16
            } else {
                u16::MAX
            });
        }
    }
    proof {
        lemma_count_grid_bound(dist@, unset, wi);
        assert(hi * wi <= 255 * 255) by (nonlinear_arith)
            requires
                0 <= wi <= 255,
                0 <= hi <= 255,
        ;
    }
    let mut k: u16 = 0;
    #[verifier::loop_isolation(true)]
    loop
        invariant_except_break
            is_grid(dist@, wi, hi),
            is_grid(l, wi, hi),
            l == layout@,
            w == wi,
            h == hi,
            wi == width as int,
            hi == height as int,
            unset == (|v: u16| is_unset(v)),
            level_inv(l, goal, wi, hi, dist@, k as nat),
            k as int + count_grid(dist@, unset) <= dist@.len() * wi,
            dist@.len() * wi <= 255 * 255,
        ensures
            is_grid(dist@, wi, hi),
            forall|x: int, y: int| in_grid(wi, hi, x, y) ==> #[trigger] min_steps(l, goal, wi, hi, x, y, dist@[y]@[x]),
            forall|x: int, y: int|
                in_grid(wi, hi, x, y) && #[trigger] dist@[y]@[x] != u16::MAX ==> dist@[y]@[x] <= 255 * 255 + 1,
        decreases count_grid(dist@, unset),
    {
        let ghost old = dist@;
        let mut changed = false;
        let mut y: usize = 0;
        while y < h
            invariant
                y <= h,
                is_grid(dist@, wi, hi),
                forall|x: int, yy: int| in_grid(wi, hi, x, yy) ==> (#[trigger] dist@[yy]@[x] == old[yy]@[x]
                    || (old[yy]@[x] == u16::MAX && dist@[yy]@[x] == k + 1)),
                forall|x: int, yy: int| in_grid(wi, hi, x, yy) && yy < y ==> #[trigger] round_cell(l, wi, hi, old, dist@, x, yy, k as int),
                forall|x: int, yy: int| in_grid(wi, hi, x, yy) && yy >= y ==> #[trigger] dist@[yy]@[x] == old[yy]@[x],
                count_grid(dist@, unset) <= count_grid(old, unset),
                changed ==> count_grid(dist@, unset) < count_grid(old, unset),
                !changed ==> dist@ == old,
            decreases h - y,
        {
            let mut x: usize = 0;
            while x < w
                invariant
                    x <= w,
                    y < h,
                    is_grid(dist@, wi, hi),
                    forall|xx: int, yy: int| in_grid(wi, hi, xx, yy) ==> (#[trigger] dist@[yy]@[xx] == old[yy]@[xx]
                        || (old[yy]@[xx] == u16::MAX && dist@[yy]@[xx] == k + 1)),
                    forall|xx: int, yy: int| in_grid(wi, hi, xx, yy) && (yy < y || (yy == y && xx < x)) ==> #[trigger] round_cell(l, wi, hi, old, dist@, xx, yy, k as int),
                    forall|xx: int, yy: int| in_grid(wi, hi, xx, yy) && (yy > y || (yy == y && xx >= x)) ==> #[trigger] dist@[yy]@[xx] == old[yy]@[xx],
                    count_grid(dist@, unset) <= count_grid(old, unset),
                    changed ==> count_grid(dist@, unset) < count_grid(old, unset),
                    !changed ==> dist@ == old,
                decreases w - x,
            {
                let ghost before = dist@;
                if dist[y][x] == u16::MAX {
                    let up = y + 1 < h && !layout[y + 1][x].blocks_movement && dist[y + 1][x] == k;
                    let down = y > 0 && !layout[y - 1][x].blocks_movement && dist[y - 1][x] == k;
                    let right = x + 1 < w && !layout[y][x + 1].blocks_movement && dist[y][x + 1] == k;
                    let left = x > 0 && !layout[y][x - 1].blocks_movement && dist[y][x - 1] == k;
                    proof {
                        let xi = x as int;
                        let yi = y as int;
                        if yi + 1 < hi {
                            assert(before[yi + 1]@[xi] == old[yi + 1]@[xi]
                                || (old[yi + 1]@[xi] == u16::MAX && before[yi + 1]@[xi] == k + 1));
                        }
                        if yi > 0 {
                            assert(before[yi - 1]@[xi] == old[yi - 1]@[xi]
                                || (old[yi - 1]@[xi] == u16::MAX && before[yi - 1]@[xi] == k + 1));
                        }
                        if xi + 1 < wi {
                            assert(before[yi]@[xi + 1] == old[yi]@[xi + 1]
                                || (old[yi]@[xi + 1] == u16::MAX && before[yi]@[xi + 1] == k + 1));
                        }
                        if xi > 0 {
                            assert(before[yi]@[xi - 1] == old[yi]@[xi - 1]
                                || (old[yi]@[xi - 1] == u16::MAX && before[yi]@[xi - 1] == k + 1));
                        }
                        assert((up || down || right || left) == has_level_nb(l, wi, hi, old, xi, yi, k as int));
                        assert(before[yi]@[xi] == old[yi]@[xi]);
                    }
                    if up || down || right || left {
                        dist[y][x] = k + 1;
                        proof {
                            lemma_count_grid_update(before, dist@, y as int, x as int, (k + 1) as u16, unset);
                        }
                        changed = true;
                    }
                } else {
                    assert(before[y as int]@[x as int] == old[y as int]@[x as int]);
                }
                proof {
                    assert(round_cell(l, wi, hi, old, dist@, x as int, y as int, k as int));
                    assert forall|xx: int, yy: int|
                        in_grid(wi, hi, xx, yy) && (yy < y || (yy == y && xx < x + 1)) implies #[trigger] round_cell(
                        l,
                        wi,
                        hi,
                        old,
                        dist@,
                        xx,
                        yy,
                        k as int,
                    ) by {
                        if !(yy == y && xx == x) {
                            assert(round_cell(l, wi, hi, old, before, xx, yy, k as int));
                            assert(dist@[yy]@[xx] == before[yy]@[xx]);
                        }
                    }
                }
                x += 1;
            }
            y += 1;
        }
        proof {
            lemma_round(l, goal, wi, hi, old, dist@, k as nat);
        }
        if !changed {
            proof {
                assert forall|x: int, yy: int| in_grid(wi, hi, x, yy) implies #[trigger] dist@[yy]@[x] != (k + 1) as u16 by {
                    assert(level_cell(l, goal, wi, hi, old, x, yy, k as nat));
                }
                lemma_search_done(l, goal, wi, hi, dist@, (k + 1) as nat);
                assert forall|x: int, yy: int|
                    in_grid(wi, hi, x, yy) && #[trigger] dist@[yy]@[x] != u16::MAX implies dist@[yy]@[x]
                        <= 255 * 255 + 1 by {
                    assert(level_cell(l, goal, wi, hi, dist@, x, yy, (k + 1) as nat));
                }
            }
            break;
        }
        k = k + 1;
    }
    dist
}

} // verus!
