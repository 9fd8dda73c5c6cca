use vstd::prelude::*;

verus! {

/// `(x, y)` lies inside a grid of `w` columns and `h` rows.
pub open spec fn in_grid(w: int, h: int, x: int, y: int) -> bool {
    0 <= x < w && 0 <= y < h
}

/// `g` has `h` rows of `w` entries each.
pub open spec fn is_grid<T>(g: Seq<Vec<T>>, w: int, h: int) -> bool {
    &&& g.len() == h
    &&& forall|y: int| 0 <= y < h ==> #[trigger] g[y]@.len() == w
}

/// Number of entries of `s` that satisfy `p`.
pub open spec fn count_where<T>(s: Seq<T>, p: spec_fn(T) -> bool) -> nat
    decreases s.len(),
{
    if s.len() == 0 {
        0
    } else {
        count_where(s.drop_last(), p) + if p(s.last()) {
            1nat
        } else {
            0nat
        }
    }
}

/// Number of entries of the grid `g` that satisfy `p`.
pub open spec fn count_grid<T>(g: Seq<Vec<T>>, p: spec_fn(T) -> bool) -> nat
    decreases g.len(),
{
    if g.len() == 0 {
        0
    } else {
        count_grid(g.drop_last(), p) + count_where(g.last()@, p)
    }
}

pub proof fn lemma_count_where_bound<T>(s: Seq<T>, p: spec_fn(T) -> bool)
    ensures
        count_where(s, p) <= s.len(),
    decreases s.len(),
{
    if s.len() > 0 {
        lemma_count_where_bound(s.drop_last(), p);
    }
}

pub proof fn lemma_count_grid_bound<T>(g: Seq<Vec<T>>, p: spec_fn(T) -> bool, w: int)
    requires
        w >= 0,
        forall|y: int| 0 <= y < g.len() ==> #[trigger] g[y]@.len() == w,
    ensures
        count_grid(g, p) <= g.len() * w,
    decreases g.len(),
{
    if g.len() > 0 {
        let g0 = g.drop_last();
        assert forall|y: int| 0 <= y < g0.len() implies #[trigger] g0[y]@.len() == w by {
            assert(g0[y] == g[y]);
        }
        lemma_count_grid_bound(g0, p, w);
        lemma_count_where_bound(g.last()@, p);
        let n = g.len();
        assert(n * w == (n - 1) * w + w) by (nonlinear_arith);
    }
}

/// Changing one entry from satisfying `p` to not satisfying it lowers the count by one.
pub proof fn lemma_count_where_update<T>(s: Seq<T>, i: int, v: T, p: spec_fn(T) -> bool)
    requires
        0 <= i < s.len(),
        p(s[i]),
        !p(v),
    ensures
        count_where(s.update(i, v), p) + 1 == count_where(s, p),
    decreases s.len(),
{
    let s2 = s.update(i, v);
    if i == s.len() - 1 {
        assert(s2.drop_last() =~= s.drop_last());
    } else {
        assert(s2.drop_last() =~= s.drop_last().update(i, v));
        lemma_count_where_update(s.drop_last(), i, v, p);
    }
}

/// Grids whose rows have the same contents have the same count.
pub proof fn lemma_count_grid_same<T>(g: Seq<Vec<T>>, g2: Seq<Vec<T>>, p: spec_fn(T) -> bool)
    requires
        g.len() == g2.len(),
        forall|j: int| 0 <= j < g.len() ==> #[trigger] g2[j]@ == g[j]@,
    ensures
        count_grid(g2, p) == count_grid(g, p),
    decreases g.len(),
{
    if g.len() > 0 {
        let a = g.drop_last();
        let b = g2.drop_last();
        assert forall|j: int| 0 <= j < a.len() implies #[trigger] b[j]@ == a[j]@ by {
            assert(a[j] == g[j]);
            assert(b[j] == g2[j]);
        }
        lemma_count_grid_same(a, b, p);
        assert(g2.last()@ == g.last()@);
    }
}

/// Changing one grid entry from satisfying `p` to not satisfying it lowers the count by one.
pub proof fn lemma_count_grid_update<T>(
    g: Seq<Vec<T>>,
    g2: Seq<Vec<T>>,
    y: int,
    x: int,
    v: T,
    p: spec_fn(T) -> bool,
)
    requires
        g2.len() == g.len(),
        0 <= y < g.len(),
        0 <= x < g[y]@.len(),
        p(g[y]@[x]),
        !p(v),
        forall|j: int| 0 <= j < g.len() && j != y ==> #[trigger] g2[j]@ == g[j]@,
        g2[y]@ == g[y]@.update(x, v),
    ensures
        count_grid(g2, p) + 1 == count_grid(g, p),
    decreases g.len(),
{
    let a = g.drop_last();
    let b = g2.drop_last();
    if y == g.len() - 1 {
        assert forall|j: int| 0 <= j < a.len() implies #[trigger] b[j]@ == a[j]@ by {
            assert(a[j] == g[j]);
            assert(b[j] == g2[j]);
        }
        lemma_count_grid_same(a, b, p);
        lemma_count_where_update(g[y]@, x, v, p);
    } else {
        assert forall|j: int| 0 <= j < a.len() && j != y implies #[trigger] b[j]@ == a[j]@ by {
            assert(a[j] == g[j]);
            assert(b[j] == g2[j]);
        }
        assert(a[y] == g[y]);
        assert(b[y] == g2[y]);
        lemma_count_grid_update(a, b, y, x, v, p);
        assert(g2.last()@ == g.last()@);
    }
}

} // verus!
