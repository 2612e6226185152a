//! Properties that relate several operations of the engine, or hold of every state.
use vstd::prelude::*;

use crate::model::{
    alive_in_row, at, differences, differences_in_row, flips, flips_in_row, is_grid,
    in_span, lemma_span_unit, population, span_lead,
    pattern_grid, pattern_rows, placed, recenter, span_source, unflatten,
};
use crate::Universe;

verus! {

proof fn lemma_changes_in_row(a: Seq<bool>, b: Seq<bool>, n: int)
    requires
        0 <= n,
    ensures
        flips_in_row(a, b, true, n) + flips_in_row(a, b, false, n) == differences_in_row(a, b, n),
        differences_in_row(a, b, n) <= n,
    decreases n,
{
    if n > 0 {
        lemma_changes_in_row(a, b, n - 1);
    }
}

/// Between two grids each cell that differs is counted once, as killed or as
/// resurrected, and no cell that keeps its state is counted: the killed and the
/// resurrected cells together are exactly the cells that differ, which are at most
/// all the cells.
pub proof fn lemma_changes_partition(a: Seq<Seq<bool>>, b: Seq<Seq<bool>>, h: int, w: int)
    requires
        0 <= h,
        0 <= w,
    ensures
        flips(a, b, true, h, w) + flips(a, b, false, h, w) == differences(a, b, h, w),
        differences(a, b, h, w) <= h * w,
    decreases h,
{
    if h > 0 {
        lemma_changes_partition(a, b, h - 1, w);
        lemma_changes_in_row(a[h - 1], b[h - 1], w);
        assert((h - 1) * w + w == h * w) by (nonlinear_arith);
    }
}

/// One generation step depends on nothing but the grid and the ruleset: two
/// universes that agree on both step to the same grid, with the same killed and
/// resurrected counts.
pub proof fn lemma_step_deterministic(a: Universe, b: Universe)
    requires
        a.height() == b.height(),
        a.width() == b.width(),
        a.grid() == b.grid(),
        a.survive_mask() == b.survive_mask(),
        a.resurrect_mask() == b.resurrect_mask(),
    ensures
        a.next_grid() == b.next_grid(),
        flips(a.grid(), a.next_grid(), true, a.height() as int, a.width() as int) == flips(
            b.grid(),
            b.next_grid(),
            true,
            b.height() as int,
            b.width() as int,
        ),
        flips(a.grid(), a.next_grid(), false, a.height() as int, a.width() as int) == flips(
            b.grid(),
            b.next_grid(),
            false,
            b.height() as int,
            b.width() as int,
        ),
{
}

/// `x` held between `lo` and `hi`.
spec fn clamp(x: int, lo: int, hi: int) -> int {
    if x < lo {
        lo
    } else if x > hi {
        hi
    } else {
        x
    }
}

/// A row that holds `small` from position `lead` on and is dead elsewhere has, among
/// its first `n` cells, the live cells of the part of `small` they cover.
proof fn lemma_row_embedded(big: Seq<bool>, small: Seq<bool>, lead: int, w: int, n: int)
    requires
        0 <= lead,
        0 <= w,
        0 <= n,
        forall|c: int| 0 <= c < n ==> #[trigger] big[c] == (lead <= c < lead + w && small[c - lead]),
    ensures
        alive_in_row(big, n) == alive_in_row(small, clamp(n - lead, 0, w)),
    decreases n,
{
    if n > 0 {
        lemma_row_embedded(big, small, lead, w, n - 1);
        assert(big[n - 1] == (lead <= n - 1 < lead + w && small[n - 1 - lead]));
    }
}

/// A grid that holds `g` from row `lead_r` and column `lead_c` on and is dead
/// elsewhere has, among its first `m` rows, the live cells of the rows of `g` they
/// cover.
proof fn lemma_population_embedded(
    big: Seq<Seq<bool>>,
    g: Seq<Seq<bool>>,
    lead_r: int,
    lead_c: int,
    h: int,
    w: int,
    m: int,
    big_w: int,
)
    requires
        0 <= lead_r,
        0 <= lead_c,
        0 <= h,
        0 <= w,
        lead_c + w <= big_w,
        0 <= m,
        forall|r: int, c: int|
            0 <= r < m && 0 <= c < big_w ==> #[trigger] big[r][c] == (lead_r <= r < lead_r + h && lead_c
                <= c < lead_c + w && g[r - lead_r][c - lead_c]),
    ensures
        population(big, m, big_w) == population(g, clamp(m - lead_r, 0, h), w),
    decreases m,
{
    if m > 0 {
        lemma_population_embedded(big, g, lead_r, lead_c, h, w, m - 1, big_w);
        let r = m - 1;
        if lead_r <= r < lead_r + h {
            assert forall|c: int| 0 <= c < big_w implies #[trigger] big[r][c] == (lead_c <= c < lead_c
                + w && g[r - lead_r][c - lead_c]) by {}
            lemma_row_embedded(big[r], g[r - lead_r], lead_c, w, big_w);
        } else {
            assert forall|c: int| 0 <= c < big_w implies #[trigger] big[r][c] == (lead_c <= c < lead_c
                + 0 && g[r - lead_r][c - lead_c]) by {}
            lemma_row_embedded(big[r], g[r - lead_r], lead_c, 0, big_w);
        }
    }
}

/// Growing a grid and then shrinking it back to its size gives back the grid: every
/// cell lands in the middle of the larger grid and is taken from there again. Neither
/// step changes the population, so neither resize counts a cell as killed.
pub proof fn lemma_recenter_round_trip(g: Seq<Seq<bool>>, h: nat, w: nat, big_h: nat, big_w: nat)
    requires
        is_grid(g, h, w),
        h <= big_h,
        w <= big_w,
    ensures
        recenter(recenter(g, h, w, big_h, big_w), big_h, big_w, h, w) == g,
        population(recenter(g, h, w, big_h, big_w), big_h as int, big_w as int) == population(
            g,
            h as int,
            w as int,
        ),
{
    let big = recenter(g, h, w, big_h, big_w);
    let back = recenter(big, big_h, big_w, h, w);
    assert forall|r: int, c: int| 0 <= r < h && 0 <= c < w implies back[r][c] == g[r][c] by {
        lemma_span_unit(big_h as int, h as int, r);
        lemma_span_unit(big_w as int, w as int, c);
        let br = span_source(big_h as int, h as int, 1, r);
        let bc = span_source(big_w as int, w as int, 1, c);
        lemma_span_unit(h as int, big_h as int, br);
        lemma_span_unit(w as int, big_w as int, bc);
        assert(big[br][bc] == placed(g, h as int, w as int, big_h as int, big_w as int, br, bc));
    }
    assert(back =~~= g);
    let lead_r = span_lead(h as int, big_h as int, 1);
    let lead_c = span_lead(w as int, big_w as int, 1);
    lemma_span_unit(h as int, big_h as int, 0);
    lemma_span_unit(w as int, big_w as int, 0);
    assert forall|r: int, c: int| 0 <= r < big_h && 0 <= c < big_w implies #[trigger] big[r][c] == (
    lead_r <= r < lead_r + h && lead_c <= c < lead_c + w && g[r - lead_r][c - lead_c]) by {
        lemma_span_unit(h as int, big_h as int, r);
        lemma_span_unit(w as int, big_w as int, c);
    }
    lemma_population_embedded(big, g, lead_r, lead_c, h as int, w as int, big_h as int, big_w as int);
}

/// Growing an extent from `a` to `b` positions and shrinking it back takes every
/// position back to itself: with `resize`'s pixel clause, each pixel of a grid grown
/// and shrunk back is the pixel it had.
pub proof fn lemma_span_round_trip(a: int, b: int, t: int)
    requires
        0 <= a <= b,
        0 <= t < a,
    ensures
        in_span(b, a, 1, 0, t),
        in_span(a, b, 1, 0, span_source(b, a, 1, t)),
        span_source(a, b, 1, span_source(b, a, 1, t)) == t,
{
    lemma_span_unit(b, a, t);
    lemma_span_unit(a, b, span_source(b, a, 1, t));
}

/// Element `i` of a layout of `h` rows of `w` lies in row `i / w`, column `i % w`.
proof fn lemma_position(i: int, h: int, w: int)
    requires
        0 <= i < h * w,
        0 < w,
    ensures
        0 <= i / w < h,
        0 <= i % w < w,
        i == (i / w) * w + i % w,
{
    assert(0 <= i / w < h && 0 <= i % w < w && i == (i / w) * w + i % w) by (nonlinear_arith)
        requires
            0 <= i < h * w,
            0 < w,
    ;
}

/// A pattern of exactly the grid's size, loaded and then read back row by row, gives
/// back its markers: each cell is alive exactly where its marker is 1.
pub proof fn lemma_load_read_back(data: Seq<u8>, h: nat, w: nat, snapshot: Seq<bool>)
    requires
        data.len() == h * w,
        snapshot.len() == h * w,
        unflatten(snapshot, h, w) == recenter(pattern_grid(data, w), pattern_rows(data.len(), w), w, h, w),
    ensures
        forall|i: int| 0 <= i < h * w ==> snapshot[i] == (data[i] == 1u8),
{
    assert forall|i: int| 0 <= i < h * w implies snapshot[i] == (data[i] == 1u8) by {
        assert(w > 0) by (nonlinear_arith)
            requires
                0 <= i < h * w,
                h >= 0,
                w >= 0,
        ;
        lemma_position(i, h as int, w as int);
        let r = i / w as int;
        let c = i % w as int;
        assert(((h * w) as int) / (w as int) == h) by (nonlinear_arith)
            requires
                w > 0,
        ;
        lemma_span_unit(h as int, h as int, r);
        lemma_span_unit(w as int, w as int, c);
        assert(unflatten(snapshot, h, w)[r][c] == at(snapshot, w as int, r, c));
    }
}

} // verus!
