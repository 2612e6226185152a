//! The mathematical model of a grid of cells, of one generation step, and of the
//! centred placement of one rectangle in another.
use vstd::prelude::*;

verus! {

/// The largest multiple of `factor` that is at most `val`.
pub open spec fn floor_to_spec(val: int, factor: int) -> int {
    val - val % factor
}

/// Element (r, c) of a row-major sequence with `w` elements in each row.
pub open spec fn at<T>(s: Seq<T>, w: int, r: int, c: int) -> T {
    s[r * w + c]
}

/// A position of a row-major layout lies inside it.
pub proof fn lemma_index_bound(r: int, c: int, h: int, w: int)
    requires
        0 <= r < h,
        0 <= c < w,
    ensures
        0 <= r * w + c < h * w,
        r * w + c + w - c <= h * w,
        0 <= r * w,
{
    assert(0 <= r * w + c < h * w && r * w + c + w - c <= h * w && 0 <= r * w) by (nonlinear_arith)
        requires
            0 <= r < h,
            0 <= c < w,
    ;
}

/// Distinct positions of a row-major layout have distinct indices.
pub proof fn lemma_index_distinct(r1: int, c1: int, r2: int, c2: int, w: int)
    requires
        0 <= c1 < w,
        0 <= c2 < w,
        r1 != r2 || c1 != c2,
    ensures
        r1 * w + c1 != r2 * w + c2,
{
    if r1 < r2 {
        assert(r1 * w + c1 < r2 * w + c2) by (nonlinear_arith)
            requires
                r1 < r2,
                0 <= c1 < w,
                0 <= c2,
        ;
    } else if r2 < r1 {
        assert(r2 * w + c2 < r1 * w + c1) by (nonlinear_arith)
            requires
                r2 < r1,
                0 <= c2 < w,
                0 <= c1,
        ;
    }
}

/// The whole rows of a sequence of `len` elements, `w` to a row, lie inside it.
pub proof fn lemma_whole_rows(len: int, w: int)
    requires
        0 <= len,
        0 < w,
    ensures
        0 <= (len / w) * w <= len,
        len < (len / w) * w + w,
{
    assert(0 <= (len / w) * w <= len && len < (len / w) * w + w) by (nonlinear_arith)
        requires
            0 <= len,
            0 < w,
    ;
}

/// A layout of `h` rows of `w` elements has `h` whole rows.
pub proof fn lemma_rows_of_product(h: int, w: int)
    requires
        0 <= h,
        0 < w,
    ensures
        (h * w) / w == h,
{
    assert((h * w) / w == h) by (nonlinear_arith)
        requires
            0 <= h,
            0 < w,
    ;
}

/// Rounding down to a multiple stays between zero and the value.
pub proof fn lemma_floor_to(x: int, f: int)
    requires
        0 <= x,
        0 < f,
    ensures
        0 <= floor_to_spec(x, f) <= x,
        x < floor_to_spec(x, f) + f,
        floor_to_spec(x, f) % f == 0,
{
    assert(0 <= x % f < f && x % f <= x) by (nonlinear_arith)
        requires
            0 <= x,
            0 < f,
    ;
    assert((x - x % f) % f == 0) by (nonlinear_arith)
        requires
            0 <= x,
            0 < f,
    ;
}

/// Rounding down to a multiple of `f` keeps every multiple of `f` below the value.
pub proof fn lemma_floor_to_keeps(y: int, x: int, f: int)
    requires
        0 <= y <= x,
        0 < f,
        y % f == 0,
    ensures
        y <= floor_to_spec(x, f),
{
    assert(y <= x - x % f) by (nonlinear_arith)
        requires
            0 <= y <= x,
            0 < f,
            y % f == 0,
    {
        assert(y == (y / f) * f);
        assert(x == (x / f) * f + x % f);
        assert(0 <= x % f < f);
        if y / f > x / f {
            assert((y / f) * f >= (x / f) * f + f);
        }
    }
}

/// `g` has `h` rows of `w` cells each.
pub open spec fn is_grid(g: Seq<Seq<bool>>, h: nat, w: nat) -> bool {
    &&& g.len() == h
    &&& forall|r: int| 0 <= r < h ==> (#[trigger] g[r]).len() == w
}

/// The cell at row `r`, column `c` of `g`; every cell outside the grid is dead.
pub open spec fn alive_at(g: Seq<Seq<bool>>, r: int, c: int) -> bool {
    0 <= r < g.len() && 0 <= c < g[r].len() && g[r][c]
}

pub open spec fn b2n(b: bool) -> nat {
    if b {
        1
    } else {
        0
    }
}

/// The number of live cells among the eight cells that surround (r, c).
pub open spec fn live_neighbors(g: Seq<Seq<bool>>, r: int, c: int) -> nat {
    b2n(alive_at(g, r - 1, c - 1)) + b2n(alive_at(g, r - 1, c)) + b2n(alive_at(g, r - 1, c + 1))
        + b2n(alive_at(g, r, c - 1)) + b2n(alive_at(g, r, c + 1)) + b2n(alive_at(g, r + 1, c - 1))
        + b2n(alive_at(g, r + 1, c)) + b2n(alive_at(g, r + 1, c + 1))
}

/// Bit `n` of `mask` is set.
pub open spec fn has_bit(mask: u16, n: nat) -> bool {
    n < 16 && (mask >> (n as u16)) & 1u16 == 1u16
}

/// The state of a cell in the next generation: a live cell with `n` live neighbours
/// stays alive when bit `n` of the survive mask is set, a dead one comes alive when
/// bit `n` of the resurrect mask is set.
pub open spec fn rule(alive: bool, n: nat, survive: u16, resurrect: u16) -> bool {
    if alive {
        has_bit(survive, n)
    } else {
        has_bit(resurrect, n)
    }
}

/// The generation that follows `g` (of `h` rows and `w` columns) under the ruleset.
pub open spec fn successor(g: Seq<Seq<bool>>, h: nat, w: nat, survive: u16, resurrect: u16) -> Seq<
    Seq<bool>,
> {
    Seq::new(
        h,
        |r: int| Seq::new(w, |c: int| rule(g[r][c], live_neighbors(g, r, c), survive, resurrect)),
    )
}

/// Among the first `n` cells of two rows, those that are `from` in `a` and not in `b`.
pub open spec fn flips_in_row(a: Seq<bool>, b: Seq<bool>, from: bool, n: int) -> nat
    decreases n,
{
    if n <= 0 {
        0
    } else {
        flips_in_row(a, b, from, n - 1) + b2n(a[n - 1] == from && b[n - 1] != from)
    }
}

/// Among the cells of the first `h` rows and `w` columns of two grids, those that are
/// `from` in `a` and not in `b`: with `from` true the cells killed between `a` and `b`,
/// with `from` false those resurrected.
pub open spec fn flips(a: Seq<Seq<bool>>, b: Seq<Seq<bool>>, from: bool, h: int, w: int) -> nat
    decreases h,
{
    if h <= 0 {
        0
    } else {
        flips(a, b, from, h - 1, w) + flips_in_row(a[h - 1], b[h - 1], from, w)
    }
}

/// Among the first `n` cells of two rows, those that differ.
pub open spec fn differences_in_row(a: Seq<bool>, b: Seq<bool>, n: int) -> nat
    decreases n,
{
    if n <= 0 {
        0
    } else {
        differences_in_row(a, b, n - 1) + b2n(a[n - 1] != b[n - 1])
    }
}

/// Among the cells of the first `h` rows and `w` columns of two grids, those that
/// differ.
pub open spec fn differences(a: Seq<Seq<bool>>, b: Seq<Seq<bool>>, h: int, w: int) -> nat
    decreases h,
{
    if h <= 0 {
        0
    } else {
        differences(a, b, h - 1, w) + differences_in_row(a[h - 1], b[h - 1], w)
    }
}

/// The number of live cells among the first `n` of a row.
pub open spec fn alive_in_row(a: Seq<bool>, n: int) -> nat
    decreases n,
{
    if n <= 0 {
        0
    } else {
        alive_in_row(a, n - 1) + b2n(a[n - 1])
    }
}

/// The number of live cells in the first `h` rows and `w` columns of a grid.
pub open spec fn population(g: Seq<Seq<bool>>, h: int, w: int) -> nat
    decreases h,
{
    if h <= 0 {
        0
    } else {
        population(g, h - 1, w) + alive_in_row(g[h - 1], w)
    }
}

/// The number of elements equal to `v` among the first `n` of `s`.
pub open spec fn occurrences(s: Seq<bool>, v: bool, n: int) -> nat
    decreases n,
{
    if n <= 0 {
        0
    } else {
        occurrences(s, v, n - 1) + b2n(s[n - 1] == v)
    }
}

/// The number of live cells among the first `k` of row `pr` of a padded buffer.
pub open spec fn alive_in_padded_row(buf: Seq<bool>, cols: int, pr: int, k: int) -> nat
    decreases k,
{
    if k <= 0 {
        0
    } else {
        alive_in_padded_row(buf, cols, pr, k - 1) + b2n(at(buf, cols, pr, k - 1))
    }
}

proof fn lemma_occurrences_row(buf: Seq<bool>, cols: int, pr: int, k: int)
    requires
        0 <= pr,
        0 <= k <= cols,
    ensures
        occurrences(buf, true, pr * cols + k) == occurrences(buf, true, pr * cols)
            + alive_in_padded_row(buf, cols, pr, k),
    decreases k,
{
    if k > 0 {
        lemma_occurrences_row(buf, cols, pr, k - 1);
        assert(pr * cols >= 0) by (nonlinear_arith)
            requires
                0 <= pr,
                0 <= cols,
        ;
    }
}

proof fn lemma_padded_row(buf: Seq<bool>, rows: int, cols: int, pr: int, k: int)
    requires
        2 <= rows,
        2 <= cols,
        border_dead(buf, rows, cols),
        0 <= pr < rows,
        0 <= k <= cols,
    ensures
        alive_in_padded_row(buf, cols, pr, k) == if pr == 0 || pr == rows - 1 {
            0
        } else if k == cols {
            alive_in_row(interior(buf, rows, cols)[pr - 1], cols - 2)
        } else if k == 0 {
            0
        } else {
            alive_in_row(interior(buf, rows, cols)[pr - 1], k - 1)
        },
    decreases k,
{
    if k > 0 {
        lemma_padded_row(buf, rows, cols, pr, k - 1);
        assert(pr == 0 || pr == rows - 1 || k - 1 == 0 || k - 1 == cols - 1 ==> !at(buf, cols, pr, k - 1));
    }
}

/// Counting the live cells of a padded buffer whose frame is dead, element by
/// element, gives the population of its interior.
pub proof fn lemma_occurrences_population(buf: Seq<bool>, rows: int, cols: int, pr: int)
    requires
        2 <= rows,
        2 <= cols,
        border_dead(buf, rows, cols),
        1 <= pr <= rows,
    ensures
        occurrences(buf, true, pr * cols) == population(
            interior(buf, rows, cols),
            if pr == rows { rows - 2 } else { pr - 1 },
            cols - 2,
        ),
    decreases pr,
{
    let g = interior(buf, rows, cols);
    if pr == 1 {
        lemma_occurrences_row(buf, cols, 0, cols);
        lemma_padded_row(buf, rows, cols, 0, cols);
    } else {
        lemma_occurrences_population(buf, rows, cols, pr - 1);
        lemma_occurrences_row(buf, cols, pr - 1, cols);
        lemma_padded_row(buf, rows, cols, pr - 1, cols);
        assert((pr - 1) * cols + cols == pr * cols) by (nonlinear_arith);
    }
}

/// How far the smaller of two extents `a` and `b` sits inside the larger when it is
/// centred, rounded down to a multiple of `f`.
pub open spec fn span_offset(a: int, b: int, f: int) -> int {
    floor_to_spec((if a > b { a - b } else { b - a }) / 2, f)
}

/// How many positions of the smaller extent are placed in the larger, in whole
/// groups of `f`.
pub open spec fn span_len(a: int, b: int, f: int) -> int {
    floor_to_spec(span_offset(a, b, f) + (if a > b { b } else { a }), f) - span_offset(a, b, f)
}

/// Where the placed positions start in the target extent `b`.
pub open spec fn span_lead(a: int, b: int, f: int) -> int {
    if b > a {
        span_offset(a, b, f)
    } else {
        0
    }
}

/// Where the placed positions start in the source extent `a`.
pub open spec fn span_skip(a: int, b: int, f: int) -> int {
    if a > b {
        span_offset(a, b, f)
    } else {
        0
    }
}

/// Position `t` of the target extent receives a value, `m` positions being left out
/// at each end of the placed run.
pub open spec fn in_span(a: int, b: int, f: int, m: int, t: int) -> bool {
    m <= t - span_lead(a, b, f) < span_len(a, b, f) - m
}

/// The position of the source extent that position `t` of the target receives.
pub open spec fn span_source(a: int, b: int, f: int, t: int) -> int {
    t - span_lead(a, b, f) + span_skip(a, b, f)
}

/// Element (r, c) of an `h` by `w` row-major layout receives a value when a `sh` by
/// `sw` layout is placed in it, centred, columns in whole groups of `f`, and `m`
/// rows and columns left out at each edge of the placed part.
pub open spec fn copy_covers(sh: int, sw: int, h: int, w: int, f: int, m: int, r: int, c: int) -> bool {
    in_span(sh, h, 1, m, r) && in_span(sw, w, f, m, c)
}

/// With groups of one, the placed run is as long as the smaller extent, and every
/// placed position takes a position inside the source extent.
pub proof fn lemma_span_unit(a: int, b: int, t: int)
    requires
        0 <= a,
        0 <= b,
    ensures
        span_offset(a, b, 1) == (if a > b { a - b } else { b - a }) / 2,
        span_len(a, b, 1) == if a > b { b } else { a },
        in_span(a, b, 1, 0, t) ==> 0 <= span_source(a, b, 1, t) < a && 0 <= t < b,
{
    lemma_floor_to((if a > b { a - b } else { b - a }) / 2, 1);
    lemma_floor_to(span_offset(a, b, 1) + (if a > b { b } else { a }), 1);
    assert(((if a > b { a - b } else { b - a }) / 2) % 1 == 0);
    assert((span_offset(a, b, 1) + (if a > b { b } else { a })) % 1 == 0);
}

/// Byte `k` of pixel (r, c) is element (r, 4c + k) of the buffer seen as rows of
/// bytes.
pub proof fn lemma_px_bytes(img: Seq<u8>, w: int, r: int, c: int, k: int)
    ensures
        px(img, w, r, c, k) == at(img, 4 * w, r, 4 * c + k),
{
    assert((r * w + c) * 4 + k == r * (4 * w) + (4 * c + k)) by (nonlinear_arith);
}

/// Placing padded extents with a margin of one places their interiors.
pub proof fn lemma_span_padded(a: int, b: int, x: int)
    requires
        0 <= a,
        0 <= b,
    ensures
        in_span(a + 2, b + 2, 1, 1, x + 1) == in_span(a, b, 1, 0, x),
        span_source(a + 2, b + 2, 1, x + 1) == span_source(a, b, 1, x) + 1,
{
    lemma_span_unit(a, b, x);
    lemma_span_unit(a + 2, b + 2, x + 1);
}

/// Placing extents of four-byte pixels in groups of four places whole pixels.
pub proof fn lemma_span_bytes(a: int, b: int, c: int, k: int)
    requires
        0 <= a,
        0 <= b,
        0 <= k < 4,
    ensures
        in_span(4 * a, 4 * b, 4, 0, 4 * c + k) == in_span(a, b, 1, 0, c),
        span_source(4 * a, 4 * b, 4, 4 * c + k) == 4 * span_source(a, b, 1, c) + k,
{
    lemma_span_unit(a, b, c);
    let d = if a > b { a - b } else { b - a };
    let q = d / 2;
    assert(floor_to_spec((4 * d) / 2, 4) == 4 * q) by (nonlinear_arith)
        requires
            d >= 0,
            q == d / 2,
    {
        assert((4 * d) / 2 == 2 * d);
        assert(d == 2 * q + d % 2);
        assert((2 * d) % 4 == 2 * (d % 2));
    }
    assert(span_offset(4 * a, 4 * b, 4) == 4 * q);
    let m = if a > b { b } else { a };
    assert(floor_to_spec(4 * q + 4 * m, 4) == 4 * q + 4 * m) by (nonlinear_arith);
    assert(span_len(4 * a, 4 * b, 4) == 4 * m);
    assert(span_len(a, b, 1) == m);
    assert(span_offset(a, b, 1) == q);
    assert(in_span(4 * a, 4 * b, 4, 0, 4 * c + k) == in_span(a, b, 1, 0, c)) by (nonlinear_arith)
        requires
            0 <= k < 4,
            in_span(4 * a, 4 * b, 4, 0, 4 * c + k) == (0 <= 4 * c + k - span_lead(4 * a, 4 * b, 4) < 4
                * m),
            in_span(a, b, 1, 0, c) == (0 <= c - span_lead(a, b, 1) < m),
            span_lead(4 * a, 4 * b, 4) == 4 * span_lead(a, b, 1),
    ;
}

/// Cell (r, c) of an `h` by `w` grid into which the `sh` by `sw` grid `src` is placed,
/// centred, cropped where it is larger; the cells it does not cover are dead.
pub open spec fn placed(src: Seq<Seq<bool>>, sh: int, sw: int, h: int, w: int, r: int, c: int) -> bool {
    in_span(sh, h, 1, 0, r) && in_span(sw, w, 1, 0, c) && src[span_source(sh, h, 1, r)][span_source(
        sw,
        w,
        1,
        c,
    )]
}

/// The `h` by `w` grid into which the `sh` by `sw` grid `src` is placed, centred.
pub open spec fn recenter(src: Seq<Seq<bool>>, sh: nat, sw: nat, h: nat, w: nat) -> Seq<Seq<bool>> {
    Seq::new(h, |r: int| Seq::new(w, |c: int| placed(src, sh as int, sw as int, h as int, w as int, r, c)))
}


/// The interior of a padded row-major buffer of `rows` by `cols` cells, as a grid of
/// `rows - 2` by `cols - 2` cells.
pub open spec fn interior(buf: Seq<bool>, rows: int, cols: int) -> Seq<Seq<bool>> {
    Seq::new(
        (rows - 2) as nat,
        |r: int| Seq::new((cols - 2) as nat, |c: int| at(buf, cols, r + 1, c + 1)),
    )
}

/// Every cell of the one-cell frame around a padded buffer is dead.
pub open spec fn border_dead(buf: Seq<bool>, rows: int, cols: int) -> bool {
    forall|pr: int, pc: int|
        0 <= pr < rows && 0 <= pc < cols && (pr == 0 || pr == rows - 1 || pc == 0 || pc == cols
            - 1) ==> !#[trigger] at(buf, cols, pr, pc)
}

/// Byte `k` of pixel (r, c) of an RGBA buffer with `w` pixels to a row.
pub open spec fn px(img: Seq<u8>, w: int, r: int, c: int, k: int) -> u8 {
    img[(r * w + c) * 4 + k]
}

/// The red, green and blue bytes of pixel (r, c).
pub open spec fn pixel_at(img: Seq<u8>, w: int, r: int, c: int) -> (u8, u8, u8) {
    (px(img, w, r, c, 0), px(img, w, r, c, 1), px(img, w, r, c, 2))
}

/// The colour of a pixel is its red, green and blue bytes.
pub proof fn lemma_pixel_bytes(img: Seq<u8>, w: int, r: int, c: int)
    ensures
        pixel_at(img, w, r, c) == (px(img, w, r, c, 0), px(img, w, r, c, 1), px(img, w, r, c, 2)),
{
}

/// An RGBA buffer of `h` by `w` pixels whose colour bytes are all multiples of the
/// ageing step and whose alpha bytes are all opaque.
pub open spec fn pixels_ok(img: Seq<u8>, h: int, w: int) -> bool {
    &&& img.len() == h * w * 4
    &&& forall|r: int, c: int, k: int|
        0 <= r < h && 0 <= c < w && 0 <= k < 4 ==> (#[trigger] px(img, w, r, c, k)) % 3 == 0 && (k
            == 3 ==> px(img, w, r, c, k) == 255)
}

/// The colour of a pixel whose cell has lived one generation more: it walks the ramp
/// green, turquoise, blue, magenta, red by steps of three, and stops at red.
pub open spec fn age(p: (u8, u8, u8)) -> (u8, u8, u8) {
    let (r, g, b) = p;
    if r == 0 && g == 255 && b < 255 {
        (r, g, (b + 3) as u8)
    } else if r == 0 && g > 0 && b == 255 {
        (r, (g - 3) as u8, b)
    } else if r < 255 && g == 0 && b == 255 {
        ((r + 3) as u8, g, b)
    } else if r == 255 && g == 0 && b > 0 {
        (r, g, (b - 3) as u8)
    } else {
        p
    }
}

/// The colour of a pixel after a generation in which its cell went from `was` to
/// `now`: green when it came alive, white when it died, one step older when it
/// stayed alive, and unchanged when it stayed dead.
pub open spec fn repaint(p: (u8, u8, u8), was: bool, now: bool) -> (u8, u8, u8) {
    if was != now {
        if now {
            (0, 255, 0)
        } else {
            (255, 255, 255)
        }
    } else if now {
        age(p)
    } else {
        p
    }
}

/// Byte `k` of a colour, for `k` among red, green and blue.
pub open spec fn channel(p: (u8, u8, u8), k: int) -> u8 {
    if k == 0 {
        p.0
    } else if k == 1 {
        p.1
    } else {
        p.2
    }
}

/// A cell of a padded buffer whose frame is dead is the cell of its interior one row
/// and one column up and left, or dead where that lies outside the interior.
pub proof fn lemma_padded_cell(buf: Seq<bool>, rows: int, cols: int, pr: int, pc: int)
    requires
        2 <= rows,
        2 <= cols,
        border_dead(buf, rows, cols),
        0 <= pr < rows,
        0 <= pc < cols,
    ensures
        at(buf, cols, pr, pc) == alive_at(interior(buf, rows, cols), pr - 1, pc - 1),
{
    if pr == 0 || pr == rows - 1 || pc == 0 || pc == cols - 1 {
        assert(!at(buf, cols, pr, pc));
    }
}

/// The `h` by `w` grid laid out row by row in `cells`.
pub open spec fn unflatten(cells: Seq<bool>, h: nat, w: nat) -> Seq<Seq<bool>> {
    Seq::new(h, |r: int| Seq::new(w, |c: int| at(cells, w as int, r, c)))
}

/// The number of whole rows of `pc` markers in `len` of them.
pub open spec fn pattern_rows(len: nat, pc: nat) -> nat {
    if pc == 0 {
        0
    } else {
        len / pc
    }
}

/// The pattern held by `data` in rows of `pc` markers, a marker 1 standing for a live
/// cell and any other for a dead one; a trailing partial row is not part of it.
pub open spec fn pattern_grid(data: Seq<u8>, pc: nat) -> Seq<Seq<bool>> {
    Seq::new(
        pattern_rows(data.len(), pc),
        |r: int| Seq::new(pc, |c: int| at(data, pc as int, r, c) == 1u8),
    )
}

/// The colour of a freshly painted pixel: green for a live cell, white for a dead one.
pub open spec fn fresh(alive: bool) -> (u8, u8, u8) {
    if alive {
        (0, 255, 0)
    } else {
        (255, 255, 255)
    }
}

/// Against a grid with no live cell, no cell is killed and the resurrected cells are
/// the live cells of the other grid.
pub proof fn lemma_flips_from_empty(a: Seq<Seq<bool>>, b: Seq<Seq<bool>>, h: int, w: int)
    requires
        forall|r: int, c: int| 0 <= r < h && 0 <= c < w ==> !#[trigger] a[r][c],
    ensures
        flips(a, b, false, h, w) == population(b, h, w),
        flips(a, b, true, h, w) == 0,
    decreases h,
{
    if h > 0 {
        lemma_flips_from_empty(a, b, h - 1, w);
        lemma_flips_from_empty_row(a[h - 1], b[h - 1], w);
    }
}

proof fn lemma_flips_from_empty_row(a: Seq<bool>, b: Seq<bool>, n: int)
    requires
        forall|c: int| 0 <= c < n ==> !#[trigger] a[c],
    ensures
        flips_in_row(a, b, false, n) == alive_in_row(b, n),
        flips_in_row(a, b, true, n) == 0,
    decreases n,
{
    if n > 0 {
        lemma_flips_from_empty_row(a, b, n - 1);
    }
}

/// A cell changes in at most one direction, so the killed and the resurrected cells
/// of a row together are at most its length.
pub proof fn lemma_flips_in_row_bound(a: Seq<bool>, b: Seq<bool>, n: int)
    requires
        0 <= n,
    ensures
        flips_in_row(a, b, true, n) + flips_in_row(a, b, false, n) <= n,
    decreases n,
{
    if n > 0 {
        lemma_flips_in_row_bound(a, b, n - 1);
    }
}

/// The killed and the resurrected cells of a grid together are at most its size.
pub proof fn lemma_flips_bound(a: Seq<Seq<bool>>, b: Seq<Seq<bool>>, h: int, w: int)
    requires
        0 <= h,
        0 <= w,
    ensures
        flips(a, b, true, h, w) + flips(a, b, false, h, w) <= h * w,
    decreases h,
{
    if h > 0 {
        lemma_flips_bound(a, b, h - 1, w);
        lemma_flips_in_row_bound(a[h - 1], b[h - 1], w);
        assert((h - 1) * w + w == h * w) by (nonlinear_arith);
    }
}

} // verus!
