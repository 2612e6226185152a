//! One generation step over a padded buffer: the sliding neighbourhood mask, the
//! rule lookup, change counting and pixel upkeep.
use vstd::prelude::*;

use crate::model::{
    lemma_pixel_bytes,
    at, b2n, border_dead, channel, flips, flips_in_row, interior,
    lemma_flips_in_row_bound, lemma_flips_bound, lemma_index_bound, lemma_index_distinct,
    lemma_padded_cell, live_neighbors, pixel_at, pixels_ok, px, repaint, successor,
    fresh, unflatten, copy_covers, in_span, placed, lemma_px_bytes, lemma_rows_of_product,
    lemma_span_bytes, lemma_span_padded, lemma_span_unit, recenter, span_source,
};
use crate::utils::copy_2d;

verus! {

/// The six bits of the two columns left of the one about to enter the mask:
/// top, middle, bottom of the outer column, then of the inner one.
pub open spec fn two_columns(a: u16, b: u16, c: u16, d: u16, e: u16, f: u16) -> u16 {
    (32 * a + 16 * b + 8 * c + 4 * d + 2 * e + f) as u16
}

/// The mask built from the first two columns is a valid start.
proof fn lemma_mask_start(a: u16, b: u16, c: u16, d: u16, e: u16, f: u16)
    requires
        a <= 1,
        b <= 1,
        c <= 1,
        d <= 1,
        e <= 1,
        f <= 1,
    ensures
        (a * 32 + d * 4 + b * 16 + e * 2 + c * 8 + f * 1) as u16 & 63u16 == two_columns(a, b, c, d, e, f),
        ((a * 32 + d * 4 + b * 16 + e * 2 + c * 8 + f * 1) as u16) < 512,
{
    assert((a * 32 + d * 4 + b * 16 + e * 2 + c * 8 + f * 1) as u16 & 63u16 == (32 * a + 16 * b + 8
        * c + 4 * d + 2 * e + f) as u16 && ((a * 32 + d * 4 + b * 16 + e * 2 + c * 8 + f * 1) as u16)
        < 512) by (bit_vector)
        requires
            a <= 1,
            b <= 1,
            c <= 1,
            d <= 1,
            e <= 1,
            f <= 1,
    ;
}

/// Sliding the mask one column to the right: the column that leaves drops out, the
/// one that enters takes the low bits, and the eight bits around the centre bit count
/// the live neighbours of the middle cell.
proof fn lemma_mask_slide(
    mask: u16,
    a: u16,
    b: u16,
    c: u16,
    d: u16,
    e: u16,
    f: u16,
    g: u16,
    h: u16,
    i: u16,
)
    requires
        a <= 1,
        b <= 1,
        c <= 1,
        d <= 1,
        e <= 1,
        f <= 1,
        g <= 1,
        h <= 1,
        i <= 1,
        mask < 512,
        mask & 63u16 == two_columns(a, b, c, d, e, f),
    ensures
        ((mask << 3u16) & 511u16) <= 511,
        ((((mask << 3u16) & 511u16) + g * 4 + h * 2 + i * 1) as u16) < 512,
        ((((mask << 3u16) & 511u16) + g * 4 + h * 2 + i * 1) as u16) & 63u16 == two_columns(
            d,
            e,
            f,
            g,
            h,
            i,
        ),
        ({
            let m = (((mask << 3u16) & 511u16) + g * 4 + h * 2 + i * 1) as u16;
            (m & 1u16) + (m >> 1u16 & 1u16) + (m >> 2u16 & 1u16) + (m >> 3u16 & 1u16) + (m >> 5u16
                & 1u16) + (m >> 6u16 & 1u16) + (m >> 7u16 & 1u16) + (m >> 8u16 & 1u16) == a + b + c
                + d + f + g + h + i
        }),
{
    assert(((mask << 3u16) & 511u16) <= 511 && ((((mask << 3u16) & 511u16) + g * 4 + h * 2 + i
        * 1) as u16) < 512 && ((((mask << 3u16) & 511u16) + g * 4 + h * 2 + i * 1) as u16) & 63u16
        == (32 * d + 16 * e + 8 * f + 4 * g + 2 * h + i) as u16) by (bit_vector)
        requires
            a <= 1,
            b <= 1,
            c <= 1,
            d <= 1,
            e <= 1,
            f <= 1,
            g <= 1,
            h <= 1,
            i <= 1,
            mask < 512,
            mask & 63u16 == (32 * a + 16 * b + 8 * c + 4 * d + 2 * e + f) as u16,
    ;
    let m = (((mask << 3u16) & 511u16) + g * 4 + h * 2 + i * 1) as u16;
    assert((m & 1u16) + (m >> 1u16 & 1u16) + (m >> 2u16 & 1u16) + (m >> 3u16 & 1u16) + (m >> 5u16
        & 1u16) + (m >> 6u16 & 1u16) + (m >> 7u16 & 1u16) + (m >> 8u16 & 1u16) == a + b + c + d + f
        + g + h + i) by (bit_vector)
        requires
            a <= 1,
            b <= 1,
            c <= 1,
            d <= 1,
            e <= 1,
            f <= 1,
            g <= 1,
            h <= 1,
            i <= 1,
            mask < 512,
            mask & 63u16 == (32 * a + 16 * b + 8 * c + 4 * d + 2 * e + f) as u16,
            m == (((mask << 3u16) & 511u16) + g * 4 + h * 2 + i * 1) as u16,
    ;
}

/// Testing a rule mask with a one-bit mask reads bit `n` of it.
proof fn lemma_rule_bit(n: u16, rules: u16)
    requires
        n <= 8,
    ensures
        ((1u16 << n) & rules != 0) == ((rules >> n) & 1u16 == 1u16),
{
    assert(((1u16 << n) & rules != 0) == ((rules >> n) & 1u16 == 1u16)) by (bit_vector)
        requires
            n <= 8,
    ;
}

/// Cell (r, c) comes before the cell (ur, uc) in row-major order.
pub open spec fn before_cell(r: int, c: int, ur: int, uc: int) -> bool {
    r < ur || (r == ur && c < uc)
}

/// The interior cells of the padded buffer `buf` that come before (ur, uc) hold the
/// grid `s`; all its other cells are as in `orig`.
pub open spec fn written_up_to(
    buf: Seq<bool>,
    orig: Seq<bool>,
    s: Seq<Seq<bool>>,
    rows: int,
    cols: int,
    ur: int,
    uc: int,
) -> bool {
    &&& buf.len() == orig.len()
    &&& forall|pr: int, pc: int|
        0 <= pr < rows && 0 <= pc < cols ==> #[trigger] at(buf, cols, pr, pc) == if 1 <= pr <= rows
            - 2 && 1 <= pc <= cols - 2 && before_cell(pr - 1, pc - 1, ur, uc) {
            s[pr - 1][pc - 1]
        } else {
            at(orig, cols, pr, pc)
        }
}

/// The pixels of the cells that come before (ur, uc) are repainted for the step from
/// `g` to `s`; all other pixels are as in `orig`.
pub open spec fn painted_up_to(
    img: Seq<u8>,
    orig: Seq<u8>,
    g: Seq<Seq<bool>>,
    s: Seq<Seq<bool>>,
    h: int,
    w: int,
    ur: int,
    uc: int,
) -> bool {
    &&& pixels_ok(img, h, w)
    &&& forall|r: int, c: int|
        0 <= r < h && 0 <= c < w ==> #[trigger] pixel_at(img, w, r, c) == if before_cell(
            r,
            c,
            ur,
            uc,
        ) {
            repaint(pixel_at(orig, w, r, c), g[r][c], s[r][c])
        } else {
            pixel_at(orig, w, r, c)
        }
}

/// Sets the colour bytes of pixel (r, c) of an RGBA buffer with `w` pixels to a row,
/// leaving every other byte as it was.
pub(crate) fn paint(img: &mut Vec<u8>, Ghost(h): Ghost<int>, w: usize, r: usize, c: usize, rgb: (u8, u8, u8))
    requires
        old(img)@.len() == h * w * 4,
        r < h,
        c < w,
    ensures
        final(img)@.len() == old(img)@.len(),
        forall|r2: int, c2: int, k: int|
            0 <= r2 < h && 0 <= c2 < w && 0 <= k < 4 ==> #[trigger] px(final(img)@, w as int, r2, c2, k)
                == if r2 == r && c2 == c && k < 3 {
                channel(rgb, k)
            } else {
                px(old(img)@, w as int, r2, c2, k)
            },
{
    let ghost orig = img@;
    let len = img.len();
    proof {
        lemma_index_bound(r as int, c as int, h, w as int);
        lemma_index_bound(r * w + c, 3, h * w, 4);
    }
    let p = (r * w + c) * 4;
    img.set(p, rgb.0);
    img.set(p + 1, rgb.1);
    img.set(p + 2, rgb.2);
    assert forall|r2: int, c2: int, k: int|
        0 <= r2 < h && 0 <= c2 < w && 0 <= k < 4 implies #[trigger] px(img@, w as int, r2, c2, k)
        == if r2 == r && c2 == c && k < 3 {
        channel(rgb, k)
    } else {
        px(orig, w as int, r2, c2, k)
    } by {
        lemma_index_bound(r2, c2, h, w as int);
        lemma_index_bound(r2 * w + c2, k, h * w, 4);
        if r2 != r || c2 != c {
            lemma_index_distinct(r2, c2, r as int, c as int, w as int);
        }
        if r2 * w + c2 != r * w + c || k != 0 {
            lemma_index_distinct(r2 * w + c2, k, r * w + c, 0, 4);
        }
        if r2 * w + c2 != r * w + c || k != 1 {
            lemma_index_distinct(r2 * w + c2, k, r * w + c, 1, 4);
        }
        if r2 * w + c2 != r * w + c || k != 2 {
            lemma_index_distinct(r2 * w + c2, k, r * w + c, 2, 4);
        }
    }
}

/// Records that cell (r, c) went from `cell` to `next`: counts it as killed or as
/// resurrected when it changed, and repaints its pixel when it changed or stayed
/// alive.
fn record_cell(
    image: &mut Vec<u8>,
    Ghost(h): Ghost<int>,
    w: usize,
    r: usize,
    c: usize,
    cell: bool,
    next: bool,
    killed: &mut u32,
    resurrected: &mut u32,
)
    requires
        pixels_ok(old(image)@, h, w as int),
        r < h,
        c < w,
        *old(killed) + *old(resurrected) < u32::MAX,
    ensures
        pixels_ok(final(image)@, h, w as int),
        forall|r2: int, c2: int|
            0 <= r2 < h && 0 <= c2 < w ==> #[trigger] pixel_at(final(image)@, w as int, r2, c2) == if r2
                == r && c2 == c {
                repaint(pixel_at(old(image)@, w as int, r2, c2), cell, next)
            } else {
                pixel_at(old(image)@, w as int, r2, c2)
            },
        *final(killed) == *old(killed) + b2n(cell == true && next != true),
        *final(resurrected) == *old(resurrected) + b2n(cell == false && next != false),
{
    let ghost orig = image@;
    let len = image.len();
    proof {
        lemma_index_bound(r as int, c as int, h, w as int);
        lemma_index_bound(r * w + c, 3, h * w, 4);
    }
    if cell != next {
        if next {
            *resurrected += 1;
            paint(image, Ghost(h), w, r, c, (0, 255, 0));
        } else {
            *killed += 1;
            paint(image, Ghost(h), w, r, c, (255, 255, 255));
        }
    } else if next {
        // The colour of a live cell tells its age: it goes from green over turquoise,
        // blue and magenta to red
        let pixel = (r * w + c) * 4;
        assert(px(orig, w as int, r as int, c as int, 0) % 3 == 0);
        assert(px(orig, w as int, r as int, c as int, 1) % 3 == 0);
        assert(px(orig, w as int, r as int, c as int, 2) % 3 == 0);
        let (red, green, blue) = (image[pixel], image[pixel + 1], image[pixel + 2]);
        let older = if red == 0 && green == 255 && blue < 255 {
            (red, green, blue + 3)
        } else if red == 0 && green > 0 && blue == 255 {
            (red, green - 3, blue)
        } else if red < 255 && green == 0 && blue == 255 {
            (red + 3, green, blue)
        } else if red == 255 && green == 0 && blue > 0 {
            (red, green, blue - 3)
        } else {
            (red, green, blue)
        };
        paint(image, Ghost(h), w, r, c, older);
    }
    assert forall|r2: int, c2: int|
        0 <= r2 < h && 0 <= c2 < w implies #[trigger] pixel_at(image@, w as int, r2, c2) == if r2
        == r && c2 == c {
        repaint(pixel_at(orig, w as int, r2, c2), cell, next)
    } else {
        pixel_at(orig, w as int, r2, c2)
    } by {
        lemma_pixel_bytes(image@, w as int, r2, c2);
    }
    assert forall|r2: int, c2: int, k: int|
        0 <= r2 < h && 0 <= c2 < w && 0 <= k < 4 implies (#[trigger] px(image@, w as int, r2, c2, k))
        % 3 == 0 && (k == 3 ==> px(image@, w as int, r2, c2, k) == 255) by {
        assert(px(orig, w as int, r2, c2, k) % 3 == 0);
    }
}

/// Slides the neighbourhood mask of row `row` one column on, to centre it on the
/// cell in column `col`, and returns the new mask with the cell's state and its
/// state in the next generation. `top`, `middle` and `bottom` index the second cell
/// of the rows above, at and below the cell.
#[verifier::rlimit(60)]
fn next_cell(
    src: &Vec<bool>,
    rows: usize,
    cols: usize,
    row: usize,
    col: usize,
    top: usize,
    middle: usize,
    bottom: usize,
    mask: u16,
    survive: u16,
    resurrect: u16,
) -> (res: (u16, bool, bool))
    requires
        2 <= rows,
        2 <= cols,
        rows * cols <= u32::MAX,
        src@.len() == rows * cols,
        border_dead(src@, rows as int, cols as int),
        1 <= row < rows - 1,
        1 <= col < cols - 1,
        top == (row - 1) * cols + 1,
        middle == row * cols + 1,
        bottom == (row + 1) * cols + 1,
        mask < 512,
        mask & 63u16 == two_columns(
            at(src@, cols as int, row - 1, col - 1) as u16,
            at(src@, cols as int, row as int, col - 1) as u16,
            at(src@, cols as int, row + 1, col - 1) as u16,
            at(src@, cols as int, row - 1, col as int) as u16,
            at(src@, cols as int, row as int, col as int) as u16,
            at(src@, cols as int, row + 1, col as int) as u16,
        ),
    ensures
        res.0 < 512,
        res.0 & 63u16 == two_columns(
            at(src@, cols as int, row - 1, col as int) as u16,
            at(src@, cols as int, row as int, col as int) as u16,
            at(src@, cols as int, row + 1, col as int) as u16,
            at(src@, cols as int, row - 1, col + 1) as u16,
            at(src@, cols as int, row as int, col + 1) as u16,
            at(src@, cols as int, row + 1, col + 1) as u16,
        ),
        res.1 == interior(src@, rows as int, cols as int)[row - 1][col - 1],
        res.2 == successor(
            interior(src@, rows as int, cols as int),
            (rows - 2) as nat,
            (cols - 2) as nat,
            survive,
            resurrect,
        )[row - 1][col - 1],
{
    let ghost nr = rows as int;
    let ghost nc = cols as int;
    let ghost g = interior(src@, nr, nc);
    let ghost r = row - 1;
    let ghost c = col - 1;
    proof {
        lemma_index_bound(row + 1, col + 1, nr, nc);
        lemma_index_bound(row - 1, col + 1, nr, nc);
        lemma_index_bound(row as int, col + 1, nr, nc);
        lemma_padded_cell(src@, nr, nc, row - 1, col - 1);
        lemma_padded_cell(src@, nr, nc, row - 1, col as int);
        lemma_padded_cell(src@, nr, nc, row - 1, col + 1);
        lemma_padded_cell(src@, nr, nc, row as int, col - 1);
        lemma_padded_cell(src@, nr, nc, row as int, col as int);
        lemma_padded_cell(src@, nr, nc, row as int, col + 1);
        lemma_padded_cell(src@, nr, nc, row + 1, col - 1);
        lemma_padded_cell(src@, nr, nc, row + 1, col as int);
        lemma_padded_cell(src@, nr, nc, row + 1, col + 1);
        lemma_mask_slide(
            mask,
            at(src@, nc, row - 1, col - 1) as u16,
            at(src@, nc, row as int, col - 1) as u16,
            at(src@, nc, row + 1, col - 1) as u16,
            at(src@, nc, row - 1, col as int) as u16,
            at(src@, nc, row as int, col as int) as u16,
            at(src@, nc, row + 1, col as int) as u16,
            at(src@, nc, row - 1, col + 1) as u16,
            at(src@, nc, row as int, col + 1) as u16,
            at(src@, nc, row + 1, col + 1) as u16,
        );
    }
    // Shift the saved columns left and bring in the column to the right
    let mask = ((mask << 3) & 0b111111111) + (src[top + col] as u16 * 4) + (src[middle + col] as u16
        * 2) + (src[bottom + col] as u16 * 1);

    // Count the live neighbours: every bit but the centre one
    let neighbors = (mask & 0b1) + (mask >> 1 & 0b1) + (mask >> 2 & 0b1) + (mask >> 3 & 0b1) + (mask
        >> 5 & 0b1) + (mask >> 6 & 0b1) + (mask >> 7 & 0b1) + (mask >> 8 & 0b1);
    assert(neighbors == live_neighbors(g, r, c));

    let cell = src[middle + col - 1];
    proof {
        lemma_rule_bit(neighbors, survive);
        lemma_rule_bit(neighbors, resurrect);
    }
    let next = if cell {
        (1 << neighbors) & survive != 0
    } else {
        (1 << neighbors) & resurrect != 0
    };
    (mask, cell, next)
}

/// Writes into `tar` the generation that follows the one in `src` (both padded
/// buffers of `rows` by `cols` cells), repaints the pixel of every cell that changed
/// or stayed alive, and returns the numbers of killed and of resurrected cells.
pub(crate) fn advance(
    src: &Vec<bool>,
    tar: &mut Vec<bool>,
    image: &mut Vec<u8>,
    rows: usize,
    cols: usize,
    survive: u16,
    resurrect: u16,
) -> (counts: (u32, u32))
    requires
        2 <= rows,
        2 <= cols,
        rows * cols <= u32::MAX,
        src@.len() == rows * cols,
        old(tar)@.len() == rows * cols,
        border_dead(src@, rows as int, cols as int),
        border_dead(old(tar)@, rows as int, cols as int),
        pixels_ok(old(image)@, rows - 2, cols - 2),
    ensures
        final(tar)@.len() == rows * cols,
        border_dead(final(tar)@, rows as int, cols as int),
        interior(final(tar)@, rows as int, cols as int) == successor(
            interior(src@, rows as int, cols as int),
            (rows - 2) as nat,
            (cols - 2) as nat,
            survive,
            resurrect,
        ),
        pixels_ok(final(image)@, rows - 2, cols - 2),
        forall|r: int, c: int|
            0 <= r < rows - 2 && 0 <= c < cols - 2 ==> #[trigger] pixel_at(final(image)@, cols - 2, r, c)
                == repaint(
                pixel_at(old(image)@, cols - 2, r, c),
                interior(src@, rows as int, cols as int)[r][c],
                successor(
                    interior(src@, rows as int, cols as int),
                    (rows - 2) as nat,
                    (cols - 2) as nat,
                    survive,
                    resurrect,
                )[r][c],
            ),
        counts.0 == flips(
            interior(src@, rows as int, cols as int),
            successor(
                interior(src@, rows as int, cols as int),
                (rows - 2) as nat,
                (cols - 2) as nat,
                survive,
                resurrect,
            ),
            true,
            rows - 2,
            cols - 2,
        ),
        counts.1 == flips(
            interior(src@, rows as int, cols as int),
            successor(
                interior(src@, rows as int, cols as int),
                (rows - 2) as nat,
                (cols - 2) as nat,
                survive,
                resurrect,
            ),
            false,
            rows - 2,
            cols - 2,
        ),
{
    let ghost nr = rows as int;
    let ghost nc = cols as int;
    let ghost h = nr - 2;
    let ghost w = nc - 2;
    let ghost g = interior(src@, nr, nc);
    let ghost s = successor(g, h as nat, w as nat, survive, resurrect);
    let ghost tar0 = tar@;
    let ghost img0 = image@;
    let mut killed: u32 = 0;
    let mut resurrected: u32 = 0;
    proof {
        assert(h * w <= nr * nc) by (nonlinear_arith)
            requires
                0 <= h < nr,
                0 <= w < nc,
        ;
    }

    let mut row: usize = 1;
    while row < rows - 1
        invariant
            nr == rows,
            nc == cols,
            h == nr - 2,
            w == nc - 2,
            2 <= rows,
            2 <= cols,
            rows * cols <= u32::MAX,
            h * w <= nr * nc,
            src@.len() == rows * cols,
            border_dead(src@, nr, nc),
            border_dead(tar0, nr, nc),
            g == interior(src@, nr, nc),
            s == successor(g, h as nat, w as nat, survive, resurrect),
            1 <= row <= rows - 1,
            tar0.len() == rows * cols,
            written_up_to(tar@, tar0, s, nr, nc, row - 1, 0),
            img0.len() == h * w * 4,
            painted_up_to(image@, img0, g, s, h, w, row - 1, 0),
            killed == flips(g, s, true, row - 1, w),
            resurrected == flips(g, s, false, row - 1, w),
        decreases rows - 1 - row,
    {
        proof {
            lemma_index_bound(row + 1, cols - 1, nr, nc);
            if w > 0 {
                lemma_index_bound(row - 1, 0, h, w);
            } else {
                assert((row - 1) * w == 0) by (nonlinear_arith)
                    requires
                        w == 0,
                ;
            }
            assert((row - 1) * nc + nc == row * nc && row * nc + nc == (row + 1) * nc) by (nonlinear_arith);
        }
        let image_data_offset = (row - 1) * (cols - 2);
        let top = (row - 1) * cols + 1;
        let middle = row * cols + 1;
        let bottom = (row + 1) * cols + 1;

        // The mask holds the two columns left of the next cell, three bits each:
        // TL TM X   (X enters at each step, the others move left)
        // ML MM X
        // BL BM X
        let mut mask: u16 = (src[top - 1] as u16 * 32) + (src[top] as u16 * 4) + (src[middle - 1] as u16
            * 16) + (src[middle] as u16 * 2) + (src[bottom - 1] as u16 * 8) + (src[bottom] as u16 * 1);
        proof {
            lemma_mask_start(
                at(src@, nc, row - 1, 0) as u16,
                at(src@, nc, row as int, 0) as u16,
                at(src@, nc, row + 1, 0) as u16,
                at(src@, nc, row - 1, 1) as u16,
                at(src@, nc, row as int, 1) as u16,
                at(src@, nc, row + 1, 1) as u16,
            );
        }

        let mut col: usize = 1;
        while col < cols - 1
            invariant
                nr == rows,
                nc == cols,
                h == nr - 2,
                w == nc - 2,
                2 <= rows,
                2 <= cols,
                rows * cols <= u32::MAX,
                h * w <= nr * nc,
                src@.len() == rows * cols,
                border_dead(src@, nr, nc),
                border_dead(tar0, nr, nc),
                g == interior(src@, nr, nc),
                s == successor(g, h as nat, w as nat, survive, resurrect),
                1 <= row < rows - 1,
                1 <= col <= cols - 1,
                image_data_offset == (row - 1) * w,
                top == (row - 1) * nc + 1,
                middle == row * nc + 1,
                bottom == (row + 1) * nc + 1,
                (row + 1) * nc + nc <= nr * nc,
                mask < 512,
                mask & 63u16 == two_columns(
                    at(src@, nc, row - 1, col - 1) as u16,
                    at(src@, nc, row as int, col - 1) as u16,
                    at(src@, nc, row + 1, col - 1) as u16,
                    at(src@, nc, row - 1, col as int) as u16,
                    at(src@, nc, row as int, col as int) as u16,
                    at(src@, nc, row + 1, col as int) as u16,
                ),
                tar0.len() == rows * cols,
                written_up_to(tar@, tar0, s, nr, nc, row - 1, col - 1),
                img0.len() == h * w * 4,
                painted_up_to(image@, img0, g, s, h, w, row - 1, col - 1),
                killed == flips(g, s, true, row - 1, w) + flips_in_row(g[row - 1], s[row - 1], true, col - 1),
                resurrected == flips(g, s, false, row - 1, w) + flips_in_row(g[row - 1], s[row - 1], false, col - 1),
            decreases cols - 1 - col,
        {
            let ghost r = row - 1;
            let ghost c = col - 1;
            let (slid, cell, next) = next_cell(src, rows, cols, row, col, top, middle, bottom, mask, survive, resurrect);
            mask = slid;
            proof {
                lemma_index_bound(row as int, col as int, nr, nc);
            }
            let cell_index = middle + col - 1;
            let ghost tar_prev = tar@;
            tar.set(cell_index, next);
            assert forall|pr: int, pc: int| 0 <= pr < nr && 0 <= pc < nc implies #[trigger] at(
                tar@,
                nc,
                pr,
                pc,
            ) == if 1 <= pr <= nr - 2 && 1 <= pc <= nc - 2 && before_cell(pr - 1, pc - 1, r, c + 1) {
                s[pr - 1][pc - 1]
            } else {
                at(tar0, nc, pr, pc)
            } by {
                lemma_index_bound(pr, pc, nr, nc);
                if pr != row || pc != col {
                    lemma_index_distinct(pr, pc, row as int, col as int, nc);
                    assert(at(tar@, nc, pr, pc) == at(tar_prev, nc, pr, pc));
                }
            }

            let ghost img_prev = image@;
            proof {
                lemma_flips_bound(g, s, r, w);
                lemma_flips_in_row_bound(g[r], s[r], c);
                lemma_index_bound(r, c, h, w);
                assert(r * w + c + 1 <= h * w);
            }
            record_cell(
                image,
                Ghost(h),
                cols - 2,
                row - 1,
                col - 1,
                cell,
                next,
                &mut killed,
                &mut resurrected,
            );
            assert forall|r2: int, c2: int| 0 <= r2 < h && 0 <= c2 < w implies #[trigger] pixel_at(
                image@,
                w,
                r2,
                c2,
            ) == if before_cell(r2, c2, r, c + 1) {
                repaint(pixel_at(img0, w, r2, c2), g[r2][c2], s[r2][c2])
            } else {
                pixel_at(img0, w, r2, c2)
            } by {
                lemma_pixel_bytes(img_prev, w, r2, c2);
            }
            col += 1;
        }
        assert forall|pr: int, pc: int| 0 <= pr < nr && 0 <= pc < nc implies #[trigger] at(
            tar@,
            nc,
            pr,
            pc,
        ) == if 1 <= pr <= nr - 2 && 1 <= pc <= nc - 2 && before_cell(pr - 1, pc - 1, row as int, 0) {
            s[pr - 1][pc - 1]
        } else {
            at(tar0, nc, pr, pc)
        } by {}
        assert forall|r2: int, c2: int| 0 <= r2 < h && 0 <= c2 < w implies #[trigger] pixel_at(
            image@,
            w,
            r2,
            c2,
        ) == if before_cell(r2, c2, row as int, 0) {
            repaint(pixel_at(img0, w, r2, c2), g[r2][c2], s[r2][c2])
        } else {
            pixel_at(img0, w, r2, c2)
        } by {}
        row += 1;
    }
    proof {
        assert forall|r: int, c: int| 0 <= r < h && 0 <= c < w implies interior(tar@, nr, nc)[r][c]
            == s[r][c] by {
            assert(at(tar@, nc, r + 1, c + 1) == s[r][c]);
        }
        assert(interior(tar@, nr, nc) =~~= s);
        assert forall|pr: int, pc: int|
            0 <= pr < nr && 0 <= pc < nc && (pr == 0 || pr == nr - 1 || pc == 0 || pc == nc - 1)
            implies !#[trigger] at(tar@, nc, pr, pc) by {
            assert(!at(tar0, nc, pr, pc));
        }
    }
    (killed, resurrected)
}

/// The pixels of the cells that come before (ur, uc) show the cells of `s` freshly
/// painted; all other pixels are as in `orig`.
pub open spec fn filled_up_to(
    img: Seq<u8>,
    orig: Seq<u8>,
    s: Seq<Seq<bool>>,
    h: int,
    w: int,
    ur: int,
    uc: int,
) -> bool {
    &&& pixels_ok(img, h, w)
    &&& forall|r: int, c: int|
        0 <= r < h && 0 <= c < w ==> #[trigger] pixel_at(img, w, r, c) == if before_cell(
            r,
            c,
            ur,
            uc,
        ) {
            fresh(s[r][c])
        } else {
            pixel_at(orig, w, r, c)
        }
}

/// Records that cell (r, c) went from `was` to `now`: counts it as killed or as
/// resurrected when it changed, and paints its pixel afresh.
fn mark_cell(
    image: &mut Vec<u8>,
    Ghost(h): Ghost<int>,
    w: usize,
    r: usize,
    c: usize,
    was: bool,
    now: bool,
    killed: &mut u32,
    resurrected: &mut u32,
)
    requires
        pixels_ok(old(image)@, h, w as int),
        r < h,
        c < w,
        *old(killed) + *old(resurrected) < u32::MAX,
    ensures
        pixels_ok(final(image)@, h, w as int),
        forall|r2: int, c2: int|
            0 <= r2 < h && 0 <= c2 < w ==> #[trigger] pixel_at(final(image)@, w as int, r2, c2) == if r2
                == r && c2 == c {
                fresh(now)
            } else {
                pixel_at(old(image)@, w as int, r2, c2)
            },
        *final(killed) == *old(killed) + b2n(was == true && now != true),
        *final(resurrected) == *old(resurrected) + b2n(was == false && now != false),
{
    let ghost orig = image@;
    if now {
        paint(image, Ghost(h), w, r, c, (0, 255, 0));
        if !was {
            *resurrected += 1;
        }
    } else {
        paint(image, Ghost(h), w, r, c, (255, 255, 255));
        if was {
            *killed += 1;
        }
    }
    assert forall|r2: int, c2: int|
        0 <= r2 < h && 0 <= c2 < w implies #[trigger] pixel_at(image@, w as int, r2, c2) == if r2
        == r && c2 == c {
        fresh(now)
    } else {
        pixel_at(orig, w as int, r2, c2)
    } by {
        lemma_pixel_bytes(image@, w as int, r2, c2);
    }
    assert forall|r2: int, c2: int, k: int|
        0 <= r2 < h && 0 <= c2 < w && 0 <= k < 4 implies (#[trigger] px(image@, w as int, r2, c2, k))
        % 3 == 0 && (k == 3 ==> px(image@, w as int, r2, c2, k) == 255) by {
        assert(px(orig, w as int, r2, c2, k) % 3 == 0);
    }
}

/// Writes the grid laid out row by row in `cells` into the interior of `tar`,
/// paints every pixel afresh, and returns the numbers of cells that are dead in
/// `tar` and were alive in `src`, and the other way round.
#[verifier::rlimit(50)]
pub(crate) fn fill(
    src: &Vec<bool>,
    tar: &mut Vec<bool>,
    image: &mut Vec<u8>,
    rows: usize,
    cols: usize,
    cells: &Vec<bool>,
) -> (counts: (u32, u32))
    requires
        2 <= rows,
        2 <= cols,
        rows * cols <= u32::MAX,
        src@.len() == rows * cols,
        old(tar)@.len() == rows * cols,
        cells@.len() == (rows - 2) * (cols - 2),
        border_dead(src@, rows as int, cols as int),
        border_dead(old(tar)@, rows as int, cols as int),
        pixels_ok(old(image)@, rows - 2, cols - 2),
    ensures
        final(tar)@.len() == rows * cols,
        border_dead(final(tar)@, rows as int, cols as int),
        interior(final(tar)@, rows as int, cols as int) == unflatten(
            cells@,
            (rows - 2) as nat,
            (cols - 2) as nat,
        ),
        pixels_ok(final(image)@, rows - 2, cols - 2),
        forall|r: int, c: int|
            0 <= r < rows - 2 && 0 <= c < cols - 2 ==> #[trigger] pixel_at(final(image)@, cols - 2, r, c)
                == fresh(at(cells@, cols - 2, r, c)),
        counts.0 == flips(
            interior(src@, rows as int, cols as int),
            unflatten(cells@, (rows - 2) as nat, (cols - 2) as nat),
            true,
            rows - 2,
            cols - 2,
        ),
        counts.1 == flips(
            interior(src@, rows as int, cols as int),
            unflatten(cells@, (rows - 2) as nat, (cols - 2) as nat),
            false,
            rows - 2,
            cols - 2,
        ),
{
    let ghost nr = rows as int;
    let ghost nc = cols as int;
    let ghost h = nr - 2;
    let ghost w = nc - 2;
    let ghost g = interior(src@, nr, nc);
    let ghost s = unflatten(cells@, h as nat, w as nat);
    let ghost tar0 = tar@;
    let ghost img0 = image@;
    let mut killed: u32 = 0;
    let mut resurrected: u32 = 0;
    proof {
        assert(h * w <= nr * nc) by (nonlinear_arith)
            requires
                0 <= h < nr,
                0 <= w < nc,
        ;
    }
    let mut row: usize = 1;
    while row < rows - 1
        invariant
            nr == rows,
            nc == cols,
            h == nr - 2,
            w == nc - 2,
            2 <= rows,
            2 <= cols,
            rows * cols <= u32::MAX,
            h * w <= nr * nc,
            src@.len() == rows * cols,
            cells@.len() == h * w,
            border_dead(tar0, nr, nc),
            g == interior(src@, nr, nc),
            s == unflatten(cells@, h as nat, w as nat),
            1 <= row <= rows - 1,
            tar0.len() == rows * cols,
            written_up_to(tar@, tar0, s, nr, nc, row - 1, 0),
            img0.len() == h * w * 4,
            filled_up_to(image@, img0, s, h, w, row - 1, 0),
            killed == flips(g, s, true, row - 1, w),
            resurrected == flips(g, s, false, row - 1, w),
        decreases rows - 1 - row,
    {
        let mut col: usize = 1;
        while col < cols - 1
            invariant
                nr == rows,
                nc == cols,
                h == nr - 2,
                w == nc - 2,
                2 <= rows,
                2 <= cols,
                rows * cols <= u32::MAX,
                h * w <= nr * nc,
                src@.len() == rows * cols,
                cells@.len() == h * w,
                border_dead(tar0, nr, nc),
                g == interior(src@, nr, nc),
                s == unflatten(cells@, h as nat, w as nat),
                1 <= row < rows - 1,
                1 <= col <= cols - 1,
                tar0.len() == rows * cols,
                written_up_to(tar@, tar0, s, nr, nc, row - 1, col - 1),
                img0.len() == h * w * 4,
                filled_up_to(image@, img0, s, h, w, row - 1, col - 1),
                killed == flips(g, s, true, row - 1, w) + flips_in_row(g[row - 1], s[row - 1], true, col - 1),
                resurrected == flips(g, s, false, row - 1, w) + flips_in_row(g[row - 1], s[row - 1], false, col - 1),
            decreases cols - 1 - col,
        {
            let ghost r = row - 1;
            let ghost c = col - 1;
            proof {
                lemma_index_bound(row as int, col as int, nr, nc);
                lemma_index_bound(r, c, h, w);
                lemma_flips_bound(g, s, r, w);
                lemma_flips_in_row_bound(g[r], s[r], c);
            }
            let cell_index = row * cols + col;
            let was = src[cell_index];
            let now = cells[(row - 1) * (cols - 2) + (col - 1)];
            let ghost tar_prev = tar@;
            tar.set(cell_index, now);
            assert forall|pr: int, pc: int| 0 <= pr < nr && 0 <= pc < nc implies #[trigger] at(
                tar@,
                nc,
                pr,
                pc,
            ) == if 1 <= pr <= nr - 2 && 1 <= pc <= nc - 2 && before_cell(pr - 1, pc - 1, r, c + 1) {
                s[pr - 1][pc - 1]
            } else {
                at(tar0, nc, pr, pc)
            } by {
                lemma_index_bound(pr, pc, nr, nc);
                if pr != row || pc != col {
                    lemma_index_distinct(pr, pc, row as int, col as int, nc);
                    assert(at(tar@, nc, pr, pc) == at(tar_prev, nc, pr, pc));
                }
            }
            let ghost img_prev = image@;
            mark_cell(image, Ghost(h), cols - 2, row - 1, col - 1, was, now, &mut killed, &mut resurrected);
            assert forall|r2: int, c2: int| 0 <= r2 < h && 0 <= c2 < w implies #[trigger] pixel_at(
                image@,
                w,
                r2,
                c2,
            ) == if before_cell(r2, c2, r, c + 1) {
                fresh(s[r2][c2])
            } else {
                pixel_at(img0, w, r2, c2)
            } by {
                lemma_pixel_bytes(img_prev, w, r2, c2);
            }
            col += 1;
        }
        assert forall|pr: int, pc: int| 0 <= pr < nr && 0 <= pc < nc implies #[trigger] at(
            tar@,
            nc,
            pr,
            pc,
        ) == if 1 <= pr <= nr - 2 && 1 <= pc <= nc - 2 && before_cell(pr - 1, pc - 1, row as int, 0) {
            s[pr - 1][pc - 1]
        } else {
            at(tar0, nc, pr, pc)
        } by {}
        assert forall|r2: int, c2: int| 0 <= r2 < h && 0 <= c2 < w implies #[trigger] pixel_at(
            image@,
            w,
            r2,
            c2,
        ) == if before_cell(r2, c2, row as int, 0) {
            fresh(s[r2][c2])
        } else {
            pixel_at(img0, w, r2, c2)
        } by {}
        row += 1;
    }
    proof {
        assert forall|r: int, c: int| 0 <= r < h && 0 <= c < w implies interior(tar@, nr, nc)[r][c]
            == s[r][c] by {
            assert(at(tar@, nc, r + 1, c + 1) == s[r][c]);
        }
        assert(interior(tar@, nr, nc) =~~= s);
        assert forall|pr: int, pc: int|
            0 <= pr < nr && 0 <= pc < nc && (pr == 0 || pr == nr - 1 || pc == 0 || pc == nc - 1)
            implies !#[trigger] at(tar@, nc, pr, pc) by {
            assert(!at(tar0, nc, pr, pc));
        }
    }
    (killed, resurrected)
}

/// A fresh padded buffer of `rows + 2` by `cols + 2` cells whose interior is the
/// interior of `cur` (a padded buffer of `cur_rows` by `cur_cols` cells) placed,
/// centred, with a dead frame.
pub(crate) fn resized_cells(
    cur: &Vec<bool>,
    cur_rows: usize,
    cur_cols: usize,
    rows: usize,
    cols: usize,
) -> (r: Vec<bool>)
    requires
        2 <= cur_rows,
        2 <= cur_cols,
        cur@.len() == cur_rows * cur_cols,
        border_dead(cur@, cur_rows as int, cur_cols as int),
        (rows + 2) * (cols + 2) <= u32::MAX,
    ensures
        r@.len() == (rows + 2) * (cols + 2),
        border_dead(r@, rows + 2, cols + 2),
        interior(r@, rows + 2, cols + 2) == recenter(
            interior(cur@, cur_rows as int, cur_cols as int),
            (cur_rows - 2) as nat,
            (cur_cols - 2) as nat,
            rows as nat,
            cols as nat,
        ),
{
    proof {
        assert(rows + 2 <= (rows + 2) * (cols + 2) && cols + 2 <= (rows + 2) * (cols + 2)
            && (cols + 2) * (rows + 2) == (rows + 2) * (cols + 2)) by (nonlinear_arith);
    }
    let new_rows = rows + 2;
    let new_cols = cols + 2;
    let total_cells = new_cols * new_rows;
    let mut cells: Vec<bool> = vec![false; total_cells];
    let ghost blank = cells@;
    copy_2d(cur, &mut cells, cur_cols, new_cols, 1, 1);

    let ghost nr = new_rows as int;
    let ghost nc = new_cols as int;
    let ghost oh = cur_rows - 2;
    let ghost ow = cur_cols - 2;
    let ghost g = interior(cur@, cur_rows as int, cur_cols as int);
    proof {
        assert(total_cells == nr * nc) by (nonlinear_arith)
            requires
                total_cells == nc * nr,
        ;
        lemma_rows_of_product(nr, nc);
        lemma_rows_of_product(cur_rows as int, cur_cols as int);
        assert forall|pr: int, pc: int| 0 <= pr < nr && 0 <= pc < nc implies #[trigger] at(
            cells@,
            nc,
            pr,
            pc,
        ) == if 1 <= pr <= nr - 2 && 1 <= pc <= nc - 2 {
            placed(g, oh, ow, rows as int, cols as int, pr - 1, pc - 1)
        } else {
            false
        } by {
            lemma_span_padded(oh, rows as int, pr - 1);
            lemma_span_padded(ow, cols as int, pc - 1);
            lemma_span_unit(oh, rows as int, pr - 1);
            lemma_span_unit(ow, cols as int, pc - 1);
            lemma_index_bound(pr, pc, nr, nc);
            assert(at(blank, nc, pr, pc) == false);
            if copy_covers(cur_rows as int, cur_cols as int, nr, nc, 1, 1, pr, pc) {
                let sr = span_source(oh, rows as int, 1, pr - 1);
                let sc = span_source(ow, cols as int, 1, pc - 1);
                assert(g[sr][sc] == at(cur@, cur_cols as int, sr + 1, sc + 1));
            }
        }
        assert forall|r: int, c: int| 0 <= r < rows && 0 <= c < cols implies interior(cells@, nr, nc)[r][c]
            == recenter(g, oh as nat, ow as nat, rows as nat, cols as nat)[r][c] by {
            assert(at(cells@, nc, r + 1, c + 1) == placed(g, oh, ow, rows as int, cols as int, r, c));
        }
        assert(interior(cells@, nr, nc) =~~= recenter(g, oh as nat, ow as nat, rows as nat, cols as nat));
        assert forall|pr: int, pc: int|
            0 <= pr < nr && 0 <= pc < nc && (pr == 0 || pr == nr - 1 || pc == 0 || pc == nc - 1)
            implies !#[trigger] at(cells@, nc, pr, pc) by {}
    }
    cells
}

/// A fresh RGBA buffer of `rows` by `cols` white pixels into which the pixels of
/// `image` (`cur_rows` by `cur_cols` of them) are copied, centred.
pub(crate) fn resized_image(
    image: &Vec<u8>,
    cur_rows: usize,
    cur_cols: usize,
    rows: usize,
    cols: usize,
) -> (r: Vec<u8>)
    requires
        pixels_ok(image@, cur_rows as int, cur_cols as int),
        rows * cols * 4 <= usize::MAX,
    ensures
        pixels_ok(r@, rows as int, cols as int),
        forall|r2: int, c2: int|
            0 <= r2 < rows && 0 <= c2 < cols ==> #[trigger] pixel_at(r@, cols as int, r2, c2) == if in_span(
                cur_rows as int,
                rows as int,
                1,
                0,
                r2,
            ) && in_span(cur_cols as int, cols as int, 1, 0, c2) {
                pixel_at(
                    image@,
                    cur_cols as int,
                    span_source(cur_rows as int, rows as int, 1, r2),
                    span_source(cur_cols as int, cols as int, 1, c2),
                )
            } else {
                (255, 255, 255)
            },
{
    let new_image_size = (rows * cols) * 4;
    let mut new_image: Vec<u8> = vec![255u8; new_image_size];
    let ghost blank = new_image@;
    let ghost oh = cur_rows as int;
    let ghost ow = cur_cols as int;
    let ghost h = rows as int;
    let ghost w = cols as int;
    let cur_len = image.len();
    let copied = cur_rows > 0 && cur_cols > 0 && rows > 0 && cols > 0;
    if copied {
        proof {
            assert(ow * 4 <= oh * ow * 4 && w * 4 <= h * w * 4) by (nonlinear_arith)
                requires
                    oh >= 1,
                    h >= 1,
                    ow >= 0,
                    w >= 0,
            ;
        }
        copy_2d(image, &mut new_image, cur_cols * 4, cols * 4, 4, 0);
    }
    proof {
        assert forall|r2: int, c2: int, k: int| 0 <= r2 < h && 0 <= c2 < w && 0 <= k < 4 implies #[trigger] px(
            new_image@,
            w,
            r2,
            c2,
            k,
        ) == if in_span(oh, h, 1, 0, r2) && in_span(ow, w, 1, 0, c2) {
            px(image@, ow, span_source(oh, h, 1, r2), span_source(ow, w, 1, c2), k)
        } else {
            255
        } by {
            lemma_index_bound(r2, c2, h, w);
            lemma_index_bound(r2 * w + c2, k, h * w, 4);
            lemma_span_unit(oh, h, r2);
            lemma_span_unit(ow, w, c2);
            lemma_px_bytes(new_image@, w, r2, c2, k);
            lemma_px_bytes(blank, w, r2, c2, k);
            if copied {
                assert(oh * ow * 4 == oh * (4 * ow) && h * w * 4 == h * (4 * w)) by (nonlinear_arith);
                lemma_rows_of_product(oh, 4 * ow);
                lemma_rows_of_product(h, 4 * w);
                lemma_span_bytes(ow, w, c2, k);
                lemma_px_bytes(image@, ow, span_source(oh, h, 1, r2), span_source(ow, w, 1, c2), k);
            }
        }
        assert forall|r2: int, c2: int| 0 <= r2 < h && 0 <= c2 < w implies #[trigger] pixel_at(
            new_image@,
            w,
            r2,
            c2,
        ) == if in_span(oh, h, 1, 0, r2) && in_span(ow, w, 1, 0, c2) {
            pixel_at(image@, ow, span_source(oh, h, 1, r2), span_source(ow, w, 1, c2))
        } else {
            (255u8, 255u8, 255u8)
        } by {
            lemma_pixel_bytes(new_image@, w, r2, c2);
        }
        assert forall|r2: int, c2: int, k: int|
            0 <= r2 < h && 0 <= c2 < w && 0 <= k < 4 implies (#[trigger] px(new_image@, w, r2, c2, k))
            % 3 == 0 && (k == 3 ==> px(new_image@, w, r2, c2, k) == 255) by {
            lemma_span_unit(oh, h, r2);
            lemma_span_unit(ow, w, c2);
            if in_span(oh, h, 1, 0, r2) && in_span(ow, w, 1, 0, c2) {
                let sr = span_source(oh, h, 1, r2);
                let sc = span_source(ow, w, 1, c2);
                assert(px(image@, ow, sr, sc, k) % 3 == 0);
            }
        }
    }
    new_image
}

} // verus!
