//! Small helpers: arithmetic on extents, counting, the centred rectangle copy and
//! random draws.
use vstd::prelude::*;

use crate::model::{
    at, copy_covers, floor_to_spec, occurrences, lemma_floor_to, lemma_floor_to_keeps, lemma_index_bound,
    lemma_index_distinct, lemma_whole_rows, span_len, span_lead, span_offset, span_skip,
    span_source,
};

verus! {

/// The error `getrandom` reports when no random bytes could be had, carried as it is.
#[verifier::external_type_specification]
#[verifier::external_body]
pub struct ExRandomError(getrandom::Error);

/// One byte from the system's random source, or the error that kept it from being
/// drawn.
/// Relies on `getrandom::getrandom`, which fills the buffer with random bytes or
/// returns its `Error`; nothing is promised of the byte.
#[verifier::external_body]
pub fn random() -> (r: Result<u8, getrandom::Error>) {
    let mut buf = [0u8; 1];
    match getrandom::getrandom(&mut buf) {
        Ok(()) => Ok(buf[0]),
        Err(e) => Err(e),
    }
}

/// A draw succeeded with a byte above `limit`.
pub open spec fn above_limit(draw: Result<u8, getrandom::Error>, limit: u8) -> bool {
    draw is Ok && draw->Ok_0 > limit
}

/// Decides a draw: true when it gave a byte above `limit`, false when it gave
/// another byte or failed.
pub fn draw_to_bool(draw: &Result<u8, getrandom::Error>, limit: u8) -> (r: bool)
    ensures
        r == above_limit(*draw, limit),
{
    match draw {
        Ok(val) => *val > limit,
        Err(_) => false,
    }
}

/// A random draw that is true when a random byte exceeds `limit` (so with chance
/// `(255 - limit) / 256`), and false when no byte could be drawn.
pub fn random_bool(limit: u8) -> (r: bool)
    ensures
        limit == 255 ==> !r,
{
    let draw = random();
    draw_to_bool(&draw, limit)
}

/// Rounds `val` down to a multiple of `factor`.
pub fn floor_to(val: usize, factor: usize) -> (r: usize)
    requires
        factor > 0,
    ensures
        r == floor_to_spec(val as int, factor as int),
{
    assert(val % factor <= val) by (nonlinear_arith)
        requires
            factor > 0,
    ;
    val - val % factor
}

/// The smaller and the larger of two values, in that order.
pub fn min_max(a: usize, b: usize) -> (r: (usize, usize))
    ensures
        r.0 == if a > b { b } else { a },
        r.1 == if a > b { a } else { b },
{
    if a > b {
        (b, a)
    } else {
        (a, b)
    }
}

/// The number of elements of `vec` equal to `pred`.
pub fn count(vec: &Vec<bool>, pred: bool) -> (r: u32)
    requires
        vec@.len() <= u32::MAX,
    ensures
        r == occurrences(vec@, pred, vec@.len() as int),
{
    let mut counter: u32 = 0;
    let mut i: usize = 0;
    while i < vec.len()
        invariant
            i <= vec@.len() <= u32::MAX,
            counter == occurrences(vec@, pred, i as int),
            counter <= i,
        decreases vec@.len() - i,
    {
        if vec[i] == pred {
            counter += 1;
        }
        i += 1;
    }
    counter
}

/// Copies a row-major layout of `old_cols` elements to a row into one of `new_cols`
/// elements to a row, keeping each element's row and column and centring the smaller
/// layout in the larger one in each dimension independently, so that the larger is
/// cropped evenly on both sides (the odd one from the end). The row count of each
/// layout is its length divided by its row width. Columns are moved in whole groups
/// of `factor` (for pixels made of `factor` bytes), and `margin` rows and columns
/// are left out at each edge of the copied part. Target elements outside the copied
/// part keep their values.
pub fn copy_2d<T: Copy>(
    source: &Vec<T>,
    target: &mut Vec<T>,
    old_cols: usize,
    new_cols: usize,
    factor: usize,
    margin: usize,
)
    requires
        old_cols > 0,
        new_cols > 0,
        factor > 0,
    ensures
        final(target)@.len() == old(target)@.len(),
        forall|r: int, c: int|
            0 <= r < old(target)@.len() as int / (new_cols as int) && 0 <= c < new_cols ==> #[trigger] at(
                final(target)@,
                new_cols as int,
                r,
                c,
            ) == if copy_covers(
                source@.len() as int / (old_cols as int),
                old_cols as int,
                old(target)@.len() as int / (new_cols as int),
                new_cols as int,
                factor as int,
                margin as int,
                r,
                c,
            ) {
                at(
                    source@,
                    old_cols as int,
                    span_source(
                        source@.len() as int / (old_cols as int),
                        old(target)@.len() as int / (new_cols as int),
                        1,
                        r,
                    ),
                    span_source(old_cols as int, new_cols as int, factor as int, c),
                )
            } else {
                at(old(target)@, new_cols as int, r, c)
            },
        forall|i: int|
            (old(target)@.len() as int / (new_cols as int)) * new_cols <= i < old(target)@.len()
                ==> final(target)@[i] == old(target)@[i],
{
    let ghost before = target@;
    let source_len = source.len();
    let source_rows = source_len / old_cols;
    let target_len = target.len();
    let target_rows = target_len / new_cols;
    let ghost sr = source_rows as int;
    let ghost tr = target_rows as int;
    let ghost oc = old_cols as int;
    let ghost nc = new_cols as int;
    let ghost f = factor as int;
    let ghost m = margin as int;
    proof {
        lemma_whole_rows(source@.len() as int, oc);
        lemma_whole_rows(before.len() as int, nc);
        assert(sr <= sr * oc && tr <= tr * nc) by (nonlinear_arith)
            requires
                0 <= sr,
                0 <= tr,
                oc >= 1,
                nc >= 1,
        ;
    }

    // Extents of the smaller and the larger layout in each dimension
    let (min_cols, max_cols) = min_max(old_cols, new_cols);
    let (min_rows, max_rows) = min_max(source_rows, target_rows);

    // Offsets that centre the smaller layout in the larger one
    let col_offset = floor_to((max_cols - min_cols) / 2, factor);
    proof {
        lemma_floor_to((max_cols - min_cols) / 2, f);
        lemma_floor_to(col_offset + min_cols, f);
        lemma_floor_to_keeps(col_offset as int, col_offset + min_cols, f);
    }
    let col_count = floor_to(col_offset + min_cols, factor) - col_offset;
    let row_offset = (max_rows - min_rows) / 2;
    assert(col_offset == span_offset(oc, nc, f));
    assert(col_count == span_len(oc, nc, f));
    assert(span_len(sr, tr, 1) == min_rows) by {
        lemma_floor_to(row_offset + min_rows, 1);
    }

    // Each dimension is offset on the side of the larger layout
    let (source_row0, target_row0) = if source_rows > target_rows {
        (row_offset, 0)
    } else {
        (0, row_offset)
    };
    let (source_col0, target_col0) = if old_cols > new_cols {
        (col_offset, 0)
    } else {
        (0, col_offset)
    };
    assert(source_row0 == span_skip(sr, tr, 1) && target_row0 == span_lead(sr, tr, 1)) by {
        lemma_floor_to((max_rows - min_rows) / 2, 1);
    }
    assert(source_col0 == span_skip(oc, nc, f) && target_col0 == span_lead(oc, nc, f));

    let row_end: usize = if min_rows >= margin {
        min_rows - margin
    } else {
        0
    };
    let col_end: usize = if col_count >= margin {
        col_count - margin
    } else {
        0
    };
    let mut k: usize = margin;
    while k < row_end
        invariant
            source_row0 + row_end <= sr,
            target_row0 + row_end <= tr,
            source_col0 + col_end <= oc,
            target_col0 + col_end <= nc,
            sr * oc <= source@.len(),
            sr <= sr * oc,
            tr <= tr * nc,
            source_len == source@.len(),
            target_len == before.len(),
            tr * nc <= before.len(),
            margin <= k,
            sr == source@.len() as int / oc,
            tr == before.len() as int / nc,
            oc == old_cols,
            nc == new_cols,
            oc > 0,
            nc > 0,
            f == factor,
            m == margin,
            row_end as int == span_len(sr, tr, 1) - m || (row_end == 0 && span_len(sr, tr, 1) - m <= 0),
            col_end as int == span_len(oc, nc, f) - m || (col_end == 0 && span_len(oc, nc, f) - m <= 0),
            source_row0 == span_skip(sr, tr, 1),
            target_row0 == span_lead(sr, tr, 1),
            source_col0 == span_skip(oc, nc, f),
            target_col0 == span_lead(oc, nc, f),
            target@.len() == before.len(),
            forall|r: int, c: int|
                0 <= r < tr && 0 <= c < nc ==> #[trigger] at(target@, nc, r, c) == if copy_covers(
                    sr,
                    oc,
                    tr,
                    nc,
                    f,
                    m,
                    r,
                    c,
                ) && r - target_row0 < k {
                    at(source@, oc, span_source(sr, tr, 1, r), span_source(oc, nc, f, c))
                } else {
                    at(before, nc, r, c)
                },
            forall|i: int| tr * nc <= i < before.len() ==> target@[i] == before[i],
        decreases row_end - k,
    {
        let mut j: usize = margin;
        while j < col_end
            invariant
                source_row0 + row_end <= sr,
                target_row0 + row_end <= tr,
                source_col0 + col_end <= oc,
                target_col0 + col_end <= nc,
                sr * oc <= source@.len(),
                sr <= sr * oc,
                tr <= tr * nc,
                source_len == source@.len(),
                target_len == before.len(),
                tr * nc <= before.len(),
                margin <= k < row_end,
                margin <= j,
                oc == old_cols,
                nc == new_cols,
                oc > 0,
                nc > 0,
                f == factor,
                m == margin,
                row_end as int == span_len(sr, tr, 1) - m || (row_end == 0 && span_len(sr, tr, 1) - m <= 0),
                col_end as int == span_len(oc, nc, f) - m || (col_end == 0 && span_len(oc, nc, f) - m <= 0),
                source_row0 == span_skip(sr, tr, 1),
                target_row0 == span_lead(sr, tr, 1),
                source_col0 == span_skip(oc, nc, f),
                target_col0 == span_lead(oc, nc, f),
                target@.len() == before.len(),
                forall|r: int, c: int|
                    0 <= r < tr && 0 <= c < nc ==> #[trigger] at(target@, nc, r, c) == if copy_covers(
                        sr,
                        oc,
                        tr,
                        nc,
                        f,
                        m,
                        r,
                        c,
                    ) && (r - target_row0 < k || (r - target_row0 == k && c - target_col0 < j)) {
                        at(source@, oc, span_source(sr, tr, 1, r), span_source(oc, nc, f, c))
                    } else {
                        at(before, nc, r, c)
                    },
                forall|i: int| tr * nc <= i < before.len() ==> target@[i] == before[i],
            decreases col_end - j,
        {
            let ghost tr_row = (k + target_row0) as int;
            let ghost tr_col = (j + target_col0) as int;
            proof {
                lemma_index_bound(tr_row, tr_col, tr, nc);
                lemma_index_bound((k + source_row0) as int, (j + source_col0) as int, sr, oc);
            }
            let value = source[(k + source_row0) * old_cols + j + source_col0];
            let ghost prev = target@;
            target.set((k + target_row0) * new_cols + j + target_col0, value);
            assert forall|r: int, c: int| 0 <= r < tr && 0 <= c < nc implies #[trigger] at(
                target@,
                nc,
                r,
                c,
            ) == if copy_covers(sr, oc, tr, nc, f, m, r, c) && (r - target_row0 < k || (r
                - target_row0 == k && c - target_col0 < j + 1)) {
                at(source@, oc, span_source(sr, tr, 1, r), span_source(oc, nc, f, c))
            } else {
                at(before, nc, r, c)
            } by {
                if r != tr_row || c != tr_col {
                    lemma_index_distinct(r, c, tr_row, tr_col, nc);
                    lemma_index_bound(r, c, tr, nc);
                    assert(at(target@, nc, r, c) == at(prev, nc, r, c));
                }
            }
            assert forall|i: int| tr * nc <= i < before.len() implies target@[i] == before[i] by {
                assert(target@[i] == prev[i]);
            }
            j = j + 1;
        }
        k = k + 1;
    }
}

} // verus!
