//! A cellular automaton engine for Conway's Game of Life and its rule-parameterised
//! variants, over a padded, double-buffered grid with change tracking and an RGBA
//! pixel buffer that mirrors the grid.
use vstd::prelude::*;

pub mod generation;
pub mod laws;
pub mod model;
pub mod utils;

use crate::generation::{before_cell, advance, fill, paint, resized_cells, resized_image};
use crate::model::{
    lemma_pixel_bytes,
    at, border_dead, copy_covers, lemma_index_distinct, flips, fresh, interior, is_grid, lemma_index_bound,
    lemma_occurrences_population, lemma_rows_of_product, lemma_span_unit, lemma_whole_rows,
    pattern_grid, population, span_source, in_span, lemma_flips_from_empty, px,
    pattern_rows, pixel_at, pixels_ok, placed, recenter, repaint, successor, unflatten,
};
use crate::utils::{above_limit, copy_2d, count, draw_to_bool, random};

verus! {

/// A seeded cell is alive when its random byte is above this, that is in the upper
/// half of the byte's range.
pub const SEED_LIMIT: u8 = 127;

/// A grid of `rows` by `cols` cells fits this engine: its padded size fits the `u32`
/// counts and its pixel buffer fits in memory.
pub open spec fn fits(rows: int, cols: int) -> bool {
    &&& 0 <= rows
    &&& 0 <= cols
    &&& (rows + 2) * (cols + 2) <= u32::MAX
    &&& rows * cols * 4 <= usize::MAX
}

/// A grid of cells with a one-cell dead frame, held twice: one buffer is the current
/// generation and the other receives the next. Beside the cells it keeps one RGBA
/// pixel per cell, the numbers of cells killed and resurrected by the last operation,
/// and the ruleset.
pub struct Universe {
    cols: usize,
    rows: usize,
    source: Vec<bool>,
    target: Vec<bool>,
    image_data: Vec<u8>,
    killed_cells: u32,
    resurrected_cells: u32,
    survive_rules: u16,
    resurrect_rules: u16,
    swap: bool,
}

impl Universe {
    /// The buffer that holds the current generation.
    closed spec fn active(&self) -> Seq<bool> {
        if self.swap {
            self.target@
        } else {
            self.source@
        }
    }

    /// The number of rows of the grid, the frame left out.
    pub closed spec fn height(&self) -> nat {
        (self.rows - 2) as nat
    }

    /// The number of columns of the grid, the frame left out.
    pub closed spec fn width(&self) -> nat {
        (self.cols - 2) as nat
    }

    /// The current generation: `height()` rows of `width()` cells, true for alive.
    pub closed spec fn grid(&self) -> Seq<Seq<bool>> {
        interior(self.active(), self.rows as int, self.cols as int)
    }

    /// Cell (pr, pc) of the current generation with its frame, where (0, 0) is a
    /// corner of the frame.
    pub closed spec fn padded(&self, pr: int, pc: int) -> bool {
        at(self.active(), self.cols as int, pr, pc)
    }

    /// The RGBA pixel buffer, four bytes per cell, row by row.
    pub closed spec fn image(&self) -> Seq<u8> {
        self.image_data@
    }

    /// The number of cells the last operation killed.
    pub closed spec fn killed(&self) -> nat {
        self.killed_cells as nat
    }

    /// The number of cells the last operation brought to life.
    pub closed spec fn resurrected(&self) -> nat {
        self.resurrected_cells as nat
    }

    /// Bit `n` set: a live cell with `n` live neighbours stays alive.
    pub closed spec fn survive_mask(&self) -> u16 {
        self.survive_rules
    }

    /// Bit `n` set: a dead cell with `n` live neighbours comes alive.
    pub closed spec fn resurrect_mask(&self) -> u16 {
        self.resurrect_rules
    }

    /// Which of the two buffers holds the current generation.
    pub closed spec fn swapped(&self) -> bool {
        self.swap
    }

    /// The invariant: two buffers of the padded size whose frames are dead, a pixel
    /// buffer of four bytes per cell, and counts that fit their type.
    pub closed spec fn wf(&self) -> bool {
        &&& 2 <= self.rows
        &&& 2 <= self.cols
        &&& self.rows * self.cols <= u32::MAX
        &&& self.source@.len() == self.rows * self.cols
        &&& self.target@.len() == self.rows * self.cols
        &&& border_dead(self.source@, self.rows as int, self.cols as int)
        &&& border_dead(self.target@, self.rows as int, self.cols as int)
        &&& pixels_ok(self.image_data@, self.rows - 2, self.cols - 2)
    }

    /// The colour of the pixel of cell (r, c).
    pub open spec fn pixel(&self, r: int, c: int) -> (u8, u8, u8) {
        pixel_at(self.image(), self.width() as int, r, c)
    }

    /// Every cell of the frame around the grid is dead.
    pub open spec fn padding_dead(&self) -> bool {
        forall|pr: int, pc: int|
            0 <= pr < self.height() + 2 && 0 <= pc < self.width() + 2 && (pr == 0 || pr
                == self.height() + 1 || pc == 0 || pc == self.width() + 1) ==> !#[trigger] self.padded(
                pr,
                pc,
            )
    }

    /// The generation that follows the current one under the ruleset.
    pub open spec fn next_grid(&self) -> Seq<Seq<bool>> {
        successor(
            self.grid(),
            self.height(),
            self.width(),
            self.survive_mask(),
            self.resurrect_mask(),
        )
    }

    /// A universe of `rows` by `cols` cells, the cell in row `r` and column `c` being
    /// `cells[r * cols + c]`. Live cells are painted green and dead ones white, the
    /// ruleset is the classic one (survive with two or three live neighbours, come
    /// alive with three), and the live cells count as resurrected.
    pub fn from_cells(rows: usize, cols: usize, cells: &Vec<bool>) -> (u: Universe)
        requires
            fits(rows as int, cols as int),
            cells@.len() == rows * cols,
        ensures
            u.wf(),
            u.height() == rows,
            u.width() == cols,
            u.survive_mask() == 0b1100,
            u.resurrect_mask() == 0b1000,
            !u.swapped(),
            u.grid() == unflatten(cells@, rows as nat, cols as nat),
            u.killed() == 0,
            u.resurrected() == population(u.grid(), rows as int, cols as int),
            forall|r: int, c: int|
                0 <= r < rows && 0 <= c < cols ==> #[trigger] u.pixel(r, c) == fresh(u.grid()[r][c]),
    {
        proof {
            assert(rows + 2 <= (rows + 2) * (cols + 2) && cols + 2 <= (rows + 2) * (cols + 2)
                && (cols + 2) * (rows + 2) == (rows + 2) * (cols + 2)) by (nonlinear_arith);
        }
        // Bit-map with (r, g, b, a) values
        let image_size = (rows * cols) * 4;
        let mut image_data: Vec<u8> = vec![255u8; image_size];

        // Add padding
        let padded_rows = rows + 2;
        let padded_cols = cols + 2;
        let total_cells = padded_cols * padded_rows;
        let target: Vec<bool> = vec![false; total_cells];
        let mut source: Vec<bool> = vec![false; total_cells];
        proof {
            assert(total_cells == padded_rows * padded_cols);
            assert forall|pr: int, pc: int|
                0 <= pr < padded_rows && 0 <= pc < padded_cols implies !#[trigger] at(
                target@,
                padded_cols as int,
                pr,
                pc,
            ) by {
                lemma_index_bound(pr, pc, padded_rows as int, padded_cols as int);
            }
            assert forall|pr: int, pc: int|
                0 <= pr < padded_rows && 0 <= pc < padded_cols implies !#[trigger] at(
                source@,
                padded_cols as int,
                pr,
                pc,
            ) by {
                lemma_index_bound(pr, pc, padded_rows as int, padded_cols as int);
            }
            assert forall|r: int, c: int, k: int|
                0 <= r < rows && 0 <= c < cols && 0 <= k < 4 implies #[trigger] px(
                image_data@,
                cols as int,
                r,
                c,
                k,
            ) == 255 by {
                lemma_index_bound(r, c, rows as int, cols as int);
                lemma_index_bound(r * cols + c, k, rows * cols, 4);
            }
        }
        let (_, resurrected_cells) = fill(
            &target,
            &mut source,
            &mut image_data,
            padded_rows,
            padded_cols,
            cells,
        );
        proof {
            lemma_flips_from_empty(
                interior(target@, padded_rows as int, padded_cols as int),
                unflatten(cells@, rows as nat, cols as nat),
                rows as int,
                cols as int,
            );
        }
        Universe {
            swap: false,
            survive_rules: 0b000001100,
            resurrect_rules: 0b000001000,
            killed_cells: 0,
            resurrected_cells,
            image_data,
            cols: padded_cols,
            rows: padded_rows,
            source,
            target,
        }
    }

    /// A universe of `rows` by `cols` cells seeded from one random draw per cell, in
    /// row-major order: the cell is alive when its draw gave a byte above
    /// `SEED_LIMIT` (so with chance one half), and dead when its draw gave another
    /// byte or failed. It is otherwise set up as `from_cells` sets it up.
    pub fn from_draws(rows: usize, cols: usize, draws: &Vec<Result<u8, getrandom::Error>>) -> (u:
        Universe)
        requires
            fits(rows as int, cols as int),
            draws@.len() == rows * cols,
        ensures
            u.wf(),
            u.height() == rows,
            u.width() == cols,
            u.survive_mask() == 0b1100,
            u.resurrect_mask() == 0b1000,
            !u.swapped(),
            forall|r: int, c: int|
                0 <= r < rows && 0 <= c < cols ==> #[trigger] u.grid()[r][c] == above_limit(
                    at(draws@, cols as int, r, c),
                    SEED_LIMIT,
                ),
            u.killed() == 0,
            u.resurrected() == population(u.grid(), rows as int, cols as int),
            forall|r: int, c: int|
                0 <= r < rows && 0 <= c < cols ==> #[trigger] u.pixel(r, c) == fresh(u.grid()[r][c]),
    {
        let mut cells: Vec<bool> = Vec::new();
        let mut i: usize = 0;
        while i < draws.len()
            invariant
                i <= draws@.len(),
                cells@.len() == i,
                forall|j: int| 0 <= j < i ==> cells@[j] == above_limit(#[trigger] draws@[j], SEED_LIMIT),
            decreases draws@.len() - i,
        {
            cells.push(draw_to_bool(&draws[i], SEED_LIMIT));
            i += 1;
        }
        let u = Universe::from_cells(rows, cols, &cells);
        assert forall|r: int, c: int| 0 <= r < rows && 0 <= c < cols implies #[trigger] u.grid()[r][c]
            == above_limit(at(draws@, cols as int, r, c), SEED_LIMIT) by {
            lemma_index_bound(r, c, rows as int, cols as int);
            assert(u.grid()[r][c] == at(cells@, cols as int, r, c));
        }
        u
    }

    /// A universe of `rows` by `cols` cells, each seeded by an independent draw from
    /// the system's random source as `from_draws` seeds it.
    pub fn new(rows: usize, cols: usize) -> (u: Universe)
        requires
            fits(rows as int, cols as int),
        ensures
            u.wf(),
            u.height() == rows,
            u.width() == cols,
            u.survive_mask() == 0b1100,
            u.resurrect_mask() == 0b1000,
            !u.swapped(),
            u.killed() == 0,
            u.resurrected() == population(u.grid(), rows as int, cols as int),
            forall|r: int, c: int|
                0 <= r < rows && 0 <= c < cols ==> #[trigger] u.pixel(r, c) == fresh(u.grid()[r][c]),
    {
        proof {
            assert(rows * cols <= rows * cols * 4) by (nonlinear_arith);
        }
        let total = rows * cols;
        let mut draws: Vec<Result<u8, getrandom::Error>> = Vec::new();
        let mut i: usize = 0;
        while i < total
            invariant
                i <= total,
                draws@.len() == i,
            decreases total - i,
        {
            draws.push(random());
            i += 1;
        }
        Universe::from_draws(rows, cols, &draws)
    }

    /// A well-formed universe has a grid of its size, a dead frame, and an opaque
    /// alpha byte in every pixel.
    pub proof fn lemma_wf(&self)
        requires
            self.wf(),
        ensures
            is_grid(self.grid(), self.height(), self.width()),
            self.padding_dead(),
            self.image().len() == self.height() * self.width() * 4,
            self.height() * self.width() <= u32::MAX,
            forall|r: int, c: int|
                0 <= r < self.height() && 0 <= c < self.width() ==> #[trigger] px(
                    self.image(),
                    self.width() as int,
                    r,
                    c,
                    3,
                ) == 255,
    {
        assert forall|pr: int, pc: int|
            0 <= pr < self.height() + 2 && 0 <= pc < self.width() + 2 && (pr == 0 || pr
                == self.height() + 1 || pc == 0 || pc == self.width() + 1) implies !#[trigger] self.padded(
            pr,
            pc,
        ) by {}
        assert(self.height() * self.width() <= self.rows * self.cols) by (nonlinear_arith)
            requires
                self.height() < self.rows,
                self.width() < self.cols,
        ;
    }

    /// Advances the grid one generation under the ruleset: every cell of the grid
    /// takes the state that `rule` gives it from its own state and its live
    /// neighbours (cells beyond the edge being dead). The buffers swap roles, the
    /// counts are those of the cells killed and resurrected by this step, and each
    /// pixel is repainted for its cell's change.
    pub fn next_gen(&mut self)
        requires
            old(self).wf(),
        ensures
            final(self).wf(),
            final(self).height() == old(self).height(),
            final(self).width() == old(self).width(),
            final(self).survive_mask() == old(self).survive_mask(),
            final(self).resurrect_mask() == old(self).resurrect_mask(),
            final(self).swapped() == !old(self).swapped(),
            final(self).padding_dead(),
            final(self).grid() == old(self).next_grid(),
            final(self).killed() == flips(
                old(self).grid(),
                final(self).grid(),
                true,
                old(self).height() as int,
                old(self).width() as int,
            ),
            final(self).resurrected() == flips(
                old(self).grid(),
                final(self).grid(),
                false,
                old(self).height() as int,
                old(self).width() as int,
            ),
            forall|r: int, c: int|
                0 <= r < old(self).height() && 0 <= c < old(self).width() ==> #[trigger] final(self).pixel(r, c) == repaint(
                    old(self).pixel(r, c),
                    old(self).grid()[r][c],
                    final(self).grid()[r][c],
                ),
    {
        let (killed, resurrected) = if self.swap {
            advance(
                &self.target,
                &mut self.source,
                &mut self.image_data,
                self.rows,
                self.cols,
                self.survive_rules,
                self.resurrect_rules,
            )
        } else {
            advance(
                &self.source,
                &mut self.target,
                &mut self.image_data,
                self.rows,
                self.cols,
                self.survive_rules,
                self.resurrect_rules,
            )
        };
        self.swap = !self.swap;
        self.killed_cells = killed;
        self.resurrected_cells = resurrected;
        proof {
            self.lemma_wf();
        }
    }

    /// Changes the size of the grid to `rows` by `cols`, keeping the cells and pixels
    /// of the current grid centred in the new one: where the new grid is smaller it
    /// is cropped evenly on both sides, where it is larger the new cells are dead and
    /// their pixels white. The active buffer becomes the first one again. The killed
    /// count is the number of live cells lost to cropping, the resurrected count zero.
    pub fn resize(&mut self, rows: usize, cols: usize)
        requires
            old(self).wf(),
            fits(rows as int, cols as int),
        ensures
            final(self).wf(),
            final(self).height() == rows,
            final(self).width() == cols,
            final(self).survive_mask() == old(self).survive_mask(),
            final(self).resurrect_mask() == old(self).resurrect_mask(),
            !final(self).swapped(),
            final(self).grid() == recenter(
                old(self).grid(),
                old(self).height(),
                old(self).width(),
                rows as nat,
                cols as nat,
            ),
            final(self).resurrected() == 0,
            final(self).killed() == if population(final(self).grid(), rows as int, cols as int)
                < population(old(self).grid(), old(self).height() as int, old(self).width() as int) {
                population(old(self).grid(), old(self).height() as int, old(self).width() as int)
                    - population(final(self).grid(), rows as int, cols as int)
            } else {
                0
            },
            forall|r: int, c: int|
                0 <= r < rows && 0 <= c < cols ==> #[trigger] final(self).pixel(r, c) == if in_span(
                    old(self).height() as int,
                    rows as int,
                    1,
                    0,
                    r,
                ) && in_span(old(self).width() as int, cols as int, 1, 0, c) {
                    old(self).pixel(
                        span_source(old(self).height() as int, rows as int, 1, r),
                        span_source(old(self).width() as int, cols as int, 1, c),
                    )
                } else {
                    (255, 255, 255)
                },
    {
        self.resurrected_cells = 0;
        self.killed_cells = 0;
        proof {
            assert(rows + 2 <= (rows + 2) * (cols + 2) && cols + 2 <= (rows + 2) * (cols + 2)
                && (cols + 2) * (rows + 2) == (rows + 2) * (cols + 2)) by (nonlinear_arith);
        }

        // New pixel buffer with the current one copied into it
        let new_image_data = resized_image(&self.image_data, self.rows - 2, self.cols - 2, rows, cols);

        // New cell buffer with the current generation copied into it
        let current_source = if self.swap {
            &self.target
        } else {
            &self.source
        };
        let new_source = resized_cells(current_source, self.rows, self.cols, rows, cols);

        // How many cells were lost to cropping
        let prev_alive = count(current_source, true);
        let now_alive = count(&new_source, true);
        proof {
            lemma_occurrences_population(current_source@, self.rows as int, self.cols as int, self.rows as int);
            lemma_occurrences_population(new_source@, rows + 2, cols + 2, rows + 2);
        }
        if now_alive < prev_alive {
            self.killed_cells = prev_alive - now_alive;
        }

        let new_rows = rows + 2;
        let new_cols = cols + 2;
        let total_cells = new_cols * new_rows;
        self.swap = false;
        self.rows = new_rows;
        self.cols = new_cols;
        self.source = new_source;
        self.target = vec![false; total_cells];
        self.image_data = new_image_data;
        proof {
            assert(total_cells == new_rows * new_cols) by (nonlinear_arith)
                requires
                    total_cells == new_cols * new_rows,
            ;
            assert forall|pr: int, pc: int|
                0 <= pr < new_rows && 0 <= pc < new_cols && (pr == 0 || pr == new_rows - 1 || pc == 0
                    || pc == new_cols - 1) implies !#[trigger] at(self.target@, new_cols as int, pr, pc) by {
                lemma_index_bound(pr, pc, new_rows as int, new_cols as int);
            }
        }
    }

    /// Replaces the grid with a pattern: `data` holds rows of `cols` markers, 1 for a
    /// live cell and anything else for a dead one (a trailing partial row is left
    /// out). The pattern is centred in the grid, cropped evenly where it is larger,
    /// and every cell it does not cover is dead. The new grid is written into the
    /// inactive buffer, which then becomes the active one; every pixel is painted
    /// afresh, and the counts are those of the cells killed and resurrected against
    /// the previous grid.
    pub fn load(&mut self, data: &[u8], cols: usize)
        requires
            old(self).wf(),
        ensures
            final(self).wf(),
            final(self).height() == old(self).height(),
            final(self).width() == old(self).width(),
            final(self).survive_mask() == old(self).survive_mask(),
            final(self).resurrect_mask() == old(self).resurrect_mask(),
            final(self).swapped() == !old(self).swapped(),
            final(self).grid() == recenter(
                pattern_grid(data@, cols as nat),
                pattern_rows(data@.len(), cols as nat),
                cols as nat,
                old(self).height(),
                old(self).width(),
            ),
            final(self).killed() == flips(
                old(self).grid(),
                final(self).grid(),
                true,
                old(self).height() as int,
                old(self).width() as int,
            ),
            final(self).resurrected() == flips(
                old(self).grid(),
                final(self).grid(),
                false,
                old(self).height() as int,
                old(self).width() as int,
            ),
            forall|r: int, c: int|
                0 <= r < old(self).height() && 0 <= c < old(self).width() ==> #[trigger] final(self).pixel(r, c)
                    == fresh(final(self).grid()[r][c]),
    {
        let height = self.rows - 2;
        let width = self.cols - 2;
        let ghost h = height as int;
        let ghost w = width as int;
        proof {
            self.lemma_wf();
        }

        // The markers as cells
        let mut pattern: Vec<bool> = Vec::new();
        let mut i: usize = 0;
        while i < data.len()
            invariant
                i <= data@.len(),
                pattern@.len() == i,
                forall|j: int| 0 <= j < i ==> pattern@[j] == (data@[j] == 1u8),
            decreases data@.len() - i,
        {
            pattern.push(data[i] == 1);
            i += 1;
        }

        // The pattern placed, centred, in a grid of this size
        let mut cells: Vec<bool> = vec![false; height * width];
        if cols > 0 && width > 0 {
            copy_2d(&pattern, &mut cells, cols, width, 1, 0);
        }
        let ghost pr = pattern_rows(data@.len(), cols as nat);
        let ghost placed_grid = recenter(pattern_grid(data@, cols as nat), pr, cols as nat, h as nat, w as nat);
        proof {
            assert forall|r: int, c: int| 0 <= r < h && 0 <= c < w implies #[trigger] at(
                cells@,
                w,
                r,
                c,
            ) == placed_grid[r][c] by {
                lemma_span_unit(pr as int, h, r);
                lemma_span_unit(cols as int, w, c);
                lemma_index_bound(r, c, h, w);
                if cols > 0 && width > 0 {
                    lemma_rows_of_product(h, w);
                    lemma_whole_rows(data@.len() as int, cols as int);
                    if copy_covers(pr as int, cols as int, h, w, 1, 0, r, c) {
                        lemma_index_bound(
                            span_source(pr as int, h, 1, r),
                            span_source(cols as int, w, 1, c),
                            pr as int,
                            cols as int,
                        );
                    }
                } else {
                    assert(!at(cells@, w, r, c));
                }
            }
            assert(unflatten(cells@, h as nat, w as nat) =~~= placed_grid);
        }

        let (killed, resurrected) = if self.swap {
            fill(&self.target, &mut self.source, &mut self.image_data, self.rows, self.cols, &cells)
        } else {
            fill(&self.source, &mut self.target, &mut self.image_data, self.rows, self.cols, &cells)
        };
        self.swap = !self.swap;
        self.killed_cells = killed;
        self.resurrected_cells = resurrected;
    }

    /// Sets the cell in column `x` of row `y` of the current generation to `state`
    /// and paints its pixel afresh; nothing else changes.
    pub fn set_cell(&mut self, x: usize, y: usize, state: bool)
        requires
            old(self).wf(),
            x < old(self).width(),
            y < old(self).height(),
        ensures
            final(self).wf(),
            final(self).height() == old(self).height(),
            final(self).width() == old(self).width(),
            final(self).survive_mask() == old(self).survive_mask(),
            final(self).resurrect_mask() == old(self).resurrect_mask(),
            final(self).swapped() == old(self).swapped(),
            final(self).killed() == old(self).killed(),
            final(self).resurrected() == old(self).resurrected(),
            final(self).grid() == old(self).grid().update(y as int, old(self).grid()[y as int].update(x as int, state)),
            forall|r: int, c: int|
                0 <= r < old(self).height() && 0 <= c < old(self).width() ==> #[trigger] final(self).pixel(r, c)
                    == if r == y && c == x {
                    fresh(state)
                } else {
                    old(self).pixel(r, c)
                },
    {
        let ghost before = *self;
        let ghost h = self.height() as int;
        proof {
            self.lemma_wf();
        }
        // Update pixel
        paint(
            &mut self.image_data,
            Ghost(h),
            self.cols - 2,
            y,
            x,
            (if state { 0 } else { 255 }, 255, if state { 0 } else { 255 }),
        );

        // Update the cell
        proof {
            lemma_index_bound(y + 1, x + 1, self.rows as int, self.cols as int);
        }
        let vector_index = (y + 1) * self.cols + x + 1;
        if self.swap {
            self.target.set(vector_index, state);
        } else {
            self.source.set(vector_index, state);
        }
        proof {
            let nr = self.rows as int;
            let nc = self.cols as int;
            assert forall|pr: int, pc: int| 0 <= pr < nr && 0 <= pc < nc implies #[trigger] at(
                self.active(),
                nc,
                pr,
                pc,
            ) == if pr == y + 1 && pc == x + 1 {
                state
            } else {
                at(before.active(), nc, pr, pc)
            } by {
                lemma_index_bound(pr, pc, nr, nc);
                if pr != y + 1 || pc != x + 1 {
                    lemma_index_distinct(pr, pc, y + 1, x + 1, nc);
                }
            }
            assert(self.grid() =~~= before.grid().update(y as int, before.grid()[y as int].update(x as int, state)));
            assert forall|pr: int, pc: int|
                0 <= pr < nr && 0 <= pc < nc && (pr == 0 || pr == nr - 1 || pc == 0 || pc == nc - 1)
                implies !#[trigger] at(self.source@, nc, pr, pc) && !at(self.target@, nc, pr, pc) by {
                lemma_index_bound(pr, pc, nr, nc);
                lemma_index_distinct(pr, pc, y + 1, x + 1, nc);
            }
            assert forall|r: int, c: int|
                0 <= r < before.height() && 0 <= c < before.width() implies #[trigger] self.pixel(r, c)
                == if r == y && c == x {
                fresh(state)
            } else {
                before.pixel(r, c)
            } by {
                lemma_pixel_bytes(self.image_data@, nc - 2, r, c);
            }
            assert forall|r: int, c: int, k: int|
                0 <= r < nr - 2 && 0 <= c < nc - 2 && 0 <= k < 4 implies (#[trigger] px(
                self.image_data@,
                nc - 2,
                r,
                c,
                k,
            )) % 3 == 0 && (k == 3 ==> px(self.image_data@, nc - 2, r, c, k) == 255) by {
                assert(px(before.image_data@, nc - 2, r, c, k) % 3 == 0);
            }
        }
    }

    /// The current generation without its frame, row by row: the cell in row `r`
    /// and column `c` at `r * width + c`.
    pub fn current_gen(&self) -> (r: Vec<bool>)
        requires
            self.wf(),
        ensures
            r@.len() == self.height() * self.width(),
            unflatten(r@, self.height(), self.width()) == self.grid(),
    {
        let cur = if self.swap {
            &self.target
        } else {
            &self.source
        };
        let ghost h = self.height() as int;
        let ghost w = self.width() as int;
        let mut cells: Vec<bool> = Vec::new();
        let mut row: usize = 1;
        while row < self.rows - 1
            invariant
                self.wf(),
                cur@ == self.active(),
                h == self.rows - 2,
                w == self.cols - 2,
                1 <= row <= self.rows - 1,
                cells@.len() == (row - 1) * w,
                forall|r: int, c: int| 0 <= r < row - 1 && 0 <= c < w ==> #[trigger] at(cells@, w, r, c)
                    == self.grid()[r][c],
            decreases self.rows - 1 - row,
        {
            let mut col: usize = 1;
            while col < self.cols - 1
                invariant
                    self.wf(),
                    cur@ == self.active(),
                    h == self.rows - 2,
                    w == self.cols - 2,
                    1 <= row < self.rows - 1,
                    1 <= col <= self.cols - 1,
                    cells@.len() == (row - 1) * w + col - 1,
                    forall|r: int, c: int|
                        0 <= r < h && 0 <= c < w && before_cell(r, c, row - 1, col - 1) ==> #[trigger] at(
                            cells@,
                            w,
                            r,
                            c,
                        ) == self.grid()[r][c],
                decreases self.cols - 1 - col,
            {
                proof {
                    lemma_index_bound(row as int, col as int, self.rows as int, self.cols as int);
                }
                let ghost prev = cells@;
                cells.push(cur[row * self.cols + col]);
                assert forall|r: int, c: int|
                    0 <= r < h && 0 <= c < w && before_cell(r, c, row - 1, col as int) implies #[trigger] at(
                    cells@,
                    w,
                    r,
                    c,
                ) == self.grid()[r][c] by {
                    lemma_index_bound(r, c, h, w);
                    if r != row - 1 || c != col - 1 {
                        lemma_index_distinct(r, c, row - 1, col - 1, w);
                        if before_cell(r, c, row - 1, col - 1) {
                            assert(r * w + c < (row - 1) * w + col - 1) by (nonlinear_arith)
                                requires
                                    r <= row - 1,
                                    r == row - 1 ==> c < col - 1,
                                    0 <= c < w,
                                    0 <= col - 1,
                            ;
                            assert(at(cells@, w, r, c) == at(prev, w, r, c));
                        } else {
                            assert(r * w + c > (row - 1) * w + col - 1) by (nonlinear_arith)
                                requires
                                    r >= row - 1,
                                    r == row - 1 ==> c > col - 1,
                                    0 <= c < w,
                                    0 <= col - 1 < w,
                            ;
                        }
                    }
                }
                col += 1;
            }
            proof {
                assert((row - 1) * w + w == row * w) by (nonlinear_arith);
            }
            row += 1;
        }
        proof {
            assert(unflatten(cells@, h as nat, w as nat) =~~= self.grid());
        }
        cells
    }

    /// The pixel buffer: four bytes (red, green, blue, alpha) per cell, row by row.
    pub fn image_data(&self) -> (r: &[u8])
        ensures
            r@ == self.image(),
    {
        self.image_data.as_slice()
    }

    /// The length in bytes of the pixel buffer.
    pub fn image_size(&self) -> (r: usize)
        requires
            self.wf(),
        ensures
            r == self.height() * self.width() * 4,
    {
        self.image_data.len()
    }

    /// The number of cells of the grid.
    pub fn cell_count(&self) -> (r: u32)
        requires
            self.wf(),
        ensures
            r == self.height() * self.width(),
    {
        proof {
            self.lemma_wf();
        }
        ((self.rows - 2) * (self.cols - 2)) as u32
    }

    /// The number of cells the last operation killed.
    pub fn killed_cells(&self) -> (r: u32)
        ensures
            r == self.killed(),
    {
        self.killed_cells
    }

    /// The number of cells the last operation brought to life.
    pub fn resurrected_cells(&self) -> (r: u32)
        ensures
            r == self.resurrected(),
    {
        self.resurrected_cells
    }

    /// Replaces both rule masks at once; bits above the eighth are never consulted.
    pub fn set_ruleset(&mut self, resurrect: u16, survive: u16)
        requires
            old(self).wf(),
        ensures
            final(self).wf(),
            final(self).resurrect_mask() == resurrect,
            final(self).survive_mask() == survive,
            final(self).height() == old(self).height(),
            final(self).width() == old(self).width(),
            final(self).grid() == old(self).grid(),
            final(self).image() == old(self).image(),
            final(self).killed() == old(self).killed(),
            final(self).resurrected() == old(self).resurrected(),
            final(self).swapped() == old(self).swapped(),
    {
        self.resurrect_rules = resurrect;
        self.survive_rules = survive;
    }
}

} // verus!
