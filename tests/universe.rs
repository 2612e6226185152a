use life::Universe;

fn grid(cells: &[&str]) -> (usize, usize, Vec<bool>) {
    let rows = cells.len();
    let cols = if rows == 0 { 0 } else { cells[0].len() };
    let mut v = Vec::new();
    for row in cells {
        for ch in row.chars() {
            v.push(ch == '#');
        }
    }
    (rows, cols, v)
}

fn universe(cells: &[&str]) -> Universe {
    let (rows, cols, v) = grid(cells);
    Universe::from_cells(rows, cols, &v)
}

fn pixel(u: &Universe, cols: usize, r: usize, c: usize) -> [u8; 4] {
    let d = u.image_data();
    let i = (r * cols + c) * 4;
    [d[i], d[i + 1], d[i + 2], d[i + 3]]
}

#[test]
fn from_cells_reads_back() {
    let u = universe(&["#..", ".#.", "..#", "##."]);
    assert_eq!(u.current_gen(), grid(&["#..", ".#.", "..#", "##."]).2);
    assert_eq!(u.cell_count(), 12);
    assert_eq!(u.image_size(), 48);
    assert_eq!(u.resurrected_cells(), 5);
    assert_eq!(u.killed_cells(), 0);
    assert_eq!(pixel(&u, 3, 0, 0), [0, 255, 0, 255]);
    assert_eq!(pixel(&u, 3, 0, 1), [255, 255, 255, 255]);
}

#[test]
fn blinker_oscillates_with_period_two() {
    let mut u = universe(&["...", "###", "..."]);
    u.next_gen();
    assert_eq!(u.current_gen(), grid(&[".#.", ".#.", ".#."]).2);
    assert_eq!(u.killed_cells(), 2);
    assert_eq!(u.resurrected_cells(), 2);
    u.next_gen();
    assert_eq!(u.current_gen(), grid(&["...", "###", "..."]).2);
    assert_eq!(u.killed_cells(), 2);
    assert_eq!(u.resurrected_cells(), 2);
}

#[test]
fn block_is_still_life() {
    let mut u = universe(&["....", ".##.", ".##.", "...."]);
    u.next_gen();
    assert_eq!(u.current_gen(), grid(&["....", ".##.", ".##.", "...."]).2);
    assert_eq!(u.killed_cells(), 0);
    assert_eq!(u.resurrected_cells(), 0);
}

#[test]
fn cells_beyond_the_edge_are_dead() {
    // A full top row: the corners have one neighbour and die, the middle ones keep
    // two and survive, and the row below gets three neighbours under the middle.
    let mut u = universe(&["####", "....", "...."]);
    u.next_gen();
    assert_eq!(u.current_gen(), grid(&[".##.", ".##.", "...."]).2);
    assert_eq!(u.killed_cells(), 2);
    assert_eq!(u.resurrected_cells(), 2);
}

#[test]
fn next_gen_is_deterministic() {
    let cells = ["#.#..", ".##..", ".#..#", "...##"];
    let mut a = universe(&cells);
    let mut b = universe(&cells);
    a.next_gen();
    b.next_gen();
    assert_eq!(a.current_gen(), b.current_gen());
    assert_eq!(a.killed_cells(), b.killed_cells());
    assert_eq!(a.resurrected_cells(), b.resurrected_cells());
    assert_eq!(a.image_data(), b.image_data());
}

#[test]
fn pixels_follow_changes_and_age() {
    let mut u = universe(&["...", "###", "..."]);
    u.next_gen();
    // Born cells turn green, dead ones white, the surviving centre ages towards blue
    assert_eq!(pixel(&u, 3, 0, 1), [0, 255, 0, 255]);
    assert_eq!(pixel(&u, 3, 1, 0), [255, 255, 255, 255]);
    assert_eq!(pixel(&u, 3, 1, 1), [0, 255, 3, 255]);
    assert_eq!(pixel(&u, 3, 0, 0), [255, 255, 255, 255]);
    u.next_gen();
    assert_eq!(pixel(&u, 3, 1, 1), [0, 255, 6, 255]);
    assert_eq!(pixel(&u, 3, 1, 0), [0, 255, 0, 255]);
    assert_eq!(pixel(&u, 3, 0, 1), [255, 255, 255, 255]);
}

#[test]
fn ageing_walks_the_colour_ramp() {
    let mut u = universe(&["....", ".##.", ".##.", "...."]);
    for _ in 0..85 {
        u.next_gen();
    }
    assert_eq!(pixel(&u, 4, 1, 1), [0, 255, 255, 255]);
    for _ in 0..85 {
        u.next_gen();
    }
    assert_eq!(pixel(&u, 4, 1, 1), [0, 0, 255, 255]);
    for _ in 0..85 {
        u.next_gen();
    }
    assert_eq!(pixel(&u, 4, 1, 1), [255, 0, 255, 255]);
    for _ in 0..85 {
        u.next_gen();
    }
    assert_eq!(pixel(&u, 4, 1, 1), [255, 0, 0, 255]);
    u.next_gen();
    assert_eq!(pixel(&u, 4, 1, 1), [255, 0, 0, 255]);
}

#[test]
fn ruleset_is_applied() {
    // Seeds: nothing survives, a dead cell with two neighbours comes alive
    let mut u = universe(&["....", ".##.", "....", "...."]);
    u.set_ruleset(0b100, 0);
    u.next_gen();
    assert_eq!(u.current_gen(), grid(&[".##.", "....", ".##.", "...."]).2);
    assert_eq!(u.killed_cells(), 2);
    assert_eq!(u.resurrected_cells(), 4);
}

#[test]
fn ruleset_without_births_only_kills() {
    let mut u = universe(&["...", "###", "..."]);
    u.set_ruleset(0, 0b1100);
    u.next_gen();
    assert_eq!(u.current_gen(), grid(&["...", ".#.", "..."]).2);
    assert_eq!(u.resurrected_cells(), 0);
    assert_eq!(u.killed_cells(), 2);
}

#[test]
fn resize_round_trip_keeps_centre() {
    let cells = ["#..#", ".##.", "#.#.", "...#"];
    let mut u = universe(&cells);
    u.resize(9, 8);
    assert_eq!(u.cell_count(), 72);
    assert_eq!(u.image_size(), 72 * 4);
    assert_eq!(u.killed_cells(), 0);
    assert_eq!(u.resurrected_cells(), 0);
    u.resize(4, 4);
    assert_eq!(u.current_gen(), grid(&cells).2);
    assert_eq!(u.killed_cells(), 0);
    assert_eq!(pixel(&u, 4, 0, 0), [0, 255, 0, 255]);
    assert_eq!(pixel(&u, 4, 0, 1), [255, 255, 255, 255]);
}

#[test]
fn resize_centres_when_growing() {
    let mut u = universe(&["##", "#."]);
    u.resize(4, 5);
    assert_eq!(
        u.current_gen(),
        grid(&[".....", ".##..", ".#...", "....."]).2
    );
    assert_eq!(pixel(&u, 5, 1, 1), [0, 255, 0, 255]);
    assert_eq!(pixel(&u, 5, 0, 0), [255, 255, 255, 255]);
    assert_eq!(pixel(&u, 5, 2, 2), [255, 255, 255, 255]);
}

#[test]
fn resize_crops_and_counts_lost_cells() {
    let mut u = universe(&["#...#", ".###.", "#...#"]);
    u.resize(1, 3);
    assert_eq!(u.current_gen(), grid(&["###"]).2);
    assert_eq!(u.killed_cells(), 4);
    assert_eq!(u.resurrected_cells(), 0);
    assert_eq!(u.cell_count(), 3);
}

#[test]
fn resize_to_empty_and_back() {
    let mut u = universe(&["##", "##"]);
    u.resize(0, 0);
    assert_eq!(u.cell_count(), 0);
    assert_eq!(u.image_size(), 0);
    assert_eq!(u.killed_cells(), 4);
    u.resize(2, 2);
    assert_eq!(u.current_gen(), vec![false; 4]);
    u.next_gen();
    assert_eq!(u.current_gen(), vec![false; 4]);
}

#[test]
fn load_reproduces_pattern() {
    let mut u = universe(&["...", "...", "..."]);
    let data = [0u8, 1, 0, 1, 1, 1, 0, 0, 1];
    u.load(&data, 3);
    assert_eq!(u.current_gen(), grid(&[".#.", "###", "..#"]).2);
    assert_eq!(u.resurrected_cells(), 5);
    assert_eq!(u.killed_cells(), 0);
    assert_eq!(pixel(&u, 3, 0, 1), [0, 255, 0, 255]);
    assert_eq!(pixel(&u, 3, 0, 0), [255, 255, 255, 255]);
}

#[test]
fn load_centres_a_small_pattern_and_clears_the_rest() {
    let mut u = universe(&["#####", "#####", "#####", "#####"]);
    u.load(&[1, 1, 0, 1], 2);
    assert_eq!(
        u.current_gen(),
        grid(&[".....", ".##..", "..#..", "....."]).2
    );
    assert_eq!(u.killed_cells(), 17);
    assert_eq!(u.resurrected_cells(), 0);
}

#[test]
fn load_crops_a_large_pattern() {
    let mut u = universe(&["..", ".."]);
    let data = [
        0u8, 0, 0, 0, //
        0, 1, 0, 0, //
        0, 0, 1, 0, //
        0, 0, 0, 0,
    ];
    u.load(&data, 4);
    assert_eq!(u.current_gen(), grid(&["#.", ".#"]).2);
    assert_eq!(u.resurrected_cells(), 2);
}

#[test]
fn load_ignores_other_markers_and_a_partial_row() {
    let mut u = universe(&["..", ".."]);
    u.load(&[1, 2, 255, 1, 1], 2);
    assert_eq!(u.current_gen(), grid(&["#.", ".#"]).2);
}

#[test]
fn load_with_no_columns_clears_the_grid() {
    let mut u = universe(&["##", "##"]);
    u.load(&[1, 1], 0);
    assert_eq!(u.current_gen(), vec![false; 4]);
    assert_eq!(u.killed_cells(), 4);
}

#[test]
fn load_after_next_gen_uses_the_other_buffer() {
    let mut u = universe(&["...", "###", "..."]);
    u.next_gen();
    u.load(&[1, 0, 0, 0, 0, 0, 0, 0, 1], 3);
    assert_eq!(u.current_gen(), grid(&["#..", "...", "..#"]).2);
    assert_eq!(u.killed_cells(), 3);
    assert_eq!(u.resurrected_cells(), 2);
    u.next_gen();
    assert_eq!(u.current_gen(), vec![false; 9]);
}

#[test]
fn set_cell_changes_one_cell_and_its_pixel() {
    let mut u = universe(&["...", "...", "..."]);
    u.set_cell(2, 0, true);
    assert_eq!(u.current_gen(), grid(&["..#", "...", "..."]).2);
    assert_eq!(pixel(&u, 3, 0, 2), [0, 255, 0, 255]);
    u.set_cell(2, 0, false);
    assert_eq!(u.current_gen(), vec![false; 9]);
    assert_eq!(pixel(&u, 3, 0, 2), [255, 255, 255, 255]);
}

#[test]
fn set_cell_feeds_the_next_generation() {
    let mut u = universe(&["...", "...", "..."]);
    u.next_gen();
    u.set_cell(0, 1, true);
    u.set_cell(1, 1, true);
    u.set_cell(2, 1, true);
    u.next_gen();
    assert_eq!(u.current_gen(), grid(&[".#.", ".#.", ".#."]).2);
}

#[test]
fn new_universe_is_consistent() {
    let u = Universe::new(6, 7);
    assert_eq!(u.cell_count(), 42);
    assert_eq!(u.image_size(), 42 * 4);
    let cells = u.current_gen();
    assert_eq!(cells.len(), 42);
    let alive = cells.iter().filter(|c| **c).count() as u32;
    assert_eq!(u.resurrected_cells(), alive);
    assert_eq!(u.killed_cells(), 0);
    for r in 0..6 {
        for c in 0..7 {
            let expected = if cells[r * 7 + c] {
                [0, 255, 0, 255]
            } else {
                [255, 255, 255, 255]
            };
            assert_eq!(pixel(&u, 7, r, c), expected);
        }
    }
}

#[test]
fn new_empty_universe() {
    let mut u = Universe::new(0, 0);
    assert_eq!(u.cell_count(), 0);
    assert_eq!(u.image_size(), 0);
    u.next_gen();
    assert_eq!(u.current_gen().len(), 0);
}

#[test]
fn counts_cover_exactly_the_changed_cells() {
    let mut u = Universe::new(12, 9);
    for _ in 0..5 {
        let before = u.current_gen();
        u.next_gen();
        let after = u.current_gen();
        let killed = before.iter().zip(&after).filter(|(b, a)| **b && !**a).count() as u32;
        let born = before.iter().zip(&after).filter(|(b, a)| !**b && **a).count() as u32;
        assert_eq!(u.killed_cells(), killed);
        assert_eq!(u.resurrected_cells(), born);
        assert!(killed + born <= u.cell_count());
    }
}

#[test]
fn from_draws_seeds_upper_half_bytes_alive_and_failures_dead() {
    let draws = vec![
        Ok(128u8),
        Ok(127),
        Err(getrandom::Error::UNSUPPORTED),
        Ok(255),
        Ok(0),
        Err(getrandom::Error::UNEXPECTED),
    ];
    let u = Universe::from_draws(2, 3, &draws);
    assert_eq!(u.current_gen(), vec![true, false, false, true, false, false]);
    assert_eq!(u.resurrected_cells(), 2);
    assert_eq!(u.killed_cells(), 0);
    assert_eq!(pixel(&u, 3, 0, 0), [0, 255, 0, 255]);
    assert_eq!(pixel(&u, 3, 0, 2), [255, 255, 255, 255]);
}

#[test]
fn resize_round_trip_keeps_every_pixel() {
    let mut u = universe(&["#..#", ".##.", "#.#.", "...#"]);
    u.next_gen();
    u.next_gen();
    let before = u.image_data().to_vec();
    u.resize(7, 10);
    assert_eq!(u.killed_cells(), 0);
    u.resize(4, 4);
    assert_eq!(u.killed_cells(), 0);
    assert_eq!(u.resurrected_cells(), 0);
    assert_eq!(u.image_data(), &before[..]);
}
