use life::utils::{copy_2d, count, draw_to_bool, floor_to, min_max, random_bool};

#[test]
fn floor_to_rounds_down() {
    assert_eq!(floor_to(13, 4), 12);
    assert_eq!(floor_to(12, 4), 12);
    assert_eq!(floor_to(3, 4), 0);
    assert_eq!(floor_to(7, 1), 7);
}

#[test]
fn min_max_orders() {
    assert_eq!(min_max(3, 9), (3, 9));
    assert_eq!(min_max(9, 3), (3, 9));
    assert_eq!(min_max(5, 5), (5, 5));
}

#[test]
fn count_matches() {
    let v = vec![true, false, true, true, false];
    assert_eq!(count(&v, true), 3);
    assert_eq!(count(&v, false), 2);
    assert_eq!(count(&Vec::new(), true), 0);
}

#[test]
fn random_bool_never_exceeds_the_top() {
    for _ in 0..32 {
        assert!(!random_bool(255));
    }
}

#[test]
fn copy_2d_grows_centred() {
    // 2 by 2 into 4 by 4
    let source = vec![1, 2, 3, 4];
    let mut target = vec![0; 16];
    copy_2d(&source, &mut target, 2, 4, 1, 0);
    assert_eq!(
        target,
        vec![0, 0, 0, 0, 0, 1, 2, 0, 0, 3, 4, 0, 0, 0, 0, 0]
    );
}

#[test]
fn copy_2d_shrinks_centred() {
    // 4 by 3 into 2 by 2: rows 1..3, columns 0..2 of the source
    let source: Vec<u8> = (0..12).collect();
    let mut target = vec![99; 4];
    copy_2d(&source, &mut target, 3, 2, 1, 0);
    assert_eq!(target, vec![3, 4, 6, 7]);
}

#[test]
fn copy_2d_wider_but_shorter() {
    // 4 rows of 2 into 2 rows of 4: centred in each dimension on its own
    let source: Vec<u8> = (1..9).collect();
    let mut target = vec![0; 8];
    copy_2d(&source, &mut target, 2, 4, 1, 0);
    assert_eq!(target, vec![0, 3, 4, 0, 0, 5, 6, 0]);
}

#[test]
fn copy_2d_with_margin_skips_edges() {
    let source = vec![9; 9];
    let mut target = vec![0; 25];
    copy_2d(&source, &mut target, 3, 5, 1, 1);
    let mut expected = vec![0; 25];
    expected[12] = 9;
    assert_eq!(target, expected);
}

#[test]
fn copy_2d_moves_whole_groups() {
    // One row of two 2-byte pixels into a row of four pixels: offset is one pixel
    let source = vec![1, 2, 3, 4];
    let mut target = vec![0; 8];
    copy_2d(&source, &mut target, 4, 8, 2, 0);
    assert_eq!(target, vec![0, 0, 1, 2, 3, 4, 0, 0]);
}

#[test]
fn draw_to_bool_decides_each_draw() {
    assert!(draw_to_bool(&Ok(128), 127));
    assert!(draw_to_bool(&Ok(255), 127));
    assert!(!draw_to_bool(&Ok(127), 127));
    assert!(!draw_to_bool(&Ok(0), 127));
    assert!(!draw_to_bool(&Ok(255), 255));
    assert!(draw_to_bool(&Ok(1), 0));
    assert!(!draw_to_bool(&Err(getrandom::Error::UNSUPPORTED), 0));
}
