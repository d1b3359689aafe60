use rollout2048::Board;
use rollout2048::Dir;

fn board_with_rows(rows: [[u64; 4]; 4]) -> Board {
    let mut b = Board::new();
    for i in 0..4 {
        for j in 0..4 {
            b.set(i, j, rows[i][j]);
        }
    }
    b
}

fn row(b: &Board, i: usize) -> [u64; 4] {
    [b.get(i, 0), b.get(i, 1), b.get(i, 2), b.get(i, 3)]
}

#[test]
fn new_board_is_empty() {
    let b = Board::new();
    assert_eq!(b.count_empty(), 16);
    for i in 0..4 {
        for j in 0..4 {
            assert_eq!(b.get(i, j), 0);
        }
    }
}

#[test]
fn get_set_roundtrip() {
    let mut b = Board::new();
    b.set(1, 2, 8);
    assert_eq!(b.get(1, 2), 8);
    assert_eq!(b.count_empty(), 15);
}

#[test]
fn lane_mapping() {
    let b = Board::new();
    assert_eq!(b.get_xy(Dir::Left, 1, 2), 6);
    assert_eq!(b.get_xy(Dir::Right, 1, 2), 5);
    assert_eq!(b.get_xy(Dir::Up, 1, 2), 9);
    assert_eq!(b.get_xy(Dir::Down, 1, 2), 5);
    assert_eq!(b.get_xy(Dir::Down, 2, 0), 14);
}

#[test]
fn basic_merge() {
    let mut b = board_with_rows([[2, 2, 0, 0], [0; 4], [0; 4], [0; 4]]);
    let r = b.swipe_move(Dir::Left);
    assert_eq!(r, Some(4));
    assert_eq!(row(&b, 0), [4, 0, 0, 0]);
}

#[test]
fn slide_without_merge() {
    let mut b = board_with_rows([[0, 2, 0, 3], [0; 4], [0; 4], [0; 4]]);
    let r = b.swipe_move(Dir::Left);
    assert_eq!(r, Some(0));
    assert_eq!(row(&b, 0), [2, 3, 0, 0]);
}

#[test]
fn chained_distinct_values_block_extra_merge() {
    let mut b = board_with_rows([[2, 2, 4, 0], [0; 4], [0; 4], [0; 4]]);
    let r = b.swipe_move(Dir::Left);
    assert_eq!(r, Some(4));
    assert_eq!(row(&b, 0), [4, 4, 0, 0]);
}

#[test]
fn packed_row_is_illegal() {
    let mut b = board_with_rows([[2, 4, 8, 16], [0; 4], [0; 4], [0; 4]]);
    let before = row(&b, 0);
    let r = b.swipe_move(Dir::Left);
    assert_eq!(r, None);
    assert_eq!(row(&b, 0), before);
}

#[test]
fn four_equal_tiles_merge_twice() {
    let mut b = board_with_rows([[2, 2, 2, 2], [0; 4], [0; 4], [0; 4]]);
    let r = b.swipe_move(Dir::Left);
    assert_eq!(r, Some(8));
    assert_eq!(row(&b, 0), [4, 4, 0, 0]);
}

#[test]
fn three_equal_tiles_merge_at_leading_edge() {
    let mut b = board_with_rows([[2, 2, 2, 0], [0; 4], [0; 4], [0; 4]]);
    let r = b.swipe_move(Dir::Left);
    assert_eq!(r, Some(4));
    assert_eq!(row(&b, 0), [4, 2, 0, 0]);
}

#[test]
fn swipe_right_packs_toward_last_column() {
    let mut b = board_with_rows([[2, 2, 0, 0], [0; 4], [0; 4], [0; 4]]);
    let r = b.swipe_move(Dir::Right);
    assert_eq!(r, Some(4));
    assert_eq!(row(&b, 0), [0, 0, 0, 4]);
}

#[test]
fn swipe_up_and_down_work_on_columns() {
    let mut b = Board::new();
    b.set(1, 0, 2);
    b.set(3, 0, 2);
    let r = b.swipe_move(Dir::Up);
    assert_eq!(r, Some(4));
    assert_eq!(b.get(0, 0), 4);
    assert_eq!(b.count_empty(), 15);

    let mut c = Board::new();
    c.set(0, 2, 4);
    c.set(2, 2, 4);
    let r2 = c.swipe_move(Dir::Down);
    assert_eq!(r2, Some(8));
    assert_eq!(c.get(3, 2), 8);
}

#[test]
fn conservation_of_tiles_under_merge() {
    // Multiset {2, 2, 4} with the pair of 2s replaced by their sum gives
    // {4, 4}; the occupied count drops by exactly the one merge.
    let mut b = board_with_rows([[2, 2, 4, 0], [0; 4], [0; 4], [0; 4]]);
    let empties_before = b.count_empty();
    b.swipe_move(Dir::Left).unwrap();
    let mut values: Vec<u64> = Vec::new();
    for i in 0..4 {
        for j in 0..4 {
            if b.get(i, j) != 0 {
                values.push(b.get(i, j));
            }
        }
    }
    values.sort();
    assert_eq!(values, vec![4, 4]);
    assert_eq!(b.count_empty(), empties_before + 1);
}

#[test]
fn swipe_of_empty_board_is_illegal() {
    let mut b = Board::new();
    assert_eq!(b.swipe_move(Dir::Left), None);
    assert_eq!(b.swipe_move(Dir::Right), None);
    assert_eq!(b.swipe_move(Dir::Up), None);
    assert_eq!(b.swipe_move(Dir::Down), None);
}

#[test]
fn successful_swipe_then_same_direction_is_illegal_without_new_pairs() {
    // After a swipe the lane is fully packed; with no equal pair left the
    // same direction must be refused on the very next call.
    let mut b = board_with_rows([[0, 2, 0, 3], [0; 4], [0; 4], [0; 4]]);
    assert_eq!(b.swipe_move(Dir::Left), Some(0));
    assert_eq!(row(&b, 0), [2, 3, 0, 0]);
    assert_eq!(b.swipe_move(Dir::Left), None);
}
