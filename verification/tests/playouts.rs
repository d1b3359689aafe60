use rollout2048::Board;
use rollout2048::Dir;

fn board_with_rows(rows: [[u64; 4]; 4]) -> Board {
    let mut b = Board::new();
    for i in 0..4 {
        for j in 0..4 {
            b.set(i, j, rows[i][j]);
        }
    }
    b
}

fn terminal_board() -> Board {
    // Full board in which every adjacent pair, along rows and columns, holds
    // distinct values.
    board_with_rows([[2, 4, 2, 4], [4, 2, 4, 2], [2, 4, 2, 4], [4, 2, 4, 2]])
}

fn is_power_of_two(v: u64) -> bool {
    v >= 2 && (v & (v - 1)) == 0
}

#[test]
fn spawn_fills_exactly_one_empty_cell() {
    let mut rng = rand::thread_rng();
    let mut b = board_with_rows([[2, 0, 4, 0], [0; 4], [8, 0, 0, 0], [0; 4]]);
    let before = b;
    let empties = b.count_empty();
    b.spawn(&mut rng);
    assert_eq!(b.count_empty(), empties - 1);
    let mut changed = 0;
    for i in 0..4 {
        for j in 0..4 {
            if b.get(i, j) != before.get(i, j) {
                changed += 1;
                assert_eq!(before.get(i, j), 0);
                assert!(b.get(i, j) == 2 || b.get(i, j) == 4);
            }
        }
    }
    assert_eq!(changed, 1);
}

#[test]
fn spawn_hits_the_single_empty_cell() {
    let mut rng = rand::thread_rng();
    let mut b = board_with_rows([[2, 4, 2, 4], [4, 2, 4, 2], [2, 4, 2, 4], [4, 2, 4, 0]]);
    b.spawn(&mut rng);
    assert!(b.get(3, 3) == 2 || b.get(3, 3) == 4);
    assert_eq!(b.count_empty(), 0);
}

#[test]
fn random_actions_finds_the_legal_move() {
    let mut rng = rand::thread_rng();
    // Only Right and Down can move the lone tile; the shuffled search must
    // still find one of them.
    let mut b = Board::new();
    b.set(0, 0, 2);
    let r = b.random_actions(&mut rng);
    assert_eq!(r, Some(0));
    assert!(b.get(0, 3) == 2 || b.get(3, 0) == 2);
}

#[test]
fn random_actions_on_terminal_board_is_none() {
    let mut rng = rand::thread_rng();
    let mut b = terminal_board();
    let before = b;
    assert_eq!(b.random_actions(&mut rng), None);
    for i in 0..4 {
        for j in 0..4 {
            assert_eq!(b.get(i, j), before.get(i, j));
        }
    }
}

#[test]
fn eval_of_terminal_board_scores_zero() {
    let mut rng = rand::thread_rng();
    let mut b = terminal_board();
    assert_eq!(b.eval(&mut rng), 0);
}

#[test]
fn playout_leaves_only_powers_of_two() {
    let mut rng = rand::thread_rng();
    let mut b = Board::new();
    b.run(&mut rng);
    for i in 0..4 {
        for j in 0..4 {
            let v = b.get(i, j);
            assert!(v == 0 || is_power_of_two(v));
        }
    }
}

#[test]
fn terminal_detection() {
    let mut rng = rand::thread_rng();
    let mut b = terminal_board();
    assert_eq!(b.swipe_move(Dir::Up), None);
    assert_eq!(b.swipe_move(Dir::Down), None);
    assert_eq!(b.swipe_move(Dir::Left), None);
    assert_eq!(b.swipe_move(Dir::Right), None);
    assert_eq!(b.best_move(&mut rng, 3), None);
}

#[test]
fn best_move_returns_a_legal_direction() {
    let mut rng = rand::thread_rng();
    let b = board_with_rows([[2, 2, 0, 0], [0; 4], [0; 4], [0; 4]]);
    let d = b.best_move(&mut rng, 2).expect("a legal move exists");
    let mut after = b;
    assert!(after.swipe_move(d).is_some());
}

#[test]
fn best_move_does_not_change_the_board() {
    let mut rng = rand::thread_rng();
    let b = board_with_rows([[2, 2, 4, 0], [0; 4], [0, 0, 2, 2], [0; 4]]);
    let copy = b;
    b.best_move(&mut rng, 2);
    for i in 0..4 {
        for j in 0..4 {
            assert_eq!(b.get(i, j), copy.get(i, j));
        }
    }
}

#[test]
fn reachable_boards_hold_powers_of_two() {
    let mut rng = rand::thread_rng();
    let mut b = Board::new();
    b.spawn(&mut rng);
    for _ in 0..40 {
        if b.count_empty() > 0 {
            b.spawn(&mut rng);
        }
        match b.best_move(&mut rng, 1) {
            Some(d) => {
                b.swipe_move(d);
            }
            None => break,
        }
        for i in 0..4 {
            for j in 0..4 {
                let v = b.get(i, j);
                assert!(v == 0 || is_power_of_two(v));
            }
        }
    }
}

#[test]
fn place_at_empty_picks_by_index_order() {
    let mut b = board_with_rows([[2, 0, 4, 0], [8, 8, 8, 8], [2, 4, 2, 4], [4, 2, 4, 0]]);
    // Empty cells sit at linear indices 1, 3, and 15, in that order.
    let mut c = b;
    c.place_at_empty(0, 8);
    assert_eq!(c.get(0, 1), 8);
    let mut c = b;
    c.place_at_empty(1, 8);
    assert_eq!(c.get(0, 3), 8);
    b.place_at_empty(2, 16);
    assert_eq!(b.get(3, 3), 16);
    assert_eq!(b.count_empty(), 2);
}

#[test]
fn first_legal_swipe_respects_the_given_order() {
    // A lone tile in the top-left corner: Up and Left change nothing, so the
    // first legal direction of this order is Right.
    let mut b = Board::new();
    b.set(0, 0, 2);
    let order = vec![Dir::Up, Dir::Left, Dir::Right, Dir::Down];
    let r = b.first_legal_swipe(&order);
    assert_eq!(r, Some((Dir::Right, 0)));
    assert_eq!(b.get(0, 3), 2);
    assert_eq!(b.get(0, 0), 0);
}

#[test]
fn first_legal_swipe_on_terminal_board_is_none() {
    let mut b = terminal_board();
    let order = vec![Dir::Up, Dir::Down, Dir::Left, Dir::Right];
    assert_eq!(b.first_legal_swipe(&order), None);
}

#[test]
fn playout_ends_in_a_terminal_position() {
    let mut rng = rand::thread_rng();
    let mut b = board_with_rows([[2, 2, 0, 0], [0; 4], [0; 4], [0; 4]]);
    b.eval(&mut rng);
    assert_eq!(b.swipe_move(Dir::Up), None);
    assert_eq!(b.swipe_move(Dir::Down), None);
    assert_eq!(b.swipe_move(Dir::Left), None);
    assert_eq!(b.swipe_move(Dir::Right), None);
}
