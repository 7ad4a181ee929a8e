use twenty_48::Direction;
use twenty_48::GameState;
use twenty_48::Tile;

/// The grid read back in the flat literal form: -1 for empty, the displayed
/// value otherwise.
fn as_list(gs: &GameState) -> [i32; 16] {
    let rows = gs.rows();
    let mut out = [0i32; 16];
    for i in 0..4 {
        for j in 0..4 {
            out[i * 4 + j] = match rows[i][j] {
                Some(t) => t.as_u32() as i32,
                None => -1,
            };
        }
    }
    out
}

fn count_tiles(gs: &GameState) -> usize {
    as_list(gs).iter().filter(|v| **v != -1).count()
}

// | 128 | 64  | 32  |  8  |
// |  8  |  4  |  8  |  4  |
// |     |     |     |     |
// |     |     |     |     |
#[test]
fn lib_testcase1() {
    let gs = GameState::from_list([128, 64, 32, 8, 8, 4, 8, 4, -1, -1, -1, -1, -1, -1, -1, -1]);
    assert!(!gs.can_move(Direction::Right));
}

#[test]
fn main_testcase1() {
    let gs = GameState::from_list([128, 64, 32, 8, 8, 4, 8, 4, -1, -1, -1, -1, -1, -1, -1, -1]);
    assert!(!gs.can_move(Direction::Right));
}

#[test]
fn row_merges_leftmost_pair_and_does_not_remerge() {
    // [2,2,2,-1] swiped Left: the leftmost pair merges to 4, the remaining 2
    // slides next to it, and the fresh 4 does not merge with it.
    let mut gs = GameState::from_list([2, 2, 2, -1, -1, -1, -1, -1, -1, -1, -1, -1, -1, -1, -1, -1]);
    gs.do_move(Direction::Left);
    assert_eq!(
        as_list(&gs),
        [4, 2, -1, -1, -1, -1, -1, -1, -1, -1, -1, -1, -1, -1, -1, -1]
    );
}

#[test]
fn four_equal_tiles_make_two_pairs() {
    let mut gs = GameState::from_list([2, 2, 2, 2, -1, -1, -1, -1, -1, -1, -1, -1, -1, -1, -1, -1]);
    gs.do_move(Direction::Left);
    assert_eq!(
        as_list(&gs),
        [4, 4, -1, -1, -1, -1, -1, -1, -1, -1, -1, -1, -1, -1, -1, -1]
    );
}

#[test]
fn row_merges_rightmost_pair_on_right_swipe() {
    let mut gs = GameState::from_list([2, 2, 2, -1, -1, -1, -1, -1, -1, -1, -1, -1, -1, -1, -1, -1]);
    gs.do_move(Direction::Right);
    assert_eq!(
        as_list(&gs),
        [-1, -1, 2, 4, -1, -1, -1, -1, -1, -1, -1, -1, -1, -1, -1, -1]
    );
}

#[test]
fn column_merges_upward() {
    // column 1 holds 2, gap, 2, 4: the pair meets at the top, the 4 follows
    let mut gs = GameState::from_list([-1, 2, -1, -1, -1, -1, -1, -1, -1, 2, -1, -1, -1, 4, -1, -1]);
    gs.do_move(Direction::Up);
    assert_eq!(
        as_list(&gs),
        [-1, 4, -1, -1, -1, 4, -1, -1, -1, -1, -1, -1, -1, -1, -1, -1]
    );
}

#[test]
fn column_merges_downward() {
    let mut gs = GameState::from_list([-1, 2, -1, -1, -1, -1, -1, -1, -1, 2, -1, -1, -1, 4, -1, -1]);
    gs.do_move(Direction::Down);
    assert_eq!(
        as_list(&gs),
        [-1, -1, -1, -1, -1, -1, -1, -1, -1, 4, -1, -1, -1, 4, -1, -1]
    );
}

#[test]
fn merge_happens_across_gaps() {
    let mut gs = GameState::from_list([2, -1, -1, 2, -1, -1, -1, -1, -1, -1, -1, -1, -1, -1, -1, -1]);
    gs.do_move(Direction::Left);
    assert_eq!(
        as_list(&gs),
        [4, -1, -1, -1, -1, -1, -1, -1, -1, -1, -1, -1, -1, -1, -1, -1]
    );
}

#[test]
fn blocked_pair_does_not_merge() {
    // the 4 in between blocks the two 2s
    let mut gs = GameState::from_list([2, 4, 2, -1, -1, -1, -1, -1, -1, -1, -1, -1, -1, -1, -1, -1]);
    gs.do_move(Direction::Left);
    assert_eq!(
        as_list(&gs),
        [2, 4, 2, -1, -1, -1, -1, -1, -1, -1, -1, -1, -1, -1, -1, -1]
    );
}

#[test]
fn lone_tile_slides_all_the_way() {
    // chained slide: only empty cells between the tile and the edge
    let mut gs = GameState::from_list([-1, -1, -1, 2, -1, -1, -1, -1, -1, -1, -1, -1, -1, -1, -1, -1]);
    gs.do_move(Direction::Left);
    assert_eq!(
        as_list(&gs),
        [2, -1, -1, -1, -1, -1, -1, -1, -1, -1, -1, -1, -1, -1, -1, -1]
    );
}

#[test]
fn lone_tile_slides_down_a_column() {
    let mut gs = GameState::from_list([-1, 2, -1, -1, -1, -1, -1, -1, -1, -1, -1, -1, -1, -1, -1, -1]);
    gs.do_move(Direction::Down);
    assert_eq!(
        as_list(&gs),
        [-1, -1, -1, -1, -1, -1, -1, -1, -1, -1, -1, -1, -1, 2, -1, -1]
    );
}

#[test]
fn unmovable_direction_is_identity() {
    // the fixture cannot move Right; applying Right anyway changes nothing
    let mut gs = GameState::from_list([128, 64, 32, 8, 8, 4, 8, 4, -1, -1, -1, -1, -1, -1, -1, -1]);
    let before = as_list(&gs);
    gs.do_move(Direction::Right);
    assert_eq!(as_list(&gs), before);
}

#[test]
fn move_keeps_value_sum_and_never_adds_tiles() {
    let mut gs = GameState::from_list([2, 2, 2, -1, 4, -1, 4, 8, -1, -1, -1, -1, 2, -1, -1, 2]);
    let sum_before = gs.score();
    let tiles_before = count_tiles(&gs);
    gs.do_move(Direction::Left);
    assert_eq!(gs.score(), sum_before);
    assert!(count_tiles(&gs) <= tiles_before);
}

#[test]
fn checkerboard_is_lost() {
    let gs = GameState::from_list([2, 4, 2, 4, 4, 2, 4, 2, 2, 4, 2, 4, 4, 2, 4, 2]);
    assert!(gs.lost());
    assert!(!gs.can_move(Direction::Up));
    assert!(!gs.can_move(Direction::Down));
    assert!(!gs.can_move(Direction::Left));
    assert!(!gs.can_move(Direction::Right));
}

#[test]
fn lost_is_false_while_any_direction_moves() {
    let gs = GameState::from_list([2, 4, 2, 4, 4, 2, 4, 2, 2, 4, 2, 4, 4, 2, 4, -1]);
    assert!(!gs.lost());
    assert!(gs.can_move(Direction::Right));
    assert!(gs.can_move(Direction::Down));
}

#[test]
fn movability_of_single_corner_tile() {
    let gs = GameState::from_list([2, -1, -1, -1, -1, -1, -1, -1, -1, -1, -1, -1, -1, -1, -1, -1]);
    assert!(!gs.can_move(Direction::Left));
    assert!(!gs.can_move(Direction::Up));
    assert!(gs.can_move(Direction::Right));
    assert!(gs.can_move(Direction::Down));
}

#[test]
fn can_move_row_and_col() {
    let gs = GameState::from_list([2, 2, -1, -1, -1, -1, -1, -1, -1, -1, -1, -1, -1, -1, -1, 2]);
    assert!(gs.can_move_row(0)); // the pair can merge either way
    assert!(!gs.can_move_row(1)); // empty row shifts nowhere
    assert!(gs.can_move_row(3)); // lone tile slides left
    assert!(gs.can_move_col(0)); // lone 2 at top can fall
    assert!(!gs.can_move_col(2)); // empty column
    assert!(gs.can_move_col(3)); // lone tile at the bottom can rise
}

#[test]
fn from_list_rows_roundtrip() {
    let arg = [2, -1, 4, 8, -1, 16, -1, 32, 64, -1, 128, -1, 256, 512, 1024, 2048];
    let gs = GameState::from_list(arg);
    assert_eq!(as_list(&gs), arg);
}

#[test]
fn tile_exponent_and_value() {
    let gs = GameState::from_list([2, 4, 1024, -1, -1, -1, -1, -1, -1, -1, -1, -1, -1, -1, -1, -1]);
    let rows = gs.rows();
    let t0: Tile = rows[0][0].unwrap();
    let t1: Tile = rows[0][1].unwrap();
    let t2: Tile = rows[0][2].unwrap();
    assert_eq!(t0.exponent(), 1);
    assert_eq!(t0.as_u32(), 2);
    assert_eq!(t1.exponent(), 2);
    assert_eq!(t1.as_u32(), 4);
    assert_eq!(t2.exponent(), 10);
    assert_eq!(t2.as_u32(), 1024);
    assert!(rows[0][3].is_none());
}

#[test]
fn max_and_score_of_fixture() {
    let gs = GameState::from_list([128, 64, 32, 8, 8, 4, 8, 4, -1, -1, -1, -1, -1, -1, -1, -1]);
    assert_eq!(gs.max(), 128);
    assert_eq!(gs.score(), 256);
}

#[test]
fn spawn_fills_exactly_one_empty_cell_with_2_or_4() {
    let mut gs = GameState::from_list([2, 4, -1, -1, -1, -1, -1, -1, -1, -1, -1, -1, -1, -1, -1, 8]);
    let before = as_list(&gs);
    gs.spawn_tile();
    let after = as_list(&gs);
    let mut changed: u32 = 0;
    for k in 0..16 {
        if before[k] != after[k] {
            changed += 1;
            assert_eq!(before[k], -1);
            assert!(after[k] == 2 || after[k] == 4);
        }
    }
    assert_eq!(changed, 1);
}

#[test]
fn spawn_with_dir_fills_exactly_one_empty_cell_with_2_or_4() {
    let mut gs = GameState::from_list([2, 4, -1, -1, -1, -1, -1, -1, -1, -1, -1, -1, -1, -1, -1, 8]);
    let before = as_list(&gs);
    gs.spawn_tile_with_dir(Direction::Right);
    let after = as_list(&gs);
    let mut changed: u32 = 0;
    for k in 0..16 {
        if before[k] != after[k] {
            changed += 1;
            assert_eq!(before[k], -1);
            assert!(after[k] == 2 || after[k] == 4);
        }
    }
    assert_eq!(changed, 1);
}

#[test]
fn new_board_has_two_low_tiles_and_can_move() {
    let gs = GameState::new_from_seed(7);
    let list = as_list(&gs);
    let tiles: Vec<i32> = list.iter().copied().filter(|v| *v != -1).collect();
    assert_eq!(tiles.len(), 2);
    assert!(tiles.iter().all(|v| *v == 2 || *v == 4));
    assert!(!gs.lost());
}

#[test]
fn new_from_entropy_has_two_tiles() {
    let gs = GameState::new_from_entropy();
    assert_eq!(count_tiles(&gs), 2);
}

#[test]
fn seeded_boards_replay_identically() {
    let mut a = GameState::new_from_seed(42);
    let mut b = GameState::new_from_seed(42);
    assert_eq!(as_list(&a), as_list(&b));
    a.do_move(Direction::Left);
    b.do_move(Direction::Left);
    a.spawn_tile();
    b.spawn_tile();
    assert_eq!(as_list(&a), as_list(&b));
    a.do_move(Direction::Up);
    b.do_move(Direction::Up);
    a.spawn_tile_with_dir(Direction::Up);
    b.spawn_tile_with_dir(Direction::Up);
    assert_eq!(as_list(&a), as_list(&b));
}

#[test]
fn clone_duplicates_board_and_generator_state() {
    let mut a = GameState::new_from_seed(99);
    let mut b = a.clone();
    assert_eq!(as_list(&a), as_list(&b));
    // the clone carries its own generator with the same state: the same
    // spawns follow on both copies
    a.spawn_tile();
    b.spawn_tile();
    assert_eq!(as_list(&a), as_list(&b));
}

#[test]
fn clone_supports_undo_snapshots() {
    let gs = GameState::from_list([2, 2, -1, -1, -1, -1, -1, -1, -1, -1, -1, -1, -1, -1, -1, -1]);
    let snapshot = gs.clone();
    let mut playing = gs;
    playing.do_move(Direction::Left);
    assert_ne!(as_list(&playing), as_list(&snapshot));
    let restored = snapshot;
    assert_eq!(
        as_list(&restored),
        [2, 2, -1, -1, -1, -1, -1, -1, -1, -1, -1, -1, -1, -1, -1, -1]
    );
}

#[test]
fn solver_fixed_priority_plays_to_the_end() {
    let mut gs = GameState::new_from_seed(1);
    twenty_48::solvers::solver_up_right_left_down(&mut gs);
    assert!(gs.lost());
    assert!(gs.score() > 0);
    assert!(gs.max() >= 4);
}

#[test]
fn solver_snake_plays_to_the_end() {
    let mut gs = GameState::new_from_seed(2);
    twenty_48::solvers::solver_snake(&mut gs);
    assert!(gs.lost());
    assert!(gs.score() > 0);
}
