use fib_blocks::model::Block;
use fib_blocks::model::BlockNumber;
use fib_blocks::model::Board;
use fib_blocks::model::Direction;

fn board_with(width: u32, height: u32, current: Block, settled: Vec<Block>) -> Board {
    Board { width, height, current_block: current, blocks: settled }
}

fn idle_current() -> Block {
    Block::new(BlockNumber::One, 3, 0)
}

#[test]
fn adjacent_pair_merges_into_target_cell() {
    let settled = vec![
        Block::new(BlockNumber::One, 0, 0),
        Block::new(BlockNumber::Two, 1, 0),
    ];
    let mut board = board_with(4, 4, idle_current(), settled);
    board.update();
    assert_eq!(board.blocks, vec![Block::new(BlockNumber::Three, 1, 0)]);
}

#[test]
fn merge_scan_reports_the_pair() {
    let settled = vec![
        Block::new(BlockNumber::One, 0, 0),
        Block::new(BlockNumber::Two, 1, 0),
    ];
    let board = board_with(4, 4, idle_current(), settled);
    let candidates = board.mergeable_blocks();
    assert_eq!(candidates.len(), 1);
    assert_eq!(candidates[0].from, Block::new(BlockNumber::One, 0, 0));
    assert_eq!(candidates[0].to, Block::new(BlockNumber::Two, 1, 0));
}

#[test]
fn merge_scan_finds_right_to_left_direction() {
    let settled = vec![
        Block::new(BlockNumber::Two, 0, 0),
        Block::new(BlockNumber::One, 1, 0),
    ];
    let board = board_with(4, 4, idle_current(), settled);
    let candidates = board.mergeable_blocks();
    assert_eq!(candidates.len(), 1);
    assert_eq!(candidates[0].from, Block::new(BlockNumber::One, 1, 0));
    assert_eq!(candidates[0].to, Block::new(BlockNumber::Two, 0, 0));
}

#[test]
fn vertical_pair_merges() {
    let settled = vec![
        Block::new(BlockNumber::One, 2, 2),
        Block::new(BlockNumber::Two, 2, 3),
    ];
    let mut board = board_with(4, 4, idle_current(), settled);
    board.update();
    assert_eq!(board.blocks, vec![Block::new(BlockNumber::Three, 2, 3)]);
}

#[test]
fn merge_blocks_applies_one_candidate() {
    let settled = vec![
        Block::new(BlockNumber::One, 0, 0),
        Block::new(BlockNumber::Two, 1, 0),
    ];
    let mut board = board_with(4, 4, idle_current(), settled);
    let candidates = board.mergeable_blocks();
    board.merge_blocks(candidates[0]);
    assert_eq!(board.blocks, vec![Block::new(BlockNumber::Three, 1, 0)]);
}

#[test]
fn cascade_reaches_a_state_without_candidates() {
    let settled = vec![
        Block::new(BlockNumber::One, 0, 0),
        Block::new(BlockNumber::Two, 1, 0),
        Block::new(BlockNumber::Three, 2, 0),
    ];
    let mut board = board_with(4, 4, idle_current(), settled);
    board.update();
    assert!(board.mergeable_blocks().is_empty());
    for a in &board.blocks {
        for b in &board.blocks {
            let adjacent = (a.position.y == b.position.y
                && a.position.x + 1 == b.position.x)
                || (a.position.x == b.position.x && a.position.y + 1 == b.position.y);
            if adjacent {
                assert!(a.number.next() != Some(b.number) || b.number.next().is_none());
                assert!(b.number.next() != Some(a.number) || a.number.next().is_none());
            }
        }
    }
}

#[test]
fn cascade_of_three_collapses_to_one_block() {
    let settled = vec![
        Block::new(BlockNumber::One, 0, 0),
        Block::new(BlockNumber::Two, 1, 0),
        Block::new(BlockNumber::Three, 2, 0),
    ];
    let mut board = board_with(4, 4, idle_current(), settled);
    board.update();
    assert_eq!(board.blocks, vec![Block::new(BlockNumber::Eight, 2, 0)]);
}

#[test]
fn update_is_idempotent_at_fixed_point() {
    let settled = vec![
        Block::new(BlockNumber::One, 0, 0),
        Block::new(BlockNumber::Two, 1, 0),
        Block::new(BlockNumber::Three, 2, 0),
        Block::new(BlockNumber::Two, 0, 3),
    ];
    let mut board = board_with(4, 4, idle_current(), settled);
    board.update();
    let after_first = board.blocks.clone();
    let current_after_first = board.current_block;
    board.update();
    assert_eq!(board.blocks, after_first);
    assert_eq!(board.current_block, current_after_first);
}

#[test]
fn update_without_candidates_is_a_noop() {
    let settled = vec![
        Block::new(BlockNumber::One, 0, 0),
        Block::new(BlockNumber::Three, 1, 0),
        Block::new(BlockNumber::Eight, 3, 3),
    ];
    let mut board = board_with(4, 4, idle_current(), settled.clone());
    board.update();
    assert_eq!(board.blocks, settled);
}

#[test]
fn maximum_value_never_absorbs() {
    let settled = vec![
        Block::new(BlockNumber::FiftyFive, 0, 0),
        Block::new(BlockNumber::EightyNine, 1, 0),
    ];
    let mut board = board_with(4, 4, idle_current(), settled.clone());
    assert!(board.mergeable_blocks().is_empty());
    board.update();
    assert_eq!(board.blocks, settled);
}

#[test]
fn values_below_maximum_still_absorb() {
    let settled = vec![
        Block::new(BlockNumber::ThrityFour, 0, 0),
        Block::new(BlockNumber::FiftyFive, 1, 0),
    ];
    let mut board = board_with(4, 4, idle_current(), settled);
    board.update();
    assert_eq!(board.blocks, vec![Block::new(BlockNumber::EightyNine, 1, 0)]);
}

#[test]
fn non_consecutive_values_never_merge() {
    let settled = vec![
        Block::new(BlockNumber::One, 0, 0),
        Block::new(BlockNumber::Three, 1, 0),
        Block::new(BlockNumber::Eight, 1, 1),
        Block::new(BlockNumber::TwentyOne, 0, 1),
    ];
    let board = board_with(4, 4, idle_current(), settled);
    assert!(board.mergeable_blocks().is_empty());
}

#[test]
fn settling_then_update_merges_the_landed_block() {
    let settled = vec![Block::new(BlockNumber::One, 0, 3)];
    let mut board = board_with(4, 4, Block::new(BlockNumber::Two, 0, 2), settled);
    board.move_current_block(Direction::DOWN);
    assert_eq!(board.blocks.len(), 2);
    board.update();
    assert_eq!(board.blocks, vec![Block::new(BlockNumber::Three, 0, 2)]);
}
