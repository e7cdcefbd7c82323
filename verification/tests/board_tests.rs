use fib_blocks::model::Block;
use fib_blocks::model::BlockNumber;
use fib_blocks::model::Board;
use fib_blocks::model::Direction;
use fib_blocks::model::Position;

fn board_with(width: u32, height: u32, current: Block, settled: Vec<Block>) -> Board {
    Board { width, height, current_block: current, blocks: settled }
}

#[test]
fn block_number_values() {
    assert_eq!(BlockNumber::One.to_u32(), 1);
    assert_eq!(BlockNumber::Two.to_u32(), 2);
    assert_eq!(BlockNumber::Three.to_u32(), 3);
    assert_eq!(BlockNumber::Five.to_u32(), 5);
    assert_eq!(BlockNumber::Eight.to_u32(), 8);
    assert_eq!(BlockNumber::Thirteen.to_u32(), 13);
    assert_eq!(BlockNumber::TwentyOne.to_u32(), 21);
    assert_eq!(BlockNumber::ThrityFour.to_u32(), 34);
    assert_eq!(BlockNumber::FiftyFive.to_u32(), 55);
    assert_eq!(BlockNumber::EightyNine.to_u32(), 89);
}

#[test]
fn block_number_successors() {
    assert_eq!(BlockNumber::One.next(), Some(BlockNumber::Two));
    assert_eq!(BlockNumber::Two.next(), Some(BlockNumber::Three));
    assert_eq!(BlockNumber::Three.next(), Some(BlockNumber::Five));
    assert_eq!(BlockNumber::Five.next(), Some(BlockNumber::Eight));
    assert_eq!(BlockNumber::Eight.next(), Some(BlockNumber::Thirteen));
    assert_eq!(BlockNumber::Thirteen.next(), Some(BlockNumber::TwentyOne));
    assert_eq!(BlockNumber::TwentyOne.next(), Some(BlockNumber::ThrityFour));
    assert_eq!(BlockNumber::ThrityFour.next(), Some(BlockNumber::FiftyFive));
    assert_eq!(BlockNumber::FiftyFive.next(), Some(BlockNumber::EightyNine));
    assert_eq!(BlockNumber::EightyNine.next(), None);
}

#[test]
fn position_and_block_construction() {
    let p = Position::new(3, 7);
    assert_eq!(p.x, 3);
    assert_eq!(p.y, 7);
    let b = Block::new(BlockNumber::Five, 2, 4);
    assert_eq!(b.number, BlockNumber::Five);
    assert_eq!(b.position, Position { x: 2, y: 4 });
}

#[test]
fn new_board_spawns_centered_low_value() {
    let board = Board::new(6, 12);
    assert_eq!(board.width, 6);
    assert_eq!(board.height, 12);
    assert!(board.blocks.is_empty());
    assert_eq!(board.current_block.position, Position { x: 2, y: 0 });
    let v = board.current_block.number.to_u32();
    assert!(v == 1 || v == 2);
}

#[test]
fn move_left_at_wall_is_noop() {
    let mut board = board_with(3, 3, Block::new(BlockNumber::One, 0, 1), vec![]);
    board.move_current_block(Direction::LEFT);
    assert_eq!(board.current_block.position, Position { x: 0, y: 1 });
    assert!(board.blocks.is_empty());
}

#[test]
fn move_left_blocked_is_noop() {
    let settled = vec![Block::new(BlockNumber::Three, 0, 1)];
    let mut board = board_with(3, 3, Block::new(BlockNumber::One, 1, 1), settled.clone());
    board.move_current_block(Direction::LEFT);
    assert_eq!(board.current_block.position, Position { x: 1, y: 1 });
    assert_eq!(board.blocks, settled);
}

#[test]
fn move_left_free_steps_one_cell() {
    let mut board = board_with(3, 3, Block::new(BlockNumber::Two, 1, 0), vec![]);
    board.move_current_block(Direction::LEFT);
    assert_eq!(board.current_block.position, Position { x: 0, y: 0 });
    assert_eq!(board.current_block.number, BlockNumber::Two);
    assert!(board.blocks.is_empty());
}

#[test]
fn move_right_at_wall_is_noop() {
    let mut board = board_with(3, 3, Block::new(BlockNumber::One, 2, 1), vec![]);
    board.move_current_block(Direction::RIGHT);
    assert_eq!(board.current_block.position, Position { x: 2, y: 1 });
    assert!(board.blocks.is_empty());
}

#[test]
fn move_right_blocked_is_noop() {
    let settled = vec![Block::new(BlockNumber::Three, 2, 1)];
    let mut board = board_with(3, 3, Block::new(BlockNumber::One, 1, 1), settled.clone());
    board.move_current_block(Direction::RIGHT);
    assert_eq!(board.current_block.position, Position { x: 1, y: 1 });
    assert_eq!(board.blocks, settled);
}

#[test]
fn move_right_free_steps_one_cell() {
    let mut board = board_with(3, 3, Block::new(BlockNumber::Two, 1, 2), vec![]);
    board.move_current_block(Direction::RIGHT);
    assert_eq!(board.current_block.position, Position { x: 2, y: 2 });
    assert!(board.blocks.is_empty());
}

#[test]
fn move_down_free_descends_one_row() {
    let mut board = board_with(3, 4, Block::new(BlockNumber::One, 1, 0), vec![]);
    board.move_current_block(Direction::DOWN);
    assert_eq!(board.current_block.position, Position { x: 1, y: 1 });
    assert_eq!(board.current_block.number, BlockNumber::One);
    assert!(board.blocks.is_empty());
}

#[test]
fn move_down_on_floor_settles_and_respawns() {
    let mut board = board_with(5, 3, Block::new(BlockNumber::Three, 4, 2), vec![]);
    board.move_current_block(Direction::DOWN);
    assert_eq!(board.blocks, vec![Block::new(BlockNumber::Three, 4, 2)]);
    assert_eq!(board.current_block.position, Position { x: 2, y: 0 });
    let v = board.current_block.number.to_u32();
    assert!(v == 1 || v == 2);
}

#[test]
fn move_down_onto_block_settles_in_place() {
    let settled = vec![Block::new(BlockNumber::Five, 0, 2)];
    let mut board = board_with(3, 3, Block::new(BlockNumber::One, 0, 1), settled);
    board.move_current_block(Direction::DOWN);
    assert_eq!(board.blocks.len(), 2);
    assert_eq!(board.blocks[0], Block::new(BlockNumber::Five, 0, 2));
    assert_eq!(board.blocks[1], Block::new(BlockNumber::One, 0, 1));
    assert_eq!(board.current_block.position, Position { x: 1, y: 0 });
}

#[test]
fn smallest_board_settles_immediately() {
    let mut board = Board::new(1, 1);
    assert_eq!(board.current_block.position, Position { x: 0, y: 0 });
    board.move_current_block(Direction::DOWN);
    assert_eq!(board.blocks.len(), 1);
    assert_eq!(board.blocks[0].position, Position { x: 0, y: 0 });
    assert_eq!(board.current_block.position, Position { x: 0, y: 0 });
}

#[test]
fn down_collision_uses_topmost_obstacle_of_column() {
    // The rule consults only the least `y` of the column: a block hanging at
    // the top makes the whole column a landing spot, even above a free cell.
    let settled = vec![Block::new(BlockNumber::Five, 0, 0)];
    let mut board = board_with(2, 4, Block::new(BlockNumber::One, 0, 2), settled);
    board.move_current_block(Direction::DOWN);
    assert_eq!(board.blocks.len(), 2);
    assert_eq!(board.blocks[1], Block::new(BlockNumber::One, 0, 2));
}

#[test]
fn movement_never_touches_settled_blocks() {
    let settled = vec![
        Block::new(BlockNumber::Five, 0, 3),
        Block::new(BlockNumber::Eight, 3, 3),
    ];
    let mut board = board_with(4, 4, Block::new(BlockNumber::One, 1, 1), settled.clone());
    board.move_current_block(Direction::LEFT);
    assert_eq!(board.blocks, settled);
    board.move_current_block(Direction::RIGHT);
    assert_eq!(board.blocks, settled);
    board.move_current_block(Direction::DOWN);
    assert_eq!(board.blocks, settled);
}
