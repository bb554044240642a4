use tak::tak_board::{BoardSize, MoveError, PlaceError, StoneColor, TakBoard};
use tak::types::{Direction, Position, StoneType};

/// Stones on the board plus stones in both inventories, counted through the
/// public accessors.
fn total_units(board: &TakBoard) -> u64 {
    let n = board.size() as i32;
    let mut total: u64 = 0;
    for row in 0..n {
        for col in 0..n {
            let stack = board.stones_at(Position::new(row, col)).unwrap();
            total += stack.len() as u64;
        }
    }
    for color in [StoneColor::White, StoneColor::Black] {
        total += board.stones_available(color) as u64;
        total += board.capstones_available(color) as u64;
    }
    total
}

#[test]
fn new_board_starting_counts() {
    // A new 5x5 board gives each player 20 regular stones and 1 capstone,
    // and the first player is one of the two colors.
    let board = TakBoard::new(BoardSize::Size5x5);
    assert_eq!(board.size(), 5);
    for color in [StoneColor::White, StoneColor::Black] {
        assert_eq!(board.stones_available(color), 20);
        assert_eq!(board.capstones_available(color), 1);
    }
    let turn = board.current_turn();
    assert!(turn == StoneColor::White || turn == StoneColor::Black);
    for row in 0..5 {
        for col in 0..5 {
            assert!(board.stones_at(Position::new(row, col)).unwrap().is_empty());
        }
    }
    // Both first players can be asked for outright.
    let w = TakBoard::new_with_turn(BoardSize::Size5x5, StoneColor::White);
    assert_eq!(w.current_turn(), StoneColor::White);
    let b = TakBoard::new_with_turn(BoardSize::Size5x5, StoneColor::Black);
    assert_eq!(b.current_turn(), StoneColor::Black);
}

#[test]
fn new_board_all_presets() {
    let presets = [
        (BoardSize::Size3x3, 3, 10, 0),
        (BoardSize::Size4x4, 4, 15, 0),
        (BoardSize::Size5x5, 5, 20, 1),
        (BoardSize::Size6x6, 6, 30, 1),
        (BoardSize::Size7x7, 7, 40, 2),
        (BoardSize::Size8x8, 8, 50, 2),
    ];
    for (preset, n, stones, caps) in presets {
        let board = TakBoard::new_with_turn(preset, StoneColor::White);
        assert_eq!(board.size(), n);
        assert_eq!(board.stones_available(StoneColor::Black), stones);
        assert_eq!(board.capstones_available(StoneColor::Black), caps);
        assert_eq!(total_units(&board), 2 * (stones as u64 + caps as u64));
    }
}

#[test]
fn first_capstone_placement() {
    // Placing a capstone at row 2 / col 3 as the first move takes the
    // mover's capstone count from 1 to 0 and flips the turn.
    let mut board = TakBoard::new_with_turn(BoardSize::Size5x5, StoneColor::White);
    assert_eq!(board.capstones_available(StoneColor::White), 1);
    assert_eq!(board.put_stone(Position::new(2, 3), StoneType::CapStone), Ok(()));
    assert_eq!(board.capstones_available(StoneColor::White), 0);
    assert_eq!(board.current_turn(), StoneColor::Black);
    let stack = board.stones_at(Position::new(2, 3)).unwrap();
    assert_eq!(stack.len(), 1);
    assert_eq!(stack[0].color, StoneColor::White);
    assert_eq!(stack[0].stone_type, StoneType::CapStone);
    assert_eq!(total_units(&board), 42);
}

#[test]
fn placement_errors_leave_board_unchanged() {
    let mut board = TakBoard::new_with_turn(BoardSize::Size5x5, StoneColor::White);
    assert_eq!(
        board.put_stone(Position::new(9, 9), StoneType::FlatStone),
        Err(PlaceError::OutOfBounds)
    );
    assert_eq!(
        board.put_stone(Position::new(-1, 0), StoneType::FlatStone),
        Err(PlaceError::OutOfBounds)
    );
    assert_eq!(board.current_turn(), StoneColor::White);
    assert_eq!(board.put_stone(Position::new(0, 0), StoneType::FlatStone), Ok(()));
    assert_eq!(
        board.put_stone(Position::new(0, 0), StoneType::FlatStone),
        Err(PlaceError::CellOccupied)
    );
    // A failed placement does not flip the turn.
    assert_eq!(board.current_turn(), StoneColor::Black);
    assert_eq!(board.stones_available(StoneColor::Black), 20);
    assert_eq!(total_units(&board), 42);
}

#[test]
fn no_capstones_on_small_boards() {
    let mut board = TakBoard::new_with_turn(BoardSize::Size3x3, StoneColor::White);
    assert_eq!(
        board.put_stone(Position::new(1, 1), StoneType::CapStone),
        Err(PlaceError::NoCapstonesLeft)
    );
    assert_eq!(board.current_turn(), StoneColor::White);
}

#[test]
fn running_out_of_stones() {
    // White places a stone on the corner ten times; Black keeps clearing the
    // corner by moving the stone aside.  The eleventh White placement finds
    // the shared pool empty.
    let mut board = TakBoard::new_with_turn(BoardSize::Size3x3, StoneColor::White);
    for _ in 0..10 {
        assert_eq!(board.put_stone(Position::new(0, 0), StoneType::FlatStone), Ok(()));
        assert_eq!(board.move_stack(Position::new(0, 0), 1, Direction::Right, Vec::new()), Ok(()));
    }
    assert_eq!(board.stones_available(StoneColor::White), 0);
    assert_eq!(
        board.put_stone(Position::new(0, 0), StoneType::FlatStone),
        Err(PlaceError::NoStonesLeft)
    );
    assert_eq!(board.stones_at(Position::new(0, 1)).unwrap().len(), 10);
    assert_eq!(total_units(&board), 20);
}

#[test]
fn move_errors() {
    let mut board = TakBoard::new_with_turn(BoardSize::Size5x5, StoneColor::White);
    assert_eq!(
        board.move_stack(Position::new(7, 7), 1, Direction::Up, Vec::new()),
        Err(MoveError::OutOfBounds)
    );
    assert_eq!(board.put_stone(Position::new(0, 0), StoneType::FlatStone), Ok(()));
    // Carry count of zero, more than the stack, or more than the board size.
    assert_eq!(
        board.move_stack(Position::new(0, 0), 0, Direction::Down, Vec::new()),
        Err(MoveError::InvalidCarryCount)
    );
    assert_eq!(
        board.move_stack(Position::new(0, 0), 2, Direction::Down, Vec::new()),
        Err(MoveError::InvalidCarryCount)
    );
    // A supplied schedule must be positive and sum to the count.
    assert_eq!(
        board.move_stack(Position::new(0, 0), 1, Direction::Down, vec![0]),
        Err(MoveError::DropScheduleMismatch)
    );
    assert_eq!(
        board.move_stack(Position::new(0, 0), 1, Direction::Down, vec![2]),
        Err(MoveError::DropScheduleMismatch)
    );
    // Walking off the edge is always illegal.
    assert_eq!(
        board.move_stack(Position::new(0, 0), 1, Direction::Up, Vec::new()),
        Err(MoveError::PathLeavesBoard)
    );
    assert_eq!(
        board.move_stack(Position::new(0, 0), 1, Direction::Left, Vec::new()),
        Err(MoveError::PathLeavesBoard)
    );
    // None of the failures moved a stone or the turn.
    assert_eq!(board.current_turn(), StoneColor::Black);
    assert_eq!(board.stones_at(Position::new(0, 0)).unwrap().len(), 1);
    assert_eq!(total_units(&board), 42);
}

/// Build a board where (2, 1) carries two white flats, (2, 2) is topped by a
/// black standing stone, and it is White's move.
fn standing_block_setup() -> TakBoard {
    let mut board = TakBoard::new_with_turn(BoardSize::Size5x5, StoneColor::White);
    assert_eq!(board.put_stone(Position::new(2, 1), StoneType::FlatStone), Ok(()));
    assert_eq!(board.put_stone(Position::new(2, 2), StoneType::StandingStone), Ok(()));
    assert_eq!(board.put_stone(Position::new(3, 1), StoneType::FlatStone), Ok(()));
    assert_eq!(board.move_stack(Position::new(3, 1), 1, Direction::Up, Vec::new()), Ok(()));
    assert_eq!(board.stones_at(Position::new(2, 1)).unwrap().len(), 2);
    assert_eq!(board.current_turn(), StoneColor::White);
    board
}

#[test]
fn standing_stone_blocks_group() {
    // Moving two stones onto a standing stone fails and changes nothing.
    let mut board = standing_block_setup();
    assert_eq!(
        board.move_stack(Position::new(2, 1), 2, Direction::Right, Vec::new()),
        Err(MoveError::BlockedDestination)
    );
    assert_eq!(board.current_turn(), StoneColor::White);
    assert_eq!(board.stones_at(Position::new(2, 1)).unwrap().len(), 2);
    let wall = board.stones_at(Position::new(2, 2)).unwrap();
    assert_eq!(wall.len(), 1);
    assert_eq!(wall[0].stone_type, StoneType::StandingStone);
    assert_eq!(total_units(&board), 42);
}

#[test]
fn lone_capstone_crushes_standing_stone() {
    // A lone capstone entering the same standing stone crushes it flat,
    // lands on top, and the move ends there even though the default
    // schedule could have gone further.
    let mut board = standing_block_setup();
    assert_eq!(board.put_stone(Position::new(1, 2), StoneType::CapStone), Ok(()));
    assert_eq!(board.current_turn(), StoneColor::Black);
    assert_eq!(board.move_stack(Position::new(1, 2), 1, Direction::Down, Vec::new()), Ok(()));
    assert_eq!(board.current_turn(), StoneColor::White);
    assert!(board.stones_at(Position::new(1, 2)).unwrap().is_empty());
    let crushed = board.stones_at(Position::new(2, 2)).unwrap();
    assert_eq!(crushed.len(), 2);
    assert_eq!(crushed[0].stone_type, StoneType::FlatStone);
    assert_eq!(crushed[0].color, StoneColor::Black);
    assert_eq!(crushed[1].stone_type, StoneType::CapStone);
    assert_eq!(crushed[1].color, StoneColor::White);
    // Nothing went past the crushed cell.
    assert!(board.stones_at(Position::new(3, 2)).unwrap().is_empty());
    assert_eq!(total_units(&board), 42);
}

/// Build a board where (2, 2) carries three white flats, a standing stone
/// waits at (2, 4), and it is Black's move.
fn tall_stack_setup() -> TakBoard {
    let mut board = TakBoard::new_with_turn(BoardSize::Size5x5, StoneColor::White);
    assert_eq!(board.put_stone(Position::new(2, 2), StoneType::FlatStone), Ok(()));
    assert_eq!(board.put_stone(Position::new(0, 0), StoneType::FlatStone), Ok(()));
    assert_eq!(board.put_stone(Position::new(3, 2), StoneType::FlatStone), Ok(()));
    assert_eq!(board.move_stack(Position::new(3, 2), 1, Direction::Up, Vec::new()), Ok(()));
    assert_eq!(board.put_stone(Position::new(3, 2), StoneType::FlatStone), Ok(()));
    assert_eq!(board.move_stack(Position::new(3, 2), 1, Direction::Up, Vec::new()), Ok(()));
    assert_eq!(board.put_stone(Position::new(2, 4), StoneType::StandingStone), Ok(()));
    assert_eq!(board.stones_at(Position::new(2, 2)).unwrap().len(), 3);
    assert_eq!(board.current_turn(), StoneColor::Black);
    board
}

#[test]
fn default_schedule_dumps_rest_before_wall() {
    // The default walk drops one stone per cell; when the next cell is
    // impassable the whole rest lands on the last cell reached.
    let mut board = tall_stack_setup();
    assert_eq!(board.move_stack(Position::new(2, 2), 3, Direction::Right, Vec::new()), Ok(()));
    assert!(board.stones_at(Position::new(2, 2)).unwrap().is_empty());
    assert_eq!(board.stones_at(Position::new(2, 3)).unwrap().len(), 3);
    let wall = board.stones_at(Position::new(2, 4)).unwrap();
    assert_eq!(wall.len(), 1);
    assert_eq!(wall[0].stone_type, StoneType::StandingStone);
    assert_eq!(total_units(&board), 42);
}

#[test]
fn explicit_schedule_cannot_enter_wall() {
    // The same ground with an explicit schedule that would step onto the
    // standing stone is refused outright.
    let mut board = tall_stack_setup();
    assert_eq!(
        board.move_stack(Position::new(2, 2), 3, Direction::Right, vec![1, 2]),
        Err(MoveError::BlockedDestination)
    );
    assert_eq!(board.stones_at(Position::new(2, 2)).unwrap().len(), 3);
    assert_eq!(board.current_turn(), StoneColor::Black);
    // A schedule that stays on the open cell works.
    assert_eq!(board.move_stack(Position::new(2, 2), 3, Direction::Right, vec![3]), Ok(()));
    assert_eq!(board.stones_at(Position::new(2, 3)).unwrap().len(), 3);
    assert_eq!(board.current_turn(), StoneColor::White);
    assert_eq!(total_units(&board), 42);
}

#[test]
fn carried_stack_keeps_its_order() {
    // Spreading a mixed stack drops from the bottom of the carried group,
    // so the source's top stone ends up farthest along the path.
    let mut board = TakBoard::new_with_turn(BoardSize::Size5x5, StoneColor::White);
    assert_eq!(board.put_stone(Position::new(4, 0), StoneType::FlatStone), Ok(()));
    assert_eq!(board.put_stone(Position::new(4, 1), StoneType::FlatStone), Ok(()));
    assert_eq!(board.move_stack(Position::new(4, 1), 1, Direction::Left, Vec::new()), Ok(()));
    // (4, 0) now stacks white under black; black to move carries both right.
    assert_eq!(board.move_stack(Position::new(4, 0), 2, Direction::Right, Vec::new()), Ok(()));
    let first = board.stones_at(Position::new(4, 1)).unwrap();
    let second = board.stones_at(Position::new(4, 2)).unwrap();
    assert_eq!(first.len(), 1);
    assert_eq!(first[0].color, StoneColor::White);
    assert_eq!(second.len(), 1);
    assert_eq!(second[0].color, StoneColor::Black);
    assert_eq!(total_units(&board), 42);
}
