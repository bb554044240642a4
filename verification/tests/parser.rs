use tak::types::{Direction, ParseError, Position, PositionError, StoneType, TakInput};

fn expect_put(text: &str, row: i32, col: i32, stone: StoneType) {
    match TakInput::try_from(text) {
        Ok(TakInput::PutStone { position, stone_type }) => {
            assert_eq!(position, Position::new(row, col));
            assert_eq!(stone_type, stone);
        },
        other => panic!("expected a placement for {:?}, got {:?}", text, other),
    }
}

#[test]
fn parse_placement_with_letter() {
    // A capital letter and a digit, in either order, name the cell.
    expect_put("A1F", 0, 0, StoneType::FlatStone);
    expect_put("1AF", 0, 0, StoneType::FlatStone);
    expect_put("c3w", 2, 2, StoneType::StandingStone);
    expect_put("8hC", 7, 7, StoneType::CapStone);
}

#[test]
fn parse_placement_default_flat() {
    // With the stone letter omitted, the placement is a flat stone.
    expect_put("a1", 0, 0, StoneType::FlatStone);
    expect_put("B7", 6, 1, StoneType::FlatStone);
    expect_put(" g 5 ", 4, 6, StoneType::FlatStone);
}

#[test]
fn parse_move_with_count() {
    match TakInput::try_from("B2 3R") {
        Ok(TakInput::MoveStack { position, count, direction, drops }) => {
            assert_eq!(position, Position::new(1, 1));
            assert_eq!(count, 3);
            assert_eq!(direction, Direction::Right);
            assert!(drops.is_empty());
        },
        other => panic!("expected a stack move, got {:?}", other),
    }
}

#[test]
fn parse_move_default_count() {
    match TakInput::try_from("e4u") {
        Ok(TakInput::MoveStack { position, count, direction, drops }) => {
            assert_eq!(position, Position::new(3, 4));
            assert_eq!(count, 1);
            assert_eq!(direction, Direction::Up);
            assert!(drops.is_empty());
        },
        other => panic!("expected a stack move, got {:?}", other),
    }
}

#[test]
fn parse_move_with_drops() {
    match TakInput::try_from("a12l1113") {
        Ok(TakInput::MoveStack { position, count, direction, drops }) => {
            assert_eq!(position, Position::new(0, 0));
            assert_eq!(count, 2);
            assert_eq!(direction, Direction::Left);
            assert_eq!(drops, vec![1, 1, 1, 3]);
        },
        other => panic!("expected a stack move, got {:?}", other),
    }
}

#[test]
fn parse_errors() {
    assert!(matches!(TakInput::try_from(""), Err(ParseError::MissingRow)));
    assert!(matches!(TakInput::try_from("zz"), Err(ParseError::MissingRow)));
    assert!(matches!(TakInput::try_from("3"), Err(ParseError::MissingColumn)));
    // A digit after the position wants to be a count, so the direction is missed.
    assert!(matches!(TakInput::try_from("a13"), Err(ParseError::MissingDirection)));
    // Leftover junk that names neither a stone nor a direction.
    assert!(matches!(TakInput::try_from("a1-"), Err(ParseError::MissingStoneOrDirection)));
}

#[test]
fn parse_round_trip_placements() {
    // Rendering any placement as "<row><col><letter>" parses back to itself.
    let rows = ['1', '2', '3', '4', '5', '6', '7', '8'];
    let cols = ['a', 'b', 'c', 'd', 'e', 'f', 'g', 'h'];
    let letters = [
        ('f', StoneType::FlatStone),
        ('w', StoneType::StandingStone),
        ('c', StoneType::CapStone),
    ];
    for (ri, rc) in rows.iter().enumerate() {
        for (ci, cc) in cols.iter().enumerate() {
            for (lc, stone) in letters.iter() {
                let text = format!("{}{}{}", rc, cc, lc);
                expect_put(&text, ri as i32, ci as i32, *stone);
            }
            let bare = format!("{}{}", rc, cc);
            expect_put(&bare, ri as i32, ci as i32, StoneType::FlatStone);
        }
    }
}

#[test]
fn parse_helpers_consume_their_pieces() {
    // The helpers take their first match out of the text and leave the rest.
    let mut v: Vec<char> = "x2b3r14".chars().collect();
    let pos = TakInput::parse_position(&mut v).unwrap();
    assert_eq!(pos, Position::new(1, 1));
    assert_eq!(v, "x3r14".chars().collect::<Vec<char>>());
    assert_eq!(TakInput::parse_stone_type(&mut v), None);
    let count = TakInput::parse_count(&mut v).unwrap();
    assert_eq!(count, 3);
    assert_eq!(v, "xr14".chars().collect::<Vec<char>>());
    assert_eq!(TakInput::parse_direction(&mut v), Ok(Direction::Right));
    let drops = TakInput::parse_drops(&mut v);
    assert_eq!(drops, vec![1, 4]);
    assert_eq!(v, vec!['x']);
}

#[test]
fn parse_count_ignores_digits_after_direction() {
    // A digit that only occurs after the direction letter is a drop amount,
    // not the carry count.
    let mut v: Vec<char> = "r3".chars().collect();
    assert_eq!(TakInput::parse_count(&mut v), None);
    assert_eq!(v, vec!['r', '3']);
    let mut w: Vec<char> = "wq".chars().collect();
    assert_eq!(
        TakInput::parse_stone_type(&mut w),
        Some(StoneType::StandingStone)
    );
    assert_eq!(w, vec!['q']);
}

#[test]
fn position_from_text() {
    assert_eq!(Position::try_from("a1"), Ok(Position::new(0, 0)));
    assert_eq!(Position::try_from("2D"), Ok(Position::new(1, 3)));
    assert_eq!(Position::try_from("zz"), Err(PositionError::NoRowFound));
    assert_eq!(Position::try_from("4"), Err(PositionError::NoColumnFound));
}

#[test]
fn position_vector_arithmetic() {
    let p = Position::new(2, 3);
    let q = Position::new(-1, 1);
    assert_eq!(p.add(q), Position::new(1, 4));
    assert_eq!(p.sub(q), Position::new(3, 2));
}

#[test]
fn direction_deltas() {
    assert_eq!(Direction::Up.delta(), Position::new(-1, 0));
    assert_eq!(Direction::Down.delta(), Position::new(1, 0));
    assert_eq!(Direction::Left.delta(), Position::new(0, -1));
    assert_eq!(Direction::Right.delta(), Position::new(0, 1));
}
