//! Rules engine for the board game Tak: board state, placement and
//! stack-movement legality, and a parser for textual move notation.

pub mod tak_board;
pub mod types;

pub use tak_board::BoardSize;
pub use tak_board::MoveError;
pub use tak_board::PlaceError;
pub use tak_board::Stone;
pub use tak_board::StoneColor;
pub use tak_board::TakBoard;
pub use types::Direction;
pub use types::ParseError;
pub use types::Position;
pub use types::PositionError;
pub use types::StoneType;
pub use types::TakInput;
