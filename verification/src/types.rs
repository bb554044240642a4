//! Core value types: board coordinates, directions, stone kinds, and the
//! move-notation parser.

use vstd::prelude::*;

verus! {

/// Position of a cell on the board: an unbounded (row, col) pair.
/// Boundedness is a property of the board, not of the type.
#[derive(Clone, Copy, PartialEq, Eq, Hash, Structural, Debug)]
pub struct Position {
    pub row: i32,
    pub col: i32,
}

impl Position {
    pub fn new(row: i32, col: i32) -> (p: Self)
        ensures
            p.row == row,
            p.col == col,
    {
        Self { row, col }
    }

    /// Component-wise vector addition.
    pub fn add(self, rhs: Self) -> (p: Self)
        requires
            i32::MIN <= self.row + rhs.row <= i32::MAX,
            i32::MIN <= self.col + rhs.col <= i32::MAX,
        ensures
            p.row == self.row + rhs.row,
            p.col == self.col + rhs.col,
    {
        Self { row: self.row + rhs.row, col: self.col + rhs.col }
    }

    /// Component-wise vector subtraction.
    pub fn sub(self, rhs: Self) -> (p: Self)
        requires
            i32::MIN <= self.row - rhs.row <= i32::MAX,
            i32::MIN <= self.col - rhs.col <= i32::MAX,
        ensures
            p.row == self.row - rhs.row,
            p.col == self.col - rhs.col,
    {
        Self { row: self.row - rhs.row, col: self.col - rhs.col }
    }
}

/// The three kinds of stone.
#[derive(Clone, Copy, PartialEq, Eq, Structural, Debug)]
pub enum StoneType {
    FlatStone,
    StandingStone,
    CapStone,
}

/// A direction of stack movement, mapped to a unit (row, col) delta:
/// Up = (-1, 0), Down = (1, 0), Left = (0, -1), Right = (0, 1).
#[derive(Clone, Copy, PartialEq, Eq, Structural, Debug)]
pub enum Direction {
    Left,
    Right,
    Up,
    Down,
}

pub open spec fn delta_row(d: Direction) -> int {
    match d {
        Direction::Up => -1,
        Direction::Down => 1,
        Direction::Left => 0,
        Direction::Right => 0,
    }
}

pub open spec fn delta_col(d: Direction) -> int {
    match d {
        Direction::Up => 0,
        Direction::Down => 0,
        Direction::Left => -1,
        Direction::Right => 1,
    }
}

impl Direction {
    /// The unit step this direction stands for.
    pub fn delta(self) -> (p: Position)
        ensures
            p.row == delta_row(self),
            p.col == delta_col(self),
    {
        match self {
            Direction::Up => Position { row: -1, col: 0 },
            Direction::Down => Position { row: 1, col: 0 },
            Direction::Left => Position { row: 0, col: -1 },
            Direction::Right => Position { row: 0, col: 1 },
        }
    }
}

/// Error kinds for reading a bare position out of text.
#[derive(Clone, Copy, PartialEq, Eq, Structural, Debug)]
pub enum PositionError {
    NoRowFound,
    NoColumnFound,
}

/// Error kinds for parsing a full move notation.
#[derive(Clone, Copy, PartialEq, Eq, Structural, Debug)]
pub enum ParseError {
    MissingRow,
    MissingColumn,
    MissingDirection,
    MissingStoneOrDirection,
}

/// The classes of characters that carry meaning in move notation.
/// All matching is case-insensitive; characters outside every class
/// are ignored where the grammar allows it.
#[derive(Clone, Copy, PartialEq, Eq, Structural, Debug)]
pub enum CharKind {
    /// A row digit, `'1'` through `'8'`.
    Row,
    /// A column letter, `'a'` through `'h'`.
    Col,
    /// A stone-type letter: `'f'`, `'w'` or `'c'`.
    StoneLetter,
    /// A direction letter: `'u'`, `'d'`, `'l'` or `'r'`.
    DirLetter,
    /// Any decimal digit, `'0'` through `'9'`.
    Digit,
    /// Anything that is not ASCII whitespace.
    NonSpace,
}

pub open spec fn is_space_char(c: char) -> bool {
    c == ' ' || c == '\t' || c == '\n' || c == '\r'
}

pub open spec fn matches_kind(k: CharKind, c: char) -> bool {
    match k {
        CharKind::Row => '1' <= c && c <= '8',
        CharKind::Col => ('a' <= c && c <= 'h') || ('A' <= c && c <= 'H'),
        CharKind::StoneLetter => c == 'f' || c == 'w' || c == 'c' || c == 'F' || c == 'W'
            || c == 'C',
        CharKind::DirLetter => c == 'u' || c == 'd' || c == 'l' || c == 'r' || c == 'U'
            || c == 'D' || c == 'L' || c == 'R',
        CharKind::Digit => '0' <= c && c <= '9',
        CharKind::NonSpace => !is_space_char(c),
    }
}

/// Row index named by a row digit: `'1'` names row 0.
pub open spec fn row_val(c: char) -> int {
    c as int - '1' as int
}

/// Column index named by a column letter: `'a'` or `'A'` names column 0.
pub open spec fn col_val(c: char) -> int {
    if 'a' <= c && c <= 'h' {
        c as int - 'a' as int
    } else {
        c as int - 'A' as int
    }
}

pub open spec fn digit_val(c: char) -> int {
    c as int - '0' as int
}

pub open spec fn stone_of(c: char) -> StoneType {
    if c == 'f' || c == 'F' {
        StoneType::FlatStone
    } else if c == 'w' || c == 'W' {
        StoneType::StandingStone
    } else {
        StoneType::CapStone
    }
}

pub open spec fn dir_of(c: char) -> Direction {
    if c == 'u' || c == 'U' {
        Direction::Up
    } else if c == 'd' || c == 'D' {
        Direction::Down
    } else if c == 'l' || c == 'L' {
        Direction::Left
    } else {
        Direction::Right
    }
}

/// Index of the first character at or after `i` that belongs to class `k`.
pub open spec fn find_kind(s: Seq<char>, i: int, k: CharKind) -> Option<int>
    decreases s.len() - i when 0 <= i <= s.len()
{
    if i < 0 || i >= s.len() {
        None
    } else if matches_kind(k, s[i]) {
        Some(i)
    } else {
        find_kind(s, i + 1, k)
    }
}

/// The first match exists exactly when some character at or after `i`
/// belongs to class `k`.
proof fn lemma_find_kind_exists(s: Seq<char>, i: int, k: CharKind)
    requires
        0 <= i <= s.len(),
    ensures
        (find_kind(s, i, k) is Some) <==> (exists|j: int|
            i <= j < s.len() && matches_kind(k, s[j])),
    decreases s.len() - i,
{
    if i < s.len() {
        lemma_find_kind_exists(s, i + 1, k);
        if matches_kind(k, s[i]) {
            assert(i <= i < s.len() && matches_kind(k, s[i]));
        }
    }
}

/// A found index lies in range and names a character of class `k`.
proof fn lemma_find_kind_found(s: Seq<char>, i: int, k: CharKind)
    requires
        0 <= i <= s.len(),
        find_kind(s, i, k) is Some,
    ensures
        i <= find_kind(s, i, k)->0 < s.len(),
        matches_kind(k, s[find_kind(s, i, k)->0]),
    decreases s.len() - i,
{
    if i < s.len() && !matches_kind(k, s[i]) {
        lemma_find_kind_found(s, i + 1, k);
    }
}

/// Removing a character that is not of class `k` neither creates nor
/// destroys the presence of class `k` in the text.
proof fn lemma_remove_keeps_kind(s: Seq<char>, i: int, k: CharKind)
    requires
        0 <= i < s.len(),
        !matches_kind(k, s[i]),
    ensures
        (find_kind(s.remove(i), 0, k) is Some) <==> (find_kind(s, 0, k) is Some),
{
    lemma_find_kind_exists(s, 0, k);
    lemma_find_kind_exists(s.remove(i), 0, k);
    if exists|j: int| 0 <= j < s.len() && matches_kind(k, s[j]) {
        let j = choose|j: int| 0 <= j < s.len() && matches_kind(k, s[j]);
        if j < i {
            assert(matches_kind(k, s.remove(i)[j]));
        } else {
            assert(matches_kind(k, s.remove(i)[j - 1]));
        }
    }
    if exists|j: int| 0 <= j < s.remove(i).len() && matches_kind(k, s.remove(i)[j]) {
        let j = choose|j: int| 0 <= j < s.remove(i).len() && matches_kind(k, s.remove(i)[j]);
        if j < i {
            assert(matches_kind(k, s[j]));
        } else {
            assert(matches_kind(k, s[j + 1]));
        }
    }
}

/// Skipping a match-free prefix does not change where the first match lies.
proof fn lemma_find_kind_skip(s: Seq<char>, i: int, k: CharKind)
    requires
        0 <= i <= s.len(),
        forall|j: int| 0 <= j < i ==> !matches_kind(k, s[j]),
    ensures
        find_kind(s, 0, k) == find_kind(s, i, k),
    decreases i,
{
    if i > 0 {
        lemma_find_kind_skip(s, i - 1, k);
        assert(!matches_kind(k, s[i - 1]));
    }
}

/// The characters of a string, as a vector.
fn chars_vec(s: &str) -> (v: Vec<char>)
    ensures
        v@ == s@,
{
    let mut v: Vec<char> = Vec::new();
    for c in it: s.chars()
        invariant
            it.seq() == s@,
            v@ == it.seq().take(it.index() as int),
    {
        v.push(c);
    }
    proof {
        assert(v@ =~= s@);
    }
    v
}

/// Whether `c` belongs to class `k`.
fn char_matches(k: CharKind, c: char) -> (b: bool)
    ensures
        b == matches_kind(k, c),
{
    match k {
        CharKind::Row => '1' <= c && c <= '8',
        CharKind::Col => ('a' <= c && c <= 'h') || ('A' <= c && c <= 'H'),
        CharKind::StoneLetter => c == 'f' || c == 'w' || c == 'c' || c == 'F' || c == 'W'
            || c == 'C',
        CharKind::DirLetter => c == 'u' || c == 'd' || c == 'l' || c == 'r' || c == 'U'
            || c == 'D' || c == 'L' || c == 'R',
        CharKind::Digit => '0' <= c && c <= '9',
        CharKind::NonSpace => !(c == ' ' || c == '\t' || c == '\n' || c == '\r'),
    }
}

/// Index of the first character of class `k`, if any.
fn find_first(v: &Vec<char>, k: CharKind) -> (r: Option<usize>)
    ensures
        match r {
            Some(i) => find_kind(v@, 0, k) == Some(i as int) && i < v@.len() && matches_kind(
                k,
                v@[i as int],
            ),
            None => find_kind(v@, 0, k) is None,
        },
{
    let n: usize = v.len();
    for i in 0..n
        invariant
            n == v.len(),
            forall|j: int| 0 <= j < i ==> !matches_kind(k, v@[j]),
    {
        if char_matches(k, v[i]) {
            proof {
                lemma_find_kind_skip(v@, i as int, k);
            }
            return Some(i);
        }
    }
    proof {
        lemma_find_kind_skip(v@, n as int, k);
    }
    None
}

/// What extracting the position from `s` yields: the parsed position (or the
/// error) together with the text that is left over afterwards.  The first row
/// digit is taken out first; the first column letter of what remains is taken
/// out second, so row and column need not be adjacent and may come in either
/// order.
pub open spec fn spec_parse_position(s: Seq<char>) -> (Result<Position, ParseError>, Seq<char>) {
    match find_kind(s, 0, CharKind::Row) {
        Option::None => (Result::Err(ParseError::MissingRow), s),
        Option::Some(ri) => {
            let s1 = s.remove(ri);
            match find_kind(s1, 0, CharKind::Col) {
                Option::None => (Result::Err(ParseError::MissingColumn), s1),
                Option::Some(ci) => (
                    Result::Ok(
                        Position { row: row_val(s[ri]) as i32, col: col_val(s1[ci]) as i32 },
                    ),
                    s1.remove(ci),
                ),
            }
        },
    }
}

/// What extracting a stone-type letter from `s` yields: the stone type named
/// by the first such letter (if any) and the text with that letter taken out.
pub open spec fn spec_parse_stone_type(s: Seq<char>) -> (Option<StoneType>, Seq<char>) {
    match find_kind(s, 0, CharKind::StoneLetter) {
        Option::None => (Option::None, s),
        Option::Some(i) => (Option::Some(stone_of(s[i])), s.remove(i)),
    }
}

/// What extracting the carry count from `s` yields: the first digit, provided
/// it comes before the first direction letter (a digit after the direction
/// belongs to the drop schedule), and the text with that digit taken out.
pub open spec fn spec_parse_count(s: Seq<char>) -> (Option<u32>, Seq<char>) {
    match find_kind(s, 0, CharKind::Digit) {
        Option::None => (Option::None, s),
        Option::Some(di) => match find_kind(s, 0, CharKind::DirLetter) {
            Option::None => (Option::Some(digit_val(s[di]) as u32), s.remove(di)),
            Option::Some(li) => if di < li {
                (Option::Some(digit_val(s[di]) as u32), s.remove(di))
            } else {
                (Option::None, s)
            },
        },
    }
}

/// What extracting the direction from `s` yields: the direction named by the
/// first direction letter and the text with that letter taken out.
pub open spec fn spec_parse_direction(s: Seq<char>) -> (Result<Direction, ParseError>, Seq<char>) {
    match find_kind(s, 0, CharKind::DirLetter) {
        Option::None => (Result::Err(ParseError::MissingDirection), s),
        Option::Some(i) => (Result::Ok(dir_of(s[i])), s.remove(i)),
    }
}

/// The values of all digits of `s`, in text order.
pub open spec fn digits_of(s: Seq<char>) -> Seq<u32>
    decreases s.len(),
{
    if s.len() == 0 {
        Seq::empty()
    } else if matches_kind(CharKind::Digit, s.last()) {
        digits_of(s.drop_last()).push(digit_val(s.last()) as u32)
    } else {
        digits_of(s.drop_last())
    }
}

/// The non-digit characters of `s`, in text order.
pub open spec fn non_digits_of(s: Seq<char>) -> Seq<char>
    decreases s.len(),
{
    if s.len() == 0 {
        Seq::empty()
    } else if matches_kind(CharKind::Digit, s.last()) {
        non_digits_of(s.drop_last())
    } else {
        non_digits_of(s.drop_last()).push(s.last())
    }
}

/// All the information a Tak move requires: a tagged
/// placement-or-movement command.
#[derive(Debug)]
pub enum TakInput {
    /// Put a flat, standing or cap stone on an empty cell.
    PutStone {
        /// The cell to put the new stone at.
        position: Position,
        stone_type: StoneType,
    },
    /// Move a stack, or a single stone, toward a direction.
    MoveStack {
        /// The cell the moved stack starts from.
        position: Position,
        /// How many stones to carry from the top of that stack.
        count: u32,
        /// The direction the carried stones travel in.
        direction: Direction,
        /// How many stones to drop at each successive cell; empty means the
        /// default schedule of one stone per cell.
        drops: Vec<u32>,
    },
}

impl TakInput {
    /// Extract and remove the row digit and column letter from the text.
    /// The first row digit is removed first, then the first column letter of
    /// what remains; every other character is left in place.  When no row
    /// digit exists the text is left untouched; when no column letter exists
    /// only the row digit has been removed.
    pub fn parse_position(value: &mut Vec<char>) -> (r: Result<Position, ParseError>)
        ensures
            ({
                let (res, rest) = spec_parse_position(old(value)@);
                r == res && final(value)@ == rest
            }),
    {
        let row_idx = match find_first(value, CharKind::Row) {
            Option::None => {
                return Result::Err(ParseError::MissingRow);
            },
            Option::Some(i) => i,
        };
        let row_char = value[row_idx];
        value.remove(row_idx);
        let col_idx = match find_first(value, CharKind::Col) {
            Option::None => {
                return Result::Err(ParseError::MissingColumn);
            },
            Option::Some(i) => i,
        };
        let col_char = value[col_idx];
        value.remove(col_idx);
        let row_i32: i32 = (row_char as u32 as i32) - ('1' as u32 as i32);
        let col_i32: i32 = if col_char >= 'a' {
            (col_char as u32 as i32) - ('a' as u32 as i32)
        } else {
            (col_char as u32 as i32) - ('A' as u32 as i32)
        };
        Result::Ok(Position { row: row_i32, col: col_i32 })
    }

    /// Extract and remove the first stone-type letter
    /// (`f`: flat, `w`: wall, that is standing, `c`: capstone), if any.
    pub fn parse_stone_type(value: &mut Vec<char>) -> (r: Option<StoneType>)
        ensures
            ({
                let (res, rest) = spec_parse_stone_type(old(value)@);
                r == res && final(value)@ == rest
            }),
    {
        match find_first(value, CharKind::StoneLetter) {
            Option::None => Option::None,
            Option::Some(i) => {
                let c = value[i];
                value.remove(i);
                let st = if c == 'f' || c == 'F' {
                    StoneType::FlatStone
                } else if c == 'w' || c == 'W' {
                    StoneType::StandingStone
                } else {
                    StoneType::CapStone
                };
                Option::Some(st)
            },
        }
    }

    /// Extract and remove the carry-count digit: the first digit of the text,
    /// provided it comes before the first direction letter.
    pub fn parse_count(value: &mut Vec<char>) -> (r: Option<u32>)
        ensures
            ({
                let (res, rest) = spec_parse_count(old(value)@);
                r == res && final(value)@ == rest
            }),
    {
        let di = match find_first(value, CharKind::Digit) {
            Option::None => {
                return Option::None;
            },
            Option::Some(i) => i,
        };
        let take_it: bool = match find_first(value, CharKind::DirLetter) {
            Option::None => true,
            Option::Some(li) => di < li,
        };
        if take_it {
            let c = value[di];
            value.remove(di);
            Option::Some((c as u32) - ('0' as u32))
        } else {
            Option::None
        }
    }

    /// Extract and remove the first direction letter
    /// (`u`: up, `d`: down, `l`: left, `r`: right).
    pub fn parse_direction(value: &mut Vec<char>) -> (r: Result<Direction, ParseError>)
        ensures
            ({
                let (res, rest) = spec_parse_direction(old(value)@);
                r == res && final(value)@ == rest
            }),
    {
        match find_first(value, CharKind::DirLetter) {
            Option::None => Result::Err(ParseError::MissingDirection),
            Option::Some(i) => {
                let c = value[i];
                value.remove(i);
                let d = if c == 'u' || c == 'U' {
                    Direction::Up
                } else if c == 'd' || c == 'D' {
                    Direction::Down
                } else if c == 'l' || c == 'L' {
                    Direction::Left
                } else {
                    Direction::Right
                };
                Result::Ok(d)
            },
        }
    }

    /// Extract and remove every remaining digit, in text order; each digit is
    /// one per-cell drop amount of the move's drop schedule.
    pub fn parse_drops(value: &mut Vec<char>) -> (r: Vec<u32>)
        ensures
            r@ == digits_of(old(value)@),
            final(value)@ == non_digits_of(old(value)@),
    {
        let mut drops: Vec<u32> = Vec::new();
        let mut rest: Vec<char> = Vec::new();
        let n: usize = value.len();
        for i in 0..n
            invariant
                n == value.len(),
                drops@ == digits_of(value@.take(i as int)),
                rest@ == non_digits_of(value@.take(i as int)),
        {
            let c = value[i];
            proof {
                assert(value@.take(i + 1).drop_last() =~= value@.take(i as int));
                assert(value@.take(i + 1).last() == value@[i as int]);
            }
            if char_matches(CharKind::Digit, c) {
                drops.push((c as u32) - ('0' as u32));
            } else {
                rest.push(c);
            }
        }
        proof {
            assert(value@.take(n as int) =~= value@);
        }
        *value = rest;
        drops
    }
}

/// The mathematical shape of a parsed command: what a `TakInput` stands for.
pub enum ParsedMove {
    Put { position: Position, stone_type: StoneType },
    Move { position: Position, count: u32, direction: Direction, drops: Seq<u32> },
}

impl View for TakInput {
    type V = ParsedMove;

    open spec fn view(&self) -> ParsedMove {
        match self {
            TakInput::PutStone { position, stone_type } => ParsedMove::Put {
                position: *position,
                stone_type: *stone_type,
            },
            TakInput::MoveStack { position, count, direction, drops } => ParsedMove::Move {
                position: *position,
                count: *count,
                direction: *direction,
                drops: drops@,
            },
        }
    }
}

/// What parsing a whole notation text yields.  After the position is
/// extracted: a stone-type letter anywhere in the remainder makes the command
/// a placement (everything else is ignored); otherwise a direction letter
/// makes it a stack move, whose count is the first digit before that letter
/// (1 if none) and whose drop schedule is every digit left after the
/// direction is removed; otherwise a digit with no direction is a move with
/// its direction missing; otherwise a remainder of nothing but whitespace is
/// a placement of the default flat stone, and anything else names neither a
/// stone nor a direction.
pub open spec fn spec_parse(s: Seq<char>) -> Result<ParsedMove, ParseError> {
    let (pres, s1) = spec_parse_position(s);
    match pres {
        Result::Err(e) => Result::Err(e),
        Result::Ok(position) => {
            let (stres, s2) = spec_parse_stone_type(s1);
            match stres {
                Option::Some(stone_type) => Result::Ok(
                    ParsedMove::Put { position, stone_type },
                ),
                Option::None => {
                    if find_kind(s2, 0, CharKind::DirLetter) is Some {
                        let (cnt, s3) = spec_parse_count(s2);
                        let (dres, s4) = spec_parse_direction(s3);
                        match dres {
                            Result::Err(e) => Result::Err(e),
                            Result::Ok(direction) => Result::Ok(
                                ParsedMove::Move {
                                    position,
                                    count: match cnt {
                                        Option::Some(c) => c,
                                        Option::None => 1u32,
                                    },
                                    direction,
                                    drops: digits_of(s4),
                                },
                            ),
                        }
                    } else if find_kind(s2, 0, CharKind::Digit) is Some {
                        Result::Err(ParseError::MissingDirection)
                    } else if find_kind(s2, 0, CharKind::NonSpace) is Some {
                        Result::Err(ParseError::MissingStoneOrDirection)
                    } else {
                        Result::Ok(
                            ParsedMove::Put { position, stone_type: StoneType::FlatStone },
                        )
                    }
                },
            }
        },
    }
}

impl TakInput {
    /// Parse an input text into a `TakInput`.
    ///
    /// The format is either `<position><count><direction>[drops]..` for a
    /// stack move or `<position>[stone_type]` for a placement, where
    /// `position` holds a row digit (`1`-`8`) and a column letter (`a`-`h`)
    /// in either order, `count` is a single digit defaulting to 1,
    /// `direction` is one of `u`, `d`, `l`, `r`, `drops` are digits giving
    /// the per-cell drop amounts, and `stone_type` is `f` (flat, the default
    /// if omitted), `w` (wall) or `c` (capstone).  The input is
    /// case-insensitive and whitespace is ignored.
    pub fn try_from(value: &str) -> (r: Result<TakInput, ParseError>)
        ensures
            match r {
                Result::Ok(t) => spec_parse(value@) == Result::<ParsedMove, ParseError>::Ok(t@),
                Result::Err(e) => spec_parse(value@) == Result::<ParsedMove, ParseError>::Err(e),
            },
    {
        let mut v = chars_vec(value);
        let position = match Self::parse_position(&mut v) {
            Result::Err(e) => {
                return Result::Err(e);
            },
            Result::Ok(p) => p,
        };
        if let Option::Some(stone_type) = Self::parse_stone_type(&mut v) {
            return Result::Ok(TakInput::PutStone { position, stone_type });
        }
        let has_dir = find_first(&v, CharKind::DirLetter).is_some();
        if has_dir {
            let ghost s2 = v@;
            let count = match Self::parse_count(&mut v) {
                Option::Some(c) => c,
                Option::None => 1u32,
            };
            proof {
                let (cnt, s3) = spec_parse_count(s2);
                if cnt is Some {
                    let di = find_kind(s2, 0, CharKind::Digit)->0;
                    lemma_find_kind_found(s2, 0, CharKind::Digit);
                    lemma_remove_keeps_kind(s2, di, CharKind::DirLetter);
                }
            }
            let direction = match Self::parse_direction(&mut v) {
                Result::Err(e) => {
                    return Result::Err(e);
                },
                Result::Ok(d) => d,
            };
            let drops = Self::parse_drops(&mut v);
            return Result::Ok(TakInput::MoveStack { position, count, direction, drops });
        }
        if find_first(&v, CharKind::Digit).is_some() {
            return Result::Err(ParseError::MissingDirection);
        }
        if find_first(&v, CharKind::NonSpace).is_some() {
            return Result::Err(ParseError::MissingStoneOrDirection);
        }
        Result::Ok(TakInput::PutStone { position, stone_type: StoneType::FlatStone })
    }
}

/// What reading a bare position out of text yields: the position named by
/// the first row digit and the first column letter of the rest, or the error
/// naming what was absent.
pub open spec fn spec_position_of(s: Seq<char>) -> Result<Position, PositionError> {
    match spec_parse_position(s).0 {
        Result::Ok(p) => Result::Ok(p),
        Result::Err(ParseError::MissingRow) => Result::Err(PositionError::NoRowFound),
        Result::Err(_) => Result::Err(PositionError::NoColumnFound),
    }
}

impl Position {
    /// Read a position out of free-form text: the first row digit (`1`-`8`)
    /// names the row, the first column letter (`a`-`h`, either case) of what
    /// remains names the column; any other characters are ignored.
    pub fn try_from(value: &str) -> (r: Result<Position, PositionError>)
        ensures
            r == spec_position_of(value@),
    {
        let mut v = chars_vec(value);
        match TakInput::parse_position(&mut v) {
            Result::Ok(p) => Result::Ok(p),
            Result::Err(ParseError::MissingRow) => Result::Err(PositionError::NoRowFound),
            Result::Err(_) => Result::Err(PositionError::NoColumnFound),
        }
    }
}

/// Round trip of placement notation: rendering a placement as
/// `<row><col><letter>` — a row digit, a column letter and a stone-type
/// letter — and parsing it again yields that same placement.
pub proof fn lemma_placement_round_trip(rc: char, cc: char, lc: char)
    requires
        matches_kind(CharKind::Row, rc),
        matches_kind(CharKind::Col, cc),
        matches_kind(CharKind::StoneLetter, lc),
    ensures
        spec_parse(seq![rc, cc, lc]) == Result::<ParsedMove, ParseError>::Ok(
            ParsedMove::Put {
                position: Position { row: row_val(rc) as i32, col: col_val(cc) as i32 },
                stone_type: stone_of(lc),
            },
        ),
{
    let s = seq![rc, cc, lc];
    assert(find_kind(s, 0, CharKind::Row) == Some(0int));
    assert(s.remove(0) =~= seq![cc, lc]);
    let s1 = s.remove(0);
    assert(find_kind(s1, 0, CharKind::Col) == Some(0int));
    assert(s1.remove(0) =~= seq![lc]);
    let s2 = s1.remove(0);
    assert(find_kind(s2, 0, CharKind::StoneLetter) == Some(0int));
}

/// Round trip of placement notation with the stone letter omitted:
/// rendering a placement as `<row><col>` and parsing it again yields the
/// placement of the default flat stone at that position.
pub proof fn lemma_placement_round_trip_default(rc: char, cc: char)
    requires
        matches_kind(CharKind::Row, rc),
        matches_kind(CharKind::Col, cc),
    ensures
        spec_parse(seq![rc, cc]) == Result::<ParsedMove, ParseError>::Ok(
            ParsedMove::Put {
                position: Position { row: row_val(rc) as i32, col: col_val(cc) as i32 },
                stone_type: StoneType::FlatStone,
            },
        ),
{
    let s = seq![rc, cc];
    assert(find_kind(s, 0, CharKind::Row) == Some(0int));
    assert(s.remove(0) =~= seq![cc]);
    let s1 = s.remove(0);
    assert(find_kind(s1, 0, CharKind::Col) == Some(0int));
    assert(s1.remove(0) =~= Seq::<char>::empty());
    let s2 = s1.remove(0);
    assert(find_kind(s2, 0, CharKind::StoneLetter) is None);
    assert(find_kind(s2, 0, CharKind::DirLetter) is None);
    assert(find_kind(s2, 0, CharKind::Digit) is None);
    assert(find_kind(s2, 0, CharKind::NonSpace) is None);
}

} // verus!
