//! The Tak board: a sized grid of stone stacks, two player inventories and
//! the color whose turn it is; placement and stack movement are its only
//! mutations, and both are all-or-nothing.

use vstd::prelude::*;
use crate::types::{Direction, Position, StoneType, delta_col, delta_row};

verus! {

/// The two player colors.
#[derive(Clone, Copy, PartialEq, Eq, Structural, Debug)]
pub enum StoneColor {
    White,
    Black,
}

/// The other color.
pub open spec fn flip(c: StoneColor) -> StoneColor {
    match c {
        StoneColor::White => StoneColor::Black,
        StoneColor::Black => StoneColor::White,
    }
}

/// One stone on the board.  A stone never changes except when a crush turns
/// a standing stone flat in place.
#[derive(Clone, Copy, PartialEq, Eq, Structural, Debug)]
pub struct Stone {
    pub color: StoneColor,
    pub stone_type: StoneType,
}

/// One cell of the grid: an ordered stack of stones, index 0 at the bottom,
/// the last one on top.
pub struct Cell {
    pub stack: Vec<Stone>,
}

impl Cell {
    pub fn new() -> (c: Self)
        ensures
            c.stack@ == Seq::<Stone>::empty(),
    {
        Self { stack: Vec::new() }
    }
}

/// A player's inventory.  Flat and standing stones are drawn from the one
/// shared pool; capstones from their own.
pub struct TakPlayer {
    pub color: StoneColor,
    pub stones_available: u32,
    pub capstones_available: u32,
}

/// The supported board sizes.
pub enum BoardSize {
    Size3x3,
    Size4x4,
    Size5x5,
    Size6x6,
    Size7x7,
    Size8x8,
}

/// Side length of a size preset.
pub open spec fn preset_size(s: BoardSize) -> int {
    match s {
        BoardSize::Size3x3 => 3,
        BoardSize::Size4x4 => 4,
        BoardSize::Size5x5 => 5,
        BoardSize::Size6x6 => 6,
        BoardSize::Size7x7 => 7,
        BoardSize::Size8x8 => 8,
    }
}

/// Regular stones each player starts with, by side length.
pub open spec fn start_stones(size: int) -> int {
    if size == 3 {
        10
    } else if size == 4 {
        15
    } else if size == 5 {
        20
    } else if size == 6 {
        30
    } else if size == 7 {
        40
    } else {
        50
    }
}

/// Capstones each player starts with, by side length.
pub open spec fn start_caps(size: int) -> int {
    if size == 3 || size == 4 {
        0
    } else if size == 5 || size == 6 {
        1
    } else {
        2
    }
}

/// Error kinds of placement.
#[derive(Clone, Copy, PartialEq, Eq, Structural, Debug)]
pub enum PlaceError {
    OutOfBounds,
    CellOccupied,
    NoStonesLeft,
    NoCapstonesLeft,
}

/// Error kinds of stack movement.
#[derive(Clone, Copy, PartialEq, Eq, Structural, Debug)]
pub enum MoveError {
    OutOfBounds,
    InvalidCarryCount,
    BlockedDestination,
    DropScheduleMismatch,
    PathLeavesBoard,
}

/// The mathematical state of one player's inventory.
#[verifier::ext_equal]
pub struct PlayerModel {
    pub stones: int,
    pub caps: int,
}

/// The mathematical state of a board: its side length, every cell's stack
/// (row-major, cell (r, c) at index `r * size + c`), both inventories and
/// the color to move.
#[verifier::ext_equal]
pub struct BoardModel {
    pub size: int,
    pub cells: Seq<Seq<Stone>>,
    pub white: PlayerModel,
    pub black: PlayerModel,
    pub turn: StoneColor,
}

/// How many capstones a stack holds.
pub open spec fn caps_in_stack(s: Seq<Stone>) -> int
    decreases s.len(),
{
    if s.len() == 0 {
        0
    } else {
        caps_in_stack(s.drop_last()) + if s.last().stone_type is CapStone {
            1int
        } else {
            0int
        }
    }
}

/// How many stones the whole grid holds.
pub open spec fn grid_stones(cells: Seq<Seq<Stone>>) -> int
    decreases cells.len(),
{
    if cells.len() == 0 {
        0
    } else {
        grid_stones(cells.drop_last()) + cells.last().len()
    }
}

/// How many capstones the whole grid holds.
pub open spec fn grid_caps(cells: Seq<Seq<Stone>>) -> int
    decreases cells.len(),
{
    if cells.len() == 0 {
        0
    } else {
        grid_caps(cells.drop_last()) + caps_in_stack(cells.last())
    }
}

/// Only the top stone of a stack may be standing or a capstone.
pub open spec fn stack_wf(s: Seq<Stone>) -> bool {
    forall|i: int| 0 <= i < s.len() - 1 ==> s[i].stone_type is FlatStone
}

impl BoardModel {
    pub open spec fn on_board(self, p: Position) -> bool {
        0 <= p.row < self.size && 0 <= p.col < self.size
    }

    pub open spec fn idx(self, p: Position) -> int {
        p.row * self.size + p.col
    }

    pub open spec fn cell(self, p: Position) -> Seq<Stone> {
        self.cells[self.idx(p)]
    }

    pub open spec fn player(self, c: StoneColor) -> PlayerModel {
        match c {
            StoneColor::White => self.white,
            StoneColor::Black => self.black,
        }
    }

    /// Stones of either kind held anywhere: on the board or in an inventory.
    pub open spec fn total_units(self) -> int {
        grid_stones(self.cells) + self.white.stones + self.white.caps + self.black.stones
            + self.black.caps
    }

    /// Well-formedness: a legal side length, exactly `size * size` cells,
    /// no stone buried under another unless it is flat, non-negative
    /// inventories, and stone conservation — regular stones and capstones on
    /// the board and in the inventories always add up to the fixed starting
    /// totals of this board size.
    pub open spec fn wf(self) -> bool {
        &&& 3 <= self.size <= 8
        &&& self.cells.len() == self.size * self.size
        &&& forall|i: int| 0 <= i < self.cells.len() ==> stack_wf(#[trigger] self.cells[i])
        &&& self.white.stones >= 0
        &&& self.white.caps >= 0
        &&& self.black.stones >= 0
        &&& self.black.caps >= 0
        &&& grid_caps(self.cells) + self.white.caps + self.black.caps == 2 * start_caps(
            self.size,
        )
        &&& grid_stones(self.cells) - grid_caps(self.cells) + self.white.stones
            + self.black.stones == 2 * start_stones(self.size)
    }
}

/// Replacing one cell changes the grid sums by the difference of that cell.
proof fn lemma_grid_sums_update(cells: Seq<Seq<Stone>>, i: int, c: Seq<Stone>)
    requires
        0 <= i < cells.len(),
    ensures
        grid_stones(cells.update(i, c)) == grid_stones(cells) - cells[i].len() + c.len(),
        grid_caps(cells.update(i, c)) == grid_caps(cells) - caps_in_stack(cells[i])
            + caps_in_stack(c),
    decreases cells.len(),
{
    let u = cells.update(i, c);
    if i == cells.len() - 1 {
        assert(u.drop_last() =~= cells.drop_last());
        assert(u.last() == c);
    } else {
        assert(u.drop_last() =~= cells.drop_last().update(i, c));
        assert(u.last() == cells.last());
        lemma_grid_sums_update(cells.drop_last(), i, c);
    }
}

/// Capstone counting distributes over concatenation.
proof fn lemma_caps_append(a: Seq<Stone>, b: Seq<Stone>)
    ensures
        caps_in_stack(a + b) == caps_in_stack(a) + caps_in_stack(b),
    decreases b.len(),
{
    if b.len() == 0 {
        assert(a + b =~= a);
    } else {
        assert((a + b).drop_last() =~= a + b.drop_last());
        assert((a + b).last() == b.last());
        lemma_caps_append(a, b.drop_last());
    }
}

/// Capstone counting splits at any point.
proof fn lemma_caps_split(s: Seq<Stone>, k: int)
    requires
        0 <= k <= s.len(),
    ensures
        caps_in_stack(s) == caps_in_stack(s.take(k)) + caps_in_stack(s.skip(k)),
{
    assert(s =~= s.take(k) + s.skip(k));
    lemma_caps_append(s.take(k), s.skip(k));
}

/// The inventory after handing out one stone of the given kind.
pub open spec fn dec_player(p: PlayerModel, st: StoneType) -> PlayerModel {
    if st is CapStone {
        PlayerModel { caps: p.caps - 1, ..p }
    } else {
        PlayerModel { stones: p.stones - 1, ..p }
    }
}

/// Exactly when and why a placement is refused: the position must be on the
/// board, the cell empty, and the mover's inventory must still hold a stone
/// of the asked-for kind.
pub open spec fn spec_place_error(m: BoardModel, pos: Position, st: StoneType) -> Option<
    PlaceError,
> {
    if !m.on_board(pos) {
        Some(PlaceError::OutOfBounds)
    } else if m.cell(pos).len() > 0 {
        Some(PlaceError::CellOccupied)
    } else if st is CapStone && m.player(m.turn).caps <= 0 {
        Some(PlaceError::NoCapstonesLeft)
    } else if !(st is CapStone) && m.player(m.turn).stones <= 0 {
        Some(PlaceError::NoStonesLeft)
    } else {
        None
    }
}

/// The board after a successful placement: a single new stone of the mover's
/// color on the chosen cell, one stone gone from the matching pool, and the
/// turn with the other player.
pub open spec fn spec_place_result(m: BoardModel, pos: Position, st: StoneType) -> BoardModel {
    let stone = Stone { color: m.turn, stone_type: st };
    BoardModel {
        cells: m.cells.update(m.idx(pos), seq![stone]),
        white: if m.turn is White {
            dec_player(m.white, st)
        } else {
            m.white
        },
        black: if m.turn is Black {
            dec_player(m.black, st)
        } else {
            m.black
        },
        turn: flip(m.turn),
        ..m
    }
}

/// Whether a carried group may enter a cell with this stack, given how many
/// stones the group still holds and which stone rides on its top.  An empty
/// cell or a flat top is always open; a standing top only to a lone
/// capstone, which crushes it; a capstone top never.
pub open spec fn spec_passable(stack: Seq<Stone>, remaining: int, carried_top: Stone) -> bool {
    if stack.len() == 0 {
        true
    } else {
        match stack.last().stone_type {
            StoneType::FlatStone => true,
            StoneType::StandingStone => remaining == 1 && carried_top.stone_type is CapStone,
            StoneType::CapStone => false,
        }
    }
}

/// Row of the cell a move enters at schedule step `k` (step 0 is the cell
/// right next to the source).
pub open spec fn path_row(pos: Position, dir: Direction, k: int) -> int {
    pos.row + (k + 1) * delta_row(dir)
}

/// Column of the cell a move enters at schedule step `k`.
pub open spec fn path_col(pos: Position, dir: Direction, k: int) -> int {
    pos.col + (k + 1) * delta_col(dir)
}

/// Whether the cell entered at step `k` lies on a board of side `size`.
pub open spec fn path_on_board(pos: Position, dir: Direction, size: int, k: int) -> bool {
    0 <= path_row(pos, dir, k) < size && 0 <= path_col(pos, dir, k) < size
}

/// Row-major index of the cell entered at step `k`.
pub open spec fn path_index(pos: Position, dir: Direction, size: int, k: int) -> int {
    path_row(pos, dir, k) * size + path_col(pos, dir, k)
}

/// Sum of the schedule entries from `k` on: how many stones are still
/// carried when step `k` is entered.
pub open spec fn sum_from(s: Seq<int>, k: int) -> int
    decreases s.len() - k when 0 <= k <= s.len()
{
    if k < 0 || k >= s.len() {
        0
    } else {
        s[k] + sum_from(s, k + 1)
    }
}

/// A supplied drop schedule is valid when every entry is at least one and
/// the entries sum exactly to the carry count.
pub open spec fn valid_drops(drops: Seq<int>, count: int) -> bool {
    (forall|i: int| 0 <= i < drops.len() ==> drops[i] >= 1) && sum_from(drops, 0) == count
}

/// Walk a schedule over the board as it stands before the move and name the
/// first failure: a step off the board, or a cell the carried group may not
/// enter given how many stones it still holds at that step.
pub open spec fn path_check(
    m: BoardModel,
    pos: Position,
    dir: Direction,
    sched: Seq<int>,
    k: int,
    remaining: int,
    carried_top: Stone,
) -> Option<MoveError>
    decreases sched.len() - k when 0 <= k <= sched.len()
{
    if k < 0 || k >= sched.len() {
        None
    } else if !path_on_board(pos, dir, m.size, k) {
        Some(MoveError::PathLeavesBoard)
    } else if !spec_passable(m.cells[path_index(pos, dir, m.size, k)], remaining, carried_top) {
        Some(MoveError::BlockedDestination)
    } else {
        path_check(m, pos, dir, sched, k + 1, remaining - sched[k], carried_top)
    }
}

/// The default drop schedule from step `j` on, with `remaining` stones in
/// hand and the cell of step `j` already entered: drop one stone per cell
/// for as long as the next cell is open, and the whole rest on the last
/// open cell reached.
pub open spec fn default_sched(
    m: BoardModel,
    pos: Position,
    dir: Direction,
    j: int,
    remaining: int,
    carried_top: Stone,
) -> Seq<int>
    decreases remaining when remaining >= 1
{
    if remaining <= 1 {
        seq![1int]
    } else if path_on_board(pos, dir, m.size, j + 1) && spec_passable(
        m.cells[path_index(pos, dir, m.size, j + 1)],
        remaining - 1,
        carried_top,
    ) {
        seq![1int] + default_sched(m, pos, dir, j + 1, remaining - 1, carried_top)
    } else {
        seq![remaining]
    }
}

/// The schedule a move will follow: the supplied one, or the default one
/// when none is supplied.
pub open spec fn eff_sched(
    m: BoardModel,
    pos: Position,
    count: int,
    dir: Direction,
    drops: Seq<int>,
) -> Seq<int> {
    if drops.len() > 0 {
        drops
    } else {
        default_sched(m, pos, dir, 0, count, m.cell(pos).last())
    }
}

/// Exactly when and why a stack move is refused, checked in this order: the
/// source must be on the board; the carry count must be at least 1, at most
/// the board size and at most the stack height; a supplied drop schedule
/// must be valid; and the walked path must stay on the board and be
/// passable at every step (for the default schedule, its first step).
pub open spec fn spec_move_error(
    m: BoardModel,
    pos: Position,
    count: int,
    dir: Direction,
    drops: Seq<int>,
) -> Option<MoveError> {
    if !m.on_board(pos) {
        Some(MoveError::OutOfBounds)
    } else if !(1 <= count && count <= m.size && count <= m.cell(pos).len()) {
        Some(MoveError::InvalidCarryCount)
    } else if drops.len() > 0 && !valid_drops(drops, count) {
        Some(MoveError::DropScheduleMismatch)
    } else {
        let top = m.cell(pos).last();
        if drops.len() > 0 {
            path_check(m, pos, dir, drops, 0, count, top)
        } else if !path_on_board(pos, dir, m.size, 0) {
            Some(MoveError::PathLeavesBoard)
        } else if !spec_passable(m.cells[path_index(pos, dir, m.size, 0)], count, top) {
            Some(MoveError::BlockedDestination)
        } else {
            None
        }
    }
}

/// A standing stone on top of the entered cell is crushed flat in place;
/// any other cell is left as it is.
pub open spec fn maybe_crush(stack: Seq<Stone>) -> Seq<Stone> {
    if stack.len() > 0 && stack.last().stone_type is StandingStone {
        stack.update(
            stack.len() - 1,
            Stone { color: stack.last().color, stone_type: StoneType::FlatStone },
        )
    } else {
        stack
    }
}

/// The grid after walking a schedule from step `k` with the given carried
/// group: at each step the scheduled number of stones leaves the bottom of
/// the group and lands on top of the entered cell, crushing a standing top
/// if one is there.
pub open spec fn apply_sched(
    cells: Seq<Seq<Stone>>,
    size: int,
    pos: Position,
    dir: Direction,
    sched: Seq<int>,
    k: int,
    carried: Seq<Stone>,
) -> Seq<Seq<Stone>>
    decreases sched.len() - k when 0 <= k <= sched.len()
{
    if k < 0 || k >= sched.len() {
        cells
    } else {
        let i = path_index(pos, dir, size, k);
        let d = sched[k];
        let new_cell = maybe_crush(cells[i]) + carried.take(d);
        apply_sched(cells.update(i, new_cell), size, pos, dir, sched, k + 1, carried.skip(d))
    }
}

/// The board after a successful stack move: the top `count` stones leave
/// the source in order, the walked schedule lays them out, and the turn
/// flips; inventories are untouched.
pub open spec fn spec_move_result(
    m: BoardModel,
    pos: Position,
    count: int,
    dir: Direction,
    drops: Seq<int>,
) -> BoardModel {
    let stack = m.cell(pos);
    let carried = stack.subrange(stack.len() - count, stack.len() as int);
    let base = m.cells.update(m.idx(pos), stack.subrange(0, stack.len() - count));
    BoardModel {
        cells: apply_sched(
            base,
            m.size,
            pos,
            dir,
            eff_sched(m, pos, count, dir, drops),
            0,
            carried,
        ),
        turn: flip(m.turn),
        ..m
    }
}

/// A schedule of non-negative entries has non-negative suffix sums.
proof fn lemma_sum_from_nonneg(s: Seq<int>, k: int)
    requires
        0 <= k <= s.len(),
        forall|i: int| 0 <= i < s.len() ==> s[i] >= 0,
    ensures
        sum_from(s, k) >= 0,
    decreases s.len() - k,
{
    if k < s.len() {
        lemma_sum_from_nonneg(s, k + 1);
    }
}

/// A schedule of positive entries sums to at least its length.
proof fn lemma_sum_from_ge_len(s: Seq<int>, k: int)
    requires
        0 <= k <= s.len(),
        forall|i: int| 0 <= i < s.len() ==> s[i] >= 1,
    ensures
        sum_from(s, k) >= s.len() - k,
    decreases s.len() - k,
{
    if k < s.len() {
        lemma_sum_from_ge_len(s, k + 1);
    }
}

/// Suffix sums of a schedule with one entry put in front.
proof fn lemma_sum_from_cons(x: int, t: Seq<int>, i: int)
    requires
        0 <= i <= t.len(),
    ensures
        sum_from(seq![x] + t, i + 1) == sum_from(t, i),
    decreases t.len() - i,
{
    if i < t.len() {
        assert((seq![x] + t)[i + 1] == t[i]);
        lemma_sum_from_cons(x, t, i + 1);
    }
}

/// Every step of schedule `s`, walked with `j` as the path step of its
/// first entry and `top` riding on the carried group: each entered cell is
/// on the board and open to the group as it then stands.
pub open spec fn sched_steps_ok(
    m: BoardModel,
    pos: Position,
    dir: Direction,
    j: int,
    s: Seq<int>,
    top: Stone,
) -> bool
    decreases s.len(),
{
    s.len() == 0 || {
        &&& path_on_board(pos, dir, m.size, j)
        &&& spec_passable(m.cells[path_index(pos, dir, m.size, j)], sum_from(s, 0), top)
        &&& sched_steps_ok(m, pos, dir, j + 1, s.drop_first(), top)
    }
}

/// Suffix sums are blind to dropping a prefix.
proof fn lemma_sum_from_skip(s: Seq<int>, k: int, i: int)
    requires
        0 <= k,
        0 <= i,
        k + i <= s.len(),
    ensures
        sum_from(s.skip(k), i) == sum_from(s, k + i),
    decreases s.len() - k - i,
{
    if k + i < s.len() {
        assert(s.skip(k)[i] == s[k + i]);
        lemma_sum_from_skip(s, k, i + 1);
    }
}

/// A clean walk certifies every step.
proof fn lemma_path_check_steps(
    m: BoardModel,
    pos: Position,
    dir: Direction,
    s: Seq<int>,
    k: int,
    top: Stone,
)
    requires
        0 <= k <= s.len(),
        path_check(m, pos, dir, s, k, sum_from(s, k), top) is None,
    ensures
        sched_steps_ok(m, pos, dir, k, s.skip(k), top),
    decreases s.len() - k,
{
    if k < s.len() {
        lemma_path_check_steps(m, pos, dir, s, k + 1, top);
        lemma_sum_from_skip(s, k, 0);
        assert(s.skip(k).drop_first() =~= s.skip(k + 1));
        assert(s.skip(k).len() > 0);
    } else {
        assert(s.skip(k).len() == 0);
    }
}

/// Every cell a well-made schedule visits is on the board.
proof fn lemma_steps_on_board(
    m: BoardModel,
    pos: Position,
    dir: Direction,
    j: int,
    s: Seq<int>,
    top: Stone,
)
    requires
        sched_steps_ok(m, pos, dir, j, s, top),
    ensures
        forall|i: int| j <= i < j + s.len() ==> path_on_board(pos, dir, m.size, i),
    decreases s.len(),
{
    if s.len() > 0 {
        lemma_steps_on_board(m, pos, dir, j + 1, s.drop_first(), top);
    }
}

/// The default schedule is well made: at least one entry, every entry
/// positive, the entries sum to what was carried, and every cell it visits
/// is on the board and open to the group as it then stands.
proof fn lemma_default_sched_props(
    m: BoardModel,
    pos: Position,
    dir: Direction,
    j: int,
    remaining: int,
    top: Stone,
)
    requires
        remaining >= 1,
        path_on_board(pos, dir, m.size, j),
        spec_passable(m.cells[path_index(pos, dir, m.size, j)], remaining, top),
    ensures
        default_sched(m, pos, dir, j, remaining, top).len() >= 1,
        forall|i: int|
            0 <= i < default_sched(m, pos, dir, j, remaining, top).len()
                ==> default_sched(m, pos, dir, j, remaining, top)[i] >= 1,
        sum_from(default_sched(m, pos, dir, j, remaining, top), 0) == remaining,
        sched_steps_ok(m, pos, dir, j, default_sched(m, pos, dir, j, remaining, top), top),
    decreases remaining,
{
    let s = default_sched(m, pos, dir, j, remaining, top);
    if remaining <= 1 {
        assert(s =~= seq![1int]);
        assert(sum_from(s, 1) == 0);
        assert(sum_from(s, 0) == 1);
        assert(s.drop_first() =~= Seq::<int>::empty());
        assert(sched_steps_ok(m, pos, dir, j + 1, s.drop_first(), top));
        assert(sched_steps_ok(m, pos, dir, j, s, top));
    } else if path_on_board(pos, dir, m.size, j + 1) && spec_passable(
        m.cells[path_index(pos, dir, m.size, j + 1)],
        remaining - 1,
        top,
    ) {
        lemma_default_sched_props(m, pos, dir, j + 1, remaining - 1, top);
        let t = default_sched(m, pos, dir, j + 1, remaining - 1, top);
        assert(s == seq![1int] + t);
        lemma_sum_from_cons(1, t, 0);
        assert(sum_from(s, 0) == 1 + sum_from(t, 0));
        assert forall|i: int| 0 <= i < s.len() implies s[i] >= 1 by {
            if i >= 1 {
                assert(s[i] == t[i - 1]);
            }
        }
        assert(s.drop_first() =~= t);
        assert(sched_steps_ok(m, pos, dir, j + 1, s.drop_first(), top));
        assert(sched_steps_ok(m, pos, dir, j, s, top));
    } else {
        assert(s =~= seq![remaining]);
        assert(sum_from(s, 1) == 0);
        assert(sum_from(s, 0) == remaining);
        assert(s.drop_first() =~= Seq::<int>::empty());
        assert(sched_steps_ok(m, pos, dir, j + 1, s.drop_first(), top));
        assert(sched_steps_ok(m, pos, dir, j, s, top));
    }
}

/// An on-board path cell's row-major index lies within the grid.
proof fn lemma_path_index_bounds(pos: Position, dir: Direction, size: int, k: int)
    requires
        path_on_board(pos, dir, size, k),
    ensures
        0 <= path_index(pos, dir, size, k) < size * size,
{
    assert(0 <= path_row(pos, dir, k) * size + path_col(pos, dir, k) < size * size)
        by (nonlinear_arith)
        requires
            0 <= path_row(pos, dir, k) < size,
            0 <= path_col(pos, dir, k) < size,
    ;
}

/// Stepping once more along the path adds one delta.
proof fn lemma_path_step_inc(pos: Position, dir: Direction, k: int)
    ensures
        path_row(pos, dir, k + 1) == path_row(pos, dir, k) + delta_row(dir),
        path_col(pos, dir, k + 1) == path_col(pos, dir, k) + delta_col(dir),
{
    assert((k + 2) * delta_row(dir) == (k + 1) * delta_row(dir) + delta_row(dir))
        by (nonlinear_arith);
    assert((k + 2) * delta_col(dir) == (k + 1) * delta_col(dir) + delta_col(dir))
        by (nonlinear_arith);
}

/// Distinct on-board cells have distinct row-major indices.
proof fn lemma_idx_injective(size: int, r1: int, c1: int, r2: int, c2: int)
    requires
        0 <= r1 < size,
        0 <= c1 < size,
        0 <= r2 < size,
        0 <= c2 < size,
        !(r1 == r2 && c1 == c2),
    ensures
        r1 * size + c1 != r2 * size + c2,
{
    assert(r1 * size + c1 != r2 * size + c2) by (nonlinear_arith)
        requires
            0 <= r1 < size,
            0 <= c1 < size,
            0 <= r2 < size,
            0 <= c2 < size,
            !(r1 == r2 && c1 == c2),
    ;
}

/// Two distinct steps of one move enter distinct cells.
proof fn lemma_path_steps_distinct(pos: Position, dir: Direction, size: int, j: int, k: int)
    requires
        j != k,
        path_on_board(pos, dir, size, j),
        path_on_board(pos, dir, size, k),
    ensures
        path_index(pos, dir, size, j) != path_index(pos, dir, size, k),
{
    match dir {
        Direction::Up => assert(path_row(pos, dir, j) != path_row(pos, dir, k)),
        Direction::Down => assert(path_row(pos, dir, j) != path_row(pos, dir, k)),
        Direction::Left => assert(path_col(pos, dir, j) != path_col(pos, dir, k)),
        Direction::Right => assert(path_col(pos, dir, j) != path_col(pos, dir, k)),
    }
    lemma_idx_injective(
        size,
        path_row(pos, dir, j),
        path_col(pos, dir, j),
        path_row(pos, dir, k),
        path_col(pos, dir, k),
    );
}

/// No step of a move re-enters its source cell.
proof fn lemma_path_step_not_source(pos: Position, dir: Direction, size: int, k: int)
    requires
        k >= 0,
        0 <= pos.row < size,
        0 <= pos.col < size,
        path_on_board(pos, dir, size, k),
    ensures
        path_index(pos, dir, size, k) != pos.row * size + pos.col,
{
    match dir {
        Direction::Up => assert(path_row(pos, dir, k) != pos.row),
        Direction::Down => assert(path_row(pos, dir, k) != pos.row),
        Direction::Left => assert(path_col(pos, dir, k) != pos.col),
        Direction::Right => assert(path_col(pos, dir, k) != pos.col),
    }
    lemma_idx_injective(
        size,
        path_row(pos, dir, k),
        path_col(pos, dir, k),
        pos.row as int,
        pos.col as int,
    );
}

/// Crushing keeps a stack's length and its capstone count.
proof fn lemma_maybe_crush_counts(s: Seq<Stone>)
    ensures
        maybe_crush(s).len() == s.len(),
        caps_in_stack(maybe_crush(s)) == caps_in_stack(s),
{
    if s.len() > 0 && s.last().stone_type is StandingStone {
        let u = maybe_crush(s);
        assert(u.drop_last() =~= s.drop_last());
        assert(u.last().stone_type is FlatStone);
    }
}

/// The board itself.
pub struct TakBoard {
    size: usize,
    grid: Vec<Cell>,
    white: TakPlayer,
    black: TakPlayer,
    turn: StoneColor,
}

impl View for TakBoard {
    type V = BoardModel;

    closed spec fn view(&self) -> BoardModel {
        BoardModel {
            size: self.size as int,
            cells: self.grid@.map_values(|c: Cell| c.stack@),
            white: PlayerModel {
                stones: self.white.stones_available as int,
                caps: self.white.capstones_available as int,
            },
            black: PlayerModel {
                stones: self.black.stones_available as int,
                caps: self.black.capstones_available as int,
            },
            turn: self.turn,
        }
    }
}

/// Relies on `rand::random::<bool>`: a draw from the thread-local random
/// generator.  Which color comes back is deliberately not promised — only
/// that the result is one of the two.
#[verifier::external_body]
fn random_color() -> (c: StoneColor)
    ensures
        c == StoneColor::White || c == StoneColor::Black,
{
    if rand::random::<bool>() {
        StoneColor::White
    } else {
        StoneColor::Black
    }
}

impl TakBoard {
    /// Make a board of the given size whose first player is `first_turn`:
    /// every cell empty, both inventories at the starting counts of the
    /// size preset.  This is the deterministic constructor; `new` draws the
    /// first player at random.
    pub fn new_with_turn(size: BoardSize, first_turn: StoneColor) -> (b: TakBoard)
        ensures
            b@.wf(),
            b@.size == preset_size(size),
            b@.turn == first_turn,
            b@.white == (PlayerModel {
                stones: start_stones(preset_size(size)),
                caps: start_caps(preset_size(size)),
            }),
            b@.black == b@.white,
            forall|i: int| 0 <= i < b@.cells.len() ==> b@.cells[i] == Seq::<Stone>::empty(),
    {
        let (n, stones_available, capstones_available): (usize, u32, u32) = match size {
            BoardSize::Size3x3 => (3, 10, 0),
            BoardSize::Size4x4 => (4, 15, 0),
            BoardSize::Size5x5 => (5, 20, 1),
            BoardSize::Size6x6 => (6, 30, 1),
            BoardSize::Size7x7 => (7, 40, 2),
            BoardSize::Size8x8 => (8, 50, 2),
        };
        proof {
            assert(n * n <= 64) by (nonlinear_arith)
                requires
                    n <= 8,
            ;
        }
        let total: usize = n * n;
        let mut grid: Vec<Cell> = Vec::new();
        for i in 0..total
            invariant
                grid@.len() == i,
                forall|j: int| 0 <= j < i ==> (#[trigger] grid@[j]).stack@
                    == Seq::<Stone>::empty(),
                grid_stones(grid@.map_values(|c: Cell| c.stack@)) == 0,
                grid_caps(grid@.map_values(|c: Cell| c.stack@)) == 0,
        {
            let ghost before = grid@.map_values(|c: Cell| c.stack@);
            grid.push(Cell::new());
            proof {
                let after = grid@.map_values(|c: Cell| c.stack@);
                assert(after.drop_last() =~= before);
                assert(after.last() =~= Seq::<Stone>::empty());
            }
        }
        let b = TakBoard {
            size: n,
            grid,
            white: TakPlayer {
                color: StoneColor::White,
                stones_available,
                capstones_available,
            },
            black: TakPlayer {
                color: StoneColor::Black,
                stones_available,
                capstones_available,
            },
            turn: first_turn,
        };
        b
    }

    /// Make a board of the given size; the color that moves first is drawn
    /// at random, so nothing more is promised of the turn than that it is
    /// one of the two colors.
    pub fn new(size: BoardSize) -> (b: TakBoard)
        ensures
            b@.wf(),
            b@.size == preset_size(size),
            b@.turn == StoneColor::White || b@.turn == StoneColor::Black,
            b@.white == (PlayerModel {
                stones: start_stones(preset_size(size)),
                caps: start_caps(preset_size(size)),
            }),
            b@.black == b@.white,
            forall|i: int| 0 <= i < b@.cells.len() ==> b@.cells[i] == Seq::<Stone>::empty(),
    {
        let first = random_color();
        Self::new_with_turn(size, first)
    }

    /// Hand the turn to the other player.
    fn swap_turns(&mut self)
        ensures
            final(self)@ == (BoardModel { turn: flip(old(self)@.turn), ..old(self)@ }),
    {
        self.turn = match self.turn {
            StoneColor::White => StoneColor::Black,
            StoneColor::Black => StoneColor::White,
        };
        proof {
            assert(final(self)@ =~= BoardModel { turn: flip(old(self)@.turn), ..old(self)@ });
        }
    }

    /// Whether a position lies on the board.
    pub fn contains(&self, pos: Position) -> (b: bool)
        ensures
            b == self@.on_board(pos),
    {
        pos.row >= 0 && pos.col >= 0 && (pos.row as usize) < self.size && (pos.col as usize)
            < self.size
    }

    /// Index of an on-board position in the row-major cell vector.
    fn cell_index(&self, pos: Position) -> (i: usize)
        requires
            self@.size <= 8,
            self@.cells.len() == self@.size * self@.size,
            self@.on_board(pos),
        ensures
            i == self@.idx(pos),
            i < self@.cells.len(),
    {
        let r = pos.row as usize;
        let c = pos.col as usize;
        proof {
            assert(r * self.size + c < self.size * self.size) by (nonlinear_arith)
                requires
                    r < self.size,
                    c < self.size,
            ;
            assert(self.size * self.size <= 64) by (nonlinear_arith)
                requires
                    self.size <= 8,
            ;
        }
        r * self.size + c
    }

    /// Put a new stone of the mover's color on an empty cell.  On success
    /// the matching inventory pool shrinks by one and the turn flips; on any
    /// refusal the board is left exactly as it was.
    pub fn put_stone(&mut self, position: Position, stone_type: StoneType) -> (r: Result<
        (),
        PlaceError,
    >)
        requires
            old(self)@.wf(),
        ensures
            final(self)@.wf(),
            match r {
                Result::Ok(()) => spec_place_error(old(self)@, position, stone_type) is None
                    && final(self)@ == spec_place_result(old(self)@, position, stone_type),
                Result::Err(e) => spec_place_error(old(self)@, position, stone_type) == Some(e)
                    && final(self)@ == old(self)@,
            },
            r is Ok ==> final(self)@.turn == flip(old(self)@.turn),
            r is Err ==> final(self)@.turn == old(self)@.turn,
            final(self)@.total_units() == old(self)@.total_units(),
    {
        if !self.contains(position) {
            return Result::Err(PlaceError::OutOfBounds);
        }
        let idx = self.cell_index(position);
        if self.grid[idx].stack.len() > 0 {
            return Result::Err(PlaceError::CellOccupied);
        }
        let turn = self.turn;
        match stone_type {
            StoneType::CapStone => {
                if self.capstones_available(turn) == 0 {
                    return Result::Err(PlaceError::NoCapstonesLeft);
                }
            },
            _ => {
                if self.stones_available(turn) == 0 {
                    return Result::Err(PlaceError::NoStonesLeft);
                }
            },
        }
        let ghost m0 = self@;
        let ghost g0 = self.grid@;
        let stone = Stone { color: turn, stone_type };
        self.grid[idx].stack.push(stone);
        proof {
            assert(self.grid@.len() == g0.len());
            assert(self.grid@[idx as int].stack@ == g0[idx as int].stack@.push(stone));
            assert(forall|i: int|
                0 <= i < g0.len() && i != idx as int ==> self.grid@[i] == g0[i]);
            let cells1 = self@.cells;
            let target = m0.cells.update(idx as int, seq![stone]);
            assert(m0.cells[idx as int].len() == 0);
            assert(cells1[idx as int] =~= seq![stone]);
            assert forall|i: int| 0 <= i < cells1.len() implies cells1[i] == target[i] by {
                if i != idx as int {
                    assert(cells1[i] == g0[i].stack@);
                }
            }
            assert(cells1 =~= target);
            lemma_grid_sums_update(m0.cells, idx as int, seq![stone]);
            assert(seq![stone].drop_last() =~= Seq::<Stone>::empty());
            assert(caps_in_stack(seq![stone]) == caps_in_stack(Seq::<Stone>::empty())
                + if stone.stone_type is CapStone {
                1int
            } else {
                0int
            });
        }
        match (turn, stone_type) {
            (StoneColor::White, StoneType::CapStone) => {
                self.white.capstones_available = self.white.capstones_available - 1;
            },
            (StoneColor::White, _) => {
                self.white.stones_available = self.white.stones_available - 1;
            },
            (StoneColor::Black, StoneType::CapStone) => {
                self.black.capstones_available = self.black.capstones_available - 1;
            },
            (StoneColor::Black, _) => {
                self.black.stones_available = self.black.stones_available - 1;
            },
        }
        self.swap_turns();
        proof {
            assert(final(self)@ =~= spec_place_result(m0, position, stone_type));
        }
        Result::Ok(())
    }

    /// Validate a stack move and work out the drop schedule it will follow:
    /// the supplied one, or the default one (a stone per cell, the rest on
    /// the last passable cell) when none is supplied.  Nothing is mutated;
    /// the first failed precondition names the error.
    #[verifier::loop_isolation(false)]
    #[verifier::rlimit(60)]
    fn build_schedule(
        &self,
        position: Position,
        count: usize,
        direction: Direction,
        stacks: Vec<usize>,
    ) -> (r: Result<Vec<usize>, MoveError>)
        requires
            self@.wf(),
        ensures
            ({
                let drops = stacks@.map_values(|x: usize| x as int);
                match r {
                    Result::Err(e) => spec_move_error(
                        self@,
                        position,
                        count as int,
                        direction,
                        drops,
                    ) == Some(e),
                    Result::Ok(sched) => {
                        let s = sched@.map_values(|x: usize| x as int);
                        &&& spec_move_error(self@, position, count as int, direction, drops)
                            is None
                        &&& s == eff_sched(self@, position, count as int, direction, drops)
                        &&& forall|i: int| 0 <= i < sched@.len() ==> sched@[i] >= 1
                        &&& sum_from(s, 0) == count
                        &&& sched_steps_ok(
                            self@,
                            position,
                            direction,
                            0,
                            s,
                            self@.cell(position).last(),
                        )
                    },
                }
            }),
    {
        let ghost m0 = self@;
        let ghost drops_spec = stacks@.map_values(|x: usize| x as int);
        if !self.contains(position) {
            return Result::Err(MoveError::OutOfBounds);
        }
        let src = self.cell_index(position);
        let height = self.grid[src].stack.len();
        proof {
            assert(m0.cell(position) == m0.cells[src as int]);
            assert(height == m0.cell(position).len());
        }
        if count < 1 || count > self.size || count > height {
            return Result::Err(MoveError::InvalidCarryCount);
        }
        let n_drops = stacks.len();
        if n_drops > 0 {
            let mut sum: usize = 0;
            for i in 0..n_drops
                invariant
                    sum <= count,
                    sum_from(drops_spec, 0) == sum + sum_from(drops_spec, i as int),
                    forall|j: int| 0 <= j < i ==> drops_spec[j] >= 1,
            {
                let e = stacks[i];
                if e == 0 {
                    proof {
                        assert(drops_spec[i as int] == 0);
                        assert(!valid_drops(drops_spec, count as int));
                    }
                    return Result::Err(MoveError::DropScheduleMismatch);
                }
                if e > count - sum {
                    proof {
                        assert(forall|q: int|
                            0 <= q < drops_spec.len() ==> drops_spec[q] >= 0);
                        lemma_sum_from_nonneg(drops_spec, i as int + 1);
                        assert(sum_from(drops_spec, i as int) == drops_spec[i as int]
                            + sum_from(drops_spec, i as int + 1));
                        assert(sum_from(drops_spec, 0) > count);
                        assert(!valid_drops(drops_spec, count as int));
                    }
                    return Result::Err(MoveError::DropScheduleMismatch);
                }
                sum = sum + e;
            }
            proof {
                assert(sum_from(drops_spec, n_drops as int) == 0);
            }
            if sum != count {
                proof {
                    assert(!valid_drops(drops_spec, count as int));
                }
                return Result::Err(MoveError::DropScheduleMismatch);
            }
            proof {
                assert(valid_drops(drops_spec, count as int));
            }
        }
        let carried_top = self.grid[src].stack[height - 1];
        proof {
            assert(carried_top == m0.cell(position).last());
        }
        if n_drops > 0 {
            proof {
                lemma_sum_from_ge_len(drops_spec, 0);
            }
            let mut rem: usize = count;
            let mut cur = position.add(direction.delta());
            proof {
                assert(cur.row == path_row(position, direction, 0));
                assert(cur.col == path_col(position, direction, 0));
            }
            for k in 0..n_drops
                invariant
                    rem as int == sum_from(drops_spec, k as int),
                    rem <= count,
                    cur.row == path_row(position, direction, k as int),
                    cur.col == path_col(position, direction, k as int),
                    path_check(
                        m0,
                        position,
                        direction,
                        drops_spec,
                        0,
                        count as int,
                        carried_top,
                    ) == path_check(
                        m0,
                        position,
                        direction,
                        drops_spec,
                        k as int,
                        rem as int,
                        carried_top,
                    ),
            {
                if !self.contains(cur) {
                    proof {
                        assert(!path_on_board(position, direction, m0.size, k as int));
                        assert(path_check(
                            m0,
                            position,
                            direction,
                            drops_spec,
                            k as int,
                            rem as int,
                            carried_top,
                        ) == Some(MoveError::PathLeavesBoard));
                    }
                    return Result::Err(MoveError::PathLeavesBoard);
                }
                if !self.is_cell_passable(cur, rem, carried_top) {
                    proof {
                        assert(path_on_board(position, direction, m0.size, k as int));
                        assert(m0.cell(cur) == m0.cells[path_index(
                            position,
                            direction,
                            m0.size,
                            k as int,
                        )]);
                        assert(path_check(
                            m0,
                            position,
                            direction,
                            drops_spec,
                            k as int,
                            rem as int,
                            carried_top,
                        ) == Some(MoveError::BlockedDestination));
                    }
                    return Result::Err(MoveError::BlockedDestination);
                }
                let e = stacks[k];
                proof {
                    assert(path_on_board(position, direction, m0.size, k as int));
                    assert(m0.cell(cur) == m0.cells[path_index(
                        position,
                        direction,
                        m0.size,
                        k as int,
                    )]);
                    assert(forall|q: int| 0 <= q < drops_spec.len() ==> drops_spec[q] >= 0);
                    lemma_sum_from_nonneg(drops_spec, k as int + 1);
                    assert(sum_from(drops_spec, k as int) == drops_spec[k as int] + sum_from(
                        drops_spec,
                        k as int + 1,
                    ));
                    lemma_path_step_inc(position, direction, k as int);
                }
                rem = rem - e;
                cur = cur.add(direction.delta());
            }
            proof {
                assert(path_check(
                    m0,
                    position,
                    direction,
                    drops_spec,
                    n_drops as int,
                    rem as int,
                    carried_top,
                ) is None);
                lemma_path_check_steps(m0, position, direction, drops_spec, 0, carried_top);
                assert(drops_spec.skip(0) =~= drops_spec);
                assert(sched_steps_ok(m0, position, direction, 0, drops_spec, carried_top));
                assert forall|i: int| 0 <= i < stacks@.len() implies stacks@[i] >= 1 by {
                    assert(drops_spec[i] == stacks@[i] as int);
                }
            }
            Result::Ok(stacks)
        } else {
            let first = position.add(direction.delta());
            proof {
                assert(first.row == path_row(position, direction, 0));
                assert(first.col == path_col(position, direction, 0));
            }
            if !self.contains(first) {
                return Result::Err(MoveError::PathLeavesBoard);
            }
            if !self.is_cell_passable(first, count, carried_top) {
                return Result::Err(MoveError::BlockedDestination);
            }
            proof {
                assert(path_on_board(position, direction, m0.size, 0));
                assert(m0.cell(first) == m0.cells[path_index(position, direction, m0.size, 0)]);
            }
            let mut sched: Vec<usize> = Vec::new();
            let mut rem: usize = count;
            let mut cur = first;
            let mut done: bool = false;
            while !done
                invariant
                    1 <= rem <= count,
                    sched@.len() <= count,
                    !done ==> sched@.len() + rem == count,
                    !done ==> cur.row == path_row(position, direction, sched@.len() as int),
                    !done ==> cur.col == path_col(position, direction, sched@.len() as int),
                    !done ==> path_on_board(
                        position,
                        direction,
                        m0.size,
                        sched@.len() as int,
                    ),
                    !done ==> spec_passable(
                        m0.cells[path_index(position, direction, m0.size, sched@.len() as int)],
                        rem as int,
                        carried_top,
                    ),
                    !done ==> default_sched(
                        m0,
                        position,
                        direction,
                        0,
                        count as int,
                        carried_top,
                    ) == sched@.map_values(|x: usize| x as int) + default_sched(
                        m0,
                        position,
                        direction,
                        sched@.len() as int,
                        rem as int,
                        carried_top,
                    ),
                    done ==> default_sched(
                        m0,
                        position,
                        direction,
                        0,
                        count as int,
                        carried_top,
                    ) == sched@.map_values(|x: usize| x as int),
                decreases rem, (if done {
                    0int
                } else {
                    1int
                }),
            {
                let ghost j = sched@.len() as int;
                let ghost pre_map = sched@.map_values(|x: usize| x as int);
                if rem == 1 {
                    sched.push(1);
                    done = true;
                    proof {
                        let ds = default_sched(m0, position, direction, j, 1, carried_top);
                        assert(ds =~= seq![1int]);
                        assert(sched@.map_values(|x: usize| x as int) =~= pre_map + ds);
                    }
                } else {
                    let next = cur.add(direction.delta());
                    proof {
                        lemma_path_step_inc(position, direction, j);
                        assert(next.row == path_row(position, direction, j + 1));
                        assert(next.col == path_col(position, direction, j + 1));
                    }
                    if self.is_cell_passable(next, rem - 1, carried_top) {
                        sched.push(1);
                        rem = rem - 1;
                        cur = next;
                        proof {
                            assert(path_on_board(position, direction, m0.size, j + 1));
                            assert(m0.cell(next) == m0.cells[path_index(
                                position,
                                direction,
                                m0.size,
                                j + 1,
                            )]);
                            let t = default_sched(
                                m0,
                                position,
                                direction,
                                j + 1,
                                rem as int,
                                carried_top,
                            );
                            assert(default_sched(
                                m0,
                                position,
                                direction,
                                j,
                                rem + 1,
                                carried_top,
                            ) == seq![1int] + t);
                            assert(sched@.map_values(|x: usize| x as int) =~= pre_map + seq![
                                1int,
                            ]);
                            assert((pre_map + seq![1int]) + t =~= pre_map + (seq![1int] + t));
                        }
                    } else {
                        sched.push(rem);
                        done = true;
                        proof {
                            if path_on_board(position, direction, m0.size, j + 1) {
                                assert(m0.cell(next) == m0.cells[path_index(
                                    position,
                                    direction,
                                    m0.size,
                                    j + 1,
                                )]);
                            }
                            let ds = default_sched(
                                m0,
                                position,
                                direction,
                                j,
                                rem as int,
                                carried_top,
                            );
                            assert(ds =~= seq![rem as int]);
                            assert(sched@.map_values(|x: usize| x as int) =~= pre_map + ds);
                        }
                    }
                }
            }
            proof {
                lemma_default_sched_props(m0, position, direction, 0, count as int, carried_top);
                assert(sched@.map_values(|x: usize| x as int) == default_sched(
                    m0,
                    position,
                    direction,
                    0,
                    count as int,
                    carried_top,
                ));
                assert forall|i: int| 0 <= i < sched@.len() implies sched@[i] >= 1 by {
                    assert(sched@.map_values(|x: usize| x as int)[i] == sched@[i] as int);
                }
            }
            Result::Ok(sched)
        }
    }

    /// Walk a validated schedule: lift the top `count` stones of the source
    /// stack and lay them out along the path, crushing a standing top under
    /// a lone capstone where the schedule lands on one; then hand the turn
    /// to the other player.
    #[verifier::loop_isolation(false)]
    #[verifier::rlimit(100)]
    fn apply_schedule(&mut self, position: Position, count: usize, direction: Direction, sched: Vec<usize>)
        requires
            old(self)@.wf(),
            old(self)@.on_board(position),
            1 <= count <= old(self)@.size,
            count <= old(self)@.cell(position).len(),
            forall|i: int| 0 <= i < sched@.len() ==> sched@[i] >= 1,
            sum_from(sched@.map_values(|x: usize| x as int), 0) == count,
            sched_steps_ok(
                old(self)@,
                position,
                direction,
                0,
                sched@.map_values(|x: usize| x as int),
                old(self)@.cell(position).last(),
            ),
        ensures
            final(self)@.wf(),
            final(self)@ == (BoardModel {
                cells: apply_sched(
                    old(self)@.cells.update(
                        old(self)@.idx(position),
                        old(self)@.cell(position).subrange(
                            0,
                            old(self)@.cell(position).len() - count,
                        ),
                    ),
                    old(self)@.size,
                    position,
                    direction,
                    sched@.map_values(|x: usize| x as int),
                    0,
                    old(self)@.cell(position).subrange(
                        old(self)@.cell(position).len() - count,
                        old(self)@.cell(position).len() as int,
                    ),
                ),
                turn: flip(old(self)@.turn),
                ..old(self)@
            }),
            final(self)@.total_units() == old(self)@.total_units(),
    {
        let ghost m0 = self@;
        let ghost s = sched@.map_values(|x: usize| x as int);
        proof {
            assert forall|i: int| 0 <= i < s.len() implies s[i] >= 1 by {
                assert(s[i] == sched@[i] as int);
            }
        }
        let src = self.cell_index(position);
        let height = self.grid[src].stack.len();
        proof {
            assert(m0.cell(position) == m0.cells[src as int]);
            assert(height == m0.cell(position).len());
        }
        let carried_top = self.grid[src].stack[height - 1];
        proof {
            assert(carried_top == m0.cell(position).last());
            lemma_steps_on_board(m0, position, direction, 0, s, carried_top);
            lemma_sum_from_ge_len(s, 0);
        }
        let ghost carried0 = m0.cell(position).subrange(height - count, height as int);
        let ghost base = m0.cells.update(
            src as int,
            m0.cell(position).subrange(0, height - count),
        );
        let mut carried: Vec<Stone> = self.grid[src].stack.split_off(height - count);
        proof {
            assert(carried@ == carried0);
            assert(carried0.last() == carried_top);
            assert(self@.cells =~= base);
            assert(stack_wf(carried0)) by {
                assert forall|q: int|
                    0 <= q < carried0.len() - 1 implies carried0[q].stone_type is FlatStone by {
                    assert(carried0[q] == m0.cell(position)[height - count + q]);
                }
            }
            lemma_grid_sums_update(
                m0.cells,
                src as int,
                m0.cell(position).subrange(0, height - count),
            );
            lemma_caps_split(m0.cell(position), height - count);
            assert(m0.cell(position).take(height - count) =~= m0.cell(position).subrange(
                0,
                height - count,
            ));
            assert(m0.cell(position).skip(height - count) =~= carried0);
            assert(stack_wf(base[src as int])) by {
                assert forall|q: int|
                    0 <= q < base[src as int].len() - 1 implies base[src as int][q].stone_type
                    is FlatStone by {
                    assert(base[src as int][q] == m0.cell(position)[q]);
                }
            }
            assert forall|i: int|
                0 <= i < self@.cells.len() implies stack_wf(#[trigger] self@.cells[i]) by {
                if i != src as int {
                    assert(self@.cells[i] == m0.cells[i]);
                }
            }
        }
        let ghost target = apply_sched(base, m0.size, position, direction, s, 0, carried0);
        let n_steps = sched.len();
        proof {
            assert(s.skip(0) =~= s);
            assert(carried0.skip(0) =~= carried0);
            assert(apply_sched(self@.cells, m0.size, position, direction, s, 0, carried@)
                == target);
            assert forall|j: int|
                0 <= j < s.len() implies self@.cells[path_index(
                position,
                direction,
                m0.size,
                j,
            )] == m0.cells[path_index(position, direction, m0.size, j)] by {
                assert(path_on_board(position, direction, m0.size, j));
                lemma_path_step_not_source(position, direction, m0.size, j);
                lemma_path_index_bounds(position, direction, m0.size, j);
                assert(path_index(position, direction, m0.size, j) != src as int);
                assert(self@.cells == base);
                assert(base[path_index(position, direction, m0.size, j)] == m0.cells[path_index(
                    position,
                    direction,
                    m0.size,
                    j,
                )]);
            }
        }
        let mut cur = position.add(direction.delta());
        proof {
            assert(cur.row == path_row(position, direction, 0));
            assert(cur.col == path_col(position, direction, 0));
        }
        let mut k: usize = 0;
        while k < n_steps
            invariant
                k <= n_steps,
                cur.row == path_row(position, direction, k as int),
                cur.col == path_col(position, direction, k as int),
                self@.size == m0.size,
                self@.white == m0.white,
                self@.black == m0.black,
                self@.turn == m0.turn,
                self@.cells.len() == m0.cells.len(),
                sched_steps_ok(m0, position, direction, k as int, s.skip(k as int), carried_top),
                carried@.len() == sum_from(s, k as int),
                carried@.len() <= carried0.len(),
                carried@ == carried0.skip(carried0.len() - carried@.len()),
                forall|j: int|
                    k <= j < s.len() ==> self@.cells[path_index(
                        position,
                        direction,
                        m0.size,
                        j,
                    )] == m0.cells[path_index(position, direction, m0.size, j)],
                forall|i: int|
                    0 <= i < self@.cells.len() ==> stack_wf(#[trigger] self@.cells[i]),
                grid_stones(self@.cells) + carried@.len() == grid_stones(m0.cells),
                grid_caps(self@.cells) + caps_in_stack(carried@) == grid_caps(m0.cells),
                apply_sched(self@.cells, m0.size, position, direction, s, k as int, carried@)
                    == target,
            decreases n_steps - k,
        {
            let ghost pre = self@;
            let ghost c_pre = carried@;
            proof {
                assert(s.skip(k as int).len() > 0);
                lemma_sum_from_skip(s, k as int, 0);
                assert(s.skip(k as int)[0] == s[k as int]);
                assert(sum_from(s.skip(k as int), 0) == sum_from(s, k as int));
                assert(forall|q: int| 0 <= q < s.len() ==> s[q] >= 0);
                lemma_sum_from_nonneg(s, k as int + 1);
                assert(sum_from(s, k as int) == s[k as int] + sum_from(s, k as int + 1));
            }
            let d = sched[k];
            let ci = self.cell_index(cur);
            let ghost cell = pre.cells[ci as int];
            let ghost dropped = c_pre.take(d as int);
            proof {
                assert(ci as int == path_index(position, direction, m0.size, k as int));
                assert(cell == m0.cells[ci as int]);
                assert(spec_passable(cell, c_pre.len() as int, carried_top));
                assert(c_pre.len() > 0);
                let off = carried0.len() - c_pre.len();
                assert(c_pre.last() == carried_top) by {
                    assert(c_pre[c_pre.len() - 1] == carried0.skip(off)[c_pre.len() - 1]);
                    assert(carried0.skip(off)[c_pre.len() - 1] == carried0[off + (c_pre.len()
                        - 1)]);
                }
                assert(stack_wf(c_pre)) by {
                    assert forall|q: int|
                        0 <= q < c_pre.len() - 1 implies c_pre[q].stone_type is FlatStone by {
                        assert(c_pre[q] == carried0.skip(off)[q]);
                        assert(carried0.skip(off)[q] == carried0[off + q]);
                    }
                }
            }
            let cn = self.grid[ci].stack.len();
            if cn > 0 {
                let tstone = self.grid[ci].stack[cn - 1];
                if matches!(tstone.stone_type, StoneType::StandingStone) {
                    let _popped = self.grid[ci].stack.pop();
                    self.grid[ci].stack.push(
                        Stone { color: tstone.color, stone_type: StoneType::FlatStone },
                    );
                }
            }
            proof {
                assert(self@.cells[ci as int] =~= maybe_crush(cell));
                assert(forall|i: int|
                    0 <= i < self@.cells.len() && i != ci as int ==> self@.cells[i]
                        == pre.cells[i]);
            }
            let mut rest = carried.split_off(d);
            self.grid[ci].stack.append(&mut carried);
            carried = rest;
            k = k + 1;
            proof {
                lemma_path_step_inc(position, direction, k - 1);
            }
            cur = cur.add(direction.delta());
            proof {
                let newc = maybe_crush(cell) + dropped;
                assert(self@.cells[ci as int] =~= newc);
                assert(forall|i: int|
                    0 <= i < self@.cells.len() && i != ci as int ==> self@.cells[i]
                        == pre.cells[i]);
                assert(self@.cells =~= pre.cells.update(ci as int, newc));
                assert(carried@ =~= c_pre.skip(d as int));
                assert(apply_sched(
                    pre.cells,
                    m0.size,
                    position,
                    direction,
                    s,
                    k - 1,
                    c_pre,
                ) == apply_sched(self@.cells, m0.size, position, direction, s, k as int, carried@));
                assert(carried@.len() == sum_from(s, k as int));
                let off = carried0.len() - c_pre.len();
                assert(carried@ =~= carried0.skip(carried0.len() - carried@.len())) by {
                    assert forall|q: int|
                        0 <= q < carried@.len() implies carried@[q] == carried0.skip(
                        carried0.len() - carried@.len(),
                    )[q] by {
                        assert(carried@[q] == c_pre[d + q]);
                        assert(c_pre[d + q] == carried0.skip(off)[d + q]);
                        assert(carried0.skip(off)[d + q] == carried0[off + d + q]);
                        assert(carried0.skip(off + d)[q] == carried0[off + d + q]);
                    }
                }
                assert forall|j: int|
                    k <= j < s.len() implies self@.cells[path_index(
                    position,
                    direction,
                    m0.size,
                    j,
                )] == m0.cells[path_index(position, direction, m0.size, j)] by {
                    assert(path_on_board(position, direction, m0.size, j));
                    assert(path_on_board(position, direction, m0.size, k - 1));
                    lemma_path_steps_distinct(position, direction, m0.size, j, k - 1);
                    lemma_path_index_bounds(position, direction, m0.size, j);
                    assert(path_index(position, direction, m0.size, j) != ci as int);
                    assert(self@.cells == pre.cells.update(ci as int, newc));
                    assert(self@.cells[path_index(position, direction, m0.size, j)]
                        == pre.cells[path_index(position, direction, m0.size, j)]);
                    assert(pre.cells[path_index(position, direction, m0.size, j)]
                        == m0.cells[path_index(position, direction, m0.size, j)]);
                }
                assert(stack_wf(newc)) by {
                    if cell.len() == 0 {
                        assert(maybe_crush(cell) =~= cell);
                        assert forall|q: int|
                            0 <= q < newc.len() - 1 implies newc[q].stone_type is FlatStone by {
                            assert(newc[q] == dropped[q]);
                            assert(dropped[q] == c_pre[q]);
                        }
                    } else if cell.last().stone_type is FlatStone {
                        assert(maybe_crush(cell) =~= cell);
                        assert forall|q: int|
                            0 <= q < newc.len() - 1 implies newc[q].stone_type is FlatStone by {
                            if q < cell.len() {
                                if q < cell.len() - 1 {
                                    assert(cell[q].stone_type is FlatStone);
                                } else {
                                    assert(newc[q] == cell.last());
                                }
                            } else {
                                assert(newc[q] == dropped[q - cell.len()]);
                                assert(dropped[q - cell.len()] == c_pre[q - cell.len()]);
                            }
                        }
                    } else if cell.last().stone_type is StandingStone {
                        assert(c_pre.len() == 1);
                        assert(d == 1);
                        assert(dropped =~= seq![carried_top]);
                        assert(carried_top.stone_type is CapStone);
                        let crushed = maybe_crush(cell);
                        assert forall|q: int|
                            0 <= q < newc.len() - 1 implies newc[q].stone_type is FlatStone by {
                            if q < cell.len() - 1 {
                                assert(newc[q] == cell[q]);
                            } else {
                                assert(newc[q] == crushed[cell.len() - 1]);
                            }
                        }
                    } else {
                        assert(false);
                    }
                }
                assert forall|i: int|
                    0 <= i < self@.cells.len() implies stack_wf(#[trigger] self@.cells[i]) by {
                    if i != ci as int {
                        assert(self@.cells[i] == pre.cells[i]);
                    }
                }
                lemma_grid_sums_update(pre.cells, ci as int, newc);
                lemma_maybe_crush_counts(cell);
                lemma_caps_append(maybe_crush(cell), dropped);
                lemma_caps_split(c_pre, d as int);
                assert(s.skip(k - 1).drop_first() =~= s.skip(k as int));
            }
        }
        proof {
            assert(carried@.len() == sum_from(s, n_steps as int));
            assert(carried@.len() == 0);
            assert(caps_in_stack(carried@) == 0);
            assert(self@.cells == target);
        }
        self.swap_turns();
        proof {
            assert(self@.wf());
        }
    }

    /// Move `count` stones from the top of the stack at `position` toward
    /// `direction`.  A non-empty `stacks` is the explicit drop schedule: how
    /// many stones to drop on each successive cell; an empty `stacks` asks
    /// for the default schedule of one stone per cell, with the whole rest
    /// dropped on the last passable cell reached.  The whole move is
    /// validated before anything is touched: on success the stones are laid
    /// out and the turn flips, and on any refusal the board is left exactly
    /// as it was.
    pub fn move_stack(
        &mut self,
        position: Position,
        count: usize,
        direction: Direction,
        stacks: Vec<usize>,
    ) -> (r: Result<(), MoveError>)
        requires
            old(self)@.wf(),
        ensures
            final(self)@.wf(),
            match r {
                Result::Ok(()) => spec_move_error(
                    old(self)@,
                    position,
                    count as int,
                    direction,
                    stacks@.map_values(|x: usize| x as int),
                ) is None && final(self)@ == spec_move_result(
                    old(self)@,
                    position,
                    count as int,
                    direction,
                    stacks@.map_values(|x: usize| x as int),
                ),
                Result::Err(e) => spec_move_error(
                    old(self)@,
                    position,
                    count as int,
                    direction,
                    stacks@.map_values(|x: usize| x as int),
                ) == Some(e) && final(self)@ == old(self)@,
            },
            r is Ok ==> final(self)@.turn == flip(old(self)@.turn),
            r is Err ==> final(self)@.turn == old(self)@.turn,
            final(self)@.total_units() == old(self)@.total_units(),
    {
        let ghost m0 = self@;
        let ghost drops_spec = stacks@.map_values(|x: usize| x as int);
        let sched = match self.build_schedule(position, count, direction, stacks) {
            Result::Err(e) => {
                return Result::Err(e);
            },
            Result::Ok(v) => v,
        };
        proof {
            assert(m0.on_board(position));
            assert(1 <= count as int <= m0.size);
            assert(count as int <= m0.cell(position).len());
        }
        self.apply_schedule(position, count, direction, sched);
        proof {
            assert(self@ =~= spec_move_result(m0, position, count as int, direction, drops_spec));
        }
        Result::Ok(())
    }

    /// The stone on top of the stack at `pos`, if the position is on the
    /// board and its cell is not empty.
    pub fn top_stone_at(&self, pos: Position) -> (r: Option<Stone>)
        requires
            self@.wf(),
        ensures
            match r {
                Some(s) => self@.on_board(pos) && self@.cell(pos).len() > 0 && s == self@.cell(
                    pos,
                ).last(),
                None => !self@.on_board(pos) || self@.cell(pos).len() == 0,
            },
    {
        if !self.contains(pos) {
            return None;
        }
        let idx = self.cell_index(pos);
        let n = self.grid[idx].stack.len();
        if n == 0 {
            None
        } else {
            Some(self.grid[idx].stack[n - 1])
        }
    }

    /// The whole stack at `pos`, bottom first, if the position is on the
    /// board; meant for rendering.
    pub fn stones_at(&self, pos: Position) -> (r: Option<Vec<Stone>>)
        requires
            self@.wf(),
        ensures
            match r {
                Some(v) => self@.on_board(pos) && v@ == self@.cell(pos),
                None => !self@.on_board(pos),
            },
    {
        if !self.contains(pos) {
            return None;
        }
        let idx = self.cell_index(pos);
        let n = self.grid[idx].stack.len();
        let mut out: Vec<Stone> = Vec::new();
        for i in 0..n
            invariant
                n == self@.cell(pos).len(),
                idx == self@.idx(pos),
                idx < self.grid@.len(),
                self@.wf(),
                self@.on_board(pos),
                out@ == self@.cell(pos).take(i as int),
        {
            out.push(self.grid[idx].stack[i]);
            proof {
                assert(out@ =~= self@.cell(pos).take(i + 1));
            }
        }
        proof {
            assert(out@ =~= self@.cell(pos));
        }
        Some(out)
    }

    /// Whether the carried group described by `remaining` and `carried_top`
    /// may enter the cell at `pos`: the position must be on the board and
    /// its stack must be open to the group.
    pub fn is_cell_passable(&self, pos: Position, remaining: usize, carried_top: Stone) -> (b:
        bool)
        requires
            self@.wf(),
        ensures
            b == (self@.on_board(pos) && spec_passable(
                self@.cell(pos),
                remaining as int,
                carried_top,
            )),
    {
        if !self.contains(pos) {
            return false;
        }
        let idx = self.cell_index(pos);
        let n = self.grid[idx].stack.len();
        if n == 0 {
            return true;
        }
        let top = self.grid[idx].stack[n - 1];
        match top.stone_type {
            StoneType::FlatStone => true,
            StoneType::StandingStone => remaining == 1 && matches!(
                carried_top.stone_type,
                StoneType::CapStone
            ),
            StoneType::CapStone => false,
        }
    }

    /// The board's side length.
    pub fn size(&self) -> (n: usize)
        ensures
            n == self@.size,
    {
        self.size
    }

    /// The color whose turn it is.
    pub fn current_turn(&self) -> (c: StoneColor)
        ensures
            c == self@.turn,
    {
        self.turn
    }

    /// Regular stones the given player still holds.
    pub fn stones_available(&self, color: StoneColor) -> (n: u32)
        ensures
            n == self@.player(color).stones,
    {
        match color {
            StoneColor::White => self.white.stones_available,
            StoneColor::Black => self.black.stones_available,
        }
    }

    /// Capstones the given player still holds.
    pub fn capstones_available(&self, color: StoneColor) -> (n: u32)
        ensures
            n == self@.player(color).caps,
    {
        match color {
            StoneColor::White => self.white.capstones_available,
            StoneColor::Black => self.black.capstones_available,
        }
    }
}

} // verus!
