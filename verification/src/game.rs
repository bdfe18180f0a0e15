//! The playing field and the game's counters: placing pieces, clearing
//! complete rows, scoring and levels.
use vstd::prelude::*;
use crate::piece::{Tetrimino, fits, fresh_of_kind, kind_column, kind_states, shape_ok};
use crate::piece;

verus! {

/// Milliseconds between two forced steps down, by level (level 1 first).
pub const LEVEL_TIMES: [u32; 10] = [1000, 850, 700, 600, 500, 400, 300, 250, 221, 190];

/// Cleared rows past which the level goes up, by level (level 1 first).
pub const LEVEL_LINES: [u32; 10] = [20, 40, 60, 80, 100, 120, 140, 160, 180, 200];

/// Rows of a fresh field, and the height a field is refilled to.
pub const FIELD_ROWS: usize = 16;

/// The number of cleared rows past which `level` (from 1 to 10) goes up.
pub open spec fn lines_goal(level: int) -> int {
    20 * level
}

/// The level after one more cleared row, where `lines` counts that row.
pub open spec fn level_after_line(level: int, lines: int) -> int {
    if lines > lines_goal(level) {
        level + 1
    } else {
        level
    }
}

/// The level after `k` more cleared rows, starting from `level` with `lines`
/// rows cleared so far.
pub open spec fn level_after_lines(level: int, lines: int, k: nat) -> int
    decreases k,
{
    if k == 0 {
        level
    } else {
        level_after_lines(level_after_line(level, lines + 1), lines + 1, (k - 1) as nat)
    }
}

/// `k` more cleared rows can be counted from `level` and `lines`: the level
/// stays within the table of goals before each row, and the count fits.
pub open spec fn lines_allowed(level: int, lines: int, k: nat) -> bool
    decreases k,
{
    k == 0 || {
        &&& 1 <= level <= 10
        &&& lines + 1 <= u32::MAX
        &&& lines_allowed(level_after_line(level, lines + 1), lines + 1, (k - 1) as nat)
    }
}

/// A row is complete when none of its cells is empty.
pub open spec fn row_complete(row: Seq<u8>) -> bool {
    forall|i: int| 0 <= i < row.len() ==> row[i] != 0
}

/// The rows of `map` that are not complete, in their order.
pub open spec fn kept_rows(map: Seq<Seq<u8>>) -> Seq<Seq<u8>>
    decreases map.len(),
{
    if map.len() == 0 {
        Seq::empty()
    } else if row_complete(map.last()) {
        kept_rows(map.drop_last())
    } else {
        kept_rows(map.drop_last()).push(map.last())
    }
}

/// A row of 10 empty cells.
pub open spec fn empty_row() -> Seq<u8> {
    Seq::new(10, |i: int| 0u8)
}

/// How many empty rows line clearing puts on top of the rows it keeps.
pub open spec fn refill(map: Seq<Seq<u8>>) -> nat {
    if kept_rows(map).len() < FIELD_ROWS {
        (FIELD_ROWS - kept_rows(map).len()) as nat
    } else {
        0
    }
}

/// `n` empty rows.
pub open spec fn empty_rows(n: nat) -> Seq<Seq<u8>> {
    Seq::new(n, |i: int| empty_row())
}

/// The field after line clearing: the complete rows are gone, the others kept
/// in order, and empty rows on top bring the field back to 16 rows.
pub open spec fn cleared_map(map: Seq<Seq<u8>>) -> Seq<Seq<u8>> {
    empty_rows(refill(map)) + kept_rows(map)
}

/// The number of complete rows of `map`.
pub open spec fn removed_rows(map: Seq<Seq<u8>>) -> int {
    map.len() - kept_rows(map).len()
}

/// The points that line clearing gives at `level`: the level for each complete
/// row, and 1000 more when no row is left.
pub open spec fn clear_points(map: Seq<Seq<u8>>, level: int) -> int {
    removed_rows(map) * level + if kept_rows(map).len() == 0 {
        1000int
    } else {
        0int
    }
}

/// Keeping the incomplete rows of two parts is keeping those of the whole.
pub proof fn lemma_kept_rows_concat(a: Seq<Seq<u8>>, b: Seq<Seq<u8>>)
    ensures
        kept_rows(a + b) == kept_rows(a) + kept_rows(b),
    decreases b.len(),
{
    if b.len() == 0 {
        assert(a + b =~= a);
        assert(kept_rows(b) =~= Seq::<Seq<u8>>::empty());
        assert(kept_rows(a) + kept_rows(b) =~= kept_rows(a));
    } else {
        assert((a + b).drop_last() =~= a + b.drop_last());
        assert((a + b).last() == b.last());
        lemma_kept_rows_concat(a, b.drop_last());
        if row_complete(b.last()) {
        } else {
            assert(kept_rows(a) + kept_rows(b.drop_last()).push(b.last()) =~= (kept_rows(a)
                + kept_rows(b.drop_last())).push(b.last()));
        }
    }
}

/// No more rows are kept than there are.
pub proof fn lemma_kept_rows_len(map: Seq<Seq<u8>>)
    ensures
        kept_rows(map).len() <= map.len(),
    decreases map.len(),
{
    if map.len() > 0 {
        lemma_kept_rows_len(map.drop_last());
    }
}

/// Every kept row is incomplete and is a row of the field.
pub proof fn lemma_kept_rows_incomplete(map: Seq<Seq<u8>>)
    ensures
        forall|i: int| 0 <= i < kept_rows(map).len() ==> !row_complete(#[trigger] kept_rows(map)[i]),
        forall|i: int| 0 <= i < kept_rows(map).len() ==> map.contains(#[trigger] kept_rows(map)[i]),
    decreases map.len(),
{
    if map.len() > 0 {
        lemma_kept_rows_incomplete(map.drop_last());
        assert forall|i: int| 0 <= i < kept_rows(map).len() implies map.contains(
            #[trigger] kept_rows(map)[i],
        ) by {
            if i < kept_rows(map.drop_last()).len() {
                let row = kept_rows(map.drop_last())[i];
                assert(map.drop_last().contains(row));
                let j = choose|j: int| 0 <= j < map.drop_last().len() && map.drop_last()[j] == row;
                assert(map[j] == row);
            } else {
                assert(map[map.len() - 1] == kept_rows(map)[i]);
            }
        }
    }
}

/// The piece grid `shape` has a filled cell at row `dy`, column `dx`.
pub open spec fn covers(shape: Seq<Seq<u8>>, dy: int, dx: int) -> bool {
    &&& 0 <= dy < shape.len()
    &&& 0 <= dx < shape[dy].len()
    &&& shape[dy][dx] != 0
}

/// Cell (`r`, `c`) of `map` once the filled cells of `shape`, with its top-left
/// cell at column `x` and row `y`, are written onto it.
pub open spec fn placed_cell(map: Seq<Seq<u8>>, shape: Seq<Seq<u8>>, x: int, y: int, r: int, c: int) -> u8 {
    if covers(shape, r - y, c - x) {
        shape[r - y][c - x]
    } else {
        map[r][c]
    }
}

/// `map` with the filled cells of `shape` written onto it; cells of the piece
/// that fall outside the field are left out.
pub open spec fn placed_map(map: Seq<Seq<u8>>, shape: Seq<Seq<u8>>, x: int, y: int) -> Seq<Seq<u8>> {
    Seq::new(map.len(), |r: int| Seq::new(map[r].len(), |c: int| placed_cell(map, shape, x, y, r, c)))
}

/// Writing `shape` at column `x`, row `y` onto `map` neither overflows nor
/// reaches a column left of the field: every filled cell on a field row whose
/// column is below the row's length is at a column of at least 0.
pub open spec fn placement_safe(map: Seq<Seq<u8>>, shape: Seq<Seq<u8>>, x: int, y: int) -> bool {
    &&& y + shape.len() <= usize::MAX + 1
    &&& forall|r: int| 0 <= r < map.len() ==> #[trigger] map[r].len() <= isize::MAX
    &&& forall|dy: int| 0 <= dy < shape.len() ==> #[trigger] shape[dy].len() <= isize::MAX
    &&& forall|dy: int| 0 <= dy < shape.len() ==> x + #[trigger] shape[dy].len() <= isize::MAX + 1
    &&& forall|dy: int, dx: int|
        #[trigger] covers(shape, dy, dx) && y + dy < map.len() && x + dx < map[y + dy].len() ==> 0 <= x + dx
}

/// `map` is a field of the standard shape: 16 rows of 10 cells.
pub open spec fn standard_field(map: Seq<Seq<u8>>) -> bool {
    &&& map.len() == FIELD_ROWS
    &&& forall|r: int| 0 <= r < map.len() ==> (#[trigger] map[r]).len() == 10
}

/// After line clearing no row is complete.
pub proof fn lemma_cleared_map_no_complete_row(map: Seq<Seq<u8>>)
    ensures
        forall|r: int| 0 <= r < cleared_map(map).len() ==> !row_complete(#[trigger] cleared_map(map)[r]),
{
    lemma_kept_rows_incomplete(map);
    let e = empty_rows(refill(map));
    assert forall|r: int| 0 <= r < cleared_map(map).len() implies !row_complete(#[trigger] cleared_map(map)[r]) by {
        if r < e.len() {
            assert(cleared_map(map)[r] == empty_row());
            assert(empty_row()[0] == 0);
        } else {
            assert(cleared_map(map)[r] == kept_rows(map)[r - e.len()]);
        }
    }
}

/// Line clearing keeps a field of the standard shape, and counts exactly the
/// rows it removes.
pub proof fn lemma_cleared_map_standard(map: Seq<Seq<u8>>)
    requires
        standard_field(map),
    ensures
        standard_field(cleared_map(map)),
        refill(map) == removed_rows(map),
{
    lemma_kept_rows_len(map);
    lemma_kept_rows_incomplete(map);
    let e = empty_rows(refill(map));
    assert forall|r: int| 0 <= r < cleared_map(map).len() implies (#[trigger] cleared_map(map)[r]).len() == 10 by {
        if r >= e.len() {
            let row = kept_rows(map)[r - e.len()];
            assert(cleared_map(map)[r] == row);
            assert(map.contains(row));
        }
    }
}

/// Writing a piece onto a field keeps its shape.
pub proof fn lemma_placed_map_standard(map: Seq<Seq<u8>>, shape: Seq<Seq<u8>>, x: int, y: int)
    requires
        standard_field(map),
    ensures
        standard_field(placed_map(map, shape, x, y)),
{
    assert forall|r: int| 0 <= r < placed_map(map, shape, x, y).len() implies (#[trigger] placed_map(map, shape, x, y)[r]).len() == 10 by {
        assert(map[r].len() == 10);
    }
}

/// The level never goes down as rows are counted.
pub proof fn lemma_level_after_lines_grows(level: int, lines: int, k: nat)
    ensures
        level_after_lines(level, lines, k) >= level,
    decreases k,
{
    if k > 0 {
        lemma_level_after_lines_grows(level_after_line(level, lines + 1), lines + 1, (k - 1) as nat);
    }
}

/// Counting rows that stay within the level's goal keeps the level.
proof fn lemma_level_steady(level: int, lines: int, k: nat)
    requires
        lines + k <= lines_goal(level),
    ensures
        level_after_lines(level, lines, k) == level,
    decreases k,
{
    if k > 0 {
        lemma_level_steady(level, lines + 1, (k - 1) as nat);
    }
}

/// Counting rows that stay within the goal of a level in the table never
/// leaves the table.
proof fn lemma_lines_allowed_steady(level: int, lines: int, k: nat)
    requires
        1 <= level <= 10,
        0 <= lines,
        lines + k <= lines_goal(level),
    ensures
        lines_allowed(level, lines, k),
    decreases k,
{
    if k > 0 {
        lemma_lines_allowed_steady(level, lines + 1, (k - 1) as nat);
    }
}

/// From within the level's goal, counting up to 20 more rows raises the level
/// at most once: exactly when the count passes the goal. The counting stays in
/// the level table when the level is from 1 to 9, or is 10 and the count ends
/// at most one row past the last goal.
pub proof fn lemma_level_rises_once(level: int, lines: int, k: nat)
    requires
        0 <= lines <= lines_goal(level),
        k <= 20,
    ensures
        level_after_lines(level, lines, k) == level + if lines + k > lines_goal(level) {
            1int
        } else {
            0int
        },
        1 <= level <= 10 && (level < 10 || lines + k <= lines_goal(level) + 1) ==> lines_allowed(
            level,
            lines,
            k,
        ),
    decreases k,
{
    if k > 0 {
        if lines + 1 > lines_goal(level) {
            lemma_level_steady(level + 1, lines + 1, (k - 1) as nat);
            if 1 <= level < 10 {
                lemma_lines_allowed_steady(level + 1, lines + 1, (k - 1) as nat);
            }
        } else {
            lemma_level_rises_once(level, lines + 1, (k - 1) as nat);
        }
    }
}

/// Clearing a standard field (16 rows of 10 cells) whose cleared-row count is
/// within the level's goal counts each removed row once (at most 16), raises
/// the level at most once, exactly when the count passes the goal, and leaves a
/// standard field without complete rows. At a level from 1 to 10 it stays in
/// the level table when the level is below 10 or the count ends at most one
/// row past the last goal.
pub proof fn lemma_clearing_standard_field(map: Seq<Seq<u8>>, level: int, lines: int)
    requires
        standard_field(map),
        0 <= lines <= lines_goal(level),
    ensures
        refill(map) == removed_rows(map),
        0 <= removed_rows(map) <= 16,
        level_after_lines(level, lines, refill(map)) == level + if lines + removed_rows(map)
            > lines_goal(level) {
            1int
        } else {
            0int
        },
        1 <= level <= 10 && (level < 10 || lines + removed_rows(map) <= lines_goal(level) + 1)
            ==> lines_allowed(level, lines, refill(map)),
        standard_field(cleared_map(map)),
        forall|r: int| 0 <= r < cleared_map(map).len() ==> !row_complete(#[trigger] cleared_map(map)[r]),
{
    lemma_cleared_map_standard(map);
    lemma_cleared_map_no_complete_row(map);
    lemma_kept_rows_len(map);
    lemma_level_rises_once(level, lines, refill(map));
}

/// Line clearing keeps exactly the rows that have an empty cell, in their
/// order: a row with an empty cell is never removed, and every row without one
/// is.
pub proof fn lemma_kept_rows_have_holes(map: Seq<Seq<u8>>)
    ensures
        kept_rows(map) == map.filter(
            |row: Seq<u8>| exists|i: int| 0 <= i < row.len() && #[trigger] row[i] == 0,
        ),
    decreases map.len(),
{
    let pred = |row: Seq<u8>| exists|i: int| 0 <= i < row.len() && #[trigger] row[i] == 0;
    reveal_with_fuel(Seq::<Seq<u8>>::filter, 1);
    if map.len() > 0 {
        lemma_kept_rows_have_holes(map.drop_last());
        let last = map.last();
        if row_complete(last) {
            assert(!pred(last));
        } else {
            let i = choose|i: int| 0 <= i < last.len() && !(last[i] != 0);
            assert(last[i] == 0);
            assert(pred(last));
        }
    }
}

/// Clearing rows at `level`, told in plain terms: the rows with an empty cell
/// stay in order under enough rows of 10 empty cells to make 16 rows (none if
/// there are 16 or more), and the score grows by the level for each removed
/// row, plus 1000 when no row stays.
pub proof fn lemma_clearing_plain(map: Seq<Seq<u8>>, level: int)
    ensures
        ({
            let kept = map.filter(
                |row: Seq<u8>| exists|i: int| 0 <= i < row.len() && #[trigger] row[i] == 0,
            );
            let n: int = if kept.len() < 16 { 16 - kept.len() } else { 0 };
            &&& cleared_map(map) == Seq::new(n as nat, |i: int| Seq::new(10, |j: int| 0u8)) + kept
            &&& clear_points(map, level) == (map.len() - kept.len()) * level + if kept.len() == 0 {
                1000int
            } else {
                0int
            }
        }),
{
    lemma_kept_rows_have_holes(map);
    let kept = kept_rows(map);
    let n: int = if kept.len() < 16 { 16 - kept.len() } else { 0 };
    assert(empty_rows(refill(map)) =~= Seq::new(n as nat, |i: int| Seq::new(10, |j: int| 0u8)));
}

/// Landing writes every filled cell of the piece's grid that lies in the field
/// onto the field, at the piece's row plus the cell's row and the piece's
/// column plus the cell's column, and leaves every other field cell as it was;
/// the field keeps its rows and their lengths.
pub proof fn lemma_landing_writes_piece(t: Tetris)
    requires
        t.curr_piece is Some,
    ensures
        ({
            let p = t.curr_piece->0;
            let map = t.board();
            let shape = p.shape();
            let (x, y) = (p.x as int, p.y as int);
            let landed = t.landed_map();
            &&& landed.len() == map.len()
            &&& forall|r: int| 0 <= r < map.len() ==> #[trigger] landed[r].len() == map[r].len()
            &&& forall|dy: int, dx: int|
                0 <= dy < shape.len() && 0 <= dx < shape[dy].len() && #[trigger] shape[dy][dx] != 0
                    && y + dy < map.len() && 0 <= x + dx < map[y + dy].len() ==> landed[y + dy][x
                    + dx] == shape[dy][dx]
            &&& forall|r: int, c: int|
                0 <= r < map.len() && 0 <= c < map[r].len() && !(0 <= r - y < shape.len() && 0
                    <= c - x < shape[r - y].len() && shape[r - y][c - x] != 0) ==> #[trigger] landed[r][c]
                    == map[r][c]
        }),
{
}

/// Landing a fitting 4 x 4 piece overwrites no filled field cell: every field
/// cell that landing changes was empty.
pub proof fn lemma_fitting_landing_overwrites_nothing(
    map: Seq<Seq<u8>>,
    shape: Seq<Seq<u8>>,
    x: int,
    y: int,
)
    requires
        fits(map, shape, x, y),
        y >= 0,
        shape.len() <= 4,
        forall|dy: int| 0 <= dy < shape.len() ==> #[trigger] shape[dy].len() <= 4,
    ensures
        forall|r: int, c: int|
            0 <= r < map.len() && 0 <= c < map[r].len() && #[trigger] placed_map(map, shape, x, y)[r][c]
                != map[r][c] ==> map[r][c] == 0,
{
    assert forall|r: int, c: int|
        0 <= r < map.len() && 0 <= c < map[r].len() && #[trigger] placed_map(map, shape, x, y)[r][c]
            != map[r][c] implies map[r][c] == 0 by {
        assert(covers(shape, r - y, c - x));
        assert(shape[r - y][c - x] != 0);
    }
}

/// A fresh piece of any kind fits on an empty field: a new game can always
/// place its first piece.
pub proof fn lemma_fresh_piece_fits(t: Tetrimino, kind: int)
    requires
        fresh_of_kind(t, kind),
    ensures
        fits(empty_rows(FIELD_ROWS as nat), t.shape(), t.x as int, t.y as int),
{
    assert(kind_column(kind) == 4 || kind_column(kind) == 5);
}

/// The game: the playing field (rows from top to bottom, `0` for an empty
/// cell), the level, the score, the number of cleared rows, the falling piece
/// if there is one, and the kind of the piece last drawn (7 before the first).
pub struct Tetris {
    pub game_map: Vec<Vec<u8>>,
    pub curr_level: u32,
    pub score: u32,
    pub nb_lines: u32,
    pub curr_piece: Option<Tetrimino>,
    pub prev_piece: u8,
}

impl Tetris {
    /// The field as plain sequences.
    pub open spec fn board(&self) -> Seq<Seq<u8>> {
        self.game_map.deep_view()
    }

    /// The field once the falling piece, if any, is written onto it.
    pub open spec fn landed_map(&self) -> Seq<Seq<u8>> {
        match self.curr_piece {
            Some(p) => placed_map(self.board(), p.shape(), p.x as int, p.y as int),
            None => self.board(),
        }
    }

    /// The points for landing the falling piece: the level if there is one.
    pub open spec fn landing_points(&self) -> int {
        match self.curr_piece {
            Some(p) => self.curr_level as int,
            None => 0,
        }
    }

    /// Landing the falling piece neither overflows nor panics: the piece's
    /// rotation exists and can be written onto the field, and the score, the
    /// cleared-row count and the level table suffice for the rows it clears.
    pub open spec fn landing_allowed(&self) -> bool {
        &&& self.curr_piece matches Some(p) ==> {
            &&& p.curr_state < p.states.len()
            &&& placement_safe(self.board(), p.shape(), p.x as int, p.y as int)
        }
        &&& self.score + self.landing_points() + clear_points(
            self.landed_map(),
            self.curr_level as int,
        ) <= u32::MAX
        &&& lines_allowed(
            self.curr_level as int,
            self.nb_lines as int,
            refill(self.landed_map()),
        )
    }

    /// `after` is this game once its falling piece has landed: the piece's
    /// cells are written onto the field, the complete rows cleared and the
    /// field refilled, the level scored for the piece and the cleared rows
    /// scored and counted, and no piece is falling.
    pub open spec fn landed(&self, after: Tetris) -> bool {
        &&& after.board() == cleared_map(self.landed_map())
        &&& after.score == self.score + self.landing_points() + clear_points(
            self.landed_map(),
            self.curr_level as int,
        )
        &&& after.nb_lines == self.nb_lines + refill(self.landed_map())
        &&& after.curr_level == level_after_lines(
            self.curr_level as int,
            self.nb_lines as int,
            refill(self.landed_map()),
        )
        &&& after.curr_piece is None
        &&& after.prev_piece == self.prev_piece
    }

    /// A fresh game: 16 empty rows of 10 cells, level 1, no score, no cleared
    /// row, no falling piece and no piece drawn yet.
    pub fn new() -> (t: Tetris)
        ensures
            t.board() == empty_rows(FIELD_ROWS as nat),
            standard_field(t.board()),
            t.curr_level == 1,
            t.score == 0,
            t.nb_lines == 0,
            t.curr_piece is None,
            t.prev_piece == 7,
    {
        let mut game_map: Vec<Vec<u8>> = Vec::new();
        let mut i: usize = 0;
        while i < FIELD_ROWS
            invariant
                0 <= i <= FIELD_ROWS,
                game_map.deep_view() == empty_rows(i as nat),
            decreases FIELD_ROWS - i,
        {
            let row: Vec<u8> = vec![0, 0, 0, 0, 0, 0, 0, 0, 0, 0];
            assert(row.deep_view() =~= empty_row());
            let ghost prev = game_map.deep_view();
            game_map.push(row);
            assert(game_map.deep_view() =~= prev.push(empty_row()));
            i += 1;
            assert(game_map.deep_view() =~= empty_rows(i as nat));
        }
        Tetris { game_map: game_map, curr_level: 1, score: 0, nb_lines: 0, curr_piece: None, prev_piece: 7 }
    }

    /// A fresh piece of a random kind, drawn again once when the first draw
    /// gives the kind drawn last; that kind becomes the one drawn.
    pub fn create_new_tretrimino(&mut self) -> (t: Tetrimino)
        ensures
            final(self).prev_piece < 7,
            fresh_of_kind(t, final(self).prev_piece as int),
            final(self).game_map == old(self).game_map,
            final(self).curr_level == old(self).curr_level,
            final(self).score == old(self).score,
            final(self).nb_lines == old(self).nb_lines,
            final(self).curr_piece == old(self).curr_piece,
    {
        piece::create_new_tretrimino(&mut self.prev_piece)
    }

    /// Landing a piece keeps a field of the standard shape (16 rows of 10
    /// cells), never lowers the score, the cleared-row count or the level,
    /// counts exactly the rows it clears, and leaves no complete row.
    pub proof fn lemma_landing(&self, after: Tetris)
        requires
            self.landed(after),
        ensures
            after.score >= self.score,
            after.nb_lines >= self.nb_lines,
            after.curr_level >= self.curr_level,
            forall|r: int| 0 <= r < after.board().len() ==> !row_complete(#[trigger] after.board()[r]),
            standard_field(self.board()) ==> standard_field(after.board()),
            standard_field(self.board()) ==> after.nb_lines == self.nb_lines + removed_rows(self.landed_map()),
    {
        lemma_kept_rows_len(self.landed_map());
        lemma_level_after_lines_grows(self.curr_level as int, self.nb_lines as int, refill(self.landed_map()));
        lemma_cleared_map_no_complete_row(self.landed_map());
        if standard_field(self.board()) {
            match self.curr_piece {
                Some(p) => lemma_placed_map_standard(self.board(), p.shape(), p.x as int, p.y as int),
                None => {},
            }
            lemma_cleared_map_standard(self.landed_map());
        }
    }

    /// On a fall tick: a falling piece that no longer fits where it is lands
    /// (see `make_permanent`); one that fits stays as it is. Says whether a
    /// piece landed.
    pub fn fall_step(&mut self) -> (landed: bool)
        requires
            old(self).curr_piece matches Some(p) ==> {
                &&& p.curr_state < p.states.len()
                &&& shape_ok(p.shape())
                &&& p.x + 3 <= isize::MAX
                &&& p.y + 3 <= usize::MAX
                &&& !fits(old(self).board(), p.shape(), p.x as int, p.y as int)
                    ==> old(self).landing_allowed()
            },
        ensures
            match old(self).curr_piece {
                Some(p) => {
                    &&& landed == !fits(old(self).board(), p.shape(), p.x as int, p.y as int)
                    &&& landed ==> old(self).landed(*final(self))
                    &&& !landed ==> *final(self) == *old(self)
                },
                None => !landed && *final(self) == *old(self),
            },
    {
        let mut make_permanent = false;
        match self.curr_piece.take() {
            Some(mut piece) => {
                let x = piece.x;
                let y = piece.y;
                make_permanent = !piece.change_position(&self.game_map, x, y);
                self.curr_piece = Some(piece);
            },
            None => {},
        }
        if make_permanent {
            self.make_permanent();
        }
        make_permanent
    }

    /// When no piece falls, draws a fresh one (see `create_new_tretrimino`):
    /// where it does not fit on the field the game is over and no piece falls;
    /// otherwise it becomes the falling piece. With a piece falling, nothing
    /// happens. Says whether the game is over.
    pub fn spawn(&mut self) -> (game_over: bool)
        ensures
            match old(self).curr_piece {
                Some(_) => !game_over && *final(self) == *old(self),
                None => {
                    let kind = final(self).prev_piece as int;
                    &&& kind < 7
                    &&& game_over == !fits(old(self).board(), kind_states(kind)[0], kind_column(kind), 0)
                    &&& game_over ==> final(self).curr_piece is None
                    &&& !game_over ==> (final(self).curr_piece matches Some(t) && fresh_of_kind(t, kind))
                    &&& final(self).game_map == old(self).game_map
                    &&& final(self).curr_level == old(self).curr_level
                    &&& final(self).score == old(self).score
                    &&& final(self).nb_lines == old(self).nb_lines
                },
            },
    {
        if self.curr_piece.is_none() {
            let curr_piece = self.create_new_tretrimino();
            if !curr_piece.test_curr_position(&self.game_map) {
                return true;
            }
            self.curr_piece = Some(curr_piece);
        }
        false
    }

    /// Adds `to_add` points to the score.
    pub fn update_score(&mut self, to_add: u32)
        requires
            old(self).score + to_add <= u32::MAX,
        ensures
            final(self).score == old(self).score + to_add,
            final(self).game_map == old(self).game_map,
            final(self).curr_level == old(self).curr_level,
            final(self).nb_lines == old(self).nb_lines,
            final(self).curr_piece == old(self).curr_piece,
            final(self).prev_piece == old(self).prev_piece,
    {
        self.score += to_add;
    }

    /// Goes up one level.
    pub fn increase_level(&mut self)
        requires
            old(self).curr_level < u32::MAX,
        ensures
            final(self).curr_level == old(self).curr_level + 1,
            final(self).game_map == old(self).game_map,
            final(self).score == old(self).score,
            final(self).nb_lines == old(self).nb_lines,
            final(self).curr_piece == old(self).curr_piece,
            final(self).prev_piece == old(self).prev_piece,
    {
        self.curr_level += 1;
    }

    /// Counts one more cleared row, and goes up a level when the count passes
    /// the current level's goal.
    pub fn increase_line(&mut self)
        requires
            1 <= old(self).curr_level <= 10,
            old(self).nb_lines < u32::MAX,
        ensures
            final(self).nb_lines == old(self).nb_lines + 1,
            final(self).curr_level == level_after_line(
                old(self).curr_level as int,
                old(self).nb_lines + 1,
            ),
            final(self).game_map == old(self).game_map,
            final(self).score == old(self).score,
            final(self).curr_piece == old(self).curr_piece,
            final(self).prev_piece == old(self).prev_piece,
    {
        assert(forall|i: int| 0 <= i < 10 ==> LEVEL_LINES@[i] == lines_goal(i + 1));
        self.nb_lines += 1;
        if self.nb_lines > LEVEL_LINES[self.curr_level as usize - 1] {
            self.curr_level += 1;
        }
    }

    /// Removes every complete row of the field, scores the level for each (and
    /// 1000 more when no row is left), then puts empty rows of 10 cells on top
    /// until the field has 16 rows again, counting one cleared row for each.
    pub fn check_lines(&mut self)
        requires
            old(self).score + clear_points(old(self).board(), old(self).curr_level as int)
                <= u32::MAX,
            lines_allowed(
                old(self).curr_level as int,
                old(self).nb_lines as int,
                refill(old(self).board()),
            ),
        ensures
            final(self).board() == cleared_map(old(self).board()),
            final(self).score == old(self).score + clear_points(
                old(self).board(),
                old(self).curr_level as int,
            ),
            final(self).nb_lines == old(self).nb_lines + refill(old(self).board()),
            final(self).curr_level == level_after_lines(
                old(self).curr_level as int,
                old(self).nb_lines as int,
                refill(old(self).board()),
            ),
            final(self).curr_piece == old(self).curr_piece,
            final(self).prev_piece == old(self).prev_piece,
    {
        let ghost orig = self.board();
        let ghost level = self.curr_level as int;
        let ghost mut i: int = 0;
        let mut y: usize = 0;
        let mut score_add: u32 = 0;
        proof {
            lemma_kept_rows_concat(orig.take(0), orig.skip(0));
            assert(orig.take(0) + orig.skip(0) =~= orig);
            assert(kept_rows(orig.take(0)) =~= Seq::<Seq<u8>>::empty());
            assert(self.board() =~= kept_rows(orig.take(0)) + orig.skip(0));
            lemma_kept_rows_len(orig);
        }
        while y < self.game_map.len()
            invariant
                0 <= i <= orig.len(),
                self.board() == kept_rows(orig.take(i)) + orig.skip(i),
                y == kept_rows(orig.take(i)).len(),
                score_add == (i - y) * level,
                self.curr_level == level,
                self.score == old(self).score,
                self.nb_lines == old(self).nb_lines,
                self.curr_piece == old(self).curr_piece,
                self.prev_piece == old(self).prev_piece,
                orig == old(self).board(),
                level == old(self).curr_level,
                old(self).score + clear_points(orig, level) <= u32::MAX,
            decreases self.game_map.len() - y,
        {
            proof {
                lemma_kept_rows_len(orig.take(i));
                assert(self.board()[y as int] == orig[i]);
            }
            let mut complete = true;
            let mut k: usize = 0;
            let row_len = self.game_map[y].len();
            while k < row_len
                invariant_except_break
                    complete,
                invariant
                    y < self.game_map.len(),
                    row_len == self.game_map[y as int].len(),
                    0 <= k <= row_len,
                    forall|j: int| 0 <= j < k ==> self.game_map[y as int]@[j] != 0,
                ensures
                    complete == row_complete(self.game_map[y as int]@),
                decreases row_len - k,
            {
                if self.game_map[y][k] == 0 {
                    complete = false;
                    break;
                }
                k += 1;
            }
            proof {
                assert(self.game_map[y as int].deep_view() =~= self.game_map[y as int]@);
                assert(self.board()[y as int] == self.game_map[y as int]@);
                assert(complete == row_complete(orig[i]));
                assert(orig.take(i + 1).drop_last() =~= orig.take(i));
                assert(orig.take(i + 1).last() == orig[i]);
                lemma_kept_rows_concat(orig.take(i), orig.skip(i));
                assert(orig.take(i) + orig.skip(i) =~= orig);
                lemma_kept_rows_concat(orig.take(i + 1), orig.skip(i + 1));
                assert(orig.take(i + 1) + orig.skip(i + 1) =~= orig);
                lemma_kept_rows_len(orig.skip(i + 1));
            }
            if complete == true {
                proof {
                    assert((i - y + 1) * level == (i - y) * level + level) by (nonlinear_arith);
                    assert((i + 1 - y) <= removed_rows(orig));
                    assert((i + 1 - y) * level <= removed_rows(orig) * level) by (nonlinear_arith)
                        requires
                            (i + 1 - y) <= removed_rows(orig),
                            level >= 0,
                    ;
                }
                score_add += self.curr_level;
                let ghost prev = self.board();
                self.game_map.remove(y);
                proof {
                    assert(self.board() =~= prev.remove(y as int));
                    assert(orig.skip(i).drop_first() =~= orig.skip(i + 1));
                    assert(self.board() =~= kept_rows(orig.take(i + 1)) + orig.skip(i + 1));
                }
            } else {
                y += 1;
                proof {
                    assert(self.board() =~= kept_rows(orig.take(i + 1)) + orig.skip(i + 1));
                }
            }
            proof {
                i = i + 1;
            }
        }
        proof {
            assert(orig.take(i) =~= orig);
            assert(orig.skip(i) =~= Seq::<Seq<u8>>::empty());
            assert(self.board() =~= kept_rows(orig));
        }
        if self.game_map.len() == 0 {
            score_add += 1000;
        }
        self.update_score(score_add);
        let ghost total = refill(orig);
        let ghost mut j: nat = 0;
        proof {
            assert(self.board() =~= empty_rows(0) + kept_rows(orig));
        }
        while self.game_map.len() < FIELD_ROWS
            invariant
                j <= total,
                total == refill(orig),
                self.board() == empty_rows(j) + kept_rows(orig),
                self.nb_lines == old(self).nb_lines + j,
                lines_allowed(self.curr_level as int, self.nb_lines as int, (total - j) as nat),
                level_after_lines(self.curr_level as int, self.nb_lines as int, (total - j) as nat)
                    == level_after_lines(
                    old(self).curr_level as int,
                    old(self).nb_lines as int,
                    total,
                ),
                self.score == old(self).score + clear_points(orig, old(self).curr_level as int),
                self.curr_piece == old(self).curr_piece,
                self.prev_piece == old(self).prev_piece,
            decreases FIELD_ROWS - self.game_map.len(),
        {
            assert(self.board().len() == self.game_map.len());
            assert(total - j > 0);
            self.increase_line();
            let row: Vec<u8> = vec![0, 0, 0, 0, 0, 0, 0, 0, 0, 0];
            assert(row.deep_view() =~= empty_row());
            let ghost prev = self.board();
            self.game_map.insert(0, row);
            proof {
                assert(self.board() =~= prev.insert(0, empty_row()));
                j = j + 1;
                assert(self.board() =~= empty_rows(j) + kept_rows(orig));
            }
        }
        proof {
            assert(j == total);
        }
    }

    /// Writes the filled cells of the falling piece, if any, onto the field,
    /// scores the level for it, clears the complete rows (see `check_lines`)
    /// and leaves no falling piece.
    pub fn make_permanent(&mut self)
        requires
            old(self).landing_allowed(),
        ensures
            old(self).landed(*final(self)),
    {
        let mut to_add: u32 = 0;
        if let Some(piece) = &self.curr_piece {
            let ghost orig = self.board();
            let ghost shape = piece.shape();
            let ghost px = piece.x as int;
            let ghost py = piece.y as int;
            let cs = piece.curr_state as usize;
            let mut shift_y: usize = 0;
            while shift_y < piece.states[cs].len() && piece.y + shift_y < self.game_map.len()
                invariant
                    self.curr_piece == old(self).curr_piece,
                    self.curr_piece == Some(*piece),
                    cs == piece.curr_state,
                    cs < piece.states.len(),
                    shape == piece.shapes()[cs as int],
                    px == piece.x,
                    py == piece.y,
                    orig == old(self).board(),
                    placement_safe(orig, shape, px, py),
                    0 <= shift_y <= shape.len(),
                    self.board().len() == orig.len(),
                    forall|r: int| 0 <= r < orig.len() ==> #[trigger] self.board()[r].len() == orig[r].len(),
                    forall|r: int, c: int|
                        0 <= r < orig.len() && 0 <= c < orig[r].len() ==> #[trigger] self.board()[r][c] == if r - py < shift_y {
                            placed_cell(orig, shape, px, py, r, c)
                        } else {
                            orig[r][c]
                        },
                    self.curr_level == old(self).curr_level,
                    self.score == old(self).score,
                    self.nb_lines == old(self).nb_lines,
                    self.prev_piece == old(self).prev_piece,
                decreases shape.len() - shift_y,
            {
                let mut shift_x: usize = 0;
                let r = piece.y + shift_y;
                proof {
                    assert(self.board()[r as int].len() == self.game_map[r as int]@.len());
                }
                while shift_x < piece.states[cs][shift_y].len() && (piece.x + shift_x as isize)
                    < self.game_map[r].len() as isize
                    invariant
                        self.curr_piece == old(self).curr_piece,
                        self.curr_piece == Some(*piece),
                        cs == piece.curr_state,
                        cs < piece.states.len(),
                        shape == piece.shapes()[cs as int],
                        px == piece.x,
                        py == piece.y,
                        r == py + shift_y,
                        r < orig.len(),
                        self.game_map[r as int]@.len() == orig[r as int].len(),
                        orig[r as int].len() <= isize::MAX,
                        shift_y < shape.len(),
                        orig == old(self).board(),
                        placement_safe(orig, shape, px, py),
                        0 <= shift_x <= shape[shift_y as int].len(),
                        self.board().len() == orig.len(),
                        forall|r: int| 0 <= r < orig.len() ==> #[trigger] self.board()[r].len() == orig[r].len(),
                        forall|rr: int, c: int|
                            0 <= rr < orig.len() && 0 <= c < orig[rr].len() ==> #[trigger] self.board()[rr][c] == if rr - py < shift_y || (rr == r && c - px < shift_x) {
                                placed_cell(orig, shape, px, py, rr, c)
                            } else {
                                orig[rr][c]
                            },
                        self.curr_level == old(self).curr_level,
                        self.score == old(self).score,
                        self.nb_lines == old(self).nb_lines,
                        self.prev_piece == old(self).prev_piece,
                    decreases shape[shift_y as int].len() - shift_x,
                {
                    let cell = piece.states[cs][shift_y][shift_x];
                    proof {
                        assert(piece.states[cs as int]@[shift_y as int]@[shift_x as int] == shape[shift_y as int][shift_x as int]);
                        assert(self.board()[r as int].len() == self.game_map[r as int]@.len());
                    }
                    if cell != 0 {
                        let x = piece.x + shift_x as isize;
                        assert(covers(shape, shift_y as int, shift_x as int));
                        let ghost prev = self.board();
                        let ghost prev_rows = self.game_map@;
                        self.game_map[r][x as usize] = cell;
                        proof {
                            assert(self.game_map@.len() == prev_rows.len());
                            assert(self.game_map@[r as int]@ == prev_rows[r as int]@.update(x as int, cell));
                            assert forall|i: int| 0 <= i < prev_rows.len() && i != r implies self.game_map@[i] == prev_rows[i] by {}
                            assert(self.board()[r as int] =~= prev[r as int].update(x as int, cell));
                            assert forall|i: int| 0 <= i < prev_rows.len() && i != r implies self.board()[i] == prev[i] by {}
                            assert(self.board() =~= prev.update(r as int, prev[r as int].update(x as int, cell)));
                        }
                    }
                    shift_x += 1;
                }
                proof {
                    assert forall|rr: int, c: int|
                        0 <= rr < orig.len() && 0 <= c < orig[rr].len() implies #[trigger] self.board()[rr][c] == if rr - py < shift_y + 1 {
                            placed_cell(orig, shape, px, py, rr, c)
                        } else {
                            orig[rr][c]
                        } by {
                        if rr == r && c - px >= shift_x {
                            assert(!covers(shape, rr - py, c - px));
                        }
                    }
                }
                shift_y += 1;
            }
            proof {
                assert forall|rr: int, c: int|
                    0 <= rr < orig.len() && 0 <= c < orig[rr].len() implies #[trigger] self.board()[rr][c] == placed_cell(orig, shape, px, py, rr, c) by {
                    if rr - py >= shift_y {
                        assert(!covers(shape, rr - py, c - px));
                    }
                }
            }
            to_add += self.curr_level;
            proof {
                assert forall|rr: int| 0 <= rr < orig.len() implies #[trigger] self.board()[rr]
                    =~= placed_map(orig, shape, px, py)[rr] by {}
                assert(self.board() =~= placed_map(orig, shape, px, py));
            }
        }
        proof {
            lemma_kept_rows_len(old(self).landed_map());
            assert(self.board() == old(self).landed_map());
        }
        self.update_score(to_add);
        self.check_lines();
        self.curr_piece = None;
    }
}

/// The fall interval of `level` (1 to 10), in milliseconds.
pub open spec fn level_time(level: int) -> int {
    LEVEL_TIMES@[level - 1] as int
}

/// Whether the fall interval of the game's level has passed, given the time
/// since the fall timer was last restarted as whole seconds and the nanoseconds
/// beyond them; `None` (the clock went back) counts as not passed. The seconds
/// are taken modulo 2^32 before they are turned into milliseconds.
pub fn is_tijd_over(tetris: &Tetris, elapsed: Option<(u64, u32)>) -> (r: bool)
    requires
        1 <= tetris.curr_level <= 10,
        elapsed matches Some((secs, nanos)) ==> (secs as u32) * 1000 + nanos / 1_000_000
            <= u32::MAX,
    ensures
        r == match elapsed {
            Some((secs, nanos)) => (secs as u32) * 1000 + nanos / 1_000_000 > level_time(
                tetris.curr_level as int,
            ),
            None => false,
        },
{
    match elapsed {
        Some((secs, nanos)) => {
            let mils = secs as u32 * 1000 + nanos / 1_000_000;
            mils > LEVEL_TIMES[tetris.curr_level as usize - 1]
        },
        None => false,
    }
}

} // verus!
