//! Falling pieces: their rotation states, and how they are tested against
//! and moved over the playing field.
use vstd::prelude::*;

verus! {

/// A falling piece. `states` holds every rotation of the piece, each a grid
/// of cells in which `0` is empty; `curr_state` picks the rotation in use,
/// and (`x`, `y`) is the field position of the grid's top-left cell.
pub struct Tetrimino {
    pub states: Vec<Vec<Vec<u8>>>,
    pub x: isize,
    pub y: usize,
    pub curr_state: u8,
}

/// The columns by which a rotation tries to shift the piece, in the order tried.
pub open spec fn kick(i: int) -> int {
    seq![0int, -1, 1, -2, 2, -3][i]
}

/// A rotation grid holds at least the 4 x 4 cells that a position test reads.
pub open spec fn shape_ok(shape: Seq<Seq<u8>>) -> bool {
    &&& shape.len() >= 4
    &&& forall|r: int| 0 <= r < 4 ==> #[trigger] shape[r].len() >= 4
}

/// A rotation grid has a filled cell among its first 4 x 4 cells.
pub open spec fn shape_solid(shape: Seq<Seq<u8>>) -> bool {
    exists|dy: int, dx: int| 0 <= dy < 4 && 0 <= dx < 4 && #[trigger] shape[dy][dx] != 0
}

/// The piece grid `shape`, with its top-left cell at column `x` and row `y`,
/// lies on the field `map` with every filled cell inside the field and on an
/// empty field cell.
pub open spec fn fits(map: Seq<Seq<u8>>, shape: Seq<Seq<u8>>, x: int, y: int) -> bool {
    forall|dy: int, dx: int|
        0 <= dy < 4 && 0 <= dx < 4 && #[trigger] shape[dy][dx] != 0 ==> {
            &&& y + dy < map.len()
            &&& 0 <= x + dx < map[y + dy].len()
            &&& map[y + dy][x + dx] == 0
        }
}

/// A grid with a filled cell fits only at a row above the field's end.
pub proof fn lemma_fits_in_field(map: Seq<Seq<u8>>, shape: Seq<Seq<u8>>, x: int, y: int)
    requires
        shape_solid(shape),
        fits(map, shape, x, y),
        y >= 0,
    ensures
        y < map.len(),
{
    let (dy, dx) = choose|dy: int, dx: int| 0 <= dy < 4 && 0 <= dx < 4 && #[trigger] shape[dy][dx] != 0;
    assert(shape[dy][dx] != 0);
}

/// The first kick, from the `i`-th on, at which `shape` fits, if any.
pub open spec fn first_fit(map: Seq<Seq<u8>>, shape: Seq<Seq<u8>>, x: int, y: int, i: int) -> Option<
    int,
>
    decreases 6 - i,
{
    if i >= 6 || i < 0 {
        None
    } else if fits(map, shape, x + kick(i), y) {
        Some(i)
    } else {
        first_fit(map, shape, x, y, i + 1)
    }
}

/// A kick found from the `i`-th on is one of the six, and shifts by -3 to 2
/// columns.
pub proof fn lemma_first_fit_range(map: Seq<Seq<u8>>, shape: Seq<Seq<u8>>, x: int, y: int, i: int)
    ensures
        first_fit(map, shape, x, y, i) matches Some(k) ==> {
            &&& 0 <= k < 6
            &&& -3 <= kick(k) <= 2
        },
    decreases 6 - i,
{
    if 0 <= i < 6 && !fits(map, shape, x + kick(i), y) {
        lemma_first_fit_range(map, shape, x, y, i + 1);
    }
    match first_fit(map, shape, x, y, i) {
        Some(k) => {
            assert(0 <= k < 6);
            assert(k == 0 || k == 1 || k == 2 || k == 3 || k == 4 || k == 5);
        },
        None => {},
    }
}

/// The kick that a rotation takes is one at which the rotated piece fits, and
/// it fits at none of the kicks tried before; with no such kick it fits at none.
pub proof fn lemma_first_fit_fits(map: Seq<Seq<u8>>, shape: Seq<Seq<u8>>, x: int, y: int, i: int)
    requires
        0 <= i,
    ensures
        match first_fit(map, shape, x, y, i) {
            Some(k) => fits(map, shape, x + kick(k), y) && forall|j: int|
                i <= j < k ==> !fits(map, shape, x + kick(j), y),
            None => forall|j: int| i <= j < 6 ==> !fits(map, shape, x + kick(j), y),
        },
    decreases 6 - i,
{
    if i < 6 && !fits(map, shape, x + kick(i), y) {
        lemma_first_fit_fits(map, shape, x, y, i + 1);
    }
}

/// The rotation state that follows `state` among `count` states.
pub open spec fn next_state(state: int, count: int) -> int {
    if state + 1 >= count {
        0
    } else {
        state + 1
    }
}

/// A position fits only if every filled cell of the piece's first 4 x 4
/// cells lies inside the field on an empty cell of its own row and column.
pub proof fn lemma_fit_cells_are_free(map: Seq<Seq<u8>>, shape: Seq<Seq<u8>>, x: int, y: int, dy: int, dx: int)
    requires
        fits(map, shape, x, y),
        0 <= dy < 4,
        0 <= dx < 4,
        shape[dy][dx] != 0,
    ensures
        y + dy < map.len(),
        0 <= x + dx < map[y + dy].len(),
        map[y + dy][x + dx] == 0,
{
}

/// A filled piece cell on a filled field cell, or outside the field, blocks
/// the position; where no filled cell among the first 4 x 4 is blocked, the
/// position fits.
pub proof fn lemma_blocked_cell_blocks(map: Seq<Seq<u8>>, shape: Seq<Seq<u8>>, x: int, y: int)
    ensures
        (exists|dy: int, dx: int|
            0 <= dy < 4 && 0 <= dx < 4 && #[trigger] shape[dy][dx] != 0 && !(y + dy < map.len() && 0
                <= x + dx < map[y + dy].len() && map[y + dy][x + dx] == 0)) <==> !fits(map, shape, x, y),
{
}

/// A turn tries the columns `x`, `x - 1`, `x + 1`, `x - 2`, `x + 2`, `x - 3`
/// in this order, and the next rotation goes to the first one where it fits;
/// where it fits at none, nothing changes.
pub proof fn lemma_turn_kick_order(map: Seq<Seq<u8>>, shapes: Seq<Seq<Seq<u8>>>, state: int, x: int, y: int)
    ensures
        ({
            let tmp = next_state(state, shapes.len() as int);
            let g = shapes[tmp];
            turned(map, shapes, state, x, y) == if fits(map, g, x, y) {
                (tmp, x)
            } else if fits(map, g, x - 1, y) {
                (tmp, x - 1)
            } else if fits(map, g, x + 1, y) {
                (tmp, x + 1)
            } else if fits(map, g, x - 2, y) {
                (tmp, x - 2)
            } else if fits(map, g, x + 2, y) {
                (tmp, x + 2)
            } else if fits(map, g, x - 3, y) {
                (tmp, x - 3)
            } else {
                (state, x)
            }
        }),
{
    reveal_with_fuel(first_fit, 7);
    assert(kick(0) == 0 && kick(1) == -1 && kick(2) == 1 && kick(3) == -2 && kick(4) == 2 && kick(5)
        == -3);
}

/// The rotation state and column that one turn gives a piece at rotation
/// `state`, column `x` and row `y` of `map`, with rotation grids `shapes`: the
/// next rotation at the first kick where it fits, or no change where it fits at
/// none.
pub open spec fn turned(map: Seq<Seq<u8>>, shapes: Seq<Seq<Seq<u8>>>, state: int, x: int, y: int) -> (int, int) {
    let tmp = next_state(state, shapes.len() as int);
    match first_fit(map, shapes[tmp], x, y, 0) {
        Some(i) => (tmp, x + kick(i)),
        None => (state, x),
    }
}

/// The rotation state and column after `k` turns in a row.
pub open spec fn turns(map: Seq<Seq<u8>>, shapes: Seq<Seq<Seq<u8>>>, state: int, x: int, y: int, k: nat) -> (int, int)
    decreases k,
{
    if k == 0 {
        (state, x)
    } else {
        let prev = turns(map, shapes, state, x, y, (k - 1) as nat);
        turned(map, shapes, prev.0, prev.1, y)
    }
}

/// Where every rotation fits in place, `j` turns (at most one per rotation)
/// advance the rotation by `j`, wrapping past the last, and keep the column.
proof fn lemma_turns_in_place(map: Seq<Seq<u8>>, shapes: Seq<Seq<Seq<u8>>>, state: int, x: int, y: int, j: nat)
    requires
        0 <= state < shapes.len(),
        j <= shapes.len(),
        forall|s: int| 0 <= s < shapes.len() ==> #[trigger] fits(map, shapes[s], x, y),
    ensures
        turns(map, shapes, state, x, y, j) == (
            if state + j < shapes.len() {
                state + j
            } else {
                state + j - shapes.len()
            },
            x,
        ),
    decreases j,
{
    if j > 0 {
        lemma_turns_in_place(map, shapes, state, x, y, (j - 1) as nat);
        let prev = turns(map, shapes, state, x, y, (j - 1) as nat);
        let tmp = next_state(prev.0, shapes.len() as int);
        assert(fits(map, shapes[tmp], x, y));
        assert(x + kick(0) == x);
    }
}

/// As many turns as the piece has rotations, each fitting in place, bring the
/// piece back to its rotation and column.
pub proof fn lemma_full_turn_restores(map: Seq<Seq<u8>>, shapes: Seq<Seq<Seq<u8>>>, state: int, x: int, y: int)
    requires
        0 <= state < shapes.len(),
        forall|s: int| 0 <= s < shapes.len() ==> #[trigger] fits(map, shapes[s], x, y),
    ensures
        turns(map, shapes, state, x, y, shapes.len()) == (state, x),
{
    lemma_turns_in_place(map, shapes, state, x, y, shapes.len());
}

/// Freeing cells of the field never blocks a position that fit.
pub proof fn lemma_fits_after_freeing(
    map: Seq<Seq<u8>>,
    freed: Seq<Seq<u8>>,
    shape: Seq<Seq<u8>>,
    x: int,
    y: int,
)
    requires
        fits(map, shape, x, y),
        y >= 0,
        freed.len() == map.len(),
        forall|r: int| 0 <= r < map.len() ==> #[trigger] freed[r].len() == map[r].len(),
        forall|r: int, c: int|
            0 <= r < map.len() && 0 <= c < map[r].len() && #[trigger] freed[r][c] != 0 ==> map[r][c]
                != 0,
    ensures
        fits(freed, shape, x, y),
{
    assert forall|dy: int, dx: int|
        0 <= dy < 4 && 0 <= dx < 4 && #[trigger] shape[dy][dx] != 0 implies {
            &&& y + dy < freed.len()
            &&& 0 <= x + dx < freed[y + dy].len()
            &&& freed[y + dy][x + dx] == 0
        } by {
        assert(freed[y + dy].len() == map[y + dy].len());
        if freed[y + dy][x + dx] != 0 {
            assert(map[y + dy][x + dx] != 0);
        }
    }
}

/// A piece that fits where it is still fits after a move, since it moves only
/// to a place where it fits.
pub proof fn lemma_move_keeps_fit(map: Seq<Seq<u8>>, shape: Seq<Seq<u8>>, x: int, y: int, new_x: int, new_y: int)
    requires
        fits(map, shape, x, y),
    ensures
        ({
            let moved = fits(map, shape, new_x, new_y);
            fits(map, shape, if moved { new_x } else { x }, if moved { new_y } else { y })
        }),
{
}

impl Tetrimino {
    /// The rotation grids of the piece as plain sequences.
    pub open spec fn shapes(&self) -> Seq<Seq<Seq<u8>>> {
        self.states.deep_view()
    }

    /// The grid of the rotation in use.
    pub open spec fn shape(&self) -> Seq<Seq<u8>> {
        self.shapes()[self.curr_state as int]
    }

    /// Every rotation grid can be tested and holds a filled cell, and there is
    /// at least one.
    pub open spec fn shapes_ok(&self) -> bool {
        &&& self.states.len() >= 1
        &&& forall|s: int| 0 <= s < self.states.len() ==> shape_ok(#[trigger] self.shapes()[s])
        &&& forall|s: int| 0 <= s < self.states.len() ==> shape_solid(#[trigger] self.shapes()[s])
    }

    /// The piece is well formed: its grids are, and the rotation in use is one of them.
    pub open spec fn wf(&self) -> bool {
        &&& self.shapes_ok()
        &&& self.curr_state < self.states.len()
        &&& self.states.len() <= 255
    }

    /// Whether the rotation `tmp_state` of the piece fits on `game_map` with its
    /// top-left cell at column `x`, row `y`.
    pub fn test_position(&self, game_map: &[Vec<u8>], tmp_state: usize, x: isize, y: usize) -> (r:
        bool)
        requires
            tmp_state < self.states.len(),
            shape_ok(self.shapes()[tmp_state as int]),
            x + 3 <= isize::MAX,
            y + 3 <= usize::MAX,
        ensures
            r == fits(game_map.deep_view(), self.shapes()[tmp_state as int], x as int, y as int),
    {
        let ghost map = game_map.deep_view();
        let ghost shape = self.shapes()[tmp_state as int];
        assert(shape[0].len() >= 4 && shape[1].len() >= 4 && shape[2].len() >= 4 && shape[3].len()
            >= 4);
        for decal_y in 0..4usize
            invariant
                tmp_state < self.states.len(),
                shape == self.shapes()[tmp_state as int],
                map == game_map.deep_view(),
                shape_ok(shape),
                x + 3 <= isize::MAX,
                y + 3 <= usize::MAX,
                forall|dy: int, dx: int|
                    0 <= dy < decal_y && 0 <= dx < 4 && #[trigger] shape[dy][dx] != 0 ==> {
                        &&& y + dy < map.len()
                        &&& 0 <= x + dx < map[y + dy].len()
                        &&& map[y + dy][x + dx] == 0
                    },
        {
            for decal_x in 0..4isize
                invariant
                    0 <= decal_y < 4,
                    tmp_state < self.states.len(),
                    shape == self.shapes()[tmp_state as int],
                    map == game_map.deep_view(),
                    shape_ok(shape),
                    x + 3 <= isize::MAX,
                    y + 3 <= usize::MAX,
                    forall|dy: int, dx: int|
                        0 <= dy < decal_y && 0 <= dx < 4 && #[trigger] shape[dy][dx] != 0 ==> {
                            &&& y + dy < map.len()
                            &&& 0 <= x + dx < map[y + dy].len()
                            &&& map[y + dy][x + dx] == 0
                        },
                    forall|dx: int|
                        0 <= dx < decal_x && #[trigger] shape[decal_y as int][dx] != 0 ==> {
                            &&& y + decal_y < map.len()
                            &&& 0 <= x + dx < map[y + decal_y].len()
                            &&& map[y + decal_y][x + dx] == 0
                        },
            {
                let x = x + decal_x;
                assert(shape_ok(shape));
                assert(shape[decal_y as int].len() >= 4);
                if self.states[tmp_state][decal_y][decal_x as usize] != 0 && (y + decal_y
                    >= game_map.len() || x < 0 || x as usize >= game_map[y + decal_y].len()
                    || game_map[y + decal_y][x as usize] != 0) {
                    assert(shape[decal_y as int][decal_x as int] != 0);
                    assert(!fits(map, shape, x - decal_x, y as int));
                    return false;
                }
            }
        }
        true
    }

    /// Whether the piece, in its current rotation and position, fits on `game_map`.
    pub fn test_curr_position(&self, game_map: &[Vec<u8>]) -> (r: bool)
        requires
            self.curr_state < self.states.len(),
            shape_ok(self.shape()),
            self.x + 3 <= isize::MAX,
            self.y + 3 <= usize::MAX,
        ensures
            r == fits(game_map.deep_view(), self.shape(), self.x as int, self.y as int),
    {
        self.test_position(game_map, self.curr_state as usize, self.x, self.y)
    }

    /// Moves the piece to column `new_x`, row `new_y` when it fits there, and
    /// says whether it moved; otherwise the piece stays as it was.
    pub fn change_position(&mut self, game_map: &[Vec<u8>], new_x: isize, new_y: usize) -> (r:
        bool)
        requires
            old(self).curr_state < old(self).states.len(),
            shape_ok(old(self).shape()),
            new_x + 3 <= isize::MAX,
            new_y + 3 <= usize::MAX,
        ensures
            r == fits(game_map.deep_view(), old(self).shape(), new_x as int, new_y as int),
            r ==> final(self).x == new_x && final(self).y == new_y,
            !r ==> final(self).x == old(self).x && final(self).y == old(self).y,
            final(self).states == old(self).states,
            final(self).curr_state == old(self).curr_state,
    {
        if self.test_position(game_map, self.curr_state as usize, new_x, new_y) == true {
            self.x = new_x as isize;
            self.y = new_y;
            true
        } else {
            false
        }
    }

    /// Turns the piece to its next rotation (after the last comes the first),
    /// shifting it by the first of the columns 0, -1, 1, -2, 2, -3 at which the
    /// new rotation fits on `game_map`. Where it fits at none, the piece stays
    /// as it was.
    pub fn rotate(&mut self, game_map: &[Vec<u8>])
        requires
            old(self).curr_state < 255,
            old(self).states.len() >= 1,
            shape_ok(
                old(self).shapes()[next_state(
                    old(self).curr_state as int,
                    old(self).states.len() as int,
                )],
            ),
            isize::MIN + 3 <= old(self).x,
            old(self).x + 5 <= isize::MAX,
            old(self).y + 3 <= usize::MAX,
        ensures
            final(self).states == old(self).states,
            final(self).y == old(self).y,
            (final(self).curr_state as int, final(self).x as int) == turned(
                game_map.deep_view(),
                old(self).shapes(),
                old(self).curr_state as int,
                old(self).x as int,
                old(self).y as int,
            ),
    {
        let mut tmp_state = self.curr_state + 1;
        if tmp_state as usize >= self.states.len() {
            tmp_state = 0;
        }
        let ghost map = game_map.deep_view();
        let ghost shape = self.shapes()[tmp_state as int];
        let ghost x0 = self.x as int;
        assert(shape_ok(shape));
        let x_pos: [isize; 6] = [0, -1, 1, -2, 2, -3];
        assert(forall|k: int| 0 <= k < 6 ==> x_pos@[k] == kick(k));
        let mut i: usize = 0;
        while i < 6
            invariant
                0 <= i <= 6,
                self.states == old(self).states,
                self.y == old(self).y,
                self.x == old(self).x,
                self.curr_state == old(self).curr_state,
                shape == self.shapes()[tmp_state as int],
                tmp_state < self.states.len(),
                tmp_state == next_state(old(self).curr_state as int, old(self).states.len() as int),
                shape_ok(shape),
                map == game_map.deep_view(),
                x0 == self.x,
                isize::MIN + 3 <= x0,
                x0 + 5 <= isize::MAX,
                self.y + 3 <= usize::MAX,
                forall|k: int| 0 <= k < 6 ==> x_pos@[k] == kick(k),
                first_fit(map, shape, x0, self.y as int, 0) == first_fit(
                    map,
                    shape,
                    x0,
                    self.y as int,
                    i as int,
                ),
            decreases 6 - i,
        {
            let offset = x_pos[i];
            if self.test_position(game_map, tmp_state as usize, self.x + offset, self.y) == true {
                self.curr_state = tmp_state;
                self.x += offset;
                return;
            }
            i += 1;
        }
    }
}

/// A generator of one kind of piece.
pub trait TetriminoGenerator {
    /// A fresh piece of this kind at the top of the field, in its first rotation.
    fn new() -> (t: Tetrimino)
        ensures
            t.wf(),
            t.y == 0,
            t.curr_state == 0,
    ;
}

/// The rotations of the I piece.
pub open spec fn i_states() -> Seq<Seq<Seq<u8>>> {
    seq![
        seq![
            seq![1u8, 1, 1, 1],
            seq![0u8, 0, 0, 0],
            seq![0u8, 0, 0, 0],
            seq![0u8, 0, 0, 0],
        ],
        seq![
            seq![0u8, 1, 0, 0],
            seq![0u8, 1, 0, 0],
            seq![0u8, 1, 0, 0],
            seq![0u8, 1, 0, 0],
        ],
    ]
}

/// Generates the I piece.
pub struct TetriminoI;

impl TetriminoGenerator for TetriminoI {
    fn new() -> (t: Tetrimino)
        ensures
            t.shapes() == i_states(),
            t.x == 4,
    {
        let t = Tetrimino {
            states: vec![
                vec![
                    vec![1, 1, 1, 1],
                    vec![0, 0, 0, 0],
                    vec![0, 0, 0, 0],
                    vec![0, 0, 0, 0],
                ],
                vec![
                    vec![0, 1, 0, 0],
                    vec![0, 1, 0, 0],
                    vec![0, 1, 0, 0],
                    vec![0, 1, 0, 0],
                ],
            ],
            x: 4,
            y: 0,
            curr_state: 0,
        };
        proof {
            assert(t.shapes() =~~= i_states());
            assert(t.shapes()[0][0][0] != 0);
            assert(t.shapes()[1][0][1] != 0);
        }
        t
    }
}

/// The rotations of the J piece.
pub open spec fn j_states() -> Seq<Seq<Seq<u8>>> {
    seq![
        seq![
            seq![2u8, 2, 2, 0],
            seq![2u8, 0, 0, 0],
            seq![0u8, 0, 0, 0],
            seq![0u8, 0, 0, 0],
        ],
        seq![
            seq![2u8, 2, 0, 0],
            seq![0u8, 2, 0, 0],
            seq![0u8, 2, 0, 0],
            seq![0u8, 0, 0, 0],
        ],
        seq![
            seq![0u8, 0, 2, 0],
            seq![2u8, 2, 2, 0],
            seq![0u8, 0, 0, 0],
            seq![0u8, 0, 0, 0],
        ],
        seq![
            seq![2u8, 0, 0, 0],
            seq![2u8, 0, 0, 0],
            seq![2u8, 2, 0, 0],
            seq![0u8, 0, 0, 0],
        ],
    ]
}

/// Generates the J piece.
pub struct TetriminoJ;

impl TetriminoGenerator for TetriminoJ {
    fn new() -> (t: Tetrimino)
        ensures
            t.shapes() == j_states(),
            t.x == 4,
    {
        let t = Tetrimino {
            states: vec![
                vec![
                    vec![2, 2, 2, 0],
                    vec![2, 0, 0, 0],
                    vec![0, 0, 0, 0],
                    vec![0, 0, 0, 0],
                ],
                vec![
                    vec![2, 2, 0, 0],
                    vec![0, 2, 0, 0],
                    vec![0, 2, 0, 0],
                    vec![0, 0, 0, 0],
                ],
                vec![
                    vec![0, 0, 2, 0],
                    vec![2, 2, 2, 0],
                    vec![0, 0, 0, 0],
                    vec![0, 0, 0, 0],
                ],
                vec![
                    vec![2, 0, 0, 0],
                    vec![2, 0, 0, 0],
                    vec![2, 2, 0, 0],
                    vec![0, 0, 0, 0],
                ],
            ],
            x: 4,
            y: 0,
            curr_state: 0,
        };
        proof {
            assert(t.shapes() =~~= j_states());
            assert(t.shapes()[0][0][0] != 0);
            assert(t.shapes()[1][0][0] != 0);
            assert(t.shapes()[2][0][2] != 0);
            assert(t.shapes()[3][0][0] != 0);
        }
        t
    }
}

/// The rotations of the L piece.
pub open spec fn l_states() -> Seq<Seq<Seq<u8>>> {
    seq![
        seq![
            seq![3u8, 3, 3, 0],
            seq![0u8, 0, 3, 0],
            seq![0u8, 0, 0, 0],
            seq![0u8, 0, 0, 0],
        ],
        seq![
            seq![0u8, 3, 0, 0],
            seq![0u8, 3, 0, 0],
            seq![3u8, 3, 0, 0],
            seq![0u8, 0, 0, 0],
        ],
        seq![
            seq![3u8, 0, 0, 0],
            seq![3u8, 3, 3, 0],
            seq![0u8, 0, 0, 0],
            seq![0u8, 0, 0, 0],
        ],
        seq![
            seq![3u8, 3, 0, 0],
            seq![3u8, 0, 0, 0],
            seq![3u8, 0, 0, 0],
            seq![0u8, 0, 0, 0],
        ],
    ]
}

/// Generates the L piece.
pub struct TetriminoL;

impl TetriminoGenerator for TetriminoL {
    fn new() -> (t: Tetrimino)
        ensures
            t.shapes() == l_states(),
            t.x == 4,
    {
        let t = Tetrimino {
            states: vec![
                vec![
                    vec![3, 3, 3, 0],
                    vec![0, 0, 3, 0],
                    vec![0, 0, 0, 0],
                    vec![0, 0, 0, 0],
                ],
                vec![
                    vec![0, 3, 0, 0],
                    vec![0, 3, 0, 0],
                    vec![3, 3, 0, 0],
                    vec![0, 0, 0, 0],
                ],
                vec![
                    vec![3, 0, 0, 0],
                    vec![3, 3, 3, 0],
                    vec![0, 0, 0, 0],
                    vec![0, 0, 0, 0],
                ],
                vec![
                    vec![3, 3, 0, 0],
                    vec![3, 0, 0, 0],
                    vec![3, 0, 0, 0],
                    vec![0, 0, 0, 0],
                ],
            ],
            x: 4,
            y: 0,
            curr_state: 0,
        };
        proof {
            assert(t.shapes() =~~= l_states());
            assert(t.shapes()[0][0][0] != 0);
            assert(t.shapes()[1][0][1] != 0);
            assert(t.shapes()[2][0][0] != 0);
            assert(t.shapes()[3][0][0] != 0);
        }
        t
    }
}

/// The rotations of the O piece.
pub open spec fn o_states() -> Seq<Seq<Seq<u8>>> {
    seq![
        seq![
            seq![4u8, 4, 0, 0],
            seq![4u8, 4, 0, 0],
            seq![0u8, 0, 0, 0],
            seq![0u8, 0, 0, 0],
        ],
    ]
}

/// Generates the O piece.
pub struct TetriminoO;

impl TetriminoGenerator for TetriminoO {
    fn new() -> (t: Tetrimino)
        ensures
            t.shapes() == o_states(),
            t.x == 5,
    {
        let t = Tetrimino {
            states: vec![
                vec![
                    vec![4, 4, 0, 0],
                    vec![4, 4, 0, 0],
                    vec![0, 0, 0, 0],
                    vec![0, 0, 0, 0],
                ],
            ],
            x: 5,
            y: 0,
            curr_state: 0,
        };
        proof {
            assert(t.shapes() =~~= o_states());
            assert(t.shapes()[0][0][0] != 0);
        }
        t
    }
}

/// The rotations of the S piece.
pub open spec fn s_states() -> Seq<Seq<Seq<u8>>> {
    seq![
        seq![
            seq![0u8, 5, 5, 0],
            seq![5u8, 5, 0, 0],
            seq![0u8, 0, 0, 0],
            seq![0u8, 0, 0, 0],
        ],
        seq![
            seq![0u8, 5, 0, 0],
            seq![0u8, 5, 5, 0],
            seq![0u8, 0, 5, 0],
            seq![0u8, 0, 0, 0],
        ],
    ]
}

/// Generates the S piece.
pub struct TetriminoS;

impl TetriminoGenerator for TetriminoS {
    fn new() -> (t: Tetrimino)
        ensures
            t.shapes() == s_states(),
            t.x == 4,
    {
        let t = Tetrimino {
            states: vec![
                vec![
                    vec![0, 5, 5, 0],
                    vec![5, 5, 0, 0],
                    vec![0, 0, 0, 0],
                    vec![0, 0, 0, 0],
                ],
                vec![
                    vec![0, 5, 0, 0],
                    vec![0, 5, 5, 0],
                    vec![0, 0, 5, 0],
                    vec![0, 0, 0, 0],
                ],
            ],
            x: 4,
            y: 0,
            curr_state: 0,
        };
        proof {
            assert(t.shapes() =~~= s_states());
            assert(t.shapes()[0][0][1] != 0);
            assert(t.shapes()[1][0][1] != 0);
        }
        t
    }
}

/// The rotations of the Z piece.
pub open spec fn z_states() -> Seq<Seq<Seq<u8>>> {
    seq![
        seq![
            seq![6u8, 6, 0, 0],
            seq![0u8, 6, 6, 0],
            seq![0u8, 0, 0, 0],
            seq![0u8, 0, 0, 0],
        ],
        seq![
            seq![0u8, 0, 6, 0],
            seq![0u8, 6, 6, 0],
            seq![0u8, 6, 0, 0],
            seq![0u8, 0, 0, 0],
        ],
    ]
}

/// Generates the Z piece.
pub struct TetriminoZ;

impl TetriminoGenerator for TetriminoZ {
    fn new() -> (t: Tetrimino)
        ensures
            t.shapes() == z_states(),
            t.x == 4,
    {
        let t = Tetrimino {
            states: vec![
                vec![
                    vec![6, 6, 0, 0],
                    vec![0, 6, 6, 0],
                    vec![0, 0, 0, 0],
                    vec![0, 0, 0, 0],
                ],
                vec![
                    vec![0, 0, 6, 0],
                    vec![0, 6, 6, 0],
                    vec![0, 6, 0, 0],
                    vec![0, 0, 0, 0],
                ],
            ],
            x: 4,
            y: 0,
            curr_state: 0,
        };
        proof {
            assert(t.shapes() =~~= z_states());
            assert(t.shapes()[0][0][0] != 0);
            assert(t.shapes()[1][0][2] != 0);
        }
        t
    }
}

/// The rotations of the T piece.
pub open spec fn t_states() -> Seq<Seq<Seq<u8>>> {
    seq![
        seq![
            seq![7u8, 7, 7, 0],
            seq![0u8, 7, 0, 0],
            seq![0u8, 0, 0, 0],
            seq![0u8, 0, 0, 0],
        ],
        seq![
            seq![0u8, 7, 0, 0],
            seq![7u8, 7, 0, 0],
            seq![0u8, 7, 0, 0],
            seq![0u8, 0, 0, 0],
        ],
        seq![
            seq![0u8, 7, 0, 0],
            seq![7u8, 7, 7, 0],
            seq![0u8, 0, 0, 0],
            seq![0u8, 0, 0, 0],
        ],
        seq![
            seq![0u8, 7, 0, 0],
            seq![0u8, 7, 7, 0],
            seq![0u8, 7, 0, 0],
            seq![0u8, 0, 0, 0],
        ],
    ]
}

/// Generates the T piece.
pub struct TetriminoT;

impl TetriminoGenerator for TetriminoT {
    fn new() -> (t: Tetrimino)
        ensures
            t.shapes() == t_states(),
            t.x == 4,
    {
        let t = Tetrimino {
            states: vec![
                vec![
                    vec![7, 7, 7, 0],
                    vec![0, 7, 0, 0],
                    vec![0, 0, 0, 0],
                    vec![0, 0, 0, 0],
                ],
                vec![
                    vec![0, 7, 0, 0],
                    vec![7, 7, 0, 0],
                    vec![0, 7, 0, 0],
                    vec![0, 0, 0, 0],
                ],
                vec![
                    vec![0, 7, 0, 0],
                    vec![7, 7, 7, 0],
                    vec![0, 0, 0, 0],
                    vec![0, 0, 0, 0],
                ],
                vec![
                    vec![0, 7, 0, 0],
                    vec![0, 7, 7, 0],
                    vec![0, 7, 0, 0],
                    vec![0, 0, 0, 0],
                ],
            ],
            x: 4,
            y: 0,
            curr_state: 0,
        };
        proof {
            assert(t.shapes() =~~= t_states());
            assert(t.shapes()[0][0][0] != 0);
            assert(t.shapes()[1][0][1] != 0);
            assert(t.shapes()[2][0][1] != 0);
            assert(t.shapes()[3][0][1] != 0);
        }
        t
    }
}

/// The rotations of the piece of kind `kind`: 0 to 6 stand for I, J, L, O, S,
/// Z and T.
pub open spec fn kind_states(kind: int) -> Seq<Seq<Seq<u8>>> {
    if kind == 0 {
        i_states()
    } else if kind == 1 {
        j_states()
    } else if kind == 2 {
        l_states()
    } else if kind == 3 {
        o_states()
    } else if kind == 4 {
        s_states()
    } else if kind == 5 {
        z_states()
    } else {
        t_states()
    }
}

/// The column at which a fresh piece of kind `kind` starts.
pub open spec fn kind_column(kind: int) -> int {
    if kind == 3 {
        5
    } else {
        4
    }
}

/// `t` is a fresh piece of kind `kind`, at the top of the field in its first rotation.
pub open spec fn fresh_of_kind(t: Tetrimino, kind: int) -> bool {
    &&& t.shapes() == kind_states(kind)
    &&& t.x == kind_column(kind)
    &&& t.y == 0
    &&& t.curr_state == 0
    &&& t.wf()
}

/// Each kind marks its cells with its own number plus one: the second cell of
/// the first row of its first rotation holds `kind + 1`. So a fresh piece shows
/// which kind it is, and pieces of different kinds differ.
pub proof fn lemma_kind_marks(t: Tetrimino, kind: int, other: int)
    requires
        0 <= kind < 7,
        fresh_of_kind(t, kind),
    ensures
        kind_states(kind)[0][0][1] == kind + 1,
        t.shapes()[0][0][1] == kind + 1,
        0 <= other < 7 && fresh_of_kind(t, other) ==> other == kind,
{
    assert(i_states()[0][0][1] == 1);
    assert(j_states()[0][0][1] == 2);
    assert(l_states()[0][0][1] == 3);
    assert(o_states()[0][0][1] == 4);
    assert(s_states()[0][0][1] == 5);
    assert(z_states()[0][0][1] == 6);
    assert(t_states()[0][0][1] == 7);
    if 0 <= other < 7 && fresh_of_kind(t, other) {
        assert(kind_states(other)[0][0][1] == other + 1);
    }
}

/// A fresh piece of kind `kind` (0 to 6: I, J, L, O, S, Z, T).
pub fn tetrimino_of_kind(kind: u8) -> (t: Tetrimino)
    requires
        kind < 7,
    ensures
        fresh_of_kind(t, kind as int),
{
    match kind {
        0 => TetriminoI::new(),
        1 => TetriminoJ::new(),
        2 => TetriminoL::new(),
        3 => TetriminoO::new(),
        4 => TetriminoS::new(),
        5 => TetriminoZ::new(),
        _ => TetriminoT::new(),
    }
}

/// Calls `rand::random::<u8>()`, which draws a byte from the thread's random
/// generator. Nothing is claimed of the byte: any value can come back.
#[verifier::external_body]
fn random_byte() -> u8 {
    rand::random::<u8>()
}

/// The kind of the next piece from two draws: the first draw modulo 7, unless
/// that is the previous kind `prev`, in which case the second draw modulo 7.
pub fn pick_kind(prev: u8, first_draw: u8, second_draw: u8) -> (k: u8)
    ensures
        k == if first_draw % 7 == prev {
            second_draw % 7
        } else {
            first_draw % 7
        },
{
    let mut rand_nb = first_draw % 7;
    if prev == rand_nb {
        rand_nb = second_draw % 7;
    }
    rand_nb
}

/// A fresh piece of a random kind, drawn again once when the first draw gives
/// the previous kind `prev`; `prev` becomes the kind drawn.
pub fn create_new_tretrimino(prev: &mut u8) -> (t: Tetrimino)
    ensures
        *final(prev) < 7,
        fresh_of_kind(t, *final(prev) as int),
{
    let first_draw = random_byte();
    let second_draw = if first_draw % 7 == *prev {
        random_byte()
    } else {
        first_draw
    };
    let rand_nb = pick_kind(*prev, first_draw, second_draw);
    *prev = rand_nb;
    tetrimino_of_kind(rand_nb)
}

} // verus!
