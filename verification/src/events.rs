//! How the game reacts to the player's inputs while a piece falls.
use vstd::prelude::*;
use crate::game::Tetris;
use crate::piece::{
    Tetrimino, fits, next_state, shape_ok, shape_solid, turned, lemma_fits_in_field,
    lemma_first_fit_range,
};

verus! {

/// An input the game reacts to: closing the window or Escape (`Quit`), the
/// arrow keys, the space bar; any other input is `Other`.
#[derive(Clone, Copy, Debug, PartialEq, Eq, Structural)]
pub enum GameEvent {
    Quit,
    Down,
    Right,
    Left,
    Up,
    Space,
    Other,
}

/// Where event handling stands: the piece's column, row and rotation, the
/// column and row it is asked to move to, whether it is to land, whether the
/// player asked to quit, whether the fall timer was restarted, and whether a
/// quit ended the handling.
pub struct EventState {
    pub x: int,
    pub y: int,
    pub state: int,
    pub tmp_x: int,
    pub tmp_y: int,
    pub drop: bool,
    pub quit: bool,
    pub timer: bool,
    pub stopped: bool,
}

/// The row a piece at column `x`, row `y` falls to: the last row, from `y`
/// down, such that it fits at each row on the way.
pub open spec fn drop_row(map: Seq<Seq<u8>>, shape: Seq<Seq<u8>>, x: int, y: int) -> int
    decreases map.len() - y,
{
    if y + 1 < map.len() && fits(map, shape, x, y + 1) {
        drop_row(map, shape, x, y + 1)
    } else {
        y
    }
}

/// A dropped piece that fits where it starts ends no higher, fits where it
/// ends, and could go no lower.
pub proof fn lemma_drop_row(map: Seq<Seq<u8>>, shape: Seq<Seq<u8>>, x: int, y: int)
    requires
        fits(map, shape, x, y),
    ensures
        drop_row(map, shape, x, y) >= y,
        fits(map, shape, x, drop_row(map, shape, x, y)),
        !(drop_row(map, shape, x, y) + 1 < map.len() && fits(map, shape, x, drop_row(map, shape, x, y) + 1)),
    decreases map.len() - y,
{
    if y + 1 < map.len() && fits(map, shape, x, y + 1) {
        lemma_drop_row(map, shape, x, y + 1);
    }
}

/// The handling of one event `e`, for a piece with rotation grids `shapes` on
/// the field `map`.
pub open spec fn event_step(
    map: Seq<Seq<u8>>,
    shapes: Seq<Seq<Seq<u8>>>,
    s: EventState,
    e: GameEvent,
) -> EventState {
    if s.stopped {
        s
    } else {
        match e {
            GameEvent::Quit => EventState { quit: true, stopped: true, ..s },
            GameEvent::Down => EventState { timer: true, tmp_y: s.tmp_y + 1, ..s },
            GameEvent::Right => EventState { tmp_x: s.tmp_x + 1, ..s },
            GameEvent::Left => EventState { tmp_x: s.tmp_x - 1, ..s },
            GameEvent::Up => {
                let (state, x) = turned(map, shapes, s.state, s.x, s.y);
                EventState { state: state, x: x, ..s }
            },
            GameEvent::Space => EventState {
                y: drop_row(map, shapes[s.state], s.x, s.y),
                drop: true,
                ..s
            },
            GameEvent::Other => s,
        }
    }
}

/// The handling of the events `evs` in order.
pub open spec fn events_run(
    map: Seq<Seq<u8>>,
    shapes: Seq<Seq<Seq<u8>>>,
    s: EventState,
    evs: Seq<GameEvent>,
) -> EventState
    decreases evs.len(),
{
    if evs.len() == 0 {
        s
    } else {
        event_step(map, shapes, events_run(map, shapes, s, evs.drop_last()), evs.last())
    }
}

/// Handling the event `e` from the state `s` reads only rotation grids that
/// exist and can be tested: a rotation needs a next rotation (and a current one
/// below 255), and a space bar press a current rotation with a filled cell, so
/// that the drop ends.
pub open spec fn step_safe(shapes: Seq<Seq<Seq<u8>>>, s: EventState, e: GameEvent) -> bool {
    s.stopped || match e {
        GameEvent::Up => {
            &&& s.state < 255
            &&& shapes.len() >= 1
            &&& shape_ok(shapes[next_state(s.state, shapes.len() as int)])
        },
        GameEvent::Space => {
            &&& 0 <= s.state < shapes.len()
            &&& shape_ok(shapes[s.state])
            &&& shape_solid(shapes[s.state])
        },
        _ => true,
    }
}

/// Every event of `evs` is handled safely (see `step_safe`).
pub open spec fn events_safe(
    map: Seq<Seq<u8>>,
    shapes: Seq<Seq<Seq<u8>>>,
    s: EventState,
    evs: Seq<GameEvent>,
) -> bool {
    forall|i: int|
        #![trigger evs[i]]
        0 <= i < evs.len() ==> step_safe(shapes, events_run(map, shapes, s, evs.take(i)), evs[i])
}

/// Once the events are handled, moving the piece to the asked position reads a
/// rotation grid that exists and can be tested, unless the piece is to land.
pub open spec fn settle_safe(shapes: Seq<Seq<Seq<u8>>>, st: EventState) -> bool {
    st.drop || (0 <= st.state < shapes.len() && shape_ok(shapes[st.state]))
}

/// Where event handling starts, for the piece `p` and the quit flag `quit`.
pub open spec fn events_start(p: Tetrimino, quit: bool) -> EventState {
    EventState {
        x: p.x as int,
        y: p.y as int,
        state: p.curr_state as int,
        tmp_x: p.x as int,
        tmp_y: p.y as int,
        drop: false,
        quit: quit,
        timer: false,
        stopped: false,
    }
}

/// Once the events are handled: the piece lands if a space bar press dropped
/// it, or if it cannot move to the asked position and that position is on
/// another row.
pub open spec fn lands(map: Seq<Seq<u8>>, shapes: Seq<Seq<Seq<u8>>>, st: EventState) -> bool {
    st.drop || (!fits(map, shapes[st.state], st.tmp_x, st.tmp_y) && st.tmp_y != st.y)
}

/// Once the events are handled: the piece moves to the asked position where it
/// fits there and no space bar press dropped it.
pub open spec fn moves(map: Seq<Seq<u8>>, shapes: Seq<Seq<Seq<u8>>>, st: EventState) -> bool {
    !st.drop && fits(map, shapes[st.state], st.tmp_x, st.tmp_y)
}

/// A handling that a quit ended stays as it is.
pub proof fn lemma_stopped_stays(
    map: Seq<Seq<u8>>,
    shapes: Seq<Seq<Seq<u8>>>,
    s: EventState,
    evs: Seq<GameEvent>,
    i: int,
)
    requires
        0 <= i <= evs.len(),
        events_run(map, shapes, s, evs.take(i)).stopped,
    ensures
        events_run(map, shapes, s, evs) == events_run(map, shapes, s, evs.take(i)),
    decreases evs.len() - i,
{
    if i < evs.len() {
        assert(evs.take(i + 1).drop_last() =~= evs.take(i));
        lemma_stopped_stays(map, shapes, s, evs, i + 1);
    } else {
        assert(evs.take(i) =~= evs);
    }
}

/// A handling ended by a quit has the quit flag set.
proof fn lemma_stopped_quit(map: Seq<Seq<u8>>, shapes: Seq<Seq<Seq<u8>>>, s: EventState, evs: Seq<GameEvent>)
    requires
        s.stopped ==> s.quit,
    ensures
        events_run(map, shapes, s, evs).stopped ==> events_run(map, shapes, s, evs).quit,
    decreases evs.len(),
{
    if evs.len() > 0 {
        lemma_stopped_quit(map, shapes, s, evs.drop_last());
    }
}

/// Without a quit, the handling is never ended early.
proof fn lemma_run_no_quit(map: Seq<Seq<u8>>, shapes: Seq<Seq<Seq<u8>>>, s: EventState, evs: Seq<GameEvent>)
    requires
        !s.stopped,
        forall|i: int| 0 <= i < evs.len() ==> evs[i] != GameEvent::Quit,
    ensures
        !events_run(map, shapes, s, evs).stopped,
    decreases evs.len(),
{
    if evs.len() > 0 {
        lemma_run_no_quit(map, shapes, s, evs.drop_last());
        assert(evs.last() == evs[evs.len() - 1]);
    }
}

/// A piece set to land stays set to land, whatever events follow.
proof fn lemma_drop_stays(
    map: Seq<Seq<u8>>,
    shapes: Seq<Seq<Seq<u8>>>,
    s: EventState,
    evs: Seq<GameEvent>,
    more: Seq<GameEvent>,
)
    requires
        events_run(map, shapes, s, evs).drop,
    ensures
        events_run(map, shapes, s, evs + more).drop,
    decreases more.len(),
{
    if more.len() == 0 {
        assert(evs + more =~= evs);
    } else {
        lemma_drop_stays(map, shapes, s, evs, more.drop_last());
        assert((evs + more).drop_last() =~= evs + more.drop_last());
    }
}

impl Tetris {
    /// The state that handling `events` reaches, for the falling piece `p`.
    pub open spec fn events_outcome(&self, p: Tetrimino, quit: bool, events: Seq<GameEvent>) -> EventState {
        events_run(self.board(), p.shapes(), events_start(p, quit), events)
    }

    /// The game once `events` are handled for the falling piece `p`, before the
    /// piece lands.
    pub open spec fn after_events(&self, p: Tetrimino, quit: bool, events: Seq<GameEvent>) -> Tetris {
        let st = self.events_outcome(p, quit, events);
        let (x, y) = if moves(self.board(), p.shapes(), st) {
            (st.tmp_x, st.tmp_y)
        } else {
            (st.x, st.y)
        };
        Tetris {
            curr_piece: Some(
                Tetrimino { states: p.states, x: x as isize, y: y as usize, curr_state: st.state as u8 },
            ),
            ..*self
        }
    }

    /// With no event, a piece that fits where it is neither moves nor lands.
    pub proof fn lemma_no_events(&self, p: Tetrimino, quit: bool)
        requires
            self.curr_piece == Some(p),
            fits(self.board(), p.shape(), p.x as int, p.y as int),
        ensures
            !lands(self.board(), p.shapes(), self.events_outcome(p, quit, Seq::empty())),
            self.after_events(p, quit, Seq::empty()) == *self,
    {
        let st = self.events_outcome(p, quit, Seq::empty());
        assert(st == events_start(p, quit));
        assert(moves(self.board(), p.shapes(), st));
    }

    /// A space bar press lands the piece, whatever follows it.
    pub proof fn lemma_space_lands(&self, p: Tetrimino, quit: bool, before: Seq<GameEvent>, after: Seq<GameEvent>)
        requires
            forall|i: int| 0 <= i < before.len() ==> before[i] != GameEvent::Quit,
        ensures
            lands(self.board(), p.shapes(), self.events_outcome(p, quit, before + seq![GameEvent::Space] + after)),
    {
        let map = self.board();
        let start = events_start(p, quit);
        lemma_run_no_quit(map, p.shapes(), start, before);
        let evs = before + seq![GameEvent::Space];
        assert(evs.drop_last() =~= before);
        lemma_drop_stays(map, p.shapes(), start, evs, after);
    }

    /// Events after a quit are not handled.
    pub proof fn lemma_quit_stops(&self, p: Tetrimino, quit: bool, before: Seq<GameEvent>, after: Seq<GameEvent>)
        ensures
            self.events_outcome(p, quit, before + seq![GameEvent::Quit] + after)
                == self.events_outcome(p, quit, before + seq![GameEvent::Quit]),
            self.events_outcome(p, quit, before + seq![GameEvent::Quit] + after).quit,
    {
        let map = self.board();
        let start = events_start(p, quit);
        let evs = before + seq![GameEvent::Quit];
        let all = evs + after;
        assert(evs.drop_last() =~= before);
        assert(all.take(evs.len() as int) =~= evs);
        lemma_stopped_quit(map, p.shapes(), start, before);
        lemma_stopped_stays(map, p.shapes(), start, all, evs.len() as int);
    }

    /// Handles the player's `events`, in order, for the falling piece, if any
    /// (with none, nothing happens). Quit sets `quit` and ends the handling;
    /// Down restarts the fall timer (sets `timer_reset`) and asks for the next
    /// row; Right and Left ask for the next and the previous column; Up rotates
    /// the piece (see `Tetrimino::rotate`); Space drops the piece as far as it
    /// fits and has it land. Then, unless it is to land, the piece moves to the
    /// asked position if it fits there, and lands if not and that position is
    /// on another row than the piece. A landing piece lands (see
    /// `make_permanent`) and restarts the fall timer. Says whether the piece
    /// landed.
    pub fn handle_events(
        tetris: &mut Tetris,
        quit: &mut bool,
        timer_reset: &mut bool,
        events: &[GameEvent],
    ) -> (r: bool)
        requires
            old(tetris).curr_piece matches Some(p) ==> {
                &&& events_safe(old(tetris).board(), p.shapes(), events_start(p, *old(quit)), events@)
                &&& settle_safe(p.shapes(), old(tetris).events_outcome(p, *old(quit), events@))
                &&& p.y + events@.len() + 4 <= usize::MAX
                &&& old(tetris).game_map.len() + 4 <= usize::MAX
                &&& isize::MIN + 3 * events@.len() + 6 <= p.x
                &&& p.x + 3 * events@.len() + 8 <= isize::MAX
                &&& lands(old(tetris).board(), p.shapes(), old(tetris).events_outcome(p, *old(quit), events@))
                    ==> old(tetris).after_events(p, *old(quit), events@).landing_allowed()
            },
        ensures
            match old(tetris).curr_piece {
                None => {
                    &&& !r
                    &&& *final(tetris) == *old(tetris)
                    &&& *final(quit) == *old(quit)
                    &&& *final(timer_reset) == *old(timer_reset)
                },
                Some(p) => {
                    let st = old(tetris).events_outcome(p, *old(quit), events@);
                    let mid = old(tetris).after_events(p, *old(quit), events@);
                    &&& r == lands(old(tetris).board(), p.shapes(), st)
                    &&& *final(quit) == st.quit
                    &&& *final(timer_reset) == (*old(timer_reset) || st.timer || r)
                    &&& r ==> mid.landed(*final(tetris))
                    &&& !r ==> *final(tetris) == mid
                },
            },
    {
        let mut make_permanent = false;
        let ghost map = tetris.board();
        let ghost old_timer = *timer_reset;
        match tetris.curr_piece.take() {
            None => {},
            Some(mut piece) => {
                let ghost p = piece;
                let ghost shapes = piece.shapes();
                let ghost start = events_start(p, *quit);
                let ghost n = events@.len() as int;
                let mut tmp_x = piece.x;
                let mut tmp_y = piece.y;
                let mut i: usize = 0;
                let gm: &[Vec<u8>] = tetris.game_map.as_slice();
                proof {
                    assert(events@.take(0) =~= Seq::<GameEvent>::empty());
                    assert(gm.deep_view() =~= map);
                }
                while i < events.len()
                    invariant_except_break
                        !events_run(map, shapes, start, events@.take(i as int)).stopped,
                        i == events.len() ==> events@.take(i as int) == events@,
                        ({
                            let st = events_run(map, shapes, start, events@.take(i as int));
                            &&& piece.x == st.x
                            &&& piece.y == st.y
                            &&& piece.curr_state == st.state
                            &&& tmp_x == st.tmp_x
                            &&& tmp_y == st.tmp_y
                            &&& make_permanent == st.drop
                            &&& *quit == st.quit
                            &&& *timer_reset == (old_timer || st.timer)
                        }),
                    invariant
                        0 <= i <= events.len(),
                        n == events@.len(),
                        map == gm.deep_view(),
                        map == old(tetris).board(),
                        tetris.curr_piece is None,
                        tetris.game_map == old(tetris).game_map,
                        tetris.score == old(tetris).score,
                        tetris.curr_level == old(tetris).curr_level,
                        tetris.nb_lines == old(tetris).nb_lines,
                        tetris.prev_piece == old(tetris).prev_piece,
                        old(tetris).curr_piece == Some(p),
                        shapes == p.shapes(),
                        start == events_start(p, *old(quit)),
                        events_safe(map, shapes, start, events@),
                        settle_safe(shapes, events_run(map, shapes, start, events@)),
                        p.y + n + 4 <= usize::MAX,
                        tetris.game_map.len() + 4 <= usize::MAX,
                        isize::MIN + 3 * n + 6 <= p.x,
                        p.x + 3 * n + 8 <= isize::MAX,
                        piece.states == p.states,
                        p.x - 3 * i <= piece.x <= p.x + 3 * i,
                        p.x - i <= tmp_x <= p.x + i,
                        tmp_y <= p.y + i,
                        piece.y <= p.y || piece.y < map.len(),
                    ensures
                        ({
                            let st = events_run(map, shapes, start, events@);
                            &&& piece.x == st.x
                            &&& piece.y == st.y
                            &&& piece.curr_state == st.state
                            &&& tmp_x == st.tmp_x
                            &&& tmp_y == st.tmp_y
                            &&& make_permanent == st.drop
                            &&& *quit == st.quit
                            &&& *timer_reset == (old_timer || st.timer)
                        }),
                    decreases events.len() - i,
                {
                    let ghost prev = events_run(map, shapes, start, events@.take(i as int));
                    proof {
                        assert(events@.take(i + 1).drop_last() =~= events@.take(i as int));
                        assert(events@.take(i + 1).last() == events@[i as int]);
                        assert(step_safe(shapes, prev, events@[i as int]));
                    }
                    match events[i] {
                        GameEvent::Quit => {
                            *quit = true;
                            proof {
                                lemma_stopped_stays(map, shapes, start, events@, i + 1);
                            }
                            break ;
                        },
                        GameEvent::Down => {
                            *timer_reset = true;
                            tmp_y += 1;
                        },
                        GameEvent::Right => {
                            tmp_x += 1;
                        },
                        GameEvent::Left => {
                            tmp_x -= 1;
                        },
                        GameEvent::Up => {
                            proof {
                                let tmp = next_state(piece.curr_state as int, piece.states.len() as int);
                                lemma_first_fit_range(map, shapes[tmp], piece.x as int, piece.y as int, 0);
                            }
                            piece.rotate(gm);
                        },
                        GameEvent::Space => {
                            let x = piece.x;
                            let mut y = piece.y;
                            let ghost y0 = y as int;
                            let ghost shape = piece.shape();
                            while piece.change_position(gm, x, y + 1) == true
                                invariant
                                    piece.states == p.states,
                                    piece.curr_state == prev.state,
                                    piece.curr_state < piece.states.len(),
                                    shape_ok(shape),
                                    shape == piece.shape(),
                                    shape_solid(shape),
                                    piece.x == x,
                                    piece.y == y,
                                    map == gm.deep_view(),
                                    map.len() + 4 <= usize::MAX,
                                    y == y0 || y < map.len(),
                                    y0 <= p.y || y0 < map.len(),
                                    p.y + n + 4 <= usize::MAX,
                                    n == events@.len(),
                                    x + 3 <= isize::MAX,
                                    drop_row(map, shape, x as int, y0) == drop_row(map, shape, x as int, y as int),
                                decreases map.len() - y,
                            {
                                proof {
                                    lemma_fits_in_field(map, shape, x as int, y + 1);
                                }
                                y += 1;
                            }
                            make_permanent = true;
                        },
                        GameEvent::Other => {},
                    }
                    i += 1;
                    proof {
                        if i == events.len() {
                            assert(events@.take(i as int) =~= events@);
                        }
                    }
                }
                if !make_permanent {
                    if piece.change_position(gm, tmp_x, tmp_y) == false && tmp_y
                        != piece.y {
                        make_permanent = true;
                    }
                }
                tetris.curr_piece = Some(piece);
            },
        }
        if make_permanent {
            tetris.make_permanent();
            *timer_reset = true;
        }
        make_permanent
    }
}

} // verus!
