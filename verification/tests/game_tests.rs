use tetris::events::GameEvent;
use tetris::game::{is_tijd_over, Tetris};
use tetris::piece::{TetriminoGenerator, TetriminoI, TetriminoO};
use tetris::texture::TextureColor;

fn row(v: u8) -> Vec<u8> {
    vec![v; 10]
}

#[test]
fn new_game() {
    let t = Tetris::new();
    assert_eq!(t.game_map, vec![row(0); 16]);
    assert_eq!((t.curr_level, t.score, t.nb_lines, t.prev_piece), (1, 0, 0, 7));
    assert!(t.curr_piece.is_none());
}

#[test]
fn counters() {
    let mut t = Tetris::new();
    t.update_score(42);
    assert_eq!(t.score, 42);
    t.increase_level();
    assert_eq!(t.curr_level, 2);
    t.curr_level = 1;
    t.nb_lines = 19;
    t.increase_line();
    assert_eq!((t.nb_lines, t.curr_level), (20, 1));
    t.increase_line();
    assert_eq!((t.nb_lines, t.curr_level), (21, 2));
}

#[test]
fn increase_line_at_level_ten() {
    let mut t = Tetris::new();
    t.curr_level = 10;
    t.nb_lines = 200;
    t.increase_line();
    assert_eq!((t.nb_lines, t.curr_level), (201, 11));
}

#[test]
fn check_lines_removes_a_full_row() {
    let mut t = Tetris::new();
    t.curr_level = 3;
    t.game_map[15] = row(1);
    t.game_map[14][2] = 5;
    t.check_lines();
    assert_eq!(t.game_map.len(), 16);
    assert_eq!(t.game_map[0], row(0));
    assert_eq!(t.game_map[15][2], 5);
    assert_eq!(t.score, 3);
    assert_eq!(t.nb_lines, 1);
}

#[test]
fn check_lines_removes_the_top_row_and_others() {
    let mut t = Tetris::new();
    t.game_map[0] = row(2);
    t.game_map[1] = row(3);
    t.game_map[2][0] = 4;
    t.game_map[7] = row(1);
    t.check_lines();
    let mut expected = vec![row(0); 16];
    expected[3][0] = 4;
    assert_eq!(t.game_map, expected);
    assert_eq!((t.score, t.nb_lines), (3, 3));
}

#[test]
fn check_lines_clearing_everything_gives_bonus() {
    let mut t = Tetris::new();
    t.game_map = vec![row(7); 16];
    t.check_lines();
    assert_eq!(t.game_map, vec![row(0); 16]);
    assert_eq!((t.score, t.nb_lines, t.curr_level), (1016, 16, 1));
}

#[test]
fn check_lines_levels_up_while_refilling() {
    let mut t = Tetris::new();
    t.nb_lines = 19;
    t.game_map[15] = row(1);
    t.game_map[14] = row(1);
    t.check_lines();
    assert_eq!((t.nb_lines, t.curr_level, t.score), (21, 2, 2));
}

#[test]
fn check_lines_short_field_is_refilled() {
    let mut t = Tetris::new();
    t.game_map = vec![row(0); 3];
    t.check_lines();
    assert_eq!(t.game_map, vec![row(0); 16]);
    assert_eq!((t.nb_lines, t.score), (13, 0));
}

#[test]
fn make_permanent_writes_piece_and_scores() {
    let mut t = Tetris::new();
    t.curr_level = 2;
    let mut o = TetriminoO::new();
    o.x = 0;
    o.y = 14;
    t.curr_piece = Some(o);
    t.make_permanent();
    assert!(t.curr_piece.is_none());
    assert_eq!(t.game_map[14][..3], [4, 4, 0]);
    assert_eq!(t.game_map[15][..3], [4, 4, 0]);
    assert_eq!(t.score, 2);
    assert_eq!(t.nb_lines, 0);
}

#[test]
fn make_permanent_completes_rows() {
    let mut t = Tetris::new();
    t.game_map[15] = vec![1, 1, 1, 1, 1, 1, 0, 0, 0, 0];
    let mut i = TetriminoI::new();
    i.x = 6;
    i.y = 15;
    t.curr_piece = Some(i);
    t.make_permanent();
    assert_eq!(t.game_map, vec![row(0); 16]);
    assert_eq!((t.score, t.nb_lines), (1 + 1, 1));
}

#[test]
fn make_permanent_without_piece_only_clears() {
    let mut t = Tetris::new();
    t.game_map[15] = row(1);
    t.make_permanent();
    assert_eq!((t.score, t.nb_lines), (1, 1));
}

#[test]
fn make_permanent_leaves_cells_outside_the_field() {
    let mut t = Tetris::new();
    let mut i = TetriminoI::new();
    i.curr_state = 1;
    i.x = -1;
    i.y = 14;
    t.curr_piece = Some(i);
    t.make_permanent();
    assert_eq!(t.game_map[14][0], 1);
    assert_eq!(t.game_map[15][0], 1);
    assert_eq!(t.game_map[13][0], 0);
}

fn game_with_o() -> Tetris {
    let mut t = Tetris::new();
    t.curr_piece = Some(TetriminoO::new());
    t
}

#[test]
fn handle_events_moves_sideways() {
    let mut t = game_with_o();
    let (mut quit, mut timer) = (false, false);
    let landed = Tetris::handle_events(&mut t, &mut quit, &mut timer, &[GameEvent::Right, GameEvent::Right, GameEvent::Left, GameEvent::Other]);
    assert!(!landed && !quit && !timer);
    let p = t.curr_piece.as_ref().unwrap();
    assert_eq!((p.x, p.y), (6, 0));
}

#[test]
fn handle_events_down_restarts_timer() {
    let mut t = game_with_o();
    let (mut quit, mut timer) = (false, false);
    let landed = Tetris::handle_events(&mut t, &mut quit, &mut timer, &[GameEvent::Down]);
    assert!(!landed && timer);
    assert_eq!(t.curr_piece.as_ref().unwrap().y, 1);
}

#[test]
fn handle_events_space_drops_and_lands() {
    let mut t = game_with_o();
    let (mut quit, mut timer) = (false, false);
    let landed = Tetris::handle_events(&mut t, &mut quit, &mut timer, &[GameEvent::Space]);
    assert!(landed && timer && !quit);
    assert!(t.curr_piece.is_none());
    assert_eq!(t.game_map[14][5..7], [4, 4]);
    assert_eq!(t.game_map[15][5..7], [4, 4]);
    assert_eq!(t.game_map[13], row(0));
    assert_eq!(t.score, 1);
}

#[test]
fn handle_events_quit_stops_handling() {
    let mut t = game_with_o();
    let (mut quit, mut timer) = (false, false);
    let landed = Tetris::handle_events(&mut t, &mut quit, &mut timer, &[GameEvent::Quit, GameEvent::Right, GameEvent::Space]);
    assert!(!landed && quit && !timer);
    let p = t.curr_piece.as_ref().unwrap();
    assert_eq!((p.x, p.y), (5, 0));
}

#[test]
fn handle_events_blocked_sideways_stays() {
    let mut t = game_with_o();
    t.curr_piece.as_mut().unwrap().x = 0;
    let (mut quit, mut timer) = (false, false);
    let landed = Tetris::handle_events(&mut t, &mut quit, &mut timer, &[GameEvent::Left]);
    assert!(!landed);
    assert_eq!(t.curr_piece.as_ref().unwrap().x, 0);
}

#[test]
fn handle_events_blocked_downwards_lands() {
    let mut t = game_with_o();
    t.curr_piece.as_mut().unwrap().y = 14;
    let (mut quit, mut timer) = (false, false);
    let landed = Tetris::handle_events(&mut t, &mut quit, &mut timer, &[GameEvent::Down]);
    assert!(landed && timer);
    assert!(t.curr_piece.is_none());
    assert_eq!(t.game_map[15][5], 4);
}

#[test]
fn handle_events_rotates() {
    let mut t = Tetris::new();
    t.curr_piece = Some(TetriminoI::new());
    let (mut quit, mut timer) = (false, false);
    let landed = Tetris::handle_events(&mut t, &mut quit, &mut timer, &[GameEvent::Up]);
    assert!(!landed);
    assert_eq!(t.curr_piece.as_ref().unwrap().curr_state, 1);
}

#[test]
fn handle_events_without_piece_does_nothing() {
    let mut t = Tetris::new();
    let (mut quit, mut timer) = (false, true);
    let landed = Tetris::handle_events(&mut t, &mut quit, &mut timer, &[GameEvent::Quit]);
    assert!(!landed && !quit && timer);
}

#[test]
fn fall_interval() {
    let mut t = Tetris::new();
    assert!(!is_tijd_over(&t, Some((1, 0))));
    assert!(is_tijd_over(&t, Some((1, 1_000_000))));
    assert!(!is_tijd_over(&t, Some((1, 999_999))));
    assert!(!is_tijd_over(&t, None));
    t.curr_level = 10;
    assert!(is_tijd_over(&t, Some((0, 191_000_000))));
    assert!(!is_tijd_over(&t, Some((0, 190_999_999))));
    t.curr_level = 9;
    assert!(is_tijd_over(&t, Some((0, 222_000_000))));
    assert!(!is_tijd_over(&t, Some((0, 221_000_000))));
}

#[test]
fn texture_colours() {
    assert_eq!(TextureColor::Groen.rgb(), (0, 255, 0));
    assert_eq!(TextureColor::Blauw.rgb(), (0, 0, 225));
    assert_eq!(TextureColor::Rood.rgb(), (255, 0, 0));
}

#[test]
fn handle_events_with_no_event_changes_nothing() {
    let mut t = game_with_o();
    let (mut quit, mut timer) = (false, false);
    let landed = Tetris::handle_events(&mut t, &mut quit, &mut timer, &[]);
    assert!(!landed && !quit && !timer);
    let p = t.curr_piece.as_ref().unwrap();
    assert_eq!((p.x, p.y, p.curr_state), (5, 0, 0));
    assert_eq!(t.game_map, vec![row(0); 16]);
}

#[test]
fn space_lands_whatever_follows() {
    let mut t = game_with_o();
    let (mut quit, mut timer) = (false, false);
    let landed = Tetris::handle_events(&mut t, &mut quit, &mut timer, &[GameEvent::Left, GameEvent::Space, GameEvent::Up, GameEvent::Right]);
    assert!(landed);
    assert!(t.curr_piece.is_none());
    assert_eq!(t.game_map[15][5..7], [4, 4]);
}

#[test]
fn fresh_pieces_fit_on_a_new_field() {
    for kind in 0u8..7 {
        let t = Tetris::new();
        let p = tetris::piece::tetrimino_of_kind(kind);
        assert!(p.test_curr_position(&t.game_map));
    }
}

#[test]
fn landing_keeps_the_field_shape_and_counters() {
    let mut t = Tetris::new();
    t.score = 10;
    t.nb_lines = 3;
    t.game_map[15] = vec![1, 1, 1, 1, 0, 0, 1, 1, 1, 1];
    t.game_map[14] = vec![1, 1, 1, 1, 0, 0, 1, 1, 1, 1];
    let mut o = TetriminoO::new();
    o.x = 4;
    o.y = 14;
    t.curr_piece = Some(o);
    t.make_permanent();
    assert_eq!(t.game_map.len(), 16);
    assert!(t.game_map.iter().all(|r| r.len() == 10));
    assert!(t.game_map.iter().all(|r| r.iter().any(|c| *c == 0)));
    assert_eq!((t.score, t.nb_lines), (10 + 1 + 2, 5));
}

#[test]
fn fall_step_keeps_a_fitting_piece() {
    let mut t = game_with_o();
    assert!(!t.fall_step());
    let p = t.curr_piece.as_ref().unwrap();
    assert_eq!((p.x, p.y), (5, 0));
    let mut empty = Tetris::new();
    assert!(!empty.fall_step());
}

#[test]
fn fall_step_lands_a_blocked_piece() {
    let mut t = game_with_o();
    t.game_map[0][5] = 3;
    assert!(t.fall_step());
    assert!(t.curr_piece.is_none());
    assert_eq!(t.game_map[0][5..7], [4, 4]);
    assert_eq!(t.score, 1);
}

#[test]
fn spawn_places_a_fresh_piece() {
    let mut t = Tetris::new();
    assert!(!t.spawn());
    assert!(t.prev_piece < 7);
    let p = t.curr_piece.as_ref().unwrap();
    assert_eq!(p.states, tetris::piece::tetrimino_of_kind(t.prev_piece).states);
    let before_kind = t.prev_piece;
    assert!(!t.spawn());
    assert_eq!(t.prev_piece, before_kind);
}

#[test]
fn spawn_on_a_full_field_ends_the_game() {
    let mut t = Tetris::new();
    t.game_map = vec![row(1); 16];
    assert!(t.spawn());
    assert!(t.curr_piece.is_none());
}

#[test]
fn clearing_raises_the_level_at_most_once() {
    let mut t = Tetris::new();
    t.curr_level = 3;
    t.nb_lines = 55;
    for r in 4..16 {
        t.game_map[r] = row(1);
    }
    t.check_lines();
    assert_eq!((t.nb_lines, t.curr_level), (67, 4));
    let mut u = Tetris::new();
    u.curr_level = 10;
    u.nb_lines = 200;
    u.game_map[15] = row(1);
    u.check_lines();
    assert_eq!((u.nb_lines, u.curr_level), (201, 11));
}
