use tetris::piece::{
    create_new_tretrimino, pick_kind, tetrimino_of_kind, Tetrimino, TetriminoGenerator, TetriminoI,
    TetriminoJ, TetriminoL, TetriminoO, TetriminoS, TetriminoT, TetriminoZ,
};

fn empty_field() -> Vec<Vec<u8>> {
    vec![vec![0u8; 10]; 16]
}

#[test]
fn generators_give_their_shapes() {
    let i = TetriminoI::new();
    assert_eq!(i.states.len(), 2);
    assert_eq!(i.states[0][0], vec![1, 1, 1, 1]);
    assert_eq!(i.states[1][3], vec![0, 1, 0, 0]);
    assert_eq!((i.x, i.y, i.curr_state), (4, 0, 0));
    let o = TetriminoO::new();
    assert_eq!(o.states.len(), 1);
    assert_eq!(o.states[0][1], vec![4, 4, 0, 0]);
    assert_eq!((o.x, o.y, o.curr_state), (5, 0, 0));
    assert_eq!(TetriminoJ::new().states[3][2], vec![2, 2, 0, 0]);
    assert_eq!(TetriminoL::new().states[0][1], vec![0, 0, 3, 0]);
    assert_eq!(TetriminoS::new().states[1][2], vec![0, 0, 5, 0]);
    assert_eq!(TetriminoZ::new().states[0][1], vec![0, 6, 6, 0]);
    assert_eq!(TetriminoT::new().states[2][1], vec![7, 7, 7, 0]);
}

#[test]
fn kinds_in_order() {
    for kind in 0u8..7 {
        let t = tetrimino_of_kind(kind);
        let cell = t.states[0].iter().flatten().find(|c| **c != 0).copied();
        assert_eq!(cell, Some(kind + 1));
        assert_eq!(t.x, if kind == 3 { 5 } else { 4 });
    }
}

#[test]
fn test_position_on_empty_field() {
    let field = empty_field();
    let i = TetriminoI::new();
    assert!(i.test_position(&field, 0, 4, 0));
    assert!(i.test_position(&field, 0, 6, 0));
    assert!(!i.test_position(&field, 0, 7, 0));
    assert!(!i.test_position(&field, 0, -1, 0));
    assert!(i.test_position(&field, 0, 0, 15));
    assert!(!i.test_position(&field, 0, 0, 16));
    assert!(!i.test_position(&field, 1, 0, 13));
    assert!(i.test_position(&field, 1, -1, 12));
}

#[test]
fn test_position_sees_filled_cells() {
    let mut field = empty_field();
    field[0][5] = 9;
    let i = TetriminoI::new();
    assert!(!i.test_position(&field, 0, 4, 0));
    assert!(i.test_position(&field, 0, 4, 1));
    assert!(i.test_curr_position(&empty_field()));
    assert!(!i.test_curr_position(&field));
}

#[test]
fn change_position_moves_only_where_it_fits() {
    let field = empty_field();
    let mut t = TetriminoT::new();
    assert!(t.change_position(&field, 0, 3));
    assert_eq!((t.x, t.y), (0, 3));
    assert!(!t.change_position(&field, -1, 3));
    assert_eq!((t.x, t.y), (0, 3));
    assert!(!t.change_position(&field, 0, 15));
    assert_eq!((t.x, t.y), (0, 3));
}

#[test]
fn rotate_turns_and_wraps() {
    let field = empty_field();
    let mut t = TetriminoI::new();
    t.rotate(&field);
    assert_eq!((t.curr_state, t.x), (1, 4));
    t.rotate(&field);
    assert_eq!((t.curr_state, t.x), (0, 4));
}

#[test]
fn rotate_kicks_off_the_wall() {
    let field = empty_field();
    let mut t = TetriminoI::new();
    t.curr_state = 1;
    t.x = 8;
    t.rotate(&field);
    assert_eq!((t.curr_state, t.x), (0, 6));
}

#[test]
fn rotate_blocked_leaves_piece() {
    let field = vec![vec![1u8; 10]; 16];
    let mut t = TetriminoJ::new();
    t.rotate(&field);
    assert_eq!((t.curr_state, t.x, t.y), (0, 4, 0));
}

#[test]
fn pick_kind_draws_again_on_repeat() {
    assert_eq!(pick_kind(3, 10, 5), 5);
    assert_eq!(pick_kind(2, 10, 5), 3);
    assert_eq!(pick_kind(7, 6, 0), 6);
    assert_eq!(pick_kind(0, 255, 13), 3);
}

#[test]
fn create_new_tretrimino_records_kind() {
    let mut prev = 7u8;
    for _ in 0..20 {
        let t: Tetrimino = create_new_tretrimino(&mut prev);
        assert!(prev < 7);
        let fresh = tetrimino_of_kind(prev);
        assert_eq!(t.states, fresh.states);
        assert_eq!((t.x, t.y, t.curr_state), (fresh.x, 0, 0));
    }
}

#[test]
fn full_turn_restores_the_piece() {
    let field = empty_field();
    for kind in 0u8..7 {
        let mut t = tetrimino_of_kind(kind);
        t.y = 5;
        let n = t.states.len();
        for _ in 0..n {
            t.rotate(&field);
        }
        assert_eq!((t.curr_state, t.x, t.y), (0, if kind == 3 { 5 } else { 4 }, 5));
    }
}

#[test]
fn freeing_cells_keeps_a_fit() {
    let mut field = empty_field();
    field[3][0] = 1;
    let t = TetriminoI::new();
    assert!(t.test_position(&field, 0, 4, 3));
    field[3][0] = 0;
    assert!(t.test_position(&field, 0, 4, 3));
}

#[test]
fn moving_keeps_a_fit() {
    let mut field = empty_field();
    field[10][0] = 1;
    let mut t = TetriminoI::new();
    assert!(t.test_curr_position(&field));
    t.change_position(&field, 0, 10);
    assert!(t.test_curr_position(&field));
    t.change_position(&field, 0, 9);
    assert!(t.test_curr_position(&field));
}
