use draughts::color::Color;
use draughts::game::Game;
use draughts::moves_list::MoveItem;
use draughts::piece::Piece;
use draughts::position::Position;
use draughts::position_environment::PositionEnvironment;
use std::sync::Arc;

fn board(white: &[(usize, bool)], black: &[(usize, bool)], next: Color) -> Position {
    let env = Arc::new(PositionEnvironment::new(8));
    let mut pos = Position::new(env);
    for (cell, king) in white {
        pos.insert_piece(Piece::new(*cell, Color::White, *king));
    }
    for (cell, king) in black {
        pos.insert_piece(Piece::new(*cell, Color::Black, *king));
    }
    pos.next_move = Some(next);
    pos
}

fn quiet(list: &[MoveItem], from: usize, to: usize) -> MoveItem {
    list.iter()
        .find(|m| m.mov.map(|q| q.from == from && q.to == to).unwrap_or(false))
        .unwrap()
        .clone()
}

#[test]
fn geometry_of_the_main_road() {
    let env = PositionEnvironment::new(8);
    assert_eq!(env.size, 8);
    assert_eq!(env.vectors_map.len(), 32);
    assert_eq!(env.board_to_pack.len(), 64);
    assert_eq!(env.pack_to_board.len(), 32);
    let rays = env.get_vectors(0);
    assert_eq!(rays.len(), 1);
    assert_eq!(rays[0].direction, 0);
    assert_eq!(rays[0].points, vec![0, 4, 9, 13, 18, 22, 27, 31]);
    assert_eq!(rays[0].get_ban_direction(), 2);
    assert_eq!(env.pack_to_board[4], 9);
    assert_eq!(env.board_to_pack[9], 4);
    assert_eq!(env.board_to_pack[63], 31);
    // a cell in the middle has four rays
    let rays = env.get_vectors(13);
    assert_eq!(rays.len(), 4);
    assert_eq!(rays[1].points, vec![13, 17, 20, 24]);
    assert_eq!(rays[2].points, vec![13, 9, 4, 0]);
    assert_eq!(env.cell_grade[13].white, 2);
    assert_eq!(env.cell_grade[13].black, 2);
    assert_eq!(env.cell_grade[13].is_king, 4 + 5 + 4 + 4);
    assert_eq!(env.cell_grade[0].is_king, 8);
}

#[test]
fn promotion_rows() {
    let env = PositionEnvironment::new(8);
    let white = Piece::new(24, Color::White, false);
    let black = Piece::new(4, Color::Black, false);
    let king = Piece::new(24, Color::White, true);
    assert!(env.is_king_move_for(&white, 28));
    assert!(!env.is_king_move_for(&white, 27));
    assert!(env.is_king_move_for(&black, 3));
    assert!(!env.is_king_move_for(&black, 4));
    assert!(!env.is_king_move_for(&king, 31));
}

#[test]
fn a_man_moves_one_step_forward() {
    let mut pos = board(&[(9, false)], &[(22, false)], Color::White);
    let list = pos.get_move_list(false);
    let moves: Vec<(usize, usize, bool)> =
        list.list.iter().map(|m| (m.from(), m.to(), m.is_king_move())).collect();
    assert_eq!(moves, vec![(9, 13, false), (9, 12, false)]);
    pos.next_move = Some(Color::Black);
    let list = pos.get_move_list(false);
    let moves: Vec<(usize, usize)> = list.list.iter().map(|m| (m.from(), m.to())).collect();
    assert_eq!(moves, vec![(22, 18), (22, 19)]);
}

#[test]
fn capture_is_mandatory() {
    // the white man on 9 can jump over 13; the man on 2 has quiet moves only
    let mut pos = board(&[(9, false), (2, false)], &[(13, false)], Color::White);
    let list = pos.get_move_list(false);
    assert_eq!(list.list.len(), 1);
    assert!(list.list.iter().all(|m| m.strike.is_some() && m.mov.is_none()));
    let strike = list.list[0].strike.as_ref().unwrap();
    assert_eq!(strike.vec.len(), 1);
    assert_eq!((strike.vec[0].from, strike.vec[0].take, strike.vec[0].to), (9, 13, 18));
    assert!(!strike.king_move);
}

#[test]
fn a_chain_goes_on_and_crowns_on_the_way() {
    // the man jumps 13 -> 22 over 18, reaches the last row on 29 over 26
    // and goes on as a king over 25
    let mut pos = board(&[(13, false)], &[(18, false), (26, false), (25, false)], Color::White);
    let before = pos.cells.clone();
    let list = pos.get_move_list(false);
    assert_eq!(pos.cells, before);
    let ends: Vec<usize> = list.list.iter().map(|m| m.to()).collect();
    assert_eq!(ends, vec![20, 16]);
    for m in &list.list {
        let strike = m.strike.as_ref().unwrap();
        assert_eq!(strike.vec.len(), 3);
        assert_eq!((strike.vec[0].from, strike.vec[0].take, strike.vec[0].to), (13, 18, 22));
        assert_eq!((strike.vec[1].from, strike.vec[1].take, strike.vec[1].to), (22, 26, 29));
        assert_eq!((strike.vec[2].from, strike.vec[2].take), (29, 25));
        assert!(!strike.vec[0].king_move);
        assert!(strike.vec[1].king_move);
        assert!(!strike.vec[2].king_move);
        assert!(strike.king_move);
        assert!(m.is_king_move());
    }
    let m = &list.list[0];
    pos.make_move(m);
    assert!(pos.cells[20].unwrap().is_king);
    assert_eq!((pos.state.white.king, pos.state.white.simple, pos.state.black.simple), (1, 0, 0));
    pos.unmake_move(m);
    assert_eq!(pos.cells, before);
    assert_eq!((pos.state.white.king, pos.state.white.simple, pos.state.black.simple), (0, 1, 3));
}

#[test]
fn unmake_restores_the_position() {
    let mut pos = board(&[(0, true), (2, false)], &[(4, false), (13, false), (22, false)], Color::White);
    let cells = pos.cells.clone();
    let state = pos.state;
    let list = pos.get_move_list(false);
    assert!(list.list.len() > 0);
    for m in &list.list {
        assert!(m.strike.is_some());
        pos.make_move(m);
        assert_eq!(pos.next_move, Some(Color::Black));
        assert_ne!(pos.cells, cells);
        assert_eq!(pos.took_pieces.len(), m.strike.as_ref().unwrap().vec.len());
        assert_eq!(
            pos.state.black.simple as usize,
            3 - m.strike.as_ref().unwrap().vec.len()
        );
        pos.unmake_move(m);
        assert_eq!(pos.cells, cells);
        assert_eq!(pos.next_move, Some(Color::White));
        assert_eq!(pos.state.black, state.black);
        assert_eq!(pos.state.white, state.white);
    }
    // a quiet move that crowns
    let mut pos = board(&[(24, false)], &[(3, false)], Color::White);
    let cells = pos.cells.clone();
    let list = pos.get_move_list(false);
    let m = quiet(&list.list, 24, 28);
    assert!(m.is_king_move());
    pos.make_move(&m);
    assert_eq!(pos.state.white.king, 1);
    assert_eq!(pos.state.white.simple, 0);
    assert!(pos.cells[28].unwrap().is_king);
    pos.unmake_move(&m);
    assert_eq!(pos.cells, cells);
    assert_eq!(pos.state.white.king, 0);
    assert_eq!(pos.state.white.simple, 1);
}

#[test]
fn counts_follow_the_board() {
    let mut pos = board(&[(0, true), (2, false)], &[(4, false)], Color::White);
    assert_eq!((pos.state.white.king, pos.state.white.simple, pos.state.black.simple), (1, 1, 1));
    // a piece put on an occupied cell replaces what stood there
    pos.insert_piece(Piece::new(2, Color::Black, true));
    assert_eq!((pos.state.white.king, pos.state.white.simple), (1, 0));
    assert_eq!((pos.state.black.king, pos.state.black.simple), (1, 1));
    assert!(pos.remove_piece(2));
    assert!(!pos.remove_piece(2));
    assert_eq!(pos.state.get_total(), 2);
    assert_eq!(pos.state.evaluate(), 30000 - 10000);
    assert_eq!(pos.get_piece_in_pos(0).color, Color::White);
}

#[test]
fn evaluation_of_material_and_of_the_end() {
    let mut pos = board(&[(0, true), (2, false)], &[(22, false)], Color::White);
    assert_eq!(pos.evaluate(true), 30000 + 10000 - 10000);
    // kept until the board changes
    assert_eq!(pos.eval, Some(30000));
    // a side without a move has lost
    let mut pos = board(&[(0, true)], &[], Color::Black);
    assert_eq!(pos.evaluate(true), i32::MAX / 4 + 30000);
    let mut pos = board(&[], &[(5, false)], Color::White);
    assert_eq!(pos.evaluate(true), i32::MIN / 4 - 10000);
}

#[test]
fn positional_score_with_given_weights() {
    // the white man on 9 has the rays 9-13-18-22-27-31 and 9-12-16: next
    // to it on the first stands a friend, the second is free
    let pos = board(&[(9, false), (13, false)], &[], Color::White);
    let mut draws = vec![0; 32];
    draws[9] = 7;
    draws[13] = 9;
    // 9: one friend, then a free cell next on the other ray: 1 + 2 units;
    // 13: both next cells free, no friends: 2 + 2 units
    assert_eq!(pos.positional_score(&draws), 7 * 3 + 9 * 4);
    let pos = board(&[], &[(22, false)], Color::Black);
    let mut draws = vec![0; 32];
    draws[22] = 6;
    assert_eq!(pos.positional_score(&draws), -6 * 4);
}

#[test]
fn weights_are_drawn_between_six_and_nine() {
    let mut pos = board(&[(9, false), (13, false)], &[(22, false), (30, true)], Color::White);
    for _ in 0..200 {
        let draws = pos.draw_weights();
        assert_eq!(draws.len(), 32);
        for (cell, d) in draws.iter().enumerate() {
            if pos.cells[cell].is_some() {
                assert!(6 <= *d && *d < 10);
            } else {
                assert_eq!(*d, 0);
            }
        }
    }
    let material = 20000 - 10000 - 30000;
    for _ in 0..50 {
        pos.eval = None;
        let e = pos.evaluate(false);
        assert!((e - material).abs() <= 9 * 16 * 4);
    }
}

#[test]
fn moves_for_display_list_every_landing_cell() {
    let mut game = Game::new(8);
    game.current_position.next_move = Some(Color::White);
    game.insert_piece(Piece::new(0, Color::White, true));
    game.insert_piece(Piece::new(9, Color::Black, false));
    let shown = game.get_move_list(true);
    let landings: Vec<usize> = shown.list.iter().map(|m| m.to()).collect();
    assert_eq!(landings, vec![13, 18, 22, 27, 31]);
    assert!(shown.list.iter().all(|m| m.from() == 0));
    let plain = game.get_move_list(false);
    assert_eq!(plain.list.len(), 5);
}

#[test]
fn summaries_compare_by_material() {
    let a = board(&[(0, true)], &[(22, false)], Color::White);
    let mut b = board(&[(4, true)], &[(30, false)], Color::Black);
    b.state.kings_start_at = Some(3);
    assert!(a.state == b.state);
    let c = board(&[(4, false)], &[(30, false)], Color::Black);
    assert!(a.state != c.state);
    assert!(c.state < a.state);
    assert!(a.state > c.state);
    assert_eq!(a.state.balance(), 20000);
    let mut s = a.state;
    assert_eq!(s.get_total_color(Color::White), 1);
    s.get_count(Color::Black).king = 2;
    assert_eq!(s.black.king, 2);
    assert!(s.eq_counts(&s.clone()));
}

#[test]
fn grades_and_states() {
    let mut grade = draughts::position_environment::Grade { black: 1, white: 2, is_king: 9 };
    *grade.get(&Piece::new(0, Color::White, false)) += 1;
    *grade.get(&Piece::new(0, Color::Black, true)) = 5;
    assert_eq!((grade.black, grade.white, grade.is_king), (1, 3, 5));
    assert_eq!(draughts::cache_db::WaitWhile::Del.code(), 1);
    assert_eq!(draughts::cache_db::WaitWhile::Rw.code(), 2);
    let mut c = Color::White;
    c.reverse();
    assert_eq!(c, Color::Black);
    assert_eq!(c.inverse(), Color::White);
    let mut v = draughts::vector::Vector::new(1, vec![7, 8, 9, 10]);
    v.set_range(1, 3);
    let mut it = v.into_iter();
    assert_eq!(it.next(), Some(&8));
    assert_eq!(it.next(), Some(&9));
    assert_eq!(it.next(), None);
    v.clear_range();
    assert_eq!(v.get_ban_direction(), 3);
    assert_eq!(draughts::vector::min(3, 2), 2);
}
