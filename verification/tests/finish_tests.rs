use draughts::color::Color;
use draughts::finish::FinishType;
use draughts::moves::QuietMove;
use draughts::moves_list::MoveItem;
use draughts::piece::Piece;
use draughts::position::Position;
use draughts::position_environment::PositionEnvironment;
use draughts::position_history::{PositionAndMove, PositionHistory};
use std::sync::Arc;

fn board(white: &[(usize, bool)], black: &[(usize, bool)], next: Color) -> Position {
    let env = Arc::new(PositionEnvironment::new(8));
    let mut pos = Position::new(env);
    for (cell, king) in white {
        pos.insert_piece(Piece::new(*cell, Color::White, *king));
    }
    for (cell, king) in black {
        pos.insert_piece(Piece::new(*cell, Color::Black, *king));
    }
    pos.next_move = Some(next);
    pos
}

fn step(pos: &mut Position, history: &mut PositionHistory, from: usize, to: usize) -> Option<FinishType> {
    let list = pos.get_move_list(false);
    let m = list
        .list
        .iter()
        .find(|m| m.mov.map(|q| q.from == from && q.to == to).unwrap_or(false))
        .unwrap()
        .clone();
    pos.make_move(&m);
    history.push(PositionAndMove::from(pos.clone(), m))
}

#[test]
fn an_empty_history_has_no_result() {
    let mut history = PositionHistory::new();
    assert!(history.finish_check().is_none());
    assert_eq!(history.len(), 0);
    assert!(history.pop().is_none());
}

#[test]
fn a_side_without_moves_has_lost() {
    let mut history = PositionHistory::new();
    let pos = board(&[(0, true)], &[], Color::Black);
    assert!(matches!(history.push(PositionAndMove::from_pos(pos)), Some(FinishType::WhiteWin)));
    let pos = board(&[], &[(9, false)], Color::White);
    assert!(matches!(history.push(PositionAndMove::from_pos(pos)), Some(FinishType::BlackWin)));
    assert_eq!(history.len(), 2);
    history.cut_to(1);
    assert_eq!(history.len(), 1);
    assert_eq!(history.last().pos.next_move, Some(Color::Black));
}

#[test]
fn third_occurrence_is_a_draw() {
    let a = board(&[(0, true)], &[(3, true)], Color::White);
    let b = board(&[(4, true)], &[(3, true)], Color::Black);
    let mut history = PositionHistory::new();
    assert!(history.push(PositionAndMove::from_pos(a.clone())).is_none());
    assert!(history.push(PositionAndMove::from_pos(b.clone())).is_none());
    assert!(history.push(PositionAndMove::from_pos(a.clone())).is_none());
    assert!(history.push(PositionAndMove::from_pos(b.clone())).is_none());
    let at_four = history.push(PositionAndMove::from_pos(a.clone()));
    assert!(matches!(at_four, Some(FinishType::Draw2)));
    assert_eq!(history.last().pos.state.repeats, 2);
    assert_eq!(history.last().pos.state.kings_start_at, Some(0));
    let at_five = history.push(PositionAndMove::from_pos(b.clone()));
    assert!(matches!(at_five, Some(FinishType::Draw2)));
    assert_eq!(history.len(), 6);
}

#[test]
fn sixteen_king_moves_are_a_draw() {
    let mut pos = board(&[(0, true), (1, true)], &[(3, true), (24, true)], Color::White);
    let mut history = PositionHistory::new();
    let round = [(0, 4), (3, 7), (1, 5), (24, 28), (4, 0), (7, 3), (5, 1), (28, 24)];
    let mut results = Vec::new();
    for ply in 0..16 {
        let (from, to) = round[ply % 8];
        results.push(step(&mut pos, &mut history, from, to));
    }
    for ply in 0..15 {
        assert!(results[ply].is_none(), "over at move {}", ply + 1);
    }
    assert!(matches!(results[15], Some(FinishType::Draw1)));
    assert_eq!(history.last().pos.state.kings_only_move_start_at, Some(0));
}

#[test]
fn sixteen_king_moves_after_the_first_position() {
    let mut pos = board(&[(0, true), (1, true)], &[(3, true), (24, true), (31, false)], Color::White);
    let mut history = PositionHistory::new();
    assert!(history.push(PositionAndMove::from_pos(pos.clone())).is_none());
    let round = [(0, 4), (3, 7), (1, 5), (24, 28), (4, 0), (7, 3), (5, 1), (28, 24)];
    for ply in 0..15 {
        let (from, to) = round[ply % 8];
        assert!(step(&mut pos, &mut history, from, to).is_none(), "over at move {}", ply + 1);
    }
    let (from, to) = round[15 % 8];
    assert!(matches!(step(&mut pos, &mut history, from, to), Some(FinishType::Draw1)));
    assert_eq!(history.last().pos.state.kings_only_move_start_at, Some(1));
}

#[test]
fn a_move_of_a_man_ends_the_run_of_kings() {
    let mut pos = board(&[(0, true), (2, false)], &[(3, true), (24, true), (31, false)], Color::White);
    let mut history = PositionHistory::new();
    assert!(step(&mut pos, &mut history, 0, 4).is_none());
    assert_eq!(history.last().pos.state.kings_only_move_start_at, Some(0));
    assert!(step(&mut pos, &mut history, 3, 7).is_none());
    assert!(step(&mut pos, &mut history, 2, 5).is_none());
    assert_eq!(history.last().pos.state.kings_only_move_start_at, None);
    assert!(step(&mut pos, &mut history, 7, 3).is_none());
    assert_eq!(history.last().pos.state.kings_only_move_start_at, Some(3));
}

#[test]
fn unchanged_material_is_a_draw() {
    // two kings: more than five plies without a change
    let a = board(&[(0, true)], &[(3, true)], Color::White);
    let mut history = PositionHistory::new();
    let mut results = Vec::new();
    for ply in 0..7 {
        // positions that differ from one another, so that none comes thrice
        let mut pos = a.clone();
        pos.remove_piece(0);
        pos.insert_piece(Piece::new([0, 4, 9, 13, 18, 22, 27][ply], Color::White, true));
        pos.next_move = Some(if ply % 2 == 0 { Color::White } else { Color::Black });
        results.push(history.push(PositionAndMove::from_pos(pos)));
    }
    for ply in 0..6 {
        assert!(results[ply].is_none(), "over at ply {}", ply);
    }
    assert!(matches!(results[6], Some(FinishType::Draw4)));
    assert_eq!(history.last().pos.state.power_equal_start_at, Some(0));
}

#[test]
fn one_king_against_three_is_a_draw_after_fifteen_plies() {
    let mut history = PositionHistory::new();
    let cells = [0, 4, 9, 13, 18, 22, 27, 31];
    let mut results = Vec::new();
    for ply in 0..16 {
        let mut pos = board(&[(1, true), (2, true), (5, true), (6, false), (10, false), (11, false)], &[], Color::White);
        pos.insert_piece(Piece::new(cells[ply % 8], Color::Black, true));
        pos.insert_piece(Piece::new(30, Color::Black, false));
        pos.insert_piece(Piece::new(29, Color::Black, false));
        pos.next_move = Some(if ply % 2 == 0 { Color::White } else { Color::Black });
        results.push(history.push(PositionAndMove::from_pos(pos)));
    }
    for ply in 0..15 {
        assert!(results[ply].is_none(), "over at ply {}", ply);
    }
    assert!(matches!(results[15], Some(FinishType::Draw3)));
    assert_eq!(history.last().pos.state.triangle_start_at, Some(0));
}

#[test]
fn a_lone_king_on_the_main_road_is_a_draw_after_ten_plies() {
    let mut history = PositionHistory::new();
    let cells = [4, 9, 13, 18, 22, 27];
    let mut results = Vec::new();
    for ply in 0..11 {
        // Black's only king is the first piece on the main road; White has
        // a king and two men
        let mut pos = board(&[(1, true), (2, false), (3, false)], &[], Color::White);
        pos.insert_piece(Piece::new(cells[ply % 6], Color::Black, true));
        pos.next_move = Some(if ply % 2 == 0 { Color::White } else { Color::Black });
        results.push(history.push(PositionAndMove::from_pos(pos)));
    }
    for ply in 0..10 {
        assert!(results[ply].is_none(), "over at ply {}", ply);
    }
    assert!(matches!(results[10], Some(FinishType::Draw5)));
    assert_eq!(history.last().pos.state.main_road_start_at, Some(0));
}

#[test]
fn without_kings_no_run_is_under_way() {
    let mut history = PositionHistory::new();
    let pos = board(&[(9, false)], &[(22, false)], Color::White);
    assert!(history.push(PositionAndMove::from_pos(pos)).is_none());
    assert_eq!(history.last().pos.state.kings_start_at, None);
    let entry = PositionAndMove::from(
        board(&[(9, true)], &[(22, true)], Color::Black),
        MoveItem { strike: None, mov: Some(QuietMove { from: 4, to: 9, king_move: false }) },
    );
    assert!(history.push_rc(entry).is_none());
    assert_eq!(history.last().pos.state.kings_start_at, Some(1));
    assert_eq!(history.last().pos.state.kings_only_move_start_at, Some(1));
}

#[test]
fn no_run_outlasts_a_ply_without_both_kings() {
    // fifteen king moves in a row, both sides with kings
    let mut pos = board(&[(0, true), (1, true)], &[(3, true), (24, true)], Color::White);
    let mut history = PositionHistory::new();
    let round = [(0, 4), (3, 7), (1, 5), (24, 28), (4, 0), (7, 3), (5, 1), (28, 24)];
    for ply in 0..15 {
        let (from, to) = round[ply % 8];
        assert!(step(&mut pos, &mut history, from, to).is_none());
    }
    assert_eq!(history.last().pos.state.kings_only_move_start_at, Some(0));
    // a ply on which Black has no king: a man has moved
    let mut lone = board(&[(0, true), (1, true)], &[(26, false), (24, false)], Color::Black);
    assert!(step(&mut lone, &mut history, 26, 22).is_none());
    let s = history.last().pos.state;
    assert_eq!(s.kings_start_at, None);
    assert_eq!(s.kings_only_move_start_at, None);
    assert_eq!(s.triangle_start_at, None);
    assert_eq!(s.power_equal_start_at, None);
    assert_eq!(s.main_road_start_at, None);
    // both sides have kings again: the run of king moves begins with this ply
    let mut again = board(&[(0, true), (1, true)], &[(3, true), (24, true)], Color::White);
    assert!(step(&mut again, &mut history, 0, 4).is_none());
    let s = history.last().pos.state;
    assert_eq!(s.kings_start_at, Some(16));
    assert_eq!(s.kings_only_move_start_at, Some(16));
}
