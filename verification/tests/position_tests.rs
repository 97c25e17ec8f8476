use draughts::color::Color;
use draughts::game::Game;
use draughts::piece::Piece;
use draughts::position::Position;

#[test]
fn positions_eq() {
    let mut g1 = Game::new(8);
    let mut g2 = Game::new(8);
    g1.insert_piece(Piece::new(0, Color::White, true));
    g2.insert_piece(Piece::new(0, Color::White, true));
    assert_eq!(g1.current_position, g2.current_position);
    g1.insert_piece(Piece::new(1, Color::White, true));
    g2.insert_piece(Piece::new(1, Color::White, true));
    assert_eq!(g1.current_position, g2.current_position);
    g1.insert_piece(Piece::new(3, Color::White, true));
    g2.insert_piece(Piece::new(3, Color::White, false));
    assert_ne!(g1.current_position, g2.current_position);
    g1.remove_piece(3);
    assert_ne!(g1.current_position, g2.current_position);
    g2.remove_piece(3);
    assert_eq!(g1.current_position, g2.current_position);
    g1.insert_piece(Piece::new(3, Color::White, true));
    g2.insert_piece(Piece::new(1, Color::White, true));
    assert_ne!(g1.current_position, g2.current_position);
    g1.remove_piece(3);
    g2.remove_piece(3);
    assert_eq!(g1.current_position, g2.current_position);
    let _prev_pos = Position::new(g1.current_position.environment.clone());
}
