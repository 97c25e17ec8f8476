use draughts::color::Color;
use draughts::finish::FinishType::{BlackWin, Draw1, Draw2, Draw3, WhiteWin};
use draughts::game::Game;
use draughts::piece::Piece;

#[test]
fn game_test() {
    let game = Game::new(8);
    assert!(game.current_position.state.kings_start_at.is_none());
}

#[test]
fn game_quite_move() {
    let mut game = Game::new(8);
    game.current_position.next_move = Option::from(Color::White);
    game.insert_piece(Piece::new(13, Color::White, true));
    vec![2, 27, 24].iter().for_each(|pos| game.insert_piece(Piece::new(*pos, Color::White, false)));
    let list = game.get_move_list(true);
    println!("\ngame_quite_move {:?} \n", {
        let z: Vec<_> = list.list.iter().map(|x| x.mov.clone().unwrap()).collect();
        z
    });
    assert_eq!(list.list.len(), 15);
}

#[test]
fn game_strike_list() {
    let mut game = Game::new(8);
    game.current_position.next_move = Some(Color::White);
    game.insert_piece(Piece::new(game.to_pack(47), Color::White, false));
    game.insert_piece(Piece::new(game.to_pack(63), Color::White, false));
    game.insert_piece(Piece::new(game.to_pack(15), Color::White, true));
    for pos in vec![54, 43, 20] {
        let cell = game.to_pack(pos);
        game.insert_piece(Piece::new(cell, Color::Black, false));
    }
    let started = std::time::Instant::now();
    let mut rounds = 0;
    for _t in 0..1000000 {
        let _list = game.get_move_list(true);
        rounds += 1;
        if started.elapsed().as_secs() >= 5 {
            break;
        }
    }
    assert!(rounds > 0);
    let list = game.get_move_list(true);
    println!("\ngame_quite_move {:?} \n", {
        let z: Vec<_> = list.list.iter().map(|x| x.strike.clone().unwrap()).collect();
        z
    });
    assert_eq!(list.list.len(), 5);
}

#[test]
fn best_move() {
    let mut game = Game::new(8);
    game.current_position.next_move = Some(Color::White);
    game.insert_piece(Piece::new(game.to_pack(0), Color::White, true));
    for pos in vec![9, 11, 13, 25, 27, 29, 41, 43, 45] {
        let cell = game.to_pack(pos);
        game.insert_piece(Piece::new(cell, Color::Black, false));
    }
    let best = &game.get_best_move_rust();
    assert_eq!(best.pos.as_ref().unwrap().pos.took_pieces.len(), 9);
    println!("\n best: {:?} \n", { best });
}

#[test]
fn finish_cmp() {
    assert_eq!(Draw2, Draw1);
    assert_eq!(WhiteWin, WhiteWin);
    assert_eq!(BlackWin, BlackWin);
    assert_ne!(BlackWin, WhiteWin);
    assert_ne!(Draw2, WhiteWin);
    assert_eq!(WhiteWin > BlackWin, true);
    assert_eq!(BlackWin < WhiteWin, true);
    assert_eq!(WhiteWin < BlackWin, false);
    assert_eq!(WhiteWin > Draw3, true);
    assert_eq!(BlackWin < Draw1, true);
}

#[test]
fn performance() {
    let mut game = Game::new(8);
    {
        let pos = &mut game.current_position;
        pos.insert_piece(Piece::new(22, Color::White, false));
        pos.insert_piece(Piece::new(4, Color::Black, true));
        pos.insert_piece(Piece::new(21, Color::Black, true));
        pos.insert_piece(Piece::new(20, Color::Black, true));
        pos.insert_piece(Piece::new(12, Color::Black, true));
        pos.insert_piece(Piece::new(13, Color::Black, true));
        pos.insert_piece(Piece::new(26, Color::Black, true));
        pos.next_move = Option::from(Color::Black);
        for _i in 0..1000 {
            let list = pos.get_move_list(false);
            let po = pos.make_move_and_get_position(&list.list[0]);
            if po.pos != po.pos {
                break;
            }
            pos.unmake_move(&list.list[0]);
        }
    }
    let mut game = Game::new(8);
    game.insert_piece(Piece::new(game.to_pack(47), Color::White, false));
    game.insert_piece(Piece::new(game.to_pack(63), Color::White, false));
    game.insert_piece(Piece::new(game.to_pack(15), Color::White, true));
    for pos in vec![54, 43, 20] {
        let cell = game.to_pack(pos);
        game.insert_piece(Piece::new(cell, Color::Black, false));
    }
    let pos = &mut game.current_position;
    pos.next_move = Some(Color::White);
    for _i in 0..1000 {
        let list = pos.get_move_list(false);
        let po = pos.make_move_and_get_position(&list.list[0]);
        if po.pos != po.pos {
            break;
        }
        pos.unmake_move(&list.list[0]);
    }
}

#[test]
fn the_search_records_what_the_deeper_search_answers() {
    // White takes the only man of Black, who is left without a move
    let mut game = Game::new(8);
    game.current_position.next_move = Some(Color::White);
    game.insert_piece(Piece::new(9, Color::White, false));
    game.insert_piece(Piece::new(13, Color::Black, false));
    let best = game.best_move(3, i32::MIN / 2, i32::MAX / 2, 0, true);
    assert_eq!(best.pos_list.len(), 1);
    assert_eq!(best.deep_eval, i32::MAX / 4 + 10000);
    assert_eq!(best.pos_list[0].deep_eval, Some(i32::MAX / 4 + 10000));
    assert_eq!(best.pos_list[0].pos.eval, Some(i32::MAX / 4 + 10000));
    let chosen = best.pos.as_ref().unwrap();
    assert_eq!(chosen.deep_eval, Some(best.deep_eval));
    assert_eq!(chosen.pos.took_pieces.len(), 1);
    // nothing is left of the search on the board or in the history
    assert!(game.current_position.cells[9].is_some());
    assert!(game.current_position.cells[13].is_some());
    assert_eq!(game.current_position.next_move, Some(Color::White));
    assert_eq!(game.position_history.len(), 0);
}
