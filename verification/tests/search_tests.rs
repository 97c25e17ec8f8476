use draughts::cache_db::NodeCacheItem;
use draughts::color::Color;
use draughts::finish::FinishType;
use draughts::game::{Game, Method};
use draughts::game_play::MoveOutcome;
use draughts::game_tree::{leading_board, same_row, Advice, Outlook};
use draughts::mcts::{McTree, Quality, VectorPosition};
use draughts::piece::Piece;
use draughts::position_history::PositionHistory;
use draughts::sorting::stable_order;

fn uct(stats: &Vec<Quality>, visits: i64, last: bool) -> usize {
    let mut best = 0;
    let mut best_value = f64::NEG_INFINITY;
    for (i, q) in stats.iter().enumerate() {
        let u = 2.0 * f64::sqrt(f64::ln(visits as f64) / (q.N as f64 + 1.0));
        let mean = q.W as f64 / (q.N as f64 + 1.0);
        let value = if last { mean - u } else { mean + u };
        if !(value < best_value) {
            best = i;
            best_value = value;
        }
    }
    best
}

fn small_game() -> Game {
    let mut game = Game::new(8);
    game.current_position.next_move = Some(Color::White);
    game.insert_piece(Piece::new(9, Color::White, false));
    game.insert_piece(Piece::new(2, Color::White, false));
    game.insert_piece(Piece::new(22, Color::Black, false));
    game.insert_piece(Piece::new(30, Color::Black, false));
    game
}

#[test]
fn key_of_a_position() {
    let game = small_game();
    let key = VectorPosition::from_position(&game.current_position);
    assert_eq!(key.0.len(), 33);
    assert_eq!(key.0[9], 1);
    assert_eq!(key.0[22], -1);
    assert_eq!(key.0[0], 0);
    assert_eq!(key.0[32], 1);
    let mut pos = game.current_position.clone();
    pos.insert_piece(Piece::new(0, Color::Black, true));
    pos.insert_piece(Piece::new(1, Color::White, true));
    let key = VectorPosition::from_cells(&pos.cells, Color::Black);
    assert_eq!((key.0[0], key.0[1], key.0[32]), (-3, 3, -1));
    pos.next_move = Some(Color::Black);
    assert!(key.same(&pos.get_key()));
    assert!(!key.same(&VectorPosition::from_position(&game.current_position)));
}

#[test]
fn stable_order_of_keys() {
    assert_eq!(stable_order(&vec![5, 1, 5, -3, 1]), vec![3, 1, 4, 0, 2]);
    assert_eq!(stable_order(&vec![]), Vec::<usize>::new());
}

#[test]
fn backing_up_a_win_of_white_alternates() {
    // White wins at once: Black's only man is taken
    let mut game = Game::new(8);
    game.current_position.next_move = Some(Color::White);
    game.insert_piece(Piece::new(9, Color::White, false));
    game.insert_piece(Piece::new(13, Color::Black, false));
    let mut tree = McTree::new(game.current_position.clone());
    let mut history = PositionHistory::new();
    let (child, finish) = tree.step(&mut history, 0, &uct);
    assert_eq!(child, 1);
    assert!(matches!(finish, Some(FinishType::WhiteWin)));
    assert_eq!(history.len(), 1);
    let res = tree.rollout_result(child, &FinishType::WhiteWin);
    assert_eq!(res, 1);
    tree.back_propagation(&vec![0, 1], res);
    // the last node was reached by White: it gains; the root, where White
    // is to move, counts for Black and loses
    assert_eq!(tree.nodes[1].W, 1);
    assert_eq!(tree.nodes[0].W, -1);
    assert_eq!(tree.nodes[1].game_len_sum, 0);
    assert_eq!(tree.nodes[0].game_len_sum, 1);
    assert!(tree.nodes[1].passed);
    assert!(tree.nodes[0].passed);
    assert_eq!(tree.nodes[0].N, 1);
    tree.back_propagation(&vec![0, 1], -1);
    assert_eq!((tree.nodes[0].W, tree.nodes[1].W), (0, 0));
}

#[test]
fn one_rollout_backs_up_its_end() {
    let mut game = Game::new(8);
    game.current_position.next_move = Some(Color::White);
    game.insert_piece(Piece::new(9, Color::White, false));
    game.insert_piece(Piece::new(13, Color::Black, false));
    let mut tree = McTree::new(game.current_position.clone());
    let mut history = PositionHistory::new();
    let (used, end) = tree.rollout(&mut history, 10, &uct);
    assert_eq!(used, 1);
    assert!(matches!(end, Some(FinishType::WhiteWin)));
    assert_eq!(history.len(), 0);
    assert_eq!(tree.nodes.len(), 2);
    assert_eq!((tree.nodes[0].W, tree.nodes[0].N), (-1, 1));
    assert_eq!((tree.nodes[1].W, tree.nodes[1].N), (1, 0));
    assert!(tree.nodes[0].passed);
}

#[test]
fn a_rollout_stops_when_its_steps_are_used_up() {
    let game = small_game();
    let mut tree = McTree::new(game.current_position.clone());
    let mut history = PositionHistory::new();
    let (used, end) = tree.rollout(&mut history, 2, &uct);
    assert_eq!(used, 2);
    assert!(end.is_none());
    assert_eq!(history.len(), 0);
    assert_eq!(tree.nodes.len(), 3);
    assert_eq!((tree.nodes[0].W, tree.nodes[0].N), (0, 1));
    assert_eq!((tree.nodes[1].W, tree.nodes[1].N), (0, 1));
    assert_eq!((tree.nodes[2].W, tree.nodes[2].N), (0, 0));
    // a search without a step to take leaves such a tree as it is
    let best = tree.search(&mut history, 0, &uct);
    assert_eq!(best, 1);
    assert_eq!(tree.nodes.len(), 3);
    assert_eq!(tree.nodes[0].N, 1);
}

#[test]
fn search_leaves_the_history_alone() {
    let game = small_game();
    let mut tree = McTree::new(game.current_position.clone());
    let mut history = PositionHistory::new();
    let best = tree.search(&mut history, 400, &uct);
    assert_eq!(history.len(), 0);
    assert!(tree.nodes[0].childs.contains(&best));
    assert_eq!(tree.nodes[0].childs.len(), 4);
    assert!(tree.nodes[0].N > 0);
    let visits: i64 = tree.root_map().iter().sum();
    assert!(visits > 0);
    assert_eq!(tree.tree_childs(), tree.nodes[0].childs);
    for c in tree.tree_childs() {
        assert_eq!(tree.nodes[c].pos_mov.pos.next_move, Some(Color::Black));
    }
    let item = NodeCacheItem::from_node(&tree, 0);
    assert_eq!(item.childs.len(), 4);
    assert_eq!(item.quality.N, tree.nodes[0].N);
}

#[test]
fn search_with_a_cache() {
    let game = small_game();
    let mut tree = McTree::new(game.current_position.clone());
    tree.set_cache(draughts::cache_db::CacheDb::new("checkers".to_string(), "nodes".to_string(), 100, 2, 50));
    let mut history = PositionHistory::new();
    tree.search(&mut history, 3000, &uct);
    let root_key = tree.nodes[0].get_key();
    let known = tree.cache.as_ref().unwrap().get(&root_key);
    assert!(known.is_some());
    assert!(known.unwrap().quality.N > 100);
    assert!(tree.pending.len() > 0);
    // what the cache knows better is taken over, and nothing is lost
    let n = tree.nodes[0].N;
    let mut better = NodeCacheItem::from_node(&tree, 0);
    better.quality.N = n + 10;
    better.quality.W = 77;
    tree.cache.as_mut().unwrap().insert(better);
    assert!(tree.update_from_cache(0));
    assert_eq!((tree.nodes[0].N, tree.nodes[0].W), (n + 10, 77));
    assert!(!tree.update_from_cache(0));
    assert_eq!(tree.nodes[0].N, n + 10);
}

#[test]
fn game_by_rollouts() {
    let mut game = small_game();
    game.set_method(Method::MCTS);
    game.set_mcts_lim(300);
    let before = game.current_position.clone();
    let res = game.find_mcts_and_make_best_move(false, &uct);
    assert!(res.finish.is_none());
    assert!(res.board_list.is_none());
    assert_eq!(game.current_position, before);
    assert_eq!(game.position_history.len(), 0);
    let res = game.find_mcts_and_make_best_move(true, &uct);
    assert!(res.finish.is_none());
    let boards = res.board_list.unwrap();
    assert_eq!(game.current_position, res.pos_move.unwrap().pos);
    assert_eq!(game.current_position.next_move, Some(Color::Black));
    assert_eq!(game.position_history.len(), 1);
    assert!(boards.len() > 0);
    for b in &boards {
        assert_eq!(b.len(), 34);
    }
    assert!(game.check_tree_for_finish().is_none());
    let finish = game.move_by_tree_index(0);
    assert!(finish.is_none());
    assert_eq!(game.position_history.len(), 2);
    assert_eq!(game.current_position.next_move, Some(Color::White));
    game.mov_back();
    assert_eq!(game.position_history.len(), 0);
    assert_eq!(game.current_position.cells, before.cells);
    assert!(game.tree.is_none());
}

#[test]
fn game_by_both_methods() {
    let mut game = small_game();
    game.set_depth(2);
    game.set_mcts_lim(200);
    let best = game.mix_method(true, &uct);
    assert!(best.pos.is_some());
    assert_eq!(game.current_position, best.pos.unwrap().pos);
    assert_eq!(game.position_history.len(), 1);
    game.set_method(Method::Mix);
    match game.get_or_apply_best_move(false, &uct) {
        Advice::Best(b) => assert!(b.pos.is_some()),
        Advice::Finished(_) => panic!("the game is not over"),
    }
    game.set_method(Method::Deep);
    match game.get_or_apply_best_move(true, &uct) {
        Advice::Best(b) => assert_eq!(b.get_move_item().from(), game.position_history.last().mov.as_ref().unwrap().from()),
        Advice::Finished(_) => panic!("the game is not over"),
    }
    assert_eq!(game.position_history.len(), 2);
}

#[test]
fn moves_asked_for_by_cell_or_by_index() {
    let mut game = Game::new(8);
    game.current_position.next_move = Some(Color::White);
    game.insert_piece(Piece::new(9, Color::White, false));
    game.insert_piece(Piece::new(2, Color::White, false));
    game.insert_piece(Piece::new(18, Color::Black, false));
    game.insert_piece(Piece::new(30, Color::Black, false));
    assert!(matches!(game.make_move_for_front(&vec![]), MoveOutcome::Refused));
    assert!(matches!(game.make_move_for_front(&vec![0, 4]), MoveOutcome::Refused));
    assert!(matches!(game.make_move_for_front(&vec![9, 14]), MoveOutcome::Refused));
    assert!(matches!(game.make_move_for_front(&vec![9, 13, 18]), MoveOutcome::Refused));
    assert_eq!(game.position_history.len(), 0);
    assert!(matches!(game.make_move_for_front(&vec![9, 13]), MoveOutcome::Moved));
    assert_eq!(game.position_history.len(), 1);
    assert!(game.current_position.cells[13].is_some());
    assert_eq!(game.get_color(), Some(Color::Black));
    assert!(matches!(game.move_by_index_ts_n(-1), MoveOutcome::Refused));
    assert!(matches!(game.move_by_index_ts_n(99), MoveOutcome::Refused));
    // Black has to take
    assert_eq!(game.get_move_list_for_front().list.len(), 1);
    let boards = game.get_board_list();
    assert_eq!(boards.len(), 1);
    assert_eq!(boards[0][13], 0);
    assert_eq!(boards[0][18], 0);
    assert_eq!(boards[0][9], -1);
    assert_eq!(boards[0][2], 1);
    assert_eq!(boards[0].len(), 32);
    assert!(matches!(game.move_by_index_ts_n(0), MoveOutcome::Moved));
    assert_eq!(game.current_position.state.white.simple, 1);
    assert_eq!(game.position_history.len(), 2);
    match game.find_and_make_best_move_ts_n() {
        Outlook::Boards(b) => assert!(b.len() > 0),
        Outlook::Finished(_) => panic!("the game is not over"),
    }
    assert_eq!(game.position_history.len(), 3);
    game.set_color(Color::White);
    assert_eq!(game.get_color(), Some(Color::White));
    assert_eq!(game.to_board(game.to_pack(63)), 63);
}

#[test]
fn look_by_material() {
    let game = small_game();
    let mut tree = McTree::new(game.current_position.clone());
    assert_eq!(tree.root_search(0, 3, 0), 0);
    tree.expand(0);
    assert_eq!(tree.nodes[0].childs, vec![1, 2, 3, 4]);
    // nothing is won or lost by any move: the last of the equal ones
    assert_eq!(tree.root_search(0, 3, 0), 4);
    assert_eq!(tree.root_search(0, 0, 0), 4);
    // below the first child Black loses a man in one line
    tree.expand(1);
    let first = tree.nodes[1].childs[0];
    tree.nodes[first].pos_mov.pos.remove_piece(30);
    assert_eq!(tree.root_search(0, 3, 0), 1);
    assert_eq!(tree.root_search(1, 3, 1), first);
    assert_eq!(tree.root_search(0, 0, 0), 4);
}

#[test]
fn the_board_to_follow() {
    // scores 4, 9, 9, 2: the last of the highest is the third board
    let rows = vec![vec![1, 0, 4, 7], vec![0, 1, 9, 7], vec![1, 1, 9, 7], vec![0, 0, 2, 7]];
    assert_eq!(leading_board(&rows), 2);
    // the first board that is equal to it is followed
    let rows = vec![vec![1, 0, 4, 7], vec![0, 1, 9, 7], vec![0, 1, 9, 7], vec![0, 0, 2, 7]];
    assert_eq!(leading_board(&rows), 1);
    assert_eq!(leading_board(&vec![vec![5, 5]]), 0);
    assert!(same_row(&vec![1, 2], &vec![1, 2]));
    assert!(!same_row(&vec![1, 2], &vec![1, 3]));
    assert!(!same_row(&vec![1, 2], &vec![1, 2, 3]));
}

#[test]
fn one_pass_on_two_men() {
    // White's man on cell 0 takes Black's only man on cell 4 and lands on 9
    let mut game = Game::new(8);
    game.current_position.next_move = Some(Color::White);
    game.insert_piece(Piece::new(0, Color::White, false));
    game.insert_piece(Piece::new(4, Color::Black, false));
    let mut tree = McTree::new(game.current_position.clone());
    tree.set_cache(draughts::cache_db::CacheDb::new("checkers".to_string(), "nodes".to_string(), 100, 2, 50));
    let mut history = PositionHistory::new();
    let best = tree.search(&mut history, 1, &uct);
    assert_eq!(history.len(), 0);
    assert_eq!(tree.nodes[0].childs, vec![best]);
    let child = &tree.nodes[best];
    assert!(child.pos_mov.pos.cells[9].is_some());
    assert!(child.pos_mov.pos.cells[0].is_none());
    assert!(child.pos_mov.pos.cells[4].is_none());
    assert_eq!(child.pos_mov.pos.next_move, Some(Color::Black));
    assert!(matches!(child.finish, Some(FinishType::WhiteWin)));
    assert_eq!(child.W, 1);
    assert_eq!(tree.nodes[0].W, -1);
    // the child records the move that led to it, a legal move of the root
    let moves = game.get_move_list(false);
    assert_eq!(moves.list.len(), 1);
    assert!(child.pos_mov.mov.as_ref().unwrap().same_move(&moves.list[0]));
    assert_eq!(child.pos_mov.pos.took_pieces.len(), 1);
}
