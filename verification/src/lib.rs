//! A draughts engine: the rules of movement and capture on a board of dark
//! squares, the rules that end a game, two searches for the best move (the
//! game tree to a depth, and rollouts through a tree of positions), and the
//! caches that the rollouts share. Beside them stands a merge sort for lists
//! of numbers drawn at random.
//!
//! Every function states what it returns and changes, and every statement
//! is proved. What rests on code outside the library says so where it
//! stands: the draw of random numbers in [`chance`], and the table of the
//! shared cache in [`cache_db`].

use vstd::prelude::*;

pub mod board;
pub mod cache_db;
pub mod cache_map;
pub mod chance;
pub mod color;
pub mod evaluation;
pub mod finish;
pub mod game;
pub mod game_play;
pub mod game_tree;
pub mod list_p;
pub mod loop_array;
pub mod mcts;
pub mod move_gen;
pub mod moves;
pub mod moves_list;
pub mod mutable_iterator;
pub mod piece;
pub mod pos_state;
pub mod position;
pub mod position_environment;
pub mod position_history;
pub mod rules;
pub mod sorting;
pub mod vector;
