//! The play phase of a game of Go for several seats and teams, with its rule variants.
//!
//! `play` holds the state machine: a player places a stone, passes or undoes a move, and
//! the game changes or the action is refused. `rules` states what each action does, over
//! the mathematical content of the game; `board`, `groups`, `visibility`, `placement`,
//! `capture` and `n_plus_one` hold the parts that the state machine is made of. `laws`,
//! `liberties` and `superko` prove what holds of every game. `game_store` and `game_view`
//! are the client's side: what it is shown, and which positions it keeps.

pub mod board;
pub mod capture;
pub mod game;
pub mod game_store;
pub mod game_view;
pub mod groups;
pub mod laws;
pub mod liberties;
pub mod n_plus_one;
pub mod placement;
pub mod play;
pub mod point_list;
pub mod rules;
pub mod superko;
pub mod visibility;
