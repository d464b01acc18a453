//! What a client is shown of a game.

use vstd::prelude::*;
use crate::game::{GameModifier, GameState};

verus! {

/// The position after one move of a game, as a client is shown it.
pub struct GameHistory {
    pub board: Vec<u8>,
    pub board_visibility: Option<Vec<u16>>,
    pub last_stone: Option<Vec<(u32, u32)>>,
    pub move_number: u32,
}

/// The content of a `GameHistory`.
pub struct HistorySnapshot {
    pub board: Seq<u8>,
    pub board_visibility: Option<Seq<u16>>,
    pub last_stone: Option<Seq<(u32, u32)>>,
    pub move_number: u32,
}

impl View for GameHistory {
    type V = HistorySnapshot;

    open spec fn view(&self) -> HistorySnapshot {
        HistorySnapshot {
            board: self.board@,
            board_visibility: match self.board_visibility {
                Some(v) => Some(v@),
                None => None,
            },
            last_stone: match self.last_stone {
                Some(v) => Some(v@),
                None => None,
            },
            move_number: self.move_number,
        }
    }
}

/// A copy of a list of points.
pub fn copy_stones(points: &Vec<(u32, u32)>) -> (r: Vec<(u32, u32)>)
    ensures
        r@ == points@,
{
    let mut r: Vec<(u32, u32)> = Vec::new();
    let n = points.len();
    let mut i: usize = 0;
    while i < n
        invariant
            i <= n,
            n == points@.len(),
            r@ == points@.subrange(0, i as int),
        decreases n - i,
    {
        r.push(points[i]);
        proof {
            assert(r@ =~= points@.subrange(0, i + 1));
        }
        i += 1;
    }
    proof {
        assert(points@.subrange(0, n as int) =~= points@);
    }
    r
}

impl Clone for GameHistory {
    fn clone(&self) -> (r: GameHistory)
        ensures
            r@ == self@,
    {
        let board = self.board.clone();
        let board_visibility = match &self.board_visibility {
            Some(v) => {
                let c = v.clone();
                proof {
                    assert(c@ =~= v@);
                }
                Some(c)
            },
            None => None,
        };
        let last_stone = match &self.last_stone {
            Some(v) => Some(copy_stones(v)),
            None => None,
        };
        proof {
            assert(board@ =~= self.board@);
        }
        GameHistory { board, board_visibility, last_stone, move_number: self.move_number }
    }
}

/// The content of an optional `GameHistory`.
pub open spec fn snapshot(h: Option<GameHistory>) -> Option<HistorySnapshot> {
    match h {
        Some(v) => Some(v@),
        None => None,
    }
}

/// A game as a client is shown it.
pub struct GameView {
    pub room_id: u32,
    pub members: Vec<u64>,
    pub seats: Vec<(Option<u64>, u8)>,
    pub turn: u32,
    /// The cells row by row: 0 is empty, 1 is black, 2 is white.
    pub board: Vec<u8>,
    pub board_visibility: Option<Vec<u16>>,
    pub hidden_stones_left: u32,
    pub size: (u8, u8),
    pub state: GameState,
    pub mods: GameModifier,
    pub points: Vec<i32>,
    pub move_number: u32,
    pub history: Option<GameHistory>,
}

/// A `GameView` seen as the game itself and the content of the earlier position that is
/// shown in its place, if one is.
pub struct GameSight {
    /// The game, without an earlier position.
    pub game: GameView,
    pub history: Option<HistorySnapshot>,
}

impl View for GameView {
    type V = GameSight;

    open spec fn view(&self) -> GameSight {
        GameSight { game: GameView { history: None, ..*self }, history: snapshot(self.history) }
    }
}

/// A user as others see them.
pub struct Profile {
    pub user_id: u64,
    pub nick: Option<String>,
}

impl Profile {
    /// The user's nick, or `default` where they have none.
    pub fn nick_or<'a>(&'a self, default: &'a str) -> (r: &'a str)
        ensures
            r@ == (match self.nick {
                Some(n) => n@,
                None => default@,
            }),
    {
        match &self.nick {
            Some(n) => n.as_str(),
            None => default,
        }
    }
}

} // verus!
