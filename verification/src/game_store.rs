//! The replay cache of a client: the game it shows and the earlier positions it has fetched.
//!
//! The cache decides; the client acts. A request yields effects for the client to perform,
//! and an action changes the cache.

use vstd::prelude::*;
use itertools::Itertools;
use crate::game_view::{snapshot, GameHistory, GameSight, GameView, HistorySnapshot};

verus! {

/// What the user interface asks of the cache.
pub enum Request {
    SetGame(GameView),
    SetGameHistory(Option<GameHistory>),
    GetBoardAt(u32),
    ScanBoard(i32),
}

/// What changes the cache.
pub enum Action {
    SetGame(GameView),
    SetGameHistory(Option<GameHistory>),
    SetHistoryPending(u32, bool),
}

/// What the client has to do for a request.
pub enum Effect {
    /// Show the room in the address of the page.
    SetHash(u32),
    /// Hand the action to the cache.
    Dispatch(Action),
    /// Ask the server for the positions from the first move number up to the second.
    FetchBoards(u32, u32),
}

/// The content of a `Request`.
pub enum RequestView {
    SetGame(GameSight),
    SetGameHistory(Option<HistorySnapshot>),
    GetBoardAt(u32),
    ScanBoard(i32),
}

/// The content of an `Action`.
pub enum ActionView {
    SetGame(GameSight),
    SetGameHistory(Option<HistorySnapshot>),
    SetHistoryPending(u32, bool),
}

/// The content of an `Effect`.
pub enum EffectView {
    SetHash(u32),
    Dispatch(ActionView),
    FetchBoards(u32, u32),
}

impl View for Request {
    type V = RequestView;

    open spec fn view(&self) -> RequestView {
        match self {
            Request::SetGame(g) => RequestView::SetGame(g@),
            Request::SetGameHistory(h) => RequestView::SetGameHistory(snapshot(*h)),
            Request::GetBoardAt(t) => RequestView::GetBoardAt(*t),
            Request::ScanBoard(d) => RequestView::ScanBoard(*d),
        }
    }
}

impl View for Action {
    type V = ActionView;

    open spec fn view(&self) -> ActionView {
        match self {
            Action::SetGame(g) => ActionView::SetGame(g@),
            Action::SetGameHistory(h) => ActionView::SetGameHistory(snapshot(*h)),
            Action::SetHistoryPending(t, p) => ActionView::SetHistoryPending(*t, *p),
        }
    }
}

impl View for Effect {
    type V = EffectView;

    open spec fn view(&self) -> EffectView {
        match self {
            Effect::SetHash(r) => EffectView::SetHash(*r),
            Effect::Dispatch(a) => EffectView::Dispatch(a@),
            Effect::FetchBoards(a, b) => EffectView::FetchBoards(*a, *b),
        }
    }
}

/// The cache.
pub struct GameStore {
    pub game: Option<GameView>,
    /// The positions fetched, by move number; `None` where one is missing.
    pub history: Vec<Option<GameHistory>>,
    pub history_pending: bool,
    pub wanted_history: Option<u32>,
}

/// The content of a `GameStore`.
pub struct StoreView {
    pub game: Option<GameSight>,
    pub history: Seq<Option<HistorySnapshot>>,
    pub history_pending: bool,
    pub wanted_history: Option<u32>,
}

impl View for GameStore {
    type V = StoreView;

    open spec fn view(&self) -> StoreView {
        StoreView {
            game: match self.game {
                Some(g) => Some(g@),
                None => None,
            },
            history: Seq::new(self.history@.len(), |i: int| snapshot(self.history@[i])),
            history_pending: self.history_pending,
            wanted_history: self.wanted_history,
        }
    }
}

/// Whether `i` is the first position that is marked.
pub open spec fn is_first(marks: Seq<bool>, i: int) -> bool {
    0 <= i < marks.len() && marks[i] && forall|j: int| 0 <= j < i ==> !marks[j]
}

/// Whether `i` is the last position that is marked.
pub open spec fn is_last(marks: Seq<bool>, i: int) -> bool {
    0 <= i < marks.len() && marks[i] && forall|j: int| i < j < marks.len() ==> !marks[j]
}

/// The first position that is marked, or 0 where none is.
pub open spec fn window_start(marks: Seq<bool>) -> int {
    if exists|i: int| is_first(marks, i) {
        choose|i: int| is_first(marks, i)
    } else {
        0
    }
}

/// The position after the last that is marked, or 0 where none is.
pub open spec fn window_end(marks: Seq<bool>) -> int {
    if exists|i: int| is_last(marks, i) {
        (choose|i: int| is_last(marks, i)) + 1
    } else {
        0
    }
}

/// For each move number, whether its position is missing.
pub open spec fn missing(history: Seq<Option<HistorySnapshot>>) -> Seq<bool> {
    Seq::new(history.len(), |i: int| history[i] is None)
}

/// What asking for the position after move `turn` yields.
///
/// While an answer of the server is awaited, the wish is only noted. Otherwise the server
/// is asked for more positions where `turn` comes near the end of what was fetched, and the
/// position is shown if the cache has it.
pub open spec fn board_at(s: StoreView, turn: u32) -> Seq<EffectView> {
    if s.history_pending {
        seq![EffectView::Dispatch(ActionView::SetHistoryPending(turn, true))]
    } else {
        let min = window_start(missing(s.history));
        let max = window_end(missing(s.history));
        let near = (max <= turn + 5 && max >= turn) || s.history.len() <= turn + 5;
        let upto = if max > 0 && max < turn + 10 {
            max
        } else {
            turn + 10
        };
        let fetch = if near {
            seq![
                EffectView::FetchBoards(min as u32, upto as u32),
                EffectView::Dispatch(ActionView::SetHistoryPending(turn, true)),
            ]
        } else {
            seq![]
        };
        let show = if turn < s.history.len() && s.history[turn as int] is Some {
            seq![
                EffectView::Dispatch(ActionView::SetHistoryPending(turn, false)),
                EffectView::Dispatch(ActionView::SetGameHistory(s.history[turn as int])),
            ]
        } else {
            seq![]
        };
        fetch + show
    }
}

/// The move number `v` read as a signed number of 32 bits: itself up to `i32::MAX`, and
/// negative beyond.
pub open spec fn as_signed(v: u32) -> int {
    if v <= i32::MAX {
        v as int
    } else {
        v - 0x1_0000_0000
    }
}

/// Where stepping by `diff` leads before it is held at 0: counted from the position that is
/// wanted, or from the game's last move where none is, either read as a signed number of
/// 32 bits.
pub open spec fn scan_sum(s: StoreView, game: GameSight, diff: i32) -> int {
    as_signed(
        match s.wanted_history {
            Some(t) => t,
            None => game.game.move_number,
        },
    ) + diff
}

/// The move number that stepping by `diff` leads to: not below 0.
pub open spec fn scan_target(s: StoreView, game: GameSight, diff: i32) -> int {
    if scan_sum(s, game, diff) < 0 {
        0
    } else {
        scan_sum(s, game, diff)
    }
}

/// Whether the cache can answer a request for the position after move `turn`: unless an
/// answer of the server is awaited, the move numbers that it computes fit in 32 bits.
pub open spec fn can_answer(s: StoreView, turn: u32) -> bool {
    !s.history_pending ==> turn <= u32::MAX - 10 && s.history.len() <= u32::MAX
}

/// Whether the cache can answer the request: the move numbers that it computes fit in 32
/// bits.
pub open spec fn can_handle(s: StoreView, msg: RequestView) -> bool {
    match msg {
        RequestView::GetBoardAt(turn) => can_answer(s, turn),
        RequestView::ScanBoard(diff) => match s.game {
            Some(game) => {
                &&& i32::MIN <= scan_sum(s, game, diff) <= i32::MAX
                &&& !s.history_pending ==> s.history.len() <= u32::MAX
            },
            None => true,
        },
        _ => true,
    }
}

/// The effects of a request.
pub open spec fn input_outcome(s: StoreView, msg: RequestView) -> Seq<EffectView> {
    match msg {
        RequestView::SetGame(game) => seq![
            EffectView::SetHash(game.game.room_id),
            EffectView::Dispatch(ActionView::SetGame(game)),
        ],
        RequestView::SetGameHistory(h) => seq![EffectView::Dispatch(ActionView::SetGameHistory(h))],
        RequestView::GetBoardAt(turn) => board_at(s, turn),
        RequestView::ScanBoard(diff) => match s.game {
            Some(game) => if scan_target(s, game, diff) > as_signed(game.game.move_number) {
                seq![]
            } else {
                board_at(s, scan_target(s, game, diff) as u32)
            },
            None => seq![],
        },
    }
}

/// The history made at least `n` long by appending missing positions.
pub open spec fn padded(history: Seq<Option<HistorySnapshot>>, n: int) -> Seq<
    Option<HistorySnapshot>,
> {
    if history.len() >= n {
        history
    } else {
        Seq::new(
            n as nat,
            |i: int|
                if i < history.len() {
                    history[i]
                } else {
                    None
                },
        )
    }
}

/// The cache after an action.
///
/// A game of the same room keeps the earlier position that is shown and drops the
/// positions after its last move; a game of another room empties the cache. A position
/// that arrives is stored under its move number; if it is the one wanted, it is shown, or,
/// where it is the game's last, the game itself is.
pub open spec fn reduce_outcome(s: StoreView, msg: ActionView) -> StoreView {
    match msg {
        ActionView::SetGame(game) => match s.game {
            Some(old) => if old.game.room_id == game.game.room_id {
                StoreView {
                    game: Some(GameSight { history: old.history, ..game }),
                    history: if game.game.move_number <= s.history.len() {
                        s.history.take(game.game.move_number as int)
                    } else {
                        s.history
                    },
                    ..s
                }
            } else {
                StoreView {
                    game: Some(game),
                    history: Seq::empty(),
                    history_pending: false,
                    wanted_history: None,
                }
            },
            None => StoreView { game: Some(game), ..s },
        },
        ActionView::SetGameHistory(view) => match s.game {
            Some(game) => match view {
                Some(v) => {
                    let history = padded(s.history, v.move_number + 1).update(
                        v.move_number as int,
                        Some(v),
                    );
                    if Some(v.move_number) != s.wanted_history {
                        StoreView { history, ..s }
                    } else if v.move_number == game.game.move_number {
                        StoreView {
                            history,
                            history_pending: false,
                            game: Some(GameSight { history: None, ..game }),
                            ..s
                        }
                    } else {
                        StoreView {
                            history,
                            history_pending: false,
                            game: Some(GameSight { history: Some(v), ..game }),
                            ..s
                        }
                    }
                },
                None => StoreView {
                    history_pending: false,
                    game: Some(GameSight { history: None, ..game }),
                    ..s
                },
            },
            None => s,
        },
        ActionView::SetHistoryPending(turn, pending) => StoreView {
            history_pending: s.history_pending || pending,
            wanted_history: Some(turn),
            ..s
        },
    }
}

/// The move number `v` read as a signed number of 32 bits.
pub fn signed(v: u32) -> (r: i64)
    ensures
        r == as_signed(v),
{
    if v <= 0x7fff_ffff {
        v as i64
    } else {
        v as i64 - 0x1_0000_0000
    }
}

/// Whether the mark is set.
pub fn is_set(mark: &bool) -> (r: bool)
    ensures
        r == *mark,
{
    *mark
}

/// `Itertools::find_position` on the marks, for the mark that is set: the position of the
/// first such mark, with no such mark before it; nothing where no mark is set.
#[verifier::external_body]
pub(crate) fn first_set(marks: &Vec<bool>) -> (r: Option<usize>)
    ensures
        match r {
            Some(i) => is_first(marks@, i as int),
            None => forall|j: int| 0 <= j < marks@.len() ==> !marks@[j],
        },
{
    marks.iter().find_position(|m| is_set(m)).map(|found| found.0)
}

/// For each position of the history, whether it is missing.
fn missing_marks(history: &Vec<Option<GameHistory>>) -> (marks: Vec<bool>)
    ensures
        marks@ == Seq::new(history@.len(), |i: int| history@[i] is None),
{
    let mut marks: Vec<bool> = Vec::new();
    let n = history.len();
    let mut i: usize = 0;
    while i < n
        invariant
            i <= n,
            n == history@.len(),
            marks@ == Seq::new(i as nat, |k: int| history@[k] is None),
        decreases n - i,
    {
        marks.push(history[i].is_none());
        proof {
            assert(marks@ =~= Seq::new((i + 1) as nat, |k: int| history@[k] is None));
        }
        i += 1;
    }
    marks
}

/// The marks in the opposite order.
fn reversed(marks: &Vec<bool>) -> (r: Vec<bool>)
    ensures
        r@.len() == marks@.len(),
        forall|i: int| 0 <= i < r@.len() ==> r@[i] == marks@[marks@.len() - 1 - i],
{
    let mut r: Vec<bool> = Vec::new();
    let n = marks.len();
    let mut i: usize = 0;
    while i < n
        invariant
            i <= n,
            n == marks@.len(),
            r@.len() == i,
            forall|k: int| 0 <= k < i ==> r@[k] == marks@[n - 1 - k],
        decreases n - i,
    {
        r.push(marks[n - 1 - i]);
        i += 1;
    }
    r
}

/// The window of missing positions: the first that is missing, and the position after the
/// last that is missing; 0 for either where none is missing.
pub fn missing_window(history: &Vec<Option<GameHistory>>) -> (w: (usize, usize))
    ensures
        w.0 == window_start(Seq::new(history@.len(), |i: int| history@[i] is None)),
        w.1 == window_end(Seq::new(history@.len(), |i: int| history@[i] is None)),
{
    let marks = missing_marks(history);
    let back = reversed(&marks);
    let ghost m = marks@;
    let min = match first_set(&marks) {
        Some(i) => {
            proof {
                lemma_first_unique(m, i as int);
            }
            i
        },
        None => {
            proof {
                assert(!exists|i: int| is_first(m, i));
            }
            0
        },
    };
    let max = match first_set(&back) {
        Some(r) => {
            proof {
                let i = m.len() - 1 - r;
                assert(is_last(m, i)) by {
                    assert(back@[r as int] == m[i]);
                    assert forall|j: int| i < j < m.len() implies !m[j] by {
                        assert(back@[m.len() - 1 - j] == m[j]);
                    }
                }
                lemma_last_unique(m, i);
            }
            marks.len() - r
        },
        None => {
            proof {
                assert forall|i: int| !is_last(m, i) by {
                    if 0 <= i < m.len() {
                        assert(back@[m.len() - 1 - i] == m[i]);
                    }
                }
            }
            0
        },
    };
    (min, max)
}

/// There is one first marked position at most.
proof fn lemma_first_unique(marks: Seq<bool>, i: int)
    requires
        is_first(marks, i),
    ensures
        window_start(marks) == i,
{
    let c = choose|c: int| is_first(marks, c);
    assert(is_first(marks, c));
    if c < i {
        assert(!marks[c]);
    }
    if i < c {
        assert(!marks[i]);
    }
}

/// There is one last marked position at most.
proof fn lemma_last_unique(marks: Seq<bool>, i: int)
    requires
        is_last(marks, i),
    ensures
        window_end(marks) == i + 1,
{
    let c = choose|c: int| is_last(marks, c);
    assert(is_last(marks, c));
    if c < i {
        assert(!marks[i]);
    }
    if i < c {
        assert(!marks[c]);
    }
}

impl GameStore {
    /// An empty cache.
    pub fn new() -> (s: GameStore)
        ensures
            s@ == (StoreView {
                game: None,
                history: Seq::empty(),
                history_pending: false,
                wanted_history: None,
            }),
    {
        let s = GameStore {
            game: None,
            history: Vec::new(),
            history_pending: false,
            wanted_history: None,
        };
        proof {
            assert(s@.history =~= Seq::empty());
        }
        s
    }

    /// Whether the cache can answer the request.
    pub fn can_handle(&self, msg: &Request) -> (r: bool)
        ensures
            r == can_handle(self@, msg@),
    {
        let short = self.history_pending || self.history.len() <= u32::MAX as usize;
        match msg {
            Request::GetBoardAt(turn) => self.history_pending || (*turn <= u32::MAX - 10 && short),
            Request::ScanBoard(diff) => match &self.game {
                Some(game) => {
                    let base: u32 = match self.wanted_history {
                        None => game.move_number,
                        Some(turn) => turn,
                    };
                    let sum: i64 = signed(base) + *diff as i64;
                    sum >= i32::MIN as i64 && sum <= i32::MAX as i64 && short
                },
                None => true,
            },
            _ => true,
        }
    }

    /// The effects of asking for the position after move `turn`.
    pub fn board_at(&self, turn: u32) -> (effects: Vec<Effect>)
        requires
            can_answer(self@, turn),
        ensures
            effects@.len() == board_at(self@, turn).len(),
            forall|i: int| 0 <= i < effects@.len() ==> (#[trigger] effects@[i])@ == board_at(
                self@,
                turn,
            )[i],
    {
        let mut effects: Vec<Effect> = Vec::new();
        if self.history_pending {
            effects.push(Effect::Dispatch(Action::SetHistoryPending(turn, true)));
            return effects;
        }
        let (min, max) = missing_window(&self.history);
        proof {
            assert(missing(self@.history) =~= Seq::new(
                self.history@.len(),
                |i: int| self.history@[i] is None,
            ));
        }
        let turn_wide = turn as u64;
        let max_wide = max as u64;
        if (max_wide <= turn_wide + 5 && max_wide >= turn_wide) || (self.history.len() as u64)
            <= turn_wide + 5 {
            let upto = if max > 0 && max_wide < turn_wide + 10 {
                max as u32
            } else {
                turn + 10
            };
            proof {
                let m = missing(self@.history);
                if exists|i: int| is_first(m, i) {
                    let c = choose|i: int| is_first(m, i);
                    assert(is_first(m, c));
                }
            }
            effects.push(Effect::FetchBoards(min as u32, upto));
            effects.push(Effect::Dispatch(Action::SetHistoryPending(turn, true)));
        }
        if (turn as usize) < self.history.len() {
            match &self.history[turn as usize] {
                Some(view) => {
                    effects.push(Effect::Dispatch(Action::SetHistoryPending(turn, false)));
                    effects.push(Effect::Dispatch(Action::SetGameHistory(Some(view.clone()))));
                },
                None => {},
            }
        }
        effects
    }

    /// The effects of a request.
    pub fn handle_input(&self, msg: Request) -> (effects: Vec<Effect>)
        requires
            can_handle(self@, msg@),
        ensures
            effects@.len() == input_outcome(self@, msg@).len(),
            forall|i: int| 0 <= i < effects@.len() ==> (#[trigger] effects@[i])@ == input_outcome(
                self@,
                msg@,
            )[i],
    {
        match msg {
            Request::SetGame(game) => {
                let mut effects: Vec<Effect> = Vec::new();
                effects.push(Effect::SetHash(game.room_id));
                effects.push(Effect::Dispatch(Action::SetGame(game)));
                effects
            },
            Request::SetGameHistory(view) => {
                let mut effects: Vec<Effect> = Vec::new();
                effects.push(Effect::Dispatch(Action::SetGameHistory(view)));
                effects
            },
            Request::GetBoardAt(turn) => self.board_at(turn),
            Request::ScanBoard(diff) => {
                let game = match &self.game {
                    Some(g) => g,
                    None => {
                        return Vec::new();
                    },
                };
                let base: u32 = match self.wanted_history {
                    None => game.move_number,
                    Some(turn) => turn,
                };
                let mut turn: i64 = signed(base) + diff as i64;
                if turn < 0 {
                    turn = 0;
                }
                if turn > signed(game.move_number) {
                    return Vec::new();
                }
                self.board_at(turn as u32)
            },
        }
    }

    /// Applies an action to the cache.
    pub fn reduce(&mut self, msg: Action)
        ensures
            final(self)@ == reduce_outcome(old(self)@, msg@),
    {
        let ghost s0 = self@;
        match msg {
            Action::SetGame(game) => {
                let room_id = game.room_id;
                let move_number = game.move_number;
                let old = self.game.take();
                match old {
                    Some(old) => {
                        if old.room_id == room_id {
                            let mut game = game;
                            game.history = old.history;
                            self.game = Some(game);
                            if (move_number as usize) <= self.history.len() {
                                self.history.truncate(move_number as usize);
                            }
                            proof {
                                assert(self@.history =~= reduce_outcome(s0, msg@).history);
                                }
                        } else {
                            self.game = Some(game);
                            self.history.clear();
                            self.history_pending = false;
                            self.wanted_history = None;
                            proof {
                                assert(self@.history =~= Seq::empty());
                                }
                        }
                    },
                    None => {
                        self.game = Some(game);
                        proof {
                            assert(self@.history =~= s0.history);
                        }
                    },
                }
            },
            Action::SetGameHistory(view) => {
                let mut game = match self.game.take() {
                    Some(g) => g,
                    None => {
                        proof {
                            assert(self@.history =~= s0.history);
                        }
                        return ;
                    },
                };
                match view {
                    Some(view) => {
                        let at = view.move_number as usize;
                        while self.history.len() <= at
                            invariant
                                self.wanted_history == s0.wanted_history,
                                self.history_pending == s0.history_pending,
                                self.game is None,
                                self.history@.len() >= s0.history.len(),
                                forall|i: int|
                                    0 <= i < s0.history.len() ==> snapshot(self.history@[i])
                                        == s0.history[i],
                                forall|i: int|
                                    s0.history.len() <= i < self.history@.len()
                                        ==> self.history@[i] is None,
                                self.history@.len() <= at + 1 || self.history@.len()
                                    == s0.history.len(),
                            decreases at + 1 - self.history@.len(),
                        {
                            self.history.push(None);
                        }
                        let number = view.move_number;
                        self.history.set(at, Some(view.clone()));
                        let wanted = match self.wanted_history {
                            Some(w) => w == number,
                            None => false,
                        };
                        if wanted {
                            self.history_pending = false;
                            if number == game.move_number {
                                game.history = None;
                            } else {
                                game.history = Some(view);
                            }
                        }
                        self.game = Some(game);
                        proof {
                            assert(self@.history =~= reduce_outcome(s0, msg@).history);
                        }
                    },
                    None => {
                        self.history_pending = false;
                        game.history = None;
                        self.game = Some(game);
                        proof {
                            assert(self@.history =~= s0.history);
                        }
                    },
                }
            },
            Action::SetHistoryPending(turn, pending) => {
                if pending {
                    self.history_pending = true;
                }
                self.wanted_history = Some(turn);
                proof {
                    assert(self@.history =~= s0.history);
                }
            },
        }
    }
}

} // verus!
