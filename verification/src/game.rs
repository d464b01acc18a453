//! The shared state of a game and the vocabulary of actions on it.

use vstd::prelude::*;
use crate::board::{board_hash, Board, Color, Grid};
use crate::play::{PlayState, PlayView};
use crate::point_list::Point;
use crate::visibility::VisibilityBoard;

verus! {

/// A seat at the table: who sits there, and which team's stones they play.
#[derive(Clone, Copy, Debug, PartialEq, Eq)]
pub struct Seat {
    pub player: Option<u64>,
    pub team: Color,
    pub resigned: bool,
}

/// Seats change colour with every move, cycling through `color_count` colours.
#[derive(Clone, Copy, Debug, PartialEq, Eq)]
pub struct ZenGo {
    pub color_count: u8,
}

/// A stone that completes a straight run of exactly `length` stones earns another turn.
#[derive(Clone, Copy, Debug, PartialEq, Eq)]
pub struct NPlusOne {
    pub length: u8,
}

/// The rule variants of a game. The default disables each.
#[derive(Clone, Copy, Debug, PartialEq, Eq)]
pub struct GameModifier {
    /// A placement paints a block of two by two cells; its coordinates count from one.
    pub pixel: bool,
    /// Points for capturing a single stone that the capturer's stones surround.
    pub ponnuki_is_points: Option<i32>,
    pub zen_go: Option<ZenGo>,
    pub n_plus_one: Option<NPlusOne>,
}

impl Default for GameModifier {
    fn default() -> (m: GameModifier)
        ensures
            m == (GameModifier {
                pixel: false,
                ponnuki_is_points: None,
                zen_go: None,
                n_plus_one: None,
            }),
    {
        GameModifier { pixel: false, ponnuki_is_points: None, zen_go: None, n_plus_one: None }
    }
}

/// What the scoring phase starts from.
pub struct ScoringState {
    pub board: Board<Color>,
    pub seat_count: usize,
    pub points: Vec<i32>,
}

/// The content of a `ScoringState`.
pub struct ScoringView {
    pub board: Grid<Color>,
    pub seat_count: usize,
    pub points: Seq<i32>,
}

impl View for ScoringState {
    type V = ScoringView;

    open spec fn view(&self) -> ScoringView {
        ScoringView { board: self.board@, seat_count: self.seat_count, points: self.points@ }
    }
}

/// The phase a game is in, with that phase's state.
pub enum GameState {
    Play(PlayState),
    Scoring(ScoringState),
}

/// The content of a `GameState`.
pub enum GameStateView {
    Play(PlayView),
    Scoring(ScoringView),
}

impl View for GameState {
    type V = GameStateView;

    open spec fn view(&self) -> GameStateView {
        match self {
            GameState::Play(s) => GameStateView::Play(s@),
            GameState::Scoring(s) => GameStateView::Scoring(s@),
        }
    }
}

impl GameState {
    /// The state in which scoring starts: the position, the number of seats and the points.
    pub fn scoring(board: &Board<Color>, seat_count: usize, points: &Vec<i32>) -> (s: GameState)
        ensures
            s@ == GameStateView::Scoring(
                ScoringView { board: board@, seat_count, points: points@ },
            ),
    {
        GameState::Scoring(
            ScoringState { board: board.clone(), seat_count, points: copy_points(points) },
        )
    }
}

/// A copy of a list of points scored.
pub fn copy_points(points: &Vec<i32>) -> (r: Vec<i32>)
    ensures
        r@ == points@,
{
    let r = points.clone();
    proof {
        assert(r@ =~= points@);
    }
    r
}

/// Whether the two lists hold the same points scored.
pub fn same_points(a: &Vec<i32>, b: &Vec<i32>) -> (r: bool)
    ensures
        r == (a@ == b@),
{
    if a.len() != b.len() {
        return false;
    }
    let n = a.len();
    let mut i: usize = 0;
    while i < n
        invariant
            i <= n,
            n == a@.len(),
            n == b@.len(),
            forall|k: int| 0 <= k < i ==> a@[k] == b@[k],
        decreases n - i,
    {
        if a[i] != b[i] {
            return false;
        }
        i += 1;
    }
    proof {
        assert(a@ =~= b@);
    }
    true
}

/// A copy of an overlay, if there is one.
pub fn copy_visibility(v: &Option<VisibilityBoard>) -> (r: Option<VisibilityBoard>)
    ensures
        visibility_view(r) == visibility_view(*v),
{
    match v {
        Some(b) => Some(b.clone()),
        None => None,
    }
}

/// The content of an overlay, if there is one.
pub open spec fn visibility_view(v: Option<VisibilityBoard>) -> Option<Grid<u16>> {
    match v {
        Some(b) => Some(b@),
        None => None,
    }
}

/// One entry of the history: the position after a move, with all that undoing needs.
pub struct BoardHistory {
    pub hash: u64,
    pub board: Board<Color>,
    pub board_visibility: Option<VisibilityBoard>,
    pub state: GameState,
    pub points: Vec<i32>,
    pub turn: usize,
}

/// The content of a `BoardHistory`.
pub struct HistoryView {
    pub hash: u64,
    pub board: Grid<Color>,
    pub board_visibility: Option<Grid<u16>>,
    pub state: GameStateView,
    pub points: Seq<i32>,
    pub turn: usize,
}

impl View for BoardHistory {
    type V = HistoryView;

    open spec fn view(&self) -> HistoryView {
        HistoryView {
            hash: self.hash,
            board: self.board@,
            board_visibility: visibility_view(self.board_visibility),
            state: self.state@,
            points: self.points@,
            turn: self.turn,
        }
    }
}

/// The whole state of a game in play.
pub struct SharedState {
    pub seats: Vec<Seat>,
    pub turn: usize,
    pub board: Board<Color>,
    pub board_visibility: Option<VisibilityBoard>,
    pub board_history: Vec<BoardHistory>,
    /// The points of each team; team `t` has `points[t - 1]`.
    pub points: Vec<i32>,
    /// The stones captured in the game so far.
    pub capture_count: usize,
    pub mods: GameModifier,
}

/// The content of a `SharedState`.
pub struct SharedView {
    pub seats: Seq<Seat>,
    pub turn: usize,
    pub board: Grid<Color>,
    pub board_visibility: Option<Grid<u16>>,
    pub board_history: Seq<HistoryView>,
    pub points: Seq<i32>,
    pub capture_count: usize,
    pub mods: GameModifier,
}

impl View for SharedState {
    type V = SharedView;

    open spec fn view(&self) -> SharedView {
        SharedView {
            seats: self.seats@,
            turn: self.turn,
            board: self.board@,
            board_visibility: visibility_view(self.board_visibility),
            board_history: Seq::new(self.board_history@.len(), |i: int| self.board_history@[i]@),
            points: self.points@,
            capture_count: self.capture_count,
            mods: self.mods,
        }
    }
}

impl HistoryView {
    /// Whether the entry fits a game of the shape of `s`: same board shape, same number of
    /// teams and seats, recorded during play, with the hash of its own board.
    pub open spec fn fits(self, s: SharedView) -> bool {
        &&& self.board.wf()
        &&& self.board.same_shape(s.board)
        &&& self.hash == board_hash(self.board)
        &&& self.board_visibility is Some == s.board_visibility is Some
        &&& self.board_visibility matches Some(v) ==> v.wf() && v.same_shape(s.board)
        &&& self.points.len() == s.points.len()
        &&& self.turn < s.seats.len()
        &&& self.state matches GameStateView::Play(p) && p.players_passed.len() == s.seats.len()
    }
}

impl SharedView {
    /// What holds of a game between actions.
    ///
    /// The board and the overlay have one shape; there is a seat to move; every seat plays
    /// for a team that has points; the history is not empty, each of its entries fits the
    /// game, and its last entry holds the current board, points and turn.
    pub open spec fn wf(self) -> bool {
        &&& self.board.wf()
        &&& self.board_visibility matches Some(v) ==> v.wf() && v.same_shape(self.board)
        &&& self.turn < self.seats.len()
        &&& forall|i: int|
            0 <= i < self.seats.len() ==> 1 <= (#[trigger] self.seats[i]).team.0
                <= self.points.len()
        &&& self.mods.zen_go matches Some(z) ==> 1 <= z.color_count <= self.points.len()
        &&& self.board_history.len() > 0
        &&& forall|i: int|
            0 <= i < self.board_history.len() ==> (#[trigger] self.board_history[i]).fits(self)
        &&& self.board_history.last().board == self.board
        &&& self.board_history.last().points == self.points
        &&& self.board_history.last().turn == self.turn
    }

    /// The seat whose turn it is.
    pub open spec fn active_seat(self) -> Seat {
        self.seats[self.turn as int]
    }

    /// The team whose turn it is.
    pub open spec fn team(self) -> Color {
        self.active_seat().team
    }
}

impl BoardHistory {
    /// Whether the entry fits the game `shared`.
    pub fn fits(&self, shared: &SharedState) -> (r: bool)
        ensures
            r == self@.fits(shared@),
    {
        let overlay = match &self.board_visibility {
            Some(v) => shared.board_visibility.is_some() && v.is_wf() && v.same_shape(&shared.board),
            None => shared.board_visibility.is_none(),
        };
        let state = match &self.state {
            GameState::Play(p) => p.players_passed.len() == shared.seats.len(),
            GameState::Scoring(_) => false,
        };
        self.board.is_wf() && self.board.same_shape(&shared.board) && self.hash
            == self.board.hash() && overlay && self.points.len() == shared.points.len()
            && self.turn < shared.seats.len() && state
    }
}

impl SharedState {
    /// What holds of a game between actions.
    pub open spec fn wf(&self) -> bool {
        self@.wf()
    }

    /// Whether the game is well formed.
    pub fn is_wf(&self) -> (r: bool)
        ensures
            r == self.wf(),
    {
        if !self.board.is_wf() {
            return false;
        }
        match &self.board_visibility {
            Some(v) => {
                if !(v.is_wf() && v.same_shape(&self.board)) {
                    return false;
                }
            },
            None => {},
        }
        if self.turn >= self.seats.len() {
            return false;
        }
        let mut i: usize = 0;
        while i < self.seats.len()
            invariant
                i <= self.seats@.len(),
                forall|k: int|
                    0 <= k < i ==> 1 <= (#[trigger] self.seats@[k]).team.0 <= self.points@.len(),
            decreases self.seats@.len() - i,
        {
            let team = self.seats[i].team.0 as usize;
            if team < 1 || team > self.points.len() {
                return false;
            }
            i += 1;
        }
        match self.mods.zen_go {
            Some(z) => {
                if z.color_count < 1 || (z.color_count as usize) > self.points.len() {
                    return false;
                }
            },
            None => {},
        }
        let n = self.board_history.len();
        if n == 0 {
            return false;
        }
        let mut i: usize = 0;
        while i < n
            invariant
                i <= n,
                n == self.board_history@.len(),
                forall|k: int| 0 <= k < i ==> (#[trigger] self@.board_history[k]).fits(self@),
            decreases n - i,
        {
            assert(self@.board_history[i as int] == self.board_history@[i as int]@);
            if !self.board_history[i].fits(self) {
                return false;
            }
            i += 1;
        }
        let last = &self.board_history[n - 1];
        assert(self@.board_history.last() == last@);
        last.board.same_as(&self.board) && same_points(&last.points, &self.points) && last.turn
            == self.turn
    }

    /// A game at its start: an empty board of the given size, an overlay that hides
    /// nothing if `fog` is set, no points for any of the `team_count` teams, the first seat
    /// to move, and a history of one entry that holds this position.
    pub fn new(
        seats: Vec<Seat>,
        team_count: usize,
        width: u32,
        height: u32,
        mods: GameModifier,
        fog: bool,
    ) -> (s: SharedState)
        requires
            width * height <= usize::MAX,
            seats@.len() > 0,
            forall|i: int|
                0 <= i < seats@.len() ==> 1 <= (#[trigger] seats@[i]).team.0 <= team_count,
            mods.zen_go matches Some(z) ==> 1 <= z.color_count <= team_count,
        ensures
            s.wf(),
            s@.seats == seats@,
            s@.turn == 0,
            s@.board == Grid::tabulate(width as nat, height as nat, |p: Point| Color(0)),
            s@.board_visibility == (if fog {
                Some(Grid::tabulate(width as nat, height as nat, |p: Point| 0u16))
            } else {
                None
            }),
            s@.points == Seq::new(team_count as nat, |i: int| 0i32),
            s@.capture_count == 0,
            s@.mods == mods,
            s@.board_history == seq![
                HistoryView {
                    hash: board_hash(s@.board),
                    board: s@.board,
                    board_visibility: s@.board_visibility,
                    state: GameStateView::Play(
                        PlayView {
                            players_passed: Seq::new(seats@.len(), |i: int| false),
                            last_stone: None,
                        },
                    ),
                    points: s@.points,
                    turn: 0,
                },
            ],
    {
        let board = Board::empty(width, height);
        let board_visibility = if fog {
            Some(VisibilityBoard::clear(width, height))
        } else {
            None
        };
        let mut points: Vec<i32> = Vec::new();
        let mut i: usize = 0;
        while i < team_count
            invariant
                i <= team_count,
                points@ == Seq::new(i as nat, |k: int| 0i32),
            decreases team_count - i,
        {
            points.push(0);
            proof {
                assert(points@ =~= Seq::new((i + 1) as nat, |k: int| 0i32));
            }
            i += 1;
        }
        proof {
            Grid::lemma_tabulate(width as nat, height as nat, |p: Point| Color(0));
            Grid::lemma_tabulate(width as nat, height as nat, |p: Point| 0u16);
        }
        let entry = BoardHistory {
            hash: board.hash(),
            board: board.clone(),
            board_visibility: copy_visibility(&board_visibility),
            state: GameState::Play(PlayState::new(seats.len())),
            points: copy_points(&points),
            turn: 0,
        };
        let ghost e = entry@;
        let mut board_history: Vec<BoardHistory> = Vec::new();
        board_history.push(entry);
        let s = SharedState {
            seats,
            turn: 0,
            board,
            board_visibility,
            board_history,
            points,
            capture_count: 0,
            mods,
        };
        proof {
            assert(s@.board_history =~= seq![e]);
            assert(s@.board_history.last() == e);
            assert(e.fits(s@));
        }
        s
    }
}

/// What a player asks for.
#[derive(Clone, Copy, Debug, PartialEq, Eq)]
pub enum ActionKind {
    Place(u32, u32),
    Pass,
    Cancel,
}

/// What an action asks of the layer above.
pub enum ActionChange {
    /// Nothing is asked.
    NoChange,
    PushState(GameState),
}

/// The content of an `ActionChange`.
pub enum ChangeView {
    NoChange,
    PushState(GameStateView),
}

impl View for ActionChange {
    type V = ChangeView;

    open spec fn view(&self) -> ChangeView {
        match self {
            ActionChange::NoChange => ChangeView::NoChange,
            ActionChange::PushState(s) => ChangeView::PushState(s@),
        }
    }
}

/// Why an action was rejected.
#[derive(Clone, Copy, Debug, PartialEq, Eq)]
pub enum MakeActionError {
    NotTurn,
    OutOfBounds,
    PointOccupied,
    Suicide,
    Ko,
}

/// What an action returns: what it asks of the layer above, or why it was refused.
pub type MakeActionResult<T = ActionChange> = Result<T, MakeActionError>;

/// The seat whose turn it is.
pub fn get_active_seat(shared: &SharedState) -> (seat: Seat)
    requires
        shared.turn < shared.seats@.len(),
    ensures
        seat == shared@.active_seat(),
{
    shared.seats[shared.turn]
}

} // verus!
