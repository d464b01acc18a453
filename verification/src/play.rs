//! The play phase: placing stones, passing and undoing.

use vstd::prelude::*;
use crate::board::{board_hash, Color, Grid};
use crate::capture::{capture_opponents, capture_own, lemma_count_bound, lemma_uncover_step};
use crate::game::{
    copy_points, copy_visibility, get_active_seat, ActionChange, ActionKind, BoardHistory,
    ChangeView, GameState, HistoryView, MakeActionError, MakeActionResult, Seat, SharedState,
    SharedView,
};
use crate::n_plus_one::{check, shown, NPlusOneResult};
use crate::placement::{place_block, place_one, stone_view};
use crate::point_list::{GroupVec, Point};
use crate::rules::{
    action_outcome, cancel_outcome, capture_outcome, dead_opponents, dead_own, ko_window,
    nobody_passed, pass_outcome, passed_after, place_outcome, placement, repeats, restored,
    settled, touched, zen_seats, zen_team, Captured,
};

verus! {

/// The state of the play phase.
pub struct PlayState {
    /// For each seat, whether its team has passed since the last stone was placed.
    pub players_passed: Vec<bool>,
    /// The points of the last placement or revelation.
    pub last_stone: Option<GroupVec>,
}

/// The content of a `PlayState`.
pub struct PlayView {
    pub players_passed: Seq<bool>,
    pub last_stone: Option<Seq<Point>>,
}

impl View for PlayState {
    type V = PlayView;

    open spec fn view(&self) -> PlayView {
        PlayView {
            players_passed: self.players_passed@,
            last_stone: stone_view(self.last_stone),
        }
    }
}

impl PlayState {
    /// The state at the start of play with `seat_count` seats: nobody has passed and no
    /// stone was placed.
    pub fn new(seat_count: usize) -> (s: PlayState)
        ensures
            s@ == (PlayView {
                players_passed: Seq::new(seat_count as nat, |i: int| false),
                last_stone: None,
            }),
    {
        let mut players_passed: Vec<bool> = Vec::new();
        let mut i: usize = 0;
        while i < seat_count
            invariant
                i <= seat_count,
                players_passed@ == Seq::new(i as nat, |k: int| false),
            decreases seat_count - i,
        {
            players_passed.push(false);
            proof {
                assert(players_passed@ =~= Seq::new((i + 1) as nat, |k: int| false));
            }
            i += 1;
        }
        PlayState { players_passed, last_stone: None }
    }
}

impl Clone for PlayState {
    /// A copy of the state.
    fn clone(&self) -> (s: PlayState)
        ensures
            s@ == self@,
    {
        let players_passed = self.players_passed.clone();
        proof {
            assert(players_passed@ =~= self.players_passed@);
        }
        let last_stone = match &self.last_stone {
            Some(v) => Some(v.clone()),
            None => None,
        };
        PlayState { players_passed, last_stone }
    }
}

/// What an action returned, over the mathematical content of what it asks for.
pub open spec fn result_view(r: MakeActionResult) -> Result<ChangeView, MakeActionError> {
    match r {
        Ok(c) => Ok(c@),
        Err(e) => Err(e),
    }
}

/// The capture pass on the game `s` after its team to move played `played`.
pub open spec fn capture_of(s: SharedView, played: Seq<Point>) -> Captured {
    capture_outcome(
        s.board,
        s.board_visibility,
        s.points,
        s.mods.ponnuki_is_points,
        s.team(),
        played,
    )
}

/// What the functions of the play phase ask of a game and its play state: the game is well
/// formed and the play state has a mark for each seat.
pub open spec fn ready(s: SharedView, st: PlayView) -> bool {
    s.wf() && st.players_passed.len() == s.seats.len()
}

/// The entries of a history fit a game that differs from theirs in nothing that they are
/// held against.
pub proof fn lemma_fits_still(s: SharedView, t: SharedView)
    requires
        s.board.same_shape(t.board),
        s.board_visibility is Some == t.board_visibility is Some,
        s.points.len() == t.points.len(),
        s.seats.len() == t.seats.len(),
    ensures
        forall|e: HistoryView| #[trigger] e.fits(s) ==> e.fits(t),
{
}

/// What is touched depends on the shape of the board alone.
pub proof fn lemma_touched_shape(a: Grid<Color>, b: Grid<Color>, s: Set<Point>)
    requires
        a.same_shape(b),
    ensures
        touched(a, s) == touched(b, s),
{
    assert(touched(a, s) =~= touched(b, s));
}

impl PlayState {
    /// Whether the functions of the play phase may be called on this state and the game
    /// `shared`.
    pub fn is_ready(&self, shared: &SharedState) -> (r: bool)
        ensures
            r == ready(shared@, self@),
    {
        shared.is_wf() && self.players_passed.len() == shared.seats.len()
    }

    /// Whether a placement can count its captures: the stones captured so far and the cells
    /// of the board together do not exceed what a `usize` holds.
    pub fn can_count(shared: &SharedState) -> (r: bool)
        ensures
            r == (shared.capture_count + shared@.board.cells.len() <= usize::MAX),
    {
        shared.capture_count <= usize::MAX - shared.board.points.len()
    }

    /// Puts the stones of a placement at `p` on the board, by the rule of the game.
    ///
    /// Returns the points played; an empty list says that hidden stones were revealed and
    /// nothing was placed.
    pub fn place_stone(
        &mut self,
        shared: &mut SharedState,
        p: Point,
    ) -> (r: MakeActionResult<GroupVec>)
        requires
            ready(old(shared)@, old(self)@),
        ensures
            ({
                let pl = placement(old(shared)@, old(self)@, p);
                &&& final(shared)@ == (SharedView {
                    board: pl.board,
                    board_visibility: pl.visibility,
                    ..old(shared)@
                })
                &&& final(self)@ == (PlayView { last_stone: pl.last_stone, ..old(self)@ })
                &&& match r {
                    Ok(played) => pl.result == Ok::<Seq<Point>, MakeActionError>(played@),
                    Err(e) => pl.result == Err::<Seq<Point>, MakeActionError>(e),
                }
            }),
            final(shared).board.wf(),
            final(shared)@.board.same_shape(old(shared)@.board),
            final(shared)@.board_visibility matches Some(v) ==> v.wf() && v.same_shape(
                old(shared)@.board,
            ),
            r matches Ok(played) ==> forall|i: int|
                0 <= i < played@.len() ==> old(shared)@.board.contains(#[trigger] played@[i]),
    {
        let active_seat = get_active_seat(shared);
        let ghost h0 = shared@.board_history;
        let r = if shared.mods.pixel {
            place_block(
                &mut shared.board,
                &mut shared.board_visibility,
                &mut self.last_stone,
                active_seat.team,
                p.0,
                p.1,
            )
        } else {
            place_one(
                &mut shared.board,
                &mut shared.board_visibility,
                &mut self.last_stone,
                active_seat.team,
                p,
            )
        };
        proof {
            assert(shared@.board_history =~= h0);
        }
        r
    }

    /// The capture pass after the points `points_played` were played.
    ///
    /// Returns the number of stones captured, and whether a hidden cell was made visible.
    pub fn capture(&self, shared: &mut SharedState, points_played: &mut GroupVec) -> (r: (
        usize,
        bool,
    ))
        requires
            old(shared).board.wf(),
            old(shared)@.board_visibility matches Some(v) ==> v.wf() && v.same_shape(
                old(shared)@.board,
            ),
            old(shared).turn < old(shared)@.seats.len(),
            1 <= old(shared)@.team().0 <= old(shared)@.points.len(),
        ensures
            ({
                let cap = capture_of(old(shared)@, old(points_played)@);
                &&& final(shared)@ == (SharedView {
                    board: cap.board,
                    board_visibility: cap.visibility,
                    points: cap.points,
                    ..old(shared)@
                })
                &&& final(points_played)@ == cap.played
                &&& r.0 == cap.captures
                &&& r.1 == cap.revealed
            }),
            final(shared).board.wf(),
            final(shared)@.board.same_shape(old(shared)@.board),
            final(shared)@.board_visibility matches Some(v) ==> v.wf() && v.same_shape(
                old(shared)@.board,
            ),
            r.0 <= old(shared)@.board.cells.len(),
    {
        let active_seat = get_active_seat(shared);
        let team = active_seat.team;
        let ghost s0 = shared@;
        let ghost g = shared@.board;
        let ghost v0 = shared@.board_visibility;
        let (captures, shown) = capture_opponents(
            &mut shared.board,
            &mut shared.board_visibility,
            &mut shared.points,
            shared.mods.ponnuki_is_points,
            team,
        );
        let ghost cleared = shared@.board;
        proof {
            g.lemma_blank(dead_opponents(g, team), Color(0));
        }
        let more = capture_own(
            &mut shared.board,
            &mut shared.board_visibility,
            team,
            points_played,
        );
        proof {
            let fallen = dead_opponents(g, team);
            let own = dead_own(cleared, team);
            lemma_touched_shape(cleared, g, own);
            lemma_uncover_step(v0, touched(g, fallen), touched(g, own));
            cleared.lemma_blank(own.intersect(old(points_played)@.to_set()), Color(0));
            lemma_count_bound(g.cells);
            assert(shared@.board_history =~= s0.board_history);
            assert(shared@.points == capture_of(s0, old(points_played)@).points);
        }
        (captures, shown || more)
    }

    /// The ko rule: a position may not repeat one of the last entries of the history.
    ///
    /// As many entries are compared as stones were captured in the game, `captures`
    /// included, and at least one. Where one of them holds the board as it is now, board
    /// and points are restored from the last entry and the move is refused.
    pub fn superko(
        &self,
        shared: &mut SharedState,
        captures: usize,
        hash: u64,
    ) -> (r: MakeActionResult<()>)
        requires
            old(shared)@.board_history.len() > 0,
            forall|i: int|
                0 <= i < old(shared)@.board_history.len() ==> (#[trigger] old(
                    shared,
                )@.board_history[i]).hash == board_hash(old(shared)@.board_history[i].board),
            hash == board_hash(old(shared)@.board),
            old(shared).capture_count + captures <= usize::MAX,
        ensures
            r is Err <==> repeats(
                old(shared)@.board_history,
                ko_window(old(shared).capture_count, captures as nat),
                old(shared)@.board,
            ),
            r matches Err(e) ==> e == MakeActionError::Ko && final(shared)@ == restored(old(shared)@),
            r is Ok ==> final(shared)@ == old(shared)@,
    {
        let ghost s0 = shared@;
        let n = shared.board_history.len();
        let total: usize = shared.capture_count + captures;
        let window: usize = if total == 0 {
            1
        } else {
            total
        };
        let stop: usize = if window >= n {
            0
        } else {
            n - window
        };
        let mut i: usize = n;
        while i > stop
            invariant
                stop <= i <= n,
                n == shared.board_history@.len(),
                shared@ == s0,
                s0 == old(shared)@,
                n > 0,
                window == ko_window(s0.capture_count, captures as nat),
                stop == (if window >= n {
                    0
                } else {
                    n - window
                }),
                hash == board_hash(s0.board),
                forall|k: int|
                    0 <= k < s0.board_history.len() ==> (#[trigger] s0.board_history[k]).hash
                        == board_hash(s0.board_history[k].board),
                forall|k: int| i <= k < n ==> (#[trigger] s0.board_history[k]).board != s0.board,
            decreases i,
        {
            i -= 1;
            let entry = &shared.board_history[i];
            assert(s0.board_history[i as int] == entry@);
            if entry.hash == hash && entry.board.same_as(&shared.board) {
                let last = &shared.board_history[n - 1];
                assert(s0.board_history[n - 1] == last@);
                let board = last.board.clone();
                let points = copy_points(&last.points);
                shared.board = board;
                shared.points = points;
                proof {
                    assert(shared@.board_history =~= s0.board_history);
                    assert(s0.board_history.last() == s0.board_history[n - 1]);
                    assert(s0.board_history[i as int].board == s0.board);
                    assert(s0.board_history.len() - window <= i);
                    assert(shared@ == restored(s0));
                }
                return Err(MakeActionError::Ko);
            }
        }
        proof {
            if repeats(s0.board_history, window as nat, s0.board) {
                let k = choose|k: int|
                    0 <= k < s0.board_history.len() && s0.board_history.len() - window <= k && (
                    #[trigger] s0.board_history[k]).board == s0.board;
                assert(stop <= k);
            }
        }
        Ok(())
    }

    /// Places a stone (or a block of stones) for the seat to move.
    pub fn make_action_place(
        &mut self,
        shared: &mut SharedState,
        p: (u32, u32),
    ) -> (r: MakeActionResult)
        requires
            ready(old(shared)@, old(self)@),
            old(shared).capture_count + old(shared)@.board.cells.len() <= usize::MAX,
        ensures
            final(shared)@ == place_outcome(old(shared)@, old(self)@, p).shared,
            final(self)@ == place_outcome(old(shared)@, old(self)@, p).state,
            result_view(r) == place_outcome(old(shared)@, old(self)@, p).result,
            r is Err ==> final(shared)@ == old(shared)@ && final(self)@ == old(self)@,
            ready(final(shared)@, final(self)@),
    {
        let ghost s0 = shared@;
        let ghost st0 = self@;
        let ghost pl = placement(s0, st0, p);
        let overlay = copy_visibility(&shared.board_visibility);
        let placed = self.place_stone(shared, p);
        let mut points_played = match placed {
            Ok(v) => v,
            Err(e) => {
                proof {
                    assert(shared@ == s0);
                    assert(self@ == st0);
                }
                return Err(e);
            },
        };
        let ghost played = points_played@;
        let ghost s1 = shared@;
        if points_played.is_empty() {
            proof {
                crate::placement::lemma_placement_empty(s0, st0, p);
                assert(shared@ == (SharedView { board_visibility: pl.visibility, ..s0 }));
                lemma_fits_still(s0, s1);
            }
            return Ok(ActionChange::NoChange);
        }
        proof {
            crate::placement::lemma_placement_shape(s0, st0, p);
        }
        let (captures, revealed) = self.capture(shared, &mut points_played);
        let ghost cap = capture_of(s1, played);
        let ghost s2 = shared@;
        proof {
            assert(cap == capture_outcome(
                pl.board,
                pl.visibility,
                s0.points,
                s0.mods.ponnuki_is_points,
                s0.team(),
                played,
            ));
            assert forall|i: int| 0 <= i < points_played@.len() implies s0.board.contains(
                #[trigger] points_played@[i],
            ) by {
                crate::point_list::lemma_filter_holds(
                    played,
                    crate::rules::outside(dead_own(
                        pl.board.blank(dead_opponents(pl.board, s0.team()), Color(0)),
                        s0.team(),
                    )),
                    points_played@[i],
                );
                assert(points_played@.contains(points_played@[i]));
                let j = choose|j: int| 0 <= j < played.len() && played[j] == points_played@[i];
                assert(s0.board.contains(played[j]));
            }
        }
        if points_played.is_empty() {
            let n = shared.board_history.len();
            let last = &shared.board_history[n - 1];
            let board = last.board.clone();
            let points = copy_points(&last.points);
            shared.board = board;
            shared.points = points;
            proof {
                assert(shared@.board_history =~= s0.board_history);
                assert(s0.board_history.last() == s0.board_history[n - 1]);
                assert(shared@ == restored(SharedView { board_visibility: cap.visibility, ..s0 }));
                lemma_fits_still(s0, shared@);
            }
            if revealed {
                return Ok(ActionChange::NoChange);
            }
            shared.board_visibility = overlay;
            proof {
                assert(shared@.board_history =~= s0.board_history);
                assert(shared@ == s0);
            }
            return Err(MakeActionError::Suicide);
        }
        let hash = shared.board.hash();
        proof {
            assert forall|i: int|
                0 <= i < s2.board_history.len() implies (#[trigger] s2.board_history[i]).hash
                == board_hash(s2.board_history[i].board) by {
                assert(s0.board_history[i].fits(s0));
            }
        }
        match self.superko(shared, captures, hash) {
            Ok(_) => {},
            Err(e) => {
                shared.board_visibility = overlay;
                proof {
                    assert(shared@.board_history =~= s0.board_history);
                    assert(shared@ == s0);
                }
                return Err(e);
            },
        }
        proof {
            assert(shared@ == s2);
            assert(s2.board_visibility == cap.visibility);
        }
        self.settle(shared, points_played, captures, hash);
        proof {
            let o = place_outcome(s0, st0, p);
            assert(shared@.board_history =~= o.shared.board_history);
            assert(shared@ == o.shared);
            assert(self@ == o.state);
            lemma_fits_still(s0, shared@);
            s0.board.lemma_blank(dead_opponents(pl.board, s0.team()), Color(0));
            assert forall|i: int|
                0 <= i < shared@.board_history.len() implies (#[trigger] shared@.board_history[i]).fits(
                shared@,
            ) by {
                if i < s0.board_history.len() {
                    assert(shared@.board_history[i] == s0.board_history[i]);
                    assert(s0.board_history[i].fits(s0));
                }
            }
        }
        Ok(ActionChange::NoChange)
    }

    /// Lets a placement stand: applies the rule of the extra turn, passes the turn on
    /// unless the move earned another, forgets the passes, records the points played and
    /// adds an entry to the history.
    pub fn settle(
        &mut self,
        shared: &mut SharedState,
        points_played: GroupVec,
        captures: usize,
        hash: u64,
    )
        requires
            old(shared).board.wf(),
            old(shared)@.board_visibility matches Some(v) ==> v.wf() && v.same_shape(
                old(shared)@.board,
            ),
            old(shared).turn < old(shared)@.seats.len(),
            forall|i: int|
                0 <= i < points_played@.len() ==> old(shared)@.board.contains(
                    #[trigger] points_played@[i],
                ),
            old(shared).capture_count + captures <= usize::MAX,
        ensures
            final(shared)@ == settled(
                old(shared)@,
                old(self)@,
                points_played@,
                captures as nat,
                hash,
            ),
            final(self)@ == (PlayView {
                players_passed: nobody_passed(old(self)@.players_passed.len()),
                last_stone: Some(points_played@),
            }),
            final(shared)@.board_visibility matches Some(v) ==> v.wf() && v.same_shape(
                old(shared)@.board,
            ),
    {
        let ghost s0 = shared@;
        let ghost h0 = shared@.board_history;
        let seat_count = shared.seats.len();
        let new_turn = match shared.mods.n_plus_one {
            Some(rule) => {
                proof {
                    if let Some(v) = s0.board_visibility {
                        v.lemma_blank(shown(s0.board, points_played@, rule.length), 0u16);
                    }
                }
                match check(&points_played, &shared.board, shared.board_visibility.as_mut(), &rule) {
                    NPlusOneResult::ExtraTurn => true,
                    NPlusOneResult::Nothing => false,
                }
            },
            None => false,
        };
        if !new_turn {
            assert(shared.turn == s0.turn);
            shared.turn += 1;
            if shared.turn >= seat_count {
                shared.turn = 0;
            }
        }
        self.last_stone = Some(points_played);
        self.forget_passes();
        let entry = BoardHistory {
            hash,
            board: shared.board.clone(),
            board_visibility: copy_visibility(&shared.board_visibility),
            state: GameState::Play(self.clone()),
            points: copy_points(&shared.points),
            turn: shared.turn,
        };
        let ghost e = entry@;
        shared.board_history.push(entry);
        shared.capture_count += captures;
        proof {
            assert(shared@.board_history =~= h0.push(e));
        }
    }

    /// Forgets who has passed.
    pub fn forget_passes(&mut self)
        ensures
            final(self)@ == (PlayView {
                players_passed: nobody_passed(old(self)@.players_passed.len()),
                ..old(self)@
            }),
    {
        let n = self.players_passed.len();
        let mut i: usize = 0;
        while i < n
            invariant
                i <= n,
                n == self.players_passed@.len(),
                self.last_stone == old(self).last_stone,
                forall|k: int| 0 <= k < i ==> !self.players_passed@[k],
            decreases n - i,
        {
            self.players_passed.set(i, false);
            i += 1;
        }
        proof {
            assert(self.players_passed@ =~= nobody_passed(old(self)@.players_passed.len()));
        }
    }

    /// Passes for the seat to move.
    pub fn make_action_pass(&mut self, shared: &mut SharedState) -> (r: MakeActionResult)
        requires
            ready(old(shared)@, old(self)@),
        ensures
            final(shared)@ == pass_outcome(old(shared)@, old(self)@).shared,
            final(self)@ == pass_outcome(old(shared)@, old(self)@).state,
            result_view(r) == pass_outcome(old(shared)@, old(self)@).result,
            r is Ok,
            ready(final(shared)@, final(self)@),
    {
        let ghost s0 = shared@;
        let ghost st0 = self@;
        let active_seat = get_active_seat(shared);
        let n = shared.seats.len();
        let mut i: usize = 0;
        while i < n
            invariant
                i <= n,
                n == s0.seats.len(),
                shared@ == s0,
                active_seat == s0.active_seat(),
                self.players_passed@.len() == n,
                st0.players_passed.len() == n,
                self.last_stone == old(self).last_stone,
                forall|k: int|
                    0 <= k < i ==> self.players_passed@[k] == (st0.players_passed[k]
                        || s0.seats[k].team == s0.team()),
                forall|k: int| i <= k < n ==> self.players_passed@[k] == st0.players_passed[k],
            decreases n - i,
        {
            assert(shared.seats@[i as int] == s0.seats[i as int]);
            let ghost before = self.players_passed@;
            let same = shared.seats[i].team.0 == active_seat.team.0;
            assert(same == (s0.seats[i as int].team == s0.team()));
            if same {
                self.players_passed.set(i, true);
            }
            assert(self.players_passed@[i as int] == (st0.players_passed[i as int] || same));
            assert(forall|k: int| 0 <= k < n && k != i ==> self.players_passed@[k] == before[k]);
            i += 1;
        }
        proof {
            assert(self.players_passed@ =~= passed_after(st0.players_passed, s0.seats, s0.team()));
        }
        shared.turn += 1;
        if shared.turn >= shared.seats.len() {
            shared.turn = 0;
        }
        let entry = BoardHistory {
            hash: shared.board.hash(),
            board: shared.board.clone(),
            board_visibility: copy_visibility(&shared.board_visibility),
            state: GameState::Play(self.clone()),
            points: copy_points(&shared.points),
            turn: shared.turn,
        };
        let ghost e = entry@;
        shared.board_history.push(entry);
        proof {
            assert(shared@.board_history =~= s0.board_history.push(e));
            lemma_fits_still(s0, shared@);
            assert forall|i: int|
                0 <= i < shared@.board_history.len() implies (#[trigger] shared@.board_history[i]).fits(
                shared@,
            ) by {
                if i < s0.board_history.len() {
                    assert(shared@.board_history[i] == s0.board_history[i]);
                    assert(s0.board_history[i].fits(s0));
                }
            }
        }
        let mut all = true;
        let mut i: usize = 0;
        while i < n
            invariant
                i <= n,
                n == self.players_passed@.len(),
                all == forall|k: int| 0 <= k < i ==> self.players_passed@[k],
            decreases n - i,
        {
            if !self.players_passed[i] {
                all = false;
            }
            i += 1;
        }
        if all {
            self.forget_passes();
            return Ok(
                ActionChange::PushState(
                    GameState::scoring(&shared.board, shared.seats.len(), &shared.points),
                ),
            );
        }
        Ok(ActionChange::NoChange)
    }

    /// Undoes the last move.
    pub fn make_action_cancel(&mut self, shared: &mut SharedState) -> (r: MakeActionResult)
        requires
            ready(old(shared)@, old(self)@),
        ensures
            final(shared)@ == cancel_outcome(old(shared)@, old(self)@).shared,
            final(self)@ == cancel_outcome(old(shared)@, old(self)@).state,
            result_view(r) == cancel_outcome(old(shared)@, old(self)@).result,
            r is Err ==> final(shared)@ == old(shared)@ && final(self)@ == old(self)@,
            ready(final(shared)@, final(self)@),
    {
        let ghost s0 = shared@;
        if shared.board_history.len() < 2 {
            return Err(MakeActionError::OutOfBounds);
        }
        shared.board_history.pop();
        let n = shared.board_history.len();
        let history = &shared.board_history[n - 1];
        proof {
            assert(shared@.board_history =~= s0.board_history.drop_last());
            assert(history@ == s0.board_history[n - 1]);
            assert(s0.board_history[n - 1].fits(s0));
        }
        let board = history.board.clone();
        let board_visibility = copy_visibility(&history.board_visibility);
        let points = copy_points(&history.points);
        let turn = history.turn;
        let state = match &history.state {
            GameState::Play(s) => s.clone(),
            GameState::Scoring(_) => PlayState::new(0),
        };
        shared.board = board;
        shared.board_visibility = board_visibility;
        shared.points = points;
        shared.turn = turn;
        *self = state;
        proof {
            assert(shared@.board_history =~= s0.board_history.drop_last());
            lemma_fits_still(s0, shared@);
            assert forall|i: int|
                0 <= i < shared@.board_history.len() implies (#[trigger] shared@.board_history[i]).fits(
                shared@,
            ) by {
                assert(shared@.board_history[i] == s0.board_history[i]);
                assert(s0.board_history[i].fits(s0));
            }
        }
        Ok(ActionChange::NoChange)
    }

    /// Sets the team of every seat by the number of moves made, where the game rotates
    /// colours.
    pub fn set_zen_teams(&mut self, shared: &mut SharedState)
        requires
            old(shared)@.board_history.len() > 0,
            old(shared)@.mods.zen_go matches Some(z) ==> z.color_count >= 1,
        ensures
            final(shared)@ == (SharedView { seats: zen_seats(old(shared)@), ..old(shared)@ }),
            final(self)@ == old(self)@,
    {
        let ghost s0 = shared@;
        let move_number = shared.board_history.len() - 1;
        match shared.mods.zen_go {
            Some(zen) => {
                let count = zen.color_count as usize;
                let team = Color((move_number % count) as u8 + 1);
                let n = shared.seats.len();
                let mut i: usize = 0;
                while i < n
                    invariant
                        i <= n,
                        n == s0.seats.len(),
                        shared@ == (SharedView { seats: shared.seats@, ..s0 }),
                        shared.seats@.len() == n,
                        team == zen_team(s0.board_history.len() - 1, zen.color_count),
                        forall|k: int|
                            0 <= k < i ==> shared.seats@[k] == (Seat { team, ..s0.seats[k] }),
                        forall|k: int| i <= k < n ==> shared.seats@[k] == s0.seats[k],
                    decreases n - i,
                {
                    let seat = shared.seats[i];
                    let ghost h = shared@.board_history;
                    shared.seats.set(
                        i,
                        Seat { player: seat.player, team, resigned: seat.resigned },
                    );
                    proof {
                        assert(shared@.board_history =~= h);
                    }
                    i += 1;
                }
                proof {
                    assert(shared.seats@ =~= zen_seats(s0));
                }
            },
            None => {},
        }
    }

    /// Makes the action of the player `player_id`.
    pub fn make_action(
        &mut self,
        shared: &mut SharedState,
        player_id: u64,
        action: ActionKind,
    ) -> (r: MakeActionResult)
        requires
            ready(old(shared)@, old(self)@),
            old(shared).capture_count + old(shared)@.board.cells.len() <= usize::MAX,
        ensures
            final(shared)@ == action_outcome(old(shared)@, old(self)@, player_id, action).shared,
            final(self)@ == action_outcome(old(shared)@, old(self)@, player_id, action).state,
            result_view(r) == action_outcome(old(shared)@, old(self)@, player_id, action).result,
            r is Err ==> final(shared)@ == old(shared)@ && final(self)@ == old(self)@,
            ready(final(shared)@, final(self)@),
    {
        let active_seat = get_active_seat(shared);
        let seated = match active_seat.player {
            Some(id) => id == player_id,
            None => false,
        };
        if !seated {
            return Err(MakeActionError::NotTurn);
        }
        let res = match action {
            ActionKind::Place(x, y) => self.make_action_place(shared, (x, y)),
            ActionKind::Pass => self.make_action_pass(shared),
            ActionKind::Cancel => self.make_action_cancel(shared),
        };
        let res = match res {
            Ok(c) => c,
            Err(e) => {
                return Err(e);
            },
        };
        let ghost s1 = shared@;
        self.set_zen_teams(shared);
        proof {
            lemma_fits_still(s1, shared@);
            if let Some(z) = s1.mods.zen_go {
                let m = s1.board_history.len() - 1;
                assert(0 <= m % (z.color_count as int) < z.color_count) by (nonlinear_arith)
                    requires
                        0 <= m,
                        z.color_count >= 1,
                ;
            }
        }
        Ok(res)
    }
}

} // verus!
