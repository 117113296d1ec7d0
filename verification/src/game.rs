//! The game: the levels, the state of play on one of them, its undo
//! history, the one saved snapshot, and the scores.

use vstd::prelude::*;
use crate::grid::lemma_stored_le_crates;
use crate::level::{level_views, Level, LevelView};
use crate::score::{has_score, is_solved, Score};
use crate::state::{
    face, lemma_history_rebase, lemma_push_fits, lemma_step_fits, step_to, unit_step,
    Counters, Direction, Move, Snapshot, SnapshotView, State, StateView,
};

verus! {

/// The height of the status bar under the board, which the board's squares
/// leave free.
pub const BAR: usize = 16;

/// Whether the game is being played, rests, or is won.
#[derive(Clone, Copy, PartialEq, Eq, Debug, Structural)]
pub enum Status {
    Play,
    Pause,
    Win,
}

/// A game in progress.
#[derive(Debug, PartialEq, Eq)]
pub struct Game {
    /// Set once the game is over.
    pub quit: bool,
    pub status: Status,
    /// Set by whatever changes what is on screen.
    pub must_draw: bool,
    /// Whether the state is to be logged.
    pub debug: bool,
    pub levels: Vec<Level>,
    /// The level being played, counted from 0.
    pub level: usize,
    /// The one saved snapshot, if there is one.
    pub saved: Option<Snapshot>,
    /// The state of play and its undo history.
    pub snap: Snapshot,
    pub scores: Vec<Score>,
    /// The width of the window.
    pub width: usize,
    /// The height of the window.
    pub height: usize,
    /// The width of one square on screen.
    pub bw: usize,
    /// The height of one square on screen.
    pub bh: usize,
}

/// The view of a game: what the contracts speak of.
#[verifier::ext_equal]
pub struct GameView {
    pub quit: bool,
    pub status: Status,
    pub must_draw: bool,
    pub debug: bool,
    pub levels: Seq<LevelView>,
    pub level: usize,
    pub saved: Option<SnapshotView>,
    pub snap: SnapshotView,
    pub scores: Seq<Score>,
    pub width: usize,
    pub height: usize,
    pub bw: usize,
    pub bh: usize,
}

impl View for Game {
    type V = GameView;

    open spec fn view(&self) -> GameView {
        GameView {
            quit: self.quit,
            status: self.status,
            must_draw: self.must_draw,
            debug: self.debug,
            levels: level_views(self.levels@),
            level: self.level,
            saved: match self.saved {
                Some(s) => Some(s@),
                None => None,
            },
            snap: self.snap@,
            scores: self.scores@,
            width: self.width,
            height: self.height,
            bw: self.bw,
            bh: self.bh,
        }
    }
}

/// The first level from `from` on of which `scores` holds no record; `n`
/// if it holds one of each of them below `n`.
pub open spec fn first_unsolved(scores: Seq<Score>, from: nat, n: nat) -> nat
    decreases n - from,
{
    if from >= n || !has_score(scores, from as int) {
        from
    } else {
        first_unsolved(scores, from + 1, n)
    }
}

/// Every level from `from` up to the first unsolved one has a record, and
/// that one has none.
pub proof fn lemma_first_unsolved(scores: Seq<Score>, from: nat, n: nat)
    requires
        from <= n,
    ensures
        from <= first_unsolved(scores, from, n) <= n,
        forall|i: int| from <= i < first_unsolved(scores, from, n) ==> has_score(scores, i),
        first_unsolved(scores, from, n) < n ==> !has_score(
            scores,
            first_unsolved(scores, from, n) as int,
        ),
    decreases n - from,
{
    if !(from >= n || !has_score(scores, from as int)) {
        lemma_first_unsolved(scores, from + 1, n);
    }
}

/// The state of play at the start of `level`, with the given facing and
/// undo count.
pub open spec fn opening(level: LevelView, dir: Direction, undos: u32) -> SnapshotView {
    SnapshotView {
        state: StateView {
            map: level.map,
            counters: Counters {
                moves: 0,
                pushes: 0,
                time_s: 0,
                stored: level.stored as usize,
                px: level.px as usize,
                py: level.py as usize,
                dir,
                undos,
            },
        },
        undo_states: seq![],
    }
}

impl GameView {
    /// The level being played.
    pub open spec fn current(self) -> LevelView {
        self.levels[self.level as int]
    }

    /// What holds of every game: it plays one of its levels, all of which
    /// are well formed; the state of play and the saved snapshot are of
    /// that level; and the squares on screen share out the window above the
    /// status bar.
    pub open spec fn wf(self) -> bool {
        &&& self.level < self.levels.len() <= usize::MAX
        &&& forall|i: int| 0 <= i < self.levels.len() ==> (#[trigger] self.levels[i]).wf()
        &&& self.height >= BAR
        &&& self.bw == self.width as int / self.current().w as int
        &&& self.bh == (self.height - BAR) / self.current().h as int
        &&& self.snap.fits(self.current())
        &&& match self.saved {
            Some(s) => s.fits(self.current()),
            None => true,
        }
    }

    /// The game as it starts: at the first level that is not solved yet,
    /// before the first move, nothing saved.
    pub open spec fn start(levels: Seq<LevelView>, scores: Seq<Score>, width: usize, height: usize)
        -> GameView {
        let level = first_unsolved(scores, 0, levels.len());
        GameView {
            quit: false,
            status: Status::Play,
            must_draw: true,
            debug: false,
            levels,
            level: level as usize,
            saved: None,
            snap: opening(levels[level as int], Direction::West, 0),
            scores,
            width,
            height,
            bw: (width as int / levels[level as int].w as int) as usize,
            bh: ((height - BAR) / levels[level as int].h as int) as usize,
        }
    }

    /// Whether the player could stand on square `(x, y)`.
    pub open spec fn can_enter(self, x: int, y: int) -> bool {
        self.snap.state.can_enter(x, y)
    }

    /// The game with the state of play recorded at the end of the history.
    pub open spec fn push_undo(self, full: bool) -> GameView {
        GameView {
            snap: SnapshotView {
                state: self.snap.state,
                undo_states: self.snap.undo_states.push(self.snap.state.record(full)),
            },
            ..self
        }
    }

    /// The record of the run as it stands.
    pub open spec fn run(self) -> Score {
        Score {
            level: (self.level % 0x10000) as u16,
            moves: (self.snap.state.counters.moves % 0x10000) as u16,
            pushes: (self.snap.state.counters.pushes % 0x10000) as u16,
            time_s: self.snap.state.counters.time_s,
        }
    }

    /// The game with the run recorded, unless the level has a record
    /// already: the first win stays.
    pub open spec fn save_score(self) -> GameView {
        if has_score(self.scores, self.level as int) {
            self
        } else {
            GameView { scores: self.scores.push(self.run()), ..self }
        }
    }

    /// Whether a move by `(dx, dy)` wins the level: it is a push after
    /// which every crate stands on a target.
    pub open spec fn wins(self, dx: int, dy: int) -> bool {
        &&& self.snap.state.judge(dx, dy) == Move::Push
        &&& self.snap.state.stored_after(dx, dy) == self.current().crates
    }

    /// The game after a move by `(dx, dy)`. A rejected move changes
    /// nothing. An accepted one is recorded in the history, with the board
    /// if it is a push, before the state changes. A winning move sets the
    /// status to `Win`; and whenever the status is `Win` after an accepted
    /// move, the run is recorded.
    pub open spec fn try_move(self, dx: int, dy: int) -> GameView {
        let kind = self.snap.state.judge(dx, dy);
        if kind == Move::Rejected {
            self
        } else {
            let next = GameView {
                status: if self.wins(dx, dy) {
                    Status::Win
                } else {
                    self.status
                },
                must_draw: true,
                snap: SnapshotView {
                    state: self.snap.state.moved(dx, dy),
                    undo_states: self.snap.undo_states.push(
                        self.snap.state.record(kind == Move::Push),
                    ),
                },
                ..self
            };
            if next.status == Status::Win {
                next.save_score()
            } else {
                next
            }
        }
    }

    /// Whether there is room for an undo: the history is empty, so that
    /// nothing is counted, or the undo count can still be raised.
    pub open spec fn undo_fits(self) -> bool {
        self.snap.undo_states.len() > 0 ==> self.snap.state.counters.undos < u32::MAX
    }

    /// The game after taking back the last move: the state that the last
    /// entry of the history brings back, but for the undo count, which is
    /// one more than it was; and the history without that entry. Nothing
    /// changes if the history is empty.
    pub open spec fn pop_undo(self) -> GameView {
        if self.snap.undo_states.len() == 0 {
            self
        } else {
            let back = self.snap.state.restore(self.snap.undo_states.last());
            GameView {
                must_draw: true,
                snap: SnapshotView {
                    state: StateView {
                        map: back.map,
                        counters: Counters {
                            undos: (self.snap.state.counters.undos + 1) as u32,
                            ..back.counters
                        },
                    },
                    undo_states: self.snap.undo_states.drop_last(),
                },
                ..self
            }
        }
    }

    /// The game with the state of play and its history saved, in place of
    /// whatever was saved before.
    pub open spec fn save_snapshot(self) -> GameView {
        GameView { saved: Some(self.snap), ..self }
    }

    /// The game with the saved state and history brought back; they stay
    /// saved. Nothing changes if nothing is saved.
    pub open spec fn load_snapshot(self) -> GameView {
        match self.saved {
            Some(s) => GameView { must_draw: true, snap: s, ..self },
            None => self,
        }
    }

    /// The game at the start of level `level`: no moves, no time, an empty
    /// history, the level's board and player; the facing and the undo count
    /// stay. A snapshot saved on another level is dropped. Nothing changes
    /// if there is no such level.
    pub open spec fn set_level(self, level: int) -> GameView {
        if 0 <= level < self.levels.len() {
            GameView {
                status: Status::Play,
                must_draw: true,
                level: level as usize,
                saved: if level == self.level {
                    self.saved
                } else {
                    None
                },
                snap: opening(
                    self.levels[level],
                    self.snap.state.counters.dir,
                    self.snap.state.counters.undos,
                ),
                bw: (self.width as int / self.levels[level].w as int) as usize,
                bh: ((self.height - BAR) / self.levels[level].h as int) as usize,
                ..self
            }
        } else {
            self
        }
    }

    /// Whether `ms` milliseconds are enough for the clock to go on: a full
    /// second.
    pub open spec fn ticks(ms: int) -> bool {
        ms >= 1000
    }

    /// The game after `ms` milliseconds have passed since the clock last
    /// went on. Less than a second changes nothing. Else the screen is to
    /// be drawn anew, and while the game is being played the full seconds
    /// are added to the time.
    pub open spec fn tick(self, ms: int) -> GameView {
        if !Self::ticks(ms) {
            self
        } else if self.status == Status::Play {
            GameView {
                must_draw: true,
                snap: SnapshotView {
                    state: StateView {
                        map: self.snap.state.map,
                        counters: Counters {
                            time_s: (self.snap.state.counters.time_s + ms / 1000) as u32,
                            ..self.snap.state.counters
                        },
                    },
                    undo_states: self.snap.undo_states,
                },
                ..self
            }
        } else {
            GameView { must_draw: true, ..self }
        }
    }
}

/// A move leaves a well-formed game well formed.
pub proof fn lemma_try_move_wf(g: GameView, dx: int, dy: int)
    requires
        g.wf(),
        unit_step(dx, dy),
        g.snap.state.counters.moves < usize::MAX,
    ensures
        g.try_move(dx, dy).wf(),
{
    let kind = g.snap.state.judge(dx, dy);
    let after = g.try_move(dx, dy);
    if kind != Move::Rejected {
        if kind == Move::Push {
            lemma_push_fits(g.snap.state, g.current(), dx, dy);
        } else {
            lemma_step_fits(g.snap.state, g.current(), dx, dy);
        }
        let entry = g.snap.state.record(kind == Move::Push);
        let history = g.snap.undo_states.push(entry);
        assert(history.drop_last() =~= g.snap.undo_states);
        assert(after.snap.undo_states == history);
        assert(after.snap.state.restore(entry) == g.snap.state);
    }
}

/// Taking back a move leaves a well-formed game well formed.
pub proof fn lemma_pop_undo_wf(g: GameView)
    requires
        g.wf(),
        g.undo_fits(),
    ensures
        g.pop_undo().wf(),
{
    if g.snap.undo_states.len() > 0 {
        let back = g.snap.state.restore(g.snap.undo_states.last());
        lemma_history_rebase(
            g.snap.undo_states.drop_last(),
            back,
            g.pop_undo().snap.state,
            g.current(),
        );
    }
}

/// Entering a level leaves a well-formed game well formed.
pub proof fn lemma_set_level_wf(g: GameView, level: int)
    requires
        g.wf(),
    ensures
        g.set_level(level).wf(),
{
    if 0 <= level < g.levels.len() {
        let lv = g.levels[level];
        assert(lv.wf());
        lemma_share(g.width as int, lv.w as int);
        lemma_share(g.height - BAR, lv.h as int);
        lemma_stored_le_crates(lv.map);
    }
}

/// A share of a length is no longer than the length.
pub proof fn lemma_share(total: int, parts: int)
    by (nonlinear_arith)
    requires
        0 <= total,
        1 <= parts,
    ensures
        0 <= total / parts <= total,
{
}

/// The passing of time leaves a well-formed game well formed.
pub proof fn lemma_tick_wf(g: GameView, ms: int)
    requires
        g.wf(),
        0 <= ms,
        g.snap.state.counters.time_s + ms / 1000 <= u32::MAX,
    ensures
        g.tick(ms).wf(),
{
    lemma_history_rebase(g.snap.undo_states, g.snap.state, g.tick(ms).snap.state, g.current());
}

/// The level at which a game of `n` levels starts: the first of which
/// `scores` holds no record; `n` if it holds one of each.
pub fn resume_level(scores: &Vec<Score>, n: usize) -> (level: usize)
    ensures
        level == first_unsolved(scores@, 0, n as nat),
        level <= n,
        forall|i: int| 0 <= i < level ==> has_score(scores@, i),
        level < n ==> !has_score(scores@, level as int),
{
    proof {
        lemma_first_unsolved(scores@, 0, n as nat);
    }
    let mut dones: Vec<bool> = vec![false; n];
    let mut k: usize = 0;
    assert(scores@.take(0) =~= Seq::<Score>::empty());
    while k < scores.len()
        invariant
            k <= scores@.len(),
            dones@.len() == n,
            forall|i: int|
                0 <= i < n ==> #[trigger] dones@[i] == has_score(scores@.take(k as int), i),
        decreases scores@.len() - k,
    {
        let level = scores[k].level as usize;
        assert(scores@.take(k + 1).drop_last() =~= scores@.take(k as int));
        if level < n {
            dones.set(level, true);
        }
        k += 1;
    }
    assert(scores@.take(k as int) =~= scores@);
    let mut level: usize = 0;
    while level < n && dones[level]
        invariant
            level <= n,
            dones@.len() == n,
            forall|i: int| 0 <= i < n ==> #[trigger] dones@[i] == has_score(scores@, i),
            first_unsolved(scores@, 0, n as nat) == first_unsolved(scores@, level as nat, n as nat),
        decreases n - level,
    {
        level += 1;
    }
    level
}

impl Game {
    /// A game on `levels` in a window `width` wide and `height` high, at
    /// the first level that `scores` does not record as solved; `None` if
    /// every level is solved, or there is none.
    pub fn new(levels: Vec<Level>, scores: Vec<Score>, width: usize, height: usize) -> (r: Option<
        Game,
    >)
        requires
            forall|i: int| 0 <= i < levels@.len() ==> (#[trigger] levels@[i])@.wf(),
            height >= BAR,
        ensures
            match r {
                Some(g) => {
                    &&& first_unsolved(scores@, 0, levels@.len()) < levels@.len()
                    &&& g@ == GameView::start(level_views(levels@), scores@, width, height)
                    &&& g@.wf()
                },
                None => first_unsolved(scores@, 0, levels@.len()) == levels@.len(),
            },
    {
        let level = resume_level(&scores, levels.len());
        if level >= levels.len() {
            return None;
        }
        let ghost lv = levels@[level as int]@;
        let ghost views = level_views(levels@);
        proof {
            assert(lv.wf());
            assert(views[level as int] == lv);
            lemma_share(width as int, lv.w as int);
            lemma_share(height - BAR, lv.h as int);
            lemma_stored_le_crates(lv.map);
        }
        let snap = Snapshot {
            state: State {
                map: levels[level].map.clone(),
                counters: Counters {
                    moves: 0,
                    pushes: 0,
                    time_s: 0,
                    stored: levels[level].stored,
                    px: levels[level].px,
                    py: levels[level].py,
                    dir: Direction::West,
                    undos: 0,
                },
            },
            undo_states: Vec::new(),
        };
        let bw = width / levels[level].w;
        let bh = (height - BAR) / levels[level].h;
        let g = Game {
            quit: false,
            status: Status::Play,
            must_draw: true,
            debug: false,
            levels,
            level,
            saved: None,
            snap,
            scores,
            width,
            height,
            bw,
            bh,
        };
        proof {
            let start = GameView::start(views, scores@, width, height);
            assert(g@.snap.undo_states =~= start.snap.undo_states);
            assert(g@.snap =~= start.snap);
            assert(g@ =~= start);
            assert forall|i: int| 0 <= i < views.len() implies (#[trigger] views[i]).wf() by {
                assert(views[i] == levels@[i]@);
            }
        }
        Some(g)
    }

    /// Enters level `level` if there is one, and says whether there is.
    /// The state of play starts anew from the level; the facing and the
    /// undo count stay, and so does a snapshot saved on the same level.
    pub fn set_level(&mut self, level: usize) -> (entered: bool)
        requires
            old(self)@.wf(),
        ensures
            entered == (level < old(self)@.levels.len()),
            final(self)@ == old(self)@.set_level(level as int),
            final(self)@.wf(),
    {
        proof {
            lemma_set_level_wf(self@, level as int);
        }
        if level < self.levels.len() {
            let ghost lv = self@.levels[level as int];
            proof {
                assert(lv == self.levels@[level as int]@);
                assert(lv.wf());
                lemma_share(self.width as int, lv.w as int);
                lemma_share(self.height - BAR, lv.h as int);
                lemma_stored_le_crates(lv.map);
            }
            self.status = Status::Play;
            self.must_draw = true;
            if level != self.level {
                self.saved = None;
            }
            self.level = level;
            self.snap.state.counters.moves = 0;
            self.snap.state.counters.pushes = 0;
            self.snap.state.counters.time_s = 0;
            self.snap.state.map = self.levels[level].map.clone();
            self.snap.undo_states = Vec::new();
            self.snap.state.counters.stored = self.levels[level].stored;
            self.snap.state.counters.px = self.levels[level].px;
            self.snap.state.counters.py = self.levels[level].py;
            self.bw = self.width / self.levels[level].w;
            self.bh = (self.height - BAR) / self.levels[level].h;
            proof {
                let after = old(self)@.set_level(level as int);
                assert(self@.snap.undo_states =~= after.snap.undo_states);
                assert(self@.snap =~= after.snap);
                assert(self@ =~= after);
            }
            true
        } else {
            false
        }
    }

    /// Whether the player could stand on square `(x, y)`: it is on the
    /// board and holds neither a wall nor a crate.
    pub fn can_enter(&self, x: usize, y: usize) -> (r: bool)
        requires
            self@.wf(),
        ensures
            r == self@.can_enter(x as int, y as int),
    {
        proof {
            assert(self@.current() == self.levels@[self.level as int]@);
        }
        if x < self.levels[self.level].w && y < self.levels[self.level].h {
            self.snap.state.map.get(x, y).is_free()
        } else {
            false
        }
    }

    /// Records the state of play at the end of the history: with a copy of
    /// the board if `full`.
    pub fn push_undo(&mut self, full: bool)
        ensures
            final(self)@ == old(self)@.push_undo(full),
    {
        let entry = self.snap.state.save_state(full);
        self.snap.undo_states.push(entry);
        proof {
            let after = old(self)@.push_undo(full);
            assert(self@.snap.undo_states =~= after.snap.undo_states);
            assert(self@.snap =~= after.snap);
            assert(self@ =~= after);
        }
    }

    /// Records the run as it stands as the level's score, unless the level
    /// has one already.
    pub fn save_score(&mut self)
        ensures
            final(self)@ == old(self)@.save_score(),
    {
        if !is_solved(&self.scores, self.level) {
            self.scores.push(
                Score {
                    level: (self.level % 0x10000) as u16,
                    pushes: (self.snap.state.counters.pushes % 0x10000) as u16,
                    moves: (self.snap.state.counters.moves % 0x10000) as u16,
                    time_s: self.snap.state.counters.time_s,
                },
            );
        }
        assert(self@ =~= old(self)@.save_score());
    }

    /// Moves the player by `(dx, dy)` if the rules allow it, pushing the
    /// crate in the way if there is one, and says what the move came to.
    /// Whoever calls writes the scores out if the status is `Win` after an
    /// accepted move.
    pub fn try_move(&mut self, dx: isize, dy: isize) -> (kind: Move)
        requires
            old(self)@.wf(),
            unit_step(dx as int, dy as int),
        ensures
            kind == old(self)@.snap.state.judge(dx as int, dy as int),
            final(self)@ == old(self)@.try_move(dx as int, dy as int),
            final(self)@.wf(),
    {
        let ghost before = self@;
        let ghost lv = self@.current();
        proof {
            assert(lv == self.levels@[self.level as int]@);
        }
        let w = self.levels[self.level].w;
        let h = self.levels[self.level].h;
        let crates = self.levels[self.level].crates;
        let px = self.snap.state.counters.px;
        let py = self.snap.state.counters.py;
        let (x, y) = match step_to(px, py, dx, dy, w, h) {
            Some(p) => p,
            None => {
                return Move::Rejected;
            },
        };
        let from = self.snap.state.map.get(x, y);
        let kind = if from.is_crate() {
            let (tx, ty) = match step_to(x, y, dx, dy, w, h) {
                Some(p) => p,
                None => {
                    return Move::Rejected;
                },
            };
            let to = self.snap.state.map.get(tx, ty);
            if !to.is_free() {
                return Move::Rejected;
            }
            self.push_undo(true);
            let entries = self.snap.undo_states.len();
            proof {
                assert(self@.snap.undo_states.len() == entries);
                assert(before.snap.state.counters.moves + 1 == entries);
                lemma_push_fits(before.snap.state, lv, dx as int, dy as int);
            }
            self.snap.state.counters.pushes = self.snap.state.counters.pushes + 1;
            self.snap.state.map.set(x, y, from.remove_crate());
            self.snap.state.map.set(tx, ty, to.add_crate());
            let mut stored = self.snap.state.counters.stored;
            if from.is_target() {
                stored = stored - 1;
            }
            if to.is_target() {
                stored = stored + 1;
            }
            self.snap.state.counters.stored = stored;
            if stored == crates {
                self.status = Status::Win;
            }
            Move::Push
        } else if from.is_free() {
            self.push_undo(false);
            let entries = self.snap.undo_states.len();
            proof {
                assert(self@.snap.undo_states.len() == entries);
                assert(before.snap.state.counters.moves + 1 == entries);
            }
            Move::Step
        } else {
            return Move::Rejected;
        };
        self.snap.state.counters.moves = self.snap.state.counters.moves + 1;
        self.snap.state.counters.px = x;
        self.snap.state.counters.py = y;
        self.snap.state.counters.dir = face(dx, dy);
        self.must_draw = true;
        proof {
            let after = before.try_move(dx as int, dy as int);
            assert(self@.snap.state =~~= after.snap.state);
            assert(self@.snap =~= after.snap);
        }
        if self.status == Status::Win {
            self.save_score();
        }
        proof {
            let after = before.try_move(dx as int, dy as int);
            assert(self@ =~= after);
            lemma_try_move_wf(before, dx as int, dy as int);
        }
        kind
    }

    /// Takes back the last move, if there is one, and says whether there
    /// was: the state that the last entry of the history kept comes back,
    /// the entry leaves the history, and the undo count is one more than
    /// it was. Nothing changes if the history is empty. Whoever calls
    /// writes the scores out after an undo.
    pub fn pop_undo(&mut self) -> (undone: bool)
        requires
            old(self)@.wf(),
            old(self)@.undo_fits(),
        ensures
            undone == (old(self)@.snap.undo_states.len() > 0),
            final(self)@ == old(self)@.pop_undo(),
            final(self)@.wf(),
    {
        proof {
            lemma_pop_undo_wf(self@);
        }
        let undos = self.snap.state.counters.undos;
        match self.snap.undo_states.pop() {
            Some(entry) => {
                assert(entry@ == old(self)@.snap.undo_states.last());
                self.snap.state.restore_state(entry);
                self.snap.state.counters.undos = undos + 1;
                self.must_draw = true;
                proof {
                    let after = old(self)@.pop_undo();
                    assert(self@.snap.undo_states =~= after.snap.undo_states);
                    assert(self@.snap =~= after.snap);
                    assert(self@ =~= after);
                }
                true
            },
            None => {
                assert(self@ =~= old(self)@);
                false
            },
        }
    }

    /// Saves the state of play and its history, in place of whatever was
    /// saved before.
    pub fn save_snapshot(&mut self)
        requires
            old(self)@.wf(),
        ensures
            final(self)@ == old(self)@.save_snapshot(),
            final(self)@.wf(),
    {
        self.saved = Some(self.snap.clone());
        assert(self@ =~= old(self)@.save_snapshot());
    }

    /// Brings back the saved state and history, if there are any, and says
    /// whether there were; they stay saved. Whoever calls writes the scores
    /// out after a load.
    pub fn load_snapshot(&mut self) -> (loaded: bool)
        requires
            old(self)@.wf(),
        ensures
            loaded == old(self)@.saved.is_some(),
            final(self)@ == old(self)@.load_snapshot(),
            final(self)@.wf(),
    {
        match self.saved.take() {
            Some(snap) => {
                self.snap = snap;
                self.save_snapshot();
                self.must_draw = true;
                assert(self@ =~= old(self)@.load_snapshot());
                true
            },
            None => {
                assert(self@ =~= old(self)@);
                false
            },
        }
    }

    /// Lets `ms` milliseconds pass since the clock last went on, and says
    /// whether it went on now: it does after a full second, and then adds
    /// the full seconds to the time played if the game is being played.
    /// Whoever calls counts the next milliseconds from now if it did.
    pub fn tick(&mut self, ms: u64) -> (went_on: bool)
        requires
            old(self)@.wf(),
            old(self)@.status == Status::Play && ms >= 1000
                ==> old(self)@.snap.state.counters.time_s + ms / 1000 <= u32::MAX,
        ensures
            went_on == GameView::ticks(ms as int),
            final(self)@ == old(self)@.tick(ms as int),
            final(self)@.wf(),
    {
        if ms >= 1000 {
            if self.status == Status::Play {
                proof {
                    lemma_tick_wf(self@, ms as int);
                }
                self.snap.state.counters.time_s = self.snap.state.counters.time_s + (ms
                    / 1000) as u32;
            }
            self.must_draw = true;
            assert(self@ =~= old(self)@.tick(ms as int));
            true
        } else {
            false
        }
    }
}

} // verus!
