//! The state of play on one level, and what the undo history keeps of it.

use vstd::prelude::*;
use crate::cell::Cell;
use crate::grid::{
    count, inside, lemma_count_positive, lemma_count_put, lemma_stored_le_crates, put, rect, Grid,
    Mark,
};
use crate::level::LevelView;

verus! {

/// The way the player faces.
#[derive(Clone, Copy, PartialEq, Eq, Debug, Structural)]
pub enum Direction {
    West,
    North,
    East,
    South,
}

/// Everything of the state of play but the board.
#[derive(Clone, Copy, PartialEq, Eq, Debug, Structural)]
pub struct Counters {
    /// The accepted moves.
    pub moves: usize,
    /// The accepted moves that pushed a crate.
    pub pushes: usize,
    /// The seconds played.
    pub time_s: u32,
    /// The crates that stand on a target.
    pub stored: usize,
    /// The player's column.
    pub px: usize,
    /// The player's row.
    pub py: usize,
    /// The way the player faces.
    pub dir: Direction,
    /// The undos made so far. An undo brings back every other counter and
    /// raises this one; it is never taken back.
    pub undos: u32,
}

/// The state of play: the board and the counters.
#[derive(Debug, PartialEq, Eq)]
pub struct State {
    pub map: Grid,
    pub counters: Counters,
}

/// The view of a state of play.
#[verifier::ext_equal]
pub struct StateView {
    pub map: Seq<Seq<Cell>>,
    pub counters: Counters,
}

impl View for State {
    type V = StateView;

    open spec fn view(&self) -> StateView {
        StateView { map: self.map@, counters: self.counters }
    }
}

/// What the history keeps of the state before a move: the counters, and
/// the board too where the move changed it.
#[derive(Debug, PartialEq, Eq)]
pub enum UndoEntry {
    Light { counters: Counters },
    Full { counters: Counters, map: Grid },
}

/// The view of an entry of the history.
#[verifier::ext_equal]
pub enum UndoEntryView {
    Light { counters: Counters },
    Full { counters: Counters, map: Seq<Seq<Cell>> },
}

impl View for UndoEntry {
    type V = UndoEntryView;

    open spec fn view(&self) -> UndoEntryView {
        match self {
            UndoEntry::Light { counters } => UndoEntryView::Light { counters: *counters },
            UndoEntry::Full { counters, map } => UndoEntryView::Full {
                counters: *counters,
                map: map@,
            },
        }
    }
}

/// The views of a history.
pub open spec fn entry_views(entries: Seq<UndoEntry>) -> Seq<UndoEntryView> {
    Seq::new(entries.len(), |i: int| entries[i]@)
}

/// The state of play together with its history, oldest entry first.
#[derive(Debug, PartialEq, Eq)]
pub struct Snapshot {
    pub state: State,
    pub undo_states: Vec<UndoEntry>,
}

/// The view of a state with its history.
#[verifier::ext_equal]
pub struct SnapshotView {
    pub state: StateView,
    pub undo_states: Seq<UndoEntryView>,
}

impl View for Snapshot {
    type V = SnapshotView;

    open spec fn view(&self) -> SnapshotView {
        SnapshotView { state: self.state@, undo_states: entry_views(self.undo_states@) }
    }
}

/// What a move comes to.
#[derive(Clone, Copy, PartialEq, Eq, Debug, Structural)]
pub enum Move {
    /// Nothing changes.
    Rejected,
    /// The player walks onto a free square.
    Step,
    /// The player pushes a crate onto a free square and takes its place.
    Push,
}

/// Whether `(dx, dy)` is one step along one axis.
pub open spec fn unit_step(dx: int, dy: int) -> bool {
    ||| dx == 0 && (dy == -1 || dy == 1)
    ||| dy == 0 && (dx == -1 || dx == 1)
}

/// The way the player faces after a step by `(dx, dy)`.
pub open spec fn facing(dx: int, dy: int) -> Direction {
    if dy == -1 {
        Direction::North
    } else if dy == 1 {
        Direction::South
    } else if dx == 1 {
        Direction::East
    } else {
        Direction::West
    }
}

impl StateView {
    /// Whether the player could stand on square `(x, y)`: it is on the
    /// board and holds neither a wall nor a crate.
    pub open spec fn can_enter(self, x: int, y: int) -> bool {
        &&& 0 <= y < self.map.len()
        &&& 0 <= x < self.map[y].len()
        &&& self.map[y][x].free()
    }

    /// Whether `(x, y)` names a square of the board.
    pub open spec fn on_board(self, x: int, y: int) -> bool {
        0 <= y < self.map.len() && 0 <= x < self.map[y].len()
    }

    /// What a move by `(dx, dy)` comes to. A move off the board or into a
    /// wall is rejected; so is a move into a crate unless the square behind
    /// the crate can be entered.
    pub open spec fn judge(self, dx: int, dy: int) -> Move {
        let x = self.counters.px + dx;
        let y = self.counters.py + dy;
        if !self.on_board(x, y) {
            Move::Rejected
        } else if self.map[y][x].holds_crate() {
            if self.can_enter(x + dx, y + dy) {
                Move::Push
            } else {
                Move::Rejected
            }
        } else if self.map[y][x].free() {
            Move::Step
        } else {
            Move::Rejected
        }
    }

    /// The board after a move by `(dx, dy)`: a push takes the crate from
    /// the square the player enters and puts it on the next one.
    pub open spec fn board_after(self, dx: int, dy: int) -> Seq<Seq<Cell>> {
        let x = self.counters.px + dx;
        let y = self.counters.py + dy;
        if self.judge(dx, dy) == Move::Push {
            let lifted = put(self.map, x, y, self.map[y][x].without_crate());
            put(lifted, x + dx, y + dy, lifted[y + dy][x + dx].with_crate())
        } else {
            self.map
        }
    }

    /// The number of crates on a target after a move by `(dx, dy)`.
    pub open spec fn stored_after(self, dx: int, dy: int) -> int {
        let x = self.counters.px + dx;
        let y = self.counters.py + dy;
        if self.judge(dx, dy) == Move::Push {
            self.counters.stored - (if self.map[y][x].target() {
                1int
            } else {
                0int
            }) + (if self.map[y + dy][x + dx].target() {
                1int
            } else {
                0int
            })
        } else {
            self.counters.stored as int
        }
    }

    /// The state after a move by `(dx, dy)`. A rejected move changes
    /// nothing. An accepted one counts as a move, and as a push if it is
    /// one; the player stands where the step led and faces that way.
    pub open spec fn moved(self, dx: int, dy: int) -> StateView {
        let kind = self.judge(dx, dy);
        if kind == Move::Rejected {
            self
        } else {
            StateView {
                map: self.board_after(dx, dy),
                counters: Counters {
                    moves: (self.counters.moves + 1) as usize,
                    pushes: if kind == Move::Push {
                        (self.counters.pushes + 1) as usize
                    } else {
                        self.counters.pushes
                    },
                    time_s: self.counters.time_s,
                    stored: self.stored_after(dx, dy) as usize,
                    px: (self.counters.px + dx) as usize,
                    py: (self.counters.py + dy) as usize,
                    dir: facing(dx, dy),
                    undos: self.counters.undos,
                },
            }
        }
    }

    /// What the history keeps of this state: with the board if `full`.
    pub open spec fn record(self, full: bool) -> UndoEntryView {
        if full {
            UndoEntryView::Full { counters: self.counters, map: self.map }
        } else {
            UndoEntryView::Light { counters: self.counters }
        }
    }

    /// The state that `entry` brings back: its counters, and its board if
    /// it keeps one, else the board as it is.
    pub open spec fn restore(self, entry: UndoEntryView) -> StateView {
        match entry {
            UndoEntryView::Light { counters } => StateView { map: self.map, counters },
            UndoEntryView::Full { counters, map } => StateView { map, counters },
        }
    }

    /// Whether the state is one of `level`: the board has the level's size
    /// and its number of crates, the player stands on a free square of it,
    /// and `stored` is the number of crates on a target.
    pub open spec fn fits(self, level: LevelView) -> bool {
        &&& rect(self.map, level.w as int, level.h as int)
        &&& inside(self.counters.px as int, self.counters.py as int, level.w as int, level.h as int)
        &&& self.map[self.counters.py as int][self.counters.px as int].free()
        &&& count(self.map, Mark::Crate) == level.crates
        &&& count(self.map, Mark::Stored) == self.counters.stored
        &&& self.counters.pushes <= self.counters.moves
    }
}

/// Whether `history` is one that can lead to `state` on `level`: taking
/// back its last entry gives a state of the level with one move less, and
/// the rest is a history of that state.
pub open spec fn history_ok(history: Seq<UndoEntryView>, state: StateView, level: LevelView) -> bool
    decreases history.len(),
{
    if history.len() == 0 {
        true
    } else {
        let before = state.restore(history.last());
        &&& before.fits(level)
        &&& before.counters.moves == history.len() - 1
        &&& before.counters.undos <= state.counters.undos
        &&& history_ok(history.drop_last(), before, level)
    }
}

impl SnapshotView {
    /// Whether the state and its history are of `level`: the state is, it
    /// counts as many moves as the history has entries, and the history can
    /// lead to it.
    pub open spec fn fits(self, level: LevelView) -> bool {
        &&& self.state.fits(level)
        &&& self.state.counters.moves == self.undo_states.len()
        &&& history_ok(self.undo_states, self.state, level)
    }
}

/// A history that can lead to a state can lead to any state with the same
/// board and an undo count no smaller.
pub proof fn lemma_history_rebase(
    history: Seq<UndoEntryView>,
    from: StateView,
    to: StateView,
    level: LevelView,
)
    requires
        history_ok(history, from, level),
        to.map == from.map,
        to.counters.undos >= from.counters.undos,
    ensures
        history_ok(history, to, level),
{
    if history.len() > 0 {
        assert(to.restore(history.last()) == from.restore(history.last()));
    }
}

/// A push keeps the number of crates, changes the number of stored crates
/// as the two squares say, and leaves a state of the level.
pub proof fn lemma_push_fits(state: StateView, level: LevelView, dx: int, dy: int)
    requires
        level.wf(),
        state.fits(level),
        unit_step(dx, dy),
        state.judge(dx, dy) == Move::Push,
        state.counters.moves < usize::MAX,
    ensures
        0 <= state.stored_after(dx, dy) <= level.crates,
        state.map[state.counters.py + dy][state.counters.px + dx].target()
            ==> state.counters.stored >= 1,
        state.moved(dx, dy).fits(level),
{
    let x = state.counters.px + dx;
    let y = state.counters.py + dy;
    let from = state.map[y][x];
    let to = state.map[y + dy][x + dx];
    let lifted = put(state.map, x, y, from.without_crate());
    let after = put(lifted, x + dx, y + dy, to.with_crate());
    assert(lifted[y + dy][x + dx] == to);
    assert(after == state.board_after(dx, dy));
    lemma_count_put(state.map, x, y, from.without_crate(), Mark::Crate);
    lemma_count_put(lifted, x + dx, y + dy, to.with_crate(), Mark::Crate);
    lemma_count_put(state.map, x, y, from.without_crate(), Mark::Stored);
    lemma_count_put(lifted, x + dx, y + dy, to.with_crate(), Mark::Stored);
    if from.target() {
        lemma_count_positive(state.map, x, y, Mark::Stored);
    }
    lemma_stored_le_crates(after);
    assert(after[y][x] == from.without_crate());
    assert(rect(after, level.w as int, level.h as int));
}

/// A step leaves a state of the level.
pub proof fn lemma_step_fits(state: StateView, level: LevelView, dx: int, dy: int)
    requires
        level.wf(),
        state.fits(level),
        unit_step(dx, dy),
        state.judge(dx, dy) == Move::Step,
        state.counters.moves < usize::MAX,
    ensures
        state.moved(dx, dy).fits(level),
{
}

impl Clone for State {
    /// A copy that shares no storage with `self`.
    fn clone(&self) -> (r: State)
        ensures
            r@ == self@,
    {
        State { map: self.map.clone(), counters: self.counters }
    }
}

impl Clone for UndoEntry {
    /// A copy that shares no storage with `self`.
    fn clone(&self) -> (r: UndoEntry)
        ensures
            r@ == self@,
    {
        match self {
            UndoEntry::Light { counters } => UndoEntry::Light { counters: *counters },
            UndoEntry::Full { counters, map } => UndoEntry::Full {
                counters: *counters,
                map: map.clone(),
            },
        }
    }
}

/// A copy of `history` that shares no storage with it.
pub fn clone_history(history: &Vec<UndoEntry>) -> (r: Vec<UndoEntry>)
    ensures
        entry_views(r@) == entry_views(history@),
{
    let mut r: Vec<UndoEntry> = Vec::new();
    let mut i: usize = 0;
    while i < history.len()
        invariant
            i <= history@.len(),
            r@.len() == i,
            forall|k: int| 0 <= k < i ==> (#[trigger] r@[k])@ == history@[k]@,
        decreases history@.len() - i,
    {
        let entry = history[i].clone();
        r.push(entry);
        i += 1;
    }
    assert(entry_views(r@) =~= entry_views(history@));
    r
}

impl Clone for Snapshot {
    /// A copy that shares no storage with `self`.
    fn clone(&self) -> (r: Snapshot)
        ensures
            r@ == self@,
    {
        Snapshot { state: self.state.clone(), undo_states: clone_history(&self.undo_states) }
    }
}

impl State {
    /// What the history keeps of this state: with a copy of the board if
    /// `full`.
    pub fn save_state(&self, full: bool) -> (entry: UndoEntry)
        ensures
            entry@ == self@.record(full),
    {
        if full {
            UndoEntry::Full { counters: self.counters, map: self.map.clone() }
        } else {
            UndoEntry::Light { counters: self.counters }
        }
    }

    /// Brings back what `entry` keeps: its counters, and its board if it
    /// keeps one; else the board stays as it is.
    pub fn restore_state(&mut self, entry: UndoEntry)
        ensures
            final(self)@ == old(self)@.restore(entry@),
    {
        match entry {
            UndoEntry::Light { counters } => {
                self.counters = counters;
            },
            UndoEntry::Full { counters, map } => {
                self.counters = counters;
                self.map = map;
            },
        }
    }
}

/// The square one step by `(dx, dy)` from `(x, y)`, if it is on a board
/// `w` wide and `h` high.
pub fn step_to(x: usize, y: usize, dx: isize, dy: isize, w: usize, h: usize) -> (r: Option<
    (usize, usize),
>)
    requires
        unit_step(dx as int, dy as int),
        x < w,
        y < h,
    ensures
        match r {
            Some((nx, ny)) => nx == x + dx && ny == y + dy && inside(
                nx as int,
                ny as int,
                w as int,
                h as int,
            ),
            None => !inside(x + dx, y + dy, w as int, h as int),
        },
{
    let nx: usize = if dx < 0 {
        if x == 0 {
            return None;
        }
        x - 1
    } else if dx > 0 {
        x + 1
    } else {
        x
    };
    let ny: usize = if dy < 0 {
        if y == 0 {
            return None;
        }
        y - 1
    } else if dy > 0 {
        y + 1
    } else {
        y
    };
    if nx < w && ny < h {
        Some((nx, ny))
    } else {
        None
    }
}

/// The way the player faces after a step by `(dx, dy)`.
pub fn face(dx: isize, dy: isize) -> (d: Direction)
    ensures
        d == facing(dx as int, dy as int),
{
    if dy == -1 {
        Direction::North
    } else if dy == 1 {
        Direction::South
    } else if dx == 1 {
        Direction::East
    } else {
        Direction::West
    }
}

} // verus!
