//! What the screen shows of a game: a picture for each square, and the
//! line of text under the board.

use vstd::prelude::*;
use vstd::string::*;
use crate::cell::Cell;
use crate::game::{Game, GameView, Status, BAR};
use crate::state::Direction;
use crate::text::{append_decimal, append_padded, decimal, padded};

verus! {

/// The picture of one square.
#[derive(Clone, Copy, PartialEq, Eq, Debug, Structural)]
pub enum Sprite {
    Empty,
    Target,
    /// A crate on a target.
    Stored,
    Crate,
    Wall,
    /// The player, facing one way.
    Player(Direction),
    /// The player on a target, facing one way.
    PlayerOnTarget(Direction),
}

/// The place of a direction among the four: west, north, east, south.
pub open spec fn turn(dir: Direction) -> nat {
    match dir {
        Direction::West => 0,
        Direction::North => 1,
        Direction::East => 2,
        Direction::South => 3,
    }
}

/// The picture of a square that holds `cell`; `player` is the way the
/// player faces if the player stands on it. The player shows on a free
/// square only.
pub open spec fn sprite_of(cell: Cell, player: Option<Direction>) -> Sprite {
    match cell {
        Cell::Empty => match player {
            Some(dir) => Sprite::Player(dir),
            None => Sprite::Empty,
        },
        Cell::Target => match player {
            Some(dir) => Sprite::PlayerOnTarget(dir),
            None => Sprite::Target,
        },
        Cell::Crate => Sprite::Crate,
        Cell::Wall => Sprite::Wall,
        Cell::CrateOnTarget => Sprite::Stored,
    }
}

impl Sprite {
    /// The picture's place in the list of pictures: empty, target, stored
    /// crate, crate and wall first; then the player facing west, north,
    /// east and south, each time off a target first and then on one.
    pub open spec fn place(self) -> nat {
        match self {
            Sprite::Empty => 0,
            Sprite::Target => 1,
            Sprite::Stored => 2,
            Sprite::Crate => 3,
            Sprite::Wall => 4,
            Sprite::Player(dir) => 5 + 2 * turn(dir),
            Sprite::PlayerOnTarget(dir) => 6 + 2 * turn(dir),
        }
    }

    /// The picture's place in the list of pictures.
    pub fn index(self) -> (i: usize)
        ensures
            i == self.place(),
            i < 13,
    {
        match self {
            Sprite::Empty => 0,
            Sprite::Target => 1,
            Sprite::Stored => 2,
            Sprite::Crate => 3,
            Sprite::Wall => 4,
            Sprite::Player(dir) => 5 + 2 * turn_of(dir),
            Sprite::PlayerOnTarget(dir) => 6 + 2 * turn_of(dir),
        }
    }
}

/// The place of a direction among the four.
pub fn turn_of(dir: Direction) -> (t: usize)
    ensures
        t == turn(dir),
{
    match dir {
        Direction::West => 0,
        Direction::North => 1,
        Direction::East => 2,
        Direction::South => 3,
    }
}

/// The picture of a square that holds `cell`; `player` is the way the
/// player faces if the player stands on it.
pub fn sprite(cell: Cell, player: Option<Direction>) -> (s: Sprite)
    ensures
        s == sprite_of(cell, player),
{
    match cell {
        Cell::Empty => match player {
            Some(dir) => Sprite::Player(dir),
            None => Sprite::Empty,
        },
        Cell::Target => match player {
            Some(dir) => Sprite::PlayerOnTarget(dir),
            None => Sprite::Target,
        },
        Cell::Crate => Sprite::Crate,
        Cell::Wall => Sprite::Wall,
        Cell::CrateOnTarget => Sprite::Stored,
    }
}

/// Equal shares of a length, laid side by side, fit into it.
pub proof fn lemma_shares_fit(total: int, parts: int, i: int)
    by (nonlinear_arith)
    requires
        0 <= total,
        0 <= i < parts,
    ensures
        0 <= i * (total / parts),
        i * (total / parts) + total / parts <= parts * (total / parts) <= total,
{
}

/// What the status line says after the time: that the level is won, that
/// the game rests, or nothing.
pub open spec fn status_note(status: Status) -> Seq<char> {
    match status {
        Status::Win => "You win! Press Return.."@,
        Status::Pause => "*PAUSE* Press Space.."@,
        Status::Play => Seq::<char>::empty(),
    }
}

/// The status line: the level, counted from 1, in two digits; the moves
/// and the pushes in four; the time played in hours, minutes and seconds;
/// and the note on the status.
pub open spec fn status_line(level: nat, moves: nat, pushes: nat, time_s: nat, status: Status)
    -> Seq<char> {
    padded(level + 1, 2) + "| moves: "@ + padded(moves, 4) + " pushes: "@ + padded(pushes, 4)
        + " time:"@ + decimal(time_s / 3600) + ":"@ + padded((time_s / 60) % 60, 2) + ":"@
        + padded(time_s % 60, 2) + " "@ + status_note(status)
}

impl GameView {
    /// The picture of square `(x, y)`.
    pub open spec fn sprite_at(self, x: int, y: int) -> Sprite {
        sprite_of(
            self.snap.state.map[y][x],
            if self.snap.state.counters.px == x && self.snap.state.counters.py == y {
                Some(self.snap.state.counters.dir)
            } else {
                None
            },
        )
    }

    /// The width of the strip that the board leaves free on its left, and
    /// as well on its right: the board stands in the middle of the window.
    pub open spec fn margin(self) -> int {
        (self.width - self.current().w * self.bw) / 2
    }

    /// Where square `(x, y)` stands on screen: its left edge, its upper
    /// edge, its width and its height.
    pub open spec fn square_rect(self, x: int, y: int) -> (int, int, int, int) {
        (self.margin() + x * self.bw, y * self.bh, self.bw as int, self.bh as int)
    }

    /// The status line of the game.
    pub open spec fn status_text(self) -> Seq<char> {
        status_line(
            self.level as nat,
            self.snap.state.counters.moves as nat,
            self.snap.state.counters.pushes as nat,
            self.snap.state.counters.time_s as nat,
            self.status,
        )
    }
}

impl Game {
    /// The picture of square `(x, y)`.
    pub fn sprite_at(&self, x: usize, y: usize) -> (s: Sprite)
        requires
            self@.snap.state.on_board(x as int, y as int),
        ensures
            s == self@.sprite_at(x as int, y as int),
    {
        let here = self.snap.state.counters.px == x && self.snap.state.counters.py == y;
        sprite(
            self.snap.state.map.get(x, y),
            if here {
                Some(self.snap.state.counters.dir)
            } else {
                None
            },
        )
    }

    /// Where square `(x, y)` stands on screen: its left edge, its upper
    /// edge, its width and its height. The board stands in the middle of
    /// the window, above the status bar.
    pub fn square_rect(&self, x: usize, y: usize) -> (r: (usize, usize, usize, usize))
        requires
            self@.wf(),
            x < self@.current().w,
            y < self@.current().h,
        ensures
            r.0 == self@.square_rect(x as int, y as int).0,
            r.1 == self@.square_rect(x as int, y as int).1,
            r.2 == self@.square_rect(x as int, y as int).2,
            r.3 == self@.square_rect(x as int, y as int).3,
            r.0 + r.2 <= self@.width,
            r.1 + r.3 <= self@.height - BAR,
    {
        let ghost lv = self@.current();
        proof {
            assert(lv == self.levels@[self.level as int]@);
            lemma_shares_fit(self.width as int, lv.w as int, x as int);
            lemma_shares_fit(self.height - BAR, lv.h as int, y as int);
            assert(self.bw == self.width as int / lv.w as int);
            assert(self.bh == (self.height - BAR) / lv.h as int);
        }
        let w = self.levels[self.level].w;
        let margin = (self.width - w * self.bw) / 2;
        (margin + x * self.bw, y * self.bh, self.bw, self.bh)
    }

    /// Says whether the screen is to be drawn anew, and takes the request
    /// as met.
    pub fn take_redraw(&mut self) -> (due: bool)
        ensures
            due == old(self)@.must_draw,
            final(self)@ == (GameView { must_draw: false, ..old(self)@ }),
    {
        let due = self.must_draw;
        self.must_draw = false;
        assert(self@ =~= (GameView { must_draw: false, ..old(self)@ }));
        due
    }

    /// The status line of the game.
    pub fn status_text(&self) -> (text: String)
        requires
            self@.level < usize::MAX,
        ensures
            text@ == self@.status_text(),
    {
        let time_s = self.snap.state.counters.time_s;
        let mut text = String::new();
        append_padded(&mut text, (self.level + 1) as u64, 2);
        text.append("| moves: ");
        append_padded(&mut text, self.snap.state.counters.moves as u64, 4);
        text.append(" pushes: ");
        append_padded(&mut text, self.snap.state.counters.pushes as u64, 4);
        text.append(" time:");
        append_decimal(&mut text, (time_s / 3600) as u64);
        text.append(":");
        append_padded(&mut text, ((time_s / 60) % 60) as u64, 2);
        text.append(":");
        append_padded(&mut text, (time_s % 60) as u64, 2);
        text.append(" ");
        match self.status {
            Status::Win => {
                text.append("You win! Press Return..");
            },
            Status::Pause => {
                text.append("*PAUSE* Press Space..");
            },
            Status::Play => {},
        }
        assert(text@ =~= self@.status_text());
        text
    }
}

} // verus!
