//! What the game makes of the player's commands.

use vstd::prelude::*;
use crate::game::{Game, GameView, Status};
use crate::state::Move;

verus! {

/// What the player can ask for.
#[derive(Clone, Copy, PartialEq, Eq, Debug, Structural)]
pub enum Command {
    MoveUp,
    MoveDown,
    MoveLeft,
    MoveRight,
    /// Rest, or go on playing.
    TogglePause,
    /// Start the level anew.
    Restart,
    /// Count the level as won.
    ForceWin,
    Undo,
    SaveSnapshot,
    LoadSnapshot,
    /// Go on to the next level once this one is won.
    Advance,
    Quit,
    /// Switch the logging of the state on or off.
    ToggleDebug,
}

/// What is left to do for whoever handed the game a command.
#[derive(Clone, Copy, PartialEq, Eq, Debug, Structural)]
pub struct Reaction {
    /// Whether to hand over the next command that waits; if not, it waits
    /// until the screen has been drawn.
    pub proceed: bool,
    /// Whether to write the scores out.
    pub persist: bool,
    /// Whether to log the state.
    pub log: bool,
    /// Whether the last level has just been left behind.
    pub over: bool,
}

/// The step that a command to move asks for; `(0, 0)` for any other
/// command.
pub open spec fn step_of(cmd: Command) -> (int, int) {
    match cmd {
        Command::MoveUp => (0, -1),
        Command::MoveDown => (0, 1),
        Command::MoveLeft => (-1, 0),
        Command::MoveRight => (1, 0),
        _ => (0, 0),
    }
}

/// Whether the command is one to move.
pub open spec fn is_move(cmd: Command) -> bool {
    cmd == Command::MoveUp || cmd == Command::MoveDown || cmd == Command::MoveLeft || cmd
        == Command::MoveRight
}

/// Nothing left to do but to hand over the next command.
pub open spec fn nothing() -> Reaction {
    Reaction { proceed: true, persist: false, log: false, over: false }
}

/// Nothing left to do, the next command waits.
pub open spec fn hold() -> Reaction {
    Reaction { proceed: false, persist: false, log: false, over: false }
}

impl GameView {
    /// The game after a command while it is being played.
    pub open spec fn handle_play(self, cmd: Command) -> GameView {
        match cmd {
            Command::TogglePause => GameView { status: Status::Pause, must_draw: true, ..self },
            Command::Restart => self.set_level(self.level as int),
            Command::ForceWin => GameView { status: Status::Win, must_draw: true, ..self },
            Command::Undo => self.pop_undo(),
            Command::SaveSnapshot => self.save_snapshot(),
            Command::LoadSnapshot => self.load_snapshot(),
            Command::MoveUp | Command::MoveDown | Command::MoveLeft | Command::MoveRight => {
                self.try_move(step_of(cmd).0, step_of(cmd).1)
            },
            _ => self,
        }
    }

    /// What is left to do after a command while the game is being played.
    /// The scores are written out after an undo, after a load, and after an
    /// accepted move that leaves the level won. The state is logged, if
    /// logging is switched on, after an accepted move, an undo, a save and
    /// a load.
    pub open spec fn react_play(self, cmd: Command) -> Reaction {
        match cmd {
            Command::TogglePause | Command::Restart | Command::ForceWin => hold(),
            Command::Undo => Reaction {
                persist: self.snap.undo_states.len() > 0,
                log: self.debug && self.snap.undo_states.len() > 0,
                ..nothing()
            },
            Command::SaveSnapshot => Reaction { log: self.debug, ..nothing() },
            Command::LoadSnapshot => Reaction {
                persist: self.saved.is_some(),
                log: self.debug && self.saved.is_some(),
                ..nothing()
            },
            Command::MoveUp | Command::MoveDown | Command::MoveLeft | Command::MoveRight => {
                let accepted = self.snap.state.judge(step_of(cmd).0, step_of(cmd).1)
                    != Move::Rejected;
                Reaction {
                    persist: accepted && self.try_move(step_of(cmd).0, step_of(cmd).1).status
                        == Status::Win,
                    log: self.debug && accepted,
                    ..nothing()
                }
            },
            _ => nothing(),
        }
    }

    /// The game after a command while it rests: it goes on, or the level
    /// starts anew; no other command changes anything.
    pub open spec fn handle_pause(self, cmd: Command) -> GameView {
        match cmd {
            Command::TogglePause => GameView { status: Status::Play, must_draw: true, ..self },
            Command::Restart => self.set_level(self.level as int),
            _ => self,
        }
    }

    /// What is left to do after a command while the game rests.
    pub open spec fn react_pause(self, cmd: Command) -> Reaction {
        match cmd {
            Command::TogglePause | Command::Restart => hold(),
            _ => nothing(),
        }
    }

    /// The game after a command once the level is won: it goes on to the
    /// next level, or is over if there is none; or the level starts anew.
    pub open spec fn handle_win(self, cmd: Command) -> GameView {
        match cmd {
            Command::Advance => if self.level + 1 < self.levels.len() {
                self.set_level(self.level + 1)
            } else {
                GameView { quit: true, ..self }
            },
            Command::Restart => self.set_level(self.level as int),
            _ => self,
        }
    }

    /// What is left to do after a command once the level is won.
    pub open spec fn react_win(self, cmd: Command) -> Reaction {
        match cmd {
            Command::Advance => if self.level + 1 < self.levels.len() {
                nothing()
            } else {
                Reaction { over: true, ..hold() }
            },
            Command::Restart => hold(),
            _ => nothing(),
        }
    }

    /// The game after a command. To quit and to switch the logging are
    /// taken at any time; what any other command does depends on the
    /// status.
    pub open spec fn handle(self, cmd: Command) -> GameView {
        match cmd {
            Command::Quit => GameView { quit: true, ..self },
            Command::ToggleDebug => GameView { debug: !self.debug, ..self },
            _ => match self.status {
                Status::Play => self.handle_play(cmd),
                Status::Pause => self.handle_pause(cmd),
                Status::Win => self.handle_win(cmd),
            },
        }
    }

    /// What is left to do after a command.
    pub open spec fn react(self, cmd: Command) -> Reaction {
        match cmd {
            Command::Quit => hold(),
            Command::ToggleDebug => Reaction { log: !self.debug, ..nothing() },
            _ => match self.status {
                Status::Play => self.react_play(cmd),
                Status::Pause => self.react_pause(cmd),
                Status::Win => self.react_win(cmd),
            },
        }
    }

    /// Whether the command can be taken: an undo that takes a move back
    /// needs room in the undo count.
    pub open spec fn takes(self, cmd: Command) -> bool {
        cmd == Command::Undo && self.status == Status::Play ==> self.undo_fits()
    }
}

impl Game {
    /// Takes a command while the game is being played.
    pub fn handle_event_play(&mut self, cmd: Command) -> (r: Reaction)
        requires
            old(self)@.wf(),
            cmd == Command::Undo ==> old(self)@.undo_fits(),
        ensures
            final(self)@ == old(self)@.handle_play(cmd),
            r == old(self)@.react_play(cmd),
            final(self)@.wf(),
    {
        let mut r = Reaction { proceed: true, persist: false, log: false, over: false };
        match cmd {
            Command::TogglePause => {
                self.status = Status::Pause;
                self.must_draw = true;
                r.proceed = false;
                assert(self@ =~= old(self)@.handle_play(cmd));
            },
            Command::Restart => {
                self.set_level(self.level);
                r.proceed = false;
            },
            Command::ForceWin => {
                self.status = Status::Win;
                self.must_draw = true;
                r.proceed = false;
                assert(self@ =~= old(self)@.handle_play(cmd));
            },
            Command::Undo => {
                let undone = self.pop_undo();
                r.persist = undone;
                r.log = self.debug && undone;
            },
            Command::SaveSnapshot => {
                self.save_snapshot();
                r.log = self.debug;
            },
            Command::LoadSnapshot => {
                let loaded = self.load_snapshot();
                r.persist = loaded;
                r.log = self.debug && loaded;
            },
            Command::MoveUp => {
                let kind = self.try_move(0, -1);
                r.persist = kind != Move::Rejected && self.status == Status::Win;
                r.log = self.debug && kind != Move::Rejected;
            },
            Command::MoveDown => {
                let kind = self.try_move(0, 1);
                r.persist = kind != Move::Rejected && self.status == Status::Win;
                r.log = self.debug && kind != Move::Rejected;
            },
            Command::MoveLeft => {
                let kind = self.try_move(-1, 0);
                r.persist = kind != Move::Rejected && self.status == Status::Win;
                r.log = self.debug && kind != Move::Rejected;
            },
            Command::MoveRight => {
                let kind = self.try_move(1, 0);
                r.persist = kind != Move::Rejected && self.status == Status::Win;
                r.log = self.debug && kind != Move::Rejected;
            },
            _ => {},
        }
        r
    }

    /// Takes a command while the game rests.
    pub fn handle_event_pause(&mut self, cmd: Command) -> (r: Reaction)
        requires
            old(self)@.wf(),
        ensures
            final(self)@ == old(self)@.handle_pause(cmd),
            r == old(self)@.react_pause(cmd),
            final(self)@.wf(),
    {
        let mut r = Reaction { proceed: true, persist: false, log: false, over: false };
        match cmd {
            Command::TogglePause => {
                self.status = Status::Play;
                self.must_draw = true;
                r.proceed = false;
                assert(self@ =~= old(self)@.handle_pause(cmd));
            },
            Command::Restart => {
                self.set_level(self.level);
                r.proceed = false;
            },
            _ => {},
        }
        r
    }

    /// Takes a command once the level is won.
    pub fn handle_event_win(&mut self, cmd: Command) -> (r: Reaction)
        requires
            old(self)@.wf(),
        ensures
            final(self)@ == old(self)@.handle_win(cmd),
            r == old(self)@.react_win(cmd),
            final(self)@.wf(),
    {
        let mut r = Reaction { proceed: true, persist: false, log: false, over: false };
        match cmd {
            Command::Advance => {
                if !self.set_level(self.level + 1) {
                    self.quit = true;
                    r.proceed = false;
                    r.over = true;
                    assert(self@ =~= old(self)@.handle_win(cmd));
                }
            },
            Command::Restart => {
                self.set_level(self.level);
                r.proceed = false;
            },
            _ => {},
        }
        r
    }

    /// Takes a command, and says what is left to do for whoever handed it
    /// over.
    pub fn handle_event(&mut self, cmd: Command) -> (r: Reaction)
        requires
            old(self)@.wf(),
            old(self)@.takes(cmd),
        ensures
            final(self)@ == old(self)@.handle(cmd),
            r == old(self)@.react(cmd),
            final(self)@.wf(),
    {
        match cmd {
            Command::Quit => {
                self.quit = true;
                assert(self@ =~= old(self)@.handle(cmd));
                Reaction { proceed: false, persist: false, log: false, over: false }
            },
            Command::ToggleDebug => {
                self.debug = !self.debug;
                assert(self@ =~= old(self)@.handle(cmd));
                Reaction { proceed: true, persist: false, log: self.debug, over: false }
            },
            _ => match self.status {
                Status::Play => self.handle_event_play(cmd),
                Status::Pause => self.handle_event_pause(cmd),
                Status::Win => self.handle_event_win(cmd),
            },
        }
    }
}

} // verus!
