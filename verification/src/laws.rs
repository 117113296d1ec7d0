//! What holds of the game whatever is played: the rules of moving, the
//! count of stored crates, winning, undo and snapshots.

use vstd::prelude::*;
use crate::cell::Cell;
use crate::game::{
    lemma_pop_undo_wf, lemma_set_level_wf, lemma_try_move_wf, GameView, Status,
};
use crate::grid::{count, Mark};
use crate::score::{has_score, records};
use crate::session::{is_move, step_of, Command};
use crate::state::{unit_step, Counters, Move};

verus! {

/// The game after the moves `steps`, played in order.
pub open spec fn played(g: GameView, steps: Seq<(int, int)>) -> GameView
    decreases steps.len(),
{
    if steps.len() == 0 {
        g
    } else {
        played(g, steps.drop_last()).try_move(steps.last().0, steps.last().1)
    }
}

/// A move off the board or into a wall changes nothing: no move is
/// counted, the player stays, the board and the history stay.
pub proof fn law_wall_and_edge_block(g: GameView, dx: int, dy: int)
    requires
        unit_step(dx, dy),
        ({
            let x = g.snap.state.counters.px + dx;
            let y = g.snap.state.counters.py + dy;
            !g.snap.state.on_board(x, y) || g.snap.state.map[y][x] == Cell::Wall
        }),
    ensures
        g.snap.state.judge(dx, dy) == Move::Rejected,
        g.try_move(dx, dy) == g,
{
}

/// A crate cannot be pushed off the board, into a wall or into another
/// crate: such a move changes nothing.
pub proof fn law_blocked_crate_stays(g: GameView, dx: int, dy: int)
    requires
        unit_step(dx, dy),
        ({
            let x = g.snap.state.counters.px + dx;
            let y = g.snap.state.counters.py + dy;
            &&& g.snap.state.on_board(x, y)
            &&& g.snap.state.map[y][x].holds_crate()
            &&& ({
                ||| !g.snap.state.on_board(x + dx, y + dy)
                ||| g.snap.state.map[y + dy][x + dx] == Cell::Wall
                ||| g.snap.state.map[y + dy][x + dx].holds_crate()
            })
        }),
    ensures
        g.snap.state.judge(dx, dy) == Move::Rejected,
        g.try_move(dx, dy) == g,
{
}

/// A crate with an empty square or a free target behind it is pushed: the
/// move and the push are counted together, the crate stands one square
/// further, and the player stands where the crate stood.
pub proof fn law_free_crate_moves(g: GameView, dx: int, dy: int)
    requires
        g.wf(),
        g.snap.state.counters.moves < usize::MAX,
        unit_step(dx, dy),
        ({
            let x = g.snap.state.counters.px + dx;
            let y = g.snap.state.counters.py + dy;
            &&& g.snap.state.on_board(x, y)
            &&& g.snap.state.map[y][x].holds_crate()
            &&& g.snap.state.on_board(x + dx, y + dy)
            &&& (g.snap.state.map[y + dy][x + dx] == Cell::Empty || g.snap.state.map[y + dy][x
                + dx] == Cell::Target)
        }),
    ensures
        g.snap.state.judge(dx, dy) == Move::Push,
        ({
            let x = g.snap.state.counters.px + dx;
            let y = g.snap.state.counters.py + dy;
            let after = g.try_move(dx, dy).snap.state;
            &&& after.counters.moves == g.snap.state.counters.moves + 1
            &&& after.counters.pushes == g.snap.state.counters.pushes + 1
            &&& after.counters.px == x
            &&& after.counters.py == y
            &&& !after.map[y][x].holds_crate()
            &&& after.map[y + dy][x + dx].holds_crate()
        }),
{
    let x = g.snap.state.counters.px + dx;
    let y = g.snap.state.counters.py + dy;
    let from = g.snap.state.map[y][x];
    assert(g.try_move(dx, dy).snap.state == g.snap.state.moved(dx, dy));
}

/// After every move, taken or not, the count of stored crates is the
/// number of squares of the board that hold a crate on a target, and the
/// board holds as many crates as the level.
pub proof fn law_stored_is_counted(g: GameView, dx: int, dy: int)
    requires
        g.wf(),
        g.snap.state.counters.moves < usize::MAX,
        unit_step(dx, dy),
    ensures
        g.try_move(dx, dy).snap.state.counters.stored == count(
            g.try_move(dx, dy).snap.state.map,
            Mark::Stored,
        ),
        count(g.try_move(dx, dy).snap.state.map, Mark::Crate) == g.current().crates,
{
    lemma_try_move_wf(g, dx, dy);
}

/// After every undo the count of stored crates is the number of squares
/// of the board that hold a crate on a target, and the board holds as many
/// crates as the level.
pub proof fn law_stored_is_counted_after_undo(g: GameView)
    requires
        g.wf(),
    ensures
        g.pop_undo().snap.state.counters.stored == count(
            g.pop_undo().snap.state.map,
            Mark::Stored,
        ),
        count(g.pop_undo().snap.state.map, Mark::Crate) == g.current().crates,
{
    if g.snap.undo_states.len() > 0 {
        let back = g.snap.state.restore(g.snap.undo_states.last());
        assert(back.fits(g.current()));
    }
}

/// An accepted move leaves the level won if and only if it was won
/// before, or the move is a push that leaves every crate on a target; a
/// move that is not taken leaves the status.
pub proof fn law_win_on_last_crate(g: GameView, dx: int, dy: int)
    requires
        unit_step(dx, dy),
    ensures
        g.try_move(dx, dy).status == (if g.wins(dx, dy) {
            Status::Win
        } else {
            g.status
        }),
{
}

/// Once the level is won no command to move changes anything: the level
/// is won once.
pub proof fn law_no_move_once_won(g: GameView, cmd: Command)
    requires
        g.status == Status::Win,
        is_move(cmd),
    ensures
        g.handle(cmd) == g,
{
}

/// Recording the score of a level leaves it with one record if it had
/// none, and else with the records it had: the first win stays. This
/// holds of the levels whose number the score file can hold.
pub proof fn law_first_win_stays(g: GameView)
    requires
        g.level < 0x10000,
    ensures
        records(g.save_score().scores, g.level as int) == (if has_score(
            g.scores,
            g.level as int,
        ) {
            records(g.scores, g.level as int)
        } else {
            1
        }),
        g.save_score().scores.take(g.scores.len() as int) == g.scores,
        g.save_score().save_score() == g.save_score(),
{
    if !has_score(g.scores, g.level as int) {
        let after = g.scores.push(g.run());
        assert(after.drop_last() =~= g.scores);
        assert(after.take(g.scores.len() as int) =~= g.scores);
    } else {
        assert(g.scores.take(g.scores.len() as int) =~= g.scores);
    }
}

/// An undo after an accepted move, a step or a push, brings back the
/// board, square for square, the player, the counters and the history as
/// they were before the move. Only the undo count is not as it was: it is
/// one higher wherever it can be raised. A step leaves the board as it is
/// in the first place.
pub proof fn law_undo_takes_back(g: GameView, dx: int, dy: int)
    requires
        unit_step(dx, dy),
        g.snap.state.judge(dx, dy) != Move::Rejected,
    ensures
        ({
            let back = g.try_move(dx, dy).pop_undo().snap;
            &&& back.state.map == g.snap.state.map
            &&& back.state.counters == (Counters {
                undos: back.state.counters.undos,
                ..g.snap.state.counters
            })
            &&& back.undo_states == g.snap.undo_states
            &&& g.snap.state.counters.undos < u32::MAX ==> back.state.counters.undos
                == g.snap.state.counters.undos + 1
        }),
        g.snap.state.judge(dx, dy) == Move::Step ==> g.try_move(dx, dy).snap.state.map
            == g.snap.state.map,
{
    let kind = g.snap.state.judge(dx, dy);
    let entry = g.snap.state.record(kind == Move::Push);
    let history = g.snap.undo_states.push(entry);
    assert(g.try_move(dx, dy).snap.undo_states == history);
    assert(history.drop_last() =~= g.snap.undo_states);
    assert(history.last() == entry);
}

/// No move changes what is saved.
pub proof fn law_moves_keep_snapshot(g: GameView, steps: Seq<(int, int)>)
    ensures
        played(g, steps).saved == g.saved,
    decreases steps.len(),
{
    if steps.len() > 0 {
        law_moves_keep_snapshot(g, steps.drop_last());
    }
}

/// What is saved changes with a save only, and is dropped only when the
/// game goes on to another level.
pub proof fn law_only_a_save_changes_what_is_saved(g: GameView, cmd: Command)
    requires
        cmd != Command::SaveSnapshot,
        cmd != Command::Advance,
    ensures
        g.handle(cmd).saved == g.saved,
{
}

/// Whatever moves are played after a save, a load brings back the state
/// and the history as they were saved; and a second load right after the
/// first changes nothing.
pub proof fn law_load_brings_back(g: GameView, steps: Seq<(int, int)>)
    ensures
        played(g.save_snapshot(), steps).load_snapshot().snap == g.snap,
        played(g.save_snapshot(), steps).load_snapshot().load_snapshot() == played(
            g.save_snapshot(),
            steps,
        ).load_snapshot(),
{
    law_moves_keep_snapshot(g.save_snapshot(), steps);
}

/// Whatever command is taken, a well-formed game stays well formed: the
/// board keeps the level's size and crates, the count of stored crates is
/// that of the board, the moves are as many as the history is long, and
/// every entry of the history brings back such a state.
pub proof fn law_commands_keep_the_game_sound(g: GameView, cmd: Command)
    requires
        g.wf(),
        g.takes(cmd),
        g.snap.state.counters.moves < usize::MAX,
    ensures
        g.handle(cmd).wf(),
{
    lemma_set_level_wf(g, g.level as int);
    lemma_set_level_wf(g, g.level + 1);
    if g.status == Status::Play {
        if is_move(cmd) {
            lemma_try_move_wf(g, step_of(cmd).0, step_of(cmd).1);
        }
        if cmd == Command::Undo {
            lemma_pop_undo_wf(g);
        }
    }
}

} // verus!
