use cratesan::game::{Game, Status};
use cratesan::level::load_levels;
use cratesan::session::Command;
use cratesan::state::{Move, UndoEntry};

const ROOM: &str = "\
#######
#     #
# $.  #
# @$  #
# .*  #
#     #
#######";

fn game_on(source: &str) -> Game {
    let levels = load_levels(source).unwrap();
    Game::new(levels, Vec::new(), 640, 400).unwrap()
}

#[test]
fn undo_on_an_empty_history_changes_nothing() {
    let mut game = game_on(ROOM);
    game.take_redraw();
    let before = game.snap.clone();
    assert!(!game.pop_undo());
    assert_eq!(game.snap, before);
    assert_eq!(game.snap.state.counters.undos, 0);
    assert!(!game.must_draw);
}

#[test]
fn undo_takes_back_a_step() {
    let mut game = game_on(ROOM);
    let before = game.snap.clone();
    assert_eq!(game.try_move(-1, 0), Move::Step);
    game.take_redraw();
    assert!(game.pop_undo());
    assert!(game.must_draw);
    assert_eq!(game.snap.state.map, before.state.map);
    assert_eq!(game.snap.state.counters.px, before.state.counters.px);
    assert_eq!(game.snap.state.counters.py, before.state.counters.py);
    assert_eq!(game.snap.state.counters.moves, 0);
    assert_eq!(game.snap.state.counters.pushes, 0);
    assert_eq!(game.snap.state.counters.stored, before.state.counters.stored);
    assert_eq!(game.snap.state.counters.dir, before.state.counters.dir);
    assert_eq!(game.snap.state.counters.undos, 1);
    assert_eq!(game.snap.undo_states, before.undo_states);
}

#[test]
fn undo_takes_back_a_push() {
    let mut game = game_on(ROOM);
    assert_eq!(game.try_move(-1, 0), Move::Step);
    assert_eq!(game.try_move(1, 0), Move::Step);
    let before = game.snap.clone();
    assert_eq!(game.try_move(1, 0), Move::Push);
    assert_ne!(game.snap.state.map, before.state.map);
    assert!(game.pop_undo());
    let mut expected = before.state.counters;
    expected.undos = 1;
    assert_eq!(game.snap.state.map, before.state.map);
    assert_eq!(game.snap.state.counters, expected);
    assert_eq!(game.snap.undo_states, before.undo_states);
}

#[test]
fn undo_takes_back_the_time_too() {
    let mut game = game_on(ROOM);
    game.tick(3000);
    assert_eq!(game.try_move(-1, 0), Move::Step);
    game.tick(4000);
    assert_eq!(game.snap.state.counters.time_s, 7);
    assert!(game.pop_undo());
    assert_eq!(game.snap.state.counters.time_s, 3);
}

#[test]
fn moves_are_taken_back_last_first() {
    let mut game = game_on(ROOM);
    let mut states = vec![game.snap.state.clone()];
    let steps: [(isize, isize); 6] = [(1, 0), (0, -1), (-1, 0), (0, 1), (0, 1), (1, 0)];
    for (dx, dy) in steps {
        assert_ne!(game.try_move(dx, dy), Move::Rejected);
        states.push(game.snap.state.clone());
    }
    assert_eq!(game.snap.undo_states.len(), 6);
    for k in (0..6).rev() {
        assert!(game.pop_undo());
        assert_eq!(game.snap.state.map, states[k].map);
        assert_eq!(game.snap.state.counters.moves, states[k].counters.moves);
        assert_eq!(game.snap.state.counters.pushes, states[k].counters.pushes);
        assert_eq!(game.snap.state.counters.stored, states[k].counters.stored);
        assert_eq!(game.snap.state.counters.px, states[k].counters.px);
        assert_eq!(game.snap.state.counters.py, states[k].counters.py);
        assert_eq!(game.snap.undo_states.len(), k);
    }
    assert!(!game.pop_undo());
}

#[test]
fn the_undo_count_counts_every_undo() {
    let mut game = game_on(ROOM);
    game.try_move(-1, 0);
    game.try_move(1, 0);
    assert!(game.pop_undo());
    assert_eq!(game.snap.state.counters.undos, 1);
    assert!(game.pop_undo());
    assert_eq!(game.snap.state.counters.undos, 2);
    game.try_move(-1, 0);
    assert!(game.pop_undo());
    assert_eq!(game.snap.state.counters.undos, 3);
    assert!(!game.pop_undo());
    assert_eq!(game.snap.state.counters.undos, 3);
}

#[test]
fn an_undo_on_an_empty_history_needs_no_room_in_the_count() {
    let mut game = game_on(ROOM);
    game.snap.state.counters.undos = u32::MAX;
    let before = game.snap.clone();
    assert!(!game.pop_undo());
    assert_eq!(game.snap, before);
    assert_eq!(game.handle_event(Command::Undo).persist, false);
    assert_eq!(game.snap, before);
    assert_eq!(game.status, Status::Play);
    assert_eq!(game.scores.len(), 0);
    assert!(game.saved.is_none());
}

#[test]
fn undo_leaves_the_status() {
    let mut game = game_on("#####\n#@$.#\n#####");
    assert_eq!(game.try_move(1, 0), Move::Push);
    assert_eq!(game.status, Status::Win);
    assert!(game.pop_undo());
    assert_eq!(game.status, Status::Win);
    assert_eq!(game.snap.state.counters.stored, 0);
    assert_eq!(game.scores.len(), 1);
}

#[test]
fn push_undo_records_the_state() {
    let mut game = game_on(ROOM);
    game.push_undo(false);
    game.push_undo(true);
    assert_eq!(game.snap.undo_states.len(), 2);
    assert_eq!(
        game.snap.undo_states[0],
        UndoEntry::Light { counters: game.snap.state.counters }
    );
    assert_eq!(
        game.snap.undo_states[1],
        UndoEntry::Full { counters: game.snap.state.counters, map: game.snap.state.map.clone() }
    );
}

#[test]
fn a_light_entry_keeps_the_board_as_it_is() {
    let mut game = game_on(ROOM);
    let start = game.snap.state.clone();
    let entry = game.snap.state.save_state(false);
    assert_eq!(game.try_move(1, 0), Move::Push);
    let pushed = game.snap.state.map.clone();
    game.snap.state.restore_state(entry);
    assert_eq!(game.snap.state.map, pushed);
    assert_eq!(game.snap.state.counters, start.counters);
    let entry = start.save_state(true);
    game.snap.state.restore_state(entry);
    assert_eq!(game.snap.state, start);
}

#[test]
fn a_load_brings_back_what_was_saved() {
    let mut game = game_on(ROOM);
    game.try_move(-1, 0);
    game.try_move(0, -1);
    game.try_move(1, 0);
    let saved = game.snap.clone();
    game.save_snapshot();
    assert_eq!(game.saved, Some(saved.clone()));
    game.try_move(1, 0);
    game.try_move(0, 1);
    game.try_move(0, 1);
    game.pop_undo();
    game.try_move(-1, 0);
    assert_ne!(game.snap, saved);
    game.take_redraw();
    assert!(game.load_snapshot());
    assert!(game.must_draw);
    assert_eq!(game.snap, saved);
    assert_eq!(game.saved, Some(saved.clone()));
    assert!(game.load_snapshot());
    assert_eq!(game.snap, saved);
    assert_eq!(game.saved, Some(saved.clone()));
    game.try_move(1, 0);
    assert!(game.load_snapshot());
    assert_eq!(game.snap, saved);
    assert!(game.pop_undo());
    assert!(game.pop_undo());
    assert!(game.pop_undo());
    assert!(!game.pop_undo());
}

#[test]
fn a_load_without_a_save_changes_nothing() {
    let mut game = game_on(ROOM);
    game.try_move(-1, 0);
    game.take_redraw();
    let before = game.snap.clone();
    assert!(!game.load_snapshot());
    assert_eq!(game.snap, before);
    assert!(game.saved.is_none());
    assert!(!game.must_draw);
}

#[test]
fn a_second_save_takes_the_place_of_the_first() {
    let mut game = game_on(ROOM);
    game.save_snapshot();
    game.try_move(-1, 0);
    let second = game.snap.clone();
    game.save_snapshot();
    game.try_move(-1, 0);
    assert!(game.load_snapshot());
    assert_eq!(game.snap, second);
    assert_eq!(game.snap.state.counters.moves, 1);
}

#[test]
fn a_restart_keeps_the_snapshot_and_another_level_drops_it() {
    let levels = load_levels("@$.\n\n.$@").unwrap();
    let mut game = Game::new(levels, Vec::new(), 640, 400).unwrap();
    game.try_move(0, 1);
    game.try_move(1, 0);
    let saved = game.snap.clone();
    game.save_snapshot();
    assert!(game.set_level(0));
    assert_eq!(game.snap.state.counters.moves, 0);
    assert_eq!(game.snap.undo_states.len(), 0);
    assert!(game.load_snapshot());
    assert_eq!(game.snap, saved);
    assert!(game.set_level(1));
    assert!(game.saved.is_none());
    assert!(!game.load_snapshot());
    assert_eq!((game.snap.state.counters.px, game.snap.state.counters.py), (2, 0));
}
