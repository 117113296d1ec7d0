use cratesan::cell::{Cell, CRATE, EMPTY, TARGET, WALL};
use cratesan::game::{Game, Status};
use cratesan::grid::Mark;
use cratesan::level::load_levels;
use cratesan::score::Score;
use cratesan::state::{Direction, Move, UndoEntry};

fn game_on(source: &str) -> Game {
    let levels = load_levels(source).unwrap();
    Game::new(levels, Vec::new(), 640, 400).unwrap()
}

const ROOM: &str = "\
#######
#     #
# $.  #
# @$  #
# .*  #
#     #
#######";

#[test]
fn pushing_the_only_crate_home_wins() {
    let mut game = game_on("#####\n#@$.#\n#####");
    let kind = game.try_move(1, 0);
    assert_eq!(kind, Move::Push);
    assert_eq!(game.snap.state.counters.moves, 1);
    assert_eq!(game.snap.state.counters.pushes, 1);
    assert_eq!(game.snap.state.counters.stored, 1);
    assert_eq!(game.status, Status::Win);
    assert_eq!(game.snap.state.map.get(3, 1), Cell::CrateOnTarget);
    assert_eq!(game.snap.state.map.get(3, 1).bits(), CRATE | TARGET);
    assert_eq!(game.snap.state.map.get(2, 1), Cell::Empty);
    assert_eq!((game.snap.state.counters.px, game.snap.state.counters.py), (2, 1));
    assert_eq!(game.snap.state.counters.dir, Direction::East);
    assert_eq!(
        game.scores,
        vec![Score { level: 0, moves: 1, pushes: 1, time_s: 0 }]
    );
}

#[test]
fn the_flags_of_the_squares() {
    assert_eq!(Cell::Empty.bits(), EMPTY);
    assert_eq!((EMPTY, TARGET, CRATE, WALL), (0, 1, 2, 4));
    assert_eq!(Cell::Target.bits(), TARGET);
    assert_eq!(Cell::Crate.bits(), CRATE);
    assert_eq!(Cell::CrateOnTarget.bits(), 3);
    assert_eq!(Cell::Wall.bits(), WALL);
    assert!(Cell::Wall.is_wall() && !Cell::Wall.is_free());
    assert!(Cell::CrateOnTarget.is_crate() && Cell::CrateOnTarget.is_target());
    assert!(Cell::Target.is_free() && Cell::Empty.is_free());
    assert!(!Cell::Crate.is_free() && !Cell::Crate.is_target());
    assert_eq!(Cell::CrateOnTarget.remove_crate(), Cell::Target);
    assert_eq!(Cell::Crate.remove_crate(), Cell::Empty);
    assert_eq!(Cell::Target.add_crate(), Cell::CrateOnTarget);
    assert_eq!(Cell::Empty.add_crate(), Cell::Crate);
    assert_eq!(Cell::Wall.add_crate(), Cell::Wall);
    assert_eq!(Cell::Wall.remove_crate(), Cell::Wall);
}

#[test]
fn the_game_starts_before_the_first_move() {
    let game = game_on(ROOM);
    assert_eq!(game.level, 0);
    assert_eq!(game.status, Status::Play);
    assert!(game.must_draw);
    assert!(!game.quit);
    assert!(!game.debug);
    assert!(game.saved.is_none());
    assert_eq!(game.snap.undo_states.len(), 0);
    assert_eq!(game.snap.state.counters.moves, 0);
    assert_eq!(game.snap.state.counters.pushes, 0);
    assert_eq!(game.snap.state.counters.time_s, 0);
    assert_eq!(game.snap.state.counters.undos, 0);
    assert_eq!(game.snap.state.counters.stored, 1);
    assert_eq!(game.snap.state.counters.dir, Direction::West);
    assert_eq!((game.snap.state.counters.px, game.snap.state.counters.py), (2, 3));
    assert_eq!(game.snap.state.map, game.levels[0].map);
    assert_eq!(game.bw, 640 / 7);
    assert_eq!(game.bh, (400 - 16) / 7);
}

#[test]
fn walls_and_edges_block_the_player() {
    let mut game = game_on("@#\n  ");
    let before = game.snap.state.clone();
    assert_eq!(game.try_move(1, 0), Move::Rejected);
    assert_eq!(game.try_move(-1, 0), Move::Rejected);
    assert_eq!(game.try_move(0, -1), Move::Rejected);
    assert_eq!(game.snap.state, before);
    assert_eq!(game.snap.undo_states.len(), 0);
    assert_eq!(game.try_move(0, 1), Move::Step);
    assert_eq!(game.try_move(0, 1), Move::Rejected);
    assert_eq!(game.try_move(1, 0), Move::Step);
    assert_eq!(game.try_move(1, 0), Move::Rejected);
    assert_eq!(game.snap.state.counters.moves, 2);
    assert_eq!(game.snap.state.counters.pushes, 0);
    assert_eq!(game.snap.state.map, before.map);
}

#[test]
fn a_blocked_crate_stays() {
    let mut game = game_on("@$#..\n $$.");
    let before = game.snap.state.clone();
    assert_eq!(game.try_move(1, 0), Move::Rejected);
    assert_eq!(game.snap.state, before);
    assert_eq!(game.try_move(0, 1), Move::Step);
    let below = game.snap.state.clone();
    assert_eq!(game.try_move(1, 0), Move::Rejected);
    assert_eq!(game.snap.state, below);
    assert_eq!(game.snap.undo_states.len(), 1);
    assert_eq!(game.snap.state.counters.moves, 1);
    assert_eq!(game.snap.state.counters.pushes, 0);
    assert_eq!(game.snap.state.map, game.levels[0].map);
}

#[test]
fn a_crate_at_the_edge_cannot_leave_the_board() {
    let mut game = game_on("*@$\n.");
    let before = game.snap.state.clone();
    assert_eq!(game.try_move(1, 0), Move::Rejected);
    assert_eq!(game.try_move(-1, 0), Move::Rejected);
    assert_eq!(game.snap.state, before);
    assert!(!game.can_enter(3, 0));
    assert!(!game.can_enter(0, 2));
    assert!(!game.can_enter(0, 0));
    assert!(game.can_enter(1, 0));
    assert!(game.can_enter(0, 1));
    assert!(game.can_enter(2, 1));
}

#[test]
fn a_free_crate_is_pushed() {
    let mut game = game_on(ROOM);
    assert_eq!(game.try_move(1, 0), Move::Push);
    assert_eq!(game.snap.state.counters.moves, 1);
    assert_eq!(game.snap.state.counters.pushes, 1);
    assert_eq!(game.snap.state.map.get(3, 3), Cell::Empty);
    assert_eq!(game.snap.state.map.get(4, 3), Cell::Crate);
    assert_eq!((game.snap.state.counters.px, game.snap.state.counters.py), (3, 3));
    assert_eq!(game.status, Status::Play);
    match &game.snap.undo_states[0] {
        UndoEntry::Full { counters, map } => {
            assert_eq!(counters.moves, 0);
            assert_eq!(*map, game.levels[0].map);
        }
        UndoEntry::Light { .. } => panic!("a push keeps the board"),
    }
}

#[test]
fn a_step_keeps_no_board() {
    let mut game = game_on(ROOM);
    assert_eq!(game.try_move(-1, 0), Move::Step);
    assert_eq!(game.snap.state.counters.dir, Direction::West);
    assert!(matches!(game.snap.undo_states[0], UndoEntry::Light { .. }));
    assert_eq!(game.try_move(0, -1), Move::Step);
    assert_eq!(game.snap.state.counters.dir, Direction::North);
    assert_eq!(game.try_move(0, 1), Move::Step);
    assert_eq!(game.snap.state.counters.dir, Direction::South);
    assert_eq!(game.try_move(1, 0), Move::Step);
    assert_eq!(game.snap.state.counters.dir, Direction::East);
    assert_eq!(game.snap.state.counters.pushes, 0);
    assert_eq!(game.snap.state.counters.moves, 4);
}

#[test]
fn stored_follows_the_crates() {
    let mut game = game_on(ROOM);
    assert_eq!(game.snap.state.counters.stored, 1);
    assert_eq!(game.try_move(0, -1), Move::Push);
    assert_eq!(game.snap.state.map.get(2, 1), Cell::Crate);
    assert_eq!(game.snap.state.counters.stored, 1);
    assert_eq!(game.try_move(0, 1), Move::Step);
    assert_eq!(game.try_move(1, 0), Move::Push);
    assert_eq!(game.try_move(0, 1), Move::Push);
    assert_eq!(game.snap.state.map.get(3, 4), Cell::Target);
    assert_eq!(game.snap.state.map.get(3, 5), Cell::Crate);
    assert_eq!(game.snap.state.counters.stored, 0);
    assert_eq!(game.try_move(0, -1), Move::Step);
    assert_eq!(game.try_move(0, -1), Move::Step);
    assert_eq!(game.snap.state.counters.stored, 0);
    assert_eq!(game.status, Status::Play);
}

#[test]
fn stored_is_the_count_of_the_board_after_every_move() {
    let mut game = game_on(ROOM);
    let steps: [(isize, isize); 14] = [
        (0, -1),
        (0, 1),
        (1, 0),
        (1, 0),
        (0, 1),
        (-1, 0),
        (-1, 0),
        (-1, 0),
        (0, -1),
        (0, -1),
        (0, -1),
        (1, 0),
        (1, 0),
        (0, 1),
    ];
    let mut pushes = 0;
    for (dx, dy) in steps {
        if game.try_move(dx, dy) == Move::Push {
            pushes += 1;
        }
        assert_eq!(
            game.snap.state.counters.stored,
            game.snap.state.map.tally(Mark::Stored)
        );
        assert_eq!(game.snap.state.map.tally(Mark::Crate), game.levels[0].crates);
        assert_eq!(game.snap.state.map.tally(Mark::Target), 3);
        assert_eq!(game.snap.state.counters.moves, game.snap.undo_states.len());
        assert_eq!(game.snap.state.counters.pushes, pushes);
    }
    assert!(pushes > 2);
    while game.pop_undo() {
        assert_eq!(
            game.snap.state.counters.stored,
            game.snap.state.map.tally(Mark::Stored)
        );
        assert_eq!(game.snap.state.map.tally(Mark::Crate), game.levels[0].crates);
        assert_eq!(game.snap.state.counters.moves, game.snap.undo_states.len());
    }
    assert_eq!(game.snap.state.map, game.levels[0].map);
}

#[test]
fn a_win_is_recorded_once() {
    let mut game = game_on("#####\n#@$.#\n#####");
    assert_eq!(game.try_move(1, 0), Move::Push);
    assert_eq!(game.status, Status::Win);
    assert_eq!(game.scores.len(), 1);
    game.save_score();
    game.save_score();
    assert_eq!(game.scores.len(), 1);
    assert!(game.set_level(0));
    assert_eq!(game.status, Status::Play);
    game.tick(5000);
    assert_eq!(game.try_move(1, 0), Move::Push);
    assert_eq!(game.status, Status::Win);
    assert_eq!(
        game.scores,
        vec![Score { level: 0, moves: 1, pushes: 1, time_s: 0 }]
    );
}

#[test]
fn a_push_off_a_target_does_not_win() {
    let mut game = game_on("@* ");
    assert_eq!(game.snap.state.counters.stored, 1);
    assert_eq!(game.status, Status::Play);
    assert_eq!(game.try_move(1, 0), Move::Push);
    assert_eq!(game.snap.state.counters.stored, 0);
    assert_eq!(game.status, Status::Play);
    assert_eq!(game.scores.len(), 0);
}

#[test]
fn the_last_crate_home_wins() {
    let mut game = game_on("@$.\n * \n $.");
    assert_eq!(game.levels[0].crates, 3);
    assert_eq!(game.snap.state.counters.stored, 1);
    assert_eq!(game.try_move(1, 0), Move::Push);
    assert_eq!(game.snap.state.counters.stored, 2);
    assert_eq!(game.status, Status::Play);
    assert_eq!(game.scores.len(), 0);
    assert_eq!(game.try_move(-1, 0), Move::Step);
    assert_eq!(game.try_move(0, 1), Move::Step);
    assert_eq!(game.try_move(0, 1), Move::Step);
    assert_eq!(game.try_move(1, 0), Move::Push);
    assert_eq!(game.snap.state.counters.stored, 3);
    assert_eq!(game.status, Status::Win);
    assert_eq!(
        game.scores,
        vec![Score { level: 0, moves: 5, pushes: 2, time_s: 0 }]
    );
}

#[test]
fn the_score_holds_sixteen_bits_of_the_counts() {
    let mut game = game_on("#####\n#@$.#\n#####");
    game.snap.state.counters.moves = 65536 + 7;
    game.snap.state.counters.pushes = 65535;
    game.snap.state.counters.time_s = 70000;
    game.save_score();
    assert_eq!(
        game.scores,
        vec![Score { level: 0, moves: 7, pushes: 65535, time_s: 70000 }]
    );
}
