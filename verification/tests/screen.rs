use cratesan::cell::Cell;
use cratesan::game::{Game, Status, BAR};
use cratesan::level::load_levels;
use cratesan::render::{sprite, turn_of, Sprite};
use cratesan::state::Direction;

fn game_on(source: &str) -> Game {
    let levels = load_levels(source).unwrap();
    Game::new(levels, Vec::new(), 640, 400).unwrap()
}

#[test]
fn the_status_line_at_the_start() {
    let game = game_on("@ $.");
    assert_eq!(game.status_text(), "01| moves: 0000 pushes: 0000 time:0:00:00 ");
}

#[test]
fn the_status_line_counts_and_tells_the_time() {
    let mut game = game_on("@ $.");
    game.try_move(1, 0);
    game.tick(3_725_999);
    assert_eq!(game.snap.state.counters.time_s, 3725);
    assert_eq!(game.status_text(), "01| moves: 0001 pushes: 0000 time:1:02:05 ");
    game.try_move(1, 0);
    assert_eq!(
        game.status_text(),
        "01| moves: 0002 pushes: 0001 time:1:02:05 You win! Press Return.."
    );
    game.status = Status::Pause;
    assert_eq!(
        game.status_text(),
        "01| moves: 0002 pushes: 0001 time:1:02:05 *PAUSE* Press Space.."
    );
}

#[test]
fn the_status_line_grows_with_the_numbers() {
    let mut game = game_on("@ $.");
    game.snap.state.counters.moves = 123456;
    game.snap.state.counters.pushes = 9999;
    game.snap.state.counters.time_s = u32::MAX;
    assert_eq!(
        game.status_text(),
        "01| moves: 123456 pushes: 9999 time:1193046:28:15 "
    );
    game.snap.state.counters.moves = 10;
    game.snap.state.counters.pushes = 100;
    game.snap.state.counters.time_s = 59;
    assert_eq!(game.status_text(), "01| moves: 0010 pushes: 0100 time:0:00:59 ");
    game.snap.state.counters.time_s = 60;
    assert_eq!(game.status_text(), "01| moves: 0010 pushes: 0100 time:0:01:00 ");
    game.snap.state.counters.time_s = 3599;
    assert_eq!(game.status_text(), "01| moves: 0010 pushes: 0100 time:0:59:59 ");
    game.snap.state.counters.time_s = 36000;
    assert_eq!(game.status_text(), "01| moves: 0010 pushes: 0100 time:10:00:00 ");
}

#[test]
fn the_status_line_counts_the_levels_from_one() {
    let mut source = String::new();
    for _ in 0..120 {
        source.push_str("@\n\n");
    }
    let mut game = game_on(&source);
    assert!(game.set_level(8));
    assert_eq!(game.status_text(), "09| moves: 0000 pushes: 0000 time:0:00:00 ");
    assert!(game.set_level(9));
    assert_eq!(game.status_text(), "10| moves: 0000 pushes: 0000 time:0:00:00 ");
    assert!(game.set_level(99));
    assert_eq!(game.status_text(), "100| moves: 0000 pushes: 0000 time:0:00:00 ");
    assert!(!game.set_level(120));
    assert_eq!(game.level, 99);
}

#[test]
fn the_status_line_is_formatted_as_the_standard_library_formats_it() {
    let mut game = game_on("@ $.");
    for (moves, pushes, time_s) in [
        (0usize, 0usize, 0u32),
        (9, 99, 999),
        (1000, 10000, 100000),
        (99999, 5, 86399),
        (12, 3456, 86400),
        (7, 7, 359999),
    ] {
        game.snap.state.counters.moves = moves;
        game.snap.state.counters.pushes = pushes;
        game.snap.state.counters.time_s = time_s;
        let expected = format!(
            "{:02}| moves: {:04} pushes: {:04} time:{}:{:02}:{:02} {}",
            game.level + 1,
            moves,
            pushes,
            time_s / 3600,
            (time_s / 60) % 60,
            time_s % 60,
            ""
        );
        assert_eq!(game.status_text(), expected);
    }
}

#[test]
fn every_square_has_its_picture() {
    assert_eq!(sprite(Cell::Empty, None), Sprite::Empty);
    assert_eq!(sprite(Cell::Target, None), Sprite::Target);
    assert_eq!(sprite(Cell::Crate, None), Sprite::Crate);
    assert_eq!(sprite(Cell::CrateOnTarget, None), Sprite::Stored);
    assert_eq!(sprite(Cell::Wall, None), Sprite::Wall);
    assert_eq!(sprite(Cell::Empty, Some(Direction::North)), Sprite::Player(Direction::North));
    assert_eq!(
        sprite(Cell::Target, Some(Direction::East)),
        Sprite::PlayerOnTarget(Direction::East)
    );
    assert_eq!(sprite(Cell::Crate, Some(Direction::East)), Sprite::Crate);
    assert_eq!(sprite(Cell::CrateOnTarget, Some(Direction::East)), Sprite::Stored);
    assert_eq!(sprite(Cell::Wall, Some(Direction::East)), Sprite::Wall);
}

#[test]
fn the_pictures_stand_in_their_order() {
    assert_eq!(Sprite::Empty.index(), 0);
    assert_eq!(Sprite::Target.index(), 1);
    assert_eq!(Sprite::Stored.index(), 2);
    assert_eq!(Sprite::Crate.index(), 3);
    assert_eq!(Sprite::Wall.index(), 4);
    assert_eq!(Sprite::Player(Direction::West).index(), 5);
    assert_eq!(Sprite::PlayerOnTarget(Direction::West).index(), 6);
    assert_eq!(Sprite::Player(Direction::North).index(), 7);
    assert_eq!(Sprite::PlayerOnTarget(Direction::North).index(), 8);
    assert_eq!(Sprite::Player(Direction::East).index(), 9);
    assert_eq!(Sprite::PlayerOnTarget(Direction::East).index(), 10);
    assert_eq!(Sprite::Player(Direction::South).index(), 11);
    assert_eq!(Sprite::PlayerOnTarget(Direction::South).index(), 12);
    assert_eq!(turn_of(Direction::West), 0);
    assert_eq!(turn_of(Direction::South), 3);
}

#[test]
fn the_player_shows_where_the_player_stands() {
    let mut game = game_on("#.$\n @ \n.$*");
    assert_eq!(game.sprite_at(0, 0), Sprite::Wall);
    assert_eq!(game.sprite_at(1, 0), Sprite::Target);
    assert_eq!(game.sprite_at(2, 0), Sprite::Crate);
    assert_eq!(game.sprite_at(0, 1), Sprite::Empty);
    assert_eq!(game.sprite_at(1, 1), Sprite::Player(Direction::West));
    assert_eq!(game.sprite_at(2, 2), Sprite::Stored);
    game.try_move(0, -1);
    assert_eq!(game.sprite_at(1, 0), Sprite::PlayerOnTarget(Direction::North));
    assert_eq!(game.sprite_at(1, 1), Sprite::Empty);
    game.try_move(1, 0);
    assert_eq!(game.sprite_at(1, 0), Sprite::PlayerOnTarget(Direction::North));
    game.try_move(0, 1);
    game.try_move(0, 1);
    assert_eq!(game.sprite_at(1, 1), Sprite::Player(Direction::South));
    assert_eq!(game.sprite_at(1, 2), Sprite::Crate);
    game.try_move(1, 0);
    assert_eq!(game.sprite_at(2, 1), Sprite::Player(Direction::East));
}

#[test]
fn the_squares_share_out_the_window() {
    let game = game_on("#####\n#@$.#\n#####");
    assert_eq!(BAR, 16);
    assert_eq!(game.bw, 128);
    assert_eq!(game.bh, 128);
    assert_eq!(game.square_rect(0, 0), (0, 0, 128, 128));
    assert_eq!(game.square_rect(4, 2), (512, 256, 128, 128));
    let levels = load_levels("#@$.#  ").unwrap();
    let game = Game::new(levels, Vec::new(), 640, 400).unwrap();
    assert_eq!(game.bw, 91);
    assert_eq!(game.bh, 384);
    assert_eq!(game.square_rect(0, 0), (1, 0, 91, 384));
    assert_eq!(game.square_rect(6, 0), (547, 0, 91, 384));
    let levels = load_levels("@").unwrap();
    let game = Game::new(levels, Vec::new(), 3, 16).unwrap();
    assert_eq!(game.square_rect(0, 0), (0, 0, 3, 0));
}

#[test]
fn the_clock_goes_on_after_a_full_second() {
    let mut game = game_on("@ $.");
    game.take_redraw();
    assert!(!game.tick(0));
    assert!(!game.tick(999));
    assert_eq!(game.snap.state.counters.time_s, 0);
    assert!(!game.must_draw);
    assert!(game.tick(1000));
    assert_eq!(game.snap.state.counters.time_s, 1);
    assert!(game.take_redraw());
    assert!(game.tick(1999));
    assert_eq!(game.snap.state.counters.time_s, 2);
    assert!(game.tick(61_000));
    assert_eq!(game.snap.state.counters.time_s, 63);
}

#[test]
fn the_clock_stands_while_the_game_rests_or_is_won() {
    for status in [Status::Pause, Status::Win] {
        let mut game = game_on("@ $.");
        game.status = status;
        game.take_redraw();
        assert!(game.tick(5000));
        assert_eq!(game.snap.state.counters.time_s, 0);
        assert!(game.must_draw);
        game.take_redraw();
        assert!(!game.tick(500));
        assert!(!game.must_draw);
    }
}

#[test]
fn taking_the_redraw_clears_the_request() {
    let mut game = game_on("@ $.");
    assert!(game.take_redraw());
    assert!(!game.take_redraw());
    assert!(!game.must_draw);
    game.try_move(1, 0);
    assert!(game.take_redraw());
}
