use cratesan::cell::Cell;
use cratesan::grid::Mark;
use cratesan::level::{load_levels, LevelError};

#[test]
fn a_framed_row_parses() {
    let levels = load_levels("#####\n#@$.#\n#####").unwrap();
    assert_eq!(levels.len(), 1);
    let level = &levels[0];
    assert_eq!((level.w, level.h), (5, 3));
    assert_eq!(level.crates, 1);
    assert_eq!(level.stored, 0);
    assert_eq!((level.px, level.py), (1, 1));
    assert_eq!(level.map.rows[0], vec![Cell::Wall; 5]);
    assert_eq!(
        level.map.rows[1],
        vec![Cell::Wall, Cell::Empty, Cell::Crate, Cell::Target, Cell::Wall]
    );
    assert_eq!(level.map.rows[2], vec![Cell::Wall; 5]);
}

#[test]
fn every_character_maps_to_its_square() {
    let levels = load_levels(" .$*@#\n.$").unwrap();
    let level = &levels[0];
    assert_eq!(
        level.map.rows[0],
        vec![
            Cell::Empty,
            Cell::Target,
            Cell::Crate,
            Cell::CrateOnTarget,
            Cell::Empty,
            Cell::Wall
        ]
    );
    assert_eq!(level.crates, 3);
    assert_eq!(level.stored, 1);
    assert_eq!((level.px, level.py), (4, 0));
}

#[test]
fn the_player_on_a_target_counts_as_a_target() {
    let levels = load_levels("&$").unwrap();
    let level = &levels[0];
    assert_eq!(level.map.rows[0], vec![Cell::Target, Cell::Crate]);
    assert_eq!(level.crates, 1);
    assert_eq!((level.px, level.py), (0, 0));
    assert_eq!(level.map.tally(Mark::Target), 1);
}

#[test]
fn short_rows_are_filled_up_with_empty_squares() {
    let levels = load_levels("###\n#@\n#####\n#").unwrap();
    let level = &levels[0];
    assert_eq!((level.w, level.h), (5, 4));
    assert_eq!(
        level.map.rows[1],
        vec![Cell::Wall, Cell::Empty, Cell::Empty, Cell::Empty, Cell::Empty]
    );
    assert_eq!(level.map.rows[3].len(), 5);
    for row in &level.map.rows {
        assert_eq!(row.len(), 5);
    }
}

#[test]
fn stored_counts_the_stars() {
    let levels = load_levels("*@*\n$.*").unwrap();
    let level = &levels[0];
    assert_eq!(level.crates, 4);
    assert_eq!(level.stored, 3);
    assert_eq!(level.map.tally(Mark::Stored), 3);
    assert_eq!(level.map.tally(Mark::Crate), 4);
    assert_eq!(level.map.tally(Mark::Target), 4);
}

#[test]
fn blank_lines_part_the_levels() {
    let source = "@\n\n\n#@#\n#$.\n\n\n\n.@$\n";
    let levels = load_levels(source).unwrap();
    assert_eq!(levels.len(), 3);
    assert_eq!((levels[0].w, levels[0].h), (1, 1));
    assert_eq!((levels[1].w, levels[1].h), (3, 2));
    assert_eq!((levels[2].w, levels[2].h), (3, 1));
    assert_eq!((levels[1].px, levels[1].py), (1, 0));
}

#[test]
fn comments_are_dropped_before_the_blocks_are_parted() {
    let source = "; first\n#@#\n; in between\n#$.\n;\n\n; second\n.@$\n";
    let levels = load_levels(source).unwrap();
    assert_eq!(levels.len(), 2);
    assert_eq!((levels[0].w, levels[0].h), (3, 2));
    assert_eq!((levels[1].w, levels[1].h), (3, 1));
}

#[test]
fn a_line_of_spaces_is_a_row() {
    let levels = load_levels("@\n   \n$.").unwrap();
    assert_eq!(levels.len(), 1);
    assert_eq!((levels[0].w, levels[0].h), (3, 3));
}

#[test]
fn carriage_returns_before_line_feeds_are_dropped() {
    let levels = load_levels("#@#\r\n#$.\r\n\r\n@\r\n").unwrap();
    assert_eq!(levels.len(), 2);
    assert_eq!((levels[0].w, levels[0].h), (3, 2));
}

#[test]
fn a_carriage_return_at_the_end_of_the_text_is_a_character() {
    assert_eq!(
        load_levels("@\r"),
        Err(LevelError::Invalid { level: 1, element: '\r' })
    );
}

#[test]
fn an_empty_text_holds_no_levels() {
    assert_eq!(load_levels("").unwrap().len(), 0);
    assert_eq!(load_levels("\n\n; nothing\n\n").unwrap().len(), 0);
}

#[test]
fn an_unknown_character_is_named() {
    let e = load_levels("#@#\n#x#").unwrap_err();
    assert_eq!(e, LevelError::Invalid { level: 1, element: 'x' });
    let e = load_levels("@\n\n@\n\n#@é").unwrap_err();
    assert_eq!(e, LevelError::Invalid { level: 3, element: 'é' });
}

#[test]
fn a_second_player_is_turned_down() {
    let e = load_levels("@\n\n#@#\n#&#").unwrap_err();
    assert_eq!(e, LevelError::Duplicate { level: 2 });
    let e = load_levels("@@").unwrap_err();
    assert_eq!(e, LevelError::Duplicate { level: 1 });
}

#[test]
fn the_first_fault_in_reading_order_decides() {
    let e = load_levels("@@x").unwrap_err();
    assert_eq!(e, LevelError::Duplicate { level: 1 });
    let e = load_levels("@x@").unwrap_err();
    assert_eq!(e, LevelError::Invalid { level: 1, element: 'x' });
    let e = load_levels("@$\nx\n@").unwrap_err();
    assert_eq!(e, LevelError::Invalid { level: 1, element: 'x' });
}

#[test]
fn crates_and_targets_must_balance() {
    let e = load_levels("#@$#").unwrap_err();
    assert_eq!(e, LevelError::Mismatch { level: 1, crates: 1, targets: 0 });
    let e = load_levels("@\n\n&$$*..").unwrap_err();
    assert_eq!(e, LevelError::Mismatch { level: 2, crates: 3, targets: 4 });
}

#[test]
fn a_level_without_a_player_is_turned_down() {
    let e = load_levels("#$.#").unwrap_err();
    assert_eq!(e, LevelError::Missing { level: 1 });
}

#[test]
fn a_mismatch_comes_before_a_missing_player() {
    let e = load_levels("#$#").unwrap_err();
    assert_eq!(e, LevelError::Mismatch { level: 1, crates: 1, targets: 0 });
}
