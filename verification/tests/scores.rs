use cratesan::game::{resume_level, Game};
use cratesan::level::load_levels;
use cratesan::score::{is_solved, load_scores, save_scores, Score, ScoreError, VERSION};

fn score(level: u16, pushes: u16, moves: u16, time_s: u32) -> Score {
    Score { level, moves, pushes, time_s }
}

#[test]
fn a_score_file_is_read() {
    let scores = load_scores("1\n2\n0 10 25 63\n1 7 12 4000\n").unwrap();
    assert_eq!(scores, vec![score(0, 10, 25, 63), score(1, 7, 12, 4000)]);
}

#[test]
fn the_fields_come_as_level_pushes_moves_seconds() {
    let scores = load_scores("1\n1\n3 4 5 6").unwrap();
    assert_eq!(scores[0].level, 3);
    assert_eq!(scores[0].pushes, 4);
    assert_eq!(scores[0].moves, 5);
    assert_eq!(scores[0].time_s, 6);
}

#[test]
fn a_score_file_is_written() {
    assert_eq!(VERSION, 1);
    let text = save_scores(&vec![score(0, 10, 25, 63), score(12, 0, 65535, 4294967295)]);
    assert_eq!(text.unwrap(), "1\n2\n0 10 25 63\n12 0 65535 4294967295\n");
}

#[test]
fn no_file_is_written_for_no_scores() {
    assert_eq!(save_scores(&Vec::new()), None);
}

#[test]
fn what_is_written_is_read_again() {
    let mut scores = Vec::new();
    for i in 0..255u32 {
        scores.push(score(
            (i * 257 % 65536) as u16,
            (i * 7919 % 65536) as u16,
            (65535 - i) as u16,
            i * 16843009,
        ));
    }
    for n in [1, 2, 9, 10, 11, 99, 100, 101, 254, 255] {
        let some = scores[..n].to_vec();
        let text = save_scores(&some).unwrap();
        assert_eq!(load_scores(&text), Ok(some));
    }
}

#[test]
fn more_records_than_the_count_can_say_do_not_come_back() {
    let scores = vec![score(1, 2, 3, 4); 256];
    let text = save_scores(&scores).unwrap();
    assert!(text.starts_with("1\n256\n1 2 3 4\n"));
    assert_eq!(load_scores(&text), Err(ScoreError::Malformed));
}

#[test]
fn another_version_is_turned_down() {
    assert_eq!(load_scores("2\n0\n"), Err(ScoreError::Version { found: 2 }));
    assert_eq!(load_scores("0\n0\n"), Err(ScoreError::Version { found: 0 }));
    assert_eq!(
        load_scores("255\nnonsense"),
        Err(ScoreError::Version { found: 255 })
    );
}

#[test]
fn a_wrong_count_is_turned_down() {
    assert_eq!(
        load_scores("1\n2\n0 10 25 63\n"),
        Err(ScoreError::Count { declared: 2, parsed: 1 })
    );
    assert_eq!(
        load_scores("1\n0\n0 10 25 63\n1 1 1 1"),
        Err(ScoreError::Count { declared: 0, parsed: 2 })
    );
}

#[test]
fn a_file_without_records_is_read() {
    assert_eq!(load_scores("1\n0\n"), Ok(Vec::new()));
    assert_eq!(load_scores("1\n0"), Ok(Vec::new()));
}

#[test]
fn what_is_no_number_is_turned_down() {
    assert_eq!(load_scores(""), Err(ScoreError::Malformed));
    assert_eq!(load_scores("\n1\n"), Err(ScoreError::Malformed));
    assert_eq!(load_scores("x\n0\n"), Err(ScoreError::Malformed));
    assert_eq!(load_scores("256\n0\n"), Err(ScoreError::Malformed));
    assert_eq!(load_scores("-1\n0\n"), Err(ScoreError::Malformed));
    assert_eq!(load_scores("1"), Err(ScoreError::Malformed));
    assert_eq!(load_scores("1\n"), Err(ScoreError::Malformed));
    assert_eq!(load_scores("1\n\n"), Err(ScoreError::Malformed));
    assert_eq!(load_scores("1\n1\n0 10 25\n"), Err(ScoreError::Malformed));
    assert_eq!(load_scores("1\n1\n0 10 25 x\n"), Err(ScoreError::Malformed));
    assert_eq!(load_scores("1\n1\n0  10 25 63\n"), Err(ScoreError::Malformed));
    assert_eq!(load_scores("1\n1\n 0 10 25 63\n"), Err(ScoreError::Malformed));
    assert_eq!(load_scores("1\n1\n65536 10 25 63\n"), Err(ScoreError::Malformed));
    assert_eq!(load_scores("1\n1\n0 10 25 4294967296\n"), Err(ScoreError::Malformed));
    assert_eq!(load_scores("1\n1\n0 10 25 63\n\n"), Err(ScoreError::Malformed));
    assert_eq!(load_scores("1\n2\n0 10 25 63\n\n1 1 1 1\n"), Err(ScoreError::Malformed));
    assert_eq!(load_scores("1\n1\n0 1_0 25 63\n"), Err(ScoreError::Malformed));
    assert_eq!(load_scores("1\n1\n0 + 25 63\n"), Err(ScoreError::Malformed));
}

#[test]
fn numbers_are_read_as_the_standard_library_reads_them() {
    assert_eq!(
        load_scores("+1\n+1\n+0 0010 +25 0000000063\n"),
        Ok(vec![score(0, 10, 25, 63)])
    );
    assert_eq!(
        load_scores("1 one\n1\trecord\n0\t10\u{a0}25\u{3000}63 and more\r\n"),
        Ok(vec![score(0, 10, 25, 63)])
    );
    assert_eq!(load_scores("1\r\n1\r\n0 10 25 63\r\n"), Ok(vec![score(0, 10, 25, 63)]));
    assert_eq!(
        load_scores("1\n1\n65535 65535 65535 4294967295"),
        Ok(vec![score(65535, 65535, 65535, 4294967295)])
    );
    let words = [
        "", "+", "-", "-0", "1 ", " 1", "1.0", "0x1", "١", "1e0", "++1", "256", "1\u{0}",
    ];
    for word in words {
        let text = format!("{}\n0\n", word);
        let ours = load_scores(&text);
        let first = text.lines().next().unwrap_or("");
        let theirs = first.split(char::is_whitespace).next().and_then(|w| w.parse::<u8>().ok());
        match theirs {
            Some(1) => assert_eq!(ours, Ok(Vec::new()), "{:?}", word),
            Some(v) => assert_eq!(ours, Err(ScoreError::Version { found: v }), "{:?}", word),
            None => assert_eq!(ours, Err(ScoreError::Malformed), "{:?}", word),
        }
    }
}

#[test]
fn the_game_resumes_at_the_first_level_without_a_score() {
    assert_eq!(resume_level(&Vec::new(), 3), 0);
    assert_eq!(resume_level(&vec![score(0, 1, 1, 1)], 3), 1);
    assert_eq!(resume_level(&vec![score(1, 1, 1, 1)], 3), 0);
    assert_eq!(resume_level(&vec![score(1, 1, 1, 1), score(0, 1, 1, 1)], 3), 2);
    assert_eq!(
        resume_level(&vec![score(2, 1, 1, 1), score(1, 1, 1, 1), score(0, 1, 1, 1)], 3),
        3
    );
    assert_eq!(resume_level(&vec![score(7, 1, 1, 1), score(0, 1, 1, 1)], 3), 1);
    assert_eq!(resume_level(&vec![score(0, 1, 1, 1), score(0, 2, 2, 2)], 3), 1);
    assert_eq!(resume_level(&Vec::new(), 0), 0);
    assert!(is_solved(&vec![score(7, 1, 1, 1)], 7));
    assert!(!is_solved(&vec![score(7, 1, 1, 1)], 6));
    assert!(!is_solved(&vec![score(7, 1, 1, 1)], 65536 + 7));
}

#[test]
fn a_game_starts_at_the_level_it_resumes_at() {
    let source = "@$.\n\n.$@\n\n$@.";
    let game = Game::new(load_levels(source).unwrap(), vec![score(0, 1, 1, 9)], 640, 400).unwrap();
    assert_eq!(game.level, 1);
    assert_eq!(game.snap.state.map, game.levels[1].map);
    assert_eq!((game.snap.state.counters.px, game.snap.state.counters.py), (2, 0));
    assert_eq!(game.snap.state.counters.time_s, 0);
    assert_eq!(game.scores, vec![score(0, 1, 1, 9)]);
}

#[test]
fn there_is_no_game_when_every_level_is_solved() {
    let source = "@$.\n\n.$@";
    let scores = vec![score(1, 1, 1, 1), score(0, 1, 1, 1)];
    assert!(Game::new(load_levels(source).unwrap(), scores, 640, 400).is_none());
    assert!(Game::new(Vec::new(), Vec::new(), 640, 400).is_none());
}
