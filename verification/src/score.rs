//! Best-run records: one line of the score file for each solved level.

use vstd::prelude::*;
use vstd::string::*;
use crate::text::{
    after_line, append_decimal, chars_of, chomp, decimal, ended, find_sep, head_line, in_order,
    is_sep, lemma_decimal_digits, lemma_lines_append, lemma_lines_first, lemma_number_of_decimal,
    lemma_run_bounds, lemma_split_first, lemma_split_unbroken, line_spans, lines, number, part,
    parse_number, parts, run, split, unbroken, Sep, Span,
};

verus! {

/// The version of the score file's layout that this engine reads and
/// writes.
pub const VERSION: u8 = 1;

/// The run that first solved a level.
#[derive(Clone, Copy, PartialEq, Eq, Debug, Structural)]
pub struct Score {
    /// The level's place in the level file, counted from 0.
    pub level: u16,
    /// The accepted moves of the run.
    pub moves: u16,
    /// The moves of the run that pushed a crate.
    pub pushes: u16,
    /// The seconds the run took.
    pub time_s: u32,
}

/// The number of records in `scores` that are of level `level`.
pub open spec fn records(scores: Seq<Score>, level: int) -> nat
    decreases scores.len(),
{
    if scores.len() == 0 {
        0
    } else {
        records(scores.drop_last(), level) + if scores.last().level == level {
            1nat
        } else {
            0nat
        }
    }
}

/// Whether `scores` holds a record of level `level`.
pub open spec fn has_score(scores: Seq<Score>, level: int) -> bool {
    records(scores, level) > 0
}

/// A level has a record if and only if some record is of that level.
pub proof fn lemma_has_score(scores: Seq<Score>, level: int)
    ensures
        has_score(scores, level) <==> exists|i: int|
            0 <= i < scores.len() && (#[trigger] scores[i]).level == level,
    decreases scores.len(),
{
    if scores.len() > 0 {
        let before = scores.drop_last();
        lemma_has_score(before, level);
        if has_score(scores, level) {
            if scores.last().level == level {
                assert(scores[scores.len() - 1].level == level);
            } else {
                let i = choose|i: int|
                    0 <= i < before.len() && (#[trigger] before[i]).level == level;
                assert(scores[i].level == level);
            }
        }
        if exists|i: int| 0 <= i < scores.len() && (#[trigger] scores[i]).level == level {
            let i = choose|i: int|
                0 <= i < scores.len() && (#[trigger] scores[i]).level == level;
            if i < before.len() {
                assert(before[i].level == level);
            }
        }
    }
}

/// Whether `scores` holds a record of level `level`.
pub fn is_solved(scores: &Vec<Score>, level: usize) -> (r: bool)
    ensures
        r == has_score(scores@, level as int),
        r == exists|i: int| 0 <= i < scores@.len() && (#[trigger] scores@[i]).level == level,
{
    proof {
        lemma_has_score(scores@, level as int);
    }
    let mut found = false;
    let mut i: usize = 0;
    assert(scores@.take(0) =~= Seq::<Score>::empty());
    while i < scores.len()
        invariant
            i <= scores@.len(),
            found == has_score(scores@.take(i as int), level as int),
        decreases scores@.len() - i,
    {
        assert(scores@.take(i + 1).drop_last() =~= scores@.take(i as int));
        if scores[i].level as usize == level {
            found = true;
        }
        i += 1;
    }
    assert(scores@.take(i as int) =~= scores@);
    found
}

/// Why a score file was turned down.
#[derive(Clone, Copy, PartialEq, Eq, Debug, Structural)]
pub enum ScoreError {
    /// A line does not start with the numbers it is to hold.
    Malformed,
    /// The file has another version than `VERSION`.
    Version { found: u8 },
    /// The file does not hold as many records as it says.
    Count { declared: u8, parsed: usize },
}

/// The number that `line` starts with: what stands before its first white
/// space, if that writes a number no larger than `max`.
pub open spec fn leading(line: Seq<char>, max: nat) -> Option<nat> {
    number(split(line, Sep::Blank)[0], max)
}

/// The record that `line` holds: its first four fields, parted by one
/// white space each, are the level, the pushes, the moves and the seconds.
/// What follows them is not looked at.
pub open spec fn record_of(line: Seq<char>) -> Option<Score> {
    let fields = split(line, Sep::Blank);
    if fields.len() < 4 {
        None
    } else {
        match (
            number(fields[0], 0xffff),
            number(fields[1], 0xffff),
            number(fields[2], 0xffff),
            number(fields[3], 0xffff_ffff),
        ) {
            (Some(level), Some(pushes), Some(moves), Some(time_s)) => Some(
                Score {
                    level: level as u16,
                    moves: moves as u16,
                    pushes: pushes as u16,
                    time_s: time_s as u32,
                },
            ),
            _ => None,
        }
    }
}

/// The records that `lines` hold, one each, if every line holds one.
pub open spec fn records_of(lines: Seq<Seq<char>>) -> Option<Seq<Score>>
    decreases lines.len(),
{
    if lines.len() == 0 {
        Some(seq![])
    } else {
        match (records_of(lines.drop_last()), record_of(lines.last())) {
            (Some(before), Some(last)) => Some(before.push(last)),
            _ => None,
        }
    }
}

/// The records that a score file holds. Its first line starts with the
/// version, its second with the number of records, and each line after
/// them holds one record. The version is read and held against `VERSION`
/// first; then the number and the records are read; at last the number is
/// held against the records that were read.
pub open spec fn parse_scores(source: Seq<char>) -> Result<Seq<Score>, ScoreError> {
    let below = after_line(source);
    match leading(head_line(source), 0xff) {
        None => Err(ScoreError::Malformed),
        Some(version) => if version != VERSION {
            Err(ScoreError::Version { found: version as u8 })
        } else {
            match leading(head_line(below), 0xff) {
                None => Err(ScoreError::Malformed),
                Some(declared) => match records_of(lines(after_line(below))) {
                    None => Err(ScoreError::Malformed),
                    Some(scores) => if scores.len() != declared {
                        Err(
                            ScoreError::Count {
                                declared: declared as u8,
                                parsed: scores.len() as usize,
                            },
                        )
                    } else {
                        Ok(scores)
                    },
                },
            }
        },
    }
}

/// What the line of record `score` says: the level, the pushes, the moves
/// and the seconds, parted by a space each.
pub open spec fn record_text(score: Score) -> Seq<char> {
    decimal(score.level as nat) + seq![' '] + decimal(score.pushes as nat) + seq![' '] + decimal(
        score.moves as nat,
    ) + seq![' '] + decimal(score.time_s as nat)
}

/// The line that holds record `score`, with its line feed.
pub open spec fn record_line(score: Score) -> Seq<char> {
    record_text(score) + seq!['\n']
}

/// The lines that hold `scores`, in order.
pub open spec fn record_lines(scores: Seq<Score>) -> Seq<char>
    decreases scores.len(),
{
    if scores.len() == 0 {
        seq![]
    } else {
        record_lines(scores.drop_last()) + record_line(scores.last())
    }
}

/// The score file that holds `scores`: the version, the number of records,
/// and the records, a line each.
pub open spec fn format_scores(scores: Seq<Score>) -> Seq<char> {
    decimal(VERSION as nat) + seq!['\n'] + decimal(scores.len()) + seq!['\n'] + record_lines(
        scores,
    )
}

/// A text starts with its first piece.
pub proof fn lemma_first_piece(s: Seq<char>, sep: Sep)
    ensures
        split(s, sep).len() >= 1,
        split(s, sep)[0] == s.take(run(s, sep) as int),
{
    lemma_run_bounds(s, sep);
    if run(s, sep) >= s.len() {
        assert(s.take(run(s, sep) as int) =~= s);
    }
}

/// The number that `text[from..to]` starts with, if it starts with one no
/// larger than `max`.
fn leading_number(text: &Vec<char>, from: usize, to: usize, max: u64) -> (r: Option<u64>)
    requires
        from <= to <= text@.len(),
    ensures
        match r {
            Some(v) => leading(text@.subrange(from as int, to as int), max as nat) == Some(
                v as nat,
            ),
            None => leading(text@.subrange(from as int, to as int), max as nat) is None,
        },
{
    let end = find_sep(text, from, to, Sep::Blank);
    proof {
        let line = text@.subrange(from as int, to as int);
        lemma_first_piece(line, Sep::Blank);
        assert(line.take(end - from) =~= text@.subrange(from as int, end as int));
    }
    parse_number(text, from, end, max)
}

/// The number that the field at `from` writes, and the place of the next
/// field if the line goes on after it.
fn take_field(text: &Vec<char>, from: usize, to: usize, max: u64) -> (r: Option<
    (u64, Option<usize>),
>)
    requires
        from <= to <= text@.len(),
    ensures
        match r {
            None => number(split(text@.subrange(from as int, to as int), Sep::Blank)[0], max as nat)
                is None,
            Some((v, next)) => {
                &&& number(split(text@.subrange(from as int, to as int), Sep::Blank)[0], max as nat)
                    == Some(v as nat)
                &&& match next {
                    Some(p) => {
                        &&& from < p <= to
                        &&& split(text@.subrange(from as int, to as int), Sep::Blank) == seq![
                            split(text@.subrange(from as int, to as int), Sep::Blank)[0],
                        ] + split(text@.subrange(p as int, to as int), Sep::Blank)
                    },
                    None => split(text@.subrange(from as int, to as int), Sep::Blank).len() == 1,
                }
            },
        },
{
    let ghost line = text@.subrange(from as int, to as int);
    let end = find_sep(text, from, to, Sep::Blank);
    proof {
        lemma_first_piece(line, Sep::Blank);
        assert(line.take(end - from) =~= text@.subrange(from as int, end as int));
    }
    match parse_number(text, from, end, max) {
        None => None,
        Some(v) => {
            if end < to {
                proof {
                    assert(line.skip(end - from + 1) =~= text@.subrange(end + 1, to as int));
                }
                Some((v, Some(end + 1)))
            } else {
                Some((v, None))
            }
        },
    }
}

/// The record that `text[sp.start..sp.end]` holds, if it holds one.
fn parse_record(text: &Vec<char>, sp: Span) -> (r: Option<Score>)
    requires
        sp.start <= sp.end <= text@.len(),
    ensures
        r == record_of(part(text@, sp)),
{
    let ghost line = part(text@, sp);
    let ghost fields = split(line, Sep::Blank);
    let (level, second) = match take_field(text, sp.start, sp.end, 0xffff) {
        Some((v, Some(p))) => (v, p),
        Some((v, None)) => {
            return None;
        },
        None => {
            proof {
                lemma_first_piece(line, Sep::Blank);
                if fields.len() >= 4 {
                    assert(record_of(line) is None);
                }
            }
            return None;
        },
    };
    let ghost after_one = split(text@.subrange(second as int, sp.end as int), Sep::Blank);
    proof {
        lemma_first_piece(text@.subrange(second as int, sp.end as int), Sep::Blank);
        assert(fields[1] == after_one[0]);
        assert(fields.len() == 1 + after_one.len());
    }
    let (pushes, third) = match take_field(text, second, sp.end, 0xffff) {
        Some((v, Some(p))) => (v, p),
        Some((v, None)) => {
            return None;
        },
        None => {
            return None;
        },
    };
    let ghost after_two = split(text@.subrange(third as int, sp.end as int), Sep::Blank);
    proof {
        lemma_first_piece(text@.subrange(third as int, sp.end as int), Sep::Blank);
        assert(after_one[1] == after_two[0]);
        assert(fields[2] == after_two[0]);
        assert(fields.len() == 2 + after_two.len());
    }
    let (moves, fourth) = match take_field(text, third, sp.end, 0xffff) {
        Some((v, Some(p))) => (v, p),
        Some((v, None)) => {
            return None;
        },
        None => {
            return None;
        },
    };
    let ghost after_three = split(text@.subrange(fourth as int, sp.end as int), Sep::Blank);
    proof {
        lemma_first_piece(text@.subrange(fourth as int, sp.end as int), Sep::Blank);
        assert(after_two[1] == after_three[0]);
        assert(fields[3] == after_three[0]);
        assert(fields.len() == 3 + after_three.len());
    }
    let time_s = match take_field(text, fourth, sp.end, 0xffff_ffff) {
        Some((v, _)) => v,
        None => {
            return None;
        },
    };
    Some(
        Score {
            level: level as u16,
            moves: moves as u16,
            pushes: pushes as u16,
            time_s: time_s as u32,
        },
    )
}

/// A line that holds no record leaves the lines up to it without records.
pub proof fn lemma_records_of_prefix(lines: Seq<Seq<char>>, k: int)
    requires
        0 <= k <= lines.len(),
        records_of(lines.take(k)) is None,
    ensures
        records_of(lines) is None,
    decreases lines.len(),
{
    if k == lines.len() {
        assert(lines.take(k) =~= lines);
    } else {
        assert(lines.drop_last().take(k) =~= lines.take(k));
        lemma_records_of_prefix(lines.drop_last(), k);
    }
}

/// Loads the records that the text of a score file holds.
///
/// The first line starts with the version, the second with the number of
/// records, and each line after them holds one record: the level, the
/// pushes, the moves and the seconds, parted by one white space each. A
/// file of another version, or one that does not hold as many records as
/// it says, is turned down, and so is one with a line that does not start
/// with the numbers it is to hold.
pub fn load_scores(source: &str) -> (r: Result<Vec<Score>, ScoreError>)
    ensures
        match r {
            Ok(scores) => parse_scores(source@) == Ok::<Seq<Score>, ScoreError>(scores@),
            Err(e) => parse_scores(source@) == Err::<Seq<Score>, ScoreError>(e),
        },
{
    let text = chars_of(source);
    let len = text.len();
    let version_end = find_sep(&text, 0, len, Sep::Line);
    let count_start = if version_end < len {
        version_end + 1
    } else {
        len
    };
    let ghost below = after_line(source@);
    proof {
        assert(text@.subrange(0, len as int) =~= text@);
        assert(head_line(source@) =~= text@.subrange(0, version_end as int));
        assert(below =~= text@.skip(count_start as int));
        assert(below =~= text@.subrange(count_start as int, len as int));
    }
    let version = match leading_number(&text, 0, version_end, 0xff) {
        Some(v) => v,
        None => {
            return Err(ScoreError::Malformed);
        },
    };
    if version != VERSION as u64 {
        return Err(ScoreError::Version { found: version as u8 });
    }
    let count_end = find_sep(&text, count_start, len, Sep::Line);
    let records_start = if count_end < len {
        count_end + 1
    } else {
        len
    };
    proof {
        assert(head_line(below) =~= text@.subrange(count_start as int, count_end as int));
        assert(after_line(below) =~= text@.skip(records_start as int));
    }
    let declared = match leading_number(&text, count_start, count_end, 0xff) {
        Some(v) => v,
        None => {
            return Err(ScoreError::Malformed);
        },
    };
    let spans = line_spans(&text, records_start);
    let ghost all = lines(after_line(below));
    let mut scores: Vec<Score> = Vec::new();
    let mut i: usize = 0;
    assert(all.take(0) =~= Seq::<Seq<char>>::empty());
    while i < spans.len()
        invariant
            i <= spans@.len(),
            in_order(text@.len(), spans@),
            all == parts(text@, spans@),
            all == lines(after_line(below)),
            below == after_line(source@),
            leading(head_line(source@), 0xff) == Some(VERSION as nat),
            leading(head_line(below), 0xff) == Some(declared as nat),
            scores@.len() == i,
            records_of(all.take(i as int)) == Some(scores@),
        decreases spans@.len() - i,
    {
        proof {
            assert(all.take(i + 1).drop_last() =~= all.take(i as int));
            assert(all.take(i + 1).last() == part(text@, spans@[i as int]));
        }
        match parse_record(&text, spans[i]) {
            Some(score) => {
                scores.push(score);
            },
            None => {
                proof {
                    lemma_records_of_prefix(all, i + 1);
                }
                return Err(ScoreError::Malformed);
            },
        }
        i += 1;
    }
    assert(all.take(i as int) =~= all);
    if declared != scores.len() as u64 {
        return Err(ScoreError::Count { declared: declared as u8, parsed: scores.len() });
    }
    Ok(scores)
}

/// The text of the score file that holds `scores`; `None` if there are no
/// scores, for which no file is written.
pub fn save_scores(scores: &Vec<Score>) -> (r: Option<String>)
    ensures
        match r {
            Some(text) => scores@.len() > 0 && text@ == format_scores(scores@),
            None => scores@.len() == 0,
        },
{
    if scores.len() == 0 {
        return None;
    }
    proof {
        reveal_strlit(" ");
        reveal_strlit("\n");
    }
    let mut text = String::new();
    append_decimal(&mut text, VERSION as u64);
    text.append("\n");
    append_decimal(&mut text, scores.len() as u64);
    text.append("\n");
    let ghost head = text@;
    let mut i: usize = 0;
    assert(scores@.take(0) =~= Seq::<Score>::empty());
    assert(text@ =~= head + record_lines(scores@.take(0)));
    while i < scores.len()
        invariant
            i <= scores@.len(),
            text@ == head + record_lines(scores@.take(i as int)),
            " "@ == seq![' '],
            "\n"@ == seq!['\n'],
        decreases scores@.len() - i,
    {
        let s = scores[i];
        let ghost before = text@;
        proof {
            assert(scores@.take(i + 1).drop_last() =~= scores@.take(i as int));
        }
        append_decimal(&mut text, s.level as u64);
        text.append(" ");
        append_decimal(&mut text, s.pushes as u64);
        text.append(" ");
        append_decimal(&mut text, s.moves as u64);
        text.append(" ");
        append_decimal(&mut text, s.time_s as u64);
        text.append("\n");
        proof {
            assert(text@ =~= before + record_line(s));
            assert(text@ =~= head + record_lines(scores@.take(i + 1)));
        }
        i += 1;
    }
    assert(scores@.take(i as int) =~= scores@);
    assert(text@ =~= format_scores(scores@));
    Some(text)
}

/// The line of a record holds that record.
pub proof fn lemma_record_round_trip(score: Score)
    ensures
        record_of(record_text(score)) == Some(score),
        unbroken(record_text(score), Sep::Line),
        chomp(record_text(score)) == record_text(score),
{
    let a = decimal(score.level as nat);
    let b = decimal(score.pushes as nat);
    let c = decimal(score.moves as nat);
    let d = decimal(score.time_s as nat);
    let text = record_text(score);
    lemma_decimal_digits(score.level as nat);
    lemma_decimal_digits(score.pushes as nat);
    lemma_decimal_digits(score.moves as nat);
    lemma_decimal_digits(score.time_s as nat);
    lemma_number_of_decimal(score.level as nat, 0xffff);
    lemma_number_of_decimal(score.pushes as nat, 0xffff);
    lemma_number_of_decimal(score.moves as nat, 0xffff);
    lemma_number_of_decimal(score.time_s as nat, 0xffff_ffff);
    let from_seconds = d;
    let from_moves = c + seq![' '] + from_seconds;
    let from_pushes = b + seq![' '] + from_moves;
    assert(text =~= a + seq![' '] + from_pushes);
    lemma_split_first(a, ' ', from_pushes, Sep::Blank);
    lemma_split_first(b, ' ', from_moves, Sep::Blank);
    lemma_split_first(c, ' ', from_seconds, Sep::Blank);
    lemma_split_unbroken(d, Sep::Blank);
    let fields = split(text, Sep::Blank);
    assert(fields =~= seq![a, b, c, d]);
    assert forall|i: int| 0 <= i < text.len() implies !is_sep(#[trigger] text[i], Sep::Line) by {
        if i < a.len() {
            assert(text[i] == a[i]);
        } else if i == a.len() {
        } else if i < a.len() + 1 + b.len() {
            assert(text[i] == b[i - a.len() - 1]);
        } else if i == a.len() + 1 + b.len() {
        } else if i < a.len() + 1 + b.len() + 1 + c.len() {
            assert(text[i] == c[i - a.len() - 1 - b.len() - 1]);
        } else if i == a.len() + 1 + b.len() + 1 + c.len() {
        } else {
            assert(text[i] == d[i - a.len() - 1 - b.len() - 1 - c.len() - 1]);
        }
    }
    assert(text.last() == d.last());
}

/// The lines that hold records hold those records.
pub proof fn lemma_records_round_trip(scores: Seq<Score>)
    ensures
        ended(record_lines(scores)),
        records_of(lines(record_lines(scores))) == Some(scores),
    decreases scores.len(),
{
    if scores.len() == 0 {
        assert(lines(record_lines(scores)) =~= Seq::<Seq<char>>::empty());
    } else {
        let before = scores.drop_last();
        let last = scores.last();
        lemma_records_round_trip(before);
        lemma_record_round_trip(last);
        lemma_lines_append(record_lines(before), record_line(last));
        lemma_lines_first(record_text(last), Seq::<char>::empty());
        assert(record_line(last) =~= record_text(last) + seq!['\n'] + Seq::<char>::empty());
        assert(lines(Seq::<char>::empty()) =~= Seq::<Seq<char>>::empty());
        let all = lines(record_lines(scores));
        assert(all =~= lines(record_lines(before)).push(record_text(last)));
        assert(all.drop_last() =~= lines(record_lines(before)));
        assert(before.push(last) =~= scores);
    }
}

/// A score file that is written and loaded again holds the records that
/// were written, in their order. This holds of up to 255 records, which is
/// as many as the file's count can say; no file is written for none.
pub proof fn law_scores_round_trip(scores: Seq<Score>)
    requires
        0 < scores.len() <= 255,
    ensures
        parse_scores(format_scores(scores)) == Ok::<Seq<Score>, ScoreError>(scores),
{
    let version = decimal(VERSION as nat);
    let declared = decimal(scores.len());
    let body = record_lines(scores);
    let below = declared + seq!['\n'] + body;
    let text = format_scores(scores);
    assert(text =~= version + seq!['\n'] + below);
    lemma_decimal_digits(VERSION as nat);
    lemma_decimal_digits(scores.len());
    lemma_lines_first(version, below);
    lemma_lines_first(declared, body);
    lemma_split_unbroken(version, Sep::Blank);
    lemma_split_unbroken(declared, Sep::Blank);
    lemma_number_of_decimal(VERSION as nat, 0xff);
    lemma_number_of_decimal(scores.len(), 0xff);
    lemma_records_round_trip(scores);
}

} // verus!
