//! Levels: what a level file says, and the boards it describes.

use vstd::prelude::*;
use crate::cell::Cell;
use crate::grid::{
    count, count_row, lemma_row_count_tail, marked, rect, row_count, Grid, Mark,
};
use crate::text::{chars_of, in_order, line_spans, lines, part, parts, Span};

verus! {

/// One level as the file gives it: the board before the first move, and
/// where the player starts.
#[derive(Debug, PartialEq, Eq)]
pub struct Level {
    /// The number of crates on the board.
    pub crates: usize,
    /// The number of squares in a row.
    pub w: usize,
    /// The number of rows.
    pub h: usize,
    /// The board before the first move.
    pub map: Grid,
    /// The number of crates that stand on a target before the first move.
    pub stored: usize,
    /// The column in which the player starts.
    pub px: usize,
    /// The row in which the player starts.
    pub py: usize,
}

/// The view of a level: what the contracts speak of.
pub struct LevelView {
    pub crates: nat,
    pub w: nat,
    pub h: nat,
    pub map: Seq<Seq<Cell>>,
    pub stored: nat,
    pub px: nat,
    pub py: nat,
}

impl View for Level {
    type V = LevelView;

    open spec fn view(&self) -> LevelView {
        LevelView {
            crates: self.crates as nat,
            w: self.w as nat,
            h: self.h as nat,
            map: self.map@,
            stored: self.stored as nat,
            px: self.px as nat,
            py: self.py as nat,
        }
    }
}

impl LevelView {
    /// What holds of every level that was loaded: the board is a rectangle,
    /// the player starts on a free square of it, there are as many crates
    /// as targets, the counts are those of the board, and the sizes are
    /// such as a machine can hold.
    pub open spec fn wf(self) -> bool {
        &&& self.w <= usize::MAX
        &&& self.h <= usize::MAX
        &&& self.crates <= usize::MAX
        &&& rect(self.map, self.w as int, self.h as int)
        &&& self.px < self.w
        &&& self.py < self.h
        &&& self.map[self.py as int][self.px as int].free()
        &&& self.crates == count(self.map, Mark::Crate)
        &&& self.crates == count(self.map, Mark::Target)
        &&& self.stored == count(self.map, Mark::Stored)
    }
}

/// The views of a list of levels.
pub open spec fn level_views(levels: Seq<Level>) -> Seq<LevelView> {
    Seq::new(levels.len(), |i: int| levels[i]@)
}

/// Why a level file was turned down. Levels are numbered from 1.
#[derive(Clone, Copy, PartialEq, Eq, Debug, Structural)]
pub enum LevelError {
    /// A character that stands for nothing.
    Invalid { level: usize, element: char },
    /// A second player in one level.
    Duplicate { level: usize },
    /// Not as many crates as targets.
    Mismatch { level: usize, crates: usize, targets: usize },
    /// No player.
    Missing { level: usize },
}

/// What is wrong with one character of a level.
#[derive(Clone, Copy, PartialEq, Eq, Debug, Structural)]
pub enum Fault {
    /// It stands for nothing.
    Invalid(char),
    /// It is a second player.
    Duplicate,
}

/// Whether `line` is a comment.
pub open spec fn is_comment(line: Seq<char>) -> bool {
    line.len() > 0 && line[0] == ';'
}

/// The lines that are no comments, in order.
pub open spec fn rows(lines: Seq<Seq<char>>) -> Seq<Seq<char>>
    decreases lines.len(),
{
    if lines.len() == 0 {
        seq![]
    } else if is_comment(lines.last()) {
        rows(lines.drop_last())
    } else {
        rows(lines.drop_last()).push(lines.last())
    }
}

/// The number of rows at the front of `rows` that are not empty.
pub open spec fn stretch(rows: Seq<Seq<char>>) -> nat
    decreases rows.len(),
{
    if rows.len() == 0 || rows[0].len() == 0 {
        0
    } else {
        1 + stretch(rows.skip(1))
    }
}

/// The blocks of `rows`: the longest stretches of rows that are not empty.
pub open spec fn blocks(rows: Seq<Seq<char>>) -> Seq<Seq<Seq<char>>>
    decreases rows.len(),
    via blocks_shrink
{
    if rows.len() == 0 {
        seq![]
    } else if rows[0].len() == 0 {
        blocks(rows.skip(1))
    } else {
        let n = stretch(rows);
        seq![rows.take(n as int)] + blocks(rows.skip(n as int))
    }
}

#[via_fn]
proof fn blocks_shrink(rows: Seq<Seq<char>>) {
    lemma_stretch_bounds(rows);
}

/// A stretch ends within the rows.
pub proof fn lemma_stretch_bounds(rows: Seq<Seq<char>>)
    ensures
        stretch(rows) <= rows.len(),
    decreases rows.len(),
{
    if !(rows.len() == 0 || rows[0].len() == 0) {
        lemma_stretch_bounds(rows.skip(1));
    }
}

/// The square that `c` stands for, if it stands for one.
pub open spec fn cell_of(c: char) -> Option<Cell> {
    if c == ' ' || c == '@' {
        Some(Cell::Empty)
    } else if c == '.' || c == '&' {
        Some(Cell::Target)
    } else if c == '$' {
        Some(Cell::Crate)
    } else if c == '*' {
        Some(Cell::CrateOnTarget)
    } else if c == '#' {
        Some(Cell::Wall)
    } else {
        None
    }
}

/// Whether `c` marks the player's start.
pub open spec fn is_player(c: char) -> bool {
    c == '@' || c == '&'
}

/// The number of player marks in `row`.
pub open spec fn marks(row: Seq<char>) -> nat
    decreases row.len(),
{
    if row.len() == 0 {
        0
    } else {
        marks(row.drop_last()) + if is_player(row.last()) {
            1nat
        } else {
            0nat
        }
    }
}

/// The number of player marks in `block`.
pub open spec fn block_marks(block: Seq<Seq<char>>) -> nat
    decreases block.len(),
{
    if block.len() == 0 {
        0
    } else {
        block_marks(block.drop_last()) + marks(block.last())
    }
}

/// What is wrong with character `c`; `seen` says whether a player mark
/// precedes it.
pub open spec fn fault_of(c: char, seen: bool) -> Option<Fault> {
    if cell_of(c) is None {
        Some(Fault::Invalid(c))
    } else if is_player(c) && seen {
        Some(Fault::Duplicate)
    } else {
        None
    }
}

/// The first fault of `row`, read from the left; `seen` says whether a
/// player mark precedes the row.
pub open spec fn row_fault(row: Seq<char>, seen: bool) -> Option<Fault>
    decreases row.len(),
{
    if row.len() == 0 {
        None
    } else {
        match row_fault(row.drop_last(), seen) {
            Some(f) => Some(f),
            None => fault_of(row.last(), seen || marks(row.drop_last()) > 0),
        }
    }
}

/// The first fault of `block`, read row by row.
pub open spec fn block_fault(block: Seq<Seq<char>>) -> Option<Fault>
    decreases block.len(),
{
    if block.len() == 0 {
        None
    } else {
        match block_fault(block.drop_last()) {
            Some(f) => Some(f),
            None => row_fault(block.last(), block_marks(block.drop_last()) > 0),
        }
    }
}

/// The length of the longest row of `block`.
pub open spec fn width(block: Seq<Seq<char>>) -> nat
    decreases block.len(),
{
    if block.len() == 0 {
        0
    } else if block.last().len() > width(block.drop_last()) {
        block.last().len()
    } else {
        width(block.drop_last())
    }
}

/// The square in column `x` of `row`: what the character there stands for,
/// and an empty square to the right of a short row.
pub open spec fn square(row: Seq<char>, x: int) -> Cell {
    if 0 <= x < row.len() {
        match cell_of(row[x]) {
            Some(c) => c,
            None => Cell::Empty,
        }
    } else {
        Cell::Empty
    }
}

/// The board that `block` describes: as many rows, each as wide as the
/// longest.
pub open spec fn board(block: Seq<Seq<char>>) -> Seq<Seq<Cell>> {
    Seq::new(block.len(), |y: int| Seq::new(width(block), |x: int| square(block[y], x)))
}

/// The place of the first player mark in `row`; its length if it has none.
pub open spec fn mark_col(row: Seq<char>) -> nat
    decreases row.len(),
{
    if row.len() == 0 || is_player(row[0]) {
        0
    } else {
        1 + mark_col(row.skip(1))
    }
}

/// The first row of `block` that holds a player mark; the number of rows if
/// none does.
pub open spec fn mark_row(block: Seq<Seq<char>>) -> nat
    decreases block.len(),
{
    if block.len() == 0 || marks(block[0]) > 0 {
        0
    } else {
        1 + mark_row(block.skip(1))
    }
}

/// The level that `block` describes, or what is wrong with it. `number` is
/// the level's place in the file, counted from 1. The first fault in
/// reading order decides; a block without one must have as many crates as
/// targets, and then a player.
pub open spec fn level_of(block: Seq<Seq<char>>, number: nat) -> Result<LevelView, LevelError> {
    let map = board(block);
    let crates = count(map, Mark::Crate);
    let targets = count(map, Mark::Target);
    match block_fault(block) {
        Some(Fault::Invalid(c)) => Err(LevelError::Invalid { level: number as usize, element: c }),
        Some(Fault::Duplicate) => Err(LevelError::Duplicate { level: number as usize }),
        None => if crates != targets {
            Err(
                LevelError::Mismatch {
                    level: number as usize,
                    crates: crates as usize,
                    targets: targets as usize,
                },
            )
        } else if block_marks(block) == 0 {
            Err(LevelError::Missing { level: number as usize })
        } else {
            Ok(
                LevelView {
                    crates,
                    w: width(block),
                    h: block.len(),
                    map,
                    stored: count(map, Mark::Stored),
                    px: mark_col(block[mark_row(block) as int]),
                    py: mark_row(block),
                },
            )
        },
    }
}

/// The levels that `blocks` describe, in order, or what is wrong with the
/// first block that describes none.
pub open spec fn levels_of(blocks: Seq<Seq<Seq<char>>>) -> Result<Seq<LevelView>, LevelError>
    decreases blocks.len(),
{
    if blocks.len() == 0 {
        Ok(seq![])
    } else {
        match levels_of(blocks.drop_last()) {
            Err(e) => Err(e),
            Ok(done) => match level_of(blocks.last(), blocks.len()) {
                Err(e) => Err(e),
                Ok(level) => Ok(done.push(level)),
            },
        }
    }
}

/// The levels that a level file describes. Comment lines are dropped
/// first; empty lines then part the blocks, one level each.
pub open spec fn parse_levels(source: Seq<char>) -> Result<Seq<LevelView>, LevelError> {
    levels_of(blocks(rows(lines(source))))
}

/// The given stretches of `rows`, in order.
pub open spec fn cut(rows: Seq<Seq<char>>, ranges: Seq<Span>) -> Seq<Seq<Seq<char>>> {
    Seq::new(ranges.len(), |k: int| rows.subrange(ranges[k].start as int, ranges[k].end as int))
}

/// The place of the first empty row determines the stretch.
pub proof fn lemma_stretch_is(rows: Seq<Seq<char>>, n: int)
    requires
        0 <= n <= rows.len(),
        forall|i: int| 0 <= i < n ==> (#[trigger] rows[i]).len() > 0,
        n == rows.len() || rows[n].len() == 0,
    ensures
        stretch(rows) == n,
    decreases n,
{
    if n > 0 {
        let t = rows.skip(1);
        assert forall|i: int| 0 <= i < n - 1 implies (#[trigger] t[i]).len() > 0 by {
            assert(t[i] == rows[i + 1]);
        }
        lemma_stretch_is(t, n - 1);
    }
}

/// The spans of the lines that are no comments.
fn drop_comments(text: &Vec<char>, spans: &Vec<Span>) -> (kept: Vec<Span>)
    requires
        in_order(text@.len(), spans@),
    ensures
        in_order(text@.len(), kept@),
        parts(text@, kept@) == rows(parts(text@, spans@)),
{
    let mut kept: Vec<Span> = Vec::new();
    let mut i: usize = 0;
    assert(parts(text@, spans@.take(0)) =~= Seq::<Seq<char>>::empty());
    assert(parts(text@, kept@) =~= Seq::<Seq<char>>::empty());
    while i < spans.len()
        invariant
            i <= spans@.len(),
            in_order(text@.len(), spans@),
            in_order(text@.len(), kept@),
            forall|j: int, k: int|
                0 <= j < kept@.len() && i <= k < spans@.len() ==> (#[trigger] kept@[j]).end <= (
                #[trigger] spans@[k]).start,
            parts(text@, kept@) == rows(parts(text@, spans@.take(i as int))),
        decreases spans@.len() - i,
    {
        let sp = spans[i];
        let ghost before = parts(text@, spans@.take(i as int));
        let ghost line = part(text@, sp);
        let ghost old_kept = kept@;
        proof {
            let next = parts(text@, spans@.take(i + 1));
            assert(next =~= before.push(line));
            assert(next.drop_last() =~= before);
            assert(next.last() == line);
        }
        if sp.start < sp.end && text[sp.start] == ';' {
            assert(line[0] == text@[sp.start as int]);
            assert(is_comment(line));
        } else {
            if sp.start < sp.end {
                assert(line[0] == text@[sp.start as int]);
            }
            assert(!is_comment(line));
            kept.push(sp);
            assert(parts(text@, kept@) =~= parts(text@, old_kept).push(line));
        }
        i += 1;
    }
    assert(spans@.take(i as int) =~= spans@);
    kept
}

/// Where the blocks stand among the rows.
fn block_ranges(text: &Vec<char>, kept: &Vec<Span>) -> (ranges: Vec<Span>)
    requires
        in_order(text@.len(), kept@),
    ensures
        cut(parts(text@, kept@), ranges@) == blocks(parts(text@, kept@)),
        forall|k: int|
            0 <= k < ranges@.len() ==> (#[trigger] ranges@[k]).start < ranges@[k].end
                <= kept@.len(),
{
    let ghost all = parts(text@, kept@);
    let mut ranges: Vec<Span> = Vec::new();
    let mut i: usize = 0;
    assert(all.skip(0) =~= all);
    assert(cut(all, ranges@) =~= Seq::<Seq<Seq<char>>>::empty());
    while i < kept.len()
        invariant
            i <= kept@.len(),
            all == parts(text@, kept@),
            in_order(text@.len(), kept@),
            forall|k: int|
                0 <= k < ranges@.len() ==> (#[trigger] ranges@[k]).start < ranges@[k].end
                    <= kept@.len(),
            blocks(all) == cut(all, ranges@) + blocks(all.skip(i as int)),
        decreases kept@.len() - i,
    {
        let ghost rest = all.skip(i as int);
        let ghost before = cut(all, ranges@);
        assert(rest[0] == all[i as int]);
        if kept[i].start == kept[i].end {
            assert(rest[0].len() == 0);
            assert(rest.skip(1) =~= all.skip(i + 1));
            i += 1;
        } else {
            let mut j: usize = i + 1;
            while j < kept.len() && kept[j].start < kept[j].end
                invariant
                    i < j <= kept@.len(),
                    all == parts(text@, kept@),
                    in_order(text@.len(), kept@),
                    rest == all.skip(i as int),
                    forall|k: int| 0 <= k < j - i ==> (#[trigger] rest[k]).len() > 0,
                decreases kept@.len() - j,
            {
                assert(rest[j - i] == all[j as int]);
                assert(all[j as int].len() == kept@[j as int].end - kept@[j as int].start);
                j += 1;
            }
            proof {
                if j < kept@.len() {
                    assert(rest[j - i] == all[j as int]);
                }
                lemma_stretch_is(rest, j - i);
                assert(rest.take(j - i) =~= all.subrange(i as int, j as int));
                assert(rest.skip(j - i) =~= all.skip(j as int));
            }
            ranges.push(Span { start: i, end: j });
            proof {
                assert(cut(all, ranges@) =~= before.push(all.subrange(i as int, j as int)));
                assert(cut(all, ranges@) + blocks(all.skip(j as int)) =~= before + blocks(rest));
            }
            i = j;
        }
    }
    assert(all.skip(i as int) =~= Seq::<Seq<char>>::empty());
    assert(cut(all, ranges@) + Seq::<Seq<Seq<char>>>::empty() =~= cut(all, ranges@));
    ranges
}

/// A fault in the first characters of a row is the row's first fault.
pub proof fn lemma_row_fault_prefix(row: Seq<char>, k: int, seen: bool)
    requires
        0 <= k <= row.len(),
        row_fault(row.take(k), seen) is Some,
    ensures
        row_fault(row, seen) == row_fault(row.take(k), seen),
    decreases row.len(),
{
    if k == row.len() {
        assert(row.take(k) =~= row);
    } else {
        assert(row.drop_last().take(k) =~= row.take(k));
        lemma_row_fault_prefix(row.drop_last(), k, seen);
    }
}

/// A fault in the first rows of a block is the block's first fault.
pub proof fn lemma_block_fault_prefix(block: Seq<Seq<char>>, k: int)
    requires
        0 <= k <= block.len(),
        block_fault(block.take(k)) is Some,
    ensures
        block_fault(block) == block_fault(block.take(k)),
    decreases block.len(),
{
    if k == block.len() {
        assert(block.take(k) =~= block);
    } else {
        assert(block.drop_last().take(k) =~= block.take(k));
        lemma_block_fault_prefix(block.drop_last(), k);
    }
}

/// What is wrong with the first blocks is wrong with the file.
pub proof fn lemma_levels_of_prefix(blocks: Seq<Seq<Seq<char>>>, k: int)
    requires
        0 <= k <= blocks.len(),
        levels_of(blocks.take(k)) is Err,
    ensures
        levels_of(blocks) == levels_of(blocks.take(k)),
    decreases blocks.len(),
{
    if k == blocks.len() {
        assert(blocks.take(k) =~= blocks);
    } else {
        assert(blocks.drop_last().take(k) =~= blocks.take(k));
        lemma_levels_of_prefix(blocks.drop_last(), k);
    }
}

/// The place of the first player mark determines `mark_col`.
pub proof fn lemma_mark_col_is(row: Seq<char>, x: int)
    requires
        0 <= x <= row.len(),
        forall|i: int| 0 <= i < x ==> !is_player(#[trigger] row[i]),
        x == row.len() || is_player(row[x]),
    ensures
        mark_col(row) == x,
    decreases x,
{
    if x > 0 {
        let t = row.skip(1);
        assert forall|i: int| 0 <= i < x - 1 implies !is_player(#[trigger] t[i]) by {
            assert(t[i] == row[i + 1]);
        }
        lemma_mark_col_is(t, x - 1);
    }
}

/// The first row with a player mark determines `mark_row`.
pub proof fn lemma_mark_row_is(block: Seq<Seq<char>>, y: int)
    requires
        0 <= y <= block.len(),
        forall|i: int| 0 <= i < y ==> marks(#[trigger] block[i]) == 0,
        y == block.len() || marks(block[y]) > 0,
    ensures
        mark_row(block) == y,
    decreases y,
{
    if y > 0 {
        let t = block.skip(1);
        assert forall|i: int| 0 <= i < y - 1 implies marks(#[trigger] t[i]) == 0 by {
            assert(t[i] == block[i + 1]);
        }
        lemma_mark_row_is(t, y - 1);
    }
}

/// No row of a block is longer than the block is wide.
pub proof fn lemma_width_covers(block: Seq<Seq<char>>, y: int)
    requires
        0 <= y < block.len(),
    ensures
        block[y].len() <= width(block),
    decreases block.len(),
{
    if y < block.len() - 1 {
        lemma_width_covers(block.drop_last(), y);
    }
}

/// The square that `c` stands for, if it stands for one.
pub fn to_cell(c: char) -> (r: Option<Cell>)
    ensures
        r == cell_of(c),
{
    if c == ' ' || c == '@' {
        Some(Cell::Empty)
    } else if c == '.' || c == '&' {
        Some(Cell::Target)
    } else if c == '$' {
        Some(Cell::Crate)
    } else if c == '*' {
        Some(Cell::CrateOnTarget)
    } else if c == '#' {
        Some(Cell::Wall)
    } else {
        None
    }
}

/// The squares of one row, `w` wide, and the place of the player's mark in
/// it if it has one; or the row's first fault.
fn parse_row(text: &Vec<char>, sp: Span, w: usize, seen: bool) -> (r: Result<
    (Vec<Cell>, Option<usize>),
    Fault,
>)
    requires
        sp.start <= sp.end <= text@.len(),
        sp.end - sp.start <= w,
    ensures
        match r {
            Err(f) => row_fault(part(text@, sp), seen) == Some(f),
            Ok((row, col)) => {
                &&& row_fault(part(text@, sp), seen) is None
                &&& row@ == Seq::new(w as nat, |x: int| square(part(text@, sp), x))
                &&& seen ==> col is None
                &&& match col {
                    Some(x) => {
                        &&& marks(part(text@, sp)) == 1
                        &&& x == mark_col(part(text@, sp))
                        &&& x < sp.end - sp.start
                        &&& is_player(part(text@, sp)[x as int])
                    },
                    None => marks(part(text@, sp)) == 0,
                }
            },
        },
{
    let ghost line = part(text@, sp);
    let len = sp.end - sp.start;
    let mut row: Vec<Cell> = vec![Cell::Empty; w];
    let mut col: Option<usize> = None;
    let mut c: usize = 0;
    assert(line.take(0) =~= Seq::<char>::empty());
    while c < len
        invariant
            sp.start <= sp.end <= text@.len(),
            len == sp.end - sp.start,
            len <= w,
            c <= len,
            line == part(text@, sp),
            row@.len() == w,
            forall|x: int| 0 <= x < c ==> #[trigger] row@[x] == square(line, x),
            forall|x: int| c <= x < w ==> #[trigger] row@[x] == Cell::Empty,
            row_fault(line.take(c as int), seen) is None,
            seen ==> col is None,
            match col {
                Some(x) => {
                    &&& marks(line.take(c as int)) == 1
                    &&& x < c
                    &&& is_player(line[x as int])
                    &&& forall|i: int| 0 <= i < x ==> !is_player(#[trigger] line[i])
                },
                None => {
                    &&& marks(line.take(c as int)) == 0
                    &&& forall|i: int| 0 <= i < c ==> !is_player(#[trigger] line[i])
                },
            },
        decreases len - c,
    {
        let ch = text[sp.start + c];
        proof {
            assert(line[c as int] == ch);
            assert(line.take(c + 1).drop_last() =~= line.take(c as int));
            assert(line.take(c + 1).last() == ch);
        }
        let player = ch == '@' || ch == '&';
        match to_cell(ch) {
            None => {
                proof {
                    lemma_row_fault_prefix(line, c + 1, seen);
                }
                return Err(Fault::Invalid(ch));
            },
            Some(cell) => {
                if player {
                    if seen || col.is_some() {
                        proof {
                            lemma_row_fault_prefix(line, c + 1, seen);
                        }
                        return Err(Fault::Duplicate);
                    }
                    col = Some(c);
                }
                row.set(c, cell);
            },
        }
        c += 1;
    }
    proof {
        assert(line.take(c as int) =~= line);
        match col {
            Some(x) => {
                lemma_mark_col_is(line, x as int);
            },
            None => {},
        }
        assert(row@ =~= Seq::new(w as nat, |x: int| square(line, x)));
    }
    Ok((row, col))
}

/// The level that rows `a..b` of the file describe, or what is wrong with
/// them.
fn parse_block(text: &Vec<char>, kept: &Vec<Span>, a: usize, b: usize, number: usize) -> (r:
    Result<Level, LevelError>)
    requires
        in_order(text@.len(), kept@),
        a < b <= kept@.len(),
    ensures
        match r {
            Ok(level) => level_of(parts(text@, kept@).subrange(a as int, b as int), number as nat)
                == Ok::<LevelView, LevelError>(level@) && level@.wf(),
            Err(e) => level_of(parts(text@, kept@).subrange(a as int, b as int), number as nat)
                == Err::<LevelView, LevelError>(e),
        },
{
    let ghost block = parts(text@, kept@).subrange(a as int, b as int);
    let mut w: usize = 0;
    let mut r: usize = a;
    assert(block.take(0) =~= Seq::<Seq<char>>::empty());
    while r < b
        invariant
            in_order(text@.len(), kept@),
            a <= r <= b <= kept@.len(),
            block == parts(text@, kept@).subrange(a as int, b as int),
            w == width(block.take(r - a)),
        decreases b - r,
    {
        let len = kept[r].end - kept[r].start;
        proof {
            assert(block.take(r - a + 1).drop_last() =~= block.take(r - a));
            assert(block.take(r - a + 1).last() == part(text@, kept@[r as int]));
        }
        if len > w {
            w = len;
        }
        r += 1;
    }
    assert(block.take(b - a) =~= block);

    let mut map = Grid::new();
    let mut crates: usize = 0;
    let mut targets: usize = 0;
    let mut stored: usize = 0;
    let mut limit: usize = 0;
    let mut found: Option<(usize, usize)> = None;
    r = a;
    assert(board(block).take(0) =~= Seq::<Seq<Cell>>::empty());
    while r < b
        invariant
            in_order(text@.len(), kept@),
            a <= r <= b <= kept@.len(),
            block == parts(text@, kept@).subrange(a as int, b as int),
            w == width(block),
            map@ == board(block).take(r - a),
            crates == count(map@, Mark::Crate),
            targets == count(map@, Mark::Target),
            stored == count(map@, Mark::Stored),
            crates <= limit,
            targets <= limit,
            stored <= limit,
            limit <= text@.len(),
            r < b ==> limit <= kept@[r as int].start,
            block_fault(block.take(r - a)) is None,
            match found {
                Some((x, y)) => {
                    &&& block_marks(block.take(r - a)) > 0
                    &&& y < r - a
                    &&& marks(block[y as int]) > 0
                    &&& x == mark_col(block[y as int])
                    &&& x < block[y as int].len()
                    &&& is_player(block[y as int][x as int])
                    &&& forall|i: int| 0 <= i < y ==> marks(#[trigger] block[i]) == 0
                },
                None => {
                    &&& block_marks(block.take(r - a)) == 0
                    &&& forall|i: int| 0 <= i < r - a ==> marks(#[trigger] block[i]) == 0
                },
            },
        decreases b - r,
    {
        let sp = kept[r];
        let ghost k = r - a;
        let ghost line = part(text@, sp);
        let ghost above = map@;
        proof {
            assert(block[k] == line);
            assert(block.take(k + 1).drop_last() =~= block.take(k));
            assert(block.take(k + 1).last() == line);
            lemma_width_covers(block, k);
        }
        match parse_row(text, sp, w, found.is_some()) {
            Err(f) => {
                proof {
                    lemma_block_fault_prefix(block, k + 1);
                }
                match f {
                    Fault::Invalid(c) => {
                        return Err(LevelError::Invalid { level: number, element: c });
                    },
                    Fault::Duplicate => {
                        return Err(LevelError::Duplicate { level: number });
                    },
                }
            },
            Ok((row, col)) => {
                proof {
                    assert(row@ =~= board(block)[k]);
                    assert forall|x: int| sp.end - sp.start <= x < row@.len() implies row@[x]
                        == Cell::Empty by {}
                    lemma_row_count_tail(row@, sp.end - sp.start, Mark::Crate);
                    lemma_row_count_tail(row@, sp.end - sp.start, Mark::Target);
                    lemma_row_count_tail(row@, sp.end - sp.start, Mark::Stored);
                }
                let row_crates = count_row(&row, Mark::Crate);
                let row_targets = count_row(&row, Mark::Target);
                let row_stored = count_row(&row, Mark::Stored);
                crates = crates + row_crates;
                targets = targets + row_targets;
                stored = stored + row_stored;
                limit = sp.end;
                match col {
                    Some(x) => {
                        found = Some((x, r - a));
                    },
                    None => {},
                }
                map.push_row(row);
                proof {
                    assert(map@ =~= board(block).take(k + 1));
                    assert(map@.drop_last() =~= above);
                }
            },
        }
        r += 1;
    }
    proof {
        assert(block.take(b - a) =~= block);
        assert(board(block).take(b - a) =~= board(block));
    }
    if crates != targets {
        return Err(LevelError::Mismatch { level: number, crates, targets });
    }
    match found {
        None => Err(LevelError::Missing { level: number }),
        Some((px, py)) => {
            proof {
                lemma_mark_row_is(block, py as int);
                lemma_width_covers(block, py as int);
            }
            Ok(Level { crates, w, h: b - a, map, stored, px, py })
        },
    }
}

/// Loads the levels that the text of a level file describes.
///
/// Lines that start with `;` are dropped. Empty lines part the rest into
/// blocks, one level each, numbered from 1. In a block a space is an empty
/// square, `.` a target, `$` a crate, `*` a crate on a target, `#` a wall,
/// `@` the player and `&` the player on a target; rows shorter than the
/// longest are filled up with empty squares. The first block that holds
/// another character, a second player, not as many crates as targets, or no
/// player, has the whole file turned down.
pub fn load_levels(source: &str) -> (r: Result<Vec<Level>, LevelError>)
    ensures
        match r {
            Ok(levels) => {
                &&& parse_levels(source@) == Ok::<Seq<LevelView>, LevelError>(level_views(levels@))
                &&& forall|i: int| 0 <= i < levels@.len() ==> (#[trigger] levels@[i])@.wf()
            },
            Err(e) => parse_levels(source@) == Err::<Seq<LevelView>, LevelError>(e),
        },
{
    let text = chars_of(source);
    let spans = line_spans(&text, 0);
    assert(text@.skip(0) =~= text@);
    let kept = drop_comments(&text, &spans);
    let ranges = block_ranges(&text, &kept);
    let ghost all = blocks(rows(lines(source@)));
    let mut levels: Vec<Level> = Vec::new();
    let mut k: usize = 0;
    assert(all.take(0) =~= Seq::<Seq<Seq<char>>>::empty());
    assert(level_views(levels@) =~= Seq::<LevelView>::empty());
    while k < ranges.len()
        invariant
            k <= ranges@.len(),
            in_order(text@.len(), kept@),
            all == blocks(rows(lines(source@))),
            all == cut(parts(text@, kept@), ranges@),
            forall|i: int|
                0 <= i < ranges@.len() ==> (#[trigger] ranges@[i]).start < ranges@[i].end
                    <= kept@.len(),
            levels@.len() == k,
            levels_of(all.take(k as int)) == Ok::<Seq<LevelView>, LevelError>(
                level_views(levels@),
            ),
            forall|i: int| 0 <= i < levels@.len() ==> (#[trigger] levels@[i])@.wf(),
        decreases ranges@.len() - k,
    {
        let range = ranges[k];
        let ghost done = level_views(levels@);
        proof {
            assert(all.take(k + 1).drop_last() =~= all.take(k as int));
            assert(all.take(k + 1).last() == parts(text@, kept@).subrange(
                range.start as int,
                range.end as int,
            ));
        }
        match parse_block(&text, &kept, range.start, range.end, k + 1) {
            Err(e) => {
                proof {
                    lemma_levels_of_prefix(all, k + 1);
                }
                return Err(e);
            },
            Ok(level) => {
                levels.push(level);
                assert(level_views(levels@) =~= done.push(level@));
            },
        }
        k += 1;
    }
    assert(all.take(k as int) =~= all);
    Ok(levels)
}

/// Whether `c` stands for a square that carries mark `m`: a crate is
/// written `$` or `*`, a target `.`, `&` or `*`, a crate on a target `*`.
pub open spec fn char_marked(c: char, m: Mark) -> bool {
    match m {
        Mark::Crate => c == '$' || c == '*',
        Mark::Target => c == '.' || c == '&' || c == '*',
        Mark::Stored => c == '*',
    }
}

/// The number of characters of `row` that stand for a square with mark
/// `m`.
pub open spec fn row_chars(row: Seq<char>, m: Mark) -> nat
    decreases row.len(),
{
    if row.len() == 0 {
        0
    } else {
        row_chars(row.drop_last(), m) + if char_marked(row.last(), m) {
            1nat
        } else {
            0nat
        }
    }
}

/// The number of characters of `block` that stand for a square with mark
/// `m`.
pub open spec fn block_chars(block: Seq<Seq<char>>, m: Mark) -> nat
    decreases block.len(),
{
    if block.len() == 0 {
        0
    } else {
        block_chars(block.drop_last(), m) + row_chars(block.last(), m)
    }
}

/// The squares of `row`, filled up to `w`.
pub open spec fn filled(row: Seq<char>, w: nat) -> Seq<Cell> {
    Seq::new(w, |x: int| square(row, x))
}

/// A row that is filled up carries the marks that its characters stand
/// for.
pub proof fn lemma_filled_row_count(row: Seq<char>, w: nat, m: Mark)
    requires
        row.len() <= w,
    ensures
        row_count(filled(row, w), m) == row_chars(row, m),
    decreases w,
{
    if w > 0 {
        let cells = filled(row, w);
        if row.len() < w {
            assert(cells.drop_last() =~= filled(row, (w - 1) as nat));
            lemma_filled_row_count(row, (w - 1) as nat, m);
        } else {
            assert(cells.drop_last() =~= filled(row.drop_last(), (w - 1) as nat));
            lemma_filled_row_count(row.drop_last(), (w - 1) as nat, m);
            assert(marked(cells.last(), m) == char_marked(row.last(), m));
        }
    }
}

/// Rows that are filled up to one width carry the marks that their
/// characters stand for.
pub proof fn lemma_filled_rows_count(block: Seq<Seq<char>>, w: nat, m: Mark)
    requires
        forall|y: int| 0 <= y < block.len() ==> (#[trigger] block[y]).len() <= w,
    ensures
        count(Seq::new(block.len(), |y: int| filled(block[y], w)), m) == block_chars(block, m),
    decreases block.len(),
{
    if block.len() > 0 {
        let cells = Seq::new(block.len(), |y: int| filled(block[y], w));
        let above = block.drop_last();
        assert(cells.drop_last() =~= Seq::new(above.len(), |y: int| filled(above[y], w)));
        lemma_filled_rows_count(above, w, m);
        lemma_filled_row_count(block.last(), w, m);
    }
}

/// The board of a block holds as many crates, targets and stored crates as
/// the block holds characters that stand for them. So a level that was
/// loaded has as many crates as the `$` and `*` of its block, which is as
/// many as its `.`, `&` and `*`, and as many stored crates as its `*`.
pub proof fn law_counts_are_of_characters(block: Seq<Seq<char>>, number: nat, m: Mark)
    ensures
        count(board(block), m) == block_chars(block, m),
        level_of(block, number) matches Ok(level) ==> {
            &&& level.crates == block_chars(block, Mark::Crate)
            &&& level.crates == block_chars(block, Mark::Target)
            &&& level.stored == block_chars(block, Mark::Stored)
        },
        block_fault(block) is None && block_chars(block, Mark::Crate) != block_chars(
            block,
            Mark::Target,
        ) ==> level_of(block, number) == Err::<LevelView, LevelError>(
            LevelError::Mismatch {
                level: number as usize,
                crates: block_chars(block, Mark::Crate) as usize,
                targets: block_chars(block, Mark::Target) as usize,
            },
        ),
{
    assert forall|y: int| 0 <= y < block.len() implies (#[trigger] block[y]).len() <= width(
        block,
    ) by {
        lemma_width_covers(block, y);
    }
    lemma_filled_rows_count(block, width(block), Mark::Crate);
    lemma_filled_rows_count(block, width(block), Mark::Target);
    lemma_filled_rows_count(block, width(block), Mark::Stored);
    assert(board(block) =~= Seq::new(block.len(), |y: int| filled(block[y], width(block))));
}

} // verus!
