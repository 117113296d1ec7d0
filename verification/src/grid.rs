//! The board: a rectangle of squares, and how many of them carry a mark.

use vstd::prelude::*;
use crate::cell::Cell;

verus! {

/// What a square may carry and the engine counts over a whole board.
#[derive(Clone, Copy, PartialEq, Eq, Debug, Structural)]
pub enum Mark {
    /// A crate stands on the square.
    Crate,
    /// The square is a target.
    Target,
    /// A crate stands on a target.
    Stored,
}

/// Whether square `c` carries mark `m`.
pub open spec fn marked(c: Cell, m: Mark) -> bool {
    match m {
        Mark::Crate => c.holds_crate(),
        Mark::Target => c.target(),
        Mark::Stored => c == Cell::CrateOnTarget,
    }
}

/// 1 if square `c` carries mark `m`, else 0.
pub open spec fn weight(c: Cell, m: Mark) -> nat {
    if marked(c, m) {
        1
    } else {
        0
    }
}

/// The number of squares of `row` that carry mark `m`.
pub open spec fn row_count(row: Seq<Cell>, m: Mark) -> nat
    decreases row.len(),
{
    if row.len() == 0 {
        0
    } else {
        row_count(row.drop_last(), m) + weight(row.last(), m)
    }
}

/// The number of squares of board `b` that carry mark `m`.
pub open spec fn count(b: Seq<Seq<Cell>>, m: Mark) -> nat
    decreases b.len(),
{
    if b.len() == 0 {
        0
    } else {
        count(b.drop_last(), m) + row_count(b.last(), m)
    }
}

/// Whether board `b` has `h` rows of `w` squares each.
pub open spec fn rect(b: Seq<Seq<Cell>>, w: int, h: int) -> bool {
    &&& b.len() == h
    &&& forall|y: int| 0 <= y < h ==> (#[trigger] b[y]).len() == w
}

/// Whether `(x, y)` names a square of a board `w` wide and `h` high.
pub open spec fn inside(x: int, y: int, w: int, h: int) -> bool {
    0 <= x < w && 0 <= y < h
}

/// Board `b` with square `(x, y)` replaced by `c`.
pub open spec fn put(b: Seq<Seq<Cell>>, x: int, y: int, c: Cell) -> Seq<Seq<Cell>> {
    b.update(y, b[y].update(x, c))
}

/// A row holds no more marks than squares.
pub proof fn lemma_row_count_bound(row: Seq<Cell>, m: Mark)
    ensures
        row_count(row, m) <= row.len(),
    decreases row.len(),
{
    if row.len() > 0 {
        lemma_row_count_bound(row.drop_last(), m);
    }
}

/// Replacing one square changes the count of a row by the difference of the
/// two squares' weights.
pub proof fn lemma_row_count_update(row: Seq<Cell>, x: int, c: Cell, m: Mark)
    requires
        0 <= x < row.len(),
    ensures
        row_count(row.update(x, c), m) + weight(row[x], m) == row_count(row, m) + weight(c, m),
    decreases row.len(),
{
    let after = row.update(x, c);
    if x == row.len() - 1 {
        assert(after.drop_last() =~= row.drop_last());
    } else {
        assert(after.drop_last() =~= row.drop_last().update(x, c));
        lemma_row_count_update(row.drop_last(), x, c, m);
    }
}

/// Replacing one row changes the count of a board by the difference of the
/// two rows' counts.
pub proof fn lemma_count_update(b: Seq<Seq<Cell>>, y: int, row: Seq<Cell>, m: Mark)
    requires
        0 <= y < b.len(),
    ensures
        count(b.update(y, row), m) + row_count(b[y], m) == count(b, m) + row_count(row, m),
    decreases b.len(),
{
    let after = b.update(y, row);
    if y == b.len() - 1 {
        assert(after.drop_last() =~= b.drop_last());
    } else {
        assert(after.drop_last() =~= b.drop_last().update(y, row));
        lemma_count_update(b.drop_last(), y, row, m);
    }
}

/// Replacing one square changes the count of a board by the difference of
/// the two squares' weights.
pub proof fn lemma_count_put(b: Seq<Seq<Cell>>, x: int, y: int, c: Cell, m: Mark)
    requires
        0 <= y < b.len(),
        0 <= x < b[y].len(),
    ensures
        count(put(b, x, y, c), m) + weight(b[y][x], m) == count(b, m) + weight(c, m),
{
    lemma_row_count_update(b[y], x, c, m);
    lemma_count_update(b, y, b[y].update(x, c), m);
}

/// A board holds no fewer marks than any one of its rows.
pub proof fn lemma_count_covers_row(b: Seq<Seq<Cell>>, y: int, m: Mark)
    requires
        0 <= y < b.len(),
    ensures
        row_count(b[y], m) <= count(b, m),
    decreases b.len(),
{
    if y < b.len() - 1 {
        lemma_count_covers_row(b.drop_last(), y, m);
    }
}

/// A square that carries a mark is counted.
pub proof fn lemma_count_positive(b: Seq<Seq<Cell>>, x: int, y: int, m: Mark)
    requires
        0 <= y < b.len(),
        0 <= x < b[y].len(),
        marked(b[y][x], m),
    ensures
        count(b, m) >= 1,
{
    lemma_row_count_update(b[y], x, Cell::Empty, m);
    lemma_count_covers_row(b, y, m);
}

/// Every crate on a target is a crate, so the stored count never exceeds
/// the crate count, row by row.
pub proof fn lemma_row_stored_le_crates(row: Seq<Cell>)
    ensures
        row_count(row, Mark::Stored) <= row_count(row, Mark::Crate),
    decreases row.len(),
{
    if row.len() > 0 {
        lemma_row_stored_le_crates(row.drop_last());
    }
}

/// Every crate on a target is a crate, so the stored count never exceeds
/// the crate count.
pub proof fn lemma_stored_le_crates(b: Seq<Seq<Cell>>)
    ensures
        count(b, Mark::Stored) <= count(b, Mark::Crate),
    decreases b.len(),
{
    if b.len() > 0 {
        lemma_stored_le_crates(b.drop_last());
        lemma_row_stored_le_crates(b.last());
    }
}

/// Empty squares at the end of a row carry no mark, so the row holds no
/// more marks than squares before them.
pub proof fn lemma_row_count_tail(row: Seq<Cell>, k: int, m: Mark)
    requires
        0 <= k <= row.len(),
        forall|x: int| k <= x < row.len() ==> row[x] == Cell::Empty,
    ensures
        row_count(row, m) <= k,
    decreases row.len(),
{
    if row.len() > k {
        lemma_row_count_tail(row.drop_last(), k, m);
    } else {
        lemma_row_count_bound(row, m);
    }
}

/// The first rows of a board hold no more marks than the whole board.
pub proof fn lemma_count_prefix(b: Seq<Seq<Cell>>, k: int, m: Mark)
    requires
        0 <= k <= b.len(),
    ensures
        count(b.take(k), m) <= count(b, m),
    decreases b.len(),
{
    if k == b.len() {
        assert(b.take(k) =~= b);
    } else {
        assert(b.drop_last().take(k) =~= b.take(k));
        lemma_count_prefix(b.drop_last(), k, m);
    }
}

/// Whether square `c` carries mark `m`.
pub fn is_marked(c: Cell, m: Mark) -> (r: bool)
    ensures
        r == marked(c, m),
{
    match m {
        Mark::Crate => c.is_crate(),
        Mark::Target => c.is_target(),
        Mark::Stored => c == Cell::CrateOnTarget,
    }
}

/// The number of squares of `row` that carry mark `m`.
pub fn count_row(row: &Vec<Cell>, m: Mark) -> (n: usize)
    ensures
        n == row_count(row@, m),
{
    let mut n: usize = 0;
    let mut x: usize = 0;
    assert(row@.take(0) =~= Seq::<Cell>::empty());
    while x < row.len()
        invariant
            x <= row@.len(),
            n <= x,
            n == row_count(row@.take(x as int), m),
        decreases row@.len() - x,
    {
        assert(row@.take(x + 1).drop_last() =~= row@.take(x as int));
        if is_marked(row[x], m) {
            n += 1;
        }
        x += 1;
    }
    assert(row@.take(x as int) =~= row@);
    n
}

/// The working board: rows from top to bottom, each from left to right.
#[derive(Debug, PartialEq, Eq)]
pub struct Grid {
    pub rows: Vec<Vec<Cell>>,
}

impl View for Grid {
    type V = Seq<Seq<Cell>>;

    open spec fn view(&self) -> Seq<Seq<Cell>> {
        Seq::new(self.rows@.len(), |y: int| self.rows@[y]@)
    }
}

impl Grid {
    /// A board without rows.
    pub fn new() -> (g: Grid)
        ensures
            g@ == Seq::<Seq<Cell>>::empty(),
    {
        let g = Grid { rows: Vec::new() };
        assert(g@ =~= Seq::<Seq<Cell>>::empty());
        g
    }

    /// The square in column `x` of row `y`.
    pub fn get(&self, x: usize, y: usize) -> (c: Cell)
        requires
            y < self@.len(),
            x < self@[y as int].len(),
        ensures
            c == self@[y as int][x as int],
    {
        self.rows[y][x]
    }

    /// Replaces the square in column `x` of row `y`.
    pub fn set(&mut self, x: usize, y: usize, c: Cell)
        requires
            y < old(self)@.len(),
            x < old(self)@[y as int].len(),
        ensures
            final(self)@ == put(old(self)@, x as int, y as int, c),
    {
        self.rows[y][x] = c;
        assert(self@ =~= put(old(self)@, x as int, y as int, c));
    }

    /// Adds `row` below the rows that are there.
    pub fn push_row(&mut self, row: Vec<Cell>)
        ensures
            final(self)@ == old(self)@.push(row@),
    {
        self.rows.push(row);
        assert(self@ =~= old(self)@.push(row@));
    }

    /// The number of squares that carry mark `m`.
    pub fn tally(&self, m: Mark) -> (n: usize)
        requires
            count(self@, m) <= usize::MAX,
        ensures
            n == count(self@, m),
    {
        let mut n: usize = 0;
        let mut y: usize = 0;
        assert(self@.take(0) =~= Seq::<Seq<Cell>>::empty());
        while y < self.rows.len()
            invariant
                y <= self@.len(),
                self@.len() == self.rows@.len(),
                count(self@, m) <= usize::MAX,
                n == count(self@.take(y as int), m),
            decreases self@.len() - y,
        {
            proof {
                assert(self@.take(y + 1).drop_last() =~= self@.take(y as int));
                assert(self@.take(y + 1).last() == self.rows@[y as int]@);
                lemma_count_prefix(self@, y + 1, m);
            }
            let k = count_row(&self.rows[y], m);
            n = n + k;
            y += 1;
        }
        assert(self@.take(y as int) =~= self@);
        n
    }
}

impl Clone for Grid {
    /// A copy that shares no storage with `self`.
    fn clone(&self) -> (g: Grid)
        ensures
            g@ == self@,
    {
        let mut rows: Vec<Vec<Cell>> = Vec::new();
        let mut y: usize = 0;
        while y < self.rows.len()
            invariant
                y <= self.rows@.len(),
                rows@.len() == y,
                forall|i: int| 0 <= i < y ==> (#[trigger] rows@[i])@ == self.rows@[i]@,
            decreases self.rows@.len() - y,
        {
            let row = self.rows[y].clone();
            rows.push(row);
            y += 1;
        }
        let g = Grid { rows };
        assert(g@ =~= self@);
        g
    }
}

} // verus!
