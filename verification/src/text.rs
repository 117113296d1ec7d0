//! Text as a sequence of characters: pieces between separators, lines, and
//! decimal numbers.

use vstd::prelude::*;
use vstd::string::*;

verus! {

/// What parts a text: the line feed, or any white space.
#[derive(Clone, Copy, PartialEq, Eq, Debug, Structural)]
pub enum Sep {
    Line,
    Blank,
}

/// Whether `c` is white space as Unicode has it (`White_Space`).
pub open spec fn white(c: char) -> bool {
    let u = c as u32;
    ||| 0x09 <= u <= 0x0d
    ||| u == 0x20
    ||| u == 0x85
    ||| u == 0xa0
    ||| u == 0x1680
    ||| 0x2000 <= u <= 0x200a
    ||| u == 0x2028
    ||| u == 0x2029
    ||| u == 0x202f
    ||| u == 0x205f
    ||| u == 0x3000
}

/// Whether `c` is a separator of kind `sep`.
pub open spec fn is_sep(c: char, sep: Sep) -> bool {
    match sep {
        Sep::Line => c == '\n',
        Sep::Blank => white(c),
    }
}

/// The length of the longest prefix of `s` that holds no separator.
pub open spec fn run(s: Seq<char>, sep: Sep) -> nat
    decreases s.len(),
{
    if s.len() == 0 || is_sep(s[0], sep) {
        0
    } else {
        1 + run(s.skip(1), sep)
    }
}

/// The pieces of `s` between separators, empty ones included. A text
/// without separators is one piece, so there is always at least one.
pub open spec fn split(s: Seq<char>, sep: Sep) -> Seq<Seq<char>>
    decreases s.len(),
{
    let n = run(s, sep);
    if n >= s.len() {
        seq![s]
    } else {
        seq![s.take(n as int)] + split(s.skip(n as int + 1), sep)
    }
}

/// `line` without one carriage return at its end.
pub open spec fn chomp(line: Seq<char>) -> Seq<char> {
    if line.len() > 0 && line.last() == '\r' {
        line.drop_last()
    } else {
        line
    }
}

/// The lines of `s`. Each ends at a line feed, which is dropped together
/// with one carriage return before it; what follows the last line feed is a
/// line of its own unless it is empty.
pub open spec fn lines(s: Seq<char>) -> Seq<Seq<char>>
    decreases s.len(),
{
    let n = run(s, Sep::Line);
    if s.len() == 0 {
        seq![]
    } else if n >= s.len() {
        seq![s]
    } else {
        seq![chomp(s.take(n as int))] + lines(s.skip(n as int + 1))
    }
}

/// The first line of `s`, without its line feed.
pub open spec fn head_line(s: Seq<char>) -> Seq<char> {
    s.take(run(s, Sep::Line) as int)
}

/// What follows the first line feed of `s`; empty if there is none.
pub open spec fn after_line(s: Seq<char>) -> Seq<char> {
    let n = run(s, Sep::Line);
    if n >= s.len() {
        seq![]
    } else {
        s.skip(n as int + 1)
    }
}

/// A run ends within the text.
pub proof fn lemma_run_bounds(s: Seq<char>, sep: Sep)
    ensures
        run(s, sep) <= s.len(),
    decreases s.len(),
{
    if !(s.len() == 0 || is_sep(s[0], sep)) {
        lemma_run_bounds(s.skip(1), sep);
    }
}

/// The place of the first separator determines the run.
pub proof fn lemma_run_is(s: Seq<char>, sep: Sep, n: int)
    requires
        0 <= n <= s.len(),
        forall|i: int| 0 <= i < n ==> !is_sep(#[trigger] s[i], sep),
        n == s.len() || is_sep(s[n], sep),
    ensures
        run(s, sep) == n,
    decreases n,
{
    if n > 0 {
        let t = s.skip(1);
        assert forall|i: int| 0 <= i < n - 1 implies !is_sep(#[trigger] t[i], sep) by {
            assert(t[i] == s[i + 1]);
        }
        lemma_run_is(t, sep, n - 1);
    }
}

/// No separator stands inside a run, and one stands at its end unless the
/// text ends there.
pub proof fn lemma_run_holds(s: Seq<char>, sep: Sep)
    ensures
        forall|i: int| 0 <= i < run(s, sep) ==> !is_sep(#[trigger] s[i], sep),
        run(s, sep) < s.len() ==> is_sep(s[run(s, sep) as int], sep),
    decreases s.len(),
{
    lemma_run_bounds(s, sep);
    if !(s.len() == 0 || is_sep(s[0], sep)) {
        let t = s.skip(1);
        lemma_run_holds(t, sep);
        lemma_run_bounds(t, sep);
        assert forall|i: int| 0 <= i < run(s, sep) implies !is_sep(#[trigger] s[i], sep) by {
            if i > 0 {
                assert(s[i] == t[i - 1]);
            }
        }
        if run(s, sep) < s.len() {
            assert(s[run(s, sep) as int] == t[run(t, sep) as int]);
        }
    }
}

/// The characters of `s`, one by one.
pub fn chars_of(s: &str) -> (v: Vec<char>)
    ensures
        v@ == s@,
{
    let mut v: Vec<char> = Vec::new();
    for c in it: s.chars()
        invariant
            v@ == it.seq().take(it.index() as int),
            it.seq() == s@,
    {
        v.push(c);
    }
    v
}

/// Whether `c` is white space.
pub fn is_white(c: char) -> (r: bool)
    ensures
        r == white(c),
{
    let u = c as u32;
    (0x09 <= u && u <= 0x0d) || u == 0x20 || u == 0x85 || u == 0xa0 || u == 0x1680 || (0x2000 <= u
        && u <= 0x200a) || u == 0x2028 || u == 0x2029 || u == 0x202f || u == 0x205f || u
        == 0x3000
}

/// Whether `c` is a separator of kind `sep`.
pub fn separates(c: char, sep: Sep) -> (r: bool)
    ensures
        r == is_sep(c, sep),
{
    match sep {
        Sep::Line => c == '\n',
        Sep::Blank => is_white(c),
    }
}

/// The place of the first separator in `text[from..to]`, or `to` if there
/// is none.
pub fn find_sep(text: &Vec<char>, from: usize, to: usize, sep: Sep) -> (at: usize)
    requires
        from <= to <= text@.len(),
    ensures
        from <= at <= to,
        at - from == run(text@.subrange(from as int, to as int), sep),
{
    let ghost part = text@.subrange(from as int, to as int);
    let mut at: usize = from;
    while at < to && !separates(text[at], sep)
        invariant
            from <= at <= to <= text@.len(),
            part == text@.subrange(from as int, to as int),
            forall|i: int| 0 <= i < at - from ==> !is_sep(#[trigger] part[i], sep),
        decreases to - at,
    {
        at += 1;
    }
    proof {
        lemma_run_is(part, sep, at - from);
    }
    at
}

/// A stretch of a text: the place of its first character and the place after
/// its last.
#[derive(Clone, Copy, PartialEq, Eq, Debug, Structural)]
pub struct Span {
    pub start: usize,
    pub end: usize,
}

/// The characters of `text` that `sp` covers.
pub open spec fn part(text: Seq<char>, sp: Span) -> Seq<char> {
    text.subrange(sp.start as int, sp.end as int)
}

/// The stretches of `text` that `spans` cover, in order.
pub open spec fn parts(text: Seq<char>, spans: Seq<Span>) -> Seq<Seq<char>> {
    Seq::new(spans.len(), |i: int| part(text, spans[i]))
}

/// Whether the spans lie within a text of `len` characters, one after the
/// other.
pub open spec fn in_order(len: nat, spans: Seq<Span>) -> bool {
    &&& forall|i: int|
        0 <= i < spans.len() ==> (#[trigger] spans[i]).start <= spans[i].end <= len
    &&& forall|i: int, j: int|
        0 <= i < j < spans.len() ==> (#[trigger] spans[i]).end <= (#[trigger] spans[j]).start
}

/// Where the lines of `text` from place `from` on stand in it.
pub fn line_spans(text: &Vec<char>, from: usize) -> (spans: Vec<Span>)
    requires
        from <= text@.len(),
    ensures
        in_order(text@.len(), spans@),
        parts(text@, spans@) == lines(text@.skip(from as int)),
{
    let len = text.len();
    let mut spans: Vec<Span> = Vec::new();
    let mut pos: usize = from;
    assert(parts(text@, spans@) =~= Seq::<Seq<char>>::empty());
    assert(parts(text@, spans@) + lines(text@.skip(from as int)) =~= lines(
        text@.skip(from as int),
    ));
    while pos < len
        invariant
            len == text@.len(),
            from <= pos <= len,
            in_order(len as nat, spans@),
            forall|i: int| 0 <= i < spans@.len() ==> (#[trigger] spans@[i]).end <= pos,
            lines(text@.skip(from as int)) == parts(text@, spans@) + lines(text@.skip(pos as int)),
        decreases len - pos,
    {
        let ghost rest = text@.skip(pos as int);
        let ghost before = parts(text@, spans@);
        assert(rest =~= text@.subrange(pos as int, len as int));
        let at = find_sep(text, pos, len, Sep::Line);
        if at == len {
            spans.push(Span { start: pos, end: len });
            proof {
                assert(lines(rest) == seq![rest]);
                assert(lines(text@.skip(len as int)) =~= Seq::<Seq<char>>::empty());
                assert(parts(text@, spans@) =~= before + seq![rest]);
                assert(parts(text@, spans@) + lines(text@.skip(len as int)) =~= before + lines(
                    rest,
                ));
            }
            pos = len;
        } else {
            let end = if at > pos && text[at - 1] == '\r' {
                at - 1
            } else {
                at
            };
            spans.push(Span { start: pos, end });
            proof {
                let n = (at - pos) as int;
                assert(rest.take(n) =~= text@.subrange(pos as int, at as int));
                assert(chomp(rest.take(n)) =~= text@.subrange(pos as int, end as int));
                assert(rest.skip(n + 1) =~= text@.skip(at + 1));
                assert(lines(rest) == seq![chomp(rest.take(n))] + lines(rest.skip(n + 1)));
                assert(parts(text@, spans@) =~= before + seq![chomp(rest.take(n))]);
                assert(parts(text@, spans@) + lines(text@.skip(at + 1)) =~= before + lines(rest));
            }
            pos = at + 1;
        }
    }
    assert(lines(text@.skip(len as int)) =~= Seq::<Seq<char>>::empty());
    assert(parts(text@, spans@) + Seq::<Seq<char>>::empty() =~= parts(text@, spans@));
    spans
}

/// Whether `c` is one of the ten digits.
pub open spec fn is_digit(c: char) -> bool {
    0x30 <= c as u32 <= 0x39
}

/// The digit that `c` writes; 0 for any other character.
pub open spec fn digit_of(c: char) -> nat {
    if is_digit(c) {
        (c as u32 - 0x30) as nat
    } else {
        0
    }
}

/// The character that writes digit `d`.
pub open spec fn digit_char(d: nat) -> char {
    if d == 0 {
        '0'
    } else if d == 1 {
        '1'
    } else if d == 2 {
        '2'
    } else if d == 3 {
        '3'
    } else if d == 4 {
        '4'
    } else if d == 5 {
        '5'
    } else if d == 6 {
        '6'
    } else if d == 7 {
        '7'
    } else if d == 8 {
        '8'
    } else {
        '9'
    }
}

/// Whether `s` holds digits only.
pub open spec fn all_digits(s: Seq<char>) -> bool {
    forall|i: int| 0 <= i < s.len() ==> is_digit(#[trigger] s[i])
}

/// The number that the digits of `s` write in base ten.
pub open spec fn digits_value(s: Seq<char>) -> nat
    decreases s.len(),
{
    if s.len() == 0 {
        0
    } else {
        digits_value(s.drop_last()) * 10 + digit_of(s.last())
    }
}

/// `s` without a plus sign at its front.
pub open spec fn unsigned(s: Seq<char>) -> Seq<char> {
    if s.len() > 0 && s[0] == '+' {
        s.skip(1)
    } else {
        s
    }
}

/// The number that `s` writes, if it is one and no larger than `max`: an
/// optional plus sign, then at least one digit and nothing else.
pub open spec fn number(s: Seq<char>, max: nat) -> Option<nat> {
    let body = unsigned(s);
    if body.len() > 0 && all_digits(body) && digits_value(body) <= max {
        Some(digits_value(body))
    } else {
        None
    }
}

/// `n` written in base ten, without leading zeros.
pub open spec fn decimal(n: nat) -> Seq<char>
    decreases n,
{
    if n < 10 {
        seq![digit_char(n)]
    } else {
        decimal(n / 10).push(digit_char(n % 10))
    }
}

/// `k` zeros.
pub open spec fn zeros(k: nat) -> Seq<char> {
    Seq::new(k, |i: int| '0')
}

/// `n` written in base ten, with zeros in front up to `width` characters.
pub open spec fn padded(n: nat, width: nat) -> Seq<char> {
    if decimal(n).len() >= width {
        decimal(n)
    } else {
        zeros((width - decimal(n).len()) as nat) + decimal(n)
    }
}

/// More digits never write a smaller number.
pub proof fn lemma_digits_value_prefix(s: Seq<char>, k: int)
    requires
        0 <= k <= s.len(),
    ensures
        digits_value(s.take(k)) <= digits_value(s),
    decreases s.len(),
{
    if k == s.len() {
        assert(s.take(k) =~= s);
    } else {
        assert(s.drop_last().take(k) =~= s.take(k));
        lemma_digits_value_prefix(s.drop_last(), k);
    }
}

/// The number that `text[from..to]` writes, if it is one and no larger than
/// `max`.
pub fn parse_number(text: &Vec<char>, from: usize, to: usize, max: u64) -> (r: Option<u64>)
    requires
        from <= to <= text@.len(),
    ensures
        match r {
            Some(v) => number(text@.subrange(from as int, to as int), max as nat) == Some(
                v as nat,
            ),
            None => number(text@.subrange(from as int, to as int), max as nat) is None,
        },
{
    let ghost word = text@.subrange(from as int, to as int);
    let first: usize = if from < to && text[from] == '+' {
        from + 1
    } else {
        from
    };
    let ghost body = text@.subrange(first as int, to as int);
    assert(body =~= unsigned(word));
    if first == to {
        return None;
    }
    let mut v: u64 = 0;
    let mut i: usize = first;
    assert(body.take(0) =~= Seq::<char>::empty());
    while i < to
        invariant
            from <= first <= i <= to <= text@.len(),
            first < to,
            word == text@.subrange(from as int, to as int),
            body == text@.subrange(first as int, to as int),
            body == unsigned(word),
            all_digits(body.take(i - first)),
            v == digits_value(body.take(i - first)),
            v <= max,
        decreases to - i,
    {
        let c = text[i];
        let u = c as u32;
        let ghost k = i - first;
        assert(body[k] == c);
        if u < 0x30 || u > 0x39 {
            assert(!is_digit(body[k]));
            return None;
        }
        let d: u64 = (u - 0x30) as u64;
        proof {
            assert(body.take(k + 1).drop_last() =~= body.take(k));
            assert(body.take(k + 1).last() == c);
            assert(digits_value(body.take(k + 1)) == v * 10 + d);
            lemma_digits_value_prefix(body, k + 1);
        }
        if v > max / 10 {
            return None;
        }
        let t = v * 10;
        if d > max - t {
            return None;
        }
        v = t + d;
        i += 1;
        assert(all_digits(body.take(i - first))) by {
            assert forall|j: int| 0 <= j < i - first implies is_digit(
                #[trigger] body.take(i - first)[j],
            ) by {
                if j < k {
                    assert(body.take(k)[j] == body[j]);
                }
            }
        }
    }
    assert(body.take(i - first) =~= body);
    Some(v)
}

/// The text of one digit.
fn digit_str(d: u64) -> (s: &'static str)
    requires
        d < 10,
    ensures
        s@ == seq![digit_char(d as nat)],
{
    proof {
        reveal_strlit("0");
        reveal_strlit("1");
        reveal_strlit("2");
        reveal_strlit("3");
        reveal_strlit("4");
        reveal_strlit("5");
        reveal_strlit("6");
        reveal_strlit("7");
        reveal_strlit("8");
        reveal_strlit("9");
    }
    let s = if d == 0 {
        "0"
    } else if d == 1 {
        "1"
    } else if d == 2 {
        "2"
    } else if d == 3 {
        "3"
    } else if d == 4 {
        "4"
    } else if d == 5 {
        "5"
    } else if d == 6 {
        "6"
    } else if d == 7 {
        "7"
    } else if d == 8 {
        "8"
    } else {
        "9"
    };
    assert(s@ =~= seq![digit_char(d as nat)]);
    s
}

/// Writes `n` in base ten at the end of `out`.
pub fn append_decimal(out: &mut String, n: u64)
    ensures
        final(out)@ == old(out)@ + decimal(n as nat),
    decreases n,
{
    if n >= 10 {
        append_decimal(out, n / 10);
    }
    out.append(digit_str(n % 10));
    assert(out@ =~= old(out)@ + decimal(n as nat));
}

/// The number of digits of `n` in base ten.
pub fn decimal_len(n: u64) -> (k: usize)
    ensures
        k == decimal(n as nat).len(),
        1 <= k <= 20,
    decreases n,
{
    if n >= 10 {
        let k = decimal_len(n / 10);
        assert(k <= 19) by {
            lemma_decimal_len_bound(n as nat);
        }
        k + 1
    } else {
        1
    }
}

/// A number below ten to the `k` has at most `k` digits; so a number of 64
/// bits has at most twenty.
pub proof fn lemma_decimal_len_bound(n: nat)
    requires
        n <= u64::MAX,
    ensures
        decimal(n).len() <= 20,
        n >= 10 ==> decimal(n / 10).len() <= 19,
{
    reveal_with_fuel(decimal, 21);
}

/// Writes `n` in base ten at the end of `out`, with zeros in front up to
/// `width` characters.
pub fn append_padded(out: &mut String, n: u64, width: usize)
    ensures
        final(out)@ == old(out)@ + padded(n as nat, width as nat),
{
    let k = decimal_len(n);
    let mut i: usize = k;
    while i < width
        invariant
            k <= i,
            i <= width || i == k,
            out@ == old(out)@ + zeros((i - k) as nat),
        decreases width - i,
    {
        proof {
            reveal_strlit("0");
        }
        let ghost mid = out@;
        out.append("0");
        i += 1;
        assert(out@ =~= old(out)@ + zeros((i - k) as nat));
    }
    let ghost mid = out@;
    append_decimal(out, n);
    assert(out@ =~= old(out)@ + padded(n as nat, width as nat));
}

/// Whether `s` holds no separator of kind `sep`.
pub open spec fn unbroken(s: Seq<char>, sep: Sep) -> bool {
    forall|i: int| 0 <= i < s.len() ==> !is_sep(#[trigger] s[i], sep)
}

/// Whether `s` is made of whole lines: it is empty or ends in a line feed.
pub open spec fn ended(s: Seq<char>) -> bool {
    s.len() == 0 || s.last() == '\n'
}

/// A number is written with digits only, and with at least one.
pub proof fn lemma_decimal_digits(n: nat)
    ensures
        decimal(n).len() >= 1,
        all_digits(decimal(n)),
        unbroken(decimal(n), Sep::Line),
        unbroken(decimal(n), Sep::Blank),
        decimal(n).last() != '\r',
        decimal(n)[0] != '+',
    decreases n,
{
    if n >= 10 {
        lemma_decimal_digits(n / 10);
    }
}

/// What a number is written with writes that number.
pub proof fn lemma_decimal_value(n: nat)
    ensures
        digits_value(decimal(n)) == n,
    decreases n,
{
    if n >= 10 {
        lemma_decimal_value(n / 10);
        assert(decimal(n).drop_last() =~= decimal(n / 10));
        assert(decimal(n).last() == digit_char(n % 10));
    } else {
        assert(decimal(n).drop_last() =~= Seq::<char>::empty());
        assert(digits_value(Seq::<char>::empty()) == 0);
        assert(decimal(n).last() == digit_char(n));
    }
}

/// A number that is written and read again is the same number.
pub proof fn lemma_number_of_decimal(n: nat, max: nat)
    requires
        n <= max,
    ensures
        number(decimal(n), max) == Some(n),
{
    lemma_decimal_digits(n);
    lemma_decimal_value(n);
}

/// A text without separators is one piece.
pub proof fn lemma_split_unbroken(s: Seq<char>, sep: Sep)
    requires
        unbroken(s, sep),
    ensures
        run(s, sep) == s.len(),
        split(s, sep) == seq![s],
{
    lemma_run_is(s, sep, s.len() as int);
}

/// A text that starts with an unbroken piece and a separator has that
/// piece as its first, and then the pieces of the rest.
pub proof fn lemma_split_first(a: Seq<char>, c: char, b: Seq<char>, sep: Sep)
    requires
        unbroken(a, sep),
        is_sep(c, sep),
    ensures
        run(a + seq![c] + b, sep) == a.len(),
        split(a + seq![c] + b, sep) == seq![a] + split(b, sep),
{
    let s = a + seq![c] + b;
    assert forall|i: int| 0 <= i < a.len() implies !is_sep(#[trigger] s[i], sep) by {
        assert(s[i] == a[i]);
    }
    assert(s[a.len() as int] == c);
    lemma_run_is(s, sep, a.len() as int);
    assert(s.take(a.len() as int) =~= a);
    assert(s.skip(a.len() as int + 1) =~= b);
}

/// A text that starts with a line and its line feed has that line as its
/// first, and then the lines of the rest.
pub proof fn lemma_lines_first(a: Seq<char>, b: Seq<char>)
    requires
        unbroken(a, Sep::Line),
    ensures
        lines(a + seq!['\n'] + b) == seq![chomp(a)] + lines(b),
        head_line(a + seq!['\n'] + b) == a,
        after_line(a + seq!['\n'] + b) == b,
{
    let s = a + seq!['\n'] + b;
    lemma_split_first(a, '\n', b, Sep::Line);
    assert(s.take(a.len() as int) =~= a);
    assert(s.skip(a.len() as int + 1) =~= b);
}

/// The lines of whole lines and a text after them are the lines of both.
pub proof fn lemma_lines_append(x: Seq<char>, y: Seq<char>)
    requires
        ended(x),
    ensures
        lines(x + y) == lines(x) + lines(y),
    decreases x.len(),
{
    if x.len() == 0 {
        assert(x + y =~= y);
        assert(lines(x) + lines(y) =~= lines(y));
    } else {
        let n = run(x, Sep::Line);
        lemma_run_bounds(x, Sep::Line);
        lemma_run_holds(x, Sep::Line);
        if n == x.len() {
            assert(!is_sep(x[x.len() - 1], Sep::Line));
        }
        let a = x.take(n as int);
        let rest = x.skip(n as int + 1);
        assert(x =~= a + seq!['\n'] + rest);
        assert(x + y =~= a + seq!['\n'] + (rest + y));
        assert forall|i: int| 0 <= i < a.len() implies !is_sep(#[trigger] a[i], Sep::Line) by {
            assert(a[i] == x[i]);
        }
        lemma_lines_first(a, rest);
        lemma_lines_first(a, rest + y);
        if rest.len() > 0 {
            assert(rest.last() == x.last());
        }
        lemma_lines_append(rest, y);
        assert(seq![chomp(a)] + (lines(rest) + lines(y)) =~= (seq![chomp(a)] + lines(rest))
            + lines(y));
    }
}

} // verus!
