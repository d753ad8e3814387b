//! Lines and columns: where in the input an offset lies.

use vstd::prelude::*;
use crate::lexical::LINE_FEED;

verus! {

/// A place in the input, as an editor shows it. Lines and columns count
/// from 1; a column counts bytes.
#[derive(Clone, Copy, Debug, PartialEq, Eq, Structural)]
pub struct Position {
    pub line: usize,
    pub column: usize,
}

/// How many line feeds stand among the first `n` bytes of `s`.
pub open spec fn line_feeds(s: Seq<u8>, n: int) -> int
    decreases n,
{
    if n <= 0 {
        0
    } else if s[n - 1] == LINE_FEED {
        line_feeds(s, n - 1) + 1
    } else {
        line_feeds(s, n - 1)
    }
}

/// The offset at which the line starts that the offset `n` lies in: behind
/// the last line feed before `n`, or at the start of the input.
pub open spec fn line_start(s: Seq<u8>, n: int) -> int
    decreases n,
{
    if n <= 0 {
        0
    } else if s[n - 1] == LINE_FEED {
        n
    } else {
        line_start(s, n - 1)
    }
}

/// The line and the column of the offset `offset`.
pub fn locate(input: &[u8], offset: usize) -> (r: Position)
    requires
        offset <= input@.len(),
        offset < usize::MAX,
    ensures
        r.line == line_feeds(input@, offset as int) + 1,
        r.column == offset - line_start(input@, offset as int) + 1,
{
    let mut line: usize = 1;
    let mut start: usize = 0;
    let mut i: usize = 0;
    while i < offset
        invariant
            i <= offset <= input@.len(),
            offset < usize::MAX,
            line == line_feeds(input@, i as int) + 1,
            start == line_start(input@, i as int),
            line <= i + 1,
            start <= i,
        decreases offset - i,
    {
        if input[i] == LINE_FEED {
            line = line + 1;
            start = i + 1;
        }
        i = i + 1;
    }
    Position { line, column: offset - start + 1 }
}

impl Position {
    /// The place of the first byte of an input.
    pub fn start() -> (r: Position)
        ensures
            r == (Position { line: 1, column: 1 }),
    {
        Position { line: 1, column: 1 }
    }

    /// The line of the place that lies `n` bytes of `s` behind this one.
    pub open spec fn line_behind(self, s: Seq<u8>, n: int) -> int {
        self.line + line_feeds(s, n)
    }

    /// The column of the place that lies `n` bytes of `s` behind this one:
    /// counted on from this column where no line feed is among the bytes,
    /// else from the last line feed among them.
    pub open spec fn column_behind(self, s: Seq<u8>, n: int) -> int {
        if line_feeds(s, n) == 0 {
            self.column + n
        } else {
            n - line_start(s, n) + 1
        }
    }

    /// The place that lies `n` bytes of `bytes` behind this one, or nothing
    /// where its line or its column is too great a number.
    pub fn moved(&self, bytes: &[u8], n: usize) -> (r: Option<Position>)
        requires
            n <= bytes@.len(),
        ensures
            match r {
                Some(p) => p.line == self.line_behind(bytes@, n as int) && p.column
                    == self.column_behind(bytes@, n as int),
                None => self.line_behind(bytes@, n as int) > usize::MAX || self.column_behind(
                    bytes@,
                    n as int,
                ) > usize::MAX,
            },
    {
        let mut feeds: usize = 0;
        let mut start: usize = 0;
        let mut i: usize = 0;
        while i < n
            invariant
                i <= n <= bytes@.len(),
                feeds == line_feeds(bytes@, i as int),
                start == line_start(bytes@, i as int),
                feeds <= i,
                start <= i,
                feeds > 0 ==> start > 0,
            decreases n - i,
        {
            if bytes[i] == LINE_FEED {
                feeds = feeds + 1;
                start = i + 1;
            }
            i = i + 1;
        }
        let line: Option<usize> = self.line.checked_add(feeds);
        let column: Option<usize> = if feeds == 0 {
            self.column.checked_add(n)
        } else {
            Some(n - start + 1)
        };
        match (line, column) {
            (Some(line), Some(column)) => Some(Position { line, column }),
            _ => None,
        }
    }
}

/// Line feeds are counted alike in an input and in every input that goes on
/// from it, and so are the starts of lines.
pub proof fn lemma_lines_extend(s: Seq<u8>, x: Seq<u8>, n: int)
    requires
        n <= s.len(),
    ensures
        line_feeds(s + x, n) == line_feeds(s, n),
        line_start(s + x, n) == line_start(s, n),
    decreases n,
{
    if n > 0 {
        lemma_lines_extend(s, x, n - 1);
    }
}

/// Line feeds add up over two pieces of an input, and a line that starts in
/// the second piece starts where it starts in that piece.
pub proof fn lemma_lines_add_up(a: Seq<u8>, b: Seq<u8>, n: int)
    requires
        0 <= n <= b.len(),
    ensures
        line_feeds(a + b, a.len() + n) == line_feeds(a, a.len() as int) + line_feeds(b, n),
        line_start(a + b, a.len() + n) == if line_feeds(b, n) == 0 {
            line_start(a, a.len() as int)
        } else {
            a.len() + line_start(b, n)
        },
    decreases n,
{
    if n > 0 {
        lemma_lines_add_up(a, b, n - 1);
        lemma_line_start_bounds(b, n - 1);
        assert((a + b)[a.len() + n - 1] == b[n - 1]);
    } else {
        lemma_lines_extend(a, b, a.len() as int);
    }
}

/// Moving on piece by piece leads where the whole input leads: the place
/// `n` bytes into the second of two pieces, told from the place `mid` at the
/// end of the first, is the place told from the start of the first.
pub proof fn theorem_places_compose(
    from: Position,
    mid: Position,
    a: Seq<u8>,
    b: Seq<u8>,
    n: int,
)
    requires
        0 <= n <= b.len(),
        mid.line == from.line_behind(a, a.len() as int),
        mid.column == from.column_behind(a, a.len() as int),
    ensures
        mid.line_behind(b, n) == from.line_behind(a + b, a.len() + n),
        mid.column_behind(b, n) == from.column_behind(a + b, a.len() + n),
{
    lemma_lines_add_up(a, b, n);
    lemma_line_start_bounds(a, a.len() as int);
    lemma_line_start_bounds(b, n);
}

/// A line starts at or before the offset that lies in it, and behind a line
/// feed if there is one before that offset.
pub proof fn lemma_line_start_bounds(s: Seq<u8>, n: int)
    requires
        0 <= n <= s.len(),
    ensures
        0 <= line_start(s, n) <= n,
        0 <= line_feeds(s, n) <= n,
        line_feeds(s, n) == 0 <==> line_start(s, n) == 0,
    decreases n,
{
    if n > 0 {
        lemma_line_start_bounds(s, n - 1);
    }
}

} // verus!
