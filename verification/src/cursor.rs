//! The parse context: a shared immutable source buffer, a byte cursor, and
//! line/column counters.
//!
//! Every suspension primitive of the parser receives the context as an
//! explicit `&mut` parameter, scoped to the one step that uses it.  Columns
//! count characters: a UTF-8 continuation byte advances the cursor but not
//! the column.

use vstd::prelude::*;

verus! {

/// A UTF-8 continuation byte: never the first byte of a character.
pub open spec fn is_continuation(c: u8) -> bool {
    0x80 <= c < 0xC0
}

/// The 1-based row of the byte at `pos`: one more than the newlines before it.
pub open spec fn spec_row(src: Seq<u8>, pos: int) -> int
    decreases pos,
{
    if pos <= 0 {
        1
    } else {
        spec_row(src, pos - 1) + if src[pos - 1] == 10u8 {
            1int
        } else {
            0int
        }
    }
}

/// The 1-based column of the byte at `pos`: characters since the last newline.
pub open spec fn spec_col(src: Seq<u8>, pos: int) -> int
    decreases pos,
{
    if pos <= 0 {
        1
    } else if src[pos - 1] == 10u8 {
        1
    } else if is_continuation(src[pos - 1]) {
        spec_col(src, pos - 1)
    } else {
        spec_col(src, pos - 1) + 1
    }
}

pub proof fn lemma_rc_bounds(src: Seq<u8>, pos: int)
    requires
        pos >= 0,
    ensures
        1 <= spec_row(src, pos) <= pos + 1,
        1 <= spec_col(src, pos) <= pos + 1,
    decreases pos,
{
    if pos > 0 {
        lemma_rc_bounds(src, pos - 1);
    }
}

/// The parse context: source text, cursor position, and the row/column of the
/// cursor.  Created once per parse, discarded when parsing ends.
pub struct ParseContext<'a> {
    src: &'a [u8],
    pos: usize,
    row: usize,
    col: usize,
}

impl<'a> ParseContext<'a> {
    /// The whole source buffer.
    pub closed spec fn src(self) -> Seq<u8> {
        self.src@
    }

    /// The cursor: how many bytes have been consumed.
    pub closed spec fn pos(self) -> int {
        self.pos as int
    }

    pub closed spec fn row(self) -> int {
        self.row as int
    }

    pub closed spec fn col(self) -> int {
        self.col as int
    }

    /// The cursor is in bounds and the counters match the consumed prefix.
    pub open spec fn wf(self) -> bool {
        &&& 0 <= self.pos() <= self.src().len()
        &&& self.src().len() < usize::MAX as nat
        &&& self.row() == spec_row(self.src(), self.pos())
        &&& self.col() == spec_col(self.src(), self.pos())
    }

    pub fn new(src: &'a [u8]) -> (r: ParseContext<'a>)
        requires
            src@.len() < usize::MAX as nat,
        ensures
            r.wf(),
            r.src() == src@,
            r.pos() == 0,
            r.row() == 1,
            r.col() == 1,
    {
        ParseContext { src, pos: 0, row: 1, col: 1 }
    }

    /// The next byte, without consuming it; `None` at end of input.
    pub fn peek(&self) -> (r: Option<u8>)
        requires
            self.wf(),
        ensures
            r == if self.pos() < self.src().len() {
                Some(self.src()[self.pos()])
            } else {
                None::<u8>
            },
    {
        if self.pos < self.src.len() {
            Some(self.src[self.pos])
        } else {
            None
        }
    }

    /// Consumes the byte `c` under the cursor, advancing the position and the
    /// row/column counters (a newline starts a new row at column 1).
    pub fn advance(&mut self, c: u8)
        requires
            old(self).wf(),
            old(self).pos() < old(self).src().len(),
            old(self).src()[old(self).pos()] == c,
        ensures
            final(self).wf(),
            final(self).src() == old(self).src(),
            final(self).pos() == old(self).pos() + 1,
    {
        proof {
            lemma_rc_bounds(self.src(), self.pos());
        }
        self.pos = self.pos + 1;
        if c == 10 {
            self.row = self.row + 1;
            self.col = 1;
        } else if 0x80 <= c && c < 0xC0 {
            // continuation byte: same character, same column
        } else {
            self.col = self.col + 1;
        }
    }

    /// The exact substring of the source between two byte offsets: the
    /// zero-copy window that `capture_slice` hands out.
    pub fn slice(&self, start: usize, end: usize) -> (r: &'a [u8])
        requires
            self.wf(),
            0 <= start <= end <= self.src().len(),
        ensures
            r@ == self.src().subrange(start as int, end as int),
    {
        vstd::slice::slice_subrange(self.src, start, end)
    }

    /// The current cursor position, for later slicing.
    pub fn mark(&self) -> (r: usize)
        ensures
            r as int == self.pos(),
    {
        self.pos
    }

    /// The current 1-based row, for error reports.
    pub fn row_number(&self) -> (r: usize)
        ensures
            r as int == self.row(),
    {
        self.row
    }

    /// The current 1-based column, for error reports.
    pub fn col_number(&self) -> (r: usize)
        ensures
            r as int == self.col(),
    {
        self.col
    }
}

/// Consumes and returns the next byte; `None` at end of input.
pub fn read(ctx: &mut ParseContext) -> (r: Option<u8>)
    requires
        old(ctx).wf(),
    ensures
        final(ctx).wf(),
        final(ctx).src() == old(ctx).src(),
        r == if old(ctx).pos() < old(ctx).src().len() {
            Some(old(ctx).src()[old(ctx).pos()])
        } else {
            None::<u8>
        },
        final(ctx).pos() == if old(ctx).pos() < old(ctx).src().len() {
            old(ctx).pos() + 1
        } else {
            old(ctx).pos()
        },
{
    let c = ctx.peek();
    if let Some(c) = c {
        ctx.advance(c);
    }
    c
}

/// The first position at or after `pos` holding a byte that is not ASCII
/// whitespace (or the end of the input).
pub open spec fn spec_skip_ws(src: Seq<u8>, pos: int) -> int
    decreases src.len() - pos,
{
    if pos < 0 || pos >= src.len() {
        pos
    } else if is_ws(src[pos]) {
        spec_skip_ws(src, pos + 1)
    } else {
        pos
    }
}

/// ASCII whitespace.
pub open spec fn is_ws(c: u8) -> bool {
    c == 32 || c == 9 || c == 10 || c == 13 || c == 11 || c == 12
}

pub proof fn lemma_skip_ws_bounds(src: Seq<u8>, pos: int)
    requires
        0 <= pos <= src.len(),
    ensures
        pos <= spec_skip_ws(src, pos) <= src.len(),
        spec_skip_ws(src, pos) < src.len() ==> !is_ws(src[spec_skip_ws(src, pos)]),
    decreases src.len() - pos,
{
    if pos < src.len() && is_ws(src[pos]) {
        lemma_skip_ws_bounds(src, pos + 1);
    }
}

/// Consumes bytes while they are ASCII whitespace.
pub fn skip_whitespace(ctx: &mut ParseContext)
    requires
        old(ctx).wf(),
    ensures
        final(ctx).wf(),
        final(ctx).src() == old(ctx).src(),
        final(ctx).pos() == spec_skip_ws(old(ctx).src(), old(ctx).pos()),
{
    loop
        invariant
            ctx.wf(),
            ctx.src() == old(ctx).src(),
            spec_skip_ws(ctx.src(), ctx.pos()) == spec_skip_ws(old(ctx).src(), old(ctx).pos()),
        decreases ctx.src().len() - ctx.pos(),
    {
        match ctx.peek() {
            Some(c) => {
                if c == 32 || c == 9 || c == 10 || c == 13 || c == 11 || c == 12 {
                    ctx.advance(c);
                } else {
                    return ;
                }
            },
            None => {
                return ;
            },
        }
    }
}

/// Consumes one byte, which must be `expected`; reports a mismatch or end of
/// input as an unrecoverable error carrying the position.
pub fn expect_byte(ctx: &mut ParseContext, expected: u8) -> (r: Result<(), ParseError>)
    requires
        old(ctx).wf(),
    ensures
        final(ctx).wf(),
        final(ctx).src() == old(ctx).src(),
        r is Ok <==> (old(ctx).pos() < old(ctx).src().len() && old(ctx).src()[old(ctx).pos()]
            == expected),
        r is Ok ==> final(ctx).pos() == old(ctx).pos() + 1,
        r is Err ==> final(ctx).pos() == if old(ctx).pos() < old(ctx).src().len() {
            old(ctx).pos() + 1
        } else {
            old(ctx).pos()
        },
{
    let c = read(ctx);
    match c {
        Some(c) if c == expected => Ok(()),
        got => Err(ParseError {
            row: ctx.row_number(),
            col: ctx.col_number(),
            kind: ParseErrorKind::ExpectedByte { expected, got },
        }),
    }
}

/// Consumes the exact byte sequence `expected` (used for the keywords).
pub fn expect_bytes(ctx: &mut ParseContext, expected: &[u8]) -> (r: Result<(), ParseError>)
    requires
        old(ctx).wf(),
    ensures
        final(ctx).wf(),
        final(ctx).src() == old(ctx).src(),
        r is Ok ==> final(ctx).pos() == old(ctx).pos() + expected@.len() && old(ctx).src().subrange(
            old(ctx).pos(),
            final(ctx).pos(),
        ) == expected@,
        final(ctx).pos() <= old(ctx).pos() + expected@.len(),
{
    let n = expected.len();
    let mut i: usize = 0;
    while i < n
        invariant
            old(ctx).wf(),
            ctx.wf(),
            n == expected@.len(),
            0 <= i <= n,
            ctx.src() == old(ctx).src(),
            ctx.pos() == old(ctx).pos() + i,
            old(ctx).pos() + i <= ctx.src().len(),
            forall|j: int|
                0 <= j < i ==> ctx.src()[old(ctx).pos() + j] == expected@[j],
        decreases n - i,
    {
        let e = expected[i];
        match expect_byte(ctx, e) {
            Ok(()) => {},
            Err(err) => {
                return Err(err);
            },
        }
        i += 1;
    }
    proof {
        assert(ctx.src().subrange(old(ctx).pos(), ctx.pos()) =~= expected@);
    }
    Ok(())
}

/// The zero-copy capture: the exact bytes consumed since `start` was marked.
pub fn capture_slice<'a>(ctx: &ParseContext<'a>, start: usize) -> (r: &'a [u8])
    requires
        ctx.wf(),
        start as int <= ctx.pos(),
    ensures
        r@ == ctx.src().subrange(start as int, ctx.pos()),
{
    let end = ctx.mark();
    ctx.slice(start, end)
}

/// A lexical or syntax error: unrecoverable, carrying the offending item and
/// the 1-based source position at which the parse stopped.
#[derive(Clone, Copy, PartialEq, Eq, Structural, Debug)]
pub struct ParseError {
    pub row: usize,
    pub col: usize,
    pub kind: ParseErrorKind,
}

#[derive(Clone, Copy, PartialEq, Eq, Structural, Debug)]
pub enum ParseErrorKind {
    /// A byte that cannot begin any token.
    UnexpectedChar(u8),
    /// A specific byte was required (keywords, structural characters).
    ExpectedByte { expected: u8, got: Option<u8> },
    /// The input ended inside a string literal.
    UnterminatedString,
    /// A number lexeme that no decimal parser accepts.
    MalformedNumber,
    /// The parser needed a different token here.
    UnexpectedToken(crate::token::Token),
}

} // verus!
