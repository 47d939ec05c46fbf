//! The tokenizer: lexes one token at a time from the parse context, with
//! one-token lookahead.
//!
//! String and number tokens carry a `Span`: byte offsets into the original
//! source buffer, never a copy of its bytes.

use vstd::prelude::*;
use crate::cursor::{
    capture_slice, expect_byte, read, skip_whitespace, spec_col, spec_row, spec_skip_ws,
    ParseContext, ParseError, ParseErrorKind,
};

verus! {

/// Byte offsets `[start, end)` into the source buffer.
#[derive(Clone, Copy, PartialEq, Eq, Structural, Debug)]
pub struct Span {
    pub start: usize,
    pub end: usize,
}

/// One lexical token.  A `Str` span covers the raw string body between the
/// quotes (escape sequences unprocessed); a `Num` span covers the whole
/// number lexeme.
#[derive(Clone, Copy, PartialEq, Eq, Structural, Debug)]
pub enum Token {
    BraceOpen,
    BraceClose,
    BracketOpen,
    BracketClose,
    Colon,
    Comma,
    Str(Span),
    Num(Span),
    Bool(bool),
    Null,
    Eof,
}

/// The position just after the closing quote of a string body that starts at
/// `pos`, honouring the one-character escape lookahead: a backslash flags the
/// next byte as escaped, and an escaped quote does not terminate.  `None`
/// when the input ends first.
pub open spec fn spec_string_end(src: Seq<u8>, pos: int, escaped: bool) -> Option<int>
    decreases src.len() - pos,
{
    if pos < 0 || pos >= src.len() {
        None
    } else if src[pos] == 34u8 && !escaped {
        Some(pos + 1)
    } else {
        spec_string_end(src, pos + 1, src[pos] == 92u8 && !escaped)
    }
}

pub open spec fn is_digit(c: u8) -> bool {
    48 <= c <= 57
}

/// Bytes accepted inside a number lexeme after its first character.
pub open spec fn is_number_cont(c: u8) -> bool {
    is_digit(c) || c == 46 || c == 101 || c == 69 || c == 43 || c == 45
}

/// The first position at or after `i` whose byte is not a decimal digit.
pub open spec fn digits_end(src: Seq<u8>, i: int) -> int
    decreases src.len() - i,
{
    if i < 0 || i >= src.len() {
        i
    } else if is_digit(src[i]) {
        digits_end(src, i + 1)
    } else {
        i
    }
}

/// The end of a number lexeme whose continuation bytes start at `i`.
pub open spec fn num_lex_end(src: Seq<u8>, i: int) -> int
    decreases src.len() - i,
{
    if i < 0 || i >= src.len() {
        i
    } else if is_number_cont(src[i]) {
        num_lex_end(src, i + 1)
    } else {
        i
    }
}

/// A well-formed exponent part starting at `k` (or the very end of the
/// lexeme): `e`/`E`, an optional sign, then at least one digit, consuming
/// the rest of the lexeme.
pub open spec fn exp_wf(s: Seq<u8>, k: int) -> bool {
    let n = s.len() as int;
    if k == n {
        true
    } else if 0 <= k < n && (s[k] == 101 || s[k] == 69) {
        let m = if k + 1 < n && (s[k + 1] == 43 || s[k + 1] == 45) {
            k + 2
        } else {
            k + 1
        };
        digits_end(s, m) == n && m < n
    } else {
        false
    }
}

/// A number lexeme a decimal float parser accepts: an optional minus sign,
/// then digits, digits `.` digits*, or `.` digits, then an optional
/// well-formed exponent.
pub open spec fn number_wf(s: Seq<u8>) -> bool {
    let n = s.len() as int;
    let i0: int = if n > 0 && s[0] == 45 {
        1
    } else {
        0
    };
    let j = digits_end(s, i0);
    if j > i0 {
        if j < n && s[j] == 46 {
            exp_wf(s, digits_end(s, j + 1))
        } else {
            exp_wf(s, j)
        }
    } else if i0 < n && s[i0] == 46 {
        let k = digits_end(s, i0 + 1);
        k > i0 + 1 && exp_wf(s, k)
    } else {
        false
    }
}

/// A string span as the tokenizer produces it: its body lies inside the
/// buffer and is terminated by an unescaped closing quote just after it.
pub open spec fn str_span_wf(sp: Span, src: Seq<u8>) -> bool {
    &&& sp.start <= sp.end < src.len()
    &&& spec_string_end(src, sp.start as int, false) == Some(sp.end + 1)
}

/// A number span as the tokenizer produces it: a non-empty, well-formed
/// lexeme inside the buffer.
pub open spec fn num_span_wf(sp: Span, src: Seq<u8>) -> bool {
    &&& sp.start < sp.end <= src.len()
    &&& number_wf(src.subrange(sp.start as int, sp.end as int))
}

/// Any span the token carries is well formed for `src`.
pub open spec fn token_wf(t: Token, src: Seq<u8>) -> bool {
    match t {
        Token::Str(sp) => str_span_wf(sp, src),
        Token::Num(sp) => num_span_wf(sp, src),
        _ => true,
    }
}

/// The buffered token, if any, is well formed for `src`.
pub open spec fn tokenizer_wf(tk: Tokenizer, src: Seq<u8>) -> bool {
    match tk.buffered() {
        Some(t) => token_wf(t, src),
        None => true,
    }
}

/// Where the token `peek` returns begins: the buffered token's recorded
/// start, or the first non-whitespace position ahead of the cursor.
pub open spec fn effective_start(tk: Tokenizer, ctx: ParseContext) -> int {
    match tk.buffered() {
        Some(_) => tk.buffered_start(),
        None => spec_skip_ws(ctx.src(), ctx.pos()),
    }
}

/// The buffered token, if any, was lexed from its recorded start up to the
/// cursor, and the recorded row/column name that start.
pub open spec fn tokenizer_sync(tk: Tokenizer, ctx: ParseContext) -> bool {
    match tk.buffered() {
        Some(t) => {
            &&& spec_next_token(ctx.src(), tk.buffered_start()) == Some((t, ctx.pos()))
            &&& tk.buffered_start() == spec_skip_ws(ctx.src(), tk.buffered_start())
            &&& 0 <= tk.buffered_start() <= ctx.pos()
            &&& tk.spec_token_row() == spec_row(ctx.src(), tk.buffered_start())
            &&& tk.spec_token_col() == spec_col(ctx.src(), tk.buffered_start())
        },
        None => true,
    }
}

/// Whatever the lexer produces is well formed for its source.
pub proof fn lemma_next_token_wf(src: Seq<u8>, pos: int)
    requires
        0 <= pos <= src.len(),
        src.len() < usize::MAX as nat,
    ensures
        match spec_next_token(src, pos) {
            Some((t, p2)) => token_wf(t, src),
            None => true,
        },
{
    crate::cursor::lemma_skip_ws_bounds(src, pos);
    let p = spec_skip_ws(src, pos);
    if p < src.len() {
        let c = src[p];
        if c == 34 {
            lemma_string_end_bounds(src, p + 1, false);
        } else if is_digit(c) || c == 45 {
            lemma_num_lex_end_bounds(src, p + 1);
        }
    }
}

/// The next token of `src` at `pos` and the position after it, or `None` on
/// a lexical error (a byte that begins no token, an unterminated string, a
/// malformed number, a misspelled keyword).
pub open spec fn spec_next_token(src: Seq<u8>, pos: int) -> Option<(Token, int)> {
    let p = spec_skip_ws(src, pos);
    if p >= src.len() {
        Some((Token::Eof, p))
    } else {
        let c = src[p];
        if c == 123 {
            Some((Token::BraceOpen, p + 1))
        } else if c == 125 {
            Some((Token::BraceClose, p + 1))
        } else if c == 91 {
            Some((Token::BracketOpen, p + 1))
        } else if c == 93 {
            Some((Token::BracketClose, p + 1))
        } else if c == 58 {
            Some((Token::Colon, p + 1))
        } else if c == 44 {
            Some((Token::Comma, p + 1))
        } else if c == 34 {
            match spec_string_end(src, p + 1, false) {
                Some(q) => Some(
                    (Token::Str(Span { start: (p + 1) as usize, end: (q - 1) as usize }), q),
                ),
                None => None,
            }
        } else if is_digit(c) || c == 45 {
            let q = num_lex_end(src, p + 1);
            if number_wf(src.subrange(p, q)) {
                Some((Token::Num(Span { start: p as usize, end: q as usize }), q))
            } else {
                None
            }
        } else if c == 116 {
            if p + 4 <= src.len() && src[p + 1] == 114 && src[p + 2] == 117 && src[p + 3] == 101 {
                Some((Token::Bool(true), p + 4))
            } else {
                None
            }
        } else if c == 102 {
            if p + 5 <= src.len() && src[p + 1] == 97 && src[p + 2] == 108 && src[p + 3] == 115
                && src[p + 4] == 101 {
                Some((Token::Bool(false), p + 5))
            } else {
                None
            }
        } else if c == 110 {
            if p + 4 <= src.len() && src[p + 1] == 117 && src[p + 2] == 108 && src[p + 3] == 108 {
                Some((Token::Null, p + 4))
            } else {
                None
            }
        } else {
            None
        }
    }
}

/// The first position of a digit scan, as executable code.
fn scan_digits(s: &[u8], i: usize) -> (r: usize)
    requires
        0 <= i <= s@.len(),
    ensures
        r as int == digits_end(s@, i as int),
        i <= r <= s@.len(),
{
    let n = s.len();
    let mut k = i;
    while k < n
        invariant
            i <= k <= n,
            n == s@.len(),
            digits_end(s@, i as int) == digits_end(s@, k as int),
        decreases n - k,
    {
        let c = s[k];
        if 48 <= c && c <= 57 {
            k += 1;
        } else {
            return k;
        }
    }
    k
}

/// Whether `lex` is a well-formed number lexeme.
pub fn check_number(lex: &[u8]) -> (r: bool)
    ensures
        r == number_wf(lex@),
{
    let n = lex.len();
    let i0: usize = if n > 0 && lex[0] == 45 {
        1
    } else {
        0
    };
    let j = scan_digits(lex, i0);
    let k: usize;
    if j > i0 {
        if j < n && lex[j] == 46 {
            k = scan_digits(lex, j + 1);
        } else {
            k = j;
        }
    } else if i0 < n && lex[i0] == 46 {
        let k2 = scan_digits(lex, i0 + 1);
        if !(k2 > i0 + 1) {
            return false;
        }
        k = k2;
    } else {
        return false;
    }
    // exponent
    if k == n {
        return true;
    }
    let c = lex[k];
    if c == 101 || c == 69 {
        let m: usize = if k + 1 < n && (lex[k + 1] == 43 || lex[k + 1] == 45) {
            k + 2
        } else {
            k + 1
        };
        let q = scan_digits(lex, m);
        q == n && m < n
    } else {
        false
    }
}

/// Lexes the next token.  Structural characters map one-to-one; a quote
/// begins a string terminated by an unescaped quote; a digit or minus sign
/// begins a number lexeme, validated against the decimal grammar; `true`,
/// `false` and `null` are matched exactly; anything else is a fatal error.
#[verifier::loop_isolation(false)]
pub fn next_token(ctx: &mut ParseContext) -> (r: Result<Token, ParseError>)
    requires
        old(ctx).wf(),
    ensures
        final(ctx).wf(),
        final(ctx).src() == old(ctx).src(),
        match spec_next_token(old(ctx).src(), old(ctx).pos()) {
            Some((t, p2)) => r == Ok::<Token, ParseError>(t) && final(ctx).pos() == p2,
            None => r is Err,
        },
        final(ctx).pos() >= old(ctx).pos(),
{
    let ghost src = ctx.src();
    skip_whitespace(ctx);
    proof {
        crate::cursor::lemma_skip_ws_bounds(src, old(ctx).pos());
    }
    let c = match ctx.peek() {
        Some(c) => c,
        None => {
            return Ok(Token::Eof);
        },
    };
    let ghost p = ctx.pos();
    if c == 123 {
        ctx.advance(c);
        Ok(Token::BraceOpen)
    } else if c == 125 {
        ctx.advance(c);
        Ok(Token::BraceClose)
    } else if c == 91 {
        ctx.advance(c);
        Ok(Token::BracketOpen)
    } else if c == 93 {
        ctx.advance(c);
        Ok(Token::BracketClose)
    } else if c == 58 {
        ctx.advance(c);
        Ok(Token::Colon)
    } else if c == 44 {
        ctx.advance(c);
        Ok(Token::Comma)
    } else if c == 34 {
        ctx.advance(c);  // consume the opening quote
        let start = ctx.mark();
        let mut escaped = false;
        loop
            invariant
                ctx.wf(),
                ctx.src() == src,
                p + 1 <= ctx.pos() <= src.len(),
                spec_string_end(src, p + 1, false) == spec_string_end(src, ctx.pos(), escaped),
                start as int == p + 1,
            decreases src.len() - ctx.pos(),
        {
            match read(ctx) {
                None => {
                    return Err(ParseError {
                        row: ctx.row_number(),
                        col: ctx.col_number(),
                        kind: ParseErrorKind::UnterminatedString,
                    });
                },
                Some(b) => {
                    if b == 34 && !escaped {
                        // the span stops before the closing quote
                        let end = ctx.mark() - 1;
                        return Ok(Token::Str(Span { start, end }));
                    }
                    escaped = b == 92 && !escaped;
                },
            }
        }
    } else if (48 <= c && c <= 57) || c == 45 {
        ctx.advance(c);
        let start = ctx.mark() - 1;
        loop
            invariant
                ctx.wf(),
                ctx.src() == src,
                p + 1 <= ctx.pos() <= src.len(),
                start as int == p,
                num_lex_end(src, p + 1) == num_lex_end(src, ctx.pos()),
            decreases src.len() - ctx.pos(),
        {
            match ctx.peek() {
                Some(b) => {
                    if (48 <= b && b <= 57) || b == 46 || b == 101 || b == 69 || b == 43 || b
                        == 45 {
                        ctx.advance(b);
                    } else {
                        break ;
                    }
                },
                None => {
                    break ;
                },
            }
        }
        let lex = capture_slice(ctx, start);
        if check_number(lex) {
            Ok(Token::Num(Span { start, end: ctx.mark() }))
        } else {
            Err(ParseError {
                row: ctx.row_number(),
                col: ctx.col_number(),
                kind: ParseErrorKind::MalformedNumber,
            })
        }
    } else if c == 116 {
        expect_byte(ctx, 116)?;
        expect_byte(ctx, 114)?;
        expect_byte(ctx, 117)?;
        expect_byte(ctx, 101)?;
        Ok(Token::Bool(true))
    } else if c == 102 {
        expect_byte(ctx, 102)?;
        expect_byte(ctx, 97)?;
        expect_byte(ctx, 108)?;
        expect_byte(ctx, 115)?;
        expect_byte(ctx, 101)?;
        Ok(Token::Bool(false))
    } else if c == 110 {
        expect_byte(ctx, 110)?;
        expect_byte(ctx, 117)?;
        expect_byte(ctx, 108)?;
        expect_byte(ctx, 108)?;
        Ok(Token::Null)
    } else {
        Err(ParseError {
            row: ctx.row_number(),
            col: ctx.col_number(),
            kind: ParseErrorKind::UnexpectedChar(c),
        })
    }
}

/// The tokenizer: at any time either no token is buffered, or exactly one is
/// buffered and not yet consumed (one-token lookahead).  The row and column
/// where the buffered token starts are kept for error reports.
pub struct Tokenizer {
    current: Option<Token>,
    tok_start: usize,
    tok_row: usize,
    tok_col: usize,
}

/// The termination measure for parsing: unconsumed bytes, plus one for a
/// buffered token that still carries input (anything but end-of-input).
pub open spec fn spec_measure(tk: Tokenizer, ctx: ParseContext) -> int {
    ctx.src().len() - ctx.pos() + match tk.buffered() {
        Some(t) => if t == Token::Eof {
            0int
        } else {
            1int
        },
        None => 0int,
    }
}

/// The token `peek` will return, and the cursor position after computing it.
pub open spec fn spec_effective(tk: Tokenizer, ctx: ParseContext) -> Option<(Token, int)> {
    match tk.buffered() {
        Some(t) => Some((t, ctx.pos())),
        None => spec_next_token(ctx.src(), ctx.pos()),
    }
}

impl Tokenizer {
    /// The buffered token, if one is waiting to be consumed.
    pub closed spec fn buffered(self) -> Option<Token> {
        self.current
    }

    pub fn new() -> (r: Tokenizer)
        ensures
            r.buffered() == None::<Token>,
            r.buffered_start() == 0,
    {
        Tokenizer { current: None, tok_start: 0, tok_row: 1, tok_col: 1 }
    }

    /// The byte offset at which the buffered token starts.
    pub closed spec fn buffered_start(self) -> int {
        self.tok_start as int
    }

    pub closed spec fn spec_token_row(self) -> int {
        self.tok_row as int
    }

    pub closed spec fn spec_token_col(self) -> int {
        self.tok_col as int
    }

    /// The 1-based row at which the buffered token starts.
    pub fn token_row(&self) -> (r: usize)
        ensures
            r as int == self.spec_token_row(),
    {
        self.tok_row
    }

    /// The 1-based column at which the buffered token starts.
    pub fn token_col(&self) -> (r: usize)
        ensures
            r as int == self.spec_token_col(),
    {
        self.tok_col
    }

    /// The buffered token, lexing one if the buffer is empty.  Peeking twice
    /// without consuming returns the identical token and changes nothing.
    pub fn peek(&mut self, ctx: &mut ParseContext) -> (r: Result<Token, ParseError>)
        requires
            old(ctx).wf(),
            tokenizer_sync(*old(self), *old(ctx)),
        ensures
            tokenizer_sync(*final(self), *final(ctx)),
            r is Ok ==> final(self).buffered_start() == effective_start(*old(self), *old(ctx)),
            final(ctx).wf(),
            final(ctx).src() == old(ctx).src(),
            old(self).buffered() is Some ==> *final(self) == *old(self) && *final(ctx) == *old(ctx),
            match spec_effective(*old(self), *old(ctx)) {
                Some((t, p2)) => r == Ok::<Token, ParseError>(t) && final(self).buffered() == Some(
                    t,
                ) && final(ctx).pos() == p2,
                None => r is Err,
            },
            spec_measure(*final(self), *final(ctx)) <= spec_measure(*old(self), *old(ctx)),
            tokenizer_wf(*old(self), old(ctx).src()) ==> tokenizer_wf(
                *final(self),
                old(ctx).src(),
            ),
            match r {
                Ok(t) => tokenizer_wf(*old(self), old(ctx).src()) ==> token_wf(t, old(ctx).src()),
                Err(_) => true,
            },
    {
        match self.current {
            Some(t) => Ok(t),
            None => {
                skip_whitespace(ctx);
                proof {
                    crate::cursor::lemma_skip_ws_bounds(old(ctx).src(), old(ctx).pos());
                    lemma_skip_ws_idempotent(old(ctx).src(), old(ctx).pos());
                    assert(spec_next_token(ctx.src(), ctx.pos()) == spec_next_token(
                        old(ctx).src(),
                        old(ctx).pos(),
                    ));
                }
                self.tok_start = ctx.mark();
                self.tok_row = ctx.row_number();
                self.tok_col = ctx.col_number();
                match next_token(ctx) {
                    Ok(t) => {
                        self.current = Some(t);
                        proof {
                            lemma_next_token_measure(old(ctx).src(), old(ctx).pos());
                            lemma_next_token_wf(old(ctx).src(), old(ctx).pos());
                        }
                        Ok(t)
                    },
                    Err(e) => Err(e),
                }
            },
        }
    }

    /// Discards the buffered token.
    pub fn consume(&mut self)
        ensures
            final(self).buffered() == None::<Token>,
    {
        self.current = None;
    }

    /// Requires the next token to be one of `expected`, and consumes it.
    pub fn expect(&mut self, ctx: &mut ParseContext, expected: &[Token]) -> (r: Result<
        (),
        ParseError,
    >)
        requires
            old(ctx).wf(),
            tokenizer_sync(*old(self), *old(ctx)),
        ensures
            tokenizer_sync(*final(self), *final(ctx)),
            final(ctx).wf(),
            final(ctx).src() == old(ctx).src(),
            match spec_effective(*old(self), *old(ctx)) {
                Some((t, p2)) => if expected@.contains(t) {
                    r is Ok && final(self).buffered() == None::<Token> && final(ctx).pos() == p2
                } else {
                    r matches Err(e) && e.row as int == spec_row(
                        old(ctx).src(),
                        effective_start(*old(self), *old(ctx)),
                    ) && e.col as int == spec_col(
                        old(ctx).src(),
                        effective_start(*old(self), *old(ctx)),
                    ) && final(ctx).pos() == p2
                },
                None => r is Err,
            },
            spec_measure(*final(self), *final(ctx)) <= spec_measure(*old(self), *old(ctx)),
            tokenizer_wf(*old(self), old(ctx).src()) ==> tokenizer_wf(
                *final(self),
                old(ctx).src(),
            ),
            r is Ok && (match spec_effective(*old(self), *old(ctx)) {
                Some((t, _)) => t != Token::Eof,
                None => false,
            }) ==> spec_measure(*final(self), *final(ctx)) < spec_measure(*old(self), *old(ctx)),
    {
        let t = self.peek(ctx)?;
        let mut found = false;
        let n = expected.len();
        let mut i: usize = 0;
        while i < n
            invariant
                n == expected@.len(),
                0 <= i <= n,
                found <==> exists|j: int| 0 <= j < i && expected@[j] == t,
            decreases n - i,
        {
            if expected[i] == t {
                found = true;
                proof {
                    assert(expected@[i as int] == t);
                }
            }
            i += 1;
        }
        if found {
            self.consume();
            Ok(())
        } else {
            proof {
                if expected@.contains(t) {
                    let j = choose|j: int| 0 <= j < expected@.len() && expected@[j] == t;
                }
            }
            Err(ParseError {
                row: self.token_row(),
                col: self.token_col(),
                kind: ParseErrorKind::UnexpectedToken(t),
            })
        }
    }

    /// Requires the next token to be a string, consumes it, and returns its
    /// span.
    pub fn expect_string(&mut self, ctx: &mut ParseContext) -> (r: Result<Span, ParseError>)
        requires
            old(ctx).wf(),
            tokenizer_sync(*old(self), *old(ctx)),
        ensures
            tokenizer_sync(*final(self), *final(ctx)),
            final(ctx).wf(),
            final(ctx).src() == old(ctx).src(),
            match spec_effective(*old(self), *old(ctx)) {
                Some((t, p2)) => match t {
                    Token::Str(sp) => r == Ok::<Span, ParseError>(sp) && final(self).buffered()
                        == None::<Token> && final(ctx).pos() == p2,
                    _ => r matches Err(e) && e.row as int == spec_row(
                        old(ctx).src(),
                        effective_start(*old(self), *old(ctx)),
                    ) && e.col as int == spec_col(
                        old(ctx).src(),
                        effective_start(*old(self), *old(ctx)),
                    ) && final(ctx).pos() == p2,
                },
                None => r is Err,
            },
            spec_measure(*final(self), *final(ctx)) <= spec_measure(*old(self), *old(ctx)),
            tokenizer_wf(*old(self), old(ctx).src()) ==> tokenizer_wf(
                *final(self),
                old(ctx).src(),
            ),
            match r {
                Ok(sp) => tokenizer_wf(*old(self), old(ctx).src()) ==> str_span_wf(
                    sp,
                    old(ctx).src(),
                ),
                Err(_) => true,
            },
            r is Ok ==> spec_measure(*final(self), *final(ctx)) < spec_measure(
                *old(self),
                *old(ctx),
            ),
    {
        let t = self.peek(ctx)?;
        match t {
            Token::Str(sp) => {
                self.consume();
                Ok(sp)
            },
            _ => Err(ParseError {
                row: self.token_row(),
                col: self.token_col(),
                kind: ParseErrorKind::UnexpectedToken(t),
            }),
        }
    }
}

/// Skipping whitespace twice goes no further than once.
pub proof fn lemma_skip_ws_idempotent(src: Seq<u8>, pos: int)
    requires
        0 <= pos <= src.len(),
    ensures
        spec_skip_ws(src, spec_skip_ws(src, pos)) == spec_skip_ws(src, pos),
{
    crate::cursor::lemma_skip_ws_bounds(src, pos);
}

/// A successful lex always lands at or before the end of the input, and a
/// non-end token consumes at least one byte.
pub proof fn lemma_next_token_measure(src: Seq<u8>, pos: int)
    requires
        0 <= pos <= src.len(),
    ensures
        match spec_next_token(src, pos) {
            Some((t, p2)) => pos <= p2 <= src.len() && (t != Token::Eof ==> p2 > pos),
            None => true,
        },
{
    crate::cursor::lemma_skip_ws_bounds(src, pos);
    let p = spec_skip_ws(src, pos);
    if p < src.len() {
        let c = src[p];
        if c == 34 {
            lemma_string_end_bounds(src, p + 1, false);
        } else if is_digit(c) || c == 45 {
            lemma_num_lex_end_bounds(src, p + 1);
        }
    }
}

pub proof fn lemma_string_end_bounds(src: Seq<u8>, pos: int, escaped: bool)
    requires
        0 <= pos <= src.len(),
    ensures
        match spec_string_end(src, pos, escaped) {
            Some(q) => pos < q <= src.len(),
            None => true,
        },
    decreases src.len() - pos,
{
    if pos < src.len() && !(src[pos] == 34u8 && !escaped) {
        lemma_string_end_bounds(src, pos + 1, src[pos] == 92u8 && !escaped);
    }
}

pub proof fn lemma_num_lex_end_bounds(src: Seq<u8>, i: int)
    requires
        0 <= i <= src.len(),
    ensures
        i <= num_lex_end(src, i) <= src.len(),
    decreases src.len() - i,
{
    if i < src.len() && is_number_cont(src[i]) {
        lemma_num_lex_end_bounds(src, i + 1);
    }
}

} // verus!
