//! Recursive-descent parsing of JSON into a zero-copy value tree, and the
//! serializer that writes such a tree back out.
//!
//! String and number leaves hold byte spans into the original source buffer,
//! never copies; object members keep their source order, duplicate keys
//! retained.

use vstd::prelude::*;
use crate::cursor::{spec_col, spec_row, spec_skip_ws, ParseContext, ParseError, ParseErrorKind};
use crate::token::{
    lemma_next_token_measure, num_span_wf, spec_effective, spec_measure, spec_next_token,
    str_span_wf, tokenizer_sync, tokenizer_wf, Span, Token, Tokenizer,
};

verus! {

/// A JSON value.  Strings and numbers are spans of the source buffer.
#[derive(Debug)]
pub enum Json {
    /// Ordered key/value pairs, duplicates retained in order.
    Object(Vec<(Span, Json)>),
    Array(Vec<Json>),
    Str(Span),
    Num(Span),
    Bool(bool),
    Null,
}

/// Every span in the tree is a well-formed window into `src`: string bodies
/// are terminated by an unescaped quote, number lexemes satisfy the decimal
/// grammar.
pub open spec fn json_wf(v: Json, src: Seq<u8>) -> bool
    decreases v,
{
    match v {
        Json::Object(ms) => forall|i: int|
            0 <= i < ms@.len() ==> str_span_wf((#[trigger] ms@[i]).0, src) && json_wf(
                ms@[i].1,
                src,
            ),
        Json::Array(es) => forall|i: int| 0 <= i < es@.len() ==> json_wf(#[trigger] es@[i], src),
        Json::Str(sp) => str_span_wf(sp, src),
        Json::Num(sp) => num_span_wf(sp, src),
        Json::Bool(_) => true,
        Json::Null => true,
    }
}

/// A specification-level JSON tree: the content of a parsed value, with
/// sequences in place of vectors.
pub enum JsonV {
    Object(Seq<(Span, JsonV)>),
    Array(Seq<JsonV>),
    Str(Span),
    Num(Span),
    Bool(bool),
    Null,
}

/// The content of a value tree.
pub open spec fn view_json(v: Json) -> JsonV
    decreases v, 1int,
{
    match v {
        Json::Object(ms) => JsonV::Object(view_members(ms@, 0)),
        Json::Array(es) => JsonV::Array(view_elements(es@, 0)),
        Json::Str(sp) => JsonV::Str(sp),
        Json::Num(sp) => JsonV::Num(sp),
        Json::Bool(b) => JsonV::Bool(b),
        Json::Null => JsonV::Null,
    }
}

pub open spec fn view_members(ms: Seq<(Span, Json)>, i: int) -> Seq<(Span, JsonV)>
    decreases ms, ms.len() - i, 0int,
{
    if i < 0 || i >= ms.len() {
        Seq::<(Span, JsonV)>::empty()
    } else {
        seq![(ms[i].0, view_json(ms[i].1))] + view_members(ms, i + 1)
    }
}

pub open spec fn view_elements(es: Seq<Json>, i: int) -> Seq<JsonV>
    decreases es, es.len() - i, 0int,
{
    if i < 0 || i >= es.len() {
        Seq::<JsonV>::empty()
    } else {
        seq![view_json(es[i])] + view_elements(es, i + 1)
    }
}

/// The outcome of the specification-level parse: a value and the position
/// after it; a grammar failure, carrying the start of the offending token; or
/// a failure inside the tokenizer itself.
pub enum SpecParse {
    Val(JsonV, int),
    Bad(int),
    Lex,
}

/// As `SpecParse`, for a run of object members.
pub enum SpecMembers {
    Val(Seq<(Span, JsonV)>, int),
    Bad(int),
    Lex,
}

/// As `SpecParse`, for a run of array elements.
pub enum SpecElems {
    Val(Seq<JsonV>, int),
    Bad(int),
    Lex,
}

/// The token the parser sees: the buffered one (starting at `cur_start`), or
/// the one lexed at `pos`.  Yields the token, its start, and the position
/// after it.
pub open spec fn tk_at(src: Seq<u8>, cur: Option<Token>, cur_start: int, pos: int) -> Option<
    (Token, int, int),
> {
    match cur {
        Some(t) => Some((t, cur_start, pos)),
        None => match spec_next_token(src, pos) {
            Some((t, p)) => Some((t, spec_skip_ws(src, pos), p)),
            None => None,
        },
    }
}

/// Unconsumed input, counting a buffered token that still carries input as
/// one more unit.
pub open spec fn pmeasure(src: Seq<u8>, cur: Option<Token>, pos: int) -> int {
    src.len() - pos + match cur {
        Some(t) => if t == Token::Eof {
            0int
        } else {
            1int
        },
        None => 0int,
    }
}

/// The specification-level parse of one value, mirroring `parse` exactly.
/// `fuel` only bounds the recursion; any amount beyond twice the measure
/// gives the same answer (`lemma_parse_fuel`).
pub open spec fn spec_parse_val(
    src: Seq<u8>,
    cur: Option<Token>,
    cur_start: int,
    pos: int,
    fuel: nat,
) -> SpecParse
    decreases fuel,
{
    if fuel == 0 {
        SpecParse::Lex
    } else {
        match tk_at(src, cur, cur_start, pos) {
            None => SpecParse::Lex,
            Some((t, tstart, p1)) => match t {
                Token::BraceOpen => match spec_next_token(src, p1) {
                    None => SpecParse::Lex,
                    Some((t2, p2)) => if t2 == Token::BraceClose {
                        SpecParse::Val(JsonV::Object(Seq::empty()), p2)
                    } else {
                        match spec_parse_members(
                            src,
                            Some(t2),
                            spec_skip_ws(src, p1),
                            p2,
                            (fuel - 1) as nat,
                        ) {
                            SpecMembers::Val(ms, p3) => SpecParse::Val(JsonV::Object(ms), p3),
                            SpecMembers::Bad(b) => SpecParse::Bad(b),
                            SpecMembers::Lex => SpecParse::Lex,
                        }
                    },
                },
                Token::BracketOpen => match spec_next_token(src, p1) {
                    None => SpecParse::Lex,
                    Some((t2, p2)) => if t2 == Token::BracketClose {
                        SpecParse::Val(JsonV::Array(Seq::empty()), p2)
                    } else {
                        match spec_parse_elements(
                            src,
                            Some(t2),
                            spec_skip_ws(src, p1),
                            p2,
                            (fuel - 1) as nat,
                        ) {
                            SpecElems::Val(es, p3) => SpecParse::Val(JsonV::Array(es), p3),
                            SpecElems::Bad(b) => SpecParse::Bad(b),
                            SpecElems::Lex => SpecParse::Lex,
                        }
                    },
                },
                Token::Str(sp) => SpecParse::Val(JsonV::Str(sp), p1),
                Token::Num(sp) => SpecParse::Val(JsonV::Num(sp), p1),
                Token::Bool(b) => SpecParse::Val(JsonV::Bool(b), p1),
                Token::Null => SpecParse::Val(JsonV::Null, p1),
                _ => SpecParse::Bad(tstart),
            },
        }
    }
}

/// One or more `key: value` members, up to (and consuming) the closing brace.
pub open spec fn spec_parse_members(
    src: Seq<u8>,
    cur: Option<Token>,
    cur_start: int,
    pos: int,
    fuel: nat,
) -> SpecMembers
    decreases fuel,
{
    if fuel == 0 {
        SpecMembers::Lex
    } else {
        match tk_at(src, cur, cur_start, pos) {
            None => SpecMembers::Lex,
            Some((t, tstart, p1)) => match t {
                Token::Str(key) => match spec_next_token(src, p1) {
                    None => SpecMembers::Lex,
                    Some((tc, p2)) => if tc != Token::Colon {
                        SpecMembers::Bad(spec_skip_ws(src, p1))
                    } else {
                        match spec_parse_val(src, None, 0, p2, (fuel - 1) as nat) {
                            SpecParse::Lex => SpecMembers::Lex,
                            SpecParse::Bad(b) => SpecMembers::Bad(b),
                            SpecParse::Val(v, p3) => match spec_next_token(src, p3) {
                                None => SpecMembers::Lex,
                                Some((tn, p4)) => if tn == Token::Comma {
                                    match spec_parse_members(src, None, 0, p4, (fuel - 1) as nat) {
                                        SpecMembers::Val(rest, p5) => SpecMembers::Val(
                                            seq![(key, v)] + rest,
                                            p5,
                                        ),
                                        SpecMembers::Bad(b) => SpecMembers::Bad(b),
                                        SpecMembers::Lex => SpecMembers::Lex,
                                    }
                                } else if tn == Token::BraceClose {
                                    SpecMembers::Val(seq![(key, v)], p4)
                                } else {
                                    SpecMembers::Bad(spec_skip_ws(src, p3))
                                },
                            },
                        }
                    },
                },
                _ => SpecMembers::Bad(tstart),
            },
        }
    }
}

/// One or more elements, up to (and consuming) the closing bracket.
pub open spec fn spec_parse_elements(
    src: Seq<u8>,
    cur: Option<Token>,
    cur_start: int,
    pos: int,
    fuel: nat,
) -> SpecElems
    decreases fuel,
{
    if fuel == 0 {
        SpecElems::Lex
    } else {
        match spec_parse_val(src, cur, cur_start, pos, (fuel - 1) as nat) {
            SpecParse::Lex => SpecElems::Lex,
            SpecParse::Bad(b) => SpecElems::Bad(b),
            SpecParse::Val(v, p3) => match spec_next_token(src, p3) {
                None => SpecElems::Lex,
                Some((tn, p4)) => if tn == Token::Comma {
                    match spec_parse_elements(src, None, 0, p4, (fuel - 1) as nat) {
                        SpecElems::Val(rest, p5) => SpecElems::Val(seq![v] + rest, p5),
                        SpecElems::Bad(b) => SpecElems::Bad(b),
                        SpecElems::Lex => SpecElems::Lex,
                    }
                } else if tn == Token::BracketClose {
                    SpecElems::Val(seq![v], p4)
                } else {
                    SpecElems::Bad(spec_skip_ws(src, p3))
                },
            },
        }
    }
}

/// The parse of one value at a parser state, with canonical fuel.
pub open spec fn spec_parse(src: Seq<u8>, cur: Option<Token>, cur_start: int, pos: int) -> SpecParse {
    spec_parse_val(src, cur, cur_start, pos, (2 * pmeasure(src, cur, pos) + 1) as nat)
}

/// The member-run parse at a parser state, with canonical fuel.
pub open spec fn spec_members_at(src: Seq<u8>, cur: Option<Token>, cur_start: int, pos: int) -> SpecMembers {
    spec_parse_members(src, cur, cur_start, pos, (2 * pmeasure(src, cur, pos) + 2) as nat)
}

/// The element-run parse at a parser state, with canonical fuel.
pub open spec fn spec_elements_at(src: Seq<u8>, cur: Option<Token>, cur_start: int, pos: int) -> SpecElems {
    spec_parse_elements(src, cur, cur_start, pos, (2 * pmeasure(src, cur, pos) + 2) as nat)
}

/// Prepending one member shifts the viewed tail by one.
proof fn lemma_view_members_cons(x: (Span, Json), s: Seq<(Span, Json)>)
    ensures
        view_members(seq![x] + s, 0) == seq![(x.0, view_json(x.1))] + view_members(s, 0),
    decreases s.len(),
{
    let all = seq![x] + s;
    assert(all[0] == x);
    lemma_view_members_drop(all, 1, s);
}

proof fn lemma_view_members_drop(all: Seq<(Span, Json)>, i: int, s: Seq<(Span, Json)>)
    requires
        0 <= i <= all.len(),
        s =~= all.subrange(i, all.len() as int),
    ensures
        view_members(all, i) == view_members(s, 0),
    decreases all.len() - i,
{
    lemma_view_members_from(all, i, s, 0);
}

proof fn lemma_view_members_from(all: Seq<(Span, Json)>, i: int, s: Seq<(Span, Json)>, j: int)
    requires
        0 <= i <= all.len(),
        0 <= j,
        i - j >= 0,
        all.len() - i == s.len() - j,
        forall|k: int| 0 <= k < all.len() - i ==> #[trigger] all[i + k] == s[j + k],
    ensures
        view_members(all, i) == view_members(s, j),
    decreases all.len() - i,
{
    if i < all.len() {
        assert(all[i + 0] == s[j + 0]);
        assert forall|k: int|
            0 <= k < all.len() - (i + 1) implies #[trigger] all[i + 1 + k] == s[j + 1 + k] by {
            assert(all[i + (k + 1)] == s[j + (k + 1)]);
        }
        lemma_view_members_from(all, i + 1, s, j + 1);
    }
}

/// Prepending one element shifts the viewed tail by one.
proof fn lemma_view_elements_cons(x: Json, s: Seq<Json>)
    ensures
        view_elements(seq![x] + s, 0) == seq![view_json(x)] + view_elements(s, 0),
{
    let all = seq![x] + s;
    assert(all[0] == x);
    lemma_view_elements_from(all, 1, s, 0);
}

proof fn lemma_view_elements_from(all: Seq<Json>, i: int, s: Seq<Json>, j: int)
    requires
        0 <= i <= all.len(),
        0 <= j,
        all.len() - i == s.len() - j,
        forall|k: int| 0 <= k < all.len() - i ==> #[trigger] all[i + k] == s[j + k],
    ensures
        view_elements(all, i) == view_elements(s, j),
    decreases all.len() - i,
{
    if i < all.len() {
        assert(all[i + 0] == s[j + 0]);
        assert forall|k: int|
            0 <= k < all.len() - (i + 1) implies #[trigger] all[i + 1 + k] == s[j + 1 + k] by {
            assert(all[i + (k + 1)] == s[j + (k + 1)]);
        }
        lemma_view_elements_from(all, i + 1, s, j + 1);
    }
}

/// Beyond twice the measure, the parse does not depend on the fuel, nor (with
/// no buffered token) on the start argument, and a parsed value ends between
/// the start and the end of the input.
pub proof fn lemma_parse_fuel(
    src: Seq<u8>,
    cur: Option<Token>,
    cs1: int,
    cs2: int,
    pos: int,
    f1: nat,
    f2: nat,
)
    requires
        0 <= pos <= src.len(),
        cur is Some ==> cs1 == cs2,
    ensures
        f1 > 2 * pmeasure(src, cur, pos) && f2 > 2 * pmeasure(src, cur, pos) ==> {
            &&& spec_parse_val(src, cur, cs1, pos, f1) == spec_parse_val(src, cur, cs2, pos, f2)
            &&& match spec_parse_val(src, cur, cs1, pos, f1) {
                SpecParse::Val(_, p) => pos <= p <= src.len(),
                _ => true,
            }
        },
        f1 > 2 * pmeasure(src, cur, pos) + 1 && f2 > 2 * pmeasure(src, cur, pos) + 1 ==> {
            &&& spec_parse_members(src, cur, cs1, pos, f1) == spec_parse_members(
                src,
                cur,
                cs2,
                pos,
                f2,
            )
            &&& match spec_parse_members(src, cur, cs1, pos, f1) {
                SpecMembers::Val(_, p) => pos <= p <= src.len(),
                _ => true,
            }
            &&& spec_parse_elements(src, cur, cs1, pos, f1) == spec_parse_elements(
                src,
                cur,
                cs2,
                pos,
                f2,
            )
            &&& match spec_parse_elements(src, cur, cs1, pos, f1) {
                SpecElems::Val(_, p) => pos <= p <= src.len(),
                _ => true,
            }
        },
    decreases f1,
{
    let m = pmeasure(src, cur, pos);
    if f1 == 0 {
        return ;
    }
    // facts about the token in front
    match tk_at(src, cur, cs1, pos) {
        None => {},
        Some((t, tstart, p1)) => {
            if cur is None {
                lemma_next_token_measure(src, pos);
                crate::cursor::lemma_skip_ws_bounds(src, pos);
            }
            assert(pos <= p1 <= src.len());
            assert(t != Token::Eof ==> pmeasure(src, None, p1) < m);
            assert(pmeasure(src, None, p1) <= m);
            // the value-parse tier
            if f1 > 2 * m && f2 > 2 * m {
                match t {
                    Token::BraceOpen => {
                        match spec_next_token(src, p1) {
                            None => {},
                            Some((t2, p2)) => {
                                lemma_next_token_measure(src, p1);
                                crate::cursor::lemma_skip_ws_bounds(src, p1);
                                if t2 != Token::BraceClose {
                                    let m2 = pmeasure(src, Some(t2), p2);
                                    assert(m2 <= m - 1);
                                    lemma_parse_fuel(
                                        src,
                                        Some(t2),
                                        spec_skip_ws(src, p1),
                                        spec_skip_ws(src, p1),
                                        p2,
                                        (f1 - 1) as nat,
                                        (f2 - 1) as nat,
                                    );
                                }
                            },
                        }
                    },
                    Token::BracketOpen => {
                        match spec_next_token(src, p1) {
                            None => {},
                            Some((t2, p2)) => {
                                lemma_next_token_measure(src, p1);
                                crate::cursor::lemma_skip_ws_bounds(src, p1);
                                if t2 != Token::BracketClose {
                                    let m2 = pmeasure(src, Some(t2), p2);
                                    assert(m2 <= m - 1);
                                    lemma_parse_fuel(
                                        src,
                                        Some(t2),
                                        spec_skip_ws(src, p1),
                                        spec_skip_ws(src, p1),
                                        p2,
                                        (f1 - 1) as nat,
                                        (f2 - 1) as nat,
                                    );
                                }
                            },
                        }
                    },
                    _ => {},
                }
            }
            // the member-run tier
            if f1 > 2 * m + 1 && f2 > 2 * m + 1 {
                match t {
                    Token::Str(_) => {
                        match spec_next_token(src, p1) {
                            None => {},
                            Some((tc, p2)) => {
                                lemma_next_token_measure(src, p1);
                                if tc == Token::Colon {
                                    let m2 = pmeasure(src, None, p2);
                                    assert(m2 <= m - 2);
                                    lemma_parse_fuel(
                                        src,
                                        None,
                                        0,
                                        0,
                                        p2,
                                        (f1 - 1) as nat,
                                        (f2 - 1) as nat,
                                    );
                                    match spec_parse_val(src, None, 0, p2, (f1 - 1) as nat) {
                                        SpecParse::Val(_, p3) => {
                                            match spec_next_token(src, p3) {
                                                None => {},
                                                Some((tn, p4)) => {
                                                    lemma_next_token_measure(src, p3);
                                                    if tn == Token::Comma {
                                                        lemma_parse_fuel(
                                                            src,
                                                            None,
                                                            0,
                                                            0,
                                                            p4,
                                                            (f1 - 1) as nat,
                                                            (f2 - 1) as nat,
                                                        );
                                                    }
                                                },
                                            }
                                        },
                                        _ => {},
                                    }
                                }
                            },
                        }
                    },
                    _ => {},
                }
            }
        },
    }
    // the element-run tier walks through the value tier at the same state
    if f1 > 2 * m + 1 && f2 > 2 * m + 1 {
        lemma_parse_fuel(src, cur, cs1, cs2, pos, (f1 - 1) as nat, (f2 - 1) as nat);
        match spec_parse_val(src, cur, cs1, pos, (f1 - 1) as nat) {
            SpecParse::Val(_, p3) => {
                match spec_next_token(src, p3) {
                    None => {},
                    Some((tn, p4)) => {
                        lemma_next_token_measure(src, p3);
                        if tn == Token::Comma {
                            lemma_parse_fuel(src, None, 0, 0, p4, (f1 - 1) as nat, (f2 - 1) as nat);
                        }
                    },
                }
            },
            _ => {},
        }
    }
}

/// Facts carried from one parser state to the next: position bounds and the
/// match between the canonical-fuel parses at two fuel levels.
proof fn lemma_val_canonical(src: Seq<u8>, cur: Option<Token>, cs1: int, cs2: int, pos: int, f: nat)
    requires
        0 <= pos <= src.len(),
        f > 2 * pmeasure(src, cur, pos),
        cur is Some ==> cs1 == cs2,
    ensures
        spec_parse_val(src, cur, cs1, pos, f) == spec_parse(src, cur, cs2, pos),
        match spec_parse(src, cur, cs2, pos) {
            SpecParse::Val(_, p) => pos <= p <= src.len(),
            _ => true,
        },
{
    lemma_parse_fuel(src, cur, cs1, cs2, pos, f, (2 * pmeasure(src, cur, pos) + 1) as nat);
}

proof fn lemma_members_canonical(
    src: Seq<u8>,
    cur: Option<Token>,
    cs1: int,
    cs2: int,
    pos: int,
    f: nat,
)
    requires
        0 <= pos <= src.len(),
        f > 2 * pmeasure(src, cur, pos) + 1,
        cur is Some ==> cs1 == cs2,
    ensures
        spec_parse_members(src, cur, cs1, pos, f) == spec_members_at(src, cur, cs2, pos),
        match spec_members_at(src, cur, cs2, pos) {
            SpecMembers::Val(_, p) => pos <= p <= src.len(),
            _ => true,
        },
{
    lemma_parse_fuel(src, cur, cs1, cs2, pos, f, (2 * pmeasure(src, cur, pos) + 2) as nat);
}

proof fn lemma_elements_canonical(
    src: Seq<u8>,
    cur: Option<Token>,
    cs1: int,
    cs2: int,
    pos: int,
    f: nat,
)
    requires
        0 <= pos <= src.len(),
        f > 2 * pmeasure(src, cur, pos) + 1,
        cur is Some ==> cs1 == cs2,
    ensures
        spec_parse_elements(src, cur, cs1, pos, f) == spec_elements_at(src, cur, cs2, pos),
        match spec_elements_at(src, cur, cs2, pos) {
            SpecElems::Val(_, p) => pos <= p <= src.len(),
            _ => true,
        },
{
    lemma_parse_fuel(src, cur, cs1, cs2, pos, f, (2 * pmeasure(src, cur, pos) + 2) as nat);
}

/// Parses one value from the token stream: an object or array after its
/// opening delimiter (members separated by commas until the matching closing
/// delimiter), or a single string, number, boolean or null token.  Any other
/// token is a fatal error naming it and its position.  The result is pinned
/// exactly to the specification-level parse of the entry state: `Ok` of the
/// tree it yields, an error at the offending token's start when the grammar
/// is violated, and an error when the tokenizer itself fails.
#[verifier::loop_isolation(false)]
#[verifier::rlimit(100)]
pub fn parse(tokens: &mut Tokenizer, ctx: &mut ParseContext) -> (r: Result<Json, ParseError>)
    requires
        old(ctx).wf(),
        tokenizer_wf(*old(tokens), old(ctx).src()),
        tokenizer_sync(*old(tokens), *old(ctx)),
    ensures
        final(ctx).wf(),
        final(ctx).src() == old(ctx).src(),
        tokenizer_wf(*final(tokens), old(ctx).src()),
        tokenizer_sync(*final(tokens), *final(ctx)),
        spec_measure(*final(tokens), *final(ctx)) <= spec_measure(*old(tokens), *old(ctx)),
        r is Ok ==> spec_measure(*final(tokens), *final(ctx)) < spec_measure(
            *old(tokens),
            *old(ctx),
        ),
        match r {
            Ok(v) => json_wf(v, old(ctx).src()),
            Err(_) => true,
        },
        match spec_parse(
            old(ctx).src(),
            old(tokens).buffered(),
            old(tokens).buffered_start(),
            old(ctx).pos(),
        ) {
            SpecParse::Val(tree, p2) => {
                &&& r matches Ok(v) && view_json(v) == tree
                &&& final(ctx).pos() == p2
                &&& final(tokens).buffered() is None
            },
            SpecParse::Bad(b) => r matches Err(e) && e.row as int == spec_row(old(ctx).src(), b)
                && e.col as int == spec_col(old(ctx).src(), b),
            SpecParse::Lex => r is Err,
        },
    decreases spec_measure(*tokens, *ctx), 0int,
{
    let ghost src0 = ctx.src();
    let ghost cur0 = tokens.buffered();
    let ghost cs0 = tokens.buffered_start();
    let ghost pos0 = ctx.pos();
    let ghost pm0 = pmeasure(src0, cur0, pos0);
    let ghost fuel0: nat = (2 * pm0 + 1) as nat;
    proof {
        assert(pm0 == spec_measure(*tokens, *ctx));
        assert(spec_parse(src0, cur0, cs0, pos0) == spec_parse_val(src0, cur0, cs0, pos0, fuel0));
        assert(fuel0 >= 1);
    }
    let t = match tokens.peek(ctx) {
        Ok(t) => t,
        Err(e) => {
            proof {
                assert(cur0 is None);
                assert(spec_next_token(src0, pos0) is None);
                assert(tk_at(src0, cur0, cs0, pos0) is None);
                assert(spec_parse_val(src0, cur0, cs0, pos0, fuel0) == SpecParse::Lex);
            }
            return Err(e);
        },
    };
    let ghost tstart: int = if cur0 is Some {
        cs0
    } else {
        spec_skip_ws(src0, pos0)
    };
    let ghost p1 = ctx.pos();
    proof {
        assert(tk_at(src0, cur0, cs0, pos0) == Some((t, tstart, p1)));
        assert(tokens.buffered() == Some(t));
        assert(tokens.buffered_start() == tstart);
        if cur0 is None {
            crate::token::lemma_next_token_measure(src0, pos0);
        }
        assert(pmeasure(src0, None, p1) <= pm0);
        assert(t != Token::Eof ==> pmeasure(src0, None, p1) < pm0);
    }
    match t {
        Token::BraceOpen => {
            tokens.consume();
            let first = match tokens.peek(ctx) {
                Ok(x) => x,
                Err(e) => {
                    proof {
                        assert(spec_next_token(src0, p1) is None);
                        assert(spec_parse_val(src0, cur0, cs0, pos0, fuel0) == SpecParse::Lex);
                    }
                    return Err(e);
                },
            };
            let ghost p2 = ctx.pos();
            let ghost sw = spec_skip_ws(src0, p1);
            proof {
                assert(spec_next_token(src0, p1) == Some((first, p2)));
                assert(tokens.buffered() == Some(first));
                assert(tokens.buffered_start() == sw);
                crate::token::lemma_next_token_measure(src0, p1);
            }
            if first == Token::BraceClose {
                match tokens.expect(ctx, &[Token::BraceClose]) {
                    Ok(()) => {},
                    Err(_) => {
                        proof {
                            assert(false);
                        }
                        return Ok(Json::Null);
                    },
                }
                let out: Vec<(Span, Json)> = Vec::new();
                proof {
                    assert(view_members(out@, 0) =~= Seq::<(Span, JsonV)>::empty());
                    assert(spec_parse_val(src0, cur0, cs0, pos0, fuel0) == SpecParse::Val(
                        JsonV::Object(Seq::empty()),
                        p2,
                    ));
                    assert(view_json(Json::Object(out)) == JsonV::Object(Seq::empty()));
                }
                Ok(Json::Object(out))
            } else {
                proof {
                    assert(pmeasure(src0, Some(first), p2) < pm0);
                }
                let ms = match parse_members(tokens, ctx) {
                    Ok(ms) => ms,
                    Err(e) => {
                        proof {
                            lemma_members_canonical(
                                src0,
                                Some(first),
                                sw,
                                sw,
                                p2,
                                (fuel0 - 1) as nat,
                            );
                        }
                        return Err(e);
                    },
                };
                proof {
                    lemma_members_canonical(src0, Some(first), sw, sw, p2, (fuel0 - 1) as nat);
                    assert(view_json(Json::Object(ms)) == JsonV::Object(view_members(ms@, 0)));
                }
                Ok(Json::Object(ms))
            }
        },
        Token::BracketOpen => {
            tokens.consume();
            let first = match tokens.peek(ctx) {
                Ok(x) => x,
                Err(e) => {
                    proof {
                        assert(spec_next_token(src0, p1) is None);
                        assert(spec_parse_val(src0, cur0, cs0, pos0, fuel0) == SpecParse::Lex);
                    }
                    return Err(e);
                },
            };
            let ghost p2 = ctx.pos();
            let ghost sw = spec_skip_ws(src0, p1);
            proof {
                assert(spec_next_token(src0, p1) == Some((first, p2)));
                assert(tokens.buffered() == Some(first));
                assert(tokens.buffered_start() == sw);
                crate::token::lemma_next_token_measure(src0, p1);
            }
            if first == Token::BracketClose {
                match tokens.expect(ctx, &[Token::BracketClose]) {
                    Ok(()) => {},
                    Err(_) => {
                        proof {
                            assert(false);
                        }
                        return Ok(Json::Null);
                    },
                }
                let out: Vec<Json> = Vec::new();
                proof {
                    assert(view_elements(out@, 0) =~= Seq::<JsonV>::empty());
                    assert(spec_parse_val(src0, cur0, cs0, pos0, fuel0) == SpecParse::Val(
                        JsonV::Array(Seq::empty()),
                        p2,
                    ));
                    assert(view_json(Json::Array(out)) == JsonV::Array(Seq::empty()));
                }
                Ok(Json::Array(out))
            } else {
                proof {
                    assert(pmeasure(src0, Some(first), p2) < pm0);
                }
                let es = match parse_elements(tokens, ctx) {
                    Ok(es) => es,
                    Err(e) => {
                        proof {
                            lemma_elements_canonical(
                                src0,
                                Some(first),
                                sw,
                                sw,
                                p2,
                                (fuel0 - 1) as nat,
                            );
                        }
                        return Err(e);
                    },
                };
                proof {
                    lemma_elements_canonical(src0, Some(first), sw, sw, p2, (fuel0 - 1) as nat);
                    assert(view_json(Json::Array(es)) == JsonV::Array(view_elements(es@, 0)));
                }
                Ok(Json::Array(es))
            }
        },
        Token::Str(sp) => {
            tokens.consume();
            proof {
                assert(spec_parse_val(src0, cur0, cs0, pos0, fuel0) == SpecParse::Val(
                    JsonV::Str(sp),
                    p1,
                ));
            }
            Ok(Json::Str(sp))
        },
        Token::Num(sp) => {
            tokens.consume();
            proof {
                assert(spec_parse_val(src0, cur0, cs0, pos0, fuel0) == SpecParse::Val(
                    JsonV::Num(sp),
                    p1,
                ));
            }
            Ok(Json::Num(sp))
        },
        Token::Bool(b) => {
            tokens.consume();
            proof {
                assert(spec_parse_val(src0, cur0, cs0, pos0, fuel0) == SpecParse::Val(
                    JsonV::Bool(b),
                    p1,
                ));
            }
            Ok(Json::Bool(b))
        },
        Token::Null => {
            tokens.consume();
            proof {
                assert(spec_parse_val(src0, cur0, cs0, pos0, fuel0) == SpecParse::Val(
                    JsonV::Null,
                    p1,
                ));
            }
            Ok(Json::Null)
        },
        _ => {
            proof {
                assert(spec_parse_val(src0, cur0, cs0, pos0, fuel0) == SpecParse::Bad(tstart));
            }
            Err(ParseError {
                row: tokens.token_row(),
                col: tokens.token_col(),
                kind: ParseErrorKind::UnexpectedToken(t),
            })
        },
    }
}

/// One or more `key: value` members and the closing brace, mirroring
/// `spec_members_at` step for step.
#[verifier::loop_isolation(false)]
#[verifier::rlimit(100)]
fn parse_members(tokens: &mut Tokenizer, ctx: &mut ParseContext) -> (r: Result<
    Vec<(Span, Json)>,
    ParseError,
>)
    requires
        old(ctx).wf(),
        tokenizer_wf(*old(tokens), old(ctx).src()),
        tokenizer_sync(*old(tokens), *old(ctx)),
    ensures
        final(ctx).wf(),
        final(ctx).src() == old(ctx).src(),
        tokenizer_wf(*final(tokens), old(ctx).src()),
        tokenizer_sync(*final(tokens), *final(ctx)),
        spec_measure(*final(tokens), *final(ctx)) <= spec_measure(*old(tokens), *old(ctx)),
        r is Ok ==> spec_measure(*final(tokens), *final(ctx)) < spec_measure(
            *old(tokens),
            *old(ctx),
        ),
        match r {
            Ok(ms) => forall|i: int|
                0 <= i < ms@.len() ==> str_span_wf((#[trigger] ms@[i]).0, old(ctx).src())
                    && json_wf(ms@[i].1, old(ctx).src()),
            Err(_) => true,
        },
        match spec_members_at(
            old(ctx).src(),
            old(tokens).buffered(),
            old(tokens).buffered_start(),
            old(ctx).pos(),
        ) {
            SpecMembers::Val(msv, p) => {
                &&& r matches Ok(ms) && view_members(ms@, 0) == msv
                &&& final(ctx).pos() == p
                &&& final(tokens).buffered() is None
            },
            SpecMembers::Bad(b) => r matches Err(e) && e.row as int == spec_row(
                old(ctx).src(),
                b,
            ) && e.col as int == spec_col(old(ctx).src(), b),
            SpecMembers::Lex => r is Err,
        },
    decreases spec_measure(*tokens, *ctx), 1int,
{
    let ghost src0 = ctx.src();
    let ghost cur0 = tokens.buffered();
    let ghost cs0 = tokens.buffered_start();
    let ghost pos0 = ctx.pos();
    let ghost pm0 = pmeasure(src0, cur0, pos0);
    let ghost fuel0: nat = (2 * pm0 + 2) as nat;
    proof {
        assert(pm0 == spec_measure(*tokens, *ctx));
        assert(spec_members_at(src0, cur0, cs0, pos0) == spec_parse_members(
            src0,
            cur0,
            cs0,
            pos0,
            fuel0,
        ));
        assert(fuel0 >= 2);
    }
    let ghost tstart: int = crate::token::effective_start(*tokens, *ctx);
    let key = match tokens.expect_string(ctx) {
        Ok(k) => k,
        Err(e) => {
            proof {
                match tk_at(src0, cur0, cs0, pos0) {
                    None => {
                        assert(spec_parse_members(src0, cur0, cs0, pos0, fuel0)
                            == SpecMembers::Lex);
                    },
                    Some((t0, ts0, pp1)) => {
                        assert(!(t0 is Str));
                        assert(ts0 == tstart);
                        assert(spec_parse_members(src0, cur0, cs0, pos0, fuel0)
                            == SpecMembers::Bad(tstart));
                    },
                }
            }
            return Err(e);
        },
    };
    let ghost p1 = ctx.pos();
    proof {
        assert(tk_at(src0, cur0, cs0, pos0) == Some((Token::Str(key), tstart, p1)));
        if cur0 is None {
            crate::token::lemma_next_token_measure(src0, pos0);
        }
        assert(pmeasure(src0, None, p1) < pm0);
    }
    match tokens.expect(ctx, &[Token::Colon]) {
        Ok(()) => {},
        Err(e) => {
            proof {
                match spec_next_token(src0, p1) {
                    None => {
                        assert(spec_parse_members(src0, cur0, cs0, pos0, fuel0)
                            == SpecMembers::Lex);
                    },
                    Some((tc, pp2)) => {
                        assert(tc != Token::Colon);
                        assert(spec_parse_members(src0, cur0, cs0, pos0, fuel0)
                            == SpecMembers::Bad(spec_skip_ws(src0, p1)));
                    },
                }
            }
            return Err(e);
        },
    }
    let ghost p2 = ctx.pos();
    proof {
        assert(spec_next_token(src0, p1) == Some((Token::Colon, p2)));
        crate::token::lemma_next_token_measure(src0, p1);
        assert(pmeasure(src0, None, p2) < pmeasure(src0, None, p1));
        assert(tokens.buffered() is None);
    }
    let ghost csv = tokens.buffered_start();
    let value = match parse(tokens, ctx) {
        Ok(v) => v,
        Err(e) => {
            proof {
                lemma_val_canonical(src0, None, 0, csv, p2, (fuel0 - 1) as nat);
            }
            return Err(e);
        },
    };
    proof {
        lemma_val_canonical(src0, None, 0, csv, p2, (fuel0 - 1) as nat);
    }
    let ghost p3 = ctx.pos();
    let ghost tree_v = view_json(value);
    let ghost start4 = crate::token::effective_start(*tokens, *ctx);
    let nxt = match tokens.peek(ctx) {
        Ok(x) => x,
        Err(e) => {
            proof {
                assert(spec_next_token(src0, p3) is None);
                assert(spec_parse_members(src0, cur0, cs0, pos0, fuel0) == SpecMembers::Lex);
            }
            return Err(e);
        },
    };
    let ghost p4 = ctx.pos();
    proof {
        assert(spec_next_token(src0, p3) == Some((nxt, p4)));
        assert(start4 == spec_skip_ws(src0, p3));
        assert(tokens.buffered_start() == start4);
        crate::token::lemma_next_token_measure(src0, p3);
    }
    match nxt {
        Token::Comma => {
            tokens.consume();
            proof {
                assert(pmeasure(src0, None, p4) < pmeasure(src0, None, p3));
            }
            let ghost csr = tokens.buffered_start();
            let rest = match parse_members(tokens, ctx) {
                Ok(ms) => ms,
                Err(e) => {
                    proof {
                        lemma_members_canonical(src0, None, 0, csr, p4, (fuel0 - 1) as nat);
                    }
                    return Err(e);
                },
            };
            proof {
                lemma_members_canonical(src0, None, 0, csr, p4, (fuel0 - 1) as nat);
            }
            let mut out: Vec<(Span, Json)> = Vec::new();
            out.push((key, value));
            let mut rest = rest;
            let ghost rest_view = rest@;
            out.append(&mut rest);
            proof {
                assert(out@ =~= seq![(key, value)] + rest_view);
                lemma_view_members_cons((key, value), rest_view);
            }
            Ok(out)
        },
        Token::BraceClose => {
            match tokens.expect(ctx, &[Token::BraceClose]) {
                Ok(()) => {},
                Err(_) => {
                    proof {
                        assert(false);
                    }
                    return Err(ParseError {
                        row: 1,
                        col: 1,
                        kind: ParseErrorKind::UnexpectedToken(nxt),
                    });
                },
            }
            let mut out: Vec<(Span, Json)> = Vec::new();
            out.push((key, value));
            proof {
                assert(out@ =~= seq![(key, value)]);
                assert(view_members(out@, 1) =~= Seq::<(Span, JsonV)>::empty());
                assert(view_members(out@, 0) =~= seq![(key, tree_v)]);
                assert(spec_parse_members(src0, cur0, cs0, pos0, fuel0) == SpecMembers::Val(
                    seq![(key, tree_v)],
                    p4,
                ));
            }
            Ok(out)
        },
        _ => {
            proof {
                assert(spec_parse_members(src0, cur0, cs0, pos0, fuel0) == SpecMembers::Bad(
                    spec_skip_ws(src0, p3),
                ));
            }
            Err(ParseError {
                row: tokens.token_row(),
                col: tokens.token_col(),
                kind: ParseErrorKind::UnexpectedToken(nxt),
            })
        },
    }
}

/// One or more array elements and the closing bracket, mirroring
/// `spec_elements_at` step for step.
#[verifier::loop_isolation(false)]
#[verifier::rlimit(100)]
fn parse_elements(tokens: &mut Tokenizer, ctx: &mut ParseContext) -> (r: Result<
    Vec<Json>,
    ParseError,
>)
    requires
        old(ctx).wf(),
        tokenizer_wf(*old(tokens), old(ctx).src()),
        tokenizer_sync(*old(tokens), *old(ctx)),
    ensures
        final(ctx).wf(),
        final(ctx).src() == old(ctx).src(),
        tokenizer_wf(*final(tokens), old(ctx).src()),
        tokenizer_sync(*final(tokens), *final(ctx)),
        spec_measure(*final(tokens), *final(ctx)) <= spec_measure(*old(tokens), *old(ctx)),
        r is Ok ==> spec_measure(*final(tokens), *final(ctx)) < spec_measure(
            *old(tokens),
            *old(ctx),
        ),
        match r {
            Ok(es) => forall|i: int| 0 <= i < es@.len() ==> json_wf(#[trigger] es@[i], old(ctx).src()),
            Err(_) => true,
        },
        match spec_elements_at(
            old(ctx).src(),
            old(tokens).buffered(),
            old(tokens).buffered_start(),
            old(ctx).pos(),
        ) {
            SpecElems::Val(esv, p) => {
                &&& r matches Ok(es) && view_elements(es@, 0) == esv
                &&& final(ctx).pos() == p
                &&& final(tokens).buffered() is None
            },
            SpecElems::Bad(b) => r matches Err(e) && e.row as int == spec_row(old(ctx).src(), b)
                && e.col as int == spec_col(old(ctx).src(), b),
            SpecElems::Lex => r is Err,
        },
    decreases spec_measure(*tokens, *ctx), 1int,
{
    let ghost src0 = ctx.src();
    let ghost cur0 = tokens.buffered();
    let ghost cs0 = tokens.buffered_start();
    let ghost pos0 = ctx.pos();
    let ghost pm0 = pmeasure(src0, cur0, pos0);
    let ghost fuel0: nat = (2 * pm0 + 2) as nat;
    proof {
        assert(pm0 == spec_measure(*tokens, *ctx));
        assert(spec_elements_at(src0, cur0, cs0, pos0) == spec_parse_elements(
            src0,
            cur0,
            cs0,
            pos0,
            fuel0,
        ));
        assert(fuel0 >= 2);
    }
    let value = match parse(tokens, ctx) {
        Ok(v) => v,
        Err(e) => {
            proof {
                lemma_val_canonical(src0, cur0, cs0, cs0, pos0, (fuel0 - 1) as nat);
            }
            return Err(e);
        },
    };
    proof {
        lemma_val_canonical(src0, cur0, cs0, cs0, pos0, (fuel0 - 1) as nat);
    }
    let ghost p3 = ctx.pos();
    let ghost tree_v = view_json(value);
    let ghost start4 = crate::token::effective_start(*tokens, *ctx);
    let nxt = match tokens.peek(ctx) {
        Ok(x) => x,
        Err(e) => {
            proof {
                assert(spec_next_token(src0, p3) is None);
                assert(spec_parse_elements(src0, cur0, cs0, pos0, fuel0) == SpecElems::Lex);
            }
            return Err(e);
        },
    };
    let ghost p4 = ctx.pos();
    proof {
        assert(spec_next_token(src0, p3) == Some((nxt, p4)));
        assert(start4 == spec_skip_ws(src0, p3));
        assert(tokens.buffered_start() == start4);
        crate::token::lemma_next_token_measure(src0, p3);
    }
    match nxt {
        Token::Comma => {
            tokens.consume();
            proof {
                assert(pmeasure(src0, None, p4) < pmeasure(src0, None, p3));
            }
            let ghost csr = tokens.buffered_start();
            let rest = match parse_elements(tokens, ctx) {
                Ok(es) => es,
                Err(e) => {
                    proof {
                        lemma_elements_canonical(src0, None, 0, csr, p4, (fuel0 - 1) as nat);
                    }
                    return Err(e);
                },
            };
            proof {
                lemma_elements_canonical(src0, None, 0, csr, p4, (fuel0 - 1) as nat);
            }
            let mut out: Vec<Json> = Vec::new();
            out.push(value);
            let mut rest = rest;
            let ghost rest_view = rest@;
            out.append(&mut rest);
            proof {
                assert(out@ =~= seq![out@[0]] + rest_view);
                lemma_view_elements_cons(out@[0], rest_view);
            }
            Ok(out)
        },
        Token::BracketClose => {
            match tokens.expect(ctx, &[Token::BracketClose]) {
                Ok(()) => {},
                Err(_) => {
                    proof {
                        assert(false);
                    }
                    return Err(ParseError {
                        row: 1,
                        col: 1,
                        kind: ParseErrorKind::UnexpectedToken(nxt),
                    });
                },
            }
            let mut out: Vec<Json> = Vec::new();
            out.push(value);
            proof {
                assert(view_elements(out@, 1) =~= Seq::<JsonV>::empty());
                assert(view_elements(out@, 0) =~= seq![tree_v]);
                assert(spec_parse_elements(src0, cur0, cs0, pos0, fuel0) == SpecElems::Val(
                    seq![tree_v],
                    p4,
                ));
            }
            Ok(out)
        },
        _ => {
            proof {
                assert(spec_parse_elements(src0, cur0, cs0, pos0, fuel0) == SpecElems::Bad(
                    spec_skip_ws(src0, p3),
                ));
            }
            Err(ParseError {
                row: tokens.token_row(),
                col: tokens.token_col(),
                kind: ParseErrorKind::UnexpectedToken(nxt),
            })
        },
    }
}

/// Parses a complete source buffer into a value tree borrowing (by spans)
/// from that buffer: exactly the tree the specification-level parse yields.
/// On a grammar violation the error carries the 1-based row and column of the
/// offending token's start; input after the first value is left unread.
pub fn parse_json(input: &[u8]) -> (r: Result<Json, ParseError>)
    requires
        input@.len() < usize::MAX as nat,
    ensures
        match r {
            Ok(v) => json_wf(v, input@),
            Err(_) => true,
        },
        match spec_parse(input@, None, 0, 0) {
            SpecParse::Val(tree, _) => r matches Ok(v) && view_json(v) == tree,
            SpecParse::Bad(b) => r matches Err(e) && e.row as int == spec_row(input@, b)
                && e.col as int == spec_col(input@, b),
            SpecParse::Lex => r is Err,
        },
{
    let mut ctx = ParseContext::new(input);
    let mut tokens = Tokenizer::new();
    parse(&mut tokens, &mut ctx)
}

/// The serialized bytes of `v` against source `src`: minimal punctuation, no
/// added whitespace, members in order.
pub open spec fn spec_ser(v: Json, src: Seq<u8>) -> Seq<u8>
    decreases v, 1int,
{
    match v {
        Json::Object(ms) => seq![123u8] + spec_ser_members(ms@, 0, src) + seq![125u8],
        Json::Array(es) => seq![91u8] + spec_ser_elements(es@, 0, src) + seq![93u8],
        Json::Str(sp) => seq![34u8] + src.subrange(sp.start as int, sp.end as int) + seq![34u8],
        Json::Num(sp) => src.subrange(sp.start as int, sp.end as int),
        Json::Bool(b) => if b {
            seq![116u8, 114u8, 117u8, 101u8]
        } else {
            seq![102u8, 97u8, 108u8, 115u8, 101u8]
        },
        Json::Null => seq![110u8, 117u8, 108u8, 108u8],
    }
}

/// The members from index `i` on, comma-separated.
pub open spec fn spec_ser_members(ms: Seq<(Span, Json)>, i: int, src: Seq<u8>) -> Seq<u8>
    decreases ms, ms.len() - i, 0int,
{
    if i < 0 || i >= ms.len() {
        Seq::<u8>::empty()
    } else {
        let one = seq![34u8] + src.subrange(ms[i].0.start as int, ms[i].0.end as int) + seq![
            34u8,
            58u8,
        ] + spec_ser(ms[i].1, src);
        if i == ms.len() - 1 {
            one
        } else {
            one + seq![44u8] + spec_ser_members(ms, i + 1, src)
        }
    }
}

/// The elements from index `i` on, comma-separated.
pub open spec fn spec_ser_elements(es: Seq<Json>, i: int, src: Seq<u8>) -> Seq<u8>
    decreases es, es.len() - i, 0int,
{
    if i < 0 || i >= es.len() {
        Seq::<u8>::empty()
    } else {
        let one = spec_ser(es[i], src);
        if i == es.len() - 1 {
            one
        } else {
            one + seq![44u8] + spec_ser_elements(es, i + 1, src)
        }
    }
}

/// Appends the serialization of `v` to `out`.
#[verifier::loop_isolation(false)]
#[verifier::rlimit(100)]
pub fn write_json(v: &Json, src: &[u8], out: &mut Vec<u8>)
    requires
        json_wf(*v, src@),
    ensures
        final(out)@ == old(out)@ + spec_ser(*v, src@),
    decreases *v,
{
    match v {
        Json::Object(ms) => {
            out.push(123);
            let n = ms.len();
            let mut i: usize = 0;
            while i < n
                invariant
                    n == ms@.len(),
                    0 <= i <= n,
                    out@ == old(out)@ + seq![123u8] + spec_ser_members(ms@, 0, src@).subrange(
                        0,
                        spec_ser_members(ms@, 0, src@).len() - spec_ser_members(
                            ms@,
                            i as int,
                            src@,
                        ).len(),
                    ),
                    spec_ser_members(ms@, 0, src@).len() >= spec_ser_members(
                        ms@,
                        i as int,
                        src@,
                    ).len(),
                    spec_ser_members(ms@, 0, src@) == spec_ser_members(ms@, 0, src@).subrange(
                        0,
                        spec_ser_members(ms@, 0, src@).len() - spec_ser_members(
                            ms@,
                            i as int,
                            src@,
                        ).len(),
                    ) + spec_ser_members(ms@, i as int, src@),
                decreases n - i,
            {
                let ghost pre = out@;
                let key = ms[i].0;
                out.push(34);
                let ks = vstd::slice::slice_subrange(src, key.start, key.end);
                out.extend_from_slice(ks);
                out.push(34);
                out.push(58);
                write_json(&ms[i].1, src, out);
                if i + 1 < n {
                    out.push(44);
                }
                proof {
                    let all = spec_ser_members(ms@, 0, src@);
                    let tail_i = spec_ser_members(ms@, i as int, src@);
                    let tail_n = spec_ser_members(ms@, i as int + 1, src@);
                    let one = seq![34u8] + src@.subrange(
                        ms@[i as int].0.start as int,
                        ms@[i as int].0.end as int,
                    ) + seq![34u8, 58u8] + spec_ser(ms@[i as int].1, src@);
                    if i as int == n - 1 {
                        assert(tail_i == one);
                        assert(out@ =~= pre + one);
                    } else {
                        assert(tail_i == one + seq![44u8] + tail_n);
                        assert(out@ =~= pre + one + seq![44u8]);
                    }
                    assert(all == all.subrange(0, all.len() - tail_i.len()) + tail_i);
                    assert(out@ =~= old(out)@ + seq![123u8] + all.subrange(
                        0,
                        all.len() - spec_ser_members(ms@, i as int + 1, src@).len(),
                    ));
                    assert(all =~= all.subrange(0, all.len() - spec_ser_members(
                        ms@,
                        i as int + 1,
                        src@,
                    ).len()) + spec_ser_members(ms@, i as int + 1, src@));
                }
                i += 1;
            }
            out.push(125);
            proof {
                assert(spec_ser_members(ms@, n as int, src@) == Seq::<u8>::empty());
                assert(out@ =~= old(out)@ + spec_ser(*v, src@));
            }
        },
        Json::Array(es) => {
            out.push(91);
            let n = es.len();
            let mut i: usize = 0;
            while i < n
                invariant
                    n == es@.len(),
                    0 <= i <= n,
                    out@ == old(out)@ + seq![91u8] + spec_ser_elements(es@, 0, src@).subrange(
                        0,
                        spec_ser_elements(es@, 0, src@).len() - spec_ser_elements(
                            es@,
                            i as int,
                            src@,
                        ).len(),
                    ),
                    spec_ser_elements(es@, 0, src@).len() >= spec_ser_elements(
                        es@,
                        i as int,
                        src@,
                    ).len(),
                    spec_ser_elements(es@, 0, src@) == spec_ser_elements(es@, 0, src@).subrange(
                        0,
                        spec_ser_elements(es@, 0, src@).len() - spec_ser_elements(
                            es@,
                            i as int,
                            src@,
                        ).len(),
                    ) + spec_ser_elements(es@, i as int, src@),
                decreases n - i,
            {
                let ghost pre = out@;
                write_json(&es[i], src, out);
                if i + 1 < n {
                    out.push(44);
                }
                proof {
                    let all = spec_ser_elements(es@, 0, src@);
                    let tail_i = spec_ser_elements(es@, i as int, src@);
                    let tail_n = spec_ser_elements(es@, i as int + 1, src@);
                    let one = spec_ser(es@[i as int], src@);
                    if i as int == n - 1 {
                        assert(tail_i == one);
                        assert(out@ =~= pre + one);
                    } else {
                        assert(tail_i == one + seq![44u8] + tail_n);
                        assert(out@ =~= pre + one + seq![44u8]);
                    }
                    assert(all == all.subrange(0, all.len() - tail_i.len()) + tail_i);
                    assert(out@ =~= old(out)@ + seq![91u8] + all.subrange(
                        0,
                        all.len() - spec_ser_elements(es@, i as int + 1, src@).len(),
                    ));
                    assert(all =~= all.subrange(0, all.len() - spec_ser_elements(
                        es@,
                        i as int + 1,
                        src@,
                    ).len()) + spec_ser_elements(es@, i as int + 1, src@));
                }
                i += 1;
            }
            out.push(93);
            proof {
                assert(spec_ser_elements(es@, n as int, src@) == Seq::<u8>::empty());
                assert(out@ =~= old(out)@ + spec_ser(*v, src@));
            }
        },
        Json::Str(sp) => {
            out.push(34);
            let body = vstd::slice::slice_subrange(src, sp.start, sp.end);
            out.extend_from_slice(body);
            out.push(34);
            proof {
                assert(out@ =~= old(out)@ + spec_ser(*v, src@));
            }
        },
        Json::Num(sp) => {
            let lex = vstd::slice::slice_subrange(src, sp.start, sp.end);
            out.extend_from_slice(lex);
            proof {
                assert(out@ =~= old(out)@ + spec_ser(*v, src@));
            }
        },
        Json::Bool(b) => {
            if *b {
                out.push(116);
                out.push(114);
                out.push(117);
                out.push(101);
            } else {
                out.push(102);
                out.push(97);
                out.push(108);
                out.push(115);
                out.push(101);
            }
            proof {
                assert(out@ =~= old(out)@ + spec_ser(*v, src@));
            }
        },
        Json::Null => {
            out.push(110);
            out.push(117);
            out.push(108);
            out.push(108);
            proof {
                assert(out@ =~= old(out)@ + spec_ser(*v, src@));
            }
        },
    }
}

/// Serializes `v` back to bytes: parsing those bytes yields an equivalent
/// tree, order-preserving for object members.
pub fn to_bytes(v: &Json, src: &[u8]) -> (r: Vec<u8>)
    requires
        json_wf(*v, src@),
    ensures
        r@ == spec_ser(*v, src@),
{
    let mut out: Vec<u8> = Vec::new();
    write_json(v, src, &mut out);
    proof {
        assert(out@ =~= spec_ser(*v, src@));
    }
    out
}

} // verus!
