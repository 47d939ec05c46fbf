use coro_engine::cursor::{capture_slice, expect_byte, expect_bytes, read, skip_whitespace, ParseContext, ParseErrorKind};
use coro_engine::json::{parse_json, to_bytes, Json};
use coro_engine::token::{Token, Tokenizer};

/// Canonical bytes of a parsed tree: serialization against its own source.
fn canon(src: &[u8]) -> Vec<u8> {
    let v = parse_json(src).unwrap();
    to_bytes(&v, src)
}

#[test]
fn round_trip_reproduces_the_tree() {
    // parse, re-serialize, re-parse: the same value tree comes back
    let docs: Vec<&[u8]> = vec![
        b"null",
        b"true",
        b"  false ",
        b"42",
        b"-17.25e2",
        b"\"hello world\"",
        b"\"esc \\\" quote\"",
        b"[]",
        b"{}",
        b"[1, 2, 3]",
        b"{\"a\": 1, \"b\": [true, null], \"a\": 2}",
        b"{\"outer\": {\"inner\": [\"x\", {\"y\": 0.5}]}}",
    ];
    for doc in docs {
        let once = canon(doc);
        let twice = canon(&once);
        assert_eq!(once, twice);
    }
}

#[test]
fn round_trip_keeps_member_order_and_duplicates() {
    let doc = b"{\"b\": 1, \"a\": 2, \"b\": 3}";
    let out = canon(doc);
    assert_eq!(out, b"{\"b\":1,\"a\":2,\"b\":3}".to_vec());
}

#[test]
fn numbers_agree_with_the_reference_decimal_parser() {
    let doc = b"[0, -1, 3.25, 1e3, -2.5E-2, 5., 12e+2]";
    let v = parse_json(doc).unwrap();
    let expected: Vec<f64> = vec![0.0, -1.0, 3.25, 1000.0, -0.025, 5.0, 1200.0];
    match v {
        Json::Array(items) => {
            assert_eq!(items.len(), expected.len());
            for (item, want) in items.iter().zip(expected.iter()) {
                match item {
                    Json::Num(sp) => {
                        let lex = std::str::from_utf8(&doc[sp.start..sp.end]).unwrap();
                        let got: f64 = lex.parse().unwrap();
                        assert_eq!(got, *want);
                    },
                    other => panic!("expected a number, got {:?}", to_bytes(other, doc)),
                }
            }
        },
        _ => panic!("expected an array"),
    }
}

#[test]
fn string_and_number_slices_are_windows_into_the_input() {
    // P2: every string/number token's slice is the contiguous substring of
    // the original buffer at the reported offsets
    let doc = b"{\"key\": 1234, \"s\": \"va\\\"l\"}";
    let v = parse_json(doc).unwrap();
    match v {
        Json::Object(members) => {
            assert_eq!(members.len(), 2);
            let (k0, v0) = &members[0];
            assert_eq!(&doc[k0.start..k0.end], b"key");
            match v0 {
                Json::Num(sp) => assert_eq!(&doc[sp.start..sp.end], b"1234"),
                _ => panic!("expected a number"),
            }
            let (k1, v1) = &members[1];
            assert_eq!(&doc[k1.start..k1.end], b"s");
            match v1 {
                Json::Str(sp) => assert_eq!(&doc[sp.start..sp.end], b"va\\\"l"),
                _ => panic!("expected a string"),
            }
        },
        _ => panic!("expected an object"),
    }
}

#[test]
fn peeking_twice_returns_the_identical_token() {
    // P3: peeking the same position twice without consuming
    let doc = b"  {\"a\": 1}";
    let mut ctx = ParseContext::new(doc);
    let mut tokens = Tokenizer::new();
    let t1 = tokens.peek(&mut ctx).unwrap();
    let t2 = tokens.peek(&mut ctx).unwrap();
    assert_eq!(t1, t2);
    assert_eq!(t1, Token::BraceOpen);
    tokens.consume();
    let t3 = tokens.peek(&mut ctx).unwrap();
    let t4 = tokens.peek(&mut ctx).unwrap();
    assert_eq!(t3, t4);
}

#[test]
fn error_position_names_the_offending_column() {
    // P4: parsing `{"a": }` fails at row 1, the column of the `}`
    let doc = b"{\"a\": }";
    let err = parse_json(doc).unwrap_err();
    assert_eq!(err.row, 1);
    assert_eq!(err.col, 7);
    assert_eq!(err.kind, ParseErrorKind::UnexpectedToken(Token::BraceClose));
}

#[test]
fn error_positions_track_rows() {
    let doc = b"{\n  \"a\":\n   ]\n}";
    let err = parse_json(doc).unwrap_err();
    assert_eq!(err.row, 3);
    assert_eq!(err.col, 4);
}

#[test]
fn lexical_errors() {
    match parse_json(b"\"abc").unwrap_err().kind {
        ParseErrorKind::UnterminatedString => {},
        k => panic!("wrong kind {:?}", k),
    }
    match parse_json(b"1e+").unwrap_err().kind {
        ParseErrorKind::MalformedNumber => {},
        k => panic!("wrong kind {:?}", k),
    }
    match parse_json(b"@").unwrap_err().kind {
        ParseErrorKind::UnexpectedChar(c) => assert_eq!(c, b'@'),
        k => panic!("wrong kind {:?}", k),
    }
    match parse_json(b"trve").unwrap_err().kind {
        ParseErrorKind::ExpectedByte { expected, got } => {
            assert_eq!(expected, b'u');
            assert_eq!(got, Some(b'v'));
        },
        k => panic!("wrong kind {:?}", k),
    }
    match parse_json(b"[1, ]").unwrap_err().kind {
        ParseErrorKind::UnexpectedToken(Token::BracketClose) => {},
        k => panic!("wrong kind {:?}", k),
    }
    match parse_json(b"").unwrap_err().kind {
        ParseErrorKind::UnexpectedToken(Token::Eof) => {},
        k => panic!("wrong kind {:?}", k),
    }
}

#[test]
fn keywords_and_empty_containers() {
    assert!(matches!(parse_json(b" true ").unwrap(), Json::Bool(true)));
    assert!(matches!(parse_json(b"false").unwrap(), Json::Bool(false)));
    assert!(matches!(parse_json(b"null").unwrap(), Json::Null));
    match parse_json(b" [ ] ").unwrap() {
        Json::Array(es) => assert!(es.is_empty()),
        _ => panic!("expected an array"),
    }
    match parse_json(b"{ }").unwrap() {
        Json::Object(ms) => assert!(ms.is_empty()),
        _ => panic!("expected an object"),
    }
}

#[test]
fn multibyte_text_in_strings_survives() {
    // non-ASCII bytes pass through string bodies untouched
    let doc = "{\"k\": \"caf\u{e9} \u{1F600}\"}".as_bytes();
    let once = canon(doc);
    let twice = canon(&once);
    assert_eq!(once, twice);
    assert!(std::str::from_utf8(&once).is_ok());
}

#[test]
fn trailing_input_is_left_unread() {
    // the driver parses one value and ignores what follows
    let v = parse_json(b"42 junk").unwrap();
    assert!(matches!(v, Json::Num(_)));
}

#[test]
fn character_level_primitives() {
    let doc = b"  true!";
    let mut ctx = ParseContext::new(doc);
    skip_whitespace(&mut ctx);
    assert_eq!(ctx.mark(), 2);
    let start = ctx.mark();
    assert!(expect_bytes(&mut ctx, b"true").is_ok());
    assert_eq!(capture_slice(&ctx, start), b"true");
    assert_eq!(read(&mut ctx), Some(b'!'));
    assert_eq!(read(&mut ctx), None);
    // a mismatch is an error carrying the position
    let mut ctx2 = ParseContext::new(b"xy");
    let err = expect_byte(&mut ctx2, b'a').unwrap_err();
    assert_eq!(err.row, 1);
}

#[test]
fn rows_and_columns_count_characters() {
    // two-byte character: the column advances once for it
    let doc = "a\u{e9}b\nc".as_bytes();
    let mut ctx = ParseContext::new(doc);
    while read(&mut ctx).is_some() {}
    assert_eq!(ctx.row_number(), 2);
    assert_eq!(ctx.col_number(), 2);
}
