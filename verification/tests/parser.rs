use lib::lexer::Lexer;
use lib::parser::{Parser, ParserError, NO_DICT_KEY, NO_OBJECT_BUFFERED, NO_TOKEN_AFTER_INTEGER, UNSUPPORTED_STREAM, UNSUPPORTED_TOKEN};
use lib::primitives::{Dict, Name, Primitives, Ref};
use lib::stream::Stream;

fn tokens(text: &[u8]) -> Vec<Result<Primitives, ParserError>> {
    let data = text.to_vec();
    let mut lexer = Lexer::new(Stream::new(&data, data.len()));
    let mut out = Vec::new();
    loop {
        let t = lexer.get_obj();
        let end = matches!(t, Ok(Primitives::EOF));
        out.push(t);
        if end {
            break;
        }
    }
    out
}

fn parse_all(text: &[u8], allow_streams: bool) -> Vec<Result<Primitives, ParserError>> {
    let data = text.to_vec();
    let mut parser = Parser::new(Lexer::new(Stream::new(&data, data.len())), allow_streams);
    let mut out = Vec::new();
    for _ in 0..10 {
        let o = parser.get_obj();
        let end = matches!(o, Ok(Primitives::EOF));
        out.push(o);
        if end {
            break;
        }
    }
    out
}

#[test]
fn lexer_reads_tokens() {
    let t = tokens(b"  xref %comment\r\n 0 -12 +3 /Name [ ] << >> { } null");
    assert_eq!(
        t,
        vec![
            Ok(Primitives::cmd("xref")),
            Ok(Primitives::Int(0)),
            Ok(Primitives::Int(-12)),
            Ok(Primitives::Int(3)),
            Ok(Primitives::name(b"Name".to_vec())),
            Ok(Primitives::cmd("[")),
            Ok(Primitives::cmd("]")),
            Ok(Primitives::cmd("<<")),
            Ok(Primitives::cmd(">>")),
            Ok(Primitives::cmd("{")),
            Ok(Primitives::cmd("}")),
            Ok(Primitives::Null),
            Ok(Primitives::EOF),
        ]
    );
}

#[test]
fn lexer_rejects_what_it_does_not_read() {
    let t = tokens(b"1.5 (s) <41> 99999999999999999999 f");
    assert_eq!(t[0], Err(ParserError(UNSUPPORTED_TOKEN)));
    assert_eq!(t.last(), Some(&Ok(Primitives::EOF)));
    assert!(t.contains(&Ok(Primitives::cmd("f"))));
    assert_eq!(tokens(b"-9223372036854775808")[0], Ok(Primitives::Int(i64::MIN)));
}

#[test]
fn lexer_stream_is_shared() {
    let data = b"abc def".to_vec();
    let mut lexer = Lexer::new(Stream::new(&data, data.len()));
    assert_eq!(lexer.get_obj(), Ok(Primitives::cmd("abc")));
    assert_eq!(lexer.stream().pos(), 3);
}

#[test]
fn parser_reads_arrays_and_references() {
    let r = parse_all(b"[1 2 R 3 /N] 5 0 R 7", false);
    assert_eq!(
        r[0],
        Ok(Primitives::Array(vec![
            Primitives::Ref(Ref::new(1, 2)),
            Primitives::Int(3),
            Primitives::name(b"N".to_vec()),
        ]))
    );
    assert_eq!(r[1], Ok(Primitives::Ref(Ref::new(5, 0))));
    assert_eq!(r[2], Ok(Primitives::Int(7)));
    assert_eq!(r[3], Ok(Primitives::EOF));
}

#[test]
fn parser_reads_dictionaries() {
    let r = parse_all(b"<< /A 1 /B [true] 3 /C << /D 4 >> /A 2 >> end", false);
    let inner = Dict::new(vec![(Name(b"D".to_vec()), Primitives::Int(4))]);
    let expected = Dict::new(vec![
        (Name(b"A".to_vec()), Primitives::Int(2)),
        (Name(b"B".to_vec()), Primitives::Array(vec![Primitives::cmd("true")])),
        (Name(b"C".to_vec()), Primitives::Dict(inner)),
    ]);
    assert_eq!(r[0], Ok(Primitives::Dict(expected)));
    assert_eq!(r[1], Ok(Primitives::cmd("end")));
}

#[test]
fn parser_closes_at_end_of_data() {
    let r = parse_all(b"[1 [2", false);
    assert_eq!(
        r[0],
        Ok(Primitives::Array(vec![Primitives::Int(1), Primitives::Array(vec![Primitives::Int(2)])]))
    );
    let d = parse_all(b"<< /K 1", false);
    assert_eq!(d[0], Ok(Primitives::Dict(Dict::new(vec![(Name(b"K".to_vec()), Primitives::Int(1))]))));
    let e = parse_all(b"<< /K", false);
    assert_eq!(e[0], Ok(Primitives::Dict(Dict::empty())));
}

#[test]
fn parser_stream_objects() {
    let r = parse_all(b"<< /Length 0 >> stream", true);
    assert_eq!(r[0], Err(ParserError(UNSUPPORTED_STREAM)));
    let s = parse_all(b"<< /Length 0 >> stream", false);
    assert_eq!(s[0], Ok(Primitives::Dict(Dict::new(vec![(Name(b"Length".to_vec()), Primitives::Int(0))]))));
}

#[test]
fn parser_reports_lexer_errors() {
    let r = parse_all(b"(x) 1", false);
    assert_eq!(r[0], Err(ParserError(NO_OBJECT_BUFFERED)));
    assert_eq!(r[1], Ok(Primitives::cmd("x")));
    assert_eq!(r[2], Err(ParserError(NO_OBJECT_BUFFERED)));
    assert_eq!(r[3], Ok(Primitives::Int(1)));
}

#[test]
fn parser_buffers() {
    let data = b"1 2 3".to_vec();
    let mut p = Parser::new(Lexer::new(Stream::new(&data, data.len())), false);
    assert_eq!(p.buf1(), Some(Primitives::Int(1)));
    assert_eq!(p.buf2(), Some(Primitives::Int(2)));
    assert_eq!(p.get_obj(), Ok(Primitives::Int(1)));
    assert_eq!(p.buf1(), Some(Primitives::Int(2)));
    assert_eq!(p.lexer().stream().pos(), 5);
}

#[test]
fn parser_inline_image_marker() {
    let data = b"x ID 1".to_vec();
    let mut p = Parser::new(Lexer::new(Stream::new(&data, data.len())), false);
    assert_eq!(p.get_obj(), Ok(Primitives::cmd("x")));
    assert_eq!(p.buf2(), None);
    assert_eq!(p.get_obj(), Ok(Primitives::cmd("ID")));
    assert_eq!(p.get_obj(), Err(ParserError(NO_OBJECT_BUFFERED)));
    assert_eq!(p.get_obj(), Ok(Primitives::Int(1)));
}

#[test]
fn parser_dict_end_without_lookahead_is_reported() {
    let data = b"<< >> (".to_vec();
    let mut p = Parser::new(Lexer::new(Stream::new(&data, data.len())), false);
    assert!(p.get_obj_checked().is_none());
}

#[test]
fn parser_error_codes_name_the_failing_step() {
    let data = b"1 (".to_vec();
    let mut p = Parser::new(Lexer::new(Stream::new(&data, data.len())), false);
    assert_eq!(p.get_obj(), Err(ParserError(NO_TOKEN_AFTER_INTEGER)));
    let data = b"<< (".to_vec();
    let mut p = Parser::new(Lexer::new(Stream::new(&data, data.len())), false);
    assert_eq!(p.get_obj(), Err(ParserError(NO_DICT_KEY)));
    assert_eq!(NO_OBJECT_BUFFERED, 68);
    assert_eq!(NO_DICT_KEY, 91);
    assert_eq!(NO_TOKEN_AFTER_INTEGER, 127);
    assert_eq!(UNSUPPORTED_STREAM, 150);
}
