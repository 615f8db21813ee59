use vstd::prelude::*;
use crate::stream::{Stream, StreamView};
use crate::primitives::{Primitives, Obj};
use crate::reader::{spec_is_whitespace, is_whitespace, is_digit, all_digits, decimal_value, lemma_decimal_value_prefix, remaining};
use crate::parser::{ParserError, UNSUPPORTED_TOKEN};

verus! {

/// The PDF delimiter characters: `( ) < > [ ] { } / %`.
pub open spec fn spec_is_delimiter(c: u8) -> bool {
    c == 0x28 || c == 0x29 || c == 0x3c || c == 0x3e || c == 0x5b || c == 0x5d || c == 0x7b
        || c == 0x7d || c == 0x2f || c == 0x25
}

/// A regular character: neither white space nor a delimiter.
pub open spec fn spec_is_regular(c: u8) -> bool {
    !spec_is_whitespace(c) && !spec_is_delimiter(c)
}

pub open spec fn is_eol(c: u8) -> bool {
    c == 0x0a || c == 0x0d
}

/// Steps past the byte at `pos`.
pub open spec fn advance(s: StreamView) -> StreamView {
    s.with_pos((s.pos + 1) as u64)
}

/// Skips white space and comments; a comment runs from `%` to the end of
/// the line.
pub open spec fn skip_space(s: StreamView) -> StreamView
    decreases remaining(s), 0nat,
{
    let (b, s1) = s.peek_byte();
    match b {
        Some(c) => if spec_is_whitespace(c) {
            skip_space(advance(s1))
        } else if c == 0x25 {
            skip_comment(advance(s1))
        } else {
            s1
        },
        None => s1,
    }
}

/// Skips the rest of a comment, then white space and comments after it.
pub open spec fn skip_comment(s: StreamView) -> StreamView
    decreases remaining(s), 1nat,
{
    let (b, s1) = s.peek_byte();
    match b {
        Some(c) => if is_eol(c) {
            skip_space(s1)
        } else {
            skip_comment(advance(s1))
        },
        None => s1,
    }
}

/// Collects regular characters.
pub open spec fn scan_regular(s: StreamView) -> (Seq<u8>, StreamView)
    decreases remaining(s),
{
    let (b, s1) = s.peek_byte();
    match b {
        Some(c) => if spec_is_regular(c) {
            let (rest, s2) = scan_regular(advance(s1));
            (seq![c] + rest, s2)
        } else {
            (Seq::empty(), s1)
        },
        None => (Seq::empty(), s1),
    }
}

/// A token read as a signed integer: an optional sign, then one or more
/// digits whose value fits in an `i64`.
pub open spec fn spec_parse_i64(tok: Seq<u8>) -> Option<i64> {
    let neg = tok.len() > 0 && tok[0] == 0x2d;
    let digits = if tok.len() > 0 && (tok[0] == 0x2b || tok[0] == 0x2d) {
        tok.drop_first()
    } else {
        tok
    };
    if digits.len() == 0 || !all_digits(digits) {
        None
    } else if neg && decimal_value(digits) <= 0x8000_0000_0000_0000 {
        Some((-decimal_value(digits)) as i64)
    } else if !neg && decimal_value(digits) <= i64::MAX {
        Some(decimal_value(digits) as i64)
    } else {
        None
    }
}

/// A character that starts a number.
pub open spec fn starts_number(c: u8) -> bool {
    c == 0x2b || c == 0x2d || c == 0x2e || is_digit(c)
}

/// The bytes of the keyword `null`.
pub open spec fn null_keyword() -> Seq<u8> {
    seq![0x6eu8, 0x75, 0x6c, 0x6c]
}

/// The object a run of regular characters stands for: an integer, `null`,
/// or a command. Other numbers (reals, or integers too large for an `i64`)
/// are not supported.
pub open spec fn classify(tok: Seq<u8>) -> Result<Obj, u32> {
    match spec_parse_i64(tok) {
        Some(n) => Ok(Obj::Int(n)),
        None => if tok == null_keyword() {
            Ok(Obj::Null)
        } else if starts_number(tok[0]) {
            Err(UNSUPPORTED_TOKEN)
        } else {
            Ok(Obj::Cmd(tok))
        },
    }
}

/// What [`Lexer::get_obj`] reads: after white space and comments, the end
/// of the data, a bracket or brace, `<<` or `>>`, a name, or a run of regular
/// characters. Strings, hexadecimal strings and real numbers are not
/// supported: on those the lexer reports an error after the first byte.
pub open spec fn spec_lex(s: StreamView) -> (Result<Obj, u32>, StreamView) {
    let s1 = skip_space(s);
    let (b, s2) = s1.peek_byte();
    match b {
        None => (Ok(Obj::EOF), s2),
        Some(c) => {
            let s3 = advance(s2);
            if c == 0x5b || c == 0x5d || c == 0x7b || c == 0x7d {
                (Ok(Obj::Cmd(seq![c])), s3)
            } else if c == 0x3c || c == 0x3e {
                let (b2, s4) = s3.peek_byte();
                if b2 == Some(c) {
                    (Ok(Obj::Cmd(seq![c, c])), advance(s4))
                } else {
                    (Err(UNSUPPORTED_TOKEN), s4)
                }
            } else if c == 0x2f {
                let (run, s4) = scan_regular(s3);
                (Ok(Obj::Name(run)), s4)
            } else if spec_is_delimiter(c) {
                (Err(UNSUPPORTED_TOKEN), s3)
            } else {
                let (run, s4) = scan_regular(s3);
                (classify(seq![c] + run), s4)
            }
        },
    }
}

/// Reading a token never moves back, and never past the end mark.
pub open spec fn moves_forward(s: StreamView, t: StreamView) -> bool {
    &&& t.data == s.data
    &&& t.start == s.start
    &&& t.end == s.end
    &&& remaining(t) <= remaining(s)
}

/// The digits in `tok` from `from` on, as an unsigned magnitude.
fn parse_magnitude(tok: &Vec<u8>, from: usize) -> (r: Option<u64>)
    requires
        from <= tok@.len(),
    ensures
        ({
            let d = tok@.subrange(from as int, tok@.len() as int);
            r == if d.len() > 0 && all_digits(d) && decimal_value(d) <= u64::MAX {
                Some(decimal_value(d) as u64)
            } else {
                None
            }
        }),
{
    let n = tok.len();
    let ghost d = tok@.subrange(from as int, n as int);
    if from == n {
        return None;
    }
    let mut acc: u64 = 0;
    let mut i = from;
    while i < n
        invariant
            from <= i <= n,
            n == tok@.len(),
            d == tok@.subrange(from as int, n as int),
            forall|j: int| 0 <= j < i - from ==> is_digit(#[trigger] d[j]),
            acc == decimal_value(d.take(i - from)),
        decreases n - i,
    {
        let c = tok[i];
        assert(d[i - from] == tok@[i as int]);
        if c < 0x30 || c > 0x39 {
            assert(!is_digit(d[i - from]));
            return None;
        }
        assert(d.take(i - from + 1).drop_last() == d.take(i - from));
        assert(d.take(i - from + 1).last() == c);
        let v = (c - 0x30) as u64;
        if acc > (u64::MAX - v) / 10 {
            proof {
                assert(acc * 10 + v > u64::MAX) by (nonlinear_arith)
                    requires
                        acc > (u64::MAX - v) / 10,
                        v <= 9,
                ;
                if all_digits(d) {
                    lemma_decimal_value_prefix(d, i - from + 1);
                }
            }
            return None;
        }
        assert(acc * 10 + v <= u64::MAX) by (nonlinear_arith)
            requires
                acc <= (u64::MAX - v) / 10,
                v <= 9,
        ;
        acc = acc * 10 + v;
        i = i + 1;
    }
    assert(d.take(n - from) == d);
    Some(acc)
}

/// Reads a token as a signed integer; see [`spec_parse_i64`].
fn parse_i64(tok: &Vec<u8>) -> (r: Option<i64>)
    ensures
        r == spec_parse_i64(tok@),
{
    let n = tok.len();
    let neg = n > 0 && tok[0] == 0x2d;
    let from: usize = if n > 0 && (tok[0] == 0x2b || tok[0] == 0x2d) {
        1
    } else {
        0
    };
    let ghost digits = if tok@.len() > 0 && (tok@[0] == 0x2b || tok@[0] == 0x2d) {
        tok@.drop_first()
    } else {
        tok@
    };
    assert(digits == tok@.subrange(from as int, n as int));
    match parse_magnitude(tok, from) {
        None => None,
        Some(m) => {
            if neg && m <= 0x8000_0000_0000_0000u64 {
                if m == 0x8000_0000_0000_0000u64 {
                    Some(i64::MIN)
                } else {
                    Some(-(m as i64))
                }
            } else if !neg && m <= i64::MAX as u64 {
                Some(m as i64)
            } else {
                None
            }
        },
    }
}

/// Whether `c` is a PDF delimiter character.
fn is_delimiter(c: u8) -> (b: bool)
    ensures
        b == spec_is_delimiter(c),
{
    c == 0x28 || c == 0x29 || c == 0x3c || c == 0x3e || c == 0x5b || c == 0x5d || c == 0x7b
        || c == 0x7d || c == 0x2f || c == 0x25
}

/// Splits a stream into PDF tokens.
#[derive(Debug, Clone, Copy)]
pub struct Lexer<'a> {
    stream: Stream<'a>,
}

impl<'a> View for Lexer<'a> {
    type V = StreamView;

    closed spec fn view(&self) -> StreamView {
        self.stream@
    }
}

impl<'a> Lexer<'a> {
    pub fn new(stream: Stream<'a>) -> (l: Self)
        ensures
            l@ == stream@,
    {
        Lexer { stream }
    }

    /// The stream the lexer reads.
    pub fn stream(&self) -> (s: &Stream<'a>)
        ensures
            s@ == self@,
    {
        &self.stream
    }

    /// Reads the next byte and steps past it.
    fn next_byte(&mut self) -> (r: Option<u8>)
        ensures
            ({
                let (b, s1) = old(self)@.peek_byte();
                r == b && final(self)@ == match b {
                    Some(_) => advance(s1),
                    None => s1,
                }
            }),
    {
        let b = self.stream.peek_byte();
        if b.is_some() {
            let p = self.stream.pos();
            self.stream.set_pos(p + 1);
        }
        b
    }

    /// Skips white space and comments.
    fn skip_space(&mut self)
        ensures
            final(self)@ == skip_space(old(self)@),
            moves_forward(old(self)@, final(self)@),
    {
        let mut in_comment = false;
        loop
            invariant
                skip_space(old(self)@) == if in_comment {
                    skip_comment(self@)
                } else {
                    skip_space(self@)
                },
                moves_forward(old(self)@, self@),
            decreases remaining(self@), (if in_comment { 1nat } else { 0nat }),
        {
            let ghost before = self@;
            let b = self.stream.peek_byte();
            match b {
                None => {
                    return ;
                },
                Some(c) => {
                    if in_comment {
                        if c == 0x0a || c == 0x0d {
                            in_comment = false;
                        } else {
                            let p = self.stream.pos();
                            self.stream.set_pos(p + 1);
                        }
                    } else if is_whitespace(c) {
                        let p = self.stream.pos();
                        self.stream.set_pos(p + 1);
                    } else if c == 0x25 {
                        let p = self.stream.pos();
                        self.stream.set_pos(p + 1);
                        in_comment = true;
                    } else {
                        return ;
                    }
                },
            }
        }
    }

    /// Collects regular characters.
    fn scan_regular(&mut self) -> (r: Vec<u8>)
        ensures
            (r@, final(self)@) == scan_regular(old(self)@),
            moves_forward(old(self)@, final(self)@),
    {
        let mut run: Vec<u8> = Vec::new();
        loop
            invariant
                scan_regular(old(self)@) == ({
                    let (rest, s) = scan_regular(self@);
                    (run@ + rest, s)
                }),
                moves_forward(old(self)@, self@),
            decreases remaining(self@),
        {
            let b = self.stream.peek_byte();
            match b {
                Some(c) => {
                    if !is_whitespace(c) && !is_delimiter(c) {
                        run.push(c);
                        let p = self.stream.pos();
                        self.stream.set_pos(p + 1);
                    } else {
                        assert(run@ + Seq::<u8>::empty() == run@);
                        return run;
                    }
                },
                None => {
                    assert(run@ + Seq::<u8>::empty() == run@);
                    return run;
                },
            }
        }
    }

    /// Reads the next token; see [`spec_lex`].
    pub fn get_obj(&mut self) -> (r: Result<Primitives, ParserError>)
        ensures
            (match r {
                Ok(p) => Ok(p@),
                Err(e) => Err(e.0),
            }, final(self)@) == spec_lex(old(self)@),
            moves_forward(old(self)@, final(self)@),
            spec_lex(old(self)@).0 != Ok::<Obj, u32>(Obj::EOF) ==> remaining(final(self)@) < remaining(
                old(self)@,
            ),
    {
        self.skip_space();
        let c = match self.next_byte() {
            None => return Ok(Primitives::EOF),
            Some(c) => c,
        };
        if c == 0x5b || c == 0x5d || c == 0x7b || c == 0x7d {
            let mut v: Vec<u8> = Vec::new();
            v.push(c);
            assert(v@ == seq![c]);
            return Ok(Primitives::Cmd(v));
        }
        if c == 0x3c || c == 0x3e {
            let b2 = self.stream.peek_byte();
            let same = match b2 {
                Some(c2) => c2 == c,
                None => false,
            };
            if same {
                let p = self.stream.pos();
                self.stream.set_pos(p + 1);
                let mut v: Vec<u8> = Vec::new();
                v.push(c);
                v.push(c);
                assert(v@ == seq![c, c]);
                return Ok(Primitives::Cmd(v));
            }
            return Err(ParserError(UNSUPPORTED_TOKEN));
        }
        if c == 0x2f {
            let run = self.scan_regular();
            return Ok(Primitives::name(run));
        }
        if is_delimiter(c) {
            return Err(ParserError(UNSUPPORTED_TOKEN));
        }
        let rest = self.scan_regular();
        let mut tok: Vec<u8> = Vec::new();
        tok.push(c);
        let mut i: usize = 0;
        while i < rest.len()
            invariant
                i <= rest@.len(),
                tok@ == seq![c] + rest@.take(i as int),
            decreases rest@.len() - i,
        {
            tok.push(rest[i]);
            i = i + 1;
            assert(rest@.take(i as int) == rest@.take((i - 1) as int).push(rest@[i - 1]));
        }
        assert(rest@.take(rest@.len() as int) == rest@);
        match parse_i64(&tok) {
            Some(n) => Ok(Primitives::Int(n)),
            None => {
                if tok.len() == 4 && tok[0] == 0x6e && tok[1] == 0x75 && tok[2] == 0x6c && tok[3]
                    == 0x6c {
                    assert(tok@ == null_keyword());
                    Ok(Primitives::Null)
                } else if c == 0x2b || c == 0x2d || c == 0x2e || (0x30 <= c && c <= 0x39) {
                    assert(tok@ != null_keyword());
                    Err(ParserError(UNSUPPORTED_TOKEN))
                } else {
                    assert(tok@ != null_keyword());
                    Ok(Primitives::Cmd(tok))
                }
            },
        }
    }
}

/// One of the bytes that end a run of regular characters: the PDF white
/// space (NUL, TAB, LF, FF, CR, SPACE) and the delimiters `( ) < > [ ] { } / %`.
pub open spec fn ends_run(c: u8) -> bool {
    c == 0x00 || c == 0x09 || c == 0x0a || c == 0x0c || c == 0x0d || c == 0x20 || c == 0x28 || c
        == 0x29 || c == 0x3c || c == 0x3e || c == 0x5b || c == 0x5d || c == 0x7b || c == 0x7d || c
        == 0x2f || c == 0x25
}

/// A run of regular characters holds no white space and no delimiter: it
/// stops at the first of them (so a `/` starts a new name).
pub proof fn law_run_has_no_delimiter(s: StreamView)
    ensures
        forall|i: int| 0 <= i < scan_regular(s).0.len() ==> !ends_run(#[trigger] scan_regular(s).0[i]),
    decreases remaining(s),
{
    let (b, s1) = s.peek_byte();
    if let Some(c) = b {
        if spec_is_regular(c) {
            law_run_has_no_delimiter(advance(s1));
            let rest = scan_regular(advance(s1)).0;
            let run = scan_regular(s).0;
            assert(run == seq![c] + rest);
            assert forall|i: int| 0 <= i < run.len() implies !ends_run(#[trigger] run[i]) by {
                if i > 0 {
                    assert(run[i] == rest[i - 1]);
                }
            }
        }
    }
}

/// A name read by the lexer holds no white space and no delimiter; in
/// particular no `/`, so `/Type/Catalog` is two names.
pub proof fn law_name_has_no_delimiter(s: StreamView)
    ensures
        spec_lex(s).0 matches Ok(Obj::Name(n)) ==> forall|i: int|
            0 <= i < n.len() ==> !ends_run(#[trigger] n[i]),
{
    let s1 = skip_space(s);
    let (b, s2) = s1.peek_byte();
    if let Some(c) = b {
        law_run_has_no_delimiter(advance(s2));
    }
}

} // verus!
