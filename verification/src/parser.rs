use vstd::prelude::*;
use crate::lexer::{Lexer, spec_lex};
use crate::primitives::{Primitives, Obj, Dict, DictView, Name, Ref, view_objs};
use crate::reader::remaining;
use crate::stream::StreamView;

verus! {

/// The lexer met a token of a kind it does not read.
pub const UNSUPPORTED_TOKEN: u32 = 1;

// Each place where the parser or the cross-reference reader can fail has a
// code of its own.

/// An object was asked for while the parser had no token buffered.
pub const NO_OBJECT_BUFFERED: u32 = 68;

/// A dictionary entry was due while the parser had no token buffered.
pub const NO_DICT_KEY: u32 = 91;

/// An integer was read, and the parser had no token buffered after it to
/// tell whether a reference follows.
pub const NO_TOKEN_AFTER_INTEGER: u32 = 127;

/// A stream object was found where streams are allowed; reading stream
/// objects is not supported.
pub const UNSUPPORTED_STREAM: u32 = 150;

/// A cross-reference table did not end with `trailer`.
pub const EXPECTED_TRAILER: u32 = 257;

/// The first object number of a subsection is not an integer.
pub const EXPECTED_FIRST_ENTRY_NUM: u32 = 295;

/// The entry count of a subsection is not an integer.
pub const EXPECTED_ENTRY_COUNT: u32 = 297;

/// The offset of a cross-reference entry is not an integer.
pub const EXPECTED_OFFSET: u32 = 310;

/// The generation of a cross-reference entry is not an integer.
pub const EXPECTED_GENERATION: u32 = 311;

/// The first entry of a cross-reference table is not free.
pub const FIRST_ENTRY_NOT_FREE: u32 = 355;

/// A parse error, with the code of what went wrong.
#[derive(Debug, PartialEq)]
pub struct ParserError(pub u32);

/// The command `[`.
pub open spec fn open_array() -> Seq<u8> {
    seq![0x5bu8]
}

/// The command `]`.
pub open spec fn close_array() -> Seq<u8> {
    seq![0x5du8]
}

/// The command `<<`.
pub open spec fn open_dict() -> Seq<u8> {
    seq![0x3cu8, 0x3c]
}

/// The command `>>`.
pub open spec fn close_dict() -> Seq<u8> {
    seq![0x3eu8, 0x3e]
}

/// The command `R` of an indirect reference.
pub open spec fn ref_cmd() -> Seq<u8> {
    seq![0x52u8]
}

/// The command `ID` that starts the data of an inline image.
pub open spec fn id_cmd() -> Seq<u8> {
    seq![0x49u8, 0x44]
}

/// The command `stream`.
pub open spec fn stream_cmd() -> Seq<u8> {
    seq![0x73u8, 0x74, 0x72, 0x65, 0x61, 0x6d]
}

/// What the contracts see of a [`Parser`]: its lexer's stream, whether it
/// reads stream objects, and its two buffered tokens.
pub struct ParserView {
    pub lex: StreamView,
    pub allow_streams: bool,
    pub buf1: Option<Obj>,
    pub buf2: Option<Obj>,
}

pub open spec fn opt_view(o: Option<Primitives>) -> Option<Obj> {
    match o {
        Some(p) => Some(p@),
        None => None,
    }
}

/// The next token, or none where the lexer reports an error.
pub open spec fn lex_ok(s: StreamView) -> (Option<Obj>, StreamView) {
    let (r, s1) = spec_lex(s);
    (
        match r {
            Ok(o) => Some(o),
            Err(_) => None,
        },
        s1,
    )
}

/// Fills both buffers with the next two tokens.
pub open spec fn spec_refill(p: ParserView) -> ParserView {
    let (b1, l1) = lex_ok(p.lex);
    let (b2, l2) = lex_ok(l1);
    ParserView { lex: l2, buf1: b1, buf2: b2, ..p }
}

/// Takes the first buffered token and moves the second up; the second is
/// refilled from the lexer, except after the command `ID`, where it is left
/// empty.
pub open spec fn spec_shift(p: ParserView) -> (Option<Obj>, ParserView) {
    if p.buf2 == Some(Obj::Cmd(id_cmd())) {
        (p.buf1, ParserView { buf1: p.buf2, buf2: None, ..p })
    } else {
        let (t, l) = lex_ok(p.lex);
        (p.buf1, ParserView { buf1: p.buf2, buf2: t, lex: l, ..p })
    }
}

/// A buffered token that still has to be read: not empty and not the end.
pub open spec fn weight(o: Option<Obj>) -> nat {
    match o {
        Some(Obj::EOF) => 0,
        Some(_) => 1,
        None => 0,
    }
}

/// What is left for the parser to read; every step of the parser that takes
/// a token makes it smaller.
pub open spec fn measure(p: ParserView) -> nat {
    3 * remaining(p.lex) + weight(p.buf1) + weight(p.buf2)
}

/// What [`Parser::get_obj`] does from the state `p`: the object read (or the
/// error code) and the state after it. An array runs to its `]`, a dictionary
/// to its `>>` (keys that are not names are skipped), and two integers
/// followed by `R` make a reference; the end of the data closes an open array
/// or dictionary. `None` stands for the states on which the parser panics
/// (a dictionary closed with nothing buffered after it).
pub open spec fn spec_get_obj(p: ParserView) -> Option<(Result<Obj, u32>, ParserView)>
    decreases measure(p), 0nat,
{
    let (g, p1) = spec_shift(p);
    match g {
        None => Some((Err(NO_OBJECT_BUFFERED), p1)),
        Some(Obj::Cmd(c)) => {
            if measure(p1) >= measure(p) {
                None
            } else if c == open_array() {
                spec_array(p1, Seq::empty())
            } else if c == open_dict() {
                spec_dict(p1, Map::empty())
            } else {
                Some((Ok(Obj::Cmd(c)), p1))
            }
        },
        Some(Obj::Int(n)) => match p1.buf1 {
            None => Some((Err(NO_TOKEN_AFTER_INTEGER), p1)),
            Some(Obj::Int(m)) => match p1.buf2 {
                None => Some((Err(NO_TOKEN_AFTER_INTEGER), p1)),
                Some(b2) => if b2 == Obj::Cmd(ref_cmd()) {
                    let (_, p3) = spec_shift(ParserView { buf1: None, ..p1 });
                    let (_, p4) = spec_shift(p3);
                    Some((Ok(Obj::Ref(n as i32, m as i32)), p4))
                } else {
                    Some((Ok(Obj::Int(n)), p1))
                },
            },
            Some(_) => Some((Ok(Obj::Int(n)), p1)),
        },
        Some(o) => Some((Ok(o), p1)),
    }
}

/// The rest of an array whose items so far are `items`.
pub open spec fn spec_array(p: ParserView, items: Seq<Obj>) -> Option<(Result<Obj, u32>, ParserView)>
    decreases measure(p), 1nat,
{
    if p.buf1 != Some(Obj::Cmd(close_array())) && p.buf1 != Some(Obj::EOF) {
        match spec_get_obj(p) {
            None => None,
            Some((Err(e), p2)) => Some((Err(e), p2)),
            Some((Ok(o), p2)) => if measure(p2) < measure(p) {
                spec_array(p2, items.push(o))
            } else {
                None
            },
        }
    } else if p.buf1 == Some(Obj::EOF) {
        Some((Ok(Obj::Array(items)), p))
    } else {
        let (_, p2) = spec_shift(p);
        Some((Ok(Obj::Array(items)), p2))
    }
}

/// The rest of a dictionary whose entries so far are `m`.
pub open spec fn spec_dict(p: ParserView, m: Map<Seq<u8>, Obj>) -> Option<
    (Result<Obj, u32>, ParserView),
>
    decreases measure(p), 1nat,
{
    if p.buf1 != Some(Obj::Cmd(close_dict())) && p.buf1 != Some(Obj::EOF) {
        match p.buf1 {
            None => Some((Err(NO_DICT_KEY), p)),
            Some(Obj::Name(k)) => {
                let (_, p2) = spec_shift(ParserView { buf1: None, ..p });
                if p2.buf1 == Some(Obj::EOF) {
                    spec_dict_end(p2, m)
                } else if measure(p2) >= measure(p) {
                    None
                } else {
                    match spec_get_obj(p2) {
                        None => None,
                        Some((Err(e), p3)) => Some((Err(e), p3)),
                        Some((Ok(v), p3)) => if measure(p3) < measure(p) {
                            spec_dict(p3, m.insert(k, v))
                        } else {
                            None
                        },
                    }
                }
            },
            Some(_) => {
                let (_, p2) = spec_shift(p);
                if measure(p2) < measure(p) {
                    spec_dict(p2, m)
                } else {
                    None
                }
            },
        }
    } else {
        spec_dict_end(p, m)
    }
}

/// A dictionary whose entries are `m`, at its `>>` or at the end of the data.
pub open spec fn spec_dict_end(p: ParserView, m: Map<Seq<u8>, Obj>) -> Option<
    (Result<Obj, u32>, ParserView),
> {
    let d = Obj::Dict(DictView { map: m, obj_id: None });
    if p.buf1 == Some(Obj::EOF) {
        Some((Ok(d), p))
    } else {
        match p.buf2 {
            None => None,
            Some(b2) => if b2 == Obj::Cmd(stream_cmd()) {
                if p.allow_streams {
                    Some((Err(UNSUPPORTED_STREAM), p))
                } else {
                    Some((Ok(d), p))
                }
            } else {
                let (_, p2) = spec_shift(p);
                Some((Ok(d), p2))
            },
        }
    }
}

pub open spec fn result_view(r: Result<Primitives, ParserError>) -> Result<Obj, u32> {
    match r {
        Ok(p) => Ok(p@),
        Err(e) => Err(e.0),
    }
}

/// Whether the buffered token is the command with the bytes `cmd`.
fn opt_is_cmd(o: &Option<Primitives>, cmd: &[u8]) -> (b: bool)
    ensures
        b == (opt_view(*o) == Some(Obj::Cmd(cmd@))),
{
    match o {
        Some(p) => p.is_cmd_bytes(cmd),
        None => false,
    }
}

/// Whether the buffered token is the end of the data.
fn opt_is_eof(o: &Option<Primitives>) -> (b: bool)
    ensures
        b == (opt_view(*o) == Some(Obj::EOF)),
{
    match o {
        Some(p) => p.is_eof(),
        None => false,
    }
}

fn bytes1(a: u8) -> (v: Vec<u8>)
    ensures
        v@ == seq![a],
{
    let mut v: Vec<u8> = Vec::new();
    v.push(a);
    assert(v@ == seq![a]);
    v
}

fn bytes2(a: u8, b: u8) -> (v: Vec<u8>)
    ensures
        v@ == seq![a, b],
{
    let mut v: Vec<u8> = Vec::new();
    v.push(a);
    v.push(b);
    assert(v@ == seq![a, b]);
    v
}

fn stream_bytes() -> (v: Vec<u8>)
    ensures
        v@ == stream_cmd(),
{
    let mut v: Vec<u8> = Vec::new();
    v.push(0x73);
    v.push(0x74);
    v.push(0x72);
    v.push(0x65);
    v.push(0x61);
    v.push(0x6d);
    assert(v@ == stream_cmd());
    v
}

/// Reads PDF objects from the tokens of a lexer, with two tokens of
/// look-ahead.
pub struct Parser<'a> {
    lexer: Lexer<'a>,
    allow_streams: bool,
    buf1: Option<Primitives>,
    buf2: Option<Primitives>,
}

impl<'a> View for Parser<'a> {
    type V = ParserView;

    closed spec fn view(&self) -> ParserView {
        ParserView {
            lex: self.lexer@,
            allow_streams: self.allow_streams,
            buf1: opt_view(self.buf1),
            buf2: opt_view(self.buf2),
        }
    }
}

impl<'a> Parser<'a> {
    /// A parser over `lexer`, with its two buffers filled.
    pub fn new(lexer: Lexer<'a>, allow_streams: bool) -> (p: Self)
        ensures
            p@ == spec_refill(
                ParserView { lex: lexer@, allow_streams, buf1: None, buf2: None },
            ),
    {
        let mut p = Parser { lexer: lexer, allow_streams: allow_streams, buf1: None, buf2: None };
        p.refill();
        p
    }

    pub fn lexer(&self) -> (l: &Lexer<'a>)
        ensures
            l@ == self@.lex,
    {
        &self.lexer
    }

    /// A copy of the first buffered token.
    pub fn buf1(&self) -> (b: Option<Primitives>)
        ensures
            opt_view(b) == self@.buf1,
    {
        match &self.buf1 {
            Some(p) => Some(p.clone()),
            None => None,
        }
    }

    /// A copy of the second buffered token.
    pub fn buf2(&self) -> (b: Option<Primitives>)
        ensures
            opt_view(b) == self@.buf2,
    {
        match &self.buf2 {
            Some(p) => Some(p.clone()),
            None => None,
        }
    }

    /// The next token, or none where the lexer reports an error.
    fn lex_next(&mut self) -> (t: Option<Primitives>)
        ensures
            (opt_view(t), final(self)@.lex) == lex_ok(old(self)@.lex),
            final(self)@ == (ParserView { lex: final(self)@.lex, ..old(self)@ }),
            remaining(final(self)@.lex) <= remaining(old(self)@.lex),
            opt_view(t) != Some(Obj::EOF) ==> remaining(final(self)@.lex) < remaining(
                old(self)@.lex,
            ),
    {
        match self.lexer.get_obj() {
            Ok(p) => Some(p),
            Err(_) => None,
        }
    }

    fn refill(&mut self)
        ensures
            final(self)@ == spec_refill(old(self)@),
    {
        self.buf1 = self.lex_next();
        self.buf2 = self.lex_next();
    }

    fn shift(&mut self) -> (gone: Option<Primitives>)
        ensures
            (opt_view(gone), final(self)@) == spec_shift(old(self)@),
            measure(final(self)@) + weight(old(self)@.buf1) <= measure(old(self)@),
    {
        let gone = self.buf1.take();
        let id = bytes2(0x49, 0x44);
        if opt_is_cmd(&self.buf2, id.as_slice()) {
            self.buf1 = self.buf2.take();
            self.buf2 = None;
        } else {
            self.buf1 = self.buf2.take();
            self.buf2 = self.lex_next();
        }
        gone
    }

    /// Reads the next object; see [`spec_get_obj`].
    pub fn get_obj(&mut self) -> (r: Result<Primitives, ParserError>)
        requires
            spec_get_obj(old(self)@) is Some,
        ensures
            spec_get_obj(old(self)@) == Some((result_view(r), final(self)@)),
            measure(final(self)@) + weight(old(self)@.buf1) <= measure(old(self)@),
    {
        match self.get_obj_checked() {
            Some(r) => r,
            None => {
                assert(false);
                Err(ParserError(NO_OBJECT_BUFFERED))
            },
        }
    }

    /// [`Parser::get_obj`] on every state: nothing where the parser panics.
    pub fn get_obj_checked(&mut self) -> (r: Option<Result<Primitives, ParserError>>)
        ensures
            match r {
                Some(res) => {
                    &&& spec_get_obj(old(self)@) == Some((result_view(res), final(self)@))
                    &&& measure(final(self)@) + weight(old(self)@.buf1) <= measure(old(self)@)
                    &&& res is Ok ==> old(self)@.buf1 is Some
                },
                None => spec_get_obj(old(self)@) is None,
            },
        decreases measure(old(self)@),
    {
        let ghost p0 = self@;
        let buf1 = match self.shift() {
            Some(b) => b,
            None => return Some(Err(ParserError(NO_OBJECT_BUFFERED))),
        };
        if let Primitives::Cmd(ref cmd) = buf1 {
            if cmd.len() == 1 && cmd[0] == 0x5b {
                assert(cmd@ == open_array());
                let mut array: Vec<Primitives> = Vec::new();
                let ket = bytes1(0x5d);
                while !opt_is_cmd(&self.buf1, ket.as_slice()) && !opt_is_eof(&self.buf1)
                    invariant
                        p0 == old(self)@,
                        spec_get_obj(p0) == spec_array(self@, view_objs(array@)),
                        measure(self@) < measure(p0),
                        ket@ == close_array(),
                    decreases measure(self@),
                {
                    let o = match self.get_obj_checked() {
                        None => return None,
                        Some(Err(e)) => return Some(Err(e)),
                        Some(Ok(o)) => o,
                    };
                    let ghost prev = array@;
                    array.push(o);
                    assert(array@.drop_last() == prev);
                }
                if opt_is_eof(&self.buf1) {
                    return Some(Ok(Primitives::Array(array)));
                }
                self.shift();
                return Some(Ok(Primitives::Array(array)));
            } else if cmd.len() == 2 && cmd[0] == 0x3c && cmd[1] == 0x3c {
                assert(cmd@ == open_dict());
                return self.get_dict(Ghost(p0));
            } else {
                proof {
                    if cmd@ == open_array() {
                        assert(cmd@[0] == 0x5b);
                    }
                    if cmd@ == open_dict() {
                        assert(cmd@[0] == 0x3c && cmd@[1] == 0x3c);
                    }
                }
                return Some(Ok(buf1));
            }
        }
        if let Some(num1) = buf1.get_integer() {
            let is_int = match &self.buf1 {
                Some(b) => b.is_integer(),
                None => return Some(Err(ParserError(NO_TOKEN_AFTER_INTEGER))),
            };
            if is_int {
                let is_r = match &self.buf2 {
                    Some(b) => b.is_cmd_bytes(bytes1(0x52).as_slice()),
                    None => return Some(Err(ParserError(NO_TOKEN_AFTER_INTEGER))),
                };
                if is_r {
                    if let Some(Primitives::Int(num2)) = self.buf1.take() {
                        self.shift();
                        self.shift();
                        return Some(Ok(Primitives::Ref(Ref::new(num1 as i32, num2 as i32))));
                    }
                }
            }
            return Some(Ok(Primitives::Int(num1)));
        }
        Some(Ok(buf1))
    }

    /// The dictionary part of [`Parser::get_obj_checked`], after its `<<` was
    /// taken.
    fn get_dict(&mut self, Ghost(p0): Ghost<ParserView>) -> (r: Option<
        Result<Primitives, ParserError>,
    >)
        requires
            spec_get_obj(p0) == spec_dict(old(self)@, Map::empty()),
            measure(old(self)@) < measure(p0),
        ensures
            match r {
                Some(res) => {
                    &&& spec_get_obj(p0) == Some((result_view(res), final(self)@))
                    &&& measure(final(self)@) <= measure(old(self)@)
                },
                None => spec_get_obj(p0) is None,
            },
        decreases measure(p0), 0nat,
    {
        let mut dict = Dict::empty();
        let dket = bytes2(0x3e, 0x3e);
        while !opt_is_cmd(&self.buf1, dket.as_slice()) && !opt_is_eof(&self.buf1)
            invariant_except_break
                spec_get_obj(p0) == spec_dict(self@, dict@.map),
                dict.wf(),
                dict@.obj_id is None,
                measure(self@) <= measure(old(self)@),
                measure(old(self)@) < measure(p0),
                dket@ == close_dict(),
            ensures
                spec_get_obj(p0) == spec_dict_end(self@, dict@.map),
                dict.wf(),
                dict@.obj_id is None,
                measure(self@) <= measure(old(self)@),
            decreases measure(self@),
        {
            let is_name = match &self.buf1 {
                Some(b) => b.is_name(),
                None => return Some(Err(ParserError(NO_DICT_KEY))),
            };
            if is_name {
                if let Some(Primitives::Name(name)) = self.buf1.take() {
                    self.shift();
                    if opt_is_eof(&self.buf1) {
                        break ;
                    }
                    let value = match self.get_obj_checked() {
                        None => return None,
                        Some(Err(e)) => return Some(Err(e)),
                        Some(Ok(v)) => v,
                    };
                    dict.insert(Name(name.0), value);
                }
            } else {
                self.shift();
                continue ;
            }
        }
        if opt_is_eof(&self.buf1) {
            return Some(Ok(Primitives::Dict(dict)));
        }
        let is_stream = match &self.buf2 {
            Some(b) => b.is_cmd_bytes(stream_bytes().as_slice()),
            None => return None,
        };
        if is_stream {
            if self.allow_streams {
                return Some(self.make_stream(dict));
            } else {
                return Some(Ok(Primitives::Dict(dict)));
            }
        }
        self.shift();
        Some(Ok(Primitives::Dict(dict)))
    }

    /// Reading stream objects is not supported: always an error.
    fn make_stream(&self, dict: Dict) -> (r: Result<Primitives, ParserError>)
        ensures
            r == Err::<Primitives, ParserError>(ParserError(UNSUPPORTED_STREAM)),
    {
        Err(ParserError(UNSUPPORTED_STREAM))
    }
}

/// The items an array already has stay its first items, in order, whatever
/// is read after them.
pub proof fn lemma_array_keeps_prefix(p: ParserView, items: Seq<Obj>)
    ensures
        spec_array(p, items) matches Some((Ok(Obj::Array(r)), _)) ==> r.len() >= items.len()
            && r.take(items.len() as int) == items,
    decreases measure(p),
{
    if p.buf1 != Some(Obj::Cmd(close_array())) && p.buf1 != Some(Obj::EOF) {
        match spec_get_obj(p) {
            Some((Ok(o), p2)) => {
                if measure(p2) < measure(p) {
                    lemma_array_keeps_prefix(p2, items.push(o));
                    if let Some((Ok(Obj::Array(r)), _)) = spec_array(p, items) {
                        assert(r.take(items.len() as int) == r.take(items.len() as int + 1).take(
                            items.len() as int,
                        ));
                        assert(items.push(o).take(items.len() as int) == items);
                    }
                }
            },
            _ => {},
        }
    }
}

/// An array keeps every object read between its brackets: when the next
/// token is neither `]` nor the end of the data and the parser reads the
/// object `o` there, a finished array has the items so far, then `o` (null
/// or anything else), then what follows.
pub proof fn law_array_keeps_every_item(p: ParserView, items: Seq<Obj>, o: Obj, p2: ParserView)
    requires
        p.buf1 != Some(Obj::Cmd(seq![0x5du8])),
        p.buf1 != Some(Obj::EOF),
        spec_get_obj(p) == Some((Ok::<Obj, u32>(o), p2)),
    ensures
        spec_array(p, items) matches Some((Ok(Obj::Array(r)), _)) ==> {
            &&& r.len() > items.len()
            &&& r.take(items.len() as int) == items
            &&& r[items.len() as int] == o
        },
{
    if measure(p2) < measure(p) {
        lemma_array_keeps_prefix(p2, items.push(o));
        if let Some((Ok(Obj::Array(r)), _)) = spec_array(p, items) {
            assert(spec_array(p, items) == spec_array(p2, items.push(o)));
            assert(r.take(items.len() as int + 1)[items.len() as int] == o);
            assert(r.take(items.len() as int) == r.take(items.len() as int + 1).take(items.len() as int));
            assert(items.push(o).take(items.len() as int) == items);
        }
    }
}

} // verus!
