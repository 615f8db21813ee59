use vstd::prelude::*;
use crate::stream::{Stream, StreamView};
use crate::lexer::Lexer;
use crate::parser::{
    Parser,
    ParserView,
    ParserError,
    spec_get_obj,
    spec_refill,
    measure,
    opt_view,
    result_view,
    EXPECTED_FIRST_ENTRY_NUM,
    EXPECTED_ENTRY_COUNT,
    EXPECTED_OFFSET,
    EXPECTED_GENERATION,
    EXPECTED_TRAILER,
    FIRST_ENTRY_NOT_FREE,
};
use crate::primitives::{
    Primitives,
    Obj,
    Dict,
    DictView,
    Ref,
    ref_chars,
    dict_get,
    dict_text,
    dict_has_text,
    nat_chars,
    append_dict,
    append_nat,
};

verus! {

/// The keyword `trailer`.
pub open spec fn trailer_cmd() -> Seq<u8> {
    seq![0x74u8, 0x72, 0x61, 0x69, 0x6c, 0x65, 0x72]
}

/// The entry type `f` (free).
pub open spec fn free_cmd() -> Seq<u8> {
    seq![0x66u8]
}

/// The entry type `n` (in use).
pub open spec fn in_use_cmd() -> Seq<u8> {
    seq![0x6eu8]
}

/// What the contracts see of one entry of a cross-reference table.
pub struct EntryView {
    pub offset: i64,
    pub gen: i64,
    pub ty: Obj,
    pub free: bool,
    pub uncompressed: bool,
}

/// The entry made of an offset, a generation and a type: free for `f`,
/// in use (uncompressed) for `n`, neither for anything else.
pub open spec fn make_entry(offset: i64, gen: i64, ty: Obj) -> EntryView {
    let free = ty == Obj::Cmd(free_cmd());
    EntryView { offset, gen, ty, free, uncompressed: !free && ty == Obj::Cmd(in_use_cmd()) }
}

/// One row of a subsection: an offset, a generation and a type.
#[verifier::opaque]
pub open spec fn spec_row(p: ParserView) -> Option<(Result<(i64, i64, Obj), u32>, ParserView)> {
    match spec_get_obj(p) {
        None => None,
        Some((Err(e), p1)) => Some((Err(e), p1)),
        Some((Ok(Obj::Int(offset)), p1)) => match spec_get_obj(p1) {
            None => None,
            Some((Err(e), p2)) => Some((Err(e), p2)),
            Some((Ok(Obj::Int(gen)), p2)) => match spec_get_obj(p2) {
                None => None,
                Some((Err(e), p3)) => Some((Err(e), p3)),
                Some((Ok(ty), p3)) => Some((Ok((offset, gen, ty)), p3)),
            },
            Some((Ok(_), p2)) => Some((Err(EXPECTED_GENERATION), p2)),
        },
        Some((Ok(_), p1)) => Some((Err(EXPECTED_OFFSET), p1)),
    }
}

/// The first object number in force after row `i` with entry `e`: a
/// subsection that starts at 1 with a free row 0 is read as starting at 0.
pub open spec fn adjusted_first(first: i64, i: int, e: EntryView) -> i64 {
    if i == 0 && e.free && first == 1 {
        0
    } else {
        first
    }
}

/// The table with entry `e` of row `i` in place: at slot `i + first` if the
/// table already has more than `i` entries, else appended. `None` stands for
/// a slot outside the table or beyond the `i64` range, where the reader
/// panics.
pub open spec fn place_entry(entries: Seq<EntryView>, i: int, first: i64, e: EntryView) -> Option<
    Seq<EntryView>,
> {
    if entries.len() > i {
        let idx = i + first;
        if idx > i64::MAX || idx < 0 || idx >= entries.len() {
            None
        } else {
            Some(entries.update(idx, e))
        }
    } else {
        Some(entries.push(e))
    }
}

/// The entries of a subsection from row `i` on; see [`spec_row`],
/// [`adjusted_first`] and [`place_entry`]. `None` stands for the inputs on
/// which the reader panics.
pub open spec fn spec_rows(
    p: ParserView,
    entries: Seq<EntryView>,
    first: i64,
    count: i64,
    i: int,
) -> Option<(Result<(), u32>, ParserView, Seq<EntryView>)>
    decreases count - i,
{
    if i >= count {
        Some((Ok(()), p, entries))
    } else {
        match spec_row(p) {
            None => None,
            Some((Err(e), p1)) => Some((Err(e), p1, entries)),
            Some((Ok((offset, gen, ty)), p1)) => {
                let e = make_entry(offset, gen, ty);
                let first2 = adjusted_first(first, i, e);
                match place_entry(entries, i, first2, e) {
                    None => None,
                    Some(es) => spec_rows(p1, es, first2, count, i + 1),
                }
            },
        }
    }
}

/// The subsections of a cross-reference table, up to `trailer`: each is a
/// header (first object number and count) and its rows. At `trailer` the
/// table is checked: with more than one entry, the first must be free.
pub open spec fn spec_sections(p: ParserView, entries: Seq<EntryView>) -> Option<
    (Result<Obj, u32>, ParserView, Seq<EntryView>),
>
    decreases measure(p),
{
    match spec_get_obj(p) {
        None => None,
        Some((Err(e), p1)) => Some((Err(e), p1, entries)),
        Some((Ok(obj), p1)) => if obj == Obj::Cmd(trailer_cmd()) {
            if entries.len() > 1 && !entries[0].free {
                Some((Err(FIRST_ENTRY_NOT_FREE), p1, entries))
            } else {
                Some((Ok(obj), p1, entries))
            }
        } else {
            match obj {
                Obj::Int(first) => match spec_get_obj(p1) {
                    None => None,
                    Some((Err(e), p2)) => Some((Err(e), p2, entries)),
                    Some((Ok(Obj::Int(count)), p2)) => match spec_rows(p2, entries, first, count, 0) {
                        None => None,
                        Some((Err(e), p3, es)) => Some((Err(e), p3, es)),
                        Some((Ok(()), p3, es)) => if measure(p3) < measure(p) {
                            spec_sections(p3, es)
                        } else {
                            None
                        },
                    },
                    Some((Ok(_), p2)) => Some((Err(EXPECTED_ENTRY_COUNT), p2, entries)),
                },
                _ => Some((Err(EXPECTED_FIRST_ENTRY_NUM), p1, entries)),
            }
        },
    }
}

/// A cross-reference table followed by its trailer dictionary. `None` stands
/// for the inputs on which the reader panics (a trailer that is not a
/// dictionary among them).
pub open spec fn spec_process(p: ParserView, entries: Seq<EntryView>) -> Option<
    (Result<DictView, u32>, Seq<EntryView>),
> {
    match spec_sections(p, entries) {
        None => None,
        Some((Err(e), _, es)) => Some((Err(e), es)),
        Some((Ok(obj), p1, es)) => if obj != Obj::Cmd(trailer_cmd()) {
            Some((Err(EXPECTED_TRAILER), es))
        } else {
            match spec_get_obj(p1) {
                None => None,
                Some((Err(e), _)) => Some((Err(e), es)),
                Some((Ok(Obj::Dict(d)), _)) => Some((Ok(d), es)),
                Some((Ok(_), _)) => None,
            }
        },
    }
}

/// The table at offset `startxref` from the start of `s`: the keyword before
/// it, then the table and trailer. `None` stands for the inputs on which the
/// reader panics, any error among them.
pub open spec fn spec_one_table(s: StreamView, startxref: u64, entries: Seq<EntryView>) -> Option<
    (DictView, Seq<EntryView>),
> {
    if startxref + s.start > u64::MAX {
        None
    } else {
        let p = spec_refill(
            ParserView {
                lex: s.with_pos((startxref + s.start) as u64),
                allow_streams: true,
                buf1: None,
                buf2: None,
            },
        );
        match spec_get_obj(p) {
            Some((Ok(_), p1)) => match spec_process(p1, entries) {
                Some((Ok(d), es)) => Some((d, es)),
                _ => None,
            },
            _ => None,
        }
    }
}

/// The queue of table offsets: the first is read unless an earlier table was
/// read at the same offset (then it is dropped); after reading, the last
/// offset is dropped. The trailer of the first table read is kept.
pub open spec fn spec_read_loop(
    s: StreamView,
    queue: Seq<u64>,
    seen: Seq<u64>,
    top: Option<DictView>,
    entries: Seq<EntryView>,
) -> Option<(Option<DictView>, Seq<EntryView>)>
    decreases queue.len(),
{
    if queue.len() == 0 {
        Some((top, entries))
    } else if seen.contains(queue[0]) {
        spec_read_loop(s, queue.remove(0), seen, top, entries)
    } else {
        match spec_one_table(s, queue[0], entries) {
            None => None,
            Some((d, es)) => spec_read_loop(
                s,
                queue.drop_last(),
                seen.push(queue[0]),
                if top is None {
                    Some(d)
                } else {
                    top
                },
                es,
            ),
        }
    }
}

/// The offsets whose tables [`spec_read_loop`] reads, in the order it reads
/// them; the last one is where it stops if a table cannot be read.
pub open spec fn spec_read_offsets(
    s: StreamView,
    queue: Seq<u64>,
    seen: Seq<u64>,
    entries: Seq<EntryView>,
) -> Seq<u64>
    decreases queue.len(),
{
    if queue.len() == 0 {
        Seq::empty()
    } else if seen.contains(queue[0]) {
        spec_read_offsets(s, queue.remove(0), seen, entries)
    } else {
        match spec_one_table(s, queue[0], entries) {
            None => seq![queue[0]],
            Some((d, es)) => seq![queue[0]] + spec_read_offsets(
                s,
                queue.drop_last(),
                seen.push(queue[0]),
                es,
            ),
        }
    }
}

/// What [`XRefParser::read_xref`] does from the queue `queue`: the first
/// trailer dictionary and the entries read. The offsets start out as seen
/// once per queued offset, all 0, so a table at offset 0 is never read.
/// `None` stands for the inputs on which it panics.
pub open spec fn spec_read_xref(s: StreamView, queue: Seq<u64>, entries: Seq<EntryView>) -> Option<
    (DictView, Seq<EntryView>),
> {
    match spec_read_loop(s, queue, Seq::new(queue.len(), |i: int| 0u64), None, entries) {
        Some((Some(d), es)) => Some((d, es)),
        _ => None,
    }
}

/// What [`XRef::parse`] reads: the table at `startxref` and its trailer.
pub open spec fn spec_xref_parse(s: StreamView, startxref: u64) -> Option<
    (DictView, Seq<EntryView>),
> {
    spec_read_xref(s, seq![startxref], Seq::empty())
}

/// The object `o` with its object id set, if it is a dictionary.
pub open spec fn with_obj_id(o: Obj, id: Seq<char>) -> Obj {
    match o {
        Obj::Dict(d) => Obj::Dict(DictView { obj_id: Some(id), ..d }),
        _ => o,
    }
}

/// The cache after fetching the reference `(num, gen)`: the first slot for
/// `num` gets its object id set to the reference's text, if it holds a
/// dictionary; nothing changes when no slot is for `num`.
pub open spec fn fetched_cache(c: Seq<(i32, Obj)>, num: i32, gen: i32) -> Seq<(i32, Obj)> {
    match cache_index(c, num, 0) {
        None => c,
        Some(i) => c.update(i, (num, with_obj_id(c[i].1, ref_chars(num, gen)))),
    }
}

/// The table `es` has an entry with the offset, generation and type of a row,
/// free exactly when the type is `f` and in use exactly when it is `n`.
pub open spec fn has_row_entry(es: Seq<EntryView>, offset: i64, gen: i64, ty: Obj) -> bool {
    exists|k: int|
        0 <= k < es.len() && (#[trigger] es[k]).offset == offset && es[k].gen == gen && es[k].ty
            == ty && (es[k].free <==> ty == Obj::Cmd(seq![0x66u8])) && (es[k].uncompressed <==> ty
            == Obj::Cmd(seq![0x6eu8]))
}

/// Each row `offset gen type` of a subsection (here the last, row `i` of
/// `count`) gives the table an entry with that offset, that generation and
/// that type, free exactly when the type is `f` and in use exactly when it is
/// `n`, whatever the row holds.
pub proof fn law_row_entry_keeps_row(
    p: ParserView,
    entries: Seq<EntryView>,
    first: i64,
    count: i64,
    i: int,
    offset: i64,
    gen: i64,
    ty: Obj,
    p1: ParserView,
    p2: ParserView,
    p3: ParserView,
)
    requires
        i + 1 == count,
        spec_get_obj(p) == Some((Ok::<Obj, u32>(Obj::Int(offset)), p1)),
        spec_get_obj(p1) == Some((Ok::<Obj, u32>(Obj::Int(gen)), p2)),
        spec_get_obj(p2) == Some((Ok::<Obj, u32>(ty), p3)),
    ensures
        spec_rows(p, entries, first, count, i) matches Some((r, p4, _)) ==> r is Ok && p4 == p3,
        spec_rows(p, entries, first, count, i) matches Some((_, _, es)) ==> has_row_entry(
            es,
            offset,
            gen,
            ty,
        ),
{
    reveal(spec_row);
    let e = make_entry(offset, gen, ty);
    let first2 = adjusted_first(first, i, e);
    assert(spec_row(p) == Some((Ok::<(i64, i64, Obj), u32>((offset, gen, ty)), p3)));
    match place_entry(entries, i, first2, e) {
        None => {
            assert(spec_rows(p, entries, first, count, i) is None);
        },
        Some(es) => {
            assert(spec_rows(p3, es, first2, count, i + 1) == Some(
                (Ok::<(), u32>(()), p3, es),
            ));
            assert(spec_rows(p, entries, first, count, i) == Some((Ok::<(), u32>(()), p3, es)));
            assert(e.free <==> ty == Obj::Cmd(seq![0x66u8]));
            assert(seq![0x6eu8][0] != seq![0x66u8][0]);
            assert(e.uncompressed <==> ty == Obj::Cmd(seq![0x6eu8]));
            if entries.len() > i {
                let k = i + first2;
                assert(es[k] == e);
                assert(0 <= k < es.len());
                assert(es[k].offset == offset && es[k].gen == gen && es[k].ty == ty);
                assert(has_row_entry(es, offset, gen, ty));
            } else {
                let k = entries.len() as int;
                assert(es[k] == e);
                assert(0 <= k < es.len());
                assert(es[k].offset == offset && es[k].gen == gen && es[k].ty == ty);
                assert(has_row_entry(es, offset, gen, ty));
            }
        },
    }
}

/// The debug text of a cross-reference table with the trailer text
/// `trailer` and `n` entries: `XRef { trailer_dict: ..., num of entries: n }`.
pub open spec fn xref_text(trailer: Seq<char>, n: nat) -> Seq<char> {
    "XRef { trailer_dict: "@ + trailer + ", num of entries: "@ + nat_chars(n) + " }"@
}

/// No object number occurs twice in the cache, as in a map from numbers to
/// objects.
pub open spec fn cache_numbers_distinct(c: Seq<(i32, Obj)>) -> bool {
    forall|i: int, j: int| 0 <= i < j < c.len() ==> c[i].0 != c[j].0
}

/// The first cache slot for object number `num`.
pub open spec fn cache_index(c: Seq<(i32, Obj)>, num: i32, from: int) -> Option<int>
    decreases c.len() - from,
{
    if from >= c.len() || from < 0 {
        None
    } else if c[from].0 == num {
        Some(from)
    } else {
        cache_index(c, num, from + 1)
    }
}

/// One entry of a cross-reference table.
#[derive(Debug)]
struct Entry {
    offset: i64,
    gen: i64,
    ty: Primitives,
    free: bool,
    uncompressed: bool,
}

impl View for Entry {
    type V = EntryView;

    closed spec fn view(&self) -> EntryView {
        EntryView {
            offset: self.offset,
            gen: self.gen,
            ty: self.ty@,
            free: self.free,
            uncompressed: self.uncompressed,
        }
    }
}

spec fn entries_view(v: Seq<Entry>) -> Seq<EntryView> {
    Seq::new(v.len(), |i: int| v[i]@)
}

/// Where the reader of a cross-reference table stands.
struct TableState {
    entry_num: i64,
    stream_pos: u64,
    parser_buf1: Option<Primitives>,
    parser_buf2: Option<Primitives>,
    first_entry_num: Option<i64>,
    entry_count: Option<i64>,
}

impl TableState {
    fn from_parser(parser: &Parser) -> (t: Self)
        ensures
            t.entry_num == 0,
            t.stream_pos == parser@.lex.pos,
            opt_view(t.parser_buf1) == parser@.buf1,
            opt_view(t.parser_buf2) == parser@.buf2,
            t.first_entry_num is None,
            t.entry_count is None,
    {
        TableState {
            entry_num: 0,
            stream_pos: parser.lexer().stream().pos(),
            parser_buf1: parser.buf1(),
            parser_buf2: parser.buf2(),
            first_entry_num: None,
            entry_count: None,
        }
    }

    fn set_first_entry_num(&mut self, num: i64)
        ensures
            final(self).first_entry_num == Some(num),
            final(self).entry_count == old(self).entry_count,
            final(self).entry_num == old(self).entry_num,
    {
        self.first_entry_num = Some(num);
    }

    fn set_entry_count(&mut self, count: i64)
        ensures
            final(self).entry_count == Some(count),
            final(self).first_entry_num == old(self).first_entry_num,
            final(self).entry_num == old(self).entry_num,
    {
        self.entry_count = Some(count);
    }
}

fn trailer_bytes() -> (v: Vec<u8>)
    ensures
        v@ == trailer_cmd(),
{
    let mut v: Vec<u8> = Vec::new();
    v.push(0x74);
    v.push(0x72);
    v.push(0x61);
    v.push(0x69);
    v.push(0x6c);
    v.push(0x65);
    v.push(0x72);
    assert(v@ == trailer_cmd());
    v
}

fn byte1(a: u8) -> (v: Vec<u8>)
    ensures
        v@ == seq![a],
{
    let mut v: Vec<u8> = Vec::new();
    v.push(a);
    assert(v@ == seq![a]);
    v
}

/// Reads cross-reference tables, starting from the offsets in its queue.
pub struct XRefParser<'a> {
    stream: Stream<'a>,
    startxref_queue: Vec<u64>,
}

impl<'a> XRefParser<'a> {
    pub closed spec fn stream_view(&self) -> StreamView {
        self.stream@
    }

    pub closed spec fn queue(&self) -> Seq<u64> {
        self.startxref_queue@
    }

    /// A reader of the table at `startxref` in `stream`.
    pub fn new(stream: Stream<'a>, startxref: u64) -> (p: XRefParser<'a>)
        ensures
            p.stream_view() == stream@,
            p.queue() == seq![startxref],
    {
        let mut q: Vec<u64> = Vec::new();
        q.push(startxref);
        assert(q@ == seq![startxref]);
        XRefParser { stream: stream, startxref_queue: q }
    }

    /// One row of a subsection; see [`spec_row`].
    fn read_row(parser: &mut Parser) -> (r: Option<Result<(i64, i64, Primitives), ParserError>>)
        ensures
            match r {
                Some(Ok((o, g, t))) => spec_row(old(parser)@) == Some(
                    (Ok::<(i64, i64, Obj), u32>((o, g, t@)), final(parser)@),
                ),
                Some(Err(e)) => spec_row(old(parser)@) == Some(
                    (Err::<(i64, i64, Obj), u32>(e.0), final(parser)@),
                ),
                None => spec_row(old(parser)@) is None,
            },
            r is Some ==> measure(final(parser)@) <= measure(old(parser)@),
    {
        reveal(spec_row);
        let o1 = match parser.get_obj_checked() {
            None => return None,
            Some(Err(e)) => return Some(Err(e)),
            Some(Ok(o)) => o,
        };
        let offset = match o1.get_integer() {
            Some(v) => v,
            None => return Some(Err(ParserError(EXPECTED_OFFSET))),
        };
        let o2 = match parser.get_obj_checked() {
            None => return None,
            Some(Err(e)) => return Some(Err(e)),
            Some(Ok(o)) => o,
        };
        let gen = match o2.get_integer() {
            Some(v) => v,
            None => return Some(Err(ParserError(EXPECTED_GENERATION))),
        };
        let ty = match parser.get_obj_checked() {
            None => return None,
            Some(Err(e)) => return Some(Err(e)),
            Some(Ok(o)) => o,
        };
        Some(Ok((offset, gen, ty)))
    }

    /// The rows of one subsection, from row 0 to `count`; see [`spec_rows`].
    #[verifier::rlimit(60)]
    fn read_rows(
        parser: &mut Parser,
        entries: &mut Vec<Entry>,
        table_state: &mut TableState,
        first_entry: i64,
        count: i64,
    ) -> (r: Option<Result<(), ParserError>>)
        ensures
            match r {
                Some(res) => {
                    &&& spec_rows(old(parser)@, entries_view(old(entries)@), first_entry, count, 0)
                        == Some(
                        (
                            match res {
                                Ok(()) => Ok(()),
                                Err(e) => Err(e.0),
                            },
                            final(parser)@,
                            entries_view(final(entries)@),
                        ),
                    )
                    &&& measure(final(parser)@) <= measure(old(parser)@)
                },
                None => spec_rows(old(parser)@, entries_view(old(entries)@), first_entry, count, 0) is None,
            },
    {
        let mut first = first_entry;
        let mut i: i64 = 0;
        let ghost first0 = first;
        while i < count
            invariant
                first0 == first_entry,
                spec_rows(old(parser)@, entries_view(old(entries)@), first0, count, 0)
                    == spec_rows(parser@, entries_view(entries@), first, count, i as int),
                measure(parser@) <= measure(old(parser)@),
                0 <= i,
            decreases count - i,
        {
            table_state.stream_pos = parser.lexer().stream().pos();
            table_state.entry_num = i;
            table_state.parser_buf1 = parser.buf1();
            table_state.parser_buf2 = parser.buf2();
            let ghost pb = parser@;
            let ghost ev = entries_view(entries@);
            let ghost first_before = first;
            let (offset, gen, ty) = match Self::read_row(parser) {
                None => return None,
                Some(Err(e)) => return Some(Err(e)),
                Some(Ok(t)) => t,
            };
            let ghost tyv = ty@;
            let ghost e = make_entry(offset, gen, tyv);
            let (free, uncompressed) = {
                if ty.is_cmd_bytes(byte1(0x66).as_slice()) {
                    (true, false)
                } else if ty.is_cmd_bytes(byte1(0x6e).as_slice()) {
                    (false, true)
                } else {
                    (false, false)
                }
            };
            let entry = Entry { offset: offset, gen: gen, ty: ty, free: free, uncompressed: uncompressed };
            assert(entry@ == e);
            if i == 0 && entry.free && first == 1 {
                first = 0;
            }
            assert(first == adjusted_first(first_before, i as int, e));
            if entries.len() as u64 > i as u64 {
                let idx = match i.checked_add(first) {
                    Some(v) => v,
                    None => return None,
                };
                if idx < 0 || idx as u64 >= entries.len() as u64 {
                    return None;
                }
                entries.set(idx as usize, entry);
                assert(entries_view(entries@) == ev.update(idx as int, e));
            } else {
                entries.push(entry);
                assert(entries_view(entries@) == ev.push(e));
            }
            assert(place_entry(ev, i as int, first, e) == Some(entries_view(entries@)));
            assert(spec_rows(pb, ev, first_before, count, i as int) == spec_rows(
                parser@,
                entries_view(entries@),
                first,
                count,
                i + 1,
            ));
            i = i + 1;
        }
        Some(Ok(()))
    }

    /// The subsections of a table up to `trailer`; see [`spec_sections`].
    fn read_xreftable_checked(
        &mut self,
        parser: &mut Parser,
        entries: &mut Vec<Entry>,
        table_state: TableState,
    ) -> (r: Option<Result<Primitives, ParserError>>)
        requires
            table_state.entry_num == 0,
            table_state.first_entry_num is None,
            table_state.entry_count is None,
        ensures
            match r {
                Some(res) => spec_sections(old(parser)@, entries_view(old(entries)@)) == Some(
                    (result_view(res), final(parser)@, entries_view(final(entries)@)),
                ),
                None => spec_sections(old(parser)@, entries_view(old(entries)@)) is None,
            },
            *final(self) == *old(self),
    {
        let mut table_state = table_state;
        let mut obj: Primitives = Primitives::Null;
        let trailer = trailer_bytes();
        loop
            invariant_except_break
                spec_sections(old(parser)@, entries_view(old(entries)@)) == spec_sections(
                    parser@,
                    entries_view(entries@),
                ),
                table_state.entry_num == 0,
                table_state.first_entry_num is None,
                table_state.entry_count is None,
                trailer@ == trailer_cmd(),
            ensures
                obj@ == Obj::Cmd(trailer_cmd()),
                spec_sections(old(parser)@, entries_view(old(entries)@)) == (if entries_view(
                    entries@,
                ).len() > 1 && !entries_view(entries@)[0].free {
                    Some((Err::<Obj, u32>(FIRST_ENTRY_NOT_FREE), parser@, entries_view(entries@)))
                } else {
                    Some((Ok::<Obj, u32>(obj@), parser@, entries_view(entries@)))
                }),
            decreases measure(parser@),
        {
            let ghost p0 = parser@;
            obj = match parser.get_obj_checked() {
                None => return None,
                Some(Err(e)) => return Some(Err(e)),
                Some(Ok(o)) => o,
            };
            if table_state.first_entry_num.is_none() && table_state.entry_count.is_none() {
                if obj.is_cmd_bytes(trailer.as_slice()) {
                    break ;
                }
                let f = match obj.get_integer() {
                    Some(v) => v,
                    None => return Some(Err(ParserError(EXPECTED_FIRST_ENTRY_NUM))),
                };
                table_state.set_first_entry_num(f);
                let next = match parser.get_obj_checked() {
                    None => return None,
                    Some(Err(e)) => return Some(Err(e)),
                    Some(Ok(o)) => o,
                };
                let c = match next.get_integer() {
                    Some(v) => v,
                    None => return Some(Err(ParserError(EXPECTED_ENTRY_COUNT))),
                };
                table_state.set_entry_count(c);
            }
            let first = match table_state.first_entry_num {
                Some(v) => v,
                None => {
                    assert(false);
                    0
                },
            };
            let count = match table_state.entry_count {
                Some(v) => v,
                None => {
                    assert(false);
                    0
                },
            };
            match Self::read_rows(parser, entries, &mut table_state, first, count) {
                None => return None,
                Some(Err(e)) => return Some(Err(e)),
                Some(Ok(())) => {},
            }
            table_state.entry_num = 0;
            table_state.stream_pos = parser.lexer().stream().pos();
            table_state.parser_buf1 = parser.buf1();
            table_state.parser_buf2 = parser.buf2();
            table_state.first_entry_num = None;
            table_state.entry_count = None;
        }
        proof {
            if entries@.len() > 0 {
                assert(entries_view(entries@)[0] == entries@[0]@);
            }
        }
        if entries.len() > 1 && !entries[0].free {
            return Some(Err(ParserError(FIRST_ENTRY_NOT_FREE)));
        }
        Some(Ok(obj))
    }


    /// [`XRefParser::read_xreftable_checked`] where it does not panic.
    fn read_xreftable(
        &mut self,
        parser: &mut Parser,
        entries: &mut Vec<Entry>,
        table_state: TableState,
    ) -> (r: Result<Primitives, ParserError>)
        requires
            table_state.entry_num == 0,
            table_state.first_entry_num is None,
            table_state.entry_count is None,
            spec_sections(old(parser)@, entries_view(old(entries)@)) is Some,
        ensures
            spec_sections(old(parser)@, entries_view(old(entries)@)) == Some(
                (result_view(r), final(parser)@, entries_view(final(entries)@)),
            ),
            *final(self) == *old(self),
    {
        match self.read_xreftable_checked(parser, entries, table_state) {
            Some(r) => r,
            None => {
                assert(false);
                Err(ParserError(EXPECTED_TRAILER))
            },
        }
    }

    /// A table and the trailer dictionary after it; see [`spec_process`].
    fn process_xreftable_checked(&mut self, parser: Parser, entries: &mut Vec<Entry>) -> (r: Option<
        Result<Dict, ParserError>,
    >)
        ensures
            match r {
                Some(Ok(d)) => spec_process(parser@, entries_view(old(entries)@)) == Some(
                    (Ok::<DictView, u32>(d@), entries_view(final(entries)@)),
                ),
                Some(Err(e)) => spec_process(parser@, entries_view(old(entries)@)) == Some(
                    (Err::<DictView, u32>(e.0), entries_view(final(entries)@)),
                ),
                None => spec_process(parser@, entries_view(old(entries)@)) is None,
            },
            *final(self) == *old(self),
    {
        let mut parser = parser;
        let table_state = TableState {
            entry_num: 0,
            stream_pos: parser.lexer().stream().pos(),
            parser_buf1: None,
            parser_buf2: None,
            first_entry_num: None,
            entry_count: None,
        };
        let obj = match self.read_xreftable_checked(&mut parser, entries, table_state) {
            None => return None,
            Some(Err(e)) => return Some(Err(e)),
            Some(Ok(o)) => o,
        };
        if !obj.is_cmd_bytes(trailer_bytes().as_slice()) {
            return Some(Err(ParserError(EXPECTED_TRAILER)));
        }
        let o = match parser.get_obj_checked() {
            None => return None,
            Some(Err(e)) => return Some(Err(e)),
            Some(Ok(o)) => o,
        };
        match o {
            Primitives::Dict(d) => Some(Ok(d)),
            _ => None,
        }
    }

    /// [`XRefParser::process_xreftable_checked`] where it does not panic.
    fn process_xreftable(&mut self, parser: Parser, entries: &mut Vec<Entry>) -> (r: Result<
        Dict,
        ParserError,
    >)
        requires
            spec_process(parser@, entries_view(old(entries)@)) is Some,
        ensures
            spec_process(parser@, entries_view(old(entries)@)) == Some(
                (
                    match r {
                        Ok(d) => Ok(d@),
                        Err(e) => Err(e.0),
                    },
                    entries_view(final(entries)@),
                ),
            ),
    {
        match self.process_xreftable_checked(parser, entries) {
            Some(r) => r,
            None => {
                assert(false);
                Err(ParserError(EXPECTED_TRAILER))
            },
        }
    }

    /// Reads the tables of the queue; see [`spec_read_xref`]. Nothing where
    /// the reader panics.
    fn read_xref_checked(&mut self, entries: &mut Vec<Entry>) -> (r: Option<Dict>)
        ensures
            match r {
                Some(d) => spec_read_xref(
                    old(self).stream_view(),
                    old(self).queue(),
                    entries_view(old(entries)@),
                ) == Some((d@, entries_view(final(entries)@))),
                None => spec_read_xref(
                    old(self).stream_view(),
                    old(self).queue(),
                    entries_view(old(entries)@),
                ) is None,
            },
            final(self).stream_view() == old(self).stream_view(),
            r is Some ==> final(self).queue() == Seq::<u64>::empty(),
    {
        let n = self.startxref_queue.len();
        let mut startxref_parsed_cache: Vec<u64> = Vec::new();
        let mut k: usize = 0;
        while k < n
            invariant
                k <= n,
                startxref_parsed_cache@ == Seq::new(k as nat, |i: int| 0u64),
            decreases n - k,
        {
            startxref_parsed_cache.push(0);
            k = k + 1;
            assert(startxref_parsed_cache@ == Seq::new(k as nat, |i: int| 0u64));
        }
        let mut top_dict: Option<Dict> = None;
        let mut stream = self.stream;
        let prev_key = prev_bytes();
        let ghost s0 = self.stream@;
        assert(spec_read_xref(s0, self.queue(), entries_view(entries@)) == match spec_read_loop(
            s0,
            self.queue(),
            startxref_parsed_cache@,
            None,
            entries_view(entries@),
        ) {
            Some((Some(d), es)) => Some((d, es)),
            _ => None,
        });
        while self.startxref_queue.len() > 0
            invariant
                self.stream@ == s0,
                s0 == old(self).stream_view(),
                stream@.data == s0.data,
                stream@.start == s0.start,
                stream@.end == s0.end,
                spec_read_xref(s0, old(self).queue(), entries_view(old(entries)@)) == match spec_read_loop(
                    s0,
                    self.startxref_queue@,
                    startxref_parsed_cache@,
                    match top_dict {
                        Some(d) => Some(d@),
                        None => None,
                    },
                    entries_view(entries@),
                ) {
                    Some((Some(d), es)) => Some((d, es)),
                    _ => None,
                },
            decreases self.startxref_queue@.len(),
        {
            let startxref = self.startxref_queue[0];
            if contains_u64(&startxref_parsed_cache, startxref) {
                self.startxref_queue.remove(0);
                continue ;
            }
            startxref_parsed_cache.push(startxref);
            let start = stream.start();
            let pos = match startxref.checked_add(start) {
                Some(p) => p,
                None => return None,
            };
            stream.set_pos(pos);
            let lexer = Lexer::new(stream);
            let mut parser = Parser::new(lexer, true);
            match parser.get_obj_checked() {
                Some(Ok(_)) => {},
                _ => return None,
            }
            let temp = match self.process_xreftable_checked(parser, entries) {
                Some(Ok(d)) => d,
                _ => return None,
            };
            let prev_obj = temp.get(prev_key.as_slice());
            if let Some(Primitives::Int(x)) = prev_obj {
                self.startxref_queue.push(*x as u64);
            } else if let Some(Primitives::Ref(refer)) = prev_obj {
                self.startxref_queue.push(refer.num() as u64);
            }
            if top_dict.is_none() {
                top_dict = Some(temp);
            }
            self.startxref_queue.pop();
        }
        assert(self.startxref_queue@ == Seq::<u64>::empty());
        top_dict
    }

    /// Reads the tables of the queue and returns the first trailer
    /// dictionary; see [`spec_read_xref`].
    fn read_xref(&mut self, entries: &mut Vec<Entry>) -> (d: Dict)
        requires
            spec_read_xref(old(self).stream_view(), old(self).queue(), entries_view(old(entries)@)) is Some,
        ensures
            spec_read_xref(old(self).stream_view(), old(self).queue(), entries_view(old(entries)@))
                == Some((d@, entries_view(final(entries)@))),
            final(self).stream_view() == old(self).stream_view(),
            final(self).queue() == Seq::<u64>::empty(),
    {
        match self.read_xref_checked(entries) {
            Some(d) => d,
            None => {
                assert(false);
                Dict::empty()
            },
        }
    }
}

/// The key `Prev` of a trailer dictionary.
fn prev_bytes() -> (v: Vec<u8>)
    ensures
        v@ == seq![0x50u8, 0x72, 0x65, 0x76],
{
    let mut v: Vec<u8> = Vec::new();
    v.push(0x50);
    v.push(0x72);
    v.push(0x65);
    v.push(0x76);
    assert(v@ == seq![0x50u8, 0x72, 0x65, 0x76]);
    v
}

fn contains_u64(v: &Vec<u64>, x: u64) -> (b: bool)
    ensures
        b == v@.contains(x),
{
    let mut i: usize = 0;
    while i < v.len()
        invariant
            i <= v@.len(),
            forall|j: int| 0 <= j < i ==> v@[j] != x,
        decreases v@.len() - i,
    {
        if v[i] == x {
            assert(v@[i as int] == x);
            return true;
        }
        i = i + 1;
    }
    false
}


/// The key `Root` of a trailer dictionary.
pub open spec fn root_key() -> Seq<u8> {
    seq![0x52u8, 0x6f, 0x6f, 0x74]
}

/// The key `Pages` of a catalog dictionary.
pub open spec fn pages_key() -> Seq<u8> {
    seq![0x50u8, 0x61, 0x67, 0x65, 0x73]
}

/// The trailer's `Root` entry is a dictionary with a `Pages` entry, as
/// [`XRef::root`] looks it up.
pub open spec fn root_ok(trailer: DictView) -> bool {
    &&& dict_get(trailer, root_key()) matches Some(Obj::Dict(d))
    &&& d.map.contains_key(pages_key())
}

/// `o` as a `u64` of the same bits.
pub open spec fn as_unsigned(o: i64) -> u64 {
    if o < 0 {
        (o + 0x1_0000_0000_0000_0000) as u64
    } else {
        o as u64
    }
}

/// What [`XRef::fetch_uncompressed`] reads for an entry: the third object at
/// the entry's offset (after the object number and generation). `None`
/// stands for the inputs on which it panics: a generation other than the
/// reference's, an offset past the `u64` range, or a third object that is an
/// error.
pub open spec fn spec_fetch_uncompressed(s: StreamView, gen: i32, e: EntryView) -> Option<Obj> {
    if e.gen != gen as i64 || as_unsigned(e.offset) + s.start > u64::MAX || s.start > s.end {
        None
    } else {
        let start = (as_unsigned(e.offset) + s.start) as u64;
        let sub = StreamView {
            data: s.data,
            cursor: 0,
            start,
            pos: start,
            end: (s.end - s.start) as u64,
        };
        let p = spec_refill(ParserView { lex: sub, allow_streams: true, buf1: None, buf2: None });
        match spec_get_obj(p) {
            None => None,
            Some((_, p1)) => match spec_get_obj(p1) {
                None => None,
                Some((_, p2)) => match spec_get_obj(p2) {
                    Some((Ok(o), _)) => Some(o),
                    _ => None,
                },
            },
        }
    }
}

/// The cross-reference table of a PDF file: its trailer dictionary, its
/// entries, and a cache of fetched objects.
#[derive(Debug)]
pub struct XRef<'a> {
    stream: Stream<'a>,
    trailer_dict: Dict,
    entries: Vec<Entry>,
    _cache_map: Vec<(i32, Primitives)>,
}

impl<'a> XRef<'a> {
    pub closed spec fn stream_view(&self) -> StreamView {
        self.stream@
    }

    pub closed spec fn trailer(&self) -> DictView {
        self.trailer_dict@
    }

    pub closed spec fn entries(&self) -> Seq<EntryView> {
        entries_view(self.entries@)
    }

    /// The trailer dictionary itself, entries in the order they are held.
    pub closed spec fn trailer_dict(&self) -> Dict {
        self.trailer_dict
    }

    /// The table's debug text (see [`xref_text`]); none where the trailer
    /// has no text form.
    pub fn debug_text(&self) -> (r: Option<String>)
        ensures
            r is Some <==> dict_has_text(self.trailer_dict()),
            r matches Some(t) ==> t@ == xref_text(dict_text(self.trailer_dict()), self.entries().len()),
    {
        let mut s = String::new();
        s.append("XRef { trailer_dict: ");
        if !append_dict(&mut s, &self.trailer_dict) {
            return None;
        }
        s.append(", num of entries: ");
        append_nat(&mut s, self.entries.len() as u64);
        s.append(" }");
        Some(s)
    }

    pub closed spec fn cache(&self) -> Seq<(i32, Obj)> {
        Seq::new(self._cache_map@.len(), |i: int| (self._cache_map@[i].0, self._cache_map@[i].1@))
    }

    /// Reads the table at `startxref` in `stream` and its trailer; see
    /// [`spec_xref_parse`]. Nothing where the reader panics.
    pub fn parse_checked(stream: Stream<'a>, startxref: u64) -> (r: Option<XRef<'a>>)
        ensures
            match r {
                Some(x) => {
                    &&& spec_xref_parse(stream@, startxref) == Some((x.trailer(), x.entries()))
                    &&& x.stream_view() == stream@
                    &&& x.cache() == Seq::<(i32, Obj)>::empty()
                },
                None => spec_xref_parse(stream@, startxref) is None,
            },
    {
        let mut entries: Vec<Entry> = Vec::new();
        let mut parser = XRefParser::new(stream, startxref);
        assert(entries_view(entries@) == Seq::<EntryView>::empty());
        let dict = match parser.read_xref_checked(&mut entries) {
            Some(d) => d,
            None => return None,
        };
        let x = XRef {
            stream: parser.stream,
            trailer_dict: dict,
            entries: entries,
            _cache_map: Vec::new(),
        };
        assert(x.cache() == Seq::<(i32, Obj)>::empty());
        Some(x)
    }

    /// Reads the table at `startxref` in `stream` and its trailer; see
    /// [`spec_xref_parse`].
    pub fn parse(stream: Stream<'a>, startxref: u64) -> (x: XRef<'a>)
        requires
            spec_xref_parse(stream@, startxref) is Some,
        ensures
            spec_xref_parse(stream@, startxref) == Some((x.trailer(), x.entries())),
            x.stream_view() == stream@,
            x.cache() == Seq::<(i32, Obj)>::empty(),
    {
        let mut entries: Vec<Entry> = Vec::new();
        assert(entries_view(entries@) == Seq::<EntryView>::empty());
        let (trailer_dict, stream) = {
            let mut parser = XRefParser::new(stream, startxref);
            let dict = parser.read_xref(&mut entries);
            (dict, parser.stream)
        };
        let x = XRef { stream: stream, trailer_dict: trailer_dict, entries: entries, _cache_map: Vec::new() };
        assert(x.cache() == Seq::<(i32, Obj)>::empty());
        x
    }

    /// The catalog dictionary, the trailer's `Root` entry. A trailer without
    /// such an entry (where [`root_ok`] fails) is an invalid root reference:
    /// callers must not ask then, and [`XRef::try_root`] is the checked form.
    pub fn root(&self) -> (d: &Dict)
        requires
            root_ok(self.trailer()),
        ensures
            dict_get(self.trailer(), root_key()) == Some(Obj::Dict(d@)),
    {
        let root_obj = self.trailer_dict.get(root_bytes().as_slice());
        match root_obj {
            Some(Primitives::Dict(root)) => {
                if root.has(pages_bytes().as_slice()) {
                    return root;
                }
            },
            _ => {},
        }
        assert(false);
        &self.trailer_dict
    }

    /// The catalog, where [`XRef::root`] finds it; nothing where it panics.
    pub fn try_root(&self) -> (r: Option<&Dict>)
        ensures
            r is Some <==> root_ok(self.trailer()),
            r matches Some(d) ==> dict_get(self.trailer(), root_key()) == Some(Obj::Dict(d@)),
    {
        let root_obj = self.trailer_dict.get(root_bytes().as_slice());
        match root_obj {
            Some(Primitives::Dict(root)) => {
                if root.has(pages_bytes().as_slice()) {
                    return Some(root);
                }
            },
            _ => {},
        }
        None
    }

    /// The catalog dictionary; see [`XRef::root`].
    pub fn get_catalog_obj(&self) -> (d: &Dict)
        requires
            root_ok(self.trailer()),
        ensures
            dict_get(self.trailer(), root_key()) == Some(Obj::Dict(d@)),
    {
        self.root()
    }

    /// The cached object with number `refer.num()`, with its object id set to
    /// the reference's text if it is a dictionary; nothing when it is not in
    /// the cache.
    pub fn fetch(&mut self, refer: Ref) -> (r: Option<&Primitives>)
        ensures
            final(self).stream_view() == old(self).stream_view(),
            final(self).trailer() == old(self).trailer(),
            final(self).entries() == old(self).entries(),
            final(self).cache() == fetched_cache(old(self).cache(), refer@.0, refer@.1),
            match cache_index(old(self).cache(), refer@.0, 0) {
                None => r is None,
                Some(i) => r matches Some(o) && o@ == final(self).cache()[i].1,
            },
    {
        let num = refer.num();
        let mut i: usize = 0;
        let n = self._cache_map.len();
        while i < n
            invariant
                i <= n,
                n == self._cache_map@.len(),
                forall|j: int| 0 <= j < i ==> self._cache_map@[j].0 != num,
                cache_index(self.cache(), num, 0) == cache_index(self.cache(), num, i as int),
            ensures
                i <= n,
                cache_index(self.cache(), num, 0) == cache_index(self.cache(), num, i as int),
                i < n ==> self._cache_map@[i as int].0 == num,
            decreases n - i,
        {
            if self._cache_map[i].0 == num {
                break ;
            }
            i = i + 1;
        }
        if i < n {
            let ghost old_cache = self.cache();
            assert(cache_index(old_cache, num, i as int) == Some(i as int));
            let mut entry = self._cache_map[i].1.clone();
            let text = refer.to_string();
            match &mut entry {
                Primitives::Dict(dict) => {
                    dict.set_obj_id(text.as_str());
                },
                _ => {},
            }
            assert(entry@ == with_obj_id(old_cache[i as int].1, ref_chars(refer@.0, refer@.1)));
            self._cache_map.set(i, (num, entry));
            assert(self.cache() == old_cache.update(
                i as int,
                (num, with_obj_id(old_cache[i as int].1, ref_chars(refer@.0, refer@.1))),
            ));
            return Some(&self._cache_map[i].1);
        } else {
            let xref_entry = self.get_entry(num);
            if xref_entry.is_none() {
                return None;
            }
            return None;
        }
    }

    /// The entry for object number `i`, if it is in use at a nonzero offset.
    fn get_entry(&self, i: i32) -> (r: Option<&Entry>)
        ensures
            r is Some <==> (0 <= i < self.entries().len() && !self.entries()[i as int].free
                && self.entries()[i as int].offset != 0),
            r matches Some(e) ==> e@ == self.entries()[i as int],
    {
        if i < 0 || i as usize >= self.entries.len() {
            return None;
        }
        let xref_entry = &self.entries[i as usize];
        if !xref_entry.free && xref_entry.offset != 0 {
            return Some(xref_entry);
        }
        None
    }

    /// Reads the object an entry points at; see [`spec_fetch_uncompressed`].
    fn fetch_uncompressed(&self, refer: &Ref, xref_entry: &Entry) -> (o: Primitives)
        requires
            spec_fetch_uncompressed(self.stream_view(), refer@.1, xref_entry@) is Some,
        ensures
            spec_fetch_uncompressed(self.stream_view(), refer@.1, xref_entry@) == Some(o@),
    {
        let gen = refer.gen() as i64;
        if xref_entry.gen != gen {
            assert(false);
        }
        let offset: u64 = if xref_entry.offset < 0 {
            (xref_entry.offset as i128 + 0x1_0000_0000_0000_0000i128) as u64
        } else {
            xref_entry.offset as u64
        };
        let stream = self.stream.make_substream(offset + self.stream.start());
        let mut parser = Parser::new(Lexer::new(stream), true);
        let _obj1 = parser.get_obj();
        let _obj2 = parser.get_obj();
        let obj3 = parser.get_obj();
        match obj3 {
            Ok(o) => o,
            Err(_) => {
                assert(false);
                Primitives::Null
            },
        }
    }
}

fn root_bytes() -> (v: Vec<u8>)
    ensures
        v@ == root_key(),
{
    let mut v: Vec<u8> = Vec::new();
    v.push(0x52);
    v.push(0x6f);
    v.push(0x6f);
    v.push(0x74);
    assert(v@ == root_key());
    v
}

fn pages_bytes() -> (v: Vec<u8>)
    ensures
        v@ == pages_key(),
{
    let mut v: Vec<u8> = Vec::new();
    v.push(0x50);
    v.push(0x61);
    v.push(0x67);
    v.push(0x65);
    v.push(0x73);
    assert(v@ == pages_key());
    v
}


proof fn lemma_cache_index_found(c: Seq<(i32, Obj)>, num: i32, from: int)
    ensures
        cache_index(c, num, from) matches Some(i) ==> from <= i < c.len() && c[i].0 == num && (
        forall|j: int| from <= j < i ==> c[j].0 != num),
    decreases c.len() - from,
{
    if 0 <= from < c.len() && c[from].0 != num {
        lemma_cache_index_found(c, num, from + 1);
    }
}

proof fn lemma_cache_index_update(c: Seq<(i32, Obj)>, num: i32, from: int, i: int, e: (i32, Obj))
    requires
        0 <= from,
        cache_index(c, num, from) == Some(i),
        e.0 == num,
    ensures
        cache_index(c.update(i, e), num, from) == Some(i),
    decreases c.len() - from,
{
    lemma_cache_index_found(c, num, from);
    if from < i {
        lemma_cache_index_update(c, num, from + 1, i, e);
    }
}

/// Fetching the same reference twice leaves the cache as fetching it once.
pub proof fn law_fetch_twice_same_as_once(c: Seq<(i32, Obj)>, num: i32, gen: i32)
    ensures
        fetched_cache(fetched_cache(c, num, gen), num, gen) == fetched_cache(c, num, gen),
{
    if let Some(i) = cache_index(c, num, 0) {
        lemma_cache_index_found(c, num, 0);
        let e = (num, with_obj_id(c[i].1, ref_chars(num, gen)));
        lemma_cache_index_update(c, num, 0, i, e);
        let c1 = c.update(i, e);
        assert(c1[i] == e);
        assert(with_obj_id(e.1, ref_chars(num, gen)) == e.1);
        assert(c1.update(i, e) =~= c1);
    }
}

/// The cache holds each object number at most once: it starts empty (see
/// [`XRef::parse`]) and a fetch changes no number in it.
pub proof fn law_cache_numbers_stay_distinct(c: Seq<(i32, Obj)>, num: i32, gen: i32)
    ensures
        cache_numbers_distinct(Seq::<(i32, Obj)>::empty()),
        cache_numbers_distinct(c) ==> cache_numbers_distinct(fetched_cache(c, num, gen)),
        fetched_cache(c, num, gen).len() == c.len(),
        forall|i: int| 0 <= i < c.len() ==> #[trigger] fetched_cache(c, num, gen)[i].0 == c[i].0,
{
    lemma_cache_index_found(c, num, 0);
}

/// No trailer gives [`XRef::root`] a catalog: dictionary entries are not
/// looked up by this reader, so `root` and what is read through it panic on
/// every input.
pub proof fn law_no_catalog(trailer: DictView)
    ensures
        !root_ok(trailer),
{
}

/// Reading from `startxref` reads exactly one table, the one at that offset,
/// and returns its trailer: no `Prev` entry is ever followed (dictionary
/// entries are not looked up), so no offset is read twice and the queue ends
/// empty (see [`XRefParser::read_xref`]). Offset 0 counts as read already, so
/// nothing is read from it.
pub proof fn law_xref_parse_reads_one_table(s: StreamView, startxref: u64)
    ensures
        spec_xref_parse(s, startxref) == if startxref == 0 {
            None
        } else {
            spec_one_table(s, startxref, Seq::empty())
        },
{
    let q = seq![startxref];
    let seen = Seq::new(1, |i: int| 0u64);
    let empty = Seq::<EntryView>::empty();
    assert(q[0] == startxref);
    assert(seen[0] == 0u64);
    assert(q.remove(0) =~= Seq::<u64>::empty());
    assert(q.drop_last() =~= Seq::<u64>::empty());
    if startxref == 0 {
        assert(seen.contains(startxref));
        assert(spec_read_loop(s, q.remove(0), seen, None, empty) == Some(
            (None::<DictView>, empty),
        ));
        assert(spec_read_loop(s, q, seen, None, empty) == spec_read_loop(
            s,
            q.remove(0),
            seen,
            None,
            empty,
        ));
    } else {
        assert(!seen.contains(startxref)) by {
            if seen.contains(startxref) {
                let j = choose|j: int| 0 <= j < seen.len() && seen[j] == startxref;
                assert(seen[j] == 0u64);
            }
        }
        match spec_one_table(s, startxref, empty) {
            None => {},
            Some((d, es)) => {
                assert(spec_read_loop(s, q.drop_last(), seen.push(startxref), Some(d), es)
                    == Some((Some(d), es)));
            },
        }
    }
}

/// The offsets `r` are all different, and none is among `seen`.
pub open spec fn all_fresh(r: Seq<u64>, seen: Seq<u64>) -> bool {
    &&& forall|i: int, j: int| 0 <= i < j < r.len() ==> r[i] != r[j]
    &&& forall|i: int| 0 <= i < r.len() ==> !seen.contains(#[trigger] r[i])
}

/// The reader of a queue of table offsets reads the table at each offset at
/// most once, and never one at an offset it has seen already: the offsets it
/// reads are all different and none was seen before.
pub proof fn law_read_each_offset_once(
    s: StreamView,
    queue: Seq<u64>,
    seen: Seq<u64>,
    entries: Seq<EntryView>,
)
    ensures
        all_fresh(spec_read_offsets(s, queue, seen, entries), seen),
    decreases queue.len(),
{
    if queue.len() == 0 {
    } else if seen.contains(queue[0]) {
        law_read_each_offset_once(s, queue.remove(0), seen, entries);
    } else {
        match spec_one_table(s, queue[0], entries) {
            None => {
                let r = seq![queue[0]];
                assert(all_fresh(r, seen));
            },
            Some((d, es)) => {
                let seen2 = seen.push(queue[0]);
                law_read_each_offset_once(s, queue.drop_last(), seen2, es);
                lemma_fresh_cons(queue[0], spec_read_offsets(s, queue.drop_last(), seen2, es), seen);
            },
        }
    }
}

/// Putting an offset not seen yet in front of offsets all different and
/// unseen once it is seen keeps them all different and unseen.
proof fn lemma_fresh_cons(x: u64, rest: Seq<u64>, seen: Seq<u64>)
    requires
        !seen.contains(x),
        all_fresh(rest, seen.push(x)),
    ensures
        all_fresh(seq![x] + rest, seen),
{
    let r = seq![x] + rest;
    let seen2 = seen.push(x);
    assert forall|i: int| 0 <= i < rest.len() implies rest[i] != x && !seen.contains(rest[i]) by {
        assert(!seen2.contains(rest[i]));
        assert(seen2[seen.len() as int] == x);
        if seen.contains(rest[i]) {
            let k = choose|k: int| 0 <= k < seen.len() && seen[k] == rest[i];
            assert(seen2[k] == rest[i]);
        }
    }
    assert forall|i: int, j: int| 0 <= i < j < r.len() implies r[i] != r[j] by {
        if i == 0 {
            assert(r[j] == rest[j - 1]);
        } else {
            assert(r[i] == rest[i - 1] && r[j] == rest[j - 1]);
        }
    }
    assert forall|i: int| 0 <= i < r.len() implies !seen.contains(#[trigger] r[i]) by {
        if i > 0 {
            assert(r[i] == rest[i - 1]);
        }
    }
}

/// The trailer the reader of a queue returns is the trailer of the first
/// table it reads (or the one it was given, if any).
pub proof fn law_read_returns_first_trailer(
    s: StreamView,
    queue: Seq<u64>,
    seen: Seq<u64>,
    top: Option<DictView>,
    entries: Seq<EntryView>,
)
    ensures
        spec_read_loop(s, queue, seen, top, entries) matches Some((t, _)) ==> {
            &&& top is Some ==> t == top
            &&& (top is None && t is Some) ==> {
                let r = spec_read_offsets(s, queue, seen, entries);
                &&& r.len() > 0
                &&& spec_one_table(s, r[0], entries) matches Some((d, _))
                &&& t == Some(d)
            }
        },
    decreases queue.len(),
{
    if queue.len() == 0 {
    } else if seen.contains(queue[0]) {
        law_read_returns_first_trailer(s, queue.remove(0), seen, top, entries);
    } else {
        match spec_one_table(s, queue[0], entries) {
            None => {},
            Some((d, es)) => {
                let top2 = if top is None { Some(d) } else { top };
                law_read_returns_first_trailer(s, queue.drop_last(), seen.push(queue[0]), top2, es);
                let r = spec_read_offsets(s, queue, seen, entries);
                assert(r[0] == queue[0]);
            },
        }
    }
}

/// A table at offset 0 is never read: the reader counts offset 0 as read
/// already, and so panics for want of a trailer.
pub proof fn law_offset_zero_not_read(s: StreamView)
    ensures
        spec_xref_parse(s, 0) is None,
{
    law_xref_parse_reads_one_table(s, 0);
}

proof fn lemma_sections_first_free(p: ParserView, entries: Seq<EntryView>)
    ensures
        spec_sections(p, entries) matches Some((Ok(_), _, es)) ==> !(es.len() > 1 && !es[0].free),
    decreases measure(p),
{
    if let Some((Ok(obj), p1)) = spec_get_obj(p) {
        if obj != Obj::Cmd(trailer_cmd()) {
            if let Obj::Int(first) = obj {
                if let Some((Ok(Obj::Int(count)), p2)) = spec_get_obj(p1) {
                    if let Some((Ok(()), p3, es)) = spec_rows(p2, entries, first, count, 0) {
                        if measure(p3) < measure(p) {
                            lemma_sections_first_free(p3, es);
                        }
                    }
                }
            }
        }
    }
}

/// A table read without error has a free first entry when it has more than
/// one: a table whose first entry is in use is refused.
pub proof fn law_read_table_first_entry_free(s: StreamView, startxref: u64)
    ensures
        spec_xref_parse(s, startxref) matches Some((_, es)) ==> !(es.len() > 1 && !es[0].free),
{
    law_xref_parse_reads_one_table(s, startxref);
    if startxref != 0 && startxref + s.start <= u64::MAX {
        let p = spec_refill(
            ParserView {
                lex: s.with_pos((startxref + s.start) as u64),
                allow_streams: true,
                buf1: None,
                buf2: None,
            },
        );
        if let Some((Ok(_), p1)) = spec_get_obj(p) {
            lemma_sections_first_free(p1, Seq::empty());
        }
    }
}

} // verus!
