use vstd::prelude::*;
use crate::stream::{Stream, StreamView, as_signed, seek_ok};
use crate::xref::{XRef, EntryView, spec_xref_parse, root_ok};
use crate::obj::{Catalog, catalog_of, catalog_version};
use crate::primitives::{DictView, str_bytes, nat_chars, digit_char};
use crate::document::PdfDocument;
use vstd::utf8::valid_utf8;

verus! {

/// The PDF white-space characters: NUL, TAB, LF, FF, CR and SPACE.
pub open spec fn spec_is_whitespace(ch: u8) -> bool {
    ch == 0x00 || ch == 0x09 || ch == 0x0a || ch == 0x0c || ch == 0x0d || ch == 0x20
}

/// Whether `ch` is a PDF white-space character.
pub fn is_whitespace(ch: u8) -> (b: bool)
    ensures
        b == spec_is_whitespace(ch),
{
    ch == 0x00 || ch == 0x09 || ch == 0x0a || ch == 0x0c || ch == 0x0d || ch == 0x20
}

/// The keyword that precedes the offset of the cross-reference table.
pub open spec fn startxref_keyword() -> Seq<u8> {
    seq![0x73u8, 0x74, 0x61, 0x72, 0x74, 0x78, 0x72, 0x65, 0x66]
}

/// How far the search for `startxref` steps back each time.
pub open spec fn search_step() -> int {
    1024
}

pub open spec fn is_digit(c: u8) -> bool {
    0x30 <= c <= 0x39
}

/// The value of a string of decimal digits.
pub open spec fn decimal_value(s: Seq<u8>) -> nat
    decreases s.len(),
{
    if s.len() == 0 {
        0
    } else {
        decimal_value(s.drop_last()) * 10 + (s.last() - 0x30) as nat
    }
}

/// The digits of a number: the string without a leading `+`.
pub open spec fn unsigned_digits(s: Seq<u8>) -> Seq<u8> {
    if s.len() > 0 && s[0] == 0x2b {
        s.drop_first()
    } else {
        s
    }
}

pub open spec fn all_digits(d: Seq<u8>) -> bool {
    forall|i: int| 0 <= i < d.len() ==> is_digit(#[trigger] d[i])
}

/// A string parsed as a `u64` in decimal: an optional `+`, then one or more
/// digits whose value fits in a `u64`.
pub open spec fn spec_parse_u64(s: Seq<u8>) -> Option<u64> {
    let digits = unsigned_digits(s);
    if digits.len() == 0 || !all_digits(digits) || decimal_value(digits) > u64::MAX {
        None
    } else {
        Some(decimal_value(digits) as u64)
    }
}

/// Whether `sig` occurs in `scan` at `p`.
pub open spec fn matches_at(scan: Seq<u8>, sig: Seq<u8>, p: int) -> bool {
    &&& 0 <= p
    &&& p + sig.len() <= scan.len()
    &&& scan.subrange(p, p + sig.len()) == sig
}

/// The first position from `from` to `last` at which `sig` occurs in `scan`.
pub open spec fn first_match(scan: Seq<u8>, sig: Seq<u8>, from: int, last: int) -> Option<int>
    decreases last + 1 - from,
{
    if from > last {
        None
    } else if matches_at(scan, sig, from) {
        Some(from)
    } else {
        first_match(scan, sig, from + 1, last)
    }
}

/// What [`Reader::find`] does: it looks at `limit` bytes and, if `sig` occurs
/// in them at a position that leaves at least one more byte to scan, moves to
/// the first such occurrence. `None` stands for the inputs on which it panics:
/// no bytes to look at, or fewer of them than `sig` has.
pub open spec fn spec_find(s: StreamView, sig: Seq<u8>, limit: u64) -> Option<(bool, StreamView)> {
    if limit > usize::MAX || !s.peek_bytes_ok(limit as nat) {
        None
    } else {
        let (r, s1) = s.peek_bytes(limit as nat);
        match r {
            None => None,
            Some(scan) => {
                if scan.len() < sig.len() {
                    None
                } else {
                    let last = scan.len() - sig.len();
                    if last == 0 {
                        Some((false, s1))
                    } else {
                        match first_match(scan, sig, 0, last) {
                            None => if last < usize::MAX {
                                Some((false, s1))
                            } else {
                                None
                            },
                            Some(p) => if p <= i64::MAX && seek_ok(s1.pos, p as i64) {
                                Some((true, s1.seek(p as i64)))
                            } else {
                                None
                            },
                        }
                    }
                }
            },
        }
    }
}

/// The backward search for `startxref`: from `pos`, step back by
/// `search_step() - 9` bytes (not below 0) and look at `search_step()` bytes
/// there, until the keyword is found or the start is reached.
pub open spec fn spec_search(s: StreamView, pos: int) -> Option<(bool, StreamView)>
    decreases pos,
{
    if pos <= 0 {
        Some((false, s))
    } else {
        let p2 = if pos - (search_step() - startxref_keyword().len()) < 0 {
            0
        } else {
            pos - (search_step() - startxref_keyword().len())
        };
        match spec_find(s.with_pos(p2 as u64), startxref_keyword(), search_step() as u64) {
            None => None,
            Some((true, s2)) => Some((true, s2)),
            Some((false, s2)) => spec_search(s2, p2),
        }
    }
}

/// The bytes left before `end`.
pub open spec fn remaining(s: StreamView) -> nat {
    if s.pos < s.end {
        (s.end - s.pos) as nat
    } else {
        0
    }
}

/// Reads bytes up to the first that is not white space and returns it.
/// `None` stands for running out of bytes, where the reader panics.
pub open spec fn spec_skip_whitespace(s: StreamView) -> Option<(u8, StreamView)>
    decreases remaining(s),
{
    if !s.get_byte_ok() {
        None
    } else {
        let (b, s1) = s.get_byte();
        match b {
            None => None,
            Some(ch) => if spec_is_whitespace(ch) && remaining(s1) < remaining(s) {
                spec_skip_whitespace(s1)
            } else if spec_is_whitespace(ch) {
                None
            } else {
                Some((ch, s1))
            },
        }
    }
}

/// The characters from SPACE to `9` that the reader collects as the offset.
pub open spec fn is_offset_char(ch: u8) -> bool {
    0x20 <= ch <= 0x39
}

/// Collects `ch` and the bytes after it while they are offset characters.
/// `None` stands for running out of bytes, where the reader panics.
pub open spec fn spec_collect(s: StreamView, ch: u8) -> Option<(Seq<u8>, StreamView)>
    decreases remaining(s),
{
    if !is_offset_char(ch) {
        Some((Seq::empty(), s))
    } else if !s.get_byte_ok() {
        None
    } else {
        let (b, s1) = s.get_byte();
        match b {
            None => None,
            Some(next) => if remaining(s1) < remaining(s) {
                match spec_collect(s1, next) {
                    None => None,
                    Some((rest, s2)) => Some((seq![ch] + rest, s2)),
                }
            } else {
                None
            },
        }
    }
}

/// The offset read after the keyword: white space, then the offset
/// characters, read as a `u64` (0 where they are not a number). `None` stands
/// for running out of bytes, where the reader panics.
pub open spec fn spec_read_offset(s: StreamView) -> Option<(u64, StreamView)> {
    match spec_skip_whitespace(s) {
        None => None,
        Some((ch, s3)) => spec_offset_value(spec_collect(s3, ch)),
    }
}

/// The value of the collected offset characters.
pub open spec fn spec_offset_value(c: Option<(Seq<u8>, StreamView)>) -> Option<(u64, StreamView)> {
    match c {
        None => None,
        Some((digits, s4)) => Some(
            (
                match spec_parse_u64(digits) {
                    Some(v) => v,
                    None => 0,
                },
                s4,
            ),
        ),
    }
}

/// What [`Reader::parse_startxref`] does: find the last `startxref` keyword,
/// step over it and the white space after it, and read the offset that
/// follows (0 where it is not a number). `None` stands for the inputs on which
/// it panics.
pub open spec fn spec_parse_startxref(s: StreamView) -> Option<(u64, StreamView)> {
    match spec_search(s, as_signed(s.end)) {
        None => None,
        Some((found, s1)) => {
            if found && !seek_ok(s1.pos, 9) {
                None
            } else {
                spec_read_offset(
                    if found {
                        s1.seek(9)
                    } else {
                        s1
                    },
                )
            }
        },
    }
}


/// The stream over a whole file, at its start.
pub open spec fn file_stream(buffer: Seq<u8>) -> StreamView {
    StreamView { data: buffer, cursor: 0, start: 0, pos: 0, end: buffer.len() as u64 }
}

/// What reading a file gives up to its cross-reference table: the offset
/// after `startxref`, the trailer dictionary and the table's entries. `None`
/// stands for the files on which the reader panics before it gets there.
pub open spec fn spec_load(buffer: Seq<u8>) -> Option<(u64, DictView, Seq<EntryView>)> {
    match spec_parse_startxref(file_stream(buffer)) {
        None => None,
        Some((startxref, s1)) => match spec_xref_parse(s1, startxref) {
            None => None,
            Some((d, es)) => Some((startxref, d, es)),
        },
    }
}

/// Reading a file gets through to its catalog's version without a panic.
pub open spec fn spec_load_ok(buffer: Seq<u8>) -> bool {
    match spec_load(buffer) {
        Some((_, d, _)) => {
            &&& root_ok(d)
            &&& catalog_version(catalog_of(d)) matches Some(n) ==> valid_utf8(n)
        },
        None => false,
    }
}

pub proof fn lemma_decimal_value_prefix(s: Seq<u8>, i: int)
    requires
        0 <= i <= s.len(),
        forall|j: int| 0 <= j < s.len() ==> is_digit(#[trigger] s[j]),
    ensures
        decimal_value(s.take(i)) <= decimal_value(s),
    decreases s.len(),
{
    if i < s.len() {
        assert(s.drop_last().take(i) == s.take(i));
        lemma_decimal_value_prefix(s.drop_last(), i);
    } else {
        assert(s.take(i) == s);
    }
}

/// The characters of a text as bytes (each below 256).
pub open spec fn char_bytes(cs: Seq<char>) -> Seq<u8> {
    cs.map_values(|c: char| c as u8)
}

proof fn lemma_decimal_digits(n: nat)
    ensures
        char_bytes(nat_chars(n)).len() > 0,
        all_digits(char_bytes(nat_chars(n))),
        decimal_value(char_bytes(nat_chars(n))) == n,
        char_bytes(nat_chars(n))[0] != 0x2b,
    decreases n,
{
    let b = char_bytes(nat_chars(n));
    if n < 10 {
        assert(b =~= seq![(n + 0x30) as u8]);
        assert(b.drop_last() =~= Seq::<u8>::empty());
        assert(b.last() == (n + 0x30) as u8);
        assert(decimal_value(b) == decimal_value(b.drop_last()) * 10 + (b.last() - 0x30) as nat);
    } else {
        lemma_decimal_digits(n / 10);
        let pre = char_bytes(nat_chars(n / 10));
        assert(b =~= pre.push(digit_char(n % 10) as u8));
        assert(b.drop_last() =~= pre);
        assert(b[0] == pre[0]);
        assert(n == (n / 10) * 10 + n % 10);
        assert(b.last() == (n % 10 + 0x30) as u8);
        assert(decimal_value(b) == decimal_value(b.drop_last()) * 10 + (b.last() - 0x30) as nat);
        assert forall|i: int| 0 <= i < b.len() implies is_digit(#[trigger] b[i]) by {
            if i < pre.len() {
                assert(b[i] == pre[i]);
            }
        }
    }
}

proof fn lemma_first_match_is(scan: Seq<u8>, sig: Seq<u8>, from: int, last: int, p: int)
    requires
        0 <= from <= p <= last,
        p + sig.len() <= scan.len(),
        scan.subrange(p, p + sig.len()) == sig,
        forall|q: int| from <= q < p ==> !matches_at(scan, sig, q),
    ensures
        first_match(scan, sig, from, last) == Some(p),
    decreases p - from,
{
    if from < p {
        lemma_first_match_is(scan, sig, from + 1, last, p);
    }
}

proof fn lemma_first_match_none(scan: Seq<u8>, sig: Seq<u8>, from: int, last: int)
    requires
        forall|q: int| from <= q <= last ==> !matches_at(scan, sig, q),
    ensures
        first_match(scan, sig, from, last) is None,
    decreases last + 1 - from,
{
    if from <= last {
        lemma_first_match_none(scan, sig, from + 1, last);
    }
}

/// The search for a signature finds its first occurrence among the bytes it
/// looks at, wherever that is, up to and including the last place where the
/// signature still fits (so a signature that ends exactly where those bytes
/// end is found), and moves there.
pub proof fn law_find_first_occurrence(s: StreamView, sig: Seq<u8>, limit: u64, scan: Seq<u8>, p: int)
    requires
        limit <= usize::MAX,
        s.peek_bytes_ok(limit as nat),
        s.peek_bytes(limit as nat).0 == Some(scan),
        scan.len() > sig.len(),
        0 <= p,
        p + sig.len() <= scan.len(),
        scan.subrange(p, p + sig.len()) == sig,
        forall|q: int| 0 <= q < p ==> #[trigger] scan.subrange(q, q + sig.len()) != sig,
        p <= i64::MAX,
        seek_ok(s.pos, p as i64),
    ensures
        spec_find(s, sig, limit) == Some((true, s.peek_bytes(limit as nat).1.seek(p as i64))),
{
    let last = scan.len() - sig.len();
    assert forall|q: int| 0 <= q < p implies !matches_at(scan, sig, q) by {
        assert(scan.subrange(q, q + sig.len()) != sig);
    }
    lemma_first_match_is(scan, sig, 0, last, p);
}

/// Where the signature occurs nowhere among the bytes looked at (more of
/// them than the signature has), the search finds nothing and does not move.
pub proof fn law_find_nothing(s: StreamView, sig: Seq<u8>, limit: u64, scan: Seq<u8>)
    requires
        limit <= usize::MAX,
        s.peek_bytes_ok(limit as nat),
        s.peek_bytes(limit as nat).0 == Some(scan),
        scan.len() > sig.len(),
        forall|q: int| 0 <= q && q + sig.len() <= scan.len() ==> #[trigger] scan.subrange(q, q + sig.len()) != sig,
    ensures
        spec_find(s, sig, limit) == Some((false, s.peek_bytes(limit as nat).1)),
        s.peek_bytes(limit as nat).1.pos == s.pos,
{
    let last = scan.len() - sig.len();
    assert forall|q: int| 0 <= q <= last implies !matches_at(scan, sig, q) by {
        assert(scan.subrange(q, q + sig.len()) != sig);
    }
    lemma_first_match_none(scan, sig, 0, last);
    assert(scan.subrange(0, sig.len() as int) != sig);
    if sig.len() == 0 {
        assert(scan.subrange(0, 0) =~= sig);
    }
}

/// The stream `s` moved to `q`, with its read cursor there too.
pub open spec fn at_pos(s: StreamView, q: int) -> StreamView {
    StreamView { pos: q as u64, cursor: q as u64, ..s }
}

/// One of the six PDF white-space bytes: NUL, TAB, LF, FF, CR, SPACE.
pub open spec fn pdf_white_byte(c: u8) -> bool {
    c == 0 || c == 9 || c == 10 || c == 12 || c == 13 || c == 32
}

/// Reading a byte of the data inside the window gives that byte and steps
/// one forward.
proof fn lemma_read_byte_at(s: StreamView, q: int)
    requires
        0 <= q < s.end,
        s.end <= s.data.len(),
        s.end <= i64::MAX,
    ensures
        at_pos(s, q).get_byte_ok(),
        at_pos(s, q).get_byte() == (Some(s.data[q]), at_pos(s, q + 1)),
        remaining(at_pos(s, q + 1)) < remaining(at_pos(s, q)),
{
}

/// White space from `q` to `q + n` is skipped, and the byte after it returned.
proof fn lemma_skip_white_run(s: StreamView, q: int, n: int)
    requires
        0 <= q,
        0 <= n,
        q + n < s.end,
        s.end <= s.data.len(),
        s.end <= i64::MAX,
        forall|k: int| q <= k < q + n ==> pdf_white_byte(#[trigger] s.data[k]),
        !pdf_white_byte(s.data[q + n]),
    ensures
        spec_skip_whitespace(at_pos(s, q)) == Some((s.data[q + n], at_pos(s, q + n + 1))),
    decreases n,
{
    lemma_read_byte_at(s, q);
    if n > 0 {
        assert(pdf_white_byte(s.data[q]));
        lemma_skip_white_run(s, q + 1, n - 1);
    }
}

/// Offset characters from `q` to `q + m`, then a byte that is none, are
/// collected after `ch`.
proof fn lemma_collect_run(s: StreamView, ch: u8, q: int, m: int)
    requires
        0 <= q,
        0 <= m,
        q + m < s.end,
        s.end <= s.data.len(),
        s.end <= i64::MAX,
        0x20 <= ch <= 0x39,
        forall|k: int| q <= k < q + m ==> 0x30 <= #[trigger] s.data[k] <= 0x39,
        !(0x20 <= s.data[q + m] <= 0x39),
    ensures
        spec_collect(at_pos(s, q), ch) == Some((seq![ch] + s.data.subrange(q, q + m), at_pos(s, q + m + 1))),
    decreases m,
{
    lemma_read_byte_at(s, q);
    if m > 0 {
        lemma_collect_run(s, s.data[q], q + 1, m - 1);
        assert(seq![s.data[q]] + s.data.subrange(q + 1, q + m) =~= s.data.subrange(q, q + m));
        assert(seq![ch] + (seq![s.data[q]] + s.data.subrange(q + 1, q + m)) =~= seq![ch] + s.data.subrange(q, q + m));
    } else {
        assert(s.data.subrange(q, q) =~= Seq::<u8>::empty());
        assert(seq![ch] + Seq::<u8>::empty() =~= seq![ch]);
    }
}

/// The offset after `startxref` is the number written there, whatever PDF
/// white space (any of NUL, TAB, LF, FF, CR, SPACE, in any number) comes
/// before it: from a position with white space `w`, then the digits `d`,
/// then a byte that is no offset character, the offset read is the value of
/// `d`, and reading stops just after that byte.
pub proof fn law_offset_after_any_white_space(s: StreamView, q: int, w: Seq<u8>, d: Seq<u8>)
    requires
        0 <= q,
        q + w.len() + d.len() < s.end,
        s.end <= s.data.len(),
        s.end <= i64::MAX,
        forall|k: int| 0 <= k < w.len() ==> pdf_white_byte(#[trigger] w[k]),
        0 < d.len(),
        forall|k: int| 0 <= k < d.len() ==> 0x30 <= #[trigger] d[k] <= 0x39,
        decimal_value(d) <= u64::MAX,
        s.data.subrange(q, q + w.len()) == w,
        s.data.subrange(q + w.len(), q + w.len() + d.len()) == d,
        !(0x20 <= s.data[q + w.len() + d.len()] <= 0x39),
    ensures
        spec_read_offset(at_pos(s, q)) == Some(
            (decimal_value(d) as u64, at_pos(s, q + w.len() + d.len() + 1)),
        ),
{
    let n = w.len() as int;
    let m = d.len() as int;
    assert forall|k: int| q <= k < q + n implies pdf_white_byte(#[trigger] s.data[k]) by {
        assert(s.data.subrange(q, q + n)[k - q] == s.data[k]);
    }
    assert(s.data.subrange(q + n, q + n + m)[0] == s.data[q + n]);
    lemma_skip_white_run(s, q, n);
    assert forall|k: int| q + n + 1 <= k < q + n + m implies 0x30 <= #[trigger] s.data[k] <= 0x39 by {
        assert(s.data.subrange(q + n, q + n + m)[k - q - n] == s.data[k]);
    }
    lemma_collect_run(s, s.data[q + n], q + n + 1, m - 1);
    assert(seq![s.data[q + n]] + s.data.subrange(q + n + 1, q + n + m) =~= d);
    assert(all_digits(d));
    assert(unsigned_digits(d) == d);
}

/// Parsing the decimal text of a number gives the number back: what
/// [`crate::primitives::Ref::to_string`] writes, [`parse_u64`] reads.
pub proof fn law_decimal_round_trip(n: u64)
    ensures
        spec_parse_u64(char_bytes(nat_chars(n as nat))) == Some(n),
{
    lemma_decimal_digits(n as nat);
}

/// Parses `s` as a `u64` the way `str::parse::<u64>` does.
pub fn parse_u64(s: &Vec<u8>) -> (r: Option<u64>)
    ensures
        r == spec_parse_u64(s@),
{
    let n = s.len();
    let mut i: usize = 0;
    if n > 0 && s[0] == 0x2b {
        i = 1;
    }
    let first = i;
    let ghost digits = unsigned_digits(s@);
    assert(digits == s@.subrange(first as int, n as int));
    if i == n {
        return None;
    }
    let mut acc: u64 = 0;
    while i < n
        invariant
            first <= i <= n,
            n == s@.len(),
            digits == s@.subrange(first as int, n as int),
            digits == unsigned_digits(s@),
            forall|j: int| 0 <= j < i - first ==> is_digit(#[trigger] digits[j]),
            acc == decimal_value(digits.take(i - first)),
        decreases n - i,
    {
        let c = s[i];
        assert(digits[i - first] == s@[i as int]);
        if c < 0x30 || c > 0x39 {
            assert(!is_digit(digits[i - first]));
            assert(!all_digits(digits));
            return None;
        }
        let ghost pre = digits.take(i - first);
        assert(digits.take(i - first + 1).drop_last() == pre);
        assert(digits.take(i - first + 1).last() == c);
        let d = (c - 0x30) as u64;
        if acc > (u64::MAX - d) / 10 {
            proof {
                assert(decimal_value(digits.take(i - first + 1)) == acc * 10 + d);
                assert(acc * 10 + d > u64::MAX) by (nonlinear_arith)
                    requires
                        acc > (u64::MAX - d) / 10,
                        d <= 9,
                ;
                let t = i - first + 1;
                if all_digits(digits) {
                    lemma_decimal_value_prefix(digits, t);
                }
            }
            return None;
        }
        assert(acc * 10 + d <= u64::MAX) by (nonlinear_arith)
            requires
                acc <= (u64::MAX - d) / 10,
                d <= 9,
        ;
        acc = acc * 10 + d;
        i = i + 1;
    }
    assert(digits.take(n - first) == digits);
    Some(acc)
}

/// A reader over the bytes of a whole PDF file.
pub struct Reader<'a> {
    buffer: &'a Vec<u8>,
}

impl<'a> Reader<'a> {
    pub closed spec fn buffer(&self) -> Seq<u8> {
        self.buffer@
    }

    pub fn new(buffer: &'a Vec<u8>) -> (r: Self)
        ensures
            r.buffer() == buffer@,
    {
        Reader { buffer }
    }

    /// The `startxref` keyword as bytes.
    fn keyword() -> (k: Vec<u8>)
        ensures
            k@ == startxref_keyword(),
    {
        let mut k: Vec<u8> = Vec::new();
        k.push(0x73);
        k.push(0x74);
        k.push(0x61);
        k.push(0x72);
        k.push(0x74);
        k.push(0x78);
        k.push(0x72);
        k.push(0x65);
        k.push(0x66);
        assert(k@ == startxref_keyword());
        k
    }

    /// Looks at `limit` bytes from the current position and moves to the first
    /// occurrence of `signature` in them; see [`spec_find`].
    pub fn find(stream: &mut Stream, signature: &[u8], limit: u64) -> (found: bool)
        requires
            spec_find(old(stream)@, signature@, limit) is Some,
        ensures
            Some((found, final(stream)@)) == spec_find(old(stream)@, signature@, limit),
    {
        match Self::find_checked(stream, signature, limit) {
            Some(b) => b,
            None => {
                assert(false);
                false
            },
        }
    }

    /// [`Reader::find`] on every input: nothing where it panics.
    pub fn find_checked(stream: &mut Stream, signature: &[u8], limit: u64) -> (r: Option<bool>)
        ensures
            match r {
                Some(found) => Some((found, final(stream)@)) == spec_find(
                    old(stream)@,
                    signature@,
                    limit,
                ),
                None => spec_find(old(stream)@, signature@, limit) is None,
            },
    {
        let ghost s0 = stream@;
        let signature_length = signature.len();
        if limit > usize::MAX as u64 {
            return None;
        }
        if !stream.can_peek_bytes(limit as usize) {
            return None;
        }
        let scan_bytes = match stream.peek_bytes(limit as usize) {
            Some(b) => b,
            None => return None,
        };
        let ghost s1 = stream@;
        if scan_bytes.len() < signature_length {
            return None;
        }
        let scan_length = scan_bytes.len() - signature_length;
        if scan_length == 0 {
            return Some(false);
        }
        let mut pos: usize = 0;
        while pos <= scan_length
            invariant
                stream@ == s1,
                s0 == old(stream)@,
                spec_find(s0, signature@, limit) == match first_match(
                    scan_bytes@,
                    signature@,
                    pos as int,
                    scan_length as int,
                ) {
                    None => if scan_length < usize::MAX {
                        Some((false, s1))
                    } else {
                        None
                    },
                    Some(p) => if p <= i64::MAX && seek_ok(s1.pos, p as i64) {
                        Some((true, s1.seek(p as i64)))
                    } else {
                        None
                    },
                },
                scan_bytes@.len() == scan_length + signature_length,
                scan_bytes@.len() <= usize::MAX,
                scan_length == scan_bytes@.len() - signature@.len(),
                signature_length == signature@.len(),
                0 < scan_length,
                pos <= scan_length + 1,
            decreases scan_length + 1 - pos,
        {
            let mut j: usize = 0;
            let mut same = true;
            while j < signature_length && same
                invariant
                    j <= signature_length,
                    pos <= scan_length,
                    scan_bytes@.len() == scan_length + signature_length,
                    pos + signature_length <= scan_bytes@.len(),
                    scan_bytes@.len() <= usize::MAX,
                    signature_length == signature@.len(),
                    forall|q: int| 0 <= q < j ==> scan_bytes@[pos + q] == signature@[q],
                    !same ==> j < signature_length && scan_bytes@[pos + j] != signature@[j as int],
                decreases signature_length - j, (if same { 1int } else { 0int }),
            {
                if scan_bytes[pos + j] == signature[j] {
                    j = j + 1;
                } else {
                    same = false;
                }
            }
            if j >= signature_length {
                assert(scan_bytes@.subrange(pos as int, pos + signature@.len()) =~= signature@);
                assert(matches_at(scan_bytes@, signature@, pos as int));
                assert(first_match(scan_bytes@, signature@, pos as int, scan_length as int) == Some(
                    pos as int,
                ));
                if pos as u64 > i64::MAX as u64 || !stream.can_seek(pos as i64) {
                    return None;
                }
                stream.seek_pos(pos as i64);
                return Some(true);
            }
            assert(!matches_at(scan_bytes@, signature@, pos as int)) by {
                if matches_at(scan_bytes@, signature@, pos as int) {
                    assert(scan_bytes@.subrange(pos as int, pos + signature@.len())[j as int]
                        == signature@[j as int]);
                }
            }
            assert(first_match(scan_bytes@, signature@, pos as int, scan_length as int)
                == first_match(scan_bytes@, signature@, pos + 1, scan_length as int));
            if pos == usize::MAX {
                assert(first_match(scan_bytes@, signature@, pos + 1, scan_length as int) is None);
                return None;
            }
            pos = pos + 1;
        }
        Some(false)
    }

    /// Finds the offset of the cross-reference table written after the last
    /// `startxref` keyword; see [`spec_parse_startxref`].
    pub fn parse_startxref(stream: &mut Stream) -> (start_xref: u64)
        requires
            spec_parse_startxref(old(stream)@) is Some,
        ensures
            Some((start_xref, final(stream)@)) == spec_parse_startxref(old(stream)@),
    {
        match Self::parse_startxref_checked(stream) {
            Some(v) => v,
            None => {
                assert(false);
                0
            },
        }
    }

    /// [`Reader::parse_startxref`] on every input: nothing where it panics.
    pub fn parse_startxref_checked(stream: &mut Stream) -> (r: Option<u64>)
        ensures
            match r {
                Some(v) => Some((v, final(stream)@)) == spec_parse_startxref(old(stream)@),
                None => spec_parse_startxref(old(stream)@) is None,
            },
    {
        let keyword = Self::keyword();
        let step: i64 = 1024;
        let start_xref_length: i64 = 9;
        let mut found = false;
        let end = stream.end();
        let mut pos: i64 = if end <= i64::MAX as u64 {
            end as i64
        } else {
            (end as i128 - 0x1_0000_0000_0000_0000i128) as i64
        };
        let ghost s0 = stream@;
        while !found && pos > 0
            invariant
                s0 == old(stream)@,
                spec_search(s0, as_signed(s0.end)) == (if found {
                    Some((true, stream@))
                } else {
                    spec_search(stream@, pos as int)
                }),
                found ==> pos >= 0,
                stream@.data == s0.data,
                stream@.end == s0.end,
                stream@.start == s0.start,
                step == 1024,
                start_xref_length == 9,
                keyword@ == startxref_keyword(),
            decreases pos,
        {
            pos = pos - (step - start_xref_length);
            if pos < 0 {
                pos = 0;
            }
            stream.set_pos(pos as u64);
            found = match Self::find_checked(stream, keyword.as_slice(), step as u64) {
                Some(b) => b,
                None => return None,
            };
        }
        if found {
            if !stream.can_seek(start_xref_length) {
                return None;
            }
            stream.skip(start_xref_length);
        }
        let ghost s_ws = stream@;
        let mut ch: u8 = 0;
        loop
            invariant_except_break
                spec_skip_whitespace(stream@) == spec_skip_whitespace(s_ws),
                spec_parse_startxref(old(stream)@) == spec_read_offset(s_ws),
            ensures
                spec_parse_startxref(old(stream)@) == spec_read_offset(s_ws),
                Some((ch, stream@)) == spec_skip_whitespace(s_ws),
            decreases remaining(stream@),
        {
            if !stream.can_get_byte() {
                return None;
            }
            ch = match stream.get_byte() {
                Some(c) => c,
                None => return None,
            };
            if !is_whitespace(ch) {
                break ;
            }
        }
        let ghost s_c = stream@;
        let ghost ch0 = ch;
        let mut digits: Vec<u8> = Vec::new();
        while ch >= 0x20 && ch <= 0x39
            invariant
                spec_parse_startxref(old(stream)@) == spec_offset_value(spec_collect(s_c, ch0)),
                spec_collect(s_c, ch0) == match spec_collect(stream@, ch) {
                    Some((rest, s)) => Some((digits@ + rest, s)),
                    None => None,
                },
            decreases remaining(stream@),
        {
            digits.push(ch);
            if !stream.can_get_byte() {
                return None;
            }
            ch = match stream.get_byte() {
                Some(c) => c,
                None => return None,
            };
        }
        assert(digits@ + Seq::<u8>::empty() == digits@);
        match parse_u64(&digits) {
            Some(v) => Some(v),
            None => Some(0),
        }
    }
}

impl<'a> Reader<'a> {
    /// Reads the file up to its cross-reference table: the offset after
    /// `startxref` and the table. Nothing where the reader panics on the way.
    pub fn read_xref(&self) -> (r: Option<(u64, XRef<'a>)>)
        ensures
            match r {
                Some((startxref, xref)) => spec_load(self.buffer()) == Some(
                    (startxref, xref.trailer(), xref.entries()),
                ),
                None => spec_load(self.buffer()) is None,
            },
    {
        let len = self.buffer.len();
        let mut stream = Stream::new(self.buffer, len);
        stream.reset();
        let startxref = match Self::parse_startxref_checked(&mut stream) {
            Some(v) => v,
            None => return None,
        };
        match XRef::parse_checked(stream, startxref) {
            Some(xref) => Some((startxref, xref)),
            None => None,
        }
    }

    /// Reads the file: the offset after `startxref`, the cross-reference
    /// table, and the version the catalog states (as bytes).
    pub fn parse(&self) -> (r: (u64, XRef<'a>, Option<Vec<u8>>))
        requires
            spec_load_ok(self.buffer()),
        ensures
            spec_load(self.buffer()) == Some((r.0, r.1.trailer(), r.1.entries())),
            match catalog_version(catalog_of(r.1.trailer())) {
                Some(n) => r.2 matches Some(v) && v@ == n,
                None => r.2 is None,
            },
    {
        let len = self.buffer.len();
        let mut stream = Stream::new(self.buffer, len);
        stream.reset();
        let startxref = Self::parse_startxref(&mut stream);
        let xref = XRef::parse(stream, startxref);
        let catalog = Catalog::new(&xref);
        let version = match catalog.version() {
            Some(v) => Some(str_bytes(v)),
            None => None,
        };
        (startxref, xref, version)
    }
}

impl PdfDocument {
    /// Loads a document from the bytes of a file. The password is not used.
    #[allow(non_snake_case)]
    pub fn loadData(buffer: Vec<u8>, password: Option<String>)
        requires
            spec_load_ok(buffer@),
    {
        let reader = Reader::new(&buffer);
        let _parsed = reader.parse();
    }

    /// Reads a file up to its cross-reference table, as
    /// [`PdfDocument::loadData`] does first: nothing where it panics on the
    /// way.
    pub fn load_xref<'a>(buffer: &'a Vec<u8>) -> (r: Option<(u64, XRef<'a>)>)
        ensures
            match r {
                Some((startxref, xref)) => spec_load(buffer@) == Some(
                    (startxref, xref.trailer(), xref.entries()),
                ),
                None => spec_load(buffer@) is None,
            },
    {
        Reader::new(buffer).read_xref()
    }
}

} // verus!
