use vstd::prelude::*;

verus! {

/// Two to the power of 64, the size of the `u64` range.
pub open spec fn two_pow_64() -> int {
    0x1_0000_0000_0000_0000
}

/// What the contracts see of a [`Stream`]: the underlying bytes, the read
/// cursor over them, and the stream's `start`, `pos` and `end` marks.
///
/// The read cursor is separate from `pos`: a stream reads its bytes at the
/// cursor, and most operations bring the cursor back to `pos` afterwards.
pub struct StreamView {
    pub data: Seq<u8>,
    pub cursor: u64,
    pub start: u64,
    pub pos: u64,
    pub end: u64,
}

/// How many bytes a read of `n` bytes at `cursor` copies out of `data_len` bytes:
/// as many as are asked for, but never past the end of the data.
pub open spec fn read_count(data_len: nat, cursor: u64, n: nat) -> nat {
    if cursor >= data_len {
        0
    } else if n <= data_len - cursor {
        n
    } else {
        (data_len - cursor) as nat
    }
}

/// The `n` bytes that a read at `cursor` fills in: the bytes of `data` from
/// `cursor` on, as far as there are any, then zeros.
pub open spec fn read_fill(data: Seq<u8>, cursor: u64, n: nat) -> Seq<u8> {
    Seq::new(
        n,
        |i: int|
            if i < read_count(data.len(), cursor, n) {
                data[cursor + i]
            } else {
                0u8
            },
    )
}

/// A `u64` position read as the `i64` of the same bits.
pub open spec fn as_signed(p: u64) -> int {
    if p <= i64::MAX {
        p as int
    } else {
        p - two_pow_64()
    }
}

/// Moving the position `pos` by `n` stays within the `i64` range.
pub open spec fn seek_ok(pos: u64, n: i64) -> bool {
    i64::MIN <= as_signed(pos) + n <= i64::MAX
}

/// The position `pos` moved by `n`, taken modulo 2^64.
pub open spec fn seek_target(pos: u64, n: i64) -> u64 {
    let q = as_signed(pos) + n;
    if q < 0 {
        (q + two_pow_64()) as u64
    } else {
        q as u64
    }
}

/// The read cursor moved by `n`; a move below zero or past `u64::MAX` is
/// refused and leaves the cursor where it was.
pub open spec fn cursor_seek(c: u64, n: i64) -> u64 {
    if 0 <= c + n <= u64::MAX {
        (c + n) as u64
    } else {
        c
    }
}

pub open spec fn min_u64(a: int, b: int) -> int {
    if a <= b {
        a
    } else {
        b
    }
}

impl StreamView {
    pub open spec fn with_cursor(self, cursor: u64) -> StreamView {
        StreamView { cursor, ..self }
    }

    pub open spec fn with_pos(self, pos: u64) -> StreamView {
        StreamView { pos, cursor: pos, ..self }
    }

    /// Number of bytes between `start` and `end`.
    pub open spec fn len(self) -> int {
        self.end - self.start
    }

    /// Looks at one byte: none at or past `end`; otherwise the byte at the read
    /// cursor, if the data has one there. The cursor comes back to `pos`
    /// whenever `pos` is before `end`.
    pub open spec fn peek_byte(self) -> (Option<u8>, StreamView) {
        if self.pos >= self.end {
            (None, self)
        } else if self.cursor < self.data.len() {
            (Some(self.data[self.cursor as int]), self.with_cursor(self.pos))
        } else {
            (None, self.with_cursor(self.pos))
        }
    }

    /// Moves `pos` and the read cursor by `n`.
    pub open spec fn seek(self, n: i64) -> StreamView {
        StreamView { pos: seek_target(self.pos, n), cursor: cursor_seek(self.cursor, n), ..self }
    }

    /// Reads one byte and steps past it.
    pub open spec fn get_byte(self) -> (Option<u8>, StreamView) {
        let (b, s) = self.peek_byte();
        match b {
            Some(v) => (Some(v), s.seek(1)),
            None => (None, s),
        }
    }

    /// Reading one byte does not overflow the position.
    pub open spec fn get_byte_ok(self) -> bool {
        self.peek_byte().0 is Some ==> seek_ok(self.pos, 1)
    }

    /// Reads `n` bytes one by one, stopping at the first that is missing.
    pub open spec fn get_n(self, n: nat) -> (Option<Seq<u8>>, StreamView)
        decreases n,
    {
        if n == 0 {
            (Some(Seq::empty()), self)
        } else {
            let (b, s) = self.get_byte();
            match b {
                None => (None, s),
                Some(v) => {
                    let (rest, s2) = s.get_n((n - 1) as nat);
                    match rest {
                        None => (None, s2),
                        Some(r) => (Some(seq![v] + r), s2),
                    }
                },
            }
        }
    }

    /// Reading `n` bytes one by one never overflows the position.
    pub open spec fn get_n_ok(self, n: nat) -> bool
        decreases n,
    {
        if n == 0 {
            true
        } else {
            &&& self.get_byte_ok()
            &&& self.get_byte().0 is Some ==> self.get_byte().1.get_n_ok((n - 1) as nat)
        }
    }

    /// How many bytes a peek of `len` bytes asks for: up to `end`.
    pub open spec fn peek_len(self, len: nat) -> int {
        min_u64(self.pos + len, self.end as int) - self.pos
    }

    /// A peek of `len` bytes neither overflows the end mark nor goes below `pos`.
    pub open spec fn peek_bytes_ok(self, len: nat) -> bool {
        &&& self.pos + len <= u64::MAX
        &&& self.peek_len(len) >= 0
    }

    /// Looks at up to `len` bytes: the bytes read at the cursor, padded with
    /// zeros to `peek_len(len)`, or none when not a single byte could be read.
    /// The cursor comes back to `pos`.
    pub open spec fn peek_bytes(self, len: nat) -> (Option<Seq<u8>>, StreamView) {
        let n = self.peek_len(len) as nat;
        let r = if read_count(self.data.len(), self.cursor, n) > 0 {
            Some(read_fill(self.data, self.cursor, n))
        } else {
            None
        };
        (r, self.with_cursor(self.pos))
    }

    /// Reads up to `len` bytes and steps past them.
    pub open spec fn get_bytes(self, len: nat) -> (Option<Seq<u8>>, StreamView) {
        let (r, s) = self.peek_bytes(len);
        match r {
            Some(b) => (Some(b), s.seek(b.len() as i64)),
            None => (None, s),
        }
    }

    pub open spec fn get_bytes_ok(self, len: nat) -> bool {
        &&& self.peek_bytes_ok(len)
        &&& self.peek_bytes(len).0 is Some ==> {
            &&& self.peek_len(len) <= i64::MAX
            &&& seek_ok(self.pos, self.peek_len(len) as i64)
        }
    }

    /// The end of a byte range, cut at the stream's `end`.
    pub open spec fn range_end(self, end: u64) -> int {
        min_u64(end as int, self.end as int)
    }

    pub open spec fn byte_range_ok(self, begin: u64, end: u64) -> bool {
        &&& self.range_end(end) >= begin
        &&& self.range_end(end) - begin <= usize::MAX
    }

    /// Reads `range_end(end) - begin` bytes at the read cursor (which need not
    /// be at `begin`), zero padded, and leaves the cursor after what it read.
    pub open spec fn get_byte_range(self, begin: u64, end: u64) -> (Option<Seq<u8>>, StreamView) {
        let n = (self.range_end(end) - begin) as nat;
        let k = read_count(self.data.len(), self.cursor, n);
        let r = if k > 0 {
            Some(read_fill(self.data, self.cursor, n))
        } else {
            None
        };
        (r, self.with_cursor((self.cursor + k) as u64))
    }
}

/// Reading a byte gives the byte that a peek shows.
pub proof fn law_get_byte_is_peeked_byte(s: StreamView)
    ensures
        s.get_byte().0 == s.peek_byte().0,
{
}

/// Reading a byte that is there steps exactly one byte forward.
pub proof fn law_get_byte_steps_once(s: StreamView)
    requires
        s.get_byte_ok(),
        s.get_byte().0 is Some,
    ensures
        s.get_byte().1.pos == s.pos + 1,
        s.get_byte().1.cursor == s.pos + 1,
{
}

/// Peeking never moves the position, and leaves the read cursor at it.
pub proof fn law_peeks_keep_position(s: StreamView, len: nat)
    ensures
        s.peek_bytes(len).1.pos == s.pos,
        s.peek_byte().1.pos == s.pos,
        s.pos < s.end ==> s.peek_byte().1.cursor == s.pos,
        s.peek_bytes(len).1.cursor == s.pos,
{
}

/// Reading bytes gives what a peek of the same length shows, and steps past
/// them.
pub proof fn law_get_bytes_reads_what_peek_shows(s: StreamView, len: nat)
    requires
        s.get_bytes_ok(len),
    ensures
        s.get_bytes(len).0 == s.peek_bytes(len).0,
        s.get_bytes(len).0 matches Some(b) ==> s.get_bytes(len).1.pos == s.pos + b.len(),
        s.get_bytes(len).0 is None ==> s.get_bytes(len).1.pos == s.pos,
        s.pos <= s.end ==> s.get_bytes(len).1.pos <= s.end,
        len == 0 ==> s.get_bytes(len).0 is None,
{
    if let Some(b) = s.peek_bytes(len).0 {
        assert(b.len() == s.peek_len(len));
    }
}

/// After a reset a stream is as it was fresh at its start, whatever was read
/// or moved since (no read or move changes the bytes, the start or the end):
/// reading starts over from `start` and gives the same bytes again.
pub proof fn law_reset_starts_over(fresh: StreamView, later: StreamView, len: nat)
    requires
        fresh.pos == fresh.start,
        fresh.cursor == fresh.start,
        later.data == fresh.data,
        later.start == fresh.start,
        later.end == fresh.end,
    ensures
        later.with_pos(later.start) == fresh,
        later.with_pos(later.start).get_bytes(len) == fresh.get_bytes(len),
        later.with_pos(later.start).peek_byte() == fresh.peek_byte(),
{
}

/// Skipping `n` bytes and then `-n` bytes comes back to the same position.
pub proof fn law_skip_back_restores_position(s: StreamView, n: i64)
    requires
        n > i64::MIN,
        seek_ok(s.pos, n),
        seek_ok(s.seek(n).pos, -n as i64),
    ensures
        s.seek(n).seek(-n as i64).pos == s.pos,
{
}

/// No read or move changes the bytes, the start or the end of a stream; only
/// `move_start` moves the start.
pub proof fn law_reads_keep_window(s: StreamView, n: i64, len: nat, begin: u64, end: u64)
    ensures
        s.get_byte().1.data == s.data && s.get_byte().1.start == s.start && s.get_byte().1.end
            == s.end,
        s.get_bytes(len).1.data == s.data && s.get_bytes(len).1.start == s.start
            && s.get_bytes(len).1.end == s.end,
        s.get_byte_range(begin, end).1.data == s.data && s.get_byte_range(begin, end).1.start
            == s.start && s.get_byte_range(begin, end).1.end == s.end,
        s.seek(n).data == s.data && s.seek(n).start == s.start && s.seek(n).end == s.end,
{
}

/// A window on a byte buffer with a current position, as the reader of a PDF
/// file walks it.
#[derive(Debug, Clone, Copy, PartialEq)]
pub struct Stream<'a> {
    source: &'a Vec<u8>,
    cursor: u64,
    start: u64,
    pos: u64,
    end: u64,
}

impl<'a> View for Stream<'a> {
    type V = StreamView;

    closed spec fn view(&self) -> StreamView {
        StreamView {
            data: self.source@,
            cursor: self.cursor,
            start: self.start,
            pos: self.pos,
            end: self.end,
        }
    }
}

impl<'a> Stream<'a> {
    /// A stream over `source` from 0 to `length`, positioned at 0.
    pub fn new(source: &'a Vec<u8>, length: usize) -> (s: Self)
        ensures
            s@ == (StreamView { data: source@, cursor: 0, start: 0, pos: 0, end: length as u64 }),
    {
        Stream { source, cursor: 0, start: 0, pos: 0, end: length as u64 }
    }

    /// A stream over the same bytes starting and positioned at `start`, whose
    /// end mark is this stream's length (not `start` plus that length).
    pub fn new_sub(&self, start: u64) -> (s: Self)
        requires
            self@.start <= self@.end,
        ensures
            s@ == (StreamView {
                data: self@.data,
                cursor: 0,
                start,
                pos: start,
                end: (self@.end - self@.start) as u64,
            }),
    {
        Stream { source: self.source, cursor: 0, start, pos: start, end: self.len() }
    }

    /// Number of bytes from `start` to `end`.
    pub fn len(&self) -> (n: u64)
        requires
            self@.start <= self@.end,
        ensures
            n == self@.len(),
    {
        self.end - self.start
    }

    pub fn is_empty(&self) -> (b: bool)
        requires
            self@.start <= self@.end,
        ensures
            b == (self@.len() == 0),
    {
        self.len() == 0
    }

    /// Copies `n` bytes at the read cursor into a new buffer (zero padded past
    /// the end of the data) and moves the cursor past the bytes copied.
    fn read_at_cursor(&mut self, n: usize) -> (r: (Vec<u8>, usize))
        ensures
            r.0@ == read_fill(old(self)@.data, old(self)@.cursor, n as nat),
            r.1 == read_count(old(self)@.data.len(), old(self)@.cursor, n as nat),
            final(self)@ == old(self)@.with_cursor((old(self)@.cursor + r.1) as u64),
    {
        let len = self.source.len();
        let c = self.cursor;
        let k: usize = if c >= len as u64 {
            0
        } else if n as u64 <= len as u64 - c {
            n
        } else {
            (len as u64 - c) as usize
        };
        let mut bytes: Vec<u8> = Vec::new();
        let mut i: usize = 0;
        while i < n
            invariant
                i <= n,
                k == read_count(self.source@.len(), c, n as nat),
                c == self.cursor,
                len == self.source@.len(),
                bytes@.len() == i,
                forall|j: int|
                    0 <= j < i ==> bytes@[j] == read_fill(self.source@, c, n as nat)[j],
            decreases n - i,
        {
            if i < k {
                bytes.push(self.source[(c + i as u64) as usize]);
            } else {
                bytes.push(0u8);
            }
            i = i + 1;
        }
        assert(bytes@ =~= read_fill(self.source@, c, n as nat));
        self.cursor = c + k as u64;
        (bytes, k)
    }

    /// Whether moving the position by `n` stays within the `i64` range.
    pub(crate) fn can_seek(&self, n: i64) -> (b: bool)
        ensures
            b == seek_ok(self@.pos, n),
    {
        let p = self.pos;
        let sp: i128 = if p <= i64::MAX as u64 {
            p as i128
        } else {
            p as i128 - 0x1_0000_0000_0000_0000i128
        };
        let q: i128 = sp + n as i128;
        i64::MIN as i128 <= q && q <= i64::MAX as i128
    }

    /// Whether reading one byte does not overflow the position.
    pub(crate) fn can_get_byte(&self) -> (b: bool)
        ensures
            b == self@.get_byte_ok(),
    {
        if self.pos < self.end && self.cursor < self.source.len() as u64 {
            self.can_seek(1)
        } else {
            true
        }
    }

    /// Whether a peek of `len` bytes neither overflows nor goes below `pos`.
    pub(crate) fn can_peek_bytes(&self, len: usize) -> (b: bool)
        ensures
            b == self@.peek_bytes_ok(len as nat),
    {
        match self.pos.checked_add(len as u64) {
            None => false,
            Some(e) => e <= self.end || self.end >= self.pos,
        }
    }

    /// Looks at the next byte without stepping past it.
    pub fn peek_byte(&mut self) -> (b: Option<u8>)
        ensures
            (b, final(self)@) == old(self)@.peek_byte(),
    {
        if self.pos >= self.end {
            return None;
        }
        let (byte, size) = self.read_at_cursor(1);
        self.rollback_pos();
        if size > 0 {
            return Some(byte[0]);
        }
        None
    }

    /// Reads the next byte and steps past it.
    pub fn get_byte(&mut self) -> (b: Option<u8>)
        requires
            old(self)@.get_byte_ok(),
        ensures
            (b, final(self)@) == old(self)@.get_byte(),
    {
        let byte = match self.peek_byte() {
            Some(v) => v,
            None => return None,
        };
        self.seek_pos(1);
        Some(byte)
    }

    /// Reads `n` bytes, stopping at the first that is missing.
    fn get_n(&mut self, n: usize) -> (r: Option<Vec<u8>>)
        requires
            old(self)@.get_n_ok(n as nat),
        ensures
            (match r {
                Some(v) => Some(v@),
                None => None,
            }, final(self)@) == old(self)@.get_n(n as nat),
            r matches Some(v) ==> v@.len() == n,
        decreases n,
    {
        if n == 0 {
            return Some(Vec::new());
        }
        let b = match self.get_byte() {
            Some(b) => b,
            None => return None,
        };
        let rest = match self.get_n(n - 1) {
            Some(r) => r,
            None => return None,
        };
        let mut v: Vec<u8> = Vec::new();
        v.push(b);
        let mut i: usize = 0;
        while i < rest.len()
            invariant
                i <= rest@.len(),
                v@ == seq![b] + rest@.take(i as int),
            decreases rest@.len() - i,
        {
            v.push(rest[i]);
            i = i + 1;
            assert(rest@.take(i as int) == rest@.take((i - 1) as int).push(rest@[i - 1]));
        }
        assert(rest@.take(rest@.len() as int) == rest@);
        Some(v)
    }

    /// Reads a big-endian 16-bit number.
    pub fn get_uint16(&mut self) -> (r: Option<u16>)
        requires
            old(self)@.get_n_ok(2),
        ensures
            final(self)@ == old(self)@.get_n(2).1,
            (match old(self)@.get_n(2).0 {
                Some(b) => r == Some((b[0] * 256 + b[1]) as u16),
                None => r is None,
            }),
    {
        let b = match self.get_n(2) {
            Some(b) => b,
            None => return None,
        };
        let b0 = b[0] as u16;
        let b1 = b[1] as u16;
        assert((b0 << 8u16) | b1 == b0 * 256 + b1) by (bit_vector)
            requires
                b0 < 256,
                b1 < 256,
        ;
        Some((b0 << 8u16) | b1)
    }

    /// Reads a big-endian 32-bit two's complement number.
    pub fn get_int32(&mut self) -> (r: Option<i32>)
        requires
            old(self)@.get_n_ok(4),
        ensures
            final(self)@ == old(self)@.get_n(4).1,
            (match old(self)@.get_n(4).0 {
                Some(b) => {
                    let u = b[0] * 0x100_0000 + b[1] * 0x1_0000 + b[2] * 0x100 + b[3];
                    r == Some((if u <= i32::MAX { u } else { u - 0x1_0000_0000 }) as i32)
                },
                None => r is None,
            }),
    {
        let b = match self.get_n(4) {
            Some(b) => b,
            None => return None,
        };
        let b0 = b[0] as u32;
        let b1 = b[1] as u32;
        let b2 = b[2] as u32;
        let b3 = b[3] as u32;
        let u: u32 = (b0 << 24u32) | (b1 << 16u32) | (b2 << 8u32) | b3;
        assert(u == b0 * 0x100_0000 + b1 * 0x1_0000 + b2 * 0x100 + b3) by (bit_vector)
            requires
                b0 < 256,
                b1 < 256,
                b2 < 256,
                b3 < 256,
                u == (b0 << 24u32) | (b1 << 16u32) | (b2 << 8u32) | b3,
        ;
        let r: i32 = if u <= i32::MAX as u32 {
            u as i32
        } else {
            (u as i64 - 0x1_0000_0000i64) as i32
        };
        Some(r)
    }

    /// Reads up to `len` bytes and steps past them.
    pub fn get_bytes(&mut self, len: usize) -> (r: Option<Vec<u8>>)
        requires
            old(self)@.get_bytes_ok(len as nat),
        ensures
            (match r {
                Some(v) => Some(v@),
                None => None,
            }, final(self)@) == old(self)@.get_bytes(len as nat),
    {
        let bytes = match self.peek_bytes(len) {
            Some(b) => b,
            None => return None,
        };
        self.seek_pos(bytes.len() as i64);
        Some(bytes)
    }

    /// Looks at up to `len` bytes, as far as `end`, without stepping past them.
    pub fn peek_bytes(&mut self, len: usize) -> (r: Option<Vec<u8>>)
        requires
            old(self)@.peek_bytes_ok(len as nat),
        ensures
            (match r {
                Some(v) => Some(v@),
                None => None,
            }, final(self)@) == old(self)@.peek_bytes(len as nat),
    {
        let pos = self.pos;
        let str_end = self.end;
        let mut end = pos + len as u64;
        if end > str_end {
            end = str_end;
        }
        let length = end - pos;
        let (bytes, size) = self.read_at_cursor(length as usize);
        self.rollback_pos();
        if size > 0 {
            return Some(bytes);
        }
        None
    }

    /// Reads the bytes from `begin` to `end` (cut at the stream's end); the
    /// bytes come from the read cursor, which moves past them.
    pub fn get_byte_range(&mut self, begin: u64, end: u64) -> (r: Option<Vec<u8>>)
        requires
            old(self)@.byte_range_ok(begin, end),
        ensures
            (match r {
                Some(v) => Some(v@),
                None => None,
            }, final(self)@) == old(self)@.get_byte_range(begin, end),
    {
        let b = begin;
        let mut e = end;
        if end > self.end {
            e = self.end;
        }
        let length = e - b;
        let (bytes, size) = self.read_at_cursor(length as usize);
        if size > 0 {
            return Some(bytes);
        }
        None
    }

    /// Brings the read cursor back to `pos`.
    pub fn rollback_pos(&mut self)
        ensures
            final(self)@ == old(self)@.with_cursor(old(self)@.pos),
    {
        self.set_pos(self.pos);
    }

    pub fn start(&self) -> (r: u64)
        ensures
            r == self@.start,
    {
        self.start
    }

    pub fn end(&self) -> (r: u64)
        ensures
            r == self@.end,
    {
        self.end
    }

    pub fn pos(&self) -> (r: u64)
        ensures
            r == self@.pos,
    {
        self.pos
    }

    /// Moves `pos` and the read cursor to `pos`.
    pub fn set_pos(&mut self, pos: u64)
        ensures
            final(self)@ == old(self)@.with_pos(pos),
    {
        self.pos = pos;
        self.cursor = pos;
    }

    /// Moves `pos` and the read cursor by `n`.
    pub fn seek_pos(&mut self, n: i64)
        requires
            seek_ok(old(self)@.pos, n),
        ensures
            final(self)@ == old(self)@.seek(n),
    {
        let p = self.pos;
        let sp: i128 = if p <= i64::MAX as u64 {
            p as i128
        } else {
            p as i128 - 0x1_0000_0000_0000_0000i128
        };
        let q: i128 = sp + n as i128;
        self.pos = if q < 0 {
            (q + 0x1_0000_0000_0000_0000i128) as u64
        } else {
            q as u64
        };
        let c: i128 = self.cursor as i128 + n as i128;
        if 0 <= c && c <= u64::MAX as i128 {
            self.cursor = c as u64;
        }
    }

    /// Moves `pos` and the read cursor by `n`.
    pub fn skip(&mut self, n: i64)
        requires
            seek_ok(old(self)@.pos, n),
        ensures
            final(self)@ == old(self)@.seek(n),
    {
        self.seek_pos(n);
    }

    /// Moves `pos` and the read cursor back to `start`.
    pub fn reset(&mut self)
        ensures
            final(self)@ == old(self)@.with_pos(old(self)@.start),
    {
        self.pos = self.start;
        self.cursor = self.start;
    }

    /// Makes the current position the stream's start.
    pub fn move_start(&mut self)
        ensures
            final(self)@ == (StreamView { start: old(self)@.pos, ..old(self)@ }),
    {
        self.start = self.pos;
    }

    /// A stream over the same bytes starting at `start`; see [`Stream::new_sub`].
    pub fn make_substream(&self, start: u64) -> (s: Stream<'a>)
        requires
            self@.start <= self@.end,
        ensures
            s@ == (StreamView {
                data: self@.data,
                cursor: 0,
                start,
                pos: start,
                end: (self@.end - self@.start) as u64,
            }),
    {
        self.new_sub(start)
    }
}

} // verus!
