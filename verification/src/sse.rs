//! Server-sent-event framing over ordered byte chunks: an incremental UTF-8
//! decoder that holds an incomplete trailing sequence across chunks and
//! replaces invalid sequences with U+FFFD, a line scanner that splits on
//! `\r`, `\n` and `\r\n`, and the event assembler that turns lines into events.

use vstd::prelude::*;
use crate::text::{chars_eq, chars_range, push_all, string_from_chars, char_from_u32};

verus! {

// ---------------------------------------------------------------------------
// UTF-8
// ---------------------------------------------------------------------------

/// What the bytes at the front of a buffer hold: a scalar value and the
/// number of bytes it takes, an invalid sequence and its length, or the
/// valid beginning of a sequence that the buffer cuts short.
pub enum Utf8Unit {
    Scalar(u32, nat),
    Invalid(nat),
    Incomplete,
}

pub open spec fn is_cont(b: u8) -> bool {
    0x80 <= b <= 0xBF
}

/// The number of bytes that a sequence starting with `b` takes, or 0 where
/// `b` cannot start one.
pub open spec fn lead_width(b: u8) -> int {
    if b < 0x80 {
        1
    } else if 0xC2 <= b <= 0xDF {
        2
    } else if 0xE0 <= b <= 0xEF {
        3
    } else if 0xF0 <= b <= 0xF4 {
        4
    } else {
        0
    }
}

/// Whether `b1` may follow the lead byte `b0` (which rules out overlong
/// forms, surrogates and values above U+10FFFF).
pub open spec fn second_ok(b0: u8, b1: u8) -> bool {
    if b0 == 0xE0 {
        0xA0 <= b1 <= 0xBF
    } else if b0 == 0xED {
        0x80 <= b1 <= 0x9F
    } else if b0 == 0xF0 {
        0x90 <= b1 <= 0xBF
    } else if b0 == 0xF4 {
        0x80 <= b1 <= 0x8F
    } else {
        is_cont(b1)
    }
}

pub open spec fn scalar2(b0: u8, b1: u8) -> u32 {
    (((b0 & 0x1F) as u32) << 6u32) | ((b1 & 0x3F) as u32)
}

pub open spec fn scalar3(b0: u8, b1: u8, b2: u8) -> u32 {
    (((b0 & 0x0F) as u32) << 12u32) | (((b1 & 0x3F) as u32) << 6u32) | ((b2 & 0x3F) as u32)
}

pub open spec fn scalar4(b0: u8, b1: u8, b2: u8, b3: u8) -> u32 {
    (((b0 & 0x07) as u32) << 18u32) | (((b1 & 0x3F) as u32) << 12u32) | (((b2 & 0x3F) as u32)
        << 6u32) | ((b3 & 0x3F) as u32)
}

/// The unit at the front of a non-empty buffer, as `std::str::from_utf8`
/// classifies it.
pub open spec fn utf8_unit(b: Seq<u8>) -> Utf8Unit
    recommends
        b.len() > 0,
{
    let w = lead_width(b[0]);
    if w == 1 {
        Utf8Unit::Scalar(b[0] as u32, 1)
    } else if w == 0 {
        Utf8Unit::Invalid(1)
    } else if b.len() < 2 {
        Utf8Unit::Incomplete
    } else if !second_ok(b[0], b[1]) {
        Utf8Unit::Invalid(1)
    } else if w == 2 {
        Utf8Unit::Scalar(scalar2(b[0], b[1]), 2)
    } else if b.len() < 3 {
        Utf8Unit::Incomplete
    } else if !is_cont(b[2]) {
        Utf8Unit::Invalid(2)
    } else if w == 3 {
        Utf8Unit::Scalar(scalar3(b[0], b[1], b[2]), 3)
    } else if b.len() < 4 {
        Utf8Unit::Incomplete
    } else if !is_cont(b[3]) {
        Utf8Unit::Invalid(3)
    } else {
        Utf8Unit::Scalar(scalar4(b[0], b[1], b[2], b[3]), 4)
    }
}

pub open spec fn replacement_char() -> char {
    '\u{FFFD}'
}

/// Decodes the complete units at the front of `b`: the characters they give
/// (U+FFFD for each invalid sequence) and the incomplete tail left over.
pub open spec fn utf8_decode_prefix(b: Seq<u8>) -> (Seq<char>, Seq<u8>)
    decreases b.len(),
{
    if b.len() == 0 {
        (Seq::empty(), Seq::empty())
    } else {
        match utf8_unit(b) {
            Utf8Unit::Scalar(v, n) => {
                let (c, rest) = utf8_decode_prefix(b.skip(n as int));
                (seq![v as char] + c, rest)
            },
            Utf8Unit::Invalid(n) => {
                let (c, rest) = utf8_decode_prefix(b.skip(n as int));
                (seq![replacement_char()] + c, rest)
            },
            Utf8Unit::Incomplete => (Seq::empty(), b),
        }
    }
}

/// Lossy decoding of a whole buffer: an incomplete tail becomes one U+FFFD.
pub open spec fn utf8_lossy(b: Seq<u8>) -> Seq<char> {
    let (c, rest) = utf8_decode_prefix(b);
    if rest.len() > 0 {
        c.push(replacement_char())
    } else {
        c
    }
}

proof fn lemma_unit_len(b: Seq<u8>)
    requires
        b.len() > 0,
    ensures
        utf8_unit(b) matches Utf8Unit::Scalar(_, n) ==> 1 <= n <= 4 && n <= b.len(),
        utf8_unit(b) matches Utf8Unit::Invalid(n) ==> 1 <= n <= 3 && n <= b.len(),
{
}

proof fn lemma_scalar_valid(b: Seq<u8>)
    requires
        b.len() > 0,
        utf8_unit(b) is Scalar,
    ensures
        vstd::utf8::is_scalar(utf8_unit(b)->Scalar_0),
{
    let b0 = b[0];
    let w = lead_width(b0);
    if w == 2 {
        let b1 = b[1];
        assert(0xC2 <= b0 <= 0xDF && 0x80 <= b1 <= 0xBF ==> 0x80 <= scalar2(b0, b1) <= 0x7FF)
            by (bit_vector);
    } else if w == 3 {
        let b1 = b[1];
        let b2 = b[2];
        assert(0xE0 <= b0 <= 0xEF && second_ok(b0, b1) && is_cont(b2) ==> 0x800 <= scalar3(
            b0,
            b1,
            b2,
        ) <= 0xFFFF && !(0xD800 <= scalar3(b0, b1, b2) <= 0xDFFF)) by (bit_vector);
    } else if w == 4 {
        let b1 = b[1];
        let b2 = b[2];
        let b3 = b[3];
        assert(0xF0 <= b0 <= 0xF4 && second_ok(b0, b1) && is_cont(b2) && is_cont(b3) ==> 0x10000
            <= scalar4(b0, b1, b2, b3) <= 0x10FFFF) by (bit_vector);
    }
}


fn lead_width_exec(b: u8) -> (w: u8)
    ensures
        w as int == lead_width(b),
{
    if b < 0x80 {
        1
    } else if 0xC2 <= b && b <= 0xDF {
        2
    } else if 0xE0 <= b && b <= 0xEF {
        3
    } else if 0xF0 <= b && b <= 0xF4 {
        4
    } else {
        0
    }
}

fn second_ok_exec(b0: u8, b1: u8) -> (r: bool)
    ensures
        r == second_ok(b0, b1),
{
    if b0 == 0xE0 {
        0xA0 <= b1 && b1 <= 0xBF
    } else if b0 == 0xED {
        0x80 <= b1 && b1 <= 0x9F
    } else if b0 == 0xF0 {
        0x90 <= b1 && b1 <= 0xBF
    } else if b0 == 0xF4 {
        0x80 <= b1 && b1 <= 0x8F
    } else {
        0x80 <= b1 && b1 <= 0xBF
    }
}

/// The unit of `b[i..]`: `(Some(c), n)` for a character taking `n` bytes,
/// `(None, n)` for an invalid sequence of `n` bytes, `(None, 0)` for an
/// incomplete tail.
fn next_unit(b: &[u8], i: usize) -> (r: (Option<char>, usize))
    requires
        i < b@.len(),
    ensures
        match utf8_unit(b@.skip(i as int)) {
            Utf8Unit::Scalar(v, n) => r.0 == Some(v as char) && r.1 == n,
            Utf8Unit::Invalid(n) => r.0.is_none() && r.1 == n,
            Utf8Unit::Incomplete => r.0.is_none() && r.1 == 0,
        },
{
    let ghost s = b@.skip(i as int);
    proof {
        lemma_unit_len(s);
    }
    let b0 = b[i];
    let w = lead_width_exec(b0);
    let avail = b.len() - i;
    let v: u32;
    let n: usize;
    if w == 1 {
        v = b0 as u32;
        n = 1;
    } else if w == 0 {
        return (None, 1);
    } else if avail < 2 {
        return (None, 0);
    } else if !second_ok_exec(b0, b[i + 1]) {
        return (None, 1);
    } else if w == 2 {
        v = (((b0 & 0x1F) as u32) << 6u32) | ((b[i + 1] & 0x3F) as u32);
        n = 2;
    } else if avail < 3 {
        return (None, 0);
    } else if !(0x80 <= b[i + 2] && b[i + 2] <= 0xBF) {
        return (None, 2);
    } else if w == 3 {
        v = (((b0 & 0x0F) as u32) << 12u32) | (((b[i + 1] & 0x3F) as u32) << 6u32) | ((b[i + 2]
            & 0x3F) as u32);
        n = 3;
    } else if avail < 4 {
        return (None, 0);
    } else if !(0x80 <= b[i + 3] && b[i + 3] <= 0xBF) {
        return (None, 3);
    } else {
        v = (((b0 & 0x07) as u32) << 18u32) | (((b[i + 1] & 0x3F) as u32) << 12u32) | (((b[i + 2]
            & 0x3F) as u32) << 6u32) | ((b[i + 3] & 0x3F) as u32);
        n = 4;
    }
    proof {
        lemma_scalar_valid(s);
    }
    let c = char_from_u32(v);
    (c, n)
}

/// The UTF-8 encoding of a scalar value, ahead of any bytes, is read back
/// as that scalar value and the number of bytes the encoding takes.
proof fn lemma_unit_of_encoding(v: u32, rest: Seq<u8>)
    requires
        vstd::utf8::is_scalar(v),
    ensures
        utf8_unit(vstd::utf8::encode_scalar(v) + rest) == Utf8Unit::Scalar(
            v,
            vstd::utf8::encode_scalar(v).len(),
        ),
{
    let e = vstd::utf8::encode_scalar(v);
    let b = e + rest;
    if v <= 0x7F {
        assert(b[0] == e[0]);
        assert(e[0] == (v & 0x7F) as u8);
        assert(v <= 0x7F ==> (v & 0x7F) as u8 as u32 == v && ((v & 0x7F) as u8) < 0x80) by (bit_vector);
    } else if v <= 0x7FF {
        let b0 = (0xC0 | ((v >> 6) & 0x1F) as u8) as u8;
        let b1 = (0x80 | (v & 0x3F) as u8) as u8;
        assert(e =~= seq![b0, b1]);
        assert(b[0] == b0 && b[1] == b1);
        assert(0x80 <= v <= 0x7FF ==> 0xC2 <= (0xC0 | ((v >> 6) & 0x1F) as u8) as u8 <= 0xDF
            && 0x80 <= (0x80 | (v & 0x3F) as u8) as u8 <= 0xBF
            && scalar2((0xC0 | ((v >> 6) & 0x1F) as u8) as u8, (0x80 | (v & 0x3F) as u8) as u8) == v)
            by (bit_vector);
    } else if v <= 0xFFFF {
        let b0 = (0xE0 | ((v >> 12) & 0x0F) as u8) as u8;
        let b1 = (0x80 | ((v >> 6) & 0x3F) as u8) as u8;
        let b2 = (0x80 | (v & 0x3F) as u8) as u8;
        assert(e =~= seq![b0, b1, b2]);
        assert(b[0] == b0 && b[1] == b1 && b[2] == b2);
        assert(0x800 <= v <= 0xFFFF && !(0xD800 <= v <= 0xDFFF) ==> 0xE0 <= (0xE0 | ((v >> 12) & 0x0F) as u8) as u8 <= 0xEF
            && second_ok((0xE0 | ((v >> 12) & 0x0F) as u8) as u8, (0x80 | ((v >> 6) & 0x3F) as u8) as u8)
            && 0x80 <= (0x80 | (v & 0x3F) as u8) as u8 <= 0xBF
            && scalar3((0xE0 | ((v >> 12) & 0x0F) as u8) as u8, (0x80 | ((v >> 6) & 0x3F) as u8) as u8,
                (0x80 | (v & 0x3F) as u8) as u8) == v)
            by (bit_vector);
    } else {
        let b0 = (0xF0 | ((v >> 18) & 0x7) as u8) as u8;
        let b1 = (0x80 | ((v >> 12) & 0x3F) as u8) as u8;
        let b2 = (0x80 | ((v >> 6) & 0x3F) as u8) as u8;
        let b3 = (0x80 | (v & 0x3F) as u8) as u8;
        assert(e =~= seq![b0, b1, b2, b3]);
        assert(b[0] == b0 && b[1] == b1 && b[2] == b2 && b[3] == b3);
        assert(0x10000 <= v <= 0x10FFFF ==> 0xF0 <= (0xF0 | ((v >> 18) & 0x7) as u8) as u8 <= 0xF4
            && second_ok((0xF0 | ((v >> 18) & 0x7) as u8) as u8, (0x80 | ((v >> 12) & 0x3F) as u8) as u8)
            && 0x80 <= (0x80 | ((v >> 6) & 0x3F) as u8) as u8 <= 0xBF
            && 0x80 <= (0x80 | (v & 0x3F) as u8) as u8 <= 0xBF
            && scalar4((0xF0 | ((v >> 18) & 0x7) as u8) as u8, (0x80 | ((v >> 12) & 0x3F) as u8) as u8,
                (0x80 | ((v >> 6) & 0x3F) as u8) as u8, (0x80 | (v & 0x3F) as u8) as u8) == v)
            by (bit_vector);
    }
}

/// Well-formed UTF-8 decodes to exactly the characters it encodes: the
/// encoding of any character sequence decodes with nothing held back, and
/// its lossy decoding is the sequence itself.
pub proof fn law_utf8_round_trip(s: Seq<char>)
    ensures
        utf8_decode_prefix(vstd::utf8::encode_utf8(s)) == (s, Seq::<u8>::empty()),
        utf8_lossy(vstd::utf8::encode_utf8(s)) == s,
    decreases s.len(),
{
    let b = vstd::utf8::encode_utf8(s);
    if s.len() == 0 {
        assert(b =~= Seq::<u8>::empty());
    } else {
        let c = s[0];
        let v = c as u32;
        vstd::utf8::char_is_scalar(c);
        let e = vstd::utf8::encode_scalar(v);
        let t = s.drop_first();
        let rest = vstd::utf8::encode_utf8(t);
        assert(b == e + rest);
        lemma_unit_of_encoding(v, rest);
        assert(e.len() >= 1);
        lemma_decode_step(b);
        assert(b.skip(e.len() as int) =~= rest);
        law_utf8_round_trip(t);
        vstd::utf8::char_u32_cast(c, v);
        assert(s =~= seq![c] + t);
    }
}

proof fn lemma_decode_step(b: Seq<u8>)
    requires
        b.len() > 0,
    ensures
        match utf8_unit(b) {
            Utf8Unit::Scalar(v, n) => utf8_decode_prefix(b) == (seq![v as char] + utf8_decode_prefix(
                b.skip(n as int),
            ).0, utf8_decode_prefix(b.skip(n as int)).1),
            Utf8Unit::Invalid(n) => utf8_decode_prefix(b) == (seq![replacement_char()]
                + utf8_decode_prefix(b.skip(n as int)).0, utf8_decode_prefix(b.skip(n as int)).1),
            Utf8Unit::Incomplete => utf8_decode_prefix(b) == (Seq::<char>::empty(), b),
        },
{
}

/// Decodes the complete units of `buf` and returns them with the incomplete
/// tail.
fn decode_units(buf: &Vec<u8>) -> (r: (Vec<char>, Vec<u8>))
    ensures
        (r.0@, r.1@) == utf8_decode_prefix(buf@),
{
    let ghost all = buf@;
    let ghost whole = utf8_decode_prefix(all);
    let mut out: Vec<char> = Vec::new();
    let mut i: usize = 0;
    assert(all.skip(0) =~= all);
    assert(Seq::<char>::empty() + whole.0 =~= whole.0);
    while i < buf.len()
        invariant
            buf@ == all,
            whole == utf8_decode_prefix(all),
            i <= all.len(),
            out@ + utf8_decode_prefix(all.skip(i as int)).0 == whole.0,
            utf8_decode_prefix(all.skip(i as int)).1 == whole.1,
        decreases all.len() - i,
    {
        let ghost rest = all.skip(i as int);
        proof {
            lemma_unit_len(rest);
            lemma_decode_step(rest);
        }
        let (c, n) = next_unit(buf.as_slice(), i);
        if n == 0 {
            let tail = crate::text::bytes_range(buf.as_slice(), i, buf.len());
            assert(tail@ =~= rest);
            assert(utf8_unit(rest) is Incomplete);
            assert(out@ + Seq::<char>::empty() =~= out@);
            assert(whole.0 == out@);
            assert(whole.1 == tail@);
            return (out, tail);
        }
        let ghost old_out = out@;
        let ghost next = utf8_decode_prefix(rest.skip(n as int));
        match c {
            Some(ch) => out.push(ch),
            None => out.push('\u{FFFD}'),
        }
        proof {
            assert(rest.skip(n as int) =~= all.skip(i + n));
            assert(old_out + (seq![out@.last()] + next.0) =~= out@ + next.0);
        }
        i = i + n;
    }
    assert(all.skip(i as int).len() == 0);
    assert(out@ + Seq::<char>::empty() =~= out@);
    (out, Vec::new())
}

/// An incremental UTF-8 decoder: holds an incomplete trailing sequence
/// across calls and replaces invalid sequences with U+FFFD.
pub struct Utf8Stream {
    pending: Vec<u8>,
}

impl Utf8Stream {
    /// The bytes held back from earlier chunks.
    pub closed spec fn pending(&self) -> Seq<u8> {
        self.pending@
    }

    pub fn new() -> (s: Self)
        ensures
            s.pending() == Seq::<u8>::empty(),
    {
        Utf8Stream { pending: Vec::new() }
    }

    /// Decodes the held bytes followed by `bytes`: returns the characters of
    /// the complete units and holds back the incomplete tail.
    pub fn decode(&mut self, bytes: &[u8]) -> (out: Vec<char>)
        ensures
            (out@, final(self).pending()) == utf8_decode_prefix(old(self).pending() + bytes@),
    {
        let mut buf: Vec<u8> = Vec::new();
        std::mem::swap(&mut buf, &mut self.pending);
        let mut k: usize = 0;
        while k < bytes.len()
            invariant
                k <= bytes@.len(),
                buf@ == old(self).pending() + bytes@.subrange(0, k as int),
            decreases bytes.len() - k,
        {
            buf.push(bytes[k]);
            k += 1;
            assert(buf@ =~= old(self).pending() + bytes@.subrange(0, k as int));
        }
        assert(bytes@.subrange(0, bytes@.len() as int) =~= bytes@);
        let (out, tail) = decode_units(&buf);
        self.pending = tail;
        out
    }

    /// Lossy-decodes what is held back and empties the holder.
    pub fn flush(&mut self) -> (out: Vec<char>)
        ensures
            out@ == utf8_lossy(old(self).pending()),
            final(self).pending() == Seq::<u8>::empty(),
    {
        let empty: Vec<u8> = Vec::new();
        let mut out = self.decode(empty.as_slice());
        assert(old(self).pending() + empty@ =~= old(self).pending());
        if self.pending.len() > 0 {
            out.push('\u{FFFD}');
            self.pending = Vec::new();
        }
        out
    }
}


/// A unit that the buffer holds whole reads the same when more bytes follow.
proof fn lemma_unit_extend(a: Seq<u8>, b: Seq<u8>)
    requires
        a.len() > 0,
        !(utf8_unit(a) is Incomplete),
    ensures
        utf8_unit(a + b) == utf8_unit(a),
{
    let ab = a + b;
    assert(ab[0] == a[0]);
    if a.len() >= 2 {
        assert(ab[1] == a[1]);
    }
    if a.len() >= 3 {
        assert(ab[2] == a[2]);
    }
    if a.len() >= 4 {
        assert(ab[3] == a[3]);
    }
}

/// Decoding `a` and then what it held back followed by `b` gives what
/// decoding `a + b` at once gives: the same characters, the same bytes
/// held back.  So the characters an incremental decoder emits do not depend
/// on where the input was cut into chunks.
pub proof fn law_decode_split(a: Seq<u8>, b: Seq<u8>)
    ensures
        utf8_decode_prefix(a).0 + utf8_decode_prefix(utf8_decode_prefix(a).1 + b).0
            == utf8_decode_prefix(a + b).0,
        utf8_decode_prefix(utf8_decode_prefix(a).1 + b).1 == utf8_decode_prefix(a + b).1,
    decreases a.len(),
{
    if a.len() == 0 {
        assert(a + b =~= b);
        assert(Seq::<u8>::empty() + b =~= b);
        assert(Seq::<char>::empty() + utf8_decode_prefix(b).0 =~= utf8_decode_prefix(b).0);
    } else {
        lemma_unit_len(a);
        match utf8_unit(a) {
            Utf8Unit::Incomplete => {
                assert(Seq::<char>::empty() + utf8_decode_prefix(a + b).0 =~= utf8_decode_prefix(a + b).0);
            },
            Utf8Unit::Scalar(v, n) => {
                lemma_unit_extend(a, b);
                assert((a + b).skip(n as int) =~= a.skip(n as int) + b);
                law_decode_split(a.skip(n as int), b);
                let r = utf8_decode_prefix(a.skip(n as int));
                let t = utf8_decode_prefix(r.1 + b);
                assert(seq![v as char] + r.0 + t.0 =~= seq![v as char] + (r.0 + t.0));
            },
            Utf8Unit::Invalid(n) => {
                lemma_unit_extend(a, b);
                assert((a + b).skip(n as int) =~= a.skip(n as int) + b);
                law_decode_split(a.skip(n as int), b);
                let r = utf8_decode_prefix(a.skip(n as int));
                let t = utf8_decode_prefix(r.1 + b);
                assert(seq![replacement_char()] + r.0 + t.0 =~= seq![replacement_char()] + (r.0 + t.0));
            },
        }
    }
}

/// Decoding `a` incrementally, then `b`, then flushing gives the lossy
/// decoding of `a + b`.
pub proof fn law_decode_then_flush(a: Seq<u8>, b: Seq<u8>)
    ensures
        ({
            let (c1, p1) = utf8_decode_prefix(a);
            let (c2, p2) = utf8_decode_prefix(p1 + b);
            c1 + c2 + utf8_lossy(p2)
        }) == utf8_lossy(a + b),
{
    law_decode_split(a, b);
    let (c1, p1) = utf8_decode_prefix(a);
    let (c2, p2) = utf8_decode_prefix(p1 + b);
    lemma_tail_decodes_to_nothing(p1 + b);
    let (c, rest) = utf8_decode_prefix(a + b);
    if rest.len() > 0 {
        assert(utf8_lossy(p2) =~= seq![replacement_char()]);
        assert(c1 + c2 + utf8_lossy(p2) =~= (c1 + c2).push(replacement_char()));
    } else {
        assert(c1 + c2 + utf8_lossy(p2) =~= c1 + c2);
    }
}

/// The bytes of all the pieces, in order.
pub open spec fn concat_bytes(pieces: Seq<Seq<u8>>) -> Seq<u8>
    decreases pieces.len(),
{
    if pieces.len() == 0 {
        Seq::empty()
    } else {
        concat_bytes(pieces.drop_last()) + pieces.last()
    }
}

/// Feeding the pieces one by one to a fresh decoder: the characters
/// emitted by all the calls and the bytes held back after the last.
pub open spec fn stream_decode(pieces: Seq<Seq<u8>>) -> (Seq<char>, Seq<u8>)
    decreases pieces.len(),
{
    if pieces.len() == 0 {
        (Seq::empty(), Seq::empty())
    } else {
        let (c, p) = stream_decode(pieces.drop_last());
        let (c2, p2) = utf8_decode_prefix(p + pieces.last());
        (c + c2, p2)
    }
}

/// At most three bytes are ever held back: the beginning of one sequence.
pub proof fn law_decode_holds_at_most_three(b: Seq<u8>)
    ensures
        utf8_decode_prefix(b).1.len() <= 3,
    decreases b.len(),
{
    if b.len() > 0 {
        lemma_unit_len(b);
        match utf8_unit(b) {
            Utf8Unit::Incomplete => {},
            Utf8Unit::Scalar(_, n) => law_decode_holds_at_most_three(b.skip(n as int)),
            Utf8Unit::Invalid(n) => law_decode_holds_at_most_three(b.skip(n as int)),
        }
    }
}

/// A fresh decoder fed any number of pieces emits the characters of the
/// whole input decoded at once and holds back what that holds back (at
/// most three bytes); flushing then gives the lossy decoding of the whole
/// input.
pub proof fn law_stream_decode(pieces: Seq<Seq<u8>>)
    ensures
        stream_decode(pieces) == utf8_decode_prefix(concat_bytes(pieces)),
        stream_decode(pieces).1.len() <= 3,
        stream_decode(pieces).0 + utf8_lossy(stream_decode(pieces).1) == utf8_lossy(concat_bytes(pieces)),
    decreases pieces.len(),
{
    if pieces.len() == 0 {
        assert(utf8_decode_prefix(Seq::<u8>::empty()) == (Seq::<char>::empty(), Seq::<u8>::empty()));
    } else {
        let init = pieces.drop_last();
        law_stream_decode(init);
        law_decode_split(concat_bytes(init), pieces.last());
    }
    law_decode_holds_at_most_three(concat_bytes(pieces));
    let all = concat_bytes(pieces);
    let (c, rest) = utf8_decode_prefix(all);
    lemma_tail_decodes_to_nothing(all);
    if rest.len() > 0 {
        assert(utf8_lossy(rest) =~= seq![replacement_char()]);
        assert(c + seq![replacement_char()] =~= c.push(replacement_char()));
    } else {
        assert(utf8_lossy(rest) =~= Seq::<char>::empty());
        assert(c + Seq::<char>::empty() =~= c);
    }
}

/// A held-back tail is at most one cut-short sequence: decoding it gives no
/// characters and holds all of it back again.
proof fn lemma_tail_decodes_to_nothing(a: Seq<u8>)
    ensures
        utf8_decode_prefix(utf8_decode_prefix(a).1) == (Seq::<char>::empty(), utf8_decode_prefix(a).1),
    decreases a.len(),
{
    if a.len() > 0 {
        lemma_unit_len(a);
        match utf8_unit(a) {
            Utf8Unit::Incomplete => {},
            Utf8Unit::Scalar(_, n) => {
                lemma_tail_decodes_to_nothing(a.skip(n as int));
            },
            Utf8Unit::Invalid(n) => {
                lemma_tail_decodes_to_nothing(a.skip(n as int));
            },
        }
    }
}

// ---------------------------------------------------------------------------
// Lines and events
// ---------------------------------------------------------------------------

/// One server-sent event: its `event:` field, its `data:` lines joined with
/// `\n`, and the raw non-empty lines that made it.
#[derive(Debug, Clone)]
pub struct ServerSentEvent {
    pub event: Option<String>,
    pub data: String,
    pub raw: Vec<String>,
}

/// Model of a `ServerSentEvent`.
pub struct SseEventModel {
    pub event: Option<Seq<char>>,
    pub data: Seq<char>,
    pub raw: Seq<Seq<char>>,
}

pub open spec fn strings_view(v: Seq<String>) -> Seq<Seq<char>> {
    v.map_values(|x: String| x@)
}

pub open spec fn vecs_view(v: Seq<Vec<char>>) -> Seq<Seq<char>> {
    v.map_values(|x: Vec<char>| x@)
}

pub open spec fn opt_string_view(o: Option<String>) -> Option<Seq<char>> {
    match o {
        Some(s) => Some(s@),
        None => None,
    }
}

impl View for ServerSentEvent {
    type V = SseEventModel;

    open spec fn view(&self) -> SseEventModel {
        SseEventModel { event: opt_string_view(self.event), data: self.data@, raw: strings_view(self.raw@) }
    }
}

/// Model of the decoder state between lines: the pending `event:` value,
/// the pending `data:` lines and the raw lines seen since the last event.
pub struct SseStateModel {
    pub event: Option<Seq<char>>,
    pub data: Seq<Seq<char>>,
    pub raw: Seq<Seq<char>>,
}

pub open spec fn empty_state() -> SseStateModel {
    SseStateModel { event: None, data: Seq::empty(), raw: Seq::empty() }
}

/// `lines` joined with `\n` between them.
pub open spec fn join_lines(lines: Seq<Seq<char>>) -> Seq<char>
    decreases lines.len(),
{
    if lines.len() == 0 {
        Seq::empty()
    } else if lines.len() == 1 {
        lines[0]
    } else {
        join_lines(lines.drop_last()) + seq!['\n'] + lines.last()
    }
}

/// An event is due when a field was set: a non-empty `event:` or any
/// `data:` line.  Flushing clears the state.
pub open spec fn flush_spec(st: SseStateModel) -> (SseStateModel, Option<SseEventModel>) {
    let event_falsy = match st.event {
        None => true,
        Some(e) => e.len() == 0,
    };
    if event_falsy && st.data.len() == 0 {
        (st, None)
    } else {
        (empty_state(), Some(SseEventModel { event: st.event, data: join_lines(st.data), raw: st.raw }))
    }
}

/// Whether `i` is the first index of `c` in `s`.
pub open spec fn is_first_index(s: Seq<char>, c: char, i: int) -> bool {
    &&& 0 <= i < s.len()
    &&& s[i] == c
    &&& forall|j: int| 0 <= j < i ==> s[j] != c
}

/// The first index of `c` in `s`, if `c` occurs.
pub open spec fn index_of(s: Seq<char>, c: char) -> Option<int> {
    if exists|i: int| is_first_index(s, c, i) {
        Some(choose|i: int| is_first_index(s, c, i))
    } else {
        None
    }
}

pub open spec fn is_break(c: char) -> bool {
    c == '\r' || c == '\n'
}

/// Whether `i` is the first index of a line break in `s`.
pub open spec fn is_first_break(s: Seq<char>, i: int) -> bool {
    &&& 0 <= i < s.len()
    &&& is_break(s[i])
    &&& forall|j: int| 0 <= j < i ==> !is_break(s[j])
}

/// The index of the first `\r` or `\n` in `s`, if there is one.
pub open spec fn first_break(s: Seq<char>) -> Option<int> {
    if exists|i: int| is_first_break(s, i) {
        Some(choose|i: int| is_first_break(s, i))
    } else {
        None
    }
}

/// The first complete line of `t` and what follows its terminator (`\r`,
/// `\n` or `\r\n`), or `None` while `t` holds no line break.
pub open spec fn consume_line_spec(t: Seq<char>) -> Option<(Seq<char>, Seq<char>)> {
    match first_break(t) {
        None => None,
        Some(lb) => {
            let next = if t[lb] == '\r' && lb + 1 < t.len() && t[lb + 1] == '\n' {
                lb + 2
            } else {
                lb + 1
            };
            Some((t.subrange(0, lb), t.skip(next)))
        },
    }
}

pub open spec fn event_name() -> Seq<char> {
    seq!['e', 'v', 'e', 'n', 't']
}

pub open spec fn data_name() -> Seq<char> {
    seq!['d', 'a', 't', 'a']
}

/// One line fed to the decoder: an empty line flushes; a line starting with
/// `:` is a comment; otherwise `name: value` (a single leading space of the
/// value dropped) sets `event` or adds a `data` line, other names are
/// ignored.  Every non-empty line is kept in `raw`.
pub open spec fn line_spec(line: Seq<char>, st: SseStateModel) -> (SseStateModel, Option<SseEventModel>) {
    if line.len() == 0 {
        flush_spec(st)
    } else {
        let st1 = SseStateModel { raw: st.raw.push(line), ..st };
        if line[0] == ':' {
            (st1, None)
        } else {
            let (name, value_raw) = match index_of(line, ':') {
                None => (line, Seq::<char>::empty()),
                Some(i) => (line.subrange(0, i), line.skip(i + 1)),
            };
            let value = if value_raw.len() > 0 && value_raw[0] == ' ' {
                value_raw.drop_first()
            } else {
                value_raw
            };
            if name == event_name() {
                (SseStateModel { event: Some(value), ..st1 }, None)
            } else if name == data_name() {
                (SseStateModel { data: st1.data.push(value), ..st1 }, None)
            } else {
                (st1, None)
            }
        }
    }
}

pub open spec fn opt_seq<T>(o: Option<T>) -> Seq<T> {
    match o {
        Some(x) => seq![x],
        None => Seq::empty(),
    }
}

proof fn lemma_first_break(s: Seq<char>)
    ensures
        first_break(s) matches Some(i) ==> is_first_break(s, i),
        first_break(s) is None ==> forall|j: int| 0 <= j < s.len() ==> !is_break(s[j]),
{
    if first_break(s) is None {
        assert forall|j: int| 0 <= j < s.len() implies !is_break(s[j]) by {
            if is_break(s[j]) {
                let k = choose_first_break(s, j);
                assert(is_first_break(s, k));
            }
        }
    }
}

/// The least `k <= j` holding a line break, given that `s[j]` is one.
proof fn choose_first_break(s: Seq<char>, j: int) -> (k: int)
    requires
        0 <= j < s.len(),
        is_break(s[j]),
    ensures
        is_first_break(s, k),
    decreases j,
{
    if exists|i: int| 0 <= i < j && is_break(s[i]) {
        let i = choose|i: int| 0 <= i < j && is_break(s[i]);
        choose_first_break(s, i)
    } else {
        j
    }
}

/// Feeds lines from the front of `buf` until no complete line is left:
/// the leftover text, the state and the events so far.
pub open spec fn drain_spec(buf: Seq<char>, st: SseStateModel, out: Seq<SseEventModel>) -> (Seq<char>, SseStateModel, Seq<SseEventModel>)
    decreases buf.len(),
{
    match consume_line_spec(buf) {
        None => (buf, st, out),
        Some((line, rest)) => {
            if rest.len() < buf.len() {
                let (st2, e) = line_spec(line, st);
                drain_spec(rest, st2, out + opt_seq(e))
            } else {
                (buf, st, out)
            }
        },
    }
}


/// The decoder state between lines.
struct SseDecoderState {
    event: Option<Vec<char>>,
    data: Vec<Vec<char>>,
    raw: Vec<Vec<char>>,
}

pub open spec fn opt_chars_view(o: Option<Vec<char>>) -> Option<Seq<char>> {
    match o {
        Some(v) => Some(v@),
        None => None,
    }
}

impl SseDecoderState {
    spec fn model(&self) -> SseStateModel {
        SseStateModel { event: opt_chars_view(self.event), data: vecs_view(self.data@), raw: vecs_view(self.raw@) }
    }

    fn new() -> (s: Self)
        ensures
            s.model() == empty_state(),
    {
        let s = SseDecoderState { event: None, data: Vec::new(), raw: Vec::new() };
        assert(vecs_view(s.data@) =~= Seq::<Seq<char>>::empty());
        assert(vecs_view(s.raw@) =~= Seq::<Seq<char>>::empty());
        s
    }
}

/// `lines` joined with `\n`.
fn join_with_newline(lines: &Vec<Vec<char>>) -> (r: Vec<char>)
    ensures
        r@ == join_lines(vecs_view(lines@)),
{
    let mut out: Vec<char> = Vec::new();
    let mut i: usize = 0;
    while i < lines.len()
        invariant
            i <= lines@.len(),
            out@ == join_lines(vecs_view(lines@).subrange(0, i as int)),
        decreases lines.len() - i,
    {
        let ghost prev = vecs_view(lines@).subrange(0, i as int);
        if i > 0 {
            out.push('\n');
        }
        push_all(&mut out, lines[i].as_slice());
        proof {
            let next = vecs_view(lines@).subrange(0, i + 1);
            assert(next.drop_last() =~= prev);
            assert(next.last() == lines[i as int]@);
            if i == 0 {
                assert(out@ =~= next[0]);
            } else {
                assert(out@ =~= join_lines(prev) + seq!['\n'] + next.last());
            }
        }
        i += 1;
    }
    assert(vecs_view(lines@).subrange(0, lines@.len() as int) =~= vecs_view(lines@));
    out
}

/// The strings made of each character vector, in order.
fn strings_of(lines: &Vec<Vec<char>>) -> (r: Vec<String>)
    ensures
        strings_view(r@) == vecs_view(lines@),
{
    let mut out: Vec<String> = Vec::new();
    let mut i: usize = 0;
    while i < lines.len()
        invariant
            i <= lines@.len(),
            strings_view(out@) == vecs_view(lines@).subrange(0, i as int),
        decreases lines.len() - i,
    {
        let st = string_from_chars(lines[i].as_slice());
        let ghost prev = out@;
        out.push(st);
        assert(strings_view(out@) =~= strings_view(prev).push(st@));
        assert(vecs_view(lines@).subrange(0, i + 1) =~= vecs_view(lines@).subrange(0, i as int).push(lines@[i as int]@));
        i += 1;
        assert(strings_view(out@) =~= vecs_view(lines@).subrange(0, i as int));
    }
    assert(vecs_view(lines@).subrange(0, lines@.len() as int) =~= vecs_view(lines@));
    out
}

fn opt_string_of(o: &Option<Vec<char>>) -> (r: Option<String>)
    ensures
        opt_string_view(r) == opt_chars_view(*o),
{
    match o {
        Some(v) => Some(string_from_chars(v.as_slice())),
        None => None,
    }
}

/// Emits the pending event, if one is due, and clears the state.
fn flush_sse_event(state: &mut SseDecoderState) -> (r: Option<ServerSentEvent>)
    ensures
        (final(state).model(), match r {
            Some(e) => Some(e@),
            None => None,
        }) == flush_spec(old(state).model()),
{
    let event_falsy = match &state.event {
        None => true,
        Some(s) => s.len() == 0,
    };
    if event_falsy && state.data.len() == 0 {
        return None;
    }
    let ev = ServerSentEvent {
        event: opt_string_of(&state.event),
        data: string_from_chars(join_with_newline(&state.data).as_slice()),
        raw: strings_of(&state.raw),
    };
    *state = SseDecoderState::new();
    Some(ev)
}

/// The first index of `c` in `s`, if any.
fn find_char(s: &[char], c: char) -> (r: Option<usize>)
    ensures
        match r {
            Some(i) => index_of(s@, c) == Some(i as int),
            None => index_of(s@, c) is None,
        },
{
    let mut i: usize = 0;
    while i < s.len()
        invariant
            i <= s@.len(),
            forall|j: int| 0 <= j < i ==> s@[j] != c,
        decreases s.len() - i,
    {
        if s[i] == c {
            proof {
                assert(is_first_index(s@, c, i as int));
                let k = choose|k: int| is_first_index(s@, c, k);
                assert(k == i);
            }
            return Some(i);
        }
        i += 1;
    }
    assert(!exists|k: int| is_first_index(s@, c, k));
    None
}

proof fn lemma_index_of(s: Seq<char>, c: char)
    ensures
        index_of(s, c) matches Some(i) ==> is_first_index(s, c, i),
{
}

/// Feeds one line to the decoder.
fn decode_sse_line(line: &[char], state: &mut SseDecoderState) -> (r: Option<ServerSentEvent>)
    ensures
        (final(state).model(), match r {
            Some(e) => Some(e@),
            None => None,
        }) == line_spec(line@, old(state).model()),
{
    if line.len() == 0 {
        return flush_sse_event(state);
    }
    state.raw.push(crate::text::chars_range(line, 0, line.len()));
    assert(line@.subrange(0, line@.len() as int) =~= line@);
    assert(vecs_view(state.raw@) =~= old(state).model().raw.push(line@));
    if line[0] == ':' {
        return None;
    }
    let delimiter = find_char(line, ':');
    proof {
        lemma_index_of(line@, ':');
    }
    let (field_name, value_raw) = match delimiter {
        None => (crate::text::chars_range(line, 0, line.len()), Vec::new()),
        Some(i) => (crate::text::chars_range(line, 0, i), crate::text::chars_range(line, i + 1, line.len())),
    };
    assert(delimiter is None ==> value_raw@ =~= Seq::<char>::empty());
    assert(delimiter matches Some(i) ==> value_raw@ =~= line@.skip(i + 1));
    let value = if value_raw.len() > 0 && value_raw[0] == ' ' {
        crate::text::chars_range(value_raw.as_slice(), 1, value_raw.len())
    } else {
        value_raw
    };
    let event_lit = ['e', 'v', 'e', 'n', 't'];
    let data_lit = ['d', 'a', 't', 'a'];
    assert(event_lit@ =~= event_name());
    assert(data_lit@ =~= data_name());
    if chars_eq(field_name.as_slice(), event_lit.as_slice()) {
        state.event = Some(value);
    } else if chars_eq(field_name.as_slice(), data_lit.as_slice()) {
        state.data.push(value);
        assert(vecs_view(state.data@) =~= old(state).model().data.push(value@));
    }
    None
}


/// The index of the first `\r` or `\n`, if any.
fn next_line_break_index(text: &[char]) -> (r: Option<usize>)
    ensures
        match r {
            Some(i) => first_break(text@) == Some(i as int),
            None => first_break(text@) is None,
        },
{
    let mut i: usize = 0;
    while i < text.len()
        invariant
            i <= text@.len(),
            forall|j: int| 0 <= j < i ==> !is_break(text@[j]),
        decreases text.len() - i,
    {
        if text[i] == '\r' || text[i] == '\n' {
            proof {
                assert(is_first_break(text@, i as int));
                let k = choose|k: int| is_first_break(text@, k);
                assert(k == i);
            }
            return Some(i);
        }
        i += 1;
    }
    assert(!exists|k: int| is_first_break(text@, k));
    None
}

/// The first complete line and the text after its terminator, or `None`
/// while there is no line break yet.
fn consume_line(text: &[char]) -> (r: Option<(Vec<char>, Vec<char>)>)
    ensures
        match r {
            Some((line, rest)) => consume_line_spec(text@) == Some((line@, rest@)),
            None => consume_line_spec(text@) is None,
        },
{
    let lb = match next_line_break_index(text) {
        Some(lb) => lb,
        None => return None,
    };
    proof {
        lemma_first_break(text@);
    }
    let n = text.len();
    assert(lb < n);
    let mut next = lb + 1;
    if text[lb] == '\r' && next < n && text[next] == '\n' {
        next += 1;
    }
    let line = crate::text::chars_range(text, 0, lb);
    let rest = crate::text::chars_range(text, next, text.len());
    assert(rest@ =~= text@.skip(next as int));
    Some((line, rest))
}

proof fn lemma_consume_shrinks(t: Seq<char>)
    ensures
        consume_line_spec(t) matches Some((line, rest)) ==> rest.len() < t.len(),
{
    lemma_first_break(t);
}

pub open spec fn events_view(v: Seq<ServerSentEvent>) -> Seq<SseEventModel> {
    v.map_values(|e: ServerSentEvent| e@)
}

fn push_event(out: &mut Vec<ServerSentEvent>, e: Option<ServerSentEvent>)
    ensures
        events_view(final(out)@) == events_view(old(out)@) + opt_seq(match e {
            Some(x) => Some(x@),
            None => None,
        }),
{
    match e {
        Some(ev) => {
            out.push(ev);
            assert(events_view(out@) =~= events_view(old(out)@) + seq![ev@]);
        },
        None => {
            assert(events_view(out@) =~= events_view(old(out)@) + Seq::<SseEventModel>::empty());
        },
    }
}

/// Feeds every complete line at the front of `buffer` to the decoder.
fn drain_lines(buffer: &mut Vec<char>, state: &mut SseDecoderState, out: &mut Vec<ServerSentEvent>)
    ensures
        (final(buffer)@, final(state).model(), events_view(final(out)@)) == drain_spec(
            old(buffer)@,
            old(state).model(),
            events_view(old(out)@),
        ),
{
    let ghost goal = drain_spec(buffer@, state.model(), events_view(out@));
    loop
        invariant
            drain_spec(buffer@, state.model(), events_view(out@)) == goal,
            goal == drain_spec(old(buffer)@, old(state).model(), events_view(old(out)@)),
        decreases buffer@.len(),
    {
        proof {
            lemma_consume_shrinks(buffer@);
        }
        match consume_line(buffer.as_slice()) {
            None => {
                return;
            },
            Some((line, rest)) => {
                let e = decode_sse_line(line.as_slice(), state);
                push_event(out, e);
                *buffer = rest;
            },
        }
    }
}

/// The state of a run after some chunks: the bytes held back by the UTF-8
/// decoder, the text not yet split into lines, the decoder state and the
/// events so far.
pub struct SseRun {
    pub pending: Seq<u8>,
    pub buf: Seq<char>,
    pub st: SseStateModel,
    pub out: Seq<SseEventModel>,
}

pub open spec fn chunks_view(chunks: Seq<Vec<u8>>) -> Seq<Seq<u8>> {
    chunks.map_values(|c: Vec<u8>| c@)
}

/// The run after feeding `chunks` in order: each chunk is decoded (with the
/// bytes held back from before) and appended to the text, and every complete
/// line is fed to the decoder.
pub open spec fn sse_feed(chunks: Seq<Seq<u8>>) -> SseRun
    decreases chunks.len(),
{
    if chunks.len() == 0 {
        SseRun { pending: Seq::empty(), buf: Seq::empty(), st: empty_state(), out: Seq::empty() }
    } else {
        let r = sse_feed(chunks.drop_last());
        let (text, pending) = utf8_decode_prefix(r.pending + chunks.last());
        let (buf, st, out) = drain_spec(r.buf + text, r.st, r.out);
        SseRun { pending, buf, st, out }
    }
}

/// The events of a whole stream: after the last chunk, the held-back bytes
/// are decoded lossily, the remaining complete lines are fed, an unfinished
/// last line is fed as a line, and a pending event is flushed.
pub open spec fn parse_sse_spec(chunks: Seq<Seq<u8>>) -> Seq<SseEventModel> {
    let r = sse_feed(chunks);
    let (buf, st, out) = drain_spec(r.buf + utf8_lossy(r.pending), r.st, r.out);
    let (st2, out2) = if buf.len() > 0 {
        let (s, e) = line_spec(buf, st);
        (s, out + opt_seq(e))
    } else {
        (st, out)
    };
    out2 + opt_seq(flush_spec(st2).1)
}

/// Ordered byte chunks to ordered server-sent events.
pub fn parse_sse(chunks: &[Vec<u8>]) -> (out: Vec<ServerSentEvent>)
    ensures
        events_view(out@) == parse_sse_spec(chunks_view(chunks@)),
{
    let mut decoder = Utf8Stream::new();
    let mut state = SseDecoderState::new();
    let mut buffer: Vec<char> = Vec::new();
    let mut out: Vec<ServerSentEvent> = Vec::new();
    let ghost all = chunks_view(chunks@);
    let mut i: usize = 0;
    assert(events_view(out@) =~= Seq::<SseEventModel>::empty());
    assert(all.subrange(0, 0) =~= Seq::<Seq<u8>>::empty());
    while i < chunks.len()
        invariant
            i <= chunks@.len(),
            all == chunks_view(chunks@),
            ({
                let r = sse_feed(all.subrange(0, i as int));
                &&& decoder.pending() == r.pending
                &&& buffer@ == r.buf
                &&& state.model() == r.st
                &&& events_view(out@) == r.out
            }),
        decreases chunks.len() - i,
    {
        let text = decoder.decode(chunks[i].as_slice());
        push_all(&mut buffer, text.as_slice());
        drain_lines(&mut buffer, &mut state, &mut out);
        proof {
            assert(all.subrange(0, i + 1).drop_last() =~= all.subrange(0, i as int));
            assert(all.subrange(0, i + 1).last() == chunks@[i as int]@);
        }
        i += 1;
    }
    assert(all.subrange(0, chunks@.len() as int) =~= all);
    let tail = decoder.flush();
    push_all(&mut buffer, tail.as_slice());
    drain_lines(&mut buffer, &mut state, &mut out);
    if buffer.len() > 0 {
        let e = decode_sse_line(buffer.as_slice(), &mut state);
        push_event(&mut out, e);
    }
    let e = flush_sse_event(&mut state);
    push_event(&mut out, e);
    out
}


// ---------------------------------------------------------------------------
// Where the chunks are cut
// ---------------------------------------------------------------------------

pub open spec fn ends_with_cr(s: Seq<char>) -> bool {
    s.len() > 0 && s.last() == '\r'
}

/// Whether `x` ends in `\r` and `y` begins with `\n`: a cut between the
/// two halves of a `\r\n`.
pub open spec fn splits_crlf(x: Seq<char>, y: Seq<char>) -> bool {
    ends_with_cr(x) && y.len() > 0 && y[0] == '\n'
}

proof fn lemma_first_break_unique(s: Seq<char>, i: int, j: int)
    requires
        is_first_break(s, i),
        is_first_break(s, j),
    ensures
        i == j,
{
    if i < j {
        assert(!is_break(s[i]));
    } else if j < i {
        assert(!is_break(s[j]));
    }
}

/// A line break in `x` is found at the same place when more text follows.
proof fn lemma_first_break_append(x: Seq<char>, y: Seq<char>)
    requires
        first_break(x) is Some,
    ensures
        first_break(x + y) == first_break(x),
{
    lemma_first_break(x);
    let i = first_break(x)->0;
    assert(is_first_break(x + y, i));
    lemma_first_break(x + y);
    let k = first_break(x + y)->0;
    lemma_first_break_unique(x + y, i, k);
}

/// Draining `x + y` drains `x` first, unless `x` ends in `\r` and `y`
/// begins with `\n` (the line end would take the `\n` too).
proof fn lemma_drain_append(x: Seq<char>, y: Seq<char>, st: SseStateModel, out: Seq<SseEventModel>)
    requires
        !splits_crlf(x, y),
    ensures
        drain_spec(x + y, st, out) == ({
            let (r, st1, out1) = drain_spec(x, st, out);
            drain_spec(r + y, st1, out1)
        }),
    decreases x.len(),
{
    lemma_consume_shrinks(x);
    lemma_consume_shrinks(x + y);
    match consume_line_spec(x) {
        None => {},
        Some((line, rest)) => {
            lemma_first_break_append(x, y);
            lemma_first_break(x);
            let lb = first_break(x)->0;
            let xy = x + y;
            assert(xy[lb] == x[lb]);
            if lb + 1 < x.len() {
                assert(xy[lb + 1] == x[lb + 1]);
            } else if lb + 1 < xy.len() {
                assert(xy[lb + 1] == y[0]);
                assert(x.last() == x[lb]);
            }
            let next = if x[lb] == '\r' && lb + 1 < x.len() && x[lb + 1] == '\n' {
                lb + 2
            } else {
                lb + 1
            };
            assert(xy.subrange(0, lb) =~= x.subrange(0, lb));
            assert(xy.skip(next) =~= x.skip(next) + y);
            assert(consume_line_spec(xy) == Some((line, rest + y)));
            if rest.len() > 0 {
                assert(rest.last() == x.last());
            }
            let (st2, e) = line_spec(line, st);
            lemma_drain_append(rest, y, st2, out + opt_seq(e));
        },
    }
}

/// What draining leaves holds no line break.
proof fn lemma_drain_leftover(buf: Seq<char>, st: SseStateModel, out: Seq<SseEventModel>)
    ensures
        consume_line_spec(drain_spec(buf, st, out).0) is None,
    decreases buf.len(),
{
    lemma_consume_shrinks(buf);
    match consume_line_spec(buf) {
        None => {},
        Some((line, rest)) => {
            let (st2, e) = line_spec(line, st);
            lemma_drain_leftover(rest, st2, out + opt_seq(e));
        },
    }
}

/// The text a run holds back ends in no `\r`.
proof fn lemma_feed_buf(chunks: Seq<Seq<u8>>)
    ensures
        !ends_with_cr(sse_feed(chunks).buf),
    decreases chunks.len(),
{
    if chunks.len() > 0 {
        let r = sse_feed(chunks.drop_last());
        let (text, pending) = utf8_decode_prefix(r.pending + chunks.last());
        lemma_drain_leftover(r.buf + text, r.st, r.out);
        let b = sse_feed(chunks).buf;
        lemma_first_break(b);
        if b.len() > 0 {
            assert(!is_break(b[b.len() - 1]));
        }
    }
}

/// The run after `pre + [a, b]` is the run after `pre + [a + b]`, as long
/// as the cut does not fall between a `\r` and a `\n` of the decoded text.
proof fn lemma_feed_split(pre: Seq<Seq<u8>>, a: Seq<u8>, b: Seq<u8>)
    requires
        !splits_crlf(
            utf8_decode_prefix(sse_feed(pre).pending + a).0,
            utf8_decode_prefix(utf8_decode_prefix(sse_feed(pre).pending + a).1 + b).0,
        ),
    ensures
        sse_feed(pre + seq![a, b]) == sse_feed(pre + seq![a + b]),
{
    let two = pre + seq![a, b];
    let one = pre + seq![a + b];
    let pa = pre.push(a);
    assert(two.drop_last() =~= pa);
    assert(two.last() == b);
    assert(pa.drop_last() =~= pre);
    assert(pa.last() == a);
    assert(one.drop_last() =~= pre);
    assert(one.last() == a + b);
    let r0 = sse_feed(pre);
    let p0 = r0.pending;
    let (t1, p1) = utf8_decode_prefix(p0 + a);
    let (t2, p2) = utf8_decode_prefix(p1 + b);
    let x = r0.buf + t1;
    let d1 = drain_spec(x, r0.st, r0.out);
    assert(sse_feed(pa) == SseRun { pending: p1, buf: d1.0, st: d1.1, out: d1.2 });
    let d2 = drain_spec(d1.0 + t2, d1.1, d1.2);
    assert(sse_feed(two) == SseRun { pending: p2, buf: d2.0, st: d2.1, out: d2.2 });
    law_decode_split(p0 + a, b);
    assert(p0 + a + b =~= p0 + (a + b));
    lemma_feed_buf(pre);
    if t1.len() > 0 {
        assert(x.last() == t1.last());
    } else {
        assert(x =~= r0.buf);
    }
    assert(!splits_crlf(x, t2));
    lemma_drain_append(x, t2, r0.st, r0.out);
    assert(r0.buf + (t1 + t2) =~= x + t2);
    assert(sse_feed(one) == SseRun { pending: p2, buf: d2.0, st: d2.1, out: d2.2 });
}

/// Cutting a chunk in two changes nothing, as long as the cut does not fall
/// between a `\r` and a `\n` of the decoded text: the events of
/// `pre + [a, b]` are those of `pre + [a + b]`.  (Where it does, the line
/// ends at the `\r` and the `\n` makes an empty line of its own.)
pub proof fn law_sse_split(pre: Seq<Seq<u8>>, a: Seq<u8>, b: Seq<u8>)
    requires
        !splits_crlf(
            utf8_decode_prefix(sse_feed(pre).pending + a).0,
            utf8_decode_prefix(utf8_decode_prefix(sse_feed(pre).pending + a).1 + b).0,
        ),
    ensures
        parse_sse_spec(pre + seq![a, b]) == parse_sse_spec(pre + seq![a + b]),
{
    lemma_feed_split(pre, a, b);
}

/// The bytes a run holds back are those a fresh decoder holds back after the
/// same chunks.
proof fn lemma_feed_pending(chunks: Seq<Seq<u8>>)
    ensures
        sse_feed(chunks).pending == stream_decode(chunks).1,
    decreases chunks.len(),
{
    if chunks.len() > 0 {
        lemma_feed_pending(chunks.drop_last());
    }
}

/// A held-back tail begins with a lead byte, and holds no byte below 0x80.
proof fn lemma_tail_bytes(b: Seq<u8>)
    ensures
        forall|i: int| 0 <= i < utf8_decode_prefix(b).1.len() ==> #[trigger] utf8_decode_prefix(b).1[i] >= 0x80,
        utf8_decode_prefix(b).1.len() > 0 ==> lead_width(utf8_decode_prefix(b).1[0]) >= 2,
    decreases b.len(),
{
    if b.len() > 0 {
        lemma_unit_len(b);
        match utf8_unit(b) {
            Utf8Unit::Incomplete => {
                assert(lead_width(b[0]) >= 2);
                assert forall|i: int| 0 <= i < b.len() implies #[trigger] b[i] >= 0x80 by {
                    if i == 1 {
                        assert(second_ok(b[0], b[1]));
                    }
                }
            },
            Utf8Unit::Scalar(_, n) => lemma_tail_bytes(b.skip(n as int)),
            Utf8Unit::Invalid(n) => lemma_tail_bytes(b.skip(n as int)),
        }
    }
}

/// A sequence of two or more bytes decodes to a character of at least
/// U+0080.
proof fn lemma_multibyte_scalar(b: Seq<u8>)
    requires
        b.len() > 0,
        utf8_unit(b) matches Utf8Unit::Scalar(_, n) && n >= 2,
    ensures
        utf8_unit(b)->Scalar_0 >= 0x80,
{
    let b0 = b[0];
    let w = lead_width(b0);
    if w == 2 {
        let b1 = b[1];
        assert(0xC2 <= b0 <= 0xDF ==> scalar2(b0, b1) >= 0x80) by (bit_vector);
    } else if w == 3 {
        let b1 = b[1];
        let b2 = b[2];
        assert(0xE0 <= b0 <= 0xEF && b1 <= 0xBF && (b0 != 0xE0 || b1 >= 0xA0) ==> scalar3(b0, b1, b2) >= 0x80) by (bit_vector);
    } else {
        let b1 = b[1];
        let b2 = b[2];
        let b3 = b[3];
        assert(0xF0 <= b0 <= 0xF4 && b1 <= 0xBF && (b0 != 0xF0 || b1 >= 0x90) ==> scalar4(b0, b1, b2, b3) >= 0x80) by (bit_vector);
    }
}

/// Text decoded from bytes that leave nothing held back ends in `\r` only
/// where the bytes end in 0x0D.
proof fn lemma_cr_from_byte(z: Seq<u8>)
    requires
        utf8_decode_prefix(z).1.len() == 0,
        ends_with_cr(utf8_decode_prefix(z).0),
    ensures
        z.len() > 0 && z.last() == 0x0D,
    decreases z.len(),
{
    lemma_unit_len(z);
    match utf8_unit(z) {
        Utf8Unit::Incomplete => {},
        Utf8Unit::Scalar(v, n) => {
            let r = z.skip(n as int);
            let rest = utf8_decode_prefix(r);
            if rest.0.len() > 0 {
                assert((seq![v as char] + rest.0).last() == rest.0.last());
                lemma_cr_from_byte(r);
                assert(z.last() == r.last());
            } else {
                if r.len() > 0 {
                    lemma_unit_len(r);
                }
                assert(r.len() == 0);
                assert((seq![v as char] + rest.0).last() == v as char);
                if n >= 2 {
                    lemma_multibyte_scalar(z);
                    lemma_scalar_valid(z);
                }
                assert(n == 1);
                assert(z.len() == 1);
                assert(z[0] as u32 == v);
            }
        },
        Utf8Unit::Invalid(n) => {
            let r = z.skip(n as int);
            let rest = utf8_decode_prefix(r);
            if rest.0.len() > 0 {
                assert((seq![replacement_char()] + rest.0).last() == rest.0.last());
                lemma_cr_from_byte(r);
                assert(z.last() == r.last());
            } else {
                if r.len() > 0 {
                    lemma_unit_len(r);
                }
                assert((seq![replacement_char()] + rest.0).last() == replacement_char());
            }
        },
    }
}

/// Text decoded from a held-back tail followed by more bytes begins with
/// `\n` only where the tail is empty and the bytes begin with 0x0A.
proof fn lemma_lf_from_byte(t: Seq<u8>, b: Seq<u8>)
    requires
        t.len() == 0 || lead_width(t[0]) >= 2,
        utf8_decode_prefix(t + b).0.len() > 0,
        utf8_decode_prefix(t + b).0[0] == '\n',
    ensures
        t.len() == 0,
        b.len() > 0 && b[0] == 0x0A,
{
    let z = t + b;
    lemma_unit_len(z);
    match utf8_unit(z) {
        Utf8Unit::Incomplete => {},
        Utf8Unit::Scalar(v, n) => {
            assert((seq![v as char] + utf8_decode_prefix(z.skip(n as int)).0)[0] == v as char);
            if n >= 2 {
                lemma_multibyte_scalar(z);
                lemma_scalar_valid(z);
            }
            assert(n == 1);
            assert(z[0] as u32 == v);
            if t.len() > 0 {
                assert(z[0] == t[0]);
            }
            assert(z[0] == b[0]);
        },
        Utf8Unit::Invalid(n) => {
            assert((seq![replacement_char()] + utf8_decode_prefix(z.skip(n as int)).0)[0] == replacement_char());
        },
    }
}

/// Whether some cut between the chunks falls between a 0x0D byte and a
/// 0x0A byte.
pub open spec fn cut_splits_crlf(chunks: Seq<Seq<u8>>) -> bool {
    exists|j: int|
        #![trigger concat_bytes(chunks.take(j))]
        0 < j < chunks.len() && concat_bytes(chunks.take(j)).len() > 0 && concat_bytes(chunks.take(j)).last()
            == 0x0D && concat_bytes(chunks.skip(j)).len() > 0 && concat_bytes(chunks.skip(j))[0] == 0x0A
}

proof fn lemma_concat_push(c: Seq<Seq<u8>>, x: Seq<u8>)
    ensures
        concat_bytes(c.push(x)) == concat_bytes(c) + x,
{
    assert(c.push(x).drop_last() =~= c);
}

proof fn lemma_concat_prefix(c: Seq<Seq<u8>>, j: int)
    requires
        0 <= j <= c.len(),
    ensures
        concat_bytes(c) == concat_bytes(c.take(j)) + concat_bytes(c.skip(j)),
    decreases c.len() - j,
{
    if j == c.len() {
        assert(c.take(j) =~= c);
        assert(c.skip(j) =~= Seq::<Seq<u8>>::empty());
        assert(concat_bytes(c) + Seq::<u8>::empty() =~= concat_bytes(c));
    } else {
        lemma_concat_prefix(c, j + 1);
        assert(c.take(j + 1) =~= c.take(j).push(c[j]));
        lemma_concat_push(c.take(j), c[j]);
        lemma_concat_front(c.skip(j));
        assert(c.skip(j).drop_first() =~= c.skip(j + 1));
        assert(c.skip(j)[0] == c[j]);
    }
}

proof fn lemma_concat_front(c: Seq<Seq<u8>>)
    requires
        c.len() > 0,
    ensures
        concat_bytes(c) == c[0] + concat_bytes(c.drop_first()),
    decreases c.len(),
{
    if c.len() == 1 {
        assert(c.drop_last() =~= Seq::<Seq<u8>>::empty());
        assert(c.drop_first() =~= Seq::<Seq<u8>>::empty());
        assert(concat_bytes(c.drop_last()) == Seq::<u8>::empty());
        assert(c.last() == c[0]);
        assert(concat_bytes(c) =~= c[0]);
        assert(c[0] + Seq::<u8>::empty() =~= c[0]);
    } else {
        lemma_concat_front(c.drop_last());
        assert(c.drop_last().drop_first() =~= c.drop_first().drop_last());
        assert(c.drop_first().last() == c.last());
        assert(c.drop_last()[0] == c[0]);
        assert(c[0] + concat_bytes(c.drop_first().drop_last()) + c.last() =~= c[0] + (concat_bytes(
            c.drop_first().drop_last(),
        ) + c.last()));
    }
}

/// Where no cut of `pre + [a, b]` splits a 0x0D from a 0x0A byte, the last
/// cut does not split a `\r\n` of the decoded text.
proof fn lemma_last_cut(pre: Seq<Seq<u8>>, a: Seq<u8>, b: Seq<u8>)
    requires
        !cut_splits_crlf(pre + seq![a, b]),
    ensures
        !splits_crlf(
            utf8_decode_prefix(sse_feed(pre).pending + a).0,
            utf8_decode_prefix(utf8_decode_prefix(sse_feed(pre).pending + a).1 + b).0,
        ),
{
    let chunks = pre + seq![a, b];
    let k = chunks.len();
    let p0 = sse_feed(pre).pending;
    let (t1, p1) = utf8_decode_prefix(p0 + a);
    let (t2, p2) = utf8_decode_prefix(p1 + b);
    if splits_crlf(t1, t2) {
        lemma_tail_bytes(p0 + a);
        lemma_lf_from_byte(p1, b);
        lemma_cr_from_byte(p0 + a);
        lemma_feed_pending(pre);
        law_stream_decode(pre);
        lemma_tail_bytes(concat_bytes(pre));
        let j = k - 1;
        assert(chunks.take(j) =~= pre.push(a));
        lemma_concat_push(pre, a);
        assert(chunks.skip(j) =~= seq![b]);
        lemma_concat_front(seq![b]);
        assert(seq![b].drop_first() =~= Seq::<Seq<u8>>::empty());
        assert(concat_bytes(Seq::<Seq<u8>>::empty()) == Seq::<u8>::empty());
        assert(b + Seq::<u8>::empty() =~= b);
        let pa = p0 + a;
        if a.len() > 0 {
            assert(pa.last() == a.last());
            assert((concat_bytes(pre) + a).last() == a.last());
        } else {
            assert(pa =~= p0);
            assert(p0[p0.len() - 1] >= 0x80);
        }
        assert(concat_bytes(chunks.take(j)).len() > 0 && concat_bytes(chunks.take(j)).last() == 0x0D);
        assert(concat_bytes(chunks.skip(j)).len() > 0 && concat_bytes(chunks.skip(j))[0] == 0x0A);
    }
}

/// Merging the last two chunks leaves the other cuts as they were.
proof fn lemma_merged_cuts(pre: Seq<Seq<u8>>, a: Seq<u8>, b: Seq<u8>)
    requires
        !cut_splits_crlf(pre + seq![a, b]),
    ensures
        !cut_splits_crlf(pre + seq![a + b]),
{
    let chunks = pre + seq![a, b];
    let merged = pre + seq![a + b];
    if cut_splits_crlf(merged) {
        let j = choose|j: int|
            #![trigger concat_bytes(merged.take(j))]
            0 < j < merged.len() && concat_bytes(merged.take(j)).len() > 0 && concat_bytes(merged.take(j)).last()
                == 0x0D && concat_bytes(merged.skip(j)).len() > 0 && concat_bytes(merged.skip(j))[0] == 0x0A;
        assert(merged.take(j) =~= chunks.take(j));
        lemma_concat_prefix(chunks, j);
        lemma_concat_prefix(merged, j);
        lemma_concat_merge(pre, a, b);
        let x = concat_bytes(chunks.take(j));
        assert(concat_bytes(merged.skip(j)) =~= concat_bytes(merged).skip(x.len() as int));
        assert(concat_bytes(chunks.skip(j)) =~= concat_bytes(chunks).skip(x.len() as int));
        assert(concat_bytes(merged.skip(j)) == concat_bytes(chunks.skip(j)));
        assert(concat_bytes(chunks.take(j)).len() > 0 && concat_bytes(chunks.take(j)).last() == 0x0D
            && concat_bytes(chunks.skip(j)).len() > 0 && concat_bytes(chunks.skip(j))[0] == 0x0A);
    }
}

/// However the bytes are cut into chunks, the events are those of the whole
/// input as one chunk, as long as no cut falls between a 0x0D byte and a
/// 0x0A byte.
pub proof fn law_sse_rechunk(chunks: Seq<Seq<u8>>)
    requires
        !cut_splits_crlf(chunks),
    ensures
        parse_sse_spec(chunks) == parse_sse_spec(seq![concat_bytes(chunks)]),
    decreases chunks.len(),
{
    if chunks.len() == 0 {
        let one = seq![Seq::<u8>::empty()];
        assert(concat_bytes(chunks) == Seq::<u8>::empty());
        assert(seq![concat_bytes(chunks)] == one);
        assert(one.drop_last() =~= Seq::<Seq<u8>>::empty());
        let r = sse_feed(Seq::<Seq<u8>>::empty());
        assert(r.pending + one.last() =~= Seq::<u8>::empty());
        assert(utf8_decode_prefix(Seq::<u8>::empty()) == (Seq::<char>::empty(), Seq::<u8>::empty()));
        assert(r.buf + Seq::<char>::empty() =~= Seq::<char>::empty());
        assert(drain_spec(Seq::<char>::empty(), empty_state(), Seq::<SseEventModel>::empty()) == (Seq::<char>::empty(), empty_state(), Seq::<SseEventModel>::empty())) by {
            lemma_first_break(Seq::<char>::empty());
        }
        assert(sse_feed(one) == sse_feed(chunks));
    } else if chunks.len() == 1 {
        assert(chunks.drop_last() =~= Seq::<Seq<u8>>::empty());
        assert(concat_bytes(chunks.drop_last()) == Seq::<u8>::empty());
        assert(concat_bytes(chunks) =~= chunks[0]);
        assert(chunks =~= seq![concat_bytes(chunks)]);
    } else {
        let k = chunks.len();
        let pre = chunks.take(k - 2);
        let a = chunks[k - 2];
        let b = chunks[k - 1];
        assert(chunks =~= pre + seq![a, b]);
        lemma_last_cut(pre, a, b);
        lemma_feed_split(pre, a, b);
        lemma_merged_cuts(pre, a, b);
        law_sse_rechunk(pre + seq![a + b]);
        lemma_concat_merge(pre, a, b);
    }
}

proof fn lemma_concat_merge(pre: Seq<Seq<u8>>, a: Seq<u8>, b: Seq<u8>)
    ensures
        concat_bytes(pre + seq![a + b]) == concat_bytes(pre + seq![a, b]),
{
    assert((pre + seq![a + b]).drop_last() =~= pre);
    assert((pre + seq![a, b]).drop_last() =~= pre.push(a));
    lemma_concat_push(pre, a);
    assert(concat_bytes(pre) + (a + b) =~= concat_bytes(pre) + a + b);
}

/// Two ways of cutting the same bytes into chunks give the same events, as
/// long as neither has a cut between a 0x0D byte and a 0x0A byte.
pub proof fn law_sse_chunking_free(c1: Seq<Seq<u8>>, c2: Seq<Seq<u8>>)
    requires
        concat_bytes(c1) == concat_bytes(c2),
        !cut_splits_crlf(c1),
        !cut_splits_crlf(c2),
    ensures
        parse_sse_spec(c1) == parse_sse_spec(c2),
{
    law_sse_rechunk(c1);
    law_sse_rechunk(c2);
}

} // verus!
