//! Character-sequence helpers: the crossings between `str`/`String` and
//! `Vec<char>`, and small verified operations on character slices.

use vstd::prelude::*;

verus! {

/// The characters of a string slice, in order (`str::chars` collected).
/// A `Vec` never holds more than `isize::MAX` bytes, so a `Vec<char>` holds
/// at most a quarter of that many characters.
#[verifier::external_body]
pub(crate) fn chars_of(s: &str) -> (v: Vec<char>)
    ensures
        v@ == s@,
        v@.len() <= isize::MAX / 4,
{
    s.chars().collect()
}

/// The string made of the given characters (`String: FromIterator<char>`).
#[verifier::external_body]
pub(crate) fn string_from_chars(v: &[char]) -> (s: String)
    ensures
        s@ == v@,
{
    v.iter().collect()
}

/// `char::from_u32`: the character with that scalar value, if it is one.
#[verifier::external_body]
pub(crate) fn char_from_u32(u: u32) -> (c: Option<char>)
    ensures
        c == (if vstd::utf8::is_scalar(u) { Some(u as char) } else { None }),
{
    char::from_u32(u)
}

/// Whether two character slices hold the same characters.
pub fn chars_eq(a: &[char], b: &[char]) -> (r: bool)
    ensures
        r == (a@ == b@),
{
    if a.len() != b.len() {
        return false;
    }
    let mut i: usize = 0;
    while i < a.len()
        invariant
            a@.len() == b@.len(),
            i <= a@.len(),
            forall|j: int| 0 <= j < i ==> a@[j] == b@[j],
        decreases a.len() - i,
    {
        if a[i] != b[i] {
            return false;
        }
        i += 1;
    }
    assert(a@ =~= b@);
    true
}

/// A copy of `s[from..to]`.
pub fn chars_range(s: &[char], from: usize, to: usize) -> (v: Vec<char>)
    requires
        from <= to <= s@.len(),
    ensures
        v@ == s@.subrange(from as int, to as int),
{
    let mut v: Vec<char> = Vec::new();
    let mut i: usize = from;
    while i < to
        invariant
            from <= i <= to <= s@.len(),
            v@ == s@.subrange(from as int, i as int),
        decreases to - i,
    {
        v.push(s[i]);
        i += 1;
        assert(v@ =~= s@.subrange(from as int, i as int));
    }
    v
}

/// Appends `src` to the end of `dst`.
pub fn push_all(dst: &mut Vec<char>, src: &[char])
    ensures
        final(dst)@ == old(dst)@ + src@,
{
    let mut i: usize = 0;
    while i < src.len()
        invariant
            i <= src@.len(),
            dst@ == old(dst)@ + src@.subrange(0, i as int),
        decreases src.len() - i,
    {
        dst.push(src[i]);
        i += 1;
        assert(dst@ =~= old(dst)@ + src@.subrange(0, i as int));
    }
    assert(src@.subrange(0, src@.len() as int) =~= src@);
}


/// A copy of `s[from..to]`.
pub fn bytes_range(s: &[u8], from: usize, to: usize) -> (v: Vec<u8>)
    requires
        from <= to <= s@.len(),
    ensures
        v@ == s@.subrange(from as int, to as int),
{
    let mut v: Vec<u8> = Vec::new();
    let mut i: usize = from;
    while i < to
        invariant
            from <= i <= to <= s@.len(),
            v@ == s@.subrange(from as int, i as int),
        decreases to - i,
    {
        v.push(s[i]);
        i += 1;
        assert(v@ =~= s@.subrange(from as int, i as int));
    }
    v
}


/// Whether two string slices hold the same characters (`str == str`).
#[verifier::external_body]
pub(crate) fn str_eq(a: &str, b: &str) -> (r: bool)
    ensures
        r == (a@ == b@),
{
    a == b
}


// ---------------------------------------------------------------------------
// UTF-16 code units
// ---------------------------------------------------------------------------

/// The UTF-16 code units of one character.
pub open spec fn utf16_of(c: char) -> Seq<u16> {
    let v = c as u32;
    if v < 0x10000 {
        seq![v as u16]
    } else {
        seq![(0xD800 + (v - 0x10000) / 0x400) as u16, (0xDC00 + (v - 0x10000) % 0x400) as u16]
    }
}

/// The UTF-16 code units of a character sequence (`str::encode_utf16`).
pub open spec fn utf16_encode(s: Seq<char>) -> Seq<u16>
    decreases s.len(),
{
    if s.len() == 0 {
        Seq::empty()
    } else {
        utf16_encode(s.drop_last()) + utf16_of(s.last())
    }
}

pub open spec fn is_high_surrogate(u: u16) -> bool {
    0xD800 <= u <= 0xDBFF
}

pub open spec fn is_low_surrogate(u: u16) -> bool {
    0xDC00 <= u <= 0xDFFF
}

pub open spec fn surrogate_pair_value(hi: u16, lo: u16) -> u32 {
    (0x10000 + (hi - 0xD800) * 0x400 + (lo - 0xDC00)) as u32
}

/// Lossy decoding of UTF-16 code units (`String::from_utf16_lossy`): a
/// surrogate pair gives one character, an unpaired surrogate gives U+FFFD.
pub open spec fn utf16_decode(u: Seq<u16>) -> Seq<char>
    decreases u.len(),
{
    if u.len() == 0 {
        Seq::empty()
    } else if is_high_surrogate(u[0]) && u.len() >= 2 && is_low_surrogate(u[1]) {
        seq![surrogate_pair_value(u[0], u[1]) as char] + utf16_decode(u.skip(2))
    } else if is_high_surrogate(u[0]) || is_low_surrogate(u[0]) {
        seq!['\u{FFFD}'] + utf16_decode(u.skip(1))
    } else {
        seq![(u[0] as u32) as char] + utf16_decode(u.skip(1))
    }
}

proof fn lemma_encode_append(a: Seq<char>, b: Seq<char>)
    ensures
        utf16_encode(a + b) == utf16_encode(a) + utf16_encode(b),
    decreases b.len(),
{
    if b.len() == 0 {
        assert(a + b =~= a);
        assert(utf16_encode(a) + Seq::<u16>::empty() =~= utf16_encode(a));
    } else {
        assert((a + b).drop_last() =~= a + b.drop_last());
        assert((a + b).last() == b.last());
        lemma_encode_append(a, b.drop_last());
        assert(utf16_encode(a) + utf16_encode(b.drop_last()) + utf16_of(b.last()) =~= utf16_encode(a)
            + (utf16_encode(b.drop_last()) + utf16_of(b.last())));
    }
}

/// The units of one character, decoded ahead of anything, give back the
/// character.
proof fn lemma_decode_char(c: char, rest: Seq<u16>)
    ensures
        utf16_decode(utf16_of(c) + rest) == seq![c] + utf16_decode(rest),
{
    let v = c as u32;
    vstd::utf8::char_is_scalar(c);
    vstd::utf8::char_u32_cast(c, v);
    let u = utf16_of(c) + rest;
    if v < 0x10000 {
        assert(u.skip(1) =~= rest);
        assert(u[0] == v as u16);
        assert((v as u16) as u32 == v);
    } else {
        let w = v - 0x10000;
        let hi = (0xD800 + w / 0x400) as u16;
        let lo = (0xDC00 + w % 0x400) as u16;
        assert(w / 0x400 < 0x400);
        assert(u.skip(2) =~= rest);
        assert(u[0] == hi && u[1] == lo);
        assert(w == (w / 0x400) * 0x400 + w % 0x400) by (nonlinear_arith);
        assert(surrogate_pair_value(hi, lo) == v);
    }
}

/// Decoding the UTF-16 units of a string gives the string back.
pub proof fn law_utf16_round_trip(s: Seq<char>)
    ensures
        utf16_decode(utf16_encode(s)) == s,
    decreases s.len(),
{
    if s.len() > 0 {
        let t = s.drop_first();
        assert(s =~= seq![s[0]] + t);
        lemma_encode_append(seq![s[0]], t);
        let one = seq![s[0]];
        assert(one.drop_last() =~= Seq::<char>::empty());
        assert(one.last() == s[0]);
        assert(utf16_encode(one.drop_last()) =~= Seq::<u16>::empty());
        assert(utf16_encode(one) =~= utf16_of(s[0]));
        lemma_decode_char(s[0], utf16_encode(t));
        law_utf16_round_trip(t);
    }
}

/// Every high surrogate is followed by a low one and every low surrogate
/// follows a high one: the code units of some string.
pub open spec fn well_paired(u: Seq<u16>) -> bool {
    &&& forall|i: int|
        #![trigger is_high_surrogate(u[i])]
        0 <= i < u.len() && is_high_surrogate(u[i]) ==> i + 1 < u.len() && is_low_surrogate(u[i + 1])
    &&& forall|i: int|
        #![trigger is_low_surrogate(u[i])]
        0 <= i < u.len() && is_low_surrogate(u[i]) ==> i >= 1 && is_high_surrogate(u[i - 1])
}

/// Units with no surrogate among them are well paired.
pub proof fn lemma_no_surrogates_paired(u: Seq<u16>)
    requires
        forall|i: int| 0 <= i < u.len() ==> !is_high_surrogate(#[trigger] u[i]) && !is_low_surrogate(u[i]),
    ensures
        well_paired(u),
{
}

/// Joining two well-paired unit sequences keeps them well paired.
pub proof fn lemma_paired_concat(a: Seq<u16>, b: Seq<u16>)
    requires
        well_paired(a),
        well_paired(b),
    ensures
        well_paired(a + b),
{
    let c = a + b;
    assert forall|i: int| 0 <= i < c.len() && is_high_surrogate(c[i]) implies i + 1 < c.len()
        && is_low_surrogate(c[i + 1]) by {
        if i < a.len() {
            assert(c[i] == a[i]);
            assert(c[i + 1] == a[i + 1]);
        } else {
            assert(c[i] == b[i - a.len()]);
            assert(c[i + 1] == b[i + 1 - a.len()]);
        }
    }
    assert forall|i: int| 0 <= i < c.len() && is_low_surrogate(c[i]) implies i >= 1
        && is_high_surrogate(c[i - 1]) by {
        if i < a.len() {
            assert(c[i] == a[i]);
            assert(c[i - 1] == a[i - 1]);
        } else {
            assert(c[i] == b[i - a.len()]);
            if i - a.len() >= 1 {
                assert(c[i - 1] == b[i - 1 - a.len()]);
            } else {
                assert(is_low_surrogate(b[0]));
            }
        }
    }
}

proof fn lemma_char_units_paired(c: char)
    ensures
        well_paired(utf16_of(c)),
{
    let v = c as u32;
    vstd::utf8::char_is_scalar(c);
    if v >= 0x10000 {
        let w = v - 0x10000;
        assert(w / 0x400 < 0x400);
        assert(w % 0x400 < 0x400);
        let u = utf16_of(c);
        assert(is_high_surrogate(u[0]) && is_low_surrogate(u[1]));
    }
}

/// The code units of a string are well paired.
pub proof fn lemma_encode_paired(s: Seq<char>)
    ensures
        well_paired(utf16_encode(s)),
    decreases s.len(),
{
    if s.len() > 0 {
        lemma_encode_paired(s.drop_last());
        lemma_char_units_paired(s.last());
        lemma_paired_concat(utf16_encode(s.drop_last()), utf16_of(s.last()));
    }
}

proof fn lemma_paired_skip(u: Seq<u16>, k: int)
    requires
        well_paired(u),
        0 <= k <= u.len(),
        k < u.len() ==> !is_low_surrogate(u[k]),
    ensures
        well_paired(u.skip(k)),
{
    let t = u.skip(k);
    assert forall|i: int| 0 <= i < t.len() && is_high_surrogate(t[i]) implies i + 1 < t.len()
        && is_low_surrogate(t[i + 1]) by {
        assert(t[i] == u[i + k]);
        assert(is_high_surrogate(u[i + k]));
    }
    assert forall|i: int| 0 <= i < t.len() && is_low_surrogate(t[i]) implies i >= 1
        && is_high_surrogate(t[i - 1]) by {
        assert(t[i] == u[i + k]);
        assert(is_low_surrogate(u[i + k]));
        if i >= 1 {
            assert(t[i - 1] == u[i - 1 + k]);
        }
    }
}

/// Well-paired code units decode to the string whose units they are.
pub proof fn lemma_encode_decode(u: Seq<u16>)
    requires
        well_paired(u),
    ensures
        utf16_encode(utf16_decode(u)) == u,
    decreases u.len(),
{
    if u.len() > 0 {
        assert(!is_low_surrogate(u[0]));
        if is_high_surrogate(u[0]) {
            assert(is_low_surrogate(u[1]));
            let hi = u[0];
            let lo = u[1];
            let t = u.skip(2);
            if t.len() > 0 {
                assert(t[0] == u[2]);
                if is_low_surrogate(u[2]) {
                    assert(is_high_surrogate(u[1]));
                }
            }
            lemma_paired_skip(u, 2);
            lemma_encode_decode(t);
            let v = surrogate_pair_value(hi, lo);
            assert(0x10000 <= v <= 0x10FFFF);
            let c = v as char;
            assert(c as u32 == v);
            let w = v - 0x10000;
            assert(w == (hi - 0xD800) * 0x400 + (lo - 0xDC00));
            assert(w / 0x400 == hi - 0xD800 && w % 0x400 == lo - 0xDC00) by (nonlinear_arith)
                requires
                    w == (hi - 0xD800) * 0x400 + (lo - 0xDC00),
                    0 <= hi - 0xD800 < 0x400,
                    0 <= lo - 0xDC00 < 0x400,
            ;
            assert(utf16_of(c) =~= seq![hi, lo]);
            lemma_encode_append(seq![c], utf16_decode(t));
            let one = seq![c];
            assert(one.drop_last() =~= Seq::<char>::empty());
            assert(one.last() == c);
            assert(utf16_encode(one.drop_last()) =~= Seq::<u16>::empty());
            assert(utf16_encode(one) =~= utf16_of(c));
            assert(utf16_decode(u) == seq![c] + utf16_decode(t));
            assert(u =~= seq![hi, lo] + t);
        } else {
            let x = u[0];
            let t = u.skip(1);
            if t.len() > 0 {
                assert(t[0] == u[1]);
                if is_low_surrogate(u[1]) {
                    assert(is_high_surrogate(u[0]));
                }
            }
            lemma_paired_skip(u, 1);
            lemma_encode_decode(t);
            assert(x < 0xD800 || x > 0xDFFF);
            let c = (x as u32) as char;
            assert(c as u32 == x as u32);
            assert(utf16_of(c) =~= seq![x]);
            lemma_encode_append(seq![c], utf16_decode(t));
            let one = seq![c];
            assert(one.drop_last() =~= Seq::<char>::empty());
            assert(one.last() == c);
            assert(utf16_encode(one.drop_last()) =~= Seq::<u16>::empty());
            assert(utf16_encode(one) =~= utf16_of(c));
            assert(utf16_decode(u) == seq![c] + utf16_decode(t));
            assert(u =~= seq![x] + t);
        }
    }
}

/// The UTF-16 code units of `s`.
pub fn encode_utf16(s: &[char]) -> (r: Vec<u16>)
    requires
        s@.len() <= usize::MAX / 4,
    ensures
        r@ == utf16_encode(s@),
        r@.len() <= 2 * s@.len(),
{
    let mut out: Vec<u16> = Vec::new();
    let mut i: usize = 0;
    while i < s.len()
        invariant
            i <= s@.len() <= usize::MAX / 4,
            out@ == utf16_encode(s@.subrange(0, i as int)),
            out@.len() <= 2 * i,
        decreases s.len() - i,
    {
        let c = s[i];
        let v = c as u32;
        proof {
            vstd::utf8::char_is_scalar(c);
        }
        if v < 0x10000 {
            out.push(v as u16);
        } else {
            let w = v - 0x10000;
            out.push((0xD800 + w / 0x400) as u16);
            out.push((0xDC00 + w % 0x400) as u16);
        }
        proof {
            let next = s@.subrange(0, i + 1);
            assert(next.drop_last() =~= s@.subrange(0, i as int));
            assert(out@ =~= utf16_encode(next));
        }
        i += 1;
    }
    assert(s@.subrange(0, s@.len() as int) =~= s@);
    out
}

/// `String::from_utf16_lossy`, as characters.
pub fn decode_utf16(u: &[u16]) -> (r: Vec<char>)
    ensures
        r@ == utf16_decode(u@),
{
    let mut out: Vec<char> = Vec::new();
    let mut i: usize = 0;
    let ghost all = u@;
    assert(all.skip(0) =~= all);
    assert(Seq::<char>::empty() + utf16_decode(all) =~= utf16_decode(all));
    while i < u.len()
        invariant
            all == u@,
            i <= all.len(),
            out@ + utf16_decode(all.skip(i as int)) == utf16_decode(all),
        decreases all.len() - i,
    {
        let a = u[i];
        let ghost rest = all.skip(i as int);
        let ghost prev = out@;
        let step: usize;
        if 0xD800 <= a && a <= 0xDBFF && i + 1 < u.len() && 0xDC00 <= u[i + 1] && u[i + 1] <= 0xDFFF {
            let b = u[i + 1];
            let v: u32 = 0x10000 + (a - 0xD800) as u32 * 0x400 + (b - 0xDC00) as u32;
            let c = char_from_u32(v);
            assert(vstd::utf8::is_scalar(v));
            out.push(c.unwrap());
            step = 2;
        } else if 0xD800 <= a && a <= 0xDFFF {
            out.push('\u{FFFD}');
            step = 1;
        } else {
            let c = char_from_u32(a as u32);
            assert(vstd::utf8::is_scalar(a as u32));
            out.push(c.unwrap());
            step = 1;
        }
        proof {
            assert(rest.skip(step as int) =~= all.skip(i + step));
            assert(utf16_decode(rest) == seq![out@.last()] + utf16_decode(rest.skip(step as int)));
            assert(prev + (seq![out@.last()] + utf16_decode(rest.skip(step as int))) =~= out@
                + utf16_decode(all.skip(i + step)));
        }
        i = i + step;
    }
    assert(all.skip(i as int) =~= Seq::<u16>::empty());
    assert(out@ + Seq::<char>::empty() =~= out@);
    out
}


// ---------------------------------------------------------------------------
// Trimming
// ---------------------------------------------------------------------------

/// The Unicode `White_Space` property (what `char::is_whitespace` and
/// `str::trim` go by).
pub open spec fn is_white_space(c: char) -> bool {
    let v = c as u32;
    (0x09 <= v <= 0x0D) || v == 0x20 || v == 0x85 || v == 0xA0 || v == 0x1680 || (0x2000 <= v
        <= 0x200A) || v == 0x2028 || v == 0x2029 || v == 0x202F || v == 0x205F || v == 0x3000
}

pub fn is_white_space_exec(c: char) -> (r: bool)
    ensures
        r == is_white_space(c),
{
    let v = c as u32;
    (0x09 <= v && v <= 0x0D) || v == 0x20 || v == 0x85 || v == 0xA0 || v == 0x1680 || (0x2000 <= v
        && v <= 0x200A) || v == 0x2028 || v == 0x2029 || v == 0x202F || v == 0x205F || v == 0x3000
}

/// `s` without leading white space.
pub open spec fn trim_start(s: Seq<char>) -> Seq<char>
    decreases s.len(),
{
    if s.len() > 0 && is_white_space(s[0]) {
        trim_start(s.drop_first())
    } else {
        s
    }
}

/// `s` without trailing white space.
pub open spec fn trim_end(s: Seq<char>) -> Seq<char>
    decreases s.len(),
{
    if s.len() > 0 && is_white_space(s.last()) {
        trim_end(s.drop_last())
    } else {
        s
    }
}

/// `str::trim`: `s` without leading and trailing white space.
pub open spec fn trim(s: Seq<char>) -> Seq<char> {
    trim_end(trim_start(s))
}

/// The characters of `s` without leading and trailing white space.
pub fn trim_chars(s: &[char]) -> (r: Vec<char>)
    ensures
        r@ == trim(s@),
        r@.len() <= s@.len(),
{
    let mut a: usize = 0;
    assert(s@.skip(0) =~= s@);
    while a < s.len() && is_white_space_exec(s[a])
        invariant
            a <= s@.len(),
            trim_start(s@) == trim_start(s@.skip(a as int)),
        decreases s.len() - a,
    {
        assert(s@.skip(a as int).drop_first() =~= s@.skip(a + 1));
        a += 1;
    }
    let ghost st = s@.skip(a as int);
    assert(trim_start(st) == st);
    let mut b: usize = s.len();
    assert(st.subrange(0, (b - a) as int) =~= st);
    while b > a && is_white_space_exec(s[b - 1])
        invariant
            a <= b <= s@.len(),
            st == s@.skip(a as int),
            trim_end(st) == trim_end(s@.subrange(a as int, b as int)),
        decreases b - a,
    {
        assert(s@.subrange(a as int, b as int).drop_last() =~= s@.subrange(a as int, b - 1));
        b -= 1;
    }
    assert(s@.skip(0) =~= s@);
    chars_range(s, a, b)
}

} // verus!
