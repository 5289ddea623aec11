//! JSON repair, a lenient parser for partial JSON, the streaming-argument
//! parse ladder, and the canonical serializer.
//!
//! Text is handled as UTF-16 code units, as JavaScript strings are: indices,
//! lengths and substrings count code units.

use vstd::prelude::*;
use crate::json::{empty_object, json_document, json_parse, key_index, lemma_key_index, JsModel, JsNum, NumModel, num_text, format_num, items_view, entries_view, lemma_items_view, lemma_entries_view};
pub use crate::json::{jint, js_num, js_obj, js_str, value_to_jsval, JsVal};
use crate::text::{trim, trim_chars, chars_eq, chars_range, push_all, chars_of, decode_utf16, encode_utf16, string_from_chars, utf16_decode, utf16_encode, is_high_surrogate, is_low_surrogate, well_paired, lemma_no_surrogates_paired, lemma_paired_concat, lemma_encode_paired, lemma_encode_decode};

verus! {

pub open spec fn QUOTE() -> u16 { 0x22 }
pub open spec fn BACKSLASH() -> u16 { 0x5C }

/// The characters that may follow a backslash in a JSON string:
/// `"`, `\`, `/`, `b`, `f`, `n`, `r`, `t`, `u`.
pub open spec fn is_escape_unit(u: u16) -> bool {
    u == 0x22 || u == 0x5C || u == 0x2F || u == 0x62 || u == 0x66 || u == 0x6E || u == 0x72
        || u == 0x74 || u == 0x75
}

pub open spec fn is_hex_unit(u: u16) -> bool {
    (0x30 <= u <= 0x39) || (0x41 <= u <= 0x46) || (0x61 <= u <= 0x66)
}

pub open spec fn is_control_unit(u: u16) -> bool {
    u <= 0x1f
}

pub open spec fn hex_digit(n: u16) -> u16 {
    if n < 10 {
        (0x30 + n) as u16
    } else {
        (0x61 + n - 10) as u16
    }
}

/// The escape written for a control unit: `\b`, `\f`, `\n`, `\r`, `\t`, or
/// `\u00xx` with lowercase hex digits.
pub open spec fn escape_control_spec(u: u16) -> Seq<u16> {
    if u == 0x08 {
        seq![0x5Cu16, 0x62u16]
    } else if u == 0x0c {
        seq![0x5Cu16, 0x66u16]
    } else if u == 0x0a {
        seq![0x5Cu16, 0x6Eu16]
    } else if u == 0x0d {
        seq![0x5Cu16, 0x72u16]
    } else if u == 0x09 {
        seq![0x5Cu16, 0x74u16]
    } else {
        seq![0x5Cu16, 0x75u16, 0x30u16, 0x30u16, hex_digit(u / 16), hex_digit(u % 16)]
    }
}

pub open spec fn four_hex(json: Seq<u16>, i: int) -> bool {
    is_hex_unit(json[i]) && is_hex_unit(json[i + 1]) && is_hex_unit(json[i + 2]) && is_hex_unit(
        json[i + 3],
    )
}

/// The repair of `json[i..]`, given whether position `i` is inside a
/// string.  Outside strings every unit is copied.  Inside a string: a quote
/// ends it; `\uXXXX` with four hex digits and a backslash before a valid
/// escape character are copied; any other backslash is doubled (and the
/// unit after it is read again); a control unit is escaped.
pub open spec fn repair_from(json: Seq<u16>, i: int, in_string: bool) -> Seq<u16>
    decreases json.len() - i,
{
    if i < 0 || i >= json.len() {
        Seq::empty()
    } else {
        let ch = json[i];
        if !in_string {
            seq![ch] + repair_from(json, i + 1, ch == QUOTE())
        } else if ch == QUOTE() {
            seq![ch] + repair_from(json, i + 1, false)
        } else if ch == BACKSLASH() {
            if i + 1 >= json.len() {
                seq![BACKSLASH(), BACKSLASH()] + repair_from(json, i + 1, true)
            } else {
                let next = json[i + 1];
                if next == 0x75 && i + 6 <= json.len() && four_hex(json, i + 2) {
                    seq![BACKSLASH(), 0x75u16] + json.subrange(i + 2, i + 6) + repair_from(
                        json,
                        i + 6,
                        true,
                    )
                } else if is_escape_unit(next) {
                    seq![BACKSLASH(), next] + repair_from(json, i + 2, true)
                } else {
                    seq![BACKSLASH(), BACKSLASH()] + repair_from(json, i + 1, true)
                }
            }
        } else if is_control_unit(ch) {
            escape_control_spec(ch) + repair_from(json, i + 1, true)
        } else {
            seq![ch] + repair_from(json, i + 1, true)
        }
    }
}

/// The repair of a text's code units.
pub open spec fn repair_spec(json: Seq<u16>) -> Seq<u16> {
    repair_from(json, 0, false)
}

/// The repair of a string, through its UTF-16 code units.
pub open spec fn repair_string_spec(s: Seq<char>) -> Seq<char> {
    utf16_decode(repair_spec(utf16_encode(s)))
}

fn is_valid_json_escape(u: u16) -> (r: bool)
    ensures
        r == is_escape_unit(u),
{
    u == 0x22 || u == 0x5C || u == 0x2F || u == 0x62 || u == 0x66 || u == 0x6E || u == 0x72 || u
        == 0x74 || u == 0x75
}

fn is_hex(u: u16) -> (r: bool)
    ensures
        r == is_hex_unit(u),
{
    (0x30 <= u && u <= 0x39) || (0x41 <= u && u <= 0x46) || (0x61 <= u && u <= 0x66)
}

fn is_control(u: u16) -> (r: bool)
    ensures
        r == is_control_unit(u),
{
    u <= 0x1f
}

fn hex_digit_exec(n: u16) -> (r: u16)
    requires
        n < 16,
    ensures
        r == hex_digit(n),
{
    if n < 10 {
        0x30 + n
    } else {
        0x61 + n - 10
    }
}

/// Appends the escape of a control unit.
fn escape_control(out: &mut Vec<u16>, u: u16)
    requires
        is_control_unit(u),
    ensures
        final(out)@ == old(out)@ + escape_control_spec(u),
{
    let ghost before = out@;
    out.push(0x5C);
    if u == 0x08 {
        out.push(0x62);
    } else if u == 0x0c {
        out.push(0x66);
    } else if u == 0x0a {
        out.push(0x6E);
    } else if u == 0x0d {
        out.push(0x72);
    } else if u == 0x09 {
        out.push(0x74);
    } else {
        out.push(0x75);
        out.push(0x30);
        out.push(0x30);
        out.push(hex_digit_exec(u / 16));
        out.push(hex_digit_exec(u % 16));
    }
    assert(out@ =~= before + escape_control_spec(u));
}

/// The repair of a text's code units.
fn repair_units(json: &[u16]) -> (out: Vec<u16>)
    ensures
        out@ == repair_spec(json@),
{
    let mut out: Vec<u16> = Vec::new();
    let mut in_string = false;
    let n = json.len();
    let mut index: usize = 0;
    assert(Seq::<u16>::empty() + repair_spec(json@) =~= repair_spec(json@));
    while index < n
        invariant
            n == json@.len(),
            index <= n,
            out@ + repair_from(json@, index as int, in_string) == repair_spec(json@),
        decreases n - index,
    {
        let ch = json[index];
        let ghost prev = out@;
        let ghost flag = in_string;
        if !in_string {
            out.push(ch);
            if ch == 0x22 {
                in_string = true;
            }
            index += 1;
            assert(prev + repair_from(json@, index - 1, flag) =~= out@ + repair_from(json@, index as int, in_string));
            continue;
        }
        if ch == 0x22 {
            out.push(ch);
            in_string = false;
            index += 1;
            assert(prev + repair_from(json@, index - 1, flag) =~= out@ + repair_from(json@, index as int, in_string));
            continue;
        }
        if ch == 0x5C {
            if index + 1 >= n {
                out.push(0x5C);
                out.push(0x5C);
                index += 1;
                assert(prev + repair_from(json@, index - 1, flag) =~= out@ + repair_from(json@, index as int, in_string));
                continue;
            }
            let next = json[index + 1];
            if next == 0x75 && n - index >= 6 && is_hex(json[index + 2]) && is_hex(json[index + 3])
                && is_hex(json[index + 4]) && is_hex(json[index + 5]) {
                out.push(0x5C);
                out.push(0x75);
                out.push(json[index + 2]);
                out.push(json[index + 3]);
                out.push(json[index + 4]);
                out.push(json[index + 5]);
                index += 6;
                assert(prev + repair_from(json@, index - 6, flag) =~= out@ + repair_from(json@, index as int, in_string));
                continue;
            }
            if is_valid_json_escape(next) {
                out.push(0x5C);
                out.push(next);
                index += 2;
                assert(prev + repair_from(json@, index - 2, flag) =~= out@ + repair_from(json@, index as int, in_string));
                continue;
            }
            out.push(0x5C);
            out.push(0x5C);
            index += 1;
            assert(prev + repair_from(json@, index - 1, flag) =~= out@ + repair_from(json@, index as int, in_string));
            continue;
        }
        if is_control(ch) {
            escape_control(&mut out, ch);
        } else {
            out.push(ch);
        }
        index += 1;
        assert(prev + repair_from(json@, index - 1, flag) =~= out@ + repair_from(json@, index as int, in_string));
    }
    assert(out@ + Seq::<u16>::empty() =~= out@);
    out
}

/// The JSON repair: inside JSON strings, doubles stray backslashes and escapes
/// raw control characters, leaving the rest of the text as it is.
pub fn repair_string(s: &str) -> (r: String)
    ensures
        r@ == repair_string_spec(s@),
{
    let chars = chars_of(s);
    let units = encode_utf16(chars.as_slice());
    let repaired = repair_units(units.as_slice());
    let decoded = decode_utf16(repaired.as_slice());
    string_from_chars(decoded.as_slice())
}

/// Units that the repair copies wherever they stand.
pub open spec fn is_plain_unit(u: u16) -> bool {
    u != BACKSLASH() && !is_control_unit(u)
}

proof fn lemma_repair_plain_units(json: Seq<u16>, i: int, in_string: bool)
    requires
        0 <= i <= json.len(),
        forall|k: int| 0 <= k < json.len() ==> is_plain_unit(#[trigger] json[k]),
    ensures
        repair_from(json, i, in_string) == json.skip(i),
    decreases json.len() - i,
{
    if i < json.len() {
        lemma_repair_plain_units(json, i + 1, true);
        lemma_repair_plain_units(json, i + 1, false);
        assert(is_plain_unit(json[i]));
        assert(json.skip(i) =~= seq![json[i]] + json.skip(i + 1));
    } else {
        assert(json.skip(i) =~= Seq::<u16>::empty());
    }
}

proof fn lemma_encode_plain(s: Seq<char>)
    requires
        forall|k: int| 0 <= k < s.len() ==> #[trigger] s[k] != '\\' && (s[k] as u32) >= 0x20,
    ensures
        forall|k: int| 0 <= k < utf16_encode(s).len() ==> is_plain_unit(#[trigger] utf16_encode(s)[k]),
    decreases s.len(),
{
    if s.len() > 0 {
        let init = s.drop_last();
        assert forall|k: int| 0 <= k < init.len() implies #[trigger] init[k] != '\\' && (init[k] as u32)
            >= 0x20 by {
            assert(init[k] == s[k]);
        }
        lemma_encode_plain(init);
        let c = s.last();
        assert(c == s[s.len() - 1]);
        vstd::utf8::char_is_scalar(c);
        let e = utf16_encode(s);
        let a = utf16_encode(init);
        let t = crate::text::utf16_of(c);
        assert(e == a + t);
        assert forall|k: int| 0 <= k < e.len() implies is_plain_unit(#[trigger] e[k]) by {
            if k < a.len() {
                assert(e[k] == a[k]);
            } else {
                assert(e[k] == t[k - a.len()]);
                let v = c as u32;
                if v == 0x5C {
                    vstd::utf8::char_u32_cast(c, v);
                    assert(('\\' as u32) == 0x5C);
                    vstd::utf8::char_u32_cast('\\', v);
                }
                if v < 0x10000 {
                    assert(t[0] == v as u16);
                }
            }
        }
    }
}

/// The repair of the back part of `p + q` is the repair of `q`: it reads
/// nothing before where it starts.
proof fn lemma_repair_shift(p: Seq<u16>, q: Seq<u16>, j: int, in_string: bool)
    requires
        0 <= j <= q.len(),
    ensures
        repair_from(p + q, p.len() + j, in_string) == repair_from(q, j, in_string),
    decreases q.len() - j,
{
    let x = p + q;
    let k = p.len() + j;
    if j < q.len() {
        assert(x[k] == q[j]);
        if j + 1 < q.len() {
            assert(x[k + 1] == q[j + 1]);
        }
        if j + 6 <= q.len() {
            assert(x[k + 2] == q[j + 2]);
            assert(x[k + 3] == q[j + 3]);
            assert(x[k + 4] == q[j + 4]);
            assert(x[k + 5] == q[j + 5]);
            assert(x.subrange(k + 2, k + 6) =~= q.subrange(j + 2, j + 6));
            lemma_repair_shift(p, q, j + 6, true);
        }
        if j + 2 <= q.len() {
            lemma_repair_shift(p, q, j + 2, true);
        }
        lemma_repair_shift(p, q, j + 1, true);
        lemma_repair_shift(p, q, j + 1, false);
    }
}

/// The first `k` units are hex digits.
pub open spec fn hex_units(u: Seq<u16>, k: int) -> bool {
    forall|m: int| 0 <= m < k ==> is_hex_unit(#[trigger] u[m])
}

/// Hex digits at the front of a repair inside a string were there in the
/// input, unchanged.
proof fn lemma_repair_hex_prefix(u: Seq<u16>, j: int, k: int)
    requires
        0 <= j <= u.len(),
        0 <= k <= repair_from(u, j, true).len(),
        hex_units(repair_from(u, j, true), k),
    ensures
        j + k <= u.len(),
        forall|m: int| 0 <= m < k ==> u[j + m] == #[trigger] repair_from(u, j, true)[m],
    decreases k,
{
    if k > 0 {
        let o = repair_from(u, j, true);
        assert(is_hex_unit(o[0]));
        assert(j < u.len());
        let ch = u[j];
        assert(ch != QUOTE() && ch != BACKSLASH() && !is_control_unit(ch)) by {
            if ch == QUOTE() || ch == BACKSLASH() {
                assert(o[0] == ch || o[0] == BACKSLASH());
            } else if is_control_unit(ch) {
                assert(o[0] == BACKSLASH());
            }
        }
        let rest = repair_from(u, j + 1, true);
        assert(o == seq![ch] + rest);
        assert(hex_units(rest, k - 1)) by {
            assert forall|m: int| 0 <= m < k - 1 implies is_hex_unit(#[trigger] rest[m]) by {
                assert(rest[m] == o[m + 1]);
                assert(is_hex_unit(o[m + 1]));
            }
        }
        lemma_repair_hex_prefix(u, j + 1, k - 1);
        assert forall|m: int| 0 <= m < k implies u[j + m] == #[trigger] o[m] by {
            if m > 0 {
                assert(o[m] == rest[m - 1]);
                assert(u[(j + 1) + (m - 1)] == rest[m - 1]);
            }
        }
    }
}

/// The repair of `u[i..]` (from the given string state) comes out of a
/// second repair unchanged.
proof fn lemma_repair_stable(u: Seq<u16>, i: int, s: bool)
    requires
        0 <= i <= u.len(),
    ensures
        repair_from(repair_from(u, i, s), 0, s) == repair_from(u, i, s),
    decreases u.len() - i,
{
    let n = u.len();
    let o = repair_from(u, i, s);
    if i >= n {
        return;
    }
    let ch = u[i];
    // Each piece the first repair writes is read back by the second repair
    // in one step, ending in the same string state.
    if !s {
        let rest = repair_from(u, i + 1, ch == QUOTE());
        lemma_repair_stable(u, i + 1, ch == QUOTE());
        lemma_repair_shift(seq![ch], rest, 0, ch == QUOTE());
        assert(o == seq![ch] + rest);
        assert(o[0] == ch);
    } else if ch == QUOTE() {
        let rest = repair_from(u, i + 1, false);
        lemma_repair_stable(u, i + 1, false);
        lemma_repair_shift(seq![ch], rest, 0, false);
        assert(o == seq![ch] + rest);
        assert(o[0] == ch);
    } else if ch == BACKSLASH() {
        if i + 1 >= n {
            let piece = seq![BACKSLASH(), BACKSLASH()];
            let rest = repair_from(u, i + 1, true);
            lemma_repair_stable(u, i + 1, true);
            lemma_repair_shift(piece, rest, 0, true);
            assert(o == piece + rest);
            assert(o[0] == BACKSLASH() && o[1] == BACKSLASH());
            assert(o.len() >= 2);
        } else {
            let next = u[i + 1];
            if next == 0x75 && i + 6 <= n && four_hex(u, i + 2) {
                let piece = seq![BACKSLASH(), 0x75u16] + u.subrange(i + 2, i + 6);
                let rest = repair_from(u, i + 6, true);
                lemma_repair_stable(u, i + 6, true);
                lemma_repair_shift(piece, rest, 0, true);
                assert(o == piece + rest);
                assert(o[0] == BACKSLASH() && o[1] == 0x75u16);
                assert(o[2] == u[i + 2] && o[3] == u[i + 3] && o[4] == u[i + 4] && o[5] == u[i + 5]);
                assert(o.subrange(2, 6) =~= u.subrange(i + 2, i + 6));
            } else if is_escape_unit(next) {
                let piece = seq![BACKSLASH(), next];
                let rest = repair_from(u, i + 2, true);
                lemma_repair_stable(u, i + 2, true);
                lemma_repair_shift(piece, rest, 0, true);
                assert(o == piece + rest);
                assert(o[0] == BACKSLASH() && o[1] == next);
                if next == 0x75 && o.len() >= 6 && four_hex(o, 2) {
                    assert(hex_units(rest, 4)) by {
                        assert forall|m: int| 0 <= m < 4 implies is_hex_unit(#[trigger] rest[m]) by {
                            assert(rest[m] == o[m + 2]);
                        }
                    }
                    lemma_repair_hex_prefix(u, i + 2, 4);
                    assert(u[(i + 2) + 0] == rest[0]);
                    assert(u[(i + 2) + 1] == rest[1]);
                    assert(u[(i + 2) + 2] == rest[2]);
                    assert(u[(i + 2) + 3] == rest[3]);
                    assert(rest[0] == o[2] && rest[1] == o[3] && rest[2] == o[4] && rest[3] == o[5]);
                    assert(four_hex(u, i + 2));
                }
            } else {
                let piece = seq![BACKSLASH(), BACKSLASH()];
                let rest = repair_from(u, i + 1, true);
                lemma_repair_stable(u, i + 1, true);
                lemma_repair_shift(piece, rest, 0, true);
                assert(o == piece + rest);
                assert(o[0] == BACKSLASH() && o[1] == BACKSLASH());
            }
        }
    } else if is_control_unit(ch) {
        let piece = escape_control_spec(ch);
        let rest = repair_from(u, i + 1, true);
        lemma_repair_stable(u, i + 1, true);
        lemma_repair_shift(piece, rest, 0, true);
        assert(o == piece + rest);
        if piece.len() == 2 {
            assert(o[0] == piece[0] && o[1] == piece[1]);
        } else {
            assert(o[0] == piece[0] && o[1] == piece[1]);
            assert(o[2] == piece[2] && o[3] == piece[3] && o[4] == piece[4] && o[5] == piece[5]);
            assert(ch / 16 < 16 && ch % 16 < 16);
            assert(o.subrange(2, 6) =~= piece.subrange(2, 6));
            assert(piece =~= seq![BACKSLASH(), 0x75u16] + piece.subrange(2, 6));
        }
    } else {
        let rest = repair_from(u, i + 1, true);
        lemma_repair_stable(u, i + 1, true);
        lemma_repair_shift(seq![ch], rest, 0, true);
        assert(o == seq![ch] + rest);
        assert(o[0] == ch);
    }
}

/// Repairing twice is repairing once: the repair's output has nothing left
/// to repair.
pub proof fn law_repair_idempotent(u: Seq<u16>)
    ensures
        repair_spec(repair_spec(u)) == repair_spec(u),
{
    lemma_repair_stable(u, 0, false);
}

/// A surrogate-free piece of units put ahead of well-paired units.
proof fn lemma_ascii_piece(piece: Seq<u16>, rest: Seq<u16>)
    requires
        forall|k: int| 0 <= k < piece.len() ==> #[trigger] piece[k] < 0x80,
        well_paired(rest),
    ensures
        well_paired(piece + rest),
{
    assert forall|k: int| 0 <= k < piece.len() implies !is_high_surrogate(#[trigger] piece[k])
        && !is_low_surrogate(piece[k]) by {
        assert(piece[k] < 0x80);
    }
    lemma_no_surrogates_paired(piece);
    lemma_paired_concat(piece, rest);
}

/// The repair keeps surrogate pairs together and adds only ASCII units, so
/// well-paired units stay well paired.
proof fn lemma_repair_paired(u: Seq<u16>, i: int, in_string: bool)
    requires
        well_paired(u),
        0 <= i,
        i < u.len() ==> !is_low_surrogate(u[i]),
    ensures
        well_paired(repair_from(u, i, in_string)),
    decreases u.len() - i,
{
    let n = u.len();
    if i >= n {
        assert(repair_from(u, i, in_string) =~= Seq::<u16>::empty());
        return;
    }
    let ch = u[i];
    if is_high_surrogate(ch) {
        assert(is_low_surrogate(u[i + 1]));
        let lo = u[i + 1];
        if i + 2 < n && is_low_surrogate(u[i + 2]) {
            assert(is_high_surrogate(u[i + 1]));
        }
        lemma_repair_paired(u, i + 2, in_string);
        let rest = repair_from(u, i + 2, in_string);
        assert(repair_from(u, i + 1, in_string) == seq![lo] + rest);
        assert(repair_from(u, i, in_string) == seq![ch] + (seq![lo] + rest));
        assert(seq![ch] + (seq![lo] + rest) =~= seq![ch, lo] + rest);
        let pair = seq![ch, lo];
        assert(well_paired(pair)) by {
            assert(is_high_surrogate(pair[0]) && is_low_surrogate(pair[1]));
            assert(!is_low_surrogate(pair[0]) && !is_high_surrogate(pair[1]));
        }
        lemma_paired_concat(pair, rest);
        return;
    }
    assert(!is_low_surrogate(ch));
    if i + 1 < n && is_low_surrogate(u[i + 1]) {
        assert(is_high_surrogate(u[i]));
    }
    if !in_string || ch == QUOTE() || !(ch == BACKSLASH() || is_control_unit(ch)) {
        let b = if !in_string { ch == QUOTE() } else if ch == QUOTE() { false } else { true };
        lemma_repair_paired(u, i + 1, b);
        let rest = repair_from(u, i + 1, b);
        assert(repair_from(u, i, in_string) == seq![ch] + rest);
        let one = seq![ch];
        assert(well_paired(one)) by {
            assert(!is_high_surrogate(one[0]) && !is_low_surrogate(one[0]));
        }
        lemma_paired_concat(one, rest);
    } else if ch == BACKSLASH() {
        if i + 1 >= n {
            lemma_repair_paired(u, i + 1, true);
            lemma_ascii_piece(seq![BACKSLASH(), BACKSLASH()], repair_from(u, i + 1, true));
        } else {
            let next = u[i + 1];
            if next == 0x75 && i + 6 <= n && four_hex(u, i + 2) {
                if i + 6 < n && is_low_surrogate(u[i + 6]) {
                    assert(is_high_surrogate(u[i + 5]));
                }
                lemma_repair_paired(u, i + 6, true);
                let piece = seq![BACKSLASH(), 0x75u16] + u.subrange(i + 2, i + 6);
                assert forall|k: int| 0 <= k < piece.len() implies #[trigger] piece[k] < 0x80 by {
                    if k >= 2 {
                        assert(piece[k] == u[i + k]);
                        assert(is_hex_unit(u[i + k]));
                    }
                }
                lemma_ascii_piece(piece, repair_from(u, i + 6, true));
            } else if is_escape_unit(next) {
                if i + 2 < n && is_low_surrogate(u[i + 2]) {
                    assert(is_high_surrogate(u[i + 1]));
                }
                lemma_repair_paired(u, i + 2, true);
                lemma_ascii_piece(seq![BACKSLASH(), next], repair_from(u, i + 2, true));
            } else {
                lemma_repair_paired(u, i + 1, true);
                lemma_ascii_piece(seq![BACKSLASH(), BACKSLASH()], repair_from(u, i + 1, true));
            }
        }
    } else {
        lemma_repair_paired(u, i + 1, true);
        let piece = escape_control_spec(ch);
        assert(ch / 16 < 16 && ch % 16 < 16);
        assert forall|k: int| 0 <= k < piece.len() implies #[trigger] piece[k] < 0x80 by {}
        lemma_ascii_piece(piece, repair_from(u, i + 1, true));
    }
}

/// Repairing a string twice is repairing it once.
pub proof fn law_repair_string_idempotent(s: Seq<char>)
    ensures
        repair_string_spec(repair_string_spec(s)) == repair_string_spec(s),
{
    let e = utf16_encode(s);
    lemma_encode_paired(s);
    if e.len() > 0 {
        assert(!is_low_surrogate(e[0]));
    }
    let r = repair_spec(e);
    lemma_repair_paired(e, 0, false);
    lemma_encode_decode(r);
    law_repair_idempotent(e);
}

/// Text with no backslash and no control character comes out of the
/// repair unchanged.
pub proof fn law_repair_plain_text(s: Seq<char>)
    requires
        forall|k: int| 0 <= k < s.len() ==> #[trigger] s[k] != '\\' && (s[k] as u32) >= 0x20,
    ensures
        repair_string_spec(s) == s,
{
    lemma_encode_plain(s);
    lemma_repair_plain_units(utf16_encode(s), 0, false);
    assert(utf16_encode(s).skip(0) =~= utf16_encode(s));
    crate::text::law_utf16_round_trip(s);
}


// ---------------------------------------------------------------------------
// Canonical serialization
// ---------------------------------------------------------------------------

pub open spec fn hex_char(n: u32) -> char {
    if n < 10 {
        (0x30 + n) as char
    } else {
        (0x61 + n - 10) as char
    }
}

/// The escape of one character in a JSON string literal.
pub open spec fn escape_char_spec(c: char) -> Seq<char> {
    if c == '"' {
        seq!['\\', '"']
    } else if c == '\\' {
        seq!['\\', '\\']
    } else if c == '\u{08}' {
        seq!['\\', 'b']
    } else if c == '\u{0c}' {
        seq!['\\', 'f']
    } else if c == '\n' {
        seq!['\\', 'n']
    } else if c == '\r' {
        seq!['\\', 'r']
    } else if c == '\t' {
        seq!['\\', 't']
    } else if (c as u32) < 0x20 {
        seq!['\\', 'u', '0', '0', hex_char((c as u32) / 16), hex_char((c as u32) % 16)]
    } else {
        seq![c]
    }
}

pub open spec fn escape_chars_spec(s: Seq<char>) -> Seq<char>
    decreases s.len(),
{
    if s.len() == 0 {
        Seq::empty()
    } else {
        escape_chars_spec(s.drop_last()) + escape_char_spec(s.last())
    }
}

/// A JSON string literal holding `s`.
pub open spec fn escape_json_spec(s: Seq<char>) -> Seq<char> {
    seq!['"'] + escape_chars_spec(s) + seq!['"']
}

fn hex_char_exec(n: u32) -> (c: char)
    requires
        n < 16,
    ensures
        c == hex_char(n),
{
    if n < 10 {
        ((n as u8) + 0x30) as char
    } else {
        ((n as u8) + 0x61 - 10) as char
    }
}

/// Appends `s` as a JSON string literal.
fn escape_json_string(out: &mut Vec<char>, s: &[char])
    ensures
        final(out)@ == old(out)@ + escape_json_spec(s@),
{
    out.push('"');
    let mut i: usize = 0;
    while i < s.len()
        invariant
            i <= s@.len(),
            out@ == old(out)@ + seq!['"'] + escape_chars_spec(s@.subrange(0, i as int)),
        decreases s.len() - i,
    {
        let c = s[i];
        let ghost prev = out@;
        if c == '"' {
            out.push('\\');
            out.push('"');
        } else if c == '\\' {
            out.push('\\');
            out.push('\\');
        } else if c == '\u{08}' {
            out.push('\\');
            out.push('b');
        } else if c == '\u{0c}' {
            out.push('\\');
            out.push('f');
        } else if c == '\n' {
            out.push('\\');
            out.push('n');
        } else if c == '\r' {
            out.push('\\');
            out.push('r');
        } else if c == '\t' {
            out.push('\\');
            out.push('t');
        } else if (c as u32) < 0x20 {
            out.push('\\');
            out.push('u');
            out.push('0');
            out.push('0');
            out.push(hex_char_exec((c as u32) / 16));
            out.push(hex_char_exec((c as u32) % 16));
        } else {
            out.push(c);
        }
        proof {
            let next = s@.subrange(0, i + 1);
            assert(next.drop_last() =~= s@.subrange(0, i as int));
            assert(out@ =~= prev + escape_char_spec(c));
            assert(out@ =~= old(out)@ + seq!['"'] + escape_chars_spec(next));
        }
        i += 1;
    }
    out.push('"');
    assert(s@.subrange(0, s@.len() as int) =~= s@);
    assert(out@ =~= old(out)@ + escape_json_spec(s@));
}

/// `parts` joined with `,`.
pub open spec fn join_commas(parts: Seq<Seq<char>>) -> Seq<char>
    decreases parts.len(),
{
    if parts.len() == 0 {
        Seq::empty()
    } else if parts.len() == 1 {
        parts[0]
    } else {
        join_commas(parts.drop_last()) + seq![','] + parts.last()
    }
}

/// Lexicographic order on characters (the order of `String::cmp`, which
/// compares UTF-8 bytes, that is code points).
pub open spec fn chars_lt(a: Seq<char>, b: Seq<char>) -> bool
    decreases a.len(),
{
    if a.len() == 0 {
        b.len() > 0
    } else if b.len() == 0 {
        false
    } else if a[0] != b[0] {
        (a[0] as u32) < (b[0] as u32)
    } else {
        chars_lt(a.drop_first(), b.drop_first())
    }
}

/// The index of the first pair with the given key.
pub open spec fn pair_index(d: Seq<(Seq<char>, Seq<char>)>, key: Seq<char>) -> Option<int>
    decreases d.len(),
{
    if d.len() == 0 {
        None
    } else {
        match pair_index(d.drop_last(), key) {
            Some(i) => Some(i),
            None => if d.last().0 == key {
                Some(d.len() - 1)
            } else {
                None
            },
        }
    }
}

/// Duplicate keys collapsed: each key keeps the place of its first
/// occurrence and the value of its last (as assigning object keys does).
pub open spec fn dedup_pairs(e: Seq<(Seq<char>, Seq<char>)>) -> Seq<(Seq<char>, Seq<char>)>
    decreases e.len(),
{
    if e.len() == 0 {
        Seq::empty()
    } else {
        let d = dedup_pairs(e.drop_last());
        match pair_index(d, e.last().0) {
            Some(i) => d.update(i, e.last()),
            None => d.push(e.last()),
        }
    }
}

/// Inserts `x` after the last pair whose key is not greater than its key.
pub open spec fn insert_sorted(s: Seq<(Seq<char>, Seq<char>)>, x: (Seq<char>, Seq<char>)) -> Seq<(Seq<char>, Seq<char>)>
    decreases s.len(),
{
    if s.len() == 0 || !chars_lt(x.0, s.last().0) {
        s.push(x)
    } else {
        insert_sorted(s.drop_last(), x).push(s.last())
    }
}

/// The pairs sorted by key, stably.
pub open spec fn sort_pairs(e: Seq<(Seq<char>, Seq<char>)>) -> Seq<(Seq<char>, Seq<char>)>
    decreases e.len(),
{
    if e.len() == 0 {
        Seq::empty()
    } else {
        insert_sorted(sort_pairs(e.drop_last()), e.last())
    }
}

/// `"key":value` for each pair.
pub open spec fn member_texts(e: Seq<(Seq<char>, Seq<char>)>) -> Seq<Seq<char>>
    decreases e.len(),
{
    if e.len() == 0 {
        Seq::empty()
    } else {
        member_texts(e.drop_last()).push(escape_json_spec(e.last().0) + seq![':'] + e.last().1)
    }
}

/// The canonical text of a value: JSON text with object keys sorted
/// (duplicates collapsed, last value wins) and NaN and infinities as `null`.
pub open spec fn canonical_spec(v: JsModel) -> Seq<char>
    decreases v,
{
    match v {
        JsModel::Null => seq!['n', 'u', 'l', 'l'],
        JsModel::Nan => seq!['n', 'u', 'l', 'l'],
        JsModel::Inf => seq!['n', 'u', 'l', 'l'],
        JsModel::NegInf => seq!['n', 'u', 'l', 'l'],
        JsModel::Bool(b) => if b {
            seq!['t', 'r', 'u', 'e']
        } else {
            seq!['f', 'a', 'l', 's', 'e']
        },
        JsModel::Num(n) => num_text(n),
        JsModel::Str(s) => escape_json_spec(s),
        JsModel::Arr(items) => seq!['['] + join_commas(canonical_items(items)) + seq![']'],
        JsModel::Obj(entries) => seq!['{'] + join_commas(
            member_texts(sort_pairs(dedup_pairs(canonical_pairs(entries)))),
        ) + seq!['}'],
    }
}

/// The canonical text of each item.
pub open spec fn canonical_items(items: Seq<JsModel>) -> Seq<Seq<char>>
    decreases items,
{
    if items.len() == 0 {
        Seq::empty()
    } else {
        canonical_items(items.drop_last()).push(canonical_spec(items.last()))
    }
}

/// Each key with the canonical text of its value.
pub open spec fn canonical_pairs(entries: Seq<(Seq<char>, JsModel)>) -> Seq<(Seq<char>, Seq<char>)>
    decreases entries,
{
    if entries.len() == 0 {
        Seq::empty()
    } else {
        canonical_pairs(entries.drop_last()).push(
            (entries.last().0, canonical_spec(entries.last().1)),
        )
    }
}


pub open spec fn pair_view(p: (Vec<char>, Vec<char>)) -> (Seq<char>, Seq<char>) {
    (p.0@, p.1@)
}

pub open spec fn pairs_chars_view(v: Seq<(Vec<char>, Vec<char>)>) -> Seq<(Seq<char>, Seq<char>)> {
    v.map_values(|p: (Vec<char>, Vec<char>)| pair_view(p))
}

proof fn lemma_chars_lt_skip(a: Seq<char>, b: Seq<char>, i: int)
    requires
        0 <= i <= a.len(),
        i <= b.len(),
        forall|j: int| 0 <= j < i ==> a[j] == b[j],
    ensures
        chars_lt(a, b) == chars_lt(a.skip(i), b.skip(i)),
    decreases i,
{
    if i > 0 {
        assert(a.skip(i) =~= a.drop_first().skip(i - 1));
        assert(b.skip(i) =~= b.drop_first().skip(i - 1));
        lemma_chars_lt_skip(a.drop_first(), b.drop_first(), i - 1);
    } else {
        assert(a.skip(0) =~= a);
        assert(b.skip(0) =~= b);
    }
}

/// Whether `a` sorts before `b`.
fn chars_less(a: &[char], b: &[char]) -> (r: bool)
    ensures
        r == chars_lt(a@, b@),
{
    let mut i: usize = 0;
    while i < a.len() && i < b.len()
        invariant
            i <= a@.len(),
            i <= b@.len(),
            forall|j: int| 0 <= j < i ==> a@[j] == b@[j],
        decreases a.len() - i,
    {
        if a[i] != b[i] {
            proof {
                lemma_chars_lt_skip(a@, b@, i as int);
            }
            return (a[i] as u32) < (b[i] as u32);
        }
        i += 1;
    }
    proof {
        lemma_chars_lt_skip(a@, b@, i as int);
    }
    i == a.len() && i < b.len()
}

proof fn lemma_pair_index(d: Seq<(Seq<char>, Seq<char>)>, key: Seq<char>)
    ensures
        pair_index(d, key) matches Some(i) ==> 0 <= i < d.len() && d[i].0 == key && forall|j: int|
            0 <= j < i ==> d[j].0 != key,
        pair_index(d, key) is None ==> forall|j: int| 0 <= j < d.len() ==> d[j].0 != key,
    decreases d.len(),
{
    if d.len() > 0 {
        let init = d.drop_last();
        lemma_pair_index(init, key);
        assert forall|j: int| 0 <= j < init.len() implies init[j] == d[j] by {}
    }
}

/// The index of the first pair with the given key.
fn find_pair(acc: &Vec<(Vec<char>, Vec<char>)>, key: &[char]) -> (r: Option<usize>)
    ensures
        match r {
            Some(j) => pair_index(pairs_chars_view(acc@), key@) == Some(j as int),
            None => pair_index(pairs_chars_view(acc@), key@) is None,
        },
{
    let ghost d = pairs_chars_view(acc@);
    proof {
        lemma_pair_index(d, key@);
    }
    let mut j: usize = 0;
    while j < acc.len()
        invariant
            d == pairs_chars_view(acc@),
            j <= acc@.len(),
            forall|m: int| 0 <= m < j ==> d[m].0 != key@,
        decreases acc.len() - j,
    {
        if chars_eq(acc[j].0.as_slice(), key) {
            proof {
                assert(d[j as int] == pair_view(acc@[j as int]));
                assert(d[j as int].0 == key@);
                lemma_pair_index(d, key@);
            }
            return Some(j);
        }
        j += 1;
    }
    None
}

/// Collapses duplicate keys: first place, last value.
fn dedup_members(e: Vec<(Vec<char>, Vec<char>)>) -> (r: Vec<(Vec<char>, Vec<char>)>)
    ensures
        pairs_chars_view(r@) == dedup_pairs(pairs_chars_view(e@)),
{
    let ghost all = pairs_chars_view(e@);
    let mut acc: Vec<(Vec<char>, Vec<char>)> = Vec::new();
    let ghost ev = e@;
    for p in it: e
        invariant
            ev == it.seq(),
            all == pairs_chars_view(ev),
            pairs_chars_view(acc@) == dedup_pairs(all.subrange(0, it.index() as int)),
    {
        let ghost d = pairs_chars_view(acc@);
        let ghost k = it.index();
        proof {
            lemma_pair_index(d, p.0@);
            let next = all.subrange(0, k + 1);
            assert(next.drop_last() =~= all.subrange(0, k as int));
            assert(next.last() == pair_view(ev[k as int]));
        }
        match find_pair(&acc, p.0.as_slice()) {
            Some(j) => {
                acc.set(j, p);
                proof {
                    assert(pairs_chars_view(acc@) =~= d.update(j as int, pair_view(p)));
                }
            },
            None => {
                acc.push(p);
                proof {
                    assert(pairs_chars_view(acc@) =~= d.push(pair_view(p)));
                }
            },
        }
    }
    assert(all.subrange(0, all.len() as int) =~= all);
    acc
}


proof fn lemma_insert_sorted_at(s: Seq<(Seq<char>, Seq<char>)>, x: (Seq<char>, Seq<char>), j: int)
    requires
        0 <= j <= s.len(),
        forall|k: int| j <= k < s.len() ==> chars_lt(x.0, #[trigger] s[k].0),
        j == 0 || !chars_lt(x.0, s[j - 1].0),
    ensures
        insert_sorted(s, x) == s.subrange(0, j) + seq![x] + s.subrange(j, s.len() as int),
    decreases s.len(),
{
    if s.len() == j {
        assert(s.subrange(0, j) =~= s);
        assert(s.subrange(j, s.len() as int) =~= Seq::<(Seq<char>, Seq<char>)>::empty());
        assert(s.push(x) =~= s.subrange(0, j) + seq![x] + s.subrange(j, s.len() as int));
    } else {
        let init = s.drop_last();
        assert forall|k: int| j <= k < init.len() implies chars_lt(x.0, #[trigger] init[k].0) by {
            assert(init[k] == s[k]);
        }
        if j > 0 {
            assert(init[j - 1] == s[j - 1]);
        }
        lemma_insert_sorted_at(init, x, j);
        assert(s.subrange(0, j) =~= init.subrange(0, j));
        assert(init.subrange(j, init.len() as int).push(s.last()) =~= s.subrange(j, s.len() as int));
        assert(insert_sorted(s, x) =~= s.subrange(0, j) + seq![x] + s.subrange(j, s.len() as int));
    }
}

/// Inserts `x` after the last member whose key does not sort after its key.
fn insert_member(s: &mut Vec<(Vec<char>, Vec<char>)>, x: (Vec<char>, Vec<char>))
    ensures
        pairs_chars_view(final(s)@) == insert_sorted(pairs_chars_view(old(s)@), pair_view(x)),
{
    let ghost sv = pairs_chars_view(s@);
    let mut j: usize = s.len();
    while j > 0 && chars_less(x.0.as_slice(), s[j - 1].0.as_slice())
        invariant
            sv == pairs_chars_view(s@),
            j <= s@.len(),
            forall|k: int| j <= k < sv.len() ==> chars_lt(x.0@, #[trigger] sv[k].0),
        decreases j,
    {
        j -= 1;
    }
    proof {
        lemma_insert_sorted_at(sv, pair_view(x), j as int);
    }
    let ghost xv = pair_view(x);
    s.insert(j, x);
    assert(pairs_chars_view(s@) =~= sv.subrange(0, j as int) + seq![xv] + sv.subrange(
        j as int,
        sv.len() as int,
    ));
}

/// Sorts the members by key, stably.
fn sort_members(e: Vec<(Vec<char>, Vec<char>)>) -> (r: Vec<(Vec<char>, Vec<char>)>)
    ensures
        pairs_chars_view(r@) == sort_pairs(pairs_chars_view(e@)),
{
    let ghost all = pairs_chars_view(e@);
    let ghost ev = e@;
    let mut acc: Vec<(Vec<char>, Vec<char>)> = Vec::new();
    for p in it: e
        invariant
            ev == it.seq(),
            all == pairs_chars_view(ev),
            pairs_chars_view(acc@) == sort_pairs(all.subrange(0, it.index() as int)),
    {
        proof {
            let k = it.index();
            let next = all.subrange(0, k + 1);
            assert(next.drop_last() =~= all.subrange(0, k as int));
            assert(next.last() == pair_view(ev[k as int]));
        }
        insert_member(&mut acc, p);
    }
    assert(all.subrange(0, all.len() as int) =~= all);
    acc
}

/// Appends `"key":value` for each member, separated by commas.
fn write_members(out: &mut Vec<char>, e: &Vec<(Vec<char>, Vec<char>)>)
    ensures
        final(out)@ == old(out)@ + join_commas(member_texts(pairs_chars_view(e@))),
{
    let ghost all = pairs_chars_view(e@);
    let mut i: usize = 0;
    while i < e.len()
        invariant
            all == pairs_chars_view(e@),
            i <= e@.len(),
            out@ == old(out)@ + join_commas(member_texts(all.subrange(0, i as int))),
        decreases e.len() - i,
    {
        let ghost prev = out@;
        let ghost pre = member_texts(all.subrange(0, i as int));
        if i > 0 {
            out.push(',');
        }
        escape_json_string(out, e[i].0.as_slice());
        out.push(':');
        push_all(out, e[i].1.as_slice());
        proof {
            let next = all.subrange(0, i + 1);
            assert(next.drop_last() =~= all.subrange(0, i as int));
            assert(next.last() == pair_view(e@[i as int]));
            let t = escape_json_spec(e@[i as int].0@) + seq![':'] + e@[i as int].1@;
            assert(member_texts(next) == pre.push(t));
            if i == 0 {
                assert(pre.push(t).drop_last() =~= pre);
                assert(out@ =~= old(out)@ + join_commas(pre.push(t)));
            } else {
                assert(pre.push(t).drop_last() =~= pre);
                assert(out@ =~= old(out)@ + join_commas(pre.push(t)));
            }
        }
        i += 1;
    }
    assert(all.subrange(0, e@.len() as int) =~= all);
}

proof fn lemma_canonical_items_len(items: Seq<JsModel>)
    ensures
        canonical_items(items).len() == items.len(),
    decreases items.len(),
{
    if items.len() > 0 {
        lemma_canonical_items_len(items.drop_last());
    }
}

/// Appends the canonical text of `v`.
#[verifier::loop_isolation(false)]
fn canonical_into(out: &mut Vec<char>, v: &JsVal)
    ensures
        final(out)@ == old(out)@ + canonical_spec(v@),
    decreases v,
{
    match v {
        JsVal::Null | JsVal::Nan | JsVal::Inf | JsVal::NegInf => {
            out.push('n');
            out.push('u');
            out.push('l');
            out.push('l');
            assert(out@ =~= old(out)@ + canonical_spec(v@));
        },
        JsVal::Bool(b) => {
            if *b {
                out.push('t');
                out.push('r');
                out.push('u');
                out.push('e');
            } else {
                out.push('f');
                out.push('a');
                out.push('l');
                out.push('s');
                out.push('e');
            }
            assert(out@ =~= old(out)@ + canonical_spec(v@));
        },
        JsVal::Num(n) => {
            format_num(out, n);
        },
        JsVal::Str(s) => {
            let cs = chars_of(s.as_str());
            escape_json_string(out, cs.as_slice());
        },
        JsVal::Arr(items) => {
            let ghost iv = items_view(items@);
            proof {
                lemma_items_view(items@);
            }
            out.push('[');
            let mut i: usize = 0;
            while i < items.len()
                invariant
                    iv == items_view(items@),
                    iv.len() == items@.len(),
                    forall|k: int| 0 <= k < items@.len() ==> #[trigger] iv[k] == items@[k].model(),
                    i <= items@.len(),
                    out@ == old(out)@ + seq!['['] + join_commas(canonical_items(iv.subrange(0, i as int))),
                decreases items.len() - i,
            {
                let ghost pre = canonical_items(iv.subrange(0, i as int));
                if i > 0 {
                    out.push(',');
                }
                canonical_into(out, &items[i]);
                proof {
                    let next = iv.subrange(0, i + 1);
                    assert(next.drop_last() =~= iv.subrange(0, i as int));
                    assert(next.last() == items@[i as int].model());
                    let t = canonical_spec(items@[i as int]@);
                    assert(canonical_items(next) == pre.push(t));
                    assert(pre.push(t).drop_last() =~= pre);
                    assert(out@ =~= old(out)@ + seq!['['] + join_commas(pre.push(t)));
                }
                i += 1;
            }
            out.push(']');
            assert(iv.subrange(0, items@.len() as int) =~= iv);
            assert(out@ =~= old(out)@ + canonical_spec(v@));
        },
        JsVal::Obj(entries) => {
            let ghost ev = entries_view(entries@);
            proof {
                lemma_entries_view(entries@);
            }
            let mut members: Vec<(Vec<char>, Vec<char>)> = Vec::new();
            let mut i: usize = 0;
            while i < entries.len()
                invariant
                    ev == entries_view(entries@),
                    ev.len() == entries@.len(),
                    forall|k: int|
                        0 <= k < entries@.len() ==> #[trigger] ev[k] == (
                            entries@[k].0@,
                            entries@[k].1.model(),
                        ),
                    i <= entries@.len(),
                    pairs_chars_view(members@) == canonical_pairs(ev.subrange(0, i as int)),
                decreases entries.len() - i,
            {
                let key = chars_of(entries[i].0.as_str());
                let mut text: Vec<char> = Vec::new();
                canonical_into(&mut text, &entries[i].1);
                let ghost prev = pairs_chars_view(members@);
                members.push((key, text));
                proof {
                    let next = ev.subrange(0, i + 1);
                    assert(next.drop_last() =~= ev.subrange(0, i as int));
                    assert(next.last() == ev[i as int]);
                    assert(Seq::<char>::empty() + canonical_spec(entries@[i as int].1@) =~= canonical_spec(entries@[i as int].1@));
                    assert(pairs_chars_view(members@) =~= prev.push((key@, text@)));
                }
                i += 1;
            }
            assert(ev.subrange(0, entries@.len() as int) =~= ev);
            let deduped = dedup_members(members);
            let sorted = sort_members(deduped);
            out.push('{');
            write_members(out, &sorted);
            out.push('}');
            assert(out@ =~= old(out)@ + canonical_spec(v@));
        },
    }
}

/// The canonical JSON text of a value: sorted object keys (duplicates
/// collapsed, last value wins), NaN and infinities as `null`.
pub fn canonical(v: &JsVal) -> (s: String)
    ensures
        s@ == canonical_spec(v@),
{
    let mut out: Vec<char> = Vec::new();
    canonical_into(&mut out, v);
    assert(out@ =~= canonical_spec(v@));
    string_from_chars(out.as_slice())
}


// ---------------------------------------------------------------------------
// Partial JSON parsing (the `partial-json` parser with every partial type
// allowed), over UTF-16 code units
// ---------------------------------------------------------------------------

/// A position, never taken further than one past the end: positions at or
/// past the end are all the same to the parser.
pub open spec fn adv(i: int, k: int, len: int) -> int {
    if i + k > len + 1 {
        len + 1
    } else {
        i + k
    }
}

pub open spec fn clamp(i: int, len: int) -> int {
    if i < 0 {
        0
    } else if i > len {
        len
    } else {
        i
    }
}

/// `String.prototype.substring` on code units: both ends clamped to the
/// text, swapped when out of order.
pub open spec fn sub_units(u: Seq<u16>, a: int, b: int) -> Seq<u16> {
    let a2 = clamp(a, u.len() as int);
    let b2 = clamp(b, u.len() as int);
    if a2 <= b2 {
        u.subrange(a2, b2)
    } else {
        u.subrange(b2, a2)
    }
}

/// The substring as characters.
pub open spec fn substr(u: Seq<u16>, a: int, b: int) -> Seq<char> {
    utf16_decode(sub_units(u, a, b))
}

/// Whether `u[a..b]` (ends clamped) is `lit`.
pub open spec fn sub_eq(u: Seq<u16>, a: int, b: int, lit: Seq<u16>) -> bool {
    let a2 = if a > u.len() { u.len() as int } else { a };
    let b2 = if b > u.len() { u.len() as int } else { b };
    0 <= a2 <= b2 && u.subrange(a2, b2) == lit
}

/// Whether `p` is a prefix of `lit`.
pub open spec fn is_prefix_of(p: Seq<u16>, lit: Seq<u16>) -> bool {
    p.len() <= lit.len() && lit.subrange(0, p.len() as int) == p
}

/// Whether the text at `i` is the literal `lit`, or, with fewer than
/// `lit.len()` units left, a beginning of it.
pub open spec fn literal_at(u: Seq<u16>, i: int, lit: Seq<u16>, need_two: bool) -> bool {
    let rem = u.len() - i;
    sub_eq(u, i, i + lit.len(), lit) || ((!need_two || 1 < rem) && rem < lit.len() && is_prefix_of(
        u.subrange(i, u.len() as int),
        lit,
    ))
}

pub open spec fn lit_null() -> Seq<u16> { seq![0x6Eu16, 0x75, 0x6C, 0x6C] }
pub open spec fn lit_true() -> Seq<u16> { seq![0x74u16, 0x72, 0x75, 0x65] }
pub open spec fn lit_false() -> Seq<u16> { seq![0x66u16, 0x61, 0x6C, 0x73, 0x65] }
pub open spec fn lit_infinity() -> Seq<u16> { seq![0x49u16, 0x6E, 0x66, 0x69, 0x6E, 0x69, 0x74, 0x79] }
pub open spec fn lit_neg_infinity() -> Seq<u16> { seq![0x2Du16, 0x49, 0x6E, 0x66, 0x69, 0x6E, 0x69, 0x74, 0x79] }
pub open spec fn lit_nan() -> Seq<u16> { seq![0x4Eu16, 0x61, 0x4E] }

pub open spec fn is_blank(c: u16) -> bool {
    c == 0x20 || c == 0x0a || c == 0x0d || c == 0x09
}

/// The first position at or after `i` that does not hold a blank.
pub open spec fn skip_blank(u: Seq<u16>, i: int) -> int
    decreases u.len() - i,
{
    if 0 <= i < u.len() && is_blank(u[i]) {
        skip_blank(u, i + 1)
    } else {
        i
    }
}

/// The unit at `i`, if there is one.
pub open spec fn at(u: Seq<u16>, i: int) -> Option<u16> {
    if 0 <= i < u.len() {
        Some(u[i])
    } else {
        None
    }
}

/// The last position of unit `c`.
pub open spec fn last_index(u: Seq<u16>, c: u16) -> Option<int>
    decreases u.len(),
{
    if u.len() == 0 {
        None
    } else if u.last() == c {
        Some(u.len() - 1)
    } else {
        last_index(u.drop_last(), c)
    }
}

/// Scans a string body from `j`: stops at a quote that is not escaped or at
/// the end; returns the stop position and whether an escape was pending.
pub open spec fn scan_str(u: Seq<u16>, j: int, escape: bool) -> (int, bool)
    decreases u.len() - j,
{
    if 0 < j < u.len() && (u[j] != QUOTE() || (escape && u[j - 1] == BACKSLASH())) {
        scan_str(u, j + 1, if u[j] == BACKSLASH() { !escape } else { false })
    } else {
        (j, escape)
    }
}

pub open spec fn bool_int(b: bool) -> int {
    if b { 1 } else { 0 }
}

/// JSON parsing of a text: the tree, or `None`.
pub open spec fn parse_text(s: Seq<char>) -> Option<JsModel> {
    json_document(s)
}

/// A string starting at `start` (the position of its opening quote).  A
/// closed string is read as JSON (a pending escape drops the
/// closing quote from the slice).  An unclosed one is closed with a quote
/// and read; failing that, it is cut at the last backslash of the text and
/// closed.
pub open spec fn p_str(u: Seq<u16>, start: int) -> (Option<JsModel>, int) {
    let (j, escape) = scan_str(u, start + 1, false);
    if at(u, j) == Some(QUOTE()) {
        let end = j + 1 - bool_int(escape);
        (parse_text(substr(u, start, end)), j + 1)
    } else {
        let end = j - bool_int(escape);
        match parse_text(substr(u, start, end).push('"')) {
            Some(v) => (Some(v), j),
            None => (parse_text(string_retry_text(u, start)), j),
        }
    }
}

pub open spec fn is_num_stop(c: u16) -> bool {
    c == 0x2C || c == 0x5D || c == 0x7D
}

/// The end of a number's text: the first `,`, `]` or `}` at or after `i`.
pub open spec fn scan_num(u: Seq<u16>, i: int) -> int
    decreases u.len() - i,
{
    if 0 <= i < u.len() && !is_num_stop(u[i]) {
        scan_num(u, i + 1)
    } else {
        i
    }
}

/// A number at `i`.  At the very start the whole text is read (a lone `-`
/// fails), falling back to the text up to its last `e`, and the position
/// stays put.  Elsewhere the text up to the next `,`, `]` or `}` is read,
/// falling back (unless it is a lone `-`) to the text from the start up to
/// the last `e` of the whole text.
pub open spec fn p_num(u: Seq<u16>, i: int) -> (Option<JsModel>, int) {
    if i == 0 {
        if u == seq![0x2Du16] {
            (None, 0)
        } else {
            match parse_text(substr(u, 0, u.len() as int)) {
                Some(v) => (Some(v), 0),
                None => match number_retry_text(u, 0, u.len() as int) {
                    Some(t) => (parse_text(t), 0),
                    None => (None, 0),
                },
            }
        }
    } else {
        let k = if at(u, i) == Some(0x2Du16) { i + 1 } else { i };
        let end = scan_num(u, k);
        match parse_text(substr(u, i, end)) {
            Some(v) => (Some(v), end),
            None => match number_retry_text(u, i, end) {
                Some(t) => (parse_text(t), end),
                None => (None, end),
            },
        }
    }
}

/// Sets `key` in an object: replaces the value of an existing key in its
/// place, else appends.
pub open spec fn set_key_spec(acc: Seq<(Seq<char>, JsModel)>, key: Seq<char>, val: JsModel) -> Seq<(Seq<char>, JsModel)> {
    match key_index(acc, key) {
        Some(i) => acc.update(i, (key, val)),
        None => acc.push((key, val)),
    }
}

/// The measure of a position: the units left.
pub open spec fn rest_len(u: Seq<u16>, i: int) -> int {
    if i < u.len() {
        u.len() - i
    } else {
        0
    }
}

/// A value at `i`: blanks skipped, then a string, object, array, one of the
/// literals `null`, `true`, `false`, `Infinity`, `-Infinity`, `NaN` (or a
/// beginning of one at the end of the text), or a number.
pub open spec fn p_any(u: Seq<u16>, start: int) -> (Option<JsModel>, int)
    decreases rest_len(u, start), 1int,
{
    let i = skip_blank(u, start);
    let len = u.len() as int;
    if i < 0 || i >= len {
        (None, i)
    } else {
        proof {
            lemma_skip_blank(u, start);
        }
        let c = u[i];
        if c == QUOTE() {
            p_str(u, i)
        } else if c == 0x7B {
            p_obj(u, i)
        } else if c == 0x5B {
            p_arr(u, i)
        } else if literal_at(u, i, lit_null(), false) {
            (Some(JsModel::Null), adv(i, 4, len))
        } else if literal_at(u, i, lit_true(), false) {
            (Some(JsModel::Bool(true)), adv(i, 4, len))
        } else if literal_at(u, i, lit_false(), false) {
            (Some(JsModel::Bool(false)), adv(i, 5, len))
        } else if literal_at(u, i, lit_infinity(), false) {
            (Some(JsModel::Inf), adv(i, 8, len))
        } else if literal_at(u, i, lit_neg_infinity(), true) {
            (Some(JsModel::NegInf), adv(i, 9, len))
        } else if literal_at(u, i, lit_nan(), false) {
            (Some(JsModel::Nan), adv(i, 3, len))
        } else {
            p_num(u, i)
        }
    }
}

/// An object at `i` (the position of `{`): its members, then the closing
/// brace is stepped over (even where it is missing).
pub open spec fn p_obj(u: Seq<u16>, i: int) -> (Option<JsModel>, int)
    decreases rest_len(u, i), 0int,
{
    if 0 <= i < u.len() {
        let j = skip_blank(u, i + 1);
        proof {
            lemma_skip_blank(u, i + 1);
        }
        let (entries, k) = obj_loop(u, j, Seq::empty());
        (Some(JsModel::Obj(entries)), adv(k, 1, u.len() as int))
    } else {
        (None, i)
    }
}

/// Members from `j` until a `}`: a key (a string, or the canonical text of
/// whatever the key parses to), a blindly skipped colon, a value, an
/// optional comma.  Any failure, or the end of the text, ends the object
/// with the members read so far.
pub open spec fn obj_loop(u: Seq<u16>, j: int, acc: Seq<(Seq<char>, JsModel)>) -> (Seq<(Seq<char>, JsModel)>, int)
    decreases rest_len(u, j), 2int,
{
    let len = u.len() as int;
    if at(u, j) == Some(0x7Du16) {
        (acc, j)
    } else {
        let j1 = skip_blank(u, j);
        if j1 < 0 || j1 >= len {
            (acc, j1)
        } else {
            proof {
                lemma_skip_blank(u, j);
                lemma_p_str_advances(u, j1);
            }
            let (kr, j2) = p_str(u, j1);
            match kr {
                None => (acc, j2),
                Some(k) => {
                    let key = match k {
                        JsModel::Str(s) => s,
                        other => canonical_spec(other),
                    };
                    proof {
                        lemma_skip_blank(u, j2);
                    }
                    let j3 = adv(skip_blank(u, j2), 1, len);
                    let (vr, j4) = p_any(u, j3);
                    match vr {
                        None => (acc, j4),
                        Some(val) => {
                            let acc2 = set_key_spec(acc, key, val);
                            let j5 = skip_blank(u, j4);
                            let j6 = if at(u, j5) == Some(0x2Cu16) { adv(j5, 1, len) } else { j5 };
                            if j < j6 {
                                obj_loop(u, j6, acc2)
                            } else {
                                (acc2, j6)
                            }
                        },
                    }
                },
            }
        }
    }
}

/// An array at `i` (the position of `[`): its items, then the closing
/// bracket is stepped over (even where it is missing).
pub open spec fn p_arr(u: Seq<u16>, i: int) -> (Option<JsModel>, int)
    decreases rest_len(u, i), 0int,
{
    if 0 <= i < u.len() {
        let (items, k) = arr_loop(u, i + 1, Seq::empty());
        (Some(JsModel::Arr(items)), adv(k, 1, u.len() as int))
    } else {
        (None, i)
    }
}

/// Items from `j` until a `]`: a value and an optional comma.  A failing
/// value, or the end of the text, ends the array with the items read so far.
pub open spec fn arr_loop(u: Seq<u16>, j: int, acc: Seq<JsModel>) -> (Seq<JsModel>, int)
    decreases rest_len(u, j), 2int,
{
    let len = u.len() as int;
    if at(u, j) == Some(0x5Du16) {
        (acc, j)
    } else if j < 0 || j >= len {
        (acc, j)
    } else {
        let (r, j2) = p_any(u, j);
        match r {
            None => (acc, j2),
            Some(v) => {
                let j3 = skip_blank(u, j2);
                let j4 = if at(u, j3) == Some(0x2Cu16) { adv(j3, 1, len) } else { j3 };
                if j < j4 {
                    arr_loop(u, j4, acc.push(v))
                } else {
                    (acc.push(v), j4)
                }
            },
        }
    }
}

pub proof fn lemma_skip_blank(u: Seq<u16>, i: int)
    ensures
        skip_blank(u, i) >= i,
        i <= u.len() ==> skip_blank(u, i) <= u.len(),
        0 <= skip_blank(u, i) < u.len() ==> !is_blank(u[skip_blank(u, i)]),
    decreases u.len() - i,
{
    if 0 <= i < u.len() && is_blank(u[i]) {
        lemma_skip_blank(u, i + 1);
    }
}

pub proof fn lemma_scan_str(u: Seq<u16>, j: int, escape: bool)
    ensures
        scan_str(u, j, escape).0 >= j,
        0 < j <= u.len() ==> scan_str(u, j, escape).0 <= u.len(),
    decreases u.len() - j,
{
    if 0 < j < u.len() && (u[j] != QUOTE() || (escape && u[j - 1] == BACKSLASH())) {
        lemma_scan_str(u, j + 1, if u[j] == BACKSLASH() { !escape } else { false });
    }
}

pub proof fn lemma_p_str_advances(u: Seq<u16>, start: int)
    requires
        0 <= start < u.len(),
    ensures
        start < p_str(u, start).1 <= u.len(),
{
    lemma_scan_str(u, start + 1, false);
}


/// JSON parsing of a text: the tree, or `Err(())`.
fn json_parse_str(s: &str) -> (r: Result<JsVal, ()>)
    ensures
        res_view(r) == parse_text(s@),
{
    match json_parse(s) {
        Some(v) => Ok(v),
        None => Err(()),
    }
}

pub open spec fn res_view(r: Result<JsVal, ()>) -> Option<JsModel> {
    match r {
        Ok(v) => Some(v@),
        Err(_) => None,
    }
}

/// Sets `key` in an object: replaces the value of an existing key in its
/// place, else appends.
fn set_key(obj: &mut Vec<(String, JsVal)>, key: String, value: JsVal)
    ensures
        entries_view(final(obj)@) == set_key_spec(entries_view(old(obj)@), key@, value@),
{
    let ghost ev = entries_view(obj@);
    proof {
        lemma_entries_view(obj@);
        lemma_key_index(ev, key@);
    }
    let mut i: usize = 0;
    while i < obj.len()
        invariant
            ev == entries_view(obj@),
            obj@ == old(obj)@,
            ev.len() == obj@.len(),
            forall|k: int| 0 <= k < obj@.len() ==> #[trigger] ev[k] == (obj@[k].0@, obj@[k].1.model()),
            i <= obj@.len(),
            forall|k: int| 0 <= k < i ==> ev[k].0 != key@,
        decreases obj.len() - i,
    {
        if crate::text::str_eq(obj[i].0.as_str(), key.as_str()) {
            proof {
                assert(ev[i as int].0 == key@);
                lemma_key_index(ev, key@);
            }
            let ghost kv = key@;
            let ghost vv = value@;
            obj.set(i, (key, value));
            proof {
                lemma_entries_view(obj@);
                assert(entries_view(obj@) =~= ev.update(i as int, (kv, vv)));
            }
            return;
        }
        i += 1;
    }
    let ghost prev = obj@;
    obj.push((key, value));
    assert(obj@.drop_last() == prev);
}

/// `substring(a, b)` of code units, as a string.
fn units_substr(u: &[u16], a: usize, b: usize) -> (r: String)
    ensures
        r@ == substr(u@, a as int, b as int),
{
    let len = u.len();
    let a = if a > len { len } else { a };
    let b = if b > len { len } else { b };
    let (lo, hi) = if a <= b { (a, b) } else { (b, a) };
    let mut part: Vec<u16> = Vec::new();
    let mut i = lo;
    while i < hi
        invariant
            lo <= i <= hi <= u@.len(),
            part@ == u@.subrange(lo as int, i as int),
        decreases hi - i,
    {
        part.push(u[i]);
        i += 1;
        assert(part@ =~= u@.subrange(lo as int, i as int));
    }
    let chars = decode_utf16(part.as_slice());
    string_from_chars(chars.as_slice())
}

/// The last position of `unit` among the code units.
fn units_last_index(u: &[u16], unit: u16) -> (r: Option<usize>)
    ensures
        match r {
            Some(i) => last_index(u@, unit) == Some(i as int),
            None => last_index(u@, unit) is None,
        },
{
    let mut i = u.len();
    assert(u@.subrange(0, u@.len() as int) =~= u@);
    while i > 0
        invariant
            i <= u@.len(),
            last_index(u@, unit) == last_index(u@.subrange(0, i as int), unit),
        decreases i,
    {
        let ghost pre = u@.subrange(0, i as int);
        if u[i - 1] == unit {
            return Some(i - 1);
        }
        assert(pre.drop_last() =~= u@.subrange(0, i - 1));
        i -= 1;
    }
    None
}

/// The text an unclosed string is read from once closing it with a quote
/// failed: the text from `start` cut at the last backslash, closed.
pub open spec fn string_retry_text(u: Seq<u16>, start: int) -> Seq<char> {
    let end2 = match last_index(u, BACKSLASH()) {
        Some(li) => li,
        None => 0,
    };
    substr(u, start, end2).push('"')
}

/// After the first reading of an unclosed string starting at `start`:
/// nothing more where it succeeded, else the text to read next.
pub fn unclosed_string_retry(u: &[u16], start: usize, first: &Result<JsVal, ()>) -> (r: Option<String>)
    ensures
        match first {
            Ok(_) => r is None,
            Err(_) => r matches Some(t) && t@ == string_retry_text(u@, start as int),
        },
{
    match first {
        Ok(_) => None,
        Err(()) => {
            let end2 = match units_last_index(u, 0x5C) {
                Some(li) => li,
                None => 0,
            };
            let s = units_substr(u, start, end2);
            let mut cs = chars_of(s.as_str());
            cs.push('"');
            Some(string_from_chars(cs.as_slice()))
        },
    }
}

/// The text a number is read from once reading `u[start..end]` failed:
/// none for a lone `-`, else the text from `start` up to the last `e` of
/// the whole text, if there is one.
pub open spec fn number_retry_text(u: Seq<u16>, start: int, end: int) -> Option<Seq<char>> {
    if sub_units(u, start, end) == seq![0x2Du16] {
        None
    } else {
        match last_index(u, 0x65) {
            Some(ei) => Some(substr(u, start, ei)),
            None => None,
        }
    }
}

/// After the first reading of a number's text `u[start..end]`: nothing more
/// where it succeeded, else the text to read next, if any.
pub fn number_retry(u: &[u16], start: usize, end: usize, first: &Result<JsVal, ()>) -> (r: Option<String>)
    requires
        start <= end <= u@.len(),
    ensures
        match first {
            Ok(_) => r is None,
            Err(_) => match number_retry_text(u@, start as int, end as int) {
                Some(t) => r matches Some(x) && x@ == t,
                None => r is None,
            },
        },
{
    match first {
        Ok(_) => None,
        Err(()) => {
            if end - start == 1 && u[start] == 0x2D {
                assert(sub_units(u@, start as int, end as int) =~= seq![0x2Du16]);
                return None;
            }
            assert(sub_units(u@, start as int, end as int) != seq![0x2Du16]) by {
                let su = sub_units(u@, start as int, end as int);
                if su == seq![0x2Du16] {
                    assert(su.len() == 1);
                    assert(su[0] == u@[start as int]);
                }
            }
            match units_last_index(u, 0x65) {
                Some(ei) => Some(units_substr(u, start, ei)),
                None => None,
            }
        },
    }
}

/// The partial-JSON parser over the code units of a text.
struct Parser {
    u: Vec<u16>,
    index: usize,
}

impl Parser {
    spec fn wf(&self) -> bool {
        &&& self.u@.len() <= isize::MAX / 2
        &&& self.index <= self.u@.len() + 1
    }

    fn len(&self) -> (r: usize)
        ensures
            r == self.u@.len(),
    {
        self.u.len()
    }

    fn at(&self, i: usize) -> (r: Option<u16>)
        ensures
            r == at(self.u@, i as int),
    {
        if i < self.u.len() {
            Some(self.u[i])
        } else {
            None
        }
    }

    /// A position `k` units on, never past one beyond the end.
    fn adv(&self, i: usize, k: usize) -> (r: usize)
        requires
            self.wf(),
            i <= self.u@.len() + 1,
            k <= 16,
        ensures
            r == adv(i as int, k as int, self.u@.len() as int),
    {
        let len = self.u.len();
        if i + k > len + 1 {
            len + 1
        } else {
            i + k
        }
    }

    /// `substring(a, b)` as a string.
    fn substr_string(&self, a: usize, b: usize) -> (r: String)
        ensures
            r@ == substr(self.u@, a as int, b as int),
    {
        units_substr(self.u.as_slice(), a, b)
    }

    /// `substring(a, b)` followed by a quote, as a string.
    fn substr_quoted(&self, a: usize, b: usize) -> (r: String)
        ensures
            r@ == substr(self.u@, a as int, b as int).push('"'),
    {
        let s = self.substr_string(a, b);
        let mut cs = chars_of(s.as_str());
        cs.push('"');
        string_from_chars(cs.as_slice())
    }

    /// Whether `u[i..i + n]` is `lit[..n]`.
    fn units_match(&self, i: usize, lit: &[u16], n: usize) -> (r: bool)
        requires
            i + n <= self.u@.len(),
            n <= lit@.len(),
        ensures
            r == (self.u@.subrange(i as int, i + n) == lit@.subrange(0, n as int)),
    {
        let len = self.u.len();
        let mut k: usize = 0;
        while k < n
            invariant
                len == self.u@.len(),
                i + n <= self.u@.len(),
                n <= lit@.len(),
                k <= n,
                forall|m: int| 0 <= m < k ==> self.u@[i + m] == lit@[m],
            decreases n - k,
        {
            if self.u[i + k] != lit[k] {
                proof {
                    assert(self.u@.subrange(i as int, i + n)[k as int] != lit@.subrange(0, n as int)[k as int]);
                }
                return false;
            }
            k += 1;
        }
        assert(self.u@.subrange(i as int, i + n) =~= lit@.subrange(0, n as int));
        true
    }

    /// Whether the text at `i` is `lit`, or a beginning of it at the end.
    fn literal_at(&self, i: usize, lit: &[u16], need_two: bool) -> (r: bool)
        requires
            i < self.u@.len(),
            lit@.len() <= 16,
        ensures
            r == literal_at(self.u@, i as int, lit@, need_two),
    {
        let len = self.u.len();
        let rem = len - i;
        let ghost u = self.u@;
        if rem >= lit.len() {
            let r = self.units_match(i, lit, lit.len());
            assert(lit@.subrange(0, lit@.len() as int) =~= lit@);
            r
        } else {
            assert(!sub_eq(u, i as int, i + lit@.len(), lit@)) by {
                assert(u.subrange(i as int, len as int).len() != lit@.len());
            }
            if need_two && rem <= 1 {
                return false;
            }
            let r = self.units_match(i, lit, rem);
            r
        }
    }

    /// The last position of `unit`.
    fn last_index_of(&self, unit: u16) -> (r: Option<usize>)
        ensures
            match r {
                Some(i) => last_index(self.u@, unit) == Some(i as int),
                None => last_index(self.u@, unit) is None,
            },
    {
        units_last_index(self.u.as_slice(), unit)
    }

    /// Whether the string scan goes on at `i`.
    fn str_continues(&self, i: usize, escape: bool) -> (r: bool)
        requires
            0 < i,
        ensures
            r == (0 < i < self.u@.len() && (self.u@[i as int] != QUOTE() || (escape && self.u@[i - 1]
                == BACKSLASH()))),
    {
        i < self.u.len() && (self.u[i] != 0x22 || (escape && self.u[i - 1] == 0x5C))
    }

    /// A string at the current position (its opening quote).
    fn parse_str(&mut self) -> (r: Result<JsVal, ()>)
        requires
            old(self).wf(),
            old(self).index < old(self).u@.len(),
        ensures
            final(self).wf(),
            final(self).u == old(self).u,
            (res_view(r), final(self).index as int) == p_str(old(self).u@, old(self).index as int),
    {
        let ghost u = self.u@;
        let start = self.index;
        let mut escape = false;
        self.index += 1;
        proof {
            lemma_scan_str(u, start + 1, false);
        }
        while self.str_continues(self.index, escape)
            invariant
                self.wf(),
                self.u == old(self).u,
                self.u@ == u,
                start < self.index <= u.len(),
                scan_str(u, self.index as int, escape) == scan_str(u, start + 1, false),
            decreases u.len() - self.index,
        {
            escape = if self.u[self.index] == 0x5C { !escape } else { false };
            self.index += 1;
        }
        if self.at(self.index) == Some(0x22u16) {
            self.index += 1;
            let end = self.index - (if escape { 1usize } else { 0usize });
            let s = self.substr_string(start, end);
            return json_parse_str(s.as_str());
        }
        let end = self.index - (if escape { 1usize } else { 0usize });
        let first = json_parse_str(self.substr_quoted(start, end).as_str());
        match unclosed_string_retry(self.u.as_slice(), start, &first) {
            Some(second) => json_parse_str(second.as_str()),
            None => first,
        }
    }

    /// A number at the current position.
    fn parse_num(&mut self) -> (r: Result<JsVal, ()>)
        requires
            old(self).wf(),
            old(self).index < old(self).u@.len(),
        ensures
            final(self).wf(),
            final(self).u == old(self).u,
            (res_view(r), final(self).index as int) == p_num(old(self).u@, old(self).index as int),
    {
        let ghost u = self.u@;
        let len = self.u.len();
        if self.index == 0 {
            if len == 1 && self.u[0] == 0x2D {
                assert(u =~= seq![0x2Du16]);
                return Err(());
            }
            assert(u != seq![0x2Du16]) by {
                if u == seq![0x2Du16] {
                    assert(u[0] == 0x2D);
                }
            }
            let first = json_parse_str(self.substr_string(0, len).as_str());
            assert(sub_units(u, 0, len as int) =~= u);
            return match number_retry(self.u.as_slice(), 0, len, &first) {
                Some(second) => json_parse_str(second.as_str()),
                None => first,
            };
        }
        let start = self.index;
        if self.at(self.index) == Some(0x2Du16) {
            self.index += 1;
        }
        let ghost k = self.index as int;
        while self.index < len && !self.num_stop_at(self.index)
            invariant
                self.wf(),
                self.u == old(self).u,
                self.u@ == u,
                len == u.len(),
                k <= self.index <= len,
                scan_num(u, self.index as int) == scan_num(u, k),
            decreases len - self.index,
        {
            self.index += 1;
        }
        let first = json_parse_str(self.substr_string(start, self.index).as_str());
        match number_retry(self.u.as_slice(), start, self.index, &first) {
            Some(second) => json_parse_str(second.as_str()),
            None => first,
        }
    }

    /// A value at the current position.
    fn parse_any(&mut self) -> (r: Result<JsVal, ()>)
        requires
            old(self).wf(),
        ensures
            final(self).wf(),
            final(self).u == old(self).u,
            (res_view(r), final(self).index as int) == p_any(old(self).u@, old(self).index as int),
        decreases rest_len(old(self).u@, old(self).index as int), 1int,
    {
        let ghost u = self.u@;
        let ghost start = self.index as int;
        proof {
            lemma_skip_blank(u, start);
        }
        self.skip_blank();
        let len = self.u.len();
        if self.index >= len {
            return Err(());
        }
        let i = self.index;
        let c = self.u[i];
        if c == 0x22 {
            return self.parse_str();
        }
        if c == 0x7B {
            return self.parse_obj();
        }
        if c == 0x5B {
            return self.parse_arr();
        }
        let null_lit: [u16; 4] = [0x6E, 0x75, 0x6C, 0x6C];
        let true_lit: [u16; 4] = [0x74, 0x72, 0x75, 0x65];
        let false_lit: [u16; 5] = [0x66, 0x61, 0x6C, 0x73, 0x65];
        let inf_lit: [u16; 8] = [0x49, 0x6E, 0x66, 0x69, 0x6E, 0x69, 0x74, 0x79];
        let neg_inf_lit: [u16; 9] = [0x2D, 0x49, 0x6E, 0x66, 0x69, 0x6E, 0x69, 0x74, 0x79];
        let nan_lit: [u16; 3] = [0x4E, 0x61, 0x4E];
        assert(null_lit@ =~= lit_null());
        assert(true_lit@ =~= lit_true());
        assert(false_lit@ =~= lit_false());
        assert(inf_lit@ =~= lit_infinity());
        assert(neg_inf_lit@ =~= lit_neg_infinity());
        assert(nan_lit@ =~= lit_nan());
        if self.literal_at(i, &null_lit, false) {
            self.index = self.adv(i, 4);
            return Ok(JsVal::Null);
        }
        if self.literal_at(i, &true_lit, false) {
            self.index = self.adv(i, 4);
            return Ok(JsVal::Bool(true));
        }
        if self.literal_at(i, &false_lit, false) {
            self.index = self.adv(i, 5);
            return Ok(JsVal::Bool(false));
        }
        if self.literal_at(i, &inf_lit, false) {
            self.index = self.adv(i, 8);
            return Ok(JsVal::Inf);
        }
        if self.literal_at(i, &neg_inf_lit, true) {
            self.index = self.adv(i, 9);
            return Ok(JsVal::NegInf);
        }
        if self.literal_at(i, &nan_lit, false) {
            self.index = self.adv(i, 3);
            return Ok(JsVal::Nan);
        }
        self.parse_num()
    }

    /// An object at the current position (its `{`).
    fn parse_obj(&mut self) -> (r: Result<JsVal, ()>)
        requires
            old(self).wf(),
            old(self).index < old(self).u@.len(),
        ensures
            final(self).wf(),
            final(self).u == old(self).u,
            (res_view(r), final(self).index as int) == p_obj(old(self).u@, old(self).index as int),
        decreases rest_len(old(self).u@, old(self).index as int), 0int,
    {
        let ghost u = self.u@;
        let ghost i0 = self.index as int;
        let len = self.u.len();
        self.index += 1;
        proof {
            lemma_skip_blank(u, i0 + 1);
        }
        self.skip_blank();
        let mut obj: Vec<(String, JsVal)> = Vec::new();
        let ghost goal = obj_loop(u, self.index as int, Seq::empty());
        assert(entries_view(obj@) =~= Seq::<(Seq<char>, JsModel)>::empty());
        loop
            invariant_except_break
                i0 < self.index,
                obj_loop(u, self.index as int, entries_view(obj@)) == goal,
            invariant
                self.wf(),
                self.u == old(self).u,
                self.u@ == u,
                len == u.len(),
                0 <= i0 < len,
                rest_len(old(self).u@, old(self).index as int) == rest_len(u, i0),
            ensures
                self.wf(),
                self.u == old(self).u,
                (entries_view(obj@), self.index as int) == goal,
            decreases rest_len(u, self.index as int),
        {
            if self.at(self.index) == Some(0x7Du16) {
                break;
            }
            let j = self.index;
            let ghost acc = entries_view(obj@);
            proof {
                lemma_skip_blank(u, j as int);
            }
            self.skip_blank();
            if self.index >= len {
                break;
            }
            proof {
                lemma_p_str_advances(u, self.index as int);
            }
            let key = match self.parse_str() {
                Err(()) => {
                    break;
                },
                Ok(JsVal::Str(s)) => s,
                Ok(other) => canonical(&other),
            };
            proof {
                lemma_skip_blank(u, self.index as int);
            }
            self.skip_blank();
            self.index = self.adv(self.index, 1);
            let val = match self.parse_any() {
                Err(()) => {
                    break;
                },
                Ok(v) => v,
            };
            set_key(&mut obj, key, val);
            self.skip_blank();
            if self.at(self.index) == Some(0x2Cu16) {
                self.index = self.adv(self.index, 1);
            }
            if self.index <= j {
                break;
            }
        }
        self.index = self.adv(self.index, 1);
        Ok(JsVal::Obj(obj))
    }

    /// An array at the current position (its `[`).
    fn parse_arr(&mut self) -> (r: Result<JsVal, ()>)
        requires
            old(self).wf(),
            old(self).index < old(self).u@.len(),
        ensures
            final(self).wf(),
            final(self).u == old(self).u,
            (res_view(r), final(self).index as int) == p_arr(old(self).u@, old(self).index as int),
        decreases rest_len(old(self).u@, old(self).index as int), 0int,
    {
        let ghost u = self.u@;
        let ghost i0 = self.index as int;
        let len = self.u.len();
        self.index += 1;
        let mut arr: Vec<JsVal> = Vec::new();
        let ghost goal = arr_loop(u, self.index as int, Seq::empty());
        assert(items_view(arr@) =~= Seq::<JsModel>::empty());
        loop
            invariant_except_break
                i0 < self.index,
                arr_loop(u, self.index as int, items_view(arr@)) == goal,
            invariant
                self.wf(),
                self.u == old(self).u,
                self.u@ == u,
                len == u.len(),
                0 <= i0 < len,
                rest_len(old(self).u@, old(self).index as int) == rest_len(u, i0),
            ensures
                self.wf(),
                self.u == old(self).u,
                (items_view(arr@), self.index as int) == goal,
            decreases rest_len(u, self.index as int),
        {
            if self.at(self.index) == Some(0x5Du16) {
                break;
            }
            if self.index >= len {
                break;
            }
            let j = self.index;
            let v = match self.parse_any() {
                Err(()) => {
                    break;
                },
                Ok(v) => v,
            };
            let ghost prev = arr@;
            arr.push(v);
            assert(arr@.drop_last() == prev);
            self.skip_blank();
            if self.at(self.index) == Some(0x2Cu16) {
                self.index = self.adv(self.index, 1);
            }
            if self.index <= j {
                break;
            }
        }
        self.index = self.adv(self.index, 1);
        Ok(JsVal::Arr(arr))
    }

    fn num_stop_at(&self, i: usize) -> (r: bool)
        requires
            i < self.u@.len(),
        ensures
            r == is_num_stop(self.u@[i as int]),
    {
        let c = self.u[i];
        c == 0x2C || c == 0x5D || c == 0x7D
    }

    fn blank_at(&self, i: usize) -> (r: bool)
        requires
            i < self.u@.len(),
        ensures
            r == is_blank(self.u@[i as int]),
    {
        let c = self.u[i];
        c == 0x20 || c == 0x0a || c == 0x0d || c == 0x09
    }

    fn skip_blank(&mut self)
        requires
            old(self).wf(),
        ensures
            final(self).wf(),
            final(self).u == old(self).u,
            final(self).index == skip_blank(old(self).u@, old(self).index as int),
    {
        while self.index < self.u.len() && self.blank_at(self.index)
            invariant
                self.wf(),
                self.u == old(self).u,
                skip_blank(self.u@, self.index as int) == skip_blank(old(self).u@, old(self).index as int),
            decreases self.u@.len() - self.index,
        {
            self.index += 1;
        }
    }
}


/// `partial-json`'s `parse` of a text: the text trimmed; an empty one fails.
pub open spec fn partial_parse_spec(s: Seq<char>) -> Option<JsModel> {
    let t = trim(s);
    if t.len() == 0 {
        None
    } else {
        p_any(utf16_encode(t), 0).0
    }
}

fn partial_parse(input: &str) -> (r: Result<JsVal, ()>)
    ensures
        res_view(r) == partial_parse_spec(input@),
{
    let chars = chars_of(input);
    let trimmed = trim_chars(chars.as_slice());
    if trimmed.len() == 0 {
        return Err(());
    }
    let units = encode_utf16(trimmed.as_slice());
    let mut p = Parser { u: units, index: 0 };
    p.parse_any()
}

/// JSON parsing, and on failure JSON parsing of the repaired text (when the
/// repair changed it).
pub open spec fn with_repair_spec(s: Seq<char>) -> Option<JsModel> {
    match parse_text(s) {
        Some(v) => Some(v),
        None => {
            let r = repair_string_spec(s);
            if r != s {
                parse_text(r)
            } else {
                None
            }
        },
    }
}

/// JSON parsing, and on failure JSON parsing of the
/// repaired text (when the repair changed it).
pub fn parse_with_repair_value(json: &str) -> (r: Result<JsVal, ()>)
    ensures
        res_view(r) == with_repair_spec(json@),
{
    let first = json_parse_str(json);
    match repair_retry(json, &first) {
        Some(repaired) => json_parse_str(repaired.as_str()),
        None => first,
    }
}

/// After the first reading of a text: nothing more where it succeeded or
/// where the repair leaves the text as it is, else the repaired text to
/// read next.
pub fn repair_retry(json: &str, first: &Result<JsVal, ()>) -> (r: Option<String>)
    ensures
        match first {
            Ok(_) => r is None,
            Err(_) => if repair_string_spec(json@) != json@ {
                r matches Some(t) && t@ == repair_string_spec(json@)
            } else {
                r is None
            },
        },
{
    match first {
        Ok(_) => None,
        Err(()) => {
            let repaired = repair_string(json);
            if !crate::text::str_eq(repaired.as_str(), json) {
                Some(repaired)
            } else {
                None
            }
        },
    }
}

/// `result ?? {}`: only `null` becomes an empty object.
pub open spec fn coalesce_spec(v: JsModel) -> JsModel {
    match v {
        JsModel::Null => JsModel::Obj(Seq::empty()),
        other => other,
    }
}

fn coalesce_null(v: JsVal) -> (r: JsVal)
    ensures
        r@ == coalesce_spec(v@),
{
    match v {
        JsVal::Null => empty_object(),
        other => other,
    }
}

/// The streaming-argument reading: a blank text gives `{}`; else the text read whole
/// (with repair), as it is; else the text read partially, then the
/// repaired text read partially, `null` becoming `{}`; else `{}`.
pub open spec fn parse_streaming_spec(s: Seq<char>) -> JsModel {
    if trim(s).len() == 0 {
        JsModel::Obj(Seq::empty())
    } else {
        match with_repair_spec(s) {
            Some(v) => v,
            None => match partial_parse_spec(s) {
                Some(v) => coalesce_spec(v),
                None => match partial_parse_spec(repair_string_spec(s)) {
                    Some(v) => coalesce_spec(v),
                    None => JsModel::Obj(Seq::empty()),
                },
            },
        }
    }
}

/// Whether `u[i..]` begins with the whole of `lit`.
pub open spec fn whole_at(u: Seq<u16>, i: int, lit: Seq<u16>) -> bool {
    0 <= i && i + lit.len() <= u.len() && u.subrange(i, i + lit.len()) == lit
}

proof fn lemma_whole_at(u: Seq<u16>, i: int, lit: Seq<u16>)
    requires
        whole_at(u, i, lit),
    ensures
        forall|m: int| 0 <= m < lit.len() ==> u[i + m] == #[trigger] lit[m],
{
    assert forall|m: int| 0 <= m < lit.len() implies u[i + m] == #[trigger] lit[m] by {
        assert(u.subrange(i, i + lit.len())[m] == u[i + m]);
    }
}

/// A literal is read whole: where the first non-blank text from `start` is
/// the whole of `null`, `true`, `false`, `NaN`, `Infinity` or `-Infinity`,
/// the value reader gives that value and stops just past the literal's last
/// unit, so whatever follows it is read next.
pub proof fn law_literal_read_whole(u: Seq<u16>, start: int)
    requires
        0 <= start,
    ensures
        ({
            let i = skip_blank(u, start);
            &&& whole_at(u, i, lit_null()) ==> p_any(u, start) == (Some(JsModel::Null), i + 4)
            &&& whole_at(u, i, lit_true()) ==> p_any(u, start) == (Some(JsModel::Bool(true)), i + 4)
            &&& whole_at(u, i, lit_false()) ==> p_any(u, start) == (Some(JsModel::Bool(false)), i + 5)
            &&& whole_at(u, i, lit_nan()) ==> p_any(u, start) == (Some(JsModel::Nan), i + 3)
            &&& whole_at(u, i, lit_infinity()) ==> p_any(u, start) == (Some(JsModel::Inf), i + 8)
            &&& whole_at(u, i, lit_neg_infinity()) ==> p_any(u, start) == (Some(JsModel::NegInf), i + 9)
        }),
{
    let i = skip_blank(u, start);
    let len = u.len() as int;
    if whole_at(u, i, lit_null()) {
        lemma_whole_at(u, i, lit_null());
        assert(lit_null()[0] == 0x6E);
        assert(literal_at(u, i, lit_null(), false));
    }
    if whole_at(u, i, lit_true()) {
        lemma_whole_at(u, i, lit_true());
        assert(lit_true()[0] == 0x74);
        assert(!literal_at(u, i, lit_null(), false)) by {
            assert(u.subrange(i, i + 4)[0] == u[i]);
        }
        assert(literal_at(u, i, lit_true(), false));
    }
    if whole_at(u, i, lit_false()) {
        lemma_whole_at(u, i, lit_false());
        assert(lit_false()[0] == 0x66);
        assert(!literal_at(u, i, lit_null(), false)) by {
            assert(u.subrange(i, i + 4)[0] == u[i]);
        }
        assert(!literal_at(u, i, lit_true(), false)) by {
            assert(u.subrange(i, i + 4)[0] == u[i]);
        }
        assert(literal_at(u, i, lit_false(), false));
    }
    if whole_at(u, i, lit_infinity()) {
        lemma_whole_at(u, i, lit_infinity());
        assert(lit_infinity()[0] == 0x49);
        assert(!literal_at(u, i, lit_null(), false)) by {
            assert(u.subrange(i, i + 4)[0] == u[i]);
        }
        assert(!literal_at(u, i, lit_true(), false)) by {
            assert(u.subrange(i, i + 4)[0] == u[i]);
        }
        assert(!literal_at(u, i, lit_false(), false)) by {
            assert(u.subrange(i, i + 5)[0] == u[i]);
        }
        assert(literal_at(u, i, lit_infinity(), false));
    }
    if whole_at(u, i, lit_neg_infinity()) {
        lemma_whole_at(u, i, lit_neg_infinity());
        assert(lit_neg_infinity()[0] == 0x2D);
        assert(!literal_at(u, i, lit_null(), false)) by {
            assert(u.subrange(i, i + 4)[0] == u[i]);
        }
        assert(!literal_at(u, i, lit_true(), false)) by {
            assert(u.subrange(i, i + 4)[0] == u[i]);
        }
        assert(!literal_at(u, i, lit_false(), false)) by {
            assert(u.subrange(i, i + 5)[0] == u[i]);
        }
        assert(!literal_at(u, i, lit_infinity(), false)) by {
            assert(u.subrange(i, i + 8)[0] == u[i]);
        }
        assert(literal_at(u, i, lit_neg_infinity(), true));
    }
    if whole_at(u, i, lit_nan()) {
        lemma_whole_at(u, i, lit_nan());
        assert(lit_nan()[0] == 0x4E);
        assert(!literal_at(u, i, lit_null(), false)) by {
            if i + 4 <= len {
                assert(u.subrange(i, i + 4)[0] == u[i]);
            } else {
                assert(u.subrange(i, len)[0] == u[i]);
            }
        }
        assert(!literal_at(u, i, lit_true(), false)) by {
            if i + 4 <= len {
                assert(u.subrange(i, i + 4)[0] == u[i]);
            } else {
                assert(u.subrange(i, len)[0] == u[i]);
            }
        }
        assert(!literal_at(u, i, lit_false(), false)) by {
            if i + 5 <= len {
                assert(u.subrange(i, i + 5)[0] == u[i]);
            } else {
                assert(u.subrange(i, len)[0] == u[i]);
            }
        }
        assert(!literal_at(u, i, lit_infinity(), false)) by {
            if i + 8 <= len {
                assert(u.subrange(i, i + 8)[0] == u[i]);
            } else {
                assert(u.subrange(i, len)[0] == u[i]);
            }
        }
        assert(!literal_at(u, i, lit_neg_infinity(), true)) by {
            if i + 9 <= len {
                assert(u.subrange(i, i + 9)[0] == u[i]);
            } else {
                assert(u.subrange(i, len)[0] == u[i]);
            }
        }
        assert(literal_at(u, i, lit_nan(), false));
    }
}

/// Blank text reads as an empty object.
pub proof fn law_streaming_blank(s: Seq<char>)
    requires
        trim(s).len() == 0,
    ensures
        parse_streaming_spec(s) == JsModel::Obj(Seq::empty()),
{
}

/// Text that is one complete JSON document reads as that document, with no
/// coalescing (a `null` document stays `null`).
pub proof fn law_streaming_complete(s: Seq<char>, v: JsModel)
    requires
        trim(s).len() > 0,
        json_document(s) == Some(v),
    ensures
        parse_streaming_spec(s) == v,
{
}

/// Text that is not JSON, even repaired, never reads as `null`: a `null`
/// from the lenient parser becomes an empty object.
pub proof fn law_streaming_partial_not_null(s: Seq<char>)
    requires
        with_repair_spec(s) is None,
    ensures
        !(parse_streaming_spec(s) is Null),
{
}

/// The best reading of possibly unfinished JSON text.
pub fn parse_streaming_json(input: &str) -> (r: JsVal)
    ensures
        r@ == parse_streaming_spec(input@),
{
    let chars = chars_of(input);
    if trim_chars(chars.as_slice()).len() == 0 {
        return empty_object();
    }
    if let Ok(v) = parse_with_repair_value(input) {
        return v;
    }
    if let Ok(v) = partial_parse(input) {
        return coalesce_null(v);
    }
    let repaired = repair_string(input);
    if let Ok(v) = partial_parse(repaired.as_str()) {
        return coalesce_null(v);
    }
    empty_object()
}

} // verus!
