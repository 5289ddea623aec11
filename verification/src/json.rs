//! The JSON value tree the library works on, its mathematical model, and the
//! one call into `serde_json` that turns JSON text into such a tree.

use vstd::prelude::*;
use vstd::arithmetic::power2::{pow2, lemma2_to64, lemma2_to64_rest, lemma_pow2_pos, lemma_pow2_strictly_increases};
use crate::text::{chars_of, string_from_chars};
use crate::sse::chunks_view;

verus! {

/// A JSON number, held the way `serde_json` holds it: a non-negative
/// integer, a negative integer, or a finite float.  A float is held by its
/// IEEE-754 bits and by its `Display` text (the shortest decimal that reads
/// back as the same float, written without an exponent).
pub enum JsNum {
    PosInt(u64),
    NegInt(i64),
    Float { bits: u64, text: String },
}

/// Model of a `JsNum`.
#[verifier::ext_equal]
pub enum NumModel {
    PosInt(u64),
    NegInt(i64),
    Float(u64, Seq<char>),
}

/// A JavaScript value as JSON parsing and partial parsing can produce it.
/// `Nan`, `Inf` and `NegInf` are kept apart from `Null`, since only `null`
/// coalesces under `?? {}`.
pub enum JsVal {
    Null,
    Nan,
    Inf,
    NegInf,
    Bool(bool),
    Num(JsNum),
    Str(String),
    Arr(Vec<JsVal>),
    Obj(Vec<(String, JsVal)>),
}

/// Model of a `JsVal`: strings as `Seq<char>`, arrays and objects as `Seq`.
#[verifier::ext_equal]
pub enum JsModel {
    Null,
    Nan,
    Inf,
    NegInf,
    Bool(bool),
    Num(NumModel),
    Str(Seq<char>),
    Arr(Seq<JsModel>),
    Obj(Seq<(Seq<char>, JsModel)>),
}

impl View for JsNum {
    type V = NumModel;

    open spec fn view(&self) -> NumModel {
        match self {
            JsNum::PosInt(u) => NumModel::PosInt(*u),
            JsNum::NegInt(i) => NumModel::NegInt(*i),
            JsNum::Float { bits, text } => NumModel::Float(*bits, text@),
        }
    }
}

pub open spec fn items_view(items: Seq<JsVal>) -> Seq<JsModel>
    decreases items,
{
    if items.len() == 0 {
        Seq::empty()
    } else {
        items_view(items.drop_last()).push(items.last().model())
    }
}

pub open spec fn entries_view(entries: Seq<(String, JsVal)>) -> Seq<(Seq<char>, JsModel)>
    decreases entries,
{
    if entries.len() == 0 {
        Seq::empty()
    } else {
        entries_view(entries.drop_last()).push((entries.last().0@, entries.last().1.model()))
    }
}

impl JsVal {
    pub open spec fn model(&self) -> JsModel
        decreases self,
    {
        match self {
            JsVal::Null => JsModel::Null,
            JsVal::Nan => JsModel::Nan,
            JsVal::Inf => JsModel::Inf,
            JsVal::NegInf => JsModel::NegInf,
            JsVal::Bool(b) => JsModel::Bool(*b),
            JsVal::Num(n) => JsModel::Num(n@),
            JsVal::Str(s) => JsModel::Str(s@),
            JsVal::Arr(items) => JsModel::Arr(items_view(items@)),
            JsVal::Obj(entries) => JsModel::Obj(entries_view(entries@)),
        }
    }
}


impl View for JsVal {
    type V = JsModel;

    open spec fn view(&self) -> JsModel {
        self.model()
    }
}

#[verifier::external_type_specification]
#[verifier::external_body]
pub struct ExJsonValue(serde_json::Value);

#[verifier::external_type_specification]
#[verifier::external_body]
pub struct ExJsonNumber(serde_json::Number);

/// What `serde_json::from_str::<serde_json::Value>` makes of a text, taken
/// through `value_to_jsval`: `None` where the text is not one JSON document.
pub uninterp spec fn json_document(text: Seq<char>) -> Option<JsModel>;

/// Converts a `serde_json::Number` to a `JsNum`, variant for variant; a float
/// is held by its bits and its `Display` text.
#[verifier::external_body]
fn number_to_jsnum(n: &serde_json::Number) -> JsNum {
    match (n.as_u64(), n.as_i64(), n.as_f64()) {
        (Some(u), _, _) => JsNum::PosInt(u),
        (None, Some(i), _) => JsNum::NegInt(i),
        (None, None, f) => JsNum::Float {
            bits: f.map(|x| x.to_bits()).unwrap_or_default(),
            text: f.map(|x| format!("{}", x)).unwrap_or_default(),
        },
    }
}

/// Converts a `serde_json::Value` to a `JsVal`, variant for variant (object
/// entries in the map's own order).
#[verifier::external_body]
pub fn value_to_jsval(v: &serde_json::Value) -> JsVal {
    match v {
        serde_json::Value::Null => JsVal::Null,
        serde_json::Value::Bool(b) => JsVal::Bool(*b),
        serde_json::Value::Number(n) => JsVal::Num(number_to_jsnum(n)),
        serde_json::Value::String(s) => JsVal::Str(s.clone()),
        serde_json::Value::Array(a) => JsVal::Arr(a.iter().map(value_to_jsval).collect()),
        serde_json::Value::Object(m) => JsVal::Obj(m.iter().map(|(k, x)| (k.clone(), value_to_jsval(x))).collect()),
    }
}

/// JSON parsing: `serde_json::from_str::<serde_json::Value>` on the text,
/// converted by `value_to_jsval`.  The result is named by `json_document`:
/// the same text always gives the same tree.
#[verifier::external_body]
pub(crate) fn json_parse(text: &str) -> (r: Option<JsVal>)
    ensures
        match r {
            Some(v) => json_document(text@) == Some(v@),
            None => json_document(text@).is_none(),
        },
{
    serde_json::from_str::<serde_json::Value>(text).ok().map(|v| value_to_jsval(&v))
}


/// What `serde_json::from_str::<Vec<Vec<u8>>>` makes of a text: the byte
/// chunks of a JSON array of byte arrays, or the description of the error
/// (with its line and column) where the text is not one.
pub uninterp spec fn byte_chunks_document(text: Seq<char>) -> Result<Seq<Seq<u8>>, Seq<char>>;

/// `serde_json::from_str::<Vec<Vec<u8>>>` on the text, an error taken as
/// its `Display` text.  The result is named by `byte_chunks_document`: the
/// same text always gives the same chunks or the same error text.
#[verifier::external_body]
pub(crate) fn parse_byte_chunks(text: &str) -> (r: Result<Vec<Vec<u8>>, String>)
    ensures
        match r {
            Ok(c) => byte_chunks_document(text@) == Ok::<Seq<Seq<u8>>, Seq<char>>(chunks_view(c@)),
            Err(m) => byte_chunks_document(text@) == Err::<Seq<Seq<u8>>, Seq<char>>(m@),
        },
{
    match serde_json::from_str::<Vec<Vec<u8>>>(text) {
        Ok(c) => Ok(c),
        Err(e) => Err(e.to_string()),
    }
}

/// What `serde_json::from_str::<Vec<serde_json::Value>>` makes of a text,
/// each item taken through `value_to_jsval`: the items of a JSON array, or
/// the description of the error (with its line and column) where the text
/// is not one.
pub uninterp spec fn chunk_values_document(text: Seq<char>) -> Result<Seq<JsModel>, Seq<char>>;

/// `serde_json::from_str::<Vec<serde_json::Value>>` on the text, each item
/// converted by `value_to_jsval`, an error taken as its `Display` text.  The
/// result is named by `chunk_values_document`.
#[verifier::external_body]
pub(crate) fn parse_chunk_values(text: &str) -> (r: Result<Vec<JsVal>, String>)
    ensures
        match r {
            Ok(c) => chunk_values_document(text@) == Ok::<Seq<JsModel>, Seq<char>>(items_view(c@)),
            Err(m) => chunk_values_document(text@) == Err::<Seq<JsModel>, Seq<char>>(m@),
        },
{
    match serde_json::from_str::<Vec<serde_json::Value>>(text) {
        Ok(v) => Ok(v.iter().map(value_to_jsval).collect()),
        Err(e) => Err(e.to_string()),
    }
}

// ---------------------------------------------------------------------------
// Builders
// ---------------------------------------------------------------------------

/// An empty object.
pub fn empty_object() -> (v: JsVal)
    ensures
        v@ == JsModel::Obj(Seq::empty()),
{
    let entries: Vec<(String, JsVal)> = Vec::new();
    assert(entries_view(entries@) =~= Seq::<(Seq<char>, JsModel)>::empty());
    JsVal::Obj(entries)
}

/// A string value.
pub fn js_str(x: &str) -> (v: JsVal)
    ensures
        v@ == JsModel::Str(x@),
{
    JsVal::Str(x.to_string())
}

/// The number model of an integer, held as `serde_json` holds integers.
pub open spec fn int_num(x: i64) -> NumModel {
    if x >= 0 {
        NumModel::PosInt(x as u64)
    } else {
        NumModel::NegInt(x)
    }
}

/// A number value holding an integer.
pub fn js_num(x: i64) -> (v: JsVal)
    ensures
        v@ == JsModel::Num(int_num(x)),
{
    if x >= 0 {
        JsVal::Num(JsNum::PosInt(x as u64))
    } else {
        JsVal::Num(JsNum::NegInt(x))
    }
}

pub open spec fn pairs_view(pairs: Seq<(&str, JsVal)>) -> Seq<(Seq<char>, JsModel)> {
    pairs.map_values(|p: (&str, JsVal)| (p.0@, p.1@))
}

/// An object value with the given entries, in order.
pub fn js_obj(pairs: Vec<(&str, JsVal)>) -> (v: JsVal)
    ensures
        v@ == JsModel::Obj(pairs_view(pairs@)),
{
    let mut entries: Vec<(String, JsVal)> = Vec::new();
    let ghost all = pairs@;
    for p in it: pairs
        invariant
            all == it.seq(),
            entries_view(entries@) == pairs_view(all.subrange(0, it.index() as int)),
    {
        let ghost prev = entries@;
        let (k, val) = p;
        entries.push((k.to_string(), val));
        proof {
            assert(entries@.drop_last() == prev);
            assert(all.subrange(0, it.index() + 1) =~= all.subrange(0, it.index() as int).push(all[it.index() as int]));
            assert(pairs_view(all.subrange(0, it.index() + 1)) =~= pairs_view(all.subrange(0, it.index() as int)).push((all[it.index() as int].0@, all[it.index() as int].1@)));
        }
    }
    assert(all.subrange(0, all.len() as int) =~= all);
    JsVal::Obj(entries)
}


// ---------------------------------------------------------------------------
// Views of sequences
// ---------------------------------------------------------------------------

pub proof fn lemma_items_view(items: Seq<JsVal>)
    ensures
        items_view(items).len() == items.len(),
        forall|i: int| 0 <= i < items.len() ==> #[trigger] items_view(items)[i] == items[i].model(),
    decreases items.len(),
{
    if items.len() > 0 {
        lemma_items_view(items.drop_last());
    }
}

pub proof fn lemma_entries_view(entries: Seq<(String, JsVal)>)
    ensures
        entries_view(entries).len() == entries.len(),
        forall|i: int|
            0 <= i < entries.len() ==> #[trigger] entries_view(entries)[i] == (
                entries[i].0@,
                entries[i].1.model(),
            ),
    decreases entries.len(),
{
    if entries.len() > 0 {
        lemma_entries_view(entries.drop_last());
    }
}

// ---------------------------------------------------------------------------
// Reading values (the `serde_json::Value` accessors, on the model)
// ---------------------------------------------------------------------------

/// The index of the first entry with the given key.
pub open spec fn key_index(entries: Seq<(Seq<char>, JsModel)>, key: Seq<char>) -> Option<int>
    decreases entries.len(),
{
    if entries.len() == 0 {
        None
    } else {
        match key_index(entries.drop_last(), key) {
            Some(i) => Some(i),
            None => if entries.last().0 == key {
                Some(entries.len() - 1)
            } else {
                None
            },
        }
    }
}

/// `v[key]`: the value of the first entry with that key of an object, and
/// `null` for a missing key or a value that is not an object.
pub open spec fn get_field(v: JsModel, key: Seq<char>) -> JsModel {
    match v {
        JsModel::Obj(entries) => match key_index(entries, key) {
            Some(i) => entries[i].1,
            None => JsModel::Null,
        },
        _ => JsModel::Null,
    }
}

/// A missing value reads as `null`.
pub open spec fn opt_model(o: Option<&JsVal>) -> JsModel {
    match o {
        Some(v) => v@,
        None => JsModel::Null,
    }
}

pub proof fn lemma_key_index(entries: Seq<(Seq<char>, JsModel)>, key: Seq<char>)
    ensures
        key_index(entries, key) matches Some(i) ==> 0 <= i < entries.len() && entries[i].0 == key
            && forall|j: int| 0 <= j < i ==> entries[j].0 != key,
        key_index(entries, key) is None ==> forall|j: int|
            0 <= j < entries.len() ==> entries[j].0 != key,
    decreases entries.len(),
{
    if entries.len() > 0 {
        let init = entries.drop_last();
        lemma_key_index(init, key);
        assert forall|j: int| 0 <= j < init.len() implies init[j] == entries[j] by {}
    }
}

/// `v[key]`, with a missing value standing for `null`.
pub fn get<'a>(v: Option<&'a JsVal>, key: &str) -> (r: Option<&'a JsVal>)
    ensures
        opt_model(r) == get_field(opt_model(v), key@),
{
    match v {
        Some(JsVal::Obj(entries)) => {
            let ghost em = entries_view(entries@);
            proof {
                lemma_entries_view(entries@);
                lemma_key_index(em, key@);
            }
            let mut i: usize = 0;
            while i < entries.len()
                invariant
                    em == entries_view(entries@),
                    opt_model(v) == JsModel::Obj(em),
                    em.len() == entries@.len(),
                    forall|j: int|
                        0 <= j < entries@.len() ==> #[trigger] em[j] == (
                            entries@[j].0@,
                            entries@[j].1.model(),
                        ),
                    i <= entries@.len(),
                    forall|j: int| 0 <= j < i ==> em[j].0 != key@,
                decreases entries.len() - i,
            {
                if crate::text::str_eq(entries[i].0.as_str(), key) {
                    assert(em[i as int].0 == key@);
                    assert(key_index(em, key@) == Some(i as int)) by {
                        lemma_key_index(em, key@);
                    }
                    return Some(&entries[i].1);
                }
                i += 1;
            }
            None
        },
        _ => None,
    }
}

/// `v.as_str()`.
pub open spec fn str_of(v: JsModel) -> Option<Seq<char>> {
    match v {
        JsModel::Str(s) => Some(s),
        _ => None,
    }
}

pub open spec fn opt_str_view(o: Option<&str>) -> Option<Seq<char>> {
    match o {
        Some(s) => Some(s@),
        None => None,
    }
}

/// `v.as_str()`.
pub fn as_str<'a>(v: Option<&'a JsVal>) -> (r: Option<&'a str>)
    ensures
        opt_str_view(r) == str_of(opt_model(v)),
{
    match v {
        Some(JsVal::Str(s)) => Some(s.as_str()),
        _ => None,
    }
}

/// `v.is_object()`.
pub fn is_object(v: Option<&JsVal>) -> (r: bool)
    ensures
        r == (opt_model(v) is Obj),
{
    match v {
        Some(JsVal::Obj(_)) => true,
        _ => false,
    }
}

/// `v.is_null()`.
pub fn is_null(v: Option<&JsVal>) -> (r: bool)
    ensures
        r == (opt_model(v) is Null),
{
    match v {
        None => true,
        Some(JsVal::Null) => true,
        _ => false,
    }
}

/// `v.as_i64()`: an integer that fits in `i64`.
pub open spec fn i64_of(v: JsModel) -> Option<i64> {
    match v {
        JsModel::Num(NumModel::PosInt(u)) => if u <= i64::MAX {
            Some(u as i64)
        } else {
            None
        },
        JsModel::Num(NumModel::NegInt(i)) => Some(i),
        _ => None,
    }
}

/// `v.as_i64()`.
pub fn as_i64(v: Option<&JsVal>) -> (r: Option<i64>)
    ensures
        r == i64_of(opt_model(v)),
{
    match v {
        Some(JsVal::Num(JsNum::PosInt(u))) => if *u <= i64::MAX as u64 {
            Some(*u as i64)
        } else {
            None
        },
        Some(JsVal::Num(JsNum::NegInt(i))) => Some(*i),
        _ => None,
    }
}


// ---------------------------------------------------------------------------
// Number text
// ---------------------------------------------------------------------------

/// The `Display` text of the float nearest to `u` (`u as f64`).
pub uninterp spec fn u64_float_text(u: u64) -> Seq<char>;

/// The `Display` text of the float nearest to `i` (`i as f64`).
pub uninterp spec fn i64_float_text(i: i64) -> Seq<char>;

/// Converts `u` to the nearest float through `serde_json::Number::as_f64`
/// and writes it with `Display`.  The result is named by `u64_float_text`.
#[verifier::external_body]
pub(crate) fn u64_as_float_text(u: u64) -> (s: String)
    ensures
        s@ == u64_float_text(u),
{
    serde_json::Number::from(u).as_f64().map(|x| format!("{}", x)).unwrap_or_default()
}

/// Converts `i` to the nearest float through `serde_json::Number::as_f64`
/// and writes it with `Display`.  The result is named by `i64_float_text`.
#[verifier::external_body]
pub(crate) fn i64_as_float_text(i: i64) -> (s: String)
    ensures
        s@ == i64_float_text(i),
{
    serde_json::Number::from(i).as_f64().map(|x| format!("{}", x)).unwrap_or_default()
}

pub open spec fn digit_char(d: nat) -> char {
    ((d % 10) + 0x30) as char
}

/// The decimal digits of `n`.
pub open spec fn decimal(n: nat) -> Seq<char>
    decreases n,
{
    if n < 10 {
        seq![digit_char(n)]
    } else {
        decimal(n / 10).push(digit_char(n % 10))
    }
}

/// Integers of at most this magnitude are exact as floats.
pub open spec fn exact_float_int() -> int {
    0x20_0000_0000_0000
}

pub open spec fn negative_zero_bits() -> u64 {
    0x8000_0000_0000_0000
}

/// The text of a number, as the float it stands for is written:
/// an integer within the exact range in decimal, a larger one through its
/// float, a float by its text (negative zero as `0`).
pub open spec fn num_text(n: NumModel) -> Seq<char> {
    match n {
        NumModel::PosInt(u) => if u <= exact_float_int() {
            decimal(u as nat)
        } else {
            u64_float_text(u)
        },
        NumModel::NegInt(i) => if 0 <= i <= exact_float_int() {
            decimal(i as nat)
        } else if -exact_float_int() <= i < 0 {
            seq!['-'] + decimal((-i) as nat)
        } else {
            i64_float_text(i)
        },
        NumModel::Float(bits, text) => if bits == negative_zero_bits() {
            seq!['0']
        } else {
            text
        },
    }
}

/// Appends the decimal digits of `n`.
pub fn push_decimal(out: &mut Vec<char>, n: u64)
    ensures
        final(out)@ == old(out)@ + decimal(n as nat),
    decreases n,
{
    if n >= 10 {
        push_decimal(out, n / 10);
    }
    let d = (n % 10) as u8;
    out.push((d + 0x30) as char);
    proof {
        assert(((n % 10) + 0x30) as char == (d + 0x30) as char);
        if n >= 10 {
            assert(out@ =~= old(out)@ + decimal(n as nat));
        } else {
            assert(out@ =~= old(out)@ + decimal(n as nat));
        }
    }
}

/// Appends the text of a number (`format_num` of the float it stands for).
pub fn format_num(out: &mut Vec<char>, n: &JsNum)
    ensures
        final(out)@ == old(out)@ + num_text(n@),
{
    match n {
        JsNum::PosInt(u) => {
            if *u <= 0x20_0000_0000_0000 {
                push_decimal(out, *u);
            } else {
                let t = u64_as_float_text(*u);
                crate::text::push_all(out, chars_of(t.as_str()).as_slice());
            }
        },
        JsNum::NegInt(i) => {
            if 0 <= *i && *i <= 0x20_0000_0000_0000 {
                push_decimal(out, *i as u64);
            } else if -0x20_0000_0000_0000 <= *i && *i < 0 {
                out.push('-');
                let m: i64 = -*i;
                push_decimal(out, m as u64);
                assert(out@ =~= old(out)@ + (seq!['-'] + decimal((-*i) as nat)));
            } else {
                let t = i64_as_float_text(*i);
                crate::text::push_all(out, chars_of(t.as_str()).as_slice());
            }
        },
        JsNum::Float { bits, text } => {
            if *bits == 0x8000_0000_0000_0000 {
                out.push('0');
                assert(out@ =~= old(out)@ + seq!['0']);
            } else {
                crate::text::push_all(out, chars_of(text.as_str()).as_slice());
            }
        },
    }
}


// ---------------------------------------------------------------------------
// Integers from numbers
// ---------------------------------------------------------------------------

pub open spec fn clamp_i64(v: int) -> i64 {
    if v < i64::MIN {
        i64::MIN
    } else if v > i64::MAX {
        i64::MAX
    } else {
        v as i64
    }
}

/// The magnitude of a finite IEEE-754 double, cut to an integer: the
/// significand `m` scaled by `2^sh`, rounded toward zero.
pub open spec fn float_trunc_magnitude(bits: u64) -> int {
    let e = (bits / 0x10_0000_0000_0000) % 2048;
    let f = bits % 0x10_0000_0000_0000;
    let m: int = if e == 0 { f as int } else { f + 0x10_0000_0000_0000 };
    let sh: int = (if e == 0 { 1 } else { e as int }) - 1075;
    if sh >= 0 {
        m * pow2(sh as nat)
    } else {
        m / (pow2((-sh) as nat) as int)
    }
}

/// `f as i64` for the double with these bits: rounded toward zero and
/// clamped to the range of `i64`; NaN gives 0.
pub open spec fn float_bits_as_i64(bits: u64) -> i64 {
    let neg = bits >= 0x8000_0000_0000_0000;
    let e = (bits / 0x10_0000_0000_0000) % 2048;
    let f = bits % 0x10_0000_0000_0000;
    if e == 2047 {
        if f != 0 {
            0
        } else if neg {
            i64::MIN
        } else {
            i64::MAX
        }
    } else {
        let mag = float_trunc_magnitude(bits);
        if neg {
            clamp_i64(-mag)
        } else {
            clamp_i64(mag)
        }
    }
}

/// `f as i64` for the double with these bits.
fn float_bits_to_i64(bits: u64) -> (r: i64)
    ensures
        r == float_bits_as_i64(bits),
{
    let neg = bits >= 0x8000_0000_0000_0000;
    let e = (bits >> 52) & 0x7FF;
    let f = bits & 0xF_FFFF_FFFF_FFFF;
    assert(e == (bits / 0x10_0000_0000_0000) % 2048) by (bit_vector)
        requires e == (bits >> 52) & 0x7FF;
    assert(f == bits % 0x10_0000_0000_0000) by (bit_vector)
        requires f == bits & 0xF_FFFF_FFFF_FFFF;
    if e == 2047 {
        if f != 0 {
            return 0;
        } else if neg {
            return i64::MIN;
        } else {
            return i64::MAX;
        }
    }
    assert(f < 0x10_0000_0000_0000);
    let m: u64 = if e == 0 { f } else { f + 0x10_0000_0000_0000 };
    assert(m < 0x20_0000_0000_0000);
    let ebase: u64 = if e == 0 { 1 } else { e };
    let ghost mag = float_trunc_magnitude(bits);
    proof {
        lemma2_to64();
        lemma2_to64_rest();
    }
    // The magnitude, or `None` where it is at least 2^63 + 1.
    let mag_exec: Option<u64> = if ebase >= 1075 {
        let sh = ebase - 1075;
        if sh >= 11 {
            proof {
                if sh > 11 {
                    lemma_pow2_strictly_increases(11, sh as nat);
                }
                assert(m >= 0x10_0000_0000_0000);
                assert(m * pow2(sh as nat) >= 0x10_0000_0000_0000 * pow2(11)) by (nonlinear_arith)
                    requires
                        m >= 0x10_0000_0000_0000,
                        pow2(sh as nat) >= pow2(11),
                ;
            }
            None
        } else {
            proof {
                assert(m < 0x20_0000_0000_0000);
                if sh < 10 {
                    lemma_pow2_strictly_increases(sh as nat, 10);
                }
                assert(m * pow2(sh as nat) <= 0x20_0000_0000_0000 * pow2(10)) by (nonlinear_arith)
                    requires
                        m < 0x20_0000_0000_0000,
                        pow2(sh as nat) <= pow2(10),
                ;
                vstd::bits::lemma_u64_shl_is_mul(m, sh);
            }
            Some(m << sh)
        }
    } else {
        let sh = 1075 - ebase;
        if sh >= 64 {
            proof {
                lemma_pow2_strictly_increases(53, sh as nat);
                assert(m < pow2(53));
                assert((m as int) / (pow2(sh as nat) as int) == 0) by (nonlinear_arith)
                    requires
                        m < pow2(53),
                        pow2(53) < pow2(sh as nat),
                ;
            }
            Some(0)
        } else {
            proof {
                vstd::bits::lemma_u64_shr_is_div(m, sh);
            }
            Some(m >> sh)
        }
    };
    match mag_exec {
        None => if neg {
            i64::MIN
        } else {
            i64::MAX
        },
        Some(v) => {
            assert(v == mag);
            if neg {
                if v >= 0x8000_0000_0000_0000 {
                    i64::MIN
                } else {
                    -(v as i64)
                }
            } else {
                if v > 0x7FFF_FFFF_FFFF_FFFF {
                    i64::MAX
                } else {
                    v as i64
                }
            }
        },
    }
}

/// `jint`: an integer read from a number, tolerating floats (cut toward
/// zero and clamped, as `f as i64`); anything else reads as 0.
pub open spec fn jint_spec(v: JsModel) -> i64 {
    match v {
        JsModel::Num(NumModel::PosInt(u)) => if u <= i64::MAX {
            u as i64
        } else {
            i64::MAX
        },
        JsModel::Num(NumModel::NegInt(i)) => i,
        JsModel::Num(NumModel::Float(bits, _)) => float_bits_as_i64(bits),
        _ => 0,
    }
}

/// Reads an integer from a number, tolerating float-encoded integers;
/// non-numbers read as 0.
pub fn jint(v: Option<&JsVal>) -> (r: i64)
    ensures
        r == jint_spec(opt_model(v)),
{
    match v {
        Some(JsVal::Num(JsNum::PosInt(u))) => if *u <= 0x7FFF_FFFF_FFFF_FFFF {
            *u as i64
        } else {
            i64::MAX
        },
        Some(JsVal::Num(JsNum::NegInt(i))) => *i,
        Some(JsVal::Num(JsNum::Float { bits, text: _ })) => float_bits_to_i64(*bits),
        _ => 0,
    }
}

/// The spacing of the doubles next to a magnitude `m < 2^64`: 1 below
/// 2^53, doubling with each power of two above.
pub open spec fn double_unit(m: int) -> int {
    if m < 0x20_0000_0000_0000 {
        1
    } else if m < 0x40_0000_0000_0000 {
        2
    } else if m < 0x80_0000_0000_0000 {
        4
    } else if m < 0x100_0000_0000_0000 {
        8
    } else if m < 0x200_0000_0000_0000 {
        16
    } else if m < 0x400_0000_0000_0000 {
        32
    } else if m < 0x800_0000_0000_0000 {
        64
    } else if m < 0x1000_0000_0000_0000 {
        128
    } else if m < 0x2000_0000_0000_0000 {
        256
    } else if m < 0x4000_0000_0000_0000 {
        512
    } else if m < 0x8000_0000_0000_0000 {
        1024
    } else {
        2048
    }
}

/// The double nearest to a magnitude `m < 2^64`, ties to the even
/// significand: what `m as f64` holds.
pub open spec fn round_to_double(m: int) -> int {
    let unit = double_unit(m);
    let q = m / unit;
    let r = m % unit;
    let q2 = if 2 * r > unit || (2 * r == unit && q % 2 == 1) {
        q + 1
    } else {
        q
    };
    q2 * unit
}

/// `v.as_f64()` read back as `f as i64`: `Some` for every number; an
/// integer goes through the nearest double first.
pub open spec fn num_as_i64(v: JsModel) -> Option<i64> {
    match v {
        JsModel::Num(NumModel::PosInt(u)) => Some(clamp_i64(round_to_double(u as int))),
        JsModel::Num(NumModel::NegInt(i)) => Some(
            if i < 0 {
                clamp_i64(-round_to_double(-(i as int)))
            } else {
                clamp_i64(round_to_double(i as int))
            },
        ),
        JsModel::Num(NumModel::Float(bits, _)) => Some(float_bits_as_i64(bits)),
        _ => None,
    }
}

/// The unit of `double_unit` for a magnitude up to 2^63.
fn double_unit_exec(m: u64) -> (r: u64)
    requires
        m <= 0x8000_0000_0000_0000,
    ensures
        r as int == double_unit(m as int),
{
    if m < 0x20_0000_0000_0000 {
        1
    } else if m < 0x40_0000_0000_0000 {
        2
    } else if m < 0x80_0000_0000_0000 {
        4
    } else if m < 0x100_0000_0000_0000 {
        8
    } else if m < 0x200_0000_0000_0000 {
        16
    } else if m < 0x400_0000_0000_0000 {
        32
    } else if m < 0x800_0000_0000_0000 {
        64
    } else if m < 0x1000_0000_0000_0000 {
        128
    } else if m < 0x2000_0000_0000_0000 {
        256
    } else if m < 0x4000_0000_0000_0000 {
        512
    } else if m < 0x8000_0000_0000_0000 {
        1024
    } else {
        2048
    }
}

/// `round_to_double` for a magnitude up to 2^63, where the result is at
/// most 2^63 too.
fn round_to_double_exec(m: u64) -> (r: u64)
    requires
        m <= 0x8000_0000_0000_0000,
    ensures
        r as int == round_to_double(m as int),
        r <= 0x8000_0000_0000_0000,
{
    let unit = double_unit_exec(m);
    let q = m / unit;
    let r = m % unit;
    let up = r > unit - r || (r == unit - r && q % 2 == 1);
    assert(q * unit + r == m && 0 <= r < unit) by (nonlinear_arith)
        requires
            unit > 0,
            q == m / unit,
            r == m % unit,
    ;
    assert(q * unit <= 0x8000_0000_0000_0000 && (up ==> (q + 1) * unit <= 0x8000_0000_0000_0000)) by (nonlinear_arith)
        requires
            q * unit + r == m,
            0 <= r < unit,
            m <= 0x8000_0000_0000_0000,
            unit as int == double_unit(m as int),
            up ==> r > 0,
    {
        assert(m < unit * 0x20_0000_0000_0000 || m == 0x8000_0000_0000_0000);
    }
    if up {
        (q + 1) * unit
    } else {
        q * unit
    }
}

/// `v.as_f64().map(|f| f as i64)`.
pub fn num_as_i64_exec(v: Option<&JsVal>) -> (r: Option<i64>)
    ensures
        r == num_as_i64(opt_model(v)),
{
    match v {
        Some(JsVal::Num(JsNum::PosInt(u))) => {
            if *u >= 0x8000_0000_0000_0000 {
                assert(round_to_double(*u as int) >= 0x8000_0000_0000_0000) by (nonlinear_arith)
                    requires
                        *u >= 0x8000_0000_0000_0000,
                        *u < 0x1_0000_0000_0000_0000,
                ;
                assert(clamp_i64(round_to_double(*u as int)) == i64::MAX);
                Some(i64::MAX)
            } else {
                let d = round_to_double_exec(*u);
                if d == 0x8000_0000_0000_0000 {
                    assert(clamp_i64(round_to_double(*u as int)) == i64::MAX);
                    Some(i64::MAX)
                } else {
                    assert(clamp_i64(d as int) == d as i64);
                    Some(d as i64)
                }
            }
        },
        Some(JsVal::Num(JsNum::NegInt(i))) => {
            if *i < 0 {
                let m: u64 = if *i == i64::MIN {
                    0x8000_0000_0000_0000
                } else {
                    let neg: i64 = -*i;
                    neg as u64
                };
                let d = round_to_double_exec(m);
                if d == 0x8000_0000_0000_0000 {
                    Some(i64::MIN)
                } else {
                    Some(-(d as i64))
                }
            } else {
                let d = round_to_double_exec(*i as u64);
                if d == 0x8000_0000_0000_0000 {
                    Some(i64::MAX)
                } else {
                    Some(d as i64)
                }
            }
        },
        Some(JsVal::Num(JsNum::Float { bits, text: _ })) => Some(float_bits_to_i64(*bits)),
        _ => None,
    }
}


// ---------------------------------------------------------------------------
// Copies
// ---------------------------------------------------------------------------

fn clone_num(n: &JsNum) -> (r: JsNum)
    ensures
        r@ == n@,
{
    match n {
        JsNum::PosInt(u) => JsNum::PosInt(*u),
        JsNum::NegInt(i) => JsNum::NegInt(*i),
        JsNum::Float { bits, text } => JsNum::Float { bits: *bits, text: text.clone() },
    }
}

/// A deep copy of a value.
pub fn clone_js(v: &JsVal) -> (r: JsVal)
    ensures
        r@ == v@,
    decreases v,
{
    match v {
        JsVal::Null => JsVal::Null,
        JsVal::Nan => JsVal::Nan,
        JsVal::Inf => JsVal::Inf,
        JsVal::NegInf => JsVal::NegInf,
        JsVal::Bool(b) => JsVal::Bool(*b),
        JsVal::Num(n) => JsVal::Num(clone_num(n)),
        JsVal::Str(s) => JsVal::Str(s.clone()),
        JsVal::Arr(items) => {
            let mut out: Vec<JsVal> = Vec::new();
            let mut i: usize = 0;
            proof {
                lemma_items_view(items@);
            }
            while i < items.len()
                invariant
                    i <= items@.len(),
                    items_view(out@) == items_view(items@).subrange(0, i as int),
                    items_view(items@).len() == items@.len(),
                    forall|k: int| 0 <= k < items@.len() ==> #[trigger] items_view(items@)[k] == items@[k].model(),
                    forall|k: int| 0 <= k < items@.len() ==> decreases_to!(v => items@[k]),
                decreases items.len() - i,
            {
                let c = clone_js(&items[i]);
                let ghost prev = out@;
                out.push(c);
                assert(out@.drop_last() == prev);
                assert(items_view(out@) =~= items_view(items@).subrange(0, i + 1));
                i += 1;
            }
            assert(items_view(items@).subrange(0, items@.len() as int) =~= items_view(items@));
            JsVal::Arr(out)
        },
        JsVal::Obj(entries) => {
            let mut out: Vec<(String, JsVal)> = Vec::new();
            let mut i: usize = 0;
            proof {
                lemma_entries_view(entries@);
            }
            while i < entries.len()
                invariant
                    i <= entries@.len(),
                    entries_view(out@) == entries_view(entries@).subrange(0, i as int),
                    entries_view(entries@).len() == entries@.len(),
                    forall|k: int|
                        0 <= k < entries@.len() ==> #[trigger] entries_view(entries@)[k] == (
                            entries@[k].0@,
                            entries@[k].1.model(),
                        ),
                    forall|k: int| 0 <= k < entries@.len() ==> decreases_to!(v => entries@[k].1),
                decreases entries.len() - i,
            {
                let c = clone_js(&entries[i].1);
                let k = entries[i].0.clone();
                let ghost prev = out@;
                out.push((k, c));
                assert(out@.drop_last() == prev);
                assert(entries_view(out@) =~= entries_view(entries@).subrange(0, i + 1));
                i += 1;
            }
            assert(entries_view(entries@).subrange(0, entries@.len() as int) =~= entries_view(entries@));
            JsVal::Obj(out)
        },
    }
}

/// A string value holding the given characters.
pub fn str_val(v: &[char]) -> (r: JsVal)
    ensures
        r@ == JsModel::Str(v@),
{
    JsVal::Str(string_from_chars(v))
}

} // verus!
