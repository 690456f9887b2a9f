//! MessagePack values, read and written with the `rmpv` crate.
//!
//! [`Datum`] holds what a decoded value holds as plain data.  [`decode`] and
//! [`encode`] move between it and bytes; the walk over the value is verified here,
//! and only the byte format itself is `rmpv`'s.

use vstd::prelude::*;
use vstd::utf8::encode_utf8;

use crate::bytes::copy_slice;
use crate::number::{widen, widened};

verus! {

/// A MessagePack value.  Floating-point numbers are carried as their IEEE 754 bit
/// patterns.
#[derive(Debug)]
pub enum Datum {
    Nil,
    Boolean(bool),
    Unsigned(u64),
    /// A negative integer.
    Negative(i64),
    Float32(u32),
    Float64(u64),
    Text(String),
    /// A string element whose bytes are not UTF-8.
    MalformedText(Vec<u8>),
    Binary(Vec<u8>),
    Array(Vec<Datum>),
    Dictionary(Vec<(Datum, Datum)>),
    Extension(i8, Vec<u8>),
}

/// What a MessagePack value holds.
#[verifier::ext_equal]
pub ghost enum Model {
    Nil,
    Boolean(bool),
    Integer(int),
    Float32(u32),
    Float64(u64),
    Text(Seq<char>),
    MalformedText(Seq<u8>),
    Binary(Seq<u8>),
    Array(Seq<Model>),
    Dictionary(Seq<(Model, Model)>),
    Extension(i8, Seq<u8>),
}

impl Datum {
    pub open spec fn view(&self) -> Model
        decreases self,
    {
        match self {
            Datum::Nil => Model::Nil,
            Datum::Boolean(b) => Model::Boolean(*b),
            Datum::Unsigned(n) => Model::Integer(*n as int),
            Datum::Negative(n) => Model::Integer(*n as int),
            Datum::Float32(n) => Model::Float32(*n),
            Datum::Float64(n) => Model::Float64(*n),
            Datum::Text(t) => Model::Text(t@),
            Datum::MalformedText(v) => Model::MalformedText(v@),
            Datum::Binary(v) => Model::Binary(v@),
            Datum::Array(v) => Model::Array(
                Seq::new(
                    v@.len(),
                    |i: int| if 0 <= i < v@.len() { v@[i].view() } else { Model::Nil },
                ),
            ),
            Datum::Dictionary(v) => Model::Dictionary(
                Seq::new(
                    v@.len(),
                    |i: int|
                        if 0 <= i < v@.len() {
                            (v@[i].0.view(), v@[i].1.view())
                        } else {
                            (Model::Nil, Model::Nil)
                        },
                ),
            ),
            Datum::Extension(t, v) => Model::Extension(*t, v@),
        }
    }
}

/// What a sequence of values holds.
pub open spec fn models(s: Seq<Datum>) -> Seq<Model> {
    Seq::new(s.len(), |i: int| s[i]@)
}

/// What a sequence of key and value pairs holds.
pub open spec fn pair_models(s: Seq<(Datum, Datum)>) -> Seq<(Model, Model)> {
    Seq::new(s.len(), |i: int| (s[i].0@, s[i].1@))
}

/// The view of an array or a dictionary, by its elements.
pub proof fn lemma_view(v: &Datum)
    ensures
        v matches Datum::Array(items) ==> v@ == Model::Array(models(items@)),
        v matches Datum::Dictionary(items) ==> v@ == Model::Dictionary(pair_models(items@)),
{
    match v {
        Datum::Array(items) => {
            assert(v@->Array_0 =~= models(items@));
        },
        Datum::Dictionary(items) => {
            assert(v@->Dictionary_0 =~= pair_models(items@));
        },
        _ => {},
    }
}

/// Whether an integer element can hold `n`.
pub open spec fn is_integer(n: int) -> bool {
    -0x8000_0000_0000_0000 <= n < 0x1_0000_0000_0000_0000
}

/// The largest length that the format has room for.
pub const MAX_LENGTH: u64 = 0xffff_ffff;

/// Whether a value nests at most `depth` levels and every part of it has an
/// encoding that reads back as itself: integers in range, lengths that fit, no
/// malformed text and no extension.
pub open spec fn storable(m: Model, depth: nat) -> bool
    decreases depth,
{
    match m {
        Model::Nil => true,
        Model::Boolean(_) => true,
        Model::Integer(n) => is_integer(n),
        Model::Float32(_) => true,
        Model::Float64(_) => true,
        Model::Text(s) => encode_utf8(s).len() <= MAX_LENGTH,
        Model::MalformedText(_) => false,
        Model::Binary(s) => s.len() <= MAX_LENGTH,
        Model::Array(s) => depth > 0 && s.len() <= MAX_LENGTH && forall|i: int|
            0 <= i < s.len() ==> storable(#[trigger] s[i], (depth - 1) as nat),
        Model::Dictionary(s) => depth > 0 && s.len() <= MAX_LENGTH && forall|i: int|
            0 <= i < s.len() ==> storable((#[trigger] s[i]).0, (depth - 1) as nat) && storable(
                s[i].1,
                (depth - 1) as nat,
            ),
        Model::Extension(..) => false,
    }
}

/// How deeply a value may nest and still be read back: well inside the depth at
/// which `rmpv` stops.
pub const MAX_NESTING: u64 = 300;

// ---------------------------------------------------------------------------
// The outside value type.
// ---------------------------------------------------------------------------

/// `rmpv`'s decoded value.
#[verifier::external_type_specification]
#[verifier::external_body]
pub struct ExternalValue(rmpv::Value);

/// What an `rmpv` value holds.
pub uninterp spec fn held(v: rmpv::Value) -> Model;

/// What a sequence of `rmpv` values holds.
pub open spec fn held_all(s: Seq<rmpv::Value>) -> Seq<Model> {
    Seq::new(s.len(), |i: int| held(s[i]))
}

/// What a sequence of pairs of `rmpv` values holds.
pub open spec fn held_pairs(s: Seq<(rmpv::Value, rmpv::Value)>) -> Seq<(Model, Model)> {
    Seq::new(s.len(), |i: int| (held(s[i].0), held(s[i].1)))
}

/// The value at the start of some bytes and the bytes that follow it, as
/// `rmpv::decode::read_value` finds them; nothing where it reports an error.
pub uninterp spec fn parsed(data: Seq<u8>) -> Option<(Model, Seq<u8>)>;

/// The bytes that `rmpv::encode::write_value` writes for a value.
pub uninterp spec fn written(m: Model) -> Seq<u8>;

/// The 64-bit pattern of the number that `rmpv::Value::as_f64` returns for an integer.
pub uninterp spec fn float_bits(m: Model) -> Option<u64>;

/// The outermost layer of an `rmpv` value.
enum Layer {
    Nil,
    Boolean(bool),
    /// The integer as a `u64` and as an `i64`, where it fits.
    Integer(Option<u64>, Option<i64>),
    Float32(u32),
    Float64(u64),
    /// The text, where the bytes are UTF-8, and the bytes.
    Text(Option<String>, Vec<u8>),
    Binary(Vec<u8>),
    Array(Vec<rmpv::Value>),
    Dictionary(Vec<(rmpv::Value, rmpv::Value)>),
    Extension(i8, Vec<u8>),
}

/// Whether `m` is what a value with this outermost layer holds.
spec fn layer_holds(layer: Layer, m: Model) -> bool {
    match layer {
        Layer::Nil => m == Model::Nil,
        Layer::Boolean(b) => m == Model::Boolean(b),
        Layer::Integer(u, s) => {
            &&& m is Integer
            &&& is_integer(m->Integer_0)
            &&& u == (if m->Integer_0 >= 0 { Some(m->Integer_0 as u64) } else { None })
            &&& s == (if m->Integer_0 < 0x8000_0000_0000_0000 { Some(m->Integer_0 as i64) } else { None })
        },
        Layer::Float32(bits) => m == Model::Float32(bits),
        Layer::Float64(bits) => m == Model::Float64(bits),
        Layer::Text(Some(t), _) => m == Model::Text(t@),
        Layer::Text(None, bytes) => m == Model::MalformedText(bytes@),
        Layer::Binary(b) => m == Model::Binary(b@),
        Layer::Array(items) => m == Model::Array(held_all(items@)),
        Layer::Dictionary(items) => m == Model::Dictionary(held_pairs(items@)),
        Layer::Extension(t, b) => m == Model::Extension(t, b@),
    }
}

/// Takes the outermost layer off an `rmpv::Value`: one arm for each of its variants.
#[verifier::external_body]
fn peel(value: rmpv::Value) -> (layer: Layer)
    ensures
        layer_holds(layer, held(value)),
{
    match value {
        rmpv::Value::Nil => Layer::Nil,
        rmpv::Value::Boolean(b) => Layer::Boolean(b),
        rmpv::Value::Integer(n) => Layer::Integer(n.as_u64(), n.as_i64()),
        rmpv::Value::F32(x) => Layer::Float32(x.to_bits()),
        rmpv::Value::F64(x) => Layer::Float64(x.to_bits()),
        rmpv::Value::String(s) => Layer::Text(s.as_str().map(str::to_owned), s.into_bytes()),
        rmpv::Value::Binary(b) => Layer::Binary(b),
        rmpv::Value::Array(items) => Layer::Array(items),
        rmpv::Value::Map(items) => Layer::Dictionary(items),
        rmpv::Value::Ext(tag, b) => Layer::Extension(tag, b),
    }
}

/// `rmpv::decode::read_value` on a byte string: the value it reads and the bytes it
/// leaves unread, which name the result of that function on these bytes.
#[verifier::external_body]
fn read(data: &[u8]) -> (r: Option<(rmpv::Value, &[u8])>)
    ensures
        r is Some <==> parsed(data@) is Some,
        r matches Some((value, rest)) ==> parsed(data@) == Some((held(value), rest@)),
{
    let mut rest = data;
    match rmpv::decode::read_value(&mut rest) {
        Ok(value) => Some((value, rest)),
        Err(_) => None,
    }
}

/// `rmpv::encode::write_value` into a fresh byte string, which cannot fail.  What
/// it wrote, `rmpv::decode::read_value` reads back whole, for a value whose every
/// part the format has room for.  Every value takes at least its marker byte.
#[verifier::external_body]
fn write(value: &rmpv::Value) -> (out: Vec<u8>)
    ensures
        out@ == written(held(*value)),
        out@.len() > 0,
        storable(held(*value), MAX_NESTING as nat) ==> parsed(out@) == Some(
            (held(*value), Seq::<u8>::empty()),
        ),
{
    let mut out = Vec::new();
    let _ = rmpv::encode::write_value(&mut out, value);
    out
}

/// `rmpv::Value::as_f64` on an integer, as a bit pattern.  It answers on every integer.
#[verifier::external_body]
fn as_float(value: &rmpv::Value) -> (bits: Option<u64>)
    requires
        held(*value) is Integer,
    ensures
        bits == float_bits(held(*value)),
        bits is Some,
{
    value.as_f64().map(|x| x.to_bits())
}

/// `rmpv::Value::Nil`.
#[verifier::external_body]
fn make_nil() -> (v: rmpv::Value)
    ensures
        held(v) == Model::Nil,
{
    rmpv::Value::Nil
}

/// `rmpv::Value::Boolean`.
#[verifier::external_body]
fn make_boolean(b: bool) -> (v: rmpv::Value)
    ensures
        held(v) == Model::Boolean(b),
{
    rmpv::Value::Boolean(b)
}

/// `rmpv::Value::from` on a `u64`.
#[verifier::external_body]
fn make_unsigned(n: u64) -> (v: rmpv::Value)
    ensures
        held(v) == Model::Integer(n as int),
{
    rmpv::Value::from(n)
}

/// `rmpv::Value::from` on an `i64`.
#[verifier::external_body]
fn make_signed(n: i64) -> (v: rmpv::Value)
    ensures
        held(v) == Model::Integer(n as int),
{
    rmpv::Value::from(n)
}

/// The 32-bit number with this bit pattern, as `rmpv::decode::read_value` reads it
/// from its marker and its four bytes.
#[verifier::external_body]
fn make_float32(bits: u32) -> (v: rmpv::Value)
    ensures
        held(v) == Model::Float32(bits),
{
    let mut raw = vec![0xca];
    raw.extend(bits.to_be_bytes());
    rmpv::decode::read_value(&mut raw.as_slice()).unwrap_or(rmpv::Value::Nil)
}

/// The 64-bit number with this bit pattern, as `rmpv::decode::read_value` reads it
/// from its marker and its eight bytes.
#[verifier::external_body]
fn make_float64(bits: u64) -> (v: rmpv::Value)
    ensures
        held(v) == Model::Float64(bits),
{
    let mut raw = vec![0xcb];
    raw.extend(bits.to_be_bytes());
    rmpv::decode::read_value(&mut raw.as_slice()).unwrap_or(rmpv::Value::Nil)
}

/// `rmpv::Value::from` on a string.
#[verifier::external_body]
fn make_text(text: &str) -> (v: rmpv::Value)
    ensures
        held(v) == Model::Text(text@),
{
    rmpv::Value::from(text)
}

/// `rmpv::Value::Binary`.
#[verifier::external_body]
fn make_binary(bytes: Vec<u8>) -> (v: rmpv::Value)
    ensures
        held(v) == Model::Binary(bytes@),
{
    rmpv::Value::Binary(bytes)
}

/// `rmpv::Value::Array`.
#[verifier::external_body]
fn make_array(items: Vec<rmpv::Value>) -> (v: rmpv::Value)
    ensures
        held(v) == Model::Array(held_all(items@)),
{
    rmpv::Value::Array(items)
}

/// `rmpv::Value::Map`.
#[verifier::external_body]
fn make_dictionary(items: Vec<(rmpv::Value, rmpv::Value)>) -> (v: rmpv::Value)
    ensures
        held(v) == Model::Dictionary(held_pairs(items@)),
{
    rmpv::Value::Map(items)
}

/// `rmpv::Value::Ext`.
#[verifier::external_body]
fn make_extension(tag: i8, bytes: Vec<u8>) -> (v: rmpv::Value)
    ensures
        held(v) == Model::Extension(tag, bytes@),
{
    rmpv::Value::Ext(tag, bytes)
}

// ---------------------------------------------------------------------------
// The walk between the two representations.
// ---------------------------------------------------------------------------

/// The value that an `rmpv` value holds.
fn disassemble(value: rmpv::Value) -> (d: Datum)
    ensures
        d@ == held(value),
    decreases held(value),
{
    let ghost m = held(value);
    match peel(value) {
        Layer::Nil => Datum::Nil,
        Layer::Boolean(b) => Datum::Boolean(b),
        Layer::Integer(Some(n), _) => Datum::Unsigned(n),
        Layer::Integer(None, Some(n)) => Datum::Negative(n),
        Layer::Integer(None, None) => Datum::Nil,
        Layer::Float32(bits) => Datum::Float32(bits),
        Layer::Float64(bits) => Datum::Float64(bits),
        Layer::Text(Some(t), _) => Datum::Text(t),
        Layer::Text(None, bytes) => Datum::MalformedText(bytes),
        Layer::Binary(b) => Datum::Binary(b),
        Layer::Array(items) => {
            let ghost all = items@;
            let mut out: Vec<Datum> = Vec::new();
            for next in it: items
                invariant
                    m == Model::Array(held_all(all)),
                    m == held(value),
                    it.seq() == all,
                    out@.len() == it.index(),
                    models(out@) == held_all(all).take(it.index() as int),
            {
                assert(next == all[out@.len() as int]);
                assert(held(next) == m->Array_0[out@.len() as int]);
                assert(decreases_to!(m => m->Array_0[out@.len() as int]));
                out.push(disassemble(next));
            }
            let d = Datum::Array(out);
            proof {
                lemma_view(&d);
                assert(models(out@) =~= held_all(all));
            }
            d
        },
        Layer::Dictionary(items) => {
            let ghost all = items@;
            let mut out: Vec<(Datum, Datum)> = Vec::new();
            for next in it: items
                invariant
                    m == Model::Dictionary(held_pairs(all)),
                    m == held(value),
                    it.seq() == all,
                    out@.len() == it.index(),
                    pair_models(out@) == held_pairs(all).take(it.index() as int),
            {
                assert(next == all[out@.len() as int]);
                assert(held(next.0) == m->Dictionary_0[out@.len() as int].0);
                assert(held(next.1) == m->Dictionary_0[out@.len() as int].1);
                assert(decreases_to!(m => m->Dictionary_0[out@.len() as int].0));
                assert(decreases_to!(m => m->Dictionary_0[out@.len() as int].1));
                out.push((disassemble(next.0), disassemble(next.1)));
            }
            let d = Datum::Dictionary(out);
            proof {
                lemma_view(&d);
                assert(pair_models(out@) =~= held_pairs(all));
            }
            d
        },
        Layer::Extension(t, b) => Datum::Extension(t, b),
    }
}

/// A value as it is written: text that is not UTF-8 goes out as binary.
pub open spec fn plain(m: Model) -> Model
    decreases m,
{
    match m {
        Model::MalformedText(b) => Model::Binary(b),
        Model::Array(s) => Model::Array(
            Seq::new(
                s.len(),
                |i: int| if 0 <= i < s.len() { plain(s[i]) } else { Model::Nil },
            ),
        ),
        Model::Dictionary(s) => Model::Dictionary(
            Seq::new(
                s.len(),
                |i: int|
                    if 0 <= i < s.len() {
                        (plain(s[i].0), plain(s[i].1))
                    } else {
                        (Model::Nil, Model::Nil)
                    },
            ),
        ),
        _ => m,
    }
}

/// A value without malformed text is written as it is.
pub proof fn lemma_plain(m: Model, depth: nat)
    requires
        storable(m, depth),
    ensures
        plain(m) == m,
    decreases depth,
{
    match m {
        Model::Array(s) => {
            assert forall|i: int| 0 <= i < s.len() implies plain(#[trigger] s[i]) == s[i] by {
                lemma_plain(s[i], (depth - 1) as nat);
            }
            assert(plain(m)->Array_0 =~= s);
        },
        Model::Dictionary(s) => {
            assert forall|i: int| 0 <= i < s.len() implies plain((#[trigger] s[i]).0) == s[i].0
                && plain(s[i].1) == s[i].1 by {
                lemma_plain(s[i].0, (depth - 1) as nat);
                lemma_plain(s[i].1, (depth - 1) as nat);
            }
            assert(plain(m)->Dictionary_0 =~= s);
        },
        _ => {},
    }
}

/// The `rmpv` value that stands for a value, as it is written.
fn assemble(d: &Datum) -> (value: rmpv::Value)
    ensures
        held(value) == plain(d@),
    decreases d@,
{
    match d {
        Datum::Nil => make_nil(),
        Datum::Boolean(b) => make_boolean(*b),
        Datum::Unsigned(n) => make_unsigned(*n),
        Datum::Negative(n) => make_signed(*n),
        Datum::Float32(bits) => make_float32(*bits),
        Datum::Float64(bits) => make_float64(*bits),
        Datum::Text(t) => make_text(t.as_str()),
        Datum::MalformedText(b) => make_binary(copy_slice(b.as_slice())),
        Datum::Binary(b) => make_binary(copy_slice(b.as_slice())),
        Datum::Array(items) => {
            let mut out: Vec<rmpv::Value> = Vec::new();
            let mut i: usize = 0;
            while i < items.len()
                invariant
                    d == (Datum::Array(*items)),
                    i <= items@.len(),
                    out@.len() == i,
                    forall|j: int| 0 <= j < i ==> held(#[trigger] out@[j]) == plain(items@[j]@),
                decreases items@.len() - i,
            {
                proof {
                    lemma_view(d);
                    assert(items@[i as int]@ == d@->Array_0[i as int]);
                    assert(decreases_to!(d@ => d@->Array_0[i as int]));
                }
                out.push(assemble(&items[i]));
                i = i + 1;
            }
            proof {
                lemma_view(d);
                assert(held_all(out@) =~= plain(d@)->Array_0);
            }
            make_array(out)
        },
        Datum::Dictionary(items) => {
            let mut out: Vec<(rmpv::Value, rmpv::Value)> = Vec::new();
            let mut i: usize = 0;
            while i < items.len()
                invariant
                    d == (Datum::Dictionary(*items)),
                    i <= items@.len(),
                    out@.len() == i,
                    forall|j: int|
                        0 <= j < i ==> held((#[trigger] out@[j]).0) == plain(items@[j].0@) && held(
                            out@[j].1,
                        ) == plain(items@[j].1@),
                decreases items@.len() - i,
            {
                proof {
                    lemma_view(d);
                    assert(items@[i as int].0@ == d@->Dictionary_0[i as int].0);
                    assert(items@[i as int].1@ == d@->Dictionary_0[i as int].1);
                    assert(decreases_to!(d@ => d@->Dictionary_0[i as int].0));
                    assert(decreases_to!(d@ => d@->Dictionary_0[i as int].1));
                }
                let key = assemble(&items[i].0);
                let value = assemble(&items[i].1);
                out.push((key, value));
                i = i + 1;
            }
            proof {
                lemma_view(d);
                assert(held_pairs(out@) =~= plain(d@)->Dictionary_0);
            }
            make_dictionary(out)
        },
        Datum::Extension(t, b) => make_extension(*t, copy_slice(b.as_slice())),
    }
}

/// Reads the value at the start of `data`.  The bytes that follow it are the second
/// part of the result.
pub fn decode(data: &[u8]) -> (r: Option<(Datum, &[u8])>)
    ensures
        r is Some <==> parsed(data@) is Some,
        r matches Some((d, rest)) ==> parsed(data@) == Some((d@, rest@)),
{
    match read(data) {
        Some((value, rest)) => Some((disassemble(value), rest)),
        None => None,
    }
}

/// The bytes of a value.
pub open spec fn encoding(m: Model) -> Seq<u8> {
    written(plain(m))
}

/// Writes a value.
pub fn encode(d: &Datum) -> (out: Vec<u8>)
    ensures
        out@ == encoding(d@),
        out@.len() > 0,
        storable(d@, MAX_NESTING as nat) ==> parsed(out@) == Some((d@, Seq::<u8>::empty())),
{
    let value = assemble(d);
    proof {
        if storable(d@, MAX_NESTING as nat) {
            lemma_plain(d@, MAX_NESTING as nat);
        }
    }
    write(&value)
}

/// The 64-bit pattern of the number that a value holds, where it holds one.
pub open spec fn number(m: Model) -> Option<u64> {
    match m {
        Model::Float64(bits) => Some(bits),
        Model::Float32(bits) => Some(widened(bits)),
        Model::Integer(_) => float_bits(m),
        _ => None,
    }
}

impl Datum {
    /// The number that this value holds, as a 64-bit pattern.
    pub fn as_number(&self) -> (bits: Option<u64>)
        ensures
            bits == number(self@),
            bits is Some <==> (self@ is Integer || self@ is Float32 || self@ is Float64),
    {
        match self {
            Datum::Unsigned(_) | Datum::Negative(_) => as_float(&assemble(self)),
            Datum::Float32(bits) => Some(widen(*bits)),
            Datum::Float64(bits) => Some(*bits),
            _ => None,
        }
    }

    /// The bytes of a string or a binary element.
    pub fn as_bytes(&self) -> (r: Option<Vec<u8>>)
        ensures
            r is Some <==> raw_bytes(self@) is Some,
            r matches Some(b) ==> raw_bytes(self@) == Some(b@),
    {
        match self {
            Datum::Text(t) => Some(copy_slice(t.as_str().as_bytes())),
            Datum::MalformedText(b) => Some(copy_slice(b.as_slice())),
            Datum::Binary(b) => Some(copy_slice(b.as_slice())),
            _ => None,
        }
    }
}

/// The bytes of a string or a binary element.
pub open spec fn raw_bytes(m: Model) -> Option<Seq<u8>> {
    match m {
        Model::Text(t) => Some(encode_utf8(t)),
        Model::MalformedText(b) => Some(b),
        Model::Binary(b) => Some(b),
        _ => None,
    }
}

/// Whether an extension element occurs anywhere in a value.
pub open spec fn has_extension(m: Model) -> bool
    decreases m,
{
    match m {
        Model::Extension(..) => true,
        Model::Array(s) => exists|i: int|
            0 <= i < s.len() && has_extension(#[trigger] s[i]),
        Model::Dictionary(s) => exists|i: int|
            0 <= i < s.len() && (has_extension(#[trigger] s[i].0) || has_extension(s[i].1)),
        _ => false,
    }
}

/// A value as it is embedded in a payload: malformed text becomes empty text.
pub open spec fn embedded(m: Model) -> Model
    decreases m,
{
    match m {
        Model::MalformedText(_) => Model::Text(Seq::empty()),
        Model::Array(s) => Model::Array(
            Seq::new(
                s.len(),
                |i: int| if 0 <= i < s.len() { embedded(s[i]) } else { Model::Nil },
            ),
        ),
        Model::Dictionary(s) => Model::Dictionary(
            Seq::new(
                s.len(),
                |i: int|
                    if 0 <= i < s.len() {
                        (embedded(s[i].0), embedded(s[i].1))
                    } else {
                        (Model::Nil, Model::Nil)
                    },
            ),
        ),
        _ => m,
    }
}

/// A storable value is embedded as it is.
pub proof fn lemma_embedded(m: Model, depth: nat)
    requires
        storable(m, depth),
    ensures
        embedded(m) == m,
        !has_extension(m),
    decreases depth,
{
    match m {
        Model::Array(s) => {
            assert forall|i: int| 0 <= i < s.len() implies embedded(#[trigger] s[i]) == s[i]
                && !has_extension(s[i]) by {
                lemma_embedded(s[i], (depth - 1) as nat);
            }
            assert(embedded(m)->Array_0 =~= s);
        },
        Model::Dictionary(s) => {
            assert forall|i: int| 0 <= i < s.len() implies embedded((#[trigger] s[i]).0) == s[i].0
                && embedded(s[i].1) == s[i].1 && !has_extension(s[i].0) && !has_extension(
                s[i].1,
            ) by {
                lemma_embedded(s[i].0, (depth - 1) as nat);
                lemma_embedded(s[i].1, (depth - 1) as nat);
            }
            assert(embedded(m)->Dictionary_0 =~= s);
        },
        _ => {},
    }
}

/// The embedded form of a value; a value with an extension in it has none.
pub fn embed(d: &Datum) -> (r: Option<Datum>)
    ensures
        r is None <==> has_extension(d@),
        r matches Some(e) ==> e@ == embedded(d@),
    decreases d@,
{
    match d {
        Datum::Nil => Some(Datum::Nil),
        Datum::Boolean(b) => Some(Datum::Boolean(*b)),
        Datum::Unsigned(n) => Some(Datum::Unsigned(*n)),
        Datum::Negative(n) => Some(Datum::Negative(*n)),
        Datum::Float32(bits) => Some(Datum::Float32(*bits)),
        Datum::Float64(bits) => Some(Datum::Float64(*bits)),
        Datum::Text(t) => Some(Datum::Text(t.clone())),
        Datum::MalformedText(_) => Some(Datum::Text(String::new())),
        Datum::Binary(b) => Some(Datum::Binary(copy_slice(b.as_slice()))),
        Datum::Array(items) => {
            let mut out: Vec<Datum> = Vec::new();
            let mut i: usize = 0;
            while i < items.len()
                invariant
                    d == (Datum::Array(*items)),
                    i <= items@.len(),
                    out@.len() == i,
                    forall|j: int| 0 <= j < i ==> (#[trigger] out@[j])@ == embedded(items@[j]@),
                    forall|j: int| 0 <= j < i ==> !has_extension(#[trigger] items@[j]@),
                decreases items@.len() - i,
            {
                proof {
                    lemma_view(d);
                    assert(items@[i as int]@ == d@->Array_0[i as int]);
                    assert(decreases_to!(d@ => d@->Array_0[i as int]));
                }
                match embed(&items[i]) {
                    Some(e) => out.push(e),
                    None => {
                        assert(has_extension(d@->Array_0[i as int]));
                        return None;
                    },
                }
                i = i + 1;
            }
            let r = Datum::Array(out);
            proof {
                lemma_view(d);
                lemma_view(&r);
                assert(r@->Array_0 =~= embedded(d@)->Array_0);
                assert forall|j: int| 0 <= j < d@->Array_0.len() implies !has_extension(
                    #[trigger] d@->Array_0[j],
                ) by {
                    assert(!has_extension(items@[j]@));
                }
            }
            Some(r)
        },
        Datum::Dictionary(items) => {
            let mut out: Vec<(Datum, Datum)> = Vec::new();
            let mut i: usize = 0;
            while i < items.len()
                invariant
                    d == (Datum::Dictionary(*items)),
                    i <= items@.len(),
                    out@.len() == i,
                    forall|j: int|
                        0 <= j < i ==> (#[trigger] out@[j]).0@ == embedded(items@[j].0@)
                            && out@[j].1@ == embedded(items@[j].1@),
                    forall|j: int|
                        0 <= j < i ==> !has_extension((#[trigger] items@[j]).0@) && !has_extension(
                            items@[j].1@,
                        ),
                decreases items@.len() - i,
            {
                proof {
                    lemma_view(d);
                    assert(items@[i as int].0@ == d@->Dictionary_0[i as int].0);
                    assert(items@[i as int].1@ == d@->Dictionary_0[i as int].1);
                    assert(decreases_to!(d@ => d@->Dictionary_0[i as int].0));
                    assert(decreases_to!(d@ => d@->Dictionary_0[i as int].1));
                }
                match (embed(&items[i].0), embed(&items[i].1)) {
                    (Some(k), Some(v)) => out.push((k, v)),
                    _ => {
                        assert(has_extension(d@->Dictionary_0[i as int].0) || has_extension(
                            d@->Dictionary_0[i as int].1,
                        ));
                        return None;
                    },
                }
                i = i + 1;
            }
            let r = Datum::Dictionary(out);
            proof {
                lemma_view(d);
                lemma_view(&r);
                assert(r@->Dictionary_0 =~= embedded(d@)->Dictionary_0);
                assert forall|j: int| 0 <= j < d@->Dictionary_0.len() implies !(has_extension(
                    #[trigger] d@->Dictionary_0[j].0,
                ) || has_extension(d@->Dictionary_0[j].1)) by {
                    assert(!has_extension(items@[j].0@));
                }
            }
            Some(r)
        },
        Datum::Extension(..) => None,
    }
}

} // verus!
