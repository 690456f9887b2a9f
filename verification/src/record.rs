//! Records in MessagePack: the fields of a structure in order, or under their names.

use vstd::prelude::*;
use vstd::utf8::{decode_utf8, encode_utf8, valid_utf8};

use crate::bytes::{copy_slice, slices_equal};
use crate::msgpack::{lemma_view, models, pair_models, Datum, Model};

verus! {

/// `String::from_utf8`: the text of bytes that are UTF-8, and nothing for others.
#[verifier::external_body]
fn outside_text(bytes: Vec<u8>) -> (r: Option<String>)
    ensures
        r is Some <==> valid_utf8(bytes@),
        r matches Some(t) ==> t@ == decode_utf8(bytes@),
{
    String::from_utf8(bytes).ok()
}

// ---------------------------------------------------------------------------
// Elements of one type.
// ---------------------------------------------------------------------------

/// The integer in an element, where it lies between zero and `limit`.
pub open spec fn whole(m: Model, limit: int) -> Option<int> {
    match m {
        Model::Integer(n) => if 0 <= n <= limit {
            Some(n)
        } else {
            None
        },
        _ => None,
    }
}

/// Whether every element is a byte.
pub open spec fn all_bytes(s: Seq<Model>) -> bool {
    forall|i: int| 0 <= i < s.len() ==> whole(#[trigger] s[i], 255) is Some
}

/// The byte string in a binary element or in an array of bytes.
pub open spec fn octets(m: Model) -> Option<Seq<u8>> {
    match m {
        Model::Binary(b) => Some(b),
        Model::Array(s) => if all_bytes(s) {
            Some(Seq::new(s.len(), |i: int| whole(s[i], 255)->0 as u8))
        } else {
            None
        },
        _ => None,
    }
}

/// The byte string in an element that holds raw bytes; a string element that is not
/// UTF-8 counts as its bytes.
pub open spec fn raw_octets(m: Model) -> Option<Seq<u8>> {
    match m {
        Model::MalformedText(b) => Some(b),
        _ => octets(m),
    }
}

/// The text in a string element, or in a binary element that is UTF-8.
pub open spec fn text(m: Model) -> Option<Seq<char>> {
    match m {
        Model::Text(t) => Some(t),
        Model::Binary(b) => if valid_utf8(b) {
            Some(decode_utf8(b))
        } else {
            None
        },
        _ => None,
    }
}

/// The truth value in an element.
pub open spec fn truth(m: Model) -> Option<bool> {
    match m {
        Model::Boolean(b) => Some(b),
        _ => None,
    }
}

/// The array of bytes that a byte string is written as.
pub open spec fn byte_array(b: Seq<u8>) -> Model {
    Model::Array(Seq::new(b.len(), |i: int| Model::Integer(b[i] as int)))
}

/// The integer in an element.
pub fn read_whole(d: &Datum, limit: u64) -> (r: Option<u64>)
    ensures
        r is Some <==> whole(d@, limit as int) is Some,
        r matches Some(n) ==> whole(d@, limit as int) == Some(n as int),
        r matches Some(n) ==> n <= limit,
{
    match d {
        Datum::Unsigned(n) => if *n <= limit {
            Some(*n)
        } else {
            None
        },
        Datum::Negative(n) => if *n >= 0 && *n as u64 <= limit {
            Some(*n as u64)
        } else {
            None
        },
        _ => None,
    }
}

/// The byte string in an element.
pub fn read_octets(d: &Datum) -> (r: Option<Vec<u8>>)
    ensures
        r is Some <==> octets(d@) is Some,
        r matches Some(b) ==> octets(d@) == Some(b@),
{
    match d {
        Datum::Binary(b) => Some(copy_slice(b.as_slice())),
        Datum::Array(items) => {
            proof {
                lemma_view(d);
            }
            let mut out: Vec<u8> = Vec::new();
            let mut i: usize = 0;
            while i < items.len()
                invariant
                    i <= items@.len(),
                    out@.len() == i,
                    d@ == Model::Array(models(items@)),
                    forall|j: int|
                        0 <= j < i ==> whole(models(items@)[j], 255) == Some(
                            #[trigger] out@[j] as int,
                        ),
                decreases items@.len() - i,
            {
                assert(models(items@)[i as int] == items@[i as int]@);
                match read_whole(&items[i], 255) {
                    Some(n) => out.push(n as u8),
                    None => {
                        return None;
                    },
                }
                i = i + 1;
            }
            proof {
                let s = models(items@);
                assert forall|j: int| 0 <= j < s.len() implies whole(#[trigger] s[j], 255) is Some by {
                    assert(whole(s[j], 255) == Some(out@[j] as int));
                }
                assert(octets(d@)->0 =~= out@);
            }
            Some(out)
        },
        _ => None,
    }
}

/// The byte string in an element that holds raw bytes.
pub fn read_raw_octets(d: &Datum) -> (r: Option<Vec<u8>>)
    ensures
        r is Some <==> raw_octets(d@) is Some,
        r matches Some(b) ==> raw_octets(d@) == Some(b@),
{
    match d {
        Datum::MalformedText(b) => Some(copy_slice(b.as_slice())),
        _ => read_octets(d),
    }
}

/// The text in an element.
pub fn read_text(d: &Datum) -> (r: Option<String>)
    ensures
        r is Some <==> text(d@) is Some,
        r matches Some(t) ==> text(d@) == Some(t@),
{
    match d {
        Datum::Text(t) => Some(t.clone()),
        Datum::Binary(b) => outside_text(copy_slice(b.as_slice())),
        _ => None,
    }
}

/// The truth value in an element.
pub fn read_truth(d: &Datum) -> (r: Option<bool>)
    ensures
        r == truth(d@),
{
    match d {
        Datum::Boolean(b) => Some(*b),
        _ => None,
    }
}

/// Writes a byte string as an array of bytes.
pub fn write_byte_array(b: &[u8]) -> (d: Datum)
    ensures
        d@ == byte_array(b@),
{
    let mut items: Vec<Datum> = Vec::new();
    let mut i: usize = 0;
    while i < b.len()
        invariant
            i <= b@.len(),
            items@.len() == i,
            forall|j: int| 0 <= j < i ==> (#[trigger] items@[j])@ == Model::Integer(b@[j] as int),
        decreases b@.len() - i,
    {
        items.push(Datum::Unsigned(b[i] as u64));
        i = i + 1;
    }
    let d = Datum::Array(items);
    proof {
        lemma_view(&d);
        assert(models(items@) =~= byte_array(b@)->Array_0);
    }
    d
}

/// A byte string is read back from the array that it is written as.
pub proof fn lemma_byte_array(b: Seq<u8>)
    ensures
        octets(byte_array(b)) == Some(b),
{
    let s = byte_array(b)->Array_0;
    assert(all_bytes(s));
    assert(octets(byte_array(b))->0 =~= b);
}

// ---------------------------------------------------------------------------
// Records.
// ---------------------------------------------------------------------------

/// The place of a field among the names of a record; nothing for a name that is not
/// among them.
pub open spec fn place(names: Seq<Seq<char>>, name: Seq<u8>) -> Option<int> {
    if exists|i: int| 0 <= i < names.len() && encode_utf8(#[trigger] names[i]) == name {
        Some(choose|i: int| 0 <= i < names.len() && encode_utf8(#[trigger] names[i]) == name)
    } else {
        None
    }
}

/// What a key of a record says: not a key at all, an unknown field, or the field at a
/// place.
pub ghost enum KeyKind {
    NoKey,
    UnknownField,
    Field(int),
}

/// What a key of a record says.
pub open spec fn key_kind(names: Seq<Seq<char>>, key: Model) -> KeyKind {
    match key {
        Model::Text(t) => match place(names, encode_utf8(t)) {
            Some(i) => KeyKind::Field(i),
            None => KeyKind::UnknownField,
        },
        Model::Binary(b) => match place(names, b) {
            Some(i) => KeyKind::Field(i),
            None => KeyKind::UnknownField,
        },
        Model::MalformedText(b) => KeyKind::UnknownField,
        Model::Integer(n) => if n < 0 {
            KeyKind::NoKey
        } else if n < names.len() {
            KeyKind::Field(n)
        } else {
            KeyKind::UnknownField
        },
        _ => KeyKind::NoKey,
    }
}

/// The fields of a record that is written under names, by their places.  Nothing where
/// a key is none or a field occurs twice.
pub open spec fn named_fields(names: Seq<Seq<char>>, d: Seq<(Model, Model)>) -> Option<
    Seq<Option<Model>>,
>
    decreases d.len(),
{
    if d.len() == 0 {
        Some(Seq::new(names.len(), |i: int| None::<Model>))
    } else {
        match named_fields(names, d.drop_last()) {
            None => None,
            Some(fields) => match key_kind(names, d.last().0) {
                KeyKind::NoKey => None,
                KeyKind::UnknownField => Some(fields),
                KeyKind::Field(i) => if fields[i] is Some {
                    None
                } else {
                    Some(fields.update(i, Some(d.last().1)))
                },
            },
        }
    }
}

/// The fields of a record, by their places.
pub open spec fn record_fields(names: Seq<Seq<char>>, m: Model) -> Option<Seq<Option<Model>>> {
    match m {
        Model::Array(s) => if s.len() == names.len() {
            Some(Seq::new(s.len(), |i: int| Some(s[i])))
        } else {
            None
        },
        Model::Dictionary(d) => named_fields(names, d),
        _ => None,
    }
}

/// The names of a list, as text.
pub open spec fn texts(names: Seq<&'static str>) -> Seq<Seq<char>> {
    Seq::new(names.len(), |i: int| names[i]@)
}

/// What a list of optional elements holds.
pub open spec fn slots(s: Seq<Option<&Datum>>) -> Seq<Option<Model>> {
    Seq::new(
        s.len(),
        |i: int|
            match s[i] {
                Some(d) => Some(d@),
                None => None,
            },
    )
}

/// Whether the names of a record differ from each other.
pub open spec fn distinct_names(names: Seq<Seq<char>>) -> bool {
    forall|i: int, j: int| 0 <= i < j < names.len() ==> #[trigger] names[i] != #[trigger] names[j]
}

proof fn lemma_place(names: Seq<Seq<char>>, i: int)
    requires
        distinct_names(names),
        0 <= i < names.len(),
    ensures
        place(names, encode_utf8(names[i])) == Some(i),
{
    let name = encode_utf8(names[i]);
    let j = choose|j: int| 0 <= j < names.len() && encode_utf8(#[trigger] names[j]) == name;
    vstd::utf8::encode_utf8_decode_utf8(names[i]);
    vstd::utf8::encode_utf8_decode_utf8(names[j]);
    assert(names[i] == names[j]);
}

fn find_place(names: &Vec<&'static str>, name: &[u8]) -> (r: Option<usize>)
    requires
        distinct_names(texts(names@)),
    ensures
        r is Some <==> place(texts(names@), name@) is Some,
        r matches Some(i) ==> place(texts(names@), name@) == Some(i as int) && i < names@.len(),
{
    let mut i: usize = 0;
    while i < names.len()
        invariant
            i <= names@.len(),
            distinct_names(texts(names@)),
            forall|j: int| 0 <= j < i ==> encode_utf8(#[trigger] texts(names@)[j]) != name@,
        decreases names@.len() - i,
    {
        assert(texts(names@)[i as int] == names@[i as int]@);
        if slices_equal(names[i].as_bytes(), name) {
            proof {
                lemma_place(texts(names@), i as int);
            }
            return Some(i);
        }
        i = i + 1;
    }
    None
}

/// What a key of a record says.
enum Key {
    NoKey,
    UnknownField,
    Field(usize),
}

fn read_key(names: &Vec<&'static str>, key: &Datum) -> (r: Key)
    requires
        distinct_names(texts(names@)),
    ensures
        match r {
            Key::NoKey => key_kind(texts(names@), key@) is NoKey,
            Key::UnknownField => key_kind(texts(names@), key@) is UnknownField,
            Key::Field(i) => key_kind(texts(names@), key@) == KeyKind::Field(i as int) && i
                < names@.len(),
        },
{
    match key {
        Datum::Text(t) => match find_place(names, t.as_str().as_bytes()) {
            Some(i) => Key::Field(i),
            None => Key::UnknownField,
        },
        Datum::Binary(b) => match find_place(names, b.as_slice()) {
            Some(i) => Key::Field(i),
            None => Key::UnknownField,
        },
        Datum::MalformedText(_) => Key::UnknownField,
        Datum::Unsigned(n) => if *n < names.len() as u64 {
            Key::Field(*n as usize)
        } else {
            Key::UnknownField
        },
        Datum::Negative(n) => if *n < 0 {
            Key::NoKey
        } else if (*n as u64) < names.len() as u64 {
            Key::Field(*n as usize)
        } else {
            Key::UnknownField
        },
        _ => Key::NoKey,
    }
}

/// The fields of a record, by their places.
pub fn read_record<'a>(names: &Vec<&'static str>, value: &'a Datum) -> (r: Option<
    Vec<Option<&'a Datum>>,
>)
    requires
        distinct_names(texts(names@)),
    ensures
        r is Some <==> record_fields(texts(names@), value@) is Some,
        r matches Some(fields) ==> record_fields(texts(names@), value@) == Some(slots(fields@))
            && fields@.len() == names@.len(),
{
    proof {
        lemma_view(value);
    }
    match value {
        Datum::Array(items) => {
            if items.len() != names.len() {
                return None;
            }
            let mut fields: Vec<Option<&'a Datum>> = Vec::new();
            let mut i: usize = 0;
            while i < items.len()
                invariant
                    i <= items@.len(),
                    fields@.len() == i,
                    forall|j: int|
                        0 <= j < i ==> (#[trigger] fields@[j]) == Some(&items@[j]),
                decreases items@.len() - i,
            {
                fields.push(Some(&items[i]));
                i = i + 1;
            }
            assert(slots(fields@) =~= record_fields(texts(names@), value@)->0);
            Some(fields)
        },
        Datum::Dictionary(entries) => {
            let ghost all = pair_models(entries@);
            let mut fields: Vec<Option<&'a Datum>> = Vec::new();
            let mut n: usize = 0;
            while n < names.len()
                invariant
                    n <= names@.len(),
                    fields@.len() == n,
                    forall|j: int| 0 <= j < n ==> (#[trigger] fields@[j]) is None,
                decreases names@.len() - n,
            {
                fields.push(None);
                n = n + 1;
            }
            assert(slots(fields@) =~= named_fields(texts(names@), all.take(0))->0);
            let mut i: usize = 0;
            while i < entries.len()
                invariant
                    i <= entries@.len(),
                    all == pair_models(entries@),
                    value@ == Model::Dictionary(all),
                    distinct_names(texts(names@)),
                    fields@.len() == names@.len(),
                    named_fields(texts(names@), all.take(i as int)) == Some(slots(fields@)),
                decreases entries@.len() - i,
            {
                proof {
                    assert(all.take(i + 1).drop_last() =~= all.take(i as int));
                    assert(all.take(i + 1).last() == all[i as int]);
                }
                let ghost before = fields@;
                match read_key(names, &entries[i].0) {
                    Key::NoKey => {
                        proof {
                            lemma_named_fields_none(texts(names@), all, i + 1);
                        }
                        return None;
                    },
                    Key::UnknownField => {},
                    Key::Field(place) => {
                        assert(slots(before)[place as int] is Some == before[place as int] is Some);
                        if fields[place].is_some() {
                            proof {
                                lemma_named_fields_none(texts(names@), all, i + 1);
                            }
                            return None;
                        }
                        fields.set(place, Some(&entries[i].1));
                        assert(slots(fields@) =~= slots(before).update(
                            place as int,
                            Some(all[i as int].1),
                        ));
                    },
                }
                i = i + 1;
            }
            assert(all.take(i as int) =~= all);
            Some(fields)
        },
        _ => None,
    }
}

/// Where the start of a dictionary is no record, the whole is none.
proof fn lemma_named_fields_none(names: Seq<Seq<char>>, d: Seq<(Model, Model)>, n: int)
    requires
        0 <= n <= d.len(),
        named_fields(names, d.take(n)) is None,
    ensures
        named_fields(names, d) is None,
    decreases d.len() - n,
{
    if n < d.len() {
        assert(d.take(n + 1).drop_last() =~= d.take(n));
        lemma_named_fields_none(names, d, n + 1);
    } else {
        assert(d.take(n) =~= d);
    }
}

/// The dictionary that a record is written as under names.
pub open spec fn named_record(names: Seq<Seq<char>>, values: Seq<Model>) -> Model {
    Model::Dictionary(Seq::new(values.len(), |i: int| (Model::Text(names[i]), values[i])))
}

/// A record is read back from what it is written as under names.
pub proof fn lemma_named_record(names: Seq<Seq<char>>, values: Seq<Model>)
    requires
        distinct_names(names),
        names.len() == values.len(),
    ensures
        record_fields(names, named_record(names, values)) == Some(
            Seq::new(values.len(), |i: int| Some(values[i])),
        ),
{
    let d = named_record(names, values)->Dictionary_0;
    lemma_named_prefix(names, values, values.len() as int);
    assert(d.take(values.len() as int) =~= d);
    assert(named_fields(names, d)->0 =~= Seq::new(values.len(), |i: int| Some(values[i])));
}

proof fn lemma_named_prefix(names: Seq<Seq<char>>, values: Seq<Model>, n: int)
    requires
        distinct_names(names),
        names.len() == values.len(),
        0 <= n <= values.len(),
    ensures
        named_fields(names, named_record(names, values)->Dictionary_0.take(n)) == Some(
            Seq::new(
                values.len(),
                |i: int|
                    if i < n {
                        Some(values[i])
                    } else {
                        None
                    },
            ),
        ),
    decreases n,
{
    let d = named_record(names, values)->Dictionary_0;
    let at = |k: int|
        Seq::new(
            values.len(),
            |i: int|
                if i < k {
                    Some(values[i])
                } else {
                    None
                },
        );
    if n > 0 {
        lemma_named_prefix(names, values, n - 1);
        assert(d.take(n).drop_last() =~= d.take(n - 1));
        lemma_place(names, n - 1);
        assert(named_fields(names, d.take(n))->0 =~= at(n - 1).update(n - 1, Some(values[n - 1])));
        assert(at(n - 1).update(n - 1, Some(values[n - 1])) =~= at(n));
    } else {
        assert(named_fields(names, d.take(0))->0 =~= at(0));
    }
}

// ---------------------------------------------------------------------------
// How records are read.
// ---------------------------------------------------------------------------

/// Elements are read as what they hold, and as nothing where they hold something else: an integer
/// within its limit, bytes or a list of bytes, text in either form, a truth value.
pub proof fn elements_are_read_by_type(m: Model, limit: int, t: Seq<char>, b: Seq<u8>)
    ensures
        whole(m, limit) is Some <==> m is Integer && 0 <= m->Integer_0 <= limit,
        whole(m, limit) matches Some(n) ==> m == Model::Integer(n),
        octets(Model::Binary(b)) == Some(b),
        octets(byte_array(b)) == Some(b),
        octets(m) is Some ==> m is Binary || m is Array,
        m matches Model::Array(s) ==> (octets(m) is Some <==> forall|i: int|
            0 <= i < s.len() ==> (#[trigger] s[i]) is Integer && 0 <= s[i]->Integer_0 <= 255),
        m matches Model::MalformedText(raw) ==> raw_octets(m) == Some(raw),
        !(m is MalformedText) ==> raw_octets(m) == octets(m),
        text(Model::Text(t)) == Some(t),
        text(Model::Binary(encode_utf8(t))) == Some(t),
        text(m) is Some ==> m is Text || m is Binary,
        truth(m) is Some <==> m is Boolean,
        truth(m) matches Some(v) ==> m == Model::Boolean(v),
{
    lemma_byte_array(b);
    vstd::utf8::encode_utf8_valid_utf8(t);
    vstd::utf8::encode_utf8_decode_utf8(t);
    if let Model::Array(s) = m {
        if all_bytes(s) {
            assert forall|i: int| 0 <= i < s.len() implies (#[trigger] s[i]) is Integer && 0
                <= s[i]->Integer_0 <= 255 by {
                assert(whole(s[i], 255) is Some);
            }
        } else {
            let i = choose|i: int| 0 <= i < s.len() && !(whole(#[trigger] s[i], 255) is Some);
            assert(!(s[i] is Integer && 0 <= s[i]->Integer_0 <= 255));
        }
    }
}

/// A field is named by its name, as text or as bytes, or by its place; a name that is not among
/// them is passed over, and what can be no name is refused.
pub proof fn fields_are_named(names: Seq<Seq<char>>, i: int, key: Model)
    requires
        distinct_names(names),
    ensures
        0 <= i < names.len() ==> key_kind(names, Model::Text(names[i])) == KeyKind::Field(i)
            && key_kind(names, Model::Binary(encode_utf8(names[i]))) == KeyKind::Field(i)
            && key_kind(names, Model::Integer(i)) == KeyKind::Field(i),
        i >= names.len() ==> key_kind(names, Model::Integer(i)) is UnknownField,
        i < 0 ==> key_kind(names, Model::Integer(i)) is NoKey,
        key matches Model::Text(t) ==> (!names.contains(t) ==> key_kind(names, key)
            is UnknownField),
        key is MalformedText ==> key_kind(names, key) is UnknownField,
        !(key is Text || key is Binary || key is MalformedText || key is Integer) ==> key_kind(
            names,
            key,
        ) is NoKey,
{
    if 0 <= i < names.len() {
        lemma_place(names, i);
    }
    if let Model::Text(t) = key {
        if place(names, encode_utf8(t)) is Some {
            let j = choose|j: int|
                0 <= j < names.len() && encode_utf8(#[trigger] names[j]) == encode_utf8(t);
            vstd::utf8::encode_utf8_decode_utf8(t);
            vstd::utf8::encode_utf8_decode_utf8(names[j]);
            assert(names[j] == t);
        }
    }
}

/// Every entry under the name of a field gives that field, and a field comes from an entry; a
/// record in which a field occurs twice, or a key is none, is refused.
pub proof fn entries_give_their_fields(
    names: Seq<Seq<char>>,
    d: Seq<(Model, Model)>,
    e: int,
    g: int,
    i: int,
)
    requires
        0 <= i < names.len(),
    ensures
        0 <= e < g < d.len() && key_kind(names, d[e].0) == KeyKind::Field(i) && key_kind(
            names,
            d[g].0,
        ) == KeyKind::Field(i) ==> named_fields(names, d) is None,
        named_fields(names, d) matches Some(f) ==> {
            &&& f.len() == names.len()
            &&& 0 <= e < d.len() && key_kind(names, d[e].0) == KeyKind::Field(i) ==> f[i] == Some(
                d[e].1,
            )
            &&& f[i] is Some ==> exists|j: int|
                0 <= j < d.len() && key_kind(names, (#[trigger] d[j]).0) == KeyKind::Field(i)
                    && f[i] == Some(d[j].1)
            &&& 0 <= e < d.len() ==> !(key_kind(names, d[e].0) is NoKey)
        },
    decreases d.len(),
{
    if d.len() > 0 {
        let front = d.drop_last();
        entries_give_their_fields(names, front, e, g, i);
        assert(forall|j: int| 0 <= j < front.len() ==> #[trigger] front[j] == d[j]);
        if let Some(f) = named_fields(names, d) {
            let before = named_fields(names, front)->0;
            if 0 <= e < front.len() {
                assert(front[e] == d[e]);
            }
            if f[i] is Some {
                if key_kind(names, d.last().0) == KeyKind::Field(i) {
                    assert(key_kind(names, d[d.len() - 1].0) == KeyKind::Field(i));
                } else {
                    assert(before[i] == f[i]);
                    let j = choose|j: int|
                        0 <= j < front.len() && key_kind(names, (#[trigger] front[j]).0)
                            == KeyKind::Field(i) && before[i] == Some(front[j].1);
                    assert(d[j] == front[j]);
                }
            }
        }
    }
}

/// A record without names has all its fields, each in its place.
pub proof fn fields_have_their_places(names: Seq<Seq<char>>, m: Model)
    ensures
        m matches Model::Array(s) ==> (record_fields(names, m) is Some <==> s.len() == names.len())
            && (record_fields(names, m) matches Some(f) ==> f.len() == s.len() && forall|i: int|
            0 <= i < s.len() ==> #[trigger] f[i] == Some(s[i])),
        m matches Model::Dictionary(d) ==> record_fields(names, m) == named_fields(names, d),
        !(m is Array || m is Dictionary) ==> record_fields(names, m) is None,
{
}

} // verus!
