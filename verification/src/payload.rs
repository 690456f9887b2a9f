//! The message payload: `[timestamp, title, content, fields, stamp?]`.
//!
//! Title and content travel as binary elements.  A field holds bytes, which travel
//! as a binary element, or is *native*: its bytes are one encoded MessagePack value,
//! which travels as that value.

use vstd::prelude::*;
use vstd::utf8::{decode_utf8, encode_utf8, valid_utf8};

use crate::bytes::copy_slice;
use crate::constants::TICKET_LENGTH;
use crate::fields::{FieldIds, FieldMap};
use crate::msgpack::{
    decode, embed, embedded, encode, encoding, has_extension, lemma_view, models, number,
    pair_models, parsed, storable, Datum, Model, MAX_NESTING,
};

verus! {

/// The text that `String::from_utf8_lossy` makes of a byte string.
pub uninterp spec fn lossy(bytes: Seq<u8>) -> Seq<char>;

/// `String::from_utf8_lossy`: bytes that are UTF-8 are that text; what it puts in the
/// place of other bytes is left to it.
#[verifier::external_body]
fn outside_lossy(bytes: &[u8]) -> (t: String)
    ensures
        t@ == lossy(bytes@),
        valid_utf8(bytes@) ==> t@ == decode_utf8(bytes@),
{
    String::from_utf8_lossy(bytes).into_owned()
}

/// What a payload holds.
pub ghost struct PayloadModel {
    /// The bit pattern of the seconds since the Unix epoch.
    pub timestamp: u64,
    pub title: Seq<char>,
    pub content: Seq<char>,
    pub fields: Map<u8, Seq<u8>>,
    /// The fields that hold an encoded value.
    pub native: Set<u8>,
    pub stamp: Option<Seq<u8>>,
}

/// A decoded payload.
#[derive(Debug)]
pub struct MessagePayload {
    /// The bit pattern of the seconds since the Unix epoch.
    pub timestamp: u64,
    pub title: String,
    pub content: String,
    pub fields: FieldMap,
    /// The fields that hold an encoded value.
    pub msgpack_field_ids: FieldIds,
    pub stamp: Option<Vec<u8>>,
}

impl View for MessagePayload {
    type V = PayloadModel;

    open spec fn view(&self) -> PayloadModel {
        PayloadModel {
            timestamp: self.timestamp,
            title: self.title@,
            content: self.content@,
            fields: self.fields@,
            native: self.msgpack_field_ids@,
            stamp: opt_view(self.stamp),
        }
    }
}

/// The bytes of an optional byte string.
pub open spec fn opt_view(o: Option<Vec<u8>>) -> Option<Seq<u8>> {
    match o {
        Some(v) => Some(v@),
        None => None,
    }
}

// ---------------------------------------------------------------------------
// Writing.
// ---------------------------------------------------------------------------

/// The element that a field is written as; a native field whose bytes are no value,
/// or hold an extension, has none.
pub open spec fn field_element(data: Seq<u8>, native: bool) -> Option<Model> {
    if native {
        match parsed(data) {
            Some((m, _)) => if has_extension(m) {
                None
            } else {
                Some(embedded(m))
            },
            None => None,
        }
    } else {
        Some(Model::Binary(data))
    }
}

/// Whether every field has an element to be written as.
pub open spec fn packable(fields: Map<u8, Seq<u8>>, native: Set<u8>) -> bool {
    forall|id: u8| #[trigger]
        fields.contains_key(id) ==> field_element(fields[id], native.contains(id)) is Some
}

/// The elements of the fields with a number below `n`, by increasing number.
pub open spec fn field_elements(fields: Map<u8, Seq<u8>>, native: Set<u8>, n: nat) -> Seq<
    (Model, Model),
>
    decreases n,
{
    if n == 0 {
        Seq::empty()
    } else {
        let before = field_elements(fields, native, (n - 1) as nat);
        let id = (n - 1) as u8;
        if fields.contains_key(id) {
            before.push(
                (Model::Integer(id as int), field_element(fields[id], native.contains(id))->0),
            )
        } else {
            before
        }
    }
}

/// The value that a payload is written as.
pub open spec fn payload_element(p: PayloadModel) -> Model {
    let body = seq![
        Model::Float64(p.timestamp),
        Model::Binary(encode_utf8(p.title)),
        Model::Binary(encode_utf8(p.content)),
        Model::Dictionary(field_elements(p.fields, p.native, 256)),
    ];
    match p.stamp {
        Some(stamp) => Model::Array(body.push(Model::Binary(stamp))),
        None => Model::Array(body),
    }
}

/// The element that a field is written as.
fn field_datum(data: &Vec<u8>, native: bool) -> (r: Option<Datum>)
    ensures
        r is Some <==> field_element(data@, native) is Some,
        r matches Some(d) ==> field_element(data@, native) == Some(d@),
{
    if native {
        match decode(data.as_slice()) {
            Some((d, _)) => embed(&d),
            None => None,
        }
    } else {
        Some(Datum::Binary(copy_slice(data.as_slice())))
    }
}

/// Writes a payload.  There is nothing to write where a native field has no element.
pub fn pack(
    timestamp: u64,
    title: &str,
    content: &str,
    fields: &FieldMap,
    native: &FieldIds,
    stamp: Option<&[u8]>,
) -> (r: Option<Vec<u8>>)
    ensures
        r is Some <==> packable(fields@, native@),
        r matches Some(out) ==> {
            let p = PayloadModel {
                timestamp,
                title: title@,
                content: content@,
                fields: fields@,
                native: native@,
                stamp: match stamp {
                    Some(s) => Some(s@),
                    None => None,
                },
            };
            &&& out@ == encoding(payload_element(p))
            &&& out@.len() > 0
            &&& storable(payload_element(p), MAX_NESTING as nat) ==> parsed(out@) == Some(
                (payload_element(p), Seq::<u8>::empty()),
            )
        },
{
    let mut pairs: Vec<(Datum, Datum)> = Vec::new();
    let mut i: usize = 0;
    while i < 256
        invariant
            i <= 256,
            pair_models(pairs@) == field_elements(fields@, native@, i as nat),
            forall|id: u8|
                id < i && #[trigger] fields@.contains_key(id) ==> field_element(
                    fields@[id],
                    native@.contains(id),
                ) is Some,
        decreases 256 - i,
    {
        let id: u8 = i as u8;
        let ghost before = pairs@;
        match fields.get(&id) {
            Some(data) => {
                match field_datum(data, native.contains(&id)) {
                    Some(d) => {
                        pairs.push((Datum::Unsigned(id as u64), d));
                        assert(pair_models(pairs@) =~= pair_models(before).push(
                            (Model::Integer(id as int), d@),
                        ));
                    },
                    None => {
                        return None;
                    },
                }
            },
            None => {},
        }
        i = i + 1;
    }
    let mut items: Vec<Datum> = Vec::new();
    items.push(Datum::Float64(timestamp));
    items.push(Datum::Binary(copy_slice(title.as_bytes())));
    items.push(Datum::Binary(copy_slice(content.as_bytes())));
    let dictionary = Datum::Dictionary(pairs);
    proof {
        lemma_view(&dictionary);
    }
    items.push(dictionary);
    if let Some(s) = stamp {
        items.push(Datum::Binary(copy_slice(s)));
    }
    let ghost p = PayloadModel {
        timestamp,
        title: title@,
        content: content@,
        fields: fields@,
        native: native@,
        stamp: match stamp {
            Some(s) => Some(s@),
            None => None,
        },
    };
    let array = Datum::Array(items);
    proof {
        lemma_view(&array);
        assert(models(items@) =~= payload_element(p)->Array_0);
    }
    Some(encode(&array))
}

// ---------------------------------------------------------------------------
// Reading.
// ---------------------------------------------------------------------------

/// The text of a title or content element; an element of another type is empty.
pub open spec fn element_text(m: Model) -> Seq<char> {
    match m {
        Model::Binary(b) => if valid_utf8(b) {
            decode_utf8(b)
        } else {
            lossy(b)
        },
        Model::Text(t) => t,
        _ => Seq::empty(),
    }
}

/// The number of a field: the low byte of an integer key, and zero for any other key.
pub open spec fn element_id(m: Model) -> u8 {
    match m {
        Model::Integer(n) => (n % 256) as u8,
        _ => 0,
    }
}

/// The bytes of a field: those of a binary element, or the encoding of any other.
pub open spec fn element_data(m: Model) -> Seq<u8> {
    match m {
        Model::Binary(b) => b,
        _ => encoding(m),
    }
}

/// The fields of a dictionary; of two entries with one number the later counts.
pub open spec fn read_fields(s: Seq<(Model, Model)>) -> Map<u8, Seq<u8>>
    decreases s.len(),
{
    if s.len() == 0 {
        Map::empty()
    } else {
        read_fields(s.drop_last()).insert(element_id(s.last().0), element_data(s.last().1))
    }
}

/// The numbers under which a dictionary holds an element that is not binary.
pub open spec fn read_native(s: Seq<(Model, Model)>) -> Set<u8>
    decreases s.len(),
{
    if s.len() == 0 {
        Set::empty()
    } else if s.last().1 is Binary {
        read_native(s.drop_last())
    } else {
        read_native(s.drop_last()).insert(element_id(s.last().0))
    }
}

/// The entries of a fields element.
pub open spec fn dictionary_entries(m: Model) -> Seq<(Model, Model)> {
    match m {
        Model::Dictionary(s) => s,
        _ => Seq::empty(),
    }
}

/// Whether a stamp may have this length: that of a ticket stamp or of a proof of work.
pub open spec fn stamp_length(n: nat) -> bool {
    n == TICKET_LENGTH || n == 32
}

/// The byte of an integer in a stamp that is written as an array.
pub open spec fn stamp_byte(m: Model) -> u8 {
    match m {
        Model::Integer(n) => if n >= 0 {
            (n % 256) as u8
        } else {
            0
        },
        _ => 0,
    }
}

/// The stamp in a stamp element, which is binary or an array of integers.
pub open spec fn element_stamp(m: Model) -> Option<Seq<u8>> {
    match m {
        Model::Binary(b) => if stamp_length(b.len()) {
            Some(b)
        } else {
            None
        },
        Model::Array(s) => if stamp_length(s.len()) {
            Some(Seq::new(s.len(), |i: int| stamp_byte(s[i])))
        } else {
            None
        },
        _ => None,
    }
}

/// The payload that a value stands for: an array of at least four elements that starts
/// with a number.
pub open spec fn read_payload(m: Model) -> Option<PayloadModel> {
    match m {
        Model::Array(s) => if s.len() >= 4 && number(s[0]) is Some {
            Some(
                PayloadModel {
                    timestamp: number(s[0])->0,
                    title: element_text(s[1]),
                    content: element_text(s[2]),
                    fields: read_fields(dictionary_entries(s[3])),
                    native: read_native(dictionary_entries(s[3])),
                    stamp: if s.len() > 4 {
                        element_stamp(s[4])
                    } else {
                        None
                    },
                },
            )
        } else {
            None
        },
        _ => None,
    }
}

fn datum_text(d: &Datum) -> (t: String)
    ensures
        t@ == element_text(d@),
{
    match d {
        Datum::Binary(b) => outside_lossy(b.as_slice()),
        Datum::Text(t) => t.clone(),
        _ => String::new(),
    }
}

fn datum_id(d: &Datum) -> (id: u8)
    ensures
        id == element_id(d@),
{
    match d {
        Datum::Unsigned(n) => (*n % 256) as u8,
        Datum::Negative(n) => {
            if *n >= 0 {
                (*n as u64 % 256) as u8
            } else {
                let below: u64 = (-(*n + 1)) as u64;
                let low: u64 = below % 256;
                assert(*n as int % 256 == 255 - low) by (nonlinear_arith)
                    requires
                        *n as int == -(below as int) - 1,
                        low as int == below as int % 256,
                ;
                (255 - low) as u8
            }
        },
        _ => 0,
    }
}

fn datum_stamp(d: &Datum) -> (r: Option<Vec<u8>>)
    ensures
        opt_view(r) == element_stamp(d@),
{
    match d {
        Datum::Binary(b) => {
            if b.len() == TICKET_LENGTH || b.len() == 32 {
                Some(copy_slice(b.as_slice()))
            } else {
                None
            }
        },
        Datum::Array(items) => {
            proof {
                lemma_view(d);
            }
            if items.len() == TICKET_LENGTH || items.len() == 32 {
                let mut out: Vec<u8> = Vec::new();
                let mut i: usize = 0;
                while i < items.len()
                    invariant
                        i <= items@.len(),
                        out@.len() == i,
                        forall|j: int| 0 <= j < i ==> out@[j] == stamp_byte(items@[j]@),
                    decreases items@.len() - i,
                {
                    let byte: u8 = match &items[i] {
                        Datum::Unsigned(n) => (*n % 256) as u8,
                        Datum::Negative(n) => if *n >= 0 {
                            (*n as u64 % 256) as u8
                        } else {
                            0
                        },
                        _ => 0,
                    };
                    out.push(byte);
                    i = i + 1;
                }
                assert(out@ =~= element_stamp(d@)->0);
                Some(out)
            } else {
                None
            }
        },
        _ => None,
    }
}

/// Reads the fields of a dictionary.
fn datum_fields(entries: &Vec<(Datum, Datum)>) -> (r: (FieldMap, FieldIds))
    ensures
        r.0@ == read_fields(pair_models(entries@)),
        r.1@ == read_native(pair_models(entries@)),
{
    let mut fields = FieldMap::new();
    let mut native = FieldIds::new();
    let mut i: usize = 0;
    let ghost all = pair_models(entries@);
    assert(all.take(0) =~= Seq::<(Model, Model)>::empty());
    while i < entries.len()
        invariant
            i <= entries@.len(),
            all == pair_models(entries@),
            fields@ == read_fields(all.take(i as int)),
            native@ == read_native(all.take(i as int)),
        decreases entries@.len() - i,
    {
        proof {
            assert(all.take(i + 1).drop_last() =~= all.take(i as int));
            assert(all.take(i + 1).last() == all[i as int]);
        }
        let id: u8 = datum_id(&entries[i].0);
        match &entries[i].1 {
            Datum::Binary(b) => {
                fields.insert(id, copy_slice(b.as_slice()));
            },
            other => {
                native.insert(id);
                fields.insert(id, encode(other));
            },
        }
        i = i + 1;
    }
    assert(all.take(i as int) =~= all);
    (fields, native)
}

/// Why a value is no payload.
#[derive(Debug, Clone, Copy, PartialEq, Eq, Structural)]
pub enum PayloadFault {
    /// The bytes are no MessagePack value.
    NotMsgpack,
    /// The value is not an array.
    NotAnArray,
    /// The array has fewer than four elements.
    ArrayTooShort,
    /// The first element is not a number.
    NoTimestamp,
}

/// What is wrong with the bytes of a payload.
pub open spec fn payload_fault(data: Seq<u8>) -> Option<PayloadFault> {
    match parsed(data) {
        None => Some(PayloadFault::NotMsgpack),
        Some((Model::Array(s), _)) => if s.len() < 4 {
            Some(PayloadFault::ArrayTooShort)
        } else if number(s[0]) is None {
            Some(PayloadFault::NoTimestamp)
        } else {
            None
        },
        Some(_) => Some(PayloadFault::NotAnArray),
    }
}

/// The payload that bytes hold.
pub open spec fn payload_of(data: Seq<u8>) -> Option<PayloadModel> {
    match parsed(data) {
        Some((m, _)) => read_payload(m),
        None => None,
    }
}

/// Reads the payload that a decoded value stands for.
pub fn interpret(value: &Datum) -> (r: Result<MessagePayload, PayloadFault>)
    ensures
        r matches Ok(p) ==> read_payload(value@) == Some(p@),
        r is Ok <==> read_payload(value@) is Some,
        r matches Err(e) ==> e == (match value@ {
            Model::Array(s) => if s.len() < 4 {
                PayloadFault::ArrayTooShort
            } else {
                PayloadFault::NoTimestamp
            },
            _ => PayloadFault::NotAnArray,
        }),
{
    match value {
        Datum::Array(items) => {
            proof {
                lemma_view(value);
            }
            if items.len() < 4 {
                return Err(PayloadFault::ArrayTooShort);
            }
            let timestamp: u64 = match items[0].as_number() {
                Some(bits) => bits,
                None => {
                    return Err(PayloadFault::NoTimestamp);
                },
            };
            let title = datum_text(&items[1]);
            let content = datum_text(&items[2]);
            proof {
                lemma_view(&items@[3]);
            }
            let (fields, msgpack_field_ids) = match &items[3] {
                Datum::Dictionary(entries) => datum_fields(entries),
                _ => (FieldMap::new(), FieldIds::new()),
            };
            let stamp = if items.len() > 4 {
                datum_stamp(&items[4])
            } else {
                None
            };
            Ok(MessagePayload { timestamp, title, content, fields, msgpack_field_ids, stamp })
        },
        _ => Err(PayloadFault::NotAnArray),
    }
}

/// Reads a payload.
pub fn unpack(data: &[u8]) -> (r: Result<MessagePayload, PayloadFault>)
    ensures
        r is Ok <==> payload_fault(data@) is None,
        r matches Ok(p) ==> payload_of(data@) == Some(p@),
        r matches Err(e) ==> payload_fault(data@) == Some(e),
{
    match decode(data) {
        Some((value, _)) => interpret(&value),
        None => Err(PayloadFault::NotMsgpack),
    }
}

/// The bytes of a payload without its stamp element, where it has more than four.
pub open spec fn without_stamp(data: Seq<u8>) -> Seq<u8> {
    match parsed(data) {
        Some((Model::Array(s), _)) => if s.len() > 4 {
            encoding(Model::Array(s.take(4)))
        } else {
            data
        },
        _ => data,
    }
}

/// Takes the stamp element off a payload.  A payload of four elements, and bytes that
/// are no array, are left as they are.
pub fn strip_stamp(data: &[u8]) -> (out: Vec<u8>)
    ensures
        out@ == without_stamp(data@),
{
    match decode(data) {
        Some((Datum::Array(items), _)) => {
            let ghost whole = Datum::Array(items);
            proof {
                lemma_view(&whole);
            }
            if items.len() > 4 {
                let ghost all = items@;
                let mut body = items;
                body.truncate(4);
                let head = Datum::Array(body);
                proof {
                    lemma_view(&head);
                    assert(models(body@) =~= models(all).take(4));
                }
                encode(&head)
            } else {
                copy_slice(data)
            }
        },
        _ => copy_slice(data),
    }
}

// ---------------------------------------------------------------------------
// What a payload comes to.
// ---------------------------------------------------------------------------

/// A payload is written as its time, its title, its content and its fields, followed by its
/// stamp where it has one.
pub proof fn payloads_have_their_layout(p: PayloadModel)
    ensures
        payload_element(p) is Array,
        ({
            let s = payload_element(p)->Array_0;
            &&& s.len() == (if p.stamp is Some {
                5nat
            } else {
                4
            })
            &&& s[0] == Model::Float64(p.timestamp)
            &&& s[1] == Model::Binary(encode_utf8(p.title))
            &&& s[2] == Model::Binary(encode_utf8(p.content))
            &&& s[3] is Dictionary
            &&& s[3] == Model::Dictionary(field_elements(p.fields, p.native, 256))
            &&& p.stamp is Some ==> s[4] == Model::Binary(p.stamp->0)
        }),
{
}

/// Every field is written once, under its number and by increasing number, and nothing else is.
pub proof fn fields_are_written_once(fields: Map<u8, Seq<u8>>, native: Set<u8>, n: nat)
    requires
        n <= 256,
    ensures
        ({
            let s = field_elements(fields, native, n);
            &&& forall|i: int|
                0 <= i < s.len() ==> {
                    &&& (#[trigger] s[i]).0 is Integer
                    &&& 0 <= s[i].0->Integer_0 < n
                    &&& fields.contains_key(s[i].0->Integer_0 as u8)
                    &&& s[i].1 == field_element(
                        fields[s[i].0->Integer_0 as u8],
                        native.contains(s[i].0->Integer_0 as u8),
                    )->0
                }
            &&& forall|i: int, j: int|
                0 <= i < j < s.len() ==> (#[trigger] s[i]).0->Integer_0 < (
                #[trigger] s[j]).0->Integer_0
            &&& forall|id: u8|
                id < n && #[trigger] fields.contains_key(id) ==> exists|i: int|
                    0 <= i < s.len() && (#[trigger] s[i]).0 == Model::Integer(id as int)
        }),
    decreases n,
{
    if n > 0 {
        let before = field_elements(fields, native, (n - 1) as nat);
        let s = field_elements(fields, native, n);
        fields_are_written_once(fields, native, (n - 1) as nat);
        let last = (n - 1) as u8;
        assert forall|id: u8| id < n && #[trigger] fields.contains_key(id) implies exists|i: int|
            0 <= i < s.len() && (#[trigger] s[i]).0 == Model::Integer(id as int) by {
            if id == last {
                assert(s[before.len() as int].0 == Model::Integer(id as int));
            } else {
                let i = choose|i: int|
                    0 <= i < before.len() && (#[trigger] before[i]).0 == Model::Integer(id as int);
                assert(s[i] == before[i]);
            }
        }
    }
}

/// A field is written as its bytes, unless it holds an encoded value: then as that value, if the
/// bytes are one and no extension occurs in it, and else not at all.
pub proof fn fields_are_written_as_what_they_hold(data: Seq<u8>, m: Model, rest: Seq<u8>)
    ensures
        field_element(data, false) == Some(Model::Binary(data)),
        parsed(data) is None ==> field_element(data, true) is None,
        parsed(data) == Some((m, rest)) ==> (field_element(data, true) is None <==> has_extension(
            m,
        )),
        parsed(data) == Some((m, rest)) && !has_extension(m) ==> field_element(data, true) == Some(
            embedded(m),
        ),
{
}

/// A dictionary gives a field for each number that occurs in it, with what the last entry under
/// that number holds.
pub proof fn the_last_entry_of_a_field_counts(s: Seq<(Model, Model)>, i: int)
    requires
        0 <= i < s.len(),
        forall|j: int| i < j < s.len() ==> element_id((#[trigger] s[j]).0) != element_id(s[i].0),
    ensures
        read_fields(s).contains_key(element_id(s[i].0)),
        read_fields(s)[element_id(s[i].0)] == element_data(s[i].1),
    decreases s.len(),
{
    if i < s.len() - 1 {
        let front = s.drop_last();
        assert(front[i] == s[i]);
        assert forall|j: int| i < j < front.len() implies element_id((#[trigger] front[j]).0)
            != element_id(front[i].0) by {
            assert(front[j] == s[j]);
        }
        the_last_entry_of_a_field_counts(front, i);
        assert(element_id(s[s.len() - 1].0) != element_id(s[i].0));
    }
}

/// A dictionary gives no field that does not occur in it, and a field holds an encoded value
/// just where an entry under its number is not binary.
pub proof fn fields_come_from_entries(s: Seq<(Model, Model)>, id: u8)
    ensures
        read_fields(s).contains_key(id) <==> exists|i: int|
            0 <= i < s.len() && element_id((#[trigger] s[i]).0) == id,
        read_native(s).contains(id) <==> exists|i: int|
            0 <= i < s.len() && element_id((#[trigger] s[i]).0) == id && !(s[i].1 is Binary),
    decreases s.len(),
{
    if s.len() > 0 {
        let front = s.drop_last();
        fields_come_from_entries(front, id);
        let last = s.len() - 1;
        assert(forall|i: int| 0 <= i < front.len() ==> #[trigger] front[i] == s[i]);
        if exists|i: int| 0 <= i < front.len() && element_id((#[trigger] front[i]).0) == id {
            let i = choose|i: int|
                0 <= i < front.len() && element_id((#[trigger] front[i]).0) == id;
            assert(element_id(s[i].0) == id);
        }
        if exists|i: int|
            0 <= i < front.len() && element_id((#[trigger] front[i]).0) == id && !(front[i].1 is Binary) {
            let i = choose|i: int|
                0 <= i < front.len() && element_id((#[trigger] front[i]).0) == id
                    && !(front[i].1 is Binary);
            assert(element_id(s[i].0) == id && !(s[i].1 is Binary));
        }
        assert(element_id(s[last].0) == element_id(s.last().0));
        assert forall|i: int| 0 <= i < last implies s[i] == #[trigger] front[i] by {}
        if exists|i: int| 0 <= i < s.len() && element_id((#[trigger] s[i]).0) == id {
            let i = choose|i: int| 0 <= i < s.len() && element_id((#[trigger] s[i]).0) == id;
            if i < last {
                assert(element_id(front[i].0) == id);
            }
        }
        if exists|i: int|
            0 <= i < s.len() && element_id((#[trigger] s[i]).0) == id && !(s[i].1 is Binary) {
            let i = choose|i: int|
                0 <= i < s.len() && element_id((#[trigger] s[i]).0) == id && !(s[i].1 is Binary);
            if i < last {
                assert(element_id(front[i].0) == id && !(front[i].1 is Binary));
            }
        }
    }
}

/// Text is read as it was written, whichever way it was; a number is the low byte of an integer;
/// bytes are read as they are, and a value as it is encoded.
pub proof fn elements_are_read_as_written(t: Seq<char>, b: Seq<u8>, n: int, m: Model)
    ensures
        element_text(Model::Binary(encode_utf8(t))) == t,
        element_text(Model::Text(t)) == t,
        !(m is Binary || m is Text) ==> element_text(m).len() == 0,
        0 <= n < 256 ==> element_id(Model::Integer(n)) == n,
        element_id(Model::Integer(n + 256)) == element_id(Model::Integer(n)),
        !(m is Integer) ==> element_id(m) == 0,
        element_data(Model::Binary(b)) == b,
        !(m is Binary) ==> element_data(m) == encoding(m),
        dictionary_entries(m) == (if m is Dictionary {
            m->Dictionary_0
        } else {
            Seq::empty()
        }),
{
    vstd::utf8::encode_utf8_valid_utf8(t);
    vstd::utf8::encode_utf8_decode_utf8(t);
    assert((n + 256) % 256 == n % 256);
}

/// A stamp is read where it has 16 or 32 bytes, be they a byte string or a list of integers.
pub proof fn stamps_are_read(m: Model)
    ensures
        element_stamp(m) is Some <==> (m is Binary && (m->Binary_0.len() == 16 || m->Binary_0.len()
            == 32)) || (m is Array && (m->Array_0.len() == 16 || m->Array_0.len() == 32)),
        element_stamp(m) matches Some(stamp) ==> {
            &&& m is Binary ==> stamp == m->Binary_0
            &&& m is Array ==> stamp.len() == m->Array_0.len() && forall|i: int|
                0 <= i < stamp.len() && m->Array_0[i] is Integer && 0 <= m->Array_0[i]->Integer_0
                    < 256 ==> #[trigger] stamp[i] == m->Array_0[i]->Integer_0
        },
{
}

/// A value is a payload where it is a list of four elements or more that starts with a number:
/// first the time, then title, content and fields, then perhaps a stamp; what follows is
/// passed over.
pub proof fn payloads_are_read(m: Model)
    ensures
        read_payload(m) is Some <==> m is Array && m->Array_0.len() >= 4 && number(
            m->Array_0[0],
        ) is Some,
        read_payload(m) matches Some(p) ==> {
            let s = m->Array_0;
            &&& Some(p.timestamp) == number(s[0])
            &&& p.title == element_text(s[1])
            &&& p.content == element_text(s[2])
            &&& p.fields == read_fields(dictionary_entries(s[3]))
            &&& p.native == read_native(dictionary_entries(s[3]))
            &&& s.len() == 4 ==> p.stamp is None
            &&& s.len() > 4 ==> p.stamp == element_stamp(s[4])
        },
        forall|bits: u64| #[trigger] number(Model::Float64(bits)) == Some(bits),
{
}

/// Bytes are refused as a payload just where they hold none, and for the first thing that is
/// wrong with them.
pub proof fn payloads_are_refused_for_a_reason(data: Seq<u8>, m: Model, rest: Seq<u8>)
    ensures
        payload_fault(data) is None <==> payload_of(data) is Some,
        payload_fault(data) == Some(PayloadFault::NotMsgpack) <==> parsed(data) is None,
        parsed(data) == Some((m, rest)) ==> {
            &&& payload_of(data) == read_payload(m)
            &&& payload_fault(data) == Some(PayloadFault::NotAnArray) <==> !(m is Array)
            &&& payload_fault(data) == Some(PayloadFault::ArrayTooShort) <==> m is Array
                && m->Array_0.len() < 4
            &&& payload_fault(data) == Some(PayloadFault::NoTimestamp) <==> m is Array
                && m->Array_0.len() >= 4 && number(m->Array_0[0]) is None
        },
{
}

/// Without its stamp a payload is its first four elements; one of four elements, and bytes that
/// are no list, stay as they are.
pub proof fn stamps_come_off(data: Seq<u8>, s: Seq<Model>, m: Model, rest: Seq<u8>)
    ensures
        parsed(data) == Some((Model::Array(s), rest)) && s.len() > 4 ==> without_stamp(data)
            == encoding(Model::Array(seq![s[0], s[1], s[2], s[3]])),
        parsed(data) == Some((Model::Array(s), rest)) && s.len() <= 4 ==> without_stamp(data)
            == data,
        parsed(data) == Some((m, rest)) && !(m is Array) ==> without_stamp(data) == data,
        parsed(data) is None ==> without_stamp(data) == data,
{
    if s.len() > 4 {
        assert(s.take(4) =~= seq![s[0], s[1], s[2], s[3]]);
    }
}

} // verus!
