//! Messages on their way through propagation nodes.

use vstd::prelude::*;
use vstd::slice::slice_subrange;

use crate::bytes::{append, contents, fixed, join, lemma_fixed};
use crate::crypto::{digest, full_hash};
use crate::message::{
    answers, is_pack_error, is_packable, packed, LxMessage, MessageError, MessageModel,
};
use crate::msgpack::{
    decode, encode, encoding, lemma_view, models, number, parsed, storable, Datum, Model,
    MAX_LENGTH, MAX_NESTING,
};
use crate::record::{octets, read_octets};
use crate::types::PropagationTransientId;

verus! {

/// The least length of an entry that can hold a message: the overhead of a message and
/// a stamp, and one byte more.
pub const MIN_PROPAGATION_ENTRY_SIZE: usize = 145;

/// The binary elements with some contents.
pub open spec fn binaries(entries: Seq<Seq<u8>>) -> Seq<Model> {
    Seq::new(entries.len(), |i: int| Model::Binary(entries[i]))
}

/// The value that propagated entries travel as.
pub open spec fn wrapper_element(timestamp: u64, entries: Seq<Seq<u8>>) -> Model {
    Model::Array(seq![Model::Float64(timestamp), Model::Array(binaries(entries))])
}

/// The entries in a list of byte strings.
pub open spec fn entry_list(m: Model) -> Option<Seq<Seq<u8>>> {
    match m {
        Model::Array(s) => if forall|i: int|
            0 <= i < s.len() ==> octets(#[trigger] s[i]) is Some {
            Some(Seq::new(s.len(), |i: int| octets(s[i])->0))
        } else {
            None
        },
        Model::Binary(b) => if b.len() == 0 {
            Some(Seq::empty())
        } else {
            None
        },
        _ => None,
    }
}

/// The time and the entries of a wrapper.
pub open spec fn wrapper_of(m: Model) -> Option<(u64, Seq<Seq<u8>>)> {
    match m {
        Model::Array(s) => if s.len() == 2 && number(s[0]) is Some && entry_list(s[1]) is Some {
            Some((number(s[0])->0, entry_list(s[1])->0))
        } else {
            None
        },
        _ => None,
    }
}

/// The time and the entries of the wrapper that some bytes hold.
pub open spec fn wrapper_in(data: Seq<u8>) -> Option<(u64, Seq<Seq<u8>>)> {
    match parsed(data) {
        Some((m, _)) => wrapper_of(m),
        None => None,
    }
}

/// Whether the entries of a wrapper are within the bounds of a transfer: no more of them
/// than could be messages, and none too short to be one.
pub open spec fn within_bounds(entries: Seq<Seq<u8>>, max_transfer_bytes: usize) -> bool {
    &&& entries.len() <= max_transfer_bytes / MIN_PROPAGATION_ENTRY_SIZE
    &&& forall|i: int|
        0 <= i < entries.len() ==> (#[trigger] entries[i]).len() >= MIN_PROPAGATION_ENTRY_SIZE
}

/// A wrapper is read back from what it is written as.
pub proof fn lemma_wrapper(timestamp: u64, entries: Seq<Seq<u8>>)
    ensures
        wrapper_of(wrapper_element(timestamp, entries)) == Some((timestamp, entries)),
{
    let list = binaries(entries);
    assert(forall|i: int| 0 <= i < list.len() ==> octets(#[trigger] list[i]) is Some);
    assert(entry_list(Model::Array(list))->0 =~= entries);
}

/// The data that a propagation node holds of a message: its destination hash in the
/// clear, and the rest encrypted.
pub open spec fn lxmf_data(m: MessageModel, encrypted: Seq<u8>) -> Seq<u8> {
    m.destination_hash@ + encrypted
}

/// What of a packed message is encrypted.
pub open spec fn hidden_part(m: MessageModel) -> Seq<u8> {
    packed(m).subrange(16, packed(m).len() as int)
}

/// The identifier of a message on its way.
pub open spec fn transient_digest(data: Seq<u8>) -> PropagationTransientId {
    fixed(digest(data))
}

/// The bytes of an optional stamp.
pub open spec fn stamp_tail(stamp: Option<[u8; 32]>) -> Seq<u8> {
    match stamp {
        Some(s) => s@,
        None => Seq::empty(),
    }
}

/// The bytes that a message travels as.
pub open spec fn propagated_bytes(
    m: MessageModel,
    encrypted: Seq<u8>,
    stamp: Option<[u8; 32]>,
    timestamp: u64,
) -> Seq<u8> {
    encoding(wrapper_element(timestamp, seq![lxmf_data(m, encrypted) + stamp_tail(stamp)]))
}

/// Whether a wrapper is read as holding one entry, where its length can be carried.
pub open spec fn unwraps_to(bytes: Seq<u8>, timestamp: u64, entry: Seq<u8>) -> bool {
    entry.len() <= MAX_LENGTH ==> wrapper_in(bytes) == Some((timestamp, seq![entry]))
}

/// Writes a wrapper around one entry.
fn wrap(timestamp: u64, entry: Vec<u8>) -> (out: Vec<u8>)
    ensures
        out@ == encoding(wrapper_element(timestamp, seq![entry@])),
        unwraps_to(out@, timestamp, entry@),
{
    let ghost e = entry@;
    let mut list: Vec<Datum> = Vec::new();
    list.push(Datum::Binary(entry));
    let entries = Datum::Array(list);
    let mut items: Vec<Datum> = Vec::new();
    proof {
        lemma_view(&entries);
        assert(models(list@) =~= binaries(seq![e]));
    }
    items.push(Datum::Float64(timestamp));
    items.push(entries);
    let value = Datum::Array(items);
    proof {
        lemma_view(&value);
        assert(models(items@) =~= wrapper_element(timestamp, seq![e])->Array_0);
        lemma_wrapper(timestamp, seq![e]);
        if e.len() <= MAX_LENGTH {
            let inner = binaries(seq![e]);
            assert(forall|i: int|
                0 <= i < inner.len() ==> storable(#[trigger] inner[i], (MAX_NESTING - 2) as nat));
            assert(storable(Model::Array(inner), (MAX_NESTING - 1) as nat));
            let outer = value@->Array_0;
            assert(forall|i: int|
                0 <= i < outer.len() ==> storable(#[trigger] outer[i], (MAX_NESTING - 1) as nat));
        }
    }
    encode(&value)
}

/// Whether a search for a stamp that is worth a cost may end with `found`.
pub open spec fn finds<G: FnOnce(&[u8; 32], u8) -> Option<([u8; 32], u32)>>(
    generate: G,
    id: [u8; 32],
    cost: u8,
    found: Option<([u8; 32], u32)>,
) -> bool {
    call_ensures(generate, (&id, cost), found)
}

/// Whether the stamp of a message on its way is found worth `value`: a value that the
/// search already gave counts, and where it is zero the stamp is valued anew.
pub open spec fn is_worth<V: FnOnce(&[u8; 32], &[u8; 32]) -> u32>(
    value_of: V,
    id: [u8; 32],
    stamp: [u8; 32],
    given: u32,
    value: u32,
) -> bool {
    if given == 0 {
        call_ensures(value_of, (&id, &stamp), value)
    } else {
        value == given
    }
}

/// Whether a message with a stamp, and what the search for it already gave as its worth,
/// is packed as `r`.
pub open spec fn is_stamped_result<V: FnOnce(&[u8; 32], &[u8; 32]) -> u32>(
    m: MessageModel,
    encrypted: Seq<u8>,
    stamp: ([u8; 32], u32),
    value_of: V,
    timestamp: u64,
    r: Result<(Vec<u8>, PropagationTransientId, u32), MessageError>,
) -> bool {
    let id = transient_digest(lxmf_data(m, encrypted));
    r matches Ok((bytes, found, value)) && found == id && bytes@ == propagated_bytes(
        m,
        encrypted,
        Some(stamp.0),
        timestamp,
    ) && is_worth(value_of, id, stamp.0, stamp.1, value) && unwraps_to(
        bytes@,
        timestamp,
        lxmf_data(m, encrypted) + stamp.0@,
    )
}

/// Whether a message without a stamp, for which one is searched, is packed as `r` and
/// left as `after`.
pub open spec fn is_search_result<
    G: FnOnce(&[u8; 32], u8) -> Option<([u8; 32], u32)>,
    V: FnOnce(&[u8; 32], &[u8; 32]) -> u32,
>(
    m: MessageModel,
    encrypted: Seq<u8>,
    generate: G,
    target_cost: u8,
    value_of: V,
    timestamp: u64,
    r: Result<(Vec<u8>, PropagationTransientId, u32), MessageError>,
    after: MessageModel,
) -> bool {
    exists|found: Option<([u8; 32], u32)>| #[trigger]
        finds(generate, transient_digest(lxmf_data(m, encrypted)), target_cost, found)
            && match found {
            Some(stamp) => {
                &&& after == (MessageModel { propagation_stamp: Some(stamp.0), ..m })
                &&& is_stamped_result(m, encrypted, stamp, value_of, timestamp, r)
            },
            None => {
                &&& after == m
                &&& r matches Err(e) && e is PackFailed
            },
        }
}

impl LxMessage {
    /// Packs the message for propagation, with the stamp that it has, if any.  Returns
    /// the bytes and the transient identifier, which is noted in the message.
    pub fn pack_propagated_encrypted<F>(&mut self, encrypt_fn: F, timestamp: u64) -> (r: Result<
        (Vec<u8>, PropagationTransientId),
        MessageError,
    >) where F: FnOnce(&[u8]) -> Result<Vec<u8>, MessageError>
        requires
            forall|s: &[u8]| call_requires(encrypt_fn, (s,)),
        ensures
            !is_packable(old(self)@) ==> r is Err && is_pack_error(old(self)@, r->Err_0)
                && *final(self) == *old(self),
            is_packable(old(self)@) ==> exists|outcome: Result<Vec<u8>, MessageError>| #[trigger]
                answers(encrypt_fn, hidden_part(old(self)@), outcome) && match outcome {
                    Ok(encrypted) => {
                        let data = lxmf_data(old(self)@, encrypted@);
                        let id = transient_digest(data);
                        &&& r matches Ok((bytes, found)) && found == id && bytes@
                            == propagated_bytes(
                            old(self)@,
                            encrypted@,
                            old(self)@.propagation_stamp,
                            timestamp,
                        ) && unwraps_to(
                            bytes@,
                            timestamp,
                            data + stamp_tail(old(self)@.propagation_stamp),
                        )
                        &&& final(self)@ == (MessageModel { transient_id: Some(id), ..old(self)@ })
                    },
                    Err(e) => r == Err::<(Vec<u8>, PropagationTransientId), MessageError>(e)
                        && *final(self) == *old(self),
                },
    {
        let bytes = match self.pack() {
            Ok(b) => b,
            Err(e) => {
                return Err(e);
            },
        };
        let outcome = encrypt_fn(slice_subrange(bytes.as_slice(), 16, bytes.len()));
        assert(answers(encrypt_fn, hidden_part(self@), outcome));
        match outcome {
            Ok(encrypted) => {
                let mut data = join(self.destination_hash.as_slice(), encrypted.as_slice());
                let id = full_hash(data.as_slice());
                proof {
                    lemma_fixed(id);
                }
                self.transient_id = Some(id);
                match self.propagation_stamp {
                    Some(s) => {
                        append(&mut data, s.as_slice());
                    },
                    None => {
                        assert(data@ + Seq::<u8>::empty() =~= data@);
                    },
                }
                Ok((wrap(timestamp, data), id))
            },
            Err(e) => Err(e),
        }
    }

    /// Packs the message for propagation, always with a stamp: the one that it has, or
    /// one that `generate` finds for the transient identifier and `target_cost`.
    /// Returns also what the stamp is worth.
    pub fn pack_propagated_encrypted_with_stamp<F, G, V>(
        &mut self,
        encrypt_fn: F,
        target_cost: u8,
        generate: G,
        value_of: V,
        timestamp: u64,
    ) -> (r: Result<(Vec<u8>, PropagationTransientId, u32), MessageError>) where
        F: FnOnce(&[u8]) -> Result<Vec<u8>, MessageError>,
        G: FnOnce(&[u8; 32], u8) -> Option<([u8; 32], u32)>,
        V: FnOnce(&[u8; 32], &[u8; 32]) -> u32,

        requires
            forall|s: &[u8]| call_requires(encrypt_fn, (s,)),
            forall|id: &[u8; 32], cost: u8| call_requires(generate, (id, cost)),
            forall|id: &[u8; 32], stamp: &[u8; 32]| call_requires(value_of, (id, stamp)),
        ensures
            !is_packable(old(self)@) ==> r is Err && is_pack_error(old(self)@, r->Err_0)
                && *final(self) == *old(self),
            is_packable(old(self)@) ==> exists|outcome: Result<Vec<u8>, MessageError>| #[trigger]
                answers(encrypt_fn, hidden_part(old(self)@), outcome) && match outcome {
                    Ok(encrypted) => {
                        let data = lxmf_data(old(self)@, encrypted@);
                        let id = transient_digest(data);
                        let known = MessageModel { transient_id: Some(id), ..old(self)@ };
                        match old(self)@.propagation_stamp {
                            Some(stamp) => {
                                &&& final(self)@ == known
                                &&& is_stamped_result(
                                    old(self)@,
                                    encrypted@,
                                    (stamp, 0),
                                    value_of,
                                    timestamp,
                                    r,
                                )
                            },
                            None => is_search_result(
                                known,
                                encrypted@,
                                generate,
                                target_cost,
                                value_of,
                                timestamp,
                                r,
                                final(self)@,
                            ),
                        }
                    },
                    Err(e) => r == Err::<
                        (Vec<u8>, PropagationTransientId, u32),
                        MessageError,
                    >(e) && *final(self) == *old(self),
                },
    {
        let bytes = match self.pack() {
            Ok(b) => b,
            Err(e) => {
                return Err(e);
            },
        };
        let outcome = encrypt_fn(slice_subrange(bytes.as_slice(), 16, bytes.len()));
        assert(answers(encrypt_fn, hidden_part(self@), outcome));
        let encrypted = match outcome {
            Ok(encrypted) => encrypted,
            Err(e) => {
                return Err(e);
            },
        };
        let mut data = join(self.destination_hash.as_slice(), encrypted.as_slice());
        let id = full_hash(data.as_slice());
        proof {
            lemma_fixed(id);
        }
        self.transient_id = Some(id);
        let ghost known = self@;
        assert(id == transient_digest(lxmf_data(known, encrypted@)));
        let mut given: u32 = 0;
        let stamp: [u8; 32] = match self.propagation_stamp {
            Some(s) => s,
            None => {
                let found = generate(&id, target_cost);
                assert(finds(
                    generate,
                    transient_digest(lxmf_data(known, encrypted@)),
                    target_cost,
                    found,
                ));
                match found {
                    Some((s, value)) => {
                        self.propagation_stamp = Some(s);
                        given = value;
                        s
                    },
                    None => {
                        let r: Result<(Vec<u8>, PropagationTransientId, u32), MessageError> = Err(
                            MessageError::PackFailed(
                                "failed to generate propagation stamp".to_owned(),
                            ),
                        );
                        assert(is_search_result(
                            known,
                            encrypted@,
                            generate,
                            target_cost,
                            value_of,
                            timestamp,
                            r,
                            self@,
                        ));
                        return r;
                    },
                }
            },
        };
        let value: u32 = if given == 0 {
            value_of(&id, &stamp)
        } else {
            given
        };
        append(&mut data, stamp.as_slice());
        let r: Result<(Vec<u8>, PropagationTransientId, u32), MessageError> = Ok(
            (wrap(timestamp, data), id, value),
        );
        proof {
            assert(is_stamped_result(
                known,
                encrypted@,
                (stamp, given),
                value_of,
                timestamp,
                r,
            ));
            if known.propagation_stamp is None {
                assert(is_search_result(
                    known,
                    encrypted@,
                    generate,
                    target_cost,
                    value_of,
                    timestamp,
                    r,
                    self@,
                ));
            }
        }
        r
    }

    /// Encrypts what an opportunistic packet carries: everything behind the destination
    /// hash, which the packet itself names.
    pub fn pack_opportunistic_encrypted<F>(&self, encrypt_fn: F) -> (r: Result<
        Vec<u8>,
        MessageError,
    >) where F: FnOnce(&[u8]) -> Result<Vec<u8>, MessageError>
        requires
            forall|s: &[u8]| call_requires(encrypt_fn, (s,)),
        ensures
            !is_packable(self@) ==> r is Err && is_pack_error(self@, r->Err_0),
            is_packable(self@) ==> answers(encrypt_fn, hidden_part(self@), r),
    {
        let bytes = match self.pack() {
            Ok(b) => b,
            Err(e) => {
                return Err(e);
            },
        };
        encrypt_fn(slice_subrange(bytes.as_slice(), 16, bytes.len()))
    }

    /// Packs the message for propagation where nothing can be encrypted.
    pub fn pack_propagated(&self) -> (r: Result<Vec<u8>, MessageError>)
        ensures
            r is Ok <==> is_packable(self@),
            r matches Ok(data) ==> data@ == packed(self@),
            r matches Err(e) ==> is_pack_error(self@, e),
    {
        self.pack()
    }

    /// Reads the time and the entries of a wrapper.
    pub fn unpack_propagation_wrapper(data: &[u8]) -> (r: Result<
        (u64, Vec<Vec<u8>>),
        MessageError,
    >)
        ensures
            r is Ok <==> wrapper_in(data@) is Some,
            r matches Ok((t, entries)) ==> wrapper_in(data@) == Some((t, contents(entries@))),
            r matches Err(e) ==> e is UnpackFailed,
    {
        if let Some((value, _)) = decode(data) {
            proof {
                lemma_view(&value);
            }
            if let Datum::Array(items) = &value {
                if items.len() == 2 {
                    let entries = read_entries(&items[1]);
                    if let (Some(t), Some(list)) = (items[0].as_number(), entries) {
                        return Ok((t, list));
                    }
                }
            }
        }
        Err(MessageError::UnpackFailed("propagation wrapper".to_owned()))
    }

    /// Reads a wrapper that is no longer than `max_transfer_bytes`, and refuses one with
    /// more entries than could be messages or with one too short to be one.
    pub fn unpack_propagation_wrapper_bounded(
        data: &[u8],
        max_transfer_bytes: usize,
    ) -> (r: Result<(u64, Vec<Vec<u8>>), MessageError>)
        ensures
            r is Ok <==> data@.len() <= max_transfer_bytes && (wrapper_in(data@) matches Some(
                (_, entries),
            ) && within_bounds(entries, max_transfer_bytes)),
            r matches Ok((t, entries)) ==> wrapper_in(data@) == Some((t, contents(entries@))),
            r matches Err(e) ==> e is UnpackFailed,
    {
        if data.len() > max_transfer_bytes {
            return Err(
                MessageError::UnpackFailed(
                    "propagation wrapper exceeds the transfer limit".to_owned(),
                ),
            );
        }
        let (timestamp, entries) = match LxMessage::unpack_propagation_wrapper(data) {
            Ok(x) => x,
            Err(e) => {
                return Err(e);
            },
        };
        assert(contents(entries@).len() == entries@.len());
        if entries.len() > max_transfer_bytes / MIN_PROPAGATION_ENTRY_SIZE {
            return Err(
                MessageError::UnpackFailed(
                    "propagation wrapper has too many entries".to_owned(),
                ),
            );
        }
        let mut i: usize = 0;
        while i < entries.len()
            invariant
                i <= entries@.len(),
                wrapper_in(data@) == Some((timestamp, contents(entries@))),
                forall|j: int|
                    0 <= j < i ==> (#[trigger] contents(entries@)[j]).len()
                        >= MIN_PROPAGATION_ENTRY_SIZE,
            decreases entries@.len() - i,
        {
            assert(contents(entries@)[i as int] == entries@[i as int]@);
            if entries[i].len() < MIN_PROPAGATION_ENTRY_SIZE {
                return Err(
                    MessageError::UnpackFailed(
                        "propagation wrapper entry below minimum message size".to_owned(),
                    ),
                );
            }
            i = i + 1;
        }
        Ok((timestamp, entries))
    }

    /// The transient identifier of propagated data without its stamp.
    pub fn compute_propagation_transient_id(data: &[u8]) -> (id: PropagationTransientId)
        ensures
            id == transient_digest(data@),
            id@ == digest(data@),
    {
        let id = full_hash(data);
        proof {
            lemma_fixed(id);
        }
        id
    }

    /// Reads a propagated message that was not encrypted.
    pub fn unpack_propagated(data: &[u8]) -> (r: Result<Self, MessageError>)
        ensures
            r is Ok <==> crate::message::is_packed(data@),
            r matches Ok(m) ==> m@ == crate::message::unpacked(data@),
            r matches Err(e) ==> crate::message::is_unpack_error(data@, e),
    {
        LxMessage::unpack(data)
    }
}

/// The entries in a list of byte strings.
pub(crate) fn read_entries(d: &Datum) -> (r: Option<Vec<Vec<u8>>>)
    ensures
        r is Some <==> entry_list(d@) is Some,
        r matches Some(list) ==> entry_list(d@) == Some(contents(list@)),
{
    proof {
        lemma_view(d);
    }
    match d {
        Datum::Array(items) => {
            let ghost all = models(items@);
            let mut list: Vec<Vec<u8>> = Vec::new();
            let mut i: usize = 0;
            while i < items.len()
                invariant
                    i <= items@.len(),
                    list@.len() == i,
                    all == models(items@),
                    d@ == Model::Array(all),
                    forall|j: int|
                        0 <= j < i ==> octets(#[trigger] all[j]) == Some(list@[j]@),
                decreases items@.len() - i,
            {
                assert(all[i as int] == items@[i as int]@);
                match read_octets(&items[i]) {
                    Some(b) => list.push(b),
                    None => {
                        return None;
                    },
                }
                i = i + 1;
            }
            assert(contents(list@) =~= entry_list(d@)->0);
            Some(list)
        },
        Datum::Binary(b) => {
            if b.len() == 0 {
                let list: Vec<Vec<u8>> = Vec::new();
                assert(contents(list@) =~= Seq::<Seq<u8>>::empty());
                Some(list)
            } else {
                None
            }
        },
        _ => None,
    }
}

/// What a message is propagated as, a node unwraps to its data: the stamp, where there is
/// one, is the last 32 bytes, and the digest of what precedes it is the transient
/// identifier.
pub proof fn propagated_data_is_identified(
    m: MessageModel,
    encrypted: Seq<u8>,
    stamp: Option<[u8; 32]>,
)
    ensures
        ({
            let entry = lxmf_data(m, encrypted) + stamp_tail(stamp);
            let end = entry.len() - stamp_tail(stamp).len();
            &&& transient_digest(entry.subrange(0, end)) == transient_digest(
                lxmf_data(m, encrypted),
            )
            &&& entry.subrange(0, 16) == m.destination_hash@
            &&& stamp matches Some(s) ==> entry.subrange(end, entry.len() as int) == s@
        }),
{
    let entry = lxmf_data(m, encrypted) + stamp_tail(stamp);
    let end = entry.len() - stamp_tail(stamp).len();
    assert(entry.subrange(0, end) =~= lxmf_data(m, encrypted));
    assert(entry.subrange(0, 16) =~= m.destination_hash@);
    if stamp is Some {
        assert(entry.subrange(end, entry.len() as int) =~= stamp->0@);
    }
}

/// A wrapper is a list of two, a number and a list of byte strings; it is read as that number
/// and all those byte strings, in order.
pub proof fn wrappers_are_read(m: Model)
    ensures
        wrapper_of(m) is Some <==> m is Array && m->Array_0.len() == 2 && number(
            m->Array_0[0],
        ) is Some && entry_list(m->Array_0[1]) is Some,
        wrapper_of(m) matches Some((timestamp, entries)) ==> Some(timestamp) == number(
            m->Array_0[0],
        ) && Some(entries) == entry_list(m->Array_0[1]),
        m matches Model::Array(s) ==> (entry_list(m) is Some <==> forall|i: int|
            0 <= i < s.len() ==> octets(#[trigger] s[i]) is Some) && (
        entry_list(m) matches Some(entries) ==> entries.len() == s.len() && forall|i: int|
            0 <= i < s.len() ==> Some(#[trigger] entries[i]) == octets(s[i])),
        !(m is Array || m is Binary) ==> entry_list(m) is None,
        m matches Model::Binary(b) ==> (entry_list(m) is Some <==> b.len() == 0) && (entry_list(
            m,
        ) is Some ==> entry_list(m)->0.len() == 0),
{
}

/// A message travels as one entry, in a list behind the time: its destination in the clear, what
/// was encrypted of it, and its stamp where it has one.
pub proof fn messages_travel_as_one_entry(
    m: MessageModel,
    encrypted: Seq<u8>,
    stamp: Option<[u8; 32]>,
    timestamp: u64,
)
    ensures
        ({
            let entry = m.destination_hash@ + encrypted + (if stamp is Some {
                stamp->0@
            } else {
                Seq::empty()
            });
            propagated_bytes(m, encrypted, stamp, timestamp) == encoding(
                Model::Array(
                    seq![Model::Float64(timestamp), Model::Array(seq![Model::Binary(entry)])],
                ),
            )
        }),
        m.signature is Some ==> m.destination_hash@ + hidden_part(m)
            == packed(m),
        transient_digest(lxmf_data(m, encrypted)) == fixed::<32>(
            digest(m.destination_hash@ + encrypted),
        ),
{
    let entry = m.destination_hash@ + encrypted + (if stamp is Some {
        stamp->0@
    } else {
        Seq::empty()
    });
    assert(lxmf_data(m, encrypted) + stamp_tail(stamp) =~= entry);
    assert(binaries(seq![entry]) =~= seq![Model::Binary(entry)]);
    assert(binaries(seq![lxmf_data(m, encrypted) + stamp_tail(stamp)]) =~= seq![
        Model::Binary(entry),
    ]);
    if m.signature is Some {
        assert(packed(m).subrange(0, 16) =~= m.destination_hash@);
        assert(m.destination_hash@ + hidden_part(m) =~= packed(m));
    }
}

/// A transfer is within bounds just where each entry is long enough for a message with a stamp
/// and as many of the least length would fit into the transfer.
pub proof fn transfers_hold_messages(entries: Seq<Seq<u8>>, max_transfer_bytes: usize)
    ensures
        within_bounds(entries, max_transfer_bytes) <==> entries.len() * 145 <= max_transfer_bytes
            && forall|i: int| 0 <= i < entries.len() ==> (#[trigger] entries[i]).len() > 112 + 32,
{
}

/// A stamp is worth what the search found, and is valued anew only where the search found
/// nothing of worth.
pub proof fn found_worth_counts<V: FnOnce(&[u8; 32], &[u8; 32]) -> u32>(
    value_of: V,
    id: [u8; 32],
    stamp: [u8; 32],
    given: u32,
    value: u32,
)
    requires
        is_worth(value_of, id, stamp, given, value),
    ensures
        given != 0 ==> value == given,
        given == 0 ==> call_ensures(value_of, (&id, &stamp), value),
{
}

/// A message with a stamp is packed with that stamp behind its data, under the digest of the
/// data alone.
pub proof fn stamped_messages_are_packed<V: FnOnce(&[u8; 32], &[u8; 32]) -> u32>(
    m: MessageModel,
    encrypted: Seq<u8>,
    stamp: ([u8; 32], u32),
    value_of: V,
    timestamp: u64,
    r: Result<(Vec<u8>, PropagationTransientId, u32), MessageError>,
)
    requires
        is_stamped_result(m, encrypted, stamp, value_of, timestamp, r),
    ensures
        r is Ok,
        r matches Ok((bytes, id, value)) ==> {
            &&& id == fixed::<32>(digest(m.destination_hash@ + encrypted))
            &&& bytes@ == propagated_bytes(m, encrypted, Some(stamp.0), timestamp)
            &&& is_worth(value_of, id, stamp.0, stamp.1, value)
            &&& m.destination_hash@.len() + encrypted.len() + 32 <= MAX_LENGTH ==> wrapper_in(bytes@)
                == Some((timestamp, seq![m.destination_hash@ + encrypted + stamp.0@]))
        },
{
}

/// Where no stamp is found nothing is packed and the message stays as it is; one that is found is
/// noted in the message, and nothing else of it changes.
pub proof fn found_stamps_are_noted<
    G: FnOnce(&[u8; 32], u8) -> Option<([u8; 32], u32)>,
    V: FnOnce(&[u8; 32], &[u8; 32]) -> u32,
>(
    m: MessageModel,
    encrypted: Seq<u8>,
    generate: G,
    target_cost: u8,
    value_of: V,
    timestamp: u64,
    r: Result<(Vec<u8>, PropagationTransientId, u32), MessageError>,
    after: MessageModel,
)
    requires
        is_search_result(m, encrypted, generate, target_cost, value_of, timestamp, r, after),
    ensures
        r is Err ==> after == m && r->Err_0 is PackFailed,
        r is Ok ==> after.propagation_stamp is Some,
        after == (MessageModel { propagation_stamp: after.propagation_stamp, ..m }),
        exists|found: Option<([u8; 32], u32)>|
            #![trigger finds(generate, fixed::<32>(digest(m.destination_hash@ + encrypted)), target_cost, found)]
            finds(
                generate,
                fixed::<32>(digest(m.destination_hash@ + encrypted)),
                target_cost,
                found,
            ) && (found is Some <==> r is Ok) && (found is Some ==> after.propagation_stamp == Some(
                found->Some_0.0,
            )),
{
    let found = choose|found: Option<([u8; 32], u32)>| #[trigger]
        finds(generate, transient_digest(lxmf_data(m, encrypted)), target_cost, found)
            && match found {
            Some(stamp) => {
                &&& after == (MessageModel { propagation_stamp: Some(stamp.0), ..m })
                &&& is_stamped_result(m, encrypted, stamp, value_of, timestamp, r)
            },
            None => {
                &&& after == m
                &&& r matches Err(e) && e is PackFailed
            },
        };
    assert(finds(
        generate,
        fixed::<32>(digest(m.destination_hash@ + encrypted)),
        target_cost,
        found,
    ));
}

} // verus!
