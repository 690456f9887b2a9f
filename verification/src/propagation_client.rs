//! Fetching messages from a propagation node.
//!
//! The link is the embedding program's: it opens it, sends the requests that it is given and
//! hands back the replies.

use vstd::prelude::*;

use crate::bytes::{contents, copy_list, copy_slice, slices_equal, to_vec};
use crate::crypto::{digest, full_hash};
use crate::msgpack::{
    decode, encode, encoding, lemma_view, models, parsed, storable, Datum, Model, MAX_LENGTH,
    MAX_NESTING,
};
use crate::propagation_node::requests::{binary_list, request_in};
use crate::sync::{byte_items, collect_bytes};
use crate::types::PropagationTransientId;

verus! {

/// The bit pattern of the kilobytes that a client takes at first.
pub const DEFAULT_DELIVERY_LIMIT: u64 = 0x408f_4000_0000_0000;

/// Seconds that a request may take.
pub const REQUEST_TIMEOUT: u64 = 120;

#[derive(Debug, Clone, Copy, PartialEq, Eq, Structural)]
pub enum PropagationClientState {
    Idle,
    LinkEstablishing,
    Identifying,
    RequestingList,
    RequestingMessages,
    Purging,
    Complete,
    Failed,
}

// ---------------------------------------------------------------------------
// Requests and replies.
// ---------------------------------------------------------------------------

/// Whether some byte strings have a length, where one is asked for.
pub open spec fn of_length(length: Option<usize>) -> spec_fn(Seq<u8>) -> bool {
    |b: Seq<u8>| length matches Some(n) ==> b.len() == n
}

/// The byte strings in a list, those of a length where one is asked for.
pub open spec fn list_in(data: Seq<u8>, length: Option<usize>) -> Option<Seq<Seq<u8>>> {
    match parsed(data) {
        Some((Model::Array(s), _)) => Some(byte_items(s).filter(of_length(length))),
        _ => None,
    }
}

/// The byte strings in a list, those of a length where one is asked for.
pub fn decode_binary_array(data: &[u8], exact_length: Option<usize>) -> (r: Option<Vec<Vec<u8>>>)
    ensures
        r is Some <==> list_in(data@, exact_length) is Some,
        r matches Some(list) ==> list_in(data@, exact_length) == Some(contents(list@)),
{
    let value = match decode(data) {
        Some((v, _)) => v,
        None => {
            return None;
        },
    };
    proof {
        lemma_view(&value);
    }
    match &value {
        Datum::Array(items) => {
            let all = collect_bytes(items);
            Some(select_length(&all, exact_length))
        },
        _ => None,
    }
}

/// Those of some byte strings that have a length, where one is asked for.
fn select_length(all: &Vec<Vec<u8>>, length: Option<usize>) -> (list: Vec<Vec<u8>>)
    ensures
        contents(list@) == contents(all@).filter(of_length(length)),
{
    let ghost whole = contents(all@);
    let ghost test = of_length(length);
    let mut list: Vec<Vec<u8>> = Vec::new();
    let mut i: usize = 0;
    assert(contents(list@) =~= whole.take(0).filter(test)) by {
        reveal(Seq::filter);
    }
    while i < all.len()
        invariant
            i <= all@.len(),
            whole == contents(all@),
            test == of_length(length),
            contents(list@) == whole.take(i as int).filter(test),
        decreases all@.len() - i,
    {
        let ghost before = list@;
        proof {
            reveal(Seq::filter);
            assert(whole.take(i + 1).drop_last() =~= whole.take(i as int));
            assert(whole.take(i + 1).last() == all@[i as int]@);
        }
        let fits = match length {
            Some(n) => all[i].len() == n,
            None => true,
        };
        if fits {
            let copy = copy_slice(all[i].as_slice());
            let ghost c = copy@;
            list.push(copy);
            assert(contents(list@) =~= contents(before).push(c));
        }
        i = i + 1;
    }
    assert(whole.take(i as int) =~= whole);
    list
}

/// Whether a list has a byte string.
fn has_bytes(list: &Vec<Vec<u8>>, b: &Vec<u8>) -> (found: bool)
    ensures
        found == contents(list@).contains(b@),
{
    let mut i: usize = 0;
    while i < list.len()
        invariant
            i <= list@.len(),
            forall|j: int| 0 <= j < i ==> (#[trigger] contents(list@)[j]) != b@,
        decreases list@.len() - i,
    {
        if slices_equal(list[i].as_slice(), b.as_slice()) {
            assert(contents(list@)[i as int] == b@);
            return true;
        }
        i = i + 1;
    }
    false
}

/// Whether a byte string is in a list, or is not.
pub open spec fn listed(local: Seq<Seq<u8>>, inside: bool) -> spec_fn(Seq<u8>) -> bool {
    |b: Seq<u8>| local.contains(b) == inside
}

/// Those of some byte strings that are in a list, or those that are not.
fn split_by(all: &Vec<Vec<u8>>, local: &Vec<Vec<u8>>, inside: bool) -> (part: Vec<Vec<u8>>)
    ensures
        contents(part@) == contents(all@).filter(listed(contents(local@), inside)),
{
    let ghost whole = contents(all@);
    let ghost test = listed(contents(local@), inside);
    let mut part: Vec<Vec<u8>> = Vec::new();
    let mut i: usize = 0;
    assert(contents(part@) =~= whole.take(0).filter(test)) by {
        reveal(Seq::filter);
    }
    while i < all.len()
        invariant
            i <= all@.len(),
            whole == contents(all@),
            test == listed(contents(local@), inside),
            contents(part@) == whole.take(i as int).filter(test),
        decreases all@.len() - i,
    {
        let ghost before = part@;
        proof {
            reveal(Seq::filter);
            assert(whole.take(i + 1).drop_last() =~= whole.take(i as int));
            assert(whole.take(i + 1).last() == all@[i as int]@);
        }
        if has_bytes(local, &all[i]) == inside {
            let copy = copy_slice(all[i].as_slice());
            let ghost c = copy@;
            part.push(copy);
            assert(contents(part@) =~= contents(before).push(c));
        }
        i = i + 1;
    }
    assert(whole.take(i as int) =~= whole);
    part
}

/// Some byte strings, as an element.
fn binary_array(list: &Vec<Vec<u8>>) -> (d: Datum)
    ensures
        d@ == binary_list(contents(list@)),
{
    let mut items: Vec<Datum> = Vec::new();
    let mut i: usize = 0;
    while i < list.len()
        invariant
            i <= list@.len(),
            items@.len() == i,
            forall|j: int| 0 <= j < i ==> (#[trigger] items@[j])@ == Model::Binary(list@[j]@),
        decreases list@.len() - i,
    {
        items.push(Datum::Binary(copy_slice(list[i].as_slice())));
        i = i + 1;
    }
    let d = Datum::Array(items);
    proof {
        lemma_view(&d);
        assert(models(items@) =~= binary_list(contents(list@))->Array_0);
    }
    d
}

/// Whether the format has room for some byte strings.
pub open spec fn fits_list(list: Seq<Seq<u8>>) -> bool {
    list.len() <= MAX_LENGTH && forall|i: int|
        0 <= i < list.len() ==> (#[trigger] list[i]).len() <= MAX_LENGTH
}

/// The request for the list of messages.
pub open spec fn list_element() -> Model {
    Model::Array(seq![Model::Nil, Model::Nil])
}

/// The request for messages.
pub open spec fn get_element(
    wants: Seq<Seq<u8>>,
    haves: Seq<Seq<u8>>,
    limit: Option<u64>,
) -> Model {
    match limit {
        Some(bits) => Model::Array(
            seq![binary_list(wants), binary_list(haves), Model::Float64(bits)],
        ),
        None => Model::Array(seq![binary_list(wants), binary_list(haves)]),
    }
}

/// The request to drop messages.
pub open spec fn purge_element(ids: Seq<Seq<u8>>) -> Model {
    Model::Array(seq![Model::Nil, binary_list(ids)])
}

proof fn lemma_list_storable(list: Seq<Seq<u8>>, depth: nat)
    requires
        fits_list(list),
        depth > 1,
    ensures
        storable(binary_list(list), depth),
{
    let s = binary_list(list)->Array_0;
    assert forall|i: int| 0 <= i < s.len() implies storable(
        #[trigger] s[i],
        (depth - 1) as nat,
    ) by {
        assert(list[i].len() <= MAX_LENGTH);
    }
}

/// The bytes that ask a node for the list of messages.
pub fn list_request() -> (out: Vec<u8>)
    ensures
        out@ == encoding(list_element()),
        request_in(out@) == Some((Model::Nil, Model::Nil, None::<u64>)),
{
    let mut items: Vec<Datum> = Vec::new();
    items.push(Datum::Nil);
    items.push(Datum::Nil);
    let d = Datum::Array(items);
    proof {
        lemma_view(&d);
        assert(models(items@) =~= seq![Model::Nil, Model::Nil]);
        assert(storable(d@, MAX_NESTING as nat)) by {
            let s = d@->Array_0;
            assert forall|i: int| 0 <= i < s.len() implies storable(
                #[trigger] s[i],
                (MAX_NESTING - 1) as nat,
            ) by {}
        }
    }
    encode(&d)
}

/// The bytes that ask a node for messages.
pub fn get_request(wants: &Vec<Vec<u8>>, haves: &Vec<Vec<u8>>, limit: Option<u64>) -> (out: Vec<u8>)
    ensures
        out@ == encoding(get_element(contents(wants@), contents(haves@), limit)),
        fits_list(contents(wants@)) && fits_list(contents(haves@)) ==> request_in(out@) == Some(
            (binary_list(contents(wants@)), binary_list(contents(haves@)), limit),
        ),
{
    let mut items: Vec<Datum> = Vec::new();
    let w = binary_array(wants);
    let h = binary_array(haves);
    items.push(w);
    items.push(h);
    match limit {
        Some(bits) => {
            items.push(Datum::Float64(bits));
        },
        None => {},
    }
    let d = Datum::Array(items);
    proof {
        lemma_view(&d);
        assert(d@->Array_0 =~= get_element(contents(wants@), contents(haves@), limit)->Array_0);
        if fits_list(contents(wants@)) && fits_list(contents(haves@)) {
            lemma_list_storable(contents(wants@), (MAX_NESTING - 1) as nat);
            lemma_list_storable(contents(haves@), (MAX_NESTING - 1) as nat);
            assert(storable(d@, MAX_NESTING as nat)) by {
                let s = d@->Array_0;
                assert forall|i: int| 0 <= i < s.len() implies storable(
                    #[trigger] s[i],
                    (MAX_NESTING - 1) as nat,
                ) by {}
            }
        }
    }
    encode(&d)
}

/// The bytes that ask a node to drop messages.
pub fn purge_request(ids: &Vec<Vec<u8>>) -> (out: Vec<u8>)
    ensures
        out@ == encoding(purge_element(contents(ids@))),
        fits_list(contents(ids@)) ==> request_in(out@) == Some(
            (Model::Nil, binary_list(contents(ids@)), None::<u64>),
        ),
{
    let mut items: Vec<Datum> = Vec::new();
    let list = binary_array(ids);
    items.push(Datum::Nil);
    items.push(list);
    let d = Datum::Array(items);
    proof {
        lemma_view(&d);
        assert(d@->Array_0 =~= purge_element(contents(ids@))->Array_0);
        if fits_list(contents(ids@)) {
            lemma_list_storable(contents(ids@), (MAX_NESTING - 1) as nat);
            assert(storable(d@, MAX_NESTING as nat)) by {
                let s = d@->Array_0;
                assert forall|i: int| 0 <= i < s.len() implies storable(
                    #[trigger] s[i],
                    (MAX_NESTING - 1) as nat,
                ) by {}
            }
        }
    }
    encode(&d)
}

// ---------------------------------------------------------------------------
// A download.
// ---------------------------------------------------------------------------

/// Where a download stands.
#[derive(Debug, Clone, Copy, PartialEq, Eq, Structural)]
pub enum DownloadPhase {
    Connecting,
    Listing,
    Fetching,
    Purging,
    Closing,
    Succeeded,
    Failed,
}

/// What a download knows.
#[verifier::ext_equal]
pub ghost struct DownloadModel {
    pub phase: DownloadPhase,
    /// The messages that are there already.
    pub local: Seq<Seq<u8>>,
    pub limit: Option<u64>,
    pub available: Seq<Seq<u8>>,
    pub received: Seq<Seq<u8>>,
}

/// A download from a propagation node.
#[derive(Debug)]
pub struct Download {
    pub phase: DownloadPhase,
    pub local: Vec<Vec<u8>>,
    pub limit: Option<u64>,
    pub available: Vec<Vec<u8>>,
    pub received: Vec<Vec<u8>>,
}

impl View for Download {
    type V = DownloadModel;

    open spec fn view(&self) -> DownloadModel {
        DownloadModel {
            phase: self.phase,
            local: contents(self.local@),
            limit: self.limit,
            available: contents(self.available@),
            received: contents(self.received@),
        }
    }
}

/// What happened to a download.
pub enum DownloadEvent<'a> {
    /// The link is open, and the node knows who asks.
    Connected,
    /// The node replied to a request.
    Reply(&'a [u8]),
    /// The link was closed.
    Closed,
    /// Something failed.
    Failed,
}

/// What a download does next.
pub ghost enum DownloadStep {
    Request(Seq<u8>),
    Close,
    Finish(bool),
    Nothing,
}

/// What a download does next.
#[derive(Debug)]
pub enum DownloadAction {
    /// Send a request and wait for the reply.
    Request(Vec<u8>),
    /// Close the link.
    Close,
    /// The download is over; it succeeded where `true`.
    Finish(bool),
    /// The event does not fit.
    Nothing,
}

impl View for DownloadAction {
    type V = DownloadStep;

    open spec fn view(&self) -> DownloadStep {
        match self {
            DownloadAction::Request(data) => DownloadStep::Request(data@),
            DownloadAction::Close => DownloadStep::Close,
            DownloadAction::Finish(success) => DownloadStep::Finish(*success),
            DownloadAction::Nothing => DownloadStep::Nothing,
        }
    }
}

/// A download in another phase.
pub open spec fn in_phase(d: DownloadModel, phase: DownloadPhase) -> DownloadModel {
    DownloadModel { phase, ..d }
}

/// The available messages that are not there already.
pub open spec fn wanted(d: DownloadModel) -> Seq<Seq<u8>> {
    d.available.filter(listed(d.local, false))
}

/// The available messages that are there already.
pub open spec fn had(d: DownloadModel) -> Seq<Seq<u8>> {
    d.available.filter(listed(d.local, true))
}

/// What messages are known by.
pub open spec fn digests(messages: Seq<Seq<u8>>) -> Seq<Seq<u8>> {
    Seq::new(messages.len(), |i: int| digest(messages[i]))
}

/// The messages that the node can drop: those that it sent, or else those that were there
/// already.
pub open spec fn collected(d: DownloadModel) -> Seq<Seq<u8>> {
    if d.received.len() > 0 {
        digests(d.received)
    } else {
        had(d)
    }
}

/// A download that has the node drop what it can, and then closes the link.
pub open spec fn cleans_up(d: DownloadModel) -> (DownloadModel, DownloadStep) {
    if collected(d).len() > 0 {
        (
            in_phase(d, DownloadPhase::Purging),
            DownloadStep::Request(encoding(purge_element(collected(d)))),
        )
    } else {
        (in_phase(d, DownloadPhase::Closing), DownloadStep::Close)
    }
}

/// A download that failed.
pub open spec fn fails(d: DownloadModel) -> (DownloadModel, DownloadStep) {
    (in_phase(d, DownloadPhase::Failed), DownloadStep::Finish(false))
}

/// A download that has the list of messages.
pub open spec fn has_list(d: DownloadModel, available: Seq<Seq<u8>>) -> (
    DownloadModel,
    DownloadStep,
) {
    let l = DownloadModel { available, ..d };
    if wanted(l).len() > 0 {
        (
            in_phase(l, DownloadPhase::Fetching),
            DownloadStep::Request(encoding(get_element(wanted(l), had(l), l.limit))),
        )
    } else {
        cleans_up(l)
    }
}

/// What a download does when something happened to it.
pub open spec fn download_step(d: DownloadModel, event: DownloadEvent<'_>) -> (
    DownloadModel,
    DownloadStep,
) {
    match (d.phase, event) {
        (DownloadPhase::Succeeded, _) => (d, DownloadStep::Nothing),
        (DownloadPhase::Failed, _) => (d, DownloadStep::Nothing),
        (_, DownloadEvent::Failed) => fails(d),
        (DownloadPhase::Connecting, DownloadEvent::Connected) => (
            in_phase(d, DownloadPhase::Listing),
            DownloadStep::Request(encoding(list_element())),
        ),
        (DownloadPhase::Listing, DownloadEvent::Reply(data)) => match list_in(data@, Some(32)) {
            Some(available) => has_list(d, available),
            None => fails(d),
        },
        (DownloadPhase::Fetching, DownloadEvent::Reply(data)) => match list_in(
            data@,
            None,
        ) {
            Some(received) => cleans_up(DownloadModel { received, ..d }),
            None => fails(d),
        },
        (DownloadPhase::Purging, DownloadEvent::Reply(data)) => (
            in_phase(d, DownloadPhase::Closing),
            DownloadStep::Close,
        ),
        (DownloadPhase::Closing, DownloadEvent::Closed) => (
            in_phase(d, DownloadPhase::Succeeded),
            DownloadStep::Finish(true),
        ),
        _ => (d, DownloadStep::Nothing),
    }
}

impl Download {
    /// A download that waits for its link.
    pub fn new(local: Vec<Vec<u8>>, limit: Option<u64>) -> (d: Self)
        ensures
            d@ == (DownloadModel {
                phase: DownloadPhase::Connecting,
                local: contents(local@),
                limit,
                available: Seq::empty(),
                received: Seq::empty(),
            }),
    {
        let d = Download {
            phase: DownloadPhase::Connecting,
            local,
            limit,
            available: Vec::new(),
            received: Vec::new(),
        };
        assert(d@.available =~= Seq::empty());
        assert(d@.received =~= Seq::empty());
        d
    }

    fn fail(&mut self) -> (action: DownloadAction)
        ensures
            (final(self)@, action@) == fails(old(self)@),
    {
        self.phase = DownloadPhase::Failed;
        DownloadAction::Finish(false)
    }

    /// Has the node drop what it can.
    fn clean_up(&mut self) -> (action: DownloadAction)
        ensures
            (final(self)@, action@) == cleans_up(old(self)@),
    {
        let ids = if self.received.len() > 0 {
            message_digests(&self.received)
        } else {
            split_by(&self.available, &self.local, true)
        };
        proof {
            assert(self@.received.len() == self.received@.len());
            assert(contents(ids@) == collected(self@));
            assert(contents(ids@).len() == ids@.len());
        }
        if ids.len() > 0 {
            self.phase = DownloadPhase::Purging;
            DownloadAction::Request(purge_request(&ids))
        } else {
            self.phase = DownloadPhase::Closing;
            DownloadAction::Close
        }
    }

    /// Goes on once the list of messages is there.
    fn take_list(&mut self, available: Vec<Vec<u8>>) -> (action: DownloadAction)
        ensures
            (final(self)@, action@) == has_list(old(self)@, contents(available@)),
    {
        self.available = available;
        let wants = split_by(&self.available, &self.local, false);
        let haves = split_by(&self.available, &self.local, true);
        assert(contents(wants@).len() == wants@.len());
        if wants.len() > 0 {
            self.phase = DownloadPhase::Fetching;
            DownloadAction::Request(get_request(&wants, &haves, self.limit))
        } else {
            self.clean_up()
        }
    }

    /// Says what is to be done next.
    pub fn step(&mut self, event: DownloadEvent<'_>) -> (action: DownloadAction)
        ensures
            (final(self)@, action@) == download_step(old(self)@, event),
    {
        if self.phase == DownloadPhase::Succeeded || self.phase == DownloadPhase::Failed {
            return DownloadAction::Nothing;
        }
        match event {
            DownloadEvent::Failed => self.fail(),
            DownloadEvent::Connected => if self.phase == DownloadPhase::Connecting {
                self.phase = DownloadPhase::Listing;
                DownloadAction::Request(list_request())
            } else {
                DownloadAction::Nothing
            },
            DownloadEvent::Closed => if self.phase == DownloadPhase::Closing {
                self.phase = DownloadPhase::Succeeded;
                DownloadAction::Finish(true)
            } else {
                DownloadAction::Nothing
            },
            DownloadEvent::Reply(data) => match self.phase {
                DownloadPhase::Listing => match decode_binary_array(data, Some(32)) {
                    Some(available) => self.take_list(available),
                    None => self.fail(),
                },
                DownloadPhase::Fetching => match decode_binary_array(data, None) {
                    Some(received) => {
                        self.received = received;
                        self.clean_up()
                    },
                    None => self.fail(),
                },
                DownloadPhase::Purging => {
                    self.phase = DownloadPhase::Closing;
                    DownloadAction::Close
                },
                _ => DownloadAction::Nothing,
            },
        }
    }
}

/// What messages are known by.
fn message_digests(messages: &Vec<Vec<u8>>) -> (ids: Vec<Vec<u8>>)
    ensures
        contents(ids@) == digests(contents(messages@)),
{
    let mut ids: Vec<Vec<u8>> = Vec::new();
    let mut i: usize = 0;
    while i < messages.len()
        invariant
            i <= messages@.len(),
            ids@.len() == i,
            forall|j: int| 0 <= j < i ==> (#[trigger] ids@[j])@ == digest(messages@[j]@),
        decreases messages@.len() - i,
    {
        let h = full_hash(messages[i].as_slice());
        ids.push(to_vec(&h));
        i = i + 1;
    }
    assert(contents(ids@) =~= digests(contents(messages@)));
    ids
}

// ---------------------------------------------------------------------------
// A client.
// ---------------------------------------------------------------------------

/// What a client knows.
#[verifier::ext_equal]
pub ghost struct ClientModel {
    pub outbound_propagation_node: Option<[u8; 16]>,
    pub state: PropagationClientState,
    pub identity_pub: Option<[u8; 64]>,
    pub identity_key: Option<[u8; 32]>,
    pub available: Seq<Seq<u8>>,
    pub local: Seq<Seq<u8>>,
    pub received: Seq<Seq<u8>>,
    pub delivery_limit: Option<u64>,
    pub started_at: Option<i64>,
    pub active: bool,
}

/// A client of a propagation node.
#[derive(Debug)]
pub struct PropagationClient {
    pub outbound_propagation_node: Option<[u8; 16]>,
    pub state: PropagationClientState,
    identity_pub: Option<[u8; 64]>,
    identity_key: Option<[u8; 32]>,
    available_messages: Vec<Vec<u8>>,
    local_messages: Vec<Vec<u8>>,
    received_messages: Vec<Vec<u8>>,
    delivery_limit: Option<u64>,
    started_at: Option<i64>,
    workflow_active: bool,
}

impl View for PropagationClient {
    type V = ClientModel;

    closed spec fn view(&self) -> ClientModel {
        ClientModel {
            outbound_propagation_node: self.outbound_propagation_node,
            state: self.state,
            identity_pub: self.identity_pub,
            identity_key: self.identity_key,
            available: contents(self.available_messages@),
            local: contents(self.local_messages@),
            received: contents(self.received_messages@),
            delivery_limit: self.delivery_limit,
            started_at: self.started_at,
            active: self.workflow_active,
        }
    }
}

/// Whether a client can start a download.
pub open spec fn can_start(c: ClientModel, runtime_ready: bool) -> bool {
    runtime_ready && c.outbound_propagation_node is Some && c.identity_pub is Some && c.identity_key
        is Some && !c.active
}

/// A client that has the result of a download.
pub open spec fn concluded(c: ClientModel, d: DownloadModel, success: bool) -> ClientModel {
    ClientModel {
        active: false,
        available: d.available,
        received: c.received + d.received,
        state: if success {
            PropagationClientState::Complete
        } else {
            PropagationClientState::Failed
        },
        ..c
    }
}

/// A client that is ready for another download, where the last one is over.
pub open spec fn settled(c: ClientModel) -> ClientModel {
    if !c.active && (c.state == PropagationClientState::Complete || c.state
        == PropagationClientState::Failed) {
        ClientModel { started_at: None, state: PropagationClientState::Idle, ..c }
    } else {
        c
    }
}

impl PropagationClient {
    pub fn new(identity_pub: Option<[u8; 64]>, identity_key: Option<[u8; 32]>) -> (c: Self)
        ensures
            c@ == (ClientModel {
                outbound_propagation_node: None,
                state: PropagationClientState::Idle,
                identity_pub,
                identity_key,
                available: Seq::empty(),
                local: Seq::empty(),
                received: Seq::empty(),
                delivery_limit: Some(DEFAULT_DELIVERY_LIMIT),
                started_at: None,
                active: false,
            }),
    {
        let c = PropagationClient {
            outbound_propagation_node: None,
            state: PropagationClientState::Idle,
            identity_pub,
            identity_key,
            available_messages: Vec::new(),
            local_messages: Vec::new(),
            received_messages: Vec::new(),
            delivery_limit: Some(DEFAULT_DELIVERY_LIMIT),
            started_at: None,
            workflow_active: false,
        };
        assert(c@.available =~= Seq::empty());
        assert(c@.local =~= Seq::empty());
        assert(c@.received =~= Seq::empty());
        c
    }

    pub fn set_propagation_node(&mut self, dest_hash: [u8; 16])
        ensures
            final(self)@ == (ClientModel {
                outbound_propagation_node: Some(dest_hash),
                ..old(self)@
            }),
    {
        self.outbound_propagation_node = Some(dest_hash);
    }

    /// Sets the kilobytes that the client takes, by their bit pattern.
    pub fn set_delivery_limit(&mut self, limit_kb: u64)
        ensures
            final(self)@ == (ClientModel { delivery_limit: Some(limit_kb), ..old(self)@ }),
    {
        self.delivery_limit = Some(limit_kb);
    }

    /// Notes that a message is there already.
    pub fn add_local_message(&mut self, transient_id: PropagationTransientId)
        ensures
            final(self)@ == (ClientModel {
                local: with_bytes(old(self)@.local, transient_id@),
                ..old(self)@
            }),
    {
        let id = to_vec(&transient_id);
        self.add_local_message_id(id);
    }

    /// Notes that a message is there already.
    pub fn add_local_message_id(&mut self, transient_id: Vec<u8>)
        ensures
            final(self)@ == (ClientModel {
                local: with_bytes(old(self)@.local, transient_id@),
                ..old(self)@
            }),
    {
        if !has_bytes(&self.local_messages, &transient_id) {
            let ghost before = self.local_messages@;
            let ghost id = transient_id@;
            self.local_messages.push(transient_id);
            assert(contents(self.local_messages@) =~= contents(before).push(id));
        }
    }

    /// The messages that the node had at the last download.
    pub fn available_messages(&self) -> (list: &Vec<Vec<u8>>)
        ensures
            contents(list@) == self@.available,
    {
        &self.available_messages
    }

    /// Takes the messages that were received.
    pub fn take_received_messages(&mut self) -> (list: Vec<Vec<u8>>)
        ensures
            contents(list@) == old(self)@.received,
            final(self)@ == (ClientModel { received: Seq::empty(), ..old(self)@ }),
    {
        let mut list: Vec<Vec<u8>> = Vec::new();
        std::mem::swap(&mut list, &mut self.received_messages);
        assert(self@.received =~= Seq::empty());
        list
    }

    /// Starts a download, unless one is running or something is missing for it.
    pub fn start_download(&mut self, runtime_ready: bool, now: i64) -> (r: Option<Download>)
        ensures
            r is Some <==> can_start(old(self)@, runtime_ready),
            r matches Some(d) ==> d@ == (DownloadModel {
                phase: DownloadPhase::Connecting,
                local: old(self)@.local,
                limit: old(self)@.delivery_limit,
                available: Seq::empty(),
                received: Seq::empty(),
            }) && final(self)@ == (ClientModel {
                active: true,
                state: PropagationClientState::LinkEstablishing,
                started_at: Some(now),
                ..old(self)@
            }),
            r is None ==> final(self)@ == old(self)@,
    {
        if !runtime_ready || self.outbound_propagation_node.is_none() || self.identity_pub.is_none()
            || self.identity_key.is_none() || self.workflow_active {
            return None;
        }
        self.workflow_active = true;
        self.state = PropagationClientState::LinkEstablishing;
        self.started_at = Some(now);
        Some(Download::new(copy_list(&self.local_messages), self.delivery_limit))
    }

    /// Takes the result of a download that is over, where there is one, and makes the client
    /// ready for another.
    pub fn tick(&mut self, result: Option<(Download, bool)>)
        ensures
            final(self)@ == settled(
                match result {
                    Some((d, success)) => concluded(old(self)@, d@, success),
                    None => old(self)@,
                },
            ),
    {
        match result {
            Some((d, success)) => {
                let ghost before = self.received_messages@;
                let ghost got = d.received@;
                self.workflow_active = false;
                self.available_messages = d.available;
                let mut more = d.received;
                self.received_messages.append(&mut more);
                assert(contents(self.received_messages@) =~= contents(before) + contents(got));
                self.state = if success {
                    PropagationClientState::Complete
                } else {
                    PropagationClientState::Failed
                };
            },
            None => {},
        }
        if !self.workflow_active && (self.state == PropagationClientState::Complete || self.state
            == PropagationClientState::Failed) {
            self.started_at = None;
            self.state = PropagationClientState::Idle;
        }
    }

    pub fn received_count(&self) -> (n: usize)
        ensures
            n == self@.received.len(),
    {
        assert(contents(self.received_messages@).len() == self.received_messages@.len());
        self.received_messages.len()
    }
}

/// A list with one more byte string, unless it has it.
pub open spec fn with_bytes(list: Seq<Seq<u8>>, b: Seq<u8>) -> Seq<Seq<u8>> {
    if list.contains(b) {
        list
    } else {
        list.push(b)
    }
}

// ---------------------------------------------------------------------------
// What a download asks for.
// ---------------------------------------------------------------------------

/// A download asks for no message that is there already, and for none that the node does not
/// have.
pub proof fn downloads_ask_only_for_what_is_missing(d: DownloadModel, b: Seq<u8>)
    ensures
        wanted(d).contains(b) <==> d.available.contains(b) && !d.local.contains(b),
        had(d).contains(b) <==> d.available.contains(b) && d.local.contains(b),
{
    crate::propagation_node::offers::lemma_filter_members(d.available, listed(d.local, false));
    crate::propagation_node::offers::lemma_filter_members(d.available, listed(d.local, true));
}

/// The node is asked to drop nothing but what it sent or what was there already.
pub proof fn downloads_drop_only_what_was_collected(d: DownloadModel, b: Seq<u8>)
    requires
        collected(d).contains(b),
    ensures
        digests(d.received).contains(b) || d.local.contains(b),
{
    downloads_ask_only_for_what_is_missing(d, b);
}

/// A download that is over stays over.
pub proof fn finished_downloads_stay_finished(d: DownloadModel, event: DownloadEvent<'_>)
    requires
        d.phase == DownloadPhase::Succeeded || d.phase == DownloadPhase::Failed,
    ensures
        download_step(d, event) == (d, DownloadStep::Nothing),
{
}

// ---------------------------------------------------------------------------
// How a download goes.
// ---------------------------------------------------------------------------

/// A reply is a list of messages where it is a list: of its byte strings, those of the length
/// that is asked for, in order.
pub proof fn replies_are_read(data: Seq<u8>, m: Model, rest: Seq<u8>, length: Option<usize>)
    ensures
        parsed(data) is None ==> list_in(data, length) is None,
        parsed(data) == Some((m, rest)) && !(m is Array) ==> list_in(data, length) is None,
        parsed(data) == Some((m, rest)) && m is Array && length is None ==> list_in(data, length)
            == Some(byte_items(m->Array_0)),
        parsed(data) == Some((m, rest)) && m is Array && length is Some ==> list_in(data, length)
            == Some(byte_items(m->Array_0).filter(|b: Seq<u8>| b.len() == length->0)),
{
    if parsed(data) == Some((m, rest)) && m is Array {
        let all = byte_items(m->Array_0);
        if let Some(n) = length {
            lemma_filter_agrees(all, of_length(length), |b: Seq<u8>| b.len() == n);
        } else {
            lemma_filter_agrees(all, of_length(length), |b: Seq<u8>| true);
            lemma_filter_true(all);
        }
    }
}

/// Filters that agree leave the same.
proof fn lemma_filter_agrees(
    all: Seq<Seq<u8>>,
    f: spec_fn(Seq<u8>) -> bool,
    g: spec_fn(Seq<u8>) -> bool,
)
    requires
        forall|b: Seq<u8>| #[trigger] f(b) == g(b),
    ensures
        all.filter(f) == all.filter(g),
    decreases all.len(),
{
    reveal(Seq::filter);
    if all.len() > 0 {
        lemma_filter_agrees(all.drop_last(), f, g);
        assert(f(all.last()) == g(all.last()));
    }
}

/// A filter that lets everything through changes nothing.
proof fn lemma_filter_true(all: Seq<Seq<u8>>)
    ensures
        all.filter(|b: Seq<u8>| true) == all,
    decreases all.len(),
{
    reveal(Seq::filter);
    if all.len() > 0 {
        lemma_filter_true(all.drop_last());
        assert(all.filter(|b: Seq<u8>| true) =~= all.drop_last().push(all.last()));
    }
}

/// A node is asked for its list once it can be reached: for nothing, and with nothing to drop.
pub proof fn downloads_begin_with_the_list(d: DownloadModel)
    requires
        d.phase == DownloadPhase::Connecting,
    ensures
        download_step(d, DownloadEvent::Connected).0 == (DownloadModel {
            phase: DownloadPhase::Listing,
            ..d
        }),
        download_step(d, DownloadEvent::Connected).1 == DownloadStep::Request(
            encoding(Model::Array(seq![Model::Nil, Model::Nil])),
        ),
{
}

/// Once it has the list, a download fetches every listed message that is not there, if there is
/// one, and tells which of the others it has; else it has those dropped, if there are any; else
/// it closes the link.
pub proof fn missing_messages_are_fetched(
    d: DownloadModel,
    data: &[u8],
    listed_ids: Seq<Seq<u8>>,
)
    requires
        d.phase == DownloadPhase::Listing,
    ensures
        list_in(data@, Some(32)) == Some(listed_ids) ==> {
            let (after, step) = download_step(d, DownloadEvent::Reply(data));
            let wants = listed_ids.filter(|b: Seq<u8>| !d.local.contains(b));
            let haves = listed_ids.filter(|b: Seq<u8>| d.local.contains(b));
            &&& after.available == listed_ids
            &&& after.local == d.local
            &&& after.limit == d.limit
            &&& after.received == d.received
            &&& wants.len() > 0 ==> after.phase == DownloadPhase::Fetching && step
                == DownloadStep::Request(
                encoding(
                    Model::Array(
                        if d.limit is Some {
                            seq![
                                binary_list(wants),
                                binary_list(haves),
                                Model::Float64(d.limit->0),
                            ]
                        } else {
                            seq![binary_list(wants), binary_list(haves)]
                        },
                    ),
                ),
            )
            &&& wants.len() == 0 && d.received.len() == 0 && haves.len() > 0 ==> after.phase
                == DownloadPhase::Purging && step == DownloadStep::Request(
                encoding(Model::Array(seq![Model::Nil, binary_list(haves)])),
            )
            &&& wants.len() == 0 && d.received.len() == 0 && haves.len() == 0 ==> after.phase
                == DownloadPhase::Closing && step == DownloadStep::Close
        },
{
    lemma_filter_agrees(
        listed_ids,
        listed(d.local, false),
        |b: Seq<u8>| !d.local.contains(b),
    );
    lemma_filter_agrees(listed_ids, listed(d.local, true), |b: Seq<u8>| d.local.contains(b));
}

/// Everything that a node sends is received, and the node is then asked to drop exactly that;
/// where it sent nothing it is asked to drop what was there before, and where there is nothing
/// to drop the link is closed.
pub proof fn fetched_messages_are_received(
    d: DownloadModel,
    data: &[u8],
    messages: Seq<Seq<u8>>,
)
    requires
        d.phase == DownloadPhase::Fetching,
    ensures
        list_in(data@, None) == Some(messages) ==> {
            let (after, step) = download_step(d, DownloadEvent::Reply(data));
            let haves = d.available.filter(|b: Seq<u8>| d.local.contains(b));
            &&& after.received == messages
            &&& after.available == d.available
            &&& after.local == d.local
            &&& after.limit == d.limit
            &&& messages.len() > 0 ==> after.phase == DownloadPhase::Purging && step
                == DownloadStep::Request(
                encoding(
                    Model::Array(
                        seq![
                            Model::Nil,
                            binary_list(messages.map_values(|b: Seq<u8>| digest(b))),
                        ],
                    ),
                ),
            )
            &&& messages.len() == 0 && haves.len() > 0 ==> after.phase == DownloadPhase::Purging
                && step == DownloadStep::Request(
                encoding(Model::Array(seq![Model::Nil, binary_list(haves)])),
            )
            &&& messages.len() == 0 && haves.len() == 0 ==> after.phase == DownloadPhase::Closing
                && step == DownloadStep::Close
        },
{
    lemma_filter_agrees(d.available, listed(d.local, true), |b: Seq<u8>| d.local.contains(b));
    assert(digests(messages) =~= messages.map_values(|b: Seq<u8>| digest(b)));
}

/// A running download fails where something failed or where a list cannot be read, and
/// nowhere else.
pub proof fn downloads_fail_for_a_reason(d: DownloadModel, event: DownloadEvent<'_>)
    requires
        d.phase != DownloadPhase::Succeeded,
        d.phase != DownloadPhase::Failed,
    ensures
        ({
            let (after, step) = download_step(d, event);
            let unreadable = match event {
                DownloadEvent::Reply(data) => {
                    ||| d.phase == DownloadPhase::Listing && list_in(data@, Some(32)) is None
                    ||| d.phase == DownloadPhase::Fetching && list_in(data@, None) is None
                },
                _ => false,
            };
            &&& step == DownloadStep::Finish(false) <==> event is Failed || unreadable
            &&& after.phase == DownloadPhase::Failed <==> step == DownloadStep::Finish(false)
            &&& step == DownloadStep::Finish(false) ==> after == (DownloadModel {
                phase: DownloadPhase::Failed,
                ..d
            })
        }),
{
}

/// A download succeeds once its link is closed after all was done, and not before; the link is
/// closed once the node dropped what it was asked to.
pub proof fn downloads_succeed_once_the_link_is_closed(d: DownloadModel, event: DownloadEvent<'_>)
    ensures
        ({
            let (after, step) = download_step(d, event);
            &&& step == DownloadStep::Finish(true) <==> d.phase == DownloadPhase::Closing
                && event is Closed
            &&& step == DownloadStep::Finish(true) ==> after == (DownloadModel {
                phase: DownloadPhase::Succeeded,
                ..d
            })
            &&& d.phase == DownloadPhase::Purging && event is Reply ==> step
                == DownloadStep::Close && after == (DownloadModel {
                phase: DownloadPhase::Closing,
                ..d
            })
        }),
{
}

/// An event that a download does not wait for changes nothing, and no event changes what was
/// there before, the limit, what the list named once it was read or what was received before
/// there is something new.
pub proof fn downloads_wait_for_their_turn(d: DownloadModel, event: DownloadEvent<'_>)
    ensures
        ({
            let (after, step) = download_step(d, event);
            let awaited = match event {
                DownloadEvent::Connected => d.phase == DownloadPhase::Connecting,
                DownloadEvent::Reply(data) => d.phase == DownloadPhase::Listing || d.phase
                    == DownloadPhase::Fetching || d.phase == DownloadPhase::Purging,
                DownloadEvent::Closed => d.phase == DownloadPhase::Closing,
                DownloadEvent::Failed => d.phase != DownloadPhase::Succeeded && d.phase
                    != DownloadPhase::Failed,
            };
            &&& step == DownloadStep::Nothing <==> !awaited
            &&& !awaited ==> after == d
            &&& after.local == d.local
            &&& after.limit == d.limit
            &&& d.phase != DownloadPhase::Listing ==> after.available == d.available
            &&& d.phase != DownloadPhase::Fetching ==> after.received == d.received
        }),
{
}

// ---------------------------------------------------------------------------
// What a client keeps.
// ---------------------------------------------------------------------------

/// A download can start just where a node is set, both keys are there, the program is ready and
/// no other download runs.
pub proof fn downloads_start_where_nothing_is_missing(c: ClientModel, runtime_ready: bool)
    ensures
        can_start(c, runtime_ready) <==> runtime_ready && !c.active && c.outbound_propagation_node
            != None::<[u8; 16]> && c.identity_pub != None::<[u8; 64]> && c.identity_key
            != None::<[u8; 32]>,
{
}

/// What a download received comes after what was received before, and nothing of either is
/// lost; the client is free for another download, and only what the download was about changes.
pub proof fn received_messages_add_up(c: ClientModel, d: DownloadModel, success: bool)
    ensures
        ({
            let a = settled(concluded(c, d, success));
            &&& a.received.len() == c.received.len() + d.received.len()
            &&& forall|i: int| 0 <= i < c.received.len() ==> #[trigger] a.received[i] == c.received[i]
            &&& forall|i: int|
                0 <= i < d.received.len() ==> a.received[c.received.len() + i] == #[trigger] d.received[i]
            &&& a.available == d.available
            &&& !a.active
            &&& a.state == PropagationClientState::Idle
            &&& a.started_at is None
            &&& a.outbound_propagation_node == c.outbound_propagation_node
            &&& a.identity_pub == c.identity_pub
            &&& a.identity_key == c.identity_key
            &&& a.local == c.local
            &&& a.delivery_limit == c.delivery_limit
        }),
        concluded(c, d, success).state == PropagationClientState::Complete <==> success,
        concluded(c, d, success).state == PropagationClientState::Failed <==> !success,
{
}

/// A client is made ready again once its download is over, and left alone before.
pub proof fn clients_settle_once_it_is_over(c: ClientModel)
    ensures
        c.active ==> settled(c) == c,
        !c.active && (c.state == PropagationClientState::Complete || c.state
            == PropagationClientState::Failed) ==> settled(c) == (ClientModel {
            state: PropagationClientState::Idle,
            started_at: None,
            ..c
        }),
        c.state != PropagationClientState::Complete && c.state != PropagationClientState::Failed
            ==> settled(c) == c,
        settled(settled(c)) == settled(c),
{
}

/// A message that is noted is in the list once, and the list only grows.
pub proof fn noted_messages_are_there(list: Seq<Seq<u8>>, b: Seq<u8>, other: Seq<u8>)
    ensures
        with_bytes(list, b).contains(b),
        other != b ==> (with_bytes(list, b).contains(other) <==> list.contains(other)),
        list.contains(b) ==> with_bytes(list, b) == list,
        !list.contains(b) ==> with_bytes(list, b).drop_last() == list,
        list.no_duplicates() ==> with_bytes(list, b).no_duplicates(),
{
    let after = with_bytes(list, b);
    if !list.contains(b) {
        assert(after[list.len() as int] == b);
        assert(after.drop_last() =~= list);
        if list.contains(other) {
            assert(after[list.index_of(other)] == other);
        }
    }
}

} // verus!
