//! How a node serves the clients that it holds messages for.

use vstd::prelude::*;
use vstd::slice::slice_subrange;

use crate::bytes::{
    copy_slice, fixed, is_less, lemma_fixed, lemma_lex_less_asymmetric, lemma_lex_less_total,
    lemma_lex_less_transitive, lex_less, same, to_vec,
};
use crate::msgpack::{
    decode, encode, encoding, lemma_view, models, number, parsed, Datum, Model,
};
use crate::propagated::transient_digest;
use crate::propagation::PropagationEntry;
use crate::propagation_node::offers::{client_of, for_client};
use crate::propagation_node::{
    holds_id, is_authoritative, is_left_of, owned_by, takes_blob, with_blob, NodeBacking, NodeModel,
    PropagationNode,
};
use crate::storage::{metadata_ids, LxmfStorage, StorageModel, StoredMessageModel};
use crate::sync::{byte_items, collect_bytes, collect_ids, proper_ids};
use crate::table::kept;
use crate::types::PropagationTransientId;

verus! {

// ---------------------------------------------------------------------------
// Plans.
// ---------------------------------------------------------------------------

/// Where the payload of a message that a client asked for is read.
pub ghost enum SourceModel {
    File(PropagationEntry),
    Payload(Seq<u8>),
    Storage(PropagationTransientId),
}

/// One message that a client asked for.
pub ghost struct ReadModel {
    pub source: SourceModel,
    pub stamped: bool,
}

/// Where the payload of a message that a client asked for is read.
#[derive(Debug)]
pub enum PlannedReadSource {
    /// In the file of an entry.
    File(PropagationEntry),
    /// Here.
    Payload(Vec<u8>),
    /// In shared storage.
    Storage(PropagationTransientId),
}

impl View for PlannedReadSource {
    type V = SourceModel;

    open spec fn view(&self) -> SourceModel {
        match self {
            PlannedReadSource::File(entry) => SourceModel::File(*entry),
            PlannedReadSource::Payload(payload) => SourceModel::Payload(payload@),
            PlannedReadSource::Storage(id) => SourceModel::Storage(*id),
        }
    }
}

/// One message that a client asked for.
#[derive(Debug)]
pub struct PlannedRead {
    pub source: PlannedReadSource,
    /// Whether the payload ends in a stamp.
    pub stamped: bool,
}

impl View for PlannedRead {
    type V = ReadModel;

    open spec fn view(&self) -> ReadModel {
        ReadModel { source: self.source@, stamped: self.stamped }
    }
}

/// The messages that a client asked for and may have.
#[derive(Debug)]
pub struct GetServePlan {
    pub reads: Vec<PlannedRead>,
    /// The bit pattern of the kilobytes that the client takes at most.
    pub limit_kilobytes: Option<u64>,
}

/// The messages of a plan.
pub open spec fn reads_of(reads: Seq<PlannedRead>) -> Seq<ReadModel> {
    Seq::new(reads.len(), |i: int| reads[i]@)
}

/// What a request for messages is answered with.
#[derive(Debug)]
pub enum GetRequestAction {
    Respond(Vec<u8>),
    ServeFiles(GetServePlan),
}

/// The bytes that a message list takes before its first message.
pub const LIST_OVERHEAD: i64 = 24;

/// The bytes that a message takes in a list besides its own.
pub const MESSAGE_OVERHEAD: i64 = 16;

/// The payload of a planned read: its own, or the one that was fetched.
pub open spec fn payload_of(read: ReadModel, fetched: Option<Seq<u8>>) -> Option<Seq<u8>> {
    match read.source {
        SourceModel::Payload(p) => Some(p),
        _ => fetched,
    }
}

/// A payload as a client gets it: without its stamp.
pub open spec fn unstamped(payload: Seq<u8>, stamped: bool) -> Seq<u8> {
    if stamped && payload.len() >= 32 {
        payload.take(payload.len() - 32)
    } else {
        payload
    }
}

/// Whether a list of this many bytes is more than a client takes.
pub open spec fn is_over(bytes: int, limit: Option<i64>) -> bool {
    limit matches Some(most) && bytes > most
}

/// What is sent of some planned reads, and the bytes that they take: each in turn, unless
/// it could not be fetched or would take the list over the limit.
pub open spec fn served(
    reads: Seq<ReadModel>,
    fetched: Seq<Option<Seq<u8>>>,
    limit: Option<i64>,
) -> (Seq<Seq<u8>>, int)
    decreases reads.len(),
{
    if reads.len() == 0 {
        (Seq::empty(), LIST_OVERHEAD as int)
    } else {
        let (sent, bytes) = served(reads.drop_last(), fetched, limit);
        match payload_of(reads.last(), fetched[reads.len() - 1]) {
            Some(p) => {
                let next = bytes + p.len() + MESSAGE_OVERHEAD;
                if is_over(next, limit) {
                    (sent, bytes)
                } else {
                    (sent.push(unstamped(p, reads.last().stamped)), next)
                }
            },
            None => (sent, bytes),
        }
    }
}

/// A list of byte strings, as an element.
pub open spec fn binary_list(items: Seq<Seq<u8>>) -> Model {
    Model::Array(Seq::new(items.len(), |i: int| Model::Binary(items[i])))
}

/// What was fetched.
pub open spec fn payloads(fetched: Seq<Option<Vec<u8>>>) -> Seq<Option<Seq<u8>>> {
    Seq::new(
        fetched.len(),
        |i: int|
            match fetched[i] {
                Some(p) => Some(p@),
                None => None,
            },
    )
}

/// What is sent stays within the limit, unless not even an empty list does.
pub proof fn serving_stays_within_the_limit(
    reads: Seq<ReadModel>,
    fetched: Seq<Option<Seq<u8>>>,
    limit: Option<i64>,
)
    ensures
        served(reads, fetched, limit).1 >= LIST_OVERHEAD,
        limit matches Some(most) ==> (most >= LIST_OVERHEAD ==> served(reads, fetched, limit).1
            <= most) && (most < LIST_OVERHEAD ==> served(reads, fetched, limit).0.len() == 0),
    decreases reads.len(),
{
    if reads.len() > 0 {
        serving_stays_within_the_limit(reads.drop_last(), fetched, limit);
    }
}

impl GetServePlan {
    /// The answer to the client: the messages of the plan that it has room for, without
    /// their stamps.  `fetched` holds what was read of each message that is not in the
    /// plan itself, and `limit` the bytes that the client takes.
    pub fn serve(&self, fetched: &Vec<Option<Vec<u8>>>, limit: Option<i64>) -> (out: Vec<u8>)
        requires
            fetched@.len() == self.reads@.len(),
        ensures
            out@ == encoding(
                binary_list(served(reads_of(self.reads@), payloads(fetched@), limit).0),
            ),
    {
        let ghost reads = reads_of(self.reads@);
        let ghost given = payloads(fetched@);
        let mut items: Vec<Datum> = Vec::new();
        let mut bytes: i128 = LIST_OVERHEAD as i128;
        let mut i: usize = 0;
        assert(models(items@) =~= binary_list(served(reads.take(0), given, limit).0)->Array_0);
        while i < self.reads.len()
            invariant
                i <= self.reads@.len(),
                fetched@.len() == self.reads@.len(),
                reads == reads_of(self.reads@),
                given == payloads(fetched@),
                models(items@) == binary_list(
                    served(reads.take(i as int), given, limit).0,
                )->Array_0,
                limit is Some ==> bytes == served(reads.take(i as int), given, limit).1,
                LIST_OVERHEAD <= bytes <= 0x7fff_ffff_ffff_ffff,
            decreases self.reads@.len() - i,
        {
            let ghost sent = served(reads.take(i as int), given, limit).0;
            proof {
                assert(reads.take(i + 1).drop_last() =~= reads.take(i as int));
                assert(reads.take(i + 1).last() == self.reads@[i as int]@);
            }
            let payload: Option<&Vec<u8>> = match &self.reads[i].source {
                PlannedReadSource::Payload(p) => Some(p),
                _ => match &fetched[i] {
                    Some(p) => Some(p),
                    None => None,
                },
            };
            match payload {
                Some(p) => {
                    let next: i128 = bytes + p.len() as i128 + MESSAGE_OVERHEAD as i128;
                    let over = match limit {
                        Some(most) => next > most as i128,
                        None => false,
                    };
                    if !over {
                        let ghost before = items@;
                        let kept = if self.reads[i].stamped && p.len() >= 32 {
                            let shorter: usize = p.len() - 32;
                            let part = slice_subrange(p.as_slice(), 0, shorter);
                            assert(part@ =~= p@.take(p@.len() - 32));
                            copy_slice(part)
                        } else {
                            copy_slice(p.as_slice())
                        };
                        let ghost kept_bytes = kept@;
                        let item = Datum::Binary(kept);
                        items.push(item);
                        proof {
                            assert(kept_bytes == unstamped(p@, self.reads@[i as int].stamped));
                            assert(models(items@) =~= models(before).push(
                                Model::Binary(kept_bytes),
                            ));
                            assert(binary_list(sent.push(kept_bytes))->Array_0 =~= binary_list(
                                sent,
                            )->Array_0.push(Model::Binary(kept_bytes)));
                        }
                        match limit {
                            Some(_) => {
                                bytes = next;
                            },
                            None => {},
                        }
                    }
                },
                None => {},
            }
            i = i + 1;
        }
        assert(reads.take(i as int) =~= reads);
        let list = Datum::Array(items);
        proof {
            lemma_view(&list);
        }
        encode(&list)
    }
}

impl GetRequestAction {
    /// The answer to the client.  What has to be read for it is in `fetched`, in the order
    /// of the plan.
    pub fn into_response(self, fetched: &Vec<Option<Vec<u8>>>, limit: Option<i64>) -> (out: Vec<u8>)
        requires
            self matches GetRequestAction::ServeFiles(plan) ==> fetched@.len() == plan.reads@.len(),
        ensures
            self matches GetRequestAction::Respond(bytes) ==> out@ == bytes@,
            self matches GetRequestAction::ServeFiles(plan) ==> out@ == encoding(
                binary_list(served(reads_of(plan.reads@), payloads(fetched@), limit).0),
            ),
    {
        match self {
            GetRequestAction::Respond(bytes) => bytes,
            GetRequestAction::ServeFiles(plan) => plan.serve(fetched, limit),
        }
    }
}

// ---------------------------------------------------------------------------
// Requests.
// ---------------------------------------------------------------------------

/// A request for messages: what is wanted, what is there already, and the bit pattern of
/// the kilobytes that are taken at most.
pub open spec fn request_in(data: Seq<u8>) -> Option<(Model, Model, Option<u64>)> {
    match parsed(data) {
        Some((Model::Array(s), _)) => if s.len() < 2 {
            None
        } else {
            Some(
                (
                    s[0],
                    s[1],
                    if s.len() > 2 {
                        number(s[2])
                    } else {
                        None
                    },
                ),
            )
        },
        _ => None,
    }
}

/// The identifiers in a list.
pub open spec fn ids_in(m: Model) -> Seq<PropagationTransientId> {
    match m {
        Model::Array(s) => proper_ids(byte_items(s)),
        _ => Seq::empty(),
    }
}

/// The bytes of a message that a node holds.
pub open spec fn held_size(m: NodeModel, id: PropagationTransientId) -> usize {
    if is_authoritative(m.backing) {
        m.storage.messages[id].metadata.payload_size
    } else {
        m.index[id].size
    }
}

/// Whether one message stands before another in a list: the smaller, or of two that have
/// one size the one with the smaller identifier.
pub open spec fn is_smaller(a: (PropagationTransientId, usize), b: (PropagationTransientId, usize)) -> bool {
    a.1 < b.1 || (a.1 == b.1 && lex_less(a.0@, b.0@))
}

/// Whether `ids` are the messages that a node holds for a client, the smallest first.
pub open spec fn is_listing(
    m: NodeModel,
    client: [u8; 16],
    ids: Seq<PropagationTransientId>,
) -> bool {
    &&& forall|k: [u8; 32]| #[trigger] ids.contains(k) <==> owned_by(m, k, client)
    &&& is_by_size(m, ids)
}

/// Whether `ids` are some of the messages that a node holds for a client, the smallest
/// first.
pub open spec fn is_partial_listing(
    m: NodeModel,
    client: [u8; 16],
    ids: Seq<PropagationTransientId>,
) -> bool {
    &&& forall|i: int| 0 <= i < ids.len() ==> owned_by(m, #[trigger] ids[i], client)
    &&& is_by_size(m, ids)
}

/// Whether some messages stand with the smallest first.
pub open spec fn is_by_size(m: NodeModel, ids: Seq<PropagationTransientId>) -> bool {
    forall|i: int, j: int|
        0 <= i < j < ids.len() ==> is_smaller(
            (#[trigger] ids[i], held_size(m, ids[i])),
            (#[trigger] ids[j], held_size(m, ids[j])),
        )
}

/// The identifiers of some messages, as an element.
pub open spec fn id_list(ids: Seq<PropagationTransientId>) -> Model {
    Model::Array(Seq::new(ids.len(), |i: int| Model::Binary(ids[i]@)))
}

/// Whether some bytes list the messages that a node holds for a client.  A node whose
/// storage fails lists those that it found.
pub open spec fn lists_messages(m: NodeModel, sure: bool, client: [u8; 16], out: Seq<u8>) -> bool {
    ||| exists|ids: Seq<PropagationTransientId>| #[trigger]
        is_listing(m, client, ids) && out == encoding(id_list(ids))
    ||| !sure && exists|ids: Seq<PropagationTransientId>| #[trigger]
        is_partial_listing(m, client, ids) && out == encoding(id_list(ids))
}

/// A node without those of some messages that are a client's own.
pub open spec fn purged(
    m: NodeModel,
    ids: Seq<PropagationTransientId>,
    client: [u8; 16],
) -> NodeModel {
    NodeModel {
        index: kept(
            m.index,
            |k: [u8; 32], e: PropagationEntry| !(ids.contains(k) && owned_by(m, k, client)),
        ),
        storage: StorageModel {
            messages: kept(
                m.storage.messages,
                |k: [u8; 32], e: StoredMessageModel| !(ids.contains(k) && owned_by(m, k, client)),
            ),
            ..m.storage
        },
        ..m
    }
}

/// Whether a node that may fail to drop a message is `after` once a client's own messages
/// among `ids` were dropped.
pub open spec fn is_purged(
    m: NodeModel,
    after: NodeModel,
    reliable: bool,
    ids: Seq<PropagationTransientId>,
    client: [u8; 16],
) -> bool {
    &&& after == (NodeModel {
        index: after.index,
        storage: StorageModel { messages: after.storage.messages, ..m.storage },
        ..m
    })
    &&& is_left_of(after.index, m.index)
    &&& is_left_of(after.storage.messages, m.storage.messages)
    &&& forall|k: [u8; 32]| #[trigger]
        m.index.contains_key(k) && !after.index.contains_key(k) ==> ids.contains(k) && owned_by(
            m,
            k,
            client,
        )
    &&& forall|k: [u8; 32]| #[trigger]
        m.storage.messages.contains_key(k) && !after.storage.messages.contains_key(k)
            ==> ids.contains(k) && owned_by(m, k, client)
    &&& reliable ==> after == purged(m, ids, client)
}

/// The message that a client asked for, where it is its own and can be read.
pub open spec fn planned(
    m: NodeModel,
    id: PropagationTransientId,
    client: [u8; 16],
) -> Option<ReadModel> {
    if !owned_by(m, id, client) {
        None
    } else {
        match m.backing {
            NodeBacking::Memory => None,
            NodeBacking::Directory => Some(
                ReadModel { source: SourceModel::File(m.index[id]), stamped: m.index[id].stamped },
            ),
            NodeBacking::Storage => Some(
                ReadModel {
                    source: SourceModel::Payload(m.storage.messages[id].payload),
                    stamped: m.storage.messages[id].metadata.stamped,
                },
            ),
            NodeBacking::SharedStorage => Some(
                ReadModel {
                    source: SourceModel::Storage(id),
                    stamped: m.storage.messages[id].metadata.stamped,
                },
            ),
        }
    }
}

/// The messages that a client asked for, in the order it asked.
pub open spec fn plans(
    m: NodeModel,
    ids: Seq<PropagationTransientId>,
    client: [u8; 16],
) -> Seq<ReadModel>
    decreases ids.len(),
{
    if ids.len() == 0 {
        Seq::empty()
    } else {
        match planned(m, ids.last(), client) {
            Some(read) => plans(m, ids.drop_last(), client).push(read),
            None => plans(m, ids.drop_last(), client),
        }
    }
}

/// Whether a read is for one of the messages that a client asked for and owns.
pub open spec fn is_own_read(
    m: NodeModel,
    ids: Seq<PropagationTransientId>,
    client: [u8; 16],
    read: ReadModel,
) -> bool {
    exists|k: [u8; 32]| #[trigger] ids.contains(k) && planned(m, k, client) == Some(read)
}

/// Whether `reads` are what a node plans to send a client that asked for `ids`.
pub open spec fn is_plan(
    m: NodeModel,
    sure: bool,
    ids: Seq<PropagationTransientId>,
    client: [u8; 16],
    reads: Seq<ReadModel>,
) -> bool {
    &&& forall|i: int| 0 <= i < reads.len() ==> is_own_read(m, ids, client, #[trigger] reads[i])
    &&& sure ==> reads == plans(m, ids, client)
}

/// Whether a request was answered: a malformed one with nothing, one that wants and has
/// nothing with a list, one that only has something by dropping it, and any other by
/// dropping what it has and then planning what it wants.
pub open spec fn is_answered(
    m: NodeModel,
    after: NodeModel,
    sure: bool,
    reliable: bool,
    data: Seq<u8>,
    client: [u8; 16],
    action: GetRequestAction,
) -> bool {
    match request_in(data) {
        None => after == m && action is Respond && action->Respond_0@ == encoding(Model::Nil),
        Some((wants, haves, limit)) => if wants == Model::Nil && haves == Model::Nil {
            after == m && action is Respond && lists_messages(m, sure, client, action->Respond_0@)
        } else if wants == Model::Nil {
            is_purged(m, after, reliable, ids_in(haves), client) && action is Respond
                && action->Respond_0@ == encoding(Model::Array(Seq::empty()))
        } else {
            is_purged(m, after, reliable, ids_in(haves), client) && action is ServeFiles && is_plan(
                after,
                sure,
                ids_in(wants),
                client,
                reads_of(action->ServeFiles_0.reads@),
            ) && action->ServeFiles_0.limit_kilobytes == limit
        },
    }
}

/// Puts a message in its place among others, the smallest first.
fn insert_by_size(list: &mut Vec<(PropagationTransientId, usize)>, item: (PropagationTransientId, usize))
    requires
        forall|i: int, j: int|
            0 <= i < j < old(list)@.len() ==> is_smaller(
                #[trigger] old(list)@[i],
                #[trigger] old(list)@[j],
            ),
        forall|i: int| 0 <= i < old(list)@.len() ==> (#[trigger] old(list)@[i]).0 != item.0,
    ensures
        forall|i: int, j: int|
            0 <= i < j < final(list)@.len() ==> is_smaller(
                #[trigger] final(list)@[i],
                #[trigger] final(list)@[j],
            ),
        exists|at: int|
            0 <= at <= old(list)@.len() && final(list)@ == #[trigger] old(list)@.insert(at, item),
{
    let ghost before = list@;
    let mut at: usize = 0;
    while at < list.len() && (list[at].1 < item.1 || (list[at].1 == item.1 && is_less(
        &list[at].0,
        &item.0,
    )))
        invariant
            list@ == before,
            at <= list@.len(),
            forall|i: int| 0 <= i < at ==> is_smaller(#[trigger] before[i], item),
        decreases list@.len() - at,
    {
        at = at + 1;
    }
    proof {
        assert forall|j: int| at <= j < before.len() implies is_smaller(
            item,
            #[trigger] before[j],
        ) by {
            let first = before[at as int];
            lemma_lex_less_total(first.0@, item.0@);
            assert(is_smaller(item, first)) by {
                if first.0@ == item.0@ {
                    assert(first.0 =~= item.0);
                }
            }
            if j > at {
                lemma_smaller_transitive(item, first, before[j]);
            }
        }
    }
    list.insert(at, item);
    proof {
        let now = before.insert(at as int, item);
        assert forall|i: int, j: int| 0 <= i < j < now.len() implies is_smaller(
            #[trigger] now[i],
            #[trigger] now[j],
        ) by {
            if j < at {
                assert(now[i] == before[i] && now[j] == before[j]);
            } else if j == at {
                assert(now[i] == before[i]);
            } else if i < at {
                assert(now[i] == before[i] && now[j] == before[j - 1]);
            } else if i == at {
                assert(now[j] == before[j - 1]);
            } else {
                assert(now[i] == before[i - 1] && now[j] == before[j - 1]);
            }
        }
    }
}

proof fn lemma_smaller_transitive(
    a: (PropagationTransientId, usize),
    b: (PropagationTransientId, usize),
    c: (PropagationTransientId, usize),
)
    requires
        is_smaller(a, b),
        is_smaller(b, c),
    ensures
        is_smaller(a, c),
{
    if a.1 == b.1 && b.1 == c.1 {
        lemma_lex_less_transitive(a.0@, b.0@, c.0@);
    }
}

impl<S: LxmfStorage> PropagationNode<S> {
    /// The messages that the node holds for a client, the smallest first, as far as they
    /// are found.
    fn available_for(&self, client: &[u8; 16]) -> (ids: Vec<PropagationTransientId>)
        ensures
            is_partial_listing(self@, *client, ids@),
            self.is_sure() ==> is_listing(self@, *client, ids@),
    {
        let mut found: Vec<(PropagationTransientId, usize)> = Vec::new();
        if self.authoritative() {
            let all = self.storage_metadata(Some(client));
            let ghost m = kept(self@.storage.messages, for_client(client_of(Some(client))));
            let mut i: usize = 0;
            while i < all.len()
                invariant
                    i <= all@.len(),
                    found@.len() == i,
                    forall|j: int|
                        0 <= j < i ==> #[trigger] found@[j] == (
                            all@[j].transient_id,
                            all@[j].payload_size,
                        ),
                decreases all@.len() - i,
            {
                found.push((all[i].transient_id, all[i].payload_size));
                i = i + 1;
            }
            proof {
                let ids = metadata_ids(all@);
                assert forall|j: int| 0 <= j < found@.len() implies owned_by(
                    self@,
                    (#[trigger] found@[j]).0,
                    *client,
                ) && found@[j].1 == held_size(self@, found@[j].0) by {
                    assert(ids[j] == all@[j].transient_id);
                    assert(ids.contains(ids[j]));
                }
                assert forall|i: int, j: int| 0 <= i < j < found@.len() implies (
                #[trigger] found@[i]).0 != (#[trigger] found@[j]).0 by {
                    assert(lex_less(ids[i]@, ids[j]@));
                    lemma_lex_less_asymmetric(ids[i]@, ids[i]@);
                }
                if self.is_sure() {
                    assert forall|k: [u8; 32]| #[trigger] owned_by(self@, k, *client) implies exists|
                        j: int,
                    | 0 <= j < found@.len() && (#[trigger] found@[j]).0 == k by {
                        assert(m.contains_key(k));
                        assert(ids.contains(k));
                        let j = choose|j: int| 0 <= j < ids.len() && ids[j] == k;
                        assert(found@[j].0 == k);
                    }
                }
            }
        } else {
            let entries = self.store.entries_for_destination(client);
            let mut i: usize = 0;
            while i < entries.len()
                invariant
                    i <= entries@.len(),
                    found@.len() == i,
                    forall|j: int|
                        0 <= j < i ==> #[trigger] found@[j] == (
                            entries@[j].transient_id,
                            entries@[j].size,
                        ),
                decreases entries@.len() - i,
            {
                found.push((entries[i].transient_id, entries[i].size));
                i = i + 1;
            }
            proof {
                assert forall|j: int| 0 <= j < found@.len() implies owned_by(
                    self@,
                    (#[trigger] found@[j]).0,
                    *client,
                ) && found@[j].1 == held_size(self@, found@[j].0) by {
                    assert(self.store@.contains_key(entries@[j].transient_id));
                }
                assert forall|i: int, j: int| 0 <= i < j < found@.len() implies (
                #[trigger] found@[i]).0 != (#[trigger] found@[j]).0 by {
                    assert(entries@[i].transient_id != entries@[j].transient_id);
                }
                assert forall|k: [u8; 32]| #[trigger] owned_by(self@, k, *client) implies exists|
                    j: int,
                | 0 <= j < found@.len() && (#[trigger] found@[j]).0 == k by {
                    assert(self.store@.contains_key(k));
                    let j = choose|j: int|
                        0 <= j < entries@.len() && #[trigger] entries@[j] == self.store@[k];
                    assert(found@[j].0 == k);
                }
            }
        }
        let sorted = sort_by_size(&found);
        let mut ids: Vec<PropagationTransientId> = Vec::new();
        let mut i: usize = 0;
        while i < sorted.len()
            invariant
                i <= sorted@.len(),
                ids@.len() == i,
                forall|j: int| 0 <= j < i ==> #[trigger] ids@[j] == sorted@[j].0,
            decreases sorted@.len() - i,
        {
            ids.push(sorted[i].0);
            i = i + 1;
        }
        proof {
            assert forall|j: int| 0 <= j < ids@.len() implies owned_by(
                self@,
                #[trigger] ids@[j],
                *client,
            ) && sorted@[j].1 == held_size(self@, ids@[j]) by {
                assert(sorted@.contains(sorted@[j]));
                let q = choose|q: int| 0 <= q < found@.len() && found@[q] == sorted@[j];
                assert(owned_by(self@, found@[q].0, *client));
            }
            assert forall|i: int, j: int| 0 <= i < j < ids@.len() implies is_smaller(
                (#[trigger] ids@[i], held_size(self@, ids@[i])),
                (#[trigger] ids@[j], held_size(self@, ids@[j])),
            ) by {
                assert(is_smaller(sorted@[i], sorted@[j]));
            }
            if self.is_sure() {
                assert forall|k: [u8; 32]| owned_by(
                    self@,
                    k,
                    *client,
                ) implies #[trigger] ids@.contains(k) by {
                    let j = choose|j: int| 0 <= j < found@.len() && (#[trigger] found@[j]).0 == k;
                    assert(found@.contains(found@[j]));
                    assert(sorted@.contains(found@[j]));
                    let q = choose|q: int| 0 <= q < sorted@.len() && sorted@[q] == found@[j];
                    assert(ids@[q] == k);
                }
                assert forall|k: [u8; 32]| #[trigger] ids@.contains(k) implies owned_by(
                    self@,
                    k,
                    *client,
                ) by {
                    let j = choose|j: int| 0 <= j < ids@.len() && ids@[j] == k;
                    assert(owned_by(self@, ids@[j], *client));
                }
            }
        }
        ids
    }
}

/// The messages with the smallest first.
fn sort_by_size(list: &Vec<(PropagationTransientId, usize)>) -> (sorted: Vec<
    (PropagationTransientId, usize),
>)
    requires
        forall|i: int, j: int|
            0 <= i < j < list@.len() ==> (#[trigger] list@[i]).0 != (#[trigger] list@[j]).0,
    ensures
        forall|x: (PropagationTransientId, usize)| #[trigger]
            sorted@.contains(x) <==> list@.contains(x),
        forall|i: int, j: int|
            0 <= i < j < sorted@.len() ==> is_smaller(
                #[trigger] sorted@[i],
                #[trigger] sorted@[j],
            ),
{
    let mut sorted: Vec<(PropagationTransientId, usize)> = Vec::new();
    let mut i: usize = 0;
    while i < list.len()
        invariant
            i <= list@.len(),
            forall|i: int, j: int|
                0 <= i < j < list@.len() ==> (#[trigger] list@[i]).0 != (#[trigger] list@[j]).0,
            forall|x: (PropagationTransientId, usize)| #[trigger]
                sorted@.contains(x) <==> list@.take(i as int).contains(x),
            forall|i: int, j: int|
                0 <= i < j < sorted@.len() ==> is_smaller(
                    #[trigger] sorted@[i],
                    #[trigger] sorted@[j],
                ),
        decreases list@.len() - i,
    {
        let ghost before = sorted@;
        let ghost t = list@.take(i as int);
        let item = list[i];
        proof {
            assert forall|j: int| 0 <= j < before.len() implies (#[trigger] before[j]).0
                != item.0 by {
                assert(before.contains(before[j]));
                let q = choose|q: int| 0 <= q < t.len() && t[q] == before[j];
                assert(list@[q].0 != list@[i as int].0);
            }
        }
        insert_by_size(&mut sorted, item);
        proof {
            let at = choose|at: int|
                0 <= at <= before.len() && sorted@ == #[trigger] before.insert(at, item);
            assert(list@.take(i + 1) =~= t.push(item));
            assert forall|x: (PropagationTransientId, usize)| #[trigger]
                sorted@.contains(x) <==> list@.take(i + 1).contains(x) by {
                let n = t.push(item);
                assert(n[t.len() as int] == item);
                assert(sorted@[at] == item);
                if t.contains(x) {
                    let q = choose|q: int| 0 <= q < t.len() && t[q] == x;
                    assert(n[q] == x);
                    assert(before.contains(x));
                    let p = choose|p: int| 0 <= p < before.len() && before[p] == x;
                    if p < at {
                        assert(sorted@[p] == x);
                    } else {
                        assert(sorted@[p + 1] == x);
                    }
                }
                if sorted@.contains(x) && x != item {
                    let p = choose|p: int| 0 <= p < sorted@.len() && sorted@[p] == x;
                    if p < at {
                        assert(before[p] == x);
                    } else {
                        assert(before[p - 1] == x);
                    }
                    assert(before.contains(x));
                    let q = choose|q: int| 0 <= q < t.len() && t[q] == x;
                    assert(n[q] == x);
                }
                if n.contains(x) && x != item {
                    let q = choose|q: int| 0 <= q < n.len() && n[q] == x;
                    assert(t[q] == x);
                }
            }
        }
        i = i + 1;
    }
    assert(list@.take(i as int) =~= list@);
    sorted
}

/// The identifiers in a list.
fn read_ids(value: &Datum) -> (ids: Vec<PropagationTransientId>)
    ensures
        ids@ == ids_in(value@),
{
    proof {
        lemma_view(value);
    }
    match value {
        Datum::Array(items) => {
            let found = collect_bytes(items);
            collect_ids(&found)
        },
        _ => Vec::new(),
    }
}

/// The messages that a request says the client has; none where it is malformed.
pub fn claimed_ids(request_data: &[u8]) -> (ids: Vec<PropagationTransientId>)
    ensures
        ids@ == (match request_in(request_data@) {
            Some((_, haves, _)) => ids_in(haves),
            None => Seq::empty(),
        }),
{
    let value = match decode(request_data) {
        Some((v, _)) => v,
        None => {
            return Vec::new();
        },
    };
    proof {
        lemma_view(&value);
    }
    match &value {
        Datum::Array(items) => {
            if items.len() < 2 {
                return Vec::new();
            }
            assert(models(items@)[1] == items@[1]@);
            read_ids(&items[1])
        },
        _ => Vec::new(),
    }
}

/// The identifiers of some messages, as an element.
fn write_ids(ids: &Vec<PropagationTransientId>) -> (d: Datum)
    ensures
        d@ == id_list(ids@),
{
    let mut items: Vec<Datum> = Vec::new();
    let mut i: usize = 0;
    while i < ids.len()
        invariant
            i <= ids@.len(),
            items@.len() == i,
            forall|j: int| 0 <= j < i ==> (#[trigger] items@[j])@ == Model::Binary(ids@[j]@),
        decreases ids@.len() - i,
    {
        items.push(Datum::Binary(to_vec(&ids[i])));
        i = i + 1;
    }
    assert(models(items@) =~= Seq::new(ids@.len(), |i: int| Model::Binary(ids@[i]@)));
    let d = Datum::Array(items);
    proof {
        lemma_view(&d);
    }
    d
}

/// Dropping one more message.
proof fn lemma_purged_step(
    m: NodeModel,
    ids: Seq<PropagationTransientId>,
    client: [u8; 16],
    id: PropagationTransientId,
    held: NodeModel,
)
    requires
        held == purged(m, ids, client),
    ensures
        owned_by(held, id, client) ==> purged(m, ids.push(id), client) == (NodeModel {
            index: held.index.remove(id),
            storage: StorageModel { messages: held.storage.messages.remove(id), ..held.storage },
            ..held
        }),
        !owned_by(held, id, client) ==> purged(m, ids.push(id), client) == held,
{
    let all = ids.push(id);
    let next = purged(m, all, client);
    assert forall|k: [u8; 32]| #[trigger] all.contains(k) <==> ids.contains(k) || k == id by {
        if ids.contains(k) {
            let q = choose|q: int| 0 <= q < ids.len() && ids[q] == k;
            assert(all[q] == k);
        }
        assert(all[ids.len() as int] == id);
        if all.contains(k) && k != id {
            let q = choose|q: int| 0 <= q < all.len() && all[q] == k;
            assert(ids[q] == k);
        }
    }
    if owned_by(held, id, client) {
        assert(next.index =~= held.index.remove(id));
        assert(next.storage.messages =~= held.storage.messages.remove(id));
    } else {
        assert(next.index =~= held.index);
        assert(next.storage.messages =~= held.storage.messages);
    }
}

impl<S: LxmfStorage> PropagationNode<S> {
    /// Drops a message for the client that it is for.
    fn purge_client_entry(&mut self, id: &PropagationTransientId, client: &[u8; 16])
        ensures
            final(self).reliable() == old(self).reliable(),
            ({
                let m = old(self)@;
                let after = final(self)@;
                let gone = NodeModel {
                    index: m.index.remove(*id),
                    storage: StorageModel { messages: m.storage.messages.remove(*id), ..m.storage },
                    ..m
                };
                let unlisted = NodeModel { index: m.index.remove(*id), ..m };
                &&& after == m || (owned_by(m, *id, *client) && (after == gone || after
                    == unlisted))
                &&& old(self).reliable() ==> after == (if owned_by(m, *id, *client) {
                    gone
                } else {
                    m
                })
            }),
    {
        let owned = if self.authoritative() {
            match self.storage.message_metadata(id) {
                Ok(Some(metadata)) => same(&metadata.destination_hash, client),
                _ => false,
            }
        } else {
            match self.store.get(id) {
                Some(entry) => same(&entry.destination_hash, client),
                None => false,
            }
        };
        if owned {
            let _ = self.store.remove(id);
            let _ = self.storage.remove_message(id);
        }
    }

    /// Drops those of some messages that are for a client.
    fn purge_client_entries(&mut self, ids: &Vec<PropagationTransientId>, client: &[u8; 16])
        ensures
            final(self).reliable() == old(self).reliable(),
            is_purged(old(self)@, final(self)@, old(self).reliable(), ids@, *client),
    {
        let ghost m = self@;
        let mut i: usize = 0;
        proof {
            assert(ids@.take(0) =~= Seq::<[u8; 32]>::empty());
            assert(purged(m, ids@.take(0), *client).index =~= m.index);
            assert(purged(m, ids@.take(0), *client).storage.messages =~= m.storage.messages);
        }
        while i < ids.len()
            invariant
                i <= ids@.len(),
                m == old(self)@,
                self.reliable() == old(self).reliable(),
                is_purged(m, self@, self.reliable(), ids@.take(i as int), *client),
            decreases ids@.len() - i,
        {
            let ghost held = self@;
            let ghost t = ids@.take(i as int);
            let id = ids[i];
            proof {
                lemma_purged_step(m, t, *client, id, purged(m, t, *client));
                assert(ids@.take(i + 1) =~= t.push(id));
            }
            self.purge_client_entry(&id, client);
            proof {
                let all = t.push(id);
                assert forall|k: [u8; 32]| t.contains(k) || k == id implies #[trigger] all.contains(
                    k,
                ) by {
                    if t.contains(k) {
                        let q = choose|q: int| 0 <= q < t.len() && t[q] == k;
                        assert(all[q] == k);
                    }
                    assert(all[t.len() as int] == id);
                }
                assert(owned_by(held, id, *client) ==> owned_by(m, id, *client));
                assert(is_purged(m, self@, self.reliable(), all, *client));
            }
            i = i + 1;
        }
        assert(ids@.take(i as int) =~= ids@);
    }

    /// The messages that a client asked for and may have.
    fn plan_wants(&self, ids: &Vec<PropagationTransientId>, client: &[u8; 16]) -> (reads: Vec<
        PlannedRead,
    >)
        ensures
            is_plan(self@, self.is_sure(), ids@, *client, reads_of(reads@)),
    {
        let ghost m = self@;
        let mut reads: Vec<PlannedRead> = Vec::new();
        let mut i: usize = 0;
        assert(reads_of(reads@) =~= plans(m, ids@.take(0), *client));
        while i < ids.len()
            invariant
                i <= ids@.len(),
                m == self@,
                forall|j: int|
                    0 <= j < reads@.len() ==> is_own_read(
                        m,
                        ids@,
                        *client,
                        #[trigger] reads_of(reads@)[j],
                    ),
                self.is_sure() ==> reads_of(reads@) == plans(m, ids@.take(i as int), *client),
            decreases ids@.len() - i,
        {
            let ghost before = reads@;
            let id = ids[i];
            proof {
                assert(ids@.take(i + 1).drop_last() =~= ids@.take(i as int));
                assert(ids@.contains(id));
            }
            match self.plan_want(&id, client) {
                Some(read) => {
                    let ghost model = read@;
                    reads.push(read);
                    proof {
                        assert(reads_of(reads@) =~= reads_of(before).push(model));
                        assert(is_own_read(m, ids@, *client, model));
                        assert forall|j: int| 0 <= j < reads@.len() implies is_own_read(
                            m,
                            ids@,
                            *client,
                            #[trigger] reads_of(reads@)[j],
                        ) by {
                            if j < before.len() {
                                assert(reads_of(reads@)[j] == reads_of(before)[j]);
                            }
                        }
                    }
                },
                None => {},
            }
            i = i + 1;
        }
        assert(ids@.take(i as int) =~= ids@);
        reads
    }

    /// The message that a client asked for, where it may have it.
    fn plan_want(&self, id: &PropagationTransientId, client: &[u8; 16]) -> (r: Option<PlannedRead>)
        ensures
            r matches Some(read) ==> planned(self@, *id, *client) == Some(read@),
            self.is_sure() && r is None ==> planned(self@, *id, *client) is None,
    {
        match self.backing {
            NodeBacking::Memory => None,
            NodeBacking::Directory => match self.store.get(id) {
                Some(entry) => if same(&entry.destination_hash, client) {
                    Some(
                        PlannedRead {
                            source: PlannedReadSource::File(entry),
                            stamped: entry.stamped,
                        },
                    )
                } else {
                    None
                },
                None => None,
            },
            NodeBacking::SharedStorage => match self.storage.message_metadata(id) {
                Ok(Some(metadata)) => if same(&metadata.destination_hash, client) {
                    Some(
                        PlannedRead {
                            source: PlannedReadSource::Storage(*id),
                            stamped: metadata.stamped,
                        },
                    )
                } else {
                    None
                },
                _ => None,
            },
            NodeBacking::Storage => match self.storage.message_metadata(id) {
                Ok(Some(metadata)) => if same(&metadata.destination_hash, client) {
                    match self.storage.message_payload(id) {
                        Ok(Some(payload)) => Some(
                            PlannedRead {
                                source: PlannedReadSource::Payload(payload),
                                stamped: metadata.stamped,
                            },
                        ),
                        _ => None,
                    }
                } else {
                    None
                },
                _ => None,
            },
        }
    }

    /// Answers a client that asks for messages.
    pub fn handle_get_request(&mut self, request_data: &[u8], client_dest_hash: &[u8; 16]) -> (
    action: GetRequestAction)
        ensures
            final(self).reliable() == old(self).reliable(),
            is_answered(
                old(self)@,
                final(self)@,
                old(self).is_sure(),
                old(self).reliable(),
                request_data@,
                *client_dest_hash,
                action,
            ),
    {
        let nothing = Datum::Nil;
        let value = match decode(request_data) {
            Some((v, _)) => v,
            None => {
                return GetRequestAction::Respond(encode(&nothing));
            },
        };
        proof {
            lemma_view(&value);
        }
        let items = match &value {
            Datum::Array(items) => items,
            _ => {
                return GetRequestAction::Respond(encode(&nothing));
            },
        };
        if items.len() < 2 {
            return GetRequestAction::Respond(encode(&nothing));
        }
        proof {
            assert(models(items@)[0] == items@[0]@);
            assert(models(items@)[1] == items@[1]@);
        }
        let wants_nothing = matches!(items[0], Datum::Nil);
        let has_nothing = matches!(items[1], Datum::Nil);
        if wants_nothing && has_nothing {
            let ids = self.available_for(client_dest_hash);
            let list = write_ids(&ids);
            return GetRequestAction::Respond(encode(&list));
        }
        let haves = read_ids(&items[1]);
        self.purge_client_entries(&haves, client_dest_hash);
        if wants_nothing {
            let empty: Vec<Datum> = Vec::new();
            let list = Datum::Array(empty);
            proof {
                lemma_view(&list);
                assert(models(empty@) =~= Seq::<Model>::empty());
            }
            return GetRequestAction::Respond(encode(&list));
        }
        let wants = read_ids(&items[0]);
        let reads = self.plan_wants(&wants, client_dest_hash);
        let limit_kilobytes = if items.len() > 2 {
            proof {
                assert(models(items@)[2] == items@[2]@);
            }
            items[2].as_number()
        } else {
            None
        };
        GetRequestAction::ServeFiles(GetServePlan { reads, limit_kilobytes })
    }
}

/// The message files that some identifiers stand for.
#[derive(Debug, Clone, Copy)]
pub struct PlannedMessageRead {
    pub transient_id: PropagationTransientId,
    /// Whose file is to be read.
    pub entry: PropagationEntry,
}

/// The messages of an index that are asked for, in the order they are asked for.
pub open spec fn indexed(
    m: Map<[u8; 32], PropagationEntry>,
    ids: Seq<PropagationTransientId>,
) -> Seq<PlannedMessageRead>
    decreases ids.len(),
{
    if ids.len() == 0 {
        Seq::empty()
    } else {
        let rest = indexed(m, ids.drop_last());
        if m.contains_key(ids.last()) {
            rest.push(PlannedMessageRead { transient_id: ids.last(), entry: m[ids.last()] })
        } else {
            rest
        }
    }
}

/// The stored messages that are asked for, in the order they are asked for.
pub open spec fn stored_payloads(
    m: Map<[u8; 32], StoredMessageModel>,
    ids: Seq<PropagationTransientId>,
) -> Seq<(PropagationTransientId, Seq<u8>)>
    decreases ids.len(),
{
    if ids.len() == 0 {
        Seq::empty()
    } else {
        let rest = stored_payloads(m, ids.drop_last());
        if m.contains_key(ids.last()) {
            rest.push((ids.last(), m[ids.last()].payload))
        } else {
            rest
        }
    }
}

/// Some messages and their bytes.
pub open spec fn message_bytes(list: Seq<(PropagationTransientId, Vec<u8>)>) -> Seq<
    (PropagationTransientId, Seq<u8>),
> {
    Seq::new(list.len(), |i: int| (list[i].0, list[i].1@))
}

/// Whether a message is one that was asked for, with the bytes it is stored with.
pub open spec fn is_stored(
    m: Map<[u8; 32], StoredMessageModel>,
    ids: Seq<PropagationTransientId>,
    message: (PropagationTransientId, Seq<u8>),
) -> bool {
    ids.contains(message.0) && m.contains_key(message.0) && m[message.0].payload == message.1
}

impl<S: LxmfStorage> PropagationNode<S> {
    /// The files to read for some messages.  Only a node that keeps files has any.
    pub fn plan_message_reads(&self, requested_ids: &Vec<PropagationTransientId>) -> (plan: Vec<
        PlannedMessageRead,
    >)
        ensures
            plan@ == (if self@.backing == NodeBacking::Directory {
                indexed(self@.index, requested_ids@)
            } else {
                Seq::empty()
            }),
    {
        let mut plan: Vec<PlannedMessageRead> = Vec::new();
        if self.backing != NodeBacking::Directory {
            assert(plan@ =~= Seq::empty());
            return plan;
        }
        let ghost m = self@.index;
        let mut i: usize = 0;
        assert(plan@ =~= indexed(m, requested_ids@.take(0)));
        while i < requested_ids.len()
            invariant
                i <= requested_ids@.len(),
                m == self@.index,
                plan@ == indexed(m, requested_ids@.take(i as int)),
            decreases requested_ids@.len() - i,
        {
            proof {
                assert(requested_ids@.take(i + 1).drop_last() =~= requested_ids@.take(i as int));
            }
            match self.store.get(&requested_ids[i]) {
                Some(entry) => {
                    plan.push(PlannedMessageRead { transient_id: requested_ids[i], entry });
                },
                None => {},
            }
            i = i + 1;
        }
        assert(requested_ids@.take(i as int) =~= requested_ids@);
        plan
    }

    /// The bytes of some messages, where the node keeps them in storage.
    pub fn message_get_request(&self, requested_ids: &Vec<PropagationTransientId>) -> (list: Vec<
        (PropagationTransientId, Vec<u8>),
    >)
        ensures
            !is_authoritative(self@.backing) ==> list@.len() == 0,
            forall|i: int|
                0 <= i < list@.len() ==> is_stored(
                    self@.storage.messages,
                    requested_ids@,
                    #[trigger] message_bytes(list@)[i],
                ),
            is_authoritative(self@.backing) && self.reliable() ==> message_bytes(list@)
                == stored_payloads(self@.storage.messages, requested_ids@),
    {
        let mut list: Vec<(PropagationTransientId, Vec<u8>)> = Vec::new();
        if !self.authoritative() {
            return list;
        }
        let ghost m = self@.storage.messages;
        let mut i: usize = 0;
        assert(message_bytes(list@) =~= stored_payloads(m, requested_ids@.take(0)));
        while i < requested_ids.len()
            invariant
                i <= requested_ids@.len(),
                m == self@.storage.messages,
                forall|j: int|
                    0 <= j < list@.len() ==> is_stored(
                        m,
                        requested_ids@,
                        #[trigger] message_bytes(list@)[j],
                    ),
                self.reliable() ==> message_bytes(list@) == stored_payloads(
                    m,
                    requested_ids@.take(i as int),
                ),
            decreases requested_ids@.len() - i,
        {
            let ghost before = list@;
            proof {
                assert(requested_ids@.take(i + 1).drop_last() =~= requested_ids@.take(i as int));
                assert(requested_ids@.contains(requested_ids@[i as int]));
            }
            match self.storage.message_payload(&requested_ids[i]) {
                Ok(Some(payload)) => {
                    let ghost bytes = payload@;
                    list.push((requested_ids[i], payload));
                    proof {
                        let item = (requested_ids@[i as int], bytes);
                        assert(message_bytes(list@) =~= message_bytes(before).push(item));
                        assert forall|j: int| 0 <= j < list@.len() implies is_stored(
                            m,
                            requested_ids@,
                            #[trigger] message_bytes(list@)[j],
                        ) by {
                            if j < before.len() {
                                assert(message_bytes(list@)[j] == message_bytes(before)[j]);
                            }
                        }
                    }
                },
                _ => {},
            }
            i = i + 1;
        }
        assert(requested_ids@.take(i as int) =~= requested_ids@);
        list
    }
}

// ---------------------------------------------------------------------------
// What a client can reach.
// ---------------------------------------------------------------------------

/// Whatever a client says it has, the messages of others stay.
pub proof fn foreign_messages_are_kept(
    m: NodeModel,
    after: NodeModel,
    reliable: bool,
    ids: Seq<PropagationTransientId>,
    client: [u8; 16],
    k: PropagationTransientId,
)
    requires
        is_purged(m, after, reliable, ids, client),
        holds_id(m, k),
        !owned_by(m, k, client),
    ensures
        holds_id(after, k),
        is_authoritative(m.backing) ==> after.storage.messages[k] == m.storage.messages[k],
        !is_authoritative(m.backing) ==> after.index[k] == m.index[k],
{
}

/// Whatever a client asks for, it is sent nothing that is not its own.
pub proof fn only_own_messages_are_served(
    m: NodeModel,
    sure: bool,
    ids: Seq<PropagationTransientId>,
    client: [u8; 16],
    reads: Seq<ReadModel>,
    i: int,
)
    requires
        is_plan(m, sure, ids, client, reads),
        0 <= i < reads.len(),
    ensures
        exists|k: [u8; 32]| #[trigger]
            ids.contains(k) && owned_by(m, k, client) && planned(m, k, client) == Some(reads[i]),
{
    assert(is_own_read(m, ids, client, reads[i]));
}

/// A message that a client both has and wants is dropped and not sent.
pub proof fn had_messages_are_not_served(
    m: NodeModel,
    haves: Seq<PropagationTransientId>,
    client: [u8; 16],
    k: PropagationTransientId,
)
    requires
        haves.contains(k),
    ensures
        planned(purged(m, haves, client), k, client) is None,
        owned_by(m, k, client) ==> !holds_id(purged(m, haves, client), k),
{
}

/// What is left with a node is what it sends to the recipient that asks for it: without the
/// stamp, and provided that the recipient has room and the node can read what it stored.
pub proof fn recipients_get_what_was_left_for_them(
    m: NodeModel,
    data: Seq<u8>,
    stored: Seq<u8>,
    stamp_value: u8,
    stamped: bool,
    now: i64,
    limit: Option<i64>,
)
    requires
        takes_blob(m, data, stored, stamp_value),
        m.backing != NodeBacking::Memory,
        stamped ==> stored.len() == data.len() + 32 && stored.take(data.len() as int) == data,
        !stamped ==> stored == data,
        !is_over(LIST_OVERHEAD + stored.len() + MESSAGE_OVERHEAD, limit),
    ensures
        ({
            let id = transient_digest(data);
            let recipient: [u8; 16] = fixed(data.subrange(0, 16));
            let after = with_blob(m, data, stored, stamp_value, stamped, now);
            &&& owned_by(after, id, recipient)
            &&& served(plans(after, seq![id], recipient), seq![Some(stored)], limit).0 == seq![data]
        }),
{
    let id = transient_digest(data);
    let recipient: [u8; 16] = fixed(data.subrange(0, 16));
    let after = with_blob(m, data, stored, stamp_value, stamped, now);
    let ids = seq![id];
    reveal_with_fuel(plans, 2);
    reveal_with_fuel(served, 2);
    assert(ids.drop_last().len() == 0 && ids.last() == id);
    let reads = plans(after, ids, recipient);
    assert(reads.len() == 1);
    assert(reads.drop_last().len() == 0);
    assert(payload_of(reads.last(), Some(stored)) == Some(stored));
    assert(unstamped(stored, stamped) =~= data);
    assert(served(reads, seq![Some(stored)], limit).0 =~= seq![data]);
}

// ---------------------------------------------------------------------------
// What a client gets.
// ---------------------------------------------------------------------------

/// Whether the payload of a planned read is there.
pub open spec fn is_readable(
    reads: Seq<ReadModel>,
    fetched: Seq<Option<Seq<u8>>>,
    i: int,
) -> bool {
    reads[i].source is Payload || fetched[i] is Some
}

/// The bytes of a planned read.
pub open spec fn bytes_of(
    reads: Seq<ReadModel>,
    fetched: Seq<Option<Seq<u8>>>,
    i: int,
) -> Seq<u8> {
    match reads[i].source {
        SourceModel::Payload(p) => p,
        _ => fetched[i]->0,
    }
}

/// What a client gets of a planned read: its bytes, without the stamp where they end in one.
pub open spec fn sent_of(reads: Seq<ReadModel>, fetched: Seq<Option<Seq<u8>>>, i: int) -> Seq<u8> {
    let bytes = bytes_of(reads, fetched, i);
    if reads[i].stamped && bytes.len() >= 32 {
        bytes.subrange(0, bytes.len() - 32)
    } else {
        bytes
    }
}

/// The bytes of a list of the planned reads at some places.
pub open spec fn list_bytes(
    reads: Seq<ReadModel>,
    fetched: Seq<Option<Seq<u8>>>,
    places: Seq<int>,
) -> int
    decreases places.len(),
{
    if places.len() == 0 {
        24
    } else {
        list_bytes(reads, fetched, places.drop_last()) + bytes_of(
            reads,
            fetched,
            places.last(),
        ).len() + 16
    }
}

/// Whether some places are in order, and the reads there can be read.
pub open spec fn are_places(
    reads: Seq<ReadModel>,
    fetched: Seq<Option<Seq<u8>>>,
    places: Seq<int>,
) -> bool {
    &&& forall|k: int|
        0 <= k < places.len() ==> 0 <= #[trigger] places[k] < reads.len() && is_readable(
            reads,
            fetched,
            places[k],
        )
    &&& forall|j: int, k: int|
        0 <= j < k < places.len() ==> #[trigger] places[j] < #[trigger] places[k]
}

/// Whether the read at a place would take the list of those before it over the limit.
pub open spec fn finds_no_room(
    reads: Seq<ReadModel>,
    fetched: Seq<Option<Seq<u8>>>,
    limit: Option<i64>,
    places: Seq<int>,
    i: int,
) -> bool {
    exists|k: int|
        {
            &&& 0 <= k <= places.len()
            &&& forall|j: int| 0 <= j < k ==> #[trigger] places[j] < i
            &&& limit is Some
            &&& list_bytes(reads, fetched, #[trigger] places.take(k)) + bytes_of(
                reads,
                fetched,
                i,
            ).len() + 16 > limit->0
        }
}

/// The bytes of a list do not depend on the reads behind those that are listed.
proof fn lemma_list_bytes(
    reads: Seq<ReadModel>,
    more: Seq<ReadModel>,
    fetched: Seq<Option<Seq<u8>>>,
    places: Seq<int>,
)
    requires
        forall|k: int|
            0 <= k < places.len() ==> 0 <= #[trigger] places[k] < reads.len() && reads[places[k]]
                == more[places[k]],
    ensures
        list_bytes(reads, fetched, places) == list_bytes(more, fetched, places),
    decreases places.len(),
{
    if places.len() > 0 {
        let rest = places.drop_last();
        assert forall|k: int| 0 <= k < rest.len() implies 0 <= #[trigger] rest[k] < reads.len()
            && reads[rest[k]] == more[rest[k]] by {
            assert(rest[k] == places[k]);
        }
        lemma_list_bytes(reads, more, fetched, rest);
        assert(places[places.len() - 1] == places.last());
    }
}

/// Serving is complete: the readable messages of a plan are sent in its order, each without its
/// stamp, and one is passed over only where it would take what is sent before it over the
/// limit.
pub proof fn serving_passes_over_only_what_finds_no_room(
    reads: Seq<ReadModel>,
    fetched: Seq<Option<Seq<u8>>>,
    limit: Option<i64>,
) -> (places: Seq<int>)
    ensures
        are_places(reads, fetched, places),
        ({
            let (sent, bytes) = served(reads, fetched, limit);
            &&& sent.len() == places.len()
            &&& forall|k: int|
                0 <= k < sent.len() ==> #[trigger] sent[k] == sent_of(reads, fetched, places[k])
            &&& bytes == list_bytes(reads, fetched, places)
        }),
        forall|i: int|
            0 <= i < reads.len() && #[trigger] is_readable(reads, fetched, i) && !places.contains(i)
                ==> finds_no_room(reads, fetched, limit, places, i),
    decreases reads.len(),
{
    if reads.len() == 0 {
        Seq::empty()
    } else {
        let rest = reads.drop_last();
        let n = rest.len() as int;
        let before = serving_passes_over_only_what_finds_no_room(rest, fetched, limit);
        let (sent, bytes) = served(rest, fetched, limit);
        assert forall|k: int| 0 <= k < before.len() implies 0 <= #[trigger] before[k] < rest.len()
            && rest[before[k]] == reads[before[k]] && is_readable(reads, fetched, before[k])
            && sent_of(rest, fetched, before[k]) == sent_of(reads, fetched, before[k]) by {}
        lemma_list_bytes(rest, reads, fetched, before);
        let goes = is_readable(reads, fetched, n) && !(limit matches Some(most) && bytes + bytes_of(
            reads,
            fetched,
            n,
        ).len() + 16 > most);
        let places = if goes {
            before.push(n)
        } else {
            before
        };
        let (all, _) = served(reads, fetched, limit);
        if goes {
            assert(places.drop_last() =~= before);
            assert(all == sent.push(unstamped(bytes_of(reads, fetched, n), reads[n].stamped)));
            let p = bytes_of(reads, fetched, n);
            if reads[n].stamped && p.len() >= 32 {
                assert(p.take(p.len() - 32) =~= p.subrange(0, p.len() - 32));
            }
        }
        assert forall|k: int| 0 <= k < all.len() implies #[trigger] all[k] == sent_of(
            reads,
            fetched,
            places[k],
        ) by {
            if k < sent.len() {
                assert(all[k] == sent[k]);
                assert(places[k] == before[k]);
            }
        }
        assert forall|i: int|
            0 <= i < reads.len() && #[trigger] is_readable(reads, fetched, i) && !places.contains(
                i,
            ) implies finds_no_room(reads, fetched, limit, places, i) by {
            if i < n {
                assert(is_readable(rest, fetched, i));
                if before.contains(i) {
                    let q = choose|q: int| 0 <= q < before.len() && before[q] == i;
                    assert(places[q] == i);
                }
                let k = choose|k: int|
                    {
                        &&& 0 <= k <= before.len()
                        &&& forall|j: int| 0 <= j < k ==> #[trigger] before[j] < i
                        &&& limit is Some
                        &&& list_bytes(rest, fetched, #[trigger] before.take(k)) + bytes_of(
                            rest,
                            fetched,
                            i,
                        ).len() + 16 > limit->0
                    };
                assert(places.take(k) =~= before.take(k));
                assert forall|j: int| 0 <= j < k implies #[trigger] places[j] < i by {
                    assert(places[j] == before[j]);
                }
                let part = before.take(k);
                assert forall|q: int| 0 <= q < part.len() implies 0 <= #[trigger] part[q]
                    < rest.len() && rest[part[q]] == reads[part[q]] by {
                    assert(part[q] == before[q]);
                }
                lemma_list_bytes(rest, reads, fetched, part);
            } else {
                if goes {
                    assert(places[before.len() as int] == n);
                }
                let k = places.len() as int;
                assert(places.take(k) =~= places);
            }
        }
        assert(are_places(reads, fetched, places)) by {
            assert forall|k: int| 0 <= k < places.len() implies 0 <= #[trigger] places[k]
                < reads.len() && is_readable(reads, fetched, places[k]) by {
                if k < before.len() {
                    assert(places[k] == before[k]);
                }
            }
            assert forall|j: int, k: int| 0 <= j < k < places.len() implies #[trigger] places[j]
                < #[trigger] places[k] by {
                assert(places[j] == before[j]);
                if k < before.len() {
                    assert(places[k] == before[k]);
                }
            }
        }
        places
    }
}

/// Without a limit every message of a plan that can be read is sent, in the order of the plan
/// and without its stamp.
pub proof fn everything_is_served_without_a_limit(
    reads: Seq<ReadModel>,
    fetched: Seq<Option<Seq<u8>>>,
)
    ensures
        served(reads, fetched, None).0 == Seq::new(reads.len(), |i: int| i).filter(
            |i: int| is_readable(reads, fetched, i),
        ).map_values(|i: int| sent_of(reads, fetched, i)),
    decreases reads.len(),
{
    reveal(Seq::filter);
    let places = Seq::new(reads.len(), |i: int| i);
    let test = |i: int| is_readable(reads, fetched, i);
    let take = |i: int| sent_of(reads, fetched, i);
    if reads.len() > 0 {
        let rest = reads.drop_last();
        everything_is_served_without_a_limit(rest, fetched);
        let fewer = Seq::new(rest.len(), |i: int| i);
        let rest_test = |i: int| is_readable(rest, fetched, i);
        let rest_take = |i: int| sent_of(rest, fetched, i);
        assert(places.drop_last() =~= fewer);
        lemma_filter_agrees(fewer, test, rest_test);
        let chosen = fewer.filter(test);
        lemma_filtered_places(fewer, test);
        assert(chosen.map_values(take) =~= chosen.map_values(rest_take)) by {
            assert forall|k: int| 0 <= k < chosen.len() implies take(#[trigger] chosen[k])
                == rest_take(chosen[k]) by {
                assert(fewer.contains(chosen[k]));
            }
        }
        let n = rest.len() as int;
        assert(places.last() == n);
        let p = bytes_of(reads, fetched, n);
        if is_readable(reads, fetched, n) {
            if reads[n].stamped && p.len() >= 32 {
                assert(p.take(p.len() - 32) =~= p.subrange(0, p.len() - 32));
            }
            assert(chosen.push(n).map_values(take) =~= chosen.map_values(take).push(take(n)));
        }
    } else {
        assert(places.filter(test).map_values(take) =~= Seq::<Seq<u8>>::empty());
    }
}

/// Tests that agree on what is in a list pick the same of it.
proof fn lemma_filter_agrees(s: Seq<int>, a: spec_fn(int) -> bool, b: spec_fn(int) -> bool)
    requires
        forall|k: int| 0 <= k < s.len() ==> a(#[trigger] s[k]) == b(s[k]),
    ensures
        s.filter(a) == s.filter(b),
    decreases s.len(),
{
    reveal(Seq::filter);
    if s.len() > 0 {
        assert forall|k: int| 0 <= k < s.drop_last().len() implies a(#[trigger] s.drop_last()[k])
            == b(s.drop_last()[k]) by {
            assert(s.drop_last()[k] == s[k]);
        }
        lemma_filter_agrees(s.drop_last(), a, b);
        assert(a(s[s.len() - 1]) == b(s[s.len() - 1]));
    }
}

/// What is picked of a list is in it.
proof fn lemma_filtered_places(s: Seq<int>, test: spec_fn(int) -> bool)
    ensures
        forall|k: int|
            0 <= k < s.filter(test).len() ==> s.contains(#[trigger] s.filter(test)[k]),
    decreases s.len(),
{
    reveal(Seq::filter);
    if s.len() > 0 {
        let rest = s.drop_last();
        lemma_filtered_places(rest, test);
        assert forall|k: int| 0 <= k < s.filter(test).len() implies s.contains(
            #[trigger] s.filter(test)[k],
        ) by {
            if k < rest.filter(test).len() {
                let x = rest.filter(test)[k];
                assert(rest.contains(x));
                let q = choose|q: int| 0 <= q < rest.len() && rest[q] == x;
                assert(s[q] == x);
            } else {
                assert(s[s.len() - 1] == s.filter(test)[k]);
            }
        }
    }
}

/// The bytes of a list of all that can be read of a plan.
pub open spec fn whole_list_bytes(reads: Seq<ReadModel>, fetched: Seq<Option<Seq<u8>>>) -> int
    decreases reads.len(),
{
    if reads.len() == 0 {
        24
    } else {
        whole_list_bytes(reads.drop_last(), fetched) + if is_readable(
            reads,
            fetched,
            reads.len() - 1,
        ) {
            bytes_of(reads, fetched, reads.len() - 1).len() + 16
        } else {
            0
        }
    }
}

/// A limit that all of a plan fits is no limit.
pub proof fn plans_that_fit_are_served_whole(
    reads: Seq<ReadModel>,
    fetched: Seq<Option<Seq<u8>>>,
    most: i64,
)
    requires
        whole_list_bytes(reads, fetched) <= most,
    ensures
        served(reads, fetched, Some(most)) == served(reads, fetched, None),
        served(reads, fetched, Some(most)).1 == whole_list_bytes(reads, fetched),
    decreases reads.len(),
{
    if reads.len() > 0 {
        plans_that_fit_are_served_whole(reads.drop_last(), fetched, most);
        assert(is_readable(reads, fetched, reads.len() - 1) <==> payload_of(
            reads.last(),
            fetched[reads.len() - 1],
        ) is Some);
    }
}

/// Whose a message is: the client's that it is addressed to, where the node holds it.
pub proof fn messages_belong_to_their_destination(
    m: NodeModel,
    id: PropagationTransientId,
    client: [u8; 16],
)
    ensures
        (m.backing == NodeBacking::Storage || m.backing == NodeBacking::SharedStorage) ==> (
        owned_by(m, id, client) <==> m.storage.messages.contains_key(id)
            && m.storage.messages[id].metadata.destination_hash == client),
        (m.backing == NodeBacking::Memory || m.backing == NodeBacking::Directory) ==> (owned_by(
            m,
            id,
            client,
        ) <==> m.index.contains_key(id) && m.index[id].destination_hash == client),
{
}

/// A client that asks for its own messages gets a plan with all of them that the node keeps
/// payloads for, in the order asked, and each is read where the node keeps it.
pub proof fn own_messages_are_planned(
    m: NodeModel,
    ids: Seq<PropagationTransientId>,
    client: [u8; 16],
)
    ensures
        plans(m, ids, client) == ids.filter(
            |id: PropagationTransientId|
                m.backing != NodeBacking::Memory && owned_by(m, id, client),
        ).map_values(
            |id: PropagationTransientId|
                match m.backing {
                    NodeBacking::Directory => ReadModel {
                        source: SourceModel::File(m.index[id]),
                        stamped: m.index[id].stamped,
                    },
                    NodeBacking::Storage => ReadModel {
                        source: SourceModel::Payload(m.storage.messages[id].payload),
                        stamped: m.storage.messages[id].metadata.stamped,
                    },
                    _ => ReadModel {
                        source: SourceModel::Storage(id),
                        stamped: m.storage.messages[id].metadata.stamped,
                    },
                },
        ),
    decreases ids.len(),
{
    reveal(Seq::filter);
    let test = |id: PropagationTransientId|
        m.backing != NodeBacking::Memory && owned_by(m, id, client);
    let read = |id: PropagationTransientId|
        match m.backing {
            NodeBacking::Directory => ReadModel {
                source: SourceModel::File(m.index[id]),
                stamped: m.index[id].stamped,
            },
            NodeBacking::Storage => ReadModel {
                source: SourceModel::Payload(m.storage.messages[id].payload),
                stamped: m.storage.messages[id].metadata.stamped,
            },
            _ => ReadModel {
                source: SourceModel::Storage(id),
                stamped: m.storage.messages[id].metadata.stamped,
            },
        };
    if ids.len() > 0 {
        own_messages_are_planned(m, ids.drop_last(), client);
        let chosen = ids.drop_last().filter(test);
        assert(chosen.push(ids.last()).map_values(read) =~= chosen.map_values(read).push(
            read(ids.last()),
        ));
    } else {
        assert(ids.filter(test).map_values(read) =~= Seq::<ReadModel>::empty());
    }
}

/// What a client says it has is dropped exactly where it is the client's own; all else stays as
/// it is.
pub proof fn had_messages_are_dropped(
    m: NodeModel,
    after: NodeModel,
    ids: Seq<PropagationTransientId>,
    client: [u8; 16],
    k: PropagationTransientId,
)
    requires
        is_purged(m, after, true, ids, client),
    ensures
        after.storage.messages.contains_key(k) <==> m.storage.messages.contains_key(k) && !(
        ids.contains(k) && owned_by(m, k, client)),
        after.index.contains_key(k) <==> m.index.contains_key(k) && !(ids.contains(k) && owned_by(
            m,
            k,
            client,
        )),
        after.storage.messages.contains_key(k) ==> after.storage.messages[k]
            == m.storage.messages[k],
        after.index.contains_key(k) ==> after.index[k] == m.index[k],
        after == (NodeModel {
            index: after.index,
            storage: StorageModel { messages: after.storage.messages, ..m.storage },
            ..m
        }),
{
}

/// Whether a list is of all messages that a node holds for a client, by their size.
pub open spec fn lists_all_of(m: NodeModel, client: [u8; 16], out: Seq<u8>) -> bool {
    exists|ids: Seq<PropagationTransientId>|
        {
            &&& #[trigger] encoding(id_list(ids)) == out
            &&& forall|k: [u8; 32]| #[trigger] ids.contains(k) <==> owned_by(m, k, client)
            &&& is_by_size(m, ids)
        }
}

/// A request is answered as it asks: what stands second is what the client has, and goes; what
/// stands first is what it wants, and is planned after that; where both are nil, the client's
/// messages are listed and nothing goes.  One that is no such list is answered with nil.
pub proof fn requests_are_answered_as_asked(
    m: NodeModel,
    after: NodeModel,
    data: Seq<u8>,
    client: [u8; 16],
    action: GetRequestAction,
)
    requires
        is_answered(m, after, true, true, data, client, action),
    ensures
        ({
            let element = match parsed(data) {
                Some((value, _)) => value,
                None => Model::Nil,
            };
            let s = element->Array_0;
            if !(element is Array) || s.len() < 2 {
                after == m && action is Respond && action->Respond_0@ == encoding(Model::Nil)
            } else if s[0] == Model::Nil && s[1] == Model::Nil {
                after == m && action is Respond && lists_all_of(m, client, action->Respond_0@)
            } else {
                &&& is_purged(m, after, true, ids_in(s[1]), client)
                &&& s[0] == Model::Nil ==> action is Respond && action->Respond_0@ == encoding(
                    Model::Array(Seq::empty()),
                )
                &&& s[0] != Model::Nil ==> action is ServeFiles && reads_of(
                    action->ServeFiles_0.reads@,
                ) == plans(after, ids_in(s[0]), client) && action->ServeFiles_0.limit_kilobytes == (
                if s.len() > 2 {
                    number(s[2])
                } else {
                    None
                })
            }
        }),
{
    match request_in(data) {
        Some((wants, haves, limit)) => {
            if wants == Model::Nil && haves == Model::Nil {
                let ids = choose|ids: Seq<PropagationTransientId>| #[trigger]
                    is_listing(m, client, ids) && action->Respond_0@ == encoding(id_list(ids));
                assert(encoding(id_list(ids)) == action->Respond_0@);
            }
        },
        None => {},
    }
}

/// A list of a client's messages goes by their size, the smallest first.
pub proof fn lists_go_by_size(
    m: NodeModel,
    ids: Seq<PropagationTransientId>,
    i: int,
    j: int,
)
    requires
        is_by_size(m, ids),
        0 <= i < j < ids.len(),
    ensures
        ids[i] != ids[j],
        is_authoritative(m.backing) ==> m.storage.messages[ids[i]].metadata.payload_size
            <= m.storage.messages[ids[j]].metadata.payload_size,
        !is_authoritative(m.backing) ==> m.index[ids[i]].size <= m.index[ids[j]].size,
{
    assert(is_smaller((ids[i], held_size(m, ids[i])), (ids[j], held_size(m, ids[j]))));
    lemma_lex_less_asymmetric(ids[i]@, ids[j]@);
}

/// The identifiers of a list are read as they were written.
pub proof fn listed_identifiers_are_read_back(ids: Seq<PropagationTransientId>)
    ensures
        ids_in(id_list(ids)) == ids,
    decreases ids.len(),
{
    let s = id_list(ids)->Array_0;
    if ids.len() > 0 {
        let rest = ids.drop_last();
        listed_identifiers_are_read_back(rest);
        assert(s.drop_last() =~= id_list(rest)->Array_0);
        assert(s.last() == Model::Binary(ids.last()@));
        lemma_fixed(ids.last());
        let b = byte_items(s);
        assert(b.drop_last() =~= byte_items(s.drop_last()));
        assert(rest.push(ids.last()) =~= ids);
    } else {
        assert(ids_in(id_list(ids)) =~= ids);
    }
}

/// The files of a directory that are read for some messages are those of the messages that the
/// index has, in the order asked.
pub proof fn indexed_messages_are_read(
    m: Map<[u8; 32], PropagationEntry>,
    ids: Seq<PropagationTransientId>,
)
    ensures
        indexed(m, ids) == ids.filter(|id: PropagationTransientId| m.contains_key(id)).map_values(
            |id: PropagationTransientId| PlannedMessageRead { transient_id: id, entry: m[id] },
        ),
    decreases ids.len(),
{
    reveal(Seq::filter);
    let test = |id: PropagationTransientId| m.contains_key(id);
    let read = |id: PropagationTransientId| PlannedMessageRead { transient_id: id, entry: m[id] };
    if ids.len() > 0 {
        indexed_messages_are_read(m, ids.drop_last());
        let chosen = ids.drop_last().filter(test);
        assert(chosen.push(ids.last()).map_values(read) =~= chosen.map_values(read).push(
            read(ids.last()),
        ));
    } else {
        assert(ids.filter(test).map_values(read) =~= Seq::<PlannedMessageRead>::empty());
    }
}

/// The stored messages that are given out are those that are held of what was asked for, each
/// with its payload, in the order asked.
pub proof fn stored_messages_are_given_out(
    m: Map<[u8; 32], StoredMessageModel>,
    ids: Seq<PropagationTransientId>,
)
    ensures
        stored_payloads(m, ids) == ids.filter(
            |id: PropagationTransientId| m.contains_key(id),
        ).map_values(|id: PropagationTransientId| (id, m[id].payload)),
    decreases ids.len(),
{
    reveal(Seq::filter);
    let test = |id: PropagationTransientId| m.contains_key(id);
    let read = |id: PropagationTransientId| (id, m[id].payload);
    if ids.len() > 0 {
        stored_messages_are_given_out(m, ids.drop_last());
        let chosen = ids.drop_last().filter(test);
        assert(chosen.push(ids.last()).map_values(read) =~= chosen.map_values(read).push(
            read(ids.last()),
        ));
    } else {
        assert(ids.filter(test).map_values(read) =~= Seq::<
            (PropagationTransientId, Seq<u8>),
        >::empty());
    }
}

/// A list takes 24 bytes for itself and, for each message in it, 16 bytes and those of the
/// message; a limit holds a list back only where it would be exceeded.
pub proof fn lists_take_their_bytes(
    reads: Seq<ReadModel>,
    fetched: Seq<Option<Seq<u8>>>,
    read: ReadModel,
    bytes: int,
    limit: Option<i64>,
)
    ensures
        served(Seq::empty(), fetched, limit).1 == 24,
        ({
            let before = served(reads, fetched, limit);
            let after = served(reads.push(read), fetched, limit);
            let p = payload_of(read, fetched[reads.len() as int]);
            &&& p is None ==> after == before
            &&& p is Some ==> {
                let next = before.1 + p->0.len() + 16;
                &&& limit is None || next <= limit->0 ==> after.1 == next && after.0.len()
                    == before.0.len() + 1 && after.0.drop_last() == before.0
                &&& limit is Some && next > limit->0 ==> after == before
            }
        }),
        is_over(bytes, limit) <==> limit is Some && bytes > limit->0,
{
    assert(reads.push(read).drop_last() =~= reads);
    let before = served(reads, fetched, limit);
    let after = served(reads.push(read), fetched, limit);
    if after.0.len() == before.0.len() + 1 {
        assert(after.0.drop_last() =~= before.0);
    }
}

/// A stamped message is sent without its last 32 bytes, and any other as it is.
pub proof fn messages_are_sent_without_their_stamp(message: Seq<u8>, stamp: Seq<u8>)
    requires
        stamp.len() == 32,
    ensures
        unstamped(message + stamp, true) == message,
        unstamped(message, false) == message,
{
    assert((message + stamp).take(message.len() as int) =~= message);
}

} // verus!
