//! What a node has to offer to its peers.

use vstd::prelude::*;

use crate::bytes::{
    contents, copy_slice, fixed, join, lemma_fixed, lemma_lex_less_asymmetric, lemma_lex_less_total, lemma_lex_less_transitive,
    lemma_numeric_bound, lemma_numeric_order, lex_less, list_contains, numeric, numeric_bound,
    to_fixed, to_vec,
};
use crate::constants::{peer_error_code, PeerError, PN_STAMP_THROTTLE};
use crate::msgpack::{
    decode, encode, encoding, lemma_view, models, parsed, raw_bytes, storable, Datum, Model,
    MAX_LENGTH, MAX_NESTING,
};
use crate::propagation_node::{
    held_stamp, holds_id, is_authoritative, NodeBacking, NodeModel, PropagationNode, PAGE_SIZE,
};
use crate::storage::{
    by_id, cursor, is_after, is_metadata_page, metadata_ids, LxmfStorage, StoredMessageMetadata,
    StoredMessageModel,
};
use crate::sync::{
    answer_in, answer_of, byte_items, collect_bytes, collect_ids, id_bytes, lemma_id_exists, proper_ids,
    Answer, OfferResponse,
};
use crate::table::kept;
use crate::types::PropagationTransientId;

verus! {

/// Whether some identifiers are in strictly increasing order.
pub open spec fn in_order(ids: Seq<[u8; 32]>) -> bool {
    forall|i: int, j: int|
        0 <= i < j < ids.len() ==> lex_less((#[trigger] ids[i])@, (#[trigger] ids[j])@)
}

/// Whether an identifier does not come after a cursor.
pub open spec fn is_seen(after: Option<[u8; 32]>, id: [u8; 32]) -> bool {
    after is Some && !is_after(after, id)
}

/// How many identifiers there can be after a cursor.
pub open spec fn rest_after(after: Option<[u8; 32]>) -> nat {
    match after {
        None => numeric_bound(32) + 1,
        Some(id) => (numeric_bound(32) - numeric(id@)) as nat,
    }
}

/// Whether a node holds a message whose stamp is worth at least `minimum`.
pub open spec fn is_offerable(
    m: NodeModel,
    minimum: Option<u8>,
    id: PropagationTransientId,
) -> bool {
    holds_id(m, id) && (minimum matches Some(least) ==> held_stamp(m, id) >= least)
}

/// Whether `ids` are the messages that a node has to offer, each once.
pub open spec fn offers_all(
    m: NodeModel,
    minimum: Option<u8>,
    ids: Seq<PropagationTransientId>,
) -> bool {
    &&& ids.no_duplicates()
    &&& forall|k: [u8; 32]| #[trigger] ids.contains(k) <==> is_offerable(m, minimum, k)
}

/// Whether `ids` are some of the messages that a node has to offer, each once.
pub open spec fn offers_some(
    m: NodeModel,
    minimum: Option<u8>,
    ids: Seq<PropagationTransientId>,
) -> bool {
    &&& ids.no_duplicates()
    &&& forall|k: [u8; 32]| #[trigger] ids.contains(k) ==> is_offerable(m, minimum, k)
}

/// Identifiers in strictly increasing order are different.
proof fn lemma_in_order_distinct(ids: Seq<[u8; 32]>)
    requires
        in_order(ids),
    ensures
        ids.no_duplicates(),
{
    assert forall|i: int, j: int| 0 <= i < ids.len() && 0 <= j < ids.len() && i != j implies ids[i]
        != ids[j] by {
        lemma_lex_less_asymmetric(ids[i]@, ids[i]@);
        if i < j {
            assert(lex_less(ids[i]@, ids[j]@));
        } else {
            assert(lex_less(ids[j]@, ids[i]@));
        }
    }
}

/// One more page of identifiers behind those up to a cursor.
pub proof fn lemma_page_step(
    m: Map<[u8; 32], StoredMessageModel>,
    eligible: spec_fn([u8; 32], StoredMessageModel) -> bool,
    after: Option<[u8; 32]>,
    all: Seq<StoredMessageMetadata>,
    page: Seq<StoredMessageMetadata>,
)
    requires
        forall|k: [u8; 32], v: StoredMessageModel| #[trigger] eligible(k, v),
        in_order(metadata_ids(all)),
        forall|k: [u8; 32]| #[trigger]
            metadata_ids(all).contains(k) <==> m.contains_key(k) && is_seen(after, k),
        is_metadata_page(m, eligible, after, PAGE_SIZE as nat, page),
        page.len() > 0,
    ensures
        in_order(metadata_ids(all + page)),
        ({
            let next = Some(page[page.len() - 1].transient_id);
            &&& forall|k: [u8; 32]| #[trigger]
                metadata_ids(all + page).contains(k) <==> m.contains_key(k) && is_seen(next, k)
            &&& rest_after(next) < rest_after(after)
            &&& page.len() < PAGE_SIZE ==> forall|k: [u8; 32]| #[trigger]
                m.contains_key(k) ==> metadata_ids(all + page).contains(k)
        }),
{
    let a = metadata_ids(all);
    let p = metadata_ids(page);
    let both = metadata_ids(all + page);
    let last = page[page.len() - 1].transient_id;
    let next = Some(last);
    let order = by_id::<StoredMessageModel>();
    assert(both =~= a + p);
    assert(p[p.len() - 1] == last);
    assert forall|i: int| 0 <= i < p.len() implies m.contains_key(#[trigger] p[i]) && is_after(
        after,
        p[i],
    ) by {}
    assert forall|i: int, j: int| 0 <= i < j < p.len() implies lex_less(
        (#[trigger] p[i])@,
        (#[trigger] p[j])@,
    ) by {
        assert(order((p[i], m[p[i]]), (p[j], m[p[j]])));
    }
    assert forall|i: int, j: int| 0 <= i < j < both.len() implies lex_less(
        (#[trigger] both[i])@,
        (#[trigger] both[j])@,
    ) by {
        if j < a.len() {
            assert(both[i] == a[i] && both[j] == a[j]);
        } else {
            let y = p[j - a.len()];
            assert(both[j] == y);
            if i < a.len() {
                assert(both[i] == a[i]);
                assert(a.contains(a[i]));
                let c = after->0;
                assert(is_seen(after, a[i]));
                assert(lex_less(c@, y@));
                lemma_lex_less_total(a[i]@, c@);
                if a[i]@ != c@ {
                    assert(lex_less(a[i]@, c@));
                    lemma_lex_less_transitive(a[i]@, c@, y@);
                }
            } else {
                assert(both[i] == p[i - a.len()]);
            }
        }
    }
    assert forall|k: [u8; 32]| #[trigger] both.contains(k) <==> m.contains_key(k) && is_seen(
        next,
        k,
    ) by {
        if both.contains(k) {
            let i = choose|i: int| 0 <= i < both.len() && both[i] == k;
            lemma_lex_less_asymmetric(last@, k@);
            if i < a.len() {
                assert(a[i] == k);
                assert(a.contains(k));
                assert(lex_less(both[i]@, both[both.len() - 1]@));
            } else {
                assert(p[i - a.len()] == k);
                if i < both.len() - 1 {
                    assert(lex_less(both[i]@, both[both.len() - 1]@));
                } else {
                    assert(k == last);
                }
            }
        }
        if m.contains_key(k) && is_seen(next, k) {
            if is_seen(after, k) {
                assert(a.contains(k));
                let i = choose|i: int| 0 <= i < a.len() && a[i] == k;
                assert(both[i] == k);
            } else {
                assert(is_after(after, k));
                assert(eligible(k, m[k]));
                if !p.contains(k) {
                    assert(order((p[p.len() - 1], m[p[p.len() - 1]]), (k, m[k])));
                    assert(lex_less(last@, k@));
                }
                let i = choose|i: int| 0 <= i < p.len() && p[i] == k;
                assert(both[a.len() + i] == k);
            }
        }
    }
    lemma_numeric_bound(last@);
    if after is Some {
        lemma_numeric_order(after->0@, last@);
    }
    if page.len() < PAGE_SIZE {
        assert forall|k: [u8; 32]| #[trigger] m.contains_key(k) implies both.contains(k) by {
            if is_seen(after, k) {
                assert(a.contains(k));
                let i = choose|i: int| 0 <= i < a.len() && a[i] == k;
                assert(both[i] == k);
            } else {
                assert(eligible(k, m[k]));
                assert(p.contains(k));
                let i = choose|i: int| 0 <= i < p.len() && p[i] == k;
                assert(both[a.len() + i] == k);
            }
        }
    }
}

/// A page of the messages that a test accepts is a page of the messages without the
/// others.
proof fn lemma_page_of_kept(
    m: Map<[u8; 32], StoredMessageModel>,
    eligible: spec_fn([u8; 32], StoredMessageModel) -> bool,
    all: spec_fn([u8; 32], StoredMessageModel) -> bool,
    after: Option<[u8; 32]>,
    limit: nat,
    page: Seq<StoredMessageMetadata>,
)
    requires
        is_metadata_page(m, eligible, after, limit, page),
        forall|k: [u8; 32], v: StoredMessageModel| #[trigger] all(k, v),
    ensures
        is_metadata_page(kept(m, eligible), all, after, limit, page),
{
    let left = kept(m, eligible);
    let ids = metadata_ids(page);
    let order = by_id::<StoredMessageModel>();
    assert forall|i: int| 0 <= i < ids.len() implies left.contains_key(#[trigger] ids[i]) && all(
        ids[i],
        left[ids[i]],
    ) && is_after(after, ids[i]) by {}
    assert forall|i: int, j: int| 0 <= i < j < ids.len() implies order(
        (#[trigger] ids[i], left[ids[i]]),
        (#[trigger] ids[j], left[ids[j]]),
    ) by {
        assert(order((ids[i], m[ids[i]]), (ids[j], m[ids[j]])));
    }
    assert forall|k: [u8; 32], i: int|
        left.contains_key(k) && all(k, left[k]) && is_after(after, k) && !(#[trigger] ids.contains(
            k,
        )) && 0 <= i < ids.len() implies order((#[trigger] ids[i], left[ids[i]]), (k, left[k])) by {
        assert(order((ids[i], m[ids[i]]), (k, m[k])));
    }
    assert forall|i: int| 0 <= i < page.len() implies #[trigger] page[i]
        == left[page[i].transient_id].metadata by {
        assert(ids[i] == page[i].transient_id);
        assert(left.contains_key(ids[i]));
    }
}

/// Whether a stored message is for a client; every message is where there is none.
pub open spec fn for_client(client: Option<[u8; 16]>) -> spec_fn(
    [u8; 32],
    StoredMessageModel,
) -> bool {
    |k: [u8; 32], v: StoredMessageModel|
        client matches Some(c) ==> v.metadata.destination_hash == c
}

/// The client behind a reference.
pub open spec fn client_of(client: Option<&[u8; 16]>) -> Option<[u8; 16]> {
    match client {
        Some(c) => Some(*c),
        None => None,
    }
}

impl<S: LxmfStorage> PropagationNode<S> {
    /// The metadata of the messages in storage, all or those for one client, by identifier,
    /// up to where storage fails.
    pub(crate) fn storage_metadata(&self, client: Option<&[u8; 16]>) -> (all: Vec<
        StoredMessageMetadata,
    >)
        ensures
            ({
                let m = kept(self@.storage.messages, for_client(client_of(client)));
                &&& in_order(metadata_ids(all@))
                &&& forall|k: [u8; 32]| #[trigger]
                    metadata_ids(all@).contains(k) ==> m.contains_key(k)
                &&& forall|i: int|
                    0 <= i < all@.len() ==> #[trigger] all@[i] == m[all@[i].transient_id].metadata
                &&& self.reliable() ==> forall|k: [u8; 32]| #[trigger]
                    m.contains_key(k) ==> metadata_ids(all@).contains(k)
            }),
    {
        let ghost test = for_client(client_of(client));
        let ghost m = kept(self.storage.model().messages, test);
        let mut all: Vec<StoredMessageMetadata> = Vec::new();
        let mut after: Option<PropagationTransientId> = None;
        assert(metadata_ids(all@) =~= Seq::<[u8; 32]>::empty());
        loop
            invariant
                test == for_client(client_of(client)),
                m == kept(self.storage.model().messages, test),
                in_order(metadata_ids(all@)),
                forall|k: [u8; 32]| #[trigger]
                    metadata_ids(all@).contains(k) <==> m.contains_key(k) && is_seen(after, k),
                forall|i: int|
                    0 <= i < all@.len() ==> #[trigger] all@[i]
                        == m[all@[i].transient_id].metadata,
            ensures
                in_order(metadata_ids(all@)),
                forall|k: [u8; 32]| #[trigger]
                    metadata_ids(all@).contains(k) ==> m.contains_key(k),
                forall|i: int|
                    0 <= i < all@.len() ==> #[trigger] all@[i]
                        == m[all@[i].transient_id].metadata,
                self.reliable() ==> forall|k: [u8; 32]| #[trigger]
                    m.contains_key(k) ==> metadata_ids(all@).contains(k),
            decreases rest_after(after),
        {
            let from: Option<&PropagationTransientId> = match &after {
                Some(id) => Some(id),
                None => None,
            };
            assert(cursor(from) == after);
            let found = match client {
                Some(c) => self.storage.message_metadata_for_destination(c, from, PAGE_SIZE),
                None => self.storage.message_metadata_page(from, PAGE_SIZE),
            };
            let page = match found {
                Ok(p) => p,
                Err(_) => {
                    break;
                },
            };
            let ghost whole = |k: [u8; 32], v: StoredMessageModel| true;
            proof {
                let messages = self.storage.model().messages;
                let e = choose|e: spec_fn([u8; 32], StoredMessageModel) -> bool|
                    (forall|k: [u8; 32], v: StoredMessageModel| #[trigger] e(k, v) == test(k, v))
                        && #[trigger] is_metadata_page(
                        messages,
                        e,
                        after,
                        PAGE_SIZE as nat,
                        page@,
                    );
                lemma_page_of_kept(messages, e, whole, after, PAGE_SIZE as nat, page@);
                assert(kept(messages, e) =~= m);
            }
            if page.len() == 0 {
                proof {
                    let p = metadata_ids(page@);
                    assert forall|k: [u8; 32]| #[trigger] m.contains_key(
                        k,
                    ) implies metadata_ids(all@).contains(k) by {
                        if !is_seen(after, k) {
                            assert(is_after(after, k));
                            assert(p.contains(k));
                        }
                    }
                }
                break;
            }
            proof {
                lemma_page_step(m, whole, after, all@, page@);
            }
            let ghost held = all@;
            let last = page[page.len() - 1].transient_id;
            let done = page.len() < PAGE_SIZE;
            let mut i: usize = 0;
            while i < page.len()
                invariant
                    i <= page@.len(),
                    all@ == held + page@.take(i as int),
                decreases page@.len() - i,
            {
                all.push(page[i]);
                assert(all@ =~= held + page@.take(i + 1));
                i = i + 1;
            }
            proof {
                assert(page@.take(i as int) =~= page@);
                assert forall|j: int| 0 <= j < all@.len() implies #[trigger] all@[j]
                    == m[all@[j].transient_id].metadata by {
                    if j < held.len() {
                        assert(all@[j] == held[j]);
                    } else {
                        assert(all@[j] == page@[j - held.len()]);
                    }
                }
            }
            after = Some(last);
            if done {
                break;
            }
        }
        all
    }

    /// The metadata of the messages in storage, by identifier, up to where storage fails.
    fn storage_metadata_all(&self) -> (all: Vec<StoredMessageMetadata>)
        ensures
            in_order(metadata_ids(all@)),
            forall|k: [u8; 32]| #[trigger]
                metadata_ids(all@).contains(k) ==> self@.storage.messages.contains_key(k),
            forall|i: int|
                0 <= i < all@.len() ==> #[trigger] all@[i]
                    == self@.storage.messages[all@[i].transient_id].metadata,
            self.reliable() ==> forall|k: [u8; 32]| #[trigger]
                self@.storage.messages.contains_key(k) ==> metadata_ids(all@).contains(k),
    {
        let all = self.storage_metadata(None);
        assert(kept(self@.storage.messages, for_client(None)) =~= self@.storage.messages);
        all
    }

    /// The messages that the node has to offer to a peer that asks for stamps of at
    /// least `peer_min_stamp_cost`, by identifier where they are in storage.
    pub fn create_offer(&self, peer_hash: [u8; 16], peer_min_stamp_cost: Option<u8>) -> (ids: Vec<
        PropagationTransientId,
    >)
        ensures
            offers_some(self@, peer_min_stamp_cost, ids@),
            self.is_sure() ==> offers_all(
                self@,
                peer_min_stamp_cost,
                ids@,
            ),
            is_authoritative(self@.backing) ==> in_order(ids@),
    {
        if self.authoritative() {
            let all = self.storage_metadata_all();
            let ghost m = self@.storage.messages;
            let ghost every = metadata_ids(all@);
            let mut ids: Vec<PropagationTransientId> = Vec::new();
            let mut i: usize = 0;
            while i < all.len()
                invariant
                    i <= all@.len(),
                    is_authoritative(self@.backing),
                    m == self@.storage.messages,
                    every == metadata_ids(all@),
                    in_order(every),
                    forall|k: [u8; 32]| #[trigger] every.contains(k) ==> m.contains_key(k),
                    forall|j: int|
                        0 <= j < all@.len() ==> #[trigger] all@[j]
                            == m[all@[j].transient_id].metadata,
                    in_order(ids@),
                    forall|j: int|
                        0 <= j < ids@.len() ==> is_offerable(
                            self@,
                            peer_min_stamp_cost,
                            #[trigger] ids@[j],
                        ) && (i < all@.len() ==> lex_less(ids@[j]@, every[i as int]@)),
                    forall|j: int|
                        0 <= j < i && is_offerable(self@, peer_min_stamp_cost, #[trigger] every[j])
                            ==> ids@.contains(every[j]),
                decreases all@.len() - i,
            {
                let ghost held = ids@;
                let id = all[i].transient_id;
                assert(every[i as int] == id);
                assert(every.contains(id));
                let wanted = match peer_min_stamp_cost {
                    Some(least) => all[i].stamp_value >= least as u16,
                    None => true,
                };
                assert(wanted == is_offerable(self@, peer_min_stamp_cost, id));
                if wanted {
                    ids.push(id);
                    assert(ids@[held.len() as int] == id);
                }
                proof {
                    assert forall|j: int| 0 <= j < ids@.len() implies is_offerable(
                        self@,
                        peer_min_stamp_cost,
                        #[trigger] ids@[j],
                    ) && (i + 1 < all@.len() ==> lex_less(ids@[j]@, every[i + 1]@)) by {
                        if i + 1 < all@.len() {
                            assert(lex_less(every[i as int]@, every[i + 1]@));
                            if j < held.len() {
                                assert(ids@[j] == held[j]);
                                lemma_lex_less_transitive(
                                    held[j]@,
                                    every[i as int]@,
                                    every[i + 1]@,
                                );
                            }
                        }
                    }
                    assert forall|j: int|
                        0 <= j < i + 1 && is_offerable(
                            self@,
                            peer_min_stamp_cost,
                            #[trigger] every[j],
                        ) implies ids@.contains(every[j]) by {
                        if j < i {
                            let q = choose|q: int| 0 <= q < held.len() && held[q] == every[j];
                            assert(ids@[q] == every[j]);
                        }
                    }
                }
                i = i + 1;
            }
            proof {
                lemma_in_order_distinct(ids@);
                assert forall|k: [u8; 32]| #[trigger] ids@.contains(k) implies is_offerable(
                    self@,
                    peer_min_stamp_cost,
                    k,
                ) by {
                    let j = choose|j: int| 0 <= j < ids@.len() && ids@[j] == k;
                    assert(is_offerable(self@, peer_min_stamp_cost, ids@[j]));
                }
                if self.reliable() {
                    assert forall|k: [u8; 32]| is_offerable(
                        self@,
                        peer_min_stamp_cost,
                        k,
                    ) implies #[trigger] ids@.contains(k) by {
                        assert(every.contains(k));
                        let j = choose|j: int| 0 <= j < every.len() && every[j] == k;
                        assert(ids@.contains(every[j]));
                    }
                }
            }
            return ids;
        }
        match peer_min_stamp_cost {
            Some(least) => {
                if least > 0 {
                    return self.store.ids_with_stamp(least);
                }
            },
            None => {},
        }
        self.store.transient_ids()
    }

    /// The messages that the node has to offer and that are not among `handled`.
    pub fn create_offer_filtered(&self, handled: &Vec<PropagationTransientId>) -> (ids: Vec<
        PropagationTransientId,
    >)
        ensures
            ids@.no_duplicates(),
            forall|k: [u8; 32]| #[trigger]
                ids@.contains(k) ==> holds_id(self@, k) && !handled@.contains(k),
            self.is_sure() ==> forall|k: [u8; 32]|
                #[trigger]
                ids@.contains(k) <==> holds_id(self@, k) && !handled@.contains(k),
    {
        let nobody: [u8; 16] = [0u8;16];
        let all = self.create_offer(nobody, None);
        without_listed(&all, handled)
    }
}

/// The identifiers of a list that are not in another.
pub(crate) fn without_listed(
    all: &Vec<PropagationTransientId>,
    listed: &Vec<PropagationTransientId>,
) -> (ids: Vec<PropagationTransientId>)
    ensures
        ids@ == all@.filter(|k: [u8; 32]| !listed@.contains(k)),
        all@.no_duplicates() ==> ids@.no_duplicates(),
        forall|k: [u8; 32]| #[trigger]
            ids@.contains(k) <==> all@.contains(k) && !listed@.contains(k),
{
    let ghost test = |k: [u8; 32]| !listed@.contains(k);
    let mut ids: Vec<PropagationTransientId> = Vec::new();
    let mut i: usize = 0;
    assert(ids@ =~= all@.take(0).filter(test)) by {
        reveal(Seq::filter);
    }
    while i < all.len()
        invariant
            i <= all@.len(),
            test == (|k: [u8; 32]| !listed@.contains(k)),
            ids@ == all@.take(i as int).filter(test),
        decreases all@.len() - i,
    {
        proof {
            reveal(Seq::filter);
            assert(all@.take(i + 1).drop_last() =~= all@.take(i as int));
        }
        if !list_contains(listed, &all[i]) {
            ids.push(all[i]);
        }
        i = i + 1;
    }
    proof {
        assert(all@.take(i as int) =~= all@);
        lemma_filter_members(all@, test);
    }
    ids
}

/// What a filter leaves of a list.
pub proof fn lemma_filter_members<A>(list: Seq<A>, test: spec_fn(A) -> bool)
    ensures
        forall|k: A| #[trigger] list.filter(test).contains(k) <==> list.contains(k) && test(k),
        list.no_duplicates() ==> list.filter(test).no_duplicates(),
    decreases list.len(),
{
    reveal(Seq::filter);
    if list.len() > 0 {
        let rest = list.drop_last();
        let x = list.last();
        lemma_filter_members(rest, test);
        assert(list =~= rest.push(x));
        assert forall|k: A| #[trigger] list.filter(test).contains(k) <==> list.contains(k) && test(
            k,
        ) by {
            let f = rest.filter(test);
            let g = list.filter(test);
            assert(g == (if test(x) {
                f.push(x)
            } else {
                f
            }));
            if rest.contains(k) {
                let q = choose|q: int| 0 <= q < rest.len() && rest[q] == k;
                assert(list[q] == k);
            }
            assert(list[rest.len() as int] == x);
            if list.contains(k) && k != x {
                let q = choose|q: int| 0 <= q < list.len() && list[q] == k;
                assert(rest[q] == k);
            }
            if f.contains(k) {
                let q = choose|q: int| 0 <= q < f.len() && f[q] == k;
                assert(g[q] == k);
            }
            if test(x) {
                assert(g[f.len() as int] == x);
            }
            if g.contains(k) && k != x {
                let q = choose|q: int| 0 <= q < g.len() && g[q] == k;
                assert(f[q] == k);
            }
        }
        if list.no_duplicates() {
            assert(rest.no_duplicates());
            let f = rest.filter(test);
            if test(x) {
                assert(!f.contains(x)) by {
                    if f.contains(x) {
                        assert(rest.contains(x));
                        let q = choose|q: int| 0 <= q < rest.len() && rest[q] == x;
                        assert(list[q] == list[rest.len() as int]);
                    }
                }
                assert(list.filter(test) == f.push(x));
            }
        }
    }
}

// ---------------------------------------------------------------------------
// Offers of others.
// ---------------------------------------------------------------------------

/// The identifiers that are answered with no, in order.
pub open spec fn answered_no(
    ids: Seq<PropagationTransientId>,
    answers: Seq<bool>,
) -> Seq<PropagationTransientId>
    decreases ids.len(),
{
    if ids.len() == 0 {
        Seq::empty()
    } else if !answers[ids.len() - 1] {
        answered_no(ids.drop_last(), answers).push(ids.last())
    } else {
        answered_no(ids.drop_last(), answers)
    }
}

/// Whether `answers` say of each identifier whether a node holds it.  Where it is not
/// `sure`, a no may stand for a message that is held.
pub open spec fn says_held(
    m: NodeModel,
    sure: bool,
    ids: Seq<PropagationTransientId>,
    answers: Seq<bool>,
) -> bool {
    &&& answers.len() == ids.len()
    &&& forall|i: int|
        0 <= i < ids.len() ==> ((#[trigger] answers[i]) ==> holds_id(m, ids[i])) && (sure
            ==> answers[i] == holds_id(m, ids[i]))
}

/// The answer to an offer of which `wanted` is asked for.
pub open spec fn selection(
    offered: Seq<PropagationTransientId>,
    wanted: Seq<PropagationTransientId>,
) -> Answer {
    if wanted.len() == 0 {
        Answer::HaveAll
    } else if wanted.len() == offered.len() {
        Answer::WantAll
    } else {
        Answer::WantSome(id_bytes(wanted))
    }
}

/// The offered messages that a node lacks, in order.
pub open spec fn lacked(
    m: NodeModel,
    offered: Seq<PropagationTransientId>,
) -> Seq<PropagationTransientId> {
    offered.filter(|k: [u8; 32]| !holds_id(m, k))
}

/// Why an offer is refused, if it is: the first of the reasons that holds.
pub open spec fn offer_refusal(
    identity_known: bool,
    is_throttled: bool,
    access_allowed: bool,
    key_valid: bool,
) -> Option<PeerError> {
    if !identity_known {
        Some(PeerError::NoIdentity)
    } else if is_throttled {
        Some(PeerError::Throttled)
    } else if !access_allowed {
        Some(PeerError::NoAccess)
    } else if !key_valid {
        Some(PeerError::InvalidKey)
    } else {
        None
    }
}

/// Whether `a` answers an offer to a node: with a refusal where there is a reason for
/// one, else by asking for what the node lacks.
pub open spec fn is_offer_answer(
    m: NodeModel,
    sure: bool,
    refused: Option<PeerError>,
    offered: Seq<PropagationTransientId>,
    a: Answer,
) -> bool {
    match refused {
        Some(e) => a == Answer::Refused(e),
        None => (exists|answers: Seq<bool>| #[trigger]
            says_held(m, sure, offered, answers) && a == selection(
                offered,
                answered_no(offered, answers),
            )) && (sure ==> a == selection(offered, lacked(m, offered))),
    }
}

/// The element that an answer is sent as.
pub open spec fn answer_element(a: Answer) -> Model {
    match a {
        Answer::WantAll => Model::Boolean(true),
        Answer::HaveAll => Model::Boolean(false),
        Answer::WantSome(ids) => Model::Array(Seq::new(ids.len(), |i: int| Model::Binary(ids[i]))),
        Answer::Refused(e) => Model::Integer(peer_error_code(e) as int),
        Answer::Unknown => Model::Nil,
    }
}

/// Whether the format has room for an answer.
pub open spec fn fits_answer(a: Answer) -> bool {
    a matches Answer::WantSome(ids) ==> ids.len() <= MAX_LENGTH && forall|i: int|
        0 <= i < ids.len() ==> (#[trigger] ids[i]).len() <= MAX_LENGTH
}

/// What a peer makes of an answer: to ask for nothing is to have all.
pub open spec fn understood(a: Answer) -> Answer {
    match a {
        Answer::WantSome(ids) => if ids.len() == 0 {
            Answer::HaveAll
        } else {
            a
        },
        _ => a,
    }
}

/// The key and the identifiers that an offer gives.
pub open spec fn offer_in(data: Seq<u8>) -> Option<(Seq<u8>, Seq<PropagationTransientId>)> {
    match parsed(data) {
        Some((Model::Array(s), _)) => if s.len() < 2 {
            None
        } else {
            match s[1] {
                Model::Array(ids) => Some(
                    (
                        match raw_bytes(s[0]) {
                            Some(key) => key,
                            None => Seq::empty(),
                        },
                        proper_ids(byte_items(ids)),
                    ),
                ),
                _ => None,
            }
        },
        _ => None,
    }
}

/// Who makes an offer, and what is known of them.
#[derive(Debug, Clone, Copy)]
pub struct OfferRequestContext<'a> {
    pub peer_hash: [u8; 16],
    pub identity_known: bool,
    pub is_throttled: bool,
    pub access_allowed: bool,
    pub local_identity_hash: Option<&'a [u8; 16]>,
    pub remote_identity_hash: Option<&'a [u8; 16]>,
}

/// Whether `valid` says of a peering key whether it holds: an empty key where no work is
/// asked for, else what `validate` says of a key for the two identities, ours first.
pub open spec fn judges_key<F: FnOnce(&[u8; 32], &[u8; 32], u8) -> bool>(
    validate: F,
    ctx: OfferRequestContext<'_>,
    key: Seq<u8>,
    cost: u8,
    valid: bool,
) -> bool {
    if key.len() == 0 {
        valid == (cost == 0)
    } else if key.len() == 32 && ctx.local_identity_hash is Some && ctx.remote_identity_hash is Some {
        call_ensures(
            validate,
            (
                &fixed::<32>(ctx.local_identity_hash->0@ + ctx.remote_identity_hash->0@),
                &fixed::<32>(key),
                cost,
            ),
            valid,
        )
    } else {
        !valid
    }
}

/// Whether a peer made its last offer too short a time ago.
pub open spec fn offers_too_soon(m: NodeModel, peer: [u8; 16], now: i64) -> bool {
    m.offers.contains_key(peer) && now - m.offers[peer] < PN_STAMP_THROTTLE * 1_000_000
}

/// Whether `a` answers a well-formed offer.
pub open spec fn is_judged_answer<F: FnOnce(&[u8; 32], &[u8; 32], u8) -> bool>(
    m: NodeModel,
    sure: bool,
    validate: F,
    ctx: OfferRequestContext<'_>,
    offer: (Seq<u8>, Seq<PropagationTransientId>),
    valid: bool,
    a: Answer,
) -> bool {
    &&& judges_key(validate, ctx, offer.0, m.config.peering_cost, valid)
    &&& is_offer_answer(
        m,
        sure,
        offer_refusal(ctx.identity_known, ctx.is_throttled, ctx.access_allowed, valid),
        offer.1,
        a,
    )
}

/// What is answered with no depends only on the answers to what was asked.
proof fn lemma_answered_no(ids: Seq<PropagationTransientId>, a: Seq<bool>, b: Seq<bool>)
    requires
        forall|i: int| 0 <= i < ids.len() ==> a[i] == #[trigger] b[i],
    ensures
        answered_no(ids, a) == answered_no(ids, b),
        answered_no(ids, a).len() <= ids.len(),
    decreases ids.len(),
{
    if ids.len() > 0 {
        assert(a[ids.len() - 1] == b[ids.len() - 1]);
        lemma_answered_no(ids.drop_last(), a, b);
    }
}

/// Where the node is sure, what is answered with no is what it lacks.
proof fn lemma_answered_lacked(
    m: NodeModel,
    ids: Seq<PropagationTransientId>,
    answers: Seq<bool>,
)
    requires
        forall|i: int| 0 <= i < ids.len() ==> #[trigger] answers[i] == holds_id(m, ids[i]),
    ensures
        answered_no(ids, answers) == lacked(m, ids),
    decreases ids.len(),
{
    reveal(Seq::filter);
    if ids.len() > 0 {
        let last = ids.len() - 1;
        assert(answers[last] == holds_id(m, ids[last]));
        lemma_answered_lacked(m, ids.drop_last(), answers);
    }
}

/// The byte strings of some identifiers, as elements.
fn id_elements(ids: &Vec<Vec<u8>>) -> (items: Vec<Datum>)
    ensures
        models(items@) == Seq::new(
            contents(ids@).len(),
            |i: int| Model::Binary(contents(ids@)[i]),
        ),
{
    let mut items: Vec<Datum> = Vec::new();
    let mut i: usize = 0;
    while i < ids.len()
        invariant
            i <= ids@.len(),
            items@.len() == i,
            forall|j: int| 0 <= j < i ==> (#[trigger] items@[j])@ == Model::Binary(ids@[j]@),
        decreases ids@.len() - i,
    {
        items.push(Datum::Binary(copy_slice(ids[i].as_slice())));
        i = i + 1;
    }
    assert(models(items@) =~= Seq::new(
        contents(ids@).len(),
        |i: int| Model::Binary(contents(ids@)[i]),
    ));
    items
}

/// Binary elements give back their bytes.
proof fn lemma_binary_items(ids: Seq<Seq<u8>>)
    ensures
        byte_items(Seq::new(ids.len(), |i: int| Model::Binary(ids[i]))) == ids,
    decreases ids.len(),
{
    let s = Seq::new(ids.len(), |i: int| Model::Binary(ids[i]));
    if ids.len() > 0 {
        let rest = ids.drop_last();
        lemma_binary_items(rest);
        assert(s.drop_last() =~= Seq::new(rest.len(), |i: int| Model::Binary(rest[i])));
        assert(rest.push(ids.last()) =~= ids);
    } else {
        assert(byte_items(s) =~= ids);
    }
}

impl<S: LxmfStorage> PropagationNode<S> {
    /// The messages that the node holds and a peer that lists what it has lacks.
    pub fn offer_request(&self, peer_hash: [u8; 16], offered_ids: &Vec<PropagationTransientId>) -> (
    ids: Vec<PropagationTransientId>)
        ensures
            ids@.no_duplicates(),
            forall|k: [u8; 32]| #[trigger]
                ids@.contains(k) ==> holds_id(self@, k) && !offered_ids@.contains(k),
            self.is_sure() ==> forall|k: [u8; 32]|
                #[trigger]
                ids@.contains(k) <==> holds_id(self@, k) && !offered_ids@.contains(k),
    {
        self.create_offer_filtered(offered_ids)
    }

    /// The answer to an offer: a refusal, or what the node lacks of it.
    pub fn offer_request_checked(
        &self,
        peer_hash: [u8; 16],
        identity_known: bool,
        is_throttled: bool,
        access_allowed: bool,
        peering_key_valid: bool,
        offered_ids: &Vec<PropagationTransientId>,
    ) -> (r: OfferResponse)
        ensures
            is_offer_answer(
                self@,
                self.is_sure(),
                offer_refusal(identity_known, is_throttled, access_allowed, peering_key_valid),
                offered_ids@,
                r@,
            ),
    {
        if !identity_known {
            return OfferResponse::ErrorNoIdentity;
        }
        if is_throttled {
            return OfferResponse::ErrorThrottled;
        }
        if !access_allowed {
            return OfferResponse::ErrorNoAccess;
        }
        if !peering_key_valid {
            return OfferResponse::ErrorInvalidKey;
        }
        let ghost offered = offered_ids@;
        let ghost sure = self.is_sure();
        let ghost mut answers: Seq<bool> = Seq::empty();
        let ghost mut wanted_ids: Seq<[u8; 32]> = Seq::empty();
        let mut wanted: Vec<Vec<u8>> = Vec::new();
        let mut i: usize = 0;
        assert(contents(wanted@) =~= id_bytes(wanted_ids));
        while i < offered_ids.len()
            invariant
                i <= offered_ids@.len(),
                offered == offered_ids@,
                sure == self.is_sure(),
                answers.len() == i,
                wanted_ids == answered_no(offered.take(i as int), answers),
                contents(wanted@) == id_bytes(wanted_ids),
                forall|j: int|
                    0 <= j < i ==> ((#[trigger] answers[j]) ==> holds_id(self@, offered[j])) && (
                    sure ==> answers[j] == holds_id(self@, offered[j])),
            decreases offered_ids@.len() - i,
        {
            let ghost before = wanted@;
            let ghost earlier = answers;
            let ghost earlier_ids = wanted_ids;
            let answer = self.contains(&offered_ids[i]);
            if !answer {
                let bytes = to_vec(&offered_ids[i]);
                wanted.push(bytes);
                proof {
                    wanted_ids = wanted_ids.push(offered[i as int]);
                    assert(contents(wanted@) =~= contents(before).push(bytes@));
                    assert(id_bytes(wanted_ids) =~= id_bytes(earlier_ids).push(
                        offered[i as int]@,
                    ));
                }
            }
            proof {
                answers = answers.push(answer);
                assert(offered.take(i + 1).drop_last() =~= offered.take(i as int));
                lemma_answered_no(offered.take(i as int), earlier, answers);
            }
            i = i + 1;
        }
        proof {
            assert(offered.take(i as int) =~= offered);
            assert(says_held(self@, sure, offered, answers));
            if sure {
                lemma_answered_lacked(self@, offered, answers);
            }
            assert(contents(wanted@).len() == wanted@.len());
        }
        if wanted.len() == 0 {
            OfferResponse::HaveAll
        } else if wanted.len() == offered_ids.len() {
            OfferResponse::WantAll
        } else {
            OfferResponse::WantSome(wanted)
        }
    }

    /// The bytes that an answer is sent as.
    pub fn encode_offer_response(response: &OfferResponse) -> (out: Vec<u8>)
        ensures
            out@ == encoding(answer_element(response@)),
            fits_answer(response@) ==> answer_in(out@) == understood(response@),
    {
        let value = match response {
            OfferResponse::WantAll => Datum::Boolean(true),
            OfferResponse::HaveAll => Datum::Boolean(false),
            OfferResponse::WantSome(ids) => {
                let items = id_elements(ids);
                Datum::Array(items)
            },
            OfferResponse::ErrorNoIdentity => Datum::Unsigned(PeerError::NoIdentity.code() as u64),
            OfferResponse::ErrorNoAccess => Datum::Unsigned(PeerError::NoAccess.code() as u64),
            OfferResponse::ErrorInvalidKey => Datum::Unsigned(PeerError::InvalidKey.code() as u64),
            OfferResponse::ErrorThrottled => Datum::Unsigned(PeerError::Throttled.code() as u64),
            OfferResponse::ErrorInvalidData => Datum::Unsigned(PeerError::InvalidData.code() as u64),
            OfferResponse::ErrorInvalidStamp => Datum::Unsigned(
                PeerError::InvalidStamp.code() as u64,
            ),
            OfferResponse::Unknown => Datum::Nil,
        };
        proof {
            lemma_view(&value);
            assert(value@ == answer_element(response@));
            if fits_answer(response@) {
                if let Answer::WantSome(ids) = response@ {
                    lemma_binary_items(ids);
                    assert forall|i: int| 0 <= i < ids.len() implies storable(
                        #[trigger] value@->Array_0[i],
                        (MAX_NESTING - 1) as nat,
                    ) by {
                        assert(ids[i].len() <= MAX_LENGTH);
                    }
                }
                assert(storable(value@, MAX_NESTING as nat));
                assert(answer_of(value@) == understood(response@));
            }
        }
        encode(&value)
    }

    /// The key and the identifiers that an offer gives.
    pub fn decode_offer_request(data: &[u8]) -> (r: Option<(Vec<u8>, Vec<PropagationTransientId>)>)
        ensures
            r is Some <==> offer_in(data@) is Some,
            r matches Some((key, ids)) ==> offer_in(data@) == Some((key@, ids@)),
    {
        let value = match decode(data) {
            Some((v, _)) => v,
            None => {
                return None;
            },
        };
        proof {
            lemma_view(&value);
        }
        match &value {
            Datum::Array(items) => {
                if items.len() < 2 {
                    return None;
                }
                proof {
                    assert(models(items@)[0] == items@[0]@);
                    assert(models(items@)[1] == items@[1]@);
                    lemma_view(&items@[1]);
                }
                let key = match items[0].as_bytes() {
                    Some(k) => k,
                    None => Vec::new(),
                };
                match &items[1] {
                    Datum::Array(ids) => {
                        let found = collect_bytes(ids);
                        let list = collect_ids(&found);
                        Some((key, list))
                    },
                    _ => None,
                }
            },
            _ => None,
        }
    }

    /// Answers an offer that came in as `request_data`.  What a peering key is worth,
    /// `validate` says of the two identities, the key and the work that is asked for.
    pub fn handle_offer_request<F>(
        &mut self,
        request_data: &[u8],
        ctx: OfferRequestContext<'_>,
        validate: F,
        now: i64,
    ) -> (out: Vec<u8>) where F: FnOnce(&[u8; 32], &[u8; 32], u8) -> bool
        requires
            forall|id: &[u8; 32], key: &[u8; 32], cost: u8|
                call_requires(validate, (id, key, cost)),
        ensures
            final(self).reliable() == old(self).reliable(),
            offers_too_soon(old(self)@, ctx.peer_hash, now) ==> final(self)@ == old(self)@ && out@
                == encoding(answer_element(Answer::Refused(PeerError::Throttled))),
            !offers_too_soon(old(self)@, ctx.peer_hash, now) && offer_in(request_data@) is None
                ==> final(self)@ == old(self)@ && out@ == encoding(
                answer_element(Answer::Refused(PeerError::InvalidData)),
            ),
            !offers_too_soon(old(self)@, ctx.peer_hash, now) && offer_in(request_data@) is Some
                ==> final(self)@ == (NodeModel {
                offers: old(self)@.offers.insert(ctx.peer_hash, now),
                ..old(self)@
            }) && exists|valid: bool, a: Answer| #[trigger]
                is_judged_answer(
                    old(self)@,
                    old(self).is_sure(),
                    validate,
                    ctx,
                    offer_in(request_data@)->0,
                    valid,
                    a,
                ) && out@ == encoding(answer_element(a)),
    {
        match self.last_offer_times.get(&ctx.peer_hash) {
            Some(last) => {
                if now as i128 - *last as i128 <= PN_STAMP_THROTTLE as i128 * 1_000_000 - 1 {
                    return Self::encode_offer_response(&OfferResponse::ErrorThrottled);
                }
            },
            None => {},
        }
        let (key, offered) = match Self::decode_offer_request(request_data) {
            Some(p) => p,
            None => {
                return Self::encode_offer_response(&OfferResponse::ErrorInvalidData);
            },
        };
        let valid = if key.len() == 0 {
            self.config.peering_cost == 0
        } else {
            let whole: Option<[u8; 32]> = to_fixed(key.as_slice());
            match (whole, ctx.local_identity_hash, ctx.remote_identity_hash) {
                (Some(k), Some(local), Some(remote)) => {
                    let both = join(local, remote);
                    let id: Option<[u8; 32]> = to_fixed(both.as_slice());
                    match id {
                        Some(peering) => {
                            proof {
                                lemma_fixed(k);
                                lemma_fixed(peering);
                            }
                            validate(&peering, &k, self.config.peering_cost)
                        },
                        None => false,
                    }
                },
                _ => false,
            }
        };
        let response = self.offer_request_checked(
            ctx.peer_hash,
            ctx.identity_known,
            ctx.is_throttled,
            ctx.access_allowed,
            valid,
            &offered,
        );
        proof {
            assert(is_judged_answer(
                old(self)@,
                old(self).is_sure(),
                validate,
                ctx,
                offer_in(request_data@)->0,
                valid,
                response@,
            ));
        }
        self.last_offer_times.insert(ctx.peer_hash, now);
        Self::encode_offer_response(&response)
    }
}

// ---------------------------------------------------------------------------
// What offers and answers come to.
// ---------------------------------------------------------------------------

/// A node holds what is in the storage that it goes by, or else in its index, and a stamp is
/// worth what is noted there.
pub proof fn nodes_hold_what_they_go_by(m: NodeModel, k: [u8; 32])
    ensures
        is_authoritative(m.backing) ==> (holds_id(m, k) <==> m.storage.messages.contains_key(k))
            && held_stamp(m, k) == m.storage.messages[k].metadata.stamp_value,
        !is_authoritative(m.backing) ==> (holds_id(m, k) <==> m.index.contains_key(k))
            && held_stamp(m, k) == m.index[k].stamp_value,
        is_authoritative(m.backing) <==> m.backing != NodeBacking::Memory && m.backing
            != NodeBacking::Directory,
{
}

/// A node offers a message exactly where it holds it and its stamp is worth enough, and no
/// message twice.
pub proof fn messages_worth_enough_are_offered(
    m: NodeModel,
    minimum: Option<u8>,
    ids: Seq<PropagationTransientId>,
    k: [u8; 32],
)
    requires
        offers_all(m, minimum, ids),
    ensures
        ids.contains(k) <==> holds_id(m, k) && (minimum is Some ==> minimum->0 <= held_stamp(m, k)),
        forall|i: int, j: int| 0 <= i < j < ids.len() ==> ids[i] != ids[j],
{
}

/// What is answered with no is the identifiers at the places of the noes, each at the place
/// that the noes before it leave it.
pub proof fn noes_are_asked_for(ids: Seq<PropagationTransientId>, answers: Seq<bool>)
    requires
        answers.len() == ids.len(),
    ensures
        answered_no(ids, answers).len() == answers.filter(|a: bool| !a).len(),
        forall|i: int|
            0 <= i < ids.len() && !(#[trigger] answers[i]) ==> answered_no(
                ids,
                answers,
            )[answers.take(i).filter(|a: bool| !a).len() as int] == ids[i],
    decreases ids.len(),
{
    let no = |a: bool| !a;
    reveal(Seq::filter);
    if ids.len() > 0 {
        let front = answers.drop_last();
        noes_are_asked_for(ids.drop_last(), front);
        lemma_answered_no(ids.drop_last(), answers, front);
        assert forall|i: int| 0 <= i < ids.len() && !(#[trigger] answers[i]) implies answered_no(
            ids,
            answers,
        )[answers.take(i).filter(no).len() as int] == ids[i] by {
            if i < front.len() {
                assert(front.take(i) =~= answers.take(i));
                assert(front[i] == answers[i]);
                let next = answers.take(i + 1);
                assert(next.drop_last() =~= answers.take(i));
                assert(front =~= next + front.skip(i + 1));
                Seq::filter_distributes_over_add(next, front.skip(i + 1), no);
                assert(next.filter(no).len() == answers.take(i).filter(no).len() + 1);
            } else {
                assert(answers.take(i) =~= front);
            }
        }
    }
}

/// A node that is sure of what it holds asks for exactly the offered messages that it lacks: it
/// has all where it lacks none, wants all where it holds none, and otherwise names those that it
/// lacks, in the order of the offer.
pub proof fn missing_messages_are_asked_for(
    m: NodeModel,
    offered: Seq<PropagationTransientId>,
    a: Answer,
)
    requires
        is_offer_answer(m, true, None, offered, a),
    ensures
        a is HaveAll <==> forall|i: int|
            0 <= i < offered.len() ==> holds_id(m, #[trigger] offered[i]),
        a is WantAll <==> offered.len() > 0 && forall|i: int|
            0 <= i < offered.len() ==> !holds_id(m, #[trigger] offered[i]),
        a is HaveAll || a is WantAll || a is WantSome,
        a matches Answer::WantSome(list) ==> list == id_bytes(
            offered.filter(|k: [u8; 32]| !holds_id(m, k)),
        ) && 0 < list.len() < offered.len(),
{
    let test = |k: [u8; 32]| !holds_id(m, k);
    let wanted = offered.filter(test);
    lemma_filter_members(offered, test);
    lemma_lacking_bounds(m, offered);
    if wanted.len() == 0 {
        assert forall|i: int| 0 <= i < offered.len() implies holds_id(m, #[trigger] offered[i]) by {
            if !holds_id(m, offered[i]) {
                assert(offered.contains(offered[i]));
                assert(wanted.contains(offered[i]));
            }
        }
    } else {
        assert(wanted.contains(wanted[0]));
    }
}

/// Everything that is offered is lacking just where as much is lacking as is offered.
proof fn lemma_lacking_bounds(m: NodeModel, offered: Seq<PropagationTransientId>)
    ensures
        offered.filter(|k: [u8; 32]| !holds_id(m, k)).len() <= offered.len(),
        offered.filter(|k: [u8; 32]| !holds_id(m, k)).len() == offered.len() <==> forall|i: int|
            0 <= i < offered.len() ==> !holds_id(m, #[trigger] offered[i]),
    decreases offered.len(),
{
    reveal(Seq::filter);
    if offered.len() > 0 {
        let front = offered.drop_last();
        lemma_lacking_bounds(m, front);
        assert forall|i: int| 0 <= i < front.len() implies front[i] == #[trigger] offered[i] by {}
        if forall|i: int| 0 <= i < front.len() ==> !holds_id(m, #[trigger] front[i]) {
            assert forall|i: int| 0 <= i < front.len() implies !holds_id(
                m,
                #[trigger] offered[i],
            ) by {
                assert(!holds_id(m, front[i]));
            }
        } else {
            let i = choose|i: int| 0 <= i < front.len() && holds_id(m, #[trigger] front[i]);
            assert(holds_id(m, offered[i]));
        }
    }
}

/// A node never asks for what it was not offered, and one that is not sure still asks for all
/// that it lacks.
pub proof fn nothing_missing_is_passed_over(
    m: NodeModel,
    sure: bool,
    offered: Seq<PropagationTransientId>,
    a: Answer,
    k: [u8; 32],
)
    requires
        is_offer_answer(m, sure, None, offered, a),
        offered.contains(k),
        !holds_id(m, k),
    ensures
        a is WantAll || (a is WantSome && a->WantSome_0.contains(k@)),
{
    let answers = choose|answers: Seq<bool>| #[trigger]
        says_held(m, sure, offered, answers) && a == selection(
            offered,
            answered_no(offered, answers),
        );
    let i = offered.index_of(k);
    assert(!answers[i]);
    noes_are_asked_for(offered, answers);
    let no = |b: bool| !b;
    let wanted = answered_no(offered, answers);
    let j = answers.take(i).filter(no).len() as int;
    assert(j < wanted.len()) by {
        reveal(Seq::filter);
        let next = answers.take(i + 1);
        assert(next.drop_last() =~= answers.take(i));
        assert(answers =~= next + answers.skip(i + 1));
        Seq::filter_distributes_over_add(next, answers.skip(i + 1), no);
        assert(next.filter(no).len() == j + 1);
    }
    assert(wanted[j] == k);
    assert(id_bytes(wanted)[j] == k@);
}

/// An offer is refused for the first thing that is wrong with it, and only where something is.
pub proof fn offers_are_refused_for_a_reason(
    identity_known: bool,
    is_throttled: bool,
    access_allowed: bool,
    key_valid: bool,
)
    ensures
        ({
            let r = offer_refusal(identity_known, is_throttled, access_allowed, key_valid);
            &&& r is None <==> identity_known && !is_throttled && access_allowed && key_valid
            &&& r == Some(PeerError::NoIdentity) <==> !identity_known
            &&& r == Some(PeerError::Throttled) <==> identity_known && is_throttled
            &&& r == Some(PeerError::NoAccess) <==> identity_known && !is_throttled
                && !access_allowed
            &&& r == Some(PeerError::InvalidKey) <==> identity_known && !is_throttled
                && access_allowed && !key_valid
        }),
{
}

/// A refusal is the answer exactly where there is a reason for one, and names it.
pub proof fn refusals_give_their_reason(
    m: NodeModel,
    sure: bool,
    refused: Option<PeerError>,
    offered: Seq<PropagationTransientId>,
    a: Answer,
)
    requires
        is_offer_answer(m, sure, refused, offered, a),
    ensures
        a is Refused <==> refused is Some,
        a matches Answer::Refused(e) ==> refused == Some(e),
{
}

/// A peering key holds where it is empty and no work is asked for; a key of another length than
/// 32 bytes does not, nor does one where an identity is missing; what is left goes to
/// `validate`, with our identity in front of the other's.
pub proof fn peering_keys_are_judged<F: FnOnce(&[u8; 32], &[u8; 32], u8) -> bool>(
    validate: F,
    ctx: OfferRequestContext<'_>,
    key: Seq<u8>,
    cost: u8,
    valid: bool,
)
    requires
        judges_key(validate, ctx, key, cost, valid),
    ensures
        key.len() == 0 ==> (valid <==> cost == 0),
        key.len() != 0 && valid ==> key.len() == 32 && ctx.local_identity_hash is Some
            && ctx.remote_identity_hash is Some,
        key.len() == 32 && ctx.local_identity_hash is Some && ctx.remote_identity_hash is Some
            ==> exists|pair: [u8; 32], given: [u8; 32]|
            #![trigger call_ensures(validate, (&pair, &given, cost), valid)]
            call_ensures(validate, (&pair, &given, cost), valid) && given@ == key && pair@
                == ctx.local_identity_hash->0@ + ctx.remote_identity_hash->0@,
{
    if key.len() == 32 && ctx.local_identity_hash is Some && ctx.remote_identity_hash is Some {
        let both = ctx.local_identity_hash->0@ + ctx.remote_identity_hash->0@;
        lemma_id_exists(both);
        lemma_id_exists(key);
        assert(fixed::<32>(both)@ == both);
        assert(fixed::<32>(key)@ == key);
    }
}

/// A peer may make an offer again three minutes after its last one, and at any time where it
/// made none.
pub proof fn peers_wait_between_offers(m: NodeModel, peer: [u8; 16], now: i64)
    ensures
        !m.offers.contains_key(peer) ==> !offers_too_soon(m, peer, now),
        m.offers.contains_key(peer) ==> (offers_too_soon(m, peer, now) <==> now < m.offers[peer]
            + 180_000_000),
{
}

/// An answer is sent as a boolean where it is all or nothing, as a list of identifiers where it
/// names some, and as a code where it refuses; and it is read back as it was sent.
pub proof fn answers_are_read_back(a: Answer)
    ensures
        answer_element(a) == Model::Boolean(true) <==> a is WantAll,
        answer_element(a) == Model::Boolean(false) <==> a is HaveAll,
        answer_element(a) is Array <==> a is WantSome,
        a matches Answer::Refused(e) ==> answer_element(a) == Model::Integer(
            (match e {
                PeerError::NoIdentity => 240int,
                PeerError::NoAccess => 241,
                PeerError::InvalidKey => 243,
                PeerError::InvalidData => 244,
                PeerError::InvalidStamp => 245,
                PeerError::Throttled => 246,
            }),
        ),
        a matches Answer::WantSome(ids) ==> (ids.len() > 0 ==> answer_of(answer_element(a)) == a)
            && (ids.len() == 0 ==> answer_of(answer_element(a)) == Answer::HaveAll),
        !(a is WantSome) ==> answer_of(answer_element(a)) == a,
{
    if let Answer::WantSome(ids) = a {
        lemma_binary_items(ids);
    }
}

/// An offer is read where it is a list whose second element is a list: its key is the first
/// element, and nothing where that is no byte string; its identifiers are the byte strings of
/// 32 bytes in the second.
pub proof fn offers_are_read(data: Seq<u8>, m: Model, rest: Seq<u8>)
    ensures
        parsed(data) is None ==> offer_in(data) is None,
        parsed(data) == Some((m, rest)) ==> (offer_in(data) is Some <==> m is Array
            && m->Array_0.len() >= 2 && m->Array_0[1] is Array),
        parsed(data) == Some((m, rest)) ==> (offer_in(data) matches Some(offer) ==> {
            let parts = m->Array_0;
            &&& offer.1 == proper_ids(byte_items(parts[1]->Array_0))
            &&& raw_bytes(parts[0]) matches Some(key) ==> offer.0 == key
            &&& raw_bytes(parts[0]) is None ==> offer.0.len() == 0
        }),
{
}

/// A well-formed offer is judged by its own key against the cost that the node asks of peers, and
/// is then refused or answered for its own identifiers.
pub proof fn offers_are_judged_by_their_key<F: FnOnce(&[u8; 32], &[u8; 32], u8) -> bool>(
    m: NodeModel,
    sure: bool,
    validate: F,
    ctx: OfferRequestContext<'_>,
    offer: (Seq<u8>, Seq<PropagationTransientId>),
    valid: bool,
    a: Answer,
)
    requires
        is_judged_answer(m, sure, validate, ctx, offer, valid, a),
    ensures
        judges_key(validate, ctx, offer.0, m.config.peering_cost, valid),
        a is Refused <==> !ctx.identity_known || ctx.is_throttled || !ctx.access_allowed || !valid,
        !ctx.identity_known ==> a == Answer::Refused(PeerError::NoIdentity),
        ctx.identity_known && ctx.is_throttled ==> a == Answer::Refused(PeerError::Throttled),
        ctx.identity_known && !ctx.is_throttled && !ctx.access_allowed ==> a == Answer::Refused(
            PeerError::NoAccess,
        ),
        ctx.identity_known && !ctx.is_throttled && ctx.access_allowed && !valid ==> a
            == Answer::Refused(PeerError::InvalidKey),
        ctx.identity_known && !ctx.is_throttled && ctx.access_allowed && valid ==> is_offer_answer(
            m,
            sure,
            None,
            offer.1,
            a,
        ),
{
}

/// To ask for nothing is to have all; any other answer is understood as it is meant.
pub proof fn answers_are_understood_as_meant(a: Answer)
    ensures
        understood(a) is HaveAll <==> a is HaveAll || (a is WantSome && a->WantSome_0.len() == 0),
        !(a is WantSome && a->WantSome_0.len() == 0) ==> understood(a) == a,
{
}

} // verus!
