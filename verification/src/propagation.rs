//! The index of the messages that a propagation node holds for others.

use vstd::prelude::*;

use crate::bytes::{
    is_less, lemma_lex_less_asymmetric, lemma_lex_less_total, lemma_lex_less_transitive, lemma_members_add,
    lemma_members_remove, lex_less, list_add, list_contains, list_remove, members, same,
};
use crate::constants::MICROS_PER_SECOND;
use crate::select::{
    elapsed, lemma_leading_distinct, lemma_sheds_enough, lemma_weigh_without,
    no_more_is_dropped_than_needed, outweighs, shed, sheds, strict_order, weight_of,
};
use crate::table::{kept, lemma_kept_weighs_less, lists_keys, saturated, weigh, without, Table};
use crate::types::PropagationTransientId;

verus! {

/// What the index knows of one message.
#[derive(Debug, Clone, Copy, PartialEq, Eq)]
pub struct PropagationEntry {
    pub transient_id: PropagationTransientId,
    pub message_hash: [u8; 32],
    pub destination_hash: [u8; 16],
    /// When the message was stored, in microseconds.
    pub stored_at: i64,
    pub stamp_value: u8,
    pub size: usize,
    pub collected: bool,
    /// Whether the last bytes of the stored message are a stamp.
    pub stamped: bool,
}

impl View for PropagationEntry {
    type V = PropagationEntry;

    open spec fn view(&self) -> PropagationEntry {
        *self
    }
}

impl PropagationEntry {
    /// An entry for a message without a stamp behind it.
    pub fn new(
        transient_id: PropagationTransientId,
        message_hash: [u8; 32],
        destination_hash: [u8; 16],
        size: usize,
        stamp_value: u8,
        stored_at: i64,
    ) -> (e: Self)
        ensures
            e == (PropagationEntry {
                transient_id,
                message_hash,
                destination_hash,
                stored_at,
                stamp_value,
                size,
                collected: false,
                stamped: false,
            }),
    {
        PropagationEntry {
            transient_id,
            message_hash,
            destination_hash,
            stored_at,
            stamp_value,
            size,
            collected: false,
            stamped: false,
        }
    }

    /// An entry for a message with a stamp behind it.
    pub fn new_stamped(
        transient_id: PropagationTransientId,
        message_hash: [u8; 32],
        destination_hash: [u8; 16],
        size: usize,
        stamp_value: u8,
        stored_at: i64,
    ) -> (e: Self)
        ensures
            e == (PropagationEntry {
                transient_id,
                message_hash,
                destination_hash,
                stored_at,
                stamp_value,
                size,
                collected: false,
                stamped: true,
            }),
    {
        PropagationEntry {
            transient_id,
            message_hash,
            destination_hash,
            stored_at,
            stamp_value,
            size,
            collected: false,
            stamped: true,
        }
    }
}

/// Entries of this age, in microseconds, and younger ones weigh the same.
pub const ENTRY_BASE_AGE: i64 = 345_600_000_000;

/// The weight by which entries are dropped when space runs out.
pub open spec fn entry_weight(e: PropagationEntry, now: i64, prioritised: Set<[u8; 16]>) -> int {
    weight_of(
        now - e.stored_at,
        ENTRY_BASE_AGE as int,
        e.size as int,
        prioritised.contains(e.destination_hash),
    )
}

/// The order in which entries are dropped when space runs out: the heaviest first.
pub open spec fn heaviest_first(now: i64, prioritised: Set<[u8; 16]>) -> spec_fn(
    ([u8; 32], PropagationEntry),
    ([u8; 32], PropagationEntry),
) -> bool {
    |a: ([u8; 32], PropagationEntry), b: ([u8; 32], PropagationEntry)|
        {
            let wa = entry_weight(a.1, now, prioritised);
            let wb = entry_weight(b.1, now, prioritised);
            ||| wa > wb
            ||| wa == wb && lex_less(a.0@, b.0@)
        }
}

/// The order in which entries are dropped is strict.
pub proof fn lemma_heaviest_first(now: i64, prioritised: Set<[u8; 16]>)
    ensures
        strict_order(heaviest_first(now, prioritised)),
{
    assert forall|a: [u8; 32], b: [u8; 32]| a != b implies #[trigger] lex_less(a@, b@) || lex_less(
        b@,
        a@,
    ) by {
        lemma_lex_less_total(a@, b@);
        if a@ == b@ {
            assert(a =~= b);
        }
    }
    assert forall|a: [u8; 32]| !(#[trigger] lex_less(a@, a@)) by {
        lemma_lex_less_asymmetric(a@, a@);
    }
    assert forall|a: [u8; 32], b: [u8; 32], c: [u8; 32]| #[trigger]
        lex_less(a@, b@) && #[trigger] lex_less(b@, c@) implies lex_less(a@, c@) by {
        lemma_lex_less_transitive(a@, b@, c@);
    }
}

/// The bytes that an entry stands for.
pub open spec fn entry_bytes() -> spec_fn(PropagationEntry) -> nat {
    |e: PropagationEntry| e.size as nat
}

/// Whether an entry is at most `max_age` seconds old.
pub open spec fn is_fresh(e: PropagationEntry, max_age: u64, now: i64) -> bool {
    now - e.stored_at <= max_age * MICROS_PER_SECOND
}

/// The entries of an index that are at most `max_age` seconds old.
pub open spec fn fresh_entries(
    m: Map<[u8; 32], PropagationEntry>,
    max_age: u64,
    now: i64,
) -> Map<[u8; 32], PropagationEntry> {
    kept(m, |k: [u8; 32], e: PropagationEntry| is_fresh(e, max_age, now))
}

/// Whether `keys` are what goes when `m` is cut down to `limit` bytes.
pub open spec fn is_overflow(
    m: Map<[u8; 32], PropagationEntry>,
    limit: usize,
    now: i64,
    prioritised: Set<[u8; 16]>,
    keys: Seq<[u8; 32]>,
) -> bool {
    sheds(
        m,
        heaviest_first(now, prioritised),
        entry_bytes(),
        if weigh(m, entry_bytes()) > limit {
            saturated(weigh(m, entry_bytes())) - limit
        } else {
            0
        } as nat,
        usize::MAX as nat,
        keys,
    )
}

/// What is left of an index that was cut down fits the limit.
pub proof fn lemma_overflow_fits(
    m: Map<[u8; 32], PropagationEntry>,
    max_age: u64,
    limit: usize,
    now: i64,
    prioritised: Set<[u8; 16]>,
    keys: Seq<[u8; 32]>,
)
    requires
        m.dom().finite(),
        m.len() < usize::MAX,
        weigh(m, entry_bytes()) <= usize::MAX,
        is_overflow(fresh_entries(m, max_age, now), limit, now, prioritised, keys),
    ensures
        weigh(without(fresh_entries(m, max_age, now), keys), entry_bytes()) <= limit,
{
    let fresh = fresh_entries(m, max_age, now);
    assert(fresh.dom().subset_of(m.dom()));
    vstd::set_lib::lemma_len_subset(fresh.dom(), m.dom());
    lemma_kept_weighs_less(
        m,
        entry_bytes(),
        |k: [u8; 32], e: PropagationEntry| is_fresh(e, max_age, now),
    );
    lemma_heaviest_first(now, prioritised);
    let goal: nat = if weigh(fresh, entry_bytes()) > limit {
        saturated(weigh(fresh, entry_bytes())) - limit
    } else {
        0
    } as nat;
    lemma_sheds_enough(
        fresh,
        heaviest_first(now, prioritised),
        entry_bytes(),
        goal,
        usize::MAX as nat,
        keys,
    );
}

/// The entries of an index that a test accepts, each once.
pub open spec fn lists_entries(
    m: Map<[u8; 32], PropagationEntry>,
    test: spec_fn(PropagationEntry) -> bool,
    list: Seq<PropagationEntry>,
) -> bool {
    &&& forall|i: int, j: int|
        0 <= i < j < list.len() ==> (#[trigger] list[i]).transient_id != (
        #[trigger] list[j]).transient_id
    &&& forall|i: int|
        0 <= i < list.len() ==> m.contains_key((#[trigger] list[i]).transient_id)
            && m[list[i].transient_id] == list[i] && test(list[i])
    &&& forall|k: [u8; 32]| #[trigger]
        m.contains_key(k) && test(m[k]) ==> exists|i: int|
            0 <= i < list.len() && #[trigger] list[i] == m[k]
}

/// Whether every entry of an index stands under its own identifier.
pub open spec fn own_ids(m: Map<[u8; 32], PropagationEntry>) -> bool {
    forall|k: [u8; 32]| #[trigger] m.contains_key(k) ==> m[k].transient_id == k
}

/// The index of stored messages, with the destinations that are refused and those that
/// are kept longest.
pub struct PropagationStore {
    entries: Table<32, PropagationEntry>,
    ignored: Vec<[u8; 16]>,
    prioritised: Vec<[u8; 16]>,
}

impl View for PropagationStore {
    type V = Map<[u8; 32], PropagationEntry>;

    closed spec fn view(&self) -> Map<[u8; 32], PropagationEntry> {
        self.entries@
    }
}

impl PropagationStore {
    #[verifier::type_invariant]
    spec fn well_formed(&self) -> bool {
        own_ids(self.entries@)
    }

    /// The destinations whose messages are refused.
    pub closed spec fn ignored_set(&self) -> Set<[u8; 16]> {
        members(self.ignored@)
    }

    /// The destinations whose messages are kept longest.
    pub closed spec fn prioritised_set(&self) -> Set<[u8; 16]> {
        members(self.prioritised@)
    }

    pub fn new() -> (s: Self)
        ensures
            s@ == Map::<[u8; 32], PropagationEntry>::empty(),
            s.ignored_set() == Set::<[u8; 16]>::empty(),
            s.prioritised_set() == Set::<[u8; 16]>::empty(),
    {
        let ignored: Vec<[u8; 16]> = Vec::new();
        let prioritised: Vec<[u8; 16]> = Vec::new();
        let entries: Table<32, PropagationEntry> = Table::new();
        let s = PropagationStore { entries, ignored, prioritised };
        assert(s.ignored_set() =~= Set::<[u8; 16]>::empty());
        assert(s.prioritised_set() =~= Set::<[u8; 16]>::empty());
        s
    }

    /// The destinations whose messages are kept longest.
    pub fn prioritised_list(&self) -> (list: &Vec<[u8; 16]>)
        ensures
            members(list@) == self.prioritised_set(),
    {
        &self.prioritised
    }

    /// Adds an entry, unless its identifier is taken.
    pub fn insert(&mut self, entry: PropagationEntry) -> (added: bool)
        ensures
            added == !old(self)@.contains_key(entry.transient_id),
            final(self)@ == (if added {
                old(self)@.insert(entry.transient_id, entry)
            } else {
                old(self)@
            }),
            final(self).ignored_set() == old(self).ignored_set(),
            final(self).prioritised_set() == old(self).prioritised_set(),
    {
        proof {
            use_type_invariant(&*self);
        }
        if self.entries.contains_key(&entry.transient_id) {
            return false;
        }
        let mut entries: Table<32, PropagationEntry> = Table::new();
        std::mem::swap(&mut entries, &mut self.entries);
        entries.insert(entry.transient_id, entry);
        self.entries = entries;
        true
    }

    pub fn contains(&self, transient_id: &PropagationTransientId) -> (b: bool)
        ensures
            b == self@.contains_key(*transient_id),
    {
        self.entries.contains_key(transient_id)
    }

    pub fn get(&self, transient_id: &PropagationTransientId) -> (r: Option<PropagationEntry>)
        ensures
            r == (if self@.contains_key(*transient_id) {
                Some(self@[*transient_id])
            } else {
                None
            }),
            r matches Some(e) ==> e.transient_id == *transient_id,
    {
        proof {
            use_type_invariant(self);
        }
        match self.entries.get(transient_id) {
            Some(e) => Some(*e),
            None => None,
        }
    }

    pub fn remove(&mut self, transient_id: &PropagationTransientId) -> (r: Option<
        PropagationEntry,
    >)
        ensures
            r == (if old(self)@.contains_key(*transient_id) {
                Some(old(self)@[*transient_id])
            } else {
                None
            }),
            final(self)@ == old(self)@.remove(*transient_id),
            final(self).ignored_set() == old(self).ignored_set(),
            final(self).prioritised_set() == old(self).prioritised_set(),
    {
        proof {
            use_type_invariant(&*self);
        }
        let mut entries: Table<32, PropagationEntry> = Table::new();
        std::mem::swap(&mut entries, &mut self.entries);
        let r = entries.remove(transient_id);
        self.entries = entries;
        r
    }

    pub fn len(&self) -> (n: usize)
        ensures
            n == self@.len(),
            self@.dom().finite(),
    {
        self.entries.len()
    }

    pub fn is_empty(&self) -> (b: bool)
        ensures
            b == (self@.len() == 0),
    {
        self.entries.len() == 0
    }

    /// The bytes that all entries stand for.
    pub fn total_size(&self) -> (n: usize)
        ensures
            n == saturated(weigh(self@, entry_bytes())),
    {
        let size_of = |e: &PropagationEntry| -> (n: usize)
            ensures
                n == e.size,
            { e.size };
        self.entries.total(size_of, Ghost(entry_bytes()))
    }

    /// The identifiers of all entries.
    pub fn transient_ids(&self) -> (ids: Vec<PropagationTransientId>)
        ensures
            lists_keys(self@, ids@),
    {
        let ghost test = |k: [u8; 32], e: PropagationEntry| true;
        let accepts = |k: &[u8; 32], e: &PropagationEntry| -> (b: bool)
            ensures
                b,
            { true };
        let ids = self.entries.list(accepts, Ghost(test));
        assert(kept(self@, test) =~= self@);
        ids
    }

    /// The identifiers of the entries whose stamp is worth at least `minimum`.
    pub fn ids_with_stamp(&self, minimum: u8) -> (ids: Vec<PropagationTransientId>)
        ensures
            lists_keys(
                kept(self@, |k: [u8; 32], e: PropagationEntry| e.stamp_value >= minimum),
                ids@,
            ),
    {
        let ghost test = |k: [u8; 32], e: PropagationEntry| e.stamp_value >= minimum;
        let accepts = |k: &[u8; 32], e: &PropagationEntry| -> (b: bool)
            ensures
                b == (e.stamp_value >= minimum),
            { e.stamp_value >= minimum };
        self.entries.list(accepts, Ghost(test))
    }

    /// The entries for one destination.
    pub fn entries_for_destination(&self, destination_hash: &[u8; 16]) -> (list: Vec<
        PropagationEntry,
    >)
        ensures
            lists_entries(
                self@,
                |e: PropagationEntry| e.destination_hash == *destination_hash,
                list@,
            ),
            own_ids(self@),
    {
        proof {
            use_type_invariant(self);
        }
        let ghost m = self@;
        let ghost test = |k: [u8; 32], e: PropagationEntry|
            e.destination_hash == *destination_hash;
        let accepts = |k: &[u8; 32], e: &PropagationEntry| -> (b: bool)
            ensures
                b == (e.destination_hash == *destination_hash),
            { same(&e.destination_hash, destination_hash) };
        let ids = self.entries.list(accepts, Ghost(test));
        let mut list: Vec<PropagationEntry> = Vec::new();
        let mut i: usize = 0;
        while i < ids.len()
            invariant
                i <= ids@.len(),
                m == self.entries@,
                own_ids(m),
                lists_keys(kept(m, test), ids@),
                list@.len() == i,
                forall|j: int|
                    0 <= j < i ==> (#[trigger] list@[j]) == m[ids@[j]] && list@[j].transient_id
                        == ids@[j],
            decreases ids@.len() - i,
        {
            assert(ids@.contains(ids@[i as int]));
            match self.entries.get(&ids[i]) {
                Some(e) => {
                    list.push(*e);
                },
                None => {},
            }
            i = i + 1;
        }
        proof {
            assert forall|j: int| 0 <= j < list@.len() implies m.contains_key(
                (#[trigger] list@[j]).transient_id,
            ) && m[list@[j].transient_id] == list@[j] && list@[j].destination_hash
                == *destination_hash by {
                assert(ids@.contains(ids@[j]));
            }
            assert forall|k: [u8; 32]| #[trigger]
                m.contains_key(k) && m[k].destination_hash == *destination_hash implies exists|
                j: int,
            | 0 <= j < list@.len() && #[trigger] list@[j] == m[k] by {
                assert(ids@.contains(k));
                let j = choose|j: int| 0 <= j < ids@.len() && ids@[j] == k;
                assert(list@[j] == m[k]);
            }
        }
        list
    }

    /// Drops the entries that are older than `max_age` seconds.
    pub fn cull_expired(&mut self, max_age: u64, now: i64)
        ensures
            final(self)@ == fresh_entries(old(self)@, max_age, now),
            final(self).ignored_set() == old(self).ignored_set(),
            final(self).prioritised_set() == old(self).prioritised_set(),
    {
        proof {
            use_type_invariant(&*self);
        }
        let mut entries: Table<32, PropagationEntry> = Table::new();
        std::mem::swap(&mut entries, &mut self.entries);
        let ghost test = |k: [u8; 32], e: PropagationEntry| is_fresh(e, max_age, now);
        let keep = |k: &[u8; 32], e: &PropagationEntry| -> (b: bool)
            ensures
                b == is_fresh(*e, max_age, now),
            { elapsed(e.stored_at, now) <= max_age as i128 * MICROS_PER_SECOND as i128 };
        entries.retain(keep, Ghost(test));
        self.entries = entries;
    }

    /// Drops the heaviest entries until the rest fits in `limit` bytes.
    pub fn cull_by_weight(&mut self, limit: usize, now: i64)
        ensures
            exists|keys: Seq<[u8; 32]>| #[trigger]
                is_overflow(old(self)@, limit, now, old(self).prioritised_set(), keys)
                    && final(self)@ == without(old(self)@, keys),
            final(self).ignored_set() == old(self).ignored_set(),
            final(self).prioritised_set() == old(self).prioritised_set(),
    {
        proof {
            use_type_invariant(&*self);
        }
        let total = self.total_size();
        let goal: usize = if total > limit {
            total - limit
        } else {
            0
        };
        let ghost set = members(self.prioritised@);
        let prioritised = &self.prioritised;
        let precedes = |
            k: &[u8; 32],
            a: &PropagationEntry,
            l: &[u8; 32],
            c: &PropagationEntry,
        | -> (b: bool)
            ensures
                b == (entry_weight(*a, now, members(prioritised@)) > entry_weight(
                    *c,
                    now,
                    members(prioritised@),
                ) || entry_weight(*a, now, members(prioritised@)) == entry_weight(
                    *c,
                    now,
                    members(prioritised@),
                ) && lex_less(k@, l@)),
            {
                let (more, even) = outweighs(
                    elapsed(a.stored_at, now),
                    a.size,
                    list_contains(prioritised, &a.destination_hash),
                    elapsed(c.stored_at, now),
                    c.size,
                    list_contains(prioritised, &c.destination_hash),
                    ENTRY_BASE_AGE,
                );
                more || (even && is_less(k, l))
            };
        let size_of = |e: &PropagationEntry| -> (n: usize)
            ensures
                n == e.size,
            { e.size };
        proof {
            lemma_heaviest_first(now, set);
        }
        let keys = shed(
            &self.entries,
            precedes,
            size_of,
            goal,
            usize::MAX,
            Ghost(heaviest_first(now, set)),
            Ghost(entry_bytes()),
        );
        assert(is_overflow(self@, limit, now, self.prioritised_set(), keys@));
        let mut entries: Table<32, PropagationEntry> = Table::new();
        std::mem::swap(&mut entries, &mut self.entries);
        entries.remove_all(&keys);
        self.entries = entries;
    }

    pub fn ignore_destination(&mut self, destination_hash: [u8; 16])
        ensures
            final(self)@ == old(self)@,
            final(self).ignored_set() == old(self).ignored_set().insert(destination_hash),
            final(self).prioritised_set() == old(self).prioritised_set(),
    {
        proof {
            use_type_invariant(&*self);
        }
        let mut ignored: Vec<[u8; 16]> = Vec::new();
        std::mem::swap(&mut ignored, &mut self.ignored);
        list_add(&mut ignored, destination_hash);
        self.ignored = ignored;
        proof {
            lemma_members_add(old(self).ignored@, destination_hash);
        }
    }

    pub fn unignore_destination(&mut self, destination_hash: &[u8; 16])
        ensures
            final(self)@ == old(self)@,
            final(self).ignored_set() == old(self).ignored_set().remove(*destination_hash),
            final(self).prioritised_set() == old(self).prioritised_set(),
    {
        proof {
            use_type_invariant(&*self);
        }
        let mut ignored: Vec<[u8; 16]> = Vec::new();
        std::mem::swap(&mut ignored, &mut self.ignored);
        list_remove(&mut ignored, destination_hash);
        self.ignored = ignored;
        proof {
            lemma_members_remove(old(self).ignored@, *destination_hash);
        }
    }

    pub fn is_destination_ignored(&self, destination_hash: &[u8; 16]) -> (b: bool)
        ensures
            b == self.ignored_set().contains(*destination_hash),
    {
        list_contains(&self.ignored, destination_hash)
    }

    pub fn prioritise_destination(&mut self, destination_hash: [u8; 16])
        ensures
            final(self)@ == old(self)@,
            final(self).ignored_set() == old(self).ignored_set(),
            final(self).prioritised_set() == old(self).prioritised_set().insert(destination_hash),
    {
        proof {
            use_type_invariant(&*self);
        }
        let mut prioritised: Vec<[u8; 16]> = Vec::new();
        std::mem::swap(&mut prioritised, &mut self.prioritised);
        list_add(&mut prioritised, destination_hash);
        self.prioritised = prioritised;
        proof {
            lemma_members_add(old(self).prioritised@, destination_hash);
        }
    }

    pub fn unprioritise_destination(&mut self, destination_hash: &[u8; 16])
        ensures
            final(self)@ == old(self)@,
            final(self).ignored_set() == old(self).ignored_set(),
            final(self).prioritised_set() == old(self).prioritised_set().remove(*destination_hash),
    {
        proof {
            use_type_invariant(&*self);
        }
        let mut prioritised: Vec<[u8; 16]> = Vec::new();
        std::mem::swap(&mut prioritised, &mut self.prioritised);
        list_remove(&mut prioritised, destination_hash);
        self.prioritised = prioritised;
        proof {
            lemma_members_remove(old(self).prioritised@, *destination_hash);
        }
    }
}

// ---------------------------------------------------------------------------
// What an index keeps.
// ---------------------------------------------------------------------------

/// An entry is kept until its time is over, to the microsecond, and unchanged.
pub proof fn entries_are_kept_for_their_time(
    m: Map<[u8; 32], PropagationEntry>,
    max_age: u64,
    now: i64,
    k: [u8; 32],
)
    ensures
        fresh_entries(m, max_age, now).contains_key(k) <==> m.contains_key(k) && now
            <= m[k].stored_at + max_age * 1_000_000,
        fresh_entries(m, max_age, now).contains_key(k) ==> fresh_entries(m, max_age, now)[k]
            == m[k],
{
}

/// An entry weighs its bytes times its age, an age below four days counting as four days, and
/// ten times that where its destination is not prioritised; the heavier goes first, and of two
/// that weigh the same the one with the smaller identifier.
pub proof fn entries_weigh_bytes_times_age(
    a: ([u8; 32], PropagationEntry),
    b: ([u8; 32], PropagationEntry),
    now: i64,
    prioritised: Set<[u8; 16]>,
)
    ensures
        ({
            let age = if now - a.1.stored_at > 345_600_000_000 {
                now - a.1.stored_at
            } else {
                345_600_000_000int
            };
            &&& prioritised.contains(a.1.destination_hash) ==> entry_weight(a.1, now, prioritised)
                == age * a.1.size
            &&& !prioritised.contains(a.1.destination_hash) ==> entry_weight(a.1, now, prioritised)
                == 10 * (age * a.1.size)
        }),
        heaviest_first(now, prioritised)(a, b) <==> {
            ||| entry_weight(a.1, now, prioritised) > entry_weight(b.1, now, prioritised)
            ||| entry_weight(a.1, now, prioritised) == entry_weight(b.1, now, prioritised)
                && lex_less(a.0@, b.0@)
        },
        entry_bytes()(a.1) == a.1.size,
{
}

/// What is cut from an index comes before what is left in it in the order of dropping, and the
/// last that goes was still too much.
pub proof fn the_heaviest_entries_are_cut(
    m: Map<[u8; 32], PropagationEntry>,
    limit: usize,
    now: i64,
    prioritised: Set<[u8; 16]>,
    keys: Seq<[u8; 32]>,
    gone: [u8; 32],
    left: [u8; 32],
)
    requires
        m.dom().finite(),
        weigh(m, entry_bytes()) <= usize::MAX,
        is_overflow(m, limit, now, prioritised, keys),
    ensures
        keys.contains(gone) ==> m.contains_key(gone),
        keys.contains(gone) && without(m, keys).contains_key(left) ==> entry_weight(
            m[gone],
            now,
            prioritised,
        ) >= entry_weight(m[left], now, prioritised),
        weigh(m, entry_bytes()) <= limit ==> keys.len() == 0,
        keys.len() > 0 ==> weigh(without(m, keys.drop_last()), entry_bytes()) > limit,
{
    lemma_heaviest_first(now, prioritised);
    let order = heaviest_first(now, prioritised);
    let over = (if weigh(m, entry_bytes()) > limit {
        saturated(weigh(m, entry_bytes())) - limit
    } else {
        0
    }) as nat;
    if keys.contains(gone) {
        let i = keys.index_of(gone);
        no_more_is_dropped_than_needed(
            m,
            order,
            entry_bytes(),
            over,
            usize::MAX as nat,
            keys,
            left,
            i,
        );
    }
    no_more_is_dropped_than_needed(m, order, entry_bytes(), over, usize::MAX as nat, keys, left, 0);
    if keys.len() > 0 {
        let most = keys.drop_last();
        let all = |k: [u8; 32], v: PropagationEntry| true;
        lemma_leading_distinct(m, all, order, keys);
        assert forall|i: int| 0 <= i < most.len() implies m.contains_key(#[trigger] most[i]) by {
            assert(most[i] == keys[i]);
        }
        assert(most.no_duplicates());
        lemma_weigh_without(m, entry_bytes(), most);
    }
}

/// The entries that are listed are those of the index that the test accepts, each once.
pub proof fn accepted_entries_are_listed(
    m: Map<[u8; 32], PropagationEntry>,
    test: spec_fn(PropagationEntry) -> bool,
    list: Seq<PropagationEntry>,
    e: PropagationEntry,
)
    requires
        own_ids(m),
        lists_entries(m, test, list),
    ensures
        list.contains(e) <==> m.contains_key(e.transient_id) && m[e.transient_id] == e && test(e),
        list.no_duplicates(),
{
    if list.contains(e) {
        let i = list.index_of(e);
        assert(m.contains_key(list[i].transient_id));
    }
    if m.contains_key(e.transient_id) && m[e.transient_id] == e && test(e) {
        let i = choose|i: int| 0 <= i < list.len() && #[trigger] list[i] == m[e.transient_id];
        assert(list[i] == e);
    }
}

} // verus!
