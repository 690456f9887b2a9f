//! A map keyed by fixed-size identifiers.

use vstd::prelude::*;

use crate::bytes::{list_contains, same};

verus! {

/// A map from identifiers of `N` bytes to values.  Its contents are its view; the
/// order in which entries were first added is kept, so that walking it is
/// deterministic.
pub struct Table<const N: usize, V: View> {
    entries: Vec<([u8; N], V)>,
}

/// No two entries of `s` have the same key.
pub open spec fn distinct_keys<K, V>(s: Seq<(K, V)>) -> bool {
    forall|i: int, j: int| 0 <= i < j < s.len() ==> s[i].0 != s[j].0
}

/// The map that a duplicate-free association list stands for.
pub open spec fn as_map<K, V>(s: Seq<(K, V)>) -> Map<K, V>
    decreases s.len(),
{
    if s.len() == 0 {
        Map::empty()
    } else {
        as_map(s.drop_last()).insert(s.last().0, s.last().1)
    }
}

/// A key is in the map where some entry has it, and maps to that entry's value.
pub proof fn lemma_as_map<K, V>(s: Seq<(K, V)>)
    requires
        distinct_keys(s),
    ensures
        forall|i: int|
            0 <= i < s.len() ==> as_map(s).contains_key(#[trigger] s[i].0) && as_map(s)[s[i].0]
                == s[i].1,
        forall|k: K|
            #[trigger] as_map(s).contains_key(k) ==> exists|i: int|
                0 <= i < s.len() && #[trigger] s[i].0 == k,
        as_map(s).dom().finite(),
        as_map(s).len() == s.len(),
    decreases s.len(),
{
    if s.len() > 0 {
        let t = s.drop_last();
        assert(distinct_keys(t));
        lemma_as_map(t);
        assert forall|i: int| 0 <= i < s.len() implies as_map(s).contains_key(#[trigger] s[i].0)
            && as_map(s)[s[i].0] == s[i].1 by {
            if i < s.len() - 1 {
                assert(t[i] == s[i]);
                assert(t[i].0 != s.last().0);
            }
        }
        assert forall|k: K| #[trigger] as_map(s).contains_key(k) implies exists|i: int|
            0 <= i < s.len() && #[trigger] s[i].0 == k by {
            if k == s.last().0 {
                assert(s[s.len() - 1].0 == k);
            } else {
                assert(as_map(t).contains_key(k));
                let i = choose|i: int| 0 <= i < t.len() && #[trigger] t[i].0 == k;
                assert(s[i].0 == k);
            }
        }
        assert(!as_map(t).contains_key(s.last().0)) by {
            if as_map(t).contains_key(s.last().0) {
                let i = choose|i: int| 0 <= i < t.len() && #[trigger] t[i].0 == s.last().0;
                assert(s[i].0 == s.last().0);
            }
        }
        assert(as_map(s).dom() =~= as_map(t).dom().insert(s.last().0));
    }
}

/// Dropping an entry drops its key from the map.
pub proof fn lemma_as_map_remove<K, V>(s: Seq<(K, V)>, i: int)
    requires
        distinct_keys(s),
        0 <= i < s.len(),
    ensures
        distinct_keys(s.remove(i)),
        as_map(s.remove(i)) == as_map(s).remove(s[i].0),
{
    let t = s.remove(i);
    assert(distinct_keys(t)) by {
        assert forall|a: int, b: int| 0 <= a < b < t.len() implies t[a].0 != t[b].0 by {
            let a2 = if a < i { a } else { a + 1 };
            let b2 = if b < i { b } else { b + 1 };
            assert(t[a] == s[a2] && t[b] == s[b2]);
        }
    }
    lemma_as_map(s);
    lemma_as_map(t);
    assert forall|k: K| #[trigger] as_map(t).contains_key(k) implies as_map(s).remove(
        s[i].0,
    ).contains_key(k) && as_map(t)[k] == as_map(s)[k] by {
        let a = choose|a: int| 0 <= a < t.len() && #[trigger] t[a].0 == k;
        let a2 = if a < i { a } else { a + 1 };
        assert(t[a] == s[a2]);
    }
    assert forall|k: K| #[trigger]
        as_map(s).remove(s[i].0).contains_key(k) implies as_map(t).contains_key(k) by {
        assert(as_map(s).contains_key(k));
        let a = choose|a: int| 0 <= a < s.len() && #[trigger] s[a].0 == k;
        let a2 = if a < i { a } else { a - 1 };
        assert(t[a2] == s[a]);
    }
    assert(as_map(t) =~= as_map(s).remove(s[i].0));
}

/// Replacing the value of an entry maps its key to the new value.
pub proof fn lemma_as_map_update<K, V>(s: Seq<(K, V)>, i: int, v: V)
    requires
        distinct_keys(s),
        0 <= i < s.len(),
    ensures
        distinct_keys(s.update(i, (s[i].0, v))),
        as_map(s.update(i, (s[i].0, v))) == as_map(s).insert(s[i].0, v),
{
    let t = s.update(i, (s[i].0, v));
    assert(forall|a: int| 0 <= a < s.len() ==> t[a].0 == s[a].0);
    lemma_as_map(s);
    lemma_as_map(t);
    assert forall|k: K| #[trigger] as_map(t).contains_key(k) implies as_map(s).insert(
        s[i].0,
        v,
    ).contains_key(k) && as_map(t)[k] == as_map(s).insert(s[i].0, v)[k] by {
        let a = choose|a: int| 0 <= a < t.len() && #[trigger] t[a].0 == k;
        assert(s[a].0 == k);
    }
    assert forall|k: K| #[trigger]
        as_map(s).insert(s[i].0, v).contains_key(k) implies as_map(t).contains_key(k) by {
        if k == s[i].0 {
            assert(t[i].0 == k);
        } else {
            let a = choose|a: int| 0 <= a < s.len() && #[trigger] s[a].0 == k;
            assert(t[a].0 == k);
        }
    }
    assert(as_map(t) =~= as_map(s).insert(s[i].0, v));
}

/// A filter does not lengthen a sequence.
pub proof fn lemma_filter_len<A>(s: Seq<A>, passes: spec_fn(A) -> bool)
    ensures
        s.filter(passes).len() <= s.len(),
    decreases s.len(),
{
    reveal(Seq::filter);
    if s.len() > 0 {
        lemma_filter_len(s.drop_last(), passes);
    }
}

/// The part of a map that a test accepts.
pub open spec fn kept<K, V>(m: Map<K, V>, test: spec_fn(K, V) -> bool) -> Map<K, V> {
    Map::new(|k: K| m.contains_key(k) && test(k, m[k]), |k: K| m[k])
}

/// Filtering the entries filters the map.
pub proof fn lemma_as_map_filter<K, V>(s: Seq<(K, V)>, test: spec_fn(K, V) -> bool)
    requires
        distinct_keys(s),
    ensures
        as_map(s.filter(|e: (K, V)| test(e.0, e.1))) == kept(as_map(s), test),
    decreases s.len(),
{
    let passes = |e: (K, V)| test(e.0, e.1);
    reveal(Seq::filter);
    if s.len() == 0 {
        assert(as_map(s.filter(passes)) =~= kept(as_map(s), test));
    } else {
        let t = s.drop_last();
        assert(distinct_keys(t));
        lemma_as_map(t);
        lemma_as_map_filter(t, test);
        assert(!as_map(t).contains_key(s.last().0)) by {
            if as_map(t).contains_key(s.last().0) {
                let i = choose|i: int| 0 <= i < t.len() && #[trigger] t[i].0 == s.last().0;
                assert(s[i].0 == s.last().0);
            }
        }
        if passes(s.last()) {
            let f = t.filter(passes).push(s.last());
            assert(s.filter(passes) == f);
            assert(f.drop_last() =~= t.filter(passes));
        }
        assert(as_map(s.filter(passes)) =~= kept(as_map(s), test));
    }
}

/// A number held down to what a `usize` can hold.
pub open spec fn saturated(n: nat) -> usize {
    if n > usize::MAX {
        usize::MAX
    } else {
        n as usize
    }
}

/// A map without some of its keys.
pub open spec fn without<K, V>(m: Map<K, V>, keys: Seq<K>) -> Map<K, V> {
    kept(m, |k: K, v: V| !keys.contains(k))
}

/// The total size of the values of a finite map.
pub open spec fn weigh<K, V>(m: Map<K, V>, size: spec_fn(V) -> nat) -> nat
    decreases m.dom().len(),
{
    if m.dom().finite() && m.dom().len() > 0 {
        let k = m.dom().choose();
        size(m[k]) + weigh(m.remove(k), size)
    } else {
        0
    }
}

/// Any one entry can be weighed apart from the rest.
pub proof fn lemma_weigh_remove<K, V>(m: Map<K, V>, size: spec_fn(V) -> nat, k: K)
    requires
        m.dom().finite(),
        m.contains_key(k),
    ensures
        weigh(m, size) == size(m[k]) + weigh(m.remove(k), size),
    decreases m.dom().len(),
{
    let c = m.dom().choose();
    if c != k {
        assert(m.dom().contains(c));
        lemma_weigh_remove(m.remove(c), size, k);
        lemma_weigh_remove(m.remove(k), size, c);
        assert(m.remove(c).remove(k) =~= m.remove(k).remove(c));
    }
}

/// Adding an entry under a new key adds its size.
pub proof fn lemma_weigh_insert<K, V>(m: Map<K, V>, size: spec_fn(V) -> nat, k: K, v: V)
    requires
        m.dom().finite(),
        !m.contains_key(k),
    ensures
        weigh(m.insert(k, v), size) == size(v) + weigh(m, size),
{
    lemma_weigh_remove(m.insert(k, v), size, k);
    assert(m.insert(k, v).remove(k) =~= m);
}

/// Part of a map weighs no more than the whole.
pub proof fn lemma_kept_weighs_less<K, V>(
    m: Map<K, V>,
    size: spec_fn(V) -> nat,
    test: spec_fn(K, V) -> bool,
)
    requires
        m.dom().finite(),
    ensures
        kept(m, test).dom().finite(),
        weigh(kept(m, test), size) <= weigh(m, size),
    decreases m.dom().len(),
{
    let part = kept(m, test);
    assert(part.dom().subset_of(m.dom()));
    if m.dom().len() > 0 {
        let k = m.dom().choose();
        assert(m.contains_key(k));
        lemma_weigh_remove(m, size, k);
        lemma_kept_weighs_less(m.remove(k), size, test);
        if part.contains_key(k) {
            lemma_weigh_remove(part, size, k);
            assert(part.remove(k) =~= kept(m.remove(k), test));
        } else {
            assert(part =~= kept(m.remove(k), test));
        }
    } else {
        assert(part.dom() =~= Set::empty());
    }
}

/// Filtering keeps the keys distinct.
pub proof fn lemma_filter_distinct<K, V>(s: Seq<(K, V)>, passes: spec_fn((K, V)) -> bool)
    requires
        distinct_keys(s),
    ensures
        distinct_keys(s.filter(passes)),
        forall|i: int|
            0 <= i < s.filter(passes).len() ==> s.contains(#[trigger] s.filter(passes)[i]),
    decreases s.len(),
{
    reveal(Seq::filter);
    if s.len() > 0 {
        let t = s.drop_last();
        assert(distinct_keys(t));
        lemma_filter_distinct(t, passes);
        let ft = t.filter(passes);
        let fs = s.filter(passes);
        assert forall|i: int| 0 <= i < fs.len() implies s.contains(#[trigger] fs[i]) by {
            if i < ft.len() {
                assert(t.contains(ft[i]));
                let j = choose|j: int| 0 <= j < t.len() && t[j] == ft[i];
                assert(s[j] == ft[i]);
            } else {
                assert(s[s.len() - 1] == s.last());
            }
        }
        assert forall|i: int, j: int| 0 <= i < j < fs.len() implies fs[i].0 != fs[j].0 by {
            if j == ft.len() {
                assert(t.contains(ft[i]));
                let q = choose|q: int| 0 <= q < t.len() && t[q] == ft[i];
                assert(s[q].0 != s[s.len() - 1].0);
            }
        }
    }
}

/// Removing some different keys makes a map smaller by as many entries.
pub proof fn lemma_without_len<K, V>(m: Map<K, V>, keys: Seq<K>)
    requires
        m.dom().finite(),
        keys.no_duplicates(),
        forall|i: int| 0 <= i < keys.len() ==> m.contains_key(#[trigger] keys[i]),
    ensures
        without(m, keys).len() + keys.len() == m.len(),
        without(m, keys).dom().finite(),
    decreases keys.len(),
{
    if keys.len() == 0 {
        assert(without(m, keys) =~= m);
    } else {
        let rest = keys.drop_last();
        let last = keys.last();
        assert forall|i: int| 0 <= i < rest.len() implies m.contains_key(#[trigger] rest[i]) by {
            assert(rest[i] == keys[i]);
        }
        lemma_without_len(m, rest);
        assert(!rest.contains(last)) by {
            if rest.contains(last) {
                let i = choose|i: int| 0 <= i < rest.len() && rest[i] == last;
                assert(keys[i] == keys[keys.len() - 1]);
            }
        }
        assert forall|k: K| keys.contains(k) <==> (rest.contains(k) || k == last) by {
            if keys.contains(k) {
                let i = choose|i: int| 0 <= i < keys.len() && keys[i] == k;
                if i < rest.len() {
                    assert(rest[i] == k);
                }
            }
            if rest.contains(k) {
                let i = choose|i: int| 0 <= i < rest.len() && rest[i] == k;
                assert(keys[i] == k);
            }
            assert(keys[keys.len() - 1] == last);
        }
        assert(m.contains_key(keys[keys.len() - 1]));
        assert(without(m, keys) =~= without(m, rest).remove(last));
        assert(without(m, rest).contains_key(last));
    }
}

/// Whether `ids` are the keys of a map, each once.
pub open spec fn lists_keys<K, V>(m: Map<K, V>, ids: Seq<K>) -> bool {
    &&& ids.no_duplicates()
    &&& forall|k: K| #[trigger] ids.contains(k) <==> m.contains_key(k)
}

/// Whether `k` is the key of one of the first `n` entries, and a test accepts it.
spec fn among<K, V>(s: Seq<(K, V)>, test: spec_fn(K, V) -> bool, n: int, k: K) -> bool {
    exists|p: int| 0 <= p < n && #[trigger] s[p].0 == k && test(k, s[p].1)
}

/// Some entries, each with what its value stands for.
spec fn entry_models<const N: usize, V: View>(s: Seq<([u8; N], V)>) -> Seq<([u8; N], V::V)> {
    Seq::new(s.len(), |i: int| (s[i].0, s[i].1@))
}

impl<const N: usize, V: View> Table<N, V> {
    /// The entries in the order in which their keys were first added.
    pub closed spec fn entries(&self) -> Seq<([u8; N], V::V)> {
        entry_models(self.entries@)
    }

    #[verifier::type_invariant]
    spec fn well_formed(self) -> bool {
        distinct_keys(self.entries())
    }
}

/// The value of the entry at `i`, to be changed; the key stays.
fn value_of<const N: usize, V: View>(entries: &mut Vec<([u8; N], V)>, i: usize) -> (v: &mut V)
    requires
        i < old(entries)@.len(),
        distinct_keys(entry_models(old(entries)@)),
    ensures
        v@ == entry_models(old(entries)@)[i as int].1,
        entry_models(final(entries)@) == entry_models(old(entries)@).update(
            i as int,
            (old(entries)@[i as int].0, final(v)@),
        ),
        distinct_keys(entry_models(final(entries)@)),
    no_unwind
{
    let ghost before = entry_models(entries@);
    let ghost after = entry_models(final(entries)@);
    let v = &mut entries[i].1;
    proof {
        lemma_as_map_update(before, i as int, final(v)@);
        assert(after =~= before.update(i as int, (before[i as int].0, final(v)@)));
    }
    v
}

impl<const N: usize, V: View> View for Table<N, V> {
    type V = Map<[u8; N], V::V>;

    open spec fn view(&self) -> Map<[u8; N], V::V> {
        as_map(self.entries())
    }
}

impl<const N: usize, V: View> Table<N, V> {
    /// An empty map.
    pub fn new() -> (t: Self)
        ensures
            t.entries() == Seq::<([u8; N], V::V)>::empty(),
            t@ == Map::<[u8; N], V::V>::empty(),
    {
        let t = Table { entries: Vec::new() };
        assert(t.entries() =~= Seq::<([u8; N], V::V)>::empty());
        t
    }

    /// The number of entries.
    pub fn len(&self) -> (n: usize)
        ensures
            n == self.entries().len(),
            n == self@.len(),
            self@.dom().finite(),
            distinct_keys(self.entries()),
    {
        proof {
            use_type_invariant(self);
            lemma_as_map(self.entries());
        }
        self.entries.len()
    }

    /// Whether the map has no entry.
    pub fn is_empty(&self) -> (b: bool)
        ensures
            b == (self.entries().len() == 0),
            b == (self@ == Map::<[u8; N], V::V>::empty()),
    {
        proof {
            use_type_invariant(self);
            lemma_as_map(self.entries());
            if self.entries().len() > 0 {
                assert(self@.contains_key(self.entries()[0].0));
            } else {
                assert(self@ =~= Map::<[u8; N], V::V>::empty());
            }
        }
        self.entries.len() == 0
    }

    /// Where the entry of `key` stands.
    pub fn position(&self, key: &[u8; N]) -> (r: Option<usize>)
        ensures
            distinct_keys(self.entries()),
            r matches Some(i) ==> i < self.entries().len() && self.entries()[i as int].0 == *key
                && self@.contains_key(*key) && self@[*key] == self.entries()[i as int].1,
            r is None ==> !self@.contains_key(*key),
            r is None ==> forall|i: int|
                0 <= i < self.entries().len() ==> (#[trigger] self.entries()[i]).0 != *key,
    {
        proof {
            use_type_invariant(self);
            lemma_as_map(self.entries());
        }
        let mut i: usize = 0;
        while i < self.entries.len()
            invariant
                i <= self.entries@.len(),
                forall|j: int| 0 <= j < i ==> self.entries()[j].0 != *key,
            decreases self.entries@.len() - i,
        {
            if same(&self.entries[i].0, key) {
                assert(self.entries()[i as int].0 == *key);
                proof {
                    use_type_invariant(self);
                    lemma_as_map(self.entries());
                }
                return Some(i);
            }
            i = i + 1;
        }
        None
    }

    /// Whether `key` has an entry.
    pub fn contains_key(&self, key: &[u8; N]) -> (b: bool)
        ensures
            b == self@.contains_key(*key),
    {
        self.position(key).is_some()
    }

    /// The value of `key`.
    pub fn get(&self, key: &[u8; N]) -> (r: Option<&V>)
        ensures
            r is Some <==> self@.contains_key(*key),
            r matches Some(v) ==> v@ == self@[*key],
    {
        match self.position(key) {
            Some(i) => Some(&self.entries[i].1),
            None => None,
        }
    }

    /// The value of `key`, to be changed.
    pub fn get_mut(&mut self, key: &[u8; N]) -> (r: Option<&mut V>)
        ensures
            r is Some <==> old(self)@.contains_key(*key),
            r matches Some(v) ==> v@ == old(self)@[*key] && final(self)@ == old(self)@.insert(
                *key,
                final(v)@,
            ),
            r is None ==> final(self)@ == old(self)@,
    {
        match self.position(key) {
            Some(i) => {
                let ghost before = self.entries();
                proof {
                    use_type_invariant(&*self);
                    assert(distinct_keys(before));
                }
                let v = value_of(&mut self.entries, i);
                proof {
                    lemma_as_map_update(before, i as int, final(v)@);
                    assert(after_borrow(self).entries() =~= before.update(
                        i as int,
                        (*key, final(v)@),
                    ));
                }
                Some(v)
            },
            None => None,
        }
    }

    /// The key of the entry at `i`.
    pub fn key_at(&self, i: usize) -> (k: [u8; N])
        requires
            i < self.entries().len(),
        ensures
            k == self.entries()[i as int].0,
            self@.contains_key(k),
            distinct_keys(self.entries()),
    {
        proof {
            use_type_invariant(self);
            lemma_as_map(self.entries());
        }
        self.entries[i].0
    }

    /// The value of the entry at `i`.
    pub fn value_at(&self, i: usize) -> (v: &V)
        requires
            i < self.entries().len(),
        ensures
            v@ == self.entries()[i as int].1,
            self@.contains_key(self.entries()[i as int].0),
            self@[self.entries()[i as int].0] == v@,
            distinct_keys(self.entries()),
    {
        proof {
            use_type_invariant(self);
            lemma_as_map(self.entries());
        }
        &self.entries[i].1
    }

    /// Maps `key` to `value`, in the place of what it was mapped to before.
    pub fn insert(&mut self, key: [u8; N], value: V)
        ensures
            final(self)@ == old(self)@.insert(key, value@),
            distinct_keys(final(self).entries()),
            !old(self)@.contains_key(key) ==> final(self).entries() == old(self).entries().push(
                (key, value@),
            ),
            old(self)@.contains_key(key) ==> exists|i: int|
                0 <= i < old(self).entries().len() && (#[trigger] old(self).entries()[i]).0 == key
                    && final(self).entries() == old(self).entries().update(i, (key, value@)),
    {
        let at = self.position(&key);
        let ghost before = self.entries();
        let mut entries: Vec<([u8; N], V)> = Vec::new();
        std::mem::swap(&mut entries, &mut self.entries);
        match at {
            Some(i) => {
                proof {
                    lemma_as_map_update(before, i as int, value@);
                }
                entries.set(i, (key, value));
                assert(entry_models(entries@) =~= before.update(i as int, (key, value@)));
                self.entries = entries;
                assert(self.entries() =~= before.update(i as int, (key, value@)));
            },
            None => {
                let ghost after = before.push((key, value@));
                assert(after.drop_last() =~= before);
                entries.push((key, value));
                assert forall|a: int, b: int| 0 <= a < b < after.len() implies after[a].0
                    != after[b].0 by {
                    if b == before.len() {
                        assert(before[a].0 != key);
                    }
                }
                assert(entry_models(entries@) =~= after);
                self.entries = entries;
                assert(self.entries() =~= after);
            },
        }
    }

    /// Takes the entry of `key` out, keeping the order of the rest.
    pub fn remove(&mut self, key: &[u8; N]) -> (r: Option<V>)
        ensures
            final(self)@ == old(self)@.remove(*key),
            distinct_keys(final(self).entries()),
            r is Some <==> old(self)@.contains_key(*key),
            r matches Some(v) ==> v@ == old(self)@[*key],
            r is None ==> final(self).entries() == old(self).entries(),
            r is Some ==> exists|i: int|
                0 <= i < old(self).entries().len() && (#[trigger] old(self).entries()[i]).0 == *key
                    && final(self).entries() == old(self).entries().remove(i),
    {
        match self.position(key) {
            Some(i) => {
                let ghost before = self.entries();
                proof {
                    lemma_as_map_remove(before, i as int);
                }
                let mut entries: Vec<([u8; N], V)> = Vec::new();
                std::mem::swap(&mut entries, &mut self.entries);
                let taken = entries.remove(i);
                assert(entry_models(entries@) =~= before.remove(i as int));
                self.entries = entries;
                assert(self.entries() =~= before.remove(i as int));
                Some(taken.1)
            },
            None => {
                assert(self@.remove(*key) =~= self@);
                None
            },
        }
    }

    /// Takes the entry at `i` out, keeping the order of the rest.
    pub fn remove_at(&mut self, i: usize) -> (r: ([u8; N], V))
        requires
            i < old(self).entries().len(),
        ensures
            (r.0, r.1@) == old(self).entries()[i as int],
            final(self).entries() == old(self).entries().remove(i as int),
            distinct_keys(final(self).entries()),
            final(self)@ == old(self)@.remove(r.0),
    {
        proof {
            use_type_invariant(&*self);
        }
        let ghost before = self.entries();
        proof {
            lemma_as_map_remove(before, i as int);
        }
        let mut entries: Vec<([u8; N], V)> = Vec::new();
        std::mem::swap(&mut entries, &mut self.entries);
        let taken = entries.remove(i);
        assert(entry_models(entries@) =~= before.remove(i as int));
        self.entries = entries;
        assert(self.entries() =~= before.remove(i as int));
        taken
    }

    /// Keeps the entries that `keep` accepts, in their order, and drops the others.
    /// The ghost argument is the test that `keep` makes.
    pub fn retain<F: Fn(&[u8; N], &V) -> bool>(
        &mut self,
        keep: F,
        Ghost(test): Ghost<spec_fn([u8; N], V::V) -> bool>,
    )
        requires
            forall|k: &[u8; N], v: &V| call_requires(keep, (k, v)),
            forall|k: &[u8; N], v: &V, b: bool|
                call_ensures(keep, (k, v), b) ==> b == test(*k, v@),
        ensures
            final(self).entries() == old(self).entries().filter(
                |e: ([u8; N], V::V)| test(e.0, e.1),
            ),
            final(self)@ == kept(old(self)@, test),
            distinct_keys(final(self).entries()),
            final(self).entries().len() <= old(self).entries().len(),
    {
        let ghost before = self.entries();
        let ghost passes = |e: ([u8; N], V::V)| test(e.0, e.1);
        proof {
            use_type_invariant(&*self);
        }
        let mut i: usize = 0;
        assert(before.take(0).filter(passes) =~= Seq::<([u8; N], V::V)>::empty()) by {
            reveal(Seq::filter);
        }
        assert(self.entries() =~= before.take(0).filter(passes) + before.skip(0));
        let ghost mut seen: int = 0;
        while i < self.len()
            invariant
                0 <= seen <= before.len(),
                i == before.take(seen).filter(passes).len(),
                self.entries() == before.take(seen).filter(passes) + before.skip(seen),
                passes == (|e: ([u8; N], V::V)| test(e.0, e.1)),
                distinct_keys(before),
                forall|k: &[u8; N], v: &V| call_requires(keep, (k, v)),
                forall|k: &[u8; N], v: &V, b: bool|
                    call_ensures(keep, (k, v), b) ==> b == test(*k, v@),
            decreases before.len() - seen,
        {
            let ghost head = before.take(seen).filter(passes);
            assert(seen < before.len());
            assert(self.entries()[i as int] == before[seen]);
            proof {
                assert(before.take(seen + 1).drop_last() =~= before.take(seen));
                reveal(Seq::filter);
            }
            let key = self.key_at(i);
            if keep(&key, self.value_at(i)) {
                i = i + 1;
                assert(self.entries() =~= head.push(before[seen]) + before.skip(seen + 1));
            } else {
                let _ = self.remove_at(i);
                assert(self.entries() =~= head + before.skip(seen + 1));
            }
            proof {
                seen = seen + 1;
            }
        }
        proof {
            use_type_invariant(&*self);
            assert(before.skip(seen) =~= Seq::<([u8; N], V::V)>::empty());
            assert(before.take(seen) =~= before);
            assert(self.entries() =~= before.filter(passes));
            lemma_as_map_filter(before, test);
            lemma_filter_len(before, passes);
        }
    }

    /// The number of entries that `accepts` accepts.  The ghost argument is the test
    /// that it makes.
    pub fn count<F: Fn(&[u8; N], &V) -> bool>(
        &self,
        accepts: F,
        Ghost(test): Ghost<spec_fn([u8; N], V::V) -> bool>,
    ) -> (n: usize)
        requires
            forall|k: &[u8; N], v: &V| call_requires(accepts, (k, v)),
            forall|k: &[u8; N], v: &V, b: bool|
                call_ensures(accepts, (k, v), b) ==> b == test(*k, v@),
        ensures
            n == kept(self@, test).len(),
    {
        let ghost es = self.entries();
        let ghost passes = |e: ([u8; N], V::V)| test(e.0, e.1);
        let total = self.len();
        let mut n: usize = 0;
        let mut i: usize = 0;
        assert(es.take(0) =~= Seq::<([u8; N], V::V)>::empty());
        proof {
            reveal(Seq::filter);
        }
        while i < total
            invariant
                i <= total,
                n <= i,
                total == es.len(),
                es == self.entries(),
                passes == (|e: ([u8; N], V::V)| test(e.0, e.1)),
                n == es.take(i as int).filter(passes).len(),
                forall|k: &[u8; N], v: &V| call_requires(accepts, (k, v)),
                forall|k: &[u8; N], v: &V, b: bool|
                    call_ensures(accepts, (k, v), b) ==> b == test(*k, v@),
            decreases total - i,
        {
            proof {
                assert(es.take(i + 1).drop_last() =~= es.take(i as int));
                reveal(Seq::filter);
            }
            let key = self.key_at(i);
            if accepts(&key, self.value_at(i)) {
                n = n + 1;
            }
            i = i + 1;
        }
        proof {
            assert(es.take(i as int) =~= es);
            lemma_as_map_filter(es, test);
            lemma_filter_distinct(es, passes);
            lemma_as_map(es.filter(passes));
        }
        n
    }

    /// The sum of the sizes of all values, held down to what a `usize` can hold.  The
    /// ghost argument is the size that the closure computes.
    pub fn total<F: Fn(&V) -> usize>(
        &self,
        size_of: F,
        Ghost(size): Ghost<spec_fn(V::V) -> nat>,
    ) -> (n: usize)
        requires
            forall|v: &V| call_requires(size_of, (v,)),
            forall|v: &V, n: usize| call_ensures(size_of, (v,), n) ==> n == size(v@),
        ensures
            n == saturated(weigh(self@, size)),
    {
        let ghost es = self.entries();
        let count = self.len();
        proof {
            use_type_invariant(self);
        }
        let mut total: usize = 0;
        let mut i: usize = 0;
        assert(es.take(0) =~= Seq::<([u8; N], V::V)>::empty());
        assert(weigh(as_map(es.take(0)), size) == 0);
        while i < count
            invariant
                i <= count,
                count == es.len(),
                es == self.entries(),
                distinct_keys(es),
                total == saturated(weigh(as_map(es.take(i as int)), size)),
                forall|v: &V| call_requires(size_of, (v,)),
                forall|v: &V, n: usize| call_ensures(size_of, (v,), n) ==> n == size(v@),
            decreases count - i,
        {
            proof {
                let t = es.take(i as int);
                let u = es.take(i + 1);
                assert(u.drop_last() =~= t);
                assert(distinct_keys(t));
                lemma_as_map(t);
                assert(!as_map(t).contains_key(es[i as int].0)) by {
                    if as_map(t).contains_key(es[i as int].0) {
                        let j = choose|j: int|
                            0 <= j < t.len() && #[trigger] t[j].0 == es[i as int].0;
                        assert(es[j].0 == es[i as int].0);
                    }
                }
                lemma_weigh_insert(as_map(t), size, es[i as int].0, es[i as int].1);
            }
            total = total.saturating_add(size_of(self.value_at(i)));
            i = i + 1;
        }
        assert(es.take(i as int) =~= es);
        total
    }

    /// Removes the entries under some keys.
    pub fn remove_all(&mut self, keys: &Vec<[u8; N]>)
        ensures
            final(self)@ == without(old(self)@, keys@),
    {
        let ghost test = |k: [u8; N], v: V::V| !keys@.contains(k);
        let keep = |k: &[u8; N], v: &V| -> (b: bool)
            ensures
                b == !keys@.contains(*k),
            { !list_contains(keys, k) };
        self.retain(keep, Ghost(test));
    }

    /// The keys of the entries that a test accepts.  The ghost argument is the test that
    /// the closure computes.
    pub fn list<F: Fn(&[u8; N], &V) -> bool>(
        &self,
        accepts: F,
        Ghost(test): Ghost<spec_fn([u8; N], V::V) -> bool>,
    ) -> (ids: Vec<[u8; N]>)
        requires
            forall|k: &[u8; N], v: &V| call_requires(accepts, (k, v)),
            forall|k: &[u8; N], v: &V, b: bool|
                call_ensures(accepts, (k, v), b) ==> b == test(*k, v@),
        ensures
            lists_keys(kept(self@, test), ids@),
    {
        let ghost es = self.entries();
        let count = self.len();
        proof {
            use_type_invariant(self);
            lemma_as_map(es);
        }
        let mut ids: Vec<[u8; N]> = Vec::new();
        let mut i: usize = 0;
        while i < count
            invariant
                i <= count,
                count == es.len(),
                es == self.entries(),
                distinct_keys(es),
                ids@.no_duplicates(),
                forall|k: [u8; N]| #[trigger] ids@.contains(k) <==> among(es, test, i as int, k),
                forall|k: &[u8; N], v: &V| call_requires(accepts, (k, v)),
                forall|k: &[u8; N], v: &V, b: bool|
                    call_ensures(accepts, (k, v), b) ==> b == test(*k, v@),
            decreases count - i,
        {
            let key = self.key_at(i);
            let ghost held = ids@;
            assert(!among(es, test, i as int, key));
            if accepts(&key, self.value_at(i)) {
                assert(!held.contains(key));
                ids.push(key);
                assert(ids@[held.len() as int] == key);
            }
            proof {
                assert forall|k: [u8; N]| #[trigger]
                    ids@.contains(k) <==> among(es, test, i + 1, k) by {
                    if held.contains(k) {
                        let q = choose|q: int| 0 <= q < held.len() && held[q] == k;
                        assert(ids@[q] == k);
                    }
                    if ids@.contains(k) && k != key {
                        let q = choose|q: int| 0 <= q < ids@.len() && ids@[q] == k;
                        assert(held[q] == k);
                        assert(held.contains(k));
                    }
                    if ids@.contains(k) && k == key {
                        assert(es[i as int].0 == k);
                    }
                    if among(es, test, i + 1, k) {
                        let p = choose|p: int|
                            0 <= p < i + 1 && #[trigger] es[p].0 == k && test(k, es[p].1);
                        if p < i {
                            assert(es[p].0 == k);
                            assert(among(es, test, i as int, k));
                        }
                    }
                    if among(es, test, i as int, k) {
                        let p = choose|p: int|
                            0 <= p < i && #[trigger] es[p].0 == k && test(k, es[p].1);
                        assert(0 <= p < i + 1 && es[p].0 == k);
                    }
                }
            }
            i = i + 1;
        }
        proof {
            let m = kept(self@, test);
            assert forall|k: [u8; N]| #[trigger] ids@.contains(k) <==> m.contains_key(k) by {
                if m.contains_key(k) {
                    let p = choose|p: int| 0 <= p < es.len() && #[trigger] es[p].0 == k;
                    assert(test(k, es[p].1));
                }
                if among(es, test, i as int, k) {
                    let p = choose|p: int|
                        0 <= p < i && #[trigger] es[p].0 == k && test(k, es[p].1);
                    assert(self@.contains_key(es[p].0));
                }
            }
        }
        ids
    }

    /// Drops every entry.
    pub fn clear(&mut self)
        ensures
            final(self).entries() == Seq::<([u8; N], V::V)>::empty(),
            final(self)@ == Map::<[u8; N], V::V>::empty(),
    {
        self.entries = Vec::new();
        assert(self.entries() =~= Seq::<([u8; N], V::V)>::empty());
    }
}

/// What is kept of a map are the entries that the test accepts, with their values; without some
/// keys it has every other.
pub proof fn maps_keep_what_is_accepted<K, V>(
    m: Map<K, V>,
    test: spec_fn(K, V) -> bool,
    keys: Seq<K>,
    k: K,
)
    ensures
        kept(m, test).contains_key(k) <==> m.contains_key(k) && test(k, m[k]),
        kept(m, test).contains_key(k) ==> kept(m, test)[k] == m[k],
        without(m, keys).contains_key(k) <==> m.contains_key(k) && !keys.contains(k),
        without(m, keys).contains_key(k) ==> without(m, keys)[k] == m[k],
{
}

/// The keys of a map are listed once each: as many as there are, and no others.
pub proof fn keys_are_listed_once<K, V>(m: Map<K, V>, ids: Seq<K>, k: K)
    requires
        lists_keys(m, ids),
    ensures
        ids.contains(k) <==> m.contains_key(k),
        m.dom().finite(),
        ids.len() == m.len(),
        forall|i: int, j: int| 0 <= i < j < ids.len() ==> ids[i] != ids[j],
{
    ids.unique_seq_to_set();
    assert(ids.to_set() =~= m.dom());
}

/// A number is held down only where it must be.
pub proof fn numbers_are_held_down(n: nat)
    ensures
        n <= usize::MAX ==> saturated(n) == n,
        n > usize::MAX ==> saturated(n) == usize::MAX,
{
}

} // verus!
