//! The first entries of a table in a given order.

use vstd::prelude::*;

use crate::table::{
    distinct_keys, lemma_as_map, lemma_weigh_remove, saturated, weigh, without, Table,
};

verus! {

/// Whether `before` is a strict total order on entries with different keys.
pub open spec fn strict_order<K, V>(before: spec_fn((K, V), (K, V)) -> bool) -> bool {
    &&& forall|a: (K, V)| !(#[trigger] before(a, a))
    &&& forall|a: (K, V), b: (K, V), c: (K, V)| #[trigger]
        before(a, b) && #[trigger] before(b, c) ==> before(a, c)
    &&& forall|a: (K, V), b: (K, V)| a.0 != b.0 ==> #[trigger] before(a, b) || before(b, a)
}

/// Whether `keys` are the first keys, in order, of the entries of `m` that `eligible`
/// accepts: they are eligible and in order, and every eligible key that is not among
/// them comes after all of them.
pub open spec fn leading<K, V>(
    m: Map<K, V>,
    eligible: spec_fn(K, V) -> bool,
    before: spec_fn((K, V), (K, V)) -> bool,
    keys: Seq<K>,
) -> bool {
    &&& forall|i: int|
        0 <= i < keys.len() ==> m.contains_key(#[trigger] keys[i]) && eligible(
            keys[i],
            m[keys[i]],
        )
    &&& forall|i: int, j: int|
        0 <= i < j < keys.len() ==> before(
            (#[trigger] keys[i], m[keys[i]]),
            (#[trigger] keys[j], m[keys[j]]),
        )
    &&& forall|k: K, i: int|
        m.contains_key(k) && eligible(k, m[k]) && !(#[trigger] keys.contains(k)) && 0 <= i
            < keys.len() ==> before((#[trigger] keys[i], m[keys[i]]), (k, m[k]))
}

/// Whether `keys` are the first `limit` eligible keys, or all where there are fewer.
pub open spec fn first<K, V>(
    m: Map<K, V>,
    eligible: spec_fn(K, V) -> bool,
    before: spec_fn((K, V), (K, V)) -> bool,
    limit: nat,
    keys: Seq<K>,
) -> bool {
    &&& leading(m, eligible, before, keys)
    &&& keys.len() <= limit
    &&& keys.len() == limit || forall|k: K|
        m.contains_key(k) && eligible(k, m[k]) ==> #[trigger] keys.contains(k)
}

/// The first keys are determined: there is one list of them.
pub proof fn lemma_first_determined<K, V>(
    m: Map<K, V>,
    eligible: spec_fn(K, V) -> bool,
    before: spec_fn((K, V), (K, V)) -> bool,
    limit: nat,
    a: Seq<K>,
    b: Seq<K>,
)
    requires
        strict_order(before),
        first(m, eligible, before, limit, a),
        first(m, eligible, before, limit, b),
    ensures
        a == b,
{
    lemma_first_agree(m, eligible, before, limit, a, b, a.len());
    lemma_first_agree(m, eligible, before, limit, b, a, b.len());
    assert(a =~= b);
}

/// Where there are two lists of the first keys, the first `n` of one stand in the other.
proof fn lemma_first_agree<K, V>(
    m: Map<K, V>,
    eligible: spec_fn(K, V) -> bool,
    before: spec_fn((K, V), (K, V)) -> bool,
    limit: nat,
    a: Seq<K>,
    b: Seq<K>,
    n: nat,
)
    requires
        strict_order(before),
        first(m, eligible, before, limit, a),
        first(m, eligible, before, limit, b),
        n <= a.len(),
    ensures
        n <= b.len(),
        forall|i: int| 0 <= i < n ==> a[i] == b[i],
    decreases n,
{
    if n > 0 {
        let i = n - 1;
        lemma_first_agree(m, eligible, before, limit, a, b, i as nat);
        let x = a[i];
        assert forall|q: int| 0 <= q < i implies b[q] != x by {
            assert(before((a[q], m[a[q]]), (a[i], m[a[i]])));
        }
        if b.len() == i {
            assert(!b.contains(x));
        } else {
            let y = b[i];
            if x != y {
                assert(before((y, m[y]), (x, m[x]))) by {
                    if b.contains(x) {
                        let q = choose|q: int| 0 <= q < b.len() && b[q] == x;
                        assert(q > i);
                    }
                }
                assert(before((x, m[x]), (y, m[y]))) by {
                    if a.contains(y) {
                        let q = choose|q: int| 0 <= q < a.len() && a[q] == y;
                        if q < i {
                            assert(before((b[q], m[b[q]]), (b[i], m[b[i]])));
                        }
                        assert(q > i);
                    }
                }
                assert(before((x, m[x]), (x, m[x])));
            }
        }
    }
}

/// The first `limit` eligible keys of a table, in order.  The ghost arguments are the
/// test and the order that the two closures compute.
pub fn select<
    const N: usize,
    V: View,
    E: Fn(&[u8; N], &V) -> bool,
    B: Fn(&[u8; N], &V, &[u8; N], &V) -> bool,
>(
    table: &Table<N, V>,
    accepts: E,
    precedes: B,
    limit: usize,
    Ghost(eligible): Ghost<spec_fn([u8; N], V::V) -> bool>,
    Ghost(before): Ghost<spec_fn(([u8; N], V::V), ([u8; N], V::V)) -> bool>,
) -> (keys: Vec<[u8; N]>)
    requires
        forall|k: &[u8; N], v: &V| call_requires(accepts, (k, v)),
        forall|k: &[u8; N], v: &V, b: bool|
            call_ensures(accepts, (k, v), b) ==> b == eligible(*k, v@),
        forall|k: &[u8; N], v: &V, l: &[u8; N], w: &V| call_requires(precedes, (k, v, l, w)),
        forall|k: &[u8; N], v: &V, l: &[u8; N], w: &V, b: bool|
            call_ensures(precedes, (k, v, l, w), b) ==> b == before((*k, v@), (*l, w@)),
        strict_order(before),
    ensures
        first(table@, eligible, before, limit as nat, keys@),
        keys@.no_duplicates(),
{
    let ghost es = table.entries();
    let n = table.len();
    proof {
        lemma_as_map(es);
    }
    let mut taken: Vec<bool> = Vec::new();
    let mut z: usize = 0;
    while z < n
        invariant
            z <= n,
            taken@.len() == z,
            forall|i: int| 0 <= i < z ==> !taken@[i],
        decreases n - z,
    {
        taken.push(false);
        z = z + 1;
    }
    let mut keys: Vec<[u8; N]> = Vec::new();
    loop
        invariant
            es == table.entries(),
            n == es.len(),
            distinct_keys(es),
            strict_order(before),
            taken@.len() == n,
            keys@.len() <= limit,
            keys@.no_duplicates(),
            leading(table@, eligible, before, keys@),
            forall|i: int| 0 <= i < n ==> (#[trigger] taken@[i] <==> keys@.contains(es[i].0)),
            forall|i: int|
                0 <= i < n ==> table@.contains_key((#[trigger] es[i]).0) && table@[es[i].0]
                    == es[i].1,
            forall|k: [u8; N]| #[trigger]
                table@.contains_key(k) ==> exists|i: int| 0 <= i < n && #[trigger] es[i].0 == k,
            forall|k: &[u8; N], v: &V| call_requires(accepts, (k, v)),
            forall|k: &[u8; N], v: &V, b: bool|
                call_ensures(accepts, (k, v), b) ==> b == eligible(*k, v@),
            forall|k: &[u8; N], v: &V, l: &[u8; N], w: &V| call_requires(precedes, (k, v, l, w)),
            forall|k: &[u8; N], v: &V, l: &[u8; N], w: &V, b: bool|
                call_ensures(precedes, (k, v, l, w), b) ==> b == before((*k, v@), (*l, w@)),
        ensures
            first(table@, eligible, before, limit as nat, keys@),
            keys@.no_duplicates(),
        decreases limit - keys@.len(),
    {
        if keys.len() >= limit {
            break;
        }
        let mut best: Option<usize> = None;
        let mut i: usize = 0;
        while i < n
            invariant
                i <= n,
                es == table.entries(),
                n == es.len(),
                taken@.len() == n,
                strict_order(before),
                distinct_keys(es),
                best matches Some(b) ==> b < i && !taken@[b as int] && eligible(
                    es[b as int].0,
                    es[b as int].1,
                ),
                best matches Some(b) ==> forall|j: int|
                    0 <= j < i && j != b && !taken@[j] && eligible((#[trigger] es[j]).0, es[j].1)
                        ==> before(es[b as int], es[j]),
                best is None ==> forall|j: int|
                    0 <= j < i ==> taken@[j] || !eligible((#[trigger] es[j]).0, es[j].1),
                forall|k: &[u8; N], v: &V| call_requires(accepts, (k, v)),
                forall|k: &[u8; N], v: &V, b: bool|
                    call_ensures(accepts, (k, v), b) ==> b == eligible(*k, v@),
                forall|k: &[u8; N], v: &V, l: &[u8; N], w: &V|
                    call_requires(precedes, (k, v, l, w)),
                forall|k: &[u8; N], v: &V, l: &[u8; N], w: &V, b: bool|
                    call_ensures(precedes, (k, v, l, w), b) ==> b == before((*k, v@), (*l, w@)),
            decreases n - i,
        {
            let key = table.key_at(i);
            if !taken[i] && accepts(&key, table.value_at(i)) {
                match best {
                    None => {
                        best = Some(i);
                    },
                    Some(b) => {
                        let best_key = table.key_at(b);
                        if precedes(&key, table.value_at(i), &best_key, table.value_at(b)) {
                            proof {
                                assert(before(es[i as int], es[b as int]));
                                assert forall|j: int|
                                    0 <= j < i + 1 && j != i && !taken@[j] && eligible(
                                        (#[trigger] es[j]).0,
                                        es[j].1,
                                    ) implies before(es[i as int], es[j]) by {
                                    if j != b {
                                        assert(before(es[b as int], es[j]));
                                    }
                                }
                            }
                            best = Some(i);
                        } else {
                            assert(es[b as int].0 != es[i as int].0);
                            assert(before(es[b as int], es[i as int]));
                        }
                    },
                }
            }
            i = i + 1;
        }
        match best {
            None => {
                proof {
                    assert forall|k: [u8; N]|
                        table@.contains_key(k) && eligible(k, table@[k]) implies #[trigger] keys@.contains(
                        k,
                    ) by {
                        let j = choose|j: int| 0 <= j < n && #[trigger] es[j].0 == k;
                        assert(taken@[j]);
                    }
                }
                break;
            },
            Some(b) => {
                let ghost old_keys = keys@;
                let ghost old_taken = taken@;
                let key = table.key_at(b);
                assert(!old_keys.contains(key));
                keys.push(key);
                taken.set(b, true);
                proof {
                    lemma_leading_push(table, eligible, before, old_keys, b as int);
                    assert forall|j: int| 0 <= j < n implies (#[trigger] taken@[j]
                        <==> keys@.contains(es[j].0)) by {
                        if j == b {
                            assert(keys@[old_keys.len() as int] == key);
                        } else {
                            assert(es[j].0 != key) by {
                                if j < b {
                                    assert(es[j].0 != es[b as int].0);
                                } else {
                                    assert(es[b as int].0 != es[j].0);
                                }
                            }
                            if old_keys.contains(es[j].0) {
                                let q = choose|q: int|
                                    0 <= q < old_keys.len() && old_keys[q] == es[j].0;
                                assert(keys@[q] == es[j].0);
                            }
                        }
                    }
                }
            },
        }
    }
    keys
}

proof fn lemma_leading_push<const N: usize, V: View>(
    table: &Table<N, V>,
    eligible: spec_fn([u8; N], V::V) -> bool,
    before: spec_fn(([u8; N], V::V), ([u8; N], V::V)) -> bool,
    keys: Seq<[u8; N]>,
    b: int,
)
    requires
        distinct_keys(table.entries()),
        strict_order(before),
        keys.no_duplicates(),
        leading(table@, eligible, before, keys),
        0 <= b < table.entries().len(),
        !keys.contains(table.entries()[b].0),
        eligible(table.entries()[b].0, table.entries()[b].1),
        forall|j: int|
            0 <= j < table.entries().len() && j != b && !keys.contains(
                (#[trigger] table.entries()[j]).0,
            ) && eligible(table.entries()[j].0, table.entries()[j].1) ==> before(
                table.entries()[b],
                table.entries()[j],
            ),
    ensures
        leading(table@, eligible, before, keys.push(table.entries()[b].0)),
        keys.push(table.entries()[b].0).no_duplicates(),
{
    let es = table.entries();
    let m = table@;
    let key = es[b].0;
    let pushed = keys.push(key);
    lemma_as_map(es);
    assert(m.contains_key(es[b].0) && m[es[b].0] == es[b].1);
    assert forall|i: int, j: int| 0 <= i < j < pushed.len() implies before(
        (#[trigger] pushed[i], m[pushed[i]]),
        (#[trigger] pushed[j], m[pushed[j]]),
    ) by {
        if j < keys.len() {
            assert(before((keys[i], m[keys[i]]), (keys[j], m[keys[j]])));
        } else {
            assert(before((keys[i], m[keys[i]]), (key, m[key])));
        }
    }
    assert forall|k: [u8; N], i: int|
        m.contains_key(k) && eligible(k, m[k]) && !(#[trigger] pushed.contains(k)) && 0 <= i
            < pushed.len() implies before((#[trigger] pushed[i], m[pushed[i]]), (k, m[k])) by {
        assert(!keys.contains(k)) by {
            if keys.contains(k) {
                let q = choose|q: int| 0 <= q < keys.len() && keys[q] == k;
                assert(pushed[q] == k);
            }
        }
        assert(k != key) by {
            assert(pushed[keys.len() as int] == key);
        }
        if i < keys.len() {
            assert(before((keys[i], m[keys[i]]), (k, m[k])));
        } else {
            let j = choose|j: int| 0 <= j < es.len() && #[trigger] es[j].0 == k;
            assert(before(es[b], es[j]));
        }
    }
    assert forall|i: int| 0 <= i < pushed.len() implies m.contains_key(#[trigger] pushed[i])
        && eligible(pushed[i], m[pushed[i]]) by {
        if i < keys.len() {
            assert(pushed[i] == keys[i]);
        }
    }
    assert forall|i: int, j: int| 0 <= i < pushed.len() && 0 <= j < pushed.len() && i
        != j implies pushed[i] != pushed[j] by {
        if i < keys.len() && j == keys.len() {
            assert(keys.contains(keys[i]));
        }
        if j < keys.len() && i == keys.len() {
            assert(keys.contains(keys[j]));
        }
    }
}

/// A shorter selection from the front is a selection too.
pub proof fn lemma_leading_prefix<K, V>(
    m: Map<K, V>,
    eligible: spec_fn(K, V) -> bool,
    before: spec_fn((K, V), (K, V)) -> bool,
    keys: Seq<K>,
    n: int,
)
    requires
        leading(m, eligible, before, keys),
        0 <= n <= keys.len(),
    ensures
        leading(m, eligible, before, keys.take(n)),
{
    let t = keys.take(n);
    assert forall|k: K, i: int|
        m.contains_key(k) && eligible(k, m[k]) && !(#[trigger] t.contains(k)) && 0 <= i
            < t.len() implies before((#[trigger] t[i], m[t[i]]), (k, m[k])) by {
        assert(t[i] == keys[i]);
        if keys.contains(k) {
            let j = choose|j: int| 0 <= j < keys.len() && keys[j] == k;
            if j < n {
                assert(t[j] == k);
            }
            assert(before((keys[i], m[keys[i]]), (keys[j], m[keys[j]])));
        } else {
            assert(before((keys[i], m[keys[i]]), (k, m[k])));
        }
    }
    assert forall|i: int| 0 <= i < t.len() implies m.contains_key(#[trigger] t[i]) && eligible(
        t[i],
        m[t[i]],
    ) by {
        assert(t[i] == keys[i]);
    }
    assert forall|i: int, j: int| 0 <= i < j < t.len() implies before(
        (#[trigger] t[i], m[t[i]]),
        (#[trigger] t[j], m[t[j]]),
    ) by {
        assert(t[i] == keys[i] && t[j] == keys[j]);
    }
}

/// The sum of the sizes of the entries under some keys.
pub open spec fn total<K, V>(m: Map<K, V>, size: spec_fn(V) -> nat, keys: Seq<K>) -> nat
    decreases keys.len(),
{
    if keys.len() == 0 {
        0
    } else {
        total(m, size, keys.drop_last()) + size(m[keys.last()])
    }
}

/// Whether `keys` are the entries to drop to get rid of `goal`: the first in order, no
/// more than needed, and fewer only where `limit` or the map ends.
pub open spec fn sheds<K, V>(
    m: Map<K, V>,
    before: spec_fn((K, V), (K, V)) -> bool,
    size: spec_fn(V) -> nat,
    goal: nat,
    limit: nat,
    keys: Seq<K>,
) -> bool {
    &&& leading(m, |k: K, v: V| true, before, keys)
    &&& keys.len() <= limit
    &&& forall|i: int| 0 <= i < keys.len() ==> total(m, size, #[trigger] keys.take(i)) < goal
    &&& total(m, size, keys) >= goal || keys.len() == limit || forall|k: K|
        m.contains_key(k) ==> #[trigger] keys.contains(k)
}

/// The first entries of a table that together reach `goal`.  The ghost arguments are
/// the order and the size that the two closures compute.
pub fn shed<
    const N: usize,
    V: View,
    B: Fn(&[u8; N], &V, &[u8; N], &V) -> bool,
    S: Fn(&V) -> usize,
>(
    table: &Table<N, V>,
    precedes: B,
    size_of: S,
    goal: usize,
    limit: usize,
    Ghost(before): Ghost<spec_fn(([u8; N], V::V), ([u8; N], V::V)) -> bool>,
    Ghost(size): Ghost<spec_fn(V::V) -> nat>,
) -> (chosen: Vec<[u8; N]>)
    requires
        forall|k: &[u8; N], v: &V, l: &[u8; N], w: &V| call_requires(precedes, (k, v, l, w)),
        forall|k: &[u8; N], v: &V, l: &[u8; N], w: &V, b: bool|
            call_ensures(precedes, (k, v, l, w), b) ==> b == before((*k, v@), (*l, w@)),
        strict_order(before),
        forall|v: &V| call_requires(size_of, (v,)),
        forall|v: &V, n: usize| call_ensures(size_of, (v,), n) ==> n == size(v@),
    ensures
        sheds(table@, before, size, goal as nat, limit as nat, chosen@),
        chosen@.no_duplicates(),
{
    let ghost eligible = |k: [u8; N], v: V::V| true;
    let accepts = |k: &[u8; N], v: &V| -> (b: bool)
        ensures
            b,
        { true };
    let keys = select(table, accepts, precedes, limit, Ghost(eligible), Ghost(before));
    let mut chosen: Vec<[u8; N]> = Vec::new();
    let mut sum: usize = 0;
    assert(keys@.take(0) =~= Seq::<[u8; N]>::empty());
    while chosen.len() < keys.len() && sum < goal
        invariant
            chosen@.len() <= keys@.len(),
            chosen@ == keys@.take(chosen@.len() as int),
            sum == saturated(total(table@, size, chosen@)),
            forall|j: int| 0 <= j < keys@.len() ==> table@.contains_key(#[trigger] keys@[j]),
            forall|i: int|
                0 <= i < chosen@.len() ==> total(table@, size, #[trigger] chosen@.take(i)) < goal,
            forall|v: &V| call_requires(size_of, (v,)),
            forall|v: &V, n: usize| call_ensures(size_of, (v,), n) ==> n == size(v@),
        decreases keys@.len() - chosen@.len(),
    {
        let next = keys[chosen.len()];
        let ghost held = chosen@;
        match table.get(&next) {
            Some(v) => {
                sum = sum.saturating_add(size_of(v));
            },
            None => {},
        }
        chosen.push(next);
        proof {
            assert(chosen@.drop_last() =~= held);
            assert(chosen@ =~= keys@.take(chosen@.len() as int));
            assert forall|i: int| 0 <= i < chosen@.len() implies total(
                table@,
                size,
                #[trigger] chosen@.take(i),
            ) < goal by {
                if i < held.len() {
                    assert(chosen@.take(i) =~= held.take(i));
                } else {
                    assert(chosen@.take(i) =~= held);
                }
            }
        }
    }
    proof {
        lemma_leading_prefix(table@, eligible, before, keys@, chosen@.len() as int);
        if chosen@.len() == keys@.len() {
            assert(chosen@ =~= keys@);
        }
    }
    chosen
}

/// Keys in a strict order are different.
pub proof fn lemma_leading_distinct<K, V>(
    m: Map<K, V>,
    eligible: spec_fn(K, V) -> bool,
    before: spec_fn((K, V), (K, V)) -> bool,
    keys: Seq<K>,
)
    requires
        strict_order(before),
        leading(m, eligible, before, keys),
    ensures
        keys.no_duplicates(),
{
    assert forall|i: int, j: int| 0 <= i < keys.len() && 0 <= j < keys.len() && i
        != j implies keys[i] != keys[j] by {
        if i < j {
            assert(before((keys[i], m[keys[i]]), (keys[j], m[keys[j]])));
        } else {
            assert(before((keys[j], m[keys[j]]), (keys[i], m[keys[i]])));
        }
    }
}

/// What comes first, and then what comes first of the rest, comes first altogether.
pub proof fn lemma_leading_concat<K, V>(
    m: Map<K, V>,
    before: spec_fn((K, V), (K, V)) -> bool,
    a: Seq<K>,
    b: Seq<K>,
)
    requires
        strict_order(before),
        leading(m, |k: K, v: V| true, before, a),
        leading(without(m, a), |k: K, v: V| true, before, b),
    ensures
        leading(m, |k: K, v: V| true, before, a + b),
{
    let rest = without(m, a);
    let all = a + b;
    assert forall|i: int| 0 <= i < b.len() implies m.contains_key(#[trigger] b[i]) && !a.contains(
        b[i],
    ) && rest[b[i]] == m[b[i]] by {
        assert(rest.contains_key(b[i]));
    }
    assert forall|i: int| 0 <= i < all.len() implies m.contains_key(#[trigger] all[i]) by {
        if i < a.len() {
            assert(all[i] == a[i]);
        } else {
            assert(all[i] == b[i - a.len()]);
        }
    }
    assert forall|i: int, j: int| 0 <= i < j < all.len() implies before(
        (#[trigger] all[i], m[all[i]]),
        (#[trigger] all[j], m[all[j]]),
    ) by {
        if j < a.len() {
            assert(all[i] == a[i] && all[j] == a[j]);
        } else {
            let y = b[j - a.len()];
            assert(all[j] == y);
            if i < a.len() {
                assert(all[i] == a[i]);
                assert(!a.contains(y));
                assert(before((a[i], m[a[i]]), (y, m[y])));
            } else {
                let x = b[i - a.len()];
                assert(all[i] == x);
                assert(before((x, rest[x]), (y, rest[y])));
            }
        }
    }
    assert forall|k: K, i: int|
        m.contains_key(k) && !(#[trigger] all.contains(k)) && 0 <= i < all.len() implies before(
        (#[trigger] all[i], m[all[i]]),
        (k, m[k]),
    ) by {
        assert(!a.contains(k)) by {
            if a.contains(k) {
                let q = choose|q: int| 0 <= q < a.len() && a[q] == k;
                assert(all[q] == k);
            }
        }
        assert(!b.contains(k)) by {
            if b.contains(k) {
                let q = choose|q: int| 0 <= q < b.len() && b[q] == k;
                assert(all[q + a.len()] == k);
            }
        }
        assert(rest.contains_key(k) && rest[k] == m[k]);
        if i < a.len() {
            assert(all[i] == a[i]);
            assert(before((a[i], m[a[i]]), (k, m[k])));
        } else {
            let x = b[i - a.len()];
            assert(all[i] == x);
            assert(before((x, rest[x]), (k, rest[k])));
        }
    }
}

/// Sizes add up over lists of keys.
pub proof fn lemma_total_concat<K, V>(
    m: Map<K, V>,
    size: spec_fn(V) -> nat,
    a: Seq<K>,
    b: Seq<K>,
)
    ensures
        total(m, size, a + b) == total(m, size, a) + total(m, size, b),
    decreases b.len(),
{
    if b.len() == 0 {
        assert(a + b =~= a);
    } else {
        assert((a + b).drop_last() =~= a + b.drop_last());
        lemma_total_concat(m, size, a, b.drop_last());
    }
}

/// Two maps that agree on some keys give them the same size.
pub proof fn lemma_total_same<K, V>(
    m: Map<K, V>,
    n: Map<K, V>,
    size: spec_fn(V) -> nat,
    keys: Seq<K>,
)
    requires
        forall|i: int| 0 <= i < keys.len() ==> m[#[trigger] keys[i]] == n[keys[i]],
    ensures
        total(m, size, keys) == total(n, size, keys),
    decreases keys.len(),
{
    if keys.len() > 0 {
        assert(m[keys[keys.len() - 1]] == n[keys[keys.len() - 1]]);
        assert forall|i: int| 0 <= i < keys.drop_last().len() implies m[
            #[trigger] keys.drop_last()[i]
        ] == n[keys.drop_last()[i]] by {
            assert(keys.drop_last()[i] == keys[i]);
        }
        lemma_total_same(m, n, size, keys.drop_last());
    }
}

/// What is removed and what is left weigh what there was.
pub proof fn lemma_weigh_without<K, V>(m: Map<K, V>, size: spec_fn(V) -> nat, keys: Seq<K>)
    requires
        m.dom().finite(),
        keys.no_duplicates(),
        forall|i: int| 0 <= i < keys.len() ==> m.contains_key(#[trigger] keys[i]),
    ensures
        weigh(without(m, keys), size) + total(m, size, keys) == weigh(m, size),
        without(m, keys).dom().finite(),
    decreases keys.len(),
{
    if keys.len() == 0 {
        assert(without(m, keys) =~= m);
    } else {
        let rest = keys.drop_last();
        let last = keys.last();
        assert forall|i: int| 0 <= i < rest.len() implies m.contains_key(#[trigger] rest[i]) by {
            assert(rest[i] == keys[i]);
        }
        lemma_weigh_without(m, size, rest);
        assert(!rest.contains(last)) by {
            if rest.contains(last) {
                let i = choose|i: int| 0 <= i < rest.len() && rest[i] == last;
                assert(keys[i] == keys[keys.len() - 1]);
            }
        }
        assert forall|k: K| keys.contains(k) <==> (rest.contains(k) || k == last) by {
            if keys.contains(k) {
                let i = choose|i: int| 0 <= i < keys.len() && keys[i] == k;
                if i < rest.len() {
                    assert(rest[i] == k);
                }
            }
            if rest.contains(k) {
                let i = choose|i: int| 0 <= i < rest.len() && rest[i] == k;
                assert(keys[i] == k);
            }
            assert(keys[keys.len() - 1] == last);
        }
        assert(m.contains_key(keys[keys.len() - 1]));
        let left = without(m, rest);
        assert(left.contains_key(last) && left[last] == m[last]);
        lemma_weigh_remove(left, size, last);
        assert(without(m, keys) =~= left.remove(last));
    }
}

/// Dropping what it takes to get rid of `goal` leaves nothing, or that much less.
pub proof fn lemma_sheds_enough<K, V>(
    m: Map<K, V>,
    before: spec_fn((K, V), (K, V)) -> bool,
    size: spec_fn(V) -> nat,
    goal: nat,
    limit: nat,
    keys: Seq<K>,
)
    requires
        m.dom().finite(),
        m.dom().len() < limit,
        strict_order(before),
        sheds(m, before, size, goal, limit, keys),
    ensures
        weigh(without(m, keys), size) == 0 || weigh(without(m, keys), size) + goal <= weigh(
            m,
            size,
        ),
{
    let all = |k: K, v: V| true;
    lemma_leading_distinct(m, all, before, keys);
    assert forall|i: int| 0 <= i < keys.len() implies m.contains_key(#[trigger] keys[i]) by {}
    lemma_weigh_without(m, size, keys);
    keys.unique_seq_to_set();
    assert(keys.to_set().subset_of(m.dom()));
    vstd::set_lib::lemma_len_subset(keys.to_set(), m.dom());
    if total(m, size, keys) < goal {
        assert(without(m, keys).dom() =~= Set::empty());
    }
}

/// Whether dropping `keys` cuts a map down to `limit`: the first in order go, no more
/// than needed.
pub open spec fn trims<K, V>(
    m: Map<K, V>,
    before: spec_fn((K, V), (K, V)) -> bool,
    size: spec_fn(V) -> nat,
    limit: usize,
    keys: Seq<K>,
) -> bool {
    &&& leading(m, |k: K, v: V| true, before, keys)
    &&& saturated(weigh(without(m, keys), size)) <= limit
    &&& forall|i: int|
        0 <= i < keys.len() ==> weigh(m, size) > limit + total(m, size, #[trigger] keys.take(i))
}

/// Dropping some more of what is left, while it is still too much, is a step towards
/// the limit.
pub proof fn lemma_trim_step<K, V>(
    m: Map<K, V>,
    before: spec_fn((K, V), (K, V)) -> bool,
    size: spec_fn(V) -> nat,
    limit: nat,
    goal: nat,
    a: Seq<K>,
    b: Seq<K>,
    batch: nat,
)
    requires
        strict_order(before),
        m.dom().finite(),
        leading(m, |k: K, v: V| true, before, a),
        forall|i: int|
            0 <= i < a.len() ==> weigh(m, size) > limit + total(m, size, #[trigger] a.take(i)),
        sheds(without(m, a), before, size, goal, batch, b),
        goal + limit <= weigh(without(m, a), size),
    ensures
        leading(m, |k: K, v: V| true, before, a + b),
        forall|i: int|
            0 <= i < (a + b).len() ==> weigh(m, size) > limit + total(
                m,
                size,
                #[trigger] (a + b).take(i),
            ),
        without(without(m, a), b) == without(m, a + b),
        weigh(without(m, a + b), size) + total(m, size, a + b) == weigh(m, size),
        without(m, a).dom().finite(),
        without(m, a + b).dom().finite(),
        forall|i: int| 0 <= i < (a + b).len() ==> m.contains_key(#[trigger] (a + b)[i]),
        (a + b).no_duplicates(),
{
    let rest = without(m, a);
    lemma_leading_distinct(m, |k: K, v: V| true, before, a);
    lemma_weigh_without(m, size, a);
    lemma_leading_concat(m, before, a, b);
    lemma_leading_distinct(m, |k: K, v: V| true, before, a + b);
    lemma_weigh_without(m, size, a + b);
    assert forall|k: K| (a + b).contains(k) <==> (a.contains(k) || b.contains(k)) by {
        if a.contains(k) {
            let q = choose|q: int| 0 <= q < a.len() && a[q] == k;
            assert((a + b)[q] == k);
        }
        if b.contains(k) {
            let q = choose|q: int| 0 <= q < b.len() && b[q] == k;
            assert((a + b)[q + a.len()] == k);
        }
    }
    assert(without(rest, b) =~= without(m, a + b));
    assert forall|i: int| 0 <= i < (a + b).len() implies weigh(m, size) > limit + total(
        m,
        size,
        #[trigger] (a + b).take(i),
    ) by {
        if i < a.len() {
            assert((a + b).take(i) =~= a.take(i));
        } else {
            let t = b.take(i - a.len());
            assert((a + b).take(i) =~= a + t);
            lemma_total_concat(m, size, a, t);
            assert forall|q: int| 0 <= q < t.len() implies m[#[trigger] t[q]] == rest[t[q]] by {
                assert(t[q] == b[q]);
                assert(rest.contains_key(b[q]));
            }
            lemma_total_same(m, rest, size, t);
            assert(total(rest, size, b.take(i - a.len())) < goal);
        }
    }
}

/// The weight by which entries are dropped when space runs out: size times age, where
/// an age below `base` counts as `base`, and a tenth of that for what is prioritised.
pub open spec fn weight_of(age: int, base: int, size: int, prioritised: bool) -> int {
    let counted = if age > base {
        age
    } else {
        base
    };
    if prioritised {
        counted * size
    } else {
        10 * (counted * size)
    }
}

/// The time from `earlier` to `now`.
pub fn elapsed(earlier: i64, now: i64) -> (age: i128)
    ensures
        age == now - earlier,
{
    now as i128 - earlier as i128
}

/// Whether the first of two entries weighs more than the second, and whether they weigh
/// the same.
pub fn outweighs(
    age: i128,
    size: usize,
    prioritised: bool,
    other_age: i128,
    other_size: usize,
    other_prioritised: bool,
    base: i64,
) -> (r: (bool, bool))
    requires
        age < 0x1_0000_0000_0000_0000,
        other_age < 0x1_0000_0000_0000_0000,
        0 <= base,
    ensures
        r.0 == (weight_of(age as int, base as int, size as int, prioritised) > weight_of(
            other_age as int,
            base as int,
            other_size as int,
            other_prioritised,
        )),
        r.1 == (weight_of(age as int, base as int, size as int, prioritised) == weight_of(
            other_age as int,
            base as int,
            other_size as int,
            other_prioritised,
        )),
{
    let counted: u128 = if age > base as i128 {
        age as u128
    } else {
        base as u128
    };
    let other_counted: u128 = if other_age > base as i128 {
        other_age as u128
    } else {
        base as u128
    };
    proof {
        lemma_product_fits(counted as int, size as int);
        lemma_product_fits(other_counted as int, other_size as int);
    }
    let a: u128 = counted * size as u128;
    let b: u128 = other_counted * other_size as u128;
    let tenth: u128 = u128::MAX / 10;
    if prioritised == other_prioritised {
        (a > b, a == b)
    } else if prioritised {
        if b > tenth {
            (false, false)
        } else {
            (a > b * 10, a == b * 10)
        }
    } else {
        if a > tenth {
            (true, false)
        } else {
            (a * 10 > b, a * 10 == b)
        }
    }
}

proof fn lemma_product_fits(a: int, b: int)
    requires
        0 <= a < 0x1_0000_0000_0000_0000,
        0 <= b < 0x1_0000_0000_0000_0000,
    ensures
        0 <= a * b <= u128::MAX,
{
    assert(0 <= a * b <= 0xffff_ffff_ffff_ffff * 0xffff_ffff_ffff_ffff) by (nonlinear_arith)
        requires
            0 <= a <= 0xffff_ffff_ffff_ffff,
            0 <= b <= 0xffff_ffff_ffff_ffff,
    ;
}

/// A weight is the size times the age: twice the bytes weigh twice as much, an age below the
/// base counts as the base, an older message weighs more for each unit of age, and what is
/// prioritised weighs a tenth.
pub proof fn weights_are_size_times_age(
    age: int,
    base: int,
    size: int,
    more: int,
    prioritised: bool,
)
    ensures
        weight_of(age, base, 1, true) == (if age > base {
            age
        } else {
            base
        }),
        weight_of(age, base, size + more, prioritised) == weight_of(age, base, size, prioritised)
            + weight_of(age, base, more, prioritised),
        weight_of(age, base, size, false) == 10 * weight_of(age, base, size, true),
{
    let counted = if age > base {
        age
    } else {
        base
    };
    assert(counted * (size + more) == counted * size + counted * more) by (nonlinear_arith);
    assert(counted * 1 == counted);
}

/// The first entries are eligible and in order, each once; what is eligible and not among them
/// comes after every one of them; and none is left out while there is room.
pub proof fn the_first_entries_come_first<K, V>(
    m: Map<K, V>,
    eligible: spec_fn(K, V) -> bool,
    before: spec_fn((K, V), (K, V)) -> bool,
    limit: nat,
    keys: Seq<K>,
    k: K,
    i: int,
    j: int,
)
    requires
        strict_order(before),
        first(m, eligible, before, limit, keys),
    ensures
        keys.len() <= limit,
        keys.no_duplicates(),
        keys.contains(k) ==> m.contains_key(k) && eligible(k, m[k]),
        0 <= i < j < keys.len() ==> before((keys[i], m[keys[i]]), (keys[j], m[keys[j]])),
        m.contains_key(k) && eligible(k, m[k]) && !keys.contains(k) ==> keys.len() == limit && (0
            <= i < keys.len() ==> before((keys[i], m[keys[i]]), (k, m[k]))),
{
    lemma_leading_distinct(m, eligible, before, keys);
    if keys.contains(k) {
        let at = keys.index_of(k);
        assert(m.contains_key(keys[at]));
    }
}

/// What is dropped comes before what is kept, in order; the last that is dropped is still
/// needed; and no more than `limit` are dropped, nor fewer than needed while there are more.
pub proof fn no_more_is_dropped_than_needed<K, V>(
    m: Map<K, V>,
    before: spec_fn((K, V), (K, V)) -> bool,
    size: spec_fn(V) -> nat,
    goal: nat,
    limit: nat,
    keys: Seq<K>,
    k: K,
    i: int,
)
    requires
        sheds(m, before, size, goal, limit, keys),
    ensures
        keys.len() <= limit,
        0 <= i < keys.len() ==> m.contains_key(keys[i]),
        0 <= i < keys.len() && m.contains_key(k) && !keys.contains(k) ==> before(
            (keys[i], m[keys[i]]),
            (k, m[k]),
        ),
        keys.len() > 0 ==> total(m, size, keys.drop_last()) < goal && total(m, size, keys) == total(
            m,
            size,
            keys.drop_last(),
        ) + size(m[keys.last()]),
        m.contains_key(k) && !keys.contains(k) && keys.len() < limit ==> total(m, size, keys)
            >= goal,
        goal == 0 ==> keys.len() == 0,
{
    if keys.len() > 0 {
        assert(keys.take(keys.len() - 1) =~= keys.drop_last());
        assert(total(m, size, keys.take(keys.len() - 1)) < goal);
    }
}

} // verus!
