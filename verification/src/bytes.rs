//! Byte strings: equality, lexicographic order, fixed-size copies and small
//! duplicate-free lists of identifiers.

use vstd::prelude::*;

verus! {

/// `a` comes strictly before `b` in the lexicographic order on byte strings of
/// one length: they first differ where `a` holds the smaller byte.
pub open spec fn lex_less(a: Seq<u8>, b: Seq<u8>) -> bool {
    exists|i: int| first_difference(a, b, i) && a[i] < b[i]
}

/// `a` and `b` agree before `i` and differ there.
pub open spec fn first_difference(a: Seq<u8>, b: Seq<u8>, i: int) -> bool {
    &&& 0 <= i < a.len()
    &&& i < b.len()
    &&& a[i] != b[i]
    &&& forall|j: int| 0 <= j < i ==> a[j] == b[j]
}

/// The order is irreflexive and asymmetric.
pub proof fn lemma_lex_less_asymmetric(a: Seq<u8>, b: Seq<u8>)
    ensures
        !(lex_less(a, b) && lex_less(b, a)),
        !lex_less(a, a),
{
    if lex_less(a, b) && lex_less(b, a) {
        let i = choose|i: int| first_difference(a, b, i) && a[i] < b[i];
        let j = choose|j: int| first_difference(b, a, j) && b[j] < a[j];
        assert(i == j) by {
            if i < j {
                assert(b[i] == a[i]);
            }
            if j < i {
                assert(a[j] == b[j]);
            }
        }
    }
}

/// The order is transitive.
pub proof fn lemma_lex_less_transitive(a: Seq<u8>, b: Seq<u8>, c: Seq<u8>)
    requires
        lex_less(a, b),
        lex_less(b, c),
    ensures
        lex_less(a, c),
{
    let i = choose|i: int| first_difference(a, b, i) && a[i] < b[i];
    let j = choose|j: int| first_difference(b, c, j) && b[j] < c[j];
    let k = if i < j { i } else { j };
    assert(first_difference(a, c, k) && a[k] < c[k]);
}

/// Two different byte strings of one length are ordered one way or the other.
pub proof fn lemma_lex_less_total(a: Seq<u8>, b: Seq<u8>)
    requires
        a.len() == b.len(),
    ensures
        a == b || lex_less(a, b) || lex_less(b, a),
{
    if a != b {
        assert(exists|i: int| 0 <= i < a.len() && a[i] != b[i]) by {
            if forall|i: int| 0 <= i < a.len() ==> a[i] == b[i] {
                assert(a =~= b);
            }
        }
        let w = choose|i: int| 0 <= i < a.len() && a[i] != b[i];
        lemma_first_difference_exists(a, b, w);
        let i = choose|i: int| first_difference(a, b, i);
        assert(first_difference(b, a, i));
    }
}

proof fn lemma_first_difference_exists(a: Seq<u8>, b: Seq<u8>, w: int)
    requires
        a.len() == b.len(),
        0 <= w < a.len(),
        a[w] != b[w],
    ensures
        exists|i: int| first_difference(a, b, i),
    decreases w,
{
    if forall|j: int| 0 <= j < w ==> a[j] == b[j] {
        assert(first_difference(a, b, w));
    } else {
        let v = choose|j: int| 0 <= j < w && a[j] != b[j];
        lemma_first_difference_exists(a, b, v);
    }
}

/// The number that a byte string stands for in base 256.
pub open spec fn numeric(s: Seq<u8>) -> nat
    decreases s.len(),
{
    if s.len() == 0 {
        0
    } else {
        numeric(s.drop_last()) * 256 + s.last() as nat
    }
}

/// What comes first in the order stands for the smaller number.
pub proof fn lemma_numeric_order(a: Seq<u8>, b: Seq<u8>)
    requires
        a.len() == b.len(),
        lex_less(a, b),
    ensures
        numeric(a) < numeric(b),
    decreases a.len(),
{
    let i = choose|i: int| first_difference(a, b, i) && a[i] < b[i];
    let x = a.drop_last();
    let y = b.drop_last();
    if i < a.len() - 1 {
        assert(first_difference(x, y, i) && x[i] < y[i]);
        lemma_numeric_order(x, y);
    } else {
        assert(x =~= y);
    }
}

/// A byte string stands for less than 256 to the power of its length.
pub open spec fn numeric_bound(n: nat) -> nat
    decreases n,
{
    if n == 0 {
        1
    } else {
        256 * numeric_bound((n - 1) as nat)
    }
}

pub proof fn lemma_numeric_bound(s: Seq<u8>)
    ensures
        numeric(s) < numeric_bound(s.len()),
    decreases s.len(),
{
    if s.len() > 0 {
        lemma_numeric_bound(s.drop_last());
    }
}

/// Whether `a` comes before `b`.
pub fn is_less<const N: usize>(a: &[u8; N], b: &[u8; N]) -> (less: bool)
    ensures
        less == lex_less(a@, b@),
{
    let mut i: usize = 0;
    while i < N
        invariant
            i <= N,
            forall|j: int| 0 <= j < i ==> a@[j] == b@[j],
        decreases N - i,
    {
        if a[i] != b[i] {
            proof {
                assert(first_difference(a@, b@, i as int));
                if lex_less(a@, b@) {
                    let k = choose|k: int| first_difference(a@, b@, k) && a@[k] < b@[k];
                    assert(k == i) by {
                        if k < i {
                            assert(a@[k] == b@[k]);
                        }
                        if i < k {
                            assert(a@[i as int] == b@[i as int]);
                        }
                    }
                }
            }
            return a[i] < b[i];
        }
        i = i + 1;
    }
    false
}

/// Whether two identifiers are the same.
pub fn same<const N: usize>(a: &[u8; N], b: &[u8; N]) -> (eq: bool)
    ensures
        eq == (*a == *b),
{
    let mut i: usize = 0;
    while i < N
        invariant
            i <= N,
            forall|j: int| 0 <= j < i ==> a@[j] == b@[j],
        decreases N - i,
    {
        if a[i] != b[i] {
            return false;
        }
        i = i + 1;
    }
    assert(*a =~= *b);
    true
}

/// Whether two byte strings are the same.
pub fn slices_equal(a: &[u8], b: &[u8]) -> (eq: bool)
    ensures
        eq == (a@ == b@),
{
    if a.len() != b.len() {
        return false;
    }
    let mut i: usize = 0;
    while i < a.len()
        invariant
            i <= a@.len(),
            a@.len() == b@.len(),
            forall|j: int| 0 <= j < i ==> a@[j] == b@[j],
        decreases a@.len() - i,
    {
        if a[i] != b[i] {
            return false;
        }
        i = i + 1;
    }
    assert(a@ =~= b@);
    true
}

/// The bytes of `s` as an identifier of `N` bytes, where it has that length.
pub fn to_fixed<const N: usize>(s: &[u8]) -> (r: Option<[u8; N]>)
    ensures
        r is Some <==> s@.len() == N,
        r matches Some(a) ==> a@ == s@,
{
    if s.len() != N {
        return None;
    }
    let mut out = [0u8;N];
    let mut i: usize = 0;
    while i < N
        invariant
            i <= N,
            s@.len() == N,
            forall|j: int| 0 <= j < i ==> out@[j] == s@[j],
        decreases N - i,
    {
        out[i] = s[i];
        i = i + 1;
    }
    assert(out@ =~= s@);
    Some(out)
}

/// An identifier as an owned byte string.
pub fn to_vec<const N: usize>(a: &[u8; N]) -> (v: Vec<u8>)
    ensures
        v@ == a@,
{
    let mut v: Vec<u8> = Vec::new();
    v.extend_from_slice(a.as_slice());
    assert(v@ =~= a@);
    v
}

/// An owned copy of a byte string.
pub fn copy_slice(s: &[u8]) -> (v: Vec<u8>)
    ensures
        v@ == s@,
{
    let mut v: Vec<u8> = Vec::new();
    v.extend_from_slice(s);
    assert(v@ =~= s@);
    v
}

/// The byte strings that a sequence of vectors holds.
pub open spec fn contents(s: Seq<Vec<u8>>) -> Seq<Seq<u8>> {
    Seq::new(s.len(), |i: int| s[i]@)
}

/// An owned copy of a list of byte strings.
pub fn copy_list(list: &Vec<Vec<u8>>) -> (r: Vec<Vec<u8>>)
    ensures
        contents(r@) == contents(list@),
{
    let mut r: Vec<Vec<u8>> = Vec::new();
    let mut i: usize = 0;
    while i < list.len()
        invariant
            i <= list@.len(),
            r@.len() == i,
            forall|j: int| 0 <= j < i ==> r@[j]@ == list@[j]@,
        decreases list@.len() - i,
    {
        r.push(copy_slice(list[i].as_slice()));
        i = i + 1;
    }
    assert(contents(r@) =~= contents(list@));
    r
}

/// Whether a list of identifiers holds `x`.
pub fn list_contains<const N: usize>(list: &Vec<[u8; N]>, x: &[u8; N]) -> (found: bool)
    ensures
        found == list@.contains(*x),
{
    let mut i: usize = 0;
    while i < list.len()
        invariant
            i <= list@.len(),
            forall|j: int| 0 <= j < i ==> list@[j] != *x,
        decreases list@.len() - i,
    {
        if same(&list[i], x) {
            assert(list@[i as int] == *x);
            return true;
        }
        i = i + 1;
    }
    false
}

/// Appends `x` unless the list already holds it.
pub fn list_add<const N: usize>(list: &mut Vec<[u8; N]>, x: [u8; N]) -> (added: bool)
    ensures
        added == !old(list)@.contains(x),
        final(list)@ == (if old(list)@.contains(x) { old(list)@ } else { old(list)@.push(x) }),
{
    if list_contains(list, &x) {
        false
    } else {
        list.push(x);
        true
    }
}

/// Whether something is not `x`.
pub open spec fn differs<const N: usize>(x: [u8; N]) -> spec_fn([u8; N]) -> bool {
    |y: [u8; N]| y != x
}

/// A list without `x`, in the same order.
pub open spec fn without_element<const N: usize>(list: Seq<[u8; N]>, x: [u8; N]) -> Seq<[u8; N]> {
    list.filter(differs(x))
}

/// Removes every occurrence of `x`, keeping the order of the rest.
pub fn list_remove<const N: usize>(list: &mut Vec<[u8; N]>, x: &[u8; N])
    ensures
        final(list)@ == without_element(old(list)@, *x),
{
    let ghost before = list@;
    let ghost keep = differs(*x);
    let mut kept: Vec<[u8; N]> = Vec::new();
    let mut i: usize = 0;
    while i < list.len()
        invariant
            i <= list@.len(),
            list@ == before,
            keep == differs(*x),
            kept@ == before.take(i as int).filter(keep),
        decreases list@.len() - i,
    {
        proof {
            assert(before.take(i + 1).drop_last() =~= before.take(i as int));
            reveal(Seq::filter);
        }
        if !same(&list[i], x) {
            kept.push(list[i]);
        }
        i = i + 1;
    }
    proof {
        assert(before.take(i as int) =~= before);
    }
    *list = kept;
}

/// The set of the elements of a list.
pub open spec fn members<const N: usize>(list: Seq<[u8; N]>) -> Set<[u8; N]> {
    list.to_set()
}

/// What adding to a list does to its members.
pub proof fn lemma_members_add<const N: usize>(list: Seq<[u8; N]>, x: [u8; N])
    ensures
        members(if list.contains(x) { list } else { list.push(x) }) == members(list).insert(x),
{
    let added = if list.contains(x) { list } else { list.push(x) };
    assert forall|y: [u8; N]| members(added).contains(y) <==> members(list).insert(x).contains(
        y,
    ) by {
        if list.contains(y) {
            let i = choose|i: int| 0 <= i < list.len() && list[i] == y;
            assert(added[i] == y);
        }
        if y == x && !list.contains(x) {
            assert(added[list.len() as int] == x);
        }
    }
    assert(members(added) =~= members(list).insert(x));
}

/// What removing from a list does to its members.
pub proof fn lemma_members_remove<const N: usize>(list: Seq<[u8; N]>, x: [u8; N])
    ensures
        members(without_element(list, x)) == members(list).remove(x),
{
    let keep = differs(x);
    let left = list.filter(keep);
    assert forall|y: [u8; N]| members(left).contains(y) <==> members(list).remove(x).contains(
        y,
    ) by {
        if left.contains(y) {
            let i = choose|i: int| 0 <= i < left.len() && left[i] == y;
            list.lemma_filter_pred(keep, i);
            list.lemma_filter_contains_rev(keep, y);
        }
        if list.contains(y) && y != x {
            let i = choose|i: int| 0 <= i < list.len() && list[i] == y;
            list.lemma_filter_contains(keep, i);
        }
    }
    assert(members(left) =~= members(list).remove(x));
}

/// Whether two strings are the same.
pub fn same_text(a: &str, b: &str) -> (eq: bool)
    ensures
        eq == (a@ == b@),
{
    let eq = slices_equal(a.as_bytes(), b.as_bytes());
    proof {
        vstd::utf8::encode_utf8_decode_utf8(a@);
        vstd::utf8::encode_utf8_decode_utf8(b@);
    }
    eq
}

/// The array with some bytes.
pub open spec fn fixed<const N: usize>(b: Seq<u8>) -> [u8; N] {
    choose|k: [u8; N]| k@ == b
}

/// Two arrays with the same bytes are the same.
pub proof fn lemma_fixed<const N: usize>(k: [u8; N])
    ensures
        fixed::<N>(k@) == k,
{
    let f = fixed::<N>(k@);
    assert(f@ == k@);
    assert(f =~= k);
}

/// Appends a byte string.
pub fn append(v: &mut Vec<u8>, s: &[u8])
    ensures
        final(v)@ == old(v)@ + s@,
{
    let ghost before = v@;
    v.extend_from_slice(s);
    assert(v@ =~= before + s@);
}

/// Two byte strings, one behind the other.
pub fn join(a: &[u8], b: &[u8]) -> (v: Vec<u8>)
    ensures
        v@ == a@ + b@,
{
    let mut v = copy_slice(a);
    append(&mut v, b);
    v
}

} // verus!
