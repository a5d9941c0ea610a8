//! The order of keys: byte strings compared lexicographically.
use vstd::prelude::*;

verus! {

/// `a` sorts before `b`, comparing from position `i` onward.
pub open spec fn lex_lt_from(a: Seq<u8>, b: Seq<u8>, i: nat) -> bool
    decreases a.len() - i,
{
    if i >= a.len() {
        i < b.len()
    } else if i >= b.len() {
        false
    } else if a[i as int] != b[i as int] {
        a[i as int] < b[i as int]
    } else {
        lex_lt_from(a, b, i + 1)
    }
}

/// `a` sorts strictly before `b` in byte-wise lexicographic order.
pub open spec fn key_lt(a: Seq<u8>, b: Seq<u8>) -> bool {
    lex_lt_from(a, b, 0)
}

/// `a` sorts before `b` or equals it.
pub open spec fn key_le(a: Seq<u8>, b: Seq<u8>) -> bool {
    key_lt(a, b) || a == b
}

proof fn lemma_lt_from_irreflexive(a: Seq<u8>, i: nat)
    ensures
        !lex_lt_from(a, a, i),
    decreases a.len() - i,
{
    if i < a.len() {
        lemma_lt_from_irreflexive(a, i + 1);
    }
}

proof fn lemma_lt_from_transitive(a: Seq<u8>, b: Seq<u8>, c: Seq<u8>, i: nat)
    requires
        lex_lt_from(a, b, i),
        lex_lt_from(b, c, i),
    ensures
        lex_lt_from(a, c, i),
    decreases a.len() - i,
{
    if i < a.len() && i < b.len() && i < c.len() && a[i as int] == b[i as int] && b[i as int] == c[i as int] {
        lemma_lt_from_transitive(a, b, c, i + 1);
    }
}

proof fn lemma_lt_from_asymmetric(a: Seq<u8>, b: Seq<u8>, i: nat)
    requires
        lex_lt_from(a, b, i),
    ensures
        !lex_lt_from(b, a, i),
    decreases a.len() - i,
{
    if i < a.len() && i < b.len() && a[i as int] == b[i as int] {
        lemma_lt_from_asymmetric(a, b, i + 1);
    }
}

proof fn lemma_lt_from_total(a: Seq<u8>, b: Seq<u8>, i: nat)
    requires
        i <= a.len(),
        i <= b.len(),
        a.take(i as int) == b.take(i as int),
        a != b,
    ensures
        lex_lt_from(a, b, i) || lex_lt_from(b, a, i),
    decreases a.len() - i,
{
    if i < a.len() && i < b.len() && a[i as int] == b[i as int] {
        assert(a.take((i + 1) as int) =~= a.take(i as int).push(a[i as int]));
        assert(b.take((i + 1) as int) =~= b.take(i as int).push(b[i as int]));
        lemma_lt_from_total(a, b, i + 1);
    } else if i == a.len() && i == b.len() {
        assert(a =~= a.take(i as int));
        assert(b =~= b.take(i as int));
    }
}

/// Key order is a strict total order.
pub proof fn lemma_key_order()
    ensures
        forall|a: Seq<u8>| !#[trigger] key_lt(a, a),
        forall|a: Seq<u8>, b: Seq<u8>| #[trigger] key_lt(a, b) ==> !key_lt(b, a),
        forall|a: Seq<u8>, b: Seq<u8>|
            a != b ==> #[trigger] key_lt(a, b) || #[trigger] key_lt(b, a),
        forall|a: Seq<u8>, b: Seq<u8>, c: Seq<u8>|
            #[trigger] key_lt(a, b) && #[trigger] key_lt(b, c) ==> key_lt(a, c),
{
    assert forall|a: Seq<u8>| !#[trigger] key_lt(a, a) by {
        lemma_lt_from_irreflexive(a, 0);
    }
    assert forall|a: Seq<u8>, b: Seq<u8>| #[trigger] key_lt(a, b) implies !key_lt(b, a) by {
        lemma_lt_from_asymmetric(a, b, 0);
    }
    assert forall|a: Seq<u8>, b: Seq<u8>| a != b implies #[trigger] key_lt(a, b) || #[trigger] key_lt(b, a) by {
        assert(a.take(0) =~= b.take(0));
        lemma_lt_from_total(a, b, 0);
    }
    assert forall|a: Seq<u8>, b: Seq<u8>, c: Seq<u8>|
        #[trigger] key_lt(a, b) && #[trigger] key_lt(b, c) implies key_lt(a, c) by {
        lemma_lt_from_transitive(a, b, c, 0);
    }
}

/// `a` and `b` agree on their first `k` bytes, and at position `k` the byte
/// of `a` is the smaller one as an unsigned number, or `a` ends there while
/// `b` goes on.
pub open spec fn first_smaller_at(a: Seq<u8>, b: Seq<u8>, k: int) -> bool {
    &&& 0 <= k <= a.len()
    &&& k <= b.len()
    &&& forall|j: int| 0 <= j < k ==> a[j] == b[j]
    &&& ((k < a.len() && k < b.len() && (a[k] as int) < (b[k] as int)) || (k == a.len() && k < b.len()))
}

proof fn lemma_lt_from_first_smaller(a: Seq<u8>, b: Seq<u8>, i: nat)
    requires
        i <= a.len(),
        i <= b.len(),
        forall|j: int| 0 <= j < i ==> a[j] == b[j],
    ensures
        lex_lt_from(a, b, i) <==> exists|k: int| i <= k && #[trigger] first_smaller_at(a, b, k),
    decreases a.len() - i,
{
    let ii = i as int;
    if i >= a.len() {
        if i < b.len() {
            assert(first_smaller_at(a, b, ii));
        }
    } else if i >= b.len() {
    } else if a[ii] != b[ii] {
        if a[ii] < b[ii] {
            assert(first_smaller_at(a, b, ii));
        }
        assert forall|k: int| i <= k && #[trigger] first_smaller_at(a, b, k) implies k == i && a[ii] < b[ii] by {
            if k > i {
                assert(a[ii] == b[ii]);
            }
        }
    } else {
        lemma_lt_from_first_smaller(a, b, i + 1);
        if exists|k: int| i <= k && #[trigger] first_smaller_at(a, b, k) {
            let k = choose|k: int| i <= k && #[trigger] first_smaller_at(a, b, k);
            assert(k != ii);
            assert(i + 1 <= k);
        }
    }
}

/// Keys are ordered byte by byte: `a` sorts before `b` exactly when, at the
/// first position where they differ, the byte of `a` is smaller as an
/// unsigned number, or `a` is a proper prefix of `b`. For one-byte keys this
/// is the order of the bytes themselves.
pub proof fn lemma_key_lt_bytewise(a: Seq<u8>, b: Seq<u8>)
    ensures
        key_lt(a, b) <==> exists|k: int| #[trigger] first_smaller_at(a, b, k),
        a.len() == 1 && b.len() == 1 ==> (key_lt(a, b) <==> (a[0] as int) < (b[0] as int)),
        a.len() < b.len() && a == b.take(a.len() as int) ==> key_lt(a, b),
{
    lemma_lt_from_first_smaller(a, b, 0);
    if a.len() == 1 && b.len() == 1 {
        if key_lt(a, b) {
            let k = choose|k: int| #[trigger] first_smaller_at(a, b, k);
            if k == 1 {
                assert(a[0] == b[0]);
            }
        } else if (a[0] as int) < (b[0] as int) {
            assert(first_smaller_at(a, b, 0));
        }
    }
    if a.len() < b.len() && a == b.take(a.len() as int) {
        assert forall|j: int| 0 <= j < a.len() implies a[j] == b[j] by {
            assert(b.take(a.len() as int)[j] == b[j]);
        }
        assert(first_smaller_at(a, b, a.len() as int));
    }
}

/// One-byte keys sort as their bytes do, over every pair of bytes.
pub proof fn lemma_key_lt_single_bytes()
    ensures
        forall|x: u8, y: u8| #[trigger] key_lt(seq![x], seq![y]) <==> x < y,
{
    assert forall|x: u8, y: u8| #[trigger] key_lt(seq![x], seq![y]) <==> x < y by {
        lemma_key_lt_bytewise(seq![x], seq![y]);
    }
}

/// Compares two keys: `true` when `a` sorts strictly before `b`.
pub fn key_less(a: &[u8], b: &[u8]) -> (r: bool)
    ensures
        r == key_lt(a@, b@),
{
    let mut i: usize = 0;
    while i < a.len() && i < b.len() && a[i] == b[i]
        invariant
            i <= a@.len(),
            i <= b@.len(),
            key_lt(a@, b@) == lex_lt_from(a@, b@, i as nat),
        decreases a@.len() - i,
    {
        i = i + 1;
    }
    if i >= a.len() {
        i < b.len()
    } else if i >= b.len() {
        false
    } else {
        a[i] < b[i]
    }
}

/// Tests two keys for equality.
pub fn key_eq(a: &[u8], b: &[u8]) -> (r: bool)
    ensures
        r == (a@ == b@),
{
    if a.len() != b.len() {
        return false;
    }
    let mut i: usize = 0;
    while i < a.len()
        invariant
            i <= a@.len(),
            a@.len() == b@.len(),
            forall|j: int| 0 <= j < i ==> a@[j] == b@[j],
        decreases a@.len() - i,
    {
        if a[i] != b[i] {
            return false;
        }
        i = i + 1;
    }
    assert(a@ =~= b@);
    true
}

} // verus!
