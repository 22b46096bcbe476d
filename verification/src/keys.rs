//! Byte-string keys and their lexicographic order.
//!
//! Child names inside a directory, and the search keys supplied by the
//! change source, are arbitrary byte strings.  The sharded trie keeps its
//! entries sorted by the strict lexicographic order defined here.

use vstd::prelude::*;

verus! {

/// Strict lexicographic order on byte strings: `a` comes before `b`.
pub open spec fn key_lt(a: Seq<u8>, b: Seq<u8>) -> bool
    decreases a.len(),
{
    if b.len() == 0 {
        false
    } else if a.len() == 0 {
        true
    } else if a[0] < b[0] {
        true
    } else if a[0] == b[0] {
        key_lt(a.drop_first(), b.drop_first())
    } else {
        false
    }
}

pub proof fn lemma_key_lt_irrefl(a: Seq<u8>)
    ensures
        !key_lt(a, a),
    decreases a.len(),
{
    if a.len() > 0 {
        lemma_key_lt_irrefl(a.drop_first());
    }
}

/// Exactly one of `a < b`, `a == b`, `b < a` holds.
pub proof fn lemma_key_lt_total(a: Seq<u8>, b: Seq<u8>)
    ensures
        key_lt(a, b) || key_lt(b, a) || a == b,
        key_lt(a, b) ==> !key_lt(b, a) && a != b,
        key_lt(b, a) ==> !key_lt(a, b) && a != b,
    decreases a.len(),
{
    if a.len() == 0 || b.len() == 0 {
        if a.len() == 0 && b.len() == 0 {
            assert(a =~= b);
        }
    } else if a[0] == b[0] {
        lemma_key_lt_total(a.drop_first(), b.drop_first());
        if a.drop_first() == b.drop_first() {
            assert(a.len() == b.len());
            assert forall|k: int| 0 <= k < a.len() implies a[k] == b[k] by {
                if k > 0 {
                    assert(a[k] == a.drop_first()[k - 1]);
                    assert(b[k] == b.drop_first()[k - 1]);
                }
            }
            assert(a =~= b);
        }
        if a == b {
            assert(a.drop_first() =~= b.drop_first());
        }
    }
}

pub proof fn lemma_key_lt_trans(a: Seq<u8>, b: Seq<u8>, c: Seq<u8>)
    requires
        key_lt(a, b),
        key_lt(b, c),
    ensures
        key_lt(a, c),
    decreases a.len(),
{
    if a.len() > 0 && b.len() > 0 && c.len() > 0 {
        if a[0] == b[0] && b[0] == c[0] {
            lemma_key_lt_trans(a.drop_first(), b.drop_first(), c.drop_first());
        }
    }
}

/// If `a` and `b` agree on their first `i` bytes, their order is decided by
/// what follows: a shorter `a` comes first, and otherwise byte `i` decides.
pub proof fn lemma_key_lt_from_prefix(a: Seq<u8>, b: Seq<u8>, i: int)
    requires
        0 <= i <= a.len(),
        0 <= i <= b.len(),
        forall|k: int| 0 <= k < i ==> a[k] == b[k],
    ensures
        i == a.len() && i < b.len() ==> key_lt(a, b),
        i == b.len() && i < a.len() ==> key_lt(b, a),
        i == a.len() && i == b.len() ==> a == b,
        i < a.len() && i < b.len() && a[i] < b[i] ==> key_lt(a, b),
        i < a.len() && i < b.len() && a[i] > b[i] ==> key_lt(b, a),
    decreases i,
{
    if i == 0 {
        if i == a.len() && i == b.len() {
            assert(a =~= b);
        }
    } else {
        assert(forall|k: int| 0 <= k < i - 1 ==> a.drop_first()[k] == b.drop_first()[k]);
        lemma_key_lt_from_prefix(a.drop_first(), b.drop_first(), i - 1);
        if i - 1 == a.drop_first().len() && i - 1 == b.drop_first().len()
            && a.drop_first() == b.drop_first() {
            assert(a =~= b);
        }
    }
}

/// Three-way comparison of two byte strings in the order of `key_lt`.
/// Returns -1, 0 or 1 as `a` comes before, equals, or comes after `b`.
pub fn key_cmp(a: &Vec<u8>, b: &Vec<u8>) -> (r: i8)
    ensures
        r == -1i8 <==> key_lt(a@, b@),
        r == 0i8 <==> a@ == b@,
        r == 1i8 <==> key_lt(b@, a@),
        r == -1i8 || r == 0i8 || r == 1i8,
{
    let mut i: usize = 0;
    loop
        invariant
            0 <= i <= a@.len(),
            0 <= i <= b@.len(),
            forall|k: int| 0 <= k < i ==> a@[k] == b@[k],
        decreases a@.len() - i,
    {
        proof {
            lemma_key_lt_total(a@, b@);
            lemma_key_lt_from_prefix(a@, b@, i as int);
        }
        if i == a.len() {
            if i == b.len() {
                return 0;
            }
            return -1;
        }
        if i == b.len() {
            return 1;
        }
        if a[i] < b[i] {
            return -1;
        }
        if a[i] > b[i] {
            return 1;
        }
        i = i + 1;
    }
}

/// Copies the bytes of `a` from position `from` to the end.
pub fn key_suffix(a: &Vec<u8>, from: usize) -> (r: Vec<u8>)
    requires
        from <= a@.len(),
    ensures
        r@ == a@.subrange(from as int, a@.len() as int),
{
    let mut r: Vec<u8> = Vec::new();
    let mut i: usize = from;
    while i < a.len()
        invariant
            from <= i <= a@.len(),
            r@ == a@.subrange(from as int, i as int),
        decreases a@.len() - i,
    {
        r.push(a[i]);
        i = i + 1;
        proof {
            assert(r@ =~= a@.subrange(from as int, i as int));
        }
    }
    r
}

/// A fresh byte string holding `b` followed by the bytes of `k`.
pub fn key_prepend(b: u8, k: &Vec<u8>) -> (r: Vec<u8>)
    ensures
        r@ == seq![b] + k@,
{
    let mut r: Vec<u8> = Vec::new();
    r.push(b);
    let mut i: usize = 0;
    while i < k.len()
        invariant
            0 <= i <= k@.len(),
            r@ == seq![b] + k@.subrange(0, i as int),
        decreases k@.len() - i,
    {
        r.push(k[i]);
        i = i + 1;
        proof {
            assert(r@ =~= seq![b] + k@.subrange(0, i as int));
        }
    }
    proof {
        assert(k@.subrange(0, k@.len() as int) =~= k@);
    }
    r
}

/// A fresh copy of a byte string.
pub fn key_copy(a: &Vec<u8>) -> (r: Vec<u8>)
    ensures
        r@ == a@,
{
    let mut r: Vec<u8> = Vec::new();
    let mut i: usize = 0;
    while i < a.len()
        invariant
            0 <= i <= a@.len(),
            r@ == a@.subrange(0, i as int),
        decreases a@.len() - i,
    {
        r.push(a[i]);
        i = i + 1;
        proof {
            assert(r@ =~= a@.subrange(0, i as int));
        }
    }
    proof {
        assert(a@.subrange(0, a@.len() as int) =~= a@);
    }
    r
}

} // verus!
