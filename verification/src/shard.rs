//! The persistent sharded trie map: its logical content, well-formedness,
//! and the operations the merge engine uses.
//!
//! The logical content of a trie node is a sorted association sequence from
//! byte-string key to [`Entry`], obtained by flattening the node through the
//! store ([`node_flat`]).  A `Branch` child covers the keys that continue
//! with its byte; the child's own keys are stored with that byte stripped,
//! so flattening prepends it again.  Construction is deterministic: a
//! mapping of at most [`SHARD_CAP`] entries is a `Leaf`, a larger one is a
//! `Branch` split by first byte, so identical key/value sets always produce
//! structurally identical tries.

use vstd::prelude::*;

use crate::store::Store;
use crate::store::store_wf;
use crate::store::queue_wf;
use crate::store::step_ok;

use crate::keys::key_cmp;
use crate::keys::key_lt;
use crate::keys::key_prepend;
use crate::keys::key_suffix;
use crate::keys::key_copy;
use crate::keys::lemma_key_lt_total;
use crate::keys::lemma_key_lt_trans;
use crate::node::Blob;
use crate::node::Entry;
use crate::node::MapNode;
use crate::node::SHARD_CAP;
use crate::node::blob_eqv;
use crate::node::blob_map;
use crate::node::node_eqv;
use crate::node::entries_view;
use crate::node::entry_weight;
use crate::node::sorted_strict;

verus! {

pub open spec fn is_dir_blob(b: Blob) -> bool {
    match b {
        Blob::Dir { .. } => true,
        Blob::Frag { .. } => false,
    }
}

pub open spec fn dir_rollup(b: Blob) -> u64 {
    match b {
        Blob::Dir { map, rollup } => rollup,
        Blob::Frag { .. } => 0,
    }
}

/// Measure used by the recursions that walk a node: a `Branch` counts one
/// more than its child list so that stepping to the list decreases it.
pub open spec fn node_measure(n: MapNode) -> nat {
    match n {
        MapNode::Leaf { .. } => 0,
        MapNode::Branch { count, here, children } => children@.len() + 1,
    }
}

/// Prepends one byte to every key of a flat association sequence.
pub open spec fn prepend_byte(b: u8, s: Seq<(Seq<u8>, Entry)>) -> Seq<(Seq<u8>, Entry)> {
    s.map_values(|p: (Seq<u8>, Entry)| (seq![b] + p.0, p.1))
}

/// The logical content of a node: its entries, flattened through the store.
/// `bound` is a strict upper bound on every blob id the node may reference;
/// references at or above it contribute nothing (well-formed nodes have
/// none, see [`node_wf`]).
pub open spec fn node_flat(s: Seq<Blob>, n: MapNode, bound: int) -> Seq<(Seq<u8>, Entry)>
    decreases bound, node_measure(n),
{
    if bound < 0 {
        Seq::empty()
    } else {
        match n {
            MapNode::Leaf { entries } => entries_view(entries@),
            MapNode::Branch { count, here, children } => {
                let h = match here {
                    Option::Some(e) => seq![(Seq::<u8>::empty(), e)],
                    Option::None => Seq::empty(),
                };
                h + children_flat(s, children@, bound)
            },
        }
    }
}

/// The flattened content of a child list: each child's content with its
/// byte prepended, in list order.
pub open spec fn children_flat(s: Seq<Blob>, children: Seq<(u8, usize)>, bound: int) -> Seq<
    (Seq<u8>, Entry),
>
    decreases bound, children.len(),
{
    if bound < 0 || children.len() == 0 {
        Seq::empty()
    } else {
        let c = children[0];
        let head = if c.1 < bound && c.1 < s.len() {
            prepend_byte(c.0, node_flat(s, blob_map(s[c.1 as int]), c.1 as int))
        } else {
            Seq::empty()
        };
        head + children_flat(s, children.drop_first(), bound)
    }
}

/// A directory entry is meaningful relative to the store: a directory
/// reference points below `bound` at a directory blob and carries that
/// blob's own rollup count, which is at least one.
pub open spec fn entry_ok(s: Seq<Blob>, e: Entry, bound: int) -> bool {
    match e {
        Entry::File => true,
        Entry::Directory(p) => {
            &&& p.id < bound
            &&& p.id < s.len()
            &&& is_dir_blob(s[p.id as int])
            &&& p.rollup == dir_rollup(s[p.id as int])
            &&& p.rollup >= 1
        },
    }
}

pub open spec fn entries_ok(s: Seq<Blob>, es: Seq<(Seq<u8>, Entry)>, bound: int) -> bool {
    forall|k: int| 0 <= k < es.len() ==> #[trigger] entry_ok(s, es[k].1, bound)
}

/// Child bytes strictly increase along the list.
pub open spec fn children_sorted(children: Seq<(u8, usize)>) -> bool {
    forall|i: int, j: int| 0 <= i < j < children.len() ==> children[i].0 < children[j].0
}

/// Well-formed, canonical trie node.  A `Leaf` holds at most `SHARD_CAP`
/// sorted entries; a `Branch` holds more than `SHARD_CAP` entries in total,
/// its count is exact, its child bytes strictly increase, and every child
/// is a non-empty, well-formed fragment blob stored below `bound`.
pub open spec fn node_wf(s: Seq<Blob>, n: MapNode, bound: int) -> bool
    decreases bound, 2int, 0int,
{
    if bound < 0 {
        false
    } else {
        match n {
            MapNode::Leaf { entries } => {
                &&& entries@.len() <= SHARD_CAP
                &&& sorted_strict(entries_view(entries@))
                &&& entries_ok(s, entries_view(entries@), bound)
            },
            MapNode::Branch { count, here, children } => {
                &&& count > SHARD_CAP as u64
                &&& count == node_flat(s, n, bound).len()
                &&& match here {
                    Option::Some(e) => entry_ok(s, e, bound),
                    Option::None => true,
                }
                &&& children_sorted(children@)
                &&& children@.len() > 0
                &&& children_wf(s, children@, bound)
            },
        }
    }
}

pub open spec fn children_wf(s: Seq<Blob>, children: Seq<(u8, usize)>, bound: int) -> bool
    decreases bound, 1int, children.len(),
{
    children.len() == 0 || (child_ok(s, children[0], bound) && children_wf(
        s,
        children.drop_first(),
        bound,
    ))
}

/// One child edge is sound: it points below `bound` at a well-formed,
/// non-empty fragment blob.
pub open spec fn child_ok(s: Seq<Blob>, c: (u8, usize), bound: int) -> bool
    decreases bound, 0int, 0int,
{
    if c.1 < bound && c.1 < s.len() {
        &&& !is_dir_blob(s[c.1 as int])
        &&& node_wf(s, blob_map(s[c.1 as int]), c.1 as int)
        &&& node_flat(s, blob_map(s[c.1 as int]), c.1 as int).len() > 0
    } else {
        false
    }
}

/// Looks a key up in a flat association sequence.
pub open spec fn flat_get(es: Seq<(Seq<u8>, Entry)>, key: Seq<u8>) -> Option<Entry>
    decreases es.len(),
{
    if es.len() == 0 {
        Option::None
    } else if es[0].0 == key {
        Option::Some(es[0].1)
    } else {
        flat_get(es.drop_first(), key)
    }
}

/// Sets (`Some`) or removes (`None`) a key in a sorted flat association
/// sequence, keeping it sorted.
pub open spec fn flat_update(es: Seq<(Seq<u8>, Entry)>, key: Seq<u8>, v: Option<Entry>) -> Seq<
    (Seq<u8>, Entry),
>
    decreases es.len(),
{
    if es.len() == 0 {
        match v {
            Option::Some(e) => seq![(key, e)],
            Option::None => Seq::empty(),
        }
    } else if es[0].0 == key {
        match v {
            Option::Some(e) => seq![(key, e)] + es.drop_first(),
            Option::None => es.drop_first(),
        }
    } else if key_lt(key, es[0].0) {
        match v {
            Option::Some(e) => seq![(key, e)] + es,
            Option::None => es,
        }
    } else {
        seq![es[0]] + flat_update(es.drop_first(), key, v)
    }
}

/// Total contribution of a flat sequence to a rollup count: one per file,
/// a directory's rollup per directory.
pub open spec fn weight(es: Seq<(Seq<u8>, Entry)>) -> int
    decreases es.len(),
{
    if es.len() == 0 {
        0
    } else {
        weight(es.drop_last()) + entry_weight(es.last().1)
    }
}

/// A blob is consistent at position `i` of the store: its trie references
/// only earlier blobs, a directory's rollup count satisfies the rollup
/// equation, and a fragment is never empty.
pub open spec fn blob_ok(s: Seq<Blob>, i: int) -> bool {
    match s[i] {
        Blob::Dir { map, rollup } => {
            &&& node_wf(s, map, i)
            &&& rollup as int == 1 + weight(node_flat(s, map, i))
        },
        Blob::Frag { map } => {
            &&& node_wf(s, map, i)
            &&& node_flat(s, map, i).len() > 0
        },
    }
}

/// `s2` keeps every blob of `s1`, in place, and may append more.
pub open spec fn store_extends(s1: Seq<Blob>, s2: Seq<Blob>) -> bool {
    &&& s2.len() >= s1.len()
    &&& forall|i: int| 0 <= i < s1.len() ==> s2[i] == s1[i]
}

pub proof fn lemma_store_extends_trans(s1: Seq<Blob>, s2: Seq<Blob>, s3: Seq<Blob>)
    requires
        store_extends(s1, s2),
        store_extends(s2, s3),
    ensures
        store_extends(s1, s3),
{
}

pub proof fn lemma_weight_concat(a: Seq<(Seq<u8>, Entry)>, b: Seq<(Seq<u8>, Entry)>)
    ensures
        weight(a + b) == weight(a) + weight(b),
    decreases b.len(),
{
    if b.len() == 0 {
        assert(a + b =~= a);
    } else {
        lemma_weight_concat(a, b.drop_last());
        assert((a + b).drop_last() =~= a + b.drop_last());
        assert((a + b).last() == b.last());
    }
}

/// Under `entries_ok` every entry weighs at least one, so the weight of a
/// flat sequence bounds its length from above.
pub proof fn lemma_weight_ge_len(s_store: Seq<Blob>, es: Seq<(Seq<u8>, Entry)>, bound: int)
    requires
        entries_ok(s_store, es, bound),
    ensures
        weight(es) >= es.len(),
    decreases es.len(),
{
    if es.len() > 0 {
        assert(entry_ok(s_store, es[es.len() - 1].1, bound));
        assert(entries_ok(s_store, es.drop_last(), bound)) by {
            assert(forall|k: int|
                0 <= k < es.drop_last().len() ==> es.drop_last()[k] == es[k]);
        }
        lemma_weight_ge_len(s_store, es.drop_last(), bound);
    }
}

/// Flattening and well-formedness only look at blobs below `bound`, so
/// appending blobs to the store changes neither.
pub proof fn lemma_node_frame(s1: Seq<Blob>, s2: Seq<Blob>, n: MapNode, bound: int)
    requires
        store_extends(s1, s2),
        bound <= s1.len(),
    ensures
        node_flat(s2, n, bound) == node_flat(s1, n, bound),
        node_wf(s1, n, bound) ==> node_wf(s2, n, bound),
    decreases bound, node_measure(n),
{
    if bound >= 0 {
        match n {
            MapNode::Leaf { entries } => {
                assert(entries_ok(s1, entries_view(entries@), bound) ==> entries_ok(
                    s2,
                    entries_view(entries@),
                    bound,
                )) by {
                    if entries_ok(s1, entries_view(entries@), bound) {
                        assert forall|k: int|
                            0 <= k < entries_view(entries@).len() implies #[trigger] entry_ok(
                            s2,
                            entries_view(entries@)[k].1,
                            bound,
                        ) by {
                            assert(entry_ok(s1, entries_view(entries@)[k].1, bound));
                        }
                    }
                }
            },
            MapNode::Branch { count, here, children } => {
                lemma_children_flat_frame(s1, s2, children@, bound);
                if node_wf(s1, n, bound) {
                    assert forall|j: int|
                        0 <= j < children@.len() implies #[trigger] child_ok(
                        s2,
                        children@[j],
                        bound,
                    ) by {
                        lemma_children_wf_at(s1, children@, bound, j);
                        let c = children@[j];
                        assert(s2[c.1 as int] == s1[c.1 as int]);
                        lemma_node_frame(s1, s2, blob_map(s1[c.1 as int]), c.1 as int);
                    }
                    lemma_children_wf_all(s2, children@, bound);
                }
            },
        }
    }
}

/// Flattening a child list only reads blobs below `bound`, so it is stable
/// under growing the store.
pub proof fn lemma_children_flat_frame(
    s1: Seq<Blob>,
    s2: Seq<Blob>,
    children: Seq<(u8, usize)>,
    bound: int,
)
    requires
        store_extends(s1, s2),
        bound <= s1.len(),
    ensures
        children_flat(s2, children, bound) == children_flat(s1, children, bound),
    decreases bound, children.len(),
{
    if bound >= 0 && children.len() > 0 {
        let c = children[0];
        if c.1 < bound && c.1 < s1.len() {
            assert(s2[c.1 as int] == s1[c.1 as int]);
            lemma_node_frame(s1, s2, blob_map(s1[c.1 as int]), c.1 as int);
        }
        lemma_children_flat_frame(s1, s2, children.drop_first(), bound);
    }
}

/// A blob consistent in `s1` stays consistent when the store grows.
pub proof fn lemma_blob_ok_frame(s1: Seq<Blob>, s2: Seq<Blob>, i: int)
    requires
        store_extends(s1, s2),
        0 <= i < s1.len(),
        blob_ok(s1, i),
    ensures
        blob_ok(s2, i),
{
    assert(s2[i] == s1[i]);
    lemma_node_frame(s1, s2, blob_map(s1[i]), i);
}

/// Raising the bound changes nothing: a node well-formed below `b1` is
/// well-formed below any larger `b2`, with the same content.
pub proof fn lemma_node_bound_mono(s: Seq<Blob>, n: MapNode, b1: int, b2: int)
    requires
        0 <= b1 <= b2,
        node_wf(s, n, b1),
    ensures
        node_wf(s, n, b2),
        node_flat(s, n, b2) == node_flat(s, n, b1),
    decreases b1, node_measure(n),
{
    match n {
        MapNode::Leaf { entries } => {
            assert forall|k: int|
                0 <= k < entries_view(entries@).len() implies #[trigger] entry_ok(
                s,
                entries_view(entries@)[k].1,
                b2,
            ) by {
                assert(entry_ok(s, entries_view(entries@)[k].1, b1));
            }
        },
        MapNode::Branch { count, here, children } => {
            lemma_children_flat_bound_mono(s, children@, b1, b2);
            assert forall|j: int|
                0 <= j < children@.len() implies #[trigger] child_ok(s, children@[j], b2) by {
                lemma_children_wf_at(s, children@, b1, j);
            }
            lemma_children_wf_all(s, children@, b2);
        },
    }
}

pub proof fn lemma_flat_get_concat(a: Seq<(Seq<u8>, Entry)>, b: Seq<(Seq<u8>, Entry)>, k: Seq<u8>)
    ensures
        flat_get(a + b, k) == if flat_get(a, k) is Some {
            flat_get(a, k)
        } else {
            flat_get(b, k)
        },
    decreases a.len(),
{
    if a.len() == 0 {
        assert(a + b =~= b);
    } else {
        assert((a + b).drop_first() =~= a.drop_first() + b);
        lemma_flat_get_concat(a.drop_first(), b, k);
    }
}

/// On a prepended sequence a lookup strips the byte: keys that do not start
/// with it are absent.
pub proof fn lemma_flat_get_prepend(bb: u8, es: Seq<(Seq<u8>, Entry)>, k: Seq<u8>)
    ensures
        flat_get(prepend_byte(bb, es), k) == if k.len() > 0 && k[0] == bb {
            flat_get(es, k.drop_first())
        } else {
            Option::<Entry>::None
        },
    decreases es.len(),
{
    if es.len() > 0 {
        assert(prepend_byte(bb, es).drop_first() =~= prepend_byte(bb, es.drop_first()));
        lemma_flat_get_prepend(bb, es.drop_first(), k);
        assert(prepend_byte(bb, es)[0].0 == seq![bb] + es[0].0);
        if k.len() > 0 && k[0] == bb && es[0].0 == k.drop_first() {
            assert(seq![bb] + es[0].0 =~= k);
        }
        if seq![bb] + es[0].0 == k {
            assert(k[0] == bb && k.len() > 0);
            assert(es[0].0 =~= k.drop_first());
        }
    }
}


/// Prepending the same byte to two keys keeps their order.
pub proof fn lemma_key_lt_byte_shift(bb: u8, x: Seq<u8>, y: Seq<u8>)
    ensures
        key_lt(seq![bb] + x, seq![bb] + y) <==> key_lt(x, y),
{
    assert((seq![bb] + x).drop_first() =~= x);
    assert((seq![bb] + y).drop_first() =~= y);
}

/// An update below every key of `a` leaves `a` in place.
pub proof fn lemma_flat_update_skip(
    a: Seq<(Seq<u8>, Entry)>,
    b: Seq<(Seq<u8>, Entry)>,
    k: Seq<u8>,
    v: Option<Entry>,
)
    requires
        forall|j: int| 0 <= j < a.len() ==> key_lt(#[trigger] a[j].0, k),
    ensures
        flat_update(a + b, k, v) == a + flat_update(b, k, v),
    decreases a.len(),
{
    if a.len() == 0 {
        assert(a + b =~= b);
        assert(a + flat_update(b, k, v) =~= flat_update(b, k, v));
    } else {
        let ab = a + b;
        assert(ab[0] == a[0]);
        assert(key_lt(a[0].0, k));
        lemma_key_lt_total(a[0].0, k);
        assert(ab[0].0 != k);
        assert(!key_lt(k, ab[0].0));
        assert(ab.drop_first() =~= a.drop_first() + b);
        lemma_flat_update_skip(a.drop_first(), b, k, v);
        assert(flat_update(a + b, k, v) =~= seq![a[0]] + (a.drop_first() + flat_update(b, k, v)));
        assert(a + flat_update(b, k, v) =~= seq![a[0]] + (a.drop_first() + flat_update(b, k, v)));
    }
}

/// An update whose key comes before every key of `b` inserts in front.
pub proof fn lemma_flat_update_front(b: Seq<(Seq<u8>, Entry)>, k: Seq<u8>, v: Option<Entry>)
    requires
        forall|j: int| 0 <= j < b.len() ==> key_lt(k, #[trigger] b[j].0),
    ensures
        flat_update(b, k, v) == match v {
            Option::Some(e) => seq![(k, e)] + b,
            Option::None => b,
        },
{
    if b.len() == 0 {
        match v {
            Option::Some(e) => {
                assert(seq![(k, e)] + b =~= seq![(k, e)]);
            },
            Option::None => {
            },
        }
    } else {
        assert(key_lt(k, b[0].0));
        lemma_key_lt_total(k, b[0].0);
        assert(b[0].0 != k);
    }
}

pub proof fn lemma_children_flat_bound_mono(
    s: Seq<Blob>,
    children: Seq<(u8, usize)>,
    b1: int,
    b2: int,
)
    requires
        0 <= b1 <= b2,
        children_wf(s, children, b1),
    ensures
        children_flat(s, children, b2) == children_flat(s, children, b1),
    decreases children.len(),
{
    if children.len() > 0 {
        assert(child_ok(s, children[0], b1));
        assert(children[0].1 < b1);
        assert(children_wf(s, children.drop_first(), b1));
        lemma_children_flat_bound_mono(s, children.drop_first(), b1, b2);
        assert(children_flat(s, children, b2) =~= children_flat(s, children, b1));
    } else {
        assert(children_flat(s, children, b2) =~= children_flat(s, children, b1));
    }
}

/// A key below every key of `es` is absent.
pub proof fn lemma_flat_get_lb(es: Seq<(Seq<u8>, Entry)>, k: Seq<u8>)
    requires
        forall|j: int| 0 <= j < es.len() ==> key_lt(k, #[trigger] es[j].0),
    ensures
        flat_get(es, k) is None,
    decreases es.len(),
{
    if es.len() > 0 {
        lemma_key_lt_total(k, es[0].0);
        lemma_flat_get_lb(es.drop_first(), k);
    }
}

/// A key equal to no key of `es` is absent.
pub proof fn lemma_flat_get_absent(es: Seq<(Seq<u8>, Entry)>, k: Seq<u8>)
    requires
        forall|j: int| 0 <= j < es.len() ==> #[trigger] es[j].0 != k,
    ensures
        flat_get(es, k) is None,
    decreases es.len(),
{
    if es.len() > 0 {
        lemma_flat_get_absent(es.drop_first(), k);
    }
}

/// A strict lower bound on the keys of `es` and on `k` bounds the keys of
/// the updated sequence.
pub proof fn lemma_flat_update_lb(es: Seq<(Seq<u8>, Entry)>, k: Seq<u8>, v: Option<Entry>, x: Seq<u8>)
    requires
        key_lt(x, k),
        forall|j: int| 0 <= j < es.len() ==> key_lt(x, #[trigger] es[j].0),
    ensures
        forall|j: int|
            0 <= j < flat_update(es, k, v).len() ==> key_lt(x, #[trigger] flat_update(es, k, v)[j].0),
    decreases es.len(),
{
    let u = flat_update(es, k, v);
    if es.len() == 0 {
    } else if es[0].0 == k || key_lt(k, es[0].0) {
    } else {
        assert(forall|j: int|
            0 <= j < es.drop_first().len() ==> key_lt(x, #[trigger] es.drop_first()[j].0));
        lemma_flat_update_lb(es.drop_first(), k, v, x);
        assert forall|j: int| 0 <= j < u.len() implies key_lt(x, #[trigger] u[j].0) by {
            if j > 0 {
                assert(u[j] == flat_update(es.drop_first(), k, v)[j - 1]);
            }
        }
    }
}

/// Updating a sorted sequence keeps it sorted.
pub proof fn lemma_flat_update_sorted(es: Seq<(Seq<u8>, Entry)>, k: Seq<u8>, v: Option<Entry>)
    requires
        sorted_strict(es),
    ensures
        sorted_strict(flat_update(es, k, v)),
    decreases es.len(),
{
    let u = flat_update(es, k, v);
    if es.len() == 0 {
    } else if es[0].0 == k {
        match v {
            Option::Some(e) => {
                assert forall|i: int, j: int| 0 <= i < j < u.len() implies key_lt(
                    u[i].0,
                    u[j].0,
                ) by {
                    if i > 0 {
                        assert(u[i] == es[i]);
                        assert(u[j] == es[j]);
                    } else {
                        assert(u[j] == es[j]);
                        assert(key_lt(es[0].0, es[j].0));
                    }
                }
            },
            Option::None => {
                assert forall|i: int, j: int| 0 <= i < j < u.len() implies key_lt(
                    u[i].0,
                    u[j].0,
                ) by {
                    assert(u[i] == es[i + 1]);
                    assert(u[j] == es[j + 1]);
                }
            },
        }
    } else if key_lt(k, es[0].0) {
        match v {
            Option::Some(e) => {
                assert forall|i: int, j: int| 0 <= i < j < u.len() implies key_lt(
                    u[i].0,
                    u[j].0,
                ) by {
                    if i > 0 {
                        assert(u[i] == es[i - 1]);
                        assert(u[j] == es[j - 1]);
                    } else {
                        assert(u[j] == es[j - 1]);
                        if j > 1 {
                            lemma_key_lt_trans(k, es[0].0, es[j - 1].0);
                        }
                    }
                }
            },
            Option::None => {
            },
        }
    } else {
        lemma_key_lt_total(k, es[0].0);
        assert(sorted_strict(es.drop_first())) by {
            assert(forall|i: int, j: int|
                0 <= i < j < es.drop_first().len() ==> key_lt(
                    #[trigger] es.drop_first()[i].0,
                    #[trigger] es.drop_first()[j].0,
                ));
        }
        lemma_flat_update_sorted(es.drop_first(), k, v);
        assert(forall|j: int|
            0 <= j < es.drop_first().len() ==> key_lt(es[0].0, #[trigger] es.drop_first()[j].0));
        lemma_flat_update_lb(es.drop_first(), k, v, es[0].0);
        let u2 = flat_update(es.drop_first(), k, v);
        assert forall|i: int, j: int| 0 <= i < j < u.len() implies key_lt(u[i].0, u[j].0) by {
            assert(u[j] == u2[j - 1]);
            if i > 0 {
                assert(u[i] == u2[i - 1]);
            }
        }
    }
}

pub proof fn lemma_weight_head(es: Seq<(Seq<u8>, Entry)>)
    requires
        es.len() > 0,
    ensures
        weight(es) == entry_weight(es[0].1) + weight(es.drop_first()),
    decreases es.len(),
{
    if es.len() == 1 {
        assert(es.drop_last() =~= Seq::<(Seq<u8>, Entry)>::empty());
        assert(es.drop_first() =~= Seq::<(Seq<u8>, Entry)>::empty());
        assert(es.last() == es[0]);
    } else {
        lemma_weight_head(es.drop_last());
        assert(es.drop_last()[0] == es[0]);
        assert(es.drop_last().drop_first() =~= es.drop_first().drop_last());
        assert(es.drop_first().last() == es.last());
    }
}

/// The weight of one optional entry.
pub open spec fn opt_weight(v: Option<Entry>) -> int {
    match v {
        Option::Some(e) => entry_weight(e),
        Option::None => 0,
    }
}

/// How an update changes lookup, length and weight of a sorted sequence.
pub proof fn lemma_flat_update_props(es: Seq<(Seq<u8>, Entry)>, k: Seq<u8>, v: Option<Entry>)
    requires
        sorted_strict(es),
    ensures
        flat_get(flat_update(es, k, v), k) == v,
        forall|k2: Seq<u8>|
            k2 != k ==> #[trigger] flat_get(flat_update(es, k, v), k2) == flat_get(es, k2),
        flat_update(es, k, v).len() == es.len() + (if flat_get(es, k) is Some {
            0int
        } else {
            1int
        }) - (if v is Some {
            0int
        } else {
            1int
        }),
        weight(flat_update(es, k, v)) == weight(es) - opt_weight(flat_get(es, k)) + opt_weight(v),
        flat_get(es, k) is None && v is None ==> flat_update(es, k, v) == es,
    decreases es.len(),
{
    let u = flat_update(es, k, v);
    if es.len() == 0 {
        match v {
            Option::Some(e) => {
                assert(u == seq![(k, e)]);
                assert(u[0] == (k, e));
                assert(u.drop_last() =~= Seq::<(Seq<u8>, Entry)>::empty());
                assert(weight(Seq::<(Seq<u8>, Entry)>::empty()) == 0);
            },
            Option::None => {
                assert(u =~= es);
            },
        }
        assert forall|k2: Seq<u8>| k2 != k implies #[trigger] flat_get(u, k2) == flat_get(
            es,
            k2,
        ) by {
            assert(forall|j: int| 0 <= j < u.len() ==> #[trigger] u[j].0 != k2);
            lemma_flat_get_absent(u, k2);
        }
    } else if es[0].0 == k {
        lemma_weight_head(es);
        match v {
            Option::Some(e) => {
                assert(u == seq![(k, e)] + es.drop_first());
                assert(u.drop_first() =~= es.drop_first());
                lemma_weight_head(u);
            },
            Option::None => {
                lemma_sorted_head_absent(es, k);
            },
        }
        assert(weight(u) == weight(es) - opt_weight(flat_get(es, k)) + opt_weight(v));
        assert forall|k2: Seq<u8>| k2 != k implies #[trigger] flat_get(u, k2) == flat_get(es, k2) by {}
    } else if key_lt(k, es[0].0) {
        assert forall|j: int| 0 <= j < es.len() implies key_lt(k, #[trigger] es[j].0) by {
            if j > 0 {
                lemma_key_lt_trans(k, es[0].0, es[j].0);
            }
        }
        lemma_flat_get_lb(es, k);
        match v {
            Option::Some(e) => {
                assert(u == seq![(k, e)] + es);
                assert(u.drop_first() =~= es);
                lemma_weight_head(u);
                lemma_key_lt_total(k, es[0].0);
            },
            Option::None => {
            },
        }
        assert(weight(u) == weight(es) - opt_weight(flat_get(es, k)) + opt_weight(v));
        assert forall|k2: Seq<u8>| k2 != k implies #[trigger] flat_get(u, k2) == flat_get(es, k2) by {}
    } else {
        lemma_key_lt_total(k, es[0].0);
        assert(sorted_strict(es.drop_first())) by {
            assert(forall|i: int, j: int|
                0 <= i < j < es.drop_first().len() ==> key_lt(
                    #[trigger] es.drop_first()[i].0,
                    #[trigger] es.drop_first()[j].0,
                ));
        }
        lemma_flat_update_props(es.drop_first(), k, v);
        let u2 = flat_update(es.drop_first(), k, v);
        assert(u == seq![es[0]] + u2);
        assert(u.drop_first() =~= u2);
        assert(u[0] == es[0]);
        lemma_weight_head(u);
        lemma_weight_head(es);
        assert forall|k2: Seq<u8>| k2 != k implies #[trigger] flat_get(u, k2) == flat_get(
            es,
            k2,
        ) by {
            assert(flat_get(es.drop_first(), k2) == flat_get(u2, k2));
        }
    }
}

/// The head key of a sorted sequence occurs only at the head.
pub proof fn lemma_sorted_head_absent(es: Seq<(Seq<u8>, Entry)>, k: Seq<u8>)
    requires
        sorted_strict(es),
        es.len() > 0,
        es[0].0 == k,
    ensures
        flat_get(es.drop_first(), k) is None,
{
    assert forall|j: int| 0 <= j < es.drop_first().len() implies #[trigger] es.drop_first()[j].0
        != k by {
        assert(key_lt(es[0].0, es[j + 1].0));
        lemma_key_lt_total(es[0].0, es[j + 1].0);
        assert(es.drop_first()[j] == es[j + 1]);
    }
    lemma_flat_get_absent(es.drop_first(), k);
}

/// Updating with a sound entry keeps every entry sound.
pub proof fn lemma_flat_update_entries_ok(
    s: Seq<Blob>,
    es: Seq<(Seq<u8>, Entry)>,
    k: Seq<u8>,
    v: Option<Entry>,
    bound: int,
)
    requires
        entries_ok(s, es, bound),
        match v {
            Option::Some(e) => entry_ok(s, e, bound),
            Option::None => true,
        },
    ensures
        entries_ok(s, flat_update(es, k, v), bound),
    decreases es.len(),
{
    let u = flat_update(es, k, v);
    assert(forall|j: int| 0 <= j < es.len() ==> #[trigger] entry_ok(s, es[j].1, bound));
    if es.len() == 0 {
        assert forall|j: int| 0 <= j < u.len() implies #[trigger] entry_ok(s, u[j].1, bound) by {}
    } else if es[0].0 == k || key_lt(k, es[0].0) {
        assert forall|j: int| 0 <= j < u.len() implies #[trigger] entry_ok(s, u[j].1, bound) by {
            match v {
                Option::Some(e) => {
                    if es[0].0 == k {
                        if j > 0 {
                            assert(u[j] == es[j]);
                        }
                    } else if !key_lt(k, es[0].0) {
                    } else {
                        if j > 0 {
                            assert(u[j] == es[j - 1]);
                        }
                    }
                },
                Option::None => {
                    if es[0].0 == k {
                        assert(u[j] == es[j + 1]);
                    } else {
                        assert(u[j] == es[j]);
                    }
                },
            }
        }
    } else {
        assert(entries_ok(s, es.drop_first(), bound)) by {
            assert(forall|j: int|
                0 <= j < es.drop_first().len() ==> #[trigger] entry_ok(
                    s,
                    es.drop_first()[j].1,
                    bound,
                ));
        }
        lemma_flat_update_entries_ok(s, es.drop_first(), k, v, bound);
        let u2 = flat_update(es.drop_first(), k, v);
        assert forall|j: int| 0 <= j < u.len() implies #[trigger] entry_ok(s, u[j].1, bound) by {
            if j > 0 {
                assert(u[j] == u2[j - 1]);
                assert(entry_ok(s, u2[j - 1].1, bound));
            }
        }
    }
}



/// Extracts the soundness of one child from a well-formed child list.
pub proof fn lemma_children_wf_at(s: Seq<Blob>, children: Seq<(u8, usize)>, bound: int, j: int)
    requires
        children_wf(s, children, bound),
        0 <= j < children.len(),
    ensures
        child_ok(s, children[j], bound),
    decreases j,
{
    if j > 0 {
        lemma_children_wf_at(s, children.drop_first(), bound, j - 1);
    }
}

/// A child list each of whose children is sound is well-formed.
pub proof fn lemma_children_wf_all(s: Seq<Blob>, children: Seq<(u8, usize)>, bound: int)
    requires
        forall|j: int| 0 <= j < children.len() ==> #[trigger] child_ok(s, children[j], bound),
    ensures
        children_wf(s, children, bound),
    decreases children.len(),
{
    if children.len() > 0 {
        assert(child_ok(s, children[0], bound));
        assert forall|j: int|
            0 <= j < children.drop_first().len() implies #[trigger] child_ok(
            s,
            children.drop_first()[j],
            bound,
        ) by {
            assert(children.drop_first()[j] == children[j + 1]);
            assert(child_ok(s, children[j + 1], bound));
        }
        lemma_children_wf_all(s, children.drop_first(), bound);
    }
}

/// On non-empty keys the first byte decides the order.
pub proof fn lemma_key_lt_first(x: Seq<u8>, y: Seq<u8>)
    requires
        x.len() > 0,
        y.len() > 0,
    ensures
        x[0] < y[0] ==> key_lt(x, y),
        key_lt(x, y) ==> x[0] <= y[0],
{
}

/// Prepending one byte to every key keeps a sequence sorted.
pub proof fn lemma_prepend_sorted(b: u8, es: Seq<(Seq<u8>, Entry)>)
    requires
        sorted_strict(es),
    ensures
        sorted_strict(prepend_byte(b, es)),
{
    let pe = prepend_byte(b, es);
    assert forall|i: int, j: int| 0 <= i < j < pe.len() implies key_lt(pe[i].0, pe[j].0) by {
        assert(key_lt(es[i].0, es[j].0));
        lemma_key_lt_byte_shift(b, es[i].0, es[j].0);
    }
}

/// Splitting a child list splits its flattened content.
pub proof fn lemma_children_flat_split(
    s: Seq<Blob>,
    children: Seq<(u8, usize)>,
    bound: int,
    i: int,
)
    requires
        0 <= i <= children.len(),
    ensures
        children_flat(s, children, bound) == children_flat(s, children.subrange(0, i), bound)
            + children_flat(s, children.subrange(i, children.len() as int), bound),
    decreases i,
{
    if bound < 0 {
        assert(children_flat(s, children.subrange(0, i), bound) =~= Seq::<(Seq<u8>, Entry)>::empty());
        assert(children_flat(s, children, bound) =~= children_flat(
            s,
            children.subrange(0, i),
            bound,
        ) + children_flat(s, children.subrange(i, children.len() as int), bound));
    } else if i == 0 {
        assert(children.subrange(0, 0) =~= Seq::<(u8, usize)>::empty());
        assert(children.subrange(0, children.len() as int) =~= children);
        assert(children_flat(s, children.subrange(0, 0), bound) =~= Seq::<(Seq<u8>, Entry)>::empty());
        assert(children_flat(s, children, bound) =~= children_flat(s, children.subrange(0, 0), bound)
            + children_flat(s, children.subrange(0, children.len() as int), bound));
    } else {
        let rest = children.drop_first();
        lemma_children_flat_split(s, rest, bound, i - 1);
        assert(rest.subrange(0, i - 1) =~= children.subrange(0, i).drop_first());
        assert(rest.subrange(i - 1, rest.len() as int) =~= children.subrange(
            i,
            children.len() as int,
        ));
        let c = children[0];
        assert(children.subrange(0, i)[0] == c);
        let head = if c.1 < bound && c.1 < s.len() {
            prepend_byte(c.0, node_flat(s, blob_map(s[c.1 as int]), c.1 as int))
        } else {
            Seq::<(Seq<u8>, Entry)>::empty()
        };
        assert(children_flat(s, children, bound) == head + children_flat(s, rest, bound));
        assert(children_flat(s, children.subrange(0, i), bound) == head + children_flat(
            s,
            rest.subrange(0, i - 1),
            bound,
        ));
        assert(children_flat(s, children, bound) =~= children_flat(s, children.subrange(0, i), bound)
            + children_flat(s, children.subrange(i, children.len() as int), bound));
    }
}

/// The flattened content of the single child at position `i`.
pub proof fn lemma_children_flat_one(s: Seq<Blob>, children: Seq<(u8, usize)>, bound: int, i: int)
    requires
        0 <= i < children.len(),
    ensures
        children_flat(s, children.subrange(i, i + 1), bound) == if children[i].1 < bound
            && children[i].1 < s.len() {
            prepend_byte(
                children[i].0,
                node_flat(s, blob_map(s[children[i].1 as int]), children[i].1 as int),
            )
        } else {
            Seq::<(Seq<u8>, Entry)>::empty()
        },
{
    let one = children.subrange(i, i + 1);
    assert(one[0] == children[i]);
    assert(one.drop_first() =~= Seq::<(u8, usize)>::empty());
    if bound >= 0 {
        assert(children_flat(s, one.drop_first(), bound) =~= Seq::<(Seq<u8>, Entry)>::empty());
        let c = one[0];
        let head = if c.1 < bound && c.1 < s.len() {
            prepend_byte(c.0, node_flat(s, blob_map(s[c.1 as int]), c.1 as int))
        } else {
            Seq::<(Seq<u8>, Entry)>::empty()
        };
        assert(children_flat(s, one, bound) == head + children_flat(s, one.drop_first(), bound));
        assert(head + Seq::<(Seq<u8>, Entry)>::empty() =~= head);
    } else {
        assert(bound < 0);
        assert(children[i].1 >= 0);
        assert(!(children[i].1 < bound));
    }
}

/// Some child carries this byte.
pub open spec fn byte_in_children(children: Seq<(u8, usize)>, b: u8) -> bool {
    exists|i: int| 0 <= i < children.len() && children[i].0 == b
}

/// A well-formed node flattens to a sorted sequence of sound entries; the
/// flattened content of a child list moreover has non-empty keys whose
/// first bytes all occur in the list.
pub proof fn lemma_node_flat_props(s: Seq<Blob>, n: MapNode, bound: int)
    requires
        node_wf(s, n, bound),
    ensures
        sorted_strict(node_flat(s, n, bound)),
        entries_ok(s, node_flat(s, n, bound), bound),
    decreases bound, 1int, 0int,
{
    match n {
        MapNode::Leaf { entries } => {
        },
        MapNode::Branch { count, here, children } => {
            lemma_children_flat_props(s, children@, bound);
            let cf = children_flat(s, children@, bound);
            let f = node_flat(s, n, bound);
            match here {
                Option::Some(e) => {
                    assert(f == seq![(Seq::<u8>::empty(), e)] + cf);
                    assert forall|i: int, j: int| 0 <= i < j < f.len() implies key_lt(
                        f[i].0,
                        f[j].0,
                    ) by {
                        if i == 0 {
                            assert(f[j] == cf[j - 1]);
                            assert(cf[j - 1].0.len() > 0);
                            assert(f[0].0.len() == 0);
                        } else {
                            assert(f[i] == cf[i - 1]);
                            assert(f[j] == cf[j - 1]);
                        }
                    }
                    assert forall|k: int| 0 <= k < f.len() implies #[trigger] entry_ok(
                        s,
                        f[k].1,
                        bound,
                    ) by {
                        if k > 0 {
                            assert(f[k] == cf[k - 1]);
                            assert(entry_ok(s, cf[k - 1].1, bound));
                        }
                    }
                },
                Option::None => {
                    assert(f == Seq::<(Seq<u8>, Entry)>::empty() + cf);
                    assert(f =~= cf);
                },
            }
        },
    }
}

pub proof fn lemma_children_flat_props(s: Seq<Blob>, children: Seq<(u8, usize)>, bound: int)
    requires
        children_wf(s, children, bound),
        children_sorted(children),
    ensures
        sorted_strict(children_flat(s, children, bound)),
        entries_ok(s, children_flat(s, children, bound), bound),
        forall|k: int|
            0 <= k < children_flat(s, children, bound).len() ==> (#[trigger] children_flat(
                s,
                children,
                bound,
            )[k].0.len() > 0 && byte_in_children(children, children_flat(s, children, bound)[k].0[0])),
    decreases bound, 0int, children.len(),
{
    let cf = children_flat(s, children, bound);
    if children.len() > 0 {
        let c = children[0];
        assert(child_ok(s, c, bound));
        let childf = node_flat(s, blob_map(s[c.1 as int]), c.1 as int);
        let head = prepend_byte(c.0, childf);
        assert(cf == head + children_flat(s, children.drop_first(), bound));
        lemma_node_flat_props(s, blob_map(s[c.1 as int]), c.1 as int);
        lemma_prepend_sorted(c.0, childf);
        assert(children_sorted(children.drop_first())) by {
            assert(forall|i: int, j: int|
                0 <= i < j < children.drop_first().len() ==> children.drop_first()[i].0
                    < children.drop_first()[j].0);
        }
        lemma_children_flat_props(s, children.drop_first(), bound);
        let rest = children_flat(s, children.drop_first(), bound);
        // entries of the head are the child entries, sound below c.1 < bound
        assert forall|k: int| 0 <= k < cf.len() implies #[trigger] entry_ok(s, cf[k].1, bound) by {
            if k < head.len() {
                assert(cf[k] == head[k]);
                assert(head[k].1 == childf[k].1);
                assert(entry_ok(s, childf[k].1, c.1 as int));
            } else {
                assert(cf[k] == rest[k - head.len()]);
                assert(entry_ok(s, rest[k - head.len()].1, bound));
            }
        }
        // keys: non-empty, first byte in the child list
        assert forall|k: int| 0 <= k < cf.len() implies (#[trigger] cf[k].0.len() > 0
            && byte_in_children(children, cf[k].0[0])) by {
            if k < head.len() {
                assert(cf[k] == head[k]);
                assert(head[k].0 == seq![c.0] + childf[k].0);
                assert(cf[k].0[0] == c.0);
                assert(children[0].0 == c.0);
            } else {
                assert(cf[k] == rest[k - head.len()]);
                assert(rest[k - head.len()].0.len() > 0);
                let fb = rest[k - head.len()].0[0];
                assert(byte_in_children(children.drop_first(), fb));
                let w = choose|i: int|
                    0 <= i < children.drop_first().len() && children.drop_first()[i].0 == fb;
                assert(children[w + 1].0 == fb);
            }
        }
        // sortedness across the two segments
        assert forall|i: int, j: int| 0 <= i < j < cf.len() implies key_lt(cf[i].0, cf[j].0) by {
            if i < head.len() && j < head.len() {
                assert(cf[i] == head[i]);
                assert(cf[j] == head[j]);
            } else if i >= head.len() && j >= head.len() {
                assert(cf[i] == rest[i - head.len()]);
                assert(cf[j] == rest[j - head.len()]);
            } else {
                assert(cf[i] == head[i]);
                assert(cf[j] == rest[j - head.len()]);
                assert(head[i].0 == seq![c.0] + childf[i].0);
                assert(cf[i].0[0] == c.0);
                assert(cf[j].0.len() > 0);
                let fb = cf[j].0[0];
                assert(byte_in_children(children.drop_first(), fb));
                let w = choose|i2: int|
                    0 <= i2 < children.drop_first().len() && children.drop_first()[i2].0 == fb;
                assert(children[w + 1].0 == fb);
                assert(children[0].0 < children[w + 1].0);
                lemma_key_lt_first(cf[i].0, cf[j].0);
            }
        }
    } else {
        if bound >= 0 {
            assert(cf =~= Seq::<(Seq<u8>, Entry)>::empty());
        } else {
            assert(cf =~= Seq::<(Seq<u8>, Entry)>::empty());
        }
    }
}

/// Structurally equal nodes have the same content and well-formedness.
pub proof fn lemma_node_eqv_same(s: Seq<Blob>, n1: MapNode, n2: MapNode, bound: int)
    requires
        crate::node::node_eqv(n1, n2),
    ensures
        node_flat(s, n1, bound) == node_flat(s, n2, bound),
        node_wf(s, n1, bound) ==> node_wf(s, n2, bound),
{
    match (n1, n2) {
        (MapNode::Leaf { entries: e1 }, MapNode::Leaf { entries: e2 }) => {
            assert(entries_view(e1@) == entries_view(e2@));
            assert(e1@.len() == entries_view(e1@).len());
            assert(e2@.len() == entries_view(e2@).len());
        },
        (
            MapNode::Branch { count: c1, here: h1, children: ch1 },
            MapNode::Branch { count: c2, here: h2, children: ch2 },
        ) => {
            assert(ch1@ == ch2@);
        },
        _ => {
            assert(false);
        },
    }
}

/// A key found at position `i`, with no earlier occurrence, is what lookup
/// returns.
pub proof fn lemma_flat_get_found(es: Seq<(Seq<u8>, Entry)>, k: Seq<u8>, i: int)
    requires
        0 <= i < es.len(),
        es[i].0 == k,
        forall|j: int| 0 <= j < i ==> #[trigger] es[j].0 != k,
    ensures
        flat_get(es, k) == Option::Some(es[i].1),
    decreases i,
{
    if i > 0 {
        lemma_flat_get_found(es.drop_first(), k, i - 1);
    }
}

/// Looks up one key in a trie node, resolving edge references through the
/// store only along the key's own byte path.
pub fn map_get(st: &Store, n: &MapNode, bound: usize, key: &Vec<u8>) -> (r: Option<Entry>)
    requires
        bound <= st.blobs@.len(),
        node_wf(st.blobs@, *n, bound as int),
    ensures
        r == flat_get(node_flat(st.blobs@, *n, bound as int), key@),
    decreases key@.len(),
{
    let ghost s = st.blobs@;
    let ghost bnd = bound as int;
    let ghost f = node_flat(s, *n, bnd);
    match n {
        MapNode::Leaf { entries } => {
            let ghost ev = entries_view(entries@);
            proof {
                assert(ev == node_flat(st.blobs@, *n, bound as int));
            }
            let mut i: usize = 0;
            while i < entries.len()
                invariant
                    0 <= i <= entries@.len(),
                    ev == entries_view(entries@),
                    ev == node_flat(st.blobs@, *n, bound as int),
                    forall|j: int| 0 <= j < i ==> #[trigger] ev[j].0 != key@,
                decreases entries@.len() - i,
            {
                if key_cmp(&entries[i].0, key) == 0 {
                    proof {
                        lemma_flat_get_found(ev, key@, i as int);
                    }
                    return Option::Some(entries[i].1);
                }
                i = i + 1;
            }
            proof {
                lemma_flat_get_absent(ev, key@);
            }
            Option::None
        },
        MapNode::Branch { count, here, children } => {
            let ghost chs = children@;
            let ghost cf = children_flat(s, chs, bnd);
            let ghost here_seq: Seq<(Seq<u8>, Entry)> = match *here {
                Option::Some(e) => seq![(Seq::<u8>::empty(), e)],
                Option::None => Seq::empty(),
            };
            proof {
                assert(f == here_seq + cf);
                lemma_children_flat_props(s, chs, bnd);
            }
            if key.len() == 0 {
                proof {
                    match *here {
                        Option::Some(e) => {
                            assert(f[0] == (Seq::<u8>::empty(), e));
                            assert(f[0].0 =~= key@);
                        },
                        Option::None => {
                            assert(f =~= cf);
                            assert forall|j: int| 0 <= j < cf.len() implies #[trigger] cf[j].0
                                != key@ by {
                                assert(cf[j].0.len() > 0);
                            }
                            lemma_flat_get_absent(cf, key@);
                        },
                    }
                }
                return *here;
            }
            let b = key[0];
            proof {
                assert(children_wf(s, chs, bnd));
                assert(children_sorted(chs));
                assert(node_flat(s, *n, bnd) == here_seq + cf);
                assert(forall|x: int| 0 <= x < here_seq.len() ==> (#[trigger] here_seq[x]).0.len() == 0);
            }
            let mut i: usize = 0;
            while i < children.len()
                invariant
                    0 <= i <= chs.len(),
                    chs == children@,
                    s == st.blobs@,
                    bnd == bound as int,
                    bound <= st.blobs@.len(),
                    children_wf(s, chs, bnd),
                    children_sorted(chs),
                    cf == children_flat(s, chs, bnd),
                    node_flat(s, *n, bnd) == here_seq + cf,
                    forall|x: int|
                        0 <= x < here_seq.len() ==> (#[trigger] here_seq[x]).0.len() == 0,
                    key@.len() > 0,
                    b == key@[0],
                    forall|j: int| 0 <= j < i ==> #[trigger] chs[j].0 != b,
                decreases chs.len() - i,
            {
                if children[i].0 == b {
                    proof {
                        lemma_children_wf_at(s, chs, bnd, i as int);
                    }
                    let cid = children[i].1;
                    let blob = st.get(cid);
                    let sub: &MapNode = match blob {
                        Blob::Frag { map } => map,
                        Blob::Dir { map, rollup } => map,
                    };
                    let rest = key_suffix(key, 1);
                    proof {
                        assert(rest@ =~= key@.drop_first());
                    }
                    let r = map_get(st, sub, cid, &rest);
                    proof {
                        let j = i as int;
                        let childf = node_flat(s, blob_map(s[chs[j].1 as int]), chs[j].1 as int);
                        let seg = prepend_byte(chs[j].0, childf);
                        lemma_children_flat_split(s, chs, bnd, j);
                        lemma_children_flat_split(s, chs.subrange(j, chs.len() as int), bnd, 1);
                        assert(chs.subrange(j, chs.len() as int).subrange(0, 1) =~= chs.subrange(
                            j,
                            j + 1,
                        ));
                        assert(chs.subrange(j, chs.len() as int).subrange(
                            1,
                            chs.subrange(j, chs.len() as int).len() as int,
                        ) =~= chs.subrange(j + 1, chs.len() as int));
                        lemma_children_flat_one(s, chs, bnd, j);
                        let pre = children_flat(s, chs.subrange(0, j), bnd);
                        let post = children_flat(s, chs.subrange(j + 1, chs.len() as int), bnd);
                        assert(cf == pre + (seg + post));
                        // keys in `pre` carry bytes of earlier children, all below b
                        assert(children_wf(s, chs.subrange(0, j), bnd)) by {
                            assert forall|x: int|
                                0 <= x < chs.subrange(0, j).len() implies #[trigger] child_ok(
                                s,
                                chs.subrange(0, j)[x],
                                bnd,
                            ) by {
                                lemma_children_wf_at(s, chs, bnd, x);
                            }
                            lemma_children_wf_all(s, chs.subrange(0, j), bnd);
                        }
                        lemma_children_flat_props(s, chs.subrange(0, j), bnd);
                        assert forall|x: int| 0 <= x < pre.len() implies #[trigger] pre[x].0
                            != key@ by {
                            assert(pre[x].0.len() > 0);
                            let fb = pre[x].0[0];
                            assert(byte_in_children(chs.subrange(0, j), fb));
                            let w = choose|w: int|
                                0 <= w < chs.subrange(0, j).len() && (#[trigger] chs.subrange(
                                    0,
                                    j,
                                )[w]).0 == fb;
                            assert(chs[w].0 == fb);
                            assert(fb != b);
                        }
                        lemma_flat_get_absent(pre, key@);
                        // keys in `post` carry bytes of later children, all above b
                        assert(children_wf(s, chs.subrange(j + 1, chs.len() as int), bnd)) by {
                            assert forall|x: int|
                                0 <= x < chs.subrange(j + 1, chs.len() as int).len()
                                implies #[trigger] child_ok(
                                s,
                                chs.subrange(j + 1, chs.len() as int)[x],
                                bnd,
                            ) by {
                                lemma_children_wf_at(s, chs, bnd, x + j + 1);
                            }
                            lemma_children_wf_all(s, chs.subrange(j + 1, chs.len() as int), bnd);
                        }
                        lemma_children_flat_props(s, chs.subrange(j + 1, chs.len() as int), bnd);
                        assert forall|x: int| 0 <= x < post.len() implies #[trigger] post[x].0
                            != key@ by {
                            assert(post[x].0.len() > 0);
                            let fb = post[x].0[0];
                            assert(byte_in_children(chs.subrange(j + 1, chs.len() as int), fb));
                            let w = choose|w: int|
                                0 <= w < chs.subrange(j + 1, chs.len() as int).len() && (
                                #[trigger] chs.subrange(j + 1, chs.len() as int)[w]).0 == fb;
                            assert(chs[w + j + 1].0 == fb);
                            assert(fb != b);
                        }
                        lemma_flat_get_absent(post, key@);
                        lemma_flat_get_prepend(chs[j].0, childf, key@);
                        lemma_flat_get_concat(pre, seg + post, key@);
                        lemma_flat_get_concat(seg, post, key@);
                        // the here entry has the empty key, not this one
                        assert forall|x: int| 0 <= x < here_seq.len() implies #[trigger] here_seq[x].0
                            != key@ by {}
                        lemma_flat_get_absent(here_seq, key@);
                        lemma_flat_get_concat(here_seq, cf, key@);
                    }
                    return r;
                }
                i = i + 1;
            }
            proof {
                assert forall|x: int| 0 <= x < cf.len() implies #[trigger] cf[x].0 != key@ by {
                    assert(cf[x].0.len() > 0);
                    let fb = cf[x].0[0];
                    assert(byte_in_children(chs, fb));
                    let w = choose|w: int| 0 <= w < chs.len() && (#[trigger] chs[w]).0 == fb;
                    assert(fb != b);
                }
                lemma_flat_get_absent(cf, key@);
                assert forall|x: int| 0 <= x < here_seq.len() implies #[trigger] here_seq[x].0
                    != key@ by {}
                lemma_flat_get_absent(here_seq, key@);
                lemma_flat_get_concat(here_seq, cf, key@);
            }
            Option::None
        },
    }
}

/// An entry sound below `b1` in `s1` stays sound below a larger bound in a
/// grown store.
pub proof fn lemma_entry_ok_grow(s1: Seq<Blob>, s2: Seq<Blob>, e: Entry, b1: int, b2: int)
    requires
        store_extends(s1, s2),
        entry_ok(s1, e, b1),
        b1 <= s1.len(),
        b1 <= b2,
    ensures
        entry_ok(s2, e, b2),
{
}

/// A sound child edge stays sound in a grown store, with the same content.
pub proof fn lemma_child_ok_grow(s1: Seq<Blob>, s2: Seq<Blob>, c: (u8, usize), b1: int, b2: int)
    requires
        store_extends(s1, s2),
        child_ok(s1, c, b1),
        b1 <= s1.len(),
        b1 <= b2,
    ensures
        child_ok(s2, c, b2),
        node_flat(s2, blob_map(s2[c.1 as int]), c.1 as int) == node_flat(
            s1,
            blob_map(s1[c.1 as int]),
            c.1 as int,
        ),
{
    assert(s2[c.1 as int] == s1[c.1 as int]);
    lemma_node_frame(s1, s2, blob_map(s1[c.1 as int]), c.1 as int);
}

/// A well-formed child list keeps its content and well-formedness when the
/// store grows and the bound widens.
pub proof fn lemma_children_grow(
    s1: Seq<Blob>,
    s2: Seq<Blob>,
    children: Seq<(u8, usize)>,
    b1: int,
    b2: int,
)
    requires
        store_extends(s1, s2),
        children_wf(s1, children, b1),
        0 <= b1 <= s1.len(),
        b1 <= b2 <= s2.len(),
    ensures
        children_wf(s2, children, b2),
        children_flat(s2, children, b2) == children_flat(s1, children, b1),
{
    assert forall|j: int| 0 <= j < children.len() implies #[trigger] child_ok(
        s2,
        children[j],
        b2,
    ) by {
        lemma_children_wf_at(s1, children, b1, j);
        lemma_child_ok_grow(s1, s2, children[j], b1, b2);
    }
    lemma_children_wf_all(s2, children, b2);
    lemma_children_flat_frame(s1, s2, children, b1);
    assert forall|j: int| 0 <= j < children.len() implies #[trigger] child_ok(
        s2,
        children[j],
        b1,
    ) by {
        lemma_children_wf_at(s1, children, b1, j);
        lemma_child_ok_grow(s1, s2, children[j], b1, b1);
    }
    lemma_children_wf_all(s2, children, b1);
    lemma_children_flat_bound_mono(s2, children, b1, b2);
}

/// The longest key in a flat sequence.
pub open spec fn max_key_len(es: Seq<(Seq<u8>, Entry)>) -> nat
    decreases es.len(),
{
    if es.len() == 0 {
        0
    } else {
        let m = max_key_len(es.drop_last());
        if es.last().0.len() > m {
            es.last().0.len()
        } else {
            m
        }
    }
}

pub proof fn lemma_max_key_len_ge(es: Seq<(Seq<u8>, Entry)>, j: int)
    requires
        0 <= j < es.len(),
    ensures
        max_key_len(es) >= es[j].0.len(),
    decreases es.len(),
{
    if j < es.len() - 1 {
        lemma_max_key_len_ge(es.drop_last(), j);
    }
}

pub proof fn lemma_max_key_len_le(es: Seq<(Seq<u8>, Entry)>, m: nat)
    requires
        forall|j: int| 0 <= j < es.len() ==> (#[trigger] es[j].0).len() <= m,
    ensures
        max_key_len(es) <= m,
    decreases es.len(),
{
    if es.len() > 0 {
        lemma_max_key_len_le(es.drop_last(), m);
    }
}


pub proof fn lemma_entries_view_push(s: Seq<(Vec<u8>, Entry)>, p: (Vec<u8>, Entry))
    ensures
        entries_view(s.push(p)) == entries_view(s).push((p.0@, p.1)),
{
    assert forall|x: int| 0 <= x < s.len() + 1 implies entries_view(s.push(p))[x]
        == entries_view(s).push((p.0@, p.1))[x] by {
        if x < s.len() {
            assert(s.push(p)[x] == s[x]);
        } else {
            assert(s.push(p)[x] == p);
        }
    }
    assert(entries_view(s.push(p)) =~= entries_view(s).push((p.0@, p.1)));
}

pub proof fn lemma_prepend_byte_push(b: u8, s: Seq<(Seq<u8>, Entry)>, p: (Seq<u8>, Entry))
    ensures
        prepend_byte(b, s.push(p)) == prepend_byte(b, s).push((seq![b] + p.0, p.1)),
{
    assert forall|x: int| 0 <= x < s.len() + 1 implies prepend_byte(b, s.push(p))[x]
        == prepend_byte(b, s).push((seq![b] + p.0, p.1))[x] by {
        if x < s.len() {
            assert(s.push(p)[x] == s[x]);
        } else {
            assert(s.push(p)[x] == p);
        }
    }
    assert(prepend_byte(b, s.push(p)) =~= prepend_byte(b, s).push((seq![b] + p.0, p.1)));
}

/// The flat sequence a `here` slot contributes.
pub open spec fn opt_here_seq(o: Option<Entry>) -> Seq<(Seq<u8>, Entry)> {
    match o {
        Option::Some(e) => seq![(Seq::<u8>::empty(), e)],
        Option::None => Seq::empty(),
    }
}

/// Reads the whole content of a node out of the store, in sorted order.
pub fn flatten(st: &Store, n: &MapNode, bound: usize) -> (v: Vec<(Vec<u8>, Entry)>)
    requires
        bound <= st.blobs@.len(),
        node_wf(st.blobs@, *n, bound as int),
    ensures
        entries_view(v@) == node_flat(st.blobs@, *n, bound as int),
    decreases bound,
{
    let ghost s = st.blobs@;
    let ghost bnd = bound as int;
    match n {
        MapNode::Leaf { entries } => {
            let mut v: Vec<(Vec<u8>, Entry)> = Vec::new();
            let mut i: usize = 0;
            while i < entries.len()
                invariant
                    0 <= i <= entries@.len(),
                    entries_view(v@) == entries_view(entries@).subrange(0, i as int),
                    entries_view(entries@) == node_flat(st.blobs@, *n, bound as int),
                decreases entries@.len() - i,
            {
                let ghost vp = v@;
                let k = key_copy(&entries[i].0);
                let e = entries[i].1;
                v.push((k, e));
                proof {
                    lemma_entries_view_push(vp, (k, e));
                    assert(entries_view(entries@).subrange(0, i + 1) =~= entries_view(
                        entries@,
                    ).subrange(0, i as int).push(entries_view(entries@)[i as int]));
                    assert((k@, e) == entries_view(entries@)[i as int]);
                }
                i = i + 1;
            }
            proof {
                assert(entries_view(entries@).subrange(0, entries@.len() as int) =~= entries_view(
                    entries@,
                ));
            }
            v
        },
        MapNode::Branch { count, here, children } => {
            let ghost chs = children@;
            let ghost here_seq = opt_here_seq(*here);
            let mut v: Vec<(Vec<u8>, Entry)> = Vec::new();
            match here {
                Option::Some(e) => {
                    let empty_key: Vec<u8> = Vec::new();
                    v.push((empty_key, *e));
                },
                Option::None => {},
            }
            proof {
                assert(chs.subrange(0, 0) =~= Seq::<(u8, usize)>::empty());
                assert(children_flat(s, chs.subrange(0, 0), bnd) =~= Seq::<(Seq<u8>, Entry)>::empty());
                assert(entries_view(v@) =~= here_seq + children_flat(s, chs.subrange(0, 0), bnd));
            }
            let mut i: usize = 0;
            while i < children.len()
                invariant
                    0 <= i <= chs.len(),
                    chs == children@,
                    s == st.blobs@,
                    bnd == bound as int,
                    bound <= st.blobs@.len(),
                    children_wf(s, chs, bnd),
                    entries_view(v@) == here_seq + children_flat(s, chs.subrange(0, i as int), bnd),
                    node_flat(s, *n, bnd) == here_seq + children_flat(s, chs, bnd),
                decreases chs.len() - i,
            {
                proof {
                    lemma_children_wf_at(s, chs, bnd, i as int);
                }
                let b = children[i].0;
                let cid = children[i].1;
                let blob = st.get(cid);
                let sub: &MapNode = match blob {
                    Blob::Frag { map } => map,
                    Blob::Dir { map, rollup } => map,
                };
                let cv = flatten(st, sub, cid);
                let ghost childf = node_flat(s, blob_map(s[cid as int]), cid as int);
                let mut k2: usize = 0;
                while k2 < cv.len()
                    invariant
                        0 <= k2 <= cv@.len(),
                        entries_view(cv@) == childf,
                        entries_view(v@) == here_seq + children_flat(s, chs.subrange(0, i as int), bnd)
                            + prepend_byte(b, childf.subrange(0, k2 as int)),
                        0 <= i < chs.len(),
                        chs == children@,
                        s == st.blobs@,
                        bnd == bound as int,
                        bound <= st.blobs@.len(),
                        children_wf(s, chs, bnd),
                        node_flat(s, *n, bnd) == here_seq + children_flat(s, chs, bnd),
                        b == chs[i as int].0,
                        cid == chs[i as int].1,
                    decreases cv@.len() - k2,
                {
                    let ghost vp = v@;
                    let pk = key_prepend(b, &cv[k2].0);
                    let ce = cv[k2].1;
                    v.push((pk, ce));
                    proof {
                        lemma_entries_view_push(vp, (pk, ce));
                        assert(childf.subrange(0, k2 + 1) =~= childf.subrange(0, k2 as int).push(
                            childf[k2 as int],
                        ));
                        lemma_prepend_byte_push(b, childf.subrange(0, k2 as int), childf[k2 as int]);
                        assert(childf[k2 as int] == (cv@[k2 as int].0@, cv@[k2 as int].1));
                        assert((pk@, ce) == (seq![b] + childf[k2 as int].0, childf[k2 as int].1));
                        let base = here_seq + children_flat(s, chs.subrange(0, i as int), bnd);
                        assert(entries_view(vp) == base + prepend_byte(
                            b,
                            childf.subrange(0, k2 as int),
                        ));
                        assert(entries_view(v@) =~= base + prepend_byte(
                            b,
                            childf.subrange(0, k2 as int),
                        ).push((pk@, ce)));
                        assert(entries_view(v@) =~= base + prepend_byte(
                            b,
                            childf.subrange(0, k2 + 1),
                        ));
                    }
                    k2 = k2 + 1;
                }
                proof {
                    lemma_children_wf_at(s, chs, bnd, i as int);
                    assert(childf.subrange(0, childf.len() as int) =~= childf);
                    lemma_children_flat_split(s, chs.subrange(0, i + 1), bnd, i as int);
                    assert(chs.subrange(0, i + 1).subrange(0, i as int) =~= chs.subrange(
                        0,
                        i as int,
                    ));
                    assert(chs.subrange(0, i + 1).subrange(i as int, i + 1) =~= chs.subrange(
                        i as int,
                        i + 1,
                    ));
                    lemma_children_flat_one(s, chs, bnd, i as int);
                    assert(entries_view(v@) =~= here_seq + children_flat(
                        s,
                        chs.subrange(0, i + 1),
                        bnd,
                    ));
                }
                i = i + 1;
            }
            proof {
                assert(chs.subrange(0, chs.len() as int) =~= chs);
            }
            v
        },
    }
}

/// Builds the canonical trie for a sorted mapping, storing every fragment
/// blob it creates and queueing its write: a small mapping becomes a
/// `Leaf`, a large one a `Branch` split by first byte, so the shape is a
/// function of the key/value set alone.
pub fn from_entries(
    st: &mut Store,
    queue: &mut Vec<usize>,
    entries: Vec<(Vec<u8>, Entry)>,
) -> (n: MapNode)
    requires
        store_wf(*old(st)),
        queue_wf(old(queue)@, old(st).blobs@),
        sorted_strict(entries_view(entries@)),
        entries_ok(old(st).blobs@, entries_view(entries@), old(st).blobs@.len() as int),
    ensures
        store_wf(*final(st)),
        queue_wf(final(queue)@, final(st).blobs@),
        step_ok(*old(st), old(queue)@, *final(st), final(queue)@),
        node_wf(final(st).blobs@, n, final(st).blobs@.len() as int),
        node_flat(final(st).blobs@, n, final(st).blobs@.len() as int) == entries_view(entries@),
    decreases max_key_len(entries_view(entries@)),
{
    let ghost ev = entries_view(entries@);
    if entries.len() <= SHARD_CAP {
        proof {
            crate::store::lemma_step_ok_refl(*st, queue@);
        }
        return MapNode::Leaf { entries };
    }
    let count: u64 = entries.len() as u64;
    let mut here: Option<Entry> = Option::None;
    let mut i: usize = 0;
    if entries[0].0.len() == 0 {
        here = Option::Some(entries[0].1);
        i = 1;
    }
    let ghost i0 = i as int;
    proof {
        assert forall|j: int| i0 <= j < ev.len() implies (#[trigger] ev[j]).0.len() > 0 by {
            if j > 0 {
                assert(key_lt(ev[0].0, ev[j].0));
                if ev[j].0.len() == 0 {
                    assert(!key_lt(ev[0].0, ev[j].0));
                }
            }
        }
        if i0 == 1 {
            assert(ev[0].0 =~= Seq::<u8>::empty());
        }
        assert(opt_here_seq(here) =~= ev.subrange(0, i0));
    }
    let mut children: Vec<(u8, usize)> = Vec::new();
    proof {
        assert(children_flat(st.blobs@, children@, st.blobs@.len() as int) =~= Seq::<
            (Seq<u8>, Entry),
        >::empty());
        assert(opt_here_seq(here) + children_flat(st.blobs@, children@, st.blobs@.len() as int)
            =~= ev.subrange(0, i0));
        crate::store::lemma_step_ok_refl(*st, queue@);
    }
    while i < entries.len()
        invariant
            i0 <= i <= entries@.len(),
            ev == entries_view(entries@),
            sorted_strict(ev),
            entries@.len() > SHARD_CAP,
            count == entries@.len() as u64,
            store_wf(*st),
            queue_wf(queue@, st.blobs@),
            step_ok(*old(st), old(queue)@, *st, queue@),
            old(st).blobs@.len() <= st.blobs@.len(),
            entries_ok(old(st).blobs@, ev, old(st).blobs@.len() as int),
            forall|j: int| i0 <= j < ev.len() ==> (#[trigger] ev[j]).0.len() > 0,
            opt_here_seq(here) == ev.subrange(0, i0),
            children_sorted(children@),
            children_wf(st.blobs@, children@, st.blobs@.len() as int),
            opt_here_seq(here) + children_flat(st.blobs@, children@, st.blobs@.len() as int)
                == ev.subrange(0, i as int),
            i < entries@.len() ==> forall|k: int|
                0 <= k < children@.len() ==> (#[trigger] children@[k]).0 < ev[i as int].0[0],
        decreases entries@.len() - i,
    {
        let ghost st_a = *st;
        let ghost s1 = st.blobs@;
        let ghost q1 = queue@;
        let ghost ch_old = children@;
        let b = entries[i].0[0];
        let mut grp: Vec<(Vec<u8>, Entry)> = Vec::new();
        let mut j: usize = i;
        proof {
            assert(prepend_byte(b, entries_view(grp@)) =~= ev.subrange(i as int, i as int));
        }
        while j < entries.len() && entries[j].0.len() > 0 && entries[j].0[0] == b
            invariant
                i0 <= i <= j <= entries@.len(),
                i < entries@.len(),
                ev == entries_view(entries@),
                sorted_strict(ev),
                forall|x: int| i0 <= x < ev.len() ==> (#[trigger] ev[x]).0.len() > 0,
                b == ev[i as int].0[0],
                forall|x: int| i <= x < j ==> (#[trigger] ev[x]).0.len() > 0 && ev[x].0[0] == b,
                prepend_byte(b, entries_view(grp@)) == ev.subrange(i as int, j as int),
            decreases entries@.len() - j,
        {
            let ghost gp = grp@;
            let sk = key_suffix(&entries[j].0, 1);
            let e2 = entries[j].1;
            grp.push((sk, e2));
            proof {
                lemma_entries_view_push(gp, (sk, e2));
                assert(sk@ =~= ev[j as int].0.drop_first());
                lemma_prepend_byte_push(b, entries_view(gp), (sk@, e2));
                assert(seq![b] + sk@ =~= ev[j as int].0);
                assert(ev.subrange(i as int, j + 1) =~= ev.subrange(i as int, j as int).push(
                    ev[j as int],
                ));
                assert(prepend_byte(b, entries_view(grp@)) =~= ev.subrange(i as int, j + 1));
            }
            j = j + 1;
        }
        proof {
            // the group is a non-empty contiguous run with first byte b
            assert(j > i) by {
                assert(ev[i as int].0.len() > 0);
            }
            // the entry after the group, if any, starts with a larger byte
            if (j as int) < ev.len() {
                assert(ev[j as int].0.len() > 0);
                assert(key_lt(ev[i as int].0, ev[j as int].0));
                lemma_key_lt_first(ev[i as int].0, ev[j as int].0);
                assert(ev[j as int].0[0] != b);
                assert(ev[j as int].0[0] > b);
            }
        }
        let ghost gv = entries_view(grp@);
        proof {
            // group facts: stripped keys, sorted, sound entries, shorter keys
            assert(prepend_byte(b, gv) == ev.subrange(i as int, j as int));
            assert(gv.len() == j - i);
            assert forall|x: int| 0 <= x < gv.len() implies #[trigger] gv[x]
                == (ev[i + x].0.drop_first(), ev[i + x].1) by {
                assert(prepend_byte(b, gv)[x] == ev.subrange(i as int, j as int)[x]);
                assert(seq![b] + gv[x].0 == ev[i + x].0);
                assert((seq![b] + gv[x].0).drop_first() =~= gv[x].0);
                assert(ev[i + x].0.drop_first() =~= gv[x].0);
            }
            assert(sorted_strict(gv)) by {
                assert forall|x: int, y: int| 0 <= x < y < gv.len() implies key_lt(
                    gv[x].0,
                    gv[y].0,
                ) by {
                    assert(key_lt(ev[i + x].0, ev[i + y].0));
                    lemma_key_lt_byte_shift(b, gv[x].0, gv[y].0);
                    assert(seq![b] + gv[x].0 == ev[i + x].0);
                    assert(seq![b] + gv[y].0 == ev[i + y].0);
                }
            }
            assert(entries_ok(st.blobs@, gv, st.blobs@.len() as int)) by {
                assert forall|x: int| 0 <= x < gv.len() implies #[trigger] entry_ok(
                    st.blobs@,
                    gv[x].1,
                    st.blobs@.len() as int,
                ) by {
                    assert(entry_ok(old(st).blobs@, ev[i + x].1, old(st).blobs@.len() as int));
                    lemma_entry_ok_grow(
                        old(st).blobs@,
                        st.blobs@,
                        ev[i + x].1,
                        old(st).blobs@.len() as int,
                        st.blobs@.len() as int,
                    );
                }
            }
            // termination: every stripped key is shorter than the longest key
            let m = max_key_len(ev);
            assert forall|x: int| 0 <= x < gv.len() implies (#[trigger] gv[x].0).len() <= m
                - 1 by {
                lemma_max_key_len_ge(ev, i + x);
            }
            assert(m >= 1) by {
                lemma_max_key_len_ge(ev, i as int);
            }
            lemma_max_key_len_le(gv, (m - 1) as nat);
        }
        let child = from_entries(st, queue, grp);
        let ghost st_b = *st;
        let ghost s2 = st.blobs@;
        let ghost q2 = queue@;
        proof {
            // the fragment to be stored is consistent at the end of the store
            assert(blob_ok(s2.push(Blob::Frag { map: child }), s2.len() as int)) by {
                lemma_node_frame(s2, s2.push(Blob::Frag { map: child }), child, s2.len() as int);
                assert(node_flat(
                    s2.push(Blob::Frag { map: child }),
                    child,
                    s2.len() as int,
                ) == gv);
                assert(gv.len() > 0);
            }
        }
        let cid = st.put(Blob::Frag { map: child });
        queue.push(cid);
        let ghost s3 = st.blobs@;
        let ghost q3 = queue@;
        children.push((b, cid));
        proof {
            // the stored fragment carries the group's content at bound cid
            let stored = blob_map(s3[cid as int]);
            assert(crate::node::blob_eqv(s3[cid as int], Blob::Frag { map: child }));
            assert(!is_dir_blob(s3[cid as int]));
            assert(crate::node::node_eqv(stored, child));
            if cid < s2.len() {
                assert(s3 == s2);
                assert(blob_ok(s3, cid as int));
                assert(node_wf(s3, stored, cid as int));
                lemma_node_bound_mono(s3, stored, cid as int, s3.len() as int);
                lemma_node_eqv_same(s3, stored, child, s3.len() as int);
                assert(node_flat(s3, stored, cid as int) == gv);
            } else {
                assert(cid == s2.len());
                assert(s3 == s2.push(Blob::Frag { map: child }));
                lemma_node_frame(s2, s3, child, s2.len() as int);
                lemma_node_eqv_same(s3, child, stored, cid as int);
                assert(node_wf(s3, stored, cid as int));
                lemma_node_bound_mono(s3, stored, cid as int, s3.len() as int);
                assert(node_flat(s3, stored, cid as int) == gv);
            }
            assert(node_flat(s3, stored, cid as int).len() > 0);
            assert(child_ok(s3, (b, cid), s3.len() as int)) by {
                assert(node_wf(s3, stored, cid as int));
            }
            // older children keep their soundness and content
            let chp = children@.drop_last();
            assert(chp =~= children@.subrange(0, children@.len() - 1));
            assert(chp =~= ch_old);
            lemma_children_grow(s1, s3, chp, s1.len() as int, s3.len() as int);
            assert forall|k: int| 0 <= k < children@.len() implies #[trigger] child_ok(
                s3,
                children@[k],
                s3.len() as int,
            ) by {
                if k < children@.len() - 1 {
                    assert(children@[k] == chp[k]);
                    lemma_children_wf_at(s3, chp, s3.len() as int, k);
                } else {
                    assert(children@[k] == (b, cid));
                }
            }
            lemma_children_wf_all(s3, children@, s3.len() as int);
            // bytes stay strictly increasing
            assert forall|x: int, y: int| 0 <= x < y < children@.len() implies children@[x].0
                < children@[y].0 by {
                if y < children@.len() - 1 {
                    assert(children@[x] == chp[x]);
                    assert(children@[y] == chp[y]);
                } else {
                    assert(children@[y] == (b, cid));
                    assert(children@[x] == chp[x]);
                }
            }
            // content: the new child appends the group's run
            lemma_children_flat_split(s3, children@, s3.len() as int, children@.len() - 1);
            assert(children@.subrange(0, children@.len() - 1) =~= chp);
            lemma_children_flat_one(s3, children@, s3.len() as int, children@.len() - 1);
            assert(children@[children@.len() - 1] == (b, cid));
            assert(children@[children@.len() - 1].1 == cid);
            assert(children@[children@.len() - 1].0 == b);
            assert(cid < s3.len());
            assert(children_flat(
                s3,
                children@.subrange(children@.len() - 1, children@.len() as int),
                s3.len() as int,
            ) == prepend_byte(b, node_flat(s3, blob_map(s3[cid as int]), cid as int)));
            assert(children_flat(
                s3,
                children@.subrange(children@.len() - 1, children@.len() as int),
                s3.len() as int,
            ) == prepend_byte(b, gv));
            assert(children_flat(s3, children@, s3.len() as int) == children_flat(
                s3,
                children@.subrange(0, children@.len() - 1),
                s3.len() as int,
            ) + children_flat(
                s3,
                children@.subrange(children@.len() - 1, children@.len() as int),
                s3.len() as int,
            ));
            assert(children_flat(s3, children@.subrange(0, children@.len() - 1), s3.len() as int)
                == children_flat(s3, chp, s3.len() as int));
            assert(children_flat(s3, children@, s3.len() as int) == children_flat(
                s3,
                chp,
                s3.len() as int,
            ) + prepend_byte(b, gv));
            assert(prepend_byte(b, gv) == ev.subrange(i as int, j as int));
            assert(children_flat(s3, chp, s3.len() as int) == children_flat(
                s1,
                ch_old,
                s1.len() as int,
            ));
            assert(opt_here_seq(here) + children_flat(s1, ch_old, s1.len() as int)
                == ev.subrange(0, i as int));
            assert(ev.subrange(0, i as int) + ev.subrange(i as int, j as int) =~= ev.subrange(
                0,
                j as int,
            ));
            assert(opt_here_seq(here) + children_flat(s3, children@, s3.len() as int)
                =~= ev.subrange(0, j as int));
            // the step bundle composes
            assert(step_ok(st_b, q2, *st, queue@)) by {
                assert(queue@ == q2.push(cid));
                assert forall|x: int| s2.len() <= x < s3.len() implies crate::store::queued(
                    queue@,
                    x,
                ) by {
                    assert(queue@[queue@.len() - 1] == cid);
                    assert(cid as int == x);
                }
            }
            crate::store::lemma_step_ok_trans(*old(st), old(queue)@, st_a, q1, st_b, q2);
            crate::store::lemma_step_ok_trans(*old(st), old(queue)@, st_b, q2, *st, queue@);
            assert(queue_wf(queue@, s3)) by {
                assert forall|x: int| 0 <= x < queue@.len() implies (#[trigger] queue@[x])
                    < s3.len() by {
                    if x < q2.len() {
                        assert(queue@[x] == q2[x]);
                    } else {
                        assert(queue@[x] == cid);
                    }
                }
            }
            // the next group, if any, starts with a byte above everything stored
            if (j as int) < ev.len() {
                assert forall|k: int|
                    0 <= k < children@.len() implies (#[trigger] children@[k]).0
                    < ev[j as int].0[0] by {
                    if k < children@.len() - 1 {
                        assert(children@[k] == chp[k]);
                    } else {
                        assert(children@[k] == (b, cid));
                    }
                }
            }
        }
        i = j;
    }
    let n = MapNode::Branch { count, here, children };
    proof {
        assert(ev.subrange(0, ev.len() as int) =~= ev);
        assert(node_flat(st.blobs@, n, st.blobs@.len() as int) == opt_here_seq(here)
            + children_flat(st.blobs@, children@, st.blobs@.len() as int));
        assert(node_flat(st.blobs@, n, st.blobs@.len() as int) == ev);
        match here {
            Option::Some(e) => {
                assert(entry_ok(old(st).blobs@, ev[0].1, old(st).blobs@.len() as int));
                lemma_entry_ok_grow(
                    old(st).blobs@,
                    st.blobs@,
                    e,
                    old(st).blobs@.len() as int,
                    st.blobs@.len() as int,
                );
            },
            Option::None => {},
        }
        assert(children@.len() > 0) by {
            assert(ev.len() > SHARD_CAP);
            assert(ev.subrange(0, i0).len() <= 1);
        }
        assert(count as int == ev.len());
        assert(node_wf(st.blobs@, n, st.blobs@.len() as int));
    }
    n
}

/// Construction is canonical: in a consistent store, two well-formed nodes
/// with the same flattened content are structurally identical, down to the
/// content addresses of their shards.
pub proof fn lemma_canonical_unique(s: Seq<Blob>, n1: MapNode, n2: MapNode, b1: int, b2: int)
    requires
        forall|i: int| 0 <= i < s.len() ==> blob_ok(s, i),
        forall|i: int, j: int| 0 <= i < j < s.len() ==> !blob_eqv(s[i], s[j]),
        node_wf(s, n1, b1),
        node_wf(s, n2, b2),
        node_flat(s, n1, b1) == node_flat(s, n2, b2),
    ensures
        node_eqv(n1, n2),
    decreases b1, b2, node_measure(n1),
{
    let f = node_flat(s, n1, b1);
    match (n1, n2) {
        (MapNode::Leaf { entries: e1 }, MapNode::Leaf { entries: e2 }) => {
            assert(entries_view(e1@) == entries_view(e2@));
        },
        (MapNode::Leaf { entries: e1 }, MapNode::Branch { count: c2, here: h2, children: ch2 }) => {
            assert(f.len() <= SHARD_CAP);
            assert(f.len() == c2);
            assert(false);
        },
        (MapNode::Branch { count: c1, here: h1, children: ch1 }, MapNode::Leaf { entries: e2 }) => {
            assert(f.len() > SHARD_CAP);
            assert(f.len() <= SHARD_CAP);
            assert(false);
        },
        (
            MapNode::Branch { count: c1, here: h1, children: ch1 },
            MapNode::Branch { count: c2, here: h2, children: ch2 },
        ) => {
            assert(c1 == f.len() && c2 == f.len());
            lemma_children_flat_props(s, ch1@, b1);
            lemma_children_flat_props(s, ch2@, b2);
            let cf1 = children_flat(s, ch1@, b1);
            let cf2 = children_flat(s, ch2@, b2);
            assert(f.len() > 0);
            match (h1, h2) {
                (Option::Some(e1), Option::Some(e2)) => {
                    assert(f[0] == (Seq::<u8>::empty(), e1));
                    assert(f[0] == (Seq::<u8>::empty(), e2));
                    assert(e1 == e2);
                    assert(cf1 =~= f.drop_first());
                    assert(cf2 =~= f.drop_first());
                },
                (Option::Some(e1), Option::None) => {
                    assert(f[0] == (Seq::<u8>::empty(), e1));
                    assert(f =~= cf2);
                    assert(cf2[0].0.len() > 0);
                    assert(false);
                },
                (Option::None, Option::Some(e2)) => {
                    assert(f[0] == (Seq::<u8>::empty(), e2));
                    assert(f =~= cf1);
                    assert(cf1[0].0.len() > 0);
                    assert(false);
                },
                (Option::None, Option::None) => {
                    assert(cf1 =~= f);
                    assert(cf2 =~= f);
                },
            }
            lemma_children_unique(s, ch1@, ch2@, b1, b2);
            assert(ch1@ == ch2@);
        },
    }
}

/// Two sorted, well-formed child lists with the same flattened content are
/// the same list.
pub proof fn lemma_children_unique(
    s: Seq<Blob>,
    ch1: Seq<(u8, usize)>,
    ch2: Seq<(u8, usize)>,
    b1: int,
    b2: int,
)
    requires
        forall|i: int| 0 <= i < s.len() ==> blob_ok(s, i),
        forall|i: int, j: int| 0 <= i < j < s.len() ==> !blob_eqv(s[i], s[j]),
        0 <= b1,
        0 <= b2,
        children_wf(s, ch1, b1),
        children_wf(s, ch2, b2),
        children_sorted(ch1),
        children_sorted(ch2),
        children_flat(s, ch1, b1) == children_flat(s, ch2, b2),
    ensures
        ch1 == ch2,
    decreases b1, b2, ch1.len(),
{
    let cf = children_flat(s, ch1, b1);
    if ch1.len() == 0 && ch2.len() == 0 {
        assert(ch1 =~= ch2);
    } else if ch1.len() == 0 {
        assert(child_ok(s, ch2[0], b2));
        lemma_children_flat_split(s, ch2, b2, 1);
        lemma_children_flat_one(s, ch2, b2, 0);
        assert(ch2.subrange(0, 1) =~= ch2.subrange(0, 1));
        assert(children_flat(s, ch2, b2).len() > 0);
        assert(cf =~= Seq::<(Seq<u8>, Entry)>::empty());
        assert(false);
    } else if ch2.len() == 0 {
        assert(child_ok(s, ch1[0], b1));
        lemma_children_flat_split(s, ch1, b1, 1);
        lemma_children_flat_one(s, ch1, b1, 0);
        assert(children_flat(s, ch1, b1).len() > 0);
        assert(children_flat(s, ch2, b2) =~= Seq::<(Seq<u8>, Entry)>::empty());
        assert(false);
    } else {
        assert(child_ok(s, ch1[0], b1));
        assert(child_ok(s, ch2[0], b2));
        let m1 = blob_map(s[ch1[0].1 as int]);
        let m2 = blob_map(s[ch2[0].1 as int]);
        let f1 = node_flat(s, m1, ch1[0].1 as int);
        let f2 = node_flat(s, m2, ch2[0].1 as int);
        let seg1 = prepend_byte(ch1[0].0, f1);
        let seg2 = prepend_byte(ch2[0].0, f2);
        let rest1 = children_flat(s, ch1.drop_first(), b1);
        let rest2 = children_flat(s, ch2.drop_first(), b2);
        assert(cf == seg1 + rest1);
        assert(children_flat(s, ch2, b2) == seg2 + rest2);
        // the shared head byte
        assert(cf[0] == seg1[0]);
        assert(seg1[0].0 == seq![ch1[0].0] + f1[0].0);
        assert(seg2[0].0 == seq![ch2[0].0] + f2[0].0);
        assert(cf[0].0[0] == ch1[0].0);
        assert(cf[0].0[0] == ch2[0].0);
        let b = ch1[0].0;
        // the head segments cover exactly the run of keys starting with b
        assert forall|x: int| 0 <= x < rest1.len() implies (#[trigger] rest1[x]).0.len() > 0
            && rest1[x].0[0] > b by {
            lemma_children_tail_props(s, ch1, b1, x);
        }
        assert forall|x: int| 0 <= x < rest2.len() implies (#[trigger] rest2[x]).0.len() > 0
            && rest2[x].0[0] > b by {
            lemma_children_tail_props(s, ch2, b2, x);
        }
        assert forall|x: int| 0 <= x < seg1.len() implies (#[trigger] seg1[x]).0[0] == b by {
            assert(seg1[x].0 == seq![b] + f1[x].0);
        }
        assert forall|x: int| 0 <= x < seg2.len() implies (#[trigger] seg2[x]).0[0] == b by {
            assert(seg2[x].0 == seq![b] + f2[x].0);
        }
        if seg1.len() < seg2.len() {
            assert(cf[seg1.len() as int] == rest1[0]);
            assert(cf[seg1.len() as int] == seg2[seg1.len() as int]);
            assert(false);
        }
        if seg2.len() < seg1.len() {
            assert(cf[seg2.len() as int] == rest2[0]);
            assert(cf[seg2.len() as int] == seg1[seg2.len() as int]);
            assert(false);
        }
        assert(seg1.len() == seg2.len());
        assert forall|x: int| 0 <= x < seg1.len() implies #[trigger] seg1[x] == seg2[x] by {
            assert(cf[x] == seg1[x]);
            assert(children_flat(s, ch2, b2)[x] == seg2[x]);
        }
        assert(seg1 =~= seg2);
        assert(rest1.len() == rest2.len());
        assert forall|x: int| 0 <= x < rest1.len() implies #[trigger] rest1[x] == rest2[x] by {
            assert(cf[seg1.len() + x] == rest1[x]);
            assert(children_flat(s, ch2, b2)[seg2.len() + x] == rest2[x]);
        }
        assert(rest1 =~= rest2);
        // equal segments strip to equal child contents
        assert forall|x: int| 0 <= x < f1.len() implies #[trigger] f1[x] == f2[x] by {
            assert(seg1[x] == seg2[x]);
            assert(seq![b] + f1[x].0 == seq![b] + f2[x].0);
            assert((seq![b] + f1[x].0).drop_first() =~= f1[x].0);
            assert((seq![b] + f2[x].0).drop_first() =~= f2[x].0);
        }
        assert(f1 =~= f2);
        // identical content, canonical shape, interned storage: one address
        lemma_canonical_unique(s, m1, m2, ch1[0].1 as int, ch2[0].1 as int);
        assert(blob_eqv(s[ch1[0].1 as int], s[ch2[0].1 as int])) by {
            assert(!is_dir_blob(s[ch1[0].1 as int]));
            assert(!is_dir_blob(s[ch2[0].1 as int]));
        }
        assert(ch1[0].1 == ch2[0].1) by {
            let i1 = ch1[0].1 as int;
            let i2 = ch2[0].1 as int;
            if i1 < i2 {
                assert(!blob_eqv(s[i1], s[i2]));
            }
            if i2 < i1 {
                crate::node::lemma_blob_eqv_sym(s[i1], s[i2]);
                assert(!blob_eqv(s[i2], s[i1]));
            }
        }
        assert(ch1[0] == ch2[0]);
        assert(children_sorted(ch1.drop_first())) by {
            assert(forall|i: int, j: int|
                0 <= i < j < ch1.drop_first().len() ==> ch1.drop_first()[i].0
                    < ch1.drop_first()[j].0);
        }
        assert(children_sorted(ch2.drop_first())) by {
            assert(forall|i: int, j: int|
                0 <= i < j < ch2.drop_first().len() ==> ch2.drop_first()[i].0
                    < ch2.drop_first()[j].0);
        }
        lemma_children_unique(s, ch1.drop_first(), ch2.drop_first(), b1, b2);
        assert(ch1.len() == ch2.len());
        assert forall|x: int| 0 <= x < ch1.len() implies #[trigger] ch1[x] == ch2[x] by {
            if x > 0 {
                assert(ch1[x] == ch1.drop_first()[x - 1]);
                assert(ch2[x] == ch2.drop_first()[x - 1]);
            }
        }
        assert(ch1 =~= ch2);
    }
}

/// Every entry flattened out of a child list's tail carries a first byte
/// above the head child's byte.
pub proof fn lemma_children_tail_props(s: Seq<Blob>, ch: Seq<(u8, usize)>, bound: int, x: int)
    requires
        children_wf(s, ch, bound),
        children_sorted(ch),
        ch.len() > 0,
        0 <= x < children_flat(s, ch.drop_first(), bound).len(),
    ensures
        children_flat(s, ch.drop_first(), bound)[x].0.len() > 0,
        children_flat(s, ch.drop_first(), bound)[x].0[0] > ch[0].0,
{
    assert(children_wf(s, ch.drop_first(), bound));
    assert(children_sorted(ch.drop_first())) by {
        assert(forall|i: int, j: int|
            0 <= i < j < ch.drop_first().len() ==> ch.drop_first()[i].0 < ch.drop_first()[j].0);
    }
    lemma_children_flat_props(s, ch.drop_first(), bound);
    let rest = children_flat(s, ch.drop_first(), bound);
    assert(rest[x].0.len() > 0);
    let fb = rest[x].0[0];
    assert(byte_in_children(ch.drop_first(), fb));
    let w = choose|w: int| 0 <= w < ch.drop_first().len() && (#[trigger] ch.drop_first()[w]).0 == fb;
    assert(ch[w + 1].0 == fb);
    assert(ch[0].0 < ch[w + 1].0);
}

/// A successful lookup names an element of the sequence.
pub proof fn lemma_flat_get_some_exists(es: Seq<(Seq<u8>, Entry)>, k: Seq<u8>)
    requires
        flat_get(es, k) is Some,
    ensures
        exists|x: int|
            0 <= x < es.len() && (#[trigger] es[x]).0 == k && Option::Some(es[x].1) == flat_get(
                es,
                k,
            ),
    decreases es.len(),
{
    if es.len() > 0 {
        if es[0].0 == k {
            assert(es[0].0 == k && Option::Some(es[0].1) == flat_get(es, k));
        } else {
            lemma_flat_get_some_exists(es.drop_first(), k);
            let x = choose|x: int|
                0 <= x < es.drop_first().len() && (#[trigger] es.drop_first()[x]).0 == k
                    && Option::Some(es.drop_first()[x].1) == flat_get(es.drop_first(), k);
            assert(es[x + 1].0 == k && Option::Some(es[x + 1].1) == flat_get(es, k));
        }
    }
}

} // verus!
