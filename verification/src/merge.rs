//! The tree merge engine: for each directory prefix that is the root or
//! has a descendant change, it merges the parents' subtrees with the
//! explicit changes into a new directory node, reusing every unchanged
//! subtree by its content address.
//!
//! Rollup counts are maintained incrementally: with a single parent the
//! count starts from the parent's total minus one, subtracts every
//! consumed entry and adds every produced one; with no parent or with
//! several, the merged subentries are summed in full.  A merge of several
//! parents must find every divergence resolved by an explicit change:
//! an unresolved one aborts the derivation.

use vstd::prelude::*;

use crate::keys::key_cmp;
use crate::keys::key_copy;
use crate::keys::key_lt;
use crate::keys::lemma_key_lt_total;
use crate::node::Blob;
use crate::node::Change;
use crate::node::DirPtr;
use crate::node::Entry;
use crate::node::MapNode;
use crate::node::blob_map;
use crate::node::changes_wf;
use crate::node::entries_view;
use crate::node::entry_weight;
use crate::node::path_lt;
use crate::node::path_prefix;
use crate::node::path_view;
use crate::node::sorted_strict;
use crate::node::touched;
use crate::shard::dir_rollup;
use crate::shard::entries_ok;
use crate::shard::entry_ok;
use crate::shard::flat_get;
use crate::shard::from_entries;
use crate::shard::flat_update;
use crate::shard::is_dir_blob;
use crate::shard::lemma_flat_get_absent;
use crate::shard::lemma_flat_get_found;
use crate::shard::lemma_flat_update_entries_ok;
use crate::shard::lemma_flat_update_props;
use crate::shard::lemma_flat_update_sorted;
use crate::shard::node_flat;
use crate::shard::node_wf;
use crate::shard::opt_weight;
use crate::shard::weight;
use crate::store::Store;
use crate::store::queue_wf;
use crate::store::step_ok;
use crate::store::store_wf;

verus! {

/// Why a derivation was aborted.
#[derive(Clone, Copy, PartialEq, Eq, Structural, Debug)]
pub enum EngineError {
    /// Two merge parents disagree on a path that no explicit change
    /// resolves: the input changeset is malformed.
    UnresolvedDivergence,
    /// A rollup count does not fit the counter width.
    CountOverflow,
}

/// A sound reference to a derived directory held in the store.
pub open spec fn dir_ptr_ok(s: Seq<Blob>, p: DirPtr) -> bool {
    &&& p.id < s.len()
    &&& is_dir_blob(s[p.id as int])
    &&& p.rollup == dir_rollup(s[p.id as int])
}

/// The content of a directory: its subentry trie, flattened.
pub open spec fn dir_flat(s: Seq<Blob>, p: DirPtr) -> Seq<(Seq<u8>, Entry)> {
    node_flat(s, blob_map(s[p.id as int]), p.id as int)
}

/// Looks a name up in a flat entry list.
pub fn vec_get(v: &Vec<(Vec<u8>, Entry)>, key: &Vec<u8>) -> (r: Option<Entry>)
    ensures
        r == flat_get(entries_view(v@), key@),
{
    let ghost ev = entries_view(v@);
    let mut i: usize = 0;
    while i < v.len()
        invariant
            0 <= i <= v@.len(),
            ev == entries_view(v@),
            forall|j: int| 0 <= j < i ==> #[trigger] ev[j].0 != key@,
        decreases v@.len() - i,
    {
        if key_cmp(&v[i].0, key) == 0 {
            proof {
                lemma_flat_get_found(ev, key@, i as int);
            }
            return Option::Some(v[i].1);
        }
        i = i + 1;
    }
    proof {
        lemma_flat_get_absent(ev, key@);
    }
    Option::None
}

/// Sets or removes one name in a sorted flat entry list, returning the new
/// list and the entry previously there.
pub fn sorted_vec_update(v: &Vec<(Vec<u8>, Entry)>, key: &Vec<u8>, val: Option<Entry>) -> (r: (
    Vec<(Vec<u8>, Entry)>,
    Option<Entry>,
))
    requires
        sorted_strict(entries_view(v@)),
    ensures
        entries_view(r.0@) == flat_update(entries_view(v@), key@, val),
        r.1 == flat_get(entries_view(v@), key@),
{
    let ghost ev = entries_view(v@);
    let mut out: Vec<(Vec<u8>, Entry)> = Vec::new();
    let mut i: usize = 0;
    while i < v.len() && key_cmp(&v[i].0, key) == -1
        invariant
            0 <= i <= v@.len(),
            ev == entries_view(v@),
            sorted_strict(ev),
            entries_view(out@) == ev.subrange(0, i as int),
            forall|j: int| 0 <= j < i ==> key_lt(#[trigger] ev[j].0, key@),
        decreases v@.len() - i,
    {
        let ghost op = out@;
        let k = key_copy(&v[i].0);
        let e = v[i].1;
        out.push((k, e));
        proof {
            crate::shard::lemma_entries_view_push(op, (k, e));
            assert(entries_view(out@) =~= ev.subrange(0, i + 1));
        }
        i = i + 1;
    }
    let ghost pos = i as int;
    let ghost pre = ev.subrange(0, pos);
    let ghost suf = ev.subrange(pos, ev.len() as int);
    proof {
        assert(ev =~= pre + suf);
        assert forall|j: int| 0 <= j < suf.len() implies !key_lt(#[trigger] suf[j].0, key@) by {
            assert(suf[j] == ev[pos + j]);
            if j > 0 {
                assert(key_lt(ev[pos].0, ev[pos + j].0));
                if key_lt(ev[pos + j].0, key@) {
                    crate::keys::lemma_key_lt_trans(ev[pos].0, ev[pos + j].0, key@);
                }
            }
        }
        assert forall|j: int| 0 < j < suf.len() implies suf[j].0 != key@ && key_lt(
            key@,
            #[trigger] suf[j].0,
        ) by {
            assert(suf[0] == ev[pos]);
            assert(suf[j] == ev[pos + j]);
            assert(key_lt(ev[pos].0, ev[pos + j].0));
            lemma_key_lt_total(key@, suf[0].0);
            if suf[0].0 == key@ {
                lemma_key_lt_total(key@, suf[j].0);
            } else {
                crate::keys::lemma_key_lt_trans(key@, suf[0].0, suf[j].0);
                lemma_key_lt_total(key@, suf[j].0);
            }
        }
        crate::shard::lemma_flat_update_skip(pre, suf, key@, val);
        crate::shard::lemma_flat_get_concat(pre, suf, key@);
        assert forall|j: int| 0 <= j < pre.len() implies #[trigger] pre[j].0 != key@ by {
            lemma_key_lt_total(pre[j].0, key@);
        }
        lemma_flat_get_absent(pre, key@);
    }
    let mut old_e: Option<Entry> = Option::None;
    let mut j: usize = i;
    if i < v.len() {
        if key_cmp(&v[i].0, key) == 0 {
            old_e = Option::Some(v[i].1);
            j = i + 1;
        }
    }
    proof {
        if pos < ev.len() && ev[pos].0 == key@ {
            assert(old_e == Option::Some(ev[pos].1));
            assert(flat_get(suf, key@) == Option::Some(suf[0].1));
        } else {
            assert(old_e is None);
            if pos < ev.len() {
                lemma_key_lt_total(ev[pos].0, key@);
                assert forall|x: int| 0 <= x < suf.len() implies key_lt(
                    key@,
                    #[trigger] suf[x].0,
                ) by {
                    if x > 0 {
                    } else {
                    }
                }
                crate::shard::lemma_flat_get_lb(suf, key@);
                crate::shard::lemma_flat_update_front(suf, key@, val);
            } else {
                assert(suf =~= Seq::<(Seq<u8>, Entry)>::empty());
                crate::shard::lemma_flat_update_front(suf, key@, val);
            }
        }
    }
    match val {
        Option::Some(e) => {
            let kc = key_copy(key);
            let ghost op = out@;
            out.push((kc, e));
            proof {
                crate::shard::lemma_entries_view_push(op, (kc, e));
            }
        },
        Option::None => {},
    }
    let ghost mid_done = entries_view(out@);
    while j < v.len()
        invariant
            0 <= pos <= v@.len(),
            pos <= j <= v@.len(),
            ev == entries_view(v@),
            entries_view(out@) == mid_done + ev.subrange(
                (if ev.subrange(pos, ev.len() as int).len() > 0 && ev[pos].0 == key@ {
                    pos + 1
                } else {
                    pos
                }),
                j as int,
            ),
            j >= (if ev.subrange(pos, ev.len() as int).len() > 0 && ev[pos].0 == key@ {
                pos + 1
            } else {
                pos
            }),
        decreases v@.len() - j,
    {
        let ghost op = out@;
        let k = key_copy(&v[j].0);
        let e = v[j].1;
        out.push((k, e));
        proof {
            crate::shard::lemma_entries_view_push(op, (k, e));
            assert((k@, e) == ev[j as int]);
            let start: int = if ev.subrange(pos, ev.len() as int).len() > 0 && ev[pos].0 == key@ {
                pos + 1
            } else {
                pos
            };
            assert(ev.subrange(start, j + 1) =~= ev.subrange(start, j as int).push(ev[j as int]));
            assert(entries_view(out@) =~= mid_done + ev.subrange(start, j + 1));
        }
        j = j + 1;
    }
    proof {
        let start: int = if suf.len() > 0 && ev[pos].0 == key@ {
            pos + 1
        } else {
            pos
        };
        let tail = ev.subrange(start, ev.len() as int);
        assert(entries_view(out@) == mid_done + tail);
        if suf.len() > 0 && ev[pos].0 == key@ {
            assert(tail =~= suf.drop_first());
            match val {
                Option::Some(e) => {
                    assert(flat_update(suf, key@, val) == seq![(key@, e)] + suf.drop_first());
                    assert(mid_done =~= pre + seq![(key@, e)]);
                    assert(entries_view(out@) =~= pre + flat_update(suf, key@, val));
                },
                Option::None => {
                    assert(flat_update(suf, key@, val) == suf.drop_first());
                    assert(mid_done =~= pre);
                    assert(entries_view(out@) =~= pre + flat_update(suf, key@, val));
                },
            }
        } else {
            assert(tail =~= suf);
            match val {
                Option::Some(e) => {
                    assert(flat_update(suf, key@, val) == seq![(key@, e)] + suf);
                    assert(mid_done =~= pre + seq![(key@, e)]);
                    assert(entries_view(out@) =~= pre + flat_update(suf, key@, val));
                },
                Option::None => {
                    assert(flat_update(suf, key@, val) == suf);
                    assert(mid_done =~= pre);
                    assert(entries_view(out@) =~= pre + flat_update(suf, key@, val));
                },
            }
        }
        assert(entries_view(out@) == flat_update(ev, key@, val));
    }
    (out, old_e)
}

/// The rollup contribution of one entry.
pub fn entry_w(e: &Entry) -> (r: u64)
    ensures
        r as int == entry_weight(*e),
{
    match e {
        Entry::File => 1,
        Entry::Directory(p) => p.rollup,
    }
}

/// Whether any change touches the child with this name.
pub fn is_touched(changes: &Vec<Change>, name: &Vec<u8>) -> (r: bool)
    requires
        forall|i: int| 0 <= i < changes@.len() ==> (#[trigger] changes@[i].key)@.len() > 0,
    ensures
        r == touched(changes@, name@),
{
    let mut i: usize = 0;
    while i < changes.len()
        invariant
            0 <= i <= changes@.len(),
            forall|j: int| 0 <= j < changes@.len() ==> (#[trigger] changes@[j].key)@.len() > 0,
            forall|j: int| 0 <= j < i ==> (#[trigger] changes@[j].key)@[0]@ != name@,
        decreases changes@.len() - i,
    {
        if key_cmp(&changes[i].key[0], name) == 0 {
            proof {
                assert(changes@[i as int].key@[0]@ == name@);
            }
            return true;
        }
        i = i + 1;
    }
    proof {
        assert(!touched(changes@, name@));
    }
    false
}

pub proof fn lemma_weight_one(p: (Seq<u8>, Entry))
    ensures
        weight(seq![p]) == entry_weight(p.1),
{
    assert(seq![p].drop_last() =~= Seq::<(Seq<u8>, Entry)>::empty());
    assert(weight(Seq::<(Seq<u8>, Entry)>::empty()) == 0);
    assert(seq![p].last() == p);
}

/// The rollup equation, read back from a consistent store: a directory's
/// count is one plus the total contribution of its entries, and therefore
/// at least one.
pub proof fn lemma_dir_rollup_equation(s: Seq<Blob>, p: DirPtr)
    requires
        forall|i: int| 0 <= i < s.len() ==> crate::shard::blob_ok(s, i),
        dir_ptr_ok(s, p),
    ensures
        p.rollup as int == 1 + weight(dir_flat(s, p)),
        p.rollup >= 1,
        sorted_strict(dir_flat(s, p)),
        entries_ok(s, dir_flat(s, p), p.id as int),
        node_wf(s, blob_map(s[p.id as int]), p.id as int),
{
    assert(crate::shard::blob_ok(s, p.id as int));
    crate::shard::lemma_node_flat_props(s, blob_map(s[p.id as int]), p.id as int);
    crate::shard::lemma_weight_ge_len(s, dir_flat(s, p), p.id as int);
}


/// A derived directory's content address and rollup count are functions of
/// its content alone: two directories holding the same entries, however
/// they were derived, occupy one blob and carry one count.
pub proof fn lemma_same_content_same_address(st: Store, p1: DirPtr, p2: DirPtr)
    requires
        store_wf(st),
        dir_ptr_ok(st.blobs@, p1),
        dir_ptr_ok(st.blobs@, p2),
        dir_flat(st.blobs@, p1) == dir_flat(st.blobs@, p2),
    ensures
        p1.id == p2.id,
        p1.rollup == p2.rollup,
{
    let s = st.blobs@;
    lemma_dir_rollup_equation(s, p1);
    lemma_dir_rollup_equation(s, p2);
    assert(p1.rollup == p2.rollup);
    crate::shard::lemma_canonical_unique(
        s,
        blob_map(s[p1.id as int]),
        blob_map(s[p2.id as int]),
        p1.id as int,
        p2.id as int,
    );
    assert(crate::node::blob_eqv(s[p1.id as int], s[p2.id as int])) by {
        assert(is_dir_blob(s[p1.id as int]));
        assert(is_dir_blob(s[p2.id as int]));
        assert(dir_rollup(s[p1.id as int]) == dir_rollup(s[p2.id as int]));
        assert(crate::node::node_eqv(blob_map(s[p1.id as int]), blob_map(s[p2.id as int])));
    }
    crate::store::lemma_address_determined(st, p1.id as int, p2.id as int);
}

/// Sums the contributions of a flat entry list, or reports that the total
/// does not fit the counter.
pub fn sum_weights(v: &Vec<(Vec<u8>, Entry)>) -> (r: Result<u64, EngineError>)
    ensures
        match r {
            Result::Ok(a) => a as int == weight(entries_view(v@)),
            Result::Err(e) => e == EngineError::CountOverflow && weight(entries_view(v@))
                > u64::MAX,
        },
{
    let ghost ev = entries_view(v@);
    let mut acc: u64 = 0;
    let mut i: usize = 0;
    while i < v.len()
        invariant
            0 <= i <= v@.len(),
            ev == entries_view(v@),
            acc as int == weight(ev.subrange(0, i as int)),
        decreases v@.len() - i,
    {
        let w = entry_w(&v[i].1);
        proof {
            assert(ev.subrange(0, i + 1) =~= ev.subrange(0, i as int) + seq![ev[i as int]]);
            crate::shard::lemma_weight_concat(ev.subrange(0, i as int), seq![ev[i as int]]);
            lemma_weight_one(ev[i as int]);
        }
        if w > u64::MAX - acc {
            proof {
                lemma_weight_suffix_nonneg(ev, i + 1);
            }
            return Result::Err(EngineError::CountOverflow);
        }
        acc = acc + w;
        i = i + 1;
    }
    proof {
        assert(ev.subrange(0, ev.len() as int) =~= ev);
    }
    Result::Ok(acc)
}

/// Entry weights are never negative, so a prefix bounds the whole from
/// below.
pub proof fn lemma_weight_suffix_nonneg(ev: Seq<(Seq<u8>, Entry)>, i: int)
    requires
        0 <= i <= ev.len(),
    ensures
        weight(ev) >= weight(ev.subrange(0, i)),
    decreases ev.len() - i,
{
    if i < ev.len() {
        assert(ev.subrange(0, i + 1) =~= ev.subrange(0, i) + seq![ev[i]]);
        crate::shard::lemma_weight_concat(ev.subrange(0, i), seq![ev[i]]);
        lemma_weight_one(ev[i]);
        assert(entry_weight(ev[i].1) >= 0);
        lemma_weight_suffix_nonneg(ev, i + 1);
    } else {
        assert(ev.subrange(0, i) =~= ev);
    }
}

/// The deepest key among a list of changes.
pub open spec fn max_path_len(cs: Seq<Change>) -> nat
    decreases cs.len(),
{
    if cs.len() == 0 {
        0
    } else {
        let m = max_path_len(cs.drop_last());
        if cs.last().key@.len() > m {
            cs.last().key@.len()
        } else {
            m
        }
    }
}

pub proof fn lemma_max_path_len_ge(cs: Seq<Change>, j: int)
    requires
        0 <= j < cs.len(),
    ensures
        max_path_len(cs) >= cs[j].key@.len(),
    decreases cs.len(),
{
    if j < cs.len() - 1 {
        lemma_max_path_len_ge(cs.drop_last(), j);
    }
}

pub proof fn lemma_max_path_len_le(cs: Seq<Change>, m: nat)
    requires
        forall|j: int| 0 <= j < cs.len() ==> (#[trigger] cs[j].key)@.len() <= m,
    ensures
        max_path_len(cs) <= m,
    decreases cs.len(),
{
    if cs.len() > 0 {
        lemma_max_path_len_le(cs.drop_last(), m);
    }
}

/// Merges one more parent's content into the union built so far.  On
/// success a name no change touches carries the same entry on both sides,
/// and that entry, in the union; the merge fails exactly because some
/// untouched name differs between the two sides, in presence or in entry.
pub fn union_into(
    acc_v: Vec<(Vec<u8>, Entry)>,
    other: &Vec<(Vec<u8>, Entry)>,
    changes: &Vec<Change>,
    st: &Store,
) -> (r: Result<Vec<(Vec<u8>, Entry)>, EngineError>)
    requires
        sorted_strict(entries_view(acc_v@)),
        sorted_strict(entries_view(other@)),
        entries_ok(st.blobs@, entries_view(acc_v@), st.blobs@.len() as int),
        entries_ok(st.blobs@, entries_view(other@), st.blobs@.len() as int),
        forall|i: int| 0 <= i < changes@.len() ==> (#[trigger] changes@[i].key)@.len() > 0,
    ensures
        match r {
            Result::Ok(u) => {
                &&& sorted_strict(entries_view(u@))
                &&& entries_ok(st.blobs@, entries_view(u@), st.blobs@.len() as int)
                &&& forall|nm: Seq<u8>|
                    !touched(changes@, nm) ==> #[trigger] flat_get(entries_view(u@), nm)
                        == flat_get(entries_view(acc_v@), nm) && flat_get(entries_view(u@), nm)
                        == flat_get(entries_view(other@), nm)
            },
            Result::Err(e) => e == EngineError::UnresolvedDivergence && exists|nm: Seq<u8>|
                !touched(changes@, nm) && #[trigger] flat_get(entries_view(acc_v@), nm)
                    != flat_get(entries_view(other@), nm),
        },
{
    let ghost s = st.blobs@;
    let ghost av = entries_view(acc_v@);
    let ghost ov = entries_view(other@);
    let mut out = acc_v;
    // names of the other parent: absent ones join the union, conflicting
    // ones must be resolved by a change
    let mut i: usize = 0;
    while i < other.len()
        invariant
            0 <= i <= other@.len(),
            s == st.blobs@,
            av == entries_view(acc_v@),
            ov == entries_view(other@),
            sorted_strict(av),
            sorted_strict(ov),
            sorted_strict(entries_view(out@)),
            entries_ok(s, entries_view(out@), s.len() as int),
            entries_ok(s, ov, s.len() as int),
            forall|x: int| 0 <= x < changes@.len() ==> (#[trigger] changes@[x].key)@.len() > 0,
            forall|nm: Seq<u8>|
                !touched(changes@, nm) ==> #[trigger] flat_get(entries_view(out@), nm)
                    == flat_get(av, nm),
            forall|x: int|
                0 <= x < i && !touched(changes@, (#[trigger] ov[x]).0) ==> flat_get(
                    entries_view(out@),
                    ov[x].0,
                ) == Option::Some(ov[x].1),
        decreases other@.len() - i,
    {
        let name = &other[i].0;
        let e = other[i].1;
        proof {
            assert(ov[i as int] == (name@, e));
            assert forall|j: int| 0 <= j < i implies (#[trigger] ov[j]).0 != name@ by {
                assert(key_lt(ov[j].0, ov[i as int].0));
                lemma_key_lt_total(ov[j].0, ov[i as int].0);
            }
            lemma_flat_get_found(ov, name@, i as int);
            assert(entry_ok(s, ov[i as int].1, s.len() as int));
        }
        let ghost out_pre = entries_view(out@);
        match vec_get(&out, name) {
            Option::Some(ex) => {
                if !(ex == e) {
                    if !is_touched(changes, name) {
                        proof {
                            assert(flat_get(av, name@) == Option::Some(ex));
                            assert(flat_get(ov, name@) == Option::Some(e));
                            assert(!touched(changes@, name@) && flat_get(av, name@) != flat_get(
                                ov,
                                name@,
                            ));
                        }
                        return Result::Err(EngineError::UnresolvedDivergence);
                    }
                    // a change resolves this name; keep the first parent's
                    // entry as the old value
                }
            },
            Option::None => {
                if !is_touched(changes, name) {
                    proof {
                        assert(flat_get(av, name@) is None);
                        assert(flat_get(ov, name@) == Option::Some(e));
                        assert(!touched(changes@, name@) && flat_get(av, name@) != flat_get(
                            ov,
                            name@,
                        ));
                    }
                    return Result::Err(EngineError::UnresolvedDivergence);
                }
                let (nf, _old) = sorted_vec_update(&out, name, Option::Some(e));
                proof {
                    lemma_flat_update_sorted(entries_view(out@), name@, Option::Some(e));
                    lemma_flat_update_entries_ok(
                        s,
                        entries_view(out@),
                        name@,
                        Option::Some(e),
                        s.len() as int,
                    );
                    lemma_flat_update_props(entries_view(out@), name@, Option::Some(e));
                }
                out = nf;
            },
        }
        proof {
            let out_now = entries_view(out@);
            assert forall|nm: Seq<u8>| !touched(changes@, nm) implies #[trigger] flat_get(
                out_now,
                nm,
            ) == flat_get(av, nm) by {
                if out_now != out_pre {
                    assert(out_now == flat_update(out_pre, name@, Option::Some(e)));
                    assert(touched(changes@, name@));
                    assert(nm != name@);
                    assert(flat_get(flat_update(out_pre, name@, Option::Some(e)), nm) == flat_get(
                        out_pre,
                        nm,
                    ));
                }
            }
            assert forall|x: int|
                0 <= x < i + 1 && !touched(changes@, (#[trigger] ov[x]).0) implies flat_get(
                out_now,
                ov[x].0,
            ) == Option::Some(ov[x].1) by {
                if x < i {
                    if out_now != out_pre {
                        assert(out_now == flat_update(out_pre, name@, Option::Some(e)));
                        assert(touched(changes@, name@));
                        assert(ov[x].0 != name@);
                        assert(flat_get(
                            flat_update(out_pre, name@, Option::Some(e)),
                            ov[x].0,
                        ) == flat_get(out_pre, ov[x].0));
                    }
                } else {
                    // this very name was just reconciled or inserted
                    if out_now != out_pre {
                        assert(out_now == flat_update(out_pre, name@, Option::Some(e)));
                        assert(flat_get(out_now, name@) == Option::Some(e));
                    } else {
                        assert(flat_get(out_pre, name@) == Option::Some(e) || touched(
                            changes@,
                            name@,
                        ));
                    }
                }
            }
        }
        i = i + 1;
    }
    // names only the union has must be covered by a change too
    let mut j: usize = 0;
    while j < out.len()
        invariant
            0 <= j <= out@.len(),
            s == st.blobs@,
            av == entries_view(acc_v@),
            ov == entries_view(other@),
            sorted_strict(ov),
            sorted_strict(entries_view(out@)),
            entries_ok(s, entries_view(out@), s.len() as int),
            forall|x: int| 0 <= x < changes@.len() ==> (#[trigger] changes@[x].key)@.len() > 0,
            forall|nm: Seq<u8>|
                !touched(changes@, nm) ==> #[trigger] flat_get(entries_view(out@), nm)
                    == flat_get(av, nm),
            forall|x: int|
                0 <= x < ov.len() && !touched(changes@, (#[trigger] ov[x]).0) ==> flat_get(
                    entries_view(out@),
                    ov[x].0,
                ) == Option::Some(ov[x].1),
            forall|x: int|
                0 <= x < j && !touched(changes@, (#[trigger] entries_view(out@)[x]).0)
                    ==> flat_get(ov, entries_view(out@)[x].0) is Some,
        decreases out@.len() - j,
    {
        let name = &out[j].0;
        let ghost out_v = entries_view(out@);
        proof {
            assert(out_v[j as int].0 == name@);
            assert forall|x: int| 0 <= x < j implies (#[trigger] out_v[x]).0 != name@ by {
                assert(key_lt(out_v[x].0, out_v[j as int].0));
                lemma_key_lt_total(out_v[x].0, out_v[j as int].0);
            }
            lemma_flat_get_found(out_v, name@, j as int);
        }
        match vec_get(other, name) {
            Option::Some(_ex) => {},
            Option::None => {
                if !is_touched(changes, name) {
                    proof {
                        assert(flat_get(out_v, name@) == Option::Some(out_v[j as int].1));
                        assert(flat_get(av, name@) == flat_get(out_v, name@));
                        assert(flat_get(ov, name@) is None);
                        assert(!touched(changes@, name@) && flat_get(av, name@) != flat_get(
                            ov,
                            name@,
                        ));
                    }
                    return Result::Err(EngineError::UnresolvedDivergence);
                }
            },
        }
        j = j + 1;
    }
    proof {
        // untouched names now read the same out of the union, the first
        // side, and the second side
        let out_v = entries_view(out@);
        assert forall|nm: Seq<u8>| !touched(changes@, nm) implies #[trigger] flat_get(out_v, nm)
            == flat_get(av, nm) && flat_get(out_v, nm) == flat_get(ov, nm) by {
            if flat_get(ov, nm) is Some {
                crate::shard::lemma_flat_get_some_exists(ov, nm);
                let x = choose|x: int|
                    0 <= x < ov.len() && (#[trigger] ov[x]).0 == nm && Option::Some(ov[x].1)
                        == flat_get(ov, nm);
                assert(flat_get(out_v, ov[x].0) == Option::Some(ov[x].1));
            } else {
                if flat_get(out_v, nm) is Some {
                    crate::shard::lemma_flat_get_some_exists(out_v, nm);
                    let y = choose|y: int|
                        0 <= y < out_v.len() && (#[trigger] out_v[y]).0 == nm && Option::Some(
                            out_v[y].1,
                        ) == flat_get(out_v, nm);
                    assert(flat_get(ov, out_v[y].0) is Some);
                }
            }
        }
    }
    Result::Ok(out)
}


pub proof fn lemma_entries_ok_grow(
    s1: Seq<Blob>,
    s2: Seq<Blob>,
    ev: Seq<(Seq<u8>, Entry)>,
    b1: int,
    b2: int,
)
    requires
        crate::shard::store_extends(s1, s2),
        entries_ok(s1, ev, b1),
        b1 <= s1.len(),
        b1 <= b2,
    ensures
        entries_ok(s2, ev, b2),
{
    assert forall|k: int| 0 <= k < ev.len() implies #[trigger] entry_ok(s2, ev[k].1, b2) by {
        assert(entry_ok(s1, ev[k].1, b1));
        crate::shard::lemma_entry_ok_grow(s1, s2, ev[k].1, b1, b2);
    }
}

/// On non-empty paths the first component never decreases along the order.
pub proof fn lemma_path_lt_first(a: Seq<Seq<u8>>, b: Seq<Seq<u8>>)
    requires
        path_lt(a, b),
        a.len() > 0,
        b.len() > 0,
    ensures
        key_lt(a[0], b[0]) || a[0] == b[0],
{
}

/// A found entry weighs no more than the whole list.
pub proof fn lemma_old_weight_le(ev: Seq<(Seq<u8>, Entry)>, k: Seq<u8>, s: Seq<Blob>, bound: int)
    requires
        sorted_strict(ev),
        entries_ok(s, ev, bound),
    ensures
        opt_weight(flat_get(ev, k)) <= weight(ev),
{
    lemma_flat_update_props(ev, k, Option::None);
    lemma_flat_update_entries_ok(s, ev, k, Option::None, bound);
    crate::shard::lemma_weight_ge_len(s, flat_update(ev, k, Option::None), bound);
}

/// The flat content a merge result stands for: the produced directory's
/// entries, or nothing.
pub open spec fn merge_result_flat(
    s: Seq<Blob>,
    r: Result<Option<DirPtr>, EngineError>,
) -> Seq<(Seq<u8>, Entry)> {
    match r {
        Result::Ok(Option::Some(p)) => dir_flat(s, p),
        _ => Seq::empty(),
    }
}

/// The single parent's content, or nothing when there is no parent.
pub open spec fn parent0_flat(s: Seq<Blob>, parents: Seq<DirPtr>) -> Seq<(Seq<u8>, Entry)> {
    if parents.len() == 1 {
        dir_flat(s, parents[0])
    } else {
        Seq::empty()
    }
}

/// Every explicit leaf change is reflected in the result: an added or
/// replaced file is present, a deleted key is absent.
pub open spec fn leaf_clauses(cs: Seq<Change>, rf: Seq<(Seq<u8>, Entry)>) -> bool {
    forall|x: int|
        0 <= x < cs.len() && (#[trigger] cs[x].key)@.len() == 1 ==> match cs[x].payload {
            Option::Some(fc) => flat_get(rf, cs[x].key@[0]@) == Option::Some(Entry::File),
            Option::None => flat_get(rf, cs[x].key@[0]@) is None,
        }
}


/// Every change reaching exactly one level deeper is reflected through the
/// produced subdirectory: an added file is present behind its directory
/// entry, a deleted one is gone — with the directory itself gone when
/// nothing remains, or left as the plain file that stood at its name.
pub open spec fn two_level_clauses(
    s: Seq<Blob>,
    cs: Seq<Change>,
    rf: Seq<(Seq<u8>, Entry)>,
) -> bool {
    forall|x: int|
        0 <= x < cs.len() && (#[trigger] cs[x].key)@.len() == 2 ==> match cs[x].payload {
            Option::Some(fc) => match flat_get(rf, cs[x].key@[0]@) {
                Option::Some(Entry::Directory(q)) => flat_get(dir_flat(s, q), cs[x].key@[1]@)
                    == Option::Some(Entry::File),
                _ => false,
            },
            Option::None => match flat_get(rf, cs[x].key@[0]@) {
                Option::None => true,
                Option::Some(Entry::File) => true,
                Option::Some(Entry::Directory(q)) => flat_get(dir_flat(s, q), cs[x].key@[1]@)
                    is None,
            },
        }
}


/// Some change goes through `n1` to exactly `n2` below it.
pub open spec fn sub_touched(cs: Seq<Change>, n1: Seq<u8>, n2: Seq<u8>) -> bool {
    exists|x: int|
        0 <= x < cs.len() && (#[trigger] cs[x].key)@.len() >= 2 && cs[x].key@[0]@ == n1
            && cs[x].key@[1]@ == n2
}

/// Below a name the changes reach into, every second-level name no change
/// reaches keeps the entry it had in the parent's subdirectory: the
/// sibling files and subtrees of a changed path ride along unchanged.
pub open spec fn deep_untouched_preserved(
    s_old: Seq<Blob>,
    s_new: Seq<Blob>,
    pf: Seq<(Seq<u8>, Entry)>,
    cs: Seq<Change>,
    rf: Seq<(Seq<u8>, Entry)>,
) -> bool {
    forall|x: int, n2: Seq<u8>|
        #![trigger sub_touched(cs, cs[x].key@[0]@, n2)]
        0 <= x < cs.len() && cs[x].key@.len() >= 2 && !sub_touched(cs, cs[x].key@[0]@, n2)
            ==> match flat_get(rf, cs[x].key@[0]@) {
            Option::Some(Entry::Directory(qn)) => flat_get(dir_flat(s_new, qn), n2) == flat_get(
                (match flat_get(pf, cs[x].key@[0]@) {
                    Option::Some(Entry::Directory(po)) => dir_flat(s_old, po),
                    _ => Seq::<(Seq<u8>, Entry)>::empty(),
                }),
                n2,
            ),
            _ => true,
        }
}

/// A name no change touches keeps exactly the entry it had, byte for byte
/// and address for address: structural sharing.
pub open spec fn untouched_preserved(
    cs: Seq<Change>,
    pf0: Seq<(Seq<u8>, Entry)>,
    rf: Seq<(Seq<u8>, Entry)>,
) -> bool {
    forall|nm: Seq<u8>| !touched(cs, nm) ==> #[trigger] flat_get(rf, nm) == flat_get(pf0, nm)
}

/// Merges the parents' directories at one prefix with the changes below
/// it, producing the new directory node, or nothing when the merged
/// mapping is empty — with no parents and no changes, when an empty parent
/// is rebuilt without changes, or when the changes remove everything.
/// Every node and fragment built is interned and queued for writing;
/// unchanged subtrees are carried over by content address alone.
#[verifier::rlimit(100)]
pub fn merge_dir(
    st: &mut Store,
    queue: &mut Vec<usize>,
    parents: &Vec<DirPtr>,
    changes: &Vec<Change>,
) -> (r: Result<Option<DirPtr>, EngineError>)
    requires
        store_wf(*old(st)),
        queue_wf(old(queue)@, old(st).blobs@),
        forall|k: int|
            0 <= k < parents@.len() ==> dir_ptr_ok(old(st).blobs@, #[trigger] parents@[k]),
        changes_wf(changes@),
    ensures
        store_wf(*final(st)),
        queue_wf(final(queue)@, final(st).blobs@),
        step_ok(*old(st), old(queue)@, *final(st), final(queue)@),
        match r {
            Result::Ok(opt) => {
                &&& (match opt {
                    Option::Some(p) => dir_ptr_ok(final(st).blobs@, p) && dir_flat(
                        final(st).blobs@,
                        p,
                    ).len() > 0,
                    Option::None => true,
                })
                &&& (parents@.len() <= 1 ==> untouched_preserved(
                    changes@,
                    parent0_flat(old(st).blobs@, parents@),
                    merge_result_flat(final(st).blobs@, r),
                ))
                &&& (parents@.len() <= 1 ==> leaf_clauses(
                    changes@,
                    merge_result_flat(final(st).blobs@, r),
                ))
                &&& forall|k: int|
                    0 <= k < parents@.len() ==> untouched_preserved(
                        changes@,
                        dir_flat(old(st).blobs@, #[trigger] parents@[k]),
                        merge_result_flat(final(st).blobs@, r),
                    )
                &&& (parents@.len() <= 1 ==> two_level_clauses(
                    final(st).blobs@,
                    changes@,
                    merge_result_flat(final(st).blobs@, r),
                ))
                &&& (parents@.len() <= 1 ==> deep_untouched_preserved(
                    old(st).blobs@,
                    final(st).blobs@,
                    parent0_flat(old(st).blobs@, parents@),
                    changes@,
                    merge_result_flat(final(st).blobs@, r),
                ))
            },
            Result::Err(e) => e == EngineError::UnresolvedDivergence || e
                == EngineError::CountOverflow,
        },
        parents@.len() <= 1 ==> r != Result::<Option<DirPtr>, EngineError>::Err(
            EngineError::UnresolvedDivergence,
        ),
        r == Result::<Option<DirPtr>, EngineError>::Err(EngineError::UnresolvedDivergence)
            ==> (exists|k2: int, nm: Seq<u8>|
            #![trigger flat_get(dir_flat(old(st).blobs@, parents@[k2]), nm)]
            0 <= k2 < parents@.len() && !touched(changes@, nm) && flat_get(
                dir_flat(old(st).blobs@, parents@[0]),
                nm,
            ) != flat_get(dir_flat(old(st).blobs@, parents@[k2]), nm)) || (exists|x: int|
            0 <= x < changes@.len() && (#[trigger] changes@[x].key)@.len() >= 2),
        parents@.len() == 0 && changes@.len() == 0 ==> r == Result::<
            Option<DirPtr>,
            EngineError,
        >::Ok(Option::None),
        parents@.len() == 1 && changes@.len() == 0 ==> r == (if dir_flat(
            old(st).blobs@,
            parents@[0],
        ).len() == 0 {
            Result::<Option<DirPtr>, EngineError>::Ok(Option::None)
        } else {
            Result::<Option<DirPtr>, EngineError>::Ok(Option::Some(parents@[0]))
        }),
    decreases max_path_len(changes@),
{
    let ghost cv = changes@;
    let ghost s0 = st.blobs@;
    let ghost q0 = queue@;
    // materialize the parents at this prefix
    let mut flat: Vec<(Vec<u8>, Entry)>;
    let mut acc: u64;
    let mut pflats: Vec<Vec<(Vec<u8>, Entry)>> = Vec::new();
    if parents.len() == 0 {
        flat = Vec::new();
        acc = 0;
        proof {
            assert(entries_view(flat@) =~= Seq::<(Seq<u8>, Entry)>::empty());
        }
    } else {
        let p0 = parents[0];
        proof {
            assert(dir_ptr_ok(s0, p0));
            lemma_dir_rollup_equation(s0, p0);
        }
        let blob0 = st.get(p0.id);
        let m0: &MapNode = match blob0 {
            Blob::Dir { map, rollup } => map,
            Blob::Frag { map } => map,
        };
        flat = crate::shard::flatten(st, m0, p0.id);
        proof {
            assert(entries_view(flat@) == dir_flat(s0, p0));
            crate::shard::lemma_node_bound_mono(
                s0,
                blob_map(s0[p0.id as int]),
                p0.id as int,
                s0.len() as int,
            );
            lemma_entries_ok_grow(s0, s0, entries_view(flat@), p0.id as int, s0.len() as int);
        }
        if parents.len() == 1 {
            acc = p0.rollup - 1;
        } else {
            // several parents: build the union, checking that every
            // divergence is resolved by a change
            let mut k: usize = 0;
            while k < parents.len()
                invariant
                    0 <= k <= parents@.len(),
                    s0 == st.blobs@,
                    s0 == old(st).blobs@,
                    st.durable@ == old(st).durable@,
                    queue@ == old(queue)@,
                    queue_wf(queue@, st.blobs@),
                    parents@.len() >= 2,
                    store_wf(*st),
                    forall|x: int|
                        0 <= x < parents@.len() ==> dir_ptr_ok(s0, #[trigger] parents@[x]),
                    pflats@.len() == k,
                    forall|x: int|
                        0 <= x < k ==> entries_view((#[trigger] pflats@[x])@) == dir_flat(
                            s0,
                            parents@[x],
                        ),
                    forall|x: int|
                        0 <= x < k ==> sorted_strict(entries_view((#[trigger] pflats@[x])@))
                            && entries_ok(
                            s0,
                            entries_view((#[trigger] pflats@[x])@),
                            s0.len() as int,
                        ),
                decreases parents@.len() - k,
            {
                let pk = parents[k];
                proof {
                    lemma_dir_rollup_equation(s0, pk);
                }
                let blobk = st.get(pk.id);
                let mk: &MapNode = match blobk {
                    Blob::Dir { map, rollup } => map,
                    Blob::Frag { map } => map,
                };
                let fk = crate::shard::flatten(st, mk, pk.id);
                proof {
                    crate::shard::lemma_node_bound_mono(
                        s0,
                        blob_map(s0[pk.id as int]),
                        pk.id as int,
                        s0.len() as int,
                    );
                    lemma_entries_ok_grow(
                        s0,
                        s0,
                        entries_view(fk@),
                        pk.id as int,
                        s0.len() as int,
                    );
                }
                pflats.push(fk);
                k = k + 1;
            }
            let mut k2: usize = 1;
            while k2 < pflats.len()
                invariant
                    1 <= k2 <= pflats@.len(),
                    s0 == st.blobs@,
                    s0 == old(st).blobs@,
                    st.durable@ == old(st).durable@,
                    queue@ == old(queue)@,
                    queue_wf(queue@, st.blobs@),
                    parents@.len() >= 2,
                    pflats@.len() == parents@.len(),
                    store_wf(*st),
                    changes_wf(cv),
                    cv == changes@,
                    sorted_strict(entries_view(flat@)),
                    entries_ok(s0, entries_view(flat@), s0.len() as int),
                    forall|x: int|
                        0 <= x < pflats@.len() ==> sorted_strict(entries_view(
                            (#[trigger] pflats@[x])@,
                        )) && entries_ok(
                            s0,
                            entries_view((#[trigger] pflats@[x])@),
                            s0.len() as int,
                        ),
                    forall|x: int|
                        0 <= x < pflats@.len() ==> entries_view((#[trigger] pflats@[x])@)
                            == dir_flat(s0, parents@[x]),
                    forall|x: int, nm: Seq<u8>|
                        0 <= x < k2 && !touched(cv, nm) ==> #[trigger] flat_get(
                            entries_view(pflats@[x]@),
                            nm,
                        ) == flat_get(entries_view(flat@), nm),
                decreases pflats@.len() - k2,
            {
                let ghost flat_pre = entries_view(flat@);
                let r2 = union_into(flat, &pflats[k2], changes, st);
                match r2 {
                    Result::Ok(u) => {
                        flat = u;
                        proof {
                            assert forall|x: int, nm: Seq<u8>|
                                0 <= x < k2 + 1 && !touched(cv, nm) implies #[trigger] flat_get(
                                entries_view(pflats@[x]@),
                                nm,
                            ) == flat_get(entries_view(flat@), nm) by {
                                assert(flat_get(entries_view(flat@), nm) == flat_get(
                                    flat_pre,
                                    nm,
                                ));
                                if x < k2 {
                                    assert(flat_get(entries_view(pflats@[x]@), nm) == flat_get(
                                        flat_pre,
                                        nm,
                                    ));
                                } else {
                                    assert(flat_get(entries_view(flat@), nm) == flat_get(
                                        entries_view(pflats@[k2 as int]@),
                                        nm,
                                    ));
                                }
                            }
                        }
                    },
                    Result::Err(e) => {
                        proof {
                            assert(step_ok(*old(st), old(queue)@, *st, queue@));
                            // the failed union names a divergent untouched
                            // name; the union so far reads as parent zero
                            let nm = choose|nm: Seq<u8>|
                                !touched(changes@, nm) && #[trigger] flat_get(
                                    flat_pre,
                                    nm,
                                ) != flat_get(entries_view(pflats@[k2 as int]@), nm);
                            assert(flat_get(entries_view(pflats@[0]@), nm) == flat_get(
                                flat_pre,
                                nm,
                            ));
                            assert(entries_view(pflats@[0]@) == dir_flat(s0, parents@[0]));
                            assert(entries_view(pflats@[k2 as int]@) == dir_flat(
                                s0,
                                parents@[k2 as int],
                            ));
                            assert(flat_get(dir_flat(s0, parents@[0]), nm) != flat_get(
                                dir_flat(s0, parents@[k2 as int]),
                                nm,
                            ));
                        }
                        return Result::Err(e);
                    },
                }
                k2 = k2 + 1;
            }
            match sum_weights(&flat) {
                Result::Ok(a) => {
                    acc = a;
                },
                Result::Err(e) => {
                    proof {
                        assert(step_ok(*old(st), old(queue)@, *st, queue@));
                    }
                    return Result::Err(EngineError::CountOverflow);
                },
            }
        }
    }
    let ghost pf0v = entries_view(flat@);
    proof {
        assert(step_ok(*old(st), old(queue)@, *st, queue@));
        if parents@.len() == 1 {
            assert(pf0v == parent0_flat(s0, parents@));
            assert(acc as int == weight(pf0v));
        }
        if parents@.len() == 0 {
            assert(pf0v =~= parent0_flat(s0, parents@));
        }
        assert(entries_ok(s0, pf0v, s0.len() as int));
        // every parent's untouched names already read like the merged base
        assert forall|k: int, nm: Seq<u8>|
            0 <= k < parents@.len() && !touched(cv, nm) implies #[trigger] flat_get(
            dir_flat(s0, parents@[k]),
            nm,
        ) == flat_get(pf0v, nm) by {
            if parents@.len() == 1 {
                assert(dir_flat(s0, parents@[0]) == pf0v);
            }
            if parents@.len() >= 2 {
                assert(flat_get(entries_view(pflats@[k]@), nm) == flat_get(
                    entries_view(flat@),
                    nm,
                ));
                assert(entries_view(pflats@[k]@) == dir_flat(s0, parents@[k]));
            }
        }
    }
    // apply the changes, one child name at a time
    let mut ci: usize = 0;
    while ci < changes.len()
        invariant
            0 <= ci <= cv.len(),
            cv == changes@,
            changes_wf(cv),
            store_wf(*st),
            queue_wf(queue@, st.blobs@),
            step_ok(*old(st), old(queue)@, *st, queue@),
            s0 == old(st).blobs@,
            s0.len() <= st.blobs@.len(),
            parents@.len() <= 1 ==> pflats@.len() == 0,
            parents@.len() >= 2 ==> pflats@.len() == parents@.len(),
            forall|x: int|
                0 <= x < pflats@.len() ==> sorted_strict(entries_view((#[trigger] pflats@[x])@))
                    && entries_ok(
                    st.blobs@,
                    entries_view((#[trigger] pflats@[x])@),
                    st.blobs@.len() as int,
                ),
            sorted_strict(entries_view(flat@)),
            entries_ok(st.blobs@, entries_view(flat@), st.blobs@.len() as int),
            acc as int == weight(entries_view(flat@)),
            acc <= u64::MAX,
            cv.len() == 0 ==> entries_view(flat@) == pf0v && st.blobs@ == s0,
            entries_ok(s0, pf0v, s0.len() as int),
            parents@.len() <= 1 ==> forall|x: int, n2: Seq<u8>|
                #![trigger sub_touched(cv, cv[x].key@[0]@, n2)]
                0 <= x < ci && (cv[x].key)@.len() >= 2 && !sub_touched(cv, cv[x].key@[0]@, n2)
                    ==> match flat_get(entries_view(flat@), cv[x].key@[0]@) {
                    Option::Some(Entry::Directory(qn)) => flat_get(dir_flat(st.blobs@, qn), n2)
                        == flat_get(
                        (match flat_get(pf0v, cv[x].key@[0]@) {
                            Option::Some(Entry::Directory(po)) => dir_flat(s0, po),
                            _ => Seq::<(Seq<u8>, Entry)>::empty(),
                        }),
                        n2,
                    ),
                    _ => true,
                },
            forall|nm: Seq<u8>|
                #[trigger] flat_get(entries_view(flat@), nm) != flat_get(pf0v, nm) ==> exists|y: int|
                    0 <= y < ci && (#[trigger] cv[y].key)@[0]@ == nm,
            forall|k: int, nm: Seq<u8>|
                0 <= k < parents@.len() && !touched(cv, nm) ==> #[trigger] flat_get(
                    dir_flat(s0, parents@[k]),
                    nm,
                ) == flat_get(pf0v, nm),
            parents@.len() <= 1 ==> forall|x: int|
                0 <= x < ci && (#[trigger] cv[x].key)@.len() == 2 ==> match cv[x].payload {
                    Option::Some(fc) => match flat_get(entries_view(flat@), cv[x].key@[0]@) {
                        Option::Some(Entry::Directory(q)) => flat_get(
                            dir_flat(st.blobs@, q),
                            cv[x].key@[1]@,
                        ) == Option::Some(Entry::File),
                        _ => false,
                    },
                    Option::None => match flat_get(entries_view(flat@), cv[x].key@[0]@) {
                        Option::None => true,
                        Option::Some(Entry::File) => true,
                        Option::Some(Entry::Directory(q)) => flat_get(
                            dir_flat(st.blobs@, q),
                            cv[x].key@[1]@,
                        ) is None,
                    },
                },
            forall|x: int|
                0 <= x < ci && (#[trigger] cv[x].key)@.len() == 1 ==> match cv[x].payload {
                    Option::Some(fc) => flat_get(entries_view(flat@), cv[x].key@[0]@)
                        == Option::Some(Entry::File),
                    Option::None => flat_get(entries_view(flat@), cv[x].key@[0]@) is None,
                },
            forall|y: int, x: int|
                0 <= y < ci && ci <= x < cv.len() ==> key_lt(
                    (#[trigger] cv[y].key)@[0]@,
                    (#[trigger] cv[x].key)@[0]@,
                ),
        decreases cv.len() - ci,
    {
        let ghost st_a = *st;
        let ghost q_a = queue@;
        let ghost flat_a = entries_view(flat@);
        let name: Vec<u8> = key_copy(&changes[ci].key[0]);
        // find the end of this name's run of changes
        let mut gj: usize = ci + 1;
        while gj < changes.len() && key_cmp(&changes[gj].key[0], &name) == 0
            invariant
                ci < gj <= cv.len(),
                ci < cv.len(),
                cv == changes@,
                changes_wf(cv),
                *st == st_a,
                queue@ == q_a,
                name@ == cv[ci as int].key@[0]@,
                forall|x: int| ci <= x < gj ==> (#[trigger] cv[x].key)@[0]@ == name@,
            decreases cv.len() - gj,
        {
            gj = gj + 1;
        }
        proof {
            // later groups start with strictly larger bytes
            if (gj as int) < cv.len() {
                assert(cv[gj as int].key@[0]@ != name@);
                assert(path_lt(path_view(cv[ci as int].key@), path_view(cv[gj as int].key@)));
                lemma_path_lt_first(path_view(cv[ci as int].key@), path_view(cv[gj as int].key@));
                assert(key_lt(name@, cv[gj as int].key@[0]@));
                assert forall|x: int| gj <= x < cv.len() implies key_lt(
                    name@,
                    (#[trigger] cv[x].key)@[0]@,
                ) by {
                    if x > gj {
                        assert(path_lt(path_view(cv[gj as int].key@), path_view(cv[x].key@)));
                        lemma_path_lt_first(path_view(cv[gj as int].key@), path_view(cv[x].key@));
                        if cv[gj as int].key@[0]@ == cv[x].key@[0]@ {
                        } else {
                            crate::keys::lemma_key_lt_trans(
                                name@,
                                cv[gj as int].key@[0]@,
                                cv[x].key@[0]@,
                            );
                        }
                    }
                }
            }
            // earlier groups ended below this name
            assert forall|y: int| 0 <= y < ci implies key_lt(
                (#[trigger] cv[y].key)@[0]@,
                name@,
            ) by {
                assert(key_lt(cv[y].key@[0]@, cv[ci as int].key@[0]@));
            }
        }
        let is_leaf_change = changes[ci].key.len() == 1;
        let new_e: Option<Entry>;
        let mut skip: bool = false;
        let ghost mut sub_g: Option<DirPtr> = Option::None;
        let ghost mut sub_scs: Seq<Change> = Seq::empty();
        if is_leaf_change {
            proof {
                // a one-component key admits no other change with the same
                // first component: it would be a prefix
                if gj > ci + 1 {
                    let x = ci + 1;
                    assert(cv[x].key@[0]@ == name@);
                    assert(path_lt(path_view(cv[ci as int].key@), path_view(cv[x].key@)));
                    assert(path_view(cv[ci as int].key@).len() == 1);
                    if cv[x].key@.len() == 1 {
                        let a = path_view(cv[ci as int].key@);
                        let b = path_view(cv[x].key@);
                        assert(a.len() == 1 && b.len() == 1);
                        assert(a[0] == name@ && b[0] == name@);
                        crate::keys::lemma_key_lt_irrefl(name@);
                        assert(b.drop_first().len() == 0);
                        assert(!path_lt(a.drop_first(), b.drop_first()));
                        assert(!path_lt(a, b));
                    } else {
                        assert(path_prefix(path_view(cv[ci as int].key@), path_view(cv[x].key@)))
                            by {
                            assert(path_view(cv[x].key@).subrange(0, 1) =~= seq![name@]);
                            assert(path_view(cv[ci as int].key@) =~= seq![name@]);
                        }
                        assert(!path_prefix(
                            path_view(cv[ci as int].key@),
                            path_view(cv[x].key@),
                        ));
                    }
                }
                assert(gj == ci + 1);
            }
            new_e = match changes[ci].payload {
                Option::Some(fc) => Option::Some(Entry::File),
                Option::None => Option::None,
            };
        } else {
            // a deeper run: merge the subdirectory beneath this name
            let old_for_sub = vec_get(&flat, &name);
            let mut sub_parents: Vec<DirPtr> = Vec::new();
            if parents.len() <= 1 {
                match old_for_sub {
                    Option::Some(Entry::Directory(sp)) => {
                        proof {
                            assert(entry_ok(
                                st.blobs@,
                                Entry::Directory(sp),
                                st.blobs@.len() as int,
                            )) by {
                                lemma_get_entry_ok(
                                    st.blobs@,
                                    entries_view(flat@),
                                    name@,
                                    st.blobs@.len() as int,
                                );
                            }
                        }
                        sub_parents.push(sp);
                    },
                    _ => {},
                }
            } else {
                let mut k3: usize = 0;
                while k3 < pflats.len()
                    invariant
                        0 <= k3 <= pflats@.len(),
                        *st == st_a,
                        queue@ == q_a,
                        forall|x: int|
                            0 <= x < pflats@.len() ==> sorted_strict(entries_view(
                                (#[trigger] pflats@[x])@,
                            )) && entries_ok(
                                st.blobs@,
                                entries_view((#[trigger] pflats@[x])@),
                                st.blobs@.len() as int,
                            ),
                        forall|x: int|
                            0 <= x < sub_parents@.len() ==> dir_ptr_ok(
                                st.blobs@,
                                #[trigger] sub_parents@[x],
                            ),
                    decreases pflats@.len() - k3,
                {
                    match vec_get(&pflats[k3], &name) {
                        Option::Some(Entry::Directory(sp)) => {
                            proof {
                                lemma_get_entry_ok(
                                    st.blobs@,
                                    entries_view(pflats@[k3 as int]@),
                                    name@,
                                    st.blobs@.len() as int,
                                );
                            }
                            sub_parents.push(sp);
                        },
                        _ => {},
                    }
                    k3 = k3 + 1;
                }
            }
            proof {
                // every key of the run is at least two components long:
                // a one-component key would be a prefix of the first one
                assert forall|y: int| ci <= y < gj implies (#[trigger] cv[y].key)@.len() >= 2 by {
                    if cv[y].key@.len() < 2 {
                        assert(cv[y].key@.len() == 1);
                        if y > ci {
                            let a = path_view(cv[ci as int].key@);
                            let b = path_view(cv[y].key@);
                            assert(path_lt(a, b));
                            assert(b.len() == 1);
                            assert(a[0] == name@ && b[0] == name@);
                            crate::keys::lemma_key_lt_irrefl(name@);
                            assert(b.drop_first().len() == 0);
                            assert(!path_lt(a.drop_first(), b.drop_first()));
                            assert(!path_lt(a, b));
                        }
                    }
                }
            }
            // the changes of this run, one component deeper
            let mut sub_changes: Vec<Change> = Vec::new();
            let mut x: usize = ci;
            while x < gj
                invariant
                    ci <= x <= gj,
                    *st == st_a,
                    queue@ == q_a,
                    gj <= cv.len(),
                    cv == changes@,
                    changes_wf(cv),
                    ci < cv.len(),
                    forall|y: int| ci <= y < gj ==> (#[trigger] cv[y].key)@.len() >= 2,
                    forall|y: int| ci <= y < gj ==> (#[trigger] cv[y].key)@[0]@ == name@,
                    sub_changes@.len() == x - ci,
                    forall|y: int|
                        0 <= y < sub_changes@.len() ==> path_view(
                            (#[trigger] sub_changes@[y].key)@,
                        ) == path_view(cv[ci + y].key@).drop_first() && sub_changes@[y].payload
                            == cv[ci + y].payload,
                decreases gj - x,
            {
                let mut key2: Vec<Vec<u8>> = Vec::new();
                let mut c: usize = 1;
                while c < changes[x].key.len()
                    invariant
                        ci <= x < cv.len(),
                        cv == changes@,
                        *st == st_a,
                        queue@ == q_a,
                        1 <= c <= cv[x as int].key@.len(),
                        key2@.len() == c - 1,
                        forall|y: int|
                            0 <= y < key2@.len() ==> (#[trigger] key2@[y])@ == cv[x as int].key@[y
                                + 1]@,
                    decreases cv[x as int].key@.len() - c,
                {
                    let comp = key_copy(&changes[x].key[c]);
                    key2.push(comp);
                    c = c + 1;
                }
                let pay = changes[x].payload;
                sub_changes.push(Change { key: key2, payload: pay });
                proof {
                    assert(path_view(sub_changes@.last().key@) =~= path_view(
                        cv[x as int].key@,
                    ).drop_first());
                }
                x = x + 1;
            }
            proof {
                lemma_sub_changes_wf(cv, sub_changes@, ci as int, gj as int, name@);
                // termination: sub keys are one component shorter
                let m = max_path_len(cv);
                assert forall|y: int|
                    0 <= y < sub_changes@.len() implies (#[trigger] sub_changes@[y].key)@.len()
                    <= m - 1 by {
                    lemma_max_path_len_ge(cv, ci + y);
                    assert(path_view(sub_changes@[y].key@).len() == path_view(
                        cv[ci + y].key@,
                    ).len() - 1);
                }
                lemma_max_path_len_ge(cv, ci as int);
                assert(m >= 2);
                lemma_max_path_len_le(sub_changes@, (m - 1) as nat);
            }
            proof {
                assert(step_ok(*old(st), old(queue)@, *st, queue@));
            }
            let sub_r = merge_dir(st, queue, &sub_parents, &sub_changes);
            proof {
                crate::store::lemma_step_ok_trans(
                    *old(st),
                    old(queue)@,
                    st_a,
                    q_a,
                    *st,
                    queue@,
                );
            }
            let sub = match sub_r {
                Result::Ok(sv) => sv,
                Result::Err(e) => {
                    proof {
                        if parents@.len() <= 1 {
                            assert(sub_parents@.len() <= 1);
                        }
                    }
                    return Result::Err(e);
                },
            };
            proof {
                sub_g = sub;
                sub_scs = sub_changes@;
                if parents@.len() <= 1 {
                    assert(sub_parents@.len() <= 1);
                    // the merged base entry at this name is still the
                    // parent's: no earlier group carried this name
                    assert(flat_get(flat_a, name@) == flat_get(pf0v, name@)) by {
                        if flat_get(flat_a, name@) != flat_get(pf0v, name@) {
                            let y = choose|y: int|
                                0 <= y < ci && (#[trigger] cv[y].key)@[0]@ == name@;
                            assert(key_lt(cv[y].key@[0]@, cv[ci as int].key@[0]@));
                            crate::keys::lemma_key_lt_irrefl(name@);
                        }
                    }
                    let oldsub = (match flat_get(pf0v, name@) {
                        Option::Some(Entry::Directory(po)) => dir_flat(s0, po),
                        _ => Seq::<(Seq<u8>, Entry)>::empty(),
                    });
                    assert(crate::shard::store_extends(s0, st_a.blobs@));
                    assert(parent0_flat(st_a.blobs@, sub_parents@) == oldsub) by {
                        match flat_get(pf0v, name@) {
                            Option::Some(Entry::Directory(po)) => {
                                assert(sub_parents@.len() == 1 && sub_parents@[0] == po);
                                lemma_get_entry_ok(s0, pf0v, name@, s0.len() as int);
                                assert(entry_ok(s0, Entry::Directory(po), s0.len() as int));
                                assert(st_a.blobs@[po.id as int] == s0[po.id as int]);
                                crate::shard::lemma_node_frame(
                                    s0,
                                    st_a.blobs@,
                                    blob_map(s0[po.id as int]),
                                    po.id as int,
                                );
                                assert(dir_flat(st_a.blobs@, po) == dir_flat(s0, po));
                            },
                            _ => {
                                assert(sub_parents@.len() == 0);
                            },
                        }
                    }
                    match sub_g {
                        Option::Some(q) => {
                            assert(leaf_clauses(sub_scs, dir_flat(st.blobs@, q)));
                            assert(untouched_preserved(sub_scs, oldsub, dir_flat(st.blobs@, q)));
                        },
                        Option::None => {
                            assert(leaf_clauses(sub_scs, Seq::<(Seq<u8>, Entry)>::empty()));
                        },
                    }
                }
            }
            match sub {
                Option::Some(sp) => {
                    new_e = Option::Some(Entry::Directory(sp));
                },
                Option::None => {
                    match old_for_sub {
                        Option::Some(Entry::File) => {
                            new_e = Option::None;
                            skip = true;
                        },
                        _ => {
                            new_e = Option::None;
                        },
                    }
                },
            }
            proof {
                // reconcile the store growth with everything held flat
                let sb = st.blobs@;
                lemma_entries_ok_grow(
                    st_a.blobs@,
                    sb,
                    entries_view(flat@),
                    st_a.blobs@.len() as int,
                    sb.len() as int,
                );
                assert forall|x2: int|
                    0 <= x2 < pflats@.len() implies sorted_strict(entries_view(
                    (#[trigger] pflats@[x2])@,
                )) && entries_ok(sb, entries_view((#[trigger] pflats@[x2])@), sb.len() as int) by {
                    lemma_entries_ok_grow(
                        st_a.blobs@,
                        sb,
                        entries_view(pflats@[x2]@),
                        st_a.blobs@.len() as int,
                        sb.len() as int,
                    );
                }
            }
        }
        // apply the new entry for this name and account for the swap
        if !skip {
            let (nf, old_e) = sorted_vec_update(&flat, &name, new_e);
            let ow: u64 = match old_e {
                Option::Some(e) => entry_w(&e),
                Option::None => 0,
            };
            proof {
                lemma_old_weight_le(
                    entries_view(flat@),
                    name@,
                    st.blobs@,
                    st.blobs@.len() as int,
                );
                assert(old_e == flat_get(entries_view(flat@), name@));
                assert(ow as int == opt_weight(old_e));
                assert(ow <= acc);
            }
            let osub = acc.checked_sub(ow);
            let acc2: u64;
            match osub {
                Option::Some(x2) => {
                    acc2 = x2;
                },
                Option::None => {
                    proof {
                        assert(step_ok(*old(st), old(queue)@, *st, queue@));
                    }
                    return Result::Err(EngineError::CountOverflow);
                },
            }
            proof {
                assert(osub == (if acc - ow < 0 {
                    Option::<u64>::None
                } else {
                    Option::Some((acc - ow) as u64)
                }));
                assert(Option::Some(acc2) == osub);
                assert(osub is Some);
                if acc - ow < 0 {
                    assert(osub == Option::<u64>::None);
                    assert(false);
                }
                assert(acc - ow >= 0);
                assert(acc - ow <= u64::MAX);
                assert(acc2 == (acc - ow) as u64);
                assert(acc2 as int == acc - ow);
            }
            let nw: u64 = match new_e {
                Option::Some(e) => entry_w(&e),
                Option::None => 0,
            };
            if nw > u64::MAX - acc2 {
                return Result::Err(EngineError::CountOverflow);
            }
            proof {
                lemma_flat_update_props(entries_view(flat@), name@, new_e);
                lemma_flat_update_sorted(entries_view(flat@), name@, new_e);
                match new_e {
                    Option::Some(e2) => {
                        assert(entry_ok(st.blobs@, e2, st.blobs@.len() as int)) by {
                            match e2 {
                                Entry::File => {},
                                Entry::Directory(sp) => {
                                    lemma_dir_rollup_equation(st.blobs@, sp);
                                },
                            }
                        }
                    },
                    Option::None => {},
                }
                lemma_flat_update_entries_ok(
                    st.blobs@,
                    entries_view(flat@),
                    name@,
                    new_e,
                    st.blobs@.len() as int,
                );
            }
            acc = acc2 + nw;
            flat = nf;
        }
        proof {
            // how the updated mapping reads back
            let newv = entries_view(flat@);
            if !skip {
                assert(newv == flat_update(flat_a, name@, new_e));
            } else {
                assert(newv == flat_a);
            }
            // untouched names keep their entries
            assert forall|nm: Seq<u8>|
                #[trigger] flat_get(newv, nm) != flat_get(pf0v, nm) implies exists|y: int|
                0 <= y < gj && (#[trigger] cv[y].key)@[0]@ == nm by {
                if flat_get(flat_a, nm) != flat_get(pf0v, nm) {
                    let y = choose|y: int| 0 <= y < ci && (#[trigger] cv[y].key)@[0]@ == nm;
                    assert(0 <= y < gj && cv[y].key@[0]@ == nm);
                } else {
                    if !skip {
                        assert(flat_get(flat_update(flat_a, name@, new_e), nm) == flat_get(
                            newv,
                            nm,
                        ));
                        if nm != name@ {
                            assert(flat_get(flat_update(flat_a, name@, new_e), nm) == flat_get(
                                flat_a,
                                nm,
                            ));
                        }
                    }
                    assert(nm == name@);
                    assert(cv[ci as int].key@[0]@ == nm);
                }
            }
            // earlier leaf changes keep their outcome: their names differ
            assert forall|x: int|
                0 <= x < gj && (#[trigger] cv[x].key)@.len() == 1 implies match cv[x].payload {
                Option::Some(fc) => flat_get(newv, cv[x].key@[0]@) == Option::Some(Entry::File),
                Option::None => flat_get(newv, cv[x].key@[0]@) is None,
            } by {
                if x < ci {
                    let nm = cv[x].key@[0]@;
                    assert(key_lt(nm, name@));
                    lemma_key_lt_total(nm, name@);
                    if !skip {
                        assert(flat_get(flat_update(flat_a, name@, new_e), nm) == flat_get(
                            flat_a,
                            nm,
                        ));
                        assert(flat_get(newv, nm) == flat_get(flat_a, nm));
                    }
                } else {
                    assert(ci <= x < gj);
                    assert(cv[x].key@[0]@ == name@);
                    assert(x == ci) by {
                        if x > ci {
                            let a = path_view(cv[ci as int].key@);
                            let b = path_view(cv[x].key@);
                            assert(path_lt(a, b));
                            assert(b.len() == 1);
                            assert(a[0] == name@ && b[0] == name@);
                            crate::keys::lemma_key_lt_irrefl(name@);
                            assert(b.drop_first().len() == 0);
                            assert(!path_lt(a.drop_first(), b.drop_first()));
                            assert(!path_lt(a, b));
                        }
                    }
                    assert(!skip);
                    assert(flat_get(flat_update(flat_a, name@, new_e), name@) == new_e);
                    assert(flat_get(newv, name@) == new_e);
                }
            }
            // the next group starts strictly above everything processed
            assert forall|y: int, x: int|
                0 <= y < gj && gj <= x < cv.len() implies key_lt(
                (#[trigger] cv[y].key)@[0]@,
                (#[trigger] cv[x].key)@[0]@,
            ) by {
                if y >= ci {
                    assert(cv[y].key@[0]@ == name@);
                    assert(key_lt(name@, cv[x].key@[0]@));
                }
            }
            // changes one level deep keep their promise through this group
            if parents@.len() <= 1 {
                assert forall|x: int|
                    0 <= x < gj && (#[trigger] cv[x].key)@.len() == 2 implies match cv[x].payload {
                    Option::Some(fc) => match flat_get(newv, cv[x].key@[0]@) {
                        Option::Some(Entry::Directory(q)) => flat_get(
                            dir_flat(st.blobs@, q),
                            cv[x].key@[1]@,
                        ) == Option::Some(Entry::File),
                        _ => false,
                    },
                    Option::None => match flat_get(newv, cv[x].key@[0]@) {
                        Option::None => true,
                        Option::Some(Entry::File) => true,
                        Option::Some(Entry::Directory(q)) => flat_get(
                            dir_flat(st.blobs@, q),
                            cv[x].key@[1]@,
                        ) is None,
                    },
                } by {
                    let n1 = cv[x].key@[0]@;
                    let n2 = cv[x].key@[1]@;
                    if x < ci {
                        assert(key_lt(n1, name@));
                        lemma_key_lt_total(n1, name@);
                        if !skip {
                            assert(flat_get(flat_update(flat_a, name@, new_e), n1) == flat_get(
                                flat_a,
                                n1,
                            ));
                            assert(flat_get(newv, n1) == flat_get(flat_a, n1));
                        }
                        match flat_get(flat_a, n1) {
                            Option::Some(Entry::Directory(q)) => {
                                lemma_get_entry_ok(
                                    st_a.blobs@,
                                    flat_a,
                                    n1,
                                    st_a.blobs@.len() as int,
                                );
                                assert(entry_ok(
                                    st_a.blobs@,
                                    Entry::Directory(q),
                                    st_a.blobs@.len() as int,
                                ));
                                assert(st.blobs@[q.id as int] == st_a.blobs@[q.id as int]);
                                crate::shard::lemma_node_frame(
                                    st_a.blobs@,
                                    st.blobs@,
                                    blob_map(st_a.blobs@[q.id as int]),
                                    q.id as int,
                                );
                                assert(dir_flat(st.blobs@, q) == dir_flat(st_a.blobs@, q));
                            },
                            _ => {},
                        }
                    } else {
                        assert(ci <= x < gj);
                        assert(cv[x].key@[0]@ == name@);
                        assert(!is_leaf_change) by {
                            if is_leaf_change {
                                assert(gj == ci + 1);
                                assert(x == ci);
                            }
                        }
                        let y = x - ci;
                        assert(path_view(sub_scs[y].key@) == path_view(cv[x].key@).drop_first());
                        assert(path_view(cv[x].key@)[1] == n2);
                        assert(sub_scs[y].key@.len() == 1);
                        assert(sub_scs[y].key@[0]@ == path_view(sub_scs[y].key@)[0]);
                        assert(sub_scs[y].key@[0]@ == n2);
                        assert(sub_scs[y].payload == cv[x].payload);
                        match sub_g {
                            Option::Some(q) => {
                                assert(!skip);
                                assert(new_e == Option::Some(Entry::Directory(q)));
                                assert(flat_get(newv, name@) == new_e);
                                assert(leaf_clauses(sub_scs, dir_flat(st.blobs@, q)));
                            },
                            Option::None => {
                                assert(leaf_clauses(sub_scs, Seq::<(Seq<u8>, Entry)>::empty()));
                                match cv[x].payload {
                                    Option::Some(fc) => {
                                        assert(flat_get(
                                            Seq::<(Seq<u8>, Entry)>::empty(),
                                            n2,
                                        ) == Option::Some(Entry::File));
                                        assert(false);
                                    },
                                    Option::None => {
                                        if skip {
                                            assert(flat_get(newv, name@) == flat_get(
                                                flat_a,
                                                name@,
                                            ));
                                            assert(flat_get(flat_a, name@) == Option::Some(
                                                Entry::File,
                                            ));
                                        } else {
                                            assert(new_e is None);
                                            assert(flat_get(newv, name@) is None);
                                        }
                                    },
                                }
                            },
                        }
                    }
                }
                // untouched names below this group's name ride along
                assert forall|x: int, n2: Seq<u8>|
                    #![trigger sub_touched(cv, cv[x].key@[0]@, n2)]
                    0 <= x < gj && (cv[x].key)@.len() >= 2 && !sub_touched(
                        cv,
                        cv[x].key@[0]@,
                        n2,
                    ) implies match flat_get(newv, cv[x].key@[0]@) {
                    Option::Some(Entry::Directory(qn)) => flat_get(dir_flat(st.blobs@, qn), n2)
                        == flat_get(
                        (match flat_get(pf0v, cv[x].key@[0]@) {
                            Option::Some(Entry::Directory(po)) => dir_flat(s0, po),
                            _ => Seq::<(Seq<u8>, Entry)>::empty(),
                        }),
                        n2,
                    ),
                    _ => true,
                } by {
                    let n1 = cv[x].key@[0]@;
                    if x < ci {
                        assert(key_lt(n1, name@));
                        lemma_key_lt_total(n1, name@);
                        if !skip {
                            assert(flat_get(flat_update(flat_a, name@, new_e), n1) == flat_get(
                                flat_a,
                                n1,
                            ));
                            assert(flat_get(newv, n1) == flat_get(flat_a, n1));
                        }
                        match flat_get(flat_a, n1) {
                            Option::Some(Entry::Directory(qn)) => {
                                lemma_get_entry_ok(
                                    st_a.blobs@,
                                    flat_a,
                                    n1,
                                    st_a.blobs@.len() as int,
                                );
                                assert(entry_ok(
                                    st_a.blobs@,
                                    Entry::Directory(qn),
                                    st_a.blobs@.len() as int,
                                ));
                                assert(st.blobs@[qn.id as int] == st_a.blobs@[qn.id as int]);
                                crate::shard::lemma_node_frame(
                                    st_a.blobs@,
                                    st.blobs@,
                                    blob_map(st_a.blobs@[qn.id as int]),
                                    qn.id as int,
                                );
                                assert(dir_flat(st.blobs@, qn) == dir_flat(st_a.blobs@, qn));
                            },
                            _ => {},
                        }
                    } else {
                        assert(cv[x].key@[0]@ == name@);
                        assert(!is_leaf_change) by {
                            if is_leaf_change {
                                assert(gj == ci + 1);
                                assert(x == ci);
                            }
                        }
                        assert(!touched(sub_scs, n2)) by {
                            if touched(sub_scs, n2) {
                                let y = choose|y: int|
                                    0 <= y < sub_scs.len() && (#[trigger] sub_scs[y].key)@.len()
                                        > 0 && sub_scs[y].key@[0]@ == n2;
                                assert(path_view(sub_scs[y].key@) == path_view(
                                    cv[ci + y].key@,
                                ).drop_first());
                                assert(cv[ci + y].key@.len() >= 2);
                                assert(path_view(cv[ci + y].key@)[1] == cv[ci + y].key@[1]@);
                                assert(sub_scs[y].key@[0]@ == path_view(sub_scs[y].key@)[0]);
                                assert(cv[ci + y].key@[1]@ == n2);
                                assert(cv[ci + y].key@[0]@ == name@);
                                assert(sub_touched(cv, name@, n2));
                            }
                        }
                        match sub_g {
                            Option::Some(q) => {
                                assert(!skip);
                                assert(flat_get(newv, name@) == Option::Some(
                                    Entry::Directory(q),
                                ));
                                assert(untouched_preserved(
                                    sub_scs,
                                    (match flat_get(pf0v, name@) {
                                        Option::Some(Entry::Directory(po)) => dir_flat(s0, po),
                                        _ => Seq::<(Seq<u8>, Entry)>::empty(),
                                    }),
                                    dir_flat(st.blobs@, q),
                                ));
                            },
                            Option::None => {
                                if skip {
                                    assert(flat_get(newv, name@) == flat_get(flat_a, name@));
                                    assert(flat_get(flat_a, name@) == Option::Some(Entry::File));
                                } else {
                                    assert(flat_get(newv, name@) is None);
                                }
                            },
                        }
                    }
                }
            }
        }
        ci = gj;
    }
    proof {
        // with nothing to merge and nothing changed, nothing is produced
        if parents@.len() == 0 && cv.len() == 0 {
            assert(pf0v =~= Seq::<(Seq<u8>, Entry)>::empty());
            let fv2 = entries_view(flat@);
            if fv2.len() > 0 {
                assert(flat_get(fv2, fv2[0].0) == Option::Some(fv2[0].1));
                assert(flat_get(fv2, fv2[0].0) == flat_get(pf0v, fv2[0].0));
            }
            assert(entries_view(flat@).len() == 0);
            assert(flat@.len() == 0);
        }
    }
    // conclude: an empty mapping yields no node, anything else becomes a
    // stored directory blob with the accumulated rollup count
    if flat.len() == 0 {
        proof {
            assert(entries_view(flat@) =~= Seq::<(Seq<u8>, Entry)>::empty());
            assert forall|k: int, nm: Seq<u8>|
                0 <= k < parents@.len() && !touched(cv, nm) implies #[trigger] flat_get(
                dir_flat(s0, parents@[k]),
                nm,
            ) == flat_get(Seq::<(Seq<u8>, Entry)>::empty(), nm) by {
                assert(flat_get(entries_view(flat@), nm) == flat_get(pf0v, nm));
            }
            if parents@.len() == 1 && cv.len() == 0 {
                assert(pf0v == dir_flat(s0, parents@[0]));
                assert(dir_flat(s0, parents@[0]).len() == 0);
            }
            if parents@.len() <= 1 {
                assert(deep_untouched_preserved(
                    s0,
                    st.blobs@,
                    parent0_flat(s0, parents@),
                    cv,
                    Seq::<(Seq<u8>, Entry)>::empty(),
                )) by {
                    assert forall|x: int, n2: Seq<u8>|
                        #![trigger sub_touched(cv, cv[x].key@[0]@, n2)]
                        0 <= x < cv.len() implies flat_get(
                        Seq::<(Seq<u8>, Entry)>::empty(),
                        cv[x].key@[0]@,
                    ) is None by {}
                }
                assert(two_level_clauses(
                    st.blobs@,
                    cv,
                    Seq::<(Seq<u8>, Entry)>::empty(),
                )) by {
                    assert forall|x: int|
                        0 <= x < cv.len() && (#[trigger] cv[x].key)@.len() == 2 implies match cv[x].payload {
                        Option::Some(fc) => match flat_get(
                            Seq::<(Seq<u8>, Entry)>::empty(),
                            cv[x].key@[0]@,
                        ) {
                            Option::Some(Entry::Directory(q)) => flat_get(
                                dir_flat(st.blobs@, q),
                                cv[x].key@[1]@,
                            ) == Option::Some(Entry::File),
                            _ => false,
                        },
                        Option::None => true,
                    } by {
                        match cv[x].payload {
                            Option::Some(fc) => {
                                assert(flat_get(entries_view(flat@), cv[x].key@[0]@) is None);
                            },
                            Option::None => {},
                        }
                    }
                }
            }
        }
        return Result::Ok(Option::None);
    }
    if acc == u64::MAX {
        proof {
            if parents@.len() == 1 && cv.len() == 0 {
                assert(acc as int == weight(pf0v));
                assert(parents@[0].rollup as int - 1 == acc as int);
            }
        }
        return Result::Err(EngineError::CountOverflow);
    }
    let ghost fv = entries_view(flat@);
    let ghost st_m = *st;
    let ghost q_m = queue@;
    let rollup: u64 = acc + 1;
    let map_node = from_entries(st, queue, flat);
    let ghost st_n = *st;
    let ghost q_n = queue@;
    let ghost s2 = st.blobs@;
    proof {
        assert(crate::shard::blob_ok(
            s2.push(Blob::Dir { map: map_node, rollup }),
            s2.len() as int,
        )) by {
            crate::shard::lemma_node_frame(
                s2,
                s2.push(Blob::Dir { map: map_node, rollup }),
                map_node,
                s2.len() as int,
            );
        }
    }
    let id = st.put(Blob::Dir { map: map_node, rollup });
    queue.push(id);
    let ptr = DirPtr { id, rollup };
    proof {
        let s3 = st.blobs@;
        let stored = blob_map(s3[id as int]);
        assert(crate::node::blob_eqv(s3[id as int], Blob::Dir { map: map_node, rollup }));
        assert(is_dir_blob(s3[id as int]));
        assert(dir_rollup(s3[id as int]) == rollup);
        if id < s2.len() {
            assert(s3 == s2);
            assert(crate::shard::blob_ok(s3, id as int));
            assert(node_wf(s3, stored, id as int));
            crate::shard::lemma_node_bound_mono(s3, stored, id as int, s3.len() as int);
            crate::shard::lemma_node_eqv_same(s3, stored, map_node, s3.len() as int);
            assert(dir_flat(s3, ptr) == fv);
        } else {
            assert(s3 == s2.push(Blob::Dir { map: map_node, rollup }));
            crate::shard::lemma_node_frame(s2, s3, map_node, s2.len() as int);
            crate::shard::lemma_node_eqv_same(s3, map_node, stored, id as int);
            assert(node_wf(s3, stored, id as int));
            crate::shard::lemma_node_bound_mono(s3, stored, id as int, s3.len() as int);
            assert(dir_flat(s3, ptr) == fv);
        }
        assert(dir_ptr_ok(s3, ptr));
        assert(step_ok(st_n, q_n, *st, queue@)) by {
            assert(queue@ == q_n.push(id));
            assert forall|x2: int|
                st_n.blobs@.len() <= x2 < s3.len() implies crate::store::queued(queue@, x2) by {
                assert(queue@[queue@.len() - 1] == id);
                assert(id as int == x2);
            }
        }
        crate::store::lemma_step_ok_trans(*old(st), old(queue)@, st_m, q_m, st_n, q_n);
        crate::store::lemma_step_ok_trans(*old(st), old(queue)@, st_n, q_n, *st, queue@);
        assert(queue_wf(queue@, s3)) by {
            assert forall|x2: int| 0 <= x2 < queue@.len() implies (#[trigger] queue@[x2])
                < s3.len() by {
                if x2 < q_n.len() {
                    assert(queue@[x2] == q_n[x2]);
                } else {
                    assert(queue@[x2] == id);
                }
            }
        }
        assert forall|k: int, nm: Seq<u8>|
            0 <= k < parents@.len() && !touched(cv, nm) implies #[trigger] flat_get(
            dir_flat(s0, parents@[k]),
            nm,
        ) == flat_get(dir_flat(s3, ptr), nm) by {
            assert(flat_get(fv, nm) == flat_get(pf0v, nm));
        }
        if parents@.len() == 1 && cv.len() == 0 {
            assert(fv == dir_flat(s0, parents@[0]));
            assert(dir_flat(s0, parents@[0]).len() > 0);
            assert(dir_ptr_ok(s3, parents@[0])) by {
                assert(s3[parents@[0].id as int] == s0[parents@[0].id as int]);
            }
            assert(dir_flat(s3, parents@[0]) == dir_flat(s0, parents@[0])) by {
                crate::shard::lemma_node_frame(
                    s0,
                    s3,
                    blob_map(s0[parents@[0].id as int]),
                    parents@[0].id as int,
                );
            }
            lemma_same_content_same_address(*st, ptr, parents@[0]);
            assert(ptr == parents@[0]);
        }
        if parents@.len() <= 1 {
            assert forall|x: int, n2: Seq<u8>|
                #![trigger sub_touched(cv, cv[x].key@[0]@, n2)]
                0 <= x < cv.len() && (cv[x].key)@.len() >= 2 && !sub_touched(
                    cv,
                    cv[x].key@[0]@,
                    n2,
                ) implies match flat_get(fv, cv[x].key@[0]@) {
                Option::Some(Entry::Directory(qn)) => flat_get(dir_flat(s3, qn), n2) == flat_get(
                    (match flat_get(pf0v, cv[x].key@[0]@) {
                        Option::Some(Entry::Directory(po)) => dir_flat(s0, po),
                        _ => Seq::<(Seq<u8>, Entry)>::empty(),
                    }),
                    n2,
                ),
                _ => true,
            } by {
                match flat_get(fv, cv[x].key@[0]@) {
                    Option::Some(Entry::Directory(qn)) => {
                        lemma_get_entry_ok(
                            st_m.blobs@,
                            fv,
                            cv[x].key@[0]@,
                            st_m.blobs@.len() as int,
                        );
                        assert(entry_ok(
                            st_m.blobs@,
                            Entry::Directory(qn),
                            st_m.blobs@.len() as int,
                        ));
                        assert(s3[qn.id as int] == st_m.blobs@[qn.id as int]);
                        crate::shard::lemma_node_frame(
                            st_m.blobs@,
                            s3,
                            blob_map(st_m.blobs@[qn.id as int]),
                            qn.id as int,
                        );
                        assert(dir_flat(s3, qn) == dir_flat(st_m.blobs@, qn));
                    },
                    _ => {},
                }
            }
            assert forall|x: int|
                0 <= x < cv.len() && (#[trigger] cv[x].key)@.len() == 2 implies match cv[x].payload {
                Option::Some(fc) => match flat_get(fv, cv[x].key@[0]@) {
                    Option::Some(Entry::Directory(q)) => flat_get(
                        dir_flat(s3, q),
                        cv[x].key@[1]@,
                    ) == Option::Some(Entry::File),
                    _ => false,
                },
                Option::None => match flat_get(fv, cv[x].key@[0]@) {
                    Option::None => true,
                    Option::Some(Entry::File) => true,
                    Option::Some(Entry::Directory(q)) => flat_get(
                        dir_flat(s3, q),
                        cv[x].key@[1]@,
                    ) is None,
                },
            } by {
                match flat_get(fv, cv[x].key@[0]@) {
                    Option::Some(Entry::Directory(q)) => {
                        lemma_get_entry_ok(
                            st_m.blobs@,
                            fv,
                            cv[x].key@[0]@,
                            st_m.blobs@.len() as int,
                        );
                        assert(entry_ok(
                            st_m.blobs@,
                            Entry::Directory(q),
                            st_m.blobs@.len() as int,
                        ));
                        assert(s3[q.id as int] == st_m.blobs@[q.id as int]);
                        crate::shard::lemma_node_frame(
                            st_m.blobs@,
                            s3,
                            blob_map(st_m.blobs@[q.id as int]),
                            q.id as int,
                        );
                        assert(dir_flat(s3, q) == dir_flat(st_m.blobs@, q));
                    },
                    _ => {},
                }
            }
        }
    }
    Result::Ok(Option::Some(ptr))
}

/// A found directory entry is sound wherever the list's entries are.
pub proof fn lemma_get_entry_ok(
    s: Seq<Blob>,
    ev: Seq<(Seq<u8>, Entry)>,
    k: Seq<u8>,
    bound: int,
)
    requires
        entries_ok(s, ev, bound),
    ensures
        match flat_get(ev, k) {
            Option::Some(e) => entry_ok(s, e, bound),
            Option::None => true,
        },
    decreases ev.len(),
{
    if ev.len() > 0 {
        assert(entry_ok(s, ev[0].1, bound));
        assert(entries_ok(s, ev.drop_first(), bound)) by {
            assert(forall|j: int|
                0 <= j < ev.drop_first().len() ==> #[trigger] entry_ok(
                    s,
                    ev.drop_first()[j].1,
                    bound,
                ));
        }
        lemma_get_entry_ok(s, ev.drop_first(), k, bound);
    }
}

/// The changes of one run, one component deeper, are well-formed.
pub proof fn lemma_sub_changes_wf(
    cv: Seq<Change>,
    sub: Seq<Change>,
    ci: int,
    gj: int,
    name: Seq<u8>,
)
    requires
        changes_wf(cv),
        0 <= ci < gj <= cv.len(),
        sub.len() == gj - ci,
        forall|y: int| ci <= y < gj ==> (#[trigger] cv[y].key)@[0]@ == name,
        forall|y: int| ci <= y < gj ==> (#[trigger] cv[y].key)@.len() >= 2,
        forall|y: int|
            0 <= y < sub.len() ==> path_view((#[trigger] sub[y].key)@) == path_view(
                cv[ci + y].key@,
            ).drop_first(),
    ensures
        changes_wf(sub),
{
    assert forall|i: int| 0 <= i < sub.len() implies (#[trigger] sub[i].key)@.len() > 0 by {
        assert(path_view(sub[i].key@).len() == cv[ci + i].key@.len() - 1);
    }
    assert forall|i: int, c: int|
        0 <= i < sub.len() && 0 <= c < sub[i].key@.len() implies (#[trigger] sub[i].key@[c])@.len()
        > 0 by {
        assert(0 <= ci + i < cv.len());
        assert(cv[ci + i].key@.len() >= 2);
        assert(path_view(sub[i].key@).len() == sub[i].key@.len());
        assert(path_view(sub[i].key@) == path_view(cv[ci + i].key@).drop_first());
        assert(sub[i].key@.len() == cv[ci + i].key@.len() - 1);
        assert(0 <= c + 1 < cv[ci + i].key@.len());
        assert(path_view(sub[i].key@)[c] == path_view(cv[ci + i].key@).drop_first()[c]);
        assert(path_view(cv[ci + i].key@)[c + 1] == cv[ci + i].key@[c + 1]@);
        assert(cv[ci + i].key@[c + 1]@.len() > 0);
        assert(sub[i].key@[c]@ == path_view(sub[i].key@)[c]);
    }
    assert forall|i: int, j: int| 0 <= i < j < sub.len() implies path_lt(
        path_view((#[trigger] sub[i].key)@),
        path_view((#[trigger] sub[j].key)@),
    ) by {
        assert(path_lt(path_view(cv[ci + i].key@), path_view(cv[ci + j].key@)));
        let a = path_view(cv[ci + i].key@);
        let b = path_view(cv[ci + j].key@);
        assert(a[0] == name && b[0] == name);
        assert(a.len() >= 2 && b.len() >= 2);
        crate::keys::lemma_key_lt_irrefl(name);
        assert(path_lt(a.drop_first(), b.drop_first()));
    }
    assert forall|i: int, j: int|
        0 <= i < sub.len() && 0 <= j < sub.len() && i != j implies !path_prefix(
        path_view((#[trigger] sub[i].key)@),
        path_view((#[trigger] sub[j].key)@),
    ) by {
        let a = path_view(cv[ci + i].key@);
        let b = path_view(cv[ci + j].key@);
        assert(!path_prefix(a, b));
        if path_prefix(path_view(sub[i].key@), path_view(sub[j].key@)) {
            assert(a.len() < b.len());
            assert forall|c: int| 0 <= c < a.len() implies a[c] == #[trigger] b[c] by {
                if c == 0 {
                } else {
                    assert(a.drop_first()[c - 1] == b.subrange(
                        0,
                        a.len() as int,
                    ).drop_first()[c - 1]);
                    assert(a.drop_first()[c - 1] == path_view(sub[i].key@)[c - 1]);
                    assert(path_view(sub[j].key@).subrange(0, a.len() - 1)[c - 1] == b.drop_first()[c
                        - 1]);
                }
            }
            assert(a =~= b.subrange(0, a.len() as int));
        }
    }
}



} // verus!
