//! The root deriver: the entry point of the engine.
//!
//! A changeset's transformed changes and its parents' already-derived
//! roots go through the tree merge engine at the root prefix.  When the
//! engine produces nothing — zero parents and zero changes, or a changeset
//! that removes everything — the canonical empty directory node stands in.
//! The derivation is published only after the pending-write queue has been
//! drained: the returned root and every node below it are durable, so a
//! caller never observes a partially persisted tree.

use vstd::prelude::*;

use crate::merge::EngineError;
use crate::merge::dir_flat;
use crate::merge::dir_ptr_ok;
use crate::merge::leaf_clauses;
use crate::merge::lemma_dir_rollup_equation;
use crate::merge::merge_dir;
use crate::merge::parent0_flat;
use crate::merge::untouched_preserved;
use crate::node::Blob;
use crate::node::Change;
use crate::node::DirPtr;
use crate::node::Entry;
use crate::node::MapNode;
use crate::node::blob_map;
use crate::node::changes_wf;
use crate::node::entries_view;
use crate::shard::weight;
use crate::store::Store;
use crate::store::queue_wf;
use crate::store::queued;
use crate::store::store_wf;

verus! {

/// Executes every queued write: after the drain a blob is durable exactly
/// when it already was or when it was queued.
fn drain(st: &mut Store, queue: &Vec<usize>)
    requires
        store_wf(*old(st)),
        queue_wf(queue@, old(st).blobs@),
    ensures
        store_wf(*final(st)),
        final(st).blobs@ == old(st).blobs@,
        final(st).durable@.len() == old(st).durable@.len(),
        forall|i: int|
            0 <= i < final(st).durable@.len() && old(st).durable@[i]
                ==> final(st).durable@[i],
        forall|i: int|
            0 <= i < final(st).durable@.len() && queued(queue@, i) ==> final(st).durable@[i],
{
    let mut k: usize = 0;
    while k < queue.len()
        invariant
            0 <= k <= queue@.len(),
            store_wf(*st),
            queue_wf(queue@, st.blobs@),
            st.blobs@ == old(st).blobs@,
            st.durable@.len() == old(st).durable@.len(),
            forall|i: int|
                0 <= i < st.durable@.len() ==> st.durable@[i] == (old(st).durable@[i] || exists|
                    x: int,
                |
                    0 <= x < k && queue@[x] as int == i),
        decreases queue@.len() - k,
    {
        let id = queue[k];
        st.mark_durable(id);
        proof {
            assert forall|i: int|
                0 <= i < st.durable@.len() implies st.durable@[i] == (old(st).durable@[i]
                || exists|x: int| 0 <= x < k + 1 && queue@[x] as int == i) by {
                if i == id as int {
                    assert(queue@[k as int] as int == i);
                } else {
                    if exists|x: int| 0 <= x < k && queue@[x] as int == i {
                    }
                }
            }
        }
        k = k + 1;
    }
    proof {
        assert forall|i: int|
            0 <= i < st.durable@.len() && queued(queue@, i) implies st.durable@[i] by {
            let x = choose|x: int| 0 <= x < queue@.len() && queue@[x] as int == i;
            assert(0 <= x < queue@.len() && queue@[x] as int == i);
        }
    }
}

/// Derives one changeset: merges the parents' roots with the transformed
/// changes, synthesizes the canonical empty root when nothing is produced,
/// and waits for every queued write before publishing the result.
///
/// On success every blob of the store is durable, so the returned root and
/// all its descendants are; a failed derivation publishes nothing.
#[verifier::rlimit(100)]
pub fn derive(st: &mut Store, parents: &Vec<DirPtr>, changes: &Vec<Change>) -> (r: Result<
    DirPtr,
    EngineError,
>)
    requires
        store_wf(*old(st)),
        forall|i: int| 0 <= i < old(st).durable@.len() ==> old(st).durable@[i],
        forall|k: int|
            0 <= k < parents@.len() ==> dir_ptr_ok(old(st).blobs@, #[trigger] parents@[k]),
        changes_wf(changes@),
    ensures
        store_wf(*final(st)),
        crate::shard::store_extends(old(st).blobs@, final(st).blobs@),
        match r {
            Result::Ok(root) => {
                &&& dir_ptr_ok(final(st).blobs@, root)
                &&& root.rollup as int == 1 + weight(dir_flat(final(st).blobs@, root))
                &&& forall|i: int|
                    0 <= i < final(st).durable@.len() ==> final(st).durable@[i]
                &&& (parents@.len() == 0 && changes@.len() == 0 ==> root.rollup == 1 && dir_flat(
                    final(st).blobs@,
                    root,
                ).len() == 0)
                &&& (parents@.len() <= 1 ==> untouched_preserved(
                    changes@,
                    parent0_flat(old(st).blobs@, parents@),
                    dir_flat(final(st).blobs@, root),
                ))
                &&& (parents@.len() <= 1 ==> leaf_clauses(
                    changes@,
                    dir_flat(final(st).blobs@, root),
                ))
                &&& forall|k: int|
                    0 <= k < parents@.len() ==> untouched_preserved(
                        changes@,
                        dir_flat(old(st).blobs@, #[trigger] parents@[k]),
                        dir_flat(final(st).blobs@, root),
                    )
                &&& (parents@.len() <= 1 ==> crate::merge::two_level_clauses(
                    final(st).blobs@,
                    changes@,
                    dir_flat(final(st).blobs@, root),
                ))
                &&& (parents@.len() <= 1 ==> crate::merge::deep_untouched_preserved(
                    old(st).blobs@,
                    final(st).blobs@,
                    parent0_flat(old(st).blobs@, parents@),
                    changes@,
                    dir_flat(final(st).blobs@, root),
                ))
            },
            Result::Err(e) => e == EngineError::UnresolvedDivergence || e
                == EngineError::CountOverflow,
        },
        parents@.len() <= 1 ==> r != Result::<DirPtr, EngineError>::Err(
            EngineError::UnresolvedDivergence,
        ),
        parents@.len() == 0 && changes@.len() == 0 ==> r is Ok,
        parents@.len() == 1 && changes@.len() == 0 ==> r == Result::<
            DirPtr,
            EngineError,
        >::Ok(parents@[0]),
        r == Result::<DirPtr, EngineError>::Err(EngineError::UnresolvedDivergence) ==> (exists|
            k2: int,
            nm: Seq<u8>,
        |
            #![trigger crate::shard::flat_get(dir_flat(old(st).blobs@, parents@[k2]), nm)]
            0 <= k2 < parents@.len() && !crate::node::touched(changes@, nm)
                && crate::shard::flat_get(dir_flat(old(st).blobs@, parents@[0]), nm)
                != crate::shard::flat_get(dir_flat(old(st).blobs@, parents@[k2]), nm)) || (exists|
            x: int,
        | 0 <= x < changes@.len() && (#[trigger] changes@[x].key)@.len() >= 2),
{
    let mut queue: Vec<usize> = Vec::new();
    let merged = merge_dir(st, &mut queue, parents, changes);
    let root: DirPtr;
    let ghost mid = *st;
    let ghost qv = queue@;
    match merged {
        Result::Err(e) => {
            return Result::Err(e);
        },
        Result::Ok(Option::Some(p)) => {
            root = p;
            proof {
                lemma_dir_rollup_equation(st.blobs@, root);
                assert(crate::store::step_ok(*old(st), Seq::<usize>::empty(), *st, queue@));
                if parents@.len() == 1 && changes@.len() == 0 {
                    assert(root == parents@[0]);
                }
            }
        },
        Result::Ok(Option::None) => {
            // only an empty result: synthesize the canonical empty root
            let empty_map = MapNode::Leaf { entries: Vec::new() };
            let ghost em = empty_map;
            proof {
                let s2 = st.blobs@;
                let b = Blob::Dir { map: em, rollup: 1 };
                assert(entries_view(em->Leaf_entries@) =~= Seq::<(Seq<u8>, Entry)>::empty());
                assert(crate::shard::blob_ok(s2.push(b), s2.len() as int)) by {
                    crate::shard::lemma_node_frame(s2, s2.push(b), em, s2.len() as int);
                    assert(weight(Seq::<(Seq<u8>, Entry)>::empty()) == 0);
                }
            }
            let id = st.put(Blob::Dir { map: empty_map, rollup: 1 });
            queue.push(id);
            root = DirPtr { id, rollup: 1 };
            proof {
                let s3 = st.blobs@;
                let stored = blob_map(s3[id as int]);
                assert(crate::node::blob_eqv(s3[id as int], Blob::Dir { map: em, rollup: 1 }));
                assert(crate::node::node_eqv(stored, em));
                crate::shard::lemma_node_eqv_same(s3, stored, em, id as int);
                assert(node_flat_empty_len(s3, em, id as int));
                lemma_dir_rollup_equation(s3, root);
                assert(dir_flat(s3, root).len() == 0);
                assert(dir_flat(s3, root) =~= Seq::<(Seq<u8>, Entry)>::empty());
                assert(crate::store::step_ok(mid, qv, *st, queue@)) by {
                    assert(queue@ == qv.push(id));
                    assert forall|x: int|
                        mid.blobs@.len() <= x < s3.len() implies queued(queue@, x) by {
                        assert(queue@[queue@.len() - 1] == id);
                        assert(id as int == x);
                    }
                }
                crate::store::lemma_step_ok_trans(
                    *old(st),
                    Seq::<usize>::empty(),
                    mid,
                    qv,
                    *st,
                    queue@,
                );
                if parents@.len() == 1 && changes@.len() == 0 {
                    let p0 = parents@[0];
                    assert(dir_flat(old(st).blobs@, p0).len() == 0);
                    assert(crate::merge::dir_ptr_ok(s3, p0)) by {
                        assert(s3[p0.id as int] == old(st).blobs@[p0.id as int]);
                    }
                    assert(dir_flat(s3, p0) == dir_flat(old(st).blobs@, p0)) by {
                        crate::shard::lemma_node_frame(
                            old(st).blobs@,
                            s3,
                            blob_map(old(st).blobs@[p0.id as int]),
                            p0.id as int,
                        );
                    }
                    assert(dir_flat(s3, p0) =~= dir_flat(s3, root));
                    crate::merge::lemma_same_content_same_address(*st, root, p0);
                    assert(root == p0);
                }
            }
        },
    }
    let ghost pre_drain = *st;
    proof {
        assert(crate::store::step_ok(*old(st), Seq::<usize>::empty(), pre_drain, queue@));
    }
    drain(st, &queue);
    proof {
        // everything old was durable, everything new was queued
        assert forall|i: int| 0 <= i < st.durable@.len() implies st.durable@[i] by {
            if i < old(st).durable@.len() {
                assert(pre_drain.durable@[i] == old(st).durable@[i]);
                assert(old(st).durable@[i]);
                assert(pre_drain.durable@[i]);
            } else {
                assert(i < pre_drain.blobs@.len());
                assert(old(st).blobs@.len() <= i);
                assert(queued(queue@, i));
            }
        }
        crate::shard::lemma_node_frame(
            pre_drain.blobs@,
            st.blobs@,
            blob_map(st.blobs@[root.id as int]),
            root.id as int,
        );
        lemma_dir_rollup_equation(st.blobs@, root);
        assert(dir_ptr_ok(st.blobs@, root));
        assert(root.rollup as int == 1 + weight(dir_flat(st.blobs@, root)));
        if parents@.len() == 0 && changes@.len() == 0 {
            // an empty derivation can hold no entry: any entry would have
            // had to come, unchanged, from a parent that is not there
            let rf = dir_flat(st.blobs@, root);
            if rf.len() > 0 {
                let nm = rf[0].0;
                assert(!crate::node::touched(changes@, nm));
                assert(crate::shard::flat_get(rf, nm) == crate::shard::flat_get(
                    parent0_flat(old(st).blobs@, parents@),
                    nm,
                ));
                assert(crate::shard::flat_get(rf, nm) == Option::Some(rf[0].1));
                assert(parent0_flat(old(st).blobs@, parents@) =~= Seq::<(Seq<u8>, Entry)>::empty());
                assert(crate::shard::flat_get(
                    parent0_flat(old(st).blobs@, parents@),
                    nm,
                ) is None);
            }
            assert(rf.len() == 0);
            assert(rf =~= Seq::<(Seq<u8>, Entry)>::empty());
            assert(weight(Seq::<(Seq<u8>, Entry)>::empty()) == 0);
            assert(root.rollup == 1);
            assert(dir_flat(st.blobs@, root).len() == 0);
        }
        if parents@.len() <= 1 {
            assert(untouched_preserved(
                changes@,
                parent0_flat(old(st).blobs@, parents@),
                dir_flat(st.blobs@, root),
            ));
            assert(leaf_clauses(changes@, dir_flat(st.blobs@, root)));
            assert forall|x: int|
                0 <= x < changes@.len() && (#[trigger] changes@[x].key)@.len() == 2
                implies match changes@[x].payload {
                Option::Some(fc) => match crate::shard::flat_get(
                    dir_flat(st.blobs@, root),
                    changes@[x].key@[0]@,
                ) {
                    Option::Some(Entry::Directory(q)) => crate::shard::flat_get(
                        dir_flat(st.blobs@, q),
                        changes@[x].key@[1]@,
                    ) == Option::Some(Entry::File),
                    _ => false,
                },
                Option::None => match crate::shard::flat_get(
                    dir_flat(st.blobs@, root),
                    changes@[x].key@[0]@,
                ) {
                    Option::None => true,
                    Option::Some(Entry::File) => true,
                    Option::Some(Entry::Directory(q)) => crate::shard::flat_get(
                        dir_flat(st.blobs@, q),
                        changes@[x].key@[1]@,
                    ) is None,
                },
            } by {
                match merged {
                    Result::Ok(Option::Some(p)) => {
                        assert(root == p);
                        assert(crate::merge::two_level_clauses(
                            mid.blobs@,
                            changes@,
                            crate::merge::merge_result_flat(mid.blobs@, merged),
                        ));
                    },
                    Result::Ok(Option::None) => {
                        assert(dir_flat(st.blobs@, root) =~= Seq::<(Seq<u8>, Entry)>::empty());
                        assert(crate::merge::two_level_clauses(
                            mid.blobs@,
                            changes@,
                            Seq::<(Seq<u8>, Entry)>::empty(),
                        ));
                        match changes@[x].payload {
                            Option::Some(fc) => {
                                assert(crate::shard::flat_get(
                                    Seq::<(Seq<u8>, Entry)>::empty(),
                                    changes@[x].key@[0]@,
                                ) is None);
                                assert(false);
                            },
                            Option::None => {},
                        }
                    },
                    Result::Err(e) => {
                        assert(false);
                    },
                }
            }
            assert(crate::merge::deep_untouched_preserved(
                old(st).blobs@,
                st.blobs@,
                parent0_flat(old(st).blobs@, parents@),
                changes@,
                dir_flat(st.blobs@, root),
            )) by {
                match merged {
                    Result::Ok(Option::Some(p)) => {
                        assert(root == p);
                        assert(crate::merge::deep_untouched_preserved(
                            old(st).blobs@,
                            mid.blobs@,
                            parent0_flat(old(st).blobs@, parents@),
                            changes@,
                            crate::merge::merge_result_flat(mid.blobs@, merged),
                        ));
                    },
                    Result::Ok(Option::None) => {
                        assert(dir_flat(st.blobs@, root) =~= Seq::<(Seq<u8>, Entry)>::empty());
                        assert forall|x: int, n2: Seq<u8>|
                            #![trigger crate::merge::sub_touched(changes@, changes@[x].key@[0]@, n2)]
                            0 <= x < changes@.len() implies crate::shard::flat_get(
                            dir_flat(st.blobs@, root),
                            changes@[x].key@[0]@,
                        ) is None by {}
                    },
                    Result::Err(e) => {
                        assert(false);
                    },
                }
            }
        }
        assert forall|k: int| 0 <= k < parents@.len() implies untouched_preserved(
            changes@,
            dir_flat(old(st).blobs@, #[trigger] parents@[k]),
            dir_flat(st.blobs@, root),
        ) by {
            let pk = dir_flat(old(st).blobs@, parents@[k]);
            let rf = dir_flat(st.blobs@, root);
            assert forall|nm: Seq<u8>| !crate::node::touched(changes@, nm) implies #[trigger]
                crate::shard::flat_get(rf, nm) == crate::shard::flat_get(pk, nm) by {
                match merged {
                    Result::Ok(Option::Some(p)) => {
                        assert(root == p);
                        assert(crate::shard::flat_get(
                            crate::merge::merge_result_flat(mid.blobs@, merged),
                            nm,
                        ) == crate::shard::flat_get(pk, nm));
                    },
                    Result::Ok(Option::None) => {
                        assert(rf =~= Seq::<(Seq<u8>, Entry)>::empty());
                        assert(crate::shard::flat_get(
                            crate::merge::merge_result_flat(mid.blobs@, merged),
                            nm,
                        ) == crate::shard::flat_get(pk, nm));
                        assert(crate::merge::merge_result_flat(mid.blobs@, merged)
                            =~= Seq::<(Seq<u8>, Entry)>::empty());
                    },
                    Result::Err(e) => {
                        assert(false);
                    },
                }
            }
        }
    }
    Result::Ok(root)
}

/// Recounts a rollup by full re-traversal of the stored tree: the answer
/// always equals the maintained count, whichever construction mode built
/// each node.
#[verifier::rlimit(100)]
pub fn rollup_recount(st: &Store, p: DirPtr) -> (r: u64)
    requires
        store_wf(*st),
        dir_ptr_ok(st.blobs@, p),
    ensures
        r == p.rollup,
    decreases p.id,
{
    proof {
        lemma_dir_rollup_equation(st.blobs@, p);
    }
    let blob = st.get(p.id);
    let m: &MapNode = match blob {
        Blob::Dir { map, rollup } => map,
        Blob::Frag { map } => map,
    };
    let fv = crate::shard::flatten(st, m, p.id);
    let ghost fvv = entries_view(fv@);
    let mut total: u64 = 1;
    let mut i: usize = 0;
    while i < fv.len()
        invariant
            0 <= i <= fv@.len(),
            store_wf(*st),
            dir_ptr_ok(st.blobs@, p),
            fvv == entries_view(fv@),
            fvv == dir_flat(st.blobs@, p),
            p.rollup as int == 1 + weight(fvv),
            crate::shard::entries_ok(st.blobs@, fvv, p.id as int),
            total as int == 1 + weight(fvv.subrange(0, i as int)),
        decreases fv@.len() - i,
    {
        proof {
            assert(crate::shard::entry_ok(st.blobs@, fvv[i as int].1, p.id as int));
            assert(fvv.subrange(0, i + 1) =~= fvv.subrange(0, i as int) + seq![fvv[i as int]]);
            crate::shard::lemma_weight_concat(fvv.subrange(0, i as int), seq![fvv[i as int]]);
            crate::merge::lemma_weight_one(fvv[i as int]);
            crate::merge::lemma_weight_suffix_nonneg(fvv, i + 1);
        }
        let w: u64 = match fv[i].1 {
            Entry::File => 1,
            Entry::Directory(p2) => rollup_recount(st, p2),
        };
        total = total + w;
        i = i + 1;
    }
    proof {
        assert(fvv.subrange(0, fvv.len() as int) =~= fvv);
    }
    total
}

/// The flat content of an empty leaf is empty at any bound.
pub open spec fn node_flat_empty_len(s: Seq<Blob>, n: MapNode, bound: int) -> bool {
    crate::shard::node_flat(s, n, bound).len() == 0
}

} // verus!
