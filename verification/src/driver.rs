//! The reconciliation driver: once per cycle, find the dirty presenter
//! subtrees, detach their state holders from the store, rebuild each one
//! against the store, and reattach them.
//!
//! The detach step exists so that the rebuild can hold exclusive access to
//! the whole store while operating on a holder that is no longer inside it.

use vstd::prelude::*;

use crate::store::{clean_kept, extends, keeps_links, no_refresh, no_revive, Store, StoreV};
use crate::view::{
    handles_rebuilt, inst_spec, lemma_detach_handles, lemma_handles_rebuilt_refl,
    lemma_handles_rebuilt_trans, lemma_inst_same_res, lemma_with_rec_handles, ElementContext,
};
use crate::view_handle::ViewState;

verus! {

/// The recursion guard handed to every per-cycle rebuild: presenters may
/// nest at most this deep before the build is abandoned.
pub const BUILD_LIMIT: u64 = 64;

/// What phase one of a cycle selects: every listed node is dirty, every
/// dirty node is listed, and the list ascends, so no node is listed twice.
pub open spec fn dirty_list(ids: Seq<usize>, s: StoreV) -> bool {
    &&& forall|k: int| 0 <= k < ids.len() ==> s.dirty(#[trigger] ids[k] as int)
    &&& forall|e: int| 0 <= e < s.recs.len() && s.dirty(e) ==> ids.contains(e as usize)
    &&& forall|k1: int, k2: int| 0 <= k1 < k2 < ids.len() ==> ids[k1] < ids[k2]
}

/// A node the cycle must rebuild: dirty, with an attached state holder.
pub open spec fn rebuild_target(s: StoreV, e: int) -> bool {
    s.dirty(e) && s.handle_of(e) matches Option::Some(Option::Some(_))
}

/// Whether some detached pair names node `e`.
pub open spec fn pair_listed(ps: Seq<(usize, Box<ViewState>)>, e: int) -> bool {
    exists|k: int| 0 <= k < ps.len() && ps[k].0 as int == e
}

/// Every node that was dirty with an attached holder has been built by the
/// cycle: its never-built marker is gone.
pub open spec fn built_marks_cleared(s1: StoreV, s2: StoreV) -> bool {
    forall|e: int| rebuild_target(s1, e) ==> !(#[trigger] s2.is_fresh(e))
}

/// Every node the cycle had to rebuild is settled afterwards: it is no
/// longer dirty and, while it lives, its holder is reattached and freshly
/// built — the cached view is the instantiation of its stored presenter
/// under the store's shared values.
pub open spec fn targets_settled(s1: StoreV, s2: StoreV) -> bool {
    forall|e: int|
        rebuild_target(s1, e) ==> !(#[trigger] s2.dirty(e)) && (s2.alive(e) ==> (s2.handle_of(e)
            matches Option::Some(Option::Some(st)) && st.view == Option::Some(
            inst_spec(st.presenter, st.props, s2),
        )))
}

/// Phase one: scan every node and collect exactly the dirty ones — those
/// whose tracked shared values changed since their last build, and those
/// created this cycle that have never been built. A subtree none of whose
/// tracked values changed is not selected, and so is not rebuilt.
pub fn find_dirty(store: &Store) -> (v: Vec<usize>)
    ensures
        dirty_list(v@, store@),
{
    let n = store.node_count();
    let mut out: Vec<usize> = Vec::new();
    for e in 0..n
        invariant
            n == store@.recs.len(),
            forall|k: int| 0 <= k < out@.len() ==> store@.dirty(#[trigger] out@[k] as int),
            forall|e2: int| 0 <= e2 < e && store@.dirty(e2) ==> out@.contains(e2 as usize),
            forall|k: int| 0 <= k < out@.len() ==> (#[trigger] out@[k]) < e,
            forall|k1: int, k2: int| 0 <= k1 < k2 < out@.len() ==> out@[k1] < out@[k2],
        decreases n - e,
    {
        let ghost pre = out@;
        if store.is_dirty(e) {
            out.push(e);
        }
        proof {
            assert forall|e2: int|
                0 <= e2 < e + 1 && store@.dirty(e2) implies out@.contains(e2 as usize) by {
                if e2 < e {
                    let k = choose|k: int| 0 <= k < pre.len() && pre[k] == e2 as usize;
                    assert(out@[k] == e2 as usize);
                } else {
                    assert(out@[out@.len() - 1] == e2 as usize);
                }
            }
        }
    }
    out
}

/// One reconciliation cycle, in three phases. Phase one identifies the
/// dirty subtrees. Phase two removes each dirty node's state holder from
/// the store, leaving the detached placeholder. Phase three rebuilds each
/// detached holder against the store and puts it back at the same node;
/// a holder whose node died in the meantime is dropped. When no subtree is
/// dirty, the cycle leaves the store untouched.
pub fn update_views(ecx: &mut ElementContext)
    ensures
        final(ecx).entity == old(ecx).entity,
        extends(old(ecx).store@, final(ecx).store@),
        no_revive(old(ecx).store@, final(ecx).store@),
        no_refresh(old(ecx).store@, final(ecx).store@),
        clean_kept(old(ecx).store@, final(ecx).store@),
        built_marks_cleared(old(ecx).store@, final(ecx).store@),
        targets_settled(old(ecx).store@, final(ecx).store@),
        (forall|e: int| !old(ecx).store@.dirty(e)) ==> *final(ecx) == *old(ecx),
{
    let ghost s0 = ecx.store@;
    let total = ecx.store.recs.len();
    proof {
        crate::store::lemma_extends_refl(s0);
        lemma_handles_rebuilt_refl(s0);
        crate::store::lemma_recs_view(ecx.store.recs@);
        assert(s0.recs.len() == total);
    }
    let ghost none_dirty = forall|e: int| !s0.dirty(e);
    let dirty = find_dirty(&ecx.store);
    let dn = dirty.len();
    let mut detached: Vec<(usize, Box<ViewState>)> = Vec::new();
    for i in 0..dn
        invariant
            dn == dirty@.len(),
            s0.recs.len() <= usize::MAX,
            dirty_list(dirty@, s0),
            none_dirty == (forall|e: int| !s0.dirty(e)),
            ecx.entity == old(ecx).entity,
            extends(s0, ecx.store@),
            no_revive(s0, ecx.store@),
            no_refresh(s0, ecx.store@),
            handles_rebuilt(s0, ecx.store@),
            clean_kept(s0, ecx.store@),
            keeps_links(s0, ecx.store@),
            none_dirty ==> *ecx == *old(ecx) && detached@.len() == 0,
            forall|k: int|
                0 <= k < detached@.len() ==> dirty@.take(i as int).contains(
                    (#[trigger] detached@[k]).0,
                ),
            forall|k1: int, k2: int|
                0 <= k1 < k2 < detached@.len() ==> detached@[k1].0 != detached@[k2].0,
            forall|e: int|
                rebuild_target(s0, e) && dirty@.take(i as int).contains(e as usize)
                    ==> pair_listed(detached@, e),
            forall|e: int|
                !pair_listed(detached@, e) ==> #[trigger] ecx.store@.handle_of(e)
                    == s0.handle_of(e),
        decreases dn - i,
    {
        proof {
            // Entering the body means the dirty list is not empty, which
            // contradicts a cycle with nothing dirty.
            if none_dirty {
                assert(s0.dirty(dirty@[i as int] as int));
                assert(false);
            }
        }
        let e = dirty[i];
        let ghost cur = ecx.store@;
        let ghost pre_pairs = detached@;
        let taken = ecx.store.take_handle(e);
        match taken {
            Option::Some(vs) => {
                detached.push((e, vs));
            }
            Option::None => {}
        }
        proof {
            if cur.handle_of(e as int) matches Option::Some(Option::Some(_)) {
                crate::store::lemma_with_rec_frame(
                    cur,
                    e as int,
                    (crate::store::RecV {
                        handle: Option::Some(Option::None),
                        ..cur.recs[e as int]
                    }),
                );
                lemma_detach_handles(cur, e as int);
                crate::store::lemma_with_rec_clean_except(
                    cur,
                    e as int,
                    (crate::store::RecV {
                        handle: Option::Some(Option::None),
                        ..cur.recs[e as int]
                    }),
                );
            } else {
                lemma_handles_rebuilt_refl(cur);
                crate::store::lemma_extends_refl(cur);
                crate::store::lemma_clean_kept_to_except(cur, cur, e as int);
            }
            crate::store::lemma_extends_trans(s0, cur, ecx.store@);
            crate::store::lemma_no_revive_trans(s0, cur, ecx.store@);
            crate::store::lemma_no_refresh_trans(s0, cur, ecx.store@);
            lemma_handles_rebuilt_trans(s0, cur, ecx.store@);
            // The taken node is dirty, so every clean node is untouched.
            assert(s0.dirty(e as int));
            assert forall|e2: int|
                0 <= e2 < s0.recs.len() && !(#[trigger] s0.dirty(e2)) implies !ecx.store@.dirty(
                e2,
            ) && (ecx.store@.alive(e2) ==> ecx.store@.handle_of(e2) == s0.handle_of(e2)
                && ecx.store@.tracker_of(e2) == s0.tracker_of(e2)) by {
                assert(e2 != e as int);
                assert(!cur.dirty(e2));
                if ecx.store@.alive(e2) {
                    assert(cur.alive(e2));
                }
            }
            crate::store::lemma_keeps_links_trans(s0, cur, ecx.store@);
            let taken_pair = cur.handle_of(e as int) matches Option::Some(Option::Some(_));
            // The new pair list: either unchanged, or the old list plus the
            // pair for this node.
            assert forall|k: int|
                0 <= k < detached@.len() implies dirty@.take(i as int + 1).contains(
                (#[trigger] detached@[k]).0,
            ) by {
                if k < pre_pairs.len() {
                    let w = choose|w: int|
                        0 <= w < i && #[trigger] dirty@.take(i as int)[w] == pre_pairs[k].0;
                    assert(dirty@.take(i as int + 1)[w] == pre_pairs[k].0);
                } else {
                    assert(detached@[k].0 == dirty@[i as int]);
                    assert(dirty@.take(i as int + 1)[i as int] == dirty@[i as int]);
                }
            }
            assert forall|k1: int, k2: int|
                0 <= k1 < k2 < detached@.len() implies detached@[k1].0 != detached@[k2].0 by {
                if k2 == pre_pairs.len() {
                    let w = choose|w: int|
                        0 <= w < i && #[trigger] dirty@.take(i as int)[w] == pre_pairs[k1].0;
                    assert(dirty@[w] < dirty@[i as int]);
                }
            }
            assert forall|e2: int|
                rebuild_target(s0, e2) && #[trigger] dirty@.take(i as int + 1).contains(
                    e2 as usize,
                ) implies pair_listed(detached@, e2) by {
                let w = choose|w: int|
                    0 <= w < i + 1 && #[trigger] dirty@.take(i as int + 1)[w] == e2 as usize;
                if w < i {
                    assert(dirty@.take(i as int)[w] == e2 as usize);
                    assert(pair_listed(pre_pairs, e2));
                    let k = choose|k: int|
                        0 <= k < pre_pairs.len() && (#[trigger] pre_pairs[k]).0 as int == e2;
                    assert(detached@[k].0 as int == e2);
                } else {
                    assert(s0.dirty(e2));
                    assert(0 <= e2 && e2 < s0.recs.len());
                    assert(e2 <= usize::MAX);
                    assert(e2 as usize == dirty@[i as int]);
                    assert(e2 == e as int);
                    if !pair_listed(pre_pairs, e2) {
                        assert(cur.handle_of(e2) == s0.handle_of(e2));
                        assert(taken_pair);
                        assert(detached@[detached@.len() - 1].0 as int == e2);
                    } else {
                        let k = choose|k: int|
                            0 <= k < pre_pairs.len() && (#[trigger] pre_pairs[k]).0 as int == e2;
                        assert(detached@[k].0 as int == e2);
                    }
                }
            }
            assert forall|e2: int|
                !pair_listed(detached@, e2) implies #[trigger] ecx.store@.handle_of(e2)
                == s0.handle_of(e2) by {
                if !pair_listed(pre_pairs, e2) {
                    if taken_pair && e2 == e as int {
                        assert(detached@[detached@.len() - 1].0 as int == e2);
                    } else {
                        assert(ecx.store@.handle_of(e2) == cur.handle_of(e2));
                    }
                } else {
                    let k = choose|k: int|
                        0 <= k < pre_pairs.len() && (#[trigger] pre_pairs[k]).0 as int == e2;
                    assert(detached@[k].0 as int == e2);
                }
            }
        }
    }
    proof {
        assert(dirty@.take(dn as int) =~= dirty@);
        assert forall|e2: int| rebuild_target(s0, e2) implies pair_listed(detached@, e2) by {
            assert(s0.dirty(e2));
            assert(dirty@.contains(e2 as usize));
        }
        assert forall|k: int|
            0 <= k < detached@.len() implies s0.dirty((#[trigger] detached@[k]).0 as int) by {
            let w = choose|w: int|
                0 <= w < dn && #[trigger] dirty@.take(dn as int)[w] == detached@[k].0;
            assert(s0.dirty(dirty@[w] as int));
        }
    }
    while detached.len() > 0
        invariant
            s0.recs.len() <= usize::MAX,
            ecx.entity == old(ecx).entity,
            extends(s0, ecx.store@),
            no_revive(s0, ecx.store@),
            no_refresh(s0, ecx.store@),
            handles_rebuilt(s0, ecx.store@),
            clean_kept(s0, ecx.store@),
            keeps_links(s0, ecx.store@),
            none_dirty ==> *ecx == *old(ecx) && detached@.len() == 0,
            forall|k1: int, k2: int|
                0 <= k1 < k2 < detached@.len() ==> detached@[k1].0 != detached@[k2].0,
            forall|k: int| 0 <= k < detached@.len() ==> s0.dirty((#[trigger] detached@[k]).0 as int),
            forall|e: int|
                rebuild_target(s0, e) ==> pair_listed(detached@, e) || !(
                #[trigger] ecx.store@.is_fresh(e)),
            forall|e: int|
                rebuild_target(s0, e) ==> pair_listed(detached@, e) || (!ecx.store@.dirty(e) && ((
                #[trigger] ecx.store@.alive(e)) ==> ((ecx.store@.handle_of(e)
                    matches Option::Some(Option::Some(_))) && (ecx.store@.handle_of(
                    e,
                )->Some_0->Some_0).view == Option::Some(
                    inst_spec(
                        (ecx.store@.handle_of(e)->Some_0->Some_0).presenter,
                        (ecx.store@.handle_of(e)->Some_0->Some_0).props,
                        ecx.store@,
                    ),
                )))),
        decreases detached@.len(),
    {
        let ghost pre_pairs = detached@;
        match detached.pop() {
            Option::Some(pair) => {
                let (e, mut vs) = pair;
                let ghost iter0 = ecx.store@;
                ecx.store.clear_fresh(e);
                let ghost cur2 = ecx.store@;
                proof {
                    if iter0.alive(e as int) {
                        crate::store::lemma_with_rec_frame(
                            iter0,
                            e as int,
                            (crate::store::RecV { fresh: false, ..iter0.recs[e as int] }),
                        );
                        lemma_with_rec_handles(
                            iter0,
                            e as int,
                            crate::store::RecV { fresh: false, ..iter0.recs[e as int] },
                        );
                        crate::store::lemma_with_rec_clean(
                            iter0,
                            e as int,
                            crate::store::RecV { fresh: false, ..iter0.recs[e as int] },
                        );
                    } else {
                        lemma_handles_rebuilt_refl(iter0);
                        crate::store::lemma_extends_refl(iter0);
                    }
                    assert(!cur2.is_fresh(e as int));
                    crate::store::lemma_extends_trans(s0, iter0, cur2);
                    crate::store::lemma_no_revive_trans(s0, iter0, cur2);
                    crate::store::lemma_no_refresh_trans(s0, iter0, cur2);
                    lemma_handles_rebuilt_trans(s0, iter0, cur2);
                    crate::store::lemma_clean_kept_trans(s0, iter0, cur2);
                    // The dirty node's tracker attribute has survived the
                    // cycle so far.
                    assert(s0.dirty(e as int));
                    assert(s0.recs[e as int].deps is Some);
                    assert(cur2.recs[e as int].deps is Some);
                }
                let _build_result = vs.build(ecx, e, BUILD_LIMIT);
                let ghost cur3 = ecx.store@;
                let ghost vsv = vs@;
                ecx.store.put_handle(e, vs);
                let ghost fin = ecx.store@;
                proof {
                    if cur3.alive(e as int) {
                        crate::store::lemma_with_rec_frame(
                            cur3,
                            e as int,
                            (crate::store::RecV {
                                handle: Option::Some(Option::Some(vsv)),
                                ..cur3.recs[e as int]
                            }),
                        );
                        assert(fin == cur3.with_handle(
                            e as int,
                            Option::Some(Option::Some(vsv)),
                        ));
                        crate::store::lemma_with_rec_clean_except(
                            cur3,
                            e as int,
                            (crate::store::RecV {
                                handle: Option::Some(Option::Some(vsv)),
                                ..cur3.recs[e as int]
                            }),
                        );
                    } else {
                        crate::store::lemma_clean_kept_to_except(cur3, cur3, e as int);
                        crate::store::lemma_extends_refl(cur3);
                    }
                    crate::store::lemma_extends_trans(s0, cur2, cur3);
                    crate::store::lemma_no_revive_trans(s0, cur2, cur3);
                    crate::store::lemma_no_refresh_trans(s0, cur2, cur3);
                    lemma_handles_rebuilt_trans(s0, cur2, cur3);
                    assert(vsv.view == Option::Some(inst_spec(vsv.presenter, vsv.props, cur2)));
                    assert forall|id: u64| #[trigger] cur2.res_value(id) == fin.res_value(id) by {}
                    lemma_inst_same_res(vsv.presenter, vsv.props, cur2, fin);
                    assert(handles_rebuilt(cur3, fin)) by {
                        assert forall|e3: int|
                            0 <= e3 < cur3.recs.len() && (#[trigger] fin.handle_of(e3))
                                != cur3.handle_of(e3) && fin.handle_of(e3) is Some && fin.handle_of(
                                e3,
                            )->Some_0 is Some implies (fin.handle_of(e3)->Some_0->Some_0).view
                            == Option::Some(
                            inst_spec(
                                (fin.handle_of(e3)->Some_0->Some_0).presenter,
                                (fin.handle_of(e3)->Some_0->Some_0).props,
                                fin,
                            ),
                        ) by {
                            if e3 == e as int {
                                assert(cur3.alive(e3));
                                assert(fin.handle_of(e3) == Option::Some(Option::Some(vsv)));
                            } else {
                                assert(fin.recs[e3] == cur3.recs[e3]);
                                assert(fin.handle_of(e3) == cur3.handle_of(e3));
                            }
                        }
                    }
                    lemma_handles_rebuilt_trans(s0, cur3, fin);
                    crate::store::lemma_extends_trans(s0, cur3, fin);
                    crate::store::lemma_no_revive_trans(s0, cur3, fin);
                    crate::store::lemma_no_refresh_trans(s0, cur3, fin);
                    crate::store::lemma_no_refresh_trans(cur2, cur3, fin);
                    // Every clean node is untouched: the rebuilt node was
                    // dirty at the cycle's start.
                    assert forall|e2: int|
                        0 <= e2 < s0.recs.len() && !(#[trigger] s0.dirty(e2)) implies !fin.dirty(
                        e2,
                    ) && (fin.alive(e2) ==> fin.handle_of(e2) == s0.handle_of(e2)
                        && fin.tracker_of(e2) == s0.tracker_of(e2)) by {
                        assert(e2 != e as int);
                        assert(!cur2.dirty(e2));
                        if fin.alive(e2) {
                            assert(cur3.alive(e2));
                            assert(cur2.alive(e2));
                        }
                    }
                    crate::store::lemma_keeps_links_trans(s0, cur2, cur3);
                    crate::store::lemma_keeps_links_trans(s0, cur3, fin);
                    // The popped node is settled: marker cleared and, while
                    // it lives, its holder reattached and freshly built.
                    assert(!fin.is_fresh(e as int)) by {
                        assert(!cur2.is_fresh(e as int));
                        assert(0 <= (e as int) && (e as int) < s0.recs.len());
                    }
                    if fin.alive(e as int) {
                        assert(cur3.alive(e as int));
                        assert(cur2.alive(e as int));
                        assert(fin.handle_of(e as int) == Option::Some(Option::Some(vsv)));
                        assert(cur3.tracker_of(e as int) == Option::Some(
                            crate::store::recorded(crate::view::reads_of(vsv.presenter), cur2),
                        ));
                        assert(fin.tracker_of(e as int) == cur3.tracker_of(e as int));
                        assert(!fin.dirty(e as int)) by {
                            let ids = crate::view::reads_of(vsv.presenter);
                            crate::store::lemma_recorded_clean(ids, cur2);
                            assert forall|k: int|
                                0 <= k < crate::store::recorded(
                                    ids,
                                    cur2,
                                ).len() implies #[trigger] crate::store::recorded(
                                ids,
                                cur2,
                            )[k].version == fin.res_version(
                                crate::store::recorded(ids, cur2)[k].id,
                            ) by {
                                assert(crate::store::recorded(ids, cur2)[k].version
                                    == cur2.res_version(
                                    crate::store::recorded(ids, cur2)[k].id,
                                ));
                            }
                        }
                    }
                    // Previously settled nodes stay settled.
                    assert forall|e2: int|
                        rebuild_target(s0, e2) implies pair_listed(detached@, e2) || !fin.is_fresh(
                        e2,
                    ) by {
                        if pair_listed(pre_pairs, e2) {
                            let k = choose|k: int|
                                0 <= k < pre_pairs.len() && (#[trigger] pre_pairs[k]).0 as int == e2;
                            if k < pre_pairs.len() - 1 {
                                assert(detached@[k].0 as int == e2);
                            } else {
                                assert(e2 == e as int);
                            }
                        } else {
                            assert(!iter0.is_fresh(e2));
                            assert(s0.dirty(e2));
                            assert(0 <= e2 < s0.recs.len());
                            crate::store::lemma_no_refresh_trans(iter0, cur2, cur3);
                            crate::store::lemma_no_refresh_trans(iter0, cur3, fin);
                        }
                    }
                    assert forall|e2: int|
                        rebuild_target(s0, e2) implies pair_listed(detached@, e2) || (!fin.dirty(
                        e2,
                    ) && (fin.alive(e2) ==> ((fin.handle_of(e2) matches Option::Some(
                        Option::Some(_),
                    )) && (fin.handle_of(e2)->Some_0->Some_0).view == Option::Some(
                        inst_spec(
                            (fin.handle_of(e2)->Some_0->Some_0).presenter,
                            (fin.handle_of(e2)->Some_0->Some_0).props,
                            fin,
                        ),
                    )))) by {
                        if pair_listed(pre_pairs, e2) {
                            let k = choose|k: int|
                                0 <= k < pre_pairs.len() && (#[trigger] pre_pairs[k]).0 as int == e2;
                            if k < pre_pairs.len() - 1 {
                                assert(detached@[k].0 as int == e2);
                            } else {
                                assert(e2 == e as int);
                            }
                        } else {
                            // Settled at the iteration's start and clean, so
                            // this iteration left it untouched.
                            assert(!iter0.dirty(e2));
                            assert(s0.dirty(e2));
                            assert(0 <= e2 && e2 < s0.recs.len());
                            if fin.alive(e2) {
                                assert(cur3.alive(e2));
                                assert(cur2.alive(e2));
                                assert(iter0.alive(e2));
                                assert(cur2.handle_of(e2) == iter0.handle_of(e2));
                                assert(cur2.tracker_of(e2) == iter0.tracker_of(e2));
                                assert(!cur2.dirty(e2));
                                assert(e2 != e as int);
                                assert(cur3.handle_of(e2) == cur2.handle_of(e2));
                                assert(cur3.tracker_of(e2) == cur2.tracker_of(e2));
                                assert(!cur3.dirty(e2));
                                assert(fin.handle_of(e2) == cur3.handle_of(e2));
                                assert(!fin.dirty(e2));
                                let st = fin.handle_of(e2)->Some_0->Some_0;
                                assert(st.view == Option::Some(
                                    inst_spec(st.presenter, st.props, iter0),
                                ));
                                assert forall|id: u64| #[trigger] iter0.res_value(id)
                                    == fin.res_value(id) by {}
                                lemma_inst_same_res(st.presenter, st.props, iter0, fin);
                            } else {
                                assert(!fin.dirty(e2)) by {
                                    if fin.dirty(e2) {
                                        assert(fin.alive(e2));
                                    }
                                }
                            }
                        }
                    }
                }
            }
            Option::None => {}
        }
    }
    proof {
        assert forall|e2: int| rebuild_target(s0, e2) implies !(#[trigger] ecx.store@.dirty(e2))
            && (ecx.store@.alive(e2) ==> ((ecx.store@.handle_of(e2) matches Option::Some(
            Option::Some(_),
        )) && (ecx.store@.handle_of(e2)->Some_0->Some_0).view == Option::Some(
            inst_spec(
                (ecx.store@.handle_of(e2)->Some_0->Some_0).presenter,
                (ecx.store@.handle_of(e2)->Some_0->Some_0).props,
                ecx.store@,
            ),
        ))) by {
            if pair_listed(detached@, e2) {
                let k = choose|k: int|
                    0 <= k < detached@.len() && (#[trigger] detached@[k]).0 as int == e2;
                assert(false);
            }
        }
        assert forall|e2: int| rebuild_target(s0, e2) implies !ecx.store@.is_fresh(e2) by {
            if pair_listed(detached@, e2) {
                let k = choose|k: int|
                    0 <= k < detached@.len() && (#[trigger] detached@[k]).0 as int == e2;
                assert(false);
            }
        }
    }
}

} // verus!
