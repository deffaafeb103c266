//! The subtree state holder: a box binding a presenter, its bound
//! properties, its externalized per-view state and its last-produced output
//! shape, stored as an attribute on the presenter's node in the store.
//!
//! A single holder slot must carry any presenter subtree without the driver
//! knowing its concrete property and state types. Here that runtime
//! polymorphism comes from data rather than dispatch: properties are a list
//! of plain values, presenter bodies are [`Template`] values, and per-view
//! state is the closed [`ViewMem`] tree, so one concrete holder type serves
//! every instantiation.

use vstd::prelude::*;
use vstd::view::View as VstdView;

use crate::node_span::{NodeSpan, SpanV};
use crate::store::{
    clean_kept_except, delta, extends, lemma_clean_kept_except_trans, lemma_clean_kept_to_except,
    lemma_record_all_clean_except, lemma_with_rec_clean_except, no_refresh, no_revive, record_all,
    recorded, retains, shape_edit_free, span_dead, StoreV,
};
use crate::view::{
    compat, core_view, handles_rebuilt, inst_spec, lemma_handles_rebuilt_refl,
    lemma_handles_rebuilt_trans, lemma_text_post_pre, lemma_with_rec_handles, reads_of,
    shape_post, text_build_post, BuildError, Cx, ElementContext, MemV, Props, Template, TemplateV,
    View, ViewMem, ViewV,
};

verus! {

/// The mathematical value of a [`ViewState`].
#[verifier::ext_equal]
pub struct StateV {
    pub presenter: TemplateV,
    pub props: Seq<Seq<char>>,
    pub view: Option<ViewV>,
    pub state: MemV,
    pub nodes: SpanV,
}

/// `ViewState` contains all of the data needed to re-render a presenter: the
/// presenter body, its properties, its externalized state, and the cached
/// output shape of the previous cycle.
pub struct ViewState {
    /// The presenter body that is re-invoked on every build.
    pub presenter: Template,
    /// The properties bound to the presenter.
    pub props: Props,
    /// The view the presenter yielded on the last build, if any.
    pub view: Option<View>,
    /// Externalized state owned by the view tree.
    pub state: ViewMem,
    /// The output shape produced by the last build.
    pub nodes: NodeSpan,
}

/// The value of an optional view.
pub open spec fn opt_view_view(v: Option<View>) -> Option<ViewV> {
    match v {
        Option::Some(w) => Option::Some(w@),
        Option::None => Option::None,
    }
}

impl vstd::view::View for ViewState {
    type V = StateV;

    open spec fn view(&self) -> StateV {
        StateV {
            presenter: self.presenter@,
            props: self.props@,
            view: opt_view_view(self.view),
            state: self.state@,
            nodes: self.nodes@,
        }
    }
}

impl ViewState {
    /// A holder for the given presenter and properties, never yet built:
    /// no cached view, default state, and an empty output shape.
    pub fn new(presenter: Template, props: Props) -> (r: ViewState)
        ensures
            r@ == (StateV {
                presenter: presenter@,
                props: props@,
                view: Option::None,
                state: MemV::Unit,
                nodes: SpanV::Empty,
            }),
    {
        ViewState {
            presenter,
            props,
            view: Option::None,
            state: ViewMem::Unit,
            nodes: NodeSpan::Empty,
        }
    }

    /// The number of nodes in the cached output shape.
    pub fn count(&self) -> (n: usize)
        ensures
            n == self@.nodes.flat().len(),
    {
        self.nodes.count()
    }

    /// The output shape produced by the last build; the previously cached
    /// shape passed by the caller is not consulted.
    pub fn nodes(&self, _prev: &NodeSpan) -> (r: NodeSpan)
        ensures
            r@ == self@.nodes,
    {
        self.nodes.clone()
    }
}

/// A `ViewHandle` holds a detachable reference to a subtree state holder;
/// the driver takes the holder out, rebuilds it against the store, and puts
/// it back.
pub struct ViewHandle {
    /// The holder, or the detached placeholder while a rebuild runs.
    pub inner: Option<Box<ViewState>>,
}

impl vstd::view::View for ViewHandle {
    type V = Option<StateV>;

    open spec fn view(&self) -> Option<StateV> {
        match self.inner {
            Option::Some(b) => Option::Some(b@),
            Option::None => Option::None,
        }
    }
}

impl ViewHandle {
    /// Constructs a handle holding a never-built holder for the given
    /// presenter and properties.
    pub fn new(presenter: Template, props: Props) -> (r: ViewHandle)
        ensures
            r@ == Option::Some(
                (StateV {
                    presenter: presenter@,
                    props: props@,
                    view: Option::None,
                    state: MemV::Unit,
                    nodes: SpanV::Empty,
                }),
            ),
    {
        ViewHandle { inner: Option::Some(Box::new(ViewState::new(presenter, props))) }
    }

    /// The number of top-level nodes the held subtree produced last.
    pub fn count(&self) -> (n: usize)
        requires
            self@ is Some,
        ensures
            n == self@->Some_0.nodes.flat().len(),
    {
        match &self.inner {
            Option::Some(b) => b.count(),
            Option::None => 0,
        }
    }
}

impl ViewState {
    /// Rebuilds the presenter subtree at `entity`: empties the node's
    /// dependency tracker, re-invokes the presenter recording its reads,
    /// builds the yielded view against the cached shape of the previous
    /// cycle, and caches the new shape. When the unchanged view is still
    /// compatible with its own cached shape, the cached shape comes back
    /// unchanged and no node is created or destroyed.
    pub fn build(&mut self, ecx: &mut ElementContext, entity: usize, limit: u64) -> (r: Result<
        (),
        BuildError,
    >)
        ensures
            final(ecx).entity == old(ecx).entity,
            extends(old(ecx).store@, final(ecx).store@),
            no_revive(old(ecx).store@, final(ecx).store@),
            no_refresh(old(ecx).store@, final(ecx).store@),
            handles_rebuilt(old(ecx).store@, final(ecx).store@),
            clean_kept_except(old(ecx).store@, final(ecx).store@, entity as int),
            crate::store::keeps_links(old(ecx).store@, final(ecx).store@),
            (limit > 0 && !old(ecx).store@.is_fresh(entity as int) && old(ecx).store@.alive(
                entity as int,
            ) && old(ecx).store@.tracker_of(entity as int) is Some && final(ecx).store@.alive(
                entity as int,
            )) ==> final(ecx).store@.tracker_of(entity as int) == Option::Some(
                recorded(reads_of(old(self)@.presenter), old(ecx).store@),
            ),
            final(self)@.presenter == old(self)@.presenter,
            final(self)@.props == old(self)@.props,
            limit > 0 ==> final(self)@.view == Option::Some(
                inst_spec(old(self)@.presenter, old(self)@.props, old(ecx).store@),
            ),
            limit > 0 ==> ((core_view(
                inst_spec(old(self)@.presenter, old(self)@.props, old(ecx).store@),
            ) is Empty || core_view(
                inst_spec(old(self)@.presenter, old(self)@.props, old(ecx).store@),
            ) is Text) ==> r is Ok),
            r is Ok ==> shape_post(
                inst_spec(old(self)@.presenter, old(self)@.props, old(ecx).store@),
                old(ecx).store@,
                final(ecx).store@,
                old(self)@.nodes,
                final(self).nodes,
            ),
            limit > 0 && compat(
                inst_spec(old(self)@.presenter, old(self)@.props, old(ecx).store@),
                old(ecx).store@,
                old(self)@.nodes,
            ) ==> r is Ok && final(self)@.nodes == old(self)@.nodes && shape_edit_free(
                delta(old(ecx).store@, final(ecx).store@),
            ) && retains(old(ecx).store@, final(ecx).store@),
        decreases limit, 1int, *self,
    {
        let ghost s0 = ecx.store@;
        proof {
            crate::store::lemma_extends_refl(s0);
            lemma_handles_rebuilt_refl(s0);
            lemma_clean_kept_to_except(s0, s0, entity as int);
        }
        if limit == 0 {
            return Result::Err(BuildError::DepthLimit);
        }
        let saved = ecx.entity;
        ecx.entity = entity;
        ecx.store.clear_tracker(entity);
        let ghost s1 = ecx.store@;
        proof {
            if s0.alive(entity as int) && s0.tracker_of(entity as int) is Some {
                crate::store::lemma_with_rec_frame(
                    s0,
                    entity as int,
                    crate::store::RecV {
                        deps: Option::Some(Seq::empty()),
                        ..s0.recs[entity as int]
                    },
                );
                lemma_with_rec_handles(
                    s0,
                    entity as int,
                    crate::store::RecV {
                        deps: Option::Some(Seq::empty()),
                        ..s0.recs[entity as int]
                    },
                );
                lemma_with_rec_clean_except(
                    s0,
                    entity as int,
                    crate::store::RecV {
                        deps: Option::Some(Seq::empty()),
                        ..s0.recs[entity as int]
                    },
                );
            } else {
                lemma_handles_rebuilt_refl(s0);
                lemma_clean_kept_to_except(s0, s0, entity as int);
            }
            assert forall|id: u64| #[trigger] s1.res_value(id) == s0.res_value(id) by {}
            assert(crate::store::same_skeleton(s0, s1));
        }
        let cx = Cx { props: self.props.clone() };
        let v = self.presenter.instantiate(&cx, ecx);
        let ghost s2 = ecx.store@;
        proof {
            crate::store::lemma_record_all_frame(s1, entity as int, reads_of(self.presenter@));
            crate::view::lemma_inst_same_res(self.presenter@, self.props@, s1, s0);
            assert(v@ == inst_spec(old(self)@.presenter, old(self)@.props, s0));
            assert(extends(s0, s2));
            assert(no_revive(s0, s2));
            assert(delta(s0, s2) =~= Seq::<crate::store::Edit>::empty());
            crate::store::lemma_same_skeleton_trans(s0, s1, s2);
            lemma_record_all_clean_except(s1, entity as int, reads_of(self.presenter@));
            lemma_clean_kept_except_trans(s0, s1, s2, entity as int);
            assert(s2.log == s0.log);
            assert(handles_rebuilt(s1, s2)) by {
                assert forall|e2: int|
                    0 <= e2 < s1.recs.len() && (#[trigger] s2.handle_of(e2)) != s1.handle_of(e2)
                        && s2.handle_of(e2) is Some && s2.handle_of(e2)->Some_0
                        is Some implies false by {
                    assert(s2.handle_of(e2) == s1.handle_of(e2));
                }
            }
            lemma_handles_rebuilt_trans(s0, s1, s2);
        }
        let prev = self.nodes.clone();
        let ghost instv = inst_spec(old(self)@.presenter, old(self)@.props, s0);
        let r0 = v.build(ecx, &mut self.state, &prev, limit - 1);
        let ghost s3 = ecx.store@;
        self.view = Option::Some(v);
        ecx.entity = saved;
        proof {
            crate::store::lemma_extends_trans(s0, s2, s3);
            crate::store::lemma_no_revive_trans(s0, s2, s3);
            crate::store::lemma_no_refresh_trans(s0, s2, s3);
            lemma_handles_rebuilt_trans(s0, s2, s3);
            lemma_clean_kept_to_except(s2, s3, entity as int);
            lemma_clean_kept_except_trans(s0, s2, s3, entity as int);
            if !s0.is_fresh(entity as int) && s0.alive(entity as int) && s0.tracker_of(
                entity as int,
            ) is Some && s3.alive(entity as int) {
                let ids = reads_of(old(self)@.presenter);
                assert(s1.tracker_of(entity as int) == Option::Some(Seq::<
                    crate::store::ResRead,
                >::empty()));
                crate::store::lemma_record_all_tracker(s1, entity as int, ids);
                assert(Seq::<crate::store::ResRead>::empty() + recorded(ids, s1) =~= recorded(
                    ids,
                    s1,
                ));
                assert(recorded(ids, s1) =~= recorded(ids, s0));
                crate::store::lemma_recorded_clean(ids, s1);
                assert(s2.tracker_clean(recorded(ids, s1))) by {
                    assert forall|k: int|
                        0 <= k < recorded(ids, s1).len() implies #[trigger] recorded(
                        ids,
                        s1,
                    )[k].version == s2.res_version(recorded(ids, s1)[k].id) by {
                        assert(recorded(ids, s1)[k].version == s1.res_version(
                            recorded(ids, s1)[k].id,
                        ));
                    }
                }
                assert(!s2.dirty(entity as int));
                assert(s3.tracker_of(entity as int) == s2.tracker_of(entity as int));
            }
            if compat(inst_spec(old(self)@.presenter, old(self)@.props, s0), s0, old(self)@.nodes) {
                assert forall|e: int| s0.has_text(e) implies #[trigger] s2.has_text(e) by {}
                crate::view::lemma_compat_preserved(
                    inst_spec(old(self)@.presenter, old(self)@.props, s0),
                    s0,
                    s2,
                    old(self)@.nodes,
                );
                crate::store::lemma_delta_compose(s0, s2, s3);
                crate::store::lemma_retains_trans(s0, s2, s3);
            }
        }
        match r0 {
            Result::Ok(ns) => {
                self.nodes = ns;
                proof {
                    match core_view(instv) {
                        ViewV::Text(ct) => {
                            lemma_text_post_pre(
                                ct,
                                prev@,
                                s0,
                                s2,
                                s3,
                                Result::<NodeSpan, BuildError>::Ok(self.nodes),
                            );
                        }
                        _ => {}
                    }
                    match crate::view::passthrough_core(instv) {
                        ViewV::Fragment(pcc) => {
                            match prev@ {
                                SpanV::Fragment(ppp) => {
                                    if crate::view::prefix_compat(pcc, s0, ppp) {
                                        assert forall|e2: int| s0.has_text(e2)
                                            implies #[trigger] s2.has_text(e2) by {
                                            assert(s2.recs.len() == s0.recs.len());
                                            if s0.has_text(e2) {
                                                assert(s2.recs[e2].text == s0.recs[e2].text);
                                                assert(s2.recs[e2].alive == s0.recs[e2].alive);
                                            }
                                        }
                                        crate::view::lemma_prefix_compat_step(pcc, s0, s2, ppp);
                                    }
                                }
                                _ => {}
                            }
                        }
                        _ => {}
                    }
                }
                Result::Ok(())
            }
            Result::Err(e2) => {
                proof {
                    if core_view(instv) is Empty {
                        assert(false);
                    }
                    match core_view(instv) {
                        ViewV::Text(ct) => {
                            assert(false);
                        }
                        _ => {}
                    }
                }
                Result::Err(e2)
            }
        }
    }

    /// Tears the subtree down: razes the cached view against the cached
    /// shape, destroying every node it lists, and drops the view so a
    /// second raze does nothing.
    pub fn raze(&mut self, ecx: &mut ElementContext, entity: usize, limit: u64)
        ensures
            final(ecx).entity == old(ecx).entity,
            extends(old(ecx).store@, final(ecx).store@),
            no_revive(old(ecx).store@, final(ecx).store@),
            no_refresh(old(ecx).store@, final(ecx).store@),
            handles_rebuilt(old(ecx).store@, final(ecx).store@),
            final(ecx).store@.recs.len() == old(ecx).store@.recs.len(),
            final(self)@.view is None,
            old(self)@.view is None ==> final(ecx).store@ == old(ecx).store@,
            limit > 0 && old(self)@.view is Some ==> span_dead(
                old(self)@.nodes,
                final(ecx).store@,
            ),
        decreases limit, 1int, *self,
    {
        let ghost s0 = ecx.store@;
        proof {
            crate::store::lemma_extends_refl(s0);
            lemma_handles_rebuilt_refl(s0);
        }
        let v_opt = self.view.take();
        match v_opt {
            Option::None => {}
            Option::Some(v) => {
                if limit == 0 {
                    return ;
                }
                let saved = ecx.entity;
                ecx.entity = entity;
                let prev = self.nodes.clone();
                v.raze(ecx, &mut self.state, &prev, limit - 1);
                ecx.entity = saved;
            }
        }
    }
}

} // verus!
