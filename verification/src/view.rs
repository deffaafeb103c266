//! The declarative descriptor tree: leaf views, combinator views and the
//! presenter variant, together with the presenter context and the session
//! context through which every build reaches the store.

use vstd::prelude::*;
use vstd::view::View as VstdView;

use crate::node_span::{views_of, NodeSpan, SpanV};
use crate::view_handle::StateV;
use crate::store::{
    clean_kept, delta, extends, lemma_clean_kept_trans, lemma_push_clean, lemma_with_log_clean,
    lemma_with_rec_clean, no_refresh, no_revive, record_all, record_one, retains, shape_edit_free,
    span_attr, span_dead, span_effects, span_styles, Edit, RecV, Store, StoreV,
};

verus! {

/// A scoped session handle pairing the graph store with the node currently
/// being operated under. It is passed by exclusive reference down every
/// recursive build and raze call, so exactly one call frame at a time can
/// mutate the store.
pub struct ElementContext {
    /// The graph store being reconciled.
    pub store: Store,
    /// The node the current operation works under.
    pub entity: usize,
}

/// The context handed to a presenter: the properties passed by the parent,
/// plus the operations that record dependency probes while reading shared
/// values.
pub struct Cx {
    /// The properties the parent bound to this presenter.
    pub props: Props,
}

/// Why a build was aborted. Both signal programming errors in the declared
/// tree; the subtree is abandoned for the cycle and retried on the next one.
#[derive(Clone, Copy, PartialEq, Eq, Structural, Debug)]
pub enum BuildError {
    /// A combinator that needs a single node was applied to a fragment.
    NonSingularShape,
    /// Presenters nest deeper than the recursion guard allows, which only
    /// happens when the handle graph in the store is cyclic.
    DepthLimit,
}

/// Properties bound to a presenter: an ordered list of plain string values.
pub struct Props {
    /// The property values, indexed by position.
    pub vals: Vec<String>,
}

/// The values of a sequence of strings, in order.
pub open spec fn strs_view(vals: Seq<String>) -> Seq<Seq<char>>
    decreases vals,
{
    if vals.len() == 0 {
        Seq::empty()
    } else {
        strs_view(vals.drop_last()).push(vals.last()@)
    }
}

/// `strs_view` maps each string to its value, keeping length and order.
pub proof fn lemma_strs_view(vals: Seq<String>)
    ensures
        strs_view(vals).len() == vals.len(),
        forall|i: int| 0 <= i < vals.len() ==> strs_view(vals)[i] == vals[i]@,
    decreases vals,
{
    if vals.len() > 0 {
        let pre = vals.drop_last();
        lemma_strs_view(pre);
        assert forall|i: int| 0 <= i < vals.len() implies strs_view(vals)[i] == vals[i]@ by {
            if i < vals.len() - 1 {
                assert(strs_view(vals)[i] == strs_view(pre)[i]);
                assert(pre[i] == vals[i]);
            } else {
                assert(strs_view(vals)[i] == vals.last()@);
            }
        }
    }
}

impl vstd::view::View for Props {
    type V = Seq<Seq<char>>;

    open spec fn view(&self) -> Seq<Seq<char>> {
        strs_view(self.vals@)
    }
}

impl Props {
    /// Properties with no values.
    pub fn empty() -> (r: Props)
        ensures
            r@ == Seq::<Seq<char>>::empty(),
    {
        Props { vals: Vec::new() }
    }
}

impl Clone for Props {
    /// A deep copy whose value equals the original's.
    fn clone(&self) -> (r: Self)
        ensures
            r@ == self@,
    {
        proof {
            lemma_strs_view(self.vals@);
        }
        let n = self.vals.len();
        let mut vals: Vec<String> = Vec::new();
        for i in 0..n
            invariant
                n == self.vals@.len(),
                vals@.len() == i,
                forall|j: int| 0 <= j < i ==> vals@[j]@ == self.vals@[j]@,
            decreases n - i,
        {
            vals.push(self.vals[i].clone());
        }
        let r = Props { vals };
        proof {
            lemma_strs_view(r.vals@);
            assert(r@ =~= self@);
        }
        r
    }
}

/// The mathematical value of a [`Template`].
#[verifier::ext_equal]
pub enum TemplateV {
    Static(Box<ViewV>),
    PropText(usize),
    ResText(u64),
    Group(Seq<TemplateV>),
}

/// The mathematical value of a [`View`].
#[verifier::ext_equal]
pub enum ViewV {
    Empty,
    Text(Seq<char>),
    Fragment(Seq<ViewV>),
    Styled(Seq<u64>, Box<ViewV>),
    Insert(u64, Box<ViewV>),
    InsertBundle(u64, Box<ViewV>),
    With(u64, bool, Box<ViewV>),
    Bind(TemplateV, Seq<Seq<char>>),
}

/// The mathematical value of a [`ViewMem`].
#[verifier::ext_equal]
pub enum MemV {
    Unit,
    Slot(Option<usize>),
    List(Seq<MemV>),
    Span(SpanV, Box<MemV>),
}

/// A presenter body: how to produce a view from bound properties and from
/// the shared values read through the presenter context. Reads of shared
/// values are recorded into the subtree's dependency tracker.
///
/// Presenters are drawn from this closed data form rather than from
/// arbitrary functions, so a presenter whose structure itself is computed
/// from what it reads — say, a child count taken from a shared value — is
/// out of its reach; richer bodies would need further variants here.
pub enum Template {
    /// Always yields the given view, reading nothing.
    Static(Box<View>),
    /// Yields a text leaf showing the property at the given position, or
    /// empty text when there is none.
    PropText(usize),
    /// Yields a text leaf showing the shared value with the given name, or
    /// empty text when it does not exist; the read is recorded.
    ResText(u64),
    /// Yields a fragment of the nested presenter bodies.
    Group(Vec<Template>),
}

/// Binds a presenter to properties and acts as a view: building it spawns a
/// presenter node holding a subtree state holder, and delegates to it.
pub struct Bind {
    /// The presenter body.
    pub presenter: Template,
    /// The properties bound to it.
    pub props: Props,
}

/// A view that inserts an attribute of a fixed kind on every node the inner
/// view produced, skipping nodes that already carry it.
pub struct ViewInsert {
    /// The inner view.
    pub inner: Box<View>,
    /// The attribute kind to insert.
    pub component: u64,
}

/// A view that inserts an attribute of a fixed kind on the single node the
/// inner view produced; it must not be applied to a fragment, and inserts
/// again whenever the produced node changes.
pub struct ViewInsertBundle {
    /// The inner view.
    pub inner: Box<View>,
    /// The attribute kind to insert.
    pub component: u64,
}

/// A view that signals a callback binding for every node the inner view
/// produced: on every rebuild, or only when the produced nodes change.
pub struct ViewWith {
    /// The inner view.
    pub inner: Box<View>,
    /// The callback binding to signal.
    pub callback: u64,
    /// When true, signal only when the produced nodes change.
    pub once: bool,
}

/// A view that applies a set of styles to every node the inner view
/// produced.
pub struct ViewStyled {
    /// The inner view.
    pub inner: Box<View>,
    /// The style kinds to apply.
    pub styles: Vec<u64>,
}

/// An immutable description of a subtree to reconcile against the store:
/// leaf variants, combinator variants wrapping an inner view, and the
/// presenter variant.
pub enum View {
    /// Renders nothing.
    Empty,
    /// Renders a single text node.
    Text(String),
    /// Renders an ordered list of views.
    Fragment(Vec<View>),
    /// Applies styles to the nodes of the inner view.
    Styled(ViewStyled),
    /// Inserts an attribute on each node of the inner view.
    Insert(ViewInsert),
    /// Inserts an attribute on the single node of the inner view.
    InsertBundle(ViewInsertBundle),
    /// Signals a callback for the nodes of the inner view.
    With(ViewWith),
    /// A presenter bound to properties.
    Bind(Box<Bind>),
}

/// The externalized per-view state a view tree keeps between builds,
/// default-constructed on first build and mutated in place thereafter.
pub enum ViewMem {
    /// State of leaves and of combinators that keep none of their own.
    Unit,
    /// The presenter node a bind spawned, once it exists.
    Slot(Option<usize>),
    /// One state per member of a fragment.
    List(Vec<ViewMem>),
    /// A remembered output shape plus the inner state.
    Span(NodeSpan, Box<ViewMem>),
}

/// The values of a sequence of templates, in order.
pub open spec fn templates_view(ts: Seq<Template>) -> Seq<TemplateV>
    decreases ts,
{
    if ts.len() == 0 {
        Seq::empty()
    } else {
        templates_view(ts.drop_last()).push(ts.last()@)
    }
}

/// The values of a sequence of views, in order.
pub open spec fn views_view(vs: Seq<View>) -> Seq<ViewV>
    decreases vs,
{
    if vs.len() == 0 {
        Seq::empty()
    } else {
        views_view(vs.drop_last()).push(vs.last()@)
    }
}

/// The values of a sequence of view states, in order.
pub open spec fn mems_view(ms: Seq<ViewMem>) -> Seq<MemV>
    decreases ms,
{
    if ms.len() == 0 {
        Seq::empty()
    } else {
        mems_view(ms.drop_last()).push(ms.last()@)
    }
}

impl vstd::view::View for Template {
    type V = TemplateV;

    open spec fn view(&self) -> TemplateV
        decreases self,
    {
        match self {
            Template::Static(v) => TemplateV::Static(Box::new((**v)@)),
            Template::PropText(i) => TemplateV::PropText(*i),
            Template::ResText(id) => TemplateV::ResText(*id),
            Template::Group(ts) => TemplateV::Group(templates_view(ts@)),
        }
    }
}

impl vstd::view::View for Bind {
    type V = ViewV;

    open spec fn view(&self) -> ViewV {
        ViewV::Bind(self.presenter@, self.props@)
    }
}

impl vstd::view::View for View {
    type V = ViewV;

    open spec fn view(&self) -> ViewV
        decreases self,
    {
        match self {
            View::Empty => ViewV::Empty,
            View::Text(s) => ViewV::Text(s@),
            View::Fragment(vs) => ViewV::Fragment(views_view(vs@)),
            View::Styled(v) => ViewV::Styled(v.styles@, Box::new((*v.inner)@)),
            View::Insert(v) => ViewV::Insert(v.component, Box::new((*v.inner)@)),
            View::InsertBundle(v) => ViewV::InsertBundle(v.component, Box::new((*v.inner)@)),
            View::With(v) => ViewV::With(v.callback, v.once, Box::new((*v.inner)@)),
            View::Bind(b) => ViewV::Bind(b.presenter@, b.props@),
        }
    }
}

impl vstd::view::View for ViewMem {
    type V = MemV;

    open spec fn view(&self) -> MemV
        decreases self,
    {
        match self {
            ViewMem::Unit => MemV::Unit,
            ViewMem::Slot(e) => MemV::Slot(*e),
            ViewMem::List(ms) => MemV::List(mems_view(ms@)),
            ViewMem::Span(sp, inner) => MemV::Span(sp@, Box::new((**inner)@)),
        }
    }
}

/// `templates_view` maps each template to its value, keeping length and
/// order.
pub proof fn lemma_templates_view(ts: Seq<Template>)
    ensures
        templates_view(ts).len() == ts.len(),
        forall|i: int| 0 <= i < ts.len() ==> templates_view(ts)[i] == ts[i]@,
    decreases ts,
{
    if ts.len() > 0 {
        let pre = ts.drop_last();
        lemma_templates_view(pre);
        assert(templates_view(ts) == templates_view(pre).push(ts.last()@));
        assert(templates_view(pre).push(ts.last()@).len() == templates_view(pre).len() + 1);
        assert forall|i: int| 0 <= i < ts.len() implies templates_view(ts)[i] == ts[i]@ by {
            if i < ts.len() - 1 {
                assert(templates_view(ts)[i] == templates_view(pre)[i]);
                assert(pre[i] == ts[i]);
            } else {
                assert(templates_view(ts)[i] == ts.last()@);
            }
        }
    }
}

/// `views_view` maps each view to its value, keeping length and order.
pub proof fn lemma_views_view(vs: Seq<View>)
    ensures
        views_view(vs).len() == vs.len(),
        forall|i: int| 0 <= i < vs.len() ==> views_view(vs)[i] == vs[i]@,
    decreases vs,
{
    if vs.len() > 0 {
        let pre = vs.drop_last();
        lemma_views_view(pre);
        assert(views_view(vs) == views_view(pre).push(vs.last()@));
        assert(views_view(pre).push(vs.last()@).len() == views_view(pre).len() + 1);
        assert forall|i: int| 0 <= i < vs.len() implies views_view(vs)[i] == vs[i]@ by {
            if i < vs.len() - 1 {
                assert(views_view(vs)[i] == views_view(pre)[i]);
                assert(pre[i] == vs[i]);
            } else {
                assert(views_view(vs)[i] == vs.last()@);
            }
        }
    }
}

/// `mems_view` maps each state to its value, keeping length and order.
pub proof fn lemma_mems_view(ms: Seq<ViewMem>)
    ensures
        mems_view(ms).len() == ms.len(),
        forall|i: int| 0 <= i < ms.len() ==> mems_view(ms)[i] == ms[i]@,
    decreases ms,
{
    if ms.len() > 0 {
        let pre = ms.drop_last();
        lemma_mems_view(pre);
        assert(mems_view(ms) == mems_view(pre).push(ms.last()@));
        assert(mems_view(pre).push(ms.last()@).len() == mems_view(pre).len() + 1);
        assert forall|i: int| 0 <= i < ms.len() implies mems_view(ms)[i] == ms[i]@ by {
            if i < ms.len() - 1 {
                assert(mems_view(ms)[i] == mems_view(pre)[i]);
                assert(pre[i] == ms[i]);
            } else {
                assert(mems_view(ms)[i] == ms.last()@);
            }
        }
    }
}

/// Pushing a view onto a sequence pushes its value onto the value sequence.
pub proof fn lemma_views_view_push(vs: Seq<View>, v: View)
    ensures
        views_view(vs.push(v)) == views_view(vs).push(v@),
{
    lemma_views_view(vs);
    lemma_views_view(vs.push(v));
    assert(views_view(vs.push(v)) =~= views_view(vs).push(v@));
}

/// A fragment view is structurally larger than each of its members.
proof fn lemma_view_member_decreases(whole: View, i: int)
    requires
        whole is Fragment,
        0 <= i < whole->Fragment_0@.len(),
    ensures
        decreases_to!(whole => whole->Fragment_0@[i]),
{
    let members = whole->Fragment_0;
    assert(decreases_to!(whole => members));
    assert(decreases_to!(members => members@));
    assert(decreases_to!(members@ => members@[i]));
}

/// A template group is structurally larger than each of its members.
proof fn lemma_template_member_decreases(whole: Template, i: int)
    requires
        whole is Group,
        0 <= i < whole->Group_0@.len(),
    ensures
        decreases_to!(whole => whole->Group_0@[i]),
{
    let members = whole->Group_0;
    assert(decreases_to!(whole => members));
    assert(decreases_to!(members => members@));
    assert(decreases_to!(members@ => members@[i]));
}

impl Clone for Template {
    /// A deep copy whose value equals the original's.
    fn clone(&self) -> (r: Self)
        ensures
            r@ == self@,
        decreases *self,
    {
        match self {
            Template::Static(v) => Template::Static(Box::new((**v).clone())),
            Template::PropText(i) => Template::PropText(*i),
            Template::ResText(id) => Template::ResText(*id),
            Template::Group(ts) => {
                proof {
                    lemma_templates_view(ts@);
                }
                let n = ts.len();
                let mut copies: Vec<Template> = Vec::new();
                for i in 0..n
                    invariant
                        *self == Template::Group(*ts),
                        n == ts@.len(),
                        copies@.len() == i,
                        forall|j: int| 0 <= j < i ==> copies@[j]@ == ts@[j]@,
                    decreases n - i,
                {
                    proof {
                        lemma_template_member_decreases(*self, i as int);
                    }
                    copies.push(ts[i].clone());
                }
                let r = Template::Group(copies);
                proof {
                    lemma_templates_view(copies@);
                    assert(templates_view(copies@) =~= templates_view(ts@));
                }
                r
            }
        }
    }
}

impl Clone for Bind {
    /// A deep copy whose value equals the original's.
    fn clone(&self) -> (r: Self)
        ensures
            r@ == self@,
        decreases *self,
    {
        Bind { presenter: self.presenter.clone(), props: self.props.clone() }
    }
}

impl Clone for View {
    /// A deep copy whose value equals the original's.
    fn clone(&self) -> (r: Self)
        ensures
            r@ == self@,
        decreases *self,
    {
        match self {
            View::Empty => View::Empty,
            View::Text(s) => View::Text(s.clone()),
            View::Fragment(vs) => {
                proof {
                    lemma_views_view(vs@);
                }
                let n = vs.len();
                let mut copies: Vec<View> = Vec::new();
                for i in 0..n
                    invariant
                        *self == View::Fragment(*vs),
                        n == vs@.len(),
                        copies@.len() == i,
                        forall|j: int| 0 <= j < i ==> copies@[j]@ == vs@[j]@,
                    decreases n - i,
                {
                    proof {
                        lemma_view_member_decreases(*self, i as int);
                    }
                    copies.push(vs[i].clone());
                }
                let r = View::Fragment(copies);
                proof {
                    lemma_views_view(copies@);
                    assert(views_view(copies@) =~= views_view(vs@));
                }
                r
            }
            View::Styled(v) => View::Styled(
                ViewStyled { inner: Box::new((*v.inner).clone()), styles: clone_u64s(&v.styles) },
            ),
            View::Insert(v) => View::Insert(
                ViewInsert { inner: Box::new((*v.inner).clone()), component: v.component },
            ),
            View::InsertBundle(v) => View::InsertBundle(
                ViewInsertBundle { inner: Box::new((*v.inner).clone()), component: v.component },
            ),
            View::With(v) => View::With(
                ViewWith {
                    inner: Box::new((*v.inner).clone()),
                    callback: v.callback,
                    once: v.once,
                },
            ),
            View::Bind(b) => View::Bind(Box::new((**b).clone())),
        }
    }
}

/// Copies a vector of plain attribute kinds.
fn clone_u64s(v: &Vec<u64>) -> (r: Vec<u64>)
    ensures
        r@ == v@,
{
    let n = v.len();
    let mut out: Vec<u64> = Vec::new();
    for i in 0..n
        invariant
            n == v@.len(),
            out@ =~= v@.take(i as int),
        decreases n - i,
    {
        out.push(v[i]);
    }
    proof {
        assert(out@ =~= v@);
    }
    out
}

impl View {
    /// Wraps this view so the given styles are applied to every node it
    /// produces.
    pub fn styled(self, styles: Vec<u64>) -> (r: View)
        ensures
            r@ == ViewV::Styled(styles@, Box::new(self@)),
    {
        View::Styled(ViewStyled { inner: Box::new(self), styles })
    }

    /// Wraps this view so an attribute of kind `component` is inserted on
    /// every node it produces, if not already inserted.
    pub fn insert(self, component: u64) -> (r: View)
        ensures
            r@ == ViewV::Insert(component, Box::new(self@)),
    {
        View::Insert(ViewInsert { inner: Box::new(self), component })
    }

    /// Wraps this view so the callback binding `callback` is signalled for
    /// each node it produces, on every rebuild.
    pub fn with(self, callback: u64) -> (r: View)
        ensures
            r@ == ViewV::With(callback, false, Box::new(self@)),
    {
        View::With(ViewWith { inner: Box::new(self), callback, once: false })
    }

    /// Wraps this view so the callback binding `callback` is signalled for
    /// each node it produces, but only when the produced nodes change.
    pub fn once(self, callback: u64) -> (r: View)
        ensures
            r@ == ViewV::With(callback, true, Box::new(self@)),
    {
        View::With(ViewWith { inner: Box::new(self), callback, once: true })
    }
}

impl Bind {
    /// Binds a presenter body to properties.
    pub fn new(presenter: Template, props: Props) -> (r: Bind)
        ensures
            r@ == ViewV::Bind(presenter@, props@),
    {
        Bind { presenter, props }
    }
}

/// Anything that can be bound to properties to become a presenter view.
pub trait PresenterFn: Sized {
    /// Binds this presenter to properties, yielding a view.
    fn bind(self, props: Props) -> Bind;
}

impl PresenterFn for Template {
    /// Binds this presenter body to properties, yielding a view.
    fn bind(self, props: Props) -> (r: Bind)
        ensures
            r@ == ViewV::Bind(self@, props@),
    {
        Bind::new(self, props)
    }
}

/// The shared-value names a template reads when instantiated, in reading
/// order.
pub open spec fn reads_of(t: TemplateV) -> Seq<u64>
    decreases t,
{
    match t {
        TemplateV::Static(_) => Seq::empty(),
        TemplateV::PropText(_) => Seq::empty(),
        TemplateV::ResText(id) => seq![id],
        TemplateV::Group(ts) => reads_all(ts),
    }
}

/// The shared-value names a group of templates reads, concatenated in
/// order.
pub open spec fn reads_all(ts: Seq<TemplateV>) -> Seq<u64>
    decreases ts,
{
    if ts.len() == 0 {
        Seq::empty()
    } else {
        reads_of(ts[0]) + reads_all(ts.drop_first())
    }
}

/// The view a template yields for given properties and given shared values:
/// instantiation is a function of the template, the properties and the
/// store's shared values alone.
pub open spec fn inst_spec(t: TemplateV, props: Seq<Seq<char>>, s: StoreV) -> ViewV
    decreases t,
{
    match t {
        TemplateV::Static(v) => *v,
        TemplateV::PropText(i) => ViewV::Text(
            if i < props.len() {
                props[i as int]
            } else {
                Seq::empty()
            },
        ),
        TemplateV::ResText(id) => ViewV::Text(
            match s.res_value(id) {
                Option::Some(v) => v,
                Option::None => Seq::empty(),
            },
        ),
        TemplateV::Group(ts) => ViewV::Fragment(inst_all(ts, props, s)),
    }
}

/// The views a group of templates yields, in order.
pub open spec fn inst_all(ts: Seq<TemplateV>, props: Seq<Seq<char>>, s: StoreV) -> Seq<ViewV>
    decreases ts,
{
    if ts.len() == 0 {
        Seq::empty()
    } else {
        inst_all(ts.drop_last(), props, s).push(inst_spec(ts.last(), props, s))
    }
}

/// Instantiation depends only on the shared values, not on the nodes: two
/// stores whose shared values agree instantiate every template alike.
pub proof fn lemma_inst_same_res(t: TemplateV, props: Seq<Seq<char>>, s1: StoreV, s2: StoreV)
    requires
        forall|id: u64| #[trigger] s1.res_value(id) == s2.res_value(id),
    ensures
        inst_spec(t, props, s1) == inst_spec(t, props, s2),
    decreases t,
{
    match t {
        TemplateV::Static(_) => {}
        TemplateV::PropText(_) => {}
        TemplateV::ResText(_) => {}
        TemplateV::Group(ts) => {
            lemma_inst_all_same_res(ts, props, s1, s2);
        }
    }
}

proof fn lemma_inst_all_same_res(ts: Seq<TemplateV>, props: Seq<Seq<char>>, s1: StoreV, s2: StoreV)
    requires
        forall|id: u64| #[trigger] s1.res_value(id) == s2.res_value(id),
    ensures
        inst_all(ts, props, s1) == inst_all(ts, props, s2),
    decreases ts,
{
    if ts.len() > 0 {
        lemma_inst_all_same_res(ts.drop_last(), props, s1, s2);
        lemma_inst_same_res(ts.last(), props, s1, s2);
        assert(inst_all(ts, props, s1) =~= inst_all(ts, props, s2));
    }
}

/// One step of group instantiation: a prefix one longer yields the shorter
/// prefix's views followed by the next template's view.
pub proof fn lemma_inst_all_take_step(
    ts: Seq<TemplateV>,
    props: Seq<Seq<char>>,
    s: StoreV,
    i: int,
)
    requires
        0 <= i < ts.len(),
    ensures
        inst_all(ts.take(i + 1), props, s) == inst_all(ts.take(i), props, s).push(
            inst_spec(ts[i], props, s),
        ),
        reads_all(ts.take(i + 1)) == reads_all(ts.take(i)) + reads_of(ts[i]),
{
    let pre = ts.take(i + 1);
    assert(pre.drop_last() =~= ts.take(i));
    assert(pre.last() == ts[i]);
    lemma_reads_all_snoc(ts.take(i), ts[i]);
    assert(ts.take(i).push(ts[i]) =~= ts.take(i + 1));
}

/// Reading order over a group extended by one template.
proof fn lemma_reads_all_snoc(ts: Seq<TemplateV>, t: TemplateV)
    ensures
        reads_all(ts.push(t)) == reads_all(ts) + reads_of(t),
    decreases ts,
{
    let pushed = ts.push(t);
    if ts.len() == 0 {
        assert(pushed[0] == t);
        assert(pushed.drop_first() =~= Seq::<TemplateV>::empty());
        assert(reads_all(pushed) == reads_of(pushed[0]) + reads_all(pushed.drop_first()));
        assert(reads_all(Seq::<TemplateV>::empty()) == Seq::<u64>::empty());
        assert(reads_all(ts) == Seq::<u64>::empty());
        assert(reads_of(t) + Seq::<u64>::empty() =~= reads_of(t));
        assert(Seq::<u64>::empty() + reads_of(t) =~= reads_of(t));
    } else {
        assert(pushed[0] == ts[0]);
        assert(pushed.drop_first() =~= ts.drop_first().push(t));
        lemma_reads_all_snoc(ts.drop_first(), t);
        assert(reads_all(pushed) == reads_of(pushed[0]) + reads_all(pushed.drop_first()));
        assert(reads_all(ts) == reads_of(ts[0]) + reads_all(ts.drop_first()));
        assert(reads_of(ts[0]) + (reads_all(ts.drop_first()) + reads_of(t)) =~= (reads_of(ts[0])
            + reads_all(ts.drop_first())) + reads_of(t));
    }
}

impl Cx {
    /// Reads the shared value named `id`, recording the read into the
    /// dependency tracker of the node currently built under, so a later
    /// change of the value marks that subtree dirty.
    pub fn use_resource(&self, ecx: &mut ElementContext, id: u64) -> (r: Option<String>)
        ensures
            final(ecx).entity == old(ecx).entity,
            final(ecx).store@ == record_one(old(ecx).store@, old(ecx).entity as int, id),
            crate::store::text_view(r) == old(ecx).store@.res_value(id),
    {
        let r = ecx.store.get_resource(id);
        let e = ecx.entity;
        ecx.store.record_read(e, id);
        r
    }

    /// Reads the shared value named `id` with the intent to change it,
    /// recording the read like [`Cx::use_resource`]; the write itself goes
    /// through [`Store::set_resource`], which bumps the value's version.
    pub fn use_resource_mut(&self, ecx: &mut ElementContext, id: u64) -> (r: Option<String>)
        ensures
            final(ecx).entity == old(ecx).entity,
            final(ecx).store@ == record_one(old(ecx).store@, old(ecx).entity as int, id),
            crate::store::text_view(r) == old(ecx).store@.res_value(id),
    {
        self.use_resource(ecx, id)
    }
}

impl Template {
    /// Produces this presenter body's view for the given context, recording
    /// every shared-value read into the tracker of the current node.
    pub fn instantiate(&self, cx: &Cx, ecx: &mut ElementContext) -> (v: View)
        ensures
            final(ecx).entity == old(ecx).entity,
            final(ecx).store@ == record_all(
                old(ecx).store@,
                old(ecx).entity as int,
                reads_of(self@),
            ),
            v@ == inst_spec(self@, cx.props@, old(ecx).store@),
        decreases *self,
    {
        match self {
            Template::Static(v) => {
                let r = (**v).clone();
                r
            }
            Template::PropText(i) => {
                proof {
                    lemma_strs_view(cx.props.vals@);
                }
                if *i < cx.props.vals.len() {
                    View::Text(cx.props.vals[*i].clone())
                } else {
                    View::Text(String::new())
                }
            }
            Template::ResText(id) => {
                let r = build_res_text(cx, ecx, *id);
                r
            }
            Template::Group(ts) => {
                proof {
                    lemma_templates_view(ts@);
                }
                let ghost s0 = ecx.store@;
                let ghost e = ecx.entity as int;
                let ghost tvs = templates_view(ts@);
                let n = ts.len();
                let mut members: Vec<View> = Vec::new();
                proof {
                    assert(tvs.take(0) =~= Seq::<TemplateV>::empty());
                    assert(reads_all(Seq::<TemplateV>::empty()) == Seq::<u64>::empty());
                    assert(record_all(s0, e, Seq::<u64>::empty()) == s0);
                    assert(views_view(members@) == inst_all(tvs.take(0), cx_props(cx), s0));
                }
                for i in 0..n
                    invariant
                        *self == Template::Group(*ts),
                        n == ts@.len(),
                        tvs == templates_view(ts@),
                        tvs.len() == n,
                        forall|j: int| 0 <= j < n ==> tvs[j] == ts@[j]@,
                        ecx.entity as int == e,
                        ecx.store@ == record_all(s0, e, reads_all(tvs.take(i as int))),
                        views_view(members@) == inst_all(tvs.take(i as int), cx_props(cx), s0),
                    decreases n - i,
                {
                    proof {
                        lemma_template_member_decreases(*self, i as int);
                        lemma_inst_all_take_step(tvs, cx_props(cx), s0, i as int);
                        crate::store::lemma_record_all_frame(s0, e, reads_all(tvs.take(i as int)));
                    }
                    let m = ts[i].instantiate(cx, ecx);
                    proof {
                        lemma_inst_same_res(tvs[i as int], cx_props(cx), record_all(
                            s0,
                            e,
                            reads_all(tvs.take(i as int)),
                        ), s0);
                        crate::store::lemma_record_all_concat(s0, e, reads_all(
                            tvs.take(i as int),
                        ), reads_of(tvs[i as int]));
                        assert(m@ == inst_spec(tvs[i as int], cx_props(cx), s0));
                    }
                    let ghost pre = members@;
                    members.push(m);
                    proof {
                        lemma_views_view_push(pre, m);
                        assert(views_view(members@) == inst_all(
                            tvs.take(i as int + 1),
                            cx_props(cx),
                            s0,
                        ));
                    }
                }
                let r = View::Fragment(members);
                proof {
                    assert(tvs.take(n as int) =~= tvs);
                }
                r
            }
        }
    }
}

/// The property values of a presenter context.
pub open spec fn cx_props(cx: &Cx) -> Seq<Seq<char>> {
    cx.props@
}

/// Reads a shared value and renders it as a text leaf.
fn build_res_text(cx: &Cx, ecx: &mut ElementContext, id: u64) -> (v: View)
    ensures
        final(ecx).entity == old(ecx).entity,
        final(ecx).store@ == record_all(
            old(ecx).store@,
            old(ecx).entity as int,
            reads_of(TemplateV::ResText(id)),
        ),
        v@ == inst_spec(TemplateV::ResText(id), cx.props@, old(ecx).store@),
{
    let r = cx.use_resource(ecx, id);
    proof {
        let s = old(ecx).store@;
        let e = old(ecx).entity as int;
        let ids = seq![id];
        assert(reads_of(TemplateV::ResText(id)) == ids);
        assert(ids[0] == id);
        assert(ids.drop_first() =~= Seq::<u64>::empty());
        assert(record_all(s, e, ids) == record_all(record_one(s, e, ids[0]), e, ids.drop_first()));
        assert(record_all(record_one(s, e, id), e, Seq::<u64>::empty()) == record_one(s, e, id));
    }
    match r {
        Option::Some(s) => View::Text(s),
        Option::None => View::Text(String::new()),
    }
}

/// Whether a build of view `v` against the previously produced shape `prev`
/// will reuse that shape wholly: same node ids, no node created or
/// destroyed. Presenter subtrees are never claimed compatible here.
pub open spec fn compat(v: ViewV, s: StoreV, prev: SpanV) -> bool
    decreases v,
{
    match v {
        ViewV::Empty => prev is Empty,
        ViewV::Text(_) => prev matches SpanV::Node(n) && s.has_text(n as int),
        ViewV::Fragment(cs) => prev matches SpanV::Fragment(ps) && compat_all(cs, s, ps),
        ViewV::Styled(_, inner) => compat(*inner, s, prev),
        ViewV::Insert(_, inner) => compat(*inner, s, prev),
        ViewV::InsertBundle(_, inner) => compat(*inner, s, prev) && !(prev is Fragment),
        ViewV::With(_, _, inner) => compat(*inner, s, prev),
        ViewV::Bind(_, _) => false,
    }
}

/// Whether each member view is compatible with the matching member shape.
pub open spec fn compat_all(cs: Seq<ViewV>, s: StoreV, ps: Seq<SpanV>) -> bool
    decreases cs,
{
    if cs.len() != ps.len() {
        false
    } else if cs.len() == 0 {
        true
    } else {
        compat_all(cs.drop_last(), s, ps.drop_last()) && compat(cs.last(), s, ps.last())
    }
}

/// Member-wise reading of `compat_all`.
pub proof fn lemma_compat_all_index(cs: Seq<ViewV>, s: StoreV, ps: Seq<SpanV>)
    requires
        compat_all(cs, s, ps),
    ensures
        cs.len() == ps.len(),
        forall|i: int| 0 <= i < cs.len() ==> compat(#[trigger] cs[i], s, ps[i]),
    decreases cs,
{
    if cs.len() > 0 {
        lemma_compat_all_index(cs.drop_last(), s, ps.drop_last());
        assert forall|i: int| 0 <= i < cs.len() implies compat(#[trigger] cs[i], s, ps[i]) by {
            if i < cs.len() - 1 {
                assert(cs.drop_last()[i] == cs[i]);
                assert(ps.drop_last()[i] == ps[i]);
            }
        }
    }
}

/// Member-wise construction of `compat_all`.
pub proof fn lemma_compat_all_intro(cs: Seq<ViewV>, s: StoreV, ps: Seq<SpanV>)
    requires
        cs.len() == ps.len(),
        forall|i: int| 0 <= i < cs.len() ==> compat(#[trigger] cs[i], s, ps[i]),
    ensures
        compat_all(cs, s, ps),
    decreases cs,
{
    if cs.len() > 0 {
        assert(cs.last() == cs[cs.len() - 1]);
        lemma_compat_all_intro(cs.drop_last(), s, ps.drop_last());
    }
}

/// Compatibility only reads which nodes carry text: it survives any store
/// change that keeps text-carrying nodes alive with their text.
pub proof fn lemma_compat_preserved(v: ViewV, s1: StoreV, s2: StoreV, prev: SpanV)
    requires
        compat(v, s1, prev),
        forall|e: int| s1.has_text(e) ==> #[trigger] s2.has_text(e),
    ensures
        compat(v, s2, prev),
    decreases v,
{
    match v {
        ViewV::Empty => {}
        ViewV::Text(_) => {}
        ViewV::Fragment(cs) => {
            let ps = prev->Fragment_0;
            lemma_compat_all_index(cs, s1, ps);
            assert forall|i: int| 0 <= i < cs.len() implies compat(#[trigger] cs[i], s2, ps[i]) by {
                lemma_compat_preserved(cs[i], s1, s2, ps[i]);
            }
            lemma_compat_all_intro(cs, s2, ps);
        }
        ViewV::Styled(_, inner) => {
            lemma_compat_preserved(*inner, s1, s2, prev);
        }
        ViewV::Insert(_, inner) => {
            lemma_compat_preserved(*inner, s1, s2, prev);
        }
        ViewV::InsertBundle(_, inner) => {
            lemma_compat_preserved(*inner, s1, s2, prev);
        }
        ViewV::With(_, _, inner) => {
            lemma_compat_preserved(*inner, s1, s2, prev);
        }
        ViewV::Bind(_, _) => {}
    }
}

/// What a build promises when the view is compatible with the shape it
/// produced last time: the same shape comes back, node for node, and the
/// build neither created nor destroyed a node.
pub open spec fn reuse_post(
    v: ViewV,
    s1: StoreV,
    s2: StoreV,
    prevv: SpanV,
    r: Result<NodeSpan, BuildError>,
) -> bool {
    compat(v, s1, prevv) ==> (r matches Result::Ok(ns) && ns@ == prevv && shape_edit_free(
        delta(s1, s2),
    ) && retains(s1, s2))
}

/// What building a text leaf promises: when the previous shape is a single
/// node that still carries text, that node is kept and its text rewritten in
/// place; otherwise the previous nodes are destroyed and a fresh node is
/// spawned carrying the text.
pub open spec fn text_build_post(
    t: Seq<char>,
    prev: SpanV,
    s1: StoreV,
    s2: StoreV,
    r: Result<NodeSpan, BuildError>,
) -> bool {
    match r {
        Result::Ok(ns) => {
            if prev matches SpanV::Node(n) && s1.has_text(n as int) {
                &&& ns@ == prev
                &&& s2.text_of(prev->Node_0 as int) == Option::Some(t)
                &&& shape_edit_free(delta(s1, s2))
                &&& retains(s1, s2)
            } else {
                &&& ns@ matches SpanV::Node(m) && m >= s1.recs.len() && s2.text_of(m as int)
                    == Option::Some(t) && crate::store::span_dead_except(prev, s2, m)
            }
        },
        Result::Err(_) => false,
    }
}

/// Each declared member is compatible with the member shape at its
/// position in the previous output, which is at least as long.
pub open spec fn prefix_compat(cs: Seq<ViewV>, s: StoreV, ps: Seq<SpanV>) -> bool {
    cs.len() <= ps.len() && forall|j: int| 0 <= j < cs.len() ==> compat(#[trigger] cs[j], s, ps[j])
}

/// What a successful presenter build promises. The state names the
/// presenter node: the one it already named, or a slot this build freshly
/// allocated, with the store grown. While that node lives its holder is
/// reattached and caches exactly the returned shape; when the node was
/// dirty or freshly spawned, the holder was rebuilt, so its view is the
/// instantiation of its stored presenter; when the node was clean, its
/// holder is exactly the one it already had. A fresh spawn's holder carries
/// this presenter and these properties, and a detached holder yields
/// nothing with the store untouched. A fresh spawn's node is parented
/// under the caller's current node and carries a dependency tracker.
pub open spec fn bind_ok_post(
    t: TemplateV,
    props: Seq<Seq<char>>,
    parent: usize,
    s1: StoreV,
    s2: StoreV,
    m1: MemV,
    m2: MemV,
    ns: SpanV,
) -> bool {
    m2 matches MemV::Slot(Option::Some(e)) && {
        &&& (m1 matches MemV::Slot(Option::Some(e0)) ==> e == e0)
        &&& (!(m1 matches MemV::Slot(Option::Some(_))) ==> e as int == s1.recs.len()
            && s2.recs.len() > s1.recs.len() && s2.recs[e as int].parent == Option::Some(parent)
            && s2.recs[e as int].deps is Some)
        &&& (m1 matches MemV::Slot(Option::Some(e0)) ==> ((s1.handle_of(e0 as int)
            matches Option::Some(Option::Some(_))) && s2.alive(e as int) ==> (s2.handle_of(
            e as int,
        ) matches Option::Some(Option::Some(_)))))
        &&& (!(m1 matches MemV::Slot(Option::Some(_))) ==> (s2.alive(e as int) ==> (s2.handle_of(
            e as int,
        ) matches Option::Some(Option::Some(_)))))
        &&& (s2.handle_of(e as int) matches Option::Some(Option::Some(st)) ==> st.nodes == ns && (
        (!(m1 matches MemV::Slot(Option::Some(_))) || s1.dirty(e as int)) ==> st.view
            == Option::Some(inst_spec(st.presenter, st.props, s2))))
        &&& (s2.handle_of(e as int) matches Option::Some(Option::Some(st2)) ==> (!(m1
            matches MemV::Slot(Option::Some(_))) ==> st2.presenter == t && st2.props == props))
        &&& (m1 matches MemV::Slot(Option::Some(e0)) ==> (!s1.dirty(e0 as int) ==> s2.handle_of(
            e0 as int,
        ) == s1.handle_of(e0 as int)))
        &&& (m1 matches MemV::Slot(Option::Some(e0)) ==> (!(s1.handle_of(e0 as int)
            matches Option::Some(Option::Some(_))) ==> ns == SpanV::Empty && s2 == s1))
    }
}

/// What the shape a build produces promises, by the built view's core: an
/// empty core renders nothing; a text core keeps or replaces its single
/// node as `text_build_post` says; a fragment core has one member shape
/// per declared member.
pub open spec fn shape_post(v: ViewV, s1: StoreV, s2: StoreV, prevv: SpanV, ns: NodeSpan) -> bool {
    &&& (core_view(v) is Empty ==> ns@ == SpanV::Empty)
    &&& (core_view(v) matches ViewV::Text(t) ==> text_build_post(
        t,
        prevv,
        s1,
        s2,
        Result::<NodeSpan, BuildError>::Ok(ns),
    ))
    &&& (core_view(v) matches ViewV::Fragment(cs) ==> ns@ matches SpanV::Fragment(ps) && ps.len()
        == cs.len())
    &&& (passthrough_core(v) matches ViewV::Fragment(cs2) ==> (prevv matches SpanV::Fragment(pp)
        ==> (prefix_compat(cs2, s1, pp) ==> ns@ == SpanV::Fragment(pp.take(cs2.len() as int)) && (
    forall|j: int| cs2.len() <= j < pp.len() ==> span_dead(#[trigger] pp[j], s2)))))
}

/// The view beneath any combinator wrappers: what a build of the wrapped
/// view actually renders.
pub open spec fn core_view(v: ViewV) -> ViewV
    decreases v,
{
    match v {
        ViewV::Styled(_, inner) => core_view(*inner),
        ViewV::Insert(_, inner) => core_view(*inner),
        ViewV::InsertBundle(_, inner) => core_view(*inner),
        ViewV::With(_, _, inner) => core_view(*inner),
        _ => v,
    }
}

/// The view beneath the wrappers that pass any shape through unchanged;
/// the single-node combinator is not stripped, since it rejects fragments.
pub open spec fn passthrough_core(v: ViewV) -> ViewV
    decreases v,
{
    match v {
        ViewV::Styled(_, inner) => passthrough_core(*inner),
        ViewV::Insert(_, inner) => passthrough_core(*inner),
        ViewV::With(_, _, inner) => passthrough_core(*inner),
        _ => v,
    }
}

/// Positional compatibility survives any store change that keeps
/// text-carrying nodes alive with their text.
pub proof fn lemma_prefix_compat_step(cs: Seq<ViewV>, s1: StoreV, s2: StoreV, ps: Seq<SpanV>)
    requires
        prefix_compat(cs, s1, ps),
        forall|e: int| s1.has_text(e) ==> #[trigger] s2.has_text(e),
    ensures
        prefix_compat(cs, s2, ps),
{
    assert forall|j: int| 0 <= j < cs.len() implies compat(#[trigger] cs[j], s2, ps[j]) by {
        lemma_compat_preserved(cs[j], s1, s2, ps[j]);
    }
}

/// Every handle a build attaches is a freshly built holder: if a node's
/// holder slot changed and ends attached, the holder's cached view is the
/// instantiation of its presenter under the store's shared values.
pub open spec fn handles_rebuilt(s1: StoreV, s2: StoreV) -> bool {
    forall|e: int|
        0 <= e < s1.recs.len() && (#[trigger] s2.handle_of(e)) != s1.handle_of(e)
            && s2.handle_of(e) is Some && s2.handle_of(e)->Some_0 is Some ==> (s2.handle_of(
            e,
        )->Some_0->Some_0).view == Option::Some(
            inst_spec(
                (s2.handle_of(e)->Some_0->Some_0).presenter,
                (s2.handle_of(e)->Some_0->Some_0).props,
                s2,
            ),
        )
}

/// `handles_rebuilt` composes, since the shared values never change under
/// `extends`.
pub proof fn lemma_handles_rebuilt_trans(s1: StoreV, s2: StoreV, s3: StoreV)
    requires
        handles_rebuilt(s1, s2),
        handles_rebuilt(s2, s3),
        s1.recs.len() <= s2.recs.len(),
        extends(s2, s3),
    ensures
        handles_rebuilt(s1, s3),
{
    assert forall|e: int|
        0 <= e < s1.recs.len() && (#[trigger] s3.handle_of(e)) != s1.handle_of(e)
            && s3.handle_of(e) is Some && s3.handle_of(e)->Some_0 is Some implies (s3.handle_of(
        e,
    )->Some_0->Some_0).view == Option::Some(
        inst_spec(
            (s3.handle_of(e)->Some_0->Some_0).presenter,
            (s3.handle_of(e)->Some_0->Some_0).props,
            s3,
        ),
    ) by {
        let st = s3.handle_of(e)->Some_0->Some_0;
        if s3.handle_of(e) == s2.handle_of(e) {
            assert(st.view == Option::Some(inst_spec(st.presenter, st.props, s2)));
            assert forall|id: u64| #[trigger] s2.res_value(id) == s3.res_value(id) by {}
            lemma_inst_same_res(st.presenter, st.props, s2, s3);
        }
    }
}

/// A store change that keeps every node's skeleton keeps its attached
/// handles, so it freshens none.
pub proof fn lemma_same_skeleton_handles(s1: StoreV, s2: StoreV)
    requires
        crate::store::same_skeleton(s1, s2),
    ensures
        handles_rebuilt(s1, s2),
{
    assert forall|e: int|
        0 <= e < s1.recs.len() implies #[trigger] s2.handle_of(e) == s1.handle_of(e) by {
        assert(s2.recs[e].handle == s1.recs[e].handle);
        assert(s2.alive(e) == s1.alive(e));
    }
}

/// No handle changes when nothing changes.
pub proof fn lemma_handles_rebuilt_refl(s: StoreV)
    ensures
        handles_rebuilt(s, s),
{
}

/// A step that only kills nodes, or leaves each record alone, attaches no
/// handle.
pub proof fn lemma_killed_handles(s1: StoreV, s2: StoreV)
    requires
        s2.recs.len() == s1.recs.len(),
        forall|e: int|
            0 <= e < s1.recs.len() ==> (#[trigger] s2.recs[e]) == s1.recs[e] || s2.recs[e]
                == (RecV { alive: false, ..s1.recs[e] }),
    ensures
        handles_rebuilt(s1, s2),
{
    assert forall|e: int|
        0 <= e < s1.recs.len() implies #[trigger] s2.handle_of(e) == s1.handle_of(e) || !(
    s2.handle_of(e) is Some) by {
        if s2.recs[e] == s1.recs[e] {
            assert(s2.alive(e) == s1.alive(e));
        } else {
            assert(!s2.alive(e));
        }
    }
}

/// A step that appends a fresh record attaches no handle to an existing
/// node.
pub proof fn lemma_push_handles(s1: StoreV, s2: StoreV, r: RecV)
    requires
        s2.recs == s1.recs.push(r),
    ensures
        handles_rebuilt(s1, s2),
{
    assert forall|e: int|
        0 <= e < s1.recs.len() implies #[trigger] s2.handle_of(e) == s1.handle_of(e) by {
        assert(s2.recs[e] == s1.recs[e]);
    }
}

/// Logging an edit attaches no handle.
pub proof fn lemma_log_handles(s: StoreV, ed: Edit)
    ensures
        handles_rebuilt(s, s.with_log(ed)),
{
    assert forall|e2: int|
        0 <= e2 < s.recs.len() implies #[trigger] s.with_log(ed).handle_of(e2) == s.handle_of(
        e2,
    ) by {}
}

/// A record replacement that keeps the node's holder slot attaches no
/// handle.
pub proof fn lemma_with_rec_handles(s: StoreV, e: int, r2: RecV)
    requires
        0 <= e < s.recs.len(),
        r2.handle == s.recs[e].handle,
        r2.alive == s.recs[e].alive,
    ensures
        handles_rebuilt(s, s.with_rec(e, r2)),
{
    let s2 = s.with_rec(e, r2);
    assert forall|e2: int|
        0 <= e2 < s.recs.len() implies #[trigger] s2.handle_of(e2) == s.handle_of(e2) by {
        if e2 != e {
            assert(s2.recs[e2] == s.recs[e2]);
        }
    }
}

/// Detaching a holder, leaving the placeholder, attaches no handle.
pub proof fn lemma_detach_handles(s: StoreV, e: int)
    requires
        0 <= e < s.recs.len(),
    ensures
        handles_rebuilt(s, s.with_handle(e, Option::Some(Option::None))),
{
    let s2 = s.with_handle(e, Option::Some(Option::None));
    assert forall|e2: int|
        0 <= e2 < s.recs.len() && (#[trigger] s2.handle_of(e2)) != s.handle_of(e2)
            && s2.handle_of(e2) is Some && s2.handle_of(e2)->Some_0 is Some implies false by {
        if e2 == e {
            if s2.alive(e2) {
                assert(s2.handle_of(e2) == Option::Some(Option::<StateV>::None));
            } else {
                assert(s2.handle_of(e2) == Option::<Option<StateV>>::None);
            }
        } else {
            assert(s2.recs[e2] == s.recs[e2]);
            assert(s2.handle_of(e2) == s.handle_of(e2));
        }
    }
}

/// A text build's promise survives a later step that keeps every node's
/// skeleton and performs no shape edit.
pub proof fn lemma_text_post_step(
    t: Seq<char>,
    prev: SpanV,
    s1: StoreV,
    s2: StoreV,
    s3: StoreV,
    r: Result<NodeSpan, BuildError>,
)
    requires
        text_build_post(t, prev, s1, s2, r),
        extends(s1, s2),
        extends(s2, s3),
        crate::store::same_skeleton(s2, s3),
        shape_edit_free(delta(s2, s3)),
    ensures
        text_build_post(t, prev, s1, s3, r),
{
    assert forall|e: int| 0 <= e < s2.recs.len() implies #[trigger] s3.text_of(e) == s2.text_of(
        e,
    ) && s3.alive(e) == s2.alive(e) by {
        assert(s3.recs[e].text == s2.recs[e].text);
        assert(s3.recs[e].alive == s2.recs[e].alive);
    }
    match r {
        Result::Ok(ns) => {
            if prev matches SpanV::Node(n) && s1.has_text(n as int) {
                crate::store::lemma_delta_compose(s1, s2, s3);
                crate::store::lemma_shape_free_concat(delta(s1, s2), delta(s2, s3));
                assert(shape_edit_free(delta(s1, s3)));
                assert forall|e: int| s1.has_text(e) implies #[trigger] s3.has_text(e) by {
                    assert(s2.has_text(e));
                }
                assert(s3.text_of(prev->Node_0 as int) == s2.text_of(prev->Node_0 as int));
            } else {
                let m = ns@->Node_0;
                assert(s3.text_of(m as int) == s2.text_of(m as int));
                assert forall|k: int|
                    0 <= k < prev.flat().len() && (#[trigger] prev.flat()[k])
                        != m implies !s3.alive(prev.flat()[k] as int) by {
                    assert(!s2.alive(prev.flat()[k] as int));
                    if (prev.flat()[k] as int) < s2.recs.len() {
                        assert(s3.alive(prev.flat()[k] as int) == s2.alive(
                            prev.flat()[k] as int,
                        ));
                    }
                }
            }
        }
        Result::Err(_) => {}
    }
}

/// A text build's promise is unchanged by an earlier step that kept every
/// node's skeleton and logged nothing.
pub proof fn lemma_text_post_pre(
    t: Seq<char>,
    prev: SpanV,
    s1: StoreV,
    s2: StoreV,
    s3: StoreV,
    r: Result<NodeSpan, BuildError>,
)
    requires
        text_build_post(t, prev, s2, s3, r),
        crate::store::same_skeleton(s1, s2),
        s2.log == s1.log,
    ensures
        text_build_post(t, prev, s1, s3, r),
{
    assert forall|e: int| 0 <= e < s1.recs.len() implies #[trigger] s2.text_of(e) == s1.text_of(
        e,
    ) && s2.alive(e) == s1.alive(e) && s2.has_text(e) == s1.has_text(e) by {
        assert(s2.recs[e].text == s1.recs[e].text);
        assert(s2.recs[e].alive == s1.recs[e].alive);
    }
    match r {
        Result::Ok(ns) => {
            if prev matches SpanV::Node(n) && s1.has_text(n as int) {
                assert(s2.has_text(prev->Node_0 as int));
                assert(delta(s1, s3) == delta(s2, s3));
                assert(crate::store::retains(s1, s3)) by {
                    assert forall|e: int|
                        (#[trigger] s1.alive(e) ==> s3.alive(e)) && (s1.has_text(e)
                            ==> s3.has_text(e)) by {
                        if s1.alive(e) {
                            assert(s2.alive(e));
                        }
                        if s1.has_text(e) {
                            assert(s2.has_text(e));
                        }
                    }
                }
            }
        }
        Result::Err(_) => {}
    }
}

/// Builds the output of a text view: reuse the previous node when it still
/// carries text, else destroy the previous shape and spawn a fresh node.
fn build_text(text: &String, ecx: &mut ElementContext, prev: &NodeSpan) -> (r: NodeSpan)
    ensures
        final(ecx).entity == old(ecx).entity,
        extends(old(ecx).store@, final(ecx).store@),
        no_revive(old(ecx).store@, final(ecx).store@),
        no_refresh(old(ecx).store@, final(ecx).store@),
        handles_rebuilt(old(ecx).store@, final(ecx).store@),
        clean_kept(old(ecx).store@, final(ecx).store@),
        crate::store::keeps_links(old(ecx).store@, final(ecx).store@),
        text_build_post(text@, prev@, old(ecx).store@, final(ecx).store@, Result::Ok(r)),
{
    let ghost s0 = ecx.store@;
    match prev {
        NodeSpan::Node(n) => {
            if ecx.store.has_text(*n) {
                ecx.store.set_text(*n, text);
                proof {
                    let mid = s0.with_rec(
                        *n as int,
                        RecV { text: Option::Some(text@), ..s0.recs[*n as int] },
                    );
                    crate::store::lemma_with_rec_frame(
                        s0,
                        *n as int,
                        RecV { text: Option::Some(text@), ..s0.recs[*n as int] },
                    );
                    lemma_with_rec_handles(
                        s0,
                        *n as int,
                        RecV { text: Option::Some(text@), ..s0.recs[*n as int] },
                    );
                    crate::store::lemma_with_log_frame(mid, Edit::SetText(*n));
                    lemma_log_handles(mid, Edit::SetText(*n));
                    lemma_with_rec_clean(
                        s0,
                        *n as int,
                        RecV { text: Option::Some(text@), ..s0.recs[*n as int] },
                    );
                    lemma_with_log_clean(mid, Edit::SetText(*n));
                    crate::store::lemma_extends_trans(s0, mid, ecx.store@);
                    crate::store::lemma_delta_compose(s0, mid, ecx.store@);
                    lemma_handles_rebuilt_trans(s0, mid, ecx.store@);
                    lemma_clean_kept_trans(s0, mid, ecx.store@);
                }
                return NodeSpan::Node(*n);
            }
        }
        _ => {}
    }
    prev.despawn_recursive(&mut ecx.store);
    let ghost s1 = ecx.store@;
    let m = ecx.store.spawn_text(text);
    proof {
        assert(s1.log =~= ecx.store@.log.take(s1.log.len() as int));
        assert(s0.log =~= ecx.store@.log.take(s0.log.len() as int));
        assert(ecx.store@.recs[m as int].text == Option::Some(text@));
        lemma_killed_handles(s0, s1);
        lemma_push_handles(
            s1,
            ecx.store@,
            RecV {
                alive: true,
                parent: Option::None,
                text: Option::Some(text@),
                attrs: Seq::empty(),
                styles: Seq::empty(),
                deps: Option::None,
                handle: Option::None,
                fresh: false,
            },
        );
        lemma_handles_rebuilt_trans(s0, s1, ecx.store@);
        lemma_clean_kept_trans(s0, s1, ecx.store@);
        lemma_push_clean(
            s1,
            ecx.store@,
            RecV {
                alive: true,
                parent: Option::None,
                text: Option::Some(text@),
                attrs: Seq::empty(),
                styles: Seq::empty(),
                deps: Option::None,
                handle: Option::None,
                fresh: false,
            },
        );
        lemma_clean_kept_trans(s0, s1, ecx.store@);
        assert forall|e2: int|
            0 <= e2 < s0.recs.len() && !s0.is_fresh(e2) implies !ecx.store@.is_fresh(e2) by {
            assert(ecx.store@.recs[e2] == s1.recs[e2]);
        }
        assert forall|k: int|
            0 <= k < prev@.flat().len() && (#[trigger] prev@.flat()[k]) != m implies !ecx.store@
            .alive(prev@.flat()[k] as int) by {
            assert(!s1.alive(prev@.flat()[k] as int));
            if (prev@.flat()[k] as int) < s1.recs.len() {
                assert(ecx.store@.recs[prev@.flat()[k] as int] == s1.recs[
                    prev@.flat()[k] as int]);
            }
        }
    }
    NodeSpan::Node(m)
}

/// Inserts an attribute of the given kind on every live node of the shape,
/// skipping nodes that already carry it.
fn insert_component(component: u64, nodes: &NodeSpan, ecx: &mut ElementContext)
    ensures
        final(ecx).entity == old(ecx).entity,
        extends(old(ecx).store@, final(ecx).store@),
        no_revive(old(ecx).store@, final(ecx).store@),
        no_refresh(old(ecx).store@, final(ecx).store@),
        retains(old(ecx).store@, final(ecx).store@),
        shape_edit_free(delta(old(ecx).store@, final(ecx).store@)),
        crate::store::same_skeleton(old(ecx).store@, final(ecx).store@),
        clean_kept(old(ecx).store@, final(ecx).store@),
        crate::store::keeps_links(old(ecx).store@, final(ecx).store@),
        span_attr(nodes@, component, final(ecx).store@),
        final(ecx).store@.recs.len() == old(ecx).store@.recs.len(),
        span_attr(nodes@, component, old(ecx).store@) ==> final(ecx).store@ == old(ecx).store@,
{
    let mut ids: Vec<usize> = Vec::new();
    nodes.flatten(&mut ids);
    proof {
        crate::store::lemma_extends_refl(ecx.store@);
    }
    let ghost s0 = ecx.store@;
    let n = ids.len();
    for i in 0..n
        invariant
            n == ids@.len(),
            ids@ == nodes@.flat(),
            s0 == old(ecx).store@,
            ecx.entity == old(ecx).entity,
            extends(s0, ecx.store@),
            no_revive(s0, ecx.store@),
            no_refresh(s0, ecx.store@),
            retains(s0, ecx.store@),
            shape_edit_free(delta(s0, ecx.store@)),
            crate::store::same_skeleton(s0, ecx.store@),
            ecx.store@.recs.len() == s0.recs.len(),
            forall|e: int| #[trigger] ecx.store@.alive(e) == s0.alive(e),
            clean_kept(s0, ecx.store@),
            crate::store::keeps_links(s0, ecx.store@),
            forall|k: int|
                0 <= k < i && ecx.store@.alive(#[trigger] ids@[k] as int) ==> ecx.store@.has_attr(
                    ids@[k] as int,
                    component,
                ),
            span_attr(nodes@, component, s0) ==> ecx.store@ == s0,
        decreases n - i,
    {
        let ghost pre = ecx.store@;
        let id = ids[i];
        proof {
            if span_attr(nodes@, component, s0) && s0.alive(id as int) {
                assert(s0.has_attr(id as int, component));
            }
        }
        if !ecx.store.has_attr(id, component) {
            ecx.store.insert_attr(id, component);
            proof {
                if pre.alive(id as int) {
                    let r2 = RecV {
                        attrs: pre.recs[id as int].attrs.push(component),
                        ..pre.recs[id as int]
                    };
                    crate::store::lemma_with_rec_frame(pre, id as int, r2);
                    crate::store::lemma_with_log_frame(
                        pre.with_rec(id as int, r2),
                        Edit::InsertAttr(id, component),
                    );
                    crate::store::lemma_extends_trans(s0, pre, ecx.store@);
                    crate::store::lemma_no_refresh_trans(s0, pre, ecx.store@);
                    crate::store::lemma_delta_compose(s0, pre, ecx.store@);
                    crate::store::lemma_attr_push_keeps(pre, ecx.store@, id as int, component);
                    crate::store::lemma_same_skeleton_trans(s0, pre, ecx.store@);
                    lemma_with_rec_clean(
                        pre,
                        id as int,
                        RecV {
                            attrs: pre.recs[id as int].attrs.push(component),
                            ..pre.recs[id as int]
                        },
                    );
                    lemma_with_log_clean(
                        pre.with_rec(
                            id as int,
                            RecV {
                                attrs: pre.recs[id as int].attrs.push(component),
                                ..pre.recs[id as int]
                            },
                        ),
                        Edit::InsertAttr(id, component),
                    );
                    lemma_clean_kept_trans(s0, pre, ecx.store@);
                }
            }
        }
        proof {
            assert forall|k: int|
                0 <= k < i + 1 && ecx.store@.alive(
                    #[trigger] ids@[k] as int,
                ) implies ecx.store@.has_attr(ids@[k] as int, component) by {
                if k < i {
                    assert(pre.alive(ids@[k] as int));
                    assert(pre.has_attr(ids@[k] as int, component));
                }
            }
        }
    }
}

impl ViewInsert {
    /// Inserts the attribute on every node of the shape; present attributes
    /// are left alone.
    pub fn insert_component(component: u64, nodes: &NodeSpan, ecx: &mut ElementContext)
        ensures
            final(ecx).entity == old(ecx).entity,
            extends(old(ecx).store@, final(ecx).store@),
            no_revive(old(ecx).store@, final(ecx).store@),
            no_refresh(old(ecx).store@, final(ecx).store@),
            retains(old(ecx).store@, final(ecx).store@),
            shape_edit_free(delta(old(ecx).store@, final(ecx).store@)),
            crate::store::same_skeleton(old(ecx).store@, final(ecx).store@),
            clean_kept(old(ecx).store@, final(ecx).store@),
            crate::store::keeps_links(old(ecx).store@, final(ecx).store@),
            span_attr(nodes@, component, final(ecx).store@),
            final(ecx).store@.recs.len() == old(ecx).store@.recs.len(),
            span_attr(nodes@, component, old(ecx).store@) ==> final(ecx).store@ == old(
                ecx,
            ).store@,
    {
        insert_component(component, nodes, ecx);
    }

    /// Builds the inner view, then inserts the attribute on every node it
    /// produced.
    pub fn build(
        &self,
        ecx: &mut ElementContext,
        state: &mut ViewMem,
        prev: &NodeSpan,
        limit: u64,
    ) -> (r: Result<NodeSpan, BuildError>)
        ensures
            final(ecx).entity == old(ecx).entity,
            extends(old(ecx).store@, final(ecx).store@),
            no_revive(old(ecx).store@, final(ecx).store@),
            no_refresh(old(ecx).store@, final(ecx).store@),
            clean_kept(old(ecx).store@, final(ecx).store@),
            crate::store::keeps_links(old(ecx).store@, final(ecx).store@),
            passthrough_core((*self.inner)@) matches ViewV::Fragment(pcc) ==> (prev@
                matches SpanV::Fragment(ppp) ==> (prefix_compat(pcc, old(ecx).store@, ppp) ==> (r
                matches Result::Ok(pns) && pns@ == SpanV::Fragment(ppp.take(pcc.len() as int)) && (
            forall|j: int|
                pcc.len() <= j < ppp.len() ==> span_dead(#[trigger] ppp[j], final(ecx).store@))))),
            reuse_post(
                ViewV::Insert(self.component, Box::new((*self.inner)@)),
                old(ecx).store@,
                final(ecx).store@,
                prev@,
                r,
            ),
            handles_rebuilt(old(ecx).store@, final(ecx).store@),
            core_view((*self.inner)@) is Empty ==> (final(ecx).store@ == old(ecx).store@ && (r
                matches Result::Ok(nse) && nse@ == SpanV::Empty)),
            core_view((*self.inner)@) matches ViewV::Text(ct) ==> text_build_post(
                ct,
                prev@,
                old(ecx).store@,
                final(ecx).store@,
                r,
            ),
            core_view((*self.inner)@) matches ViewV::Fragment(cc) ==> (r matches Result::Ok(nsf)
                ==> (nsf@ matches SpanV::Fragment(cp) && cp.len() == cc.len())),
            r matches Result::Ok(ns) ==> span_attr(ns@, self.component, final(ecx).store@),
        decreases limit, 2int, *self,
    {
        let ghost s0 = ecx.store@;
        let r0 = (*self.inner).build(ecx, state, prev, limit);
        let ns = match r0 {
            Result::Ok(ns) => ns,
            Result::Err(e2) => {
                proof {
                    if core_view((*self.inner)@) is Empty {
                        assert(false);
                    }
                    match core_view((*self.inner)@) {
                        ViewV::Text(ct) => {
                            assert(false);
                        }
                        _ => {}
                    }
                    match passthrough_core((*self.inner)@) {
                        ViewV::Fragment(pcc) => {
                            match prev@ {
                                SpanV::Fragment(ppp) => {
                                    if prefix_compat(pcc, s0, ppp) {
                                        assert(false);
                                    }
                                }
                                _ => {}
                            }
                        }
                        _ => {}
                    }
                }
                return Result::Err(e2);
            }
        };
        let ghost mid = ecx.store@;
        ViewInsert::insert_component(self.component, &ns, ecx);
        proof {
            crate::store::lemma_extends_trans(s0, mid, ecx.store@);
            crate::store::lemma_no_revive_trans(s0, mid, ecx.store@);
            crate::store::lemma_no_refresh_trans(s0, mid, ecx.store@);
            lemma_same_skeleton_handles(mid, ecx.store@);
            lemma_handles_rebuilt_trans(s0, mid, ecx.store@);
            lemma_clean_kept_trans(s0, mid, ecx.store@);
            if compat(ViewV::Insert(self.component, Box::new((*self.inner)@)), s0, prev@) {
                crate::store::lemma_delta_compose(s0, mid, ecx.store@);
                crate::store::lemma_retains_trans(s0, mid, ecx.store@);
            }
            if core_view((*self.inner)@) is Empty {
                assert(ns@ == SpanV::Empty);
                assert(span_attr(ns@, self.component, mid));
                assert(ecx.store@ == mid);
            }
            match core_view((*self.inner)@) {
                ViewV::Text(ct) => {
                    lemma_text_post_step(
                        ct,
                        prev@,
                        s0,
                        mid,
                        ecx.store@,
                        Result::<NodeSpan, BuildError>::Ok(ns),
                    );
                }
                _ => {}
            }
            match passthrough_core((*self.inner)@) {
                ViewV::Fragment(pcc) => {
                    match prev@ {
                        SpanV::Fragment(ppp) => {
                            if prefix_compat(pcc, s0, ppp) {
                                assert forall|j: int|
                                    pcc.len() <= j < ppp.len() implies span_dead(
                                    #[trigger] ppp[j],
                                    ecx.store@,
                                ) by {
                                    assert(span_dead(ppp[j], mid));
                                    assert forall|k: int|
                                        0 <= k < ppp[j].flat().len() implies !ecx.store@.alive(
                                        #[trigger] ppp[j].flat()[k] as int,
                                    ) by {
                                        assert(!mid.alive(ppp[j].flat()[k] as int));
                                        if (ppp[j].flat()[k] as int) < mid.recs.len() {
                                            assert(ecx.store@.recs[ppp[j].flat()[k] as int].alive
                                                == mid.recs[ppp[j].flat()[k] as int].alive);
                                        }
                                    }
                                }
                            }
                        }
                        _ => {}
                    }
                }
                _ => {}
            }
        }
        Result::Ok(ns)
    }

    /// Razing delegates to the inner view.
    pub fn raze(&self, ecx: &mut ElementContext, state: &mut ViewMem, prev: &NodeSpan, limit: u64)
        ensures
            final(ecx).entity == old(ecx).entity,
            extends(old(ecx).store@, final(ecx).store@),
            no_revive(old(ecx).store@, final(ecx).store@),
            no_refresh(old(ecx).store@, final(ecx).store@),
            handles_rebuilt(old(ecx).store@, final(ecx).store@),
            final(ecx).store@.recs.len() == old(ecx).store@.recs.len(),
            span_dead(prev@, final(ecx).store@),
        decreases limit, 2int, *self,
    {
        (*self.inner).raze(ecx, state, prev, limit);
    }
}

impl ViewInsertBundle {
    /// Inserts the attribute into the singular node of the shape; applying
    /// it to a fragment is a programming error that aborts the build.
    pub fn insert_component(&self, nodes: &NodeSpan, ecx: &mut ElementContext) -> (r: Result<
        (),
        BuildError,
    >)
        ensures
            final(ecx).entity == old(ecx).entity,
            extends(old(ecx).store@, final(ecx).store@),
            no_revive(old(ecx).store@, final(ecx).store@),
            no_refresh(old(ecx).store@, final(ecx).store@),
            retains(old(ecx).store@, final(ecx).store@),
            shape_edit_free(delta(old(ecx).store@, final(ecx).store@)),
            crate::store::same_skeleton(old(ecx).store@, final(ecx).store@),
            clean_kept(old(ecx).store@, final(ecx).store@),
            crate::store::keeps_links(old(ecx).store@, final(ecx).store@),
            nodes@ is Empty ==> final(ecx).store@ == old(ecx).store@,
            r is Ok <==> !(nodes@ is Fragment),
            nodes@ matches SpanV::Node(m) ==> ((r is Ok && final(ecx).store@.alive(m as int))
                ==> final(ecx).store@.has_attr(m as int, self.component)),
    {
        let ghost s0 = ecx.store@;
        proof {
            crate::store::lemma_extends_refl(s0);
        }
        match nodes {
            NodeSpan::Empty => Result::Ok(()),
            NodeSpan::Node(m) => {
                ecx.store.insert_attr(*m, self.component);
                proof {
                    if s0.alive(*m as int) {
                        let r2 = RecV {
                            attrs: s0.recs[*m as int].attrs.push(self.component),
                            ..s0.recs[*m as int]
                        };
                        crate::store::lemma_with_rec_frame(s0, *m as int, r2);
                        crate::store::lemma_with_log_frame(
                            s0.with_rec(*m as int, r2),
                            Edit::InsertAttr(*m, self.component),
                        );
                        crate::store::lemma_attr_push_keeps(
                            s0,
                            ecx.store@,
                            *m as int,
                            self.component,
                        );
                        crate::store::lemma_same_skeleton_trans(
                            s0,
                            s0.with_rec(
                                *m as int,
                                RecV {
                                    attrs: s0.recs[*m as int].attrs.push(self.component),
                                    ..s0.recs[*m as int]
                                },
                            ),
                            ecx.store@,
                        );
                        lemma_with_rec_clean(
                            s0,
                            *m as int,
                            RecV {
                                attrs: s0.recs[*m as int].attrs.push(self.component),
                                ..s0.recs[*m as int]
                            },
                        );
                        lemma_with_log_clean(
                            s0.with_rec(
                                *m as int,
                                RecV {
                                    attrs: s0.recs[*m as int].attrs.push(self.component),
                                    ..s0.recs[*m as int]
                                },
                            ),
                            Edit::InsertAttr(*m, self.component),
                        );
                        lemma_clean_kept_trans(
                            s0,
                            s0.with_rec(
                                *m as int,
                                RecV {
                                    attrs: s0.recs[*m as int].attrs.push(self.component),
                                    ..s0.recs[*m as int]
                                },
                            ),
                            ecx.store@,
                        );
                    }
                }
                Result::Ok(())
            }
            NodeSpan::Fragment(_) => Result::Err(BuildError::NonSingularShape),
        }
    }

    /// Builds the inner view; when the produced node changed since the last
    /// build, or does not carry the attribute yet, inserts the attribute
    /// into it. A fragment-shaped output aborts the build.
    pub fn build(
        &self,
        ecx: &mut ElementContext,
        state: &mut ViewMem,
        prev: &NodeSpan,
        limit: u64,
    ) -> (r: Result<NodeSpan, BuildError>)
        ensures
            final(ecx).entity == old(ecx).entity,
            extends(old(ecx).store@, final(ecx).store@),
            no_revive(old(ecx).store@, final(ecx).store@),
            no_refresh(old(ecx).store@, final(ecx).store@),
            clean_kept(old(ecx).store@, final(ecx).store@),
            crate::store::keeps_links(old(ecx).store@, final(ecx).store@),
            reuse_post(
                ViewV::InsertBundle(self.component, Box::new((*self.inner)@)),
                old(ecx).store@,
                final(ecx).store@,
                prev@,
                r,
            ),
            handles_rebuilt(old(ecx).store@, final(ecx).store@),
            core_view((*self.inner)@) is Empty ==> (final(ecx).store@ == old(ecx).store@ && (r
                matches Result::Ok(nse) && nse@ == SpanV::Empty)),
            core_view((*self.inner)@) matches ViewV::Text(ct) ==> text_build_post(
                ct,
                prev@,
                old(ecx).store@,
                final(ecx).store@,
                r,
            ),
            core_view((*self.inner)@) matches ViewV::Fragment(cc) ==> (r matches Result::Ok(nsf)
                ==> (nsf@ matches SpanV::Fragment(cp) && cp.len() == cc.len())),
            r matches Result::Ok(ns) ==> !(ns@ is Fragment) && (ns@ matches SpanV::Node(m)
                ==> (final(ecx).store@.alive(m as int) ==> final(ecx).store@.has_attr(
                m as int,
                self.component,
            ))),
        decreases limit, 2int, *self,
    {
        let ghost s0 = ecx.store@;
        let mut tmp = ViewMem::Unit;
        core::mem::swap(state, &mut tmp);
        let (remembered, mut inner_mem): (NodeSpan, ViewMem) = match tmp {
            ViewMem::Span(sp, bx) => (sp, *bx),
            _ => (NodeSpan::Empty, ViewMem::Unit),
        };
        let r0 = (*self.inner).build(ecx, &mut inner_mem, prev, limit);
        let ns = match r0 {
            Result::Ok(ns) => ns,
            Result::Err(e2) => {
                *state = ViewMem::Span(remembered, Box::new(inner_mem));
                proof {
                    if core_view((*self.inner)@) is Empty {
                        assert(false);
                    }
                    match core_view((*self.inner)@) {
                        ViewV::Text(ct) => {
                            assert(false);
                        }
                        _ => {}
                    }
                    match passthrough_core((*self.inner)@) {
                        ViewV::Fragment(pcc) => {
                            match prev@ {
                                SpanV::Fragment(ppp) => {
                                    if prefix_compat(pcc, s0, ppp) {
                                        assert(false);
                                    }
                                }
                                _ => {}
                            }
                        }
                        _ => {}
                    }
                }
                return Result::Err(e2);
            }
        };
        let ghost mid = ecx.store@;
        match &ns {
            NodeSpan::Fragment(_) => {
                *state = ViewMem::Span(remembered, Box::new(inner_mem));
                proof {
                    assert(ns@ is Fragment);
                    if core_view((*self.inner)@) is Empty {
                        assert(false);
                    }
                    match core_view((*self.inner)@) {
                        ViewV::Text(ct) => {
                            assert(ns@ is Node);
                            assert(false);
                        }
                        _ => {}
                    }
                }
                return Result::Err(BuildError::NonSingularShape);
            }
            _ => {}
        }
        let changed = !(remembered == ns);
        let need = match &ns {
            NodeSpan::Node(m) => changed || !ecx.store.has_attr(*m, self.component),
            _ => changed,
        };
        let r1 = if need {
            self.insert_component(&ns, ecx)
        } else {
            proof {
                crate::store::lemma_extends_refl(ecx.store@);
            }
            Result::Ok(())
        };
        *state = ViewMem::Span(ns.clone(), Box::new(inner_mem));
        proof {
            crate::store::lemma_extends_trans(s0, mid, ecx.store@);
            crate::store::lemma_no_revive_trans(s0, mid, ecx.store@);
            crate::store::lemma_no_refresh_trans(s0, mid, ecx.store@);
            lemma_same_skeleton_handles(mid, ecx.store@);
            lemma_handles_rebuilt_trans(s0, mid, ecx.store@);
            lemma_clean_kept_trans(s0, mid, ecx.store@);
        }
        match r1 {
            Result::Ok(()) => {
                proof {
                    let vv = ViewV::InsertBundle(self.component, Box::new((*self.inner)@));
                    if compat(vv, s0, prev@) {
                        crate::store::lemma_delta_compose(s0, mid, ecx.store@);
                        crate::store::lemma_retains_trans(s0, mid, ecx.store@);
                    }
                    if core_view((*self.inner)@) is Empty {
                        assert(ns@ == SpanV::Empty);
                        assert(ecx.store@ == mid);
                    }
                    match core_view((*self.inner)@) {
                        ViewV::Text(ct) => {
                            lemma_text_post_step(
                                ct,
                                prev@,
                                s0,
                                mid,
                                ecx.store@,
                                Result::<NodeSpan, BuildError>::Ok(ns),
                            );
                        }
                        _ => {}
                    }
                }
                Result::Ok(ns)
            }
            Result::Err(e2) => Result::Err(e2),
        }
    }

    /// Razing delegates to the inner view.
    pub fn raze(&self, ecx: &mut ElementContext, state: &mut ViewMem, prev: &NodeSpan, limit: u64)
        ensures
            final(ecx).entity == old(ecx).entity,
            extends(old(ecx).store@, final(ecx).store@),
            no_revive(old(ecx).store@, final(ecx).store@),
            no_refresh(old(ecx).store@, final(ecx).store@),
            handles_rebuilt(old(ecx).store@, final(ecx).store@),
            final(ecx).store@.recs.len() == old(ecx).store@.recs.len(),
            span_dead(prev@, final(ecx).store@),
        decreases limit, 2int, *self,
    {
        let mut tmp = ViewMem::Unit;
        core::mem::swap(state, &mut tmp);
        let mut inner_mem: ViewMem = match tmp {
            ViewMem::Span(_, bx) => *bx,
            _ => ViewMem::Unit,
        };
        (*self.inner).raze(ecx, &mut inner_mem, prev, limit);
        *state = ViewMem::Span(NodeSpan::Empty, Box::new(inner_mem));
    }
}

/// Signals the callback binding for every live node of the shape, logging
/// one effect edit per node.
fn emit_effects(cb: u64, nodes: &NodeSpan, ecx: &mut ElementContext)
    ensures
        final(ecx).entity == old(ecx).entity,
        extends(old(ecx).store@, final(ecx).store@),
        no_revive(old(ecx).store@, final(ecx).store@),
        no_refresh(old(ecx).store@, final(ecx).store@),
        retains(old(ecx).store@, final(ecx).store@),
        shape_edit_free(delta(old(ecx).store@, final(ecx).store@)),
        crate::store::same_skeleton(old(ecx).store@, final(ecx).store@),
        clean_kept(old(ecx).store@, final(ecx).store@),
        crate::store::keeps_links(old(ecx).store@, final(ecx).store@),
        nodes@.flat().len() == 0 ==> final(ecx).store@ == old(ecx).store@,
        span_effects(nodes@, cb, final(ecx).store@, delta(old(ecx).store@, final(ecx).store@)),
        final(ecx).store@.recs.len() == old(ecx).store@.recs.len(),
        final(ecx).store@.recs == old(ecx).store@.recs,
    {
    let mut ids: Vec<usize> = Vec::new();
    nodes.flatten(&mut ids);
    proof {
        crate::store::lemma_extends_refl(ecx.store@);
    }
    let ghost s0 = ecx.store@;
    let n = ids.len();
    for i in 0..n
        invariant
            n == ids@.len(),
            ids@ == nodes@.flat(),
            s0 == old(ecx).store@,
            ecx.entity == old(ecx).entity,
            extends(s0, ecx.store@),
            no_revive(s0, ecx.store@),
            no_refresh(s0, ecx.store@),
            retains(s0, ecx.store@),
            shape_edit_free(delta(s0, ecx.store@)),
            ecx.store@.recs == s0.recs,
            n == 0 ==> ecx.store@ == s0,
            clean_kept(s0, ecx.store@),
            crate::store::keeps_links(s0, ecx.store@),
            forall|k: int|
                0 <= k < i && ecx.store@.alive(#[trigger] ids@[k] as int) ==> delta(
                    s0,
                    ecx.store@,
                ).contains(Edit::Effect(cb, ids@[k])),
        decreases n - i,
    {
        let ghost pre = ecx.store@;
        let id = ids[i];
        ecx.store.emit_effect(cb, id);
        proof {
            if pre.alive(id as int) {
                crate::store::lemma_with_log_frame(pre, Edit::Effect(cb, id));
                crate::store::lemma_extends_trans(s0, pre, ecx.store@);
                crate::store::lemma_no_refresh_trans(s0, pre, ecx.store@);
                lemma_with_log_clean(pre, Edit::Effect(cb, id));
                lemma_clean_kept_trans(s0, pre, ecx.store@);
                crate::store::lemma_delta_compose(s0, pre, ecx.store@);
                assert(delta(pre, ecx.store@)[0] == Edit::Effect(cb, id));
                assert(delta(s0, ecx.store@)[delta(s0, pre).len() as int] == Edit::Effect(cb, id));
            }
            assert forall|k: int|
                0 <= k < i + 1 && ecx.store@.alive(#[trigger] ids@[k] as int) implies delta(
                s0,
                ecx.store@,
            ).contains(Edit::Effect(cb, ids@[k])) by {
                if k < i {
                    assert(pre.alive(ids@[k] as int));
                    assert(delta(s0, pre).contains(Edit::Effect(cb, ids@[k])));
                    crate::store::lemma_delta_compose(s0, pre, ecx.store@);
                    crate::store::lemma_contains_prefix(
                        delta(s0, pre),
                        delta(s0, ecx.store@),
                        Edit::Effect(cb, ids@[k]),
                    );
                }
            }
        }
    }
}

/// Applies every style of the set to every live node of the shape.
fn apply_styles(styles: &Vec<u64>, nodes: &NodeSpan, ecx: &mut ElementContext)
    ensures
        final(ecx).entity == old(ecx).entity,
        extends(old(ecx).store@, final(ecx).store@),
        no_revive(old(ecx).store@, final(ecx).store@),
        no_refresh(old(ecx).store@, final(ecx).store@),
        retains(old(ecx).store@, final(ecx).store@),
        shape_edit_free(delta(old(ecx).store@, final(ecx).store@)),
        crate::store::same_skeleton(old(ecx).store@, final(ecx).store@),
        clean_kept(old(ecx).store@, final(ecx).store@),
        crate::store::keeps_links(old(ecx).store@, final(ecx).store@),
        nodes@.flat().len() == 0 ==> final(ecx).store@ == old(ecx).store@,
        span_styles(nodes@, styles@, final(ecx).store@),
        final(ecx).store@.recs.len() == old(ecx).store@.recs.len(),
    {
    let mut ids: Vec<usize> = Vec::new();
    nodes.flatten(&mut ids);
    proof {
        crate::store::lemma_extends_refl(ecx.store@);
    }
    let ghost s0 = ecx.store@;
    let n = ids.len();
    let sn = styles.len();
    for i in 0..n
        invariant
            n == ids@.len(),
            sn == styles@.len(),
            ids@ == nodes@.flat(),
            s0 == old(ecx).store@,
            ecx.entity == old(ecx).entity,
            extends(s0, ecx.store@),
            no_revive(s0, ecx.store@),
            no_refresh(s0, ecx.store@),
            retains(s0, ecx.store@),
            shape_edit_free(delta(s0, ecx.store@)),
            crate::store::same_skeleton(s0, ecx.store@),
            n == 0 ==> ecx.store@ == s0,
            clean_kept(s0, ecx.store@),
            crate::store::keeps_links(s0, ecx.store@),
            ecx.store@.recs.len() == s0.recs.len(),
            forall|e: int| #[trigger] ecx.store@.alive(e) == s0.alive(e),
            forall|k: int, j: int|
                0 <= k < i && 0 <= j < sn && ecx.store@.alive(#[trigger] ids@[k] as int)
                    ==> ecx.store@.has_style(ids@[k] as int, #[trigger] styles@[j]),
        decreases n - i,
    {
        let ghost outer_pre = ecx.store@;
        let id = ids[i];
        for j in 0..sn
            invariant
                n == ids@.len(),
                sn == styles@.len(),
                id == ids@[i as int],
                0 <= i < n,
                s0 == old(ecx).store@,
                ecx.entity == old(ecx).entity,
                extends(s0, ecx.store@),
                no_revive(s0, ecx.store@),
                no_refresh(s0, ecx.store@),
                retains(s0, ecx.store@),
                shape_edit_free(delta(s0, ecx.store@)),
                crate::store::same_skeleton(s0, ecx.store@),
                ecx.store@.recs.len() == s0.recs.len(),
                clean_kept(s0, ecx.store@),
                crate::store::keeps_links(s0, ecx.store@),
                forall|e: int| #[trigger] ecx.store@.alive(e) == s0.alive(e),
                forall|e: int, k2: u64|
                    #[trigger] outer_pre.has_style(e, k2) ==> ecx.store@.has_style(e, k2),
                forall|j2: int|
                    0 <= j2 < j && ecx.store@.alive(id as int) ==> ecx.store@.has_style(
                        id as int,
                        #[trigger] styles@[j2],
                    ),
            decreases sn - j,
        {
            let ghost pre = ecx.store@;
            ecx.store.apply_style(id, styles[j]);
            proof {
                if pre.alive(id as int) {
                    let r2 = RecV {
                        styles: pre.recs[id as int].styles.push(styles@[j as int]),
                        ..pre.recs[id as int]
                    };
                    crate::store::lemma_with_rec_frame(pre, id as int, r2);
                    crate::store::lemma_with_log_frame(
                        pre.with_rec(id as int, r2),
                        Edit::ApplyStyle(id, styles@[j as int]),
                    );
                    crate::store::lemma_extends_trans(s0, pre, ecx.store@);
                    crate::store::lemma_no_refresh_trans(s0, pre, ecx.store@);
                    crate::store::lemma_delta_compose(s0, pre, ecx.store@);
                    crate::store::lemma_style_push_keeps(
                        pre,
                        ecx.store@,
                        id as int,
                        styles@[j as int],
                    );
                    crate::store::lemma_same_skeleton_trans(s0, pre, ecx.store@);
                    lemma_with_rec_clean(
                        pre,
                        id as int,
                        RecV {
                            styles: pre.recs[id as int].styles.push(styles@[j as int]),
                            ..pre.recs[id as int]
                        },
                    );
                    lemma_with_log_clean(
                        pre.with_rec(
                            id as int,
                            RecV {
                                styles: pre.recs[id as int].styles.push(styles@[j as int]),
                                ..pre.recs[id as int]
                            },
                        ),
                        Edit::ApplyStyle(id, styles@[j as int]),
                    );
                    lemma_clean_kept_trans(s0, pre, ecx.store@);
                }
                assert forall|e: int, k2: u64|
                    #[trigger] outer_pre.has_style(e, k2) implies ecx.store@.has_style(e, k2) by {
                    assert(pre.has_style(e, k2));
                }
            }
        }
        proof {
            assert forall|k: int, j: int|
                0 <= k < i + 1 && 0 <= j < sn && ecx.store@.alive(
                    #[trigger] ids@[k] as int,
                ) implies ecx.store@.has_style(ids@[k] as int, #[trigger] styles@[j]) by {
                if k < i {
                    assert(outer_pre.alive(ids@[k] as int));
                    assert(outer_pre.has_style(ids@[k] as int, styles@[j]));
                }
            }
        }
    }
}

impl ViewWith {
    /// Builds the inner view, then signals the callback binding for each
    /// produced node: on every rebuild, or, for a once binding, only when
    /// the produced nodes changed.
    pub fn build(
        &self,
        ecx: &mut ElementContext,
        state: &mut ViewMem,
        prev: &NodeSpan,
        limit: u64,
    ) -> (r: Result<NodeSpan, BuildError>)
        ensures
            final(ecx).entity == old(ecx).entity,
            extends(old(ecx).store@, final(ecx).store@),
            no_revive(old(ecx).store@, final(ecx).store@),
            no_refresh(old(ecx).store@, final(ecx).store@),
            clean_kept(old(ecx).store@, final(ecx).store@),
            crate::store::keeps_links(old(ecx).store@, final(ecx).store@),
            passthrough_core((*self.inner)@) matches ViewV::Fragment(pcc) ==> (prev@
                matches SpanV::Fragment(ppp) ==> (prefix_compat(pcc, old(ecx).store@, ppp) ==> (r
                matches Result::Ok(pns) && pns@ == SpanV::Fragment(ppp.take(pcc.len() as int)) && (
            forall|j: int|
                pcc.len() <= j < ppp.len() ==> span_dead(#[trigger] ppp[j], final(ecx).store@))))),
            reuse_post(
                ViewV::With(self.callback, self.once, Box::new((*self.inner)@)),
                old(ecx).store@,
                final(ecx).store@,
                prev@,
                r,
            ),
            handles_rebuilt(old(ecx).store@, final(ecx).store@),
            core_view((*self.inner)@) is Empty ==> (final(ecx).store@ == old(ecx).store@ && (r
                matches Result::Ok(nse) && nse@ == SpanV::Empty)),
            core_view((*self.inner)@) matches ViewV::Text(ct) ==> text_build_post(
                ct,
                prev@,
                old(ecx).store@,
                final(ecx).store@,
                r,
            ),
            core_view((*self.inner)@) matches ViewV::Fragment(cc) ==> (r matches Result::Ok(nsf)
                ==> (nsf@ matches SpanV::Fragment(cp) && cp.len() == cc.len())),
            r matches Result::Ok(ns) ==> (!self.once ==> span_effects(
                ns@,
                self.callback,
                final(ecx).store@,
                delta(old(ecx).store@, final(ecx).store@),
            )),
        decreases limit, 2int, *self,
    {
        let ghost s0 = ecx.store@;
        let mut tmp = ViewMem::Unit;
        core::mem::swap(state, &mut tmp);
        let (remembered, mut inner_mem): (NodeSpan, ViewMem) = match tmp {
            ViewMem::Span(sp, bx) => (sp, *bx),
            _ => (NodeSpan::Empty, ViewMem::Unit),
        };
        let r0 = (*self.inner).build(ecx, &mut inner_mem, prev, limit);
        let ns = match r0 {
            Result::Ok(ns) => ns,
            Result::Err(e2) => {
                *state = ViewMem::Span(remembered, Box::new(inner_mem));
                proof {
                    if core_view((*self.inner)@) is Empty {
                        assert(false);
                    }
                    match core_view((*self.inner)@) {
                        ViewV::Text(ct) => {
                            assert(false);
                        }
                        _ => {}
                    }
                    match passthrough_core((*self.inner)@) {
                        ViewV::Fragment(pcc) => {
                            match prev@ {
                                SpanV::Fragment(ppp) => {
                                    if prefix_compat(pcc, s0, ppp) {
                                        assert(false);
                                    }
                                }
                                _ => {}
                            }
                        }
                        _ => {}
                    }
                }
                return Result::Err(e2);
            }
        };
        let ghost mid = ecx.store@;
        if !self.once || !(remembered == ns) {
            emit_effects(self.callback, &ns, ecx);
        } else {
            proof {
                crate::store::lemma_extends_refl(ecx.store@);
            }
        }
        *state = ViewMem::Span(ns.clone(), Box::new(inner_mem));
        proof {
            crate::store::lemma_extends_trans(s0, mid, ecx.store@);
            crate::store::lemma_no_revive_trans(s0, mid, ecx.store@);
            crate::store::lemma_no_refresh_trans(s0, mid, ecx.store@);
            lemma_same_skeleton_handles(mid, ecx.store@);
            lemma_handles_rebuilt_trans(s0, mid, ecx.store@);
            lemma_clean_kept_trans(s0, mid, ecx.store@);
            if core_view((*self.inner)@) is Empty {
                assert(ns@ == SpanV::Empty);
                assert(ns@.flat().len() == 0);
                assert(ecx.store@ == mid);
            }
            match core_view((*self.inner)@) {
                ViewV::Text(ct) => {
                    lemma_text_post_step(
                        ct,
                        prev@,
                        s0,
                        mid,
                        ecx.store@,
                        Result::<NodeSpan, BuildError>::Ok(ns),
                    );
                }
                _ => {}
            }
            match passthrough_core((*self.inner)@) {
                ViewV::Fragment(pcc) => {
                    match prev@ {
                        SpanV::Fragment(ppp) => {
                            if prefix_compat(pcc, s0, ppp) {
                                assert forall|j: int|
                                    pcc.len() <= j < ppp.len() implies span_dead(
                                    #[trigger] ppp[j],
                                    ecx.store@,
                                ) by {
                                    assert(span_dead(ppp[j], mid));
                                    assert forall|k: int|
                                        0 <= k < ppp[j].flat().len() implies !ecx.store@.alive(
                                        #[trigger] ppp[j].flat()[k] as int,
                                    ) by {
                                        assert(!mid.alive(ppp[j].flat()[k] as int));
                                        if (ppp[j].flat()[k] as int) < mid.recs.len() {
                                            assert(ecx.store@.recs[ppp[j].flat()[k] as int].alive
                                                == mid.recs[ppp[j].flat()[k] as int].alive);
                                        }
                                    }
                                }
                            }
                        }
                        _ => {}
                    }
                }
                _ => {}
            }
            let vv = ViewV::With(self.callback, self.once, Box::new((*self.inner)@));
            if compat(vv, s0, prev@) {
                crate::store::lemma_delta_compose(s0, mid, ecx.store@);
                crate::store::lemma_retains_trans(s0, mid, ecx.store@);
            }
            if !self.once {
                crate::store::lemma_delta_compose(s0, mid, ecx.store@);
                assert forall|k: int|
                    0 <= k < ns@.flat().len() && ecx.store@.alive(
                        #[trigger] ns@.flat()[k] as int,
                    ) implies delta(s0, ecx.store@).contains(
                    Edit::Effect(self.callback, ns@.flat()[k]),
                ) by {
                    assert(delta(mid, ecx.store@).contains(
                        Edit::Effect(self.callback, ns@.flat()[k]),
                    ));
                    crate::store::lemma_contains_concat_r(
                        delta(s0, mid),
                        delta(mid, ecx.store@),
                        Edit::Effect(self.callback, ns@.flat()[k]),
                    );
                    assert(delta(s0, ecx.store@) =~= delta(s0, mid) + delta(mid, ecx.store@));
                }
            }
        }
        Result::Ok(ns)
    }

    /// Razing delegates to the inner view.
    pub fn raze(&self, ecx: &mut ElementContext, state: &mut ViewMem, prev: &NodeSpan, limit: u64)
        ensures
            final(ecx).entity == old(ecx).entity,
            extends(old(ecx).store@, final(ecx).store@),
            no_revive(old(ecx).store@, final(ecx).store@),
            no_refresh(old(ecx).store@, final(ecx).store@),
            handles_rebuilt(old(ecx).store@, final(ecx).store@),
            final(ecx).store@.recs.len() == old(ecx).store@.recs.len(),
            span_dead(prev@, final(ecx).store@),
        decreases limit, 2int, *self,
    {
        let mut tmp = ViewMem::Unit;
        core::mem::swap(state, &mut tmp);
        let mut inner_mem: ViewMem = match tmp {
            ViewMem::Span(_, bx) => *bx,
            _ => ViewMem::Unit,
        };
        (*self.inner).raze(ecx, &mut inner_mem, prev, limit);
        *state = ViewMem::Span(NodeSpan::Empty, Box::new(inner_mem));
    }
}

impl ViewStyled {
    /// Builds the inner view, then applies the style set to every node it
    /// produced.
    pub fn build(
        &self,
        ecx: &mut ElementContext,
        state: &mut ViewMem,
        prev: &NodeSpan,
        limit: u64,
    ) -> (r: Result<NodeSpan, BuildError>)
        ensures
            final(ecx).entity == old(ecx).entity,
            extends(old(ecx).store@, final(ecx).store@),
            no_revive(old(ecx).store@, final(ecx).store@),
            no_refresh(old(ecx).store@, final(ecx).store@),
            clean_kept(old(ecx).store@, final(ecx).store@),
            crate::store::keeps_links(old(ecx).store@, final(ecx).store@),
            passthrough_core((*self.inner)@) matches ViewV::Fragment(pcc) ==> (prev@
                matches SpanV::Fragment(ppp) ==> (prefix_compat(pcc, old(ecx).store@, ppp) ==> (r
                matches Result::Ok(pns) && pns@ == SpanV::Fragment(ppp.take(pcc.len() as int)) && (
            forall|j: int|
                pcc.len() <= j < ppp.len() ==> span_dead(#[trigger] ppp[j], final(ecx).store@))))),
            reuse_post(
                ViewV::Styled(self.styles@, Box::new((*self.inner)@)),
                old(ecx).store@,
                final(ecx).store@,
                prev@,
                r,
            ),
            handles_rebuilt(old(ecx).store@, final(ecx).store@),
            core_view((*self.inner)@) is Empty ==> (final(ecx).store@ == old(ecx).store@ && (r
                matches Result::Ok(nse) && nse@ == SpanV::Empty)),
            core_view((*self.inner)@) matches ViewV::Text(ct) ==> text_build_post(
                ct,
                prev@,
                old(ecx).store@,
                final(ecx).store@,
                r,
            ),
            core_view((*self.inner)@) matches ViewV::Fragment(cc) ==> (r matches Result::Ok(nsf)
                ==> (nsf@ matches SpanV::Fragment(cp) && cp.len() == cc.len())),
            r matches Result::Ok(ns) ==> span_styles(ns@, self.styles@, final(ecx).store@),
        decreases limit, 2int, *self,
    {
        let ghost s0 = ecx.store@;
        let r0 = (*self.inner).build(ecx, state, prev, limit);
        let ns = match r0 {
            Result::Ok(ns) => ns,
            Result::Err(e2) => {
                proof {
                    if core_view((*self.inner)@) is Empty {
                        assert(false);
                    }
                    match core_view((*self.inner)@) {
                        ViewV::Text(ct) => {
                            assert(false);
                        }
                        _ => {}
                    }
                    match passthrough_core((*self.inner)@) {
                        ViewV::Fragment(pcc) => {
                            match prev@ {
                                SpanV::Fragment(ppp) => {
                                    if prefix_compat(pcc, s0, ppp) {
                                        assert(false);
                                    }
                                }
                                _ => {}
                            }
                        }
                        _ => {}
                    }
                }
                return Result::Err(e2);
            }
        };
        let ghost mid = ecx.store@;
        apply_styles(&self.styles, &ns, ecx);
        proof {
            crate::store::lemma_extends_trans(s0, mid, ecx.store@);
            crate::store::lemma_no_revive_trans(s0, mid, ecx.store@);
            crate::store::lemma_no_refresh_trans(s0, mid, ecx.store@);
            lemma_same_skeleton_handles(mid, ecx.store@);
            lemma_handles_rebuilt_trans(s0, mid, ecx.store@);
            lemma_clean_kept_trans(s0, mid, ecx.store@);
            if core_view((*self.inner)@) is Empty {
                assert(ns@ == SpanV::Empty);
                assert(ns@.flat().len() == 0);
                assert(ecx.store@ == mid);
            }
            match core_view((*self.inner)@) {
                ViewV::Text(ct) => {
                    lemma_text_post_step(
                        ct,
                        prev@,
                        s0,
                        mid,
                        ecx.store@,
                        Result::<NodeSpan, BuildError>::Ok(ns),
                    );
                }
                _ => {}
            }
            match passthrough_core((*self.inner)@) {
                ViewV::Fragment(pcc) => {
                    match prev@ {
                        SpanV::Fragment(ppp) => {
                            if prefix_compat(pcc, s0, ppp) {
                                assert forall|j: int|
                                    pcc.len() <= j < ppp.len() implies span_dead(
                                    #[trigger] ppp[j],
                                    ecx.store@,
                                ) by {
                                    assert(span_dead(ppp[j], mid));
                                    assert forall|k: int|
                                        0 <= k < ppp[j].flat().len() implies !ecx.store@.alive(
                                        #[trigger] ppp[j].flat()[k] as int,
                                    ) by {
                                        assert(!mid.alive(ppp[j].flat()[k] as int));
                                        if (ppp[j].flat()[k] as int) < mid.recs.len() {
                                            assert(ecx.store@.recs[ppp[j].flat()[k] as int].alive
                                                == mid.recs[ppp[j].flat()[k] as int].alive);
                                        }
                                    }
                                }
                            }
                        }
                        _ => {}
                    }
                }
                _ => {}
            }
            if compat(ViewV::Styled(self.styles@, Box::new((*self.inner)@)), s0, prev@) {
                crate::store::lemma_delta_compose(s0, mid, ecx.store@);
                crate::store::lemma_retains_trans(s0, mid, ecx.store@);
            }
        }
        Result::Ok(ns)
    }

    /// Razing delegates to the inner view.
    pub fn raze(&self, ecx: &mut ElementContext, state: &mut ViewMem, prev: &NodeSpan, limit: u64)
        ensures
            final(ecx).entity == old(ecx).entity,
            extends(old(ecx).store@, final(ecx).store@),
            no_revive(old(ecx).store@, final(ecx).store@),
            no_refresh(old(ecx).store@, final(ecx).store@),
            handles_rebuilt(old(ecx).store@, final(ecx).store@),
            final(ecx).store@.recs.len() == old(ecx).store@.recs.len(),
            span_dead(prev@, final(ecx).store@),
        decreases limit, 2int, *self,
    {
        (*self.inner).raze(ecx, state, prev, limit);
    }
}

impl Bind {
    /// Builds the presenter subtree: on the first build it spawns a
    /// presenter node under the current node carrying a fresh tracker and
    /// holder and builds it; on later builds it rebuilds the holder only
    /// when the node is dirty, and otherwise returns the holder's cached
    /// shape untouched, so a clean subtree is not rebuilt.
    pub fn build(
        &self,
        ecx: &mut ElementContext,
        state: &mut ViewMem,
        prev: &NodeSpan,
        limit: u64,
    ) -> (r: Result<NodeSpan, BuildError>)
        ensures
            final(ecx).entity == old(ecx).entity,
            extends(old(ecx).store@, final(ecx).store@),
            no_revive(old(ecx).store@, final(ecx).store@),
            no_refresh(old(ecx).store@, final(ecx).store@),
            handles_rebuilt(old(ecx).store@, final(ecx).store@),
            clean_kept(old(ecx).store@, final(ecx).store@),
            crate::store::keeps_links(old(ecx).store@, final(ecx).store@),
            limit > 0 ==> (old(state)@ matches MemV::Slot(Option::Some(e0)) ==> ((!(old(
                ecx,
            ).store@.handle_of(e0 as int) matches Option::Some(Option::Some(_))) ==> (r
                matches Result::Ok(nsd) && nsd@ == SpanV::Empty)) && (!old(ecx).store@.dirty(
                e0 as int,
            ) ==> r is Ok))),
            r matches Result::Ok(ns) ==> bind_ok_post(
                self.presenter@,
                self.props@,
                old(ecx).entity,
                old(ecx).store@,
                final(ecx).store@,
                old(state)@,
                final(state)@,
                ns@,
            ),
        decreases limit, 2int, *self,
    {
        let ghost s0 = ecx.store@;
        proof {
            crate::store::lemma_extends_refl(s0);
            lemma_handles_rebuilt_refl(s0);
        }
        if limit == 0 {
            return Result::Err(BuildError::DepthLimit);
        }
        let slot: Option<usize> = match &*state {
            ViewMem::Slot(o) => *o,
            _ => Option::None,
        };
        let (e, newly) = match slot {
            Option::Some(e) => (e, false),
            Option::None => {
                let parent = ecx.entity;
                let handle = crate::view_handle::ViewHandle::new(
                    self.presenter.clone(),
                    self.props.clone(),
                );
                let ghost hv = handle@;
                let e = ecx.store.spawn_holder(parent, handle);
                proof {
                    assert(s0.log =~= ecx.store@.log.take(s0.log.len() as int));
                    lemma_push_handles(
                        s0,
                        ecx.store@,
                        crate::store::RecV {
                            alive: true,
                            parent: Option::Some(parent),
                            text: Option::None,
                            attrs: Seq::empty(),
                            styles: Seq::empty(),
                            deps: Option::Some(Seq::empty()),
                            handle: Option::Some(hv),
                            fresh: false,
                        },
                    );
                    lemma_push_clean(
                        s0,
                        ecx.store@,
                        crate::store::RecV {
                            alive: true,
                            parent: Option::Some(parent),
                            text: Option::None,
                            attrs: Seq::empty(),
                            styles: Seq::empty(),
                            deps: Option::Some(Seq::empty()),
                            handle: Option::Some(hv),
                            fresh: false,
                        },
                    );
                }
                (e, true)
            }
        };
        *state = ViewMem::Slot(Option::Some(e));
        let ghost s1 = ecx.store@;
        let build_needed = newly || ecx.store.is_dirty(e);
        let taken = ecx.store.take_handle(e);
        let ghost s2 = ecx.store@;
        proof {
            if s1.handle_of(e as int) matches Option::Some(Option::Some(_)) {
                crate::store::lemma_with_rec_frame(
                    s1,
                    e as int,
                    RecV { handle: Option::Some(Option::None), ..s1.recs[e as int] },
                );
                lemma_detach_handles(s1, e as int);
            } else {
                lemma_handles_rebuilt_refl(s1);
            }
            crate::store::lemma_extends_trans(s0, s1, s2);
            crate::store::lemma_no_revive_trans(s0, s1, s2);
            crate::store::lemma_no_refresh_trans(s0, s1, s2);
            lemma_handles_rebuilt_trans(s0, s1, s2);
        }
        let mut vs = match taken {
            Option::Some(vs) => vs,
            Option::None => {
                // Expected absence: the holder is detached, so nothing is
                // rendered and the store is left as it was.
                proof {
                    assert(s2 == s0);
                }
                return Result::Ok(NodeSpan::Empty);
            }
        };
        let ghost st0 = vs@;
        let res = if build_needed {
            vs.build(ecx, e, limit)
        } else {
            proof {
                crate::store::lemma_extends_refl(s2);
                lemma_handles_rebuilt_refl(s2);
            }
            Result::Ok(())
        };
        let ghost s3 = ecx.store@;
        let nodes = vs.nodes(prev);
        let ghost vsv = vs@;
        ecx.store.put_handle(e, vs);
        let ghost fin = ecx.store@;
        proof {
            if s3.alive(e as int) {
                crate::store::lemma_with_rec_frame(
                    s3,
                    e as int,
                    RecV { handle: Option::Some(Option::Some(vsv)), ..s3.recs[e as int] },
                );
                assert(fin == s3.with_handle(e as int, Option::Some(Option::Some(vsv))));
            }
            crate::store::lemma_extends_trans(s0, s2, s3);
            crate::store::lemma_no_revive_trans(s0, s2, s3);
            crate::store::lemma_no_refresh_trans(s0, s2, s3);
            lemma_handles_rebuilt_trans(s0, s2, s3);
            crate::store::lemma_extends_trans(s0, s3, fin);
            crate::store::lemma_no_revive_trans(s0, s3, fin);
            crate::store::lemma_no_refresh_trans(s0, s3, fin);
            if !build_needed {
                // The holder went untouched: putting it back where it was
                // taken from restores the store exactly.
                assert(vsv == st0);
                assert(s1 == s0);
                assert(s1.handle_of(e as int) == Option::Some(Option::Some(st0)));
                assert(s2 == s0.with_handle(e as int, Option::Some(Option::None)));
                assert(s3.alive(e as int));
                crate::store::lemma_detach_reattach(s0, e as int, st0);
                assert(fin == s0);
                lemma_handles_rebuilt_refl(s0);
            } else {
                assert(vsv.view == Option::Some(inst_spec(vsv.presenter, vsv.props, s2)));
                assert forall|id: u64| #[trigger] s2.res_value(id) == fin.res_value(id) by {}
                lemma_inst_same_res(vsv.presenter, vsv.props, s2, fin);
                assert(handles_rebuilt(s3, fin)) by {
                    assert forall|e2: int|
                        0 <= e2 < s3.recs.len() && (#[trigger] fin.handle_of(e2))
                            != s3.handle_of(e2) && fin.handle_of(e2) is Some && fin.handle_of(
                            e2,
                        )->Some_0 is Some implies (fin.handle_of(e2)->Some_0->Some_0).view
                        == Option::Some(
                        inst_spec(
                            (fin.handle_of(e2)->Some_0->Some_0).presenter,
                            (fin.handle_of(e2)->Some_0->Some_0).props,
                            fin,
                        ),
                    ) by {
                        if e2 == e as int {
                            assert(s3.alive(e2));
                            assert(fin.handle_of(e2) == Option::Some(Option::Some(vsv)));
                        } else {
                            assert(fin.recs[e2] == s3.recs[e2]);
                            assert(fin.handle_of(e2) == s3.handle_of(e2));
                        }
                    }
                }
                lemma_handles_rebuilt_trans(s0, s3, fin);
                // A clean node other than this one is untouched end to end.
                if newly {
                    crate::store::lemma_clean_kept_to_except(s0, s1, e as int);
                } else {
                    crate::store::lemma_clean_kept_to_except(s0, s1, e as int);
                }
                if s1.handle_of(e as int) matches Option::Some(Option::Some(_)) {
                    crate::store::lemma_with_rec_clean_except(
                        s1,
                        e as int,
                        RecV { handle: Option::Some(Option::None), ..s1.recs[e as int] },
                    );
                } else {
                    crate::store::lemma_clean_kept_to_except(s1, s1, e as int);
                }
                crate::store::lemma_clean_kept_except_trans(s0, s1, s2, e as int);
                crate::store::lemma_clean_kept_except_trans(s0, s2, s3, e as int);
                if s3.alive(e as int) {
                    crate::store::lemma_with_rec_clean_except(
                        s3,
                        e as int,
                        RecV { handle: Option::Some(Option::Some(vsv)), ..s3.recs[e as int] },
                    );
                } else {
                    crate::store::lemma_clean_kept_to_except(s3, s3, e as int);
                }
                crate::store::lemma_clean_kept_except_trans(s0, s3, fin, e as int);
                if newly {
                    // The spawned node's parent link and tracker attribute
                    // survive the inner build.
                    crate::store::lemma_clean_kept_except_trans(s1, s2, s3, e as int);
                    crate::store::lemma_clean_kept_except_trans(s1, s3, fin, e as int);
                    assert(fin.recs[e as int].parent == s1.recs[e as int].parent);
                    assert(s1.recs[e as int].deps is Some ==> fin.recs[e as int].deps is Some);
                }
                assert forall|e2: int|
                    0 <= e2 < s0.recs.len() && !(#[trigger] s0.dirty(e2)) implies !fin.dirty(e2)
                    && (fin.alive(e2) ==> fin.handle_of(e2) == s0.handle_of(e2)
                    && fin.tracker_of(e2) == s0.tracker_of(e2)) by {
                    if e2 == e as int {
                        if newly {
                            assert(e as int == s0.recs.len());
                            assert(false);
                        } else {
                            assert(s0.dirty(e as int));
                            assert(false);
                        }
                    }
                }
            }
        }
        match res {
            Result::Ok(()) => {
                proof {
                    if fin.alive(e as int) {
                        assert(s3.alive(e as int));
                        assert(fin.handle_of(e as int) == Option::Some(Option::Some(vsv)));
                        assert(vsv.nodes == nodes@);
                    }
                    if slot is None {
                        assert(e as int == s0.recs.len());
                        match fin.handle_of(e as int) {
                            Option::Some(Option::Some(st2)) => {
                                assert(st2 == vsv);
                                assert(vsv.presenter == self.presenter@);
                                assert(vsv.props == self.props@);
                            }
                            _ => {}
                        }
                    }
                }
                Result::Ok(nodes)
            }
            Result::Err(e2) => Result::Err(e2),
        }
    }

    /// Razes the presenter subtree: takes the holder from the presenter
    /// node, if any, razes it so that its cached nodes are destroyed, and
    /// clears the slot from the state.
    pub fn raze(&self, ecx: &mut ElementContext, state: &mut ViewMem, _prev: &NodeSpan, limit: u64)
        ensures
            final(ecx).entity == old(ecx).entity,
            extends(old(ecx).store@, final(ecx).store@),
            no_revive(old(ecx).store@, final(ecx).store@),
            no_refresh(old(ecx).store@, final(ecx).store@),
            handles_rebuilt(old(ecx).store@, final(ecx).store@),
            final(ecx).store@.recs.len() == old(ecx).store@.recs.len(),
            limit > 0 ==> final(state)@ == MemV::Slot(Option::<usize>::None),
            limit == 0 ==> final(state)@ == old(state)@ && final(ecx).store@ == old(ecx).store@,
            limit > 0 ==> (old(state)@ matches MemV::Slot(Option::Some(e)) ==> (old(
                ecx,
            ).store@.handle_of(e as int) matches Option::Some(Option::Some(st)) ==> (st.view
                is Some ==> span_dead(st.nodes, final(ecx).store@)))),
        decreases limit, 2int, *self,
    {
        let ghost s0 = ecx.store@;
        proof {
            crate::store::lemma_extends_refl(s0);
            lemma_handles_rebuilt_refl(s0);
        }
        if limit == 0 {
            return ;
        }
        let slot: Option<usize> = match &*state {
            ViewMem::Slot(o) => *o,
            _ => Option::None,
        };
        *state = ViewMem::Slot(Option::None);
        let e = match slot {
            Option::Some(e) => e,
            Option::None => {
                return ;
            }
        };
        let taken = ecx.store.take_handle(e);
        let ghost s1 = ecx.store@;
        proof {
            if s0.handle_of(e as int) matches Option::Some(Option::Some(_)) {
                crate::store::lemma_with_rec_frame(
                    s0,
                    e as int,
                    RecV { handle: Option::Some(Option::None), ..s0.recs[e as int] },
                );
                lemma_detach_handles(s0, e as int);
            } else {
                lemma_handles_rebuilt_refl(s0);
            }
        }
        match taken {
            Option::Some(mut vs) => {
                vs.raze(ecx, e, limit);
                proof {
                    crate::store::lemma_extends_trans(s0, s1, ecx.store@);
                    crate::store::lemma_no_revive_trans(s0, s1, ecx.store@);
                    crate::store::lemma_no_refresh_trans(s0, s1, ecx.store@);
                    lemma_handles_rebuilt_trans(s0, s1, ecx.store@);
                }
            }
            Option::None => {}
        }
    }
}

/// Builds each member view against the member shape at the same position of
/// the previous output, or against nothing where the previous output is
/// shorter. Members compatible with their positional shape keep it, node
/// for node.
fn build_children(
    vs: &Vec<View>,
    parts: &Vec<NodeSpan>,
    mems: &mut Vec<ViewMem>,
    ecx: &mut ElementContext,
    limit: u64,
) -> (r: Result<Vec<NodeSpan>, BuildError>)
    requires
        old(mems)@.len() == vs@.len(),
    ensures
        final(ecx).entity == old(ecx).entity,
        extends(old(ecx).store@, final(ecx).store@),
        no_revive(old(ecx).store@, final(ecx).store@),
        no_refresh(old(ecx).store@, final(ecx).store@),
        handles_rebuilt(old(ecx).store@, final(ecx).store@),
        clean_kept(old(ecx).store@, final(ecx).store@),
        crate::store::keeps_links(old(ecx).store@, final(ecx).store@),
        r matches Result::Ok(out) ==> out@.len() == vs@.len(),
        prefix_compat(views_view(vs@), old(ecx).store@, views_of(parts@)) ==> (r
            matches Result::Ok(out2) && views_of(out2@) == views_of(parts@).take(
            vs@.len() as int,
        ) && shape_edit_free(delta(old(ecx).store@, final(ecx).store@)) && retains(
            old(ecx).store@,
            final(ecx).store@,
        )),
    decreases limit, 2int, *vs,
{
    let ghost s0 = ecx.store@;
    let ghost csv = views_view(vs@);
    let ghost psv = views_of(parts@);
    let ghost all_pref = prefix_compat(csv, s0, psv);
    proof {
        crate::store::lemma_extends_refl(s0);
        lemma_handles_rebuilt_refl(s0);
        lemma_views_view(vs@);
        crate::node_span::lemma_views_of(parts@);
    }
    let empty_prev = NodeSpan::Empty;
    let n = vs.len();
    let mut out: Vec<NodeSpan> = Vec::new();
    for i in 0..n
        invariant
            n == vs@.len(),
            mems@.len() == n,
            csv == views_view(vs@),
            psv == views_of(parts@),
            csv.len() == n,
            forall|j: int| 0 <= j < n ==> csv[j] == vs@[j]@,
            psv.len() == parts@.len(),
            forall|j: int| 0 <= j < parts@.len() ==> psv[j] == parts@[j]@,
            all_pref == prefix_compat(csv, s0, psv),
            all_pref ==> n <= parts@.len() && (forall|j: int|
                0 <= j < n ==> compat(#[trigger] csv[j], s0, psv[j])),
            s0 == old(ecx).store@,
            ecx.entity == old(ecx).entity,
            extends(s0, ecx.store@),
            no_revive(s0, ecx.store@),
            no_refresh(s0, ecx.store@),
            handles_rebuilt(s0, ecx.store@),
            out@.len() == i,
            clean_kept(s0, ecx.store@),
            crate::store::keeps_links(s0, ecx.store@),
            all_pref ==> shape_edit_free(delta(s0, ecx.store@)) && retains(s0, ecx.store@)
                && views_of(out@) == psv.take(i as int),
        decreases n - i,
    {
        let ghost cur = ecx.store@;
        let child_prev = if i < parts.len() {
            &parts[i]
        } else {
            &empty_prev
        };
        proof {
            assert(decreases_to!(*vs => vs@));
            assert(decreases_to!(vs@ => vs@[i as int]));
            if all_pref {
                lemma_compat_preserved(csv[i as int], s0, cur, psv[i as int]);
            }
        }
        let st = mem_mut(mems, i);
        let r0 = vs[i].build(ecx, st, child_prev, limit);
        let ns = match r0 {
            Result::Ok(ns) => ns,
            Result::Err(e2) => {
                proof {
                    crate::store::lemma_extends_trans(s0, cur, ecx.store@);
                    crate::store::lemma_no_revive_trans(s0, cur, ecx.store@);
                    crate::store::lemma_no_refresh_trans(s0, cur, ecx.store@);
                    lemma_handles_rebuilt_trans(s0, cur, ecx.store@);
                    lemma_clean_kept_trans(s0, cur, ecx.store@);
                }
                return Result::Err(e2);
            }
        };
        let ghost pre_out = out@;
        out.push(ns);
        proof {
            crate::store::lemma_extends_trans(s0, cur, ecx.store@);
            crate::store::lemma_no_revive_trans(s0, cur, ecx.store@);
            crate::store::lemma_no_refresh_trans(s0, cur, ecx.store@);
            lemma_handles_rebuilt_trans(s0, cur, ecx.store@);
            lemma_clean_kept_trans(s0, cur, ecx.store@);
            if all_pref {
                assert(ns@ == psv[i as int]);
                crate::store::lemma_delta_compose(s0, cur, ecx.store@);
                crate::store::lemma_shape_free_concat(delta(s0, cur), delta(cur, ecx.store@));
                assert(shape_edit_free(delta(s0, ecx.store@)));
                crate::store::lemma_retains_trans(s0, cur, ecx.store@);
                crate::node_span::lemma_views_of_push(pre_out, ns);
                assert(psv.take(i as int).push(psv[i as int]) =~= psv.take(i as int + 1));
            }
        }
    }
    Result::Ok(out)
}

/// Exclusive access to one member's state.
fn mem_mut(ms: &mut Vec<ViewMem>, i: usize) -> (r: &mut ViewMem)
    requires
        i < old(ms).len(),
    ensures
        *r == old(ms)@[i as int],
        final(ms)@ == old(ms)@.update(i as int, *final(r)),
{
    &mut ms[i]
}

impl View {
    /// Constructs and patches the tree of nodes produced by this view,
    /// given mutable per-subtree state and the shape produced last cycle:
    /// reuses nodes where the shape still fits, destroys and recreates them
    /// where it does not, and recursively builds nested presenter subtrees.
    pub fn build(
        &self,
        ecx: &mut ElementContext,
        state: &mut ViewMem,
        prev: &NodeSpan,
        limit: u64,
    ) -> (r: Result<NodeSpan, BuildError>)
        ensures
            final(ecx).entity == old(ecx).entity,
            extends(old(ecx).store@, final(ecx).store@),
            no_revive(old(ecx).store@, final(ecx).store@),
            no_refresh(old(ecx).store@, final(ecx).store@),
            handles_rebuilt(old(ecx).store@, final(ecx).store@),
            clean_kept(old(ecx).store@, final(ecx).store@),
            crate::store::keeps_links(old(ecx).store@, final(ecx).store@),
            reuse_post(self@, old(ecx).store@, final(ecx).store@, prev@, r),
            core_view(self@) is Empty ==> (final(ecx).store@ == old(ecx).store@ && (r
                matches Result::Ok(nse) && nse@ == SpanV::Empty)),
            core_view(self@) matches ViewV::Text(ct) ==> text_build_post(
                ct,
                prev@,
                old(ecx).store@,
                final(ecx).store@,
                r,
            ),
            core_view(self@) matches ViewV::Fragment(cc) ==> (r matches Result::Ok(nsf) ==> (nsf@
                matches SpanV::Fragment(cp) && cp.len() == cc.len())),
            self@ is Empty || self@ is Text ==> final(state)@ == old(state)@,
            passthrough_core(self@) matches ViewV::Fragment(cs2) ==> (prev@
                matches SpanV::Fragment(pp) ==> (prefix_compat(cs2, old(ecx).store@, pp) ==> (r
                matches Result::Ok(ns2) && ns2@ == SpanV::Fragment(pp.take(cs2.len() as int)) && (
            forall|j: int|
                cs2.len() <= j < pp.len() ==> span_dead(#[trigger] pp[j], final(ecx).store@))))),
            self@ matches ViewV::Insert(k, inner) ==> (r matches Result::Ok(ns) ==> span_attr(
                ns@,
                k,
                final(ecx).store@,
            )),
            self@ matches ViewV::InsertBundle(k, inner) ==> (r matches Result::Ok(ns) ==> (!(ns@
                is Fragment) && (ns@ matches SpanV::Node(m) ==> (final(ecx).store@.alive(m as int)
                ==> final(ecx).store@.has_attr(m as int, k))))),
            self@ matches ViewV::With(cb, on, inner) ==> (r matches Result::Ok(ns) ==> (!on
                ==> span_effects(ns@, cb, final(ecx).store@, delta(
                old(ecx).store@,
                final(ecx).store@,
            )))),
            self@ matches ViewV::Styled(ks, inner) ==> (r matches Result::Ok(ns) ==> span_styles(
                ns@,
                ks,
                final(ecx).store@,
            )),
            self@ matches ViewV::Bind(bt, bp) ==> (r matches Result::Ok(ns3) ==> bind_ok_post(
                bt,
                bp,
                old(ecx).entity,
                old(ecx).store@,
                final(ecx).store@,
                old(state)@,
                final(state)@,
                ns3@,
            )),
        decreases limit, 2int, *self,
    {
        match self {
            View::Empty => {
                proof {
                    crate::store::lemma_extends_refl(ecx.store@);
                    lemma_handles_rebuilt_refl(ecx.store@);
                }
                Result::Ok(NodeSpan::Empty)
            }
            View::Text(s) => {
                let ns = build_text(s, ecx, prev);
                Result::Ok(ns)
            }
            View::Fragment(vs) => {
                let ghost s0 = ecx.store@;
                let mut tmp = ViewMem::Unit;
                core::mem::swap(state, &mut tmp);
                let mut mems: Vec<ViewMem> = match tmp {
                    ViewMem::List(ms) => ms,
                    _ => Vec::new(),
                };
                let n = vs.len();
                while mems.len() < n
                    decreases n - mems.len(),
                {
                    mems.push(ViewMem::Unit);
                }
                while mems.len() > n
                    invariant
                        mems@.len() >= n,
                    decreases mems.len(),
                {
                    let _discard = mems.pop();
                }
                proof {
                    lemma_views_view(vs@);
                }
                match prev {
                    NodeSpan::Fragment(parts) => {
                        proof {
                            crate::node_span::lemma_views_of(parts@);
                        }
                        let ghost csv = views_view(vs@);
                        let ghost psv = views_of(parts@);
                        let ghost all_pref = prefix_compat(csv, s0, psv);
                        let ghost all_compat = compat(self@, s0, prev@);
                        proof {
                            if all_compat {
                                lemma_compat_all_index(csv, s0, psv);
                                assert(all_pref);
                            }
                        }
                        let r0 = build_children(vs, parts, &mut mems, ecx, limit);
                        let out = match r0 {
                            Result::Ok(out) => out,
                            Result::Err(e2) => {
                                *state = ViewMem::List(mems);
                                return Result::Err(e2);
                            }
                        };
                        let ghost mid = ecx.store@;
                        let pn = parts.len();
                        let mut j = n;
                        while j < pn
                            invariant
                                n <= j,
                                n == vs@.len(),
                                pn == parts@.len(),
                                *self == View::Fragment(*vs),
                                *prev == NodeSpan::Fragment(*parts),
                                s0 == old(ecx).store@,
                                csv == views_view(vs@),
                                csv.len() == n,
                                all_compat == compat(self@, s0, prev@),
                                psv == views_of(parts@),
                                psv.len() == pn,
                                forall|j2: int| 0 <= j2 < pn ==> psv[j2] == parts@[j2]@,
                                ecx.entity == old(ecx).entity,
                                extends(mid, ecx.store@),
                                no_revive(mid, ecx.store@),
                                no_refresh(mid, ecx.store@),
                                handles_rebuilt(mid, ecx.store@),
                                clean_kept(mid, ecx.store@),
                                crate::store::keeps_links(mid, ecx.store@),
                                ecx.store@.recs.len() == mid.recs.len(),
                                forall|j2: int|
                                    n <= j2 < j ==> span_dead(#[trigger] psv[j2], ecx.store@),
                                all_compat ==> ecx.store@ == mid,
                            decreases pn - j,
                        {
                            let ghost cur = ecx.store@;
                            proof {
                                // A fully compatible fragment has exactly as
                                // many previous members as declared members,
                                // so this trimming loop never runs then.
                                if all_compat {
                                    assert(compat(self@, s0, prev@));
                                    assert(self@ == ViewV::Fragment(csv));
                                    assert(prev@ == SpanV::Fragment(psv));
                                    assert(compat_all(csv, s0, psv));
                                    lemma_compat_all_index(csv, s0, psv);
                                    assert(false);
                                }
                            }
                            parts[j].despawn_recursive(&mut ecx.store);
                            proof {
                                crate::store::lemma_extends_trans(mid, cur, ecx.store@);
                                crate::store::lemma_no_revive_trans(mid, cur, ecx.store@);
                                crate::store::lemma_no_refresh_trans(mid, cur, ecx.store@);
                                lemma_killed_handles(cur, ecx.store@);
                                lemma_handles_rebuilt_trans(mid, cur, ecx.store@);
                                lemma_clean_kept_trans(mid, cur, ecx.store@);
                                assert forall|j2: int|
                                    n <= j2 < j + 1 implies span_dead(
                                    #[trigger] psv[j2],
                                    ecx.store@,
                                ) by {
                                    if j2 < j {
                                        assert(span_dead(psv[j2], cur));
                                        assert forall|k: int|
                                            0 <= k < psv[j2].flat().len() implies !ecx.store@
                                            .alive(#[trigger] psv[j2].flat()[k] as int) by {
                                            assert(!cur.alive(psv[j2].flat()[k] as int));
                                        }
                                    } else {
                                        assert(psv[j2] == parts@[j2]@);
                                    }
                                }
                            }
                            j = j + 1;
                        }
                        *state = ViewMem::List(mems);
                        let rns = NodeSpan::Fragment(out);
                        proof {
                            crate::node_span::lemma_views_of(out@);
                            crate::store::lemma_extends_trans(s0, mid, ecx.store@);
                            crate::store::lemma_no_revive_trans(s0, mid, ecx.store@);
                            crate::store::lemma_no_refresh_trans(s0, mid, ecx.store@);
                            lemma_handles_rebuilt_trans(s0, mid, ecx.store@);
                            lemma_clean_kept_trans(s0, mid, ecx.store@);
                            if all_pref {
                                assert(views_of(out@) == psv.take(n as int));
                                assert(rns@ == SpanV::Fragment(psv.take(n as int)));
                            }
                            if all_compat {
                                assert(n == pn);
                                assert(psv.take(n as int) =~= psv);
                                assert(rns@ == prev@);
                            }
                        }
                        Result::Ok(rns)
                    }
                    _ => {
                        prev.despawn_recursive(&mut ecx.store);
                        let ghost mid = ecx.store@;
                        proof {
                            lemma_killed_handles(s0, mid);
                        }
                        let empty_parts: Vec<NodeSpan> = Vec::new();
                        let r0 = build_children(vs, &empty_parts, &mut mems, ecx, limit);
                        *state = ViewMem::List(mems);
                        let out = match r0 {
                            Result::Ok(out) => out,
                            Result::Err(e2) => {
                                proof {
                                    crate::store::lemma_extends_trans(s0, mid, ecx.store@);
                                    crate::store::lemma_no_revive_trans(s0, mid, ecx.store@);
                                    crate::store::lemma_no_refresh_trans(s0, mid, ecx.store@);
                                    lemma_handles_rebuilt_trans(s0, mid, ecx.store@);
                                    lemma_clean_kept_trans(s0, mid, ecx.store@);
                                }
                                return Result::Err(e2);
                            }
                        };
                        let rns = NodeSpan::Fragment(out);
                        proof {
                            crate::node_span::lemma_views_of(out@);
                            crate::store::lemma_extends_trans(s0, mid, ecx.store@);
                            crate::store::lemma_no_revive_trans(s0, mid, ecx.store@);
                            crate::store::lemma_no_refresh_trans(s0, mid, ecx.store@);
                            lemma_handles_rebuilt_trans(s0, mid, ecx.store@);
                            lemma_clean_kept_trans(s0, mid, ecx.store@);
                        }
                        Result::Ok(rns)
                    }
                }
            }
            View::Styled(v) => v.build(ecx, state, prev, limit),
            View::Insert(v) => v.build(ecx, state, prev, limit),
            View::InsertBundle(v) => v.build(ecx, state, prev, limit),
            View::With(v) => v.build(ecx, state, prev, limit),
            View::Bind(b) => b.build(ecx, state, prev, limit),
        }
    }

    /// Recursively destroys every node described by `prev` and razes any
    /// nested subtree state, so that no node of the previous output is left
    /// in the store. Leaf views touch nothing else: every node outside the
    /// razed shape keeps its record, and the state is left alone.
    pub fn raze(&self, ecx: &mut ElementContext, state: &mut ViewMem, prev: &NodeSpan, limit: u64)
        ensures
            final(ecx).entity == old(ecx).entity,
            extends(old(ecx).store@, final(ecx).store@),
            no_revive(old(ecx).store@, final(ecx).store@),
            no_refresh(old(ecx).store@, final(ecx).store@),
            handles_rebuilt(old(ecx).store@, final(ecx).store@),
            final(ecx).store@.recs.len() == old(ecx).store@.recs.len(),
            span_dead(prev@, final(ecx).store@),
            self@ is Empty || self@ is Text ==> final(state)@ == old(state)@ && (forall|e: int|
                0 <= e < old(ecx).store@.recs.len() && !prev@.flat().contains(e as usize)
                    ==> #[trigger] final(ecx).store@.recs[e] == old(ecx).store@.recs[e]),
        decreases limit, 2int, *self,
    {
        match self {
            // An empty view's previous shape is empty whenever the state
            // matches the view; sweeping it merely covers mismatched input.
            View::Empty => {
                let ghost s0 = ecx.store@;
                prev.despawn_recursive(&mut ecx.store);
                proof {
                    lemma_killed_handles(s0, ecx.store@);
                }
            }
            View::Text(_) => {
                let ghost s0 = ecx.store@;
                prev.despawn_recursive(&mut ecx.store);
                proof {
                    lemma_killed_handles(s0, ecx.store@);
                }
            }
            View::Fragment(vs) => {
                let ghost s0 = ecx.store@;
                proof {
                    crate::store::lemma_extends_refl(s0);
                    lemma_handles_rebuilt_refl(s0);
                }
                let mut tmp = ViewMem::Unit;
                core::mem::swap(state, &mut tmp);
                let mut mems: Vec<ViewMem> = match tmp {
                    ViewMem::List(ms) => ms,
                    _ => Vec::new(),
                };
                let n = vs.len();
                while mems.len() < n
                    decreases n - mems.len(),
                {
                    mems.push(ViewMem::Unit);
                }
                while mems.len() > n
                    invariant
                        mems@.len() >= n,
                    decreases mems.len(),
                {
                    let _discard = mems.pop();
                }
                let empty_prev = NodeSpan::Empty;
                for i in 0..n
                    invariant
                        n == vs@.len(),
                        *self == View::Fragment(*vs),
                        mems@.len() == n,
                        s0 == old(ecx).store@,
                        ecx.entity == old(ecx).entity,
                        extends(s0, ecx.store@),
                        no_revive(s0, ecx.store@),
                        no_refresh(s0, ecx.store@),
                        handles_rebuilt(s0, ecx.store@),
                        ecx.store@.recs.len() == s0.recs.len(),
                    decreases n - i,
                {
                    let ghost cur = ecx.store@;
                    let child_prev = match prev {
                        NodeSpan::Fragment(parts) => {
                            if i < parts.len() {
                                &parts[i]
                            } else {
                                &empty_prev
                            }
                        }
                        _ => &empty_prev,
                    };
                    proof {
                        lemma_view_member_decreases(*self, i as int);
                    }
                    let st = mem_mut(&mut mems, i);
                    vs[i].raze(ecx, st, child_prev, limit);
                    proof {
                        crate::store::lemma_extends_trans(s0, cur, ecx.store@);
                        crate::store::lemma_no_revive_trans(s0, cur, ecx.store@);
                        crate::store::lemma_no_refresh_trans(s0, cur, ecx.store@);
                        lemma_handles_rebuilt_trans(s0, cur, ecx.store@);
                    }
                }
                *state = ViewMem::List(mems);
                let ghost mid = ecx.store@;
                prev.despawn_recursive(&mut ecx.store);
                proof {
                    crate::store::lemma_extends_trans(s0, mid, ecx.store@);
                    crate::store::lemma_no_revive_trans(s0, mid, ecx.store@);
                    crate::store::lemma_no_refresh_trans(s0, mid, ecx.store@);
                    lemma_killed_handles(mid, ecx.store@);
                    lemma_handles_rebuilt_trans(s0, mid, ecx.store@);
                }
            }
            View::Styled(v) => v.raze(ecx, state, prev, limit),
            View::Insert(v) => v.raze(ecx, state, prev, limit),
            View::InsertBundle(v) => v.raze(ecx, state, prev, limit),
            View::With(v) => v.raze(ecx, state, prev, limit),
            View::Bind(b) => {
                let ghost s0 = ecx.store@;
                b.raze(ecx, state, prev, limit);
                let ghost mid = ecx.store@;
                prev.despawn_recursive(&mut ecx.store);
                proof {
                    crate::store::lemma_extends_trans(s0, mid, ecx.store@);
                    crate::store::lemma_no_revive_trans(s0, mid, ecx.store@);
                    crate::store::lemma_no_refresh_trans(s0, mid, ecx.store@);
                    lemma_killed_handles(mid, ecx.store@);
                    lemma_handles_rebuilt_trans(s0, mid, ecx.store@);
                }
            }
        }
    }
}

} // verus!
