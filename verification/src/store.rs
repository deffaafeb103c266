//! The graph store: addressable nodes carrying typed attributes, plus the
//! shared named values that presenters may read, plus an ordered log of the
//! shape-changing edits the engine performed.
//!
//! The engine owns this model of the scene graph and records every node
//! creation, mutation and destruction in [`Edit`] entries; a host that mirrors
//! the nodes elsewhere drains the log and replays it.

use vstd::prelude::*;

use crate::node_span::{NodeSpan, SpanV};
use crate::view_handle::{StateV, ViewHandle};

verus! {

/// One probe recorded by a subtree while building: the named shared value it
/// read, and the version the value had at that moment.
#[derive(Clone, Copy, PartialEq, Eq, Structural, Debug)]
pub struct ResRead {
    /// The id of the shared value that was read.
    pub id: u64,
    /// The version the value had when it was read.
    pub version: u64,
}

/// Tracks the shared values read by each subtree during its last build; a
/// subtree is dirty when any recorded version differs from the current one.
#[derive(Debug)]
pub struct TrackedResources {
    /// The probes recorded during the last build, in order.
    pub data: Vec<ResRead>,
}

impl vstd::view::View for TrackedResources {
    type V = Seq<ResRead>;

    open spec fn view(&self) -> Seq<ResRead> {
        self.data@
    }
}

/// A shared named value outside the node graph: presenters read it through
/// [`crate::view::Cx`], and each write bumps its version.
#[derive(Debug)]
pub struct ResEntry {
    /// The name of the value.
    pub id: u64,
    /// The current contents.
    pub value: String,
    /// Bumped on every write; trackers compare against it.
    pub version: u64,
}

/// The mathematical value of a [`ResEntry`].
#[verifier::ext_equal]
pub struct ResV {
    pub id: u64,
    pub value: Seq<char>,
    pub version: u64,
}

impl vstd::view::View for ResEntry {
    type V = ResV;

    open spec fn view(&self) -> ResV {
        ResV { id: self.id, value: self.value@, version: self.version }
    }
}

/// One shape-affecting operation the engine performed on the store, in the
/// order it happened. A host mirroring the nodes replays these.
#[derive(Clone, Copy, PartialEq, Eq, Structural, Debug)]
pub enum Edit {
    /// A node was created.
    Spawn(usize),
    /// A node was destroyed.
    Despawn(usize),
    /// The node's text attribute was written.
    SetText(usize),
    /// The node was linked under a parent node.
    SetParent(usize, usize),
    /// An attribute of the given kind was inserted on the node.
    InsertAttr(usize, u64),
    /// A style of the given kind was applied to the node.
    ApplyStyle(usize, u64),
    /// A callback binding was signalled for the node.
    Effect(u64, usize),
}

/// One node of the graph: its liveness, its link to a parent, and the
/// attributes the engine manages.
pub struct NodeRec {
    /// False once the node was despawned; despawned slots are never reused.
    pub alive: bool,
    /// The node this one is linked under, if any.
    pub parent: Option<usize>,
    /// The text attribute, if the node carries one.
    pub text: Option<String>,
    /// The kinds of the plain attributes inserted on this node.
    pub attrs: Vec<u64>,
    /// The kinds of the styles applied to this node.
    pub styles: Vec<u64>,
    /// The dependency tracker, present on presenter nodes.
    pub deps: Option<TrackedResources>,
    /// The subtree state holder slot, present on presenter nodes.
    pub handle: Option<ViewHandle>,
    /// True from creation until the first completed build.
    pub fresh: bool,
}

/// The mathematical value of a [`NodeRec`].
#[verifier::ext_equal]
pub struct RecV {
    pub alive: bool,
    pub parent: Option<usize>,
    pub text: Option<Seq<char>>,
    pub attrs: Seq<u64>,
    pub styles: Seq<u64>,
    pub deps: Option<Seq<ResRead>>,
    pub handle: Option<Option<StateV>>,
    pub fresh: bool,
}

/// The value of an optional text attribute.
pub open spec fn text_view(t: Option<String>) -> Option<Seq<char>> {
    match t {
        Option::Some(s) => Option::Some(s@),
        Option::None => Option::None,
    }
}

/// The value of an optional tracker attribute.
pub open spec fn deps_view(t: Option<TrackedResources>) -> Option<Seq<ResRead>> {
    match t {
        Option::Some(tr) => Option::Some(tr@),
        Option::None => Option::None,
    }
}

/// The value of an optional holder slot.
pub open spec fn handle_view(h: Option<ViewHandle>) -> Option<Option<StateV>> {
    match h {
        Option::Some(vh) => Option::Some(vh@),
        Option::None => Option::None,
    }
}

impl vstd::view::View for NodeRec {
    type V = RecV;

    open spec fn view(&self) -> RecV {
        RecV {
            alive: self.alive,
            parent: self.parent,
            text: text_view(self.text),
            attrs: self.attrs@,
            styles: self.styles@,
            deps: deps_view(self.deps),
            handle: handle_view(self.handle),
            fresh: self.fresh,
        }
    }
}

/// The values of a sequence of node records, in order.
pub open spec fn recs_view(recs: Seq<NodeRec>) -> Seq<RecV>
    decreases recs,
{
    if recs.len() == 0 {
        Seq::empty()
    } else {
        recs_view(recs.drop_last()).push(recs.last()@)
    }
}

/// `recs_view` maps each record to its value, keeping length and order.
pub proof fn lemma_recs_view(recs: Seq<NodeRec>)
    ensures
        recs_view(recs).len() == recs.len(),
        forall|i: int| 0 <= i < recs.len() ==> recs_view(recs)[i] == recs[i]@,
    decreases recs,
{
    if recs.len() > 0 {
        let pre = recs.drop_last();
        lemma_recs_view(pre);
        assert forall|i: int| 0 <= i < recs.len() implies recs_view(recs)[i] == recs[i]@ by {
            if i < recs.len() - 1 {
                assert(recs_view(recs)[i] == recs_view(pre)[i]);
                assert(pre[i] == recs[i]);
            } else {
                assert(recs_view(recs)[i] == recs.last()@);
            }
        }
    }
}

/// `recs_view` of an updated sequence is the pointwise update of the values.
pub proof fn lemma_recs_view_update(recs: Seq<NodeRec>, i: int, r: NodeRec)
    requires
        0 <= i < recs.len(),
    ensures
        recs_view(recs.update(i, r)) =~= recs_view(recs).update(i, r@),
{
    lemma_recs_view(recs);
    lemma_recs_view(recs.update(i, r));
}

/// `recs_view` of a pushed sequence is the pushed value sequence.
pub proof fn lemma_recs_view_push(recs: Seq<NodeRec>, r: NodeRec)
    ensures
        recs_view(recs.push(r)) =~= recs_view(recs).push(r@),
{
    lemma_recs_view(recs);
    lemma_recs_view(recs.push(r));
}

/// The values of a sequence of shared-value entries, in order.
pub open spec fn res_view(res: Seq<ResEntry>) -> Seq<ResV>
    decreases res,
{
    if res.len() == 0 {
        Seq::empty()
    } else {
        res_view(res.drop_last()).push(res.last()@)
    }
}

/// `res_view` maps each entry to its value, keeping length and order.
pub proof fn lemma_res_view(res: Seq<ResEntry>)
    ensures
        res_view(res).len() == res.len(),
        forall|i: int| 0 <= i < res.len() ==> res_view(res)[i] == res[i]@,
    decreases res,
{
    if res.len() > 0 {
        let pre = res.drop_last();
        lemma_res_view(pre);
        assert forall|i: int| 0 <= i < res.len() implies res_view(res)[i] == res[i]@ by {
            if i < res.len() - 1 {
                assert(res_view(res)[i] == res_view(pre)[i]);
                assert(pre[i] == res[i]);
            } else {
                assert(res_view(res)[i] == res.last()@);
            }
        }
    }
}

/// `res_view` of an updated sequence is the pointwise update of the values.
pub proof fn lemma_res_view_update(res: Seq<ResEntry>, i: int, r: ResEntry)
    requires
        0 <= i < res.len(),
    ensures
        res_view(res.update(i, r)) =~= res_view(res).update(i, r@),
{
    lemma_res_view(res);
    lemma_res_view(res.update(i, r));
}

/// `res_view` of a pushed sequence is the pushed value sequence.
pub proof fn lemma_res_view_push(res: Seq<ResEntry>, r: ResEntry)
    ensures
        res_view(res.push(r)) =~= res_view(res).push(r@),
{
    lemma_res_view(res);
    lemma_res_view(res.push(r));
}

/// The mathematical value of a [`Store`]: the node records, the shared
/// values, and the edit log.
#[verifier::ext_equal]
pub struct StoreV {
    pub recs: Seq<RecV>,
    pub res: Seq<ResV>,
    pub log: Seq<Edit>,
}

/// The position of the first shared-value entry named `id`, searching from
/// `from`; negative when there is none.
pub open spec fn find_res_from(res: Seq<ResV>, id: u64, from: int) -> int
    decreases res.len() - from,
{
    if from < 0 || from >= res.len() {
        -1
    } else if res[from].id == id {
        from
    } else {
        find_res_from(res, id, from + 1)
    }
}

impl StoreV {
    /// How many node slots the store has ever allocated.
    pub open spec fn n(self) -> int {
        self.recs.len() as int
    }

    /// Whether node `e` exists and has not been despawned.
    pub open spec fn alive(self, e: int) -> bool {
        0 <= e < self.recs.len() && self.recs[e].alive
    }

    /// Whether node `e` is alive and carries a text attribute.
    pub open spec fn has_text(self, e: int) -> bool {
        self.alive(e) && self.recs[e].text is Some
    }

    /// The text attribute of node `e`, if it is alive and has one.
    pub open spec fn text_of(self, e: int) -> Option<Seq<char>> {
        if self.alive(e) {
            self.recs[e].text
        } else {
            Option::None
        }
    }

    /// Whether node `e` is alive and carries an attribute of kind `k`.
    pub open spec fn has_attr(self, e: int, k: u64) -> bool {
        self.alive(e) && self.recs[e].attrs.contains(k)
    }

    /// Whether node `e` is alive and has style `k` applied.
    pub open spec fn has_style(self, e: int, k: u64) -> bool {
        self.alive(e) && self.recs[e].styles.contains(k)
    }

    /// The holder slot of node `e`: `None` when the node is dead or carries
    /// none; `Some(None)` when the slot exists but the holder is detached.
    pub open spec fn handle_of(self, e: int) -> Option<Option<StateV>> {
        if self.alive(e) {
            self.recs[e].handle
        } else {
            Option::None
        }
    }

    /// The dependency tracker of node `e`, if it is alive and carries one.
    pub open spec fn tracker_of(self, e: int) -> Option<Seq<ResRead>> {
        if self.alive(e) {
            self.recs[e].deps
        } else {
            Option::None
        }
    }

    /// Whether node `e` is alive and was created since its last build.
    pub open spec fn is_fresh(self, e: int) -> bool {
        self.alive(e) && self.recs[e].fresh
    }

    /// The position of the shared value named `id`, or a negative number.
    pub open spec fn res_find(self, id: u64) -> int {
        find_res_from(self.res, id, 0)
    }

    /// The current version of the shared value named `id`; zero when the
    /// value does not exist yet.
    pub open spec fn res_version(self, id: u64) -> u64 {
        if self.res_find(id) >= 0 {
            self.res[self.res_find(id)].version
        } else {
            0
        }
    }

    /// The current contents of the shared value named `id`, if it exists.
    pub open spec fn res_value(self, id: u64) -> Option<Seq<char>> {
        if self.res_find(id) >= 0 {
            Option::Some(self.res[self.res_find(id)].value)
        } else {
            Option::None
        }
    }

    /// Whether every probe in `entries` still sees the version it recorded.
    pub open spec fn tracker_clean(self, entries: Seq<ResRead>) -> bool {
        forall|i: int|
            0 <= i < entries.len() ==> #[trigger] entries[i].version == self.res_version(
                entries[i].id,
            )
    }

    /// Whether node `e` must be rebuilt this cycle: it carries a tracker and
    /// either a deps shared value changed since the last build, or the
    /// node was created this cycle and has never been built.
    pub open spec fn dirty(self, e: int) -> bool {
        &&& self.alive(e)
        &&& self.tracker_of(e) is Some
        &&& (!self.tracker_clean(self.tracker_of(e)->Some_0) || self.is_fresh(e))
    }

    /// The store with record `e` replaced.
    pub open spec fn with_rec(self, e: int, r: RecV) -> StoreV {
        StoreV { recs: self.recs.update(e, r), ..self }
    }

    /// The store with one more edit logged.
    pub open spec fn with_log(self, ed: Edit) -> StoreV {
        StoreV { log: self.log.push(ed), ..self }
    }

    /// The store with the holder slot of node `e` replaced.
    pub open spec fn with_handle(self, e: int, h: Option<Option<StateV>>) -> StoreV {
        self.with_rec(e, RecV { handle: h, ..self.recs[e] })
    }
}

/// All shared values other than `id` have the same version and contents in
/// the two stores.
pub open spec fn res_others_same(s1: StoreV, s2: StoreV, id: u64) -> bool {
    forall|id2: u64|
        id2 != id ==> #[trigger] s2.res_version(id2) == s1.res_version(id2) && s2.res_value(id2)
            == s1.res_value(id2)
}

/// Rewriting the entry that holds `id` in place leaves every other shared
/// value with its version and contents.
proof fn lemma_update_res_others(s1: StoreV, s2: StoreV, id: u64, i: int, entv: ResV)
    requires
        0 <= i < s1.res.len(),
        s1.res[i].id == id,
        entv.id == id,
        s2.res == s1.res.update(i, entv),
    ensures
        res_others_same(s1, s2, id),
{
    assert forall|id2: u64| id2 != id implies #[trigger] s2.res_version(id2) == s1.res_version(
        id2,
    ) && s2.res_value(id2) == s1.res_value(id2) by {
        lemma_find_res_same_ids(s1.res, s2.res, id2, 0);
        if find_res_from(s1.res, id2, 0) >= 0 {
            lemma_find_res_props(s1.res, id2, 0);
        }
    }
}

/// Appending an entry named `id` leaves every other shared value with its
/// version and contents.
proof fn lemma_push_res_others(s1: StoreV, s2: StoreV, id: u64, entv: ResV)
    requires
        entv.id == id,
        s2.res == s1.res.push(entv),
    ensures
        res_others_same(s1, s2, id),
{
    assert forall|id2: u64| id2 != id implies #[trigger] s2.res_version(id2) == s1.res_version(
        id2,
    ) && s2.res_value(id2) == s1.res_value(id2) by {
        lemma_find_res_push(s1.res, entv, id2, 0);
        if find_res_from(s1.res, id2, 0) >= 0 {
            lemma_find_res_props(s1.res, id2, 0);
        }
    }
}

/// The edits appended between an earlier and a later store value.
pub open spec fn delta(s1: StoreV, s2: StoreV) -> Seq<Edit> {
    s2.log.skip(s1.log.len() as int)
}

/// The later store extends the earlier one: the log grew by appending, the
/// shared values are untouched, and no node slot was removed.
pub open spec fn extends(s1: StoreV, s2: StoreV) -> bool {
    &&& s1.log.is_prefix_of(s2.log)
    &&& s2.res == s1.res
    &&& s1.recs.len() <= s2.recs.len()
}

/// No edit in `d` creates or destroys a node.
pub open spec fn shape_edit_free(d: Seq<Edit>) -> bool {
    forall|i: int| 0 <= i < d.len() ==> !((#[trigger] d[i]) is Spawn) && !(d[i] is Despawn)
}

/// Every node alive in the earlier store is still alive in the later one and
/// kept its text attribute if it had one.
pub open spec fn retains(s1: StoreV, s2: StoreV) -> bool {
    forall|e: int|
        (#[trigger] s1.alive(e) ==> s2.alive(e)) && (s1.has_text(e) ==> s2.has_text(e))
}

/// `extends` composes.
pub proof fn lemma_extends_trans(s1: StoreV, s2: StoreV, s3: StoreV)
    requires
        extends(s1, s2),
        extends(s2, s3),
    ensures
        extends(s1, s3),
{
    assert(s1.log.is_prefix_of(s3.log)) by {
        assert(s1.log =~= s2.log.take(s1.log.len() as int));
        assert(s2.log =~= s3.log.take(s2.log.len() as int));
        assert(s1.log =~= s3.log.take(s1.log.len() as int));
    }
}

/// `retains` composes.
pub proof fn lemma_retains_trans(s1: StoreV, s2: StoreV, s3: StoreV)
    requires
        retains(s1, s2),
        retains(s2, s3),
    ensures
        retains(s1, s3),
{
}

/// The edits of two back-to-back extensions concatenate.
pub proof fn lemma_delta_compose(s1: StoreV, s2: StoreV, s3: StoreV)
    requires
        extends(s1, s2),
        extends(s2, s3),
    ensures
        delta(s1, s3) =~= delta(s1, s2) + delta(s2, s3),
{
    assert(s2.log =~= s3.log.take(s2.log.len() as int));
}

/// The graph store: every node the engine manages, the shared named values,
/// and the ordered log of shape edits performed so far.
pub struct Store {
    /// The node records; a node's id is its position, and slots are never
    /// reused after a despawn.
    pub recs: Vec<NodeRec>,
    /// The shared named values presenters can read.
    pub res: Vec<ResEntry>,
    /// The ordered log of edits performed since the log was last drained.
    pub log: Vec<Edit>,
}

impl vstd::view::View for Store {
    type V = StoreV;

    open spec fn view(&self) -> StoreV {
        StoreV { recs: recs_view(self.recs@), res: res_view(self.res@), log: self.log@ }
    }
}

/// Exclusive access to one node record, for in-place mutation.
fn rec_mut(recs: &mut Vec<NodeRec>, i: usize) -> (r: &mut NodeRec)
    requires
        i < old(recs).len(),
    ensures
        *r == old(recs)@[i as int],
        final(recs)@ == old(recs)@.update(i as int, *final(r)),
{
    &mut recs[i]
}

/// Exclusive access to one shared-value entry, for in-place mutation.
fn res_mut(res: &mut Vec<ResEntry>, i: usize) -> (r: &mut ResEntry)
    requires
        i < old(res).len(),
    ensures
        *r == old(res)@[i as int],
        final(res)@ == old(res)@.update(i as int, *final(r)),
{
    &mut res[i]
}

impl Store {
    /// An empty store: no nodes, no shared values, an empty log.
    pub fn new() -> (r: Store)
        ensures
            r@.recs == Seq::<RecV>::empty(),
            r@.res == Seq::<ResV>::empty(),
            r@.log == Seq::<Edit>::empty(),
    {
        Store { recs: Vec::new(), res: Vec::new(), log: Vec::new() }
    }

    /// How many node slots the store has ever allocated.
    pub fn node_count(&self) -> (n: usize)
        ensures
            n == self@.n(),
    {
        proof {
            lemma_recs_view(self.recs@);
        }
        self.recs.len()
    }

    /// Whether node `e` exists and has not been despawned.
    pub fn is_alive(&self, e: usize) -> (r: bool)
        ensures
            r == self@.alive(e as int),
    {
        proof {
            lemma_recs_view(self.recs@);
        }
        e < self.recs.len() && self.recs[e].alive
    }

    /// Whether node `e` is alive and carries a text attribute.
    pub fn has_text(&self, e: usize) -> (r: bool)
        ensures
            r == self@.has_text(e as int),
    {
        proof {
            lemma_recs_view(self.recs@);
        }
        e < self.recs.len() && self.recs[e].alive && self.recs[e].text.is_some()
    }

    /// The text attribute of node `e`, if it is alive and has one.
    pub fn text_of(&self, e: usize) -> (r: Option<String>)
        ensures
            text_view(r) == self@.text_of(e as int),
    {
        proof {
            lemma_recs_view(self.recs@);
        }
        if e < self.recs.len() && self.recs[e].alive {
            match &self.recs[e].text {
                Option::Some(s) => Option::Some(s.clone()),
                Option::None => Option::None,
            }
        } else {
            Option::None
        }
    }

    /// Writes the text attribute of node `e`; on a dead or absent node this
    /// does nothing.
    pub fn set_text(&mut self, e: usize, s: &String)
        ensures
            final(self)@ == if old(self)@.alive(e as int) {
                old(self)@.with_rec(
                    e as int,
                    (RecV { text: Option::Some(s@), ..old(self)@.recs[e as int] }),
                ).with_log(Edit::SetText(e))
            } else {
                old(self)@
            },
    {
        proof {
            lemma_recs_view(self.recs@);
        }
        if e < self.recs.len() && self.recs[e].alive {
            let r = rec_mut(&mut self.recs, e);
            r.text = Option::Some(s.clone());
            self.log.push(Edit::SetText(e));
            proof {
                lemma_recs_view_update(old(self).recs@, e as int, self.recs@[e as int]);
                assert(self@ =~= old(self)@.with_rec(
                    e as int,
                    RecV { text: Option::Some(s@), ..old(self)@.recs[e as int] },
                ).with_log(Edit::SetText(e)));
            }
        }
    }

    /// Creates a new text node and returns its id, which is always a slot
    /// the store never used before.
    pub fn spawn_text(&mut self, s: &String) -> (id: usize)
        ensures
            id == old(self)@.n(),
            final(self)@.recs == old(self)@.recs.push(
                (RecV {
                    alive: true,
                    parent: Option::None,
                    text: Option::Some(s@),
                    attrs: Seq::empty(),
                    styles: Seq::empty(),
                    deps: Option::None,
                    handle: Option::None,
                    fresh: false,
                }),
            ),
            final(self)@.res == old(self)@.res,
            final(self)@.log == old(self)@.log.push(Edit::Spawn(id)).push(Edit::SetText(id)),
    {
        proof {
            lemma_recs_view(self.recs@);
        }
        let id = self.recs.len();
        let rec = NodeRec {
            alive: true,
            parent: Option::None,
            text: Option::Some(s.clone()),
            attrs: Vec::new(),
            styles: Vec::new(),
            deps: Option::None,
            handle: Option::None,
            fresh: false,
        };
        proof {
            lemma_recs_view_push(self.recs@, rec);
        }
        self.recs.push(rec);
        self.log.push(Edit::Spawn(id));
        self.log.push(Edit::SetText(id));
        id
    }

    /// Creates a new presenter node under `parent`, carrying an empty
    /// dependency tracker and the given holder; the spawning build constructs
    /// it in the same cycle, so it carries no never-built marker. Returns its
    /// id, a slot never used before.
    pub fn spawn_holder(&mut self, parent: usize, handle: ViewHandle) -> (id: usize)
        ensures
            id == old(self)@.n(),
            final(self)@.recs == old(self)@.recs.push(
                (RecV {
                    alive: true,
                    parent: Option::Some(parent),
                    text: Option::None,
                    attrs: Seq::empty(),
                    styles: Seq::empty(),
                    deps: Option::Some(Seq::empty()),
                    handle: Option::Some(handle@),
                    fresh: false,
                }),
            ),
            final(self)@.res == old(self)@.res,
            final(self)@.log == old(self)@.log.push(Edit::Spawn(id)).push(
                Edit::SetParent(id, parent),
            ),
    {
        proof {
            lemma_recs_view(self.recs@);
        }
        let id = self.recs.len();
        let rec = NodeRec {
            alive: true,
            parent: Option::Some(parent),
            text: Option::None,
            attrs: Vec::new(),
            styles: Vec::new(),
            deps: Option::Some(TrackedResources { data: Vec::new() }),
            handle: Option::Some(handle),
            fresh: false,
        };
        proof {
            lemma_recs_view_push(self.recs@, rec);
        }
        self.recs.push(rec);
        self.log.push(Edit::Spawn(id));
        self.log.push(Edit::SetParent(id, parent));
        id
    }

    /// Creates a new root presenter node with no parent, carrying an empty
    /// tracker and the given holder, marked fresh so the next cycle builds
    /// it; returns its id, a slot never used before.
    pub fn spawn_root(&mut self, handle: ViewHandle) -> (id: usize)
        ensures
            id == old(self)@.n(),
            final(self)@.recs == old(self)@.recs.push(
                (RecV {
                    alive: true,
                    parent: Option::None,
                    text: Option::None,
                    attrs: Seq::empty(),
                    styles: Seq::empty(),
                    deps: Option::Some(Seq::empty()),
                    handle: Option::Some(handle@),
                    fresh: true,
                }),
            ),
            final(self)@.res == old(self)@.res,
            final(self)@.log == old(self)@.log.push(Edit::Spawn(id)),
    {
        proof {
            lemma_recs_view(self.recs@);
        }
        let id = self.recs.len();
        let rec = NodeRec {
            alive: true,
            parent: Option::None,
            text: Option::None,
            attrs: Vec::new(),
            styles: Vec::new(),
            deps: Option::Some(TrackedResources { data: Vec::new() }),
            handle: Option::Some(handle),
            fresh: true,
        };
        proof {
            lemma_recs_view_push(self.recs@, rec);
        }
        self.recs.push(rec);
        self.log.push(Edit::Spawn(id));
        id
    }

    /// Destroys node `e`; on a dead or absent node this does nothing.
    pub fn despawn(&mut self, e: usize)
        ensures
            final(self)@ == if old(self)@.alive(e as int) {
                old(self)@.with_rec(
                    e as int,
                    (RecV { alive: false, ..old(self)@.recs[e as int] }),
                ).with_log(Edit::Despawn(e))
            } else {
                old(self)@
            },
    {
        proof {
            lemma_recs_view(self.recs@);
        }
        if e < self.recs.len() && self.recs[e].alive {
            let r = rec_mut(&mut self.recs, e);
            r.alive = false;
            self.log.push(Edit::Despawn(e));
            proof {
                lemma_recs_view_update(old(self).recs@, e as int, self.recs@[e as int]);
                assert(self@ =~= old(self)@.with_rec(
                    e as int,
                    RecV { alive: false, ..old(self)@.recs[e as int] },
                ).with_log(Edit::Despawn(e)));
            }
        }
    }

    /// Whether node `e` is alive and carries an attribute of kind `k`.
    pub fn has_attr(&self, e: usize, k: u64) -> (r: bool)
        ensures
            r == self@.has_attr(e as int, k),
    {
        proof {
            lemma_recs_view(self.recs@);
        }
        if e < self.recs.len() && self.recs[e].alive {
            let attrs = &self.recs[e].attrs;
            let n = attrs.len();
            for i in 0..n
                invariant
                    n == attrs@.len(),
                    self@.alive(e as int),
                    self@.recs[e as int].attrs == attrs@,
                    forall|j: int| 0 <= j < i ==> attrs@[j] != k,
                decreases n - i,
            {
                if attrs[i] == k {
                    return true;
                }
            }
            proof {
                assert(!self@.recs[e as int].attrs.contains(k));
            }
            false
        } else {
            false
        }
    }

    /// Inserts an attribute of kind `k` on node `e`; on a dead or absent
    /// node this does nothing.
    pub fn insert_attr(&mut self, e: usize, k: u64)
        ensures
            final(self)@ == if old(self)@.alive(e as int) {
                old(self)@.with_rec(
                    e as int,
                    (RecV {
                        attrs: old(self)@.recs[e as int].attrs.push(k),
                        ..old(self)@.recs[e as int]
                    }),
                ).with_log(Edit::InsertAttr(e, k))
            } else {
                old(self)@
            },
    {
        proof {
            lemma_recs_view(self.recs@);
        }
        if e < self.recs.len() && self.recs[e].alive {
            let r = rec_mut(&mut self.recs, e);
            r.attrs.push(k);
            self.log.push(Edit::InsertAttr(e, k));
            proof {
                lemma_recs_view_update(old(self).recs@, e as int, self.recs@[e as int]);
                assert(self@ =~= old(self)@.with_rec(
                    e as int,
                    RecV {
                        attrs: old(self)@.recs[e as int].attrs.push(k),
                        ..old(self)@.recs[e as int]
                    },
                ).with_log(Edit::InsertAttr(e, k)));
            }
        }
    }

    /// Applies a style of kind `k` to node `e`; on a dead or absent node
    /// this does nothing.
    pub fn apply_style(&mut self, e: usize, k: u64)
        ensures
            final(self)@ == if old(self)@.alive(e as int) {
                old(self)@.with_rec(
                    e as int,
                    (RecV {
                        styles: old(self)@.recs[e as int].styles.push(k),
                        ..old(self)@.recs[e as int]
                    }),
                ).with_log(Edit::ApplyStyle(e, k))
            } else {
                old(self)@
            },
    {
        proof {
            lemma_recs_view(self.recs@);
        }
        if e < self.recs.len() && self.recs[e].alive {
            let r = rec_mut(&mut self.recs, e);
            r.styles.push(k);
            self.log.push(Edit::ApplyStyle(e, k));
            proof {
                lemma_recs_view_update(old(self).recs@, e as int, self.recs@[e as int]);
                assert(self@ =~= old(self)@.with_rec(
                    e as int,
                    RecV {
                        styles: old(self)@.recs[e as int].styles.push(k),
                        ..old(self)@.recs[e as int]
                    },
                ).with_log(Edit::ApplyStyle(e, k)));
            }
        }
    }

    /// The current version of the shared value named `id`; zero when the
    /// value does not exist yet.
    pub fn res_version(&self, id: u64) -> (v: u64)
        ensures
            v == self@.res_version(id),
    {
        proof {
            lemma_res_view(self.res@);
        }
        let n = self.res.len();
        for i in 0..n
            invariant
                n == self.res@.len(),
                res_view(self.res@).len() == n,
                forall|j: int| 0 <= j < n ==> res_view(self.res@)[j] == self.res@[j]@,
                self@.res == res_view(self.res@),
                find_res_from(self@.res, id, 0) == find_res_from(self@.res, id, i as int),
            decreases n - i,
        {
            if self.res[i].id == id {
                return self.res[i].version;
            }
        }
        0
    }

    /// The current contents of the shared value named `id`, if it exists.
    pub fn get_resource(&self, id: u64) -> (r: Option<String>)
        ensures
            text_view(r) == self@.res_value(id),
    {
        proof {
            lemma_res_view(self.res@);
        }
        let n = self.res.len();
        for i in 0..n
            invariant
                n == self.res@.len(),
                res_view(self.res@).len() == n,
                forall|j: int| 0 <= j < n ==> res_view(self.res@)[j] == self.res@[j]@,
                self@.res == res_view(self.res@),
                find_res_from(self@.res, id, 0) == find_res_from(self@.res, id, i as int),
            decreases n - i,
        {
            if self.res[i].id == id {
                return Option::Some(self.res[i].value.clone());
            }
        }
        Option::None
    }

    /// Writes the shared value named `id`, creating it when absent, and bumps
    /// its version so trackers that read it become dirty.
    pub fn set_resource(&mut self, id: u64, value: &String)
        requires
            old(self)@.res_version(id) < u64::MAX,
        ensures
            final(self)@.recs == old(self)@.recs,
            final(self)@.log == old(self)@.log,
            final(self)@.res_version(id) == old(self)@.res_version(id) + 1,
            final(self)@.res_value(id) == Option::Some(value@),
            res_others_same(old(self)@, final(self)@, id),
    {
        proof {
            lemma_res_view(self.res@);
        }
        let ghost s0 = self@;
        let n = self.res.len();
        for i in 0..n
            invariant
                n == self.res@.len(),
                *self == *old(self),
                s0 == self@,
                res_view(self.res@).len() == n,
                forall|j: int| 0 <= j < n ==> res_view(self.res@)[j] == self.res@[j]@,
                s0.res == res_view(self.res@),
                find_res_from(s0.res, id, 0) == find_res_from(s0.res, id, i as int),
                s0.res_version(id) < u64::MAX,
            decreases n - i,
        {
            if self.res[i].id == id {
                let v = self.res[i].version;
                proof {
                    assert(s0.res[i as int].id == id);
                    assert(find_res_from(s0.res, id, i as int) == i as int);
                    assert(s0.res_version(id) == v);
                }
                let r = res_mut(&mut self.res, i);
                r.value = value.clone();
                r.version = v + 1;
                proof {
                    lemma_res_view_update(old(self).res@, i as int, self.res@[i as int]);
                    let newres = self@.res;
                    assert(newres =~= s0.res.update(
                        i as int,
                        ResV { id, value: value@, version: (v + 1) as u64 },
                    ));
                    lemma_find_res_same_ids(s0.res, newres, id, 0);
                    assert(self@.res_version(id) == v + 1);
                    assert(self@.res_value(id) == Option::Some(value@));
                    lemma_update_res_others(
                        s0,
                        self@,
                        id,
                        i as int,
                        ResV { id, value: value@, version: (v + 1) as u64 },
                    );
                }
                return ;
            }
        }
        proof {
            assert(find_res_from(s0.res, id, n as int) == -1);
            assert(s0.res_version(id) == 0);
        }
        let entry = ResEntry { id, value: value.clone(), version: 1 };
        proof {
            lemma_res_view_push(self.res@, entry);
        }
        self.res.push(entry);
        proof {
            let newres = self@.res;
            let entv = ResV { id, value: value@, version: 1 };
            assert(newres =~= s0.res.push(entv));
            lemma_find_res_push(s0.res, entv, id, 0);
            assert(newres[s0.res.len() as int] == entv);
            assert(self@.res_version(id) == 1);
            assert(self@.res_value(id) == Option::Some(value@));
            lemma_push_res_others(s0, self@, id, entv);
        }
    }

    /// Whether node `e` must be rebuilt this cycle: a deps shared value
    /// changed since its last build, or it is fresh and was never built.
    pub fn is_dirty(&self, e: usize) -> (r: bool)
        ensures
            r == self@.dirty(e as int),
    {
        proof {
            lemma_recs_view(self.recs@);
        }
        if !(e < self.recs.len() && self.recs[e].alive) {
            return false;
        }
        match &self.recs[e].deps {
            Option::None => false,
            Option::Some(tr) => {
                if self.recs[e].fresh {
                    return true;
                }
                let n = tr.data.len();
                for i in 0..n
                    invariant
                        n == tr.data@.len(),
                        self@.tracker_of(e as int) == Option::Some(tr.data@),
                        self@.alive(e as int),
                        !self@.is_fresh(e as int),
                        forall|j: int|
                            0 <= j < i ==> #[trigger] tr.data@[j].version == self@.res_version(
                                tr.data@[j].id,
                            ),
                    decreases n - i,
                {
                    let entry = tr.data[i];
                    if self.res_version(entry.id) != entry.version {
                        return true;
                    }
                }
                false
            }
        }
    }

    /// Empties the dependency tracker of node `e`, ready to record the reads
    /// of a fresh build; does nothing when the node is dead or untracked.
    pub fn clear_tracker(&mut self, e: usize)
        ensures
            final(self)@ == if old(self)@.alive(e as int) && old(self)@.tracker_of(e as int)
                is Some {
                old(self)@.with_rec(
                    e as int,
                    (RecV {
                        deps: Option::Some(Seq::empty()),
                        ..old(self)@.recs[e as int]
                    }),
                )
            } else {
                old(self)@
            },
    {
        proof {
            lemma_recs_view(self.recs@);
        }
        if e < self.recs.len() && self.recs[e].alive && self.recs[e].deps.is_some() {
            let r = rec_mut(&mut self.recs, e);
            r.deps = Option::Some(TrackedResources { data: Vec::new() });
            proof {
                lemma_recs_view_update(old(self).recs@, e as int, self.recs@[e as int]);
                assert(self@ =~= old(self)@.with_rec(
                    e as int,
                    RecV { deps: Option::Some(Seq::empty()), ..old(self)@.recs[e as int] },
                ));
            }
        }
    }

    /// Records that the subtree at node `e` read the shared value `id` at its
    /// current version; does nothing when the node is dead or untracked.
    pub fn record_read(&mut self, e: usize, id: u64)
        ensures
            final(self)@ == record_one(old(self)@, e as int, id),
    {
        proof {
            lemma_recs_view(self.recs@);
        }
        if e < self.recs.len() && self.recs[e].alive && self.recs[e].deps.is_some() {
            let version = self.res_version(id);
            let r = rec_mut(&mut self.recs, e);
            match &mut r.deps {
                Option::Some(tr) => {
                    tr.data.push(ResRead { id, version });
                }
                Option::None => {}
            }
            proof {
                lemma_recs_view_update(old(self).recs@, e as int, self.recs@[e as int]);
                assert(self@ =~= record_one(old(self)@, e as int, id));
            }
        }
    }

    /// Removes the subtree state holder from node `e`, leaving the detached
    /// placeholder behind, so that the caller can rebuild the holder while
    /// freely mutating the store; returns `None` when the node is dead, has
    /// no holder slot, or the holder is already detached.
    pub fn take_handle(&mut self, e: usize) -> (r: Option<Box<crate::view_handle::ViewState>>)
        ensures
            old(self)@.handle_of(e as int) matches Option::Some(Option::Some(st)) ==> (r
                matches Option::Some(b) && b@ == st && final(self)@ == old(self)@.with_handle(
                e as int,
                Option::Some(Option::None),
            )),
            !(old(self)@.handle_of(e as int) matches Option::Some(Option::Some(_))) ==> (r
                is None && final(self)@ == old(self)@),
    {
        proof {
            lemma_recs_view(self.recs@);
        }
        if e < self.recs.len() && self.recs[e].alive && self.recs[e].handle.is_some() {
            let r = rec_mut(&mut self.recs, e);
            let taken = match &mut r.handle {
                Option::Some(h) => h.inner.take(),
                Option::None => Option::None,
            };
            proof {
                lemma_recs_view_update(old(self).recs@, e as int, self.recs@[e as int]);
                if old(self)@.handle_of(e as int) matches Option::Some(Option::Some(st)) {
                    assert(self@ =~= old(self)@.with_handle(
                        e as int,
                        Option::Some(Option::None),
                    ));
                } else {
                    assert(self.recs@ =~= old(self).recs@.update(
                        e as int,
                        old(self).recs@[e as int],
                    ));
                    assert(self.recs@ =~= old(self).recs@);
                }
            }
            taken
        } else {
            Option::None
        }
    }

    /// Puts a rebuilt holder back into the slot of node `e`. When the node
    /// died in the meantime, the holder is dropped and its state abandoned.
    pub fn put_handle(&mut self, e: usize, vs: Box<crate::view_handle::ViewState>)
        ensures
            old(self)@.alive(e as int) ==> final(self)@ == old(self)@.with_handle(
                e as int,
                Option::Some(Option::Some(vs@)),
            ),
            !old(self)@.alive(e as int) ==> final(self)@ == old(self)@,
    {
        proof {
            lemma_recs_view(self.recs@);
        }
        if e < self.recs.len() && self.recs[e].alive {
            let r = rec_mut(&mut self.recs, e);
            r.handle = Option::Some(crate::view_handle::ViewHandle { inner: Option::Some(vs) });
            proof {
                lemma_recs_view_update(old(self).recs@, e as int, self.recs@[e as int]);
                assert(self@ =~= old(self)@.with_handle(
                    e as int,
                    Option::Some(Option::Some(vs@)),
                ));
            }
        }
    }

    /// Clears the never-built marker of node `e` after its first build.
    pub fn clear_fresh(&mut self, e: usize)
        ensures
            final(self)@ == if old(self)@.alive(e as int) {
                old(self)@.with_rec(
                    e as int,
                    (RecV { fresh: false, ..old(self)@.recs[e as int] }),
                )
            } else {
                old(self)@
            },
    {
        proof {
            lemma_recs_view(self.recs@);
        }
        if e < self.recs.len() && self.recs[e].alive {
            let r = rec_mut(&mut self.recs, e);
            r.fresh = false;
            proof {
                lemma_recs_view_update(old(self).recs@, e as int, self.recs@[e as int]);
                assert(self@ =~= old(self)@.with_rec(
                    e as int,
                    RecV { fresh: false, ..old(self)@.recs[e as int] },
                ));
            }
        }
    }

    /// Drains the edit log, returning the edits in the order they happened;
    /// a host mirroring the nodes replays them.
    pub fn take_log(&mut self) -> (r: Vec<Edit>)
        ensures
            r@ == old(self)@.log,
            final(self)@ == (StoreV { log: Seq::empty(), ..old(self)@ }),
    {
        let mut drained: Vec<Edit> = Vec::new();
        core::mem::swap(&mut self.log, &mut drained);
        proof {
            assert(self@ =~= StoreV { log: Seq::empty(), ..old(self)@ });
        }
        drained
    }

    /// Signals the callback binding `cb` for node `e`; on a dead or absent
    /// node this does nothing.
    pub fn emit_effect(&mut self, cb: u64, e: usize)
        ensures
            final(self)@ == if old(self)@.alive(e as int) {
                old(self)@.with_log(Edit::Effect(cb, e))
            } else {
                old(self)@
            },
    {
        proof {
            lemma_recs_view(self.recs@);
        }
        if e < self.recs.len() && self.recs[e].alive {
            self.log.push(Edit::Effect(cb, e));
            proof {
                assert(self@ =~= old(self)@.with_log(Edit::Effect(cb, e)));
            }
        }
    }
}

/// The store after one dependency probe was recorded at node `e`: the read
/// value's name together with its current version, appended to the tracker.
pub open spec fn record_one(s: StoreV, e: int, id: u64) -> StoreV {
    if s.alive(e) && s.tracker_of(e) is Some {
        s.with_rec(
            e,
            RecV {
                deps: Option::Some(
                    s.tracker_of(e)->Some_0.push(ResRead { id, version: s.res_version(id) }),
                ),
                ..s.recs[e]
            },
        )
    } else {
        s
    }
}

/// The store after a sequence of dependency probes was recorded at node `e`.
pub open spec fn record_all(s: StoreV, e: int, ids: Seq<u64>) -> StoreV
    decreases ids,
{
    if ids.len() == 0 {
        s
    } else {
        record_all(record_one(s, e, ids[0]), e, ids.drop_first())
    }
}

/// Recording probes changes nothing but the tracker of the probed node.
pub proof fn lemma_record_one_frame(s: StoreV, e: int, id: u64)
    ensures
        record_one(s, e, id).res == s.res,
        record_one(s, e, id).log == s.log,
        record_one(s, e, id).recs.len() == s.recs.len(),
        forall|j: int|
            0 <= j < s.recs.len() && j != e ==> #[trigger] record_one(s, e, id).recs[j]
                == s.recs[j],
        forall|j: int| #[trigger] record_one(s, e, id).alive(j) == s.alive(j),
        forall|j: int| #[trigger] record_one(s, e, id).has_text(j) == s.has_text(j),
        forall|j: int| #[trigger] record_one(s, e, id).handle_of(j) == s.handle_of(j),
        forall|j: int| #[trigger] record_one(s, e, id).is_fresh(j) == s.is_fresh(j),
        same_skeleton(s, record_one(s, e, id)),
        forall|id2: u64| #[trigger] record_one(s, e, id).res_version(id2) == s.res_version(id2),
        forall|id2: u64| #[trigger] record_one(s, e, id).res_value(id2) == s.res_value(id2),
{
}

/// Recording a sequence of probes changes nothing but the tracker of the
/// probed node.
pub proof fn lemma_record_all_frame(s: StoreV, e: int, ids: Seq<u64>)
    ensures
        record_all(s, e, ids).res == s.res,
        record_all(s, e, ids).log == s.log,
        record_all(s, e, ids).recs.len() == s.recs.len(),
        forall|j: int|
            0 <= j < s.recs.len() && j != e ==> #[trigger] record_all(s, e, ids).recs[j]
                == s.recs[j],
        forall|j: int| #[trigger] record_all(s, e, ids).alive(j) == s.alive(j),
        forall|j: int| #[trigger] record_all(s, e, ids).has_text(j) == s.has_text(j),
        forall|j: int| #[trigger] record_all(s, e, ids).handle_of(j) == s.handle_of(j),
        forall|j: int| #[trigger] record_all(s, e, ids).is_fresh(j) == s.is_fresh(j),
        same_skeleton(s, record_all(s, e, ids)),
        forall|id2: u64| #[trigger] record_all(s, e, ids).res_version(id2) == s.res_version(id2),
        forall|id2: u64| #[trigger] record_all(s, e, ids).res_value(id2) == s.res_value(id2),
    decreases ids,
{
    if ids.len() > 0 {
        lemma_record_one_frame(s, e, ids[0]);
        lemma_record_all_frame(record_one(s, e, ids[0]), e, ids.drop_first());
        lemma_same_skeleton_trans(
            s,
            record_one(s, e, ids[0]),
            record_all(record_one(s, e, ids[0]), e, ids.drop_first()),
        );
    }
}

/// Recording probes keeps every parent link and tracker attribute.
pub proof fn lemma_record_all_links(s: StoreV, e: int, ids: Seq<u64>)
    ensures
        keeps_links(s, record_all(s, e, ids)),
    decreases ids,
{
    if ids.len() > 0 {
        lemma_record_one_frame(s, e, ids[0]);
        lemma_record_all_links(record_one(s, e, ids[0]), e, ids.drop_first());
        assert forall|e2: int|
            0 <= e2 < s.recs.len() implies (#[trigger] record_all(s, e, ids).recs[e2]).parent
            == s.recs[e2].parent && (s.recs[e2].deps is Some ==> record_all(s, e, ids).recs[
        e2].deps is Some) by {
            assert(record_one(s, e, ids[0]).recs[e2].parent == s.recs[e2].parent);
            assert(s.recs[e2].deps is Some ==> record_one(s, e, ids[0]).recs[e2].deps is Some);
        }
    }
}

/// Recording probes at node `e` leaves every other clean node clean and
/// untouched.
pub proof fn lemma_record_all_clean_except(s: StoreV, e: int, ids: Seq<u64>)
    ensures
        clean_kept_except(s, record_all(s, e, ids), e),
        keeps_links(s, record_all(s, e, ids)),
{
    lemma_record_all_links(s, e, ids);
    lemma_record_all_frame(s, e, ids);
    let s2 = record_all(s, e, ids);
    assert forall|e2: int|
        0 <= e2 < s.recs.len() && e2 != e && !(#[trigger] s.dirty(e2)) implies !s2.dirty(e2) && (
    s2.alive(e2) ==> s2.handle_of(e2) == s.handle_of(e2) && s2.tracker_of(e2) == s.tracker_of(
        e2,
    )) by {
        assert(s2.recs[e2] == s.recs[e2]);
        assert(s2.alive(e2) == s.alive(e2));
        assert forall|id2: u64| #[trigger] s2.res_version(id2) == s.res_version(id2) by {}
    }
}

/// Recording a concatenation of probes is recording the two parts in turn.
pub proof fn lemma_record_all_concat(s: StoreV, e: int, a: Seq<u64>, b: Seq<u64>)
    ensures
        record_all(s, e, a + b) == record_all(record_all(s, e, a), e, b),
    decreases a,
{
    if a.len() == 0 {
        assert(a + b =~= b);
    } else {
        assert((a + b)[0] == a[0]);
        assert((a + b).drop_first() =~= a.drop_first() + b);
        lemma_record_all_concat(record_one(s, e, a[0]), e, a.drop_first(), b);
    }
}

/// Two shared-value sequences with the same names in the same slots are
/// searched alike.
pub proof fn lemma_find_res_same_ids(res1: Seq<ResV>, res2: Seq<ResV>, id: u64, from: int)
    requires
        res1.len() == res2.len(),
        forall|i: int| 0 <= i < res1.len() ==> res1[i].id == res2[i].id,
    ensures
        find_res_from(res1, id, from) == find_res_from(res2, id, from),
    decreases res1.len() - from,
{
    if 0 <= from < res1.len() {
        if res1[from].id != id {
            lemma_find_res_same_ids(res1, res2, id, from + 1);
        }
    }
}

/// Searching after a push finds the old position when one existed, else the
/// pushed entry when its name matches.
pub proof fn lemma_find_res_push(res: Seq<ResV>, entry: ResV, id: u64, from: int)
    requires
        0 <= from <= res.len(),
    ensures
        find_res_from(res.push(entry), id, from) == if find_res_from(res, id, from) >= 0 {
            find_res_from(res, id, from)
        } else if entry.id == id {
            res.len() as int
        } else {
            -1
        },
    decreases res.len() - from,
{
    let pushed = res.push(entry);
    if from < res.len() {
        assert(pushed[from] == res[from]);
        if res[from].id != id {
            lemma_find_res_push(res, entry, id, from + 1);
        }
    } else {
        assert(find_res_from(res, id, from) == -1);
        assert(pushed[from] == entry);
        if entry.id != id {
            assert(find_res_from(pushed, id, from + 1) == -1);
        }
    }
}

/// A successful search lands in range, at an entry with the searched name,
/// and at or after the starting position.
pub proof fn lemma_find_res_props(res: Seq<ResV>, id: u64, from: int)
    requires
        find_res_from(res, id, from) >= 0,
    ensures
        from <= find_res_from(res, id, from) < res.len(),
        res[find_res_from(res, id, from)].id == id,
    decreases res.len() - from,
{
    if 0 <= from < res.len() {
        if res[from].id != id {
            lemma_find_res_props(res, id, from + 1);
        }
    }
}

/// Detaching the holder of node `e` and reattaching the same holder restores
/// the store exactly: the take-then-put-back protocol itself introduces no
/// observable state loss.
pub proof fn lemma_detach_reattach(s: StoreV, e: int, st: StateV)
    requires
        s.handle_of(e) == Option::Some(Option::Some(st)),
    ensures
        s.with_handle(e, Option::Some(Option::None)).with_handle(
            e,
            Option::Some(Option::Some(st)),
        ) == s,
{
    let s1 = s.with_handle(e, Option::Some(Option::None));
    let s2 = s1.with_handle(e, Option::Some(Option::Some(st)));
    assert(s1.recs[e] == RecV { handle: Option::Some(Option::None), ..s.recs[e] });
    assert(s2.recs[e] == RecV { handle: Option::Some(Option::Some(st)), ..s1.recs[e] });
    assert(s2.recs[e] =~= s.recs[e]);
    assert(s2.recs =~= s.recs);
    assert(s2 =~= s);
}

/// No node that was dead in the earlier store is alive in the later one:
/// despawned slots are never brought back.
pub open spec fn no_revive(s1: StoreV, s2: StoreV) -> bool {
    forall|e: int| 0 <= e < s1.recs.len() && !s1.alive(e) ==> !(#[trigger] s2.alive(e))
}

/// Every node id the shape lists is dead in the store.
pub open spec fn span_dead(sp: SpanV, s: StoreV) -> bool {
    forall|k: int| 0 <= k < sp.flat().len() ==> !s.alive(#[trigger] sp.flat()[k] as int)
}

/// Every node id the shape lists, other than `m`, is dead in the store.
pub open spec fn span_dead_except(sp: SpanV, s: StoreV, m: usize) -> bool {
    forall|k: int|
        0 <= k < sp.flat().len() && (#[trigger] sp.flat()[k]) != m ==> !s.alive(
            sp.flat()[k] as int,
        )
}

/// Every live node id the shape lists carries an attribute of kind `kind`.
pub open spec fn span_attr(sp: SpanV, kind: u64, s: StoreV) -> bool {
    forall|k: int|
        0 <= k < sp.flat().len() && s.alive(#[trigger] sp.flat()[k] as int) ==> s.has_attr(
            sp.flat()[k] as int,
            kind,
        )
}

/// Every live node id the shape lists has every style in `ks` applied.
pub open spec fn span_styles(sp: SpanV, ks: Seq<u64>, s: StoreV) -> bool {
    forall|k: int, j: int|
        0 <= k < sp.flat().len() && 0 <= j < ks.len() && s.alive(
            #[trigger] sp.flat()[k] as int,
        ) ==> s.has_style(sp.flat()[k] as int, #[trigger] ks[j])
}

/// For every live node id the shape lists, the edits `d` signal the callback
/// binding `cb`.
pub open spec fn span_effects(sp: SpanV, cb: u64, s: StoreV, d: Seq<Edit>) -> bool {
    forall|k: int|
        0 <= k < sp.flat().len() && s.alive(#[trigger] sp.flat()[k] as int) ==> d.contains(
            Edit::Effect(cb, sp.flat()[k]),
        )
}

/// The two stores have the same node slots, and each node keeps its
/// liveness, its text attribute and its holder slot; only attributes,
/// styles, trackers and markers may differ.
pub open spec fn same_skeleton(s1: StoreV, s2: StoreV) -> bool {
    &&& s2.recs.len() == s1.recs.len()
    &&& forall|e: int|
        0 <= e < s1.recs.len() ==> (#[trigger] s2.recs[e]).alive == s1.recs[e].alive
            && s2.recs[e].text == s1.recs[e].text && s2.recs[e].handle == s1.recs[e].handle
}

/// `same_skeleton` composes.
pub proof fn lemma_same_skeleton_trans(s1: StoreV, s2: StoreV, s3: StoreV)
    requires
        same_skeleton(s1, s2),
        same_skeleton(s2, s3),
    ensures
        same_skeleton(s1, s3),
{
}

/// Every attribute present in the earlier store is present in the later one.
pub open spec fn keeps_attrs(s1: StoreV, s2: StoreV) -> bool {
    forall|e: int, k: u64| #[trigger] s1.has_attr(e, k) ==> s2.has_attr(e, k)
}

/// Every style applied in the earlier store is applied in the later one.
pub open spec fn keeps_styles(s1: StoreV, s2: StoreV) -> bool {
    forall|e: int, k: u64| #[trigger] s1.has_style(e, k) ==> s2.has_style(e, k)
}

/// `no_revive` composes.
pub proof fn lemma_no_revive_trans(s1: StoreV, s2: StoreV, s3: StoreV)
    requires
        no_revive(s1, s2),
        no_revive(s2, s3),
        s1.recs.len() <= s2.recs.len(),
    ensures
        no_revive(s1, s3),
{
}

/// No node that had already been built in the earlier store carries the
/// never-built marker in the later one: builds clear the marker and nothing
/// sets it on an existing node.
pub open spec fn no_refresh(s1: StoreV, s2: StoreV) -> bool {
    forall|e: int| 0 <= e < s1.recs.len() && !s1.is_fresh(e) ==> !(#[trigger] s2.is_fresh(e))
}

/// Every clean node — one that needs no rebuild — is left alone: it stays
/// clean, and while it lives it keeps its holder slot and its dependency
/// tracker exactly.
pub open spec fn clean_kept(s1: StoreV, s2: StoreV) -> bool {
    forall|e: int|
        0 <= e < s1.recs.len() && !(#[trigger] s1.dirty(e)) ==> !s2.dirty(e) && (s2.alive(e)
            ==> s2.handle_of(e) == s1.handle_of(e) && s2.tracker_of(e) == s1.tracker_of(e))
}

/// `clean_kept` composes when nothing is revived in between.
pub proof fn lemma_clean_kept_trans(s1: StoreV, s2: StoreV, s3: StoreV)
    requires
        clean_kept(s1, s2),
        clean_kept(s2, s3),
        keeps_links(s1, s2),
        keeps_links(s2, s3),
        no_revive(s2, s3),
        s1.recs.len() <= s2.recs.len(),
    ensures
        clean_kept(s1, s3),
        keeps_links(s1, s3),
{
    assert forall|e: int|
        0 <= e < s1.recs.len() && !(#[trigger] s1.dirty(e)) implies !s3.dirty(e) && (s3.alive(e)
            ==> s3.handle_of(e) == s1.handle_of(e) && s3.tracker_of(e) == s1.tracker_of(
            e,
        )) by {
        assert(!s2.dirty(e));
        if s3.alive(e) {
            assert(s2.alive(e));
        }
    }
}

/// A step that only kills nodes, or leaves each record alone, keeps every
/// clean node clean and untouched while it lives.
pub proof fn lemma_killed_clean(s1: StoreV, s2: StoreV)
    requires
        s2.recs.len() == s1.recs.len(),
        s2.res == s1.res,
        forall|e: int|
            0 <= e < s1.recs.len() ==> (#[trigger] s2.recs[e]) == s1.recs[e] || s2.recs[e]
                == (RecV { alive: false, ..s1.recs[e] }),
    ensures
        clean_kept(s1, s2),
        keeps_links(s1, s2),
{
    assert forall|e: int|
        0 <= e < s1.recs.len() && !(#[trigger] s1.dirty(e)) implies !s2.dirty(e) && (s2.alive(e)
            ==> s2.handle_of(e) == s1.handle_of(e) && s2.tracker_of(e) == s1.tracker_of(
            e,
        )) by {
        if s2.recs[e] == s1.recs[e] {
            assert(s2.alive(e) == s1.alive(e));
        } else {
            assert(!s2.alive(e));
        }
    }
}

/// A step that appends a fresh record keeps every existing clean node clean
/// and untouched.
pub proof fn lemma_push_clean(s1: StoreV, s2: StoreV, r: RecV)
    requires
        s2.recs == s1.recs.push(r),
        s2.res == s1.res,
    ensures
        clean_kept(s1, s2),
        keeps_links(s1, s2),
{
    assert forall|e: int|
        0 <= e < s1.recs.len() && !(#[trigger] s1.dirty(e)) implies !s2.dirty(e) && (s2.alive(e)
            ==> s2.handle_of(e) == s1.handle_of(e) && s2.tracker_of(e) == s1.tracker_of(
            e,
        )) by {
        assert(s2.recs[e] == s1.recs[e]);
        assert(s2.alive(e) == s1.alive(e));
    }
    assert forall|e: int|
        0 <= e < s1.recs.len() implies (#[trigger] s2.recs[e]).parent == s1.recs[e].parent && (
    s1.recs[e].deps is Some ==> s2.recs[e].deps is Some) by {
        assert(s2.recs[e] == s1.recs[e]);
    }
}

/// Replacing one record without touching its tracker or holder, and without
/// marking it never-built, keeps every clean node clean and untouched.
pub proof fn lemma_with_rec_clean(s: StoreV, e: int, r2: RecV)
    requires
        0 <= e < s.recs.len(),
        r2.alive == s.recs[e].alive,
        r2.deps == s.recs[e].deps,
        r2.handle == s.recs[e].handle,
        r2.parent == s.recs[e].parent,
        r2.fresh == s.recs[e].fresh || !r2.fresh,
    ensures
        clean_kept(s, s.with_rec(e, r2)),
        keeps_links(s, s.with_rec(e, r2)),
{
    let s2 = s.with_rec(e, r2);
    assert forall|e2: int|
        0 <= e2 < s.recs.len() && !(#[trigger] s.dirty(e2)) implies !s2.dirty(e2) && (s2.alive(e2)
            ==> s2.handle_of(e2) == s.handle_of(e2) && s2.tracker_of(e2) == s.tracker_of(
            e2,
        )) by {
        if e2 != e {
            assert(s2.recs[e2] == s.recs[e2]);
        }
        assert(s2.alive(e2) == s.alive(e2));
    }
}

/// A record replacement touching only the node's own dirty slot, plus any
/// logging, keeps every clean node other than that one clean and untouched.
pub proof fn lemma_with_log_clean(s: StoreV, ed: Edit)
    ensures
        clean_kept(s, s.with_log(ed)),
        keeps_links(s, s.with_log(ed)),
{
}

/// Every node keeps its parent link, and a node that carries a dependency
/// tracker keeps one: nothing ever reparents a node or strips its tracker.
pub open spec fn keeps_links(s1: StoreV, s2: StoreV) -> bool {
    forall|e: int|
        0 <= e < s1.recs.len() ==> (#[trigger] s2.recs[e]).parent == s1.recs[e].parent && (
        s1.recs[e].deps is Some ==> s2.recs[e].deps is Some)
}

/// `keeps_links` composes.
pub proof fn lemma_keeps_links_trans(s1: StoreV, s2: StoreV, s3: StoreV)
    requires
        keeps_links(s1, s2),
        keeps_links(s2, s3),
        s1.recs.len() <= s2.recs.len(),
    ensures
        keeps_links(s1, s3),
{
}

/// Like `clean_kept`, but says nothing about node `x`: the one node whose
/// own rebuild is in progress.
pub open spec fn clean_kept_except(s1: StoreV, s2: StoreV, x: int) -> bool {
    forall|e: int|
        0 <= e < s1.recs.len() && e != x && !(#[trigger] s1.dirty(e)) ==> !s2.dirty(e) && (
        s2.alive(e) ==> s2.handle_of(e) == s1.handle_of(e) && s2.tracker_of(e) == s1.tracker_of(
            e,
        ))
}

/// Keeping every clean node keeps every clean node but one.
pub proof fn lemma_clean_kept_to_except(s1: StoreV, s2: StoreV, x: int)
    requires
        clean_kept(s1, s2),
    ensures
        clean_kept_except(s1, s2, x),
{
}

/// `clean_kept_except` composes when nothing is revived in between.
pub proof fn lemma_clean_kept_except_trans(s1: StoreV, s2: StoreV, s3: StoreV, x: int)
    requires
        clean_kept_except(s1, s2, x),
        clean_kept_except(s2, s3, x),
        keeps_links(s1, s2),
        keeps_links(s2, s3),
        no_revive(s2, s3),
        s1.recs.len() <= s2.recs.len(),
    ensures
        clean_kept_except(s1, s3, x),
        keeps_links(s1, s3),
{
    assert forall|e: int|
        0 <= e < s1.recs.len() && e != x && !(#[trigger] s1.dirty(e)) implies !s3.dirty(e) && (
    s3.alive(e) ==> s3.handle_of(e) == s1.handle_of(e) && s3.tracker_of(e) == s1.tracker_of(
        e,
    )) by {
        assert(!s2.dirty(e));
        if s3.alive(e) {
            assert(s2.alive(e));
        }
    }
}

/// Replacing one record leaves every other clean node clean and untouched.
pub proof fn lemma_with_rec_clean_except(s: StoreV, e: int, r2: RecV)
    requires
        0 <= e < s.recs.len(),
        r2.parent == s.recs[e].parent,
        s.recs[e].deps is Some ==> r2.deps is Some,
    ensures
        clean_kept_except(s, s.with_rec(e, r2), e),
        keeps_links(s, s.with_rec(e, r2)),
{
    let s2 = s.with_rec(e, r2);
    assert forall|e2: int|
        0 <= e2 < s.recs.len() && e2 != e && !(#[trigger] s.dirty(e2)) implies !s2.dirty(e2) && (
    s2.alive(e2) ==> s2.handle_of(e2) == s.handle_of(e2) && s2.tracker_of(e2) == s.tracker_of(
        e2,
    )) by {
        assert(s2.recs[e2] == s.recs[e2]);
        assert(s2.alive(e2) == s.alive(e2));
    }
}

/// `no_refresh` composes.
pub proof fn lemma_no_refresh_trans(s1: StoreV, s2: StoreV, s3: StoreV)
    requires
        no_refresh(s1, s2),
        no_refresh(s2, s3),
        s1.recs.len() <= s2.recs.len(),
    ensures
        no_refresh(s1, s3),
{
}

/// Pushing one attribute kind onto a record keeps every present attribute
/// and makes the pushed kind present on that node while it is alive.
pub proof fn lemma_attr_push_keeps(s1: StoreV, s2: StoreV, e: int, k: u64)
    requires
        0 <= e < s1.recs.len(),
        s2.recs == s1.recs.update(
            e,
            (RecV { attrs: s1.recs[e].attrs.push(k), ..s1.recs[e] }),
        ),
    ensures
        keeps_attrs(s1, s2),
        s1.alive(e) ==> s2.has_attr(e, k),
{
    assert forall|e2: int, k2: u64| #[trigger] s1.has_attr(e2, k2) implies s2.has_attr(
        e2,
        k2,
    ) by {
        if e2 == e {
            let w = choose|w: int|
                0 <= w < s1.recs[e].attrs.len() && s1.recs[e].attrs[w] == k2;
            assert(s2.recs[e].attrs[w] == k2);
        }
    }
    if s1.alive(e) {
        assert(s2.recs[e].attrs[s1.recs[e].attrs.len() as int] == k);
    }
}

/// Pushing one style kind onto a record keeps every applied style and makes
/// the pushed kind applied on that node while it is alive.
pub proof fn lemma_style_push_keeps(s1: StoreV, s2: StoreV, e: int, k: u64)
    requires
        0 <= e < s1.recs.len(),
        s2.recs == s1.recs.update(
            e,
            (RecV { styles: s1.recs[e].styles.push(k), ..s1.recs[e] }),
        ),
    ensures
        keeps_styles(s1, s2),
        s1.alive(e) ==> s2.has_style(e, k),
{
    assert forall|e2: int, k2: u64| #[trigger] s1.has_style(e2, k2) implies s2.has_style(
        e2,
        k2,
    ) by {
        if e2 == e {
            let w = choose|w: int|
                0 <= w < s1.recs[e].styles.len() && s1.recs[e].styles[w] == k2;
            assert(s2.recs[e].styles[w] == k2);
        }
    }
    if s1.alive(e) {
        assert(s2.recs[e].styles[s1.recs[e].styles.len() as int] == k);
    }
}

/// Two shape-edit-free edit runs concatenate to a shape-edit-free run.
pub proof fn lemma_shape_free_concat(a: Seq<Edit>, b: Seq<Edit>)
    requires
        shape_edit_free(a),
        shape_edit_free(b),
    ensures
        shape_edit_free(a + b),
{
    assert forall|i: int| 0 <= i < (a + b).len() implies !((#[trigger] (a + b)[i]) is Spawn) && !((
    a + b)[i] is Despawn) by {
        if i < a.len() {
            assert((a + b)[i] == a[i]);
        } else {
            assert((a + b)[i] == b[i - a.len()]);
        }
    }
}

/// An element of the second part is an element of the concatenation.
pub proof fn lemma_contains_concat_r(a: Seq<Edit>, b: Seq<Edit>, x: Edit)
    requires
        b.contains(x),
    ensures
        (a + b).contains(x),
{
    let k = choose|k: int| 0 <= k < b.len() && b[k] == x;
    assert((a + b)[a.len() + k] == x);
}

/// An element of a prefix is an element of the whole.
pub proof fn lemma_contains_prefix(d1: Seq<Edit>, d2: Seq<Edit>, x: Edit)
    requires
        d1.is_prefix_of(d2),
        d1.contains(x),
    ensures
        d2.contains(x),
{
    let k = choose|k: int| 0 <= k < d1.len() && d1[k] == x;
    assert(d2[k] == x);
}

/// Replacing a record without touching its liveness or its text leaves the
/// store extended, revives nothing, and keeps every live text.
pub proof fn lemma_with_rec_frame(s: StoreV, e: int, r2: RecV)
    requires
        0 <= e < s.recs.len(),
        r2.alive == s.recs[e].alive,
        s.recs[e].text is Some ==> r2.text is Some,
        r2.fresh == s.recs[e].fresh || !r2.fresh,
    ensures
        extends(s, s.with_rec(e, r2)),
        no_revive(s, s.with_rec(e, r2)),
        no_refresh(s, s.with_rec(e, r2)),
        retains(s, s.with_rec(e, r2)),
        shape_edit_free(delta(s, s.with_rec(e, r2))),
        s.with_rec(e, r2).recs.len() == s.recs.len(),
        forall|e2: int| #[trigger] s.with_rec(e, r2).alive(e2) == s.alive(e2),
        r2.text == s.recs[e].text && r2.handle == s.recs[e].handle ==> same_skeleton(
            s,
            s.with_rec(e, r2),
        ),
    {
    assert(s.log =~= s.with_rec(e, r2).log.take(s.log.len() as int));
    assert(delta(s, s.with_rec(e, r2)) =~= Seq::<Edit>::empty());
}

/// Appending an edit leaves the nodes untouched: the store is extended,
/// nothing is revived, and the delta holds just that edit.
pub proof fn lemma_with_log_frame(s: StoreV, ed: Edit)
    ensures
        extends(s, s.with_log(ed)),
        no_revive(s, s.with_log(ed)),
        no_refresh(s, s.with_log(ed)),
        same_skeleton(s, s.with_log(ed)),
        retains(s, s.with_log(ed)),
        delta(s, s.with_log(ed)) =~= seq![ed],
        forall|e2: int| #[trigger] s.with_log(ed).alive(e2) == s.alive(e2),
{
    assert(s.log =~= s.with_log(ed).log.take(s.log.len() as int));
}

/// A store extends itself with an empty delta.
pub proof fn lemma_extends_refl(s: StoreV)
    ensures
        extends(s, s),
        no_revive(s, s),
        no_refresh(s, s),
        same_skeleton(s, s),
        clean_kept(s, s),
        keeps_links(s, s),
        retains(s, s),
        delta(s, s) =~= Seq::<Edit>::empty(),
{
    assert(s.log =~= s.log.take(s.log.len() as int));
}

/// The probes a fresh build records: each read value's name with the version
/// it has in the store right now.
pub open spec fn recorded(ids: Seq<u64>, s: StoreV) -> Seq<ResRead> {
    Seq::new(ids.len(), |k: int| ResRead { id: ids[k], version: s.res_version(ids[k]) })
}

/// Recording a run of reads appends exactly the recorded probes to the
/// tracker of the probed node: after a rebuild, the node's tracker holds the
/// names it read, each with the version current at the read.
pub proof fn lemma_record_all_tracker(s: StoreV, e: int, ids: Seq<u64>)
    requires
        s.alive(e),
        s.tracker_of(e) is Some,
    ensures
        record_all(s, e, ids).tracker_of(e) == Option::Some(
            s.tracker_of(e)->Some_0 + recorded(ids, s),
        ),
    decreases ids,
{
    let tr = s.tracker_of(e)->Some_0;
    if ids.len() == 0 {
        assert(tr + recorded(ids, s) =~= tr);
    } else {
        let s1 = record_one(s, e, ids[0]);
        let r0 = ResRead { id: ids[0], version: s.res_version(ids[0]) };
        assert(s1.tracker_of(e) == Option::Some(tr.push(r0)));
        lemma_record_one_frame(s, e, ids[0]);
        lemma_record_all_tracker(s1, e, ids.drop_first());
        assert(recorded(ids.drop_first(), s1) =~= recorded(ids.drop_first(), s));
        assert(tr.push(r0) + recorded(ids.drop_first(), s) =~= tr + recorded(ids, s));
    }
}

/// Probes recorded against a store are clean in that store: a subtree that
/// just rebuilt is not dirty again until a value it read changes.
pub proof fn lemma_recorded_clean(ids: Seq<u64>, s: StoreV)
    ensures
        s.tracker_clean(recorded(ids, s)),
{
}

/// After a tracked shared value is written, a tracker that recorded it is no
/// longer clean: the subtree that read the value becomes dirty.
pub proof fn lemma_bump_makes_dirty(entries: Seq<ResRead>, k: int, s1: StoreV, s2: StoreV, id: u64)
    requires
        0 <= k < entries.len(),
        entries[k].id == id,
        entries[k].version == s1.res_version(id),
        s2.res_version(id) == s1.res_version(id) + 1,
    ensures
        !s2.tracker_clean(entries),
{
    assert(entries[k].version != s2.res_version(entries[k].id));
}

impl NodeSpan {
    /// Despawns every node this shape lists; nodes not listed are untouched,
    /// and dead or absent ids are skipped.
    pub fn despawn_recursive(&self, store: &mut Store)
        ensures
            extends(old(store)@, final(store)@),
            no_revive(old(store)@, final(store)@),
            no_refresh(old(store)@, final(store)@),
            clean_kept(old(store)@, final(store)@),
            keeps_links(old(store)@, final(store)@),
            final(store)@.recs.len() == old(store)@.recs.len(),
            final(store)@.res == old(store)@.res,
            span_dead(self@, final(store)@),
            forall|e: int|
                0 <= e < old(store)@.recs.len() && !self@.flat().contains(e as usize)
                    ==> #[trigger] final(store)@.recs[e] == old(store)@.recs[e],
            forall|e: int|
                0 <= e < old(store)@.recs.len() ==> #[trigger] final(store)@.recs[e] == old(
                    store,
                )@.recs[e] || final(store)@.recs[e] == (RecV {
                    alive: false,
                    ..old(store)@.recs[e]
                }),
    {
        let mut ids: Vec<usize> = Vec::new();
        self.flatten(&mut ids);
        proof {
            lemma_extends_refl(old(store)@);
        }
        let n = ids.len();
        let ghost s0 = store@;
        for i in 0..n
            invariant
                n == ids@.len(),
                ids@ == self@.flat(),
                s0 == old(store)@,
                extends(s0, store@),
                no_revive(s0, store@),
                no_refresh(s0, store@),
                clean_kept(s0, store@),
                keeps_links(s0, store@),
                store@.recs.len() == s0.recs.len(),
                store@.res == s0.res,
                forall|k: int| 0 <= k < i ==> !store@.alive(#[trigger] ids@[k] as int),
                forall|e: int|
                    0 <= e < s0.recs.len() && !ids@.contains(e as usize)
                        ==> #[trigger] store@.recs[e] == s0.recs[e],
                forall|e: int|
                    0 <= e < s0.recs.len() ==> #[trigger] store@.recs[e] == s0.recs[e]
                        || store@.recs[e] == (RecV { alive: false, ..s0.recs[e] }),
            decreases n - i,
        {
            let ghost pre = store@;
            let id = ids[i];
            store.despawn(id);
            proof {
                if pre.alive(id as int) {
                    lemma_with_log_frame(
                        pre.with_rec(id as int, RecV { alive: false, ..pre.recs[id as int] }),
                        Edit::Despawn(id),
                    );
                    assert(pre.log =~= store@.log.take(pre.log.len() as int));
                    assert(s0.log =~= store@.log.take(s0.log.len() as int));
                    assert(ids@.contains(ids@[i as int]));
                }
                assert forall|k: int| 0 <= k < i + 1 implies !store@.alive(
                    #[trigger] ids@[k] as int,
                ) by {
                    if k < i {
                        assert(!pre.alive(ids@[k] as int));
                    }
                }
                lemma_killed_clean(s0, store@);
            }
        }
    }
}

} // verus!
