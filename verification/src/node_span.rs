//! The output shape of a rendered view: nothing, a single node, or an
//! ordered fragment of nested shapes.

use vstd::prelude::*;

verus! {

/// The mathematical value of a [`NodeSpan`]: the same shape, with fragments
/// as sequences.
#[verifier::ext_equal]
pub enum SpanV {
    Empty,
    Node(usize),
    Fragment(Seq<SpanV>),
}

/// The node ids of a sequence of shapes, concatenated in order.
pub open spec fn flat_all(spans: Seq<SpanV>) -> Seq<usize>
    decreases spans,
{
    if spans.len() == 0 {
        Seq::empty()
    } else {
        flat_all(spans.drop_last()) + spans.last().flat()
    }
}

/// The total leaf count of a sequence of shapes.
pub open spec fn count_all(spans: Seq<SpanV>) -> nat
    decreases spans,
{
    if spans.len() == 0 {
        0
    } else {
        count_all(spans.drop_last()) + spans.last().count()
    }
}

impl SpanV {
    /// The node ids held by this shape, leaves in depth-first order.
    pub open spec fn flat(self) -> Seq<usize>
        decreases self,
    {
        match self {
            SpanV::Empty => Seq::empty(),
            SpanV::Node(id) => seq![id],
            SpanV::Fragment(spans) => flat_all(spans),
        }
    }

    /// The total leaf count of this shape, by structural recursion.
    pub open spec fn count(self) -> nat
        decreases self,
    {
        match self {
            SpanV::Empty => 0,
            SpanV::Node(_) => 1,
            SpanV::Fragment(spans) => count_all(spans),
        }
    }
}

/// One step of flattening: the ids of a prefix one longer are the ids of the
/// shorter prefix followed by the ids of the next shape.
pub proof fn lemma_flat_all_take_step(spans: Seq<SpanV>, i: int)
    requires
        0 <= i < spans.len(),
    ensures
        flat_all(spans.take(i + 1)) == flat_all(spans.take(i)) + spans[i].flat(),
{
    let pre = spans.take(i + 1);
    assert(pre.drop_last() =~= spans.take(i));
    assert(pre.last() == spans[i]);
}

/// For every shape `s`, the flattened id list has exactly as many entries as
/// the shape counts leaves: `s.flat().len() == s.count()`.
pub proof fn lemma_flatten_len_is_count(s: SpanV)
    ensures
        s.flat().len() == s.count(),
    decreases s,
{
    match s {
        SpanV::Empty => {}
        SpanV::Node(_) => {}
        SpanV::Fragment(spans) => {
            lemma_flat_all_len(spans);
        }
    }
}

proof fn lemma_flat_all_len(spans: Seq<SpanV>)
    ensures
        flat_all(spans).len() == count_all(spans),
    decreases spans,
{
    if spans.len() > 0 {
        lemma_flat_all_len(spans.drop_last());
        lemma_flatten_len_is_count(spans.last());
    }
}

/// Output of a rendered node, which may be a single node or a fragment
/// (multiple nodes). This gets flattened before attaching to the parent node.
#[derive(Debug)]
pub enum NodeSpan {
    /// Nothing was rendered. This can represent either an initial state
    /// before the first render, or a conditional render operation.
    Empty,
    /// The render produced a single node, identified by its id in the store.
    Node(usize),
    /// The render produced a fragment: an ordered list of spans.
    Fragment(Vec<NodeSpan>),
}

/// The values of a sequence of spans, in order.
pub open spec fn views_of(spans: Seq<NodeSpan>) -> Seq<SpanV>
    decreases spans,
{
    if spans.len() == 0 {
        Seq::empty()
    } else {
        views_of(spans.drop_last()).push(spans.last()@)
    }
}

/// `views_of` maps each span to its value, keeping length and order.
pub proof fn lemma_views_of(spans: Seq<NodeSpan>)
    ensures
        views_of(spans).len() == spans.len(),
        forall|i: int| 0 <= i < spans.len() ==> views_of(spans)[i] == spans[i]@,
    decreases spans,
{
    if spans.len() > 0 {
        let pre = spans.drop_last();
        lemma_views_of(pre);
        assert(views_of(spans) == views_of(pre).push(spans.last()@));
        assert forall|i: int| 0 <= i < spans.len() implies views_of(spans)[i] == spans[i]@ by {
            if i < spans.len() - 1 {
                assert(views_of(spans)[i] == views_of(pre)[i]);
                assert(pre[i] == spans[i]);
            } else {
                assert(i == spans.len() - 1);
                assert(views_of(spans)[i] == spans.last()@);
            }
        }
    }
}

/// Pushing a span onto a sequence pushes its value onto the value sequence.
pub proof fn lemma_views_of_push(spans: Seq<NodeSpan>, sp: NodeSpan)
    ensures
        views_of(spans.push(sp)) == views_of(spans).push(sp@),
{
    lemma_views_of(spans);
    lemma_views_of(spans.push(sp));
    assert(views_of(spans.push(sp)) =~= views_of(spans).push(sp@));
}

impl vstd::view::View for NodeSpan {
    type V = SpanV;

    open spec fn view(&self) -> SpanV
        decreases self,
    {
        match self {
            NodeSpan::Empty => SpanV::Empty,
            NodeSpan::Node(id) => SpanV::Node(*id),
            NodeSpan::Fragment(spans) => SpanV::Fragment(views_of(spans@)),
        }
    }
}

/// A fragment is structurally larger than each of its members; used to show
/// that recursion over a span's members terminates.
proof fn lemma_fragment_member_decreases(whole: NodeSpan, i: int)
    requires
        whole is Fragment,
        0 <= i < whole->Fragment_0@.len(),
    ensures
        decreases_to!(whole => whole->Fragment_0@[i]),
{
    let members = whole->Fragment_0;
    assert(decreases_to!(whole => members));
    assert(decreases_to!(members => members@));
    assert(decreases_to!(members@ => members@[i]));
}

impl NodeSpan {
    /// Flattens the node ids into a vector, appending them to `out` in
    /// depth-first order.
    pub fn flatten(&self, out: &mut Vec<usize>)
        ensures
            final(out)@ == old(out)@ + self@.flat(),
        decreases *self,
    {
        match self {
            NodeSpan::Empty => {
                assert(out@ =~= out@ + self@.flat());
            }
            NodeSpan::Node(id) => {
                out.push(*id);
                assert(out@ =~= old(out)@ + self@.flat());
            }
            NodeSpan::Fragment(spans) => {
                let ghost views = views_of(spans@);
                proof {
                    lemma_views_of(spans@);
                }
                let ghost base = out@;
                let n = spans.len();
                for i in 0..n
                    invariant
                        *self == NodeSpan::Fragment(*spans),
                        n == spans@.len(),
                        views == views_of(spans@),
                        views.len() == n,
                        forall|j: int| 0 <= j < n ==> views[j] == spans@[j]@,
                        out@ == base + flat_all(views.take(i as int)),
                    decreases n - i,
                {
                    proof {
                        lemma_flat_all_take_step(views, i as int);
                        lemma_fragment_member_decreases(*self, i as int);
                    }
                    spans[i].flatten(out);
                }
                proof {
                    assert(views.take(n as int) =~= views);
                    assert(self@ == SpanV::Fragment(views));
                }
            }
        }
    }

    /// Returns the number of node ids in the rendered output, which always
    /// agrees with the length of the flattened list.
    pub fn count(&self) -> (n: usize)
        ensures
            n == self@.flat().len(),
            n == self@.count(),
    {
        proof {
            lemma_flatten_len_is_count(self@);
        }
        let mut ids: Vec<usize> = Vec::new();
        self.flatten(&mut ids);
        proof {
            assert(ids@ =~= self@.flat());
        }
        ids.len()
    }
}

impl PartialEq for NodeSpan {
    /// Structural equality: fragments are equal iff they have the same length
    /// and pairwise-equal children.
    fn eq(&self, other: &Self) -> (r: bool)
        decreases *self,
    {
        match (self, other) {
            (NodeSpan::Empty, NodeSpan::Empty) => true,
            (NodeSpan::Node(l0), NodeSpan::Node(r0)) => l0 == r0,
            (NodeSpan::Fragment(l0), NodeSpan::Fragment(r0)) => {
                let ghost lv = views_of(l0@);
                let ghost rv = views_of(r0@);
                proof {
                    lemma_views_of(l0@);
                    lemma_views_of(r0@);
                    assert(self@ == SpanV::Fragment(lv));
                    assert(other@ == SpanV::Fragment(rv));
                }
                if l0.len() != r0.len() {
                    return false;
                }
                let n = l0.len();
                for i in 0..n
                    invariant
                        *self == NodeSpan::Fragment(*l0),
                        *other == NodeSpan::Fragment(*r0),
                        n == l0@.len(),
                        n == r0@.len(),
                        lv == views_of(l0@),
                        rv == views_of(r0@),
                        lv.len() == n,
                        rv.len() == n,
                        forall|j: int| 0 <= j < n ==> lv[j] == l0@[j]@,
                        forall|j: int| 0 <= j < n ==> rv[j] == r0@[j]@,
                        forall|j: int| 0 <= j < i ==> lv[j] == rv[j],
                    decreases n - i,
                {
                    proof {
                        lemma_fragment_member_decreases(*self, i as int);
                    }
                    if !(l0[i] == r0[i]) {
                        proof {
                            assert(lv[i as int] != rv[i as int]);
                            assert(self@ == SpanV::Fragment(lv));
                            assert(other@ == SpanV::Fragment(rv));
                            assert(self@ != other@);
                        }
                        return false;
                    }
                }
                proof {
                    assert(lv =~= rv);
                }
                true
            }
            _ => false,
        }
    }
}

impl Eq for NodeSpan {}

impl vstd::std_specs::cmp::PartialEqSpecImpl for NodeSpan {
    open spec fn obeys_eq_spec() -> bool {
        true
    }

    open spec fn eq_spec(&self, other: &Self) -> bool {
        self@ == other@
    }
}

impl Default for NodeSpan {
    /// Before the first render, nothing was rendered.
    fn default() -> (r: Self)
        ensures
            r@ == SpanV::Empty,
    {
        NodeSpan::Empty
    }
}

impl Clone for NodeSpan {
    /// A deep copy whose value equals the original's.
    fn clone(&self) -> (r: Self)
        ensures
            r@ == self@,
        decreases *self,
    {
        match self {
            NodeSpan::Empty => NodeSpan::Empty,
            NodeSpan::Node(id) => NodeSpan::Node(*id),
            NodeSpan::Fragment(spans) => {
                let ghost views = views_of(spans@);
                proof {
                    lemma_views_of(spans@);
                }
                let n = spans.len();
                let mut copies: Vec<NodeSpan> = Vec::new();
                for i in 0..n
                    invariant
                        *self == NodeSpan::Fragment(*spans),
                        n == spans@.len(),
                        views == views_of(spans@),
                        views.len() == n,
                        forall|j: int| 0 <= j < n ==> views[j] == spans@[j]@,
                        copies@.len() == i,
                        forall|j: int| 0 <= j < i ==> copies@[j]@ == views[j],
                    decreases n - i,
                {
                    proof {
                        lemma_fragment_member_decreases(*self, i as int);
                    }
                    copies.push(spans[i].clone());
                }
                let r = NodeSpan::Fragment(copies);
                proof {
                    lemma_views_of(copies@);
                    assert(views_of(copies@) =~= views);
                }
                r
            }
        }
    }
}

} // verus!
