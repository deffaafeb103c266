//! End-to-end exercises of the reconciliation engine: shapes, the store,
//! text reuse, fragments, combinators, presenters and the three-phase cycle.

use quill::driver::{find_dirty, update_views, BUILD_LIMIT};
use quill::node_span::NodeSpan;
use quill::store::{Edit, Store};
use quill::view::{
    BuildError, ElementContext, PresenterFn, Props, Template, View, ViewInsertBundle, ViewMem,
};
use quill::view_handle::{ViewHandle, ViewState};

fn s(text: &str) -> String {
    text.to_string()
}

fn fresh_ecx() -> ElementContext {
    ElementContext { store: Store::new(), entity: 0 }
}

fn build(
    view: &View,
    ecx: &mut ElementContext,
    state: &mut ViewMem,
    prev: &NodeSpan,
) -> NodeSpan {
    view.build(ecx, state, prev, BUILD_LIMIT).expect("build failed")
}

fn span_ids(span: &NodeSpan) -> Vec<usize> {
    let mut ids = Vec::new();
    span.flatten(&mut ids);
    ids
}

#[test]
fn test_count_matches_flatten() {
    let span = NodeSpan::Fragment(vec![
        NodeSpan::Node(3),
        NodeSpan::Empty,
        NodeSpan::Fragment(vec![NodeSpan::Node(7), NodeSpan::Node(9)]),
    ]);
    assert_eq!(span.count(), 3);
    assert_eq!(span_ids(&span), vec![3, 7, 9]);
    assert_eq!(NodeSpan::Empty.count(), 0);
    assert_eq!(NodeSpan::Node(5).count(), 1);
}

#[test]
fn test_span_equality_is_structural() {
    let a = NodeSpan::Fragment(vec![NodeSpan::Node(1), NodeSpan::Empty]);
    let b = NodeSpan::Fragment(vec![NodeSpan::Node(1), NodeSpan::Empty]);
    let c = NodeSpan::Fragment(vec![NodeSpan::Node(2), NodeSpan::Empty]);
    assert!(a == b);
    assert!(!(a == c));
    assert!(a == a.clone());
    assert!(NodeSpan::default() == NodeSpan::Empty);
}

#[test]
fn test_text_build_spawns_then_reuses() {
    let mut ecx = fresh_ecx();
    let mut state = ViewMem::Unit;
    let first = build(&View::Text(s("A")), &mut ecx, &mut state, &NodeSpan::Empty);
    let id = match first {
        NodeSpan::Node(id) => id,
        _ => panic!("expected a single node"),
    };
    assert_eq!(ecx.store.text_of(id), Some(s("A")));

    // Declared text changes to "B": same node id, text rewritten in place.
    let second = build(&View::Text(s("B")), &mut ecx, &mut state, &first);
    assert!(second == NodeSpan::Node(id));
    assert_eq!(ecx.store.text_of(id), Some(s("B")));
}

#[test]
fn test_text_rebuild_replaces_incompatible_shape() {
    let mut ecx = fresh_ecx();
    let mut state = ViewMem::Unit;
    let first = build(&View::Text(s("A")), &mut ecx, &mut state, &NodeSpan::Empty);
    let id = match first {
        NodeSpan::Node(id) => id,
        _ => panic!("expected a single node"),
    };
    // A fragment-shaped previous output cannot be reused by a text leaf:
    // the old node is destroyed and a fresh node spawned.
    let wrapped = NodeSpan::Fragment(vec![NodeSpan::Node(id)]);
    let second = build(&View::Text(s("A")), &mut ecx, &mut state, &wrapped);
    match second {
        NodeSpan::Node(new_id) => {
            assert_ne!(new_id, id);
            assert!(!ecx.store.is_alive(id));
            assert!(ecx.store.is_alive(new_id));
            assert_eq!(ecx.store.text_of(new_id), Some(s("A")));
        }
        _ => panic!("expected a single node"),
    }
}

#[test]
fn test_idempotent_rebuild_changes_no_shape() {
    let mut ecx = fresh_ecx();
    let mut state = ViewMem::Unit;
    let view = View::Fragment(vec![View::Text(s("a")), View::Text(s("b"))]).insert(5);
    let first = build(&view, &mut ecx, &mut state, &NodeSpan::Empty);
    let _ = ecx.store.take_log();

    let second = build(&view, &mut ecx, &mut state, &first);
    assert!(second == first);
    let edits = ecx.store.take_log();
    for edit in edits.iter() {
        assert!(!matches!(edit, Edit::Spawn(_)));
        assert!(!matches!(edit, Edit::Despawn(_)));
    }
}

#[test]
fn test_fragment_shrink_reuses_by_position() {
    let mut ecx = fresh_ecx();
    let mut state = ViewMem::Unit;
    let three = View::Fragment(vec![View::Text(s("a")), View::Text(s("b")), View::Text(s("c"))]);
    let first = build(&three, &mut ecx, &mut state, &NodeSpan::Empty);
    let ids = span_ids(&first);
    assert_eq!(ids.len(), 3);

    let two = View::Fragment(vec![View::Text(s("x")), View::Text(s("y"))]);
    let second = build(&two, &mut ecx, &mut state, &first);
    let new_ids = span_ids(&second);
    // The remaining two nodes are reused by position; the third is gone.
    assert_eq!(new_ids, vec![ids[0], ids[1]]);
    assert!(!ecx.store.is_alive(ids[2]));
    assert_eq!(ecx.store.text_of(ids[0]), Some(s("x")));
    assert_eq!(ecx.store.text_of(ids[1]), Some(s("y")));
}

#[test]
fn test_fragment_grow_builds_new_members() {
    let mut ecx = fresh_ecx();
    let mut state = ViewMem::Unit;
    let one = View::Fragment(vec![View::Text(s("a"))]);
    let first = build(&one, &mut ecx, &mut state, &NodeSpan::Empty);
    let ids = span_ids(&first);

    let two = View::Fragment(vec![View::Text(s("a")), View::Text(s("b"))]);
    let second = build(&two, &mut ecx, &mut state, &first);
    let new_ids = span_ids(&second);
    assert_eq!(new_ids.len(), 2);
    assert_eq!(new_ids[0], ids[0]);
    assert_eq!(ecx.store.text_of(new_ids[1]), Some(s("b")));
}

#[test]
fn test_insert_skips_present_attribute() {
    let mut ecx = fresh_ecx();
    let mut state = ViewMem::Unit;
    let view = View::Text(s("a")).insert(42);
    let first = build(&view, &mut ecx, &mut state, &NodeSpan::Empty);
    let id = span_ids(&first)[0];
    assert!(ecx.store.has_attr(id, 42));
    let _ = ecx.store.take_log();

    let _second = build(&view, &mut ecx, &mut state, &first);
    let edits = ecx.store.take_log();
    // The attribute is already present: the rebuild inserts nothing.
    for edit in edits.iter() {
        assert!(!matches!(edit, Edit::InsertAttr(_, _)));
    }
}

#[test]
fn test_insert_bundle_rejects_fragment() {
    let mut ecx = fresh_ecx();
    let mut state = ViewMem::Unit;
    let inner = View::Fragment(vec![View::Text(s("a")), View::Text(s("b"))]);
    let view = View::InsertBundle(ViewInsertBundle { inner: Box::new(inner), component: 9 });
    let r = view.build(&mut ecx, &mut state, &NodeSpan::Empty, BUILD_LIMIT);
    assert_eq!(r, Err(BuildError::NonSingularShape));
}

#[test]
fn test_insert_bundle_reinserts_on_new_node() {
    let mut ecx = fresh_ecx();
    let mut state = ViewMem::Unit;
    let view = View::InsertBundle(ViewInsertBundle {
        inner: Box::new(View::Text(s("a"))),
        component: 9,
    });
    let first = build(&view, &mut ecx, &mut state, &NodeSpan::Empty);
    let id = span_ids(&first)[0];
    assert!(ecx.store.has_attr(id, 9));
    let _ = ecx.store.take_log();

    // Unchanged output: no second insert.
    let _second = build(&view, &mut ecx, &mut state, &first);
    let edits = ecx.store.take_log();
    for edit in edits.iter() {
        assert!(!matches!(edit, Edit::InsertAttr(_, _)));
    }
}

#[test]
fn test_with_signals_every_build_and_once_only_on_change() {
    let mut ecx = fresh_ecx();
    let mut state = ViewMem::Unit;
    let view = View::Text(s("a")).with(7);
    let first = build(&view, &mut ecx, &mut state, &NodeSpan::Empty);
    let id = span_ids(&first)[0];
    let edits = ecx.store.take_log();
    assert!(edits.iter().any(|edit| *edit == Edit::Effect(7, id)));
    let _second = build(&view, &mut ecx, &mut state, &first);
    let edits = ecx.store.take_log();
    assert!(edits.iter().any(|edit| *edit == Edit::Effect(7, id)));

    let mut state2 = ViewMem::Unit;
    let once_view = View::Text(s("b")).once(8);
    let out = build(&once_view, &mut ecx, &mut state2, &NodeSpan::Empty);
    let once_id = span_ids(&out)[0];
    let edits = ecx.store.take_log();
    assert!(edits.iter().any(|edit| *edit == Edit::Effect(8, once_id)));
    let _again = build(&once_view, &mut ecx, &mut state2, &out);
    let edits = ecx.store.take_log();
    // The produced node did not change: the once binding stays quiet.
    assert!(!edits.iter().any(|edit| matches!(edit, Edit::Effect(8, _))));
}

#[test]
fn test_styled_applies_styles() {
    let mut ecx = fresh_ecx();
    let mut state = ViewMem::Unit;
    let view = View::Text(s("a")).styled(vec![11, 12]);
    let out = build(&view, &mut ecx, &mut state, &NodeSpan::Empty);
    let id = span_ids(&out)[0];
    let edits = ecx.store.take_log();
    assert!(edits.iter().any(|edit| *edit == Edit::ApplyStyle(id, 11)));
    assert!(edits.iter().any(|edit| *edit == Edit::ApplyStyle(id, 12)));
}

#[test]
fn test_raze_destroys_all_previous_nodes() {
    let mut ecx = fresh_ecx();
    let mut state = ViewMem::Unit;
    let view = View::Fragment(vec![View::Text(s("a")), View::Text(s("b"))]);
    let out = build(&view, &mut ecx, &mut state, &NodeSpan::Empty);
    let ids = span_ids(&out);
    view.raze(&mut ecx, &mut state, &out, BUILD_LIMIT);
    for id in ids.iter() {
        assert!(!ecx.store.is_alive(*id));
    }
}

#[test]
fn test_holder_razes_exactly_once() {
    let mut ecx = fresh_ecx();
    let mut vs = ViewState::new(
        Template::Static(Box::new(View::Text(s("a")))),
        Props::empty(),
    );
    vs.build(&mut ecx, 0, BUILD_LIMIT).expect("build failed");
    let out = vs.nodes(&NodeSpan::Empty);
    let ids = span_ids(&out);
    vs.raze(&mut ecx, 0, BUILD_LIMIT);
    assert!(!ecx.store.is_alive(ids[0]));
    let before = ecx.store.take_log();
    assert!(!before.is_empty());
    // A second raze does nothing: the view was already dropped.
    vs.raze(&mut ecx, 0, BUILD_LIMIT);
    let after = ecx.store.take_log();
    assert!(after.is_empty());
}

#[test]
fn test_depth_limit_aborts() {
    let mut ecx = fresh_ecx();
    let mut vs = ViewState::new(
        Template::Static(Box::new(View::Text(s("a")))),
        Props::empty(),
    );
    assert_eq!(vs.build(&mut ecx, 0, 0), Err(BuildError::DepthLimit));
}

#[test]
fn test_root_presenter_builds_single_node() {
    let mut ecx = fresh_ecx();
    let handle = ViewHandle::new(
        Template::Static(Box::new(View::Text(String::new()))),
        Props::empty(),
    );
    let root = ecx.store.spawn_root(handle);
    update_views(&mut ecx);
    let vs = ecx.store.take_handle(root).expect("holder missing");
    assert_eq!(vs.count(), 1);
    assert!(matches!(vs.nodes(&NodeSpan::Empty), NodeSpan::Node(_)));
}

#[test]
fn test_presenter_bound_props_render() {
    let mut ecx = fresh_ecx();
    let bind = Template::PropText(0).bind(Props { vals: vec![s("hello")] });
    let view = View::Bind(Box::new(bind));
    let mut state = ViewMem::Unit;
    // The first build spawns the presenter node, builds its subtree through
    // the holder, and returns the holder's cached shape.
    let out = build(&view, &mut ecx, &mut state, &NodeSpan::Empty);
    let ids = span_ids(&out);
    assert_eq!(ids.len(), 1);
    assert_eq!(ecx.store.text_of(ids[0]), Some(s("hello")));
    // Rebuilding the same view reuses the presenter node and its output.
    let second = build(&view, &mut ecx, &mut state, &out);
    assert!(second == out);
}

#[test]
fn test_dependency_gating_selects_only_changed_subtree() {
    let mut ecx = fresh_ecx();
    ecx.store.set_resource(1, &s("a"));
    ecx.store.set_resource(2, &s("b"));
    let r1 = ecx.store.spawn_root(ViewHandle::new(Template::ResText(1), Props::empty()));
    let r2 = ecx.store.spawn_root(ViewHandle::new(Template::ResText(2), Props::empty()));
    update_views(&mut ecx);
    let _ = ecx.store.take_log();
    assert!(!ecx.store.is_dirty(r1));
    assert!(!ecx.store.is_dirty(r2));

    // Only shared value B changes: only the subtree that read B is dirty.
    ecx.store.set_resource(2, &s("b2"));
    assert!(!ecx.store.is_dirty(r1));
    assert!(ecx.store.is_dirty(r2));
    let dirty = find_dirty(&ecx.store);
    assert_eq!(dirty, vec![r2]);

    let vs1 = ecx.store.take_handle(r1).expect("holder missing");
    let n1 = span_ids(&vs1.nodes(&NodeSpan::Empty))[0];
    ecx.store.put_handle(r1, vs1);
    let vs2 = ecx.store.take_handle(r2).expect("holder missing");
    let n2 = span_ids(&vs2.nodes(&NodeSpan::Empty))[0];
    ecx.store.put_handle(r2, vs2);
    let _ = ecx.store.take_log();

    update_views(&mut ecx);
    let edits = ecx.store.take_log();
    // Only the subtree reading B shows build side effects.
    assert!(edits.iter().any(|edit| *edit == Edit::SetText(n2)));
    assert!(!edits.iter().any(|edit| *edit == Edit::SetText(n1)));
    assert_eq!(ecx.store.text_of(n2), Some(s("b2")));
    assert_eq!(ecx.store.text_of(n1), Some(s("a")));
}

#[test]
fn test_quiet_cycle_leaves_store_untouched() {
    let mut ecx = fresh_ecx();
    ecx.store.set_resource(1, &s("a"));
    let root = ecx.store.spawn_root(ViewHandle::new(Template::ResText(1), Props::empty()));
    update_views(&mut ecx);
    let _ = ecx.store.take_log();
    let count_before = ecx.store.node_count();

    // Nothing is dirty: the cycle performs no work at all.
    update_views(&mut ecx);
    assert_eq!(ecx.store.node_count(), count_before);
    assert!(ecx.store.take_log().is_empty());
    assert!(!ecx.store.is_dirty(root));
}

#[test]
fn test_detach_reattach_loses_no_state() {
    let mut ecx = fresh_ecx();
    let root = ecx.store.spawn_root(ViewHandle::new(
        Template::Static(Box::new(View::Text(s("kept")))),
        Props::empty(),
    ));
    update_views(&mut ecx);

    // Take the holder out and put the same holder back: nothing observable
    // changes, and a later take yields the same cached output.
    let vs = ecx.store.take_handle(root).expect("holder missing");
    let count = vs.count();
    let cached = vs.nodes(&NodeSpan::Empty);
    assert!(ecx.store.take_handle(root).is_none());
    ecx.store.put_handle(root, vs);

    let vs_again = ecx.store.take_handle(root).expect("holder missing");
    assert_eq!(vs_again.count(), count);
    assert!(vs_again.nodes(&NodeSpan::Empty) == cached);
    ecx.store.put_handle(root, vs_again);
}

#[test]
fn test_fragment_presenter_rebuild_via_group() {
    let mut ecx = fresh_ecx();
    let group = Template::Group(vec![
        Template::Static(Box::new(View::Text(s("a")))),
        Template::Static(Box::new(View::Text(s("b")))),
        Template::Static(Box::new(View::Text(s("c")))),
    ]);
    let root = ecx.store.spawn_root(ViewHandle::new(group, Props::empty()));
    update_views(&mut ecx);
    let vs = ecx.store.take_handle(root).expect("holder missing");
    assert_eq!(vs.count(), 3);
    ecx.store.put_handle(root, vs);
}

#[test]
fn test_resources_version_and_value() {
    let mut store = Store::new();
    assert_eq!(store.res_version(4), 0);
    assert_eq!(store.get_resource(4), None);
    store.set_resource(4, &s("v1"));
    assert_eq!(store.res_version(4), 1);
    assert_eq!(store.get_resource(4), Some(s("v1")));
    store.set_resource(4, &s("v2"));
    assert_eq!(store.res_version(4), 2);
    assert_eq!(store.get_resource(4), Some(s("v2")));
    // Other names are untouched.
    assert_eq!(store.res_version(5), 0);
}

#[test]
fn test_edit_log_records_shape_changes() {
    let mut store = Store::new();
    let id = store.spawn_text(&s("x"));
    store.despawn(id);
    let edits = store.take_log();
    assert_eq!(edits, vec![Edit::Spawn(id), Edit::SetText(id), Edit::Despawn(id)]);
    assert!(store.take_log().is_empty());
}

#[test]
fn test_despawn_recursive_kills_only_listed() {
    let mut store = Store::new();
    let a = store.spawn_text(&s("a"));
    let b = store.spawn_text(&s("b"));
    let c = store.spawn_text(&s("c"));
    let span = NodeSpan::Fragment(vec![NodeSpan::Node(a), NodeSpan::Node(c)]);
    span.despawn_recursive(&mut store);
    assert!(!store.is_alive(a));
    assert!(store.is_alive(b));
    assert!(!store.is_alive(c));
}

#[test]
fn test_empty_views_render_nothing() {
    let mut ecx = fresh_ecx();
    let mut state = ViewMem::Unit;
    let out = build(&View::Empty, &mut ecx, &mut state, &NodeSpan::Empty);
    assert!(out == NodeSpan::Empty);
    assert_eq!(ecx.store.node_count(), 0);

    let empty_fragment = View::Fragment(Vec::new());
    let out = build(&empty_fragment, &mut ecx, &mut state, &NodeSpan::Empty);
    assert_eq!(out.count(), 0);
    assert_eq!(ecx.store.node_count(), 0);
}

#[test]
fn test_clean_presenter_skipped_on_rebuild() {
    let mut ecx = fresh_ecx();
    let bind = Template::Static(Box::new(View::Text(s("kept")))).bind(Props::empty());
    let view = View::Bind(Box::new(bind));
    let mut state = ViewMem::Unit;
    let out = build(&view, &mut ecx, &mut state, &NodeSpan::Empty);
    let _ = ecx.store.take_log();

    // The presenter node is clean: rebuilding the bind performs no work at
    // all — the cached shape comes back and the log stays empty.
    let second = build(&view, &mut ecx, &mut state, &out);
    assert!(second == out);
    assert!(ecx.store.take_log().is_empty());
}
