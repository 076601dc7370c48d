//! Tests of the pipeline façade and the link stage: timestamps,
//! staleness, debounce, revisions, and the snapshot wait predicates.

use uvls::document::DocumentState;
use uvls::link::{LinkMsg, LinkState, RootGraph, TsMap};
use uvls::pipeline::{OpenOutcome, Pipeline};

#[test]
fn open_spawn_replace_ignore() {
    let mut p = Pipeline::new();
    match p.open(1, DocumentState::OwnedByEditor) {
        OpenOutcome::Spawned(ts) => assert_eq!(ts, 1),
        _ => panic!("expected a spawn"),
    }
    // a file-system event may not overwrite an editor buffer
    assert!(matches!(p.open(1, DocumentState::OwnedByOs(7)), OpenOutcome::Ignored));
    match p.open(1, DocumentState::OwnedByEditor) {
        OpenOutcome::Replaced(ts) => assert_eq!(ts, 2),
        _ => panic!("expected a replace"),
    }
}

#[test]
fn event_timestamps_strictly_increase() {
    // P1 on a concrete run: every issued timestamp exceeds the previous.
    let mut p = Pipeline::new();
    let mut seen: Vec<u64> = Vec::new();
    match p.open(1, DocumentState::OwnedByEditor) {
        OpenOutcome::Spawned(ts) => seen.push(ts),
        _ => panic!("expected a spawn"),
    }
    seen.push(p.update(1).expect("known document"));
    seen.push(p.touch(1).expect("known document"));
    match p.open(2, DocumentState::OwnedByEditor) {
        OpenOutcome::Spawned(ts) => seen.push(ts),
        _ => panic!("expected a spawn"),
    }
    seen.push(p.delete(1, DocumentState::OwnedByEditor).expect("deletable"));
    for w in seen.windows(2) {
        assert!(w[0] < w[1]);
    }
}

#[test]
fn update_for_unknown_document_dropped() {
    let mut p = Pipeline::new();
    assert!(p.update(9).is_none());
    assert!(p.touch(9).is_none());
}

#[test]
fn delete_respects_ownership() {
    let mut p = Pipeline::new();
    p.open(1, DocumentState::OwnedByEditor);
    assert!(p.delete(1, DocumentState::OwnedByOs(5)).is_none());
    assert!(p.stat(1).is_some());
    assert!(p.delete(1, DocumentState::OwnedByEditor).is_some());
    assert!(p.stat(1).is_none());
}

#[test]
fn stat_and_should_load() {
    let mut p = Pipeline::new();
    assert!(p.should_load(1, 10));
    p.open(1, DocumentState::OwnedByOs(100));
    let (ts, state) = p.stat(1).expect("known");
    assert_eq!(ts, 1);
    assert_eq!(state, DocumentState::OwnedByOs(100));
    assert!(p.should_load(1, 200));
    assert!(!p.should_load(1, 50));
    p.open(2, DocumentState::OwnedByEditor);
    assert!(!p.should_load(2, u64::MAX));
}

#[test]
fn sync_global_waits_for_revision() {
    // P7: after three events, only snapshots of revision >= 3 satisfy
    // the global sync predicate.
    let mut p = Pipeline::new();
    p.open(1, DocumentState::OwnedByEditor);
    p.update(1);
    p.update(1);
    let behind = RootGraph::new(2, TsMap::new());
    let caught_up = RootGraph::new(3, TsMap::new());
    assert!(!p.sync_root_global_ready(&behind));
    assert!(p.sync_root_global_ready(&caught_up));
}

#[test]
fn stale_ast_dropped() {
    // S5: an AST carrying an older timestamp than the accepted one is
    // discarded, while the revision still advances.
    let mut l: LinkState<&str, &str> = LinkState::new();
    assert!(l.handle_msg(LinkMsg::UpdateAst(1, 2, "second edit")));
    assert!(l.handle_msg(LinkMsg::UpdateAst(1, 1, "first edit")));
    assert_eq!(l.revision, 2);
    assert_eq!(l.latest_ast.get(&1), Some(&"second edit"));
    assert_eq!(l.tick(), Some(2));
}

#[test]
fn equal_timestamp_also_dropped() {
    let mut l: LinkState<&str, &str> = LinkState::new();
    l.handle_msg(LinkMsg::UpdateAst(1, 5, "a"));
    l.handle_msg(LinkMsg::UpdateAst(1, 5, "b"));
    assert_eq!(l.latest_ast.get(&1), Some(&"a"));
}

#[test]
fn published_revisions_strictly_increase() {
    // P2 on a concrete run: the revisions handed to the watch channel
    // grow strictly, and a quiet tick publishes nothing.
    let mut l: LinkState<&str, &str> = LinkState::new();
    let mut published: Vec<u64> = Vec::new();
    l.handle_msg(LinkMsg::UpdateAst(1, 1, "a"));
    if let Some(rev) = l.tick() {
        published.push(rev);
    }
    assert_eq!(l.tick(), None);
    l.handle_msg(LinkMsg::UpdateConfig(2, 2, "c"));
    l.handle_msg(LinkMsg::Delete(3, 3));
    if let Some(rev) = l.tick() {
        published.push(rev);
    }
    assert_eq!(published, vec![1, 3]);
    for w in published.windows(2) {
        assert!(w[0] < w[1]);
    }
}

#[test]
fn shutdown_stops_the_loop() {
    let mut l: LinkState<&str, &str> = LinkState::new();
    assert!(l.handle_msg(LinkMsg::UpdateAst(1, 1, "a")));
    assert!(!l.handle_msg(LinkMsg::Shutdown));
}

#[test]
fn delete_while_snapshotting() {
    // S6: after a delete is accepted, the next published snapshot no
    // longer contains the document; no snapshot claims it with stale
    // data.
    let mut l: LinkState<&str, &str> = LinkState::new();
    l.handle_msg(LinkMsg::UpdateAst(1, 1, "a"));
    let rev1 = l.tick().expect("dirty");
    let root1 = RootGraph::new(rev1, l.snapshot_timestamps());
    assert!(root1.containes(1));
    assert_eq!(root1.timestamp(1), Some(1));

    l.handle_msg(LinkMsg::Delete(1, 2));
    let rev2 = l.tick().expect("dirty");
    let root2 = RootGraph::new(rev2, l.snapshot_timestamps());
    assert!(!root2.containes(1));
    assert!(root1.revision < root2.revision);
}

#[test]
fn snapshot_sync_predicate() {
    let mut ts = TsMap::new();
    ts.set(1, 5);
    let root = RootGraph::new(1, ts);
    assert!(Pipeline::snapshot_root_ready(&root, 1));
    assert!(!Pipeline::snapshot_root_ready(&root, 2));
    assert!(Pipeline::snapshot_root_sync_ready(&root, 1, 5));
    assert!(Pipeline::snapshot_root_sync_ready(&root, 1, 3));
    assert!(!Pipeline::snapshot_root_sync_ready(&root, 1, 6));
    assert!(!Pipeline::snapshot_root_sync_ready(&root, 2, 0));
}

#[test]
fn ts_map_behaves_like_a_map() {
    let mut m = TsMap::new();
    assert_eq!(m.get(1), None);
    m.set(1, 10);
    m.set(2, 20);
    m.set(1, 11);
    assert_eq!(m.get(1), Some(11));
    assert_eq!(m.get(2), Some(20));
    m.remove(2);
    assert_eq!(m.get(2), None);
    assert_eq!(m.get(1), Some(11));
    let copy = m.snapshot();
    assert_eq!(copy.get(1), Some(11));
}
