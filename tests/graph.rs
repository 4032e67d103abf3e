use std::cell::RefCell;

use dag::clone::CloneData;
use dag::error::DagError;
use dag::namedag::{NameDag, Vertex, NON_MASTER_START};
use dag::parent_map::ParentMap;
use dag::protocol::{AncestorPath, DagSnapshot, RemoteIdConvertProtocol};
use dag::segment::Segment;

fn v(s: &str) -> Vertex {
    s.as_bytes().to_vec()
}

fn vs(names: &[&str]) -> Vec<Vertex> {
    names.iter().map(|s| v(s)).collect()
}

fn parents(edges: &[(&str, &[&str])]) -> ParentMap {
    let mut pm = ParentMap::new();
    for (child, ps) in edges {
        pm.insert(v(child), vs(ps));
    }
    pm
}

/// A -> B -> C, A -> D.
fn small_history() -> ParentMap {
    parents(&[("A", &[]), ("B", &["A"]), ("C", &["B"]), ("D", &["A"])])
}

fn id(dag: &NameDag, name: &str) -> u64 {
    dag.vertex_id_local(&v(name)).expect("known vertex")
}

/// Logs every call before handing it to the wrapped resolver.
struct Monitor {
    inner: DagSnapshot,
    log: RefCell<Vec<String>>,
}

impl Monitor {
    fn new(server: &NameDag) -> Self {
        Monitor { inner: server.try_snapshot(), log: RefCell::new(Vec::new()) }
    }
}

impl RemoteIdConvertProtocol for Monitor {
    fn resolve_names_to_relative_paths(
        &self,
        heads: Vec<Vertex>,
        names: Vec<Vertex>,
    ) -> Result<Vec<(AncestorPath, Vec<Vertex>)>, DagError> {
        self.log.borrow_mut().push(format!("resolve names: {:?}, heads: {:?}", names, heads));
        self.inner.resolve_names_to_relative_paths(heads, names)
    }

    fn resolve_relative_paths_to_names(
        &self,
        paths: Vec<AncestorPath>,
    ) -> Result<Vec<(AncestorPath, Vec<Vertex>)>, DagError> {
        self.log.borrow_mut().push(format!("resolve paths: {}", paths.len()));
        self.inner.resolve_relative_paths_to_names(paths)
    }
}

fn seg(s: &Segment) -> (u8, u64, u64, Vec<u64>) {
    (s.level, s.low, s.high, s.parents.clone())
}

#[test]
fn small_history_ids_and_groups() {
    let mut dag = NameDag::new(3);
    assert_eq!(dag.add_heads(&small_history(), &vs(&["C", "D"])), Ok(()));
    for name in ["A", "B", "C", "D"] {
        assert!(id(&dag, name) >= NON_MASTER_START);
    }
    assert_eq!(dag.flush(&vs(&["C"])), Ok(()));
    assert!(id(&dag, "A") < id(&dag, "B"));
    assert!(id(&dag, "B") < id(&dag, "C"));
    assert!(id(&dag, "A") < id(&dag, "D"));
    for name in ["A", "B", "C"] {
        assert!(id(&dag, name) < NON_MASTER_START);
    }
    assert!(id(&dag, "D") >= NON_MASTER_START);
    assert_eq!((id(&dag, "A"), id(&dag, "B"), id(&dag, "C")), (0, 1, 2));
    assert_eq!(id(&dag, "D"), NON_MASTER_START);
}

#[test]
fn unresolved_vertex_takes_one_remote_call() {
    let mut server = NameDag::new(3);
    let mut pm = small_history();
    pm.insert(v("E"), vs(&["C"]));
    pm.insert(v("F"), vs(&["E"]));
    server.add_heads(&pm, &vs(&["D", "F"])).unwrap();
    server.flush(&vs(&["F"])).unwrap();

    let mut client = NameDag::new(3);
    client.import_clone_data(&server.export_clone_data()).unwrap();
    assert_eq!(client.vertex_id_local(&v("E")), None);

    let remote = Monitor::new(&server);
    let e = client.vertex_id(&v("E"), &remote);
    assert_eq!(e, Ok(id(&server, "E")));
    assert_eq!(remote.log.borrow().len(), 1);
    assert!(remote.log.borrow()[0].starts_with("resolve names:"));
    assert_eq!(client.vertex_name_local(e.unwrap()), Some(v("E")));

    // Known now: no further call.
    assert_eq!(client.vertex_id(&v("E"), &remote), e);
    assert_eq!(remote.log.borrow().len(), 1);
}

#[test]
fn vertex_name_resolves_remotely_once() {
    let mut server = NameDag::new(3);
    server.add_heads(&small_history(), &vs(&["C", "D"])).unwrap();
    server.flush(&vs(&["C"])).unwrap();
    let mut client = NameDag::new(3);
    client.import_clone_data(&server.export_clone_data()).unwrap();
    let b = id(&server, "B");
    assert_eq!(client.vertex_name_local(b), None);

    let remote = Monitor::new(&server);
    assert_eq!(client.vertex_name(b, &remote), Ok(v("B")));
    assert_eq!(*remote.log.borrow(), vec!["resolve paths: 1".to_string()]);
    assert_eq!(client.vertex_id_local(&v("B")), Some(b));
    assert_eq!(client.vertex_name(b, &remote), Ok(v("B")));
    assert_eq!(remote.log.borrow().len(), 1);
}

#[test]
fn remote_does_not_know_vertex() {
    let mut server = NameDag::new(3);
    server.add_heads(&small_history(), &vs(&["C"])).unwrap();
    server.flush(&vs(&["C"])).unwrap();
    let mut client = NameDag::new(3);
    client.import_clone_data(&server.export_clone_data()).unwrap();
    let remote = Monitor::new(&server);
    assert_eq!(client.vertex_id(&v("Z"), &remote), Err(DagError::NotFound));
    assert_eq!(client.vertex_name(12345, &remote), Err(DagError::NotFound));
    assert_eq!(client.vertex_id_local(&v("Z")), None);
}

#[test]
fn add_heads_is_idempotent() {
    let mut once = NameDag::new(3);
    once.add_heads(&small_history(), &vs(&["C", "D"])).unwrap();
    let mut twice = NameDag::new(3);
    twice.add_heads(&small_history(), &vs(&["C", "D"])).unwrap();
    assert_eq!(twice.add_heads(&small_history(), &vs(&["C", "D"])), Ok(()));
    assert_eq!(once.all(), twice.all());
    for name in ["A", "B", "C", "D"] {
        assert_eq!(id(&once, name), id(&twice, name));
    }
    let s1: Vec<_> = once.segments(0, false).iter().map(seg).collect();
    let s2: Vec<_> = twice.segments(0, false).iter().map(seg).collect();
    assert_eq!(s1, s2);
}

#[test]
fn add_heads_detects_cycle() {
    let mut dag = NameDag::new(3);
    dag.add_heads(&parents(&[("A", &[])]), &vs(&["A"])).unwrap();
    let pm = parents(&[("X", &["Y"]), ("Y", &["X"]), ("Z", &["A"])]);
    assert_eq!(dag.add_heads(&pm, &vs(&["Z", "X"])), Err(DagError::CycleDetected));
    assert_eq!(dag.all(), vs(&["A"]));
}

#[test]
fn add_heads_rejects_inconsistent_parents() {
    let mut dag = NameDag::new(3);
    let pm = parents(&[("A", &[]), ("B", &["A"]), ("B", &[])]);
    assert_eq!(dag.add_heads(&pm, &vs(&["B"])), Err(DagError::InconsistentParents));
    assert_eq!(dag.all(), Vec::<Vertex>::new());
}

#[test]
fn add_heads_reports_missing_parent() {
    let mut dag = NameDag::new(3);
    let pm = parents(&[("B", &["A"])]);
    assert_eq!(dag.add_heads(&pm, &vs(&["B"])), Err(DagError::NotFound));
    assert_eq!(dag.all(), Vec::<Vertex>::new());
}

#[test]
fn flush_unknown_head_changes_nothing() {
    let mut dag = NameDag::new(3);
    dag.add_heads(&small_history(), &vs(&["C", "D"])).unwrap();
    let before: Vec<u64> = ["A", "B", "C", "D"].iter().map(|n| id(&dag, n)).collect();
    assert_eq!(dag.flush(&vs(&["C", "Q"])), Err(DagError::NotFound));
    let after: Vec<u64> = ["A", "B", "C", "D"].iter().map(|n| id(&dag, n)).collect();
    assert_eq!(before, after);
}

#[test]
fn master_ids_never_move() {
    let mut dag = NameDag::new(3);
    dag.add_heads(&small_history(), &vs(&["C", "D"])).unwrap();
    dag.flush(&vs(&["C"])).unwrap();
    let c = id(&dag, "C");
    let mut pm = small_history();
    pm.insert(v("E"), vs(&["C", "D"]));
    dag.add_heads(&pm, &vs(&["E"])).unwrap();
    dag.flush(&vs(&["E"])).unwrap();
    assert_eq!(id(&dag, "C"), c);
    assert_eq!((id(&dag, "D"), id(&dag, "E")), (3, 4));
    assert_eq!(dag.vertex_name_local(c), Some(v("C")));
    assert_eq!(dag.all(), vs(&["A", "B", "C", "D", "E"]));
}

#[test]
fn bijection_survives_flushes() {
    let mut dag = NameDag::new(3);
    dag.add_heads(&small_history(), &vs(&["C", "D"])).unwrap();
    for heads in [vec![], vs(&["B"]), vs(&["D"]), vs(&["C"])] {
        dag.flush(&heads).unwrap();
        for name in dag.all() {
            let i = dag.vertex_id_local(&name).unwrap();
            assert_eq!(dag.vertex_name_local(i), Some(name));
        }
    }
}

#[test]
fn parents_come_before_children() {
    let mut dag = NameDag::new(3);
    let pm = parents(&[("A", &[]), ("B", &["A"]), ("C", &["A"]), ("M", &["C", "B"])]);
    dag.add_heads(&pm, &vs(&["M"])).unwrap();
    dag.flush(&vs(&["B"])).unwrap();
    for (child, ps) in [("B", vec!["A"]), ("C", vec!["A"]), ("M", vec!["C", "B"])] {
        for p in ps {
            assert!(id(&dag, p) < id(&dag, child));
        }
    }
}

#[test]
fn segments_partition_each_level() {
    // Linear A..F, with G branching off B.
    let pm = parents(&[
        ("A", &[]),
        ("B", &["A"]),
        ("C", &["B"]),
        ("D", &["C"]),
        ("E", &["D"]),
        ("F", &["E"]),
        ("G", &["B"]),
        ("H", &["G"]),
    ]);
    let mut dag = NameDag::new(2);
    dag.add_heads(&pm, &vs(&["F"])).unwrap();
    dag.add_heads(&pm, &vs(&["H"])).unwrap();
    dag.flush(&vs(&["F", "H"])).unwrap();
    let level0: Vec<_> = dag.segments(0, true).iter().map(seg).collect();
    assert_eq!(level0, vec![(0, 0, 5, vec![]), (0, 6, 7, vec![1])]);
    let level1: Vec<_> = dag.segments(1, true).iter().map(seg).collect();
    assert_eq!(level1, vec![(1, 0, 7, vec![])]);
    assert_eq!(dag.segments(0, false).len(), 0);
    for level in 0..4 {
        let segs = dag.segments(level, true);
        let mut next = 0;
        for s in &segs {
            assert_eq!(s.low, next);
            assert!(s.low <= s.high);
            next = s.high + 1;
        }
        assert_eq!(next, 8);
    }
}

#[test]
fn draft_segments_cover_draft_group() {
    let mut dag = NameDag::new(3);
    dag.add_heads(&small_history(), &vs(&["C", "D"])).unwrap();
    let segs = dag.segments(0, false);
    let mut next = NON_MASTER_START;
    for s in &segs {
        assert_eq!(s.low, next);
        next = s.high + 1;
    }
    assert_eq!(next, NON_MASTER_START + 4);
    assert_eq!(dag.segments(0, true).len(), 0);
}

#[test]
fn ancestry_queries() {
    let mut dag = NameDag::new(3);
    dag.add_heads(&small_history(), &vs(&["C", "D"])).unwrap();
    dag.flush(&vs(&["C"])).unwrap();
    let (a, b, c, d) = (id(&dag, "A"), id(&dag, "B"), id(&dag, "C"), id(&dag, "D"));
    assert_eq!(dag.is_ancestor(a, c), Ok(true));
    assert_eq!(dag.is_ancestor(c, c), Ok(true));
    assert_eq!(dag.is_ancestor(b, d), Ok(false));
    assert_eq!(dag.is_ancestor(c, a), Ok(false));
    assert_eq!(dag.is_ancestor(a, 99), Err(DagError::NotFound));
    assert_eq!(dag.ancestors(c), Ok(vec![a, b, c]));
    assert_eq!(dag.ancestors(d), Ok(vec![a, d]));
}

#[test]
fn clone_round_trip_answers_ancestry_alike() {
    let mut server = NameDag::new(3);
    let pm = parents(&[("A", &[]), ("B", &["A"]), ("C", &["A"]), ("M", &["C", "B"]), ("N", &["M"])]);
    server.add_heads(&pm, &vs(&["N"])).unwrap();
    server.flush(&vs(&["N"])).unwrap();
    let data = server.export_clone_data();
    let mut client = NameDag::new(3);
    assert_eq!(client.import_clone_data(&data), Ok(()));
    for x in 0..5 {
        for y in 0..5 {
            assert_eq!(client.is_ancestor(x, y), server.is_ancestor(x, y));
        }
    }
    for x in 0..5 {
        if let Some(name) = client.vertex_name_local(x) {
            assert_eq!(server.vertex_name_local(x), Some(name));
        }
    }
    assert_eq!(client.vertex_id_local(&v("N")), server.vertex_id_local(&v("N")));
}

#[test]
fn clone_import_refuses_non_empty_or_corrupt() {
    let mut server = NameDag::new(3);
    server.add_heads(&small_history(), &vs(&["C"])).unwrap();
    server.flush(&vs(&["C"])).unwrap();
    let mut busy = NameDag::new(3);
    busy.add_heads(&small_history(), &vs(&["D"])).unwrap();
    assert_eq!(busy.import_clone_data(&server.export_clone_data()), Err(DagError::ImportError));

    let overlapping = CloneData {
        flat_segments: vec![
            Segment { level: 0, low: 0, high: 2, parents: vec![] },
            Segment { level: 0, low: 2, high: 3, parents: vec![0] },
        ],
        idmap: vec![],
    };
    let mut fresh = NameDag::new(3);
    assert_eq!(fresh.import_clone_data(&overlapping), Err(DagError::ImportError));
    let dangling = CloneData {
        flat_segments: vec![Segment { level: 0, low: 0, high: 1, parents: vec![5] }],
        idmap: vec![],
    };
    assert_eq!(fresh.import_clone_data(&dangling), Err(DagError::ImportError));
    let twice_named = CloneData {
        flat_segments: vec![Segment { level: 0, low: 0, high: 1, parents: vec![] }],
        idmap: vec![(0, v("A")), (1, v("A"))],
    };
    assert_eq!(fresh.import_clone_data(&twice_named), Err(DagError::ImportError));
    assert_eq!(fresh.all(), Vec::<Vertex>::new());
}

#[test]
fn pull_fast_forward_matches_clone() {
    let mut server = NameDag::new(3);
    let mut pm = small_history();
    server.add_heads(&pm, &vs(&["C"])).unwrap();
    server.flush(&vs(&["C"])).unwrap();
    let mut client = NameDag::new(3);
    client.import_clone_data(&server.export_clone_data()).unwrap();

    pm.insert(v("E"), vs(&["C", "D"]));
    pm.insert(v("F"), vs(&["E"]));
    server.add_heads(&pm, &vs(&["F"])).unwrap();
    server.flush(&vs(&["F"])).unwrap();

    let data = server.pull_fast_forward_master(&v("C"), &v("F")).unwrap();
    assert_eq!(client.import_pull_data(&data), Ok(()));

    let mut cloned = NameDag::new(3);
    cloned.import_clone_data(&server.export_clone_data()).unwrap();
    for x in 0..6 {
        for y in 0..6 {
            assert_eq!(client.is_ancestor(x, y), cloned.is_ancestor(x, y));
            assert_eq!(client.is_ancestor(x, y), server.is_ancestor(x, y));
        }
    }
    assert_eq!(client.vertex_id_local(&v("F")), Some(5));
    // Applying the same data again no longer fits the client's master end.
    assert_eq!(client.import_pull_data(&data), Err(DagError::ImportError));
}

#[test]
fn pull_requires_ancestry() {
    let mut server = NameDag::new(3);
    server.add_heads(&small_history(), &vs(&["C", "D"])).unwrap();
    server.flush(&vs(&["C", "D"])).unwrap();
    assert!(matches!(
        server.pull_fast_forward_master(&v("D"), &v("C")),
        Err(DagError::FastForwardAssumptionViolated)
    ));
    assert!(matches!(server.pull_fast_forward_master(&v("Q"), &v("C")), Err(DagError::NotFound)));
    let same = server.pull_fast_forward_master(&v("C"), &v("C")).unwrap();
    assert_eq!(same.base, id(&server, "C") + 1);
    assert!(same.flat_segments.is_empty());
}

#[test]
fn snapshot_resolves_paths() {
    let mut server = NameDag::new(3);
    server.add_heads(&small_history(), &vs(&["C", "D"])).unwrap();
    server.flush(&vs(&["C"])).unwrap();
    let snap = server.try_snapshot();
    let answer = snap.resolve_names_to_relative_paths(vs(&["C"]), vs(&["A"])).unwrap();
    assert_eq!(answer.len(), 1);
    assert_eq!(answer[0].0.x, v("C"));
    assert_eq!(answer[0].0.n, 2);
    assert_eq!(answer[0].1, vs(&["A"]));
    let back = snap
        .resolve_relative_paths_to_names(vec![AncestorPath { x: v("C"), n: 1 }])
        .unwrap();
    assert_eq!(back[0].1, vs(&["B"]));
    assert!(snap.resolve_relative_paths_to_names(vec![AncestorPath { x: v("C"), n: 3 }]).is_err());
}

#[test]
fn all_lists_known_vertexes_in_id_order() {
    let mut dag = NameDag::new(3);
    dag.add_heads(&small_history(), &vs(&["C", "D"])).unwrap();
    dag.flush(&vs(&["D"])).unwrap();
    assert_eq!(dag.all(), vs(&["A", "D", "B", "C"]));
}

#[test]
fn add_heads_rejects_parents_that_differ_from_known_ones() {
    let mut dag = NameDag::new(3);
    dag.add_heads(&small_history(), &vs(&["C"])).unwrap();
    let pm = parents(&[("A", &[]), ("B", &[]), ("X", &["B"])]);
    assert_eq!(dag.add_heads(&pm, &vs(&["X"])), Err(DagError::InconsistentParents));
    assert_eq!(dag.vertex_id_local(&v("X")), None);
    assert_eq!(dag.all(), vs(&["A", "B", "C"]));
}

#[test]
fn second_add_heads_changes_nothing() {
    let mut dag = NameDag::new(3);
    let pm = parents(&[("A", &[]), ("B", &["A"]), ("C", &["A"]), ("M", &["C", "B"])]);
    dag.add_heads(&pm, &vs(&["M"])).unwrap();
    let ids: Vec<u64> = ["A", "B", "C", "M"].iter().map(|n| id(&dag, n)).collect();
    assert_eq!(dag.add_heads(&pm, &vs(&["M"])), Ok(()));
    let again: Vec<u64> = ["A", "B", "C", "M"].iter().map(|n| id(&dag, n)).collect();
    assert_eq!(ids, again);
    assert_eq!(dag.all().len(), 4);
}

/// Answers every request with a fixed reply.
struct FixedReply {
    reply: Result<Vec<(AncestorPath, Vec<Vertex>)>, DagError>,
}

impl FixedReply {
    fn answer(&self) -> Result<Vec<(AncestorPath, Vec<Vertex>)>, DagError> {
        match &self.reply {
            Ok(r) => Ok(r.iter().map(|(p, vs)| (AncestorPath { x: p.x.clone(), n: p.n }, vs.clone())).collect()),
            Err(e) => Err(*e),
        }
    }
}

impl RemoteIdConvertProtocol for FixedReply {
    fn resolve_names_to_relative_paths(
        &self,
        _heads: Vec<Vertex>,
        _names: Vec<Vertex>,
    ) -> Result<Vec<(AncestorPath, Vec<Vertex>)>, DagError> {
        self.answer()
    }

    fn resolve_relative_paths_to_names(
        &self,
        _paths: Vec<AncestorPath>,
    ) -> Result<Vec<(AncestorPath, Vec<Vertex>)>, DagError> {
        self.answer()
    }
}

fn lazy_client() -> (NameDag, NameDag) {
    let mut server = NameDag::new(3);
    server.add_heads(&small_history(), &vs(&["C"])).unwrap();
    server.flush(&vs(&["C"])).unwrap();
    let mut client = NameDag::new(3);
    client.import_clone_data(&server.export_clone_data()).unwrap();
    (server, client)
}

#[test]
fn answers_that_do_not_fit_are_protocol_failures() {
    let (_, mut client) = lazy_client();
    // A path from a vertex the client does not know.
    let remote = FixedReply { reply: Ok(vec![(AncestorPath { x: v("Q"), n: 0 }, vs(&["B"]))]) };
    assert_eq!(client.vertex_id(&v("B"), &remote), Err(DagError::RemoteProtocolFailure));
    // A path leading to a position that already has another name.
    let remote = FixedReply { reply: Ok(vec![(AncestorPath { x: v("C"), n: 0 }, vs(&["B"]))]) };
    assert_eq!(client.vertex_id(&v("B"), &remote), Err(DagError::RemoteProtocolFailure));
    // A path that runs past the root.
    let remote = FixedReply { reply: Ok(vec![(AncestorPath { x: v("C"), n: 7 }, vs(&["B"]))]) };
    assert_eq!(client.vertex_id(&v("B"), &remote), Err(DagError::RemoteProtocolFailure));
    // An answer about another vertex.
    let remote = FixedReply { reply: Ok(vec![(AncestorPath { x: v("C"), n: 1 }, vs(&["Z"]))]) };
    assert_eq!(client.vertex_id(&v("B"), &remote), Err(DagError::RemoteProtocolFailure));
    // A name the client already has, given for another id.
    let remote = FixedReply { reply: Ok(vec![(AncestorPath { x: v("C"), n: 1 }, vs(&["C"]))]) };
    assert_eq!(client.vertex_name(1, &remote), Err(DagError::RemoteProtocolFailure));
    // A transport error.
    let remote = FixedReply { reply: Err(DagError::PersistenceFailure) };
    assert_eq!(client.vertex_id(&v("B"), &remote), Err(DagError::RemoteProtocolFailure));
    assert_eq!(client.vertex_name_local(1), None);
    assert_eq!(client.vertex_id_local(&v("B")), None);
}

#[test]
fn fitting_answer_is_taken() {
    let (server, mut client) = lazy_client();
    let remote = FixedReply { reply: Ok(vec![(AncestorPath { x: v("C"), n: 1 }, vs(&["B"]))]) };
    assert_eq!(client.vertex_id(&v("B"), &remote), Ok(id(&server, "B")));
    assert_eq!(client.vertex_name_local(1), Some(v("B")));
}

#[test]
fn merged_segments_keep_outside_parents() {
    // Two branches off A, merged at M.
    let pm = parents(&[("A", &[]), ("B", &["A"]), ("C", &["A"]), ("M", &["B", "C"])]);
    let mut dag = NameDag::new(2);
    dag.add_heads(&pm, &vs(&["M"])).unwrap();
    dag.flush(&vs(&["M"])).unwrap();
    let level0: Vec<_> = dag.segments(0, true).iter().map(seg).collect();
    assert_eq!(level0.len(), 3);
    let level1: Vec<_> = dag.segments(1, true).iter().map(seg).collect();
    assert_eq!(level1.len(), 2);
    assert_eq!(level1[0].1, 0);
    assert_eq!(level1[1].2, 3);
    for (_, low, _, ps) in &level1 {
        assert!(ps.iter().all(|p| p < low));
    }
}

#[test]
fn set_queries() {
    // A -> B -> C, A -> D, and M merging C and D.
    let mut pm = small_history();
    pm.insert(v("M"), vs(&["C", "D"]));
    let mut dag = NameDag::new(3);
    dag.add_heads(&pm, &vs(&["M"])).unwrap();
    dag.flush(&vs(&["M"])).unwrap();
    let (a, b, c, d, m) = (id(&dag, "A"), id(&dag, "B"), id(&dag, "C"), id(&dag, "D"), id(&dag, "M"));
    let sorted = |mut x: Vec<u64>| {
        x.sort();
        x
    };
    assert_eq!(dag.common_ancestors(c, d), Ok(vec![a]));
    assert_eq!(dag.common_ancestors(c, m), Ok(sorted(vec![a, b, c])));
    assert_eq!(dag.descendants(b), Ok(sorted(vec![b, c, m])));
    assert_eq!(dag.descendants(a), Ok(sorted(vec![a, b, c, d, m])));
    assert_eq!(dag.range(b, Some(m)), Ok(sorted(vec![b, c, m])));
    assert_eq!(dag.range(d, Some(c)), Ok(vec![]));
    assert_eq!(dag.range(a, Some(99)), Err(DagError::NotFound));
    assert_eq!(dag.descendants(99), Err(DagError::NotFound));
}

#[test]
fn merge_groups_runs_of_segment_size() {
    let flat = vec![
        Segment { level: 0, low: 0, high: 1, parents: vec![] },
        Segment { level: 0, low: 2, high: 2, parents: vec![0] },
        Segment { level: 0, low: 3, high: 4, parents: vec![1, 2] },
        Segment { level: 0, low: 5, high: 5, parents: vec![0, 4] },
        Segment { level: 0, low: 6, high: 9, parents: vec![3] },
    ];
    let merged: Vec<_> = dag::segment::merge_segments(&flat, 2, 1).iter().map(seg).collect();
    assert_eq!(merged, vec![(1, 0, 2, vec![]), (1, 3, 5, vec![1, 2, 0]), (1, 6, 9, vec![3])]);
    let whole: Vec<_> = dag::segment::merge_segments(&flat, 9, 1).iter().map(seg).collect();
    assert_eq!(whole, vec![(1, 0, 9, vec![])]);
}
