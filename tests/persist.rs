use dag::error::DagError;
use dag::namedag::{NameDag, Vertex};
use dag::parent_map::ParentMap;
use dag::persist::from_bytes;

fn v(s: &str) -> Vertex {
    s.as_bytes().to_vec()
}

fn sample() -> NameDag {
    let mut pm = ParentMap::new();
    pm.insert(v("A"), vec![]);
    pm.insert(v("B"), vec![v("A")]);
    pm.insert(v("C"), vec![v("B")]);
    pm.insert(v("D"), vec![v("A")]);
    let mut dag = NameDag::new(3);
    dag.add_heads(&pm, &vec![v("C"), v("D")]).unwrap();
    dag.flush(&vec![v("C")]).unwrap();
    dag
}

#[test]
fn empty_graph_bytes() {
    let dag = NameDag::new(5);
    let mut expected = vec![0u8; 24];
    expected[8] = 5;
    assert_eq!(dag.to_bytes(), expected);
}

#[test]
fn single_entry_bytes() {
    let mut pm = ParentMap::new();
    pm.insert(v("xy"), vec![]);
    let mut dag = NameDag::new(2);
    dag.add_heads(&pm, &vec![v("xy")]).unwrap();
    dag.flush(&vec![v("xy")]).unwrap();
    let mut expected = Vec::new();
    for word in [1u64, 2, 1, 1, 2] {
        expected.extend_from_slice(&word.to_le_bytes());
    }
    expected.extend_from_slice(b"xy");
    expected.extend_from_slice(&0u64.to_le_bytes());
    assert_eq!(dag.to_bytes(), expected);
}

#[test]
fn reopen_gives_same_graph() {
    let dag = sample();
    let back = from_bytes(&dag.to_bytes()).unwrap();
    assert_eq!(back.all(), dag.all());
    for name in ["A", "B", "C", "D"] {
        assert_eq!(back.vertex_id_local(&v(name)), dag.vertex_id_local(&v(name)));
    }
    assert_eq!(back.master_len, dag.master_len);
    assert_eq!(back.segment_size, dag.segment_size);
    assert_eq!(back.to_bytes(), dag.to_bytes());
}

#[test]
fn truncated_or_extended_bytes_are_refused() {
    let bytes = sample().to_bytes();
    assert!(matches!(from_bytes(&bytes[..bytes.len() - 1].to_vec()), Err(DagError::PersistenceFailure)));
    let mut longer = bytes.clone();
    longer.push(0);
    assert!(matches!(from_bytes(&longer), Err(DagError::PersistenceFailure)));
    assert!(matches!(from_bytes(&vec![0u8; 10]), Err(DagError::PersistenceFailure)));
}

#[test]
fn ill_formed_graph_is_refused() {
    // One master entry whose parent is itself.
    let mut bytes = Vec::new();
    for word in [1u64, 3, 1, 0, 1, 0] {
        bytes.extend_from_slice(&word.to_le_bytes());
    }
    assert!(matches!(from_bytes(&bytes), Err(DagError::PersistenceFailure)));
    // A draft entry without a name.
    let mut bytes = Vec::new();
    for word in [0u64, 3, 1, 0, 0] {
        bytes.extend_from_slice(&word.to_le_bytes());
    }
    assert!(matches!(from_bytes(&bytes), Err(DagError::PersistenceFailure)));
}

#[test]
fn well_formed_check() {
    let dag = sample();
    assert!(dag.is_well_formed());
    let mut broken = dag.copy_dag();
    broken.master_len = 10;
    assert!(!broken.is_well_formed());
}
