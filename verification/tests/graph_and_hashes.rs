use crub_graper::graph::ModuleGraph;
use crub_graper::hashing::{content_hash, deep_hashes};
use crub_graper::unit::TranslationUnit;
use sha2::{Digest, Sha256};

fn unit(path: &str, exports: Option<&str>, imports: &[&str], base: &[u8]) -> TranslationUnit {
    TranslationUnit {
        path: path.to_string(),
        exported_module: exports.map(|s| s.to_string()),
        imports: imports.iter().map(|s| s.to_string()).collect(),
        base_hash: base.to_vec(),
    }
}

fn hex_sha(data: &[u8]) -> String {
    hex::encode(Sha256::digest(data))
}

#[test]
fn edges_run_from_exporter_to_importer() {
    let units = vec![
        unit("a.cppm", Some("a"), &[], b"A"),
        unit("b.cppm", Some("b"), &["a"], b"B"),
        unit("main.cpp", None, &["a", "b", "std"], b"M"),
    ];
    let g = ModuleGraph::from_units(&units);
    assert_eq!(g.node_count(), 3);
    assert_eq!(g.in_degree(0), 0);
    assert_eq!(g.in_degree(1), 1);
    assert_eq!(g.in_degree(2), 2);
    // most recently added edge first
    assert_eq!(g.predecessors(2), vec![1, 0]);
    assert_eq!(g.successors(0), vec![2, 1]);
    assert_eq!(g.successors(2), Vec::<usize>::new());
}

#[test]
fn the_last_exporter_of_a_module_wins() {
    let units = vec![
        unit("m1.cppm", Some("m"), &[], b"1"),
        unit("m2.cppm", Some("m"), &[], b"2"),
        unit("use.cpp", None, &["m"], b"3"),
    ];
    let g = ModuleGraph::from_units(&units);
    assert_eq!(g.predecessors(2), vec![1]);
    assert_eq!(g.in_degree(0), 0);
}

#[test]
fn repeated_imports_give_parallel_edges() {
    let units = vec![unit("a.cppm", Some("a"), &[], b""), unit("b.cpp", None, &["a", "a"], b"")];
    let g = ModuleGraph::from_units(&units);
    assert_eq!(g.in_degree(1), 2);
    assert_eq!(g.predecessors(1), vec![0, 0]);
}

#[test]
fn topological_order_puts_exporters_first() {
    let units = vec![
        unit("main.cpp", None, &["b"], b""),
        unit("b.cppm", Some("b"), &["a"], b""),
        unit("a.cppm", Some("a"), &[], b""),
    ];
    let g = ModuleGraph::from_units(&units);
    let order = g.topological_order().expect("acyclic");
    let pos = |v: usize| order.iter().position(|&x| x == v).unwrap();
    assert_eq!(order.len(), 3);
    assert!(pos(2) < pos(1));
    assert!(pos(1) < pos(0));
}

#[test]
fn import_cycles_have_no_order() {
    let units = vec![unit("a.cppm", Some("a"), &["b"], b""), unit("b.cppm", Some("b"), &["a"], b"")];
    let g = ModuleGraph::from_units(&units);
    assert!(g.topological_order().is_none());
    assert!(deep_hashes(&units, &g).is_none());
}

#[test]
fn a_unit_importing_itself_is_a_cycle() {
    let units = vec![unit("a.cppm", Some("a"), &["a"], b"")];
    let g = ModuleGraph::from_units(&units);
    assert!(g.topological_order().is_none());
}

#[test]
fn dependency_closure_walks_imports_backwards() {
    let units = vec![
        unit("a.cppm", Some("a"), &[], b""),
        unit("b.cppm", Some("b"), &["a"], b""),
        unit("main.cpp", None, &["b"], b""),
        unit("other.cpp", None, &["a"], b""),
    ];
    let g = ModuleGraph::from_units(&units);
    assert_eq!(g.dependency_closure(2), vec![2, 1, 0]);
    assert_eq!(g.dependency_closure(0), vec![0]);
    assert_eq!(g.dependency_closure(3), vec![3, 0]);
}

#[test]
fn content_hash_is_sha256() {
    let h = content_hash(b"abc");
    assert_eq!(hex::encode(&h), "ba7816bf8f01cfea414140de5dae2223b00361a396177a9cb410ff61f20015ad");
    assert_eq!(h.len(), 32);
}

#[test]
fn deep_hashes_chain_the_imported_hashes() {
    let units = vec![
        unit("a.cppm", Some("a"), &[], b"AAA"),
        unit("b.cppm", Some("b"), &[], b"BBB"),
        unit("main.cpp", None, &["a", "b"], b"MMM"),
    ];
    let g = ModuleGraph::from_units(&units);
    let h = deep_hashes(&units, &g).expect("acyclic");
    let ha = hex_sha(b"AAA");
    let hb = hex_sha(b"BBB");
    let mut input = b"MMM".to_vec();
    // predecessors come most recent edge first: b, then a
    input.extend_from_slice(hb.as_bytes());
    input.extend_from_slice(ha.as_bytes());
    assert_eq!(h[0], ha);
    assert_eq!(h[1], hb);
    assert_eq!(h[2], hex_sha(&input));
    assert!(h.iter().all(|s| s.len() == 64));
}

#[test]
fn changing_a_dependency_changes_the_dependent_hash() {
    let make = |base: &[u8]| {
        let units = vec![unit("a.cppm", Some("a"), &[], base), unit("m.cpp", None, &["a"], b"M")];
        let g = ModuleGraph::from_units(&units);
        deep_hashes(&units, &g).unwrap()
    };
    let one = make(b"v1");
    let two = make(b"v2");
    assert_ne!(one[0], two[0]);
    assert_ne!(one[1], two[1]);
    assert_eq!(make(b"v1"), one);
}

#[test]
fn ordinary_unit_lists_fit_the_graph_indices() {
    let units = vec![unit("a.cppm", Some("a"), &[], b""), unit("b.cpp", None, &["a", "zz"], b"")];
    assert!(crub_graper::graph::fits_graph_indices(&units));
    assert!(crub_graper::graph::fits_graph_indices(&Vec::new()));
}
