use closure_graph::artifact::Artifact;
use closure_graph::error::ClosureError;
use closure_graph::graph::DependencyGraph;

fn art(id: &str, refs: &[&str]) -> Artifact {
    Artifact {
        identity: String::from(id),
        content_hash: String::from("sha256:0000"),
        size: 1,
        references: refs.iter().map(|r| String::from(*r)).collect(),
    }
}

fn build(arts: Vec<Artifact>) -> DependencyGraph {
    DependencyGraph::build(&arts).unwrap()
}

#[test]
fn builds_expected_edges() {
    let g = build(vec![art("/a", &[]), art("/b", &["/a"]), art("/c", &["/a", "/b"])]);
    assert_eq!(g.nodes.len(), 3);
    assert!(g.has_edge(&String::from("/a"), &String::from("/b")));
    assert!(g.has_edge(&String::from("/a"), &String::from("/c")));
    assert!(g.has_edge(&String::from("/b"), &String::from("/c")));
    assert!(!g.has_edge(&String::from("/b"), &String::from("/a")));
    assert!(!g.has_edge(&String::from("/c"), &String::from("/a")));
    assert!(!g.has_edge(&String::from("/a"), &String::from("/a")));
}

#[test]
fn unknown_identities_have_no_edges() {
    let g = build(vec![art("/a", &[]), art("/b", &["/a"])]);
    assert!(!g.has_edge(&String::from("/zzz"), &String::from("/b")));
    assert!(!g.has_edge(&String::from("/a"), &String::from("/zzz")));
}

#[test]
fn repeated_reference_entries_make_one_edge() {
    let g = build(vec![art("/a", &[]), art("/b", &["/a", "/a"])]);
    assert!(g.has_edge(&String::from("/a"), &String::from("/b")));
    assert_eq!(g.deps[1], vec![0usize]);
}

#[test]
fn rebuild_is_order_independent() {
    let pairs = ["/a", "/b", "/c"];
    let g1 = build(vec![art("/a", &[]), art("/b", &["/a"]), art("/c", &["/a", "/b"])]);
    let g2 = build(vec![art("/c", &["/a", "/b"]), art("/b", &["/a"]), art("/a", &[])]);
    let g3 = build(vec![art("/a", &[]), art("/b", &["/a"]), art("/c", &["/a", "/b"])]);
    assert_eq!(g1.nodes.len(), g2.nodes.len());
    for s in pairs.iter() {
        for t in pairs.iter() {
            let src = String::from(*s);
            let tgt = String::from(*t);
            assert_eq!(g1.has_edge(&src, &tgt), g2.has_edge(&src, &tgt));
            assert_eq!(g1.has_edge(&src, &tgt), g3.has_edge(&src, &tgt));
        }
    }
}

#[test]
fn self_reference_makes_no_edge() {
    let g = build(vec![art("/a", &["/a"]), art("/b", &["/a"])]);
    assert!(!g.has_edge(&String::from("/a"), &String::from("/a")));
    assert!(g.has_edge(&String::from("/a"), &String::from("/b")));
}

#[test]
fn duplicate_identities_are_dropped() {
    let g = build(vec![art("/a", &[]), art("/a", &[]), art("/b", &["/a"])]);
    assert_eq!(g.nodes.len(), 2);
    assert_eq!(g.nodes[0].identity, "/a");
    assert_eq!(g.nodes[1].identity, "/b");
}

#[test]
fn missing_reference_is_rejected() {
    let r = DependencyGraph::build(&vec![art("/a", &[]), art("/b", &["/a", "/gone"])]);
    match r {
        Err(ClosureError::MalformedReference(id)) => assert_eq!(id, "/gone"),
        _ => panic!("expected MalformedReference"),
    }
}

#[test]
fn empty_closure_builds() {
    let g = build(vec![]);
    assert_eq!(g.nodes.len(), 0);
}

#[test]
fn metadata_is_carried_through() {
    let mut a = art("/a", &[]);
    a.content_hash = String::from("sha256:feed");
    a.size = 42;
    let g = build(vec![a]);
    assert_eq!(g.nodes[0].content_hash, "sha256:feed");
    assert_eq!(g.nodes[0].size, 42);
    assert_eq!(g.nodes[0].references.len(), 0);
}
