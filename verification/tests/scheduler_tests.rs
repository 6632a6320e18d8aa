use closure_graph::artifact::Artifact;
use closure_graph::error::ClosureError;
use closure_graph::graph::DependencyGraph;
use closure_graph::scheduler::Scheduler;
use std::collections::HashSet;

fn art(id: &str, refs: &[&str]) -> Artifact {
    Artifact {
        identity: String::from(id),
        content_hash: String::from("sha256:0000"),
        size: 1,
        references: refs.iter().map(|r| String::from(*r)).collect(),
    }
}

fn scheduler_for(arts: Vec<Artifact>) -> Scheduler {
    Scheduler::new(DependencyGraph::build(&arts).unwrap())
}

fn ids(arts: &[Artifact]) -> Vec<String> {
    arts.iter().map(|a| a.identity.clone()).collect()
}

#[test]
fn concrete_scenario_unlocks_in_waves() {
    let mut s = scheduler_for(vec![
        art("/a", &[]),
        art("/b", &["/a"]),
        art("/c", &["/a", "/b"]),
    ]);
    assert_eq!(ids(&s.ready_now()), vec![String::from("/a")]);
    assert!(!s.is_complete());

    let newly = s.mark_uploaded(&String::from("/a")).unwrap();
    assert_eq!(ids(&newly), vec![String::from("/b")]);

    let newly = s.mark_uploaded(&String::from("/b")).unwrap();
    assert_eq!(ids(&newly), vec![String::from("/c")]);

    let newly = s.mark_uploaded(&String::from("/c")).unwrap();
    assert_eq!(newly.len(), 0);
    assert!(s.is_complete());
    assert_eq!(s.ready_now().len(), 0);
}

#[test]
fn fan_in_unlocks_once_either_order() {
    for order in [["/a", "/b"], ["/b", "/a"]] {
        let mut s = scheduler_for(vec![art("/a", &[]), art("/b", &[]), art("/c", &["/a", "/b"])]);
        let initial = ids(&s.ready_now());
        assert_eq!(initial, vec![String::from("/a"), String::from("/b")]);

        let first = s.mark_uploaded(&String::from(order[0])).unwrap();
        assert_eq!(first.len(), 0, "c must not unlock before both dependencies");
        let second = s.mark_uploaded(&String::from(order[1])).unwrap();
        assert_eq!(ids(&second), vec![String::from("/c")]);

        s.mark_uploaded(&String::from("/c")).unwrap();
        assert!(s.is_complete());
    }
}

#[test]
fn ready_sequence_preloads_independent_artifacts() {
    let mut s = scheduler_for(vec![art("/a", &[]), art("/b", &["/a"]), art("/c", &[])]);
    // Before any completion the queue already holds the dependency-free wave.
    let first = s.next_ready().unwrap();
    let second = s.next_ready().unwrap();
    assert_eq!(first.identity, "/a");
    assert_eq!(second.identity, "/c");
    assert!(s.next_ready().is_none());
}

#[test]
fn upload_all() {
    // A diamond on top of a chain; drain the ready sequence, marking every
    // pulled artifact uploaded, until nothing is pending.
    let arts = vec![
        art("/base", &[]),
        art("/lib1", &["/base"]),
        art("/lib2", &["/base"]),
        art("/app", &["/lib1", "/lib2"]),
        art("/doc", &[]),
        art("/bundle", &["/app", "/doc"]),
    ];
    let all: HashSet<String> = arts.iter().map(|a| a.identity.clone()).collect();
    let mut s = scheduler_for(arts);

    let mut delivered: Vec<String> = Vec::new();
    let mut uploaded: HashSet<String> = HashSet::new();
    while !s.is_complete() {
        let a = s.next_ready().expect("acyclic closure must keep making progress");
        // No premature delivery: every reference is already uploaded.
        for r in &a.references {
            if *r != a.identity {
                assert!(uploaded.contains(r), "{} delivered before {}", a.identity, r);
            }
        }
        delivered.push(a.identity.clone());
        s.mark_uploaded(&a.identity).unwrap();
        uploaded.insert(a.identity);
    }
    // Everything was delivered exactly once.
    assert_eq!(delivered.len(), all.len());
    let delivered_set: HashSet<String> = delivered.iter().cloned().collect();
    assert_eq!(delivered_set, all);
    assert_eq!(uploaded, all);
    assert!(s.next_ready().is_none());
    assert!(s.cycle_check().is_ok());
}

#[test]
fn self_reference_does_not_block_readiness() {
    let mut s = scheduler_for(vec![art("/a", &["/a"])]);
    assert_eq!(ids(&s.ready_now()), vec![String::from("/a")]);
    let a = s.next_ready().unwrap();
    assert_eq!(a.identity, "/a");
    s.mark_uploaded(&String::from("/a")).unwrap();
    assert!(s.is_complete());
}

#[test]
fn mutual_reference_is_reported_as_cycle() {
    let mut s = scheduler_for(vec![art("/a", &["/b"]), art("/b", &["/a"])]);
    assert_eq!(s.ready_now().len(), 0);
    assert!(s.next_ready().is_none());
    assert!(!s.is_complete());
    match s.cycle_check() {
        Err(ClosureError::CycleDetected(pending)) => {
            assert_eq!(pending, vec![String::from("/a"), String::from("/b")]);
        }
        _ => panic!("expected CycleDetected"),
    }
}

#[test]
fn cycle_check_passes_while_progress_is_possible() {
    let mut s = scheduler_for(vec![art("/a", &[]), art("/b", &["/a"])]);
    assert!(s.cycle_check().is_ok());
    s.mark_uploaded(&String::from("/a")).unwrap();
    assert!(s.cycle_check().is_ok());
    s.mark_uploaded(&String::from("/b")).unwrap();
    assert!(s.cycle_check().is_ok());
}

#[test]
fn double_completion_is_reported_and_changes_nothing() {
    let mut s = scheduler_for(vec![art("/a", &[]), art("/b", &["/a"])]);
    s.mark_uploaded(&String::from("/a")).unwrap();
    let ready_before = ids(&s.ready_now());
    let uploaded_before = s.uploaded.clone();
    match s.mark_uploaded(&String::from("/a")) {
        Err(ClosureError::AlreadyUploaded(id)) => assert_eq!(id, "/a"),
        _ => panic!("expected AlreadyUploaded"),
    }
    assert_eq!(ids(&s.ready_now()), ready_before);
    assert_eq!(s.uploaded, uploaded_before);
    assert!(!s.is_complete());
}

#[test]
fn unknown_artifact_is_reported() {
    let mut s = scheduler_for(vec![art("/a", &[])]);
    match s.mark_uploaded(&String::from("/nowhere")) {
        Err(ClosureError::UnknownArtifact(id)) => assert_eq!(id, "/nowhere"),
        _ => panic!("expected UnknownArtifact"),
    }
    assert_eq!(ids(&s.ready_now()), vec![String::from("/a")]);
}

#[test]
fn empty_closure_is_complete_at_once() {
    let mut s = scheduler_for(vec![]);
    assert!(s.is_complete());
    assert_eq!(s.ready_now().len(), 0);
    assert!(s.next_ready().is_none());
    assert!(s.cycle_check().is_ok());
}

#[test]
fn unlocked_artifacts_reach_queue_and_return_value_alike() {
    let mut s = scheduler_for(vec![art("/a", &[]), art("/b", &["/a"]), art("/c", &["/a"])]);
    let a = s.next_ready().unwrap();
    assert_eq!(a.identity, "/a");
    assert!(s.next_ready().is_none());
    let newly = s.mark_uploaded(&String::from("/a")).unwrap();
    assert_eq!(ids(&newly), vec![String::from("/b"), String::from("/c")]);
    // The same artifacts, in the same order, through the pull side.
    assert_eq!(s.next_ready().unwrap().identity, "/b");
    assert_eq!(s.next_ready().unwrap().identity, "/c");
    assert!(s.next_ready().is_none());
}
