use kuberina_solver::fitness::{
    compute_affinity_violations, compute_topology_spread_penalty, count_active_nodes,
    is_first_with_spread, share_base_name,
};
use kuberina_solver::labels::Labels;
use kuberina_solver::model::{default_max_skew, Node, Pod, TopologySpread};

fn pod(name: &str) -> Pod {
    Pod {
        name: name.into(),
        namespace: "ns".into(),
        tolerations: vec![],
        node_selector: Labels::new(),
        affinity_targets: vec![],
        anti_affinity_targets: vec![],
        group_name: String::new(),
        topology_spread: None,
    }
}

fn node(name: &str) -> Node {
    Node {
        name: name.into(),
        labels: Labels::new(),
        taints: vec![],
        zone: String::new(),
        rack: String::new(),
    }
}

fn spread(max_skew: usize, key: &str) -> Option<TopologySpread> {
    Some(TopologySpread {
        max_skew,
        topology_key: key.into(),
    })
}

#[test]
fn count_active_nodes_basic() {
    assert_eq!(count_active_nodes(&[0, 0, 2], 3), 2);
    assert_eq!(count_active_nodes(&[1, 1, 1], 3), 1);
}

#[test]
fn active_nodes_of_an_empty_plan_is_zero() {
    assert_eq!(count_active_nodes(&[], 3), 0);
    assert_eq!(count_active_nodes(&[2, 0, 1, 0, 2], 3), 3);
}

#[test]
fn affinity_violation_detected() {
    let pods = vec![
        Pod {
            affinity_targets: vec!["b".into()],
            ..pod("a")
        },
        pod("b"),
    ];
    assert_eq!(compute_affinity_violations(&[0, 1], &pods), 1);
}

#[test]
fn affinity_satisfied_no_violation() {
    let pods = vec![
        Pod {
            affinity_targets: vec!["b".into()],
            ..pod("a")
        },
        pod("b"),
    ];
    assert_eq!(compute_affinity_violations(&[0, 0], &pods), 0);
}

#[test]
fn anti_affinity_violation() {
    let pods = vec![
        Pod {
            anti_affinity_targets: vec!["b".into()],
            ..pod("a")
        },
        pod("b"),
    ];
    assert_eq!(compute_affinity_violations(&[0, 0], &pods), 1);
}

#[test]
fn affinity_pair_counts_whichever_pod_names_the_other() {
    // Only the later pod names its partner: the pair is still violated when split.
    let pods = vec![
        pod("a"),
        Pod {
            affinity_targets: vec!["a".into()],
            ..pod("b")
        },
    ];
    assert_eq!(compute_affinity_violations(&[0, 1], &pods), 1);
    assert_eq!(compute_affinity_violations(&[0, 0], &pods), 0);
    let anti = vec![
        pod("a"),
        Pod {
            anti_affinity_targets: vec!["a".into()],
            ..pod("b")
        },
    ];
    assert_eq!(compute_affinity_violations(&[1, 1], &anti), 1);
}

#[test]
fn affinity_pairs_count_once_however_often_they_are_named() {
    // a and b name each other, c names a twice and a missing pod.
    let pods = vec![
        Pod {
            affinity_targets: vec!["b".into()],
            ..pod("a")
        },
        Pod {
            affinity_targets: vec!["a".into()],
            ..pod("b")
        },
        Pod {
            affinity_targets: vec!["missing".into(), "a".into(), "a".into()],
            ..pod("c")
        },
    ];
    assert_eq!(compute_affinity_violations(&[0, 1, 1], &pods), 2);
    assert_eq!(compute_affinity_violations(&[0, 0, 1], &pods), 1);
    assert_eq!(compute_affinity_violations(&[0, 0, 0], &pods), 0);
}

#[test]
fn a_pod_naming_itself_is_no_pair() {
    let pods = vec![Pod {
        anti_affinity_targets: vec!["a".into()],
        ..pod("a")
    }];
    assert_eq!(compute_affinity_violations(&[0], &pods), 0);
}

#[test]
fn share_base_name_strips_the_replica_suffix() {
    assert!(share_base_name(&"worker-0000".to_string(), &"worker-0003".to_string()));
    assert!(share_base_name(&"web-api-1".to_string(), &"web-api-7".to_string()));
    assert!(!share_base_name(&"web-api-1".to_string(), &"web-db-1".to_string()));
    assert!(share_base_name(&"solo".to_string(), &"solo-0".to_string()));
}

#[test]
fn topology_spread_penalty_skew() {
    let ts = Some(TopologySpread {
        max_skew: 1,
        topology_key: "zone".into(),
    });
    let pods = vec![
        Pod {
            name: "w-0000".into(),
            topology_spread: ts.clone(),
            ..pod("w-0000")
        },
        Pod {
            name: "w-0001".into(),
            topology_spread: ts.clone(),
            ..pod("w-0001")
        },
        Pod {
            name: "w-0002".into(),
            topology_spread: ts.clone(),
            ..pod("w-0002")
        },
    ];
    let nodes = vec![
        Node {
            zone: "us-east-1a".into(),
            ..node("n0")
        },
        Node {
            zone: "us-east-1b".into(),
            ..node("n1")
        },
    ];
    // 3 pods across 2 zones: [0,0,0] gives zone-a=3, zone-b=0, skew 3, max_skew 1, penalty 2
    let penalty = compute_topology_spread_penalty(&[0, 0, 0], &pods, &nodes);
    assert_eq!(penalty, 2);

    // [0,1,0] gives zone-a=2, zone-b=1, skew 1: no penalty
    let penalty = compute_topology_spread_penalty(&[0, 1, 0], &pods, &nodes);
    assert_eq!(penalty, 0);
}

#[test]
fn spread_needs_two_domains() {
    let pods = vec![
        Pod {
            topology_spread: spread(0, "rack"),
            ..pod("w-0")
        },
        Pod {
            topology_spread: spread(0, "rack"),
            ..pod("w-1")
        },
    ];
    let one_rack = vec![
        Node {
            rack: "r1".into(),
            ..node("n0")
        },
        Node {
            rack: "r1".into(),
            ..node("n1")
        },
    ];
    assert_eq!(compute_topology_spread_penalty(&[0, 0], &pods, &one_rack), 0);
    let two_racks = vec![
        Node {
            rack: "r1".into(),
            ..node("n0")
        },
        Node {
            rack: "r2".into(),
            ..node("n1")
        },
    ];
    assert_eq!(compute_topology_spread_penalty(&[0, 0], &pods, &two_racks), 2);
    assert_eq!(compute_topology_spread_penalty(&[0, 1], &pods, &two_racks), 0);
}

#[test]
fn spread_classes_are_separated_by_namespace_and_base_name() {
    let ts = spread(default_max_skew(), "zone");
    let pods = vec![
        Pod {
            topology_spread: ts.clone(),
            ..pod("api-0000")
        },
        Pod {
            topology_spread: ts.clone(),
            ..pod("api-0001")
        },
        Pod {
            topology_spread: ts.clone(),
            namespace: "other".into(),
            ..pod("api-0002")
        },
        Pod {
            topology_spread: ts.clone(),
            ..pod("db-0000")
        },
        pod("api-0003"),
    ];
    let nodes = vec![
        Node {
            zone: "a".into(),
            ..node("n0")
        },
        Node {
            zone: "b".into(),
            ..node("n1")
        },
    ];
    assert!(is_first_with_spread(&pods, 0));
    assert!(!is_first_with_spread(&pods, 1));
    assert!(is_first_with_spread(&pods, 2));
    assert!(is_first_with_spread(&pods, 3));
    assert!(!is_first_with_spread(&pods, 4));
    // Class "ns/api" holds two pods on zone a: skew 2, penalty 1. The pod in
    // "other" and the one without a constraint do not join it.
    assert_eq!(compute_topology_spread_penalty(&[0, 0, 0, 1, 0], &pods, &nodes), 1);
}

#[test]
fn default_max_skew_is_one() {
    assert_eq!(default_max_skew(), 1);
}
