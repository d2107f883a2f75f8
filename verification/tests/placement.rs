use kuberina_solver::csp::{
    can_place_pod_on_node, check_node_selector, check_taint_toleration, compute_selector_violations,
    filter_eligible_nodes,
};
use kuberina_solver::ffd::first_fit_node;
use kuberina_solver::ga::{
    build_group_lookup, crossover_genes, eligible_nodes_for_pod, repair_parent, restore_group_from,
    swap_permitted, Parent,
};
use kuberina_solver::labels::Labels;
use kuberina_solver::model::{DaemonSet, Node, Pod, PodGroup};
use kuberina_solver::phase0::{daemonsets_for_node, is_eligible};

fn labels(pairs: &[(&str, &str)]) -> Labels {
    Labels::from_pairs(pairs.iter().map(|(k, v)| (k.to_string(), v.to_string())).collect())
}

fn pod(name: &str) -> Pod {
    Pod {
        name: name.into(),
        namespace: "ns".into(),
        tolerations: vec![],
        node_selector: Labels::new(),
        affinity_targets: vec![],
        anti_affinity_targets: vec![],
        group_name: String::new(),
        topology_spread: None,
    }
}

fn node(name: &str) -> Node {
    Node {
        name: name.into(),
        labels: Labels::new(),
        taints: vec![],
        zone: String::new(),
        rack: String::new(),
    }
}

fn group(name: &str, members: Vec<usize>) -> PodGroup {
    PodGroup {
        name: name.into(),
        min_members: members.len(),
        pod_indices: members,
        node_selector: Labels::new(),
        colocate: false,
    }
}

#[test]
fn taint_toleration_no_taint_passes() {
    assert!(check_taint_toleration(&pod("p"), &node("n")));
}

#[test]
fn taint_toleration_without_matching_toleration_fails() {
    let n = Node {
        taints: vec!["gpu-only".into()],
        ..node("n")
    };
    assert!(!check_taint_toleration(&pod("p"), &n));
}

#[test]
fn taint_toleration_with_matching_toleration_passes() {
    let p = Pod {
        tolerations: vec!["gpu-only".into()],
        ..pod("p")
    };
    let n = Node {
        taints: vec!["gpu-only".into()],
        ..node("n")
    };
    assert!(check_taint_toleration(&p, &n));
}

#[test]
fn node_selector_empty_passes() {
    assert!(check_node_selector(&pod("p"), &node("n")));
}

#[test]
fn node_selector_match_passes() {
    let p = Pod {
        node_selector: labels(&[("zone", "us-east")]),
        ..pod("p")
    };
    let n = Node {
        labels: labels(&[("zone", "us-east")]),
        ..node("n")
    };
    assert!(check_node_selector(&p, &n));
}

#[test]
fn node_selector_mismatch_fails() {
    let p = Pod {
        node_selector: labels(&[("zone", "us-east")]),
        ..pod("p")
    };
    assert!(!check_node_selector(&p, &node("n")));
}

#[test]
fn selector_violations_count() {
    let p = Pod {
        node_selector: labels(&[("gpu", "true")]),
        ..pod("p")
    };
    let n = node("n");
    assert_eq!(compute_selector_violations(&[0], &[p], &[n]), 1);
}

#[test]
fn node_selector_with_other_value_fails() {
    let p = Pod {
        node_selector: labels(&[("zone", "us-east")]),
        ..pod("p")
    };
    let n = Node {
        labels: labels(&[("zone", "us-west"), ("gpu", "true")]),
        ..node("n")
    };
    assert!(!check_node_selector(&p, &n));
}

#[test]
fn one_untolerated_taint_among_several_blocks_the_node() {
    let p = Pod {
        tolerations: vec!["gpu-only".into()],
        ..pod("p")
    };
    let n = Node {
        taints: vec!["gpu-only".into(), "dedicated".into()],
        ..node("n")
    };
    assert!(!check_taint_toleration(&p, &n));
    assert!(!can_place_pod_on_node(&p, &n));
}

#[test]
fn placement_needs_both_checks() {
    let p = Pod {
        tolerations: vec!["gpu-only".into()],
        node_selector: labels(&[("gpu", "true")]),
        ..pod("p")
    };
    let tainted_unlabelled = Node {
        taints: vec!["gpu-only".into()],
        ..node("a")
    };
    let tainted_labelled = Node {
        taints: vec!["gpu-only".into()],
        labels: labels(&[("gpu", "true")]),
        ..node("b")
    };
    assert!(!can_place_pod_on_node(&p, &tainted_unlabelled));
    assert!(can_place_pod_on_node(&p, &tainted_labelled));
}

#[test]
fn violations_are_zero_when_every_placement_passes() {
    let pods = vec![
        Pod {
            node_selector: labels(&[("gpu", "true")]),
            ..pod("a")
        },
        pod("b"),
        pod("c"),
    ];
    let nodes = vec![
        node("plain"),
        Node {
            labels: labels(&[("gpu", "true")]),
            ..node("gpu")
        },
    ];
    assert_eq!(compute_selector_violations(&[1, 0, 1], &pods, &nodes), 0);
    assert_eq!(compute_selector_violations(&[0, 0, 1], &pods, &nodes), 1);
    assert_eq!(compute_selector_violations(&[], &pods, &nodes), 0);
}

#[test]
fn gang_eligibility_uses_the_group_selector_and_first_member_tolerations() {
    let pods = vec![
        Pod {
            tolerations: vec!["gpu-only".into()],
            ..pod("t-0")
        },
        pod("t-1"),
    ];
    let g = PodGroup {
        node_selector: labels(&[("accelerator", "h100")]),
        ..group("train", vec![0, 1])
    };
    let nodes = vec![
        Node {
            labels: labels(&[("accelerator", "h100")]),
            taints: vec!["gpu-only".into()],
            ..node("n0")
        },
        node("n1"),
        Node {
            labels: labels(&[("accelerator", "h100")]),
            taints: vec!["other".into()],
            ..node("n2")
        },
        Node {
            labels: labels(&[("accelerator", "h100")]),
            ..node("n3")
        },
    ];
    assert_eq!(filter_eligible_nodes(&g, &nodes, &pods), vec![0, 3]);
}

#[test]
fn eligible_empty_selector_matches_all() {
    let ds = DaemonSet {
        name: "kube-proxy".into(),
        node_selector: Labels::new(),
        tolerations: vec![],
    };
    assert!(is_eligible(&ds, &node("n1")));
}

#[test]
fn eligible_selector_mismatch() {
    let ds = DaemonSet {
        name: "gpu-plugin".into(),
        node_selector: labels(&[("gpu", "true")]),
        tolerations: vec![],
    };
    assert!(!is_eligible(&ds, &node("n1")));
}

#[test]
fn daemonset_without_tolerations_runs_on_tainted_nodes() {
    let tainted = Node {
        taints: vec!["gpu-only".into()],
        ..node("n")
    };
    let open = DaemonSet {
        name: "kube-proxy".into(),
        node_selector: Labels::new(),
        tolerations: vec![],
    };
    let picky = DaemonSet {
        name: "logger".into(),
        node_selector: Labels::new(),
        tolerations: vec!["other".into()],
    };
    let matching = DaemonSet {
        name: "gpu-plugin".into(),
        node_selector: Labels::new(),
        tolerations: vec!["gpu-only".into()],
    };
    assert!(is_eligible(&open, &tainted));
    assert!(!is_eligible(&picky, &tainted));
    assert!(is_eligible(&matching, &tainted));
    assert_eq!(daemonsets_for_node(&tainted, &[open, picky, matching]), vec![0, 2]);
}

#[test]
fn first_fit_takes_the_first_node_with_room() {
    let p = pod("p");
    let nodes = vec![node("a"), node("b"), node("c")];
    assert_eq!(first_fit_node(&p, &nodes, &[false, true, true]), 1);
    assert_eq!(first_fit_node(&p, &nodes, &[true, true, true]), 0);
}

#[test]
fn first_fit_skips_nodes_that_fail_the_prescreen() {
    let p = Pod {
        node_selector: labels(&[("gpu", "true")]),
        ..pod("p")
    };
    let nodes = vec![
        node("a"),
        Node {
            labels: labels(&[("gpu", "true")]),
            ..node("b")
        },
        Node {
            labels: labels(&[("gpu", "true")]),
            ..node("c")
        },
    ];
    assert_eq!(first_fit_node(&p, &nodes, &[true, false, true]), 2);
    // No eligible node has room: the first eligible one, not node 0.
    assert_eq!(first_fit_node(&p, &nodes, &[true, false, false]), 1);
}

#[test]
fn first_fit_falls_back_to_node_zero_when_nothing_is_eligible() {
    let p = Pod {
        node_selector: labels(&[("gpu", "true")]),
        ..pod("p")
    };
    let nodes = vec![node("a"), node("b")];
    assert_eq!(first_fit_node(&p, &nodes, &[true, true]), 0);
}

#[test]
fn group_lookup_maps_correctly() {
    let groups = vec![PodGroup {
        min_members: 2,
        ..group("g", vec![1, 3])
    }];
    let lookup = build_group_lookup(&groups, 5);
    assert_eq!(lookup[0], None);
    assert_eq!(lookup[1], Some(0));
    assert_eq!(lookup[2], None);
    assert_eq!(lookup[3], Some(0));
}

#[test]
fn group_lookup_gives_the_last_group_listing_a_pod() {
    let groups = vec![group("a", vec![0, 2]), group("b", vec![2, 1])];
    let lookup = build_group_lookup(&groups, 4);
    assert_eq!(lookup, vec![Some(0), Some(1), Some(1), None]);
}

#[test]
fn eligible_nodes_filters_by_selector() {
    let p = Pod {
        node_selector: labels(&[("gpu", "true")]),
        ..pod("p")
    };
    let nodes = vec![
        node("n0"),
        Node {
            labels: labels(&[("gpu", "true")]),
            ..node("n1")
        },
    ];
    let eligible = eligible_nodes_for_pod(&p, &nodes);
    assert_eq!(eligible, vec![1]);
}

#[test]
fn restoring_a_gang_copies_only_its_members() {
    let mut child = vec![0, 1, 2, 3, 4];
    let source = vec![9, 8, 7, 6, 5];
    restore_group_from(&mut child, &source, &group("g", vec![3, 1]));
    assert_eq!(child, vec![0, 8, 2, 6, 4]);
    // A second restore from the same parent changes nothing more.
    restore_group_from(&mut child, &source, &group("g", vec![3, 1]));
    assert_eq!(child, vec![0, 8, 2, 6, 4]);
}

#[test]
fn crossover_child_takes_each_gene_from_the_chosen_parent() {
    let p1 = vec![0, 1, 2];
    let p2 = vec![2, 1, 0];
    assert_eq!(crossover_genes(&p1, &p2, &[true, false, false]), vec![0, 1, 0]);
    assert_eq!(crossover_genes(&p1, &p2, &[false, false, false]), p2);
    assert_eq!(crossover_genes(&p1, &p2, &[true, true, true]), p1);
    assert_eq!(crossover_genes(&p1, &[5, 6], &[false, false, true]), vec![5, 6]);
}

#[test]
fn swap_needs_distinct_pods_on_distinct_nodes_that_accept_each_other() {
    let pods = vec![
        pod("a"),
        Pod {
            node_selector: labels(&[("gpu", "true")]),
            ..pod("b")
        },
        pod("c"),
    ];
    let nodes = vec![
        node("plain"),
        Node {
            labels: labels(&[("gpu", "true")]),
            ..node("gpu")
        },
    ];
    let assignment = vec![0, 1, 1];
    assert!(!swap_permitted(&assignment, &pods, &nodes, 0, 0));
    assert!(!swap_permitted(&assignment, &pods, &nodes, 1, 2));
    // Pod b would land on the plain node, which lacks its label.
    assert!(!swap_permitted(&assignment, &pods, &nodes, 0, 1));
    assert!(swap_permitted(&assignment, &pods, &nodes, 0, 2));
}

#[test]
fn broken_gang_rolls_back_to_a_parent_where_it_was_feasible() {
    assert_eq!(repair_parent(true, true, true), Some(Parent::First));
    assert_eq!(repair_parent(true, true, false), Some(Parent::Second));
    assert_eq!(repair_parent(true, false, false), Some(Parent::First));
    assert_eq!(repair_parent(false, true, true), Some(Parent::Second));
    assert_eq!(repair_parent(false, false, true), None);
}

#[test]
fn permitted_swaps_and_eligible_moves_add_no_violation() {
    let pods = vec![
        pod("a"),
        Pod {
            node_selector: labels(&[("gpu", "true")]),
            ..pod("b")
        },
        pod("c"),
    ];
    let nodes = vec![
        node("plain"),
        Node {
            labels: labels(&[("gpu", "true")]),
            ..node("gpu")
        },
    ];
    // Pod b sits on the plain node: one violation.
    let before = vec![1, 0, 1];
    assert_eq!(compute_selector_violations(&before, &pods, &nodes), 1);

    // Swapping a and b puts each on a node it passes.
    assert!(swap_permitted(&before, &pods, &nodes, 0, 1));
    let mut swapped = before.clone();
    swapped.swap(0, 1);
    assert_eq!(compute_selector_violations(&swapped, &pods, &nodes), 0);

    // Moving b to a node from its eligible list.
    let mut moved = before.clone();
    moved[1] = eligible_nodes_for_pod(&pods[1], &nodes)[0];
    assert_eq!(compute_selector_violations(&moved, &pods, &nodes), 0);
}

#[test]
fn labels_keep_the_last_value_of_a_repeated_key() {
    let l = labels(&[("zone", "a"), ("gpu", "true"), ("zone", "b")]);
    assert_eq!(l.len(), 2);
    assert_eq!(l.get(&"zone".to_string()), Some(&"b".to_string()));
    assert_eq!(l.get(&"rack".to_string()), None);
    assert!(labels(&[("zone", "b")]).is_submap_of(&l));
    assert!(!labels(&[("zone", "a")]).is_submap_of(&l));
    assert!(Labels::new().is_submap_of(&l));
    let copy = l.clone();
    assert_eq!(copy.get(&"gpu".to_string()), Some(&"true".to_string()));
    let mut pairs = copy.to_pairs();
    pairs.sort();
    assert_eq!(
        pairs,
        vec![("gpu".to_string(), "true".to_string()), ("zone".to_string(), "b".to_string())]
    );
}
