use kuberina_solver::blueprint::render_solution;
use kuberina_solver::gangs::{auto_group_gangs, merge_groups, resolve_declared_groups};
use kuberina_solver::labels::Labels;
use kuberina_solver::model::{Pod, TopologySpread};
use kuberina_solver::parser::{
    check_document_header, claim_pod, default_replicas, flatten_namespaces, flatten_taint,
    flatten_toleration, format_replica_name, resolve_members, resolve_min_members, sorted_distinct,
    DeclarationIndex, RawNamespace, RawPod, RawPodGroup, RawTaint, RawToleration, IR_API_VERSION,
    KIND_INFRASTRUCTURE, KIND_WORKLOADS,
};
use kuberina_solver::workloads::assemble_workloads;

fn raw_pod(name: &str, replicas: usize) -> RawPod {
    RawPod {
        name: name.into(),
        replicas,
        gang: None,
        node_selector: Labels::new(),
        tolerations: vec![],
        affinity: vec![],
        anti_affinity: vec![],
        topology_spread: None,
    }
}

fn namespace(name: &str, pods: Vec<RawPod>) -> RawNamespace {
    RawNamespace {
        name: name.into(),
        pods,
    }
}

fn raw_group(name: &str, members: &[&str]) -> RawPodGroup {
    RawPodGroup {
        name: name.into(),
        members: members.iter().map(|m| m.to_string()).collect(),
        min_members: None,
        colocate: false,
        node_selector: Labels::new(),
    }
}

fn plain_pod(name: &str, group: &str) -> Pod {
    Pod {
        name: name.into(),
        namespace: "ai".into(),
        tolerations: vec![],
        node_selector: Labels::new(),
        affinity_targets: vec![],
        anti_affinity_targets: vec![],
        group_name: group.into(),
        topology_spread: None,
    }
}

#[test]
fn replica_unrolling() {
    let ns = vec![namespace("ai", vec![raw_pod("llm-worker", 3)])];
    let pods = flatten_namespaces(&ns).pods;
    assert_eq!(pods.len(), 3);
    assert_eq!(pods[0].name, "llm-worker-0000");
    assert_eq!(pods[1].name, "llm-worker-0001");
    assert_eq!(pods[2].name, "llm-worker-0002");
    assert_eq!(pods[0].namespace, "ai");
}

#[test]
fn gang_auto_grouping() {
    let ns = vec![namespace(
        "ai",
        vec![RawPod {
            gang: Some("training-job".into()),
            ..raw_pod("trainer", 4)
        }],
    )];
    let pods = flatten_namespaces(&ns).pods;
    let groups = auto_group_gangs(&pods);
    assert_eq!(groups.len(), 1);
    assert_eq!(groups[0].name, "training-job");
    assert_eq!(groups[0].min_members, 4);
    assert_eq!(groups[0].pod_indices.len(), 4);
}

#[test]
fn namespace_flattening() {
    let ns = vec![
        namespace("monitoring", vec![raw_pod("grafana", 1)]),
        namespace("database", vec![raw_pod("postgres", 1)]),
    ];
    let pods = flatten_namespaces(&ns).pods;
    assert_eq!(pods.len(), 2);
    // "database" comes before "monitoring" alphabetically
    assert_eq!(pods[0].namespace, "database");
    assert_eq!(pods[0].name, "postgres-0");
    assert_eq!(pods[1].namespace, "monitoring");
    assert_eq!(pods[1].name, "grafana-0");
}

#[test]
fn topology_spread_parsed() {
    let ns = vec![namespace(
        "ai",
        vec![RawPod {
            topology_spread: Some(TopologySpread {
                max_skew: 2,
                topology_key: "zone".into(),
            }),
            ..raw_pod("inference", 1)
        }],
    )];
    let pods = flatten_namespaces(&ns).pods;
    let ts = pods[0].topology_spread.as_ref().unwrap();
    assert_eq!(ts.max_skew, 2);
    assert_eq!(ts.topology_key, "zone");
}

#[test]
fn single_replica_naming() {
    assert_eq!(format_replica_name("grafana", 0, 1), "grafana-0");
}

#[test]
fn multi_replica_naming() {
    assert_eq!(format_replica_name("worker", 0, 18), "worker-0000");
    assert_eq!(format_replica_name("worker", 17, 18), "worker-0017");
}

#[test]
fn replica_names_past_four_digits_are_not_cut() {
    assert_eq!(format_replica_name("w", 12345, 20000), "w-12345");
    assert_eq!(format_replica_name("w", 0, 0), "w-0");
}

#[test]
fn header_accepts_v1_and_an_absent_header() {
    assert!(check_document_header(&None, &None, KIND_WORKLOADS, "t").is_ok());
    assert!(check_document_header(
        &Some(IR_API_VERSION.into()),
        &Some(KIND_WORKLOADS.into()),
        KIND_WORKLOADS,
        "t",
    )
    .is_ok());
}

#[test]
fn header_rejects_unknown_version_and_wrong_kind() {
    let bad_version =
        check_document_header(&Some("kuberina.io/v2".into()), &None, KIND_WORKLOADS, "f.yaml")
            .unwrap_err();
    assert!(bad_version.contains("kuberina.io/v2"), "{bad_version}");
    assert!(bad_version.contains(IR_API_VERSION), "{bad_version}");

    let bad_kind = check_document_header(
        &None,
        &Some("Infrastructure".into()),
        KIND_WORKLOADS,
        "f.yaml",
    )
    .unwrap_err();
    assert!(bad_kind.contains("Workloads"), "{bad_kind}");
}

#[test]
fn header_messages_are_exact_and_the_version_is_checked_first() {
    let both_bad = check_document_header(
        &Some("v0".into()),
        &Some("Blueprint".into()),
        KIND_INFRASTRUCTURE,
        "infra.yaml",
    )
    .unwrap_err();
    assert_eq!(
        both_bad,
        "infra.yaml: unsupported apiVersion 'v0', this binary implements 'kuberina.io/v1'"
    );
    let bad_kind = check_document_header(
        &Some(IR_API_VERSION.into()),
        &Some("Blueprint".into()),
        KIND_INFRASTRUCTURE,
        "infra.yaml",
    )
    .unwrap_err();
    assert_eq!(bad_kind, "infra.yaml: expected kind 'Infrastructure', found 'Blueprint'");
}

#[test]
fn declared_group_carries_min_members_and_colocate() {
    let ns = vec![namespace("ai", vec![raw_pod("trainer", 4)])];
    let groups_in = vec![RawPodGroup {
        min_members: Some(3),
        colocate: true,
        node_selector: Labels::from_pairs(vec![("accelerator".into(), "h100".into())]),
        ..raw_group("training-job", &["ai/trainer"])
    }];
    let flat = flatten_namespaces(&ns);
    let mut pods = flat.pods;
    let groups = resolve_declared_groups(&groups_in, &flat.declarations, &mut pods).unwrap();

    assert_eq!(groups.len(), 1);
    assert_eq!(groups[0].pod_indices.len(), 4);
    assert_eq!(groups[0].min_members, 3, "partial admission must be reachable");
    assert!(groups[0].colocate, "forced co-location must be reachable");
    assert_eq!(
        groups[0].node_selector.get(&"accelerator".to_string()),
        Some(&"h100".to_string())
    );
    assert!(pods.iter().all(|p| p.group_name == "training-job"));
}

#[test]
fn declared_group_defaults_min_members_to_the_whole_gang() {
    let ns = vec![namespace("ai", vec![raw_pod("trainer", 2)])];
    let groups_in = vec![raw_group("g", &["ai/trainer"])];
    let flat = flatten_namespaces(&ns);
    let mut pods = flat.pods;
    let groups = resolve_declared_groups(&groups_in, &flat.declarations, &mut pods).unwrap();
    assert_eq!(groups[0].min_members, 2);
}

#[test]
fn declared_group_rejects_bad_members_and_bad_min_members() {
    let ns = vec![namespace("ai", vec![raw_pod("trainer", default_replicas())])];
    let groups_in = vec![raw_group("g", &["ai/typo"])];
    let flat = flatten_namespaces(&ns);
    let mut pods = flat.pods;
    let err = resolve_declared_groups(&groups_in, &flat.declarations, &mut pods).unwrap_err();
    assert!(err.contains("ai/typo"), "{err}");
    assert!(err.contains("namespace/name"), "{err}");

    let ns = vec![namespace("ai", vec![raw_pod("trainer", 2)])];
    let groups_in = vec![RawPodGroup {
        min_members: Some(5),
        ..raw_group("g", &["ai/trainer"])
    }];
    let flat = flatten_namespaces(&ns);
    let mut pods = flat.pods;
    let err = resolve_declared_groups(&groups_in, &flat.declarations, &mut pods).unwrap_err();
    assert!(err.contains("min_members is 5"), "{err}");
    assert!(err.contains("1..=2"), "{err}");
}

#[test]
fn declared_group_and_inline_gang_coexist() {
    let ns = vec![namespace(
        "ai",
        vec![
            raw_pod("trainer", 2),
            RawPod {
                gang: Some("helpers".into()),
                ..raw_pod("sidecar", 2)
            },
        ],
    )];
    let groups_in = vec![RawPodGroup {
        min_members: Some(1),
        ..raw_group("training-job", &["ai/trainer"])
    }];
    let flat = flatten_namespaces(&ns);
    let mut pods = flat.pods;
    let declared = resolve_declared_groups(&groups_in, &flat.declarations, &mut pods).unwrap();
    let groups = merge_groups(declared, &pods);

    assert_eq!(groups.len(), 2);
    // Sorted by name: helpers keeps the shorthand's defaults, training-job keeps its own.
    assert_eq!(groups[0].name, "helpers");
    assert_eq!(groups[0].min_members, 2);
    assert_eq!(groups[1].name, "training-job");
    assert_eq!(groups[1].min_members, 1);
}

#[test]
fn a_pod_cannot_belong_to_two_groups() {
    let ns = vec![namespace(
        "ai",
        vec![RawPod {
            gang: Some("helpers".into()),
            ..raw_pod("trainer", 1)
        }],
    )];
    let groups_in = vec![raw_group("training-job", &["ai/trainer"])];
    let flat = flatten_namespaces(&ns);
    let mut pods = flat.pods;
    let err = resolve_declared_groups(&groups_in, &flat.declarations, &mut pods).unwrap_err();
    assert!(err.contains("helpers"), "{err}");
    assert!(err.contains("training-job"), "{err}");
}

#[test]
fn two_declared_groups_cannot_share_a_pod() {
    let ns = vec![namespace("ai", vec![raw_pod("trainer", 2)])];
    let groups_in = vec![raw_group("a", &["ai/trainer"]), raw_group("b", &["ai/trainer"])];
    let flat = flatten_namespaces(&ns);
    let mut pods = flat.pods;
    let err = resolve_declared_groups(&groups_in, &flat.declarations, &mut pods).unwrap_err();
    assert_eq!(
        err,
        "pod 'ai/trainer-0000' is claimed by group 'a' and group 'b'; a pod belongs to at most one group"
    );
}

#[test]
fn a_group_may_restate_the_gang_its_pods_already_carry() {
    let ns = vec![namespace(
        "ai",
        vec![RawPod {
            gang: Some("job".into()),
            ..raw_pod("trainer", 3)
        }],
    )];
    let groups_in = vec![RawPodGroup {
        min_members: Some(2),
        ..raw_group("job", &["ai/trainer"])
    }];
    let flat = flatten_namespaces(&ns);
    let mut pods = flat.pods;
    let declared = resolve_declared_groups(&groups_in, &flat.declarations, &mut pods).unwrap();
    let groups = merge_groups(declared, &pods);
    // The declaration wins over the shorthand of the same name.
    assert_eq!(groups.len(), 1);
    assert_eq!(groups[0].min_members, 2);
    assert_eq!(groups[0].pod_indices, vec![0, 1, 2]);
}

#[test]
fn members_resolve_sorted_without_duplicates() {
    let ns = vec![
        namespace("b", vec![raw_pod("x", 2)]),
        namespace("a", vec![raw_pod("y", 1), raw_pod("z", 1)]),
    ];
    let flat = flatten_namespaces(&ns);
    // Order: a/y (0), a/z (1), b/x (2, 3).
    let rg = raw_group("g", &["b/x", "a/y", "b/x"]);
    assert_eq!(resolve_members(&rg, &flat.declarations).unwrap(), vec![0, 2, 3]);
    assert_eq!(flat.origins, vec![(1, 0), (1, 1), (0, 0), (0, 0)]);

    let empty = raw_group("nobody", &[]);
    assert_eq!(
        resolve_members(&empty, &flat.declarations).unwrap_err(),
        "group 'nobody': resolved to no pods"
    );
    let typo = raw_group("g", &["a/y", "a/q", "c/r"]);
    assert_eq!(
        resolve_members(&typo, &flat.declarations).unwrap_err(),
        "group 'g': member 'a/q' matches no pod declaration; expected 'namespace/name'"
    );
}

#[test]
fn min_members_must_lie_between_one_and_the_gang_size() {
    let mut rg = raw_group("g", &["ai/trainer"]);
    assert_eq!(resolve_min_members(&rg, 3), Ok(3));
    rg.min_members = Some(0);
    assert_eq!(
        resolve_min_members(&rg, 3),
        Err("group 'g': min_members is 0, expected 1..=3".to_string())
    );
    rg.min_members = Some(3);
    assert_eq!(resolve_min_members(&rg, 3), Ok(3));
    rg.min_members = Some(4);
    assert!(resolve_min_members(&rg, 3).is_err());
}

#[test]
fn claiming_a_pod_records_the_group_once() {
    let mut p = plain_pod("trainer-0", "");
    assert_eq!(claim_pod(&mut p, &"job".to_string()), Ok(()));
    assert_eq!(p.group_name, "job");
    assert_eq!(claim_pod(&mut p, &"job".to_string()), Ok(()));
    let err = claim_pod(&mut p, &"other".to_string()).unwrap_err();
    assert_eq!(
        err,
        "pod 'ai/trainer-0' is claimed by group 'job' and group 'other'; a pod belongs to at most one group"
    );
    assert_eq!(p.group_name, "job");
}

#[test]
fn auto_groups_are_sorted_by_name_and_list_members_in_order() {
    let pods = vec![
        plain_pod("a", "zeta"),
        plain_pod("b", ""),
        plain_pod("c", "alpha"),
        plain_pod("d", "zeta"),
    ];
    let groups = auto_group_gangs(&pods);
    assert_eq!(groups.len(), 2);
    assert_eq!(groups[0].name, "alpha");
    assert_eq!(groups[0].pod_indices, vec![2]);
    assert_eq!(groups[1].name, "zeta");
    assert_eq!(groups[1].pod_indices, vec![0, 3]);
    assert_eq!(groups[1].min_members, 2);
    assert!(!groups[1].colocate);
}

#[test]
fn declaration_index_reads_back_what_was_pushed() {
    let mut idx = DeclarationIndex::new();
    let key = "ai/trainer".to_string();
    assert_eq!(idx.get(&key), None);
    idx.push(&key, 4);
    idx.push(&"ai/other".to_string(), 1);
    idx.push(&key, 7);
    assert_eq!(idx.get(&key), Some(&vec![4, 7]));
    assert_eq!(idx.get(&"ai/other".to_string()), Some(&vec![1]));
}

#[test]
fn sorted_distinct_orders_and_deduplicates() {
    assert_eq!(sorted_distinct(&vec![5, 1, 5, 3, 1]), vec![1, 3, 5]);
    assert_eq!(sorted_distinct(&vec![]), Vec::<usize>::new());
}

#[test]
fn taints_and_tolerations_match_by_key() {
    let t = RawTaint {
        key: "gpu-only".into(),
        value: "true".into(),
        effect: "NoSchedule".into(),
    };
    let tol = RawToleration {
        key: "gpu-only".into(),
        operator: "Equal".into(),
        value: "true".into(),
        effect: "NoSchedule".into(),
    };
    assert_eq!(flatten_taint(&t), "gpu-only");
    assert_eq!(flatten_toleration(&tol), "gpu-only");
}

#[test]
fn flattening_copies_declaration_fields_to_every_replica() {
    let ns = vec![namespace(
        "edge",
        vec![RawPod {
            gang: Some("g".into()),
            node_selector: Labels::from_pairs(vec![("zone".into(), "a".into())]),
            tolerations: vec![RawToleration {
                key: "edge".into(),
                operator: String::new(),
                value: String::new(),
                effect: String::new(),
            }],
            affinity: vec!["cache-0".into()],
            anti_affinity: vec!["db-0".into()],
            ..raw_pod("api", 0)
        }],
    )];
    let flat = flatten_namespaces(&ns);
    // Zero replicas still gives one pod.
    assert_eq!(flat.pods.len(), 1);
    let p = &flat.pods[0];
    assert_eq!(p.name, "api-0");
    assert_eq!(p.group_name, "g");
    assert_eq!(p.tolerations, vec!["edge".to_string()]);
    assert_eq!(p.affinity_targets, vec!["cache-0".to_string()]);
    assert_eq!(p.anti_affinity_targets, vec!["db-0".to_string()]);
    assert_eq!(p.node_selector.get(&"zone".to_string()), Some(&"a".to_string()));
    assert_eq!(flat.declarations.get(&"edge/api".to_string()), Some(&vec![0]));
}

#[test]
fn workload_document_assembles_pods_and_groups() {
    let ns = vec![
        namespace(
            "ai",
            vec![
                raw_pod("trainer", 2),
                RawPod {
                    gang: Some("helpers".into()),
                    ..raw_pod("sidecar", 2)
                },
            ],
        ),
        namespace("db", vec![raw_pod("pg", 1)]),
    ];
    let groups_in = vec![RawPodGroup {
        min_members: Some(1),
        ..raw_group("training-job", &["ai/trainer"])
    }];
    let w = assemble_workloads(&None, &Some(KIND_WORKLOADS.into()), "w.yaml", &ns, &groups_in).unwrap();
    assert_eq!(w.pods.len(), 5);
    assert_eq!(w.origins, vec![(0, 0), (0, 0), (0, 1), (0, 1), (1, 0)]);
    assert_eq!(w.pods[0].group_name, "training-job");
    assert_eq!(w.pods[2].group_name, "helpers");
    assert_eq!(w.pods[4].group_name, "");
    assert_eq!(w.groups.len(), 2);
    assert_eq!(w.groups[0].name, "helpers");
    assert_eq!(w.groups[0].pod_indices, vec![2, 3]);
    assert_eq!(w.groups[1].name, "training-job");
    assert_eq!(w.groups[1].pod_indices, vec![0, 1]);
}

#[test]
fn workload_document_reports_header_and_group_errors() {
    let ns = vec![namespace("ai", vec![raw_pod("trainer", 1)])];
    let err = assemble_workloads(&None, &Some(KIND_INFRASTRUCTURE.into()), "w.yaml", &ns, &vec![])
        .unwrap_err();
    assert_eq!(err, "w.yaml: expected kind 'Workloads', found 'Infrastructure'");
    let groups_in = vec![raw_group("g", &["ai/nope"])];
    let err = assemble_workloads(&None, &None, "w.yaml", &ns, &groups_in).unwrap_err();
    assert!(err.contains("ai/nope"), "{err}");
}

#[test]
fn flattening_does_not_depend_on_namespace_order() {
    let make = |order: &[&str]| -> Vec<RawNamespace> {
        order
            .iter()
            .map(|&n| match n {
                "web" => namespace("web", vec![raw_pod("api", 2), raw_pod("cache", 1)]),
                "db" => namespace("db", vec![raw_pod("pg", 3)]),
                _ => namespace("ai", vec![raw_pod("trainer", 1)]),
            })
            .collect()
    };
    let a = flatten_namespaces(&make(&["web", "db", "ai"]));
    let b = flatten_namespaces(&make(&["ai", "web", "db"]));
    let names = |pods: &Vec<Pod>| -> Vec<(String, String)> {
        pods.iter().map(|p| (p.namespace.clone(), p.name.clone())).collect()
    };
    assert_eq!(names(&a.pods), names(&b.pods));
    assert_eq!(a.pods[0].namespace, "ai");
    assert_eq!(a.pods[1].name, "pg-0000");
    assert_eq!(
        a.declarations.get(&"web/api".to_string()),
        b.declarations.get(&"web/api".to_string())
    );
}

fn named_node(name: &str) -> kuberina_solver::model::Node {
    kuberina_solver::model::Node {
        name: name.into(),
        labels: Labels::new(),
        taints: vec![],
        zone: String::new(),
        rack: String::new(),
    }
}

#[test]
fn solution_document_of_a_feasible_plan() {
    let pods = vec![plain_pod("api-0", ""), plain_pod("db-0", "")];
    let nodes = vec![named_node("n0"), named_node("n1")];
    let text = render_solution(&pods, &nodes, &[1, 1], true, 1);
    assert_eq!(
        text,
        "apiVersion: kuberina.io/v1\nkind: Blueprint\nmetadata:\n  feasible: true\n  pods: 2\n  activeNodes: 1\nsolution:\n  ai/api-0: n1\n  ai/db-0: n1\n"
    );
}

#[test]
fn solution_document_of_an_infeasible_plan_is_marked() {
    let pods = vec![plain_pod("api-0", "")];
    let nodes = vec![named_node("n0")];
    let text = render_solution(&pods, &nodes, &[0], false, 1);
    assert!(text.starts_with("# INFEASIBLE — this assignment exceeds real node capacity.\n"));
    assert!(text.contains("  feasible: false\n"));
    assert!(text.ends_with("solution:\n  ai/api-0: n0\n"));
    let empty = render_solution(&[], &nodes, &[], true, 0);
    assert!(empty.ends_with("  pods: 0\n  activeNodes: 0\nsolution:\n"));
}
