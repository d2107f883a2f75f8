//! Hard-constraint pre-screening of placement decisions: taints against
//! tolerations, node selectors against labels, and the violation count of a plan.
use vstd::prelude::*;

use crate::model::{Node, Pod, PodGroup};
use crate::text::{contains_text, texts};

verus! {

/// Every taint is matched by a toleration with the same text.
pub open spec fn tolerates_all(taints: Seq<String>, tolerations: Seq<String>) -> bool {
    forall|i: int| 0 <= i < taints.len() ==> texts(tolerations).contains(#[trigger] taints[i]@)
}

/// A pod may be placed on a node: the node's taints are all tolerated and its
/// labels carry every selector term of the pod.
pub open spec fn placeable(pod: Pod, node: Node) -> bool {
    &&& tolerates_all(node.taints@, pod.tolerations@)
    &&& pod.node_selector@.submap_of(node.labels@)
}

/// `r` lists, in increasing order and once each, the indices below `n` that satisfy `p`.
pub open spec fn lists_indices_where(r: Seq<usize>, n: nat, p: spec_fn(int) -> bool) -> bool {
    &&& forall|i: int, j: int| 0 <= i < j < r.len() ==> r[i] < r[j]
    &&& forall|i: int| 0 <= i < r.len() ==> r[i] < n && p(r[i] as int)
    &&& forall|k: int| 0 <= k < n && #[trigger] p(k) ==> r.contains(k as usize)
}

/// Whether every string of `taints` occurs in `tolerations`.
pub fn tolerates(taints: &Vec<String>, tolerations: &Vec<String>) -> (r: bool)
    ensures
        r == tolerates_all(taints@, tolerations@),
{
    let mut i: usize = 0;
    while i < taints.len()
        invariant
            i <= taints.len(),
            forall|j: int| 0 <= j < i ==> texts(tolerations@).contains(#[trigger] taints@[j]@),
        decreases taints.len() - i,
    {
        if !contains_text(tolerations, &taints[i]) {
            return false;
        }
        i = i + 1;
    }
    true
}

/// A pod can only land on a tainted node if it tolerates every taint.
pub fn check_taint_toleration(pod: &Pod, node: &Node) -> (r: bool)
    ensures
        r == tolerates_all(node.taints@, pod.tolerations@),
{
    tolerates(&node.taints, &pod.tolerations)
}

/// A pod can only land on a node whose labels carry all its selector terms.
pub fn check_node_selector(pod: &Pod, node: &Node) -> (r: bool)
    ensures
        r == pod.node_selector@.submap_of(node.labels@),
{
    pod.node_selector.is_submap_of(&node.labels)
}

/// Combined pre-screen, taints and node selector (capacity is not checked here).
pub fn can_place_pod_on_node(pod: &Pod, node: &Node) -> (r: bool)
    ensures
        r == placeable(*pod, *node),
{
    check_taint_toleration(pod, node) && check_node_selector(pod, node)
}

/// Number of the first `n` placements of a plan that fail the pre-screen.
pub open spec fn violations_in(
    assignment: Seq<usize>,
    pods: Seq<Pod>,
    nodes: Seq<Node>,
    n: int,
) -> nat
    decreases n,
{
    if n <= 0 {
        0
    } else {
        violations_in(assignment, pods, nodes, n - 1) + if placeable(
            pods[n - 1],
            nodes[assignment[n - 1] as int],
        ) {
            0nat
        } else {
            1nat
        }
    }
}

/// Every placement of the plan names a pod and a node that exist.
pub open spec fn assignment_in_range(assignment: Seq<usize>, num_pods: nat, num_nodes: nat) -> bool {
    &&& assignment.len() <= num_pods
    &&& forall|i: int| 0 <= i < assignment.len() ==> #[trigger] assignment[i] < num_nodes
}

proof fn lemma_violations_bounded(assignment: Seq<usize>, pods: Seq<Pod>, nodes: Seq<Node>, n: int)
    requires
        0 <= n,
    ensures
        violations_in(assignment, pods, nodes, n) <= n,
    decreases n,
{
    if n > 0 {
        lemma_violations_bounded(assignment, pods, nodes, n - 1);
    }
}

/// The indices below `n` that satisfy `p`.
pub open spec fn indices_where(n: int, p: spec_fn(int) -> bool) -> Set<int> {
    Set::new(|k: int| 0 <= k < n && p(k))
}

/// Counting the indices that satisfy a predicate goes one index at a time.
pub proof fn lemma_indices_where_step(n: int, p: spec_fn(int) -> bool)
    requires
        0 <= n,
    ensures
        indices_where(n, p).finite(),
        indices_where(n + 1, p).len() == indices_where(n, p).len() + if p(n) {
            1int
        } else {
            0int
        },
{
    vstd::set_lib::lemma_int_range(0, n);
    assert(indices_where(n, p).subset_of(vstd::set_lib::set_int_range(0, n)));
    vstd::set_lib::lemma_len_subset(indices_where(n, p), vstd::set_lib::set_int_range(0, n));
    if p(n) {
        assert(indices_where(n + 1, p) =~= indices_where(n, p).insert(n));
        assert(!indices_where(n, p).contains(n));
    } else {
        assert(indices_where(n + 1, p) =~= indices_where(n, p));
    }
}

/// The indices below zero form the empty set.
pub proof fn lemma_indices_where_empty(p: spec_fn(int) -> bool)
    ensures
        indices_where(0, p).len() == 0,
{
    assert(indices_where(0, p) =~= Set::<int>::empty());
}

proof fn lemma_violations_count(assignment: Seq<usize>, pods: Seq<Pod>, nodes: Seq<Node>, n: int)
    requires
        0 <= n,
    ensures
        violations_in(assignment, pods, nodes, n) == indices_where(
            n,
            |t: int| !placeable(pods[t], nodes[assignment[t] as int]),
        ).len(),
    decreases n,
{
    let p = |t: int| !placeable(pods[t], nodes[assignment[t] as int]);
    if n == 0 {
        lemma_indices_where_empty(p);
    } else {
        lemma_violations_count(assignment, pods, nodes, n - 1);
        lemma_indices_where_step(n - 1, p);
    }
}

/// The violation count of a plan is the number of its placements that fail
/// the taint and selector pre-screen: each failing placement counts one,
/// whatever the count already is.
pub proof fn lemma_violations_count_failing_placements(assignment: Seq<usize>, pods: Seq<Pod>, nodes: Seq<Node>)
    ensures
        violations_in(assignment, pods, nodes, assignment.len() as int) == Set::new(
            |t: int| 0 <= t < assignment.len() && !placeable(pods[t], nodes[assignment[t] as int]),
        ).len(),
{
    lemma_violations_count(assignment, pods, nodes, assignment.len() as int);
    assert(indices_where(assignment.len() as int, |t: int| !placeable(pods[t], nodes[assignment[t] as int]))
        =~= Set::new(|t: int| 0 <= t < assignment.len() && !placeable(pods[t], nodes[assignment[t] as int])));
}

proof fn lemma_violations_zero_prefix(assignment: Seq<usize>, pods: Seq<Pod>, nodes: Seq<Node>, n: int)
    requires
        0 <= n,
    ensures
        violations_in(assignment, pods, nodes, n) == 0 <==> forall|i: int|
            0 <= i < n ==> #[trigger] placeable(pods[i], nodes[assignment[i] as int]),
    decreases n,
{
    if n > 0 {
        lemma_violations_zero_prefix(assignment, pods, nodes, n - 1);
        if violations_in(assignment, pods, nodes, n) == 0 {
            assert forall|i: int| 0 <= i < n implies #[trigger] placeable(pods[i], nodes[assignment[i] as int]) by {
                if i < n - 1 {
                    assert(placeable(pods[i], nodes[assignment[i] as int]));
                }
            }
        }
    }
}

/// The violation count of a plan never exceeds its number of placements, and
/// it is zero exactly when every placement passes the pre-screen.
pub proof fn lemma_violations_zero_iff_all_placeable(assignment: Seq<usize>, pods: Seq<Pod>, nodes: Seq<Node>)
    ensures
        violations_in(assignment, pods, nodes, assignment.len() as int) <= assignment.len(),
        violations_in(assignment, pods, nodes, assignment.len() as int) == 0 <==> forall|i: int|
            0 <= i < assignment.len() ==> #[trigger] placeable(pods[i], nodes[assignment[i] as int]),
{
    lemma_violations_bounded(assignment, pods, nodes, assignment.len() as int);
    lemma_violations_zero_prefix(assignment, pods, nodes, assignment.len() as int);
}

/// Moving pods only onto nodes that pass their pre-screen never increases the
/// violation count: the swaps and moves of the search keep a plan's selector
/// and taint violations from growing.
pub proof fn lemma_relocation_to_placeable_nodes(
    before: Seq<usize>,
    after: Seq<usize>,
    pods: Seq<Pod>,
    nodes: Seq<Node>,
    n: int,
)
    requires
        0 <= n,
        forall|t: int|
            0 <= t < n && #[trigger] after[t] != before[t] ==> placeable(pods[t], nodes[after[t] as int]),
    ensures
        violations_in(after, pods, nodes, n) <= violations_in(before, pods, nodes, n),
    decreases n,
{
    if n > 0 {
        lemma_relocation_to_placeable_nodes(before, after, pods, nodes, n - 1);
        if after[n - 1] != before[n - 1] {
            assert(placeable(pods[n - 1], nodes[after[n - 1] as int]));
        }
    }
}

/// Number of pods placed on a node that fails the taint or selector pre-screen.
pub fn compute_selector_violations(assignment: &[usize], pods: &[Pod], nodes: &[Node]) -> (r: usize)
    requires
        assignment_in_range(assignment@, pods@.len(), nodes@.len()),
    ensures
        r == violations_in(assignment@, pods@, nodes@, assignment@.len() as int),
{
    let mut count: usize = 0;
    let mut i: usize = 0;
    while i < assignment.len()
        invariant
            i <= assignment.len(),
            assignment_in_range(assignment@, pods@.len(), nodes@.len()),
            count == violations_in(assignment@, pods@, nodes@, i as int),
        decreases assignment.len() - i,
    {
        proof {
            lemma_violations_bounded(assignment@, pods@, nodes@, i as int);
        }
        let node_idx = assignment[i];
        if !can_place_pod_on_node(&pods[i], &nodes[node_idx]) {
            count = count + 1;
        }
        i = i + 1;
    }
    count
}

/// A node can host a gang: its labels carry the group's selector and it
/// tolerates the taints the group's first member tolerates.
pub open spec fn gang_eligible(group: PodGroup, pods: Seq<Pod>, node: Node) -> bool {
    &&& group.node_selector@.submap_of(node.labels@)
    &&& tolerates_all(node.taints@, pods[group.pod_indices@[0] as int].tolerations@)
}

/// Indices of the nodes eligible for every pod of a gang.
///
/// The group's node selector is used rather than each member's, since gang
/// members share one hardware requirement; taints are checked against the
/// tolerations of the first member.
pub fn filter_eligible_nodes(group: &PodGroup, nodes: &[Node], pods: &[Pod]) -> (r: Vec<usize>)
    requires
        group.pod_indices@.len() > 0,
        group.pod_indices@[0] < pods@.len(),
    ensures
        lists_indices_where(r@, nodes@.len(), |k: int| gang_eligible(*group, pods@, nodes@[k])),
{
    let sample = &pods[group.pod_indices[0]];
    let ghost p = |k: int| gang_eligible(*group, pods@, nodes@[k]);
    let mut out: Vec<usize> = Vec::new();
    let mut k: usize = 0;
    while k < nodes.len()
        invariant
            k <= nodes.len(),
            *sample == pods@[group.pod_indices@[0] as int],
            p == (|k: int| gang_eligible(*group, pods@, nodes@[k])),
            forall|i: int, j: int| 0 <= i < j < out@.len() ==> out@[i] < out@[j],
            forall|i: int| 0 <= i < out@.len() ==> out@[i] < k && p(out@[i] as int),
            forall|j: int| 0 <= j < k && #[trigger] p(j) ==> out@.contains(j as usize),
        decreases nodes.len() - k,
    {
        let ghost old_out = out@;
        if group.node_selector.is_submap_of(&nodes[k].labels) && tolerates(
            &nodes[k].taints,
            &sample.tolerations,
        ) {
            out.push(k);
            proof {
                assert(out@[out@.len() - 1] == k);
            }
        }
        proof {
            assert forall|j: int| 0 <= j < k + 1 && #[trigger] p(j) implies out@.contains(j as usize) by {
                if j < k {
                    assert(old_out.contains(j as usize));
                    let t = choose|t: int| 0 <= t < old_out.len() && old_out[t] == j as usize;
                    assert(out@[t] == j as usize);
                } else {
                    assert(out@[out@.len() - 1] == k);
                }
            }
        }
        k = k + 1;
    }
    out
}

} // verus!
