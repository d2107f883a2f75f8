//! Gang bookkeeping and eligibility used by the evolutionary search's operators.
use vstd::prelude::*;

use crate::csp::{
    can_place_pod_on_node, lemma_relocation_to_placeable_nodes, lists_indices_where, placeable, violations_in,
};
use crate::model::{Node, Pod, PodGroup};

verus! {

/// The group that claims pod `p` among the first `n` groups: the last one
/// listing it, or none.
pub open spec fn group_of(groups: Seq<PodGroup>, p: int, n: int) -> Option<usize>
    decreases n,
{
    if n <= 0 {
        None
    } else if groups[n - 1].pod_indices@.contains(p as usize) {
        Some((n - 1) as usize)
    } else {
        group_of(groups, p, n - 1)
    }
}

/// Every member index of every group names a pod below `num_pods`.
pub open spec fn members_in_range(groups: Seq<PodGroup>, num_pods: nat) -> bool {
    forall|g: int, k: int|
        0 <= g < groups.len() && 0 <= k < groups[g].pod_indices@.len()
            ==> #[trigger] groups[g].pod_indices@[k] < num_pods
}

/// Map each pod index to the group it belongs to, or `None` if it is in no gang.
/// A pod listed by several groups maps to the last of them.
pub fn build_group_lookup(groups: &[PodGroup], num_pods: usize) -> (r: Vec<Option<usize>>)
    requires
        members_in_range(groups@, num_pods as nat),
    ensures
        r@.len() == num_pods,
        forall|p: int| 0 <= p < num_pods ==> #[trigger] r@[p] == group_of(groups@, p, groups@.len() as int),
{
    let mut lookup: Vec<Option<usize>> = Vec::new();
    let mut p: usize = 0;
    while p < num_pods
        invariant
            p <= num_pods,
            lookup@.len() == p,
            forall|q: int| 0 <= q < p ==> #[trigger] lookup@[q] == None::<usize>,
        decreases num_pods - p,
    {
        lookup.push(None);
        p = p + 1;
    }
    let mut g: usize = 0;
    while g < groups.len()
        invariant
            g <= groups.len(),
            members_in_range(groups@, num_pods as nat),
            lookup@.len() == num_pods,
            forall|q: int| 0 <= q < num_pods ==> #[trigger] lookup@[q] == group_of(groups@, q, g as int),
        decreases groups.len() - g,
    {
        let group = &groups[g];
        let mut k: usize = 0;
        while k < group.pod_indices.len()
            invariant
                g < groups.len(),
                *group == groups@[g as int],
                k <= group.pod_indices.len(),
                members_in_range(groups@, num_pods as nat),
                lookup@.len() == num_pods,
                forall|q: int|
                    0 <= q < num_pods ==> #[trigger] lookup@[q] == if group.pod_indices@.take(
                        k as int,
                    ).contains(q as usize) {
                        Some(g)
                    } else {
                        group_of(groups@, q, g as int)
                    },
            decreases group.pod_indices.len() - k,
        {
            let idx = group.pod_indices[k];
            assert(groups@[g as int].pod_indices@[k as int] < num_pods);
            lookup.set(idx, Some(g));
            proof {
                assert forall|q: int| 0 <= q < num_pods implies #[trigger] lookup@[q] == if group.pod_indices@.take(
                    k + 1,
                ).contains(q as usize) {
                    Some(g)
                } else {
                    group_of(groups@, q, g as int)
                } by {
                    let next = group.pod_indices@.take(k + 1);
                    let prev = group.pod_indices@.take(k as int);
                    assert(next =~= prev.push(idx));
                    if q != idx as int {
                        if next.contains(q as usize) {
                            let t = choose|t: int| 0 <= t < next.len() && next[t] == q as usize;
                            assert(prev[t] == q as usize);
                        }
                        if prev.contains(q as usize) {
                            let t = choose|t: int| 0 <= t < prev.len() && prev[t] == q as usize;
                            assert(next[t] == q as usize);
                        }
                    } else {
                        assert(next[k as int] == idx);
                    }
                }
            }
            k = k + 1;
        }
        proof {
            assert(group.pod_indices@.take(group.pod_indices@.len() as int) =~= group.pod_indices@);
            assert forall|q: int| 0 <= q < num_pods implies #[trigger] lookup@[q] == group_of(
                groups@,
                q,
                g + 1,
            ) by {
                assert(groups@[g as int] == *group);
            }
        }
        g = g + 1;
    }
    lookup
}

/// Indices of the nodes that pass the taint and selector pre-screen for a pod.
pub fn eligible_nodes_for_pod(pod: &Pod, nodes: &[Node]) -> (r: Vec<usize>)
    ensures
        lists_indices_where(r@, nodes@.len(), |k: int| placeable(*pod, nodes@[k])),
{
    let ghost p = |k: int| placeable(*pod, nodes@[k]);
    let mut out: Vec<usize> = Vec::new();
    let mut k: usize = 0;
    while k < nodes.len()
        invariant
            k <= nodes.len(),
            p == (|k: int| placeable(*pod, nodes@[k])),
            forall|i: int, j: int| 0 <= i < j < out@.len() ==> out@[i] < out@[j],
            forall|i: int| 0 <= i < out@.len() ==> out@[i] < k && p(out@[i] as int),
            forall|j: int| 0 <= j < k && #[trigger] p(j) ==> out@.contains(j as usize),
        decreases nodes.len() - k,
    {
        let ghost old_out = out@;
        if can_place_pod_on_node(pod, &nodes[k]) {
            out.push(k);
        }
        proof {
            assert forall|j: int| 0 <= j < k + 1 && #[trigger] p(j) implies out@.contains(j as usize) by {
                if j < k {
                    let t = choose|t: int| 0 <= t < old_out.len() && old_out[t] == j as usize;
                    assert(out@[t] == j as usize);
                } else {
                    assert(out@[out@.len() - 1] == k);
                }
            }
        }
        k = k + 1;
    }
    out
}

/// Roll a gang's members back to where `source` placed them, leaving every
/// other pod where it is: the repair applied to a child whose gang the
/// crossover broke.
pub fn restore_group_from(assignment: &mut Vec<usize>, source: &[usize], group: &PodGroup)
    requires
        forall|k: int|
            0 <= k < group.pod_indices@.len() ==> #[trigger] group.pod_indices@[k] < old(
                assignment,
            )@.len() && group.pod_indices@[k] < source@.len(),
    ensures
        final(assignment)@.len() == old(assignment)@.len(),
        forall|p: int|
            0 <= p < old(assignment)@.len() ==> #[trigger] final(assignment)@[p] == if group.pod_indices@.contains(
                p as usize,
            ) {
                source@[p]
            } else {
                old(assignment)@[p]
            },
{
    let ghost before = assignment@;
    let n = assignment.len();
    assert(before.len() == n);
    let mut k: usize = 0;
    while k < group.pod_indices.len()
        invariant
            k <= group.pod_indices.len(),
            assignment@.len() == before.len(),
            before.len() <= usize::MAX,
            forall|j: int|
                0 <= j < group.pod_indices@.len() ==> #[trigger] group.pod_indices@[j] < before.len()
                    && group.pod_indices@[j] < source@.len(),
            forall|p: int|
                0 <= p < before.len() ==> #[trigger] assignment@[p] == if group.pod_indices@.take(
                    k as int,
                ).contains(p as usize) {
                    source@[p]
                } else {
                    before[p]
                },
        decreases group.pod_indices.len() - k,
    {
        let idx = group.pod_indices[k];
        assert(group.pod_indices@[k as int] < before.len());
        let v = source[idx];
        assignment.set(idx, v);
        proof {
            let next = group.pod_indices@.take(k + 1);
            let prev = group.pod_indices@.take(k as int);
            assert(next =~= prev.push(idx));
            assert forall|p: int| 0 <= p < before.len() implies #[trigger] assignment@[p] == if next.contains(
                p as usize,
            ) {
                source@[p]
            } else {
                before[p]
            } by {
                if p != idx as int {
                    assert(next[k as int] == idx);
                    if next.contains(p as usize) {
                        let t = choose|t: int| 0 <= t < next.len() && next[t] == p as usize;
                        assert(p as usize as int == p);
                        assert(t != k as int);
                        assert(prev[t] == p as usize);
                    }
                    if prev.contains(p as usize) {
                        let t = choose|t: int| 0 <= t < prev.len() && prev[t] == p as usize;
                        assert(next[t] == p as usize);
                    }
                } else {
                    assert(next[k as int] == idx);
                }
            }
        }
        k = k + 1;
    }
    proof {
        assert(group.pod_indices@.take(group.pod_indices@.len() as int) =~= group.pod_indices@);
    }
}


/// Gene-level uniform crossover: gene `i` of the child comes from the first
/// parent where `take_first[i]` holds and from the second otherwise. The child
/// is as long as the shorter parent.
pub fn crossover_genes(p1: &[usize], p2: &[usize], take_first: &[bool]) -> (r: Vec<usize>)
    requires
        take_first@.len() >= p1@.len() || take_first@.len() >= p2@.len(),
    ensures
        r@.len() == if p1@.len() <= p2@.len() { p1@.len() } else { p2@.len() },
        forall|i: int| 0 <= i < r@.len() ==> #[trigger] r@[i] == if take_first@[i] { p1@[i] } else { p2@[i] },
{
    let n = if p1.len() <= p2.len() { p1.len() } else { p2.len() };
    let mut out: Vec<usize> = Vec::new();
    let mut i: usize = 0;
    while i < n
        invariant
            i <= n,
            n <= p1@.len(),
            n <= p2@.len(),
            n <= take_first@.len(),
            out@.len() == i,
            forall|j: int| 0 <= j < i ==> #[trigger] out@[j] == if take_first@[j] { p1@[j] } else { p2@[j] },
        decreases n - i,
    {
        if take_first[i] {
            out.push(p1[i]);
        } else {
            out.push(p2[i]);
        }
        i = i + 1;
    }
    out
}

/// Two pods may trade nodes: they are distinct, sit on different nodes, and
/// each passes the taint and selector pre-screen on the other's node.
pub open spec fn swap_allowed(assignment: Seq<usize>, pods: Seq<Pod>, nodes: Seq<Node>, i: int, j: int) -> bool {
    &&& i != j
    &&& assignment[i] != assignment[j]
    &&& placeable(pods[i], nodes[assignment[j] as int])
    &&& placeable(pods[j], nodes[assignment[i] as int])
}

/// A permitted swap never increases the plan's selector and taint violations.
pub proof fn lemma_permitted_swap_adds_no_violation(
    assignment: Seq<usize>,
    pods: Seq<Pod>,
    nodes: Seq<Node>,
    i: int,
    j: int,
)
    requires
        0 <= i < assignment.len(),
        0 <= j < assignment.len(),
        swap_allowed(assignment, pods, nodes, i, j),
    ensures
        violations_in(
            assignment.update(i, assignment[j]).update(j, assignment[i]),
            pods,
            nodes,
            assignment.len() as int,
        ) <= violations_in(assignment, pods, nodes, assignment.len() as int),
{
    let after = assignment.update(i, assignment[j]).update(j, assignment[i]);
    assert forall|t: int|
        0 <= t < assignment.len() && #[trigger] after[t] != assignment[t] implies placeable(
        pods[t],
        nodes[after[t] as int],
    ) by {
        assert(t == i || t == j);
    }
    lemma_relocation_to_placeable_nodes(assignment, after, pods, nodes, assignment.len() as int);
}

/// Moving a pod to a node from its eligible list never increases the plan's
/// selector and taint violations.
pub proof fn lemma_eligible_move_adds_no_violation(
    assignment: Seq<usize>,
    pods: Seq<Pod>,
    nodes: Seq<Node>,
    i: int,
    target: usize,
)
    requires
        0 <= i < assignment.len(),
        placeable(pods[i], nodes[target as int]),
    ensures
        violations_in(assignment.update(i, target), pods, nodes, assignment.len() as int) <= violations_in(
            assignment,
            pods,
            nodes,
            assignment.len() as int,
        ),
{
    let after = assignment.update(i, target);
    assert forall|t: int|
        0 <= t < assignment.len() && #[trigger] after[t] != assignment[t] implies placeable(
        pods[t],
        nodes[after[t] as int],
    ) by {
        assert(t == i);
    }
    lemma_relocation_to_placeable_nodes(assignment, after, pods, nodes, assignment.len() as int);
}

/// Whether the swap mutation may exchange the nodes of pods `i` and `j`.
pub fn swap_permitted(assignment: &[usize], pods: &[Pod], nodes: &[Node], i: usize, j: usize) -> (r: bool)
    requires
        i < assignment@.len(),
        j < assignment@.len(),
        i < pods@.len(),
        j < pods@.len(),
        assignment@[i as int] < nodes@.len(),
        assignment@[j as int] < nodes@.len(),
    ensures
        r == swap_allowed(assignment@, pods@, nodes@, i as int, j as int),
{
    if i == j {
        return false;
    }
    let node_i = assignment[i];
    let node_j = assignment[j];
    if node_i == node_j {
        return false;
    }
    can_place_pod_on_node(&pods[i], &nodes[node_j]) && can_place_pod_on_node(&pods[j], &nodes[node_i])
}

/// One of the two parents of a crossover child.
#[derive(Debug, PartialEq, Eq, Structural, Clone, Copy)]
pub enum Parent {
    First,
    Second,
}

/// Which parent a broken gang is rolled back to: the one on which the gang was
/// feasible, the fitter one (the first on a tie) when it was on both, and none
/// when it was on neither, so the child keeps exploring.
pub fn repair_parent(first_feasible: bool, second_feasible: bool, first_not_worse: bool) -> (r: Option<Parent>)
    ensures
        r == if first_feasible && second_feasible {
            if first_not_worse { Some(Parent::First) } else { Some(Parent::Second) }
        } else if first_feasible {
            Some(Parent::First)
        } else if second_feasible {
            Some(Parent::Second)
        } else {
            None::<Parent>
        },
{
    if first_feasible && second_feasible {
        if first_not_worse {
            Some(Parent::First)
        } else {
            Some(Parent::Second)
        }
    } else if first_feasible {
        Some(Parent::First)
    } else if second_feasible {
        Some(Parent::Second)
    } else {
        None
    }
}

} // verus!
