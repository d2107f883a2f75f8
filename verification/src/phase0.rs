//! DaemonSet pre-deduction: which system workloads run on which node.
//!
//! Each node's capacity for pods is its raw capacity minus the resources of
//! every DaemonSet eligible for it; this module decides eligibility.
use vstd::prelude::*;

use crate::csp::{lists_indices_where, tolerates, tolerates_all};
use crate::model::{DaemonSet, Node};
use crate::text::{lemma_texts_contains, texts};

verus! {

/// A DaemonSet runs on a node when the node's labels carry its selector and it
/// tolerates the node's taints; one that lists no toleration tolerates every taint.
pub open spec fn daemonset_eligible(ds: DaemonSet, node: Node) -> bool {
    &&& ds.node_selector@.submap_of(node.labels@)
    &&& (ds.tolerations@.len() == 0 || tolerates_all(node.taints@, ds.tolerations@))
}

/// One of `tolerations` has the text of `taint`.
pub open spec fn listed_among(tolerations: Seq<String>, taint: String) -> bool {
    exists|j: int| 0 <= j < tolerations.len() && (#[trigger] tolerations[j])@ == taint@
}

/// A DaemonSet whose selector the node's labels carry runs on the node exactly
/// when it lists no toleration or each of the node's taints is among its
/// tolerations; so it runs on every untainted node its selector matches,
/// whatever tolerations it lists, and on no node whose labels lack a term of
/// its selector.
pub proof fn lemma_daemonset_eligibility(ds: DaemonSet, node: Node)
    ensures
        daemonset_eligible(ds, node) <==> ds.node_selector@.submap_of(node.labels@) && (ds.tolerations@.len()
            == 0 || forall|i: int| 0 <= i < node.taints@.len() ==> #[trigger] listed_among(ds.tolerations@, node.taints@[i])),
        ds.node_selector@.submap_of(node.labels@) && node.taints@.len() == 0 ==> daemonset_eligible(ds, node),
        !ds.node_selector@.submap_of(node.labels@) ==> !daemonset_eligible(ds, node),
{
    assert forall|i: int| 0 <= i < node.taints@.len() implies #[trigger] listed_among(ds.tolerations@, node.taints@[i])
        == texts(ds.tolerations@).contains(node.taints@[i]@) by {
        lemma_texts_contains(ds.tolerations@, node.taints@[i]@);
    }
    let all_listed = forall|i: int| 0 <= i < node.taints@.len() ==> #[trigger] listed_among(ds.tolerations@, node.taints@[i]);
    assert(tolerates_all(node.taints@, ds.tolerations@) ==> all_listed);
    if all_listed {
        assert forall|i: int| 0 <= i < node.taints@.len() implies texts(ds.tolerations@).contains(
            #[trigger] node.taints@[i]@,
        ) by {
            assert(listed_among(ds.tolerations@, node.taints@[i]));
        }
    }
    assert(daemonset_eligible(ds, node) == (ds.node_selector@.submap_of(node.labels@) && (ds.tolerations@.len() == 0
        || tolerates_all(node.taints@, ds.tolerations@))));
}

/// Whether a DaemonSet should run on a given node.
///
/// An empty selector means "run on all nodes" (typical for kube-proxy), and a
/// DaemonSet that specifies no toleration tolerates every taint.
pub fn is_eligible(ds: &DaemonSet, node: &Node) -> (r: bool)
    ensures
        r == daemonset_eligible(*ds, *node),
{
    if !ds.node_selector.is_submap_of(&node.labels) {
        return false;
    }
    if ds.tolerations.len() == 0 {
        return true;
    }
    tolerates(&node.taints, &ds.tolerations)
}

/// Indices of the DaemonSets that run on `node`, in increasing order: the ones
/// whose resources are withheld from that node's capacity.
pub fn daemonsets_for_node(node: &Node, daemon_sets: &[DaemonSet]) -> (r: Vec<usize>)
    ensures
        lists_indices_where(r@, daemon_sets@.len(), |k: int| daemonset_eligible(daemon_sets@[k], *node)),
{
    let ghost p = |k: int| daemonset_eligible(daemon_sets@[k], *node);
    let mut out: Vec<usize> = Vec::new();
    let mut k: usize = 0;
    while k < daemon_sets.len()
        invariant
            k <= daemon_sets.len(),
            p == (|k: int| daemonset_eligible(daemon_sets@[k], *node)),
            forall|i: int, j: int| 0 <= i < j < out@.len() ==> out@[i] < out@[j],
            forall|i: int| 0 <= i < out@.len() ==> out@[i] < k && p(out@[i] as int),
            forall|j: int| 0 <= j < k && #[trigger] p(j) ==> out@.contains(j as usize),
        decreases daemon_sets.len() - k,
    {
        let ghost old_out = out@;
        if is_eligible(&daemon_sets[k], node) {
            out.push(k);
        }
        proof {
            assert forall|j: int| 0 <= j < k + 1 && #[trigger] p(j) implies out@.contains(j as usize) by {
                if j < k {
                    let t = choose|t: int| 0 <= t < old_out.len() && old_out[t] == j as usize;
                    assert(out@[t] == j as usize);
                } else {
                    assert(out@[out@.len() - 1] == k);
                }
            }
        }
        k = k + 1;
    }
    out
}

} // verus!
