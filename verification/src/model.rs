//! Placement attributes of the scheduling model: what the hard constraints,
//! the integer objectives and the workload unrolling read.
//!
//! Resource amounts are not held here; they are real numbers and are handled
//! next to this library by the planner that scores capacity.
use vstd::prelude::*;

use crate::labels::Labels;

verus! {

/// Topology spread constraint: distribute pods evenly across zones or racks.
///
/// `max_skew` is the largest allowed difference in pod count between any two
/// topology domains; `topology_key` names the domain ("zone" or "rack").
#[derive(Debug)]
pub struct TopologySpread {
    pub max_skew: usize,
    pub topology_key: String,
}

impl Clone for TopologySpread {
    fn clone(&self) -> (r: TopologySpread)
        ensures
            r.max_skew == self.max_skew,
            r.topology_key@ == self.topology_key@,
    {
        TopologySpread { max_skew: self.max_skew, topology_key: self.topology_key.clone() }
    }
}

/// The `maxSkew` a topology spread constraint has when none is written.
pub fn default_max_skew() -> (r: usize)
    ensures
        r == 1,
{
    1
}

/// A Kubernetes node, by what placement rules read of it.
#[derive(Debug, Clone)]
pub struct Node {
    pub name: String,
    pub labels: Labels,
    pub taints: Vec<String>,
    pub zone: String,
    /// Rack topology: the domain of a spread constraint keyed by "rack".
    pub rack: String,
}

/// A pod to be scheduled, by what placement rules read of it.
#[derive(Debug, Clone)]
pub struct Pod {
    pub name: String,
    pub namespace: String,
    pub tolerations: Vec<String>,
    pub node_selector: Labels,
    /// Names of pods this pod wants to share a node with.
    pub affinity_targets: Vec<String>,
    /// Names of pods this pod does not want to share a node with.
    pub anti_affinity_targets: Vec<String>,
    /// The gang this pod belongs to; empty when it belongs to none.
    pub group_name: String,
    pub topology_spread: Option<TopologySpread>,
}

/// A gang-scheduled pod group: all-or-nothing placement.
#[derive(Debug, Clone)]
pub struct PodGroup {
    pub name: String,
    /// Indices of the member pods in the pod list.
    pub pod_indices: Vec<usize>,
    pub min_members: usize,
    pub node_selector: Labels,
    pub colocate: bool,
}

/// A system workload that runs on every eligible node before any pod is placed.
#[derive(Debug, Clone)]
pub struct DaemonSet {
    pub name: String,
    pub node_selector: Labels,
    pub tolerations: Vec<String>,
}

} // verus!
