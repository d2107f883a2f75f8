//! First-fit decisions of the warm-start packing: where each pod goes once
//! the pods are in placement order.
use vstd::prelude::*;

use crate::csp::{can_place_pod_on_node, placeable};
use crate::model::{Node, Pod};

verus! {

/// Node a first-fit step puts a pod on, given which nodes still have room for
/// it: the first node that passes the taint and selector pre-screen and has
/// room; when none has room, the first that passes the pre-screen, so that no
/// selector violation is introduced; when none passes, node 0.
pub fn first_fit_node(pod: &Pod, nodes: &[Node], has_room: &[bool]) -> (r: usize)
    requires
        has_room@.len() == nodes@.len(),
    ensures
        (exists|k: int| 0 <= k < nodes@.len() && placeable(*pod, #[trigger] nodes@[k]) && has_room@[k])
            ==> r < nodes@.len() && placeable(*pod, nodes@[r as int]) && has_room@[r as int] && forall|k: int|
            0 <= k < r ==> !(placeable(*pod, #[trigger] nodes@[k]) && has_room@[k]),
        !(exists|k: int| 0 <= k < nodes@.len() && placeable(*pod, #[trigger] nodes@[k]) && has_room@[k])
            && (exists|k: int| 0 <= k < nodes@.len() && placeable(*pod, #[trigger] nodes@[k])) ==> r
            < nodes@.len() && placeable(*pod, nodes@[r as int]) && forall|k: int|
            0 <= k < r ==> !placeable(*pod, #[trigger] nodes@[k]),
        !(exists|k: int| 0 <= k < nodes@.len() && placeable(*pod, #[trigger] nodes@[k])) ==> r == 0,
{
    let mut fallback: Option<usize> = None;
    let mut k: usize = 0;
    while k < nodes.len()
        invariant
            k <= nodes@.len(),
            has_room@.len() == nodes@.len(),
            forall|j: int| 0 <= j < k ==> !(placeable(*pod, #[trigger] nodes@[j]) && has_room@[j]),
            fallback matches Some(f) ==> f < k && placeable(*pod, nodes@[f as int]) && forall|j: int|
                0 <= j < f ==> !placeable(*pod, #[trigger] nodes@[j]),
            fallback is None ==> forall|j: int| 0 <= j < k ==> !placeable(*pod, #[trigger] nodes@[j]),
        decreases nodes@.len() - k,
    {
        if can_place_pod_on_node(pod, &nodes[k]) {
            if has_room[k] {
                return k;
            }
            if fallback.is_none() {
                fallback = Some(k);
            }
        }
        k = k + 1;
    }
    match fallback {
        Some(f) => f,
        None => 0,
    }
}

} // verus!
