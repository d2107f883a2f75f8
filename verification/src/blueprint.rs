//! The solution document a plan is exported as: a header naming the IR
//! version, the blueprint kind and the plan's metadata, then one
//! `namespace/name: node` line per placed pod.
use vstd::prelude::*;

use crate::csp::assignment_in_range;
use crate::model::{Node, Pod};
use crate::parser::{IR_API_VERSION, KIND_BLUEPRINT};
use crate::text::{append_decimal, decimal};

verus! {

/// The comment that opens the document of an infeasible plan, so that a reader
/// who never saw the planner's output is still told not to apply it.
pub open spec fn infeasible_note() -> Seq<char> {
    "# INFEASIBLE — this assignment exceeds real node capacity.\n             # Written for inspection only. Do not apply. See the solver output.\n"@
}

/// `true` or `false`, as YAML writes a boolean.
pub open spec fn bool_text(b: bool) -> Seq<char> {
    if b {
        "true"@
    } else {
        "false"@
    }
}

/// The header: version, kind, and the plan's metadata.
pub open spec fn solution_header(feasible: bool, pods: nat, active_nodes: nat) -> Seq<char> {
    "apiVersion: "@ + IR_API_VERSION@ + "\nkind: "@ + KIND_BLUEPRINT@ + "\nmetadata:\n  feasible: "@
        + bool_text(feasible) + "\n  pods: "@ + decimal(pods) + "\n  activeNodes: "@ + decimal(active_nodes)
        + "\n"@
}

/// The line that places one pod on one node.
pub open spec fn solution_line(pod: Pod, node: Node) -> Seq<char> {
    "  "@ + pod.namespace@ + "/"@ + pod.name@ + ": "@ + node.name@ + "\n"@
}

/// The lines of the first `n` placements of a plan.
pub open spec fn solution_lines(pods: Seq<Pod>, nodes: Seq<Node>, assignment: Seq<usize>, n: int) -> Seq<char>
    decreases n,
{
    if n <= 0 {
        Seq::empty()
    } else {
        solution_lines(pods, nodes, assignment, n - 1) + solution_line(
            pods[n - 1],
            nodes[assignment[n - 1] as int],
        )
    }
}

/// The whole solution document of a plan.
pub open spec fn solution_text(
    pods: Seq<Pod>,
    nodes: Seq<Node>,
    assignment: Seq<usize>,
    feasible: bool,
    active_nodes: nat,
) -> Seq<char> {
    (if feasible {
        Seq::<char>::empty()
    } else {
        infeasible_note()
    }) + solution_header(feasible, pods.len(), active_nodes) + "solution:\n"@ + solution_lines(
        pods,
        nodes,
        assignment,
        assignment.len() as int,
    )
}

/// Render the solution document of a plan: the note of an infeasible plan,
/// the header with `feasible`, the pod count and `active_nodes`, then the
/// node of every placed pod, in pod order.
pub fn render_solution(
    pods: &[Pod],
    nodes: &[Node],
    assignment: &[usize],
    feasible: bool,
    active_nodes: usize,
) -> (r: String)
    requires
        assignment_in_range(assignment@, pods@.len(), nodes@.len()),
    ensures
        r@ == solution_text(pods@, nodes@, assignment@, feasible, active_nodes as nat),
{
    let mut out = String::new();
    if !feasible {
        out.append(
            "# INFEASIBLE — this assignment exceeds real node capacity.\n             # Written for inspection only. Do not apply. See the solver output.\n",
        );
    }
    let ghost prefix = out@;
    assert(prefix =~= (if feasible {
        Seq::<char>::empty()
    } else {
        infeasible_note()
    }));
    out.append("apiVersion: ");
    out.append(IR_API_VERSION);
    out.append("\nkind: ");
    out.append(KIND_BLUEPRINT);
    out.append("\nmetadata:\n  feasible: ");
    if feasible {
        out.append("true");
    } else {
        out.append("false");
    }
    out.append("\n  pods: ");
    append_decimal(&mut out, pods.len());
    out.append("\n  activeNodes: ");
    append_decimal(&mut out, active_nodes);
    out.append("\n");
    assert(out@ =~= prefix + solution_header(feasible, pods@.len(), active_nodes as nat));
    out.append("solution:\n");
    let ghost head = out@;
    let mut i: usize = 0;
    while i < assignment.len()
        invariant
            i <= assignment@.len(),
            assignment_in_range(assignment@, pods@.len(), nodes@.len()),
            out@ == head + solution_lines(pods@, nodes@, assignment@, i as int),
        decreases assignment@.len() - i,
    {
        let pod = &pods[i];
        let node = &nodes[assignment[i]];
        let ghost before = out@;
        out.append("  ");
        out.append(pod.namespace.as_str());
        out.append("/");
        out.append(pod.name.as_str());
        out.append(": ");
        out.append(node.name.as_str());
        out.append("\n");
        assert(out@ =~= before + solution_line(*pod, *node));
        assert(out@ =~= head + solution_lines(pods@, nodes@, assignment@, i + 1));
        i = i + 1;
    }
    out
}

} // verus!
