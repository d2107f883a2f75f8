//! Plan-level decisions: the search budget for a problem size, and what an
//! emitted plan is worth.
use vstd::prelude::*;

verus! {

/// Problem-size tier of the evolutionary search.
#[derive(Debug, PartialEq, Eq, Structural, Clone, Copy)]
pub enum GaTier {
    /// Fewer than 100 pods.
    Small,
    /// 100 to 500 pods.
    Medium,
    /// More than 500 pods: datacenter scale.
    Large,
}

/// The integer budget of the evolutionary search.
#[derive(Debug, PartialEq, Eq, Structural, Clone, Copy)]
pub struct GaBudget {
    pub tier: GaTier,
    pub population_size: usize,
    pub tournament_size: usize,
    pub max_generations: usize,
    pub early_stop_generations: usize,
}

/// Scale the search to the problem: population 128 below 100 pods, 256 from
/// 100 to 500 pods, and 1024 beyond, with matching generation budgets.
pub fn select_ga_budget(num_pods: usize) -> (r: GaBudget)
    ensures
        num_pods > 500 ==> r == (GaBudget {
            tier: GaTier::Large,
            population_size: 1024,
            tournament_size: 5,
            max_generations: 1000,
            early_stop_generations: 200,
        }),
        100 <= num_pods <= 500 ==> r == (GaBudget {
            tier: GaTier::Medium,
            population_size: 256,
            tournament_size: 3,
            max_generations: 500,
            early_stop_generations: 100,
        }),
        num_pods < 100 ==> r == (GaBudget {
            tier: GaTier::Small,
            population_size: 128,
            tournament_size: 3,
            max_generations: 500,
            early_stop_generations: 50,
        }),
{
    if num_pods > 500 {
        GaBudget {
            tier: GaTier::Large,
            population_size: 1024,
            tournament_size: 5,
            max_generations: 1000,
            early_stop_generations: 200,
        }
    } else if num_pods >= 100 {
        GaBudget {
            tier: GaTier::Medium,
            population_size: 256,
            tournament_size: 3,
            max_generations: 500,
            early_stop_generations: 100,
        }
    } else {
        GaBudget {
            tier: GaTier::Small,
            population_size: 128,
            tournament_size: 3,
            max_generations: 500,
            early_stop_generations: 50,
        }
    }
}

/// One generation of the search's stopping rule: a generation that improved
/// the anchor by more than the threshold resets the stale count, any other adds
/// one to it, and the search stops once the count reaches `early_stop_generations`.
/// Returns the new stale count and whether to stop.
pub fn next_stale_count(stale_count: usize, improved: bool, early_stop_generations: usize) -> (r: (usize, bool))
    requires
        stale_count < usize::MAX,
    ensures
        r.0 == if improved {
            0
        } else {
            stale_count + 1
        },
        r.1 == (r.0 >= early_stop_generations),
{
    let stale = if improved {
        0
    } else {
        stale_count + 1
    };
    (stale, stale >= early_stop_generations)
}

/// What an emitted plan is worth.
#[derive(Debug, PartialEq, Eq, Structural, Clone, Copy)]
pub enum VerdictKind {
    /// Every hard constraint holds, including the reserve if one was requested.
    Feasible,
    /// Fits the cluster, but spends capacity the operator asked to keep free.
    ReserveNotMet,
    /// Does not fit the cluster; the plan is not applicable.
    Infeasible,
}

impl VerdictKind {
    /// The status the planner exits with when its plan has this verdict.
    pub fn exit_code(&self) -> (r: i32)
        ensures
            r == match *self {
                VerdictKind::Feasible => 0i32,
                VerdictKind::ReserveNotMet => 2i32,
                VerdictKind::Infeasible => 1i32,
            },
    {
        match self {
            VerdictKind::Feasible => 0,
            VerdictKind::ReserveNotMet => 2,
            VerdictKind::Infeasible => 1,
        }
    }
}

/// Decide what a plan is worth: any real capacity overflow, selector violation
/// or gang shortfall makes it infeasible; otherwise, if a reserve was requested
/// (`over_reserve` is `Some`) and the plan spends into it, the reserve is not
/// met; otherwise it is feasible.
pub fn classify_plan(
    over_capacity: bool,
    selector_violations: usize,
    gang_shortfall: bool,
    over_reserve: Option<bool>,
) -> (r: VerdictKind)
    ensures
        r == if over_capacity || selector_violations > 0 || gang_shortfall {
            VerdictKind::Infeasible
        } else if over_reserve == Some(true) {
            VerdictKind::ReserveNotMet
        } else {
            VerdictKind::Feasible
        },
{
    if over_capacity || selector_violations > 0 || gang_shortfall {
        return VerdictKind::Infeasible;
    }
    match over_reserve {
        Some(true) => VerdictKind::ReserveNotMet,
        _ => VerdictKind::Feasible,
    }
}

} // verus!
