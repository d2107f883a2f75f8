use kuberina_solver::plan::{classify_plan, next_stale_count, select_ga_budget, GaTier, VerdictKind};

#[test]
fn budget_grows_with_the_problem() {
    let small = select_ga_budget(99);
    assert_eq!(small.tier, GaTier::Small);
    assert_eq!(small.population_size, 128);
    assert_eq!(small.tournament_size, 3);
    assert_eq!(small.max_generations, 500);
    assert_eq!(small.early_stop_generations, 50);

    let medium = select_ga_budget(100);
    assert_eq!(medium.tier, GaTier::Medium);
    assert_eq!(medium.population_size, 256);
    assert_eq!(medium.early_stop_generations, 100);
    assert_eq!(select_ga_budget(500).tier, GaTier::Medium);
    assert_eq!(select_ga_budget(101).tier, GaTier::Medium);

    let large = select_ga_budget(501);
    assert_eq!(large.tier, GaTier::Large);
    assert_eq!(large.population_size, 1024);
    assert_eq!(large.tournament_size, 5);
    assert_eq!(large.max_generations, 1000);
    assert_eq!(large.early_stop_generations, 200);
    assert_eq!(select_ga_budget(0).tier, GaTier::Small);
}

#[test]
fn any_hard_violation_makes_a_plan_infeasible() {
    assert_eq!(classify_plan(true, 0, false, None), VerdictKind::Infeasible);
    assert_eq!(classify_plan(false, 2, false, Some(false)), VerdictKind::Infeasible);
    assert_eq!(classify_plan(false, 0, true, Some(true)), VerdictKind::Infeasible);
}

#[test]
fn fitting_the_cluster_but_not_the_reserve_is_its_own_outcome() {
    assert_eq!(classify_plan(false, 0, false, Some(true)), VerdictKind::ReserveNotMet);
    assert_eq!(classify_plan(false, 0, false, Some(false)), VerdictKind::Feasible);
    assert_eq!(classify_plan(false, 0, false, None), VerdictKind::Feasible);
}

#[test]
fn verdicts_have_distinct_exit_codes() {
    assert_eq!(VerdictKind::Feasible.exit_code(), 0);
    assert_eq!(VerdictKind::Infeasible.exit_code(), 1);
    assert_eq!(VerdictKind::ReserveNotMet.exit_code(), 2);
}

#[test]
fn stale_generations_stop_the_search() {
    assert_eq!(next_stale_count(4, true, 5), (0, false));
    assert_eq!(next_stale_count(3, false, 5), (4, false));
    assert_eq!(next_stale_count(4, false, 5), (5, true));
    assert_eq!(next_stale_count(0, true, 0), (0, true));
}
