//! Integer objectives of a plan: active nodes, affinity violations and the
//! topology-spread excess.
use std::collections::HashSet;
use vstd::prelude::*;

use crate::csp::{indices_where, lemma_indices_where_empty, lemma_indices_where_step};
use crate::model::{Node, Pod};
use crate::text::chars_of;

verus! {

/// f_nodes: number of distinct nodes that hold at least one pod.
pub fn count_active_nodes(assignment: &[usize], _num_nodes: usize) -> (r: usize)
    ensures
        r == assignment@.to_set().len(),
{
    broadcast use vstd::std_specs::hash::group_hash_axioms;

    let mut seen: HashSet<usize> = HashSet::new();
    let mut i: usize = 0;
    while i < assignment.len()
        invariant
            i <= assignment.len(),
            seen@ == assignment@.take(i as int).to_set(),
        decreases assignment.len() - i,
    {
        seen.insert(assignment[i]);
        proof {
            let prev = assignment@.take(i as int);
            let next = assignment@.take(i + 1);
            assert(next =~= prev.push(assignment@[i as int]));
            assert(next.to_set() =~= prev.to_set().insert(assignment@[i as int])) by {
                assert forall|x: usize| next.to_set().contains(x) implies prev.to_set().insert(
                    assignment@[i as int],
                ).contains(x) by {
                    let t = choose|t: int| 0 <= t < next.len() && next[t] == x;
                    if t < i {
                        assert(prev[t] == x);
                    }
                }
                assert forall|x: usize| prev.to_set().insert(assignment@[i as int]).contains(
                    x,
                ) implies next.to_set().contains(x) by {
                    if x == assignment@[i as int] {
                        assert(next[i as int] == x);
                    } else {
                        let t = choose|t: int| 0 <= t < prev.len() && prev[t] == x;
                        assert(next[t] == x);
                    }
                }
            }
        }
        i = i + 1;
    }
    assert(assignment@.take(assignment@.len() as int) =~= assignment@);
    seen.len()
}

/// The active node count of a plan is at most its number of placements and,
/// when every placement names one of `num_nodes` nodes, at most `num_nodes`;
/// a plan that places any pod has at least one active node.
pub proof fn lemma_active_nodes_bounds(assignment: Seq<usize>, num_nodes: nat)
    ensures
        assignment.to_set().len() <= assignment.len(),
        (forall|i: int| 0 <= i < assignment.len() ==> #[trigger] assignment[i] < num_nodes)
            ==> assignment.to_set().len() <= num_nodes,
        assignment.len() > 0 ==> assignment.to_set().len() >= 1,
{
    broadcast use vstd::seq_lib::seq_to_set_is_finite;

    assignment.lemma_cardinality_of_set();
    if forall|i: int| 0 <= i < assignment.len() ==> #[trigger] assignment[i] < num_nodes {
        let range = Seq::new(num_nodes, |i: int| i as usize);
        assert forall|x: usize| assignment.to_set().contains(x) implies range.to_set().contains(x) by {
            let t = choose|t: int| 0 <= t < assignment.len() && assignment[t] == x;
            assert(range[x as int] == x);
        }
        range.lemma_cardinality_of_set();
        vstd::set_lib::lemma_len_subset(assignment.to_set(), range.to_set());
    }
    if assignment.len() > 0 {
        assert(assignment.to_set().contains(assignment[0]));
        if assignment.to_set().len() == 0 {
            assignment.to_set().lemma_len0_is_empty();
        }
    }
}

/// Index of the last '-' among the first `n` characters, if any.
pub open spec fn last_dash(s: Seq<char>, n: int) -> Option<int>
    decreases n,
{
    if n <= 0 {
        None
    } else if s[n - 1] == '-' {
        Some(n - 1)
    } else {
        last_dash(s, n - 1)
    }
}

/// A pod name without its replica suffix: what precedes the last '-', or the
/// whole name when it holds no '-'.
pub open spec fn base_name(s: Seq<char>) -> Seq<char> {
    match last_dash(s, s.len() as int) {
        Some(k) => s.take(k),
        None => s,
    }
}

/// Length of `base_name(s)`.
fn base_len(s: &Vec<char>) -> (r: usize)
    ensures
        r <= s@.len(),
        s@.take(r as int) == base_name(s@),
{
    let mut n: usize = s.len();
    while n > 0
        invariant
            n <= s@.len(),
            last_dash(s@, s@.len() as int) == last_dash(s@, n as int),
        decreases n,
    {
        if s[n - 1] == '-' {
            return n - 1;
        }
        n = n - 1;
    }
    assert(s@.take(s@.len() as int) =~= s@);
    s.len()
}

/// Whether the first `n` characters of `a` and of `b` agree.
fn prefixes_equal(a: &Vec<char>, na: usize, b: &Vec<char>, nb: usize) -> (r: bool)
    requires
        na <= a@.len(),
        nb <= b@.len(),
    ensures
        r == (a@.take(na as int) == b@.take(nb as int)),
{
    if na != nb {
        proof {
            assert(a@.take(na as int).len() != b@.take(nb as int).len());
        }
        return false;
    }
    let mut i: usize = 0;
    while i < na
        invariant
            i <= na,
            na == nb,
            na <= a@.len(),
            nb <= b@.len(),
            forall|j: int| 0 <= j < i ==> a@[j] == b@[j],
        decreases na - i,
    {
        if a[i] != b[i] {
            proof {
                assert(a@.take(na as int)[i as int] != b@.take(nb as int)[i as int]);
            }
            return false;
        }
        i = i + 1;
    }
    assert(a@.take(na as int) =~= b@.take(nb as int));
    true
}

/// Whether two pod names share the same base before the replica suffix:
/// "worker-0000" and "worker-0003" share the base "worker".
pub fn share_base_name(a: &String, b: &String) -> (r: bool)
    ensures
        r == (base_name(a@) == base_name(b@)),
{
    let ca = chars_of(a);
    let cb = chars_of(b);
    let na = base_len(&ca);
    let nb = base_len(&cb);
    prefixes_equal(&ca, na, &cb, nb)
}

/// Index of the last of the first `n` pods whose name is `name`.
pub open spec fn last_named(pods: Seq<Pod>, name: Seq<char>, n: int) -> Option<int>
    decreases n,
{
    if n <= 0 {
        None
    } else if pods[n - 1].name@ == name {
        Some(n - 1)
    } else {
        last_named(pods, name, n - 1)
    }
}

/// Index of the last pod named `name`, the pod that a name lookup built from
/// the pod list in order resolves to.
fn find_last_named(pods: &[Pod], name: &String) -> (r: Option<usize>)
    ensures
        r matches Some(j) ==> last_named(pods@, name@, pods@.len() as int) == Some(j as int),
        r is None ==> last_named(pods@, name@, pods@.len() as int) is None,
{
    let mut n: usize = pods.len();
    while n > 0
        invariant
            n <= pods@.len(),
            last_named(pods@, name@, pods@.len() as int) == last_named(pods@, name@, n as int),
        decreases n,
    {
        if pods[n - 1].name == *name {
            return Some(n - 1);
        }
        n = n - 1;
    }
    None
}

/// The affinity targets of pod `p` when `together`, else its anti-affinity targets.
pub open spec fn kind_targets(pods: Seq<Pod>, p: int, together: bool) -> Seq<String> {
    if together {
        pods[p].affinity_targets@
    } else {
        pods[p].anti_affinity_targets@
    }
}

/// One of the first `m` targets resolves to pod `j`.
pub open spec fn names_upto(pods: Seq<Pod>, targets: Seq<String>, j: int, m: int) -> bool
    decreases m,
{
    if m <= 0 {
        false
    } else {
        names_upto(pods, targets, j, m - 1) || last_named(pods, targets[m - 1]@, pods.len() as int) == Some(j)
    }
}

/// Target `k` of pod `i` is where the pair of `i` and the pod it names is
/// counted: the named pod `j` is another pod, no earlier target of `i` names
/// it, and if `j` comes first it does not name `i` itself.
pub open spec fn counted_at(pods: Seq<Pod>, i: int, targets: Seq<String>, together: bool, k: int) -> bool {
    match last_named(pods, targets[k]@, pods.len() as int) {
        Some(j) => j != i && !names_upto(pods, targets, j, k) && (i < j || !names_upto(
            pods,
            kind_targets(pods, j, together),
            i,
            kind_targets(pods, j, together).len() as int,
        )),
        None => false,
    }
}

/// Violations counted at pod `i`'s first `m` targets. A target resolves to the
/// last pod with its name. The pair of `i` and the pod `j` a target resolves
/// to counts once, whichever of the two names the other: at the first target
/// of `i` naming `j`, unless `j` comes first and names `i` too, in which case
/// it is counted from `j`. With `together` the pair is violated when split,
/// without it when co-located.
pub open spec fn target_violations(
    assignment: Seq<usize>,
    pods: Seq<Pod>,
    i: int,
    targets: Seq<String>,
    together: bool,
    m: int,
) -> nat
    decreases m,
{
    if m <= 0 {
        0
    } else {
        target_violations(assignment, pods, i, targets, together, m - 1) + match last_named(
            pods,
            targets[m - 1]@,
            pods.len() as int,
        ) {
            Some(j) => if counted_at(pods, i, targets, together, m - 1) && ((assignment[i] == assignment[j])
                != together) {
                1nat
            } else {
                0nat
            },
            None => 0nat,
        }
    }
}

/// Affinity plus anti-affinity violations of the first `n` pods.
pub open spec fn affinity_violations_upto(assignment: Seq<usize>, pods: Seq<Pod>, n: int) -> nat
    decreases n,
{
    if n <= 0 {
        0
    } else {
        let i = n - 1;
        affinity_violations_upto(assignment, pods, n - 1) + target_violations(
            assignment,
            pods,
            i,
            pods[i].affinity_targets@,
            true,
            pods[i].affinity_targets@.len() as int,
        ) + target_violations(
            assignment,
            pods,
            i,
            pods[i].anti_affinity_targets@,
            false,
            pods[i].anti_affinity_targets@.len() as int,
        )
    }
}

/// Total number of affinity and anti-affinity targets of the first `n` pods.
pub open spec fn total_targets(pods: Seq<Pod>, n: int) -> nat
    decreases n,
{
    if n <= 0 {
        0
    } else {
        total_targets(pods, n - 1) + pods[n - 1].affinity_targets@.len()
            + pods[n - 1].anti_affinity_targets@.len()
    }
}

/// A target list resolves, wherever a pair is counted, to a pod the plan places.
pub open spec fn targets_placed(
    assignment_len: nat,
    pods: Seq<Pod>,
    i: int,
    targets: Seq<String>,
) -> bool {
    forall|k: int|
        0 <= k < targets.len() ==> match last_named(pods, #[trigger] targets[k]@, pods.len() as int) {
            Some(j) => j != i ==> i < assignment_len && j < assignment_len,
            None => true,
        }
}

/// Every counted affinity pair of every pod is placed by the plan.
pub open spec fn affinity_pairs_placed(assignment_len: nat, pods: Seq<Pod>) -> bool {
    forall|i: int|
        0 <= i < pods.len() ==> targets_placed(assignment_len, pods, i, #[trigger] pods[i].affinity_targets@)
            && targets_placed(assignment_len, pods, i, pods[i].anti_affinity_targets@)
}

proof fn lemma_target_violations_bounded(
    assignment: Seq<usize>,
    pods: Seq<Pod>,
    i: int,
    targets: Seq<String>,
    together: bool,
    m: int,
)
    requires
        0 <= m,
    ensures
        target_violations(assignment, pods, i, targets, together, m) <= m,
    decreases m,
{
    if m > 0 {
        lemma_target_violations_bounded(assignment, pods, i, targets, together, m - 1);
    }
}

/// Target `k` of pod `i` names a pod whose placement violates the pair: apart
/// when `together`, on one node otherwise.
pub open spec fn pair_violated_at(
    assignment: Seq<usize>,
    pods: Seq<Pod>,
    i: int,
    targets: Seq<String>,
    together: bool,
    k: int,
) -> bool {
    match last_named(pods, targets[k]@, pods.len() as int) {
        Some(j) => (assignment[i] == assignment[j]) != together,
        None => false,
    }
}

proof fn lemma_target_violations_count(
    assignment: Seq<usize>,
    pods: Seq<Pod>,
    i: int,
    targets: Seq<String>,
    together: bool,
    m: int,
)
    requires
        0 <= m,
    ensures
        target_violations(assignment, pods, i, targets, together, m) == indices_where(
            m,
            |k: int| counted_at(pods, i, targets, together, k) && pair_violated_at(assignment, pods, i, targets, together, k),
        ).len(),
    decreases m,
{
    let p = |k: int| counted_at(pods, i, targets, together, k) && pair_violated_at(assignment, pods, i, targets, together, k);
    if m == 0 {
        lemma_indices_where_empty(p);
    } else {
        lemma_target_violations_count(assignment, pods, i, targets, together, m - 1);
        lemma_indices_where_step(m - 1, p);
    }
}

/// The violations counted at a pod's targets are the number of its targets
/// where a pair is counted and violated: each such target adds exactly one,
/// so a pod naming several distinct violated partners counts each of them.
pub proof fn lemma_target_violations_count_violated_pairs(
    assignment: Seq<usize>,
    pods: Seq<Pod>,
    i: int,
    targets: Seq<String>,
    together: bool,
)
    ensures
        target_violations(assignment, pods, i, targets, together, targets.len() as int) == Set::new(
            |k: int|
                0 <= k < targets.len() && counted_at(pods, i, targets, together, k) && pair_violated_at(
                    assignment,
                    pods,
                    i,
                    targets,
                    together,
                    k,
                ),
        ).len(),
{
    lemma_target_violations_count(assignment, pods, i, targets, together, targets.len() as int);
    assert(indices_where(
        targets.len() as int,
        |k: int| counted_at(pods, i, targets, together, k) && pair_violated_at(assignment, pods, i, targets, together, k),
    ) =~= Set::new(
        |k: int|
            0 <= k < targets.len() && counted_at(pods, i, targets, together, k) && pair_violated_at(
                assignment,
                pods,
                i,
                targets,
                together,
                k,
            ),
    ));
}

/// The pod target `k` of pod `p`'s list of one kind resolves to.
pub open spec fn resolved_target(pods: Seq<Pod>, p: int, together: bool, k: int) -> Option<int> {
    last_named(pods, kind_targets(pods, p, together)[k]@, pods.len() as int)
}

proof fn lemma_names_upto_witness(pods: Seq<Pod>, targets: Seq<String>, j: int, m: int)
    requires
        names_upto(pods, targets, j, m),
    ensures
        exists|k: int|
            0 <= k < m && last_named(pods, #[trigger] targets[k]@, pods.len() as int) == Some(j) && !names_upto(
                pods,
                targets,
                j,
                k,
            ),
    decreases m,
{
    if names_upto(pods, targets, j, m - 1) {
        lemma_names_upto_witness(pods, targets, j, m - 1);
    } else {
        assert(last_named(pods, targets[m - 1]@, pods.len() as int) == Some(j));
    }
}

proof fn lemma_names_upto_from(pods: Seq<Pod>, targets: Seq<String>, j: int, k: int, m: int)
    requires
        0 <= k < m,
        last_named(pods, targets[k]@, pods.len() as int) == Some(j),
    ensures
        names_upto(pods, targets, j, m),
{
    assert(names_upto(pods, targets, j, k + 1));
    lemma_names_upto_grows(pods, targets, j, k + 1, m);
}

/// Each pair of distinct pods of which one names the other, by a target of one
/// kind, is counted at exactly one target: at a target of the first pod or at
/// a target of the second, never both, and at a single position there.
pub proof fn lemma_each_pair_counted_once(pods: Seq<Pod>, together: bool, i: int, j: int)
    requires
        0 <= i < pods.len(),
        0 <= j < pods.len(),
        i != j,
        names_upto(pods, kind_targets(pods, i, together), j, kind_targets(pods, i, together).len() as int)
            || names_upto(pods, kind_targets(pods, j, together), i, kind_targets(pods, j, together).len() as int),
    ensures
        (exists|k: int|
            0 <= k < kind_targets(pods, i, together).len() && #[trigger] counted_at(
                pods,
                i,
                kind_targets(pods, i, together),
                together,
                k,
            ) && resolved_target(pods, i, together, k) == Some(j)) != (exists|k: int|
            0 <= k < kind_targets(pods, j, together).len() && #[trigger] counted_at(
                pods,
                j,
                kind_targets(pods, j, together),
                together,
                k,
            ) && resolved_target(pods, j, together, k) == Some(i)),
        forall|k1: int, k2: int|
            0 <= k1 < kind_targets(pods, i, together).len() && 0 <= k2 < kind_targets(pods, i, together).len()
                && #[trigger] counted_at(pods, i, kind_targets(pods, i, together), together, k1)
                && #[trigger] counted_at(pods, i, kind_targets(pods, i, together), together, k2)
                && resolved_target(pods, i, together, k1) == Some(j) && resolved_target(pods, i, together, k2)
                == Some(j) ==> k1 == k2,
{
    let ti = kind_targets(pods, i, together);
    let tj = kind_targets(pods, j, together);
    let i_names = names_upto(pods, ti, j, ti.len() as int);
    let j_names = names_upto(pods, tj, i, tj.len() as int);
    // Any target of `i` that resolves to `j` means `i` names `j`, and likewise for `j`.
    assert forall|k: int| 0 <= k < ti.len() && resolved_target(pods, i, together, k) == Some(j) implies i_names by {
        lemma_names_upto_from(pods, ti, j, k, ti.len() as int);
    }
    assert forall|k: int| 0 <= k < tj.len() && resolved_target(pods, j, together, k) == Some(i) implies j_names by {
        lemma_names_upto_from(pods, tj, i, k, tj.len() as int);
    }
    if i_names && (i < j || !j_names) {
        lemma_names_upto_witness(pods, ti, j, ti.len() as int);
        let k = choose|k: int|
            0 <= k < ti.len() && last_named(pods, #[trigger] ti[k]@, pods.len() as int) == Some(j) && !names_upto(
                pods,
                ti,
                j,
                k,
            );
        assert(counted_at(pods, i, ti, together, k));
        assert(resolved_target(pods, i, together, k) == Some(j));
    }
    if j_names && (j < i || !i_names) {
        lemma_names_upto_witness(pods, tj, i, tj.len() as int);
        let k = choose|k: int|
            0 <= k < tj.len() && last_named(pods, #[trigger] tj[k]@, pods.len() as int) == Some(i) && !names_upto(
                pods,
                tj,
                i,
                k,
            );
        assert(counted_at(pods, j, tj, together, k));
        assert(resolved_target(pods, j, together, k) == Some(i));
    }
    assert forall|k1: int, k2: int|
        0 <= k1 < ti.len() && 0 <= k2 < ti.len() && #[trigger] counted_at(pods, i, ti, together, k1)
            && #[trigger] counted_at(pods, i, ti, together, k2) && resolved_target(pods, i, together, k1) == Some(j)
            && resolved_target(pods, i, together, k2) == Some(j) implies k1 == k2 by {
        if k1 < k2 {
            lemma_names_upto_from(pods, ti, j, k1, k2);
        } else if k2 < k1 {
            lemma_names_upto_from(pods, ti, j, k2, k1);
        }
    }
}

/// The affinity violations of the first `n` pods never exceed their number of
/// affinity and anti-affinity targets: each target is counted at most once.
pub proof fn lemma_affinity_bounded(assignment: Seq<usize>, pods: Seq<Pod>, n: int)
    requires
        0 <= n <= pods.len(),
    ensures
        affinity_violations_upto(assignment, pods, n) <= total_targets(pods, n),
    decreases n,
{
    if n > 0 {
        let i = n - 1;
        lemma_affinity_bounded(assignment, pods, n - 1);
        lemma_target_violations_bounded(
            assignment,
            pods,
            i,
            pods[i].affinity_targets@,
            true,
            pods[i].affinity_targets@.len() as int,
        );
        lemma_target_violations_bounded(
            assignment,
            pods,
            i,
            pods[i].anti_affinity_targets@,
            false,
            pods[i].anti_affinity_targets@.len() as int,
        );
    }
}

proof fn lemma_total_targets_monotonic(pods: Seq<Pod>, a: int, b: int)
    requires
        0 <= a <= b <= pods.len(),
    ensures
        total_targets(pods, a) <= total_targets(pods, b),
    decreases b - a,
{
    if a < b {
        lemma_total_targets_monotonic(pods, a, b - 1);
    }
}

/// `r` holds, for each target, the pod it resolves to.
pub open spec fn resolves(pods: Seq<Pod>, targets: Seq<String>, r: Seq<Option<usize>>) -> bool {
    &&& r.len() == targets.len()
    &&& forall|k: int|
        0 <= k < r.len() ==> (match #[trigger] r[k] {
            Some(j) => Some(j as int),
            None => None,
        }) == last_named(pods, targets[k]@, pods.len() as int)
}

/// The pod each target resolves to.
fn resolve_targets(pods: &[Pod], targets: &Vec<String>) -> (r: Vec<Option<usize>>)
    ensures
        resolves(pods@, targets@, r@),
{
    let mut out: Vec<Option<usize>> = Vec::new();
    let mut k: usize = 0;
    while k < targets.len()
        invariant
            k <= targets@.len(),
            out@.len() == k,
            forall|t: int|
                0 <= t < k ==> (match #[trigger] out@[t] {
                    Some(j) => Some(j as int),
                    None => None,
                }) == last_named(pods@, targets@[t]@, pods@.len() as int),
        decreases targets@.len() - k,
    {
        out.push(find_last_named(pods, &targets[k]));
        k = k + 1;
    }
    out
}

/// Whether one of the first `m` targets resolves to pod `j`.
fn names_in(pods: &[Pod], targets: &Vec<String>, r: &Vec<Option<usize>>, j: usize, m: usize) -> (b: bool)
    requires
        resolves(pods@, targets@, r@),
        m <= r@.len(),
    ensures
        b == names_upto(pods@, targets@, j as int, m as int),
{
    let mut t: usize = 0;
    while t < m
        invariant
            t <= m,
            m <= r@.len(),
            resolves(pods@, targets@, r@),
            !names_upto(pods@, targets@, j as int, t as int),
        decreases m - t,
    {
        if r[t] == Some(j) {
            assert(names_upto(pods@, targets@, j as int, t + 1));
            proof {
                lemma_names_upto_grows(pods@, targets@, j as int, t + 1, m as int);
            }
            return true;
        }
        t = t + 1;
    }
    false
}

proof fn lemma_names_upto_grows(pods: Seq<Pod>, targets: Seq<String>, j: int, a: int, b: int)
    requires
        a <= b,
        names_upto(pods, targets, j, a),
    ensures
        names_upto(pods, targets, j, b),
    decreases b - a,
{
    if a < b {
        lemma_names_upto_grows(pods, targets, j, a, b - 1);
    }
}

/// The resolved target lists of every pod, of one kind.
fn resolve_all(pods: &[Pod], together: bool) -> (r: Vec<Vec<Option<usize>>>)
    ensures
        r@.len() == pods@.len(),
        forall|p: int| 0 <= p < pods@.len() ==> resolves(pods@, kind_targets(pods@, p, together), #[trigger] r@[p]@),
{
    let mut out: Vec<Vec<Option<usize>>> = Vec::new();
    let mut p: usize = 0;
    while p < pods.len()
        invariant
            p <= pods@.len(),
            out@.len() == p,
            forall|q: int| 0 <= q < p ==> resolves(pods@, kind_targets(pods@, q, together), #[trigger] out@[q]@),
        decreases pods@.len() - p,
    {
        let list = if together {
            &pods[p].affinity_targets
        } else {
            &pods[p].anti_affinity_targets
        };
        out.push(resolve_targets(pods, list));
        p = p + 1;
    }
    out
}

/// Violations counted at one pod's target list of one kind.
fn count_target_violations(
    assignment: &[usize],
    pods: &[Pod],
    lists: &Vec<Vec<Option<usize>>>,
    i: usize,
    together: bool,
) -> (r: usize)
    requires
        i < pods@.len(),
        lists@.len() == pods@.len(),
        forall|p: int| 0 <= p < pods@.len() ==> resolves(pods@, kind_targets(pods@, p, together), #[trigger] lists@[p]@),
        targets_placed(assignment@.len(), pods@, i as int, kind_targets(pods@, i as int, together)),
    ensures
        r == target_violations(
            assignment@,
            pods@,
            i as int,
            kind_targets(pods@, i as int, together),
            together,
            kind_targets(pods@, i as int, together).len() as int,
        ),
{
    let ghost targets = kind_targets(pods@, i as int, together);
    let own = if together {
        &pods[i].affinity_targets
    } else {
        &pods[i].anti_affinity_targets
    };
    assert(own@ == targets);
    let resolved = &lists[i];
    assert(resolves(pods@, targets, resolved@));
    let mut count: usize = 0;
    let mut k: usize = 0;
    while k < resolved.len()
        invariant
            k <= resolved@.len(),
            i < pods@.len(),
            lists@.len() == pods@.len(),
            forall|p: int| 0 <= p < pods@.len() ==> resolves(pods@, kind_targets(pods@, p, together), #[trigger] lists@[p]@),
            *resolved == lists@[i as int],
            own@ == targets,
            targets == kind_targets(pods@, i as int, together),
            resolves(pods@, targets, resolved@),
            targets_placed(assignment@.len(), pods@, i as int, targets),
            count == target_violations(assignment@, pods@, i as int, targets, together, k as int),
        decreases resolved@.len() - k,
    {
        proof {
            lemma_target_violations_bounded(assignment@, pods@, i as int, targets, together, k as int);
            assert(resolved@[k as int] == resolved@[k as int]);
        }
        match resolved[k] {
            Some(j) => {
                if j != i {
                    assert(last_named(pods@, targets[k as int]@, pods@.len() as int) == Some(j as int));
                    assert(j < pods@.len()) by {
                        lemma_last_named_in_range(pods@, targets[k as int]@, pods@.len() as int);
                    }
                    let first = !names_in(pods, own, resolved, j, k);
                    let counted_here = first && (i < j || {
                        let other = &lists[j];
                        let other_targets = if together {
                            &pods[j].affinity_targets
                        } else {
                            &pods[j].anti_affinity_targets
                        };
                        assert(other_targets@ == kind_targets(pods@, j as int, together));
                        assert(resolves(pods@, kind_targets(pods@, j as int, together), other@));
                        !names_in(pods, other_targets, other, i, other.len())
                    });
                    if counted_here {
                        assert(i < assignment@.len() && j < assignment@.len());
                        if (assignment[i] == assignment[j]) != together {
                            count = count + 1;
                        }
                    }
                }
            },
            None => {},
        }
        k = k + 1;
    }
    count
}

proof fn lemma_last_named_in_range(pods: Seq<Pod>, name: Seq<char>, n: int)
    requires
        n <= pods.len(),
    ensures
        last_named(pods, name, n) matches Some(j) ==> 0 <= j < n,
    decreases n,
{
    if n > 0 {
        lemma_last_named_in_range(pods, name, n - 1);
    }
}

/// f_affinity: count soft affinity and anti-affinity violations.
///
/// Affinity: pods that want to share a node but do not. Anti-affinity: pods
/// that do not want to share a node but do. A name resolves to the last pod
/// carrying it, and each pair of pods counts once, whether one of them names
/// the other or both do.
pub fn compute_affinity_violations(assignment: &[usize], pods: &[Pod]) -> (r: usize)
    requires
        affinity_pairs_placed(assignment@.len(), pods@),
        total_targets(pods@, pods@.len() as int) <= usize::MAX,
    ensures
        r == affinity_violations_upto(assignment@, pods@, pods@.len() as int),
{
    let affinity = resolve_all(pods, true);
    let anti = resolve_all(pods, false);
    let mut total: usize = 0;
    let mut i: usize = 0;
    while i < pods.len()
        invariant
            i <= pods.len(),
            affinity_pairs_placed(assignment@.len(), pods@),
            total_targets(pods@, pods@.len() as int) <= usize::MAX,
            affinity@.len() == pods@.len(),
            anti@.len() == pods@.len(),
            forall|p: int| 0 <= p < pods@.len() ==> resolves(pods@, kind_targets(pods@, p, true), #[trigger] affinity@[p]@),
            forall|p: int| 0 <= p < pods@.len() ==> resolves(pods@, kind_targets(pods@, p, false), #[trigger] anti@[p]@),
            total == affinity_violations_upto(assignment@, pods@, i as int),
        decreases pods.len() - i,
    {
        proof {
            lemma_affinity_bounded(assignment@, pods@, i + 1);
            lemma_total_targets_monotonic(pods@, i + 1, pods@.len() as int);
            assert(targets_placed(assignment@.len(), pods@, i as int, pods@[i as int].affinity_targets@));
        }
        let a = count_target_violations(assignment, pods, &affinity, i, true);
        let b = count_target_violations(assignment, pods, &anti, i, false);
        total = total + a + b;
        i = i + 1;
    }
    total
}

/// The topology domain of a node under a spread key: its zone for "zone", its
/// rack for "rack", and no domain (empty) for any other key.
pub open spec fn domain_of(node: Node, key: Seq<char>) -> Seq<char> {
    if key == "zone"@ {
        node.zone@
    } else if key == "rack"@ {
        node.rack@
    } else {
        Seq::empty()
    }
}

/// Two pods belong to one spread class: both carry a spread constraint with the
/// same key, they share a namespace, and their names share a base.
pub open spec fn spread_peers(a: Pod, b: Pod) -> bool {
    &&& a.topology_spread is Some
    &&& b.topology_spread is Some
    &&& b.topology_spread->0.topology_key@ == a.topology_spread->0.topology_key@
    &&& b.namespace@ == a.namespace@
    &&& base_name(a.name@) == base_name(b.name@)
}

/// Pod `i` carries a spread constraint and no earlier pod is in its class.
pub open spec fn first_of_class(pods: Seq<Pod>, i: int) -> bool {
    &&& pods[i].topology_spread is Some
    &&& forall|j: int| 0 <= j < i ==> !spread_peers(pods[i], #[trigger] pods[j])
}

/// Pods of pod `i`'s class, among the first `m`, placed in domain `d`.
pub open spec fn class_count(
    assignment: Seq<usize>,
    pods: Seq<Pod>,
    nodes: Seq<Node>,
    i: int,
    d: Seq<char>,
    m: int,
) -> nat
    decreases m,
{
    if m <= 0 {
        0
    } else {
        class_count(assignment, pods, nodes, i, d, m - 1) + if spread_peers(pods[i], pods[m - 1])
            && domain_of(nodes[assignment[m - 1] as int], pods[i].topology_spread->0.topology_key@)
            == d {
            1nat
        } else {
            0nat
        }
    }
}

/// Largest class count over the non-empty domains of the first `k` nodes, or
/// -1 when none of them has a domain.
pub open spec fn max_domain_count(
    assignment: Seq<usize>,
    pods: Seq<Pod>,
    nodes: Seq<Node>,
    i: int,
    k: int,
) -> int
    decreases k,
{
    if k <= 0 {
        -1
    } else {
        let rest = max_domain_count(assignment, pods, nodes, i, k - 1);
        let d = domain_of(nodes[k - 1], pods[i].topology_spread->0.topology_key@);
        if d.len() == 0 {
            rest
        } else {
            let c = class_count(assignment, pods, nodes, i, d, pods.len() as int) as int;
            if c > rest {
                c
            } else {
                rest
            }
        }
    }
}

/// Smallest class count over the non-empty domains of the first `k` nodes, if any.
pub open spec fn min_domain_count(
    assignment: Seq<usize>,
    pods: Seq<Pod>,
    nodes: Seq<Node>,
    i: int,
    k: int,
) -> Option<nat>
    decreases k,
{
    if k <= 0 {
        None
    } else {
        let rest = min_domain_count(assignment, pods, nodes, i, k - 1);
        let d = domain_of(nodes[k - 1], pods[i].topology_spread->0.topology_key@);
        if d.len() == 0 {
            rest
        } else {
            let c = class_count(assignment, pods, nodes, i, d, pods.len() as int);
            match rest {
                Some(m) => if c < m {
                    Some(c)
                } else {
                    Some(m)
                },
                None => Some(c),
            }
        }
    }
}

/// The nodes span at least two distinct non-empty domains under `key`.
pub open spec fn two_domains(nodes: Seq<Node>, key: Seq<char>) -> bool {
    exists|a: int, b: int|
        0 <= a < nodes.len() && 0 <= b < nodes.len() && domain_of(#[trigger] nodes[a], key).len() > 0
            && domain_of(#[trigger] nodes[b], key).len() > 0 && domain_of(nodes[a], key) != domain_of(
            nodes[b],
            key,
        )
}

/// Penalty contributed by pod `i`: for the first pod of a spread class, how far
/// the class's skew (largest minus smallest count over the domains) exceeds
/// its `max_skew`, when there are at least two domains to spread over.
pub open spec fn spread_term(assignment: Seq<usize>, pods: Seq<Pod>, nodes: Seq<Node>, i: int) -> nat {
    if first_of_class(pods, i) && two_domains(nodes, pods[i].topology_spread->0.topology_key@) {
        let hi = max_domain_count(assignment, pods, nodes, i, nodes.len() as int);
        let lo = match min_domain_count(assignment, pods, nodes, i, nodes.len() as int) {
            Some(m) => m as int,
            None => 0,
        };
        let skew = hi - lo;
        let limit = pods[i].topology_spread->0.max_skew as int;
        if skew > limit {
            (skew - limit) as nat
        } else {
            0
        }
    } else {
        0
    }
}

/// Sum of the spread terms of the first `n` pods.
pub open spec fn spread_penalty_upto(assignment: Seq<usize>, pods: Seq<Pod>, nodes: Seq<Node>, n: int) -> nat
    decreases n,
{
    if n <= 0 {
        0
    } else {
        spread_penalty_upto(assignment, pods, nodes, n - 1) + spread_term(assignment, pods, nodes, n - 1)
    }
}

/// Every pod with a spread constraint is placed on an existing node.
pub open spec fn spread_pods_placed(assignment: Seq<usize>, pods: Seq<Pod>, nodes: Seq<Node>) -> bool {
    forall|j: int|
        0 <= j < pods.len() && (#[trigger] pods[j]).topology_spread is Some ==> j < assignment.len()
            && assignment[j] < nodes.len()
}

/// Which field of a node a spread key reads.
#[derive(PartialEq, Eq, Structural, Clone, Copy)]
enum SpreadKey {
    Zone,
    Rack,
    Other,
}

fn spread_key(key: &String) -> (r: SpreadKey)
    ensures
        r == SpreadKey::Zone <==> key@ == "zone"@,
        r == SpreadKey::Rack <==> key@ == "rack"@ && key@ != "zone"@,
{
    let zone = "zone".to_owned();
    let rack = "rack".to_owned();
    if *key == zone {
        SpreadKey::Zone
    } else if *key == rack {
        SpreadKey::Rack
    } else {
        SpreadKey::Other
    }
}

/// The domain string of a node under a zone or rack key.
fn node_domain(node: &Node, zone: bool) -> (r: &String)
    ensures
        r@ == if zone {
            node.zone@
        } else {
            node.rack@
        },
{
    if zone {
        &node.zone
    } else {
        &node.rack
    }
}

/// Distinct domains of the nodes under one field: `reps` holds one node per
/// distinct non-empty domain, and `rep_of[k]` the entry of node `k`'s domain.
struct DomainTable {
    reps: Vec<usize>,
    rep_of: Vec<usize>,
}

spec fn field_domain(node: Node, zone: bool) -> Seq<char> {
    if zone {
        node.zone@
    } else {
        node.rack@
    }
}

spec fn table_wf(t: DomainTable, nodes: Seq<Node>, zone: bool) -> bool {
    &&& t.rep_of@.len() == nodes.len()
    &&& forall|r: int|
        0 <= r < t.reps@.len() ==> #[trigger] t.reps@[r] < nodes.len() && field_domain(
            nodes[t.reps@[r] as int],
            zone,
        ).len() > 0
    &&& forall|r1: int, r2: int|
        0 <= r1 < t.reps@.len() && 0 <= r2 < t.reps@.len() && r1 != r2 ==> field_domain(
            nodes[#[trigger] t.reps@[r1] as int],
            zone,
        ) != field_domain(nodes[#[trigger] t.reps@[r2] as int], zone)
    &&& forall|k: int|
        0 <= k < nodes.len() && field_domain(#[trigger] nodes[k], zone).len() > 0 ==> t.rep_of@[k]
            < t.reps@.len() && field_domain(nodes[t.reps@[t.rep_of@[k] as int] as int], zone)
            == field_domain(nodes[k], zone)
}

fn find_domain(reps: &Vec<usize>, nodes: &[Node], zone: bool, d: &String, k: usize) -> (r: Option<usize>)
    requires
        k < nodes@.len(),
        forall|q: int| 0 <= q < reps@.len() ==> #[trigger] reps@[q] < k,
    ensures
        r matches Some(q) ==> q < reps@.len() && field_domain(nodes@[reps@[q as int] as int], zone)
            == d@,
        r is None ==> forall|q: int|
            0 <= q < reps@.len() ==> field_domain(nodes@[#[trigger] reps@[q] as int], zone) != d@,
{
    let mut r: usize = 0;
    while r < reps.len()
        invariant
            r <= reps@.len(),
            k < nodes@.len(),
            forall|q: int| 0 <= q < reps@.len() ==> #[trigger] reps@[q] < k,
            forall|q: int| 0 <= q < r ==> field_domain(nodes@[#[trigger] reps@[q] as int], zone) != d@,
        decreases reps@.len() - r,
    {
        if *node_domain(&nodes[reps[r]], zone) == *d {
            return Some(r);
        }
        r = r + 1;
    }
    None
}

fn build_domain_table(nodes: &[Node], zone: bool) -> (t: DomainTable)
    ensures
        table_wf(t, nodes@, zone),
{
    let mut reps: Vec<usize> = Vec::new();
    let mut rep_of: Vec<usize> = Vec::new();
    let mut k: usize = 0;
    while k < nodes.len()
        invariant
            k <= nodes.len(),
            rep_of@.len() == k,
            forall|r: int|
                0 <= r < reps@.len() ==> #[trigger] reps@[r] < k && field_domain(
                    nodes@[reps@[r] as int],
                    zone,
                ).len() > 0,
            forall|r1: int, r2: int|
                0 <= r1 < reps@.len() && 0 <= r2 < reps@.len() && r1 != r2 ==> field_domain(
                    nodes@[#[trigger] reps@[r1] as int],
                    zone,
                ) != field_domain(nodes@[#[trigger] reps@[r2] as int], zone),
            forall|j: int|
                0 <= j < k && field_domain(#[trigger] nodes@[j], zone).len() > 0 ==> rep_of@[j]
                    < reps@.len() && field_domain(nodes@[reps@[rep_of@[j] as int] as int], zone)
                    == field_domain(nodes@[j], zone),
        decreases nodes.len() - k,
    {
        let d = node_domain(&nodes[k], zone);
        if d.as_str().is_empty() {
            rep_of.push(0);
        } else {
            let found = find_domain(&reps, nodes, zone, d, k);
            if let Some(r) = found {
                rep_of.push(r);
            } else {
                reps.push(k);
                rep_of.push(reps.len() - 1);
                proof {
                    assert(reps@[reps@.len() - 1] == k);
                }
            }
        }
        k = k + 1;
    }
    DomainTable { reps, rep_of }
}

proof fn lemma_class_count_bounded(
    assignment: Seq<usize>,
    pods: Seq<Pod>,
    nodes: Seq<Node>,
    i: int,
    d: Seq<char>,
    m: int,
)
    requires
        0 <= m,
    ensures
        class_count(assignment, pods, nodes, i, d, m) <= m,
    decreases m,
{
    if m > 0 {
        lemma_class_count_bounded(assignment, pods, nodes, i, d, m - 1);
    }
}

proof fn lemma_max_domain_count_bounded(
    assignment: Seq<usize>,
    pods: Seq<Pod>,
    nodes: Seq<Node>,
    i: int,
    k: int,
)
    requires
        0 <= k,
    ensures
        -1 <= max_domain_count(assignment, pods, nodes, i, k) <= pods.len(),
        min_domain_count(assignment, pods, nodes, i, k) matches Some(m) ==> m <= max_domain_count(
            assignment,
            pods,
            nodes,
            i,
            k,
        ),
        min_domain_count(assignment, pods, nodes, i, k) is None <==> max_domain_count(
            assignment,
            pods,
            nodes,
            i,
            k,
        ) == -1,
    decreases k,
{
    if k > 0 {
        lemma_max_domain_count_bounded(assignment, pods, nodes, i, k - 1);
        let d = domain_of(nodes[k - 1], pods[i].topology_spread->0.topology_key@);
        lemma_class_count_bounded(assignment, pods, nodes, i, d, pods.len() as int);
    }
}

/// Node `t` lies in a domain under pod `i`'s spread key.
pub open spec fn in_domain(pods: Seq<Pod>, nodes: Seq<Node>, i: int, t: int) -> bool {
    domain_of(nodes[t], pods[i].topology_spread->0.topology_key@).len() > 0
}

/// Number of pods of pod `i`'s spread class placed in node `t`'s domain.
pub open spec fn count_in_domain_of(assignment: Seq<usize>, pods: Seq<Pod>, nodes: Seq<Node>, i: int, t: int) -> int {
    class_count(
        assignment,
        pods,
        nodes,
        i,
        domain_of(nodes[t], pods[i].topology_spread->0.topology_key@),
        pods.len() as int,
    ) as int
}

proof fn lemma_max_domain_count_is_largest(assignment: Seq<usize>, pods: Seq<Pod>, nodes: Seq<Node>, i: int, k: int)
    requires
        0 <= k <= nodes.len(),
    ensures
        forall|t: int|
            0 <= t < k && #[trigger] in_domain(pods, nodes, i, t) ==> count_in_domain_of(assignment, pods, nodes, i, t)
                <= max_domain_count(assignment, pods, nodes, i, k),
        (exists|t: int| 0 <= t < k && #[trigger] in_domain(pods, nodes, i, t)) ==> exists|a: int|
            0 <= a < k && #[trigger] in_domain(pods, nodes, i, a) && max_domain_count(assignment, pods, nodes, i, k)
                == count_in_domain_of(assignment, pods, nodes, i, a),
    decreases k,
{
    if k > 0 {
        lemma_max_domain_count_is_largest(assignment, pods, nodes, i, k - 1);
        if exists|t: int| 0 <= t < k && #[trigger] in_domain(pods, nodes, i, t) {
            if in_domain(pods, nodes, i, k - 1) {
                let c = count_in_domain_of(assignment, pods, nodes, i, k - 1);
                if exists|t: int| 0 <= t < k - 1 && #[trigger] in_domain(pods, nodes, i, t) {
                    let a = choose|a: int|
                        0 <= a < k - 1 && #[trigger] in_domain(pods, nodes, i, a) && max_domain_count(
                            assignment,
                            pods,
                            nodes,
                            i,
                            k - 1,
                        ) == count_in_domain_of(assignment, pods, nodes, i, a);
                    if c <= max_domain_count(assignment, pods, nodes, i, k - 1) {
                        assert(in_domain(pods, nodes, i, a));
                    }
                } else {
                    assert(max_domain_count(assignment, pods, nodes, i, k - 1) == -1) by {
                        lemma_max_domain_count_minus_one(assignment, pods, nodes, i, k - 1);
                    }
                }
            } else {
                let t0 = choose|t: int| 0 <= t < k && #[trigger] in_domain(pods, nodes, i, t);
                assert(t0 < k - 1);
            }
        }
    }
}

proof fn lemma_max_domain_count_minus_one(assignment: Seq<usize>, pods: Seq<Pod>, nodes: Seq<Node>, i: int, k: int)
    requires
        0 <= k,
        forall|t: int| 0 <= t < k ==> !#[trigger] in_domain(pods, nodes, i, t),
    ensures
        max_domain_count(assignment, pods, nodes, i, k) == -1,
        min_domain_count(assignment, pods, nodes, i, k) is None,
    decreases k,
{
    if k > 0 {
        assert(!in_domain(pods, nodes, i, k - 1));
        lemma_max_domain_count_minus_one(assignment, pods, nodes, i, k - 1);
    }
}

proof fn lemma_min_domain_count_is_smallest(assignment: Seq<usize>, pods: Seq<Pod>, nodes: Seq<Node>, i: int, k: int)
    requires
        0 <= k <= nodes.len(),
    ensures
        forall|t: int|
            0 <= t < k && #[trigger] in_domain(pods, nodes, i, t) ==> min_domain_count(assignment, pods, nodes, i, k) is Some
                && min_domain_count(assignment, pods, nodes, i, k)->0 <= count_in_domain_of(assignment, pods, nodes, i, t),
        (exists|t: int| 0 <= t < k && #[trigger] in_domain(pods, nodes, i, t)) ==> exists|b: int|
            0 <= b < k && #[trigger] in_domain(pods, nodes, i, b) && min_domain_count(assignment, pods, nodes, i, k)
                == Some(count_in_domain_of(assignment, pods, nodes, i, b) as nat),
    decreases k,
{
    if k > 0 {
        lemma_min_domain_count_is_smallest(assignment, pods, nodes, i, k - 1);
        if exists|t: int| 0 <= t < k && #[trigger] in_domain(pods, nodes, i, t) {
            if in_domain(pods, nodes, i, k - 1) {
                if exists|t: int| 0 <= t < k - 1 && #[trigger] in_domain(pods, nodes, i, t) {
                    let b = choose|b: int|
                        0 <= b < k - 1 && #[trigger] in_domain(pods, nodes, i, b) && min_domain_count(
                            assignment,
                            pods,
                            nodes,
                            i,
                            k - 1,
                        ) == Some(count_in_domain_of(assignment, pods, nodes, i, b) as nat);
                    assert(in_domain(pods, nodes, i, b));
                } else {
                    lemma_max_domain_count_minus_one(assignment, pods, nodes, i, k - 1);
                }
            } else {
                let t0 = choose|t: int| 0 <= t < k && #[trigger] in_domain(pods, nodes, i, t);
                assert(t0 < k - 1);
            }
        }
    }
}

/// The spread penalty of the first pod of a class, over a cluster with at
/// least two domains, is by how much the largest count of the class in a
/// domain exceeds the smallest, every non-empty domain included, beyond the
/// class's `max_skew`.
pub proof fn lemma_spread_term_is_skew_excess(assignment: Seq<usize>, pods: Seq<Pod>, nodes: Seq<Node>, i: int)
    requires
        0 <= i < pods.len(),
        first_of_class(pods, i),
        two_domains(nodes, pods[i].topology_spread->0.topology_key@),
    ensures
        exists|a: int, b: int|
            0 <= a < nodes.len() && 0 <= b < nodes.len() && #[trigger] in_domain(pods, nodes, i, a)
                && #[trigger] in_domain(pods, nodes, i, b) && (forall|t: int|
                0 <= t < nodes.len() && #[trigger] in_domain(pods, nodes, i, t) ==> count_in_domain_of(
                    assignment,
                    pods,
                    nodes,
                    i,
                    b,
                ) <= count_in_domain_of(assignment, pods, nodes, i, t) <= count_in_domain_of(
                    assignment,
                    pods,
                    nodes,
                    i,
                    a,
                )) && spread_term(assignment, pods, nodes, i) as int == if count_in_domain_of(
                assignment,
                pods,
                nodes,
                i,
                a,
            ) - count_in_domain_of(assignment, pods, nodes, i, b) > pods[i].topology_spread->0.max_skew {
                count_in_domain_of(assignment, pods, nodes, i, a) - count_in_domain_of(assignment, pods, nodes, i, b)
                    - pods[i].topology_spread->0.max_skew
            } else {
                0
            },
{
    let key = pods[i].topology_spread->0.topology_key@;
    let n = nodes.len() as int;
    let (x, y) = choose|x: int, y: int|
        0 <= x < nodes.len() && 0 <= y < nodes.len() && domain_of(#[trigger] nodes[x], key).len() > 0
            && domain_of(#[trigger] nodes[y], key).len() > 0 && domain_of(nodes[x], key) != domain_of(nodes[y], key);
    assert(in_domain(pods, nodes, i, x));
    lemma_max_domain_count_is_largest(assignment, pods, nodes, i, n);
    lemma_min_domain_count_is_smallest(assignment, pods, nodes, i, n);
    let a = choose|a: int|
        0 <= a < n && #[trigger] in_domain(pods, nodes, i, a) && max_domain_count(assignment, pods, nodes, i, n)
            == count_in_domain_of(assignment, pods, nodes, i, a);
    let b = choose|b: int|
        0 <= b < n && #[trigger] in_domain(pods, nodes, i, b) && min_domain_count(assignment, pods, nodes, i, n)
            == Some(count_in_domain_of(assignment, pods, nodes, i, b) as nat);
    assert(in_domain(pods, nodes, i, a) && in_domain(pods, nodes, i, b));
}

proof fn lemma_max_domain_count_nonneg(
    assignment: Seq<usize>,
    pods: Seq<Pod>,
    nodes: Seq<Node>,
    i: int,
    k: int,
    a: int,
)
    requires
        0 <= a < k,
        domain_of(nodes[a], pods[i].topology_spread->0.topology_key@).len() > 0,
    ensures
        max_domain_count(assignment, pods, nodes, i, k) >= 0,
    decreases k,
{
    if a < k - 1 {
        lemma_max_domain_count_nonneg(assignment, pods, nodes, i, k - 1, a);
    }
}

/// Excess of one spread class's skew over its limit, for the first pod `i` of
/// the class, counted over the domains of `table`.
fn class_excess(
    assignment: &[usize],
    pods: &[Pod],
    nodes: &[Node],
    bases: &Vec<Vec<char>>,
    base_lens: &Vec<usize>,
    i: usize,
    table: &DomainTable,
    zone: bool,
) -> (r: usize)
    requires
        i < pods@.len(),
        first_of_class(pods@, i as int),
        spread_pods_placed(assignment@, pods@, nodes@),
        bases_of(bases@, base_lens@, pods@),
        table_wf(*table, nodes@, zone),
        pods@[i as int].topology_spread->0.topology_key@ == if zone {
            "zone"@
        } else {
            "rack"@
        },
    ensures
        r == spread_term(assignment@, pods@, nodes@, i as int),
        r <= pods@.len(),
{
    let ghost key = pods@[i as int].topology_spread->0.topology_key@;
    proof {
        reveal_strlit("zone");
        reveal_strlit("rack");
        assert("zone"@[0] != "rack"@[0]);
        assert("zone"@ != "rack"@);
        assert forall|k: int| 0 <= k < nodes@.len() implies #[trigger] domain_of(nodes@[k], key)
            == field_domain(nodes@[k], zone) by {}
    }
    let mut counts: Vec<usize> = Vec::new();
    let mut r: usize = 0;
    while r < table.reps.len()
        invariant
            r <= table.reps@.len(),
            counts@.len() == r,
            forall|q: int| 0 <= q < r ==> #[trigger] counts@[q] == 0,
        decreases table.reps@.len() - r,
    {
        counts.push(0);
        r = r + 1;
    }
    let mut j: usize = 0;
    while j < pods.len()
        invariant
            j <= pods@.len(),
            i < pods@.len(),
            first_of_class(pods@, i as int),
            spread_pods_placed(assignment@, pods@, nodes@),
            bases_of(bases@, base_lens@, pods@),
            table_wf(*table, nodes@, zone),
            key == pods@[i as int].topology_spread->0.topology_key@,
            forall|k: int| 0 <= k < nodes@.len() ==> #[trigger] domain_of(nodes@[k], key)
                == field_domain(nodes@[k], zone),
            counts@.len() == table.reps@.len(),
            forall|q: int|
                0 <= q < counts@.len() ==> #[trigger] counts@[q] == class_count(
                    assignment@,
                    pods@,
                    nodes@,
                    i as int,
                    field_domain(nodes@[table.reps@[q] as int], zone),
                    j as int,
                ),
        decreases pods@.len() - j,
    {
        let peer = same_spread_class(pods, bases, base_lens, i, j);
        if peer {
            assert(pods@[j as int].topology_spread is Some);
            let node_idx = assignment[j];
            let d = node_domain(&nodes[node_idx], zone);
            if !d.as_str().is_empty() {
                let q = table.rep_of[node_idx];
                proof {
                    lemma_class_count_bounded(
                        assignment@,
                        pods@,
                        nodes@,
                        i as int,
                        field_domain(nodes@[table.reps@[q as int] as int], zone),
                        j as int,
                    );
                }
                let c = counts[q] + 1;
                counts.set(q, c);
                proof {
                    assert forall|q2: int| 0 <= q2 < counts@.len() implies #[trigger] counts@[q2]
                        == class_count(
                        assignment@,
                        pods@,
                        nodes@,
                        i as int,
                        field_domain(nodes@[table.reps@[q2] as int], zone),
                        j + 1,
                    ) by {
                        if q2 != q as int {
                            assert(field_domain(nodes@[table.reps@[q2] as int], zone) != field_domain(
                                nodes@[table.reps@[q as int] as int],
                                zone,
                            ));
                        }
                    }
                }
            }
        }
        j = j + 1;
    }
    if table.reps.len() < 2 {
        proof {
            if two_domains(nodes@, key) {
                let (a, b) = choose|a: int, b: int|
                    0 <= a < nodes@.len() && 0 <= b < nodes@.len() && domain_of(
                        #[trigger] nodes@[a],
                        key,
                    ).len() > 0 && domain_of(#[trigger] nodes@[b], key).len() > 0 && domain_of(
                        nodes@[a],
                        key,
                    ) != domain_of(nodes@[b], key);
                assert(domain_of(nodes@[a], key) == field_domain(nodes@[a], zone));
                assert(domain_of(nodes@[b], key) == field_domain(nodes@[b], zone));
                assert(table.rep_of@[a] != table.rep_of@[b]);
            }
        }
        return 0;
    }
    proof {
        let a = table.reps@[0] as int;
        let b = table.reps@[1] as int;
        assert(domain_of(nodes@[a], key) == field_domain(nodes@[a], zone));
        assert(domain_of(nodes@[b], key) == field_domain(nodes@[b], zone));
        assert(two_domains(nodes@, key));
    }
    let mut hi: usize = 0;
    let mut lo: usize = 0;
    let mut any = false;
    let mut k: usize = 0;
    while k < nodes.len()
        invariant
            k <= nodes@.len(),
            i < pods@.len(),
            table_wf(*table, nodes@, zone),
            key == pods@[i as int].topology_spread->0.topology_key@,
            forall|k: int| 0 <= k < nodes@.len() ==> #[trigger] domain_of(nodes@[k], key)
                == field_domain(nodes@[k], zone),
            counts@.len() == table.reps@.len(),
            forall|q: int|
                0 <= q < counts@.len() ==> #[trigger] counts@[q] == class_count(
                    assignment@,
                    pods@,
                    nodes@,
                    i as int,
                    field_domain(nodes@[table.reps@[q] as int], zone),
                    pods@.len() as int,
                ),
            any ==> hi as int == max_domain_count(assignment@, pods@, nodes@, i as int, k as int),
            !any ==> max_domain_count(assignment@, pods@, nodes@, i as int, k as int) == -1,
            any ==> min_domain_count(assignment@, pods@, nodes@, i as int, k as int) == Some(lo as nat),
            !any ==> min_domain_count(assignment@, pods@, nodes@, i as int, k as int) is None,
        decreases nodes@.len() - k,
    {
        if !node_domain(&nodes[k], zone).as_str().is_empty() {
            let c = counts[table.rep_of[k]];
            if !any {
                hi = c;
                lo = c;
                any = true;
            } else {
                if c > hi {
                    hi = c;
                }
                if c < lo {
                    lo = c;
                }
            }
        }
        k = k + 1;
    }
    proof {
        lemma_max_domain_count_bounded(assignment@, pods@, nodes@, i as int, nodes@.len() as int);
        let a = table.reps@[0] as int;
        assert(domain_of(nodes@[a], key).len() > 0);
        lemma_max_domain_count_nonneg(assignment@, pods@, nodes@, i as int, nodes@.len() as int, a);
    }
    let skew = hi - lo;
    let limit = pods[i].topology_spread.as_ref().unwrap().max_skew;
    if skew > limit {
        skew - limit
    } else {
        0
    }
}

/// `bases[j]` holds the characters of pod `j`'s name and `base_lens[j]` the
/// length of its base.
spec fn bases_of(bases: Seq<Vec<char>>, base_lens: Seq<usize>, pods: Seq<Pod>) -> bool {
    &&& bases.len() == pods.len()
    &&& base_lens.len() == pods.len()
    &&& forall|j: int|
        0 <= j < pods.len() ==> #[trigger] bases[j]@ == pods[j].name@ && base_lens[j] <= bases[j]@.len()
            && bases[j]@.take(base_lens[j] as int) == base_name(pods[j].name@)
}

fn name_bases(pods: &[Pod]) -> (r: (Vec<Vec<char>>, Vec<usize>))
    ensures
        bases_of(r.0@, r.1@, pods@),
{
    let mut bases: Vec<Vec<char>> = Vec::new();
    let mut lens: Vec<usize> = Vec::new();
    let mut j: usize = 0;
    while j < pods.len()
        invariant
            j <= pods@.len(),
            bases@.len() == j,
            lens@.len() == j,
            forall|q: int|
                0 <= q < j ==> #[trigger] bases@[q]@ == pods@[q].name@ && lens@[q] <= bases@[q]@.len()
                    && bases@[q]@.take(lens@[q] as int) == base_name(pods@[q].name@),
        decreases pods@.len() - j,
    {
        let c = chars_of(&pods[j].name);
        let n = base_len(&c);
        bases.push(c);
        lens.push(n);
        j = j + 1;
    }
    (bases, lens)
}

/// Whether pods `i` and `j` are in one spread class (pod `i` carrying a constraint).
fn same_spread_class(pods: &[Pod], bases: &Vec<Vec<char>>, base_lens: &Vec<usize>, i: usize, j: usize) -> (r: bool)
    requires
        i < pods@.len(),
        j < pods@.len(),
        pods@[i as int].topology_spread is Some,
        bases_of(bases@, base_lens@, pods@),
    ensures
        r == spread_peers(pods@[i as int], pods@[j as int]),
{
    let a = &pods[i];
    let b = &pods[j];
    match (&a.topology_spread, &b.topology_spread) {
        (Some(ta), Some(tb)) => {
            tb.topology_key == ta.topology_key && b.namespace == a.namespace && prefixes_equal(
                &bases[i],
                base_lens[i],
                &bases[j],
                base_lens[j],
            )
        },
        _ => false,
    }
}

fn first_with_spread(pods: &[Pod], bases: &Vec<Vec<char>>, base_lens: &Vec<usize>, idx: usize) -> (r: bool)
    requires
        idx < pods@.len(),
        bases_of(bases@, base_lens@, pods@),
    ensures
        r == first_of_class(pods@, idx as int),
{
    if pods[idx].topology_spread.is_none() {
        return false;
    }
    let mut j: usize = 0;
    while j < idx
        invariant
            j <= idx,
            idx < pods@.len(),
            pods@[idx as int].topology_spread is Some,
            bases_of(bases@, base_lens@, pods@),
            forall|q: int| 0 <= q < j ==> !spread_peers(pods@[idx as int], #[trigger] pods@[q]),
        decreases idx - j,
    {
        if same_spread_class(pods, bases, base_lens, idx, j) {
            return false;
        }
        j = j + 1;
    }
    true
}

/// True if pod `idx` carries a spread constraint and is the first pod of its
/// spread class, the one from which the class's distribution is evaluated.
pub fn is_first_with_spread(pods: &[Pod], idx: usize) -> (r: bool)
    requires
        idx < pods@.len(),
    ensures
        r == first_of_class(pods@, idx as int),
{
    let (bases, lens) = name_bases(pods);
    first_with_spread(pods, &bases, &lens, idx)
}

/// f_spread: penalize uneven pod distribution across topology zones or racks.
///
/// For the first pod of each spread class (same key, namespace and name base),
/// the class's pods are counted per domain, every domain of the cluster
/// included, and the penalty grows by how much the skew exceeds `max_skew`.
/// The penalty is a sum of pod counts and is returned exactly.
pub fn compute_topology_spread_penalty(assignment: &[usize], pods: &[Pod], nodes: &[Node]) -> (r: u128)
    requires
        spread_pods_placed(assignment@, pods@, nodes@),
    ensures
        r == spread_penalty_upto(assignment@, pods@, nodes@, pods@.len() as int),
{
    let (bases, lens) = name_bases(pods);
    let zones = build_domain_table(nodes, true);
    let racks = build_domain_table(nodes, false);
    let mut total: u128 = 0;
    let mut i: usize = 0;
    while i < pods.len()
        invariant
            i <= pods@.len(),
            spread_pods_placed(assignment@, pods@, nodes@),
            bases_of(bases@, lens@, pods@),
            table_wf(zones, nodes@, true),
            table_wf(racks, nodes@, false),
            total == spread_penalty_upto(assignment@, pods@, nodes@, i as int),
            total <= i * 0x1_0000_0000_0000_0000,
        decreases pods@.len() - i,
    {
        if first_with_spread(pods, &bases, &lens, i) {
            let key = spread_key(&pods[i].topology_spread.as_ref().unwrap().topology_key);
            let term = match key {
                SpreadKey::Zone => class_excess(assignment, pods, nodes, &bases, &lens, i, &zones, true),
                SpreadKey::Rack => class_excess(assignment, pods, nodes, &bases, &lens, i, &racks, false),
                SpreadKey::Other => {
                    proof {
                        let key = pods@[i as int].topology_spread->0.topology_key@;
                        assert forall|k: int| 0 <= k < nodes@.len() implies #[trigger] domain_of(
                            nodes@[k],
                            key,
                        ).len() == 0 by {}
                    }
                    0
                },
            };
            total = total + term as u128;
        }
        i = i + 1;
    }
    total
}

} // verus!
