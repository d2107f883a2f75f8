//! A workload document turned into the planner's pods and gangs: its header is
//! checked, its namespaces are unrolled into pods, its declared groups claim
//! their members, and the inline `gang:` shorthand fills in the rest.
use vstd::prelude::*;

use crate::csp::lists_indices_where;
use crate::gangs::{
    auto_groups_of, declare_groups, declared_groups_of, declarations_in_range, lemma_sorted_distinct_unique,
    merge_groups, merged, resolve_declared_groups,
};
use crate::model::{Pod, PodGroup};
use crate::order::{lemma_sorted_keys_unique, stable_sorted_order};
use crate::parser::{
    check_document_header, declaration_key, flatten_namespaces, flattening_of, header_accepted,
    header_error, namespace_names, replica_count, same_but_group, same_spread, sorted_distinct_of, unroll,
    unroll_namespace, Flattened, RawNamespace, RawPodGroup, KIND_WORKLOADS,
};
use crate::text::texts;

verus! {

/// The pods and gangs of a workload document.
#[derive(Debug)]
pub struct Workloads {
    pub pods: Vec<Pod>,
    pub groups: Vec<PodGroup>,
    /// For each pod, its namespace's position in the document and its
    /// declaration's position in that namespace.
    pub origins: Vec<(usize, usize)>,
}

/// `r` is what the document gives when its namespaces, taken in `order`, unroll
/// into `pods0` with `origins0` and the declaration index `decls`.
pub open spec fn assembled(
    ns: Seq<RawNamespace>,
    raw: Seq<RawPodGroup>,
    order: Seq<usize>,
    pods0: Seq<Pod>,
    origins0: Seq<(usize, usize)>,
    decls: Map<Seq<char>, Seq<usize>>,
    r: Result<Workloads, String>,
) -> bool {
    &&& stable_sorted_order(namespace_names(ns), order)
    &&& flattening_of(ns, unroll(ns, order, ns.len() as int), pods0, origins0, decls)
    &&& match declare_groups(raw, decls, pods0, raw.len() as int) {
        Err(e) => r is Err && r->Err_0@ == e,
        Ok(names) => {
            &&& r is Ok
            &&& r->Ok_0.origins@ == origins0
            &&& r->Ok_0.pods@.len() == pods0.len()
            &&& forall|p: int|
                0 <= p < pods0.len() ==> same_but_group(pods0[p], #[trigger] r->Ok_0.pods@[p])
                    && r->Ok_0.pods@[p].group_name@ == names[p]
            &&& exists|declared: Seq<PodGroup>, auto: Seq<PodGroup>|
                declared_groups_of(raw, decls, declared) && auto_groups_of(r->Ok_0.pods@, auto)
                    && #[trigger] merged(declared, auto, r->Ok_0.groups@)
        },
    }
}

proof fn lemma_flattened_in_range(
    ns: Seq<RawNamespace>,
    u: Seq<(usize, usize, nat)>,
    pods: Seq<Pod>,
    origins: Seq<(usize, usize)>,
    decls: Map<Seq<char>, Seq<usize>>,
)
    requires
        flattening_of(ns, u, pods, origins, decls),
    ensures
        declarations_in_range(decls, pods.len()),
{
    assert forall|key: Seq<char>, i: int|
        #[trigger] decls.contains_key(key) && 0 <= i < decls[key].len() implies #[trigger] decls[key][i]
        < pods.len() by {
        assert(decls[key][i] < u.len());
    }
}

/// The pods and gangs of a workload document.
///
/// The header must name the implemented version and the `Workloads` kind, or
/// nothing. Namespaces are unrolled in order of their names; then the declared
/// groups resolve and claim their members, and the first failure is returned;
/// last, the groups implied by the `gang:` shorthand are added for the names no
/// declared group takes, and all groups are sorted by name.
pub fn assemble_workloads(
    api_version: &Option<String>,
    kind: &Option<String>,
    source: &str,
    namespaces: &Vec<RawNamespace>,
    raw_groups: &Vec<RawPodGroup>,
) -> (r: Result<Workloads, String>)
    ensures
        !header_accepted(*api_version, *kind, KIND_WORKLOADS@) ==> r is Err && r->Err_0@ == header_error(
            *api_version,
            *kind,
            KIND_WORKLOADS@,
            source@,
        ),
        header_accepted(*api_version, *kind, KIND_WORKLOADS@) ==> exists|
            order: Seq<usize>,
            pods0: Seq<Pod>,
            origins0: Seq<(usize, usize)>,
            decls: Map<Seq<char>, Seq<usize>>,
        | #[trigger] assembled(namespaces@, raw_groups@, order, pods0, origins0, decls, r),
{
    match check_document_header(api_version, kind, KIND_WORKLOADS, source) {
        Err(e) => {
            return Err(e);
        },
        Ok(()) => {},
    }
    let flat = flatten_namespaces(namespaces);
    let ghost ns = namespaces@;
    let ghost order = choose|order: Seq<usize>|
        stable_sorted_order(namespace_names(ns), order) && flattening_of(
            ns,
            unroll(ns, order, ns.len() as int),
            flat.pods@,
            flat.origins@,
            flat.declarations@,
        );
    let Flattened { mut pods, declarations, origins } = flat;
    let ghost pods0 = pods@;
    let ghost decls = declarations@;
    proof {
        lemma_flattened_in_range(ns, unroll(ns, order, ns.len() as int), pods0, origins@, decls);
    }
    let declared = match resolve_declared_groups(raw_groups, &declarations, &mut pods) {
        Ok(d) => d,
        Err(e) => {
            let res: Result<Workloads, String> = Err(e);
            proof {
                assert(assembled(ns, raw_groups@, order, pods0, origins@, decls, res));
            }
            return res;
        },
    };
    let ghost declared_view = declared@;
    let groups = merge_groups(declared, &pods);
    let ghost origins0 = origins@;
    let res: Result<Workloads, String> = Ok(Workloads { pods, groups, origins });
    proof {
        let w = res->Ok_0;
        let auto = choose|auto: Seq<PodGroup>| auto_groups_of(w.pods@, auto) && merged(declared_view, auto, w.groups@);
        assert(merged(declared_view, auto, w.groups@));
        assert(assembled(ns, raw_groups@, order, pods0, origins0, decls, res));
    }
    res
}


/// Two pods say the same: name, namespace, tolerations, selector, affinity
/// targets, gang and spread constraint.
pub open spec fn same_pod_view(a: Pod, b: Pod) -> bool {
    &&& a.name@ == b.name@
    &&& a.namespace@ == b.namespace@
    &&& texts(a.tolerations@) == texts(b.tolerations@)
    &&& a.node_selector@ == b.node_selector@
    &&& texts(a.affinity_targets@) == texts(b.affinity_targets@)
    &&& texts(a.anti_affinity_targets@) == texts(b.anti_affinity_targets@)
    &&& a.group_name@ == b.group_name@
    &&& same_spread(a.topology_spread, b.topology_spread)
}

/// No two namespaces share a name, as the keys of a map do not.
pub open spec fn names_distinct(ns: Seq<RawNamespace>) -> bool {
    forall|a: int, b: int| 0 <= a < b < ns.len() ==> #[trigger] ns[a].name@ != #[trigger] ns[b].name@
}

/// Two lists of positions that agree in all but their namespace index, which is
/// `n1` in the first and `n2` in the second.
spec fn positions_agree(u1: Seq<(usize, usize, nat)>, u2: Seq<(usize, usize, nat)>, n1: int, n2: int) -> bool {
    &&& u1.len() == u2.len()
    &&& forall|t: int|
        #![trigger u1[t]]
        0 <= t < u1.len() ==> u1[t].0 == n1 as usize && u2[t].0 == n2 as usize && u1[t].1 == u2[t].1
            && u1[t].2 == u2[t].2
}

proof fn lemma_unroll_namespace_corresponds(
    ns1: Seq<RawNamespace>,
    n1: int,
    ns2: Seq<RawNamespace>,
    n2: int,
    d: int,
)
    requires
        0 <= n1 < ns1.len(),
        0 <= n2 < ns2.len(),
        ns1[n1] == ns2[n2],
        0 <= d <= ns1[n1].pods@.len(),
    ensures
        positions_agree(unroll_namespace(ns1, n1, d), unroll_namespace(ns2, n2, d), n1, n2),
    decreases d,
{
    let u1 = unroll_namespace(ns1, n1, d);
    let u2 = unroll_namespace(ns2, n2, d);
    if d > 0 {
        lemma_unroll_namespace_corresponds(ns1, n1, ns2, n2, d - 1);
        let p1 = unroll_namespace(ns1, n1, d - 1);
        let p2 = unroll_namespace(ns2, n2, d - 1);
        let q1 = Seq::new(
            replica_count(ns1[n1].pods@[d - 1]),
            |r: int| (n1 as usize, (d - 1) as usize, r as nat),
        );
        let q2 = Seq::new(
            replica_count(ns2[n2].pods@[d - 1]),
            |r: int| (n2 as usize, (d - 1) as usize, r as nat),
        );
        assert(u1 == p1 + q1);
        assert(u2 == p2 + q2);
        assert forall|t: int| #![trigger u1[t]] 0 <= t < u1.len() implies u1[t].0 == n1 as usize && u2[t].0
            == n2 as usize && u1[t].1 == u2[t].1 && u1[t].2 == u2[t].2 by {
            if t < p1.len() {
                assert(u1[t] == p1[t]);
                assert(u2[t] == p2[t]);
            } else {
                assert(u1[t] == q1[t - p1.len()]);
                assert(u2[t] == q2[t - p1.len()]);
            }
        }
    } else {
        assert(u1.len() == 0 && u2.len() == 0);
    }
    assert(positions_agree(u1, u2, n1, n2));
}

/// Unrolling namespaces that agree position by position gives positions
/// that name agreeing namespaces, declarations and replicas.
proof fn lemma_unroll_corresponds(
    ns1: Seq<RawNamespace>,
    o1: Seq<usize>,
    ns2: Seq<RawNamespace>,
    o2: Seq<usize>,
    k: int,
)
    requires
        0 <= k <= o1.len(),
        o1.len() == o2.len(),
        forall|i: int|
            0 <= i < o1.len() ==> #[trigger] o1[i] < ns1.len() && o2[i] < ns2.len() && ns1[o1[i] as int]
                == ns2[o2[i] as int],
    ensures
        ({
            let u1 = unroll(ns1, o1, k);
            let u2 = unroll(ns2, o2, k);
            &&& u1.len() == u2.len()
            &&& forall|t: int|
                #![trigger u1[t]]
                0 <= t < u1.len() ==> u1[t].0 < ns1.len() && u2[t].0 < ns2.len() && ns1[u1[t].0 as int]
                    == ns2[u2[t].0 as int] && u1[t].1 == u2[t].1 && u1[t].2 == u2[t].2
        }),
    decreases k,
{
    if k > 0 {
        lemma_unroll_corresponds(ns1, o1, ns2, o2, k - 1);
        let a = o1[k - 1] as int;
        let b = o2[k - 1] as int;
        assert(ns1[a] == ns2[b]);
        lemma_unroll_namespace_corresponds(ns1, a, ns2, b, ns1[a].pods@.len() as int);
        assert(positions_agree(
            unroll_namespace(ns1, a, ns1[a].pods@.len() as int),
            unroll_namespace(ns2, b, ns2[b].pods@.len() as int),
            a,
            b,
        ));
        let p1 = unroll(ns1, o1, k - 1);
        let p2 = unroll(ns2, o2, k - 1);
        let q1 = unroll_namespace(ns1, a, ns1[a].pods@.len() as int);
        let q2 = unroll_namespace(ns2, b, ns2[b].pods@.len() as int);
        let u1 = unroll(ns1, o1, k);
        let u2 = unroll(ns2, o2, k);
        assert(u1 == p1 + q1);
        assert(u2 == p2 + q2);
        assert forall|t: int| #![trigger u1[t]] 0 <= t < u1.len() implies u1[t].0 < ns1.len() && u2[t].0 < ns2.len()
            && ns1[u1[t].0 as int] == ns2[u2[t].0 as int] && u1[t].1 == u2[t].1 && u1[t].2 == u2[t].2 by {
            if t < p1.len() {
                assert(u1[t] == p1[t]);
                assert(u2[t] == p2[t]);
            } else {
                assert(u1[t] == q1[t - p1.len()]);
                assert(u2[t] == q2[t - p1.len()]);
            }
        }
    }
}

/// Two lists of the indices below `n` that satisfy predicates agreeing below `n` are equal.
proof fn lemma_listed_indices_equal(r1: Seq<usize>, r2: Seq<usize>, n: nat, p1: spec_fn(int) -> bool, p2: spec_fn(int) -> bool)
    requires
        lists_indices_where(r1, n, p1),
        lists_indices_where(r2, n, p2),
        forall|k: int| 0 <= k < n ==> #[trigger] p1(k) == p2(k),
    ensures
        r1 == r2,
{
    assert(r2.to_set() =~= r1.to_set()) by {
        assert forall|x: usize| r1.to_set().contains(x) implies r2.to_set().contains(x) by {
            let i = choose|i: int| 0 <= i < r1.len() && r1[i] == x;
            assert(p1(x as int));
            assert(p2(x as int));
            assert(r2.contains(x));
        }
        assert forall|x: usize| r2.to_set().contains(x) implies r1.to_set().contains(x) by {
            let i = choose|i: int| 0 <= i < r2.len() && r2[i] == x;
            assert(p2(x as int));
            assert(p1(x as int));
            assert(r1.contains(x));
        }
    }
    assert(sorted_distinct_of(r1, r1));
    assert(sorted_distinct_of(r2, r1));
    lemma_sorted_distinct_unique(r1, r2, r1);
}

/// Flattening does not depend on the order in which the namespaces come: two
/// documents with the same namespaces, named distinctly as a map's keys are,
/// unroll into the same pods, pod for pod, with the same declaration index.
pub proof fn lemma_flattening_ignores_namespace_order(
    ns1: Seq<RawNamespace>,
    ns2: Seq<RawNamespace>,
    o1: Seq<usize>,
    o2: Seq<usize>,
    pods1: Seq<Pod>,
    pods2: Seq<Pod>,
    origins1: Seq<(usize, usize)>,
    origins2: Seq<(usize, usize)>,
    decls1: Map<Seq<char>, Seq<usize>>,
    decls2: Map<Seq<char>, Seq<usize>>,
)
    requires
        ns1.len() == ns2.len(),
        ns1.len() <= usize::MAX,
        names_distinct(ns1),
        names_distinct(ns2),
        forall|x: RawNamespace| ns1.contains(x) <==> ns2.contains(x),
        stable_sorted_order(namespace_names(ns1), o1),
        stable_sorted_order(namespace_names(ns2), o2),
        flattening_of(ns1, unroll(ns1, o1, ns1.len() as int), pods1, origins1, decls1),
        flattening_of(ns2, unroll(ns2, o2, ns2.len() as int), pods2, origins2, decls2),
    ensures
        pods1.len() == pods2.len(),
        forall|p: int| 0 <= p < pods1.len() ==> same_pod_view(#[trigger] pods1[p], pods2[p]),
        decls1 == decls2,
{
    let names1 = namespace_names(ns1);
    let names2 = namespace_names(ns2);
    assert forall|x: Seq<char>| names1.contains(x) <==> names2.contains(x) by {
        if names1.contains(x) {
            let t = choose|t: int| 0 <= t < names1.len() && names1[t] == x;
            assert(ns1.contains(ns1[t]));
            let j = choose|j: int| 0 <= j < ns2.len() && ns2[j] == ns1[t];
            assert(names2[j] == x);
        }
        if names2.contains(x) {
            let t = choose|t: int| 0 <= t < names2.len() && names2[t] == x;
            assert(ns2.contains(ns2[t]));
            let j = choose|j: int| 0 <= j < ns1.len() && ns1[j] == ns2[t];
            assert(names1[j] == x);
        }
    }
    assert forall|a: int, b: int| 0 <= a < b < names1.len() implies names1[a] != names1[b] by {
        assert(ns1[a].name@ != ns1[b].name@);
    }
    assert forall|a: int, b: int| 0 <= a < b < names2.len() implies names2[a] != names2[b] by {
        assert(ns2[a].name@ != ns2[b].name@);
    }
    lemma_sorted_keys_unique(names1, o1, names2, o2);
    assert forall|i: int| 0 <= i < o1.len() implies #[trigger] o1[i] < ns1.len() && o2[i] < ns2.len()
        && ns1[o1[i] as int] == ns2[o2[i] as int] by {
        let a = o1[i] as int;
        let b = o2[i] as int;
        assert(names1[a] == names2[b]);
        assert(ns2.contains(ns1[a]));
        let j = choose|j: int| 0 <= j < ns2.len() && ns2[j] == ns1[a];
        assert(names2[j] == names2[b]);
        if j < b {
            assert(ns2[j].name@ != ns2[b].name@);
        } else if b < j {
            assert(ns2[b].name@ != ns2[j].name@);
        }
    }
    let n = ns1.len() as int;
    lemma_unroll_corresponds(ns1, o1, ns2, o2, n);
    let u1 = unroll(ns1, o1, n);
    let u2 = unroll(ns2, o2, n);
    assert forall|p: int| 0 <= p < pods1.len() implies same_pod_view(#[trigger] pods1[p], pods2[p]) by {
        assert(origins1[p] == (u1[p].0, u1[p].1));
        assert(origins2[p] == (u2[p].0, u2[p].1));
        assert(ns1[u1[p].0 as int] == ns2[u2[p].0 as int]);
    }
    let dk1 = |q: int| declaration_key(ns1[u1[q].0 as int], ns1[u1[q].0 as int].pods@[u1[q].1 as int]);
    let dk2 = |q: int| declaration_key(ns2[u2[q].0 as int], ns2[u2[q].0 as int].pods@[u2[q].1 as int]);
    assert forall|q: int| 0 <= q < u1.len() implies #[trigger] dk1(q) == dk2(q) by {
        assert(ns1[u1[q].0 as int] == ns2[u2[q].0 as int]);
    }
    assert forall|key: Seq<char>| decls1.contains_key(key) <==> decls2.contains_key(key) by {
        if decls1.contains_key(key) {
            let q = choose|q: int|
                0 <= q < u1.len() && declaration_key(ns1[u1[q].0 as int], ns1[u1[q].0 as int].pods@[u1[q].1 as int]) == key;
            assert(dk1(q) == dk2(q));
        }
        if decls2.contains_key(key) {
            let q = choose|q: int|
                0 <= q < u2.len() && declaration_key(ns2[u2[q].0 as int], ns2[u2[q].0 as int].pods@[u2[q].1 as int]) == key;
            assert(dk1(q) == dk2(q));
        }
    }
    assert forall|key: Seq<char>| #[trigger] decls1.contains_key(key) implies decls1[key] == decls2[key] by {
        let pr1 = |q: int| declaration_key(ns1[u1[q].0 as int], ns1[u1[q].0 as int].pods@[u1[q].1 as int]) == key;
        let pr2 = |q: int| declaration_key(ns2[u2[q].0 as int], ns2[u2[q].0 as int].pods@[u2[q].1 as int]) == key;
        assert(decls2.contains_key(key));
        assert forall|q: int| 0 <= q < u1.len() implies #[trigger] pr1(q) == pr2(q) by {
            assert(dk1(q) == dk2(q));
        }
        lemma_listed_indices_equal(decls1[key], decls2[key], u1.len(), pr1, pr2);
    }
    assert(decls1 =~= decls2);
}

} // verus!
