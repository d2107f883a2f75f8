//! Gang groups of a workload document: those implied by the inline `gang:`
//! shorthand, and their merge with explicitly declared groups.
use vstd::prelude::*;

use crate::csp::lists_indices_where;
use crate::labels::Labels;
use crate::model::{Pod, PodGroup};
use crate::parser::{
    claim_pod, claim_text, empty_group_message, first_undeclared, gathered, member_message,
    min_members_message, resolve_members, resolve_min_members, same_but_group, sorted_distinct_of,
    DeclarationIndex, RawPodGroup,
};
use crate::order::{key_texts, lemma_text_lt_total, stable_sort_order, stable_sorted_order, text_lt};
use crate::text::{contains_text, texts};

verus! {

/// Two groups say the same: name, members, minimum, selector and co-location.
pub open spec fn same_group(a: PodGroup, b: PodGroup) -> bool {
    &&& a.name@ == b.name@
    &&& a.pod_indices@ == b.pod_indices@
    &&& a.min_members == b.min_members
    &&& a.node_selector@ == b.node_selector@
    &&& a.colocate == b.colocate
}

/// A copy of a group.
pub fn copy_group(g: &PodGroup) -> (r: PodGroup)
    ensures
        same_group(r, *g),
{
    let mut indices: Vec<usize> = Vec::new();
    let mut i: usize = 0;
    while i < g.pod_indices.len()
        invariant
            i <= g.pod_indices@.len(),
            indices@ == g.pod_indices@.take(i as int),
        decreases g.pod_indices@.len() - i,
    {
        indices.push(g.pod_indices[i]);
        proof {
            assert(indices@ =~= g.pod_indices@.take(i + 1));
        }
        i = i + 1;
    }
    assert(g.pod_indices@.take(g.pod_indices@.len() as int) =~= g.pod_indices@);
    PodGroup {
        name: g.name.clone(),
        pod_indices: indices,
        min_members: g.min_members,
        node_selector: g.node_selector.clone(),
        colocate: g.colocate,
    }
}

/// `groups` are the gangs the inline shorthand implies: one per distinct
/// non-empty gang name, sorted by name, each with every pod carrying that name
/// in pod order, all of them required, no selector and no co-location.
pub open spec fn auto_groups_of(pods: Seq<Pod>, groups: Seq<PodGroup>) -> bool {
    &&& forall|i: int, j: int| 0 <= i < j < groups.len() ==> text_lt(#[trigger] groups[i].name@, #[trigger] groups[j].name@)
    &&& forall|p: int|
        0 <= p < pods.len() && (#[trigger] pods[p]).group_name@.len() > 0 ==> exists|g: int|
            0 <= g < groups.len() && groups[g].name@ == pods[p].group_name@
    &&& forall|g: int|
        0 <= g < groups.len() ==> {
            let grp = #[trigger] groups[g];
            &&& grp.name@.len() > 0
            &&& lists_indices_where(grp.pod_indices@, pods.len(), |p: int| pods[p].group_name@ == grp.name@)
            &&& grp.pod_indices@.len() > 0
            &&& grp.min_members == grp.pod_indices@.len()
            &&& grp.node_selector@ == Map::<Seq<char>, Seq<char>>::empty()
            &&& !grp.colocate
        }
}

/// Scan the pods for distinct `gang` values and make one group per value.
pub fn auto_group_gangs(pods: &[Pod]) -> (r: Vec<PodGroup>)
    ensures
        auto_groups_of(pods@, r@),
{
    let mut names: Vec<String> = Vec::new();
    let mut members: Vec<Vec<usize>> = Vec::new();
    let mut i: usize = 0;
    while i < pods.len()
        invariant
            i <= pods@.len(),
            names@.len() == members@.len(),
            forall|a: int, b: int| 0 <= a < names@.len() && 0 <= b < names@.len() && a != b ==> names@[a]@ != names@[b]@,
            forall|g: int|
                0 <= g < names@.len() ==> (#[trigger] names@[g])@.len() > 0 && lists_indices_where(
                    members@[g]@,
                    i as nat,
                    |p: int| pods@[p].group_name@ == names@[g]@,
                ) && members@[g]@.len() > 0,
            forall|p: int|
                0 <= p < i && (#[trigger] pods@[p]).group_name@.len() > 0 ==> exists|g: int|
                    0 <= g < names@.len() && names@[g]@ == pods@[p].group_name@,
        decreases pods@.len() - i,
    {
        let name = &pods[i].group_name;
        if !name.as_str().is_empty() {
            let mut g: usize = 0;
            while g < names.len() && names[g] != *name
                invariant
                    g <= names@.len(),
                    forall|q: int| 0 <= q < g ==> names@[q]@ != name@,
                decreases names@.len() - g,
            {
                g = g + 1;
            }
            let ghost old_names = names@;
            let ghost old_members = members@;
            if g < names.len() {
                let mut list = members[g].clone();
                assert(list@ =~= old_members[g as int]@);
                list.push(i);
                members.set(g, list);
                proof {
                    assert forall|q: int| 0 <= q < names@.len() implies (#[trigger] names@[q])@.len() > 0
                        && lists_indices_where(
                        members@[q]@,
                        (i + 1) as nat,
                        |p: int| pods@[p].group_name@ == names@[q]@,
                    ) && members@[q]@.len() > 0 by {
                        let pred = |p: int| pods@[p].group_name@ == names@[q]@;
                        if q == g as int {
                            let l = old_members[q]@;
                            assert(members@[q]@ == l.push(i));
                            assert forall|k: int| 0 <= k < i + 1 && #[trigger] pred(k) implies members@[q]@.contains(k as usize) by {
                                if k < i {
                                    let t = choose|t: int| 0 <= t < l.len() && l[t] == k as usize;
                                    assert(members@[q]@[t] == k as usize);
                                } else {
                                    assert(members@[q]@[l.len() as int] == i);
                                }
                            }
                        } else {
                            assert(!pred(i as int));
                        }
                    }
                }
            } else {
                names.push(name.clone());
                let mut list: Vec<usize> = Vec::new();
                list.push(i);
                members.push(list);
                proof {
                    let q = names@.len() - 1;
                    assert(members@[q]@ == seq![i]);
                    assert forall|a: int, b: int| 0 <= a < names@.len() && 0 <= b < names@.len() && a != b implies names@[a]@ != names@[b]@ by {
                        if a < q && b < q {
                            assert(names@[a] == old_names[a]);
                            assert(names@[b] == old_names[b]);
                        }
                    }
                    assert forall|g2: int| 0 <= g2 < names@.len() implies (#[trigger] names@[g2])@.len() > 0
                        && lists_indices_where(
                        members@[g2]@,
                        (i + 1) as nat,
                        |p: int| pods@[p].group_name@ == names@[g2]@,
                    ) && members@[g2]@.len() > 0 by {
                        let pred = |p: int| pods@[p].group_name@ == names@[g2]@;
                        if g2 == q {
                            assert forall|k: int| 0 <= k < i + 1 && #[trigger] pred(k) implies members@[g2]@.contains(k as usize) by {
                                if k < i {
                                    assert(pods@[k].group_name@.len() > 0);
                                    let t = choose|t: int| 0 <= t < old_names.len() && old_names[t]@ == pods@[k].group_name@;
                                    assert(false);
                                } else {
                                    assert(members@[g2]@[0] == i);
                                }
                            }
                        } else {
                            assert(names@[g2] == old_names[g2]);
                            assert(members@[g2] == old_members[g2]);
                            assert(!pred(i as int));
                        }
                    }
                    assert forall|p: int| 0 <= p < i + 1 && (#[trigger] pods@[p]).group_name@.len() > 0 implies exists|g: int|
                        0 <= g < names@.len() && names@[g]@ == pods@[p].group_name@ by {
                        if p < i {
                            let t = choose|t: int| 0 <= t < old_names.len() && old_names[t]@ == pods@[p].group_name@;
                            assert(names@[t] == old_names[t]);
                        } else {
                            assert(names@[q]@ == pods@[p].group_name@);
                        }
                    }
                }
            }
        } else {
            proof {
                assert forall|g: int| 0 <= g < names@.len() implies (#[trigger] names@[g])@.len() > 0
                    && lists_indices_where(
                    members@[g]@,
                    (i + 1) as nat,
                    |p: int| pods@[p].group_name@ == names@[g]@,
                ) && members@[g]@.len() > 0 by {
                    let pred = |p: int| pods@[p].group_name@ == names@[g]@;
                    assert(!pred(i as int));
                }
            }
        }
        i = i + 1;
    }
    let order = stable_sort_order(&names);
    let mut groups: Vec<PodGroup> = Vec::new();
    let mut k: usize = 0;
    while k < order.len()
        invariant
            k <= order@.len(),
            names@.len() == members@.len(),
            stable_sorted_order(key_texts(names@), order@),
            groups@.len() == k,
            forall|q: int|
                0 <= q < k ==> {
                    let grp = #[trigger] groups@[q];
                    &&& grp.name@ == names@[order@[q] as int]@
                    &&& grp.pod_indices@ == members@[order@[q] as int]@
                    &&& grp.min_members == grp.pod_indices@.len()
                    &&& grp.node_selector@ == Map::<Seq<char>, Seq<char>>::empty()
                    &&& !grp.colocate
                },
        decreases order@.len() - k,
    {
        let g = order[k];
        let mut list: Vec<usize> = Vec::new();
        let src = &members[g];
        let mut t: usize = 0;
        while t < src.len()
            invariant
                t <= src@.len(),
                list@ == src@.take(t as int),
            decreases src@.len() - t,
        {
            list.push(src[t]);
            proof {
                assert(list@ =~= src@.take(t + 1));
            }
            t = t + 1;
        }
        assert(src@.take(src@.len() as int) =~= src@);
        let count = list.len();
        groups.push(
            PodGroup {
                name: names[g].clone(),
                pod_indices: list,
                min_members: count,
                node_selector: Labels::new(),
                colocate: false,
            },
        );
        k = k + 1;
    }
    proof {
        let ks = key_texts(names@);
        assert forall|i: int, j: int| 0 <= i < j < groups@.len() implies text_lt(
            #[trigger] groups@[i].name@,
            #[trigger] groups@[j].name@,
        ) by {
            let a = order@[i] as int;
            let b = order@[j] as int;
            assert(ks[a] == names@[a]@);
            assert(ks[b] == names@[b]@);
            assert(!text_lt(ks[order@[j] as int], ks[order@[i] as int]));
            assert(a != b);
            lemma_text_lt_total(ks[a], ks[b]);
        }
        assert forall|p: int|
            0 <= p < pods@.len() && (#[trigger] pods@[p]).group_name@.len() > 0 implies exists|g: int|
                0 <= g < groups@.len() && groups@[g].name@ == pods@[p].group_name@ by {
            let t = choose|t: int| 0 <= t < names@.len() && names@[t]@ == pods@[p].group_name@;
            assert(order@.contains(t as usize));
            let q = choose|q: int| 0 <= q < order@.len() && order@[q] == t as usize;
            assert(groups@[q].name@ == names@[t]@);
        }
        assert forall|g: int| 0 <= g < groups@.len() implies {
            let grp = #[trigger] groups@[g];
            &&& grp.name@.len() > 0
            &&& lists_indices_where(grp.pod_indices@, pods@.len(), |p: int| pods@[p].group_name@ == grp.name@)
            &&& grp.pod_indices@.len() > 0
            &&& grp.min_members == grp.pod_indices@.len()
            &&& grp.node_selector@ == Map::<Seq<char>, Seq<char>>::empty()
            &&& !grp.colocate
        } by {
            let t = order@[g] as int;
            assert(0 <= t < names@.len());
            assert(names@[t]@.len() > 0);
        }
    }
    groups
}

/// The names of a list of groups.
pub open spec fn group_names(gs: Seq<PodGroup>) -> Seq<Seq<char>> {
    gs.map_values(|g: PodGroup| g.name@)
}

/// The first `n` groups of `auto` whose names are not in `declared_names`, in order.
pub open spec fn undeclared_groups(auto: Seq<PodGroup>, declared_names: Seq<Seq<char>>, n: int) -> Seq<PodGroup>
    decreases n,
{
    if n <= 0 {
        Seq::empty()
    } else {
        let rest = undeclared_groups(auto, declared_names, n - 1);
        if declared_names.contains(auto[n - 1].name@) {
            rest
        } else {
            rest.push(auto[n - 1])
        }
    }
}

/// `r` is the declared groups followed by the implied groups they do not name,
/// stably sorted by name.
pub open spec fn merged(declared: Seq<PodGroup>, auto: Seq<PodGroup>, r: Seq<PodGroup>) -> bool {
    let c = declared + undeclared_groups(auto, group_names(declared), auto.len() as int);
    &&& r.len() == c.len()
    &&& exists|order: Seq<usize>|
        stable_sorted_order(group_names(c), order) && forall|i: int|
            0 <= i < r.len() ==> #[trigger] same_group(r[i], c[order[i] as int])
}

/// Combine declared groups with those implied by the inline `gang:` shorthand.
///
/// A name declared in `groups:` wins: the shorthand's group of that name is
/// dropped, so it cannot overwrite the declared `min_members` and `colocate`.
pub fn merge_groups(declared: Vec<PodGroup>, pods: &[Pod]) -> (r: Vec<PodGroup>)
    ensures
        exists|auto: Seq<PodGroup>| auto_groups_of(pods@, auto) && merged(declared@, auto, r@),
{
    let auto = auto_group_gangs(pods);
    let ghost dnames = group_names(declared@);
    let mut claimed: Vec<String> = Vec::new();
    let mut combined: Vec<PodGroup> = Vec::new();
    let mut i: usize = 0;
    while i < declared.len()
        invariant
            i <= declared@.len(),
            claimed@.len() == i,
            combined@.len() == i,
            forall|q: int| 0 <= q < i ==> #[trigger] claimed@[q]@ == declared@[q].name@,
            forall|q: int| 0 <= q < i ==> #[trigger] same_group(combined@[q], declared@[q]),
        decreases declared@.len() - i,
    {
        claimed.push(declared[i].name.clone());
        combined.push(copy_group(&declared[i]));
        i = i + 1;
    }
    assert(texts(claimed@) =~= dnames);
    let mut a: usize = 0;
    while a < auto.len()
        invariant
            a <= auto@.len(),
            texts(claimed@) == dnames,
            dnames == group_names(declared@),
            ({
                let c = declared@ + undeclared_groups(auto@, dnames, a as int);
                combined@.len() == c.len() && forall|q: int|
                    0 <= q < c.len() ==> #[trigger] same_group(combined@[q], c[q])
            }),
        decreases auto@.len() - a,
    {
        let ghost c0 = declared@ + undeclared_groups(auto@, dnames, a as int);
        let ghost c1 = declared@ + undeclared_groups(auto@, dnames, a + 1);
        if !contains_text(&claimed, &auto[a].name) {
            combined.push(copy_group(&auto[a]));
            proof {
                assert(c1 =~= c0.push(auto@[a as int]));
                assert forall|q: int| 0 <= q < c1.len() implies #[trigger] same_group(combined@[q], c1[q]) by {
                    if q < c0.len() {
                        assert(c1[q] == c0[q]);
                    }
                }
            }
        } else {
            proof {
                assert(c1 =~= c0);
            }
        }
        a = a + 1;
    }
    let ghost c = declared@ + undeclared_groups(auto@, dnames, auto@.len() as int);
    let mut names: Vec<String> = Vec::new();
    let mut q: usize = 0;
    while q < combined.len()
        invariant
            q <= combined@.len(),
            combined@.len() == c.len(),
            forall|t: int| 0 <= t < c.len() ==> #[trigger] same_group(combined@[t], c[t]),
            names@.len() == q,
            forall|t: int| 0 <= t < q ==> #[trigger] names@[t]@ == c[t].name@,
        decreases combined@.len() - q,
    {
        assert(same_group(combined@[q as int], c[q as int]));
        names.push(combined[q].name.clone());
        q = q + 1;
    }
    assert(key_texts(names@) =~= group_names(c));
    let order = stable_sort_order(&names);
    let mut out: Vec<PodGroup> = Vec::new();
    let mut k: usize = 0;
    while k < order.len()
        invariant
            k <= order@.len(),
            order@.len() == c.len(),
            combined@.len() == c.len(),
            forall|t: int| 0 <= t < c.len() ==> #[trigger] same_group(combined@[t], c[t]),
            forall|t: int| 0 <= t < order@.len() ==> #[trigger] order@[t] < c.len(),
            out@.len() == k,
            forall|t: int| 0 <= t < k ==> #[trigger] same_group(out@[t], c[order@[t] as int]),
        decreases order@.len() - k,
    {
        let g = order[k];
        assert(same_group(combined@[g as int], c[g as int]));
        out.push(copy_group(&combined[g]));
        k = k + 1;
    }
    proof {
        assert(stable_sorted_order(group_names(c), order@));
        assert(merged(declared@, auto@, out@));
    }
    out
}

/// Two increasing lists with the same values are equal.
pub(crate) proof fn lemma_sorted_distinct_unique(r1: Seq<usize>, r2: Seq<usize>, s: Seq<usize>)
    requires
        sorted_distinct_of(r1, s),
        sorted_distinct_of(r2, s),
    ensures
        r1 == r2,
{
    let n = if r1.len() < r2.len() {
        r1.len() as int
    } else {
        r2.len() as int
    };
    assert forall|i: int| 0 <= i < n implies r1[i] == r2[i] by {
        lemma_sorted_prefix_equal(r1, r2, s, i);
    }
    if r1.len() != r2.len() {
        if r1.len() < r2.len() {
            let x = r2[n];
            assert(r2.to_set().contains(x));
            assert(r1.to_set().contains(x));
            let m = choose|m: int| 0 <= m < r1.len() && r1[m] == x;
            assert(r2[m] == r1[m]);
        } else {
            let x = r1[n];
            assert(r1.to_set().contains(x));
            assert(r2.to_set().contains(x));
            let m = choose|m: int| 0 <= m < r2.len() && r2[m] == x;
            assert(r1[m] == r2[m]);
        }
    }
    assert(r1 =~= r2);
}

proof fn lemma_sorted_prefix_equal(r1: Seq<usize>, r2: Seq<usize>, s: Seq<usize>, i: int)
    requires
        sorted_distinct_of(r1, s),
        sorted_distinct_of(r2, s),
        0 <= i < r1.len(),
        i < r2.len(),
    ensures
        r1[i] == r2[i],
    decreases i,
{
    if i > 0 {
        lemma_sorted_prefix_equal(r1, r2, s, i - 1);
    }
    assert forall|j: int| 0 <= j < i implies r1[j] == r2[j] by {
        lemma_sorted_prefix_equal(r1, r2, s, j);
    }
    assert(r1.to_set().contains(r1[i]));
    assert(r2.to_set().contains(r1[i]));
    let m = choose|m: int| 0 <= m < r2.len() && r2[m] == r1[i];
    assert(r2.to_set().contains(r2[i]));
    assert(r1.to_set().contains(r2[i]));
    let m2 = choose|m2: int| 0 <= m2 < r1.len() && r1[m2] == r2[i];
    if m < i {
        assert(r1[m] == r2[m]);
    }
    if m2 < i {
        assert(r1[m2] == r2[m2]);
    }
}

/// What `resolve_members` gives for a group: its members, sorted without
/// duplicates, or the error.
pub open spec fn members_outcome(rg: RawPodGroup, decls: Map<Seq<char>, Seq<usize>>) -> Result<Seq<usize>, Seq<char>> {
    let n = rg.members@.len() as int;
    match first_undeclared(rg.members@, decls, n) {
        Some(i) => Err(member_message(rg.name@, rg.members@[i]@)),
        None => if gathered(rg.members@, decls, n).len() == 0 {
            Err(empty_group_message(rg.name@))
        } else {
            Ok(choose|r: Seq<usize>| sorted_distinct_of(r, gathered(rg.members@, decls, n)))
        },
    }
}

/// What `resolve_min_members` gives for a group of `count` members.
pub open spec fn min_outcome(rg: RawPodGroup, count: nat) -> Result<usize, Seq<char>> {
    let min = match rg.min_members {
        Some(m) => m as nat,
        None => count,
    };
    if 1 <= min <= count {
        Ok(min as usize)
    } else {
        Err(min_members_message(rg.name@, min, count))
    }
}

/// Gang names of the pods after the first `k` of `idxs` are claimed for
/// `group`, starting from `names`, or the first refusal.
pub open spec fn claim_all(
    pods: Seq<Pod>,
    names: Seq<Seq<char>>,
    idxs: Seq<usize>,
    group: Seq<char>,
    k: int,
) -> Result<Seq<Seq<char>>, Seq<char>>
    decreases k,
{
    if k <= 0 {
        Ok(names)
    } else {
        match claim_all(pods, names, idxs, group, k - 1) {
            Err(e) => Err(e),
            Ok(ns) => {
                let p = idxs[k - 1] as int;
                if ns[p].len() == 0 || ns[p] == group {
                    Ok(ns.update(p, group))
                } else {
                    Err(claim_text(pods[p].namespace@, pods[p].name@, ns[p], group))
                }
            },
        }
    }
}

/// Gang names of the pods after the first `g` declared groups are resolved
/// and claim their members, or the first error.
pub open spec fn declare_groups(
    raw: Seq<RawPodGroup>,
    decls: Map<Seq<char>, Seq<usize>>,
    pods: Seq<Pod>,
    g: int,
) -> Result<Seq<Seq<char>>, Seq<char>>
    decreases g,
{
    if g <= 0 {
        Ok(pods.map_values(|p: Pod| p.group_name@))
    } else {
        match declare_groups(raw, decls, pods, g - 1) {
            Err(e) => Err(e),
            Ok(names) => match members_outcome(raw[g - 1], decls) {
                Err(e) => Err(e),
                Ok(idxs) => match min_outcome(raw[g - 1], idxs.len()) {
                    Err(e) => Err(e),
                    Ok(_) => claim_all(pods, names, idxs, raw[g - 1].name@, idxs.len() as int),
                },
            },
        }
    }
}

/// Gang names of the pods after the claims of the first `k` of `idxs` that are
/// made before the first refusal: a refused claim and every later one leave
/// the names as they are.
pub open spec fn claim_progress(
    pods: Seq<Pod>,
    names: Seq<Seq<char>>,
    idxs: Seq<usize>,
    group: Seq<char>,
    k: int,
) -> Seq<Seq<char>>
    decreases k,
{
    if k <= 0 {
        names
    } else {
        match claim_all(pods, names, idxs, group, k - 1) {
            Err(_) => claim_progress(pods, names, idxs, group, k - 1),
            Ok(ns) => {
                let p = idxs[k - 1] as int;
                if ns[p].len() == 0 || ns[p] == group {
                    ns.update(p, group)
                } else {
                    ns
                }
            },
        }
    }
}

/// Gang names of the pods after the first `g` declared groups, up to the first
/// failure: the claims made before it stay, nothing after it is made.
pub open spec fn declared_progress(
    raw: Seq<RawPodGroup>,
    decls: Map<Seq<char>, Seq<usize>>,
    pods: Seq<Pod>,
    g: int,
) -> Seq<Seq<char>>
    decreases g,
{
    if g <= 0 {
        pods.map_values(|p: Pod| p.group_name@)
    } else {
        match declare_groups(raw, decls, pods, g - 1) {
            Err(_) => declared_progress(raw, decls, pods, g - 1),
            Ok(names) => match members_outcome(raw[g - 1], decls) {
                Err(_) => names,
                Ok(idxs) => match min_outcome(raw[g - 1], idxs.len()) {
                    Err(_) => names,
                    Ok(_) => claim_progress(pods, names, idxs, raw[g - 1].name@, idxs.len() as int),
                },
            },
        }
    }
}

proof fn lemma_claim_progress_ok(pods: Seq<Pod>, names: Seq<Seq<char>>, idxs: Seq<usize>, group: Seq<char>, k: int)
    requires
        claim_all(pods, names, idxs, group, k) is Ok,
    ensures
        claim_progress(pods, names, idxs, group, k) == claim_all(pods, names, idxs, group, k)->Ok_0,
{
    if k > 0 {
        if claim_all(pods, names, idxs, group, k - 1) is Err {
            lemma_claim_err_stays(pods, names, idxs, group, k - 1, k);
        }
    }
}

proof fn lemma_claim_progress_stays(
    pods: Seq<Pod>,
    names: Seq<Seq<char>>,
    idxs: Seq<usize>,
    group: Seq<char>,
    a: int,
    b: int,
)
    requires
        0 <= a <= b,
        claim_all(pods, names, idxs, group, a) is Err,
    ensures
        claim_progress(pods, names, idxs, group, b) == claim_progress(pods, names, idxs, group, a),
    decreases b - a,
{
    if a < b {
        lemma_claim_progress_stays(pods, names, idxs, group, a, b - 1);
        lemma_claim_err_stays(pods, names, idxs, group, a, b - 1);
    }
}

proof fn lemma_declared_progress_ok(
    raw: Seq<RawPodGroup>,
    decls: Map<Seq<char>, Seq<usize>>,
    pods: Seq<Pod>,
    g: int,
)
    requires
        declare_groups(raw, decls, pods, g) is Ok,
    ensures
        declared_progress(raw, decls, pods, g) == declare_groups(raw, decls, pods, g)->Ok_0,
{
    if g > 0 {
        if declare_groups(raw, decls, pods, g - 1) is Err {
            lemma_declare_err_stays(raw, decls, pods, g - 1, g);
        }
        let names = declare_groups(raw, decls, pods, g - 1)->Ok_0;
        let idxs = members_outcome(raw[g - 1], decls)->Ok_0;
        lemma_claim_progress_ok(pods, names, idxs, raw[g - 1].name@, idxs.len() as int);
    }
}

proof fn lemma_declared_progress_stays(
    raw: Seq<RawPodGroup>,
    decls: Map<Seq<char>, Seq<usize>>,
    pods: Seq<Pod>,
    a: int,
    b: int,
)
    requires
        0 <= a <= b,
        declare_groups(raw, decls, pods, a) is Err,
    ensures
        declared_progress(raw, decls, pods, b) == declared_progress(raw, decls, pods, a),
    decreases b - a,
{
    if a < b {
        lemma_declared_progress_stays(raw, decls, pods, a, b - 1);
        lemma_declare_err_stays(raw, decls, pods, a, b - 1);
    }
}

proof fn lemma_claim_err_stays(
    pods: Seq<Pod>,
    names: Seq<Seq<char>>,
    idxs: Seq<usize>,
    group: Seq<char>,
    a: int,
    b: int,
)
    requires
        0 <= a <= b,
        claim_all(pods, names, idxs, group, a) is Err,
    ensures
        claim_all(pods, names, idxs, group, b) == claim_all(pods, names, idxs, group, a),
    decreases b - a,
{
    if a < b {
        lemma_claim_err_stays(pods, names, idxs, group, a, b - 1);
    }
}

proof fn lemma_declare_err_stays(
    raw: Seq<RawPodGroup>,
    decls: Map<Seq<char>, Seq<usize>>,
    pods: Seq<Pod>,
    a: int,
    b: int,
)
    requires
        0 <= a <= b,
        declare_groups(raw, decls, pods, a) is Err,
    ensures
        declare_groups(raw, decls, pods, b) == declare_groups(raw, decls, pods, a),
    decreases b - a,
{
    if a < b {
        lemma_declare_err_stays(raw, decls, pods, a, b - 1);
    }
}

/// Claiming keeps the length of the name list, names every claimed pod after
/// the group, and leaves a non-empty name as it was.
proof fn lemma_claim_all_ok(
    pods: Seq<Pod>,
    names: Seq<Seq<char>>,
    idxs: Seq<usize>,
    group: Seq<char>,
    k: int,
)
    requires
        0 <= k <= idxs.len(),
        forall|t: int| 0 <= t < idxs.len() ==> #[trigger] idxs[t] < names.len(),
        claim_all(pods, names, idxs, group, k) is Ok,
    ensures
        ({
            let ns = claim_all(pods, names, idxs, group, k)->Ok_0;
            &&& ns.len() == names.len()
            &&& forall|t: int| 0 <= t < k ==> #[trigger] ns[idxs[t] as int] == group
            &&& forall|p: int| 0 <= p < names.len() && names[p].len() > 0 ==> #[trigger] ns[p] == names[p]
        }),
    decreases k,
{
    if k > 0 {
        assert(claim_all(pods, names, idxs, group, k - 1) is Ok) by {
            if claim_all(pods, names, idxs, group, k - 1) is Err {
                lemma_claim_err_stays(pods, names, idxs, group, k - 1, k);
            }
        }
        lemma_claim_all_ok(pods, names, idxs, group, k - 1);
        let prev = claim_all(pods, names, idxs, group, k - 1)->Ok_0;
        let p = idxs[k - 1] as int;
        assert(prev[p].len() == 0 || prev[p] == group);
        let ns = prev.update(p, group);
        assert(claim_all(pods, names, idxs, group, k)->Ok_0 == ns);
        assert forall|q: int| 0 <= q < names.len() && names[q].len() > 0 implies #[trigger] ns[q] == names[q] by {
            assert(prev[q] == names[q]);
        }
    }
}

/// Declaring groups keeps the length of the name list, and a pod that carries a
/// non-empty name after the first `a` groups carries it after the first `b`.
proof fn lemma_declared_name_stays(
    raw: Seq<RawPodGroup>,
    decls: Map<Seq<char>, Seq<usize>>,
    pods: Seq<Pod>,
    a: int,
    b: int,
    p: int,
)
    requires
        0 <= a <= b <= raw.len(),
        declarations_in_range(decls, pods.len()),
        declare_groups(raw, decls, pods, b) is Ok,
        0 <= p < pods.len(),
    ensures
        declare_groups(raw, decls, pods, a) is Ok,
        declare_groups(raw, decls, pods, a)->Ok_0.len() == pods.len(),
        declare_groups(raw, decls, pods, b)->Ok_0.len() == pods.len(),
        declare_groups(raw, decls, pods, a)->Ok_0[p].len() > 0 ==> declare_groups(raw, decls, pods, b)->Ok_0[p]
            == declare_groups(raw, decls, pods, a)->Ok_0[p],
    decreases b,
{
    if declare_groups(raw, decls, pods, a) is Err {
        lemma_declare_err_stays(raw, decls, pods, a, b);
    }
    if b == 0 {
        assert(declare_groups(raw, decls, pods, 0)->Ok_0 =~= pods.map_values(|q: Pod| q.group_name@));
    } else {
        assert(declare_groups(raw, decls, pods, b - 1) is Ok) by {
            if declare_groups(raw, decls, pods, b - 1) is Err {
                lemma_declare_err_stays(raw, decls, pods, b - 1, b);
            }
        }
        if a < b {
            lemma_declared_name_stays(raw, decls, pods, a, b - 1, p);
        } else {
            lemma_declared_name_stays(raw, decls, pods, b - 1, b - 1, p);
        }
        let names = declare_groups(raw, decls, pods, b - 1)->Ok_0;
        let rg = raw[b - 1];
        let idxs = members_outcome(rg, decls)->Ok_0;
        lemma_members_in_range(rg, decls, pods.len());
        lemma_claim_all_ok(pods, names, idxs, rg.name@, idxs.len() as int);
    }
}

/// `r` with `x` put in its place, unless `r` already holds it.
spec fn insert_sorted(r: Seq<usize>, x: usize) -> Seq<usize>
    decreases r.len(),
{
    if r.len() == 0 {
        seq![x]
    } else if x < r[0] {
        seq![x] + r
    } else if x == r[0] {
        r
    } else {
        seq![r[0]] + insert_sorted(r.drop_first(), x)
    }
}

/// The values of `s`, each once, in increasing order.
spec fn sorted_values(s: Seq<usize>) -> Seq<usize>
    decreases s.len(),
{
    if s.len() == 0 {
        Seq::empty()
    } else {
        insert_sorted(sorted_values(s.drop_last()), s.last())
    }
}

proof fn lemma_insert_sorted(r: Seq<usize>, x: usize)
    requires
        forall|i: int, j: int| 0 <= i < j < r.len() ==> r[i] < r[j],
    ensures
        forall|i: int, j: int| 0 <= i < j < insert_sorted(r, x).len() ==> insert_sorted(r, x)[i] < insert_sorted(r, x)[j],
        insert_sorted(r, x).to_set() == r.to_set().insert(x),
        insert_sorted(r, x).len() > 0 && insert_sorted(r, x)[0] == if r.len() > 0 && r[0] < x { r[0] } else { x },
    decreases r.len(),
{
    let q = insert_sorted(r, x);
    if r.len() == 0 {
        assert(q.to_set() =~= r.to_set().insert(x)) by {
            assert(q[0] == x);
        }
    } else if x < r[0] {
        assert forall|i: int, j: int| 0 <= i < j < q.len() implies q[i] < q[j] by {
            if i > 0 {
                assert(q[i] == r[i - 1]);
            }
            assert(q[j] == r[j - 1]);
        }
        assert(q.to_set() =~= r.to_set().insert(x)) by {
            assert forall|y: usize| q.to_set().contains(y) implies r.to_set().insert(x).contains(y) by {
                let t = choose|t: int| 0 <= t < q.len() && q[t] == y;
                if t > 0 {
                    assert(r[t - 1] == y);
                }
            }
            assert forall|y: usize| r.to_set().insert(x).contains(y) implies q.to_set().contains(y) by {
                if y == x {
                    assert(q[0] == x);
                } else {
                    let t = choose|t: int| 0 <= t < r.len() && r[t] == y;
                    assert(q[t + 1] == y);
                }
            }
        }
    } else if x == r[0] {
        assert(q.to_set() =~= r.to_set().insert(x)) by {
            assert(r.to_set().contains(r[0]));
        }
    } else {
        let rest = r.drop_first();
        assert forall|i: int, j: int| 0 <= i < j < rest.len() implies rest[i] < rest[j] by {
            assert(rest[i] == r[i + 1]);
            assert(rest[j] == r[j + 1]);
        }
        lemma_insert_sorted(rest, x);
        let t = insert_sorted(rest, x);
        assert(q == seq![r[0]] + t);
        assert forall|i: int, j: int| 0 <= i < j < q.len() implies q[i] < q[j] by {
            if i == 0 {
                assert(q[j] == t[j - 1]);
                if j - 1 > 0 {
                    assert(t[0] < t[j - 1]);
                }
                if rest.len() > 0 && rest[0] < x {
                    assert(rest[0] == r[1]);
                }
            } else {
                assert(q[i] == t[i - 1]);
                assert(q[j] == t[j - 1]);
            }
        }
        assert(q.to_set() =~= r.to_set().insert(x)) by {
            assert forall|y: usize| q.to_set().contains(y) implies r.to_set().insert(x).contains(y) by {
                let u = choose|u: int| 0 <= u < q.len() && q[u] == y;
                if u == 0 {
                    assert(r[0] == y);
                } else {
                    assert(t[u - 1] == y);
                    assert(t.to_set().contains(y));
                    if y != x {
                        assert(rest.to_set().contains(y));
                        let w = choose|w: int| 0 <= w < rest.len() && rest[w] == y;
                        assert(r[w + 1] == y);
                    }
                }
            }
            assert forall|y: usize| r.to_set().insert(x).contains(y) implies q.to_set().contains(y) by {
                if y == r[0] {
                    assert(q[0] == y);
                } else {
                    if y != x {
                        let w = choose|w: int| 0 <= w < r.len() && r[w] == y;
                        assert(w > 0);
                        assert(rest[w - 1] == y);
                        assert(rest.to_set().contains(y));
                    }
                    assert(t.to_set().contains(y));
                    let u = choose|u: int| 0 <= u < t.len() && t[u] == y;
                    assert(q[u + 1] == y);
                }
            }
        }
    }
}

/// Every list has a sorted list of its values without duplicates.
proof fn lemma_sorted_values(s: Seq<usize>)
    ensures
        sorted_distinct_of(sorted_values(s), s),
    decreases s.len(),
{
    if s.len() > 0 {
        lemma_sorted_values(s.drop_last());
        lemma_insert_sorted(sorted_values(s.drop_last()), s.last());
        assert(s.to_set() =~= s.drop_last().to_set().insert(s.last())) by {
            assert forall|y: usize| s.to_set().contains(y) implies s.drop_last().to_set().insert(s.last()).contains(y) by {
                let t = choose|t: int| 0 <= t < s.len() && s[t] == y;
                if t < s.len() - 1 {
                    assert(s.drop_last()[t] == y);
                }
            }
            assert forall|y: usize| s.drop_last().to_set().insert(s.last()).contains(y) implies s.to_set().contains(y) by {
                if y != s.last() {
                    let t = choose|t: int| 0 <= t < s.drop_last().len() && s.drop_last()[t] == y;
                    assert(s[t] == y);
                }
            }
        }
    } else {
        assert(sorted_values(s).to_set() =~= s.to_set());
    }
}

/// The members a group resolves to name pods that exist.
proof fn lemma_members_in_range(rg: RawPodGroup, decls: Map<Seq<char>, Seq<usize>>, n: nat)
    requires
        declarations_in_range(decls, n),
        members_outcome(rg, decls) is Ok,
    ensures
        forall|t: int|
            0 <= t < members_outcome(rg, decls)->Ok_0.len() ==> #[trigger] members_outcome(rg, decls)->Ok_0[t] < n,
{
    let m = rg.members@.len() as int;
    let gs = gathered(rg.members@, decls, m);
    let idxs = members_outcome(rg, decls)->Ok_0;
    lemma_gathered_in_range(rg.members@, decls, m, n);
    lemma_sorted_values(gs);
    assert(sorted_distinct_of(idxs, gs));
    assert forall|t: int| 0 <= t < idxs.len() implies #[trigger] idxs[t] < n by {
        assert(idxs.to_set().contains(idxs[t]));
        assert(gs.to_set().contains(idxs[t]));
        let u = choose|u: int| 0 <= u < gs.len() && gs[u] == idxs[t];
    }
}

/// A pod belongs to at most one group: once every declared group has claimed
/// its members without a conflict, each member of a group with a non-empty
/// name carries that group's name, whatever groups come after it.
pub proof fn lemma_declared_members_carry_group_name(
    raw: Seq<RawPodGroup>,
    decls: Map<Seq<char>, Seq<usize>>,
    pods: Seq<Pod>,
    groups: Seq<PodGroup>,
)
    requires
        declarations_in_range(decls, pods.len()),
        declare_groups(raw, decls, pods, raw.len() as int) is Ok,
        declared_groups_of(raw, decls, groups),
    ensures
        ({
            let names = declare_groups(raw, decls, pods, raw.len() as int)->Ok_0;
            forall|g: int, k: int|
                0 <= g < groups.len() && groups[g].name@.len() > 0 && 0 <= k < groups[g].pod_indices@.len()
                    ==> #[trigger] groups[g].pod_indices@[k] < pods.len() && names[groups[g].pod_indices@[k] as int]
                    == groups[g].name@
        }),
{
    let n = raw.len() as int;
    let names = declare_groups(raw, decls, pods, n)->Ok_0;
    assert forall|g: int, k: int|
        0 <= g < groups.len() && groups[g].name@.len() > 0 && 0 <= k < groups[g].pod_indices@.len()
            implies #[trigger] groups[g].pod_indices@[k] < pods.len() && names[groups[g].pod_indices@[k] as int]
            == groups[g].name@ by {
        let rg = raw[g];
        let idxs = groups[g].pod_indices@;
        assert(members_outcome(rg, decls) == Ok::<Seq<usize>, Seq<char>>(idxs));
        lemma_members_in_range(rg, decls, pods.len());
        let p = idxs[k] as int;
        assert(idxs[k] < pods.len());
        lemma_declared_name_stays(raw, decls, pods, g + 1, n, p);
        lemma_declared_name_stays(raw, decls, pods, g, g + 1, p);
        let names = declare_groups(raw, decls, pods, g)->Ok_0;
        lemma_claim_all_ok(pods, names, idxs, rg.name@, idxs.len() as int);
        assert(declare_groups(raw, decls, pods, g + 1) == claim_all(pods, names, idxs, rg.name@, idxs.len() as int));
        assert(declare_groups(raw, decls, pods, g + 1)->Ok_0[p] == rg.name@);
    }
}

/// Every index a declaration lists names a pod below `n`.
pub open spec fn declarations_in_range(decls: Map<Seq<char>, Seq<usize>>, n: nat) -> bool {
    forall|key: Seq<char>, i: int|
        #[trigger] decls.contains_key(key) && 0 <= i < decls[key].len() ==> #[trigger] decls[key][i] < n
}

proof fn lemma_gathered_in_range(members: Seq<String>, decls: Map<Seq<char>, Seq<usize>>, m: int, n: nat)
    requires
        declarations_in_range(decls, n),
        first_undeclared(members, decls, m) is None,
        0 <= m <= members.len(),
    ensures
        forall|i: int| 0 <= i < gathered(members, decls, m).len() ==> #[trigger] gathered(members, decls, m)[i] < n,
    decreases m,
{
    if m > 0 {
        assert(first_undeclared(members, decls, m - 1) is None);
        lemma_gathered_in_range(members, decls, m - 1, n);
        let prev = gathered(members, decls, m - 1);
        let add = decls[members[m - 1]@];
        assert(decls.contains_key(members[m - 1]@));
        assert forall|i: int| 0 <= i < gathered(members, decls, m).len() implies #[trigger] gathered(members, decls, m)[i] < n by {
            if i >= prev.len() {
                assert(gathered(members, decls, m)[i] == add[i - prev.len()]);
            } else {
                assert(gathered(members, decls, m)[i] == prev[i]);
            }
        }
    }
}

/// `groups` are the declared groups, one per entry of `raw` and in its order,
/// each with the members and minimum its entry resolves to.
pub open spec fn declared_groups_of(
    raw: Seq<RawPodGroup>,
    decls: Map<Seq<char>, Seq<usize>>,
    groups: Seq<PodGroup>,
) -> bool {
    &&& groups.len() == raw.len()
    &&& forall|g: int|
        0 <= g < raw.len() ==> {
            let grp = #[trigger] groups[g];
            let rg = raw[g];
            &&& grp.name@ == rg.name@
            &&& members_outcome(rg, decls) == Ok::<Seq<usize>, Seq<char>>(grp.pod_indices@)
            &&& min_outcome(rg, grp.pod_indices@.len()) == Ok::<usize, Seq<char>>(grp.min_members)
            &&& grp.node_selector@ == rg.node_selector@
            &&& grp.colocate == rg.colocate
        }
}

/// Turn the declared groups into gangs and stamp membership onto the pods.
///
/// Groups are taken in order; each resolves its members and its minimum, then
/// claims its members one by one. The first failure is returned; a pod claimed
/// by two differently named groups is a failure.
pub fn resolve_declared_groups(
    raw_groups: &Vec<RawPodGroup>,
    declarations: &DeclarationIndex,
    pods: &mut Vec<Pod>,
) -> (r: Result<Vec<PodGroup>, String>)
    requires
        declarations_in_range(declarations@, old(pods)@.len()),
    ensures
        match declare_groups(raw_groups@, declarations@, old(pods)@, raw_groups@.len() as int) {
            Ok(names) => {
                &&& r is Ok
                &&& declared_groups_of(raw_groups@, declarations@, r->Ok_0@)
                &&& final(pods)@.len() == old(pods)@.len()
                &&& forall|p: int|
                    0 <= p < old(pods)@.len() ==> same_but_group(old(pods)@[p], #[trigger] final(pods)@[p])
                        && final(pods)@[p].group_name@ == names[p]
            },
            Err(e) => {
                &&& r is Err
                &&& r->Err_0@ == e
                &&& forall|p: int|
                    0 <= p < old(pods)@.len() ==> (#[trigger] final(pods)@[p]).group_name@ == declared_progress(
                        raw_groups@,
                        declarations@,
                        old(pods)@,
                        raw_groups@.len() as int,
                    )[p]
            },
        },
        final(pods)@.len() == old(pods)@.len(),
        forall|p: int| 0 <= p < old(pods)@.len() ==> same_but_group(old(pods)@[p], #[trigger] final(pods)@[p]),
{
    let ghost pods0 = pods@;
    let ghost decls = declarations@;
    let ghost raw = raw_groups@;
    let mut groups: Vec<PodGroup> = Vec::new();
    let mut g: usize = 0;
    while g < raw_groups.len()
        invariant
            g <= raw.len(),
            raw == raw_groups@,
            pods0 == old(pods)@,
            decls == declarations@,
            declarations_in_range(decls, pods0.len()),
            pods@.len() == pods0.len(),
            declare_groups(raw, decls, pods0, g as int) matches Ok(names) && names.len() == pods0.len() && forall|p: int|
                0 <= p < pods0.len() ==> same_but_group(pods0[p], #[trigger] pods@[p])
                    && pods@[p].group_name@ == names[p],
            groups@.len() == g,
            forall|q: int|
                0 <= q < g ==> {
                    let grp = #[trigger] groups@[q];
                    let rg = raw[q];
                    &&& grp.name@ == rg.name@
                    &&& members_outcome(rg, decls) == Ok::<Seq<usize>, Seq<char>>(grp.pod_indices@)
                    &&& min_outcome(rg, grp.pod_indices@.len()) == Ok::<usize, Seq<char>>(grp.min_members)
                    &&& grp.node_selector@ == rg.node_selector@
                    &&& grp.colocate == rg.colocate
                },
        decreases raw.len() - g,
    {
        let rg = &raw_groups[g];
        let ghost names = declare_groups(raw, decls, pods0, g as int)->Ok_0;
        let members = match resolve_members(rg, declarations) {
            Ok(v) => v,
            Err(e) => {
                proof {
                    assert(declare_groups(raw, decls, pods0, g + 1) == Err::<Seq<Seq<char>>, Seq<char>>(e@));
                    lemma_declare_err_stays(raw, decls, pods0, g + 1, raw.len() as int);
                    assert(declare_groups(raw, decls, pods0, raw.len() as int) == Err::<Seq<Seq<char>>, Seq<char>>(e@));
                    assert(pods0 == old(pods)@);
                    assert(raw == raw_groups@);
                    assert(declared_progress(raw, decls, pods0, g + 1) == names);
                    lemma_declared_progress_stays(raw, decls, pods0, g + 1, raw.len() as int);
                }
                return Err(e);
            },
        };
        proof {
            let n = rg.members@.len() as int;
            let gs = gathered(rg.members@, decls, n);
            let c = choose|r: Seq<usize>| sorted_distinct_of(r, gs);
            lemma_sorted_distinct_unique(c, members@, gs);
            assert(members_outcome(*rg, decls) == Ok::<Seq<usize>, Seq<char>>(members@));
            lemma_gathered_in_range(rg.members@, decls, n, pods0.len());
            assert forall|i: int| 0 <= i < members@.len() implies #[trigger] members@[i] < pods0.len() by {
                assert(members@.to_set().contains(members@[i]));
                assert(gs.to_set().contains(members@[i]));
                let t = choose|t: int| 0 <= t < gs.len() && gs[t] == members@[i];
            }
        }
        let min = match resolve_min_members(rg, members.len()) {
            Ok(m) => m,
            Err(e) => {
                proof {
                    assert(declare_groups(raw, decls, pods0, g + 1) == Err::<Seq<Seq<char>>, Seq<char>>(e@));
                    lemma_declare_err_stays(raw, decls, pods0, g + 1, raw.len() as int);
                    assert(declare_groups(raw, decls, pods0, raw.len() as int) == Err::<Seq<Seq<char>>, Seq<char>>(e@));
                    assert(pods0 == old(pods)@);
                    assert(raw == raw_groups@);
                    assert(declared_progress(raw, decls, pods0, g + 1) == names);
                    lemma_declared_progress_stays(raw, decls, pods0, g + 1, raw.len() as int);
                }
                return Err(e);
            },
        };
        let mut k: usize = 0;
        while k < members.len()
            invariant
                k <= members@.len(),
                g < raw.len(),
                pods0 == old(pods)@,
                names == declare_groups(raw, decls, pods0, g as int)->Ok_0,
                declare_groups(raw, decls, pods0, g as int) is Ok,
                members_outcome(*rg, decls) == Ok::<Seq<usize>, Seq<char>>(members@),
                min_outcome(*rg, members@.len()) == Ok::<usize, Seq<char>>(min),
                *rg == raw[g as int],
                raw == raw_groups@,
                decls == declarations@,
                pods@.len() == pods0.len(),
                forall|i: int| 0 <= i < members@.len() ==> #[trigger] members@[i] < pods0.len(),
                names.len() == pods0.len(),
                claim_all(pods0, names, members@, rg.name@, k as int) matches Ok(ns) && ns.len() == pods0.len() && forall|p: int|
                    0 <= p < pods0.len() ==> same_but_group(pods0[p], #[trigger] pods@[p])
                        && pods@[p].group_name@ == ns[p],
            decreases members@.len() - k,
        {
            let idx = members[k];
            let ghost ns = claim_all(pods0, names, members@, rg.name@, k as int)->Ok_0;
            let ghost before = pods@;
            let mut pod = pods.remove(idx);
            let ghost taken = pod;
            assert(taken == before[idx as int]);
            let res = claim_pod(&mut pod, &rg.name);
            pods.insert(idx, pod);
            proof {
                assert(pods@ =~= before.update(idx as int, pod));
                assert(same_but_group(pods0[idx as int], before[idx as int]));
                assert(ns[idx as int] == taken.group_name@);
            }
            match res {
                Ok(()) => {
                    proof {
                        assert forall|p: int| 0 <= p < pods0.len() implies same_but_group(pods0[p], #[trigger] pods@[p])
                            && pods@[p].group_name@ == ns.update(idx as int, rg.name@)[p] by {
                            if p != idx as int {
                                assert(pods@[p] == before[p]);
                            }
                        }
                    }
                },
                Err(e) => {
                    proof {
                        assert(claim_all(pods0, names, members@, rg.name@, k + 1) == Err::<Seq<Seq<char>>, Seq<char>>(e@));
                        lemma_claim_err_stays(pods0, names, members@, rg.name@, k + 1, members@.len() as int);
                        assert(declare_groups(raw, decls, pods0, g + 1) == Err::<Seq<Seq<char>>, Seq<char>>(e@));
                        lemma_declare_err_stays(raw, decls, pods0, g + 1, raw.len() as int);
                        lemma_claim_progress_stays(pods0, names, members@, rg.name@, k + 1, members@.len() as int);
                        assert(claim_progress(pods0, names, members@, rg.name@, k + 1) == ns);
                        assert(declared_progress(raw, decls, pods0, g + 1) == ns);
                        lemma_declared_progress_stays(raw, decls, pods0, g + 1, raw.len() as int);
                        assert forall|p: int| 0 <= p < pods0.len() implies (#[trigger] pods@[p]).group_name@ == ns[p] by {
                            if p != idx as int {
                                assert(pods@[p] == before[p]);
                            }
                        }
                    }
                    return Err(e);
                },
            }
            k = k + 1;
        }
        groups.push(
            PodGroup {
                name: rg.name.clone(),
                pod_indices: members,
                min_members: min,
                node_selector: rg.node_selector.clone(),
                colocate: rg.colocate,
            },
        );
        g = g + 1;
    }
    Ok(groups)
}

} // verus!
