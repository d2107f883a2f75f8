//! The workload and infrastructure documents: their header, replica names and
//! gang declarations.
use vstd::prelude::*;

use crate::csp::lists_indices_where;
use crate::labels::Labels;
use crate::model::{Pod, TopologySpread};
use crate::order::{key_texts, stable_sort_order, stable_sorted_order};
use crate::text::{append_decimal, decimal, decimal_len, texts, zero_padded};

verus! {

/// The IR version this library implements.
pub const IR_API_VERSION: &'static str = "kuberina.io/v1";

/// `kind` of an infrastructure document.
pub const KIND_INFRASTRUCTURE: &'static str = "Infrastructure";

/// `kind` of a workload document.
pub const KIND_WORKLOADS: &'static str = "Workloads";

/// `kind` of a blueprint document.
pub const KIND_BLUEPRINT: &'static str = "Blueprint";

/// Message for a document that names an apiVersion other than the one implemented.
pub open spec fn version_message(source: Seq<char>, found: Seq<char>) -> Seq<char> {
    source + ": unsupported apiVersion '"@ + found + "', this binary implements '"@
        + IR_API_VERSION@ + "'"@
}

/// Message for a document of another kind than expected.
pub open spec fn kind_message(source: Seq<char>, expected: Seq<char>, found: Seq<char>) -> Seq<char> {
    source + ": expected kind '"@ + expected + "', found '"@ + found + "'"@
}

/// The header names the implemented version, or none, and the expected kind, or none.
pub open spec fn header_accepted(api_version: Option<String>, kind: Option<String>, expected_kind: Seq<char>) -> bool {
    &&& (api_version is Some ==> api_version->0@ == IR_API_VERSION@)
    &&& (kind is Some ==> kind->0@ == expected_kind)
}

/// Message for a refused header: the version is checked before the kind.
pub open spec fn header_error(
    api_version: Option<String>,
    kind: Option<String>,
    expected_kind: Seq<char>,
    source: Seq<char>,
) -> Seq<char> {
    if api_version is Some && api_version->0@ != IR_API_VERSION@ {
        version_message(source, api_version->0@)
    } else {
        kind_message(source, expected_kind, kind->0@)
    }
}

/// Reject a document whose `apiVersion` or `kind` is not the one implemented.
///
/// Both fields are optional and an absent field means the implemented one; a
/// present but unknown value is an error. The version is checked first.
pub fn check_document_header(
    api_version: &Option<String>,
    kind: &Option<String>,
    expected_kind: &str,
    source: &str,
) -> (r: Result<(), String>)
    ensures
        r is Ok <==> header_accepted(*api_version, *kind, expected_kind@),
        !header_accepted(*api_version, *kind, expected_kind@) ==> r is Err && r->Err_0@ == header_error(
            *api_version,
            *kind,
            expected_kind@,
            source@,
        ),
{
    let implemented = IR_API_VERSION.to_owned();
    if let Some(v) = api_version {
        if *v != implemented {
            let msg = source.to_owned().concat(": unsupported apiVersion '").concat(
                v.as_str(),
            ).concat("', this binary implements '").concat(IR_API_VERSION).concat("'");
            return Err(msg);
        }
    }
    let expected = expected_kind.to_owned();
    if let Some(k) = kind {
        if *k != expected {
            let msg = source.to_owned().concat(": expected kind '").concat(expected_kind).concat(
                "', found '",
            ).concat(k.as_str()).concat("'");
            return Err(msg);
        }
    }
    Ok(())
}

/// Name of replica `idx` of a declaration unrolled into `total` pods: a single
/// replica is "base-0"; otherwise the index is zero-padded to four digits.
pub open spec fn replica_name(base: Seq<char>, idx: nat, total: nat) -> Seq<char> {
    if total <= 1 {
        base + seq!['-', '0']
    } else {
        base + seq!['-'] + zero_padded(decimal(idx), 4)
    }
}

/// Format a replica name: "grafana" with 3 replicas gives "grafana-0000",
/// "grafana-0001", "grafana-0002"; with a single replica, "grafana-0".
pub fn format_replica_name(base: &str, idx: usize, total: usize) -> (r: String)
    ensures
        r@ == replica_name(base@, idx as nat, total as nat),
{
    let mut out = base.to_owned();
    if total <= 1 {
        proof {
            reveal_strlit("-0");
        }
        out.append("-0");
        return out;
    }
    proof {
        reveal_strlit("-");
        reveal_strlit("0");
    }
    out.append("-");
    let ghost after_dash = out@;
    let n = decimal_len(idx);
    let mut k: usize = n;
    while k < 4
        invariant
            n <= k <= 4 || (n > 4 && k == n),
            n == decimal(idx as nat).len(),
            out@ == after_dash + Seq::new((k - n) as nat, |i: int| '0'),
        decreases 4 - k,
    {
        proof {
            reveal_strlit("0");
        }
        out.append("0");
        proof {
            assert(out@ =~= after_dash + Seq::new((k + 1 - n) as nat, |i: int| '0'));
        }
        k = k + 1;
    }
    let ghost zeros = out@;
    append_decimal(&mut out, idx);
    proof {
        if n < 4 {
            assert(k == 4);
            assert(out@ =~= base@ + seq!['-'] + zero_padded(decimal(idx as nat), 4));
        } else {
            assert(k == n);
            assert(out@ =~= base@ + seq!['-'] + zero_padded(decimal(idx as nat), 4));
        }
    }
    out
}

/// An explicitly declared gang, as a workload document writes it.
#[derive(Debug)]
pub struct RawPodGroup {
    pub name: String,
    /// Pod declarations to enrol, as `namespace/name`; every replica joins.
    pub members: Vec<String>,
    /// Smallest admissible gang; the whole gang when absent.
    pub min_members: Option<usize>,
    pub colocate: bool,
    pub node_selector: Labels,
}

/// Message for a `min_members` the gang cannot admit.
pub open spec fn min_members_message(group: Seq<char>, min: nat, count: nat) -> Seq<char> {
    "group '"@ + group + "': min_members is "@ + decimal(min) + ", expected 1..="@ + decimal(count)
}

/// Default `min_members` to the whole gang, and reject a value it cannot admit.
pub fn resolve_min_members(rg: &RawPodGroup, member_count: usize) -> (r: Result<usize, String>)
    ensures
        ({
            let min = match rg.min_members {
                Some(m) => m,
                None => member_count,
            };
            &&& 1 <= min <= member_count ==> r == Ok::<usize, String>(min)
            &&& !(1 <= min <= member_count) ==> r is Err && r->Err_0@ == min_members_message(
                rg.name@,
                min as nat,
                member_count as nat,
            )
        }),
{
    let min = match rg.min_members {
        Some(m) => m,
        None => member_count,
    };
    if min == 0 || min > member_count {
        let mut msg = "group '".to_owned();
        msg.append(rg.name.as_str());
        msg.append("': min_members is ");
        append_decimal(&mut msg, min);
        msg.append(", expected 1..=");
        append_decimal(&mut msg, member_count);
        return Err(msg);
    }
    Ok(min)
}

/// `b` is `a` with possibly another gang name.
pub open spec fn same_but_group(a: Pod, b: Pod) -> bool {
    &&& a.name == b.name
    &&& a.namespace == b.namespace
    &&& a.tolerations == b.tolerations
    &&& a.node_selector == b.node_selector
    &&& a.affinity_targets == b.affinity_targets
    &&& a.anti_affinity_targets == b.anti_affinity_targets
    &&& a.topology_spread == b.topology_spread
}

/// Message for a pod `namespace/name`, already in group `current`, claimed by `group`.
pub open spec fn claim_text(namespace: Seq<char>, name: Seq<char>, current: Seq<char>, group: Seq<char>) -> Seq<char> {
    "pod '"@ + namespace + "/"@ + name + "' is claimed by group '"@ + current + "' and group '"@
        + group + "'; a pod belongs to at most one group"@
}

/// Record group membership on a pod, rejecting a pod already in another group.
pub fn claim_pod(pod: &mut Pod, group: &String) -> (r: Result<(), String>)
    ensures
        old(pod).group_name@.len() == 0 || old(pod).group_name@ == group@ ==> r is Ok
            && final(pod).group_name@ == group@ && same_but_group(*old(pod), *final(pod)),
        !(old(pod).group_name@.len() == 0 || old(pod).group_name@ == group@) ==> r is Err
            && r->Err_0@ == claim_text(
            old(pod).namespace@,
            old(pod).name@,
            old(pod).group_name@,
            group@,
        ) && *final(pod) == *old(pod),
{
    if !pod.group_name.as_str().is_empty() && pod.group_name != *group {
        let mut msg = "pod '".to_owned();
        msg.append(pod.namespace.as_str());
        msg.append("/");
        msg.append(pod.name.as_str());
        msg.append("' is claimed by group '");
        msg.append(pod.group_name.as_str());
        msg.append("' and group '");
        msg.append(group.as_str());
        msg.append("'; a pod belongs to at most one group");
        return Err(msg);
    }
    pod.group_name = group.clone();
    Ok(())
}

/// Map that a list of declarations builds when the first entry of a name wins.
pub open spec fn first_wins(s: Seq<(String, Vec<usize>)>) -> Map<Seq<char>, Seq<usize>>
    decreases s.len(),
{
    if s.len() == 0 {
        Map::empty()
    } else {
        let m = first_wins(s.drop_last());
        if m.contains_key(s.last().0@) {
            m
        } else {
            m.insert(s.last().0@, s.last().1@)
        }
    }
}

/// Index of the first entry named `k`.
pub open spec fn is_first_named(s: Seq<(String, Vec<usize>)>, i: int, k: Seq<char>) -> bool {
    &&& 0 <= i < s.len()
    &&& s[i].0@ == k
    &&& forall|j: int| 0 <= j < i ==> s[j].0@ != k
}

proof fn lemma_first_wins(s: Seq<(String, Vec<usize>)>)
    ensures
        forall|k: Seq<char>|
            #[trigger] first_wins(s).contains_key(k) <==> exists|i: int| 0 <= i < s.len() && s[i].0@ == k,
        forall|i: int, k: Seq<char>| #[trigger] is_first_named(s, i, k) ==> first_wins(s)[k] == s[i].1@,
    decreases s.len(),
{
    if s.len() > 0 {
        let t = s.drop_last();
        lemma_first_wins(t);
        assert forall|k: Seq<char>|
            #[trigger] first_wins(s).contains_key(k) <==> exists|i: int| 0 <= i < s.len() && s[i].0@ == k by {
            if exists|i: int| 0 <= i < s.len() && s[i].0@ == k {
                let i = choose|i: int| 0 <= i < s.len() && s[i].0@ == k;
                if i < t.len() {
                    assert(t[i].0@ == k);
                }
            }
            if first_wins(t).contains_key(k) {
                let i = choose|i: int| 0 <= i < t.len() && t[i].0@ == k;
                assert(s[i].0@ == k);
            }
        }
        assert forall|i: int, k: Seq<char>| #[trigger] is_first_named(s, i, k) implies first_wins(s)[k]
            == s[i].1@ by {
            if i < t.len() {
                assert(is_first_named(t, i, k));
            } else {
                if first_wins(t).contains_key(k) {
                    let j = choose|j: int| 0 <= j < t.len() && t[j].0@ == k;
                    assert(s[j].0@ == k);
                }
            }
        }
    }
}

/// Replacing the list of the first entry named `k` changes the map at `k` only.
proof fn lemma_first_wins_update(s: Seq<(String, Vec<usize>)>, i: int, e: (String, Vec<usize>))
    requires
        is_first_named(s, i, e.0@),
    ensures
        first_wins(s.update(i, e)) == first_wins(s).insert(e.0@, e.1@),
    decreases s.len(),
{
    let u = s.update(i, e);
    if i < s.len() - 1 {
        let t = s.drop_last();
        assert(u.drop_last() =~= t.update(i, e));
        lemma_first_wins_update(t, i, e);
        lemma_first_wins(t);
        assert(first_wins(t).contains_key(e.0@));
        if s.last().0@ == e.0@ {
            assert(first_wins(u) =~= first_wins(s).insert(e.0@, e.1@));
        } else {
            assert(first_wins(u) =~= first_wins(s).insert(e.0@, e.1@));
        }
    } else {
        let t = s.drop_last();
        assert(u.drop_last() =~= t);
        lemma_first_wins(t);
        assert(!first_wins(t).contains_key(e.0@));
        assert(first_wins(u) =~= first_wins(s).insert(e.0@, e.1@));
    }
}

/// For each `namespace/name` pod declaration, the indices of the replicas it produced.
#[derive(Debug)]
pub struct DeclarationIndex {
    entries: Vec<(String, Vec<usize>)>,
}

impl View for DeclarationIndex {
    type V = Map<Seq<char>, Seq<usize>>;

    closed spec fn view(&self) -> Map<Seq<char>, Seq<usize>> {
        first_wins(self.entries@)
    }
}

impl DeclarationIndex {
    /// The index with no declaration.
    pub fn new() -> (r: DeclarationIndex)
        ensures
            r@ == Map::<Seq<char>, Seq<usize>>::empty(),
    {
        DeclarationIndex { entries: Vec::new() }
    }

    fn first_named(&self, key: &String) -> (r: Option<usize>)
        ensures
            r matches Some(i) ==> is_first_named(self.entries@, i as int, key@),
            r is None ==> forall|i: int| 0 <= i < self.entries@.len() ==> self.entries@[i].0@ != key@,
    {
        let mut i: usize = 0;
        while i < self.entries.len()
            invariant
                i <= self.entries.len(),
                forall|j: int| 0 <= j < i ==> self.entries@[j].0@ != key@,
            decreases self.entries.len() - i,
        {
            if self.entries[i].0 == *key {
                return Some(i);
            }
            i = i + 1;
        }
        None
    }

    /// The replica indices of a declaration, if it exists.
    pub fn get(&self, key: &String) -> (r: Option<&Vec<usize>>)
        ensures
            r matches Some(v) ==> self@.contains_key(key@) && self@[key@] == v@,
            r is None ==> !self@.contains_key(key@),
    {
        proof {
            lemma_first_wins(self.entries@);
        }
        match self.first_named(key) {
            Some(i) => Some(&self.entries[i].1),
            None => None,
        }
    }

    /// Record one more replica index for a declaration.
    pub fn push(&mut self, key: &String, idx: usize)
        ensures
            final(self)@ == old(self)@.insert(
                key@,
                if old(self)@.contains_key(key@) {
                    old(self)@[key@].push(idx)
                } else {
                    seq![idx]
                },
            ),
    {
        proof {
            lemma_first_wins(self.entries@);
        }
        match self.first_named(key) {
            Some(i) => {
                let ghost before = self.entries@;
                let mut list = self.entries[i].1.clone();
                assert(list@ =~= before[i as int].1@);
                list.push(idx);
                let entry = (self.entries[i].0.clone(), list);
                proof {
                    lemma_first_wins_update(before, i as int, entry);
                }
                self.entries.set(i, entry);
                proof {
                    assert(self.entries@ == before.update(i as int, entry));
                }
            },
            None => {
                let ghost before = self.entries@;
                let mut list: Vec<usize> = Vec::new();
                list.push(idx);
                self.entries.push((key.clone(), list));
                proof {
                    assert(self.entries@.drop_last() =~= before);
                    assert(list@ =~= seq![idx]);
                }
            },
        }
    }
}

/// The replica indices the first `m` members resolve to, in member order.
pub open spec fn gathered(members: Seq<String>, decls: Map<Seq<char>, Seq<usize>>, m: int) -> Seq<usize>
    decreases m,
{
    if m <= 0 {
        Seq::empty()
    } else {
        gathered(members, decls, m - 1) + decls[members[m - 1]@]
    }
}

/// Index of the first of the first `m` members that names no declaration.
pub open spec fn first_undeclared(members: Seq<String>, decls: Map<Seq<char>, Seq<usize>>, m: int) -> Option<int>
    decreases m,
{
    if m <= 0 {
        None
    } else {
        match first_undeclared(members, decls, m - 1) {
            Some(i) => Some(i),
            None => if decls.contains_key(members[m - 1]@) {
                None
            } else {
                Some(m - 1)
            },
        }
    }
}

/// Message for a member that names no declaration.
pub open spec fn member_message(group: Seq<char>, member: Seq<char>) -> Seq<char> {
    "group '"@ + group + "': member '"@ + member
        + "' matches no pod declaration; expected 'namespace/name'"@
}

/// Message for a group whose members produced no pod.
pub open spec fn empty_group_message(group: Seq<char>) -> Seq<char> {
    "group '"@ + group + "': resolved to no pods"@
}

/// `r` is strictly increasing and holds exactly the values of `s`.
pub open spec fn sorted_distinct_of(r: Seq<usize>, s: Seq<usize>) -> bool {
    &&& forall|i: int, j: int| 0 <= i < j < r.len() ==> r[i] < r[j]
    &&& r.to_set() == s.to_set()
}

/// The values of `v`, each once, in increasing order.
pub fn sorted_distinct(v: &Vec<usize>) -> (r: Vec<usize>)
    ensures
        sorted_distinct_of(r@, v@),
{
    let mut out: Vec<usize> = Vec::new();
    let mut n: usize = 0;
    while n < v.len()
        invariant
            n <= v.len(),
            forall|i: int, j: int| 0 <= i < j < out@.len() ==> out@[i] < out@[j],
            out@.to_set() == v@.take(n as int).to_set(),
        decreases v.len() - n,
    {
        let x = v[n];
        let ghost before = out@;
        let ghost prev = v@.take(n as int);
        let ghost next = v@.take(n + 1);
        proof {
            assert(next =~= prev.push(x));
        }
        let mut pos: usize = 0;
        while pos < out.len() && out[pos] < x
            invariant
                pos <= out@.len(),
                out@ == before,
                forall|i: int| 0 <= i < pos ==> out@[i] < x,
            decreases out@.len() - pos,
        {
            pos = pos + 1;
        }
        if pos < out.len() && out[pos] == x {
            proof {
                assert(out@.to_set() =~= next.to_set()) by {
                    assert(out@.to_set().contains(x));
                    assert forall|y: usize| next.to_set().contains(y) implies out@.to_set().contains(y) by {
                        if y != x {
                            let t = choose|t: int| 0 <= t < next.len() && #[trigger] next[t] == y;
                            assert(prev[t] == y);
                            assert(prev.to_set().contains(y));
                        }
                    }
                    assert forall|y: usize| out@.to_set().contains(y) implies next.to_set().contains(y) by {
                        assert(prev.to_set().contains(y));
                        let t = choose|t: int| 0 <= t < prev.len() && #[trigger] prev[t] == y;
                        assert(next[t] == y);
                    }
                }
            }
        } else {
            out.insert(pos, x);
            proof {
                assert(out@ == before.insert(pos as int, x));
                assert forall|i: int, j: int| 0 <= i < j < out@.len() implies out@[i] < out@[j] by {
                    if j < pos {
                    } else if j == pos {
                    } else if i < pos {
                        if pos < before.len() {
                            assert(before[pos as int] > x);
                        }
                    } else if i == pos {
                        assert(before[pos as int] > x);
                    } else {
                    }
                }
                assert(out@.to_set() =~= next.to_set()) by {
                    assert forall|y: usize| next.to_set().contains(y) implies out@.to_set().contains(y) by {
                        if y == x {
                            assert(out@[pos as int] == x);
                        } else {
                            let t = choose|t: int| 0 <= t < next.len() && #[trigger] next[t] == y;
                            assert(prev[t] == y);
                            assert(prev.to_set().contains(y));
                            assert(before.to_set().contains(y));
                            let u = choose|u: int| 0 <= u < before.len() && #[trigger] before[u] == y;
                            if u < pos {
                                assert(out@[u] == y);
                            } else {
                                assert(out@[u + 1] == y);
                            }
                        }
                    }
                    assert forall|y: usize| out@.to_set().contains(y) implies next.to_set().contains(y) by {
                        let u = choose|u: int| 0 <= u < out@.len() && #[trigger] out@[u] == y;
                        if u == pos {
                            assert(next[n as int] == x);
                        } else {
                            let w = if u < pos { u } else { u - 1 };
                            assert(before[w] == y);
                            assert(before.to_set().contains(y));
                            assert(prev.to_set().contains(y));
                            let t = choose|t: int| 0 <= t < prev.len() && #[trigger] prev[t] == y;
                            assert(next[t] == y);
                        }
                    }
                }
            }
        }
        n = n + 1;
    }
    assert(v@.take(v@.len() as int) =~= v@);
    out
}

/// Resolve `members` entries to pod indices: every replica of a declaration
/// joins, and the result is sorted with duplicates removed.
pub fn resolve_members(rg: &RawPodGroup, declarations: &DeclarationIndex) -> (r: Result<Vec<usize>, String>)
    ensures
        ({
            let decls = declarations@;
            let n = rg.members@.len() as int;
            match first_undeclared(rg.members@, decls, n) {
                Some(i) => r is Err && r->Err_0@ == member_message(rg.name@, rg.members@[i]@),
                None => if gathered(rg.members@, decls, n).len() == 0 {
                    r is Err && r->Err_0@ == empty_group_message(rg.name@)
                } else {
                    r is Ok && sorted_distinct_of(r->Ok_0@, gathered(rg.members@, decls, n))
                },
            }
        }),
{
    let mut indices: Vec<usize> = Vec::new();
    let mut m: usize = 0;
    while m < rg.members.len()
        invariant
            m <= rg.members.len(),
            first_undeclared(rg.members@, declarations@, m as int) is None,
            indices@ == gathered(rg.members@, declarations@, m as int),
        decreases rg.members.len() - m,
    {
        let member = &rg.members[m];
        match declarations.get(member) {
            Some(found) => {
                let mut k: usize = 0;
                let ghost start = indices@;
                while k < found.len()
                    invariant
                        k <= found.len(),
                        indices@ == start + found@.take(k as int),
                    decreases found.len() - k,
                {
                    indices.push(found[k]);
                    proof {
                        assert(found@.take(k + 1) =~= found@.take(k as int).push(found@[k as int]));
                        assert(indices@ =~= start + found@.take(k + 1));
                    }
                    k = k + 1;
                }
                assert(found@.take(found@.len() as int) =~= found@);
            },
            None => {
                let mut msg = "group '".to_owned();
                msg.append(rg.name.as_str());
                msg.append("': member '");
                msg.append(member.as_str());
                msg.append("' matches no pod declaration; expected 'namespace/name'");
                proof {
                    lemma_first_undeclared_stays(rg.members@, declarations@, m as int + 1, rg.members@.len() as int);
                }
                return Err(msg);
            },
        }
        m = m + 1;
    }
    if indices.len() == 0 {
        let mut msg = "group '".to_owned();
        msg.append(rg.name.as_str());
        msg.append("': resolved to no pods");
        return Err(msg);
    }
    Ok(sorted_distinct(&indices))
}

/// Once a member is found undeclared, later members do not change which one is first.
proof fn lemma_first_undeclared_stays(members: Seq<String>, decls: Map<Seq<char>, Seq<usize>>, a: int, b: int)
    requires
        0 <= a <= b,
        first_undeclared(members, decls, a) is Some,
    ensures
        first_undeclared(members, decls, b) == first_undeclared(members, decls, a),
    decreases b - a,
{
    if a < b {
        lemma_first_undeclared_stays(members, decls, a, b - 1);
    }
}

/// A node taint as an infrastructure document writes it.
#[derive(Debug)]
pub struct RawTaint {
    pub key: String,
    pub value: String,
    pub effect: String,
}

/// A pod toleration as a workload document writes it.
#[derive(Debug)]
pub struct RawToleration {
    pub key: String,
    pub operator: String,
    pub value: String,
    pub effect: String,
}

/// A taint as the placement rules match it: by its key.
pub fn flatten_taint(taint: &RawTaint) -> (r: String)
    ensures
        r@ == taint.key@,
{
    taint.key.clone()
}

/// A toleration as the placement rules match it: by its key.
pub fn flatten_toleration(tol: &RawToleration) -> (r: String)
    ensures
        r@ == tol.key@,
{
    tol.key.clone()
}

/// The replica count of a pod declaration that writes none.
pub fn default_replicas() -> (r: usize)
    ensures
        r == 1,
{
    1
}

/// A pod declaration of a workload document, before replicas are unrolled.
#[derive(Debug)]
pub struct RawPod {
    pub name: String,
    pub replicas: usize,
    pub gang: Option<String>,
    pub node_selector: Labels,
    pub tolerations: Vec<RawToleration>,
    pub affinity: Vec<String>,
    pub anti_affinity: Vec<String>,
    pub topology_spread: Option<TopologySpread>,
}

/// One namespace of a workload document and the pods declared in it.
#[derive(Debug)]
pub struct RawNamespace {
    pub name: String,
    pub pods: Vec<RawPod>,
}

/// Number of pods a declaration unrolls into: its replicas, and at least one.
pub open spec fn replica_count(rp: RawPod) -> nat {
    if rp.replicas == 0 {
        1
    } else {
        rp.replicas as nat
    }
}

/// Toleration keys of a declaration.
pub open spec fn toleration_keys(tols: Seq<RawToleration>) -> Seq<Seq<char>> {
    tols.map_values(|t: RawToleration| t.key@)
}

/// Two optional spread constraints say the same.
pub open spec fn same_spread(a: Option<TopologySpread>, b: Option<TopologySpread>) -> bool {
    match (a, b) {
        (None, None) => true,
        (Some(x), Some(y)) => x.max_skew == y.max_skew && x.topology_key@ == y.topology_key@,
        _ => false,
    }
}

/// `pod` is replica `r` of declaration `rp` in namespace `ns`.
pub open spec fn unrolled_from(pod: Pod, ns: Seq<char>, rp: RawPod, r: nat) -> bool {
    &&& pod.name@ == replica_name(rp.name@, r, replica_count(rp))
    &&& pod.namespace@ == ns
    &&& texts(pod.tolerations@) == toleration_keys(rp.tolerations@)
    &&& pod.node_selector@ == rp.node_selector@
    &&& texts(pod.affinity_targets@) == texts(rp.affinity@)
    &&& texts(pod.anti_affinity_targets@) == texts(rp.anti_affinity@)
    &&& pod.group_name@ == match rp.gang {
        Some(g) => g@,
        None => Seq::<char>::empty(),
    }
    &&& same_spread(pod.topology_spread, rp.topology_spread)
}

/// Replicas of the first `d` declarations of namespace `ni`, as
/// (namespace, declaration, replica) positions.
pub open spec fn unroll_namespace(ns: Seq<RawNamespace>, ni: int, d: int) -> Seq<(usize, usize, nat)>
    decreases d,
{
    if d <= 0 {
        Seq::empty()
    } else {
        unroll_namespace(ns, ni, d - 1) + Seq::new(
            replica_count(ns[ni].pods@[d - 1]),
            |r: int| (ni as usize, (d - 1) as usize, r as nat),
        )
    }
}

/// Replicas of the first `k` namespaces taken in `order`.
pub open spec fn unroll(ns: Seq<RawNamespace>, order: Seq<usize>, k: int) -> Seq<(usize, usize, nat)>
    decreases k,
{
    if k <= 0 {
        Seq::empty()
    } else {
        unroll(ns, order, k - 1) + unroll_namespace(
            ns,
            order[k - 1] as int,
            ns[order[k - 1] as int].pods@.len() as int,
        )
    }
}

/// The `namespace/name` key of a declaration.
pub open spec fn declaration_key(ns: RawNamespace, rp: RawPod) -> Seq<char> {
    ns.name@ + "/"@ + rp.name@
}

/// The pods of a workload document, one per replica, with where each came from.
#[derive(Debug)]
pub struct Flattened {
    pub pods: Vec<Pod>,
    pub declarations: DeclarationIndex,
    /// For each pod, its namespace's position in the input and its declaration's
    /// position in that namespace.
    pub origins: Vec<(usize, usize)>,
}

/// The positions of `u` line up with `pods`, `origins` and `declarations`.
pub open spec fn flattening_of(
    ns: Seq<RawNamespace>,
    u: Seq<(usize, usize, nat)>,
    pods: Seq<Pod>,
    origins: Seq<(usize, usize)>,
    decls: Map<Seq<char>, Seq<usize>>,
) -> bool {
    &&& pods.len() == u.len()
    &&& origins.len() == u.len()
    &&& forall|p: int|
        0 <= p < u.len() ==> #[trigger] origins[p] == (u[p].0, u[p].1) && u[p].0 < ns.len() && u[p].1
            < ns[u[p].0 as int].pods@.len() && unrolled_from(
            pods[p],
            ns[u[p].0 as int].name@,
            ns[u[p].0 as int].pods@[u[p].1 as int],
            u[p].2,
        )
    &&& forall|key: Seq<char>|
        #[trigger] decls.contains_key(key) <==> exists|p: int|
            0 <= p < u.len() && declaration_key(
                ns[u[p].0 as int],
                ns[u[p].0 as int].pods@[u[p].1 as int],
            ) == key
    &&& forall|key: Seq<char>|
        #[trigger] decls.contains_key(key) ==> lists_indices_where(
            decls[key],
            u.len(),
            |p: int| declaration_key(ns[u[p].0 as int], ns[u[p].0 as int].pods@[u[p].1 as int]) == key,
        )
}

/// The names of the namespaces.
pub open spec fn namespace_names(ns: Seq<RawNamespace>) -> Seq<Seq<char>> {
    ns.map_values(|n: RawNamespace| n.name@)
}

fn copy_texts(v: &Vec<String>) -> (r: Vec<String>)
    ensures
        r@ == v@,
{
    let mut out: Vec<String> = Vec::new();
    let mut i: usize = 0;
    while i < v.len()
        invariant
            i <= v@.len(),
            out@ == v@.take(i as int),
        decreases v@.len() - i,
    {
        out.push(v[i].clone());
        proof {
            assert(out@ =~= v@.take(i + 1));
        }
        i = i + 1;
    }
    assert(v@.take(v@.len() as int) =~= v@);
    out
}

fn toleration_texts(tols: &Vec<RawToleration>) -> (r: Vec<String>)
    ensures
        texts(r@) == toleration_keys(tols@),
{
    let mut out: Vec<String> = Vec::new();
    let mut i: usize = 0;
    while i < tols.len()
        invariant
            i <= tols@.len(),
            out@.len() == i,
            forall|j: int| 0 <= j < i ==> #[trigger] out@[j]@ == tols@[j].key@,
        decreases tols@.len() - i,
    {
        out.push(flatten_toleration(&tols[i]));
        i = i + 1;
    }
    assert(texts(out@) =~= toleration_keys(tols@));
    out
}

fn copy_spread(ts: &Option<TopologySpread>) -> (r: Option<TopologySpread>)
    ensures
        same_spread(r, *ts),
{
    match ts {
        Some(t) => Some(t.clone()),
        None => None,
    }
}

/// Flatten the namespaces into one pod list, unrolling replicas.
///
/// Namespaces are taken in order of their names, so the pod order does not
/// depend on how the document's map was read; within a namespace, declarations
/// keep their document order. A declaration with `replicas: n` gives `n` pods
/// (at least one), named by `format_replica_name`. The result also indexes, by
/// `namespace/name`, the replicas each declaration produced.
pub fn flatten_namespaces(namespaces: &Vec<RawNamespace>) -> (r: Flattened)
    ensures
        exists|order: Seq<usize>|
            stable_sorted_order(namespace_names(namespaces@), order) && flattening_of(
                namespaces@,
                unroll(namespaces@, order, namespaces@.len() as int),
                r.pods@,
                r.origins@,
                r.declarations@,
            ),
{
    let mut names: Vec<String> = Vec::new();
    let mut q: usize = 0;
    while q < namespaces.len()
        invariant
            q <= namespaces@.len(),
            names@.len() == q,
            forall|j: int| 0 <= j < q ==> #[trigger] names@[j]@ == namespaces@[j].name@,
        decreases namespaces@.len() - q,
    {
        names.push(namespaces[q].name.clone());
        q = q + 1;
    }
    assert(key_texts(names@) =~= namespace_names(namespaces@));
    let order = stable_sort_order(&names);
    let ghost ns = namespaces@;
    let mut pods: Vec<Pod> = Vec::new();
    let mut origins: Vec<(usize, usize)> = Vec::new();
    let mut decls = DeclarationIndex::new();
    let mut k: usize = 0;
    while k < order.len()
        invariant
            k <= order@.len(),
            ns == namespaces@,
            stable_sorted_order(namespace_names(ns), order@),
            flattening_of(ns, unroll(ns, order@, k as int), pods@, origins@, decls@),
        decreases order@.len() - k,
    {
        let ni = order[k];
        assert(ni < ns.len());
        let namespace = &namespaces[ni];
        let ghost base = unroll(ns, order@, k as int);
        let mut d: usize = 0;
        while d < namespace.pods.len()
            invariant
                k < order@.len(),
                ni == order@[k as int],
                ni < ns.len(),
                ns == namespaces@,
                *namespace == ns[ni as int],
                d <= namespace.pods@.len(),
                base == unroll(ns, order@, k as int),
                flattening_of(ns, base + unroll_namespace(ns, ni as int, d as int), pods@, origins@, decls@),
            decreases namespace.pods@.len() - d,
        {
            let rp = &namespace.pods[d];
            let count: usize = if rp.replicas == 0 {
                1
            } else {
                rp.replicas
            };
            let tols = toleration_texts(&rp.tolerations);
            let mut key = namespace.name.clone();
            proof {
                reveal_strlit("/");
            }
            key.append("/");
            key.append(rp.name.as_str());
            let ghost before = base + unroll_namespace(ns, ni as int, d as int);
            let mut r: usize = 0;
            while r < count
                invariant
                    k < order@.len(),
                    ni == order@[k as int],
                    ni < ns.len(),
                    ns == namespaces@,
                    *namespace == ns[ni as int],
                    d < namespace.pods@.len(),
                    *rp == namespace.pods@[d as int],
                    count == replica_count(*rp),
                    texts(tols@) == toleration_keys(rp.tolerations@),
                    key@ == declaration_key(*namespace, *rp),
                    r <= count,
                    flattening_of(
                        ns,
                        before + Seq::new(r as nat, |x: int| (ni, d, x as nat)),
                        pods@,
                        origins@,
                        decls@,
                    ),
                decreases count - r,
            {
                let ghost cur = before + Seq::new(r as nat, |x: int| (ni, d, x as nat));
                let ghost next = before + Seq::new((r + 1) as nat, |x: int| (ni, d, x as nat));
                let ghost old_decls = decls@;
                let ghost old_pods = pods@;
                let ghost old_origins = origins@;
                let pod = Pod {
                    name: format_replica_name(rp.name.as_str(), r, count),
                    namespace: namespace.name.clone(),
                    tolerations: copy_texts(&tols),
                    node_selector: rp.node_selector.clone(),
                    affinity_targets: copy_texts(&rp.affinity),
                    anti_affinity_targets: copy_texts(&rp.anti_affinity),
                    group_name: match &rp.gang {
                        Some(g) => g.clone(),
                        None => String::new(),
                    },
                    topology_spread: copy_spread(&rp.topology_spread),
                };
                let p = pods.len();
                pods.push(pod);
                origins.push((ni, d));
                decls.push(&key, p);
                proof {
                    assert(next =~= cur.push((ni, d, r as nat)));
                    assert(next[p as int] == (ni, d, r as nat));
                    assert(unrolled_from(pod, ns[ni as int].name@, ns[ni as int].pods@[d as int], r as nat));
                    assert forall|q: int| 0 <= q < next.len() implies #[trigger] origins@[q] == (next[q].0, next[q].1)
                        && next[q].0 < ns.len() && next[q].1 < ns[next[q].0 as int].pods@.len()
                        && unrolled_from(
                        pods@[q],
                        ns[next[q].0 as int].name@,
                        ns[next[q].0 as int].pods@[next[q].1 as int],
                        next[q].2,
                    ) by {
                        if q < p {
                            assert(next[q] == cur[q]);
                            assert(pods@[q] == old_pods[q]);
                            assert(origins@[q] == old_origins[q]);
                        } else {
                            assert(q == p as int);
                            assert(pods@[q] == pod);
                            assert(origins@[q] == (ni, d));
                        }
                    }
                    let dk = |q: int| declaration_key(ns[next[q].0 as int], ns[next[q].0 as int].pods@[next[q].1 as int]);
                    assert forall|q: int| 0 <= q < cur.len() implies #[trigger] dk(q) == declaration_key(
                        ns[cur[q].0 as int],
                        ns[cur[q].0 as int].pods@[cur[q].1 as int],
                    ) by {
                        assert(next[q] == cur[q]);
                    }
                    assert(dk(p as int) == key@);
                    assert forall|kk: Seq<char>| #[trigger] decls@.contains_key(kk) <==> exists|q: int|
                        0 <= q < next.len() && declaration_key(
                            ns[next[q].0 as int],
                            ns[next[q].0 as int].pods@[next[q].1 as int],
                        ) == kk by {
                        if kk != key@ {
                            if exists|q: int|
                                0 <= q < next.len() && declaration_key(
                                    ns[next[q].0 as int],
                                    ns[next[q].0 as int].pods@[next[q].1 as int],
                                ) == kk {
                                let q = choose|q: int|
                                    0 <= q < next.len() && declaration_key(
                                        ns[next[q].0 as int],
                                        ns[next[q].0 as int].pods@[next[q].1 as int],
                                    ) == kk;
                                assert(q != p as int);
                                assert(next[q] == cur[q]);
                            }
                            if old_decls.contains_key(kk) {
                                let q = choose|q: int|
                                    0 <= q < cur.len() && declaration_key(
                                        ns[cur[q].0 as int],
                                        ns[cur[q].0 as int].pods@[cur[q].1 as int],
                                    ) == kk;
                                assert(next[q] == cur[q]);
                            }
                        }
                    }
                    assert forall|kk: Seq<char>| #[trigger] decls@.contains_key(kk) implies lists_indices_where(
                        decls@[kk],
                        next.len(),
                        |q: int| declaration_key(ns[next[q].0 as int], ns[next[q].0 as int].pods@[next[q].1 as int]) == kk,
                    ) by {
                        let pred = |q: int| declaration_key(ns[next[q].0 as int], ns[next[q].0 as int].pods@[next[q].1 as int]) == kk;
                        let old_pred = |q: int| declaration_key(ns[cur[q].0 as int], ns[cur[q].0 as int].pods@[cur[q].1 as int]) == kk;
                        assert forall|q: int| 0 <= q < cur.len() implies #[trigger] pred(q) == old_pred(q) by {
                            assert(next[q] == cur[q]);
                        }
                        if kk == key@ {
                            if old_decls.contains_key(kk) {
                                let l = old_decls[kk];
                                assert(decls@[kk] == l.push(p));
                                assert forall|k: int| 0 <= k < next.len() && #[trigger] pred(k) implies decls@[kk].contains(k as usize) by {
                                    if k < p {
                                        assert(old_pred(k));
                                        let t = choose|t: int| 0 <= t < l.len() && l[t] == k as usize;
                                        assert(decls@[kk][t] == k as usize);
                                    } else {
                                        assert(decls@[kk][l.len() as int] == p);
                                    }
                                }
                                assert forall|i: int| 0 <= i < decls@[kk].len() implies decls@[kk][i] < next.len() && pred(decls@[kk][i] as int) by {
                                    if i < l.len() {
                                        assert(old_pred(l[i] as int));
                                    }
                                }
                            } else {
                                assert(decls@[kk] == seq![p]);
                                assert forall|k: int| 0 <= k < next.len() && #[trigger] pred(k) implies decls@[kk].contains(k as usize) by {
                                    if k < p {
                                        assert(old_pred(k));
                                        assert(false);
                                    } else {
                                        assert(decls@[kk][0] == p);
                                    }
                                }
                            }
                        } else {
                            assert(decls@[kk] == old_decls[kk]);
                            assert(!pred(p as int));
                        }
                    }
                }
                r = r + 1;
            }
            proof {
                assert(before + Seq::new(count as nat, |x: int| (ni, d, x as nat)) =~= base + unroll_namespace(ns, ni as int, d + 1));
            }
            d = d + 1;
        }
        proof {
            assert(base + unroll_namespace(ns, ni as int, namespace.pods@.len() as int) =~= unroll(ns, order@, k + 1));
        }
        k = k + 1;
    }
    Flattened { pods, declarations: decls, origins }
}

} // verus!
