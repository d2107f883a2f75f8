//! Lexicographic order of strings, by code point, and sorting by it.
use vstd::prelude::*;

use crate::text::chars_of;

verus! {

/// `a` sorts strictly before `b`: at the first position where they differ `a`
/// has the smaller character, or `a` is a proper prefix of `b`. On UTF-8 text
/// this is the byte order `str` compares by.
pub open spec fn text_lt(a: Seq<char>, b: Seq<char>) -> bool {
    exists|i: int|
        0 <= i <= a.len() && i <= b.len() && #[trigger] a.take(i) == b.take(i) && ((i == a.len() && i
            < b.len()) || (i < a.len() && i < b.len() && a[i] < b[i]))
}

/// Length of the longest common prefix.
spec fn common_prefix(a: Seq<char>, b: Seq<char>, i: int) -> bool {
    0 <= i <= a.len() && i <= b.len() && a.take(i) == b.take(i) && (i == a.len() || i == b.len()
        || a[i] != b[i])
}

proof fn lemma_common_prefix_unique(a: Seq<char>, b: Seq<char>, i: int, j: int)
    requires
        0 <= i <= a.len() && i <= b.len() && a.take(i) == b.take(i),
        common_prefix(a, b, j),
    ensures
        i <= j,
{
    if i > j {
        assert(a.take(i)[j] == a[j]);
        assert(b.take(i)[j] == b[j]);
        assert(a.take(i)[j] == b.take(i)[j]);
    }
}

proof fn lemma_text_lt_via_prefix(a: Seq<char>, b: Seq<char>, j: int)
    requires
        common_prefix(a, b, j),
    ensures
        text_lt(a, b) <==> ((j == a.len() && j < b.len()) || (j < a.len() && j < b.len() && a[j]
            < b[j])),
{
    if text_lt(a, b) {
        let i = choose|i: int|
            0 <= i <= a.len() && i <= b.len() && #[trigger] a.take(i) == b.take(i) && ((i == a.len()
                && i < b.len()) || (i < a.len() && i < b.len() && a[i] < b[i]));
        lemma_common_prefix_unique(a, b, i, j);
        if i < j {
            assert(a.take(j)[i] == b.take(j)[i]);
        }
    }
    if (j == a.len() && j < b.len()) || (j < a.len() && j < b.len() && a[j] < b[j]) {
        assert(a.take(j) == b.take(j));
    }
}

/// Every two strings have a longest common prefix.
proof fn lemma_common_prefix_exists(a: Seq<char>, b: Seq<char>) -> (j: int)
    ensures
        common_prefix(a, b, j),
    decreases a.len(),
{
    if a.len() == 0 || b.len() == 0 || a[0] != b[0] {
        assert(a.take(0) =~= b.take(0));
        0
    } else {
        let k = lemma_common_prefix_exists(a.skip(1), b.skip(1));
        assert(a.take(k + 1) =~= b.take(k + 1)) by {
            assert forall|t: int| 0 <= t < k + 1 implies #[trigger] a.take(k + 1)[t] == b.take(k + 1)[t] by {
                if t > 0 {
                    assert(a.skip(1).take(k)[t - 1] == b.skip(1).take(k)[t - 1]);
                }
            }
        }
        if k + 1 < a.len() && k + 1 < b.len() {
            assert(a[k + 1] == a.skip(1)[k]);
            assert(b[k + 1] == b.skip(1)[k]);
        }
        k + 1
    }
}

/// The order is strict and total on distinct strings.
pub proof fn lemma_text_lt_total(a: Seq<char>, b: Seq<char>)
    ensures
        !text_lt(a, a),
        !(text_lt(a, b) && text_lt(b, a)),
        a != b ==> text_lt(a, b) || text_lt(b, a),
{
    let j = lemma_common_prefix_exists(a, b);
    lemma_text_lt_via_prefix(a, b, j);
    assert(common_prefix(b, a, j));
    lemma_text_lt_via_prefix(b, a, j);
    let k = lemma_common_prefix_exists(a, a);
    lemma_text_lt_via_prefix(a, a, k);
    if a != b && j == a.len() && j == b.len() {
        assert(a =~= a.take(j));
        assert(b =~= b.take(j));
    }
}

/// The order is transitive.
pub proof fn lemma_text_lt_transitive(a: Seq<char>, b: Seq<char>, c: Seq<char>)
    requires
        text_lt(a, b),
        text_lt(b, c),
    ensures
        text_lt(a, c),
{
    let i = lemma_common_prefix_exists(a, b);
    let j = lemma_common_prefix_exists(b, c);
    lemma_text_lt_via_prefix(a, b, i);
    lemma_text_lt_via_prefix(b, c, j);
    let m = if i < j {
        i
    } else {
        j
    };
    assert(a.take(m) =~= c.take(m)) by {
        assert forall|t: int| 0 <= t < m implies #[trigger] a.take(m)[t] == c.take(m)[t] by {
            assert(a.take(i)[t] == b.take(i)[t]);
            assert(b.take(j)[t] == c.take(j)[t]);
        }
    }
    if i < j {
        assert(i < b.len());
        assert(b[i] == c[i]) by {
            assert(b.take(j)[i] == c.take(j)[i]);
        }
    } else if j < i {
        assert(j < b.len());
        assert(a[j] == b[j]) by {
            assert(a.take(i)[j] == b.take(i)[j]);
        }
    }
    assert(0 <= m <= a.len() && m <= c.len() && a.take(m) == c.take(m) && ((m == a.len() && m
        < c.len()) || (m < a.len() && m < c.len() && a[m] < c[m])));
}

/// Texts in strictly increasing order.
spec fn increasing(s: Seq<Seq<char>>) -> bool {
    forall|a: int, b: int| 0 <= a < b < s.len() ==> text_lt(#[trigger] s[a], #[trigger] s[b])
}

proof fn lemma_increasing_prefix_equal(s1: Seq<Seq<char>>, s2: Seq<Seq<char>>, i: int)
    requires
        increasing(s1),
        increasing(s2),
        s1.len() == s2.len(),
        forall|x: Seq<char>| s1.contains(x) <==> s2.contains(x),
        0 <= i < s1.len(),
    ensures
        forall|t: int| 0 <= t <= i ==> s1[t] == s2[t],
    decreases i,
{
    if i > 0 {
        lemma_increasing_prefix_equal(s1, s2, i - 1);
    }
    assert(s1.contains(s1[i]));
    let j = choose|j: int| 0 <= j < s2.len() && s2[j] == s1[i];
    assert(s2.contains(s2[i]));
    let k = choose|k: int| 0 <= k < s1.len() && s1[k] == s2[i];
    lemma_text_lt_total(s1[i], s2[i]);
    if j < i {
        assert(s2[j] == s1[j]);
        assert(text_lt(s1[j], s1[i]));
        lemma_text_lt_total(s1[j], s1[j]);
    } else if j > i {
        if k < i {
            assert(s1[k] == s2[k]);
            assert(text_lt(s2[k], s2[i]));
            lemma_text_lt_total(s2[k], s2[k]);
        } else if k > i {
            assert(text_lt(s1[i], s1[k]));
            assert(text_lt(s2[i], s2[j]));
            lemma_text_lt_total(s2[i], s2[j]);
        }
    }
}

/// Two lists of the same distinct keys, each in a stable sorted order, list
/// the keys in the same sequence: the sorted arrangement does not depend on
/// the order the keys came in.
pub proof fn lemma_sorted_keys_unique(k1: Seq<Seq<char>>, o1: Seq<usize>, k2: Seq<Seq<char>>, o2: Seq<usize>)
    requires
        stable_sorted_order(k1, o1),
        stable_sorted_order(k2, o2),
        k1.len() == k2.len(),
        k1.len() <= usize::MAX,
        forall|a: int, b: int| 0 <= a < b < k1.len() ==> k1[a] != k1[b],
        forall|a: int, b: int| 0 <= a < b < k2.len() ==> k2[a] != k2[b],
        forall|x: Seq<char>| k1.contains(x) <==> k2.contains(x),
    ensures
        forall|i: int| 0 <= i < o1.len() ==> #[trigger] k1[o1[i] as int] == k2[o2[i] as int],
{
    let n = k1.len();
    let s1 = Seq::new(n, |i: int| k1[o1[i] as int]);
    let s2 = Seq::new(n, |i: int| k2[o2[i] as int]);
    assert forall|a: int, b: int| 0 <= a < b < s1.len() implies text_lt(#[trigger] s1[a], #[trigger] s1[b]) by {
        assert(o1[a] != o1[b]);
        if o1[a] < o1[b] {
            assert(k1[o1[a] as int] != k1[o1[b] as int]);
        } else {
            assert(k1[o1[b] as int] != k1[o1[a] as int]);
        }
        assert(!text_lt(k1[o1[b] as int], k1[o1[a] as int]));
        lemma_text_lt_total(s1[a], s1[b]);
    }
    assert forall|a: int, b: int| 0 <= a < b < s2.len() implies text_lt(#[trigger] s2[a], #[trigger] s2[b]) by {
        assert(o2[a] != o2[b]);
        if o2[a] < o2[b] {
            assert(k2[o2[a] as int] != k2[o2[b] as int]);
        } else {
            assert(k2[o2[b] as int] != k2[o2[a] as int]);
        }
        assert(!text_lt(k2[o2[b] as int], k2[o2[a] as int]));
        lemma_text_lt_total(s2[a], s2[b]);
    }
    assert forall|x: Seq<char>| s1.contains(x) <==> s2.contains(x) by {
        if s1.contains(x) {
            let i = choose|i: int| 0 <= i < s1.len() && s1[i] == x;
            assert(k1.contains(x));
            let t = choose|t: int| 0 <= t < k2.len() && k2[t] == x;
            assert(o2.contains(t as usize));
            let m = choose|m: int| 0 <= m < o2.len() && o2[m] == t as usize;
            assert(o2[m] as int == t);
            assert(s2[m] == x);
        }
        if s2.contains(x) {
            let i = choose|i: int| 0 <= i < s2.len() && s2[i] == x;
            assert(k2.contains(x));
            let t = choose|t: int| 0 <= t < k1.len() && k1[t] == x;
            assert(o1.contains(t as usize));
            let m = choose|m: int| 0 <= m < o1.len() && o1[m] == t as usize;
            assert(o1[m] as int == t);
            assert(s1[m] == x);
        }
    }
    if n > 0 {
        lemma_increasing_prefix_equal(s1, s2, n - 1);
    }
    assert forall|i: int| 0 <= i < o1.len() implies #[trigger] k1[o1[i] as int] == k2[o2[i] as int] by {
        assert(s1[i] == s2[i]);
    }
}

/// Whether `a` sorts strictly before `b`.
pub fn text_less(a: &String, b: &String) -> (r: bool)
    ensures
        r == text_lt(a@, b@),
{
    let ca = chars_of(a);
    let cb = chars_of(b);
    let mut i: usize = 0;
    while i < ca.len() && i < cb.len() && ca[i] == cb[i]
        invariant
            i <= ca@.len(),
            i <= cb@.len(),
            ca@.take(i as int) == cb@.take(i as int),
        decreases ca@.len() - i,
    {
        proof {
            assert(ca@.take(i + 1) =~= ca@.take(i as int).push(ca@[i as int]));
            assert(cb@.take(i + 1) =~= cb@.take(i as int).push(cb@[i as int]));
        }
        i = i + 1;
    }
    proof {
        assert(common_prefix(ca@, cb@, i as int));
        lemma_text_lt_via_prefix(ca@, cb@, i as int);
    }
    if i == ca.len() {
        i < cb.len()
    } else if i == cb.len() {
        false
    } else {
        ca[i] < cb[i]
    }
}

/// `order` lists every index of `keys` once, arranged so that keys never
/// decrease and equal keys keep their relative order in the input: the order a
/// stable sort by key puts the items in.
pub open spec fn stable_sorted_order(keys: Seq<Seq<char>>, order: Seq<usize>) -> bool {
    &&& order.len() == keys.len()
    &&& forall|i: int| 0 <= i < order.len() ==> #[trigger] order[i] < keys.len()
    &&& forall|i: int, j: int| 0 <= i < j < order.len() ==> order[i] != order[j]
    &&& forall|t: int| 0 <= t < keys.len() ==> #[trigger] order.contains(t as usize)
    &&& forall|i: int, j: int|
        0 <= i < j < order.len() ==> !text_lt(keys[#[trigger] order[j] as int], keys[#[trigger] order[i] as int])
    &&& forall|i: int, j: int|
        0 <= i < j < order.len() && keys[#[trigger] order[i] as int] == keys[#[trigger] order[j] as int]
            ==> order[i] < order[j]
}

/// The keys' texts.
pub open spec fn key_texts(keys: Seq<String>) -> Seq<Seq<char>> {
    keys.map_values(|k: String| k@)
}

/// Positions of `keys` in the order a stable sort by key text puts them in.
pub fn stable_sort_order(keys: &Vec<String>) -> (r: Vec<usize>)
    ensures
        stable_sorted_order(key_texts(keys@), r@),
{
    let ghost ks = key_texts(keys@);
    let mut out: Vec<usize> = Vec::new();
    let mut k: usize = 0;
    while k < keys.len()
        invariant
            k <= keys@.len(),
            ks == key_texts(keys@),
            out@.len() == k,
            forall|i: int| 0 <= i < out@.len() ==> #[trigger] out@[i] < k,
            forall|i: int, j: int| 0 <= i < j < out@.len() ==> out@[i] != out@[j],
            forall|t: int| 0 <= t < k ==> #[trigger] out@.contains(t as usize),
            forall|i: int, j: int|
                0 <= i < j < out@.len() ==> !text_lt(ks[#[trigger] out@[j] as int], ks[#[trigger] out@[i] as int]),
            forall|i: int, j: int|
                0 <= i < j < out@.len() && ks[#[trigger] out@[i] as int] == ks[#[trigger] out@[j] as int]
                    ==> out@[i] < out@[j],
        decreases keys@.len() - k,
    {
        let mut pos: usize = 0;
        while pos < out.len() && !text_less(&keys[k], &keys[out[pos]])
            invariant
                pos <= out@.len(),
                k < keys@.len(),
                ks == key_texts(keys@),
                forall|i: int| 0 <= i < out@.len() ==> #[trigger] out@[i] < k,
                forall|q: int| 0 <= q < pos ==> !text_lt(ks[k as int], ks[#[trigger] out@[q] as int]),
            decreases out@.len() - pos,
        {
            pos = pos + 1;
        }
        let ghost before = out@;
        out.insert(pos, k);
        proof {
            assert(out@ == before.insert(pos as int, k));
            if pos < before.len() {
                assert(text_lt(ks[k as int], ks[before[pos as int] as int]));
                assert forall|q: int| pos <= q < before.len() implies text_lt(
                    ks[k as int],
                    ks[#[trigger] before[q] as int],
                ) by {
                    if q > pos {
                        let x = ks[before[pos as int] as int];
                        let y = ks[before[q] as int];
                        lemma_text_lt_total(x, y);
                        if x != y {
                            lemma_text_lt_transitive(ks[k as int], x, y);
                        }
                    }
                }
            }
            assert forall|i: int, j: int| 0 <= i < j < out@.len() implies !text_lt(
                ks[#[trigger] out@[j] as int],
                ks[#[trigger] out@[i] as int],
            ) by {
                if j == pos {
                    assert(out@[i] == before[i]);
                } else if i == pos {
                    assert(out@[j] == before[j - 1]);
                    lemma_text_lt_total(ks[k as int], ks[before[j - 1] as int]);
                } else {
                    let bi = if i < pos { i } else { i - 1 };
                    let bj = if j < pos { j } else { j - 1 };
                    assert(out@[i] == before[bi]);
                    assert(out@[j] == before[bj]);
                }
            }
            assert forall|i: int, j: int|
                0 <= i < j < out@.len() && ks[#[trigger] out@[i] as int] == ks[#[trigger] out@[j] as int]
                    implies out@[i] < out@[j] by {
                if j == pos {
                    assert(out@[i] == before[i]);
                } else if i == pos {
                    assert(out@[j] == before[j - 1]);
                    lemma_text_lt_total(ks[k as int], ks[k as int]);
                } else {
                    let bi = if i < pos { i } else { i - 1 };
                    let bj = if j < pos { j } else { j - 1 };
                    assert(out@[i] == before[bi]);
                    assert(out@[j] == before[bj]);
                }
            }
            assert forall|i: int, j: int| 0 <= i < j < out@.len() implies out@[i] != out@[j] by {
                if j == pos {
                    assert(out@[i] == before[i]);
                } else if i == pos {
                    assert(out@[j] == before[j - 1]);
                } else {
                    let bi = if i < pos { i } else { i - 1 };
                    let bj = if j < pos { j } else { j - 1 };
                    assert(out@[i] == before[bi]);
                    assert(out@[j] == before[bj]);
                }
            }
            assert forall|t: int| 0 <= t < k + 1 implies #[trigger] out@.contains(t as usize) by {
                if t < k {
                    assert(before.contains(t as usize));
                    let q = choose|q: int| 0 <= q < before.len() && before[q] == t as usize;
                    if q < pos {
                        assert(out@[q] == t as usize);
                    } else {
                        assert(out@[q + 1] == t as usize);
                    }
                } else {
                    assert(out@[pos as int] == k);
                }
            }
            assert forall|i: int| 0 <= i < out@.len() implies #[trigger] out@[i] < k + 1 by {
                if i < pos {
                    assert(out@[i] == before[i]);
                } else if i > pos {
                    assert(out@[i] == before[i - 1]);
                }
            }
        }
        k = k + 1;
    }
    out
}

} // verus!
