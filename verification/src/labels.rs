//! String-to-string label maps: a node's labels, and the selectors matched against them.
use vstd::prelude::*;

verus! {

/// Map that a sequence of key/value pairs builds when inserted in order:
/// a key given twice keeps its last value.
pub open spec fn pairs_to_map(s: Seq<(String, String)>) -> Map<Seq<char>, Seq<char>>
    decreases s.len(),
{
    if s.len() == 0 {
        Map::empty()
    } else {
        pairs_to_map(s.drop_last()).insert(s.last().0@, s.last().1@)
    }
}

/// No key occurs twice.
pub open spec fn keys_distinct(s: Seq<(String, String)>) -> bool {
    forall|i: int, j: int| 0 <= i < s.len() && 0 <= j < s.len() && i != j ==> s[i].0@ != s[j].0@
}

/// A set of labels (or of selector terms): each key carries one value.
#[derive(Debug)]
pub struct Labels {
    entries: Vec<(String, String)>,
}

impl View for Labels {
    type V = Map<Seq<char>, Seq<char>>;

    closed spec fn view(&self) -> Map<Seq<char>, Seq<char>> {
        pairs_to_map(self.entries@)
    }
}

/// With distinct keys, the map holds exactly the listed pairs.
proof fn lemma_distinct_pairs_map(s: Seq<(String, String)>)
    requires
        keys_distinct(s),
    ensures
        forall|k: Seq<char>|
            #[trigger] pairs_to_map(s).contains_key(k) <==> exists|i: int|
                0 <= i < s.len() && s[i].0@ == k,
        forall|i: int| 0 <= i < s.len() ==> #[trigger] pairs_to_map(s)[s[i].0@] == s[i].1@,
    decreases s.len(),
{
    if s.len() > 0 {
        let t = s.drop_last();
        assert(keys_distinct(t));
        lemma_distinct_pairs_map(t);
        assert(pairs_to_map(s) == pairs_to_map(t).insert(s.last().0@, s.last().1@));
        assert forall|k: Seq<char>|
            #[trigger] pairs_to_map(s).contains_key(k) <==> exists|i: int|
                0 <= i < s.len() && s[i].0@ == k by {
            if pairs_to_map(s).contains_key(k) && k != s.last().0@ {
                assert(pairs_to_map(t).contains_key(k));
                let i = choose|i: int| 0 <= i < t.len() && t[i].0@ == k;
                assert(s[i].0@ == k);
            }
            if exists|i: int| 0 <= i < s.len() && s[i].0@ == k {
                let i = choose|i: int| 0 <= i < s.len() && s[i].0@ == k;
                if i < s.len() - 1 {
                    assert(t[i].0@ == k);
                }
            }
        }
        assert forall|i: int| 0 <= i < s.len() implies #[trigger] pairs_to_map(s)[s[i].0@]
            == s[i].1@ by {
            if i < s.len() - 1 {
                assert(t[i] == s[i]);
                assert(s[i].0@ != s.last().0@);
            }
        }
    }
}

impl Labels {
    #[verifier::type_invariant]
    closed spec fn inv(self) -> bool {
        keys_distinct(self.entries@)
    }

    /// The labels with no entry.
    pub fn new() -> (r: Labels)
        ensures
            r@ == Map::<Seq<char>, Seq<char>>::empty(),
    {
        let r = Labels { entries: Vec::new() };
        assert(r@ =~= Map::<Seq<char>, Seq<char>>::empty());
        r
    }

    /// Index of the entry whose key is `key`, if any.
    fn find(entries: &Vec<(String, String)>, key: &String) -> (r: Option<usize>)
        ensures
            r matches Some(i) ==> i < entries.len() && entries@[i as int].0@ == key@,
            r is None ==> forall|i: int| 0 <= i < entries.len() ==> entries@[i].0@ != key@,
    {
        let mut i: usize = 0;
        while i < entries.len()
            invariant
                i <= entries.len(),
                forall|j: int| 0 <= j < i ==> entries@[j].0@ != key@,
            decreases entries.len() - i,
        {
            if entries[i].0 == *key {
                return Some(i);
            }
            i = i + 1;
        }
        None
    }

    /// Labels built from pairs in order; a key given twice keeps its last value,
    /// as inserting the pairs into a map one after another does.
    pub fn from_pairs(pairs: Vec<(String, String)>) -> (r: Labels)
        ensures
            r@ == pairs_to_map(pairs@),
    {
        let mut entries: Vec<(String, String)> = Vec::new();
        let mut n: usize = 0;
        while n < pairs.len()
            invariant
                n <= pairs.len(),
                keys_distinct(entries@),
                pairs_to_map(entries@) == pairs_to_map(pairs@.take(n as int)),
            decreases pairs.len() - n,
        {
            let (k, v) = (pairs[n].0.clone(), pairs[n].1.clone());
            let ghost before = entries@;
            assert(pairs@.take(n + 1).drop_last() =~= pairs@.take(n as int));
            match Self::find(&entries, &k) {
                Some(i) => {
                    proof {
                        lemma_distinct_pairs_map(before);
                    }
                    entries.set(i, (k, v));
                    proof {
                        assert(keys_distinct(entries@));
                        lemma_distinct_pairs_map(entries@);
                        assert(pairs_to_map(entries@) =~= pairs_to_map(before).insert(
                            k@,
                            v@,
                        )) by {
                            assert forall|key: Seq<char>| #[trigger]
                                pairs_to_map(entries@).contains_key(key)
                                    <==> pairs_to_map(before).insert(k@, v@).contains_key(
                                    key,
                                ) by {
                                if pairs_to_map(before).contains_key(key) {
                                    let j = choose|j: int|
                                        0 <= j < before.len() && before[j].0@ == key;
                                    assert(entries@[j].0@ == key);
                                }
                                if pairs_to_map(entries@).contains_key(key) {
                                    let j = choose|j: int|
                                        0 <= j < entries@.len() && entries@[j].0@ == key;
                                    assert(before[j].0@ == key);
                                }
                            }
                            assert forall|key: Seq<char>|
                                #[trigger] pairs_to_map(entries@).contains_key(key) implies
                                pairs_to_map(entries@)[key] == pairs_to_map(before).insert(
                                k@,
                                v@,
                            )[key] by {
                                let j = choose|j: int|
                                    0 <= j < entries@.len() && entries@[j].0@ == key;
                                assert(pairs_to_map(entries@)[entries@[j].0@] == entries@[j].1@);
                                if j != i {
                                    assert(pairs_to_map(before)[before[j].0@] == before[j].1@);
                                }
                            }
                        }
                    }
                },
                None => {
                    entries.push((k, v));
                    proof {
                        assert(entries@.drop_last() =~= before);
                    }
                },
            }
            n = n + 1;
        }
        assert(pairs@.take(n as int) =~= pairs@);
        Labels { entries }
    }

    /// Number of entries.
    pub fn len(&self) -> (r: usize)
        ensures
            r == self@.len(),
    {
        proof {
            use_type_invariant(self);
            lemma_distinct_pairs_map(self.entries@);
            lemma_distinct_keys_len(self.entries@);
        }
        self.entries.len()
    }

    /// The value under `key`, if there is one.
    pub fn get(&self, key: &String) -> (r: Option<&String>)
        ensures
            r matches Some(v) ==> self@.contains_key(key@) && self@[key@] == v@,
            r is None ==> !self@.contains_key(key@),
    {
        proof {
            use_type_invariant(self);
            lemma_distinct_pairs_map(self.entries@);
        }
        match Self::find(&self.entries, key) {
            Some(i) => Some(&self.entries[i].1),
            None => None,
        }
    }

    /// True when every entry of `self` is an entry of `other`, with the same value.
    pub fn is_submap_of(&self, other: &Labels) -> (r: bool)
        ensures
            r == self@.submap_of(other@),
    {
        proof {
            use_type_invariant(self);
            lemma_distinct_pairs_map(self.entries@);
        }
        let mut i: usize = 0;
        while i < self.entries.len()
            invariant
                i <= self.entries.len(),
                keys_distinct(self.entries@),
                forall|j: int|
                    0 <= j < i ==> other@.contains_key(#[trigger] self.entries@[j].0@)
                        && other@[self.entries@[j].0@] == self.entries@[j].1@,
            decreases self.entries.len() - i,
        {
            match other.get(&self.entries[i].0) {
                Some(v) => {
                    if *v != self.entries[i].1 {
                        proof {
                            lemma_distinct_pairs_map(self.entries@);
                            assert(self@.contains_key(self.entries@[i as int].0@));
                        }
                        return false;
                    }
                },
                None => {
                    proof {
                        lemma_distinct_pairs_map(self.entries@);
                        assert(self@.contains_key(self.entries@[i as int].0@));
                    }
                    return false;
                },
            }
            i = i + 1;
        }
        proof {
            assert forall|k: Seq<char>| #[trigger] self@.contains_key(k) implies other@.contains_key(
                k,
            ) && other@[k] == self@[k] by {
                let j = choose|j: int| 0 <= j < self.entries@.len() && self.entries@[j].0@ == k;
                assert(self@[self.entries@[j].0@] == self.entries@[j].1@);
            }
        }
        true
    }

    /// The entries as pairs, in the order they are held; no key occurs twice.
    pub fn to_pairs(&self) -> (r: Vec<(String, String)>)
        ensures
            keys_distinct(r@),
            pairs_to_map(r@) == self@,
    {
        proof {
            use_type_invariant(self);
        }
        let mut out: Vec<(String, String)> = Vec::new();
        let mut i: usize = 0;
        while i < self.entries.len()
            invariant
                i <= self.entries.len(),
                out@.len() == i,
                forall|j: int| 0 <= j < i ==> #[trigger] out@[j].0@ == self.entries@[j].0@ && out@[j].1@
                    == self.entries@[j].1@,
            decreases self.entries.len() - i,
        {
            out.push((self.entries[i].0.clone(), self.entries[i].1.clone()));
            i = i + 1;
        }
        proof {
            lemma_same_views_same_map(out@, self.entries@);
        }
        out
    }

    /// A copy holding the same labels.
    pub fn duplicate(&self) -> (r: Labels)
        ensures
            r@ == self@,
    {
        proof {
            use_type_invariant(self);
        }
        let pairs = self.to_pairs();
        Labels { entries: pairs }
    }
}

/// Two pair sequences that agree on every key's and value's text build the same map.
proof fn lemma_same_views_same_map(a: Seq<(String, String)>, b: Seq<(String, String)>)
    requires
        a.len() == b.len(),
        forall|j: int| 0 <= j < a.len() ==> #[trigger] a[j].0@ == b[j].0@ && a[j].1@ == b[j].1@,
    ensures
        pairs_to_map(a) == pairs_to_map(b),
        keys_distinct(b) ==> keys_distinct(a),
    decreases a.len(),
{
    if a.len() > 0 {
        lemma_same_views_same_map(a.drop_last(), b.drop_last());
    }
    if keys_distinct(b) {
        assert forall|i: int, j: int|
            0 <= i < a.len() && 0 <= j < a.len() && i != j implies a[i].0@ != a[j].0@ by {
            assert(a[i].0@ == b[i].0@);
            assert(a[j].0@ == b[j].0@);
        }
    }
}

/// With distinct keys, the map has as many keys as there are pairs.
proof fn lemma_distinct_keys_len(s: Seq<(String, String)>)
    requires
        keys_distinct(s),
    ensures
        pairs_to_map(s).dom().finite(),
        pairs_to_map(s).len() == s.len(),
    decreases s.len(),
{
    if s.len() > 0 {
        let t = s.drop_last();
        assert(keys_distinct(t));
        lemma_distinct_keys_len(t);
        lemma_distinct_pairs_map(t);
        assert(!pairs_to_map(t).contains_key(s.last().0@)) by {
            if pairs_to_map(t).contains_key(s.last().0@) {
                let i = choose|i: int| 0 <= i < t.len() && t[i].0@ == s.last().0@;
                assert(s[i].0@ == s[s.len() - 1].0@);
            }
        }
    }
}

impl Clone for Labels {
    fn clone(&self) -> (r: Labels)
        ensures
            r@ == self@,
    {
        self.duplicate()
    }
}

} // verus!
