//! A map from property names to values, kept in the order of its keys.

use vstd::prelude::*;
use crate::text::{chars_less, lemma_chars_less_irreflexive, lemma_chars_less_total, lemma_chars_less_transitive, str_equal, str_less};

verus! {

/// The map that a list of pairs describes, later pairs overriding
/// earlier ones.
pub open spec fn pairs_map(ps: Seq<(Seq<char>, Seq<char>)>) -> Map<Seq<char>, Seq<char>>
    decreases ps.len(),
{
    if ps.len() == 0 {
        Map::empty()
    } else {
        pairs_map(ps.drop_last()).insert(ps.last().0, ps.last().1)
    }
}

/// The keys of `ps` strictly increase.
pub open spec fn keys_increase(ps: Seq<(Seq<char>, Seq<char>)>) -> bool {
    forall|i: int, j: int| 0 <= i < j < ps.len() ==> chars_less(#[trigger] ps[i].0, #[trigger] ps[j].0)
}

/// A key is in the map exactly when some pair holds it.
pub proof fn lemma_pairs_map_contains(ps: Seq<(Seq<char>, Seq<char>)>, k: Seq<char>)
    ensures
        pairs_map(ps).contains_key(k) <==> exists|i: int| 0 <= i < ps.len() && #[trigger] ps[i].0 == k,
    decreases ps.len(),
{
    if ps.len() > 0 {
        lemma_pairs_map_contains(ps.drop_last(), k);
        if exists|i: int| 0 <= i < ps.len() && #[trigger] ps[i].0 == k {
            let i = choose|i: int| 0 <= i < ps.len() && #[trigger] ps[i].0 == k;
            if i < ps.len() - 1 {
                assert(ps.drop_last()[i].0 == k);
            }
        }
        if exists|i: int| 0 <= i < ps.len() - 1 && #[trigger] ps.drop_last()[i].0 == k {
            let i = choose|i: int| 0 <= i < ps.len() - 1 && #[trigger] ps.drop_last()[i].0 == k;
            assert(ps[i].0 == k);
        }
    }
}

/// With increasing keys, each pair's key maps to that pair's value.
pub proof fn lemma_pairs_map_value(ps: Seq<(Seq<char>, Seq<char>)>, i: int)
    requires
        keys_increase(ps),
        0 <= i < ps.len(),
    ensures
        pairs_map(ps).contains_key(ps[i].0),
        pairs_map(ps)[ps[i].0] == ps[i].1,
    decreases ps.len(),
{
    if i < ps.len() - 1 {
        assert(keys_increase(ps.drop_last()));
        lemma_pairs_map_value(ps.drop_last(), i);
        assert(ps.drop_last()[i] == ps[i]);
        assert(chars_less(ps[i].0, ps[ps.len() - 1].0));
        lemma_chars_less_irreflexive(ps[i].0);
    }
}

/// With increasing keys, the map has one entry per pair.
pub proof fn lemma_pairs_map_len(ps: Seq<(Seq<char>, Seq<char>)>)
    requires
        keys_increase(ps),
    ensures
        pairs_map(ps).dom().finite(),
        pairs_map(ps).len() == ps.len(),
    decreases ps.len(),
{
    if ps.len() > 0 {
        let init = ps.drop_last();
        assert(keys_increase(init));
        lemma_pairs_map_len(init);
        lemma_pairs_map_contains(init, ps.last().0);
        if pairs_map(init).contains_key(ps.last().0) {
            let i = choose|i: int| 0 <= i < init.len() && #[trigger] init[i].0 == ps.last().0;
            assert(chars_less(ps[i].0, ps[ps.len() - 1].0));
            lemma_chars_less_irreflexive(ps[i].0);
        }
    }
}

/// Two lists of pairs with increasing keys and the same pairs describe the
/// same map; stated for a list and the map it is meant to describe.
pub proof fn lemma_pairs_map_equal(ps: Seq<(Seq<char>, Seq<char>)>, m: Map<Seq<char>, Seq<char>>)
    requires
        keys_increase(ps),
        forall|k: Seq<char>| m.contains_key(k) <==> exists|i: int| 0 <= i < ps.len() && #[trigger] ps[i].0 == k,
        forall|i: int| 0 <= i < ps.len() ==> m[#[trigger] ps[i].0] == ps[i].1,
    ensures
        pairs_map(ps) == m,
{
    assert forall|k: Seq<char>| pairs_map(ps).contains_key(k) <==> m.contains_key(k) by {
        lemma_pairs_map_contains(ps, k);
    }
    assert forall|k: Seq<char>| #[trigger] pairs_map(ps).contains_key(k) implies pairs_map(ps)[k] == m[k] by {
        lemma_pairs_map_contains(ps, k);
        let i = choose|i: int| 0 <= i < ps.len() && #[trigger] ps[i].0 == k;
        lemma_pairs_map_value(ps, i);
    }
    assert(pairs_map(ps) =~= m);
}

/// Two lists of pairs with increasing keys that describe the same map are
/// the same list: the map decides the order, as it does in a sorted map.
pub proof fn law_map_decides_the_pairs(ps: Seq<(Seq<char>, Seq<char>)>, qs: Seq<(Seq<char>, Seq<char>)>)
    requires
        keys_increase(ps),
        keys_increase(qs),
        pairs_map(ps) == pairs_map(qs),
    ensures
        ps == qs,
    decreases ps.len(),
{
    lemma_pairs_map_len(ps);
    lemma_pairs_map_len(qs);
    if ps.len() > 0 {
        let n = ps.len() - 1;
        let pk = ps[n].0;
        let qk = qs[n].0;
        lemma_pairs_map_value(ps, n);
        lemma_pairs_map_value(qs, n);
        lemma_pairs_map_contains(ps, qk);
        lemma_pairs_map_contains(qs, pk);
        let a = choose|i: int| 0 <= i < ps.len() && #[trigger] ps[i].0 == qk;
        let b = choose|i: int| 0 <= i < qs.len() && #[trigger] qs[i].0 == pk;
        if pk != qk {
            assert(a < n);
            assert(b < n);
            assert(chars_less(qk, pk));
            assert(chars_less(pk, qk));
            lemma_chars_less_transitive(pk, qk, pk);
            lemma_chars_less_irreflexive(pk);
        }
        let pi = ps.drop_last();
        let qi = qs.drop_last();
        assert(keys_increase(pi));
        assert(keys_increase(qi));
        lemma_pairs_map_contains(pi, pk);
        lemma_pairs_map_contains(qi, pk);
        assert(!pairs_map(pi).contains_key(pk)) by {
            if pairs_map(pi).contains_key(pk) {
                let i = choose|i: int| 0 <= i < pi.len() && #[trigger] pi[i].0 == pk;
                assert(chars_less(ps[i].0, ps[n].0));
                lemma_chars_less_irreflexive(pk);
            }
        }
        assert(!pairs_map(qi).contains_key(pk)) by {
            if pairs_map(qi).contains_key(pk) {
                let i = choose|i: int| 0 <= i < qi.len() && #[trigger] qi[i].0 == pk;
                assert(chars_less(qs[i].0, qs[n].0));
                lemma_chars_less_irreflexive(pk);
            }
        }
        assert(pairs_map(pi) =~= pairs_map(ps).remove(pk));
        assert(pairs_map(qi) =~= pairs_map(qs).remove(pk));
        law_map_decides_the_pairs(pi, qi);
        assert(ps[n] == qs[n]);
        assert(ps =~= pi.push(ps[n]));
        assert(qs =~= qi.push(qs[n]));
    } else {
        assert(qs.len() == 0);
        assert(ps =~= qs);
    }
}

/// The characters of each name and value in `es`.
pub open spec fn entry_pairs(es: Seq<(String, String)>) -> Seq<(Seq<char>, Seq<char>)> {
    es.map_values(|e: (String, String)| (e.0@, e.1@))
}

/// Property names mapped to their values, with each name at most once.
#[derive(Debug, PartialEq, Eq)]
pub struct Properties {
    entries: Vec<(String, String)>,
}

impl Properties {
    /// The pairs in the order they are kept.
    pub closed spec fn pairs(&self) -> Seq<(Seq<char>, Seq<char>)> {
        entry_pairs(self.entries@)
    }

    #[verifier::type_invariant]
    closed spec fn ordered(&self) -> bool {
        keys_increase(self.pairs())
    }
}

impl View for Properties {
    type V = Map<Seq<char>, Seq<char>>;

    closed spec fn view(&self) -> Map<Seq<char>, Seq<char>> {
        pairs_map(self.pairs())
    }
}

impl Properties {
    /// An empty set of properties.
    pub fn new() -> (r: Properties)
        ensures
            r@ == Map::<Seq<char>, Seq<char>>::empty(),
    {
        let r = Properties { entries: Vec::new() };
        assert(r.pairs() =~= Seq::<(Seq<char>, Seq<char>)>::empty());
        r
    }

    /// The number of properties.
    pub fn len(&self) -> (r: usize)
        ensures
            self@.dom().finite(),
            r == self@.len(),
    {
        proof {
            use_type_invariant(self);
            lemma_pairs_map_len(self.pairs());
        }
        self.entries.len()
    }

    /// Whether there are no properties.
    pub fn is_empty(&self) -> (r: bool)
        ensures
            r == (self@.dom() =~= Set::<Seq<char>>::empty()),
    {
        proof {
            use_type_invariant(self);
            if self.entries.len() > 0 {
                lemma_pairs_map_value(self.pairs(), 0);
            } else {
                assert(self.pairs().len() == 0);
            }
        }
        self.entries.len() == 0
    }

    /// The position of `key` among the entries.
    fn find(&self, key: &str) -> (r: Option<usize>)
        ensures
            match r {
                Some(i) => i < self.pairs().len() && self.pairs()[i as int].0 == key@,
                None => !self@.contains_key(key@),
            },
    {
        let mut i: usize = 0;
        while i < self.entries.len()
            invariant
                0 <= i <= self.entries@.len(),
                forall|k: int| 0 <= k < i ==> self.pairs()[k].0 != key@,
            decreases self.entries@.len() - i,
        {
            if str_equal(self.entries[i].0.as_str(), key) {
                return Some(i);
            }
            i += 1;
        }
        proof {
            lemma_pairs_map_contains(self.pairs(), key@);
        }
        None
    }

    /// The value of `key`, if it is set.
    pub fn get(&self, key: &str) -> (r: Option<&String>)
        ensures
            match r {
                Some(v) => self@.contains_key(key@) && self@[key@] == v@,
                None => !self@.contains_key(key@),
            },
    {
        proof {
            use_type_invariant(self);
        }
        match self.find(key) {
            Some(i) => {
                proof {
                    lemma_pairs_map_value(self.pairs(), i as int);
                }
                Some(&self.entries[i].1)
            },
            None => None,
        }
    }

    /// Whether `key` is set.
    pub fn contains_key(&self, key: &str) -> (r: bool)
        ensures
            r == self@.contains_key(key@),
    {
        proof {
            use_type_invariant(self);
        }
        match self.find(key) {
            Some(i) => {
                proof {
                    lemma_pairs_map_value(self.pairs(), i as int);
                }
                true
            },
            None => false,
        }
    }

    /// Sets `key` to `value`, replacing any earlier value of `key`.
    pub fn insert(&mut self, key: String, value: String)
        ensures
            final(self)@ == old(self)@.insert(key@, value@),
    {
        proof {
            use_type_invariant(&*self);
        }
        let ghost old_pairs = self.pairs();
        let ghost new_map = old(self)@.insert(key@, value@);
        proof {
            assert forall|k: Seq<char>| old(self)@.contains_key(k) <==> exists|i: int|
                0 <= i < old_pairs.len() && #[trigger] old_pairs[i].0 == k by {
                lemma_pairs_map_contains(old_pairs, k);
            }
            assert forall|i: int| 0 <= i < old_pairs.len() implies old(self)@[#[trigger] old_pairs[i].0]
                == old_pairs[i].1 by {
                lemma_pairs_map_value(old_pairs, i);
            }
        }
        let mut entries: Vec<(String, String)> = Vec::new();
        std::mem::swap(&mut entries, &mut self.entries);
        let mut i: usize = 0;
        while i < entries.len()
            invariant
                0 <= i <= entries@.len(),
                entry_pairs(entries@) == old_pairs,
                keys_increase(old_pairs),
                forall|k: int| 0 <= k < i ==> chars_less(#[trigger] old_pairs[k].0, key@),
                new_map == old(self)@.insert(key@, value@),
                forall|k: Seq<char>| old(self)@.contains_key(k) <==> exists|j: int|
                    0 <= j < old_pairs.len() && #[trigger] old_pairs[j].0 == k,
                forall|j: int| 0 <= j < old_pairs.len() ==> old(self)@[#[trigger] old_pairs[j].0]
                    == old_pairs[j].1,
            decreases entries@.len() - i,
        {
            if str_equal(entries[i].0.as_str(), key.as_str()) {
                let ghost kv = (key@, value@);
                entries.set(i, (key, value));
                proof {
                    let ps = entry_pairs(entries@);
                    assert(ps =~= old_pairs.update(i as int, kv));
                    assert forall|k: int| 0 <= k < ps.len() implies #[trigger] ps[k].0 == old_pairs[k].0 by {}
                    assert(keys_increase(ps));
                    assert forall|k: Seq<char>| new_map.contains_key(k) <==> exists|j: int|
                        0 <= j < ps.len() && #[trigger] ps[j].0 == k by {
                        if k == key@ {
                            assert(ps[i as int].0 == k);
                        }
                        if exists|j: int| 0 <= j < old_pairs.len() && #[trigger] old_pairs[j].0 == k {
                            let j = choose|j: int| 0 <= j < old_pairs.len() && #[trigger] old_pairs[j].0 == k;
                            assert(ps[j].0 == k);
                        }
                        if exists|j: int| 0 <= j < ps.len() && #[trigger] ps[j].0 == k {
                            let j = choose|j: int| 0 <= j < ps.len() && #[trigger] ps[j].0 == k;
                            assert(old_pairs[j].0 == k);
                        }
                    }
                    assert forall|j: int| 0 <= j < ps.len() implies new_map[#[trigger] ps[j].0] == ps[j].1 by {
                        if j != i {
                            if j < i {
                                assert(chars_less(old_pairs[j].0, old_pairs[i as int].0));
                            } else {
                                assert(chars_less(old_pairs[i as int].0, old_pairs[j].0));
                            }
                            lemma_chars_less_irreflexive(key@);
                        }
                    }
                    lemma_pairs_map_equal(ps, new_map);
                }
                self.entries = entries;
                return;
            }
            if str_less(key.as_str(), entries[i].0.as_str()) {
                let ghost kv = (key@, value@);
                entries.insert(i, (key, value));
                proof {
                    let ps = entry_pairs(entries@);
                    assert(ps =~= old_pairs.insert(i as int, kv));
                    assert forall|a: int, b: int| 0 <= a < b < ps.len() implies chars_less(
                        #[trigger] ps[a].0,
                        #[trigger] ps[b].0,
                    ) by {
                        if b == i {
                            assert(ps[a] == old_pairs[a]);
                        } else if a == i {
                            assert(ps[b] == old_pairs[b - 1]);
                            if b - 1 > i {
                                lemma_chars_less_transitive(kv.0, old_pairs[i as int].0, old_pairs[b - 1].0);
                            }
                        } else if a < i && b > i {
                            assert(ps[a] == old_pairs[a]);
                            assert(ps[b] == old_pairs[b - 1]);
                        } else if b < i {
                            assert(ps[a] == old_pairs[a]);
                            assert(ps[b] == old_pairs[b]);
                        } else {
                            assert(ps[a] == old_pairs[a - 1]);
                            assert(ps[b] == old_pairs[b - 1]);
                        }
                    }
                    assert forall|k: int| 0 <= k < old_pairs.len() implies #[trigger] old_pairs[k].0 != key@ by {
                        if k < i {
                            lemma_chars_less_irreflexive(key@);
                        } else {
                            if k > i {
                                lemma_chars_less_transitive(key@, old_pairs[i as int].0, old_pairs[k].0);
                            }
                            lemma_chars_less_irreflexive(key@);
                        }
                    }
                    assert forall|k: Seq<char>| new_map.contains_key(k) <==> exists|j: int|
                        0 <= j < ps.len() && #[trigger] ps[j].0 == k by {
                        if k == key@ {
                            assert(ps[i as int].0 == k);
                        }
                        if exists|j: int| 0 <= j < old_pairs.len() && #[trigger] old_pairs[j].0 == k {
                            let j = choose|j: int| 0 <= j < old_pairs.len() && #[trigger] old_pairs[j].0 == k;
                            if j < i {
                                assert(ps[j].0 == k);
                            } else {
                                assert(ps[j + 1].0 == k);
                            }
                        }
                        if exists|j: int| 0 <= j < ps.len() && #[trigger] ps[j].0 == k {
                            let j = choose|j: int| 0 <= j < ps.len() && #[trigger] ps[j].0 == k;
                            if j < i {
                                assert(old_pairs[j].0 == k);
                            } else if j > i {
                                assert(old_pairs[j - 1].0 == k);
                            }
                        }
                    }
                    assert forall|j: int| 0 <= j < ps.len() implies new_map[#[trigger] ps[j].0] == ps[j].1 by {
                        if j < i {
                            assert(ps[j] == old_pairs[j]);
                        } else if j > i {
                            assert(ps[j] == old_pairs[j - 1]);
                        }
                    }
                    lemma_pairs_map_equal(ps, new_map);
                }
                self.entries = entries;
                return;
            }
            proof {
                lemma_chars_less_total(old_pairs[i as int].0, key@);
            }
            i += 1;
        }
        let ghost kv = (key@, value@);
        entries.push((key, value));
        proof {
            let ps = entry_pairs(entries@);
            assert(ps =~= old_pairs.push(kv));
            assert forall|k: Seq<char>| new_map.contains_key(k) <==> exists|j: int|
                0 <= j < ps.len() && #[trigger] ps[j].0 == k by {
                if k == key@ {
                    assert(ps[old_pairs.len() as int].0 == k);
                }
                if exists|j: int| 0 <= j < old_pairs.len() && #[trigger] old_pairs[j].0 == k {
                    let j = choose|j: int| 0 <= j < old_pairs.len() && #[trigger] old_pairs[j].0 == k;
                    assert(ps[j].0 == k);
                }
                if exists|j: int| 0 <= j < ps.len() && #[trigger] ps[j].0 == k {
                    let j = choose|j: int| 0 <= j < ps.len() && #[trigger] ps[j].0 == k;
                    if j < old_pairs.len() {
                        assert(old_pairs[j].0 == k);
                    }
                }
            }
            assert forall|k: int| 0 <= k < old_pairs.len() implies #[trigger] old_pairs[k].0 != key@ by {
                lemma_chars_less_irreflexive(key@);
            }
            lemma_pairs_map_equal(ps, new_map);
        }
        self.entries = entries;
    }

    /// Sets every property of `other` in `self`, the values of `other`
    /// replacing those already set for the same names.
    pub fn merge_from(&mut self, other: &Properties)
        ensures
            final(self)@ == old(self)@.union_prefer_right(other@),
    {
        let ghost ps = other.pairs();
        let mut i: usize = 0;
        assert(ps.take(0) =~= Seq::<(Seq<char>, Seq<char>)>::empty());
        assert(old(self)@.union_prefer_right(pairs_map(ps.take(0))) =~= old(self)@);
        while i < other.entries.len()
            invariant
                0 <= i <= other.entries@.len(),
                ps == other.pairs(),
                self@ == old(self)@.union_prefer_right(pairs_map(ps.take(i as int))),
            decreases other.entries@.len() - i,
        {
            let key = other.entries[i].0.clone();
            let value = other.entries[i].1.clone();
            let ghost before = self@;
            self.insert(key, value);
            proof {
                assert(ps.take(i + 1).drop_last() == ps.take(i as int));
                assert(ps[i as int] == (key@, value@));
                assert(self@ =~= old(self)@.union_prefer_right(pairs_map(ps.take(i + 1))));
            }
            i += 1;
        }
        assert(ps.take(i as int) == ps);
    }
}


impl Clone for Properties {
    /// A copy with the same properties, kept in the same order.
    fn clone(&self) -> (r: Self)
        ensures
            r@ == self@,
            r.pairs() == self.pairs(),
    {
        proof {
            use_type_invariant(self);
        }
        let mut entries: Vec<(String, String)> = Vec::new();
        let mut i: usize = 0;
        while i < self.entries.len()
            invariant
                0 <= i <= self.entries@.len(),
                entry_pairs(entries@) == self.pairs().take(i as int),
            decreases self.entries@.len() - i,
        {
            let key = self.entries[i].0.clone();
            let value = self.entries[i].1.clone();
            let ghost before = entry_pairs(entries@);
            entries.push((key, value));
            assert(entry_pairs(entries@) =~= before.push((key@, value@)));
            assert(self.pairs().take(i + 1) =~= self.pairs().take(i as int).push(self.pairs()[i as int]));
            i += 1;
        }
        assert(self.pairs().take(i as int) == self.pairs());
        Properties { entries }
    }
}

impl Default for Properties {
    /// No properties.
    fn default() -> (r: Self)
        ensures
            r@ == Map::<Seq<char>, Seq<char>>::empty(),
    {
        Properties::new()
    }
}
} // verus!
