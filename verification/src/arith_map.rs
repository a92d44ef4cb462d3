//! A map from string keys to 32-bit integer values supporting elementwise
//! arithmetic. Entries are held in a vector of pairs with pairwise distinct
//! keys; the abstract value is a `Map<Seq<char>, int>`.

use vstd::prelude::*;

use crate::model::map_minus;
use crate::model::map_minus_scalar;
use crate::model::map_plus;
use crate::model::map_plus_scalar;
use crate::model::map_times_scalar;
use crate::model::pruned;

verus! {

/// The map denoted by a sequence of key-value pairs, inserted first to last:
/// when a key occurs more than once, the later value wins.
pub open spec fn assoc_map(s: Seq<(String, i32)>) -> Map<Seq<char>, int>
    decreases s.len(),
{
    if s.len() == 0 {
        Map::empty()
    } else {
        assoc_map(s.drop_last()).insert(s.last().0@, s.last().1 as int)
    }
}

/// No two pairs of the sequence share a key.
pub open spec fn distinct_keys(s: Seq<(String, i32)>) -> bool {
    forall|i: int, j: int| 0 <= i < j < s.len() ==> s[i].0@ != s[j].0@
}

/// The key of every pair of `s` is in the domain of `assoc_map(s)`.
proof fn lemma_assoc_contains(s: Seq<(String, i32)>, i: int)
    requires
        0 <= i < s.len(),
    ensures
        assoc_map(s).dom().contains(s[i].0@),
    decreases s.len(),
{
    if i < s.len() - 1 {
        lemma_assoc_contains(s.drop_last(), i);
    }
}

/// A key that no pair of `s` carries is not in the domain of `assoc_map(s)`.
proof fn lemma_assoc_absent(s: Seq<(String, i32)>, k: Seq<char>)
    requires
        forall|i: int| 0 <= i < s.len() ==> s[i].0@ != k,
    ensures
        !assoc_map(s).dom().contains(k),
    decreases s.len(),
{
    if s.len() > 0 {
        lemma_assoc_absent(s.drop_last(), k);
    }
}

/// With distinct keys, `assoc_map(s)` maps each pair's key to that pair's
/// value.
proof fn lemma_assoc_value(s: Seq<(String, i32)>, i: int)
    requires
        distinct_keys(s),
        0 <= i < s.len(),
    ensures
        assoc_map(s).dom().contains(s[i].0@),
        assoc_map(s)[s[i].0@] == s[i].1 as int,
    decreases s.len(),
{
    if i < s.len() - 1 {
        assert(s[i].0@ != s.last().0@);
        lemma_assoc_value(s.drop_last(), i);
    }
}

/// Appending a pair inserts its key-value binding into the denoted map.
proof fn lemma_assoc_push(s: Seq<(String, i32)>, p: (String, i32))
    ensures
        assoc_map(s.push(p)) == assoc_map(s).insert(p.0@, p.1 as int),
{
    assert(s.push(p).drop_last() =~= s);
}

/// Replacing the pair at `i` by one with the same key updates that key's
/// binding and nothing else, and keeps the keys distinct.
proof fn lemma_assoc_update(s: Seq<(String, i32)>, i: int, p: (String, i32))
    requires
        distinct_keys(s),
        0 <= i < s.len(),
        p.0@ == s[i].0@,
    ensures
        assoc_map(s.update(i, p)) == assoc_map(s).insert(p.0@, p.1 as int),
        distinct_keys(s.update(i, p)),
    decreases s.len(),
{
    let t = s.update(i, p);
    assert(forall|j: int| 0 <= j < s.len() ==> t[j].0@ == s[j].0@);
    if i == s.len() - 1 {
        assert(t.drop_last() =~= s.drop_last());
        assert(assoc_map(t) =~= assoc_map(s).insert(p.0@, p.1 as int));
    } else {
        assert(distinct_keys(s.drop_last()));
        lemma_assoc_update(s.drop_last(), i, p);
        assert(t.drop_last() =~= s.drop_last().update(i, p));
        assert(t.last() == s.last());
        assert(p.0@ != s.last().0@);
        assert(assoc_map(t) =~= assoc_map(s).insert(p.0@, p.1 as int));
    }
}

/// The domain of `assoc_map(s)` is exactly the set of keys carried by the
/// pairs of `s`.
proof fn lemma_assoc_dom(s: Seq<(String, i32)>)
    ensures
        forall|k: Seq<char>|
            #[trigger] assoc_map(s).dom().contains(k) <==> exists|i: int|
                0 <= i < s.len() && #[trigger] s[i].0@ == k,
    decreases s.len(),
{
    if s.len() > 0 {
        lemma_assoc_dom(s.drop_last());
        assert forall|k: Seq<char>| #[trigger] assoc_map(s).dom().contains(k) implies exists|
            i: int,
        | 0 <= i < s.len() && #[trigger] s[i].0@ == k by {
            if k == s.last().0@ {
                assert(s[s.len() - 1].0@ == k);
            } else {
                assert(assoc_map(s.drop_last()).dom().contains(k));
                let i = choose|i: int|
                    0 <= i < s.drop_last().len() && #[trigger] s.drop_last()[i].0@ == k;
                assert(s[i].0@ == k);
            }
        }
        assert forall|k: Seq<char>|
            (exists|i: int| 0 <= i < s.len() && #[trigger] s[i].0@ == k) implies #[trigger]
        assoc_map(s).dom().contains(k) by {
            let i = choose|i: int| 0 <= i < s.len() && #[trigger] s[i].0@ == k;
            if i < s.len() - 1 {
                assert(s.drop_last()[i].0@ == k);
                assert(assoc_map(s.drop_last()).dom().contains(k));
            }
        }
    }
}

/// When `s2` carries the same keys as `s1`, in the same order, with each
/// value the image under `f` of the value beside it in `s1`, the map denoted
/// by `s2` is the map denoted by `s1` with `f` applied to every value.
proof fn lemma_assoc_mapped(s1: Seq<(String, i32)>, s2: Seq<(String, i32)>, f: spec_fn(int) -> int)
    requires
        s1.len() == s2.len(),
        forall|i: int| 0 <= i < s1.len() ==> (#[trigger] s2[i]).0@ == s1[i].0@,
        forall|i: int| 0 <= i < s1.len() ==> (#[trigger] s2[i]).1 as int == f(s1[i].1 as int),
    ensures
        assoc_map(s2) == Map::new(
            |k: Seq<char>| assoc_map(s1).dom().contains(k),
            |k: Seq<char>| f(assoc_map(s1)[k]),
        ),
    decreases s1.len(),
{
    let target = Map::new(
        |k: Seq<char>| assoc_map(s1).dom().contains(k),
        |k: Seq<char>| f(assoc_map(s1)[k]),
    );
    if s1.len() == 0 {
        assert(assoc_map(s2) =~= target);
    } else {
        assert(forall|i: int|
            0 <= i < s1.len() - 1 ==> (#[trigger] s2.drop_last()[i]).0@ == s1.drop_last()[i].0@);
        assert(forall|i: int|
            0 <= i < s1.len() - 1 ==> (#[trigger] s2.drop_last()[i]).1 as int == f(
                s1.drop_last()[i].1 as int,
            ));
        lemma_assoc_mapped(s1.drop_last(), s2.drop_last(), f);
        assert(s2[s1.len() - 1].0@ == s1[s1.len() - 1].0@);
        assert(s2[s1.len() - 1].1 as int == f(s1[s1.len() - 1].1 as int));
        assert(assoc_map(s2) =~= target);
    }
}

/// A mapping from string keys to `i32` values, equipped with elementwise
/// arithmetic: scalar addition, subtraction and multiplication, map-to-map
/// addition and subtraction with union-of-keys semantics, and `prune`, which
/// drops zero-valued entries. Keys are unique; insertion order is irrelevant
/// to the abstract value.
#[derive(Debug)]
pub struct ArithMap {
    entries: Vec<(String, i32)>,
}

impl View for ArithMap {
    type V = Map<Seq<char>, int>;

    closed spec fn view(&self) -> Map<Seq<char>, int> {
        assoc_map(self.entries@)
    }
}

impl Clone for ArithMap {
    /// An equal map: the clone holds exactly the pairs of the original.
    fn clone(&self) -> (r: Self)
        ensures
            r@ == self@,
            r.wf() == self.wf(),
    {
        let mut entries: Vec<(String, i32)> = Vec::new();
        let n = self.entries.len();
        let mut i: usize = 0;
        while i < n
            invariant
                i <= n,
                n == self.entries@.len(),
                entries@ == self.entries@.take(i as int),
            decreases n - i,
        {
            let k = self.entries[i].0.clone();
            let v = self.entries[i].1;
            entries.push((k, v));
            proof {
                assert(entries@ =~= self.entries@.take(i + 1));
            }
            i += 1;
        }
        proof {
            assert(self.entries@.take(n as int) =~= self.entries@);
        }
        ArithMap { entries }
    }
}

impl Default for ArithMap {
    /// An empty map.
    fn default() -> (r: Self)
        ensures
            r.wf(),
            r@ == Map::<Seq<char>, int>::empty(),
    {
        ArithMap::new()
    }
}

impl ArithMap {
    /// The internal invariant: the stored keys are pairwise distinct.
    pub closed spec fn wf(&self) -> bool {
        distinct_keys(self.entries@)
    }

    /// An empty map.
    pub fn new() -> (r: ArithMap)
        ensures
            r.wf(),
            r@ == Map::<Seq<char>, int>::empty(),
    {
        ArithMap { entries: Vec::new() }
    }

    /// A map holding the given pairs, inserted first to last: when a key
    /// occurs more than once, the later value overwrites the earlier, as an
    /// ordinary sequence of map insertions would.
    pub fn from_pairs(pairs: Vec<(String, i32)>) -> (r: ArithMap)
        ensures
            r.wf(),
            r@ == assoc_map(pairs@),
    {
        let mut m = ArithMap::new();
        let n = pairs.len();
        let mut i: usize = 0;
        while i < n
            invariant
                i <= n,
                n == pairs@.len(),
                m.wf(),
                m@ == assoc_map(pairs@.take(i as int)),
            decreases n - i,
        {
            m.insert(pairs[i].0.as_str(), pairs[i].1);
            proof {
                assert(pairs@.take(i + 1).drop_last() =~= pairs@.take(i as int));
                assert(pairs@.take(i + 1).last() == pairs@[i as int]);
            }
            i += 1;
        }
        proof {
            assert(pairs@.take(n as int) =~= pairs@);
        }
        m
    }

    /// The index of the entry carrying `key`, if one is present.
    fn find_index(&self, key: &String) -> (r: Option<usize>)
        ensures
            match r {
                Some(i) => i < self.entries@.len() && self.entries@[i as int].0@ == key@,
                None => forall|i: int| 0 <= i < self.entries@.len() ==> self.entries@[i].0@ != key@,
            },
    {
        let n = self.entries.len();
        let mut i: usize = 0;
        while i < n
            invariant
                i <= n,
                n == self.entries@.len(),
                forall|j: int| 0 <= j < i ==> self.entries@[j].0@ != key@,
            decreases n - i,
        {
            if self.entries[i].0 == *key {
                return Some(i);
            }
            i += 1;
        }
        None
    }

    /// The value at `key`, or `None` when the key is absent: direct lookup
    /// does not default to zero.
    pub fn get(&self, key: &str) -> (r: Option<i32>)
        requires
            self.wf(),
        ensures
            match r {
                Some(v) => self@.dom().contains(key@) && v as int == self@[key@],
                None => !self@.dom().contains(key@),
            },
    {
        let k = key.to_owned();
        match self.find_index(&k) {
            Some(i) => {
                proof {
                    lemma_assoc_value(self.entries@, i as int);
                }
                Some(self.entries[i].1)
            },
            None => {
                proof {
                    lemma_assoc_absent(self.entries@, key@);
                }
                None
            },
        }
    }

    /// Binds `key` to `value`, overwriting any earlier binding of the same
    /// key.
    pub fn insert(&mut self, key: &str, value: i32)
        requires
            old(self).wf(),
        ensures
            final(self).wf(),
            final(self)@ == old(self)@.insert(key@, value as int),
    {
        let k = key.to_owned();
        match self.find_index(&k) {
            Some(i) => {
                proof {
                    lemma_assoc_update(self.entries@, i as int, (k, value));
                }
                self.entries.set(i, (k, value));
            },
            None => {
                proof {
                    lemma_assoc_push(self.entries@, (k, value));
                    assert(distinct_keys(self.entries@.push((k, value))));
                }
                self.entries.push((k, value));
            },
        }
    }

    /// Adds the scalar `s` to every value in place; no key is added or
    /// removed.
    pub fn plus_scalar_assign(&mut self, s: i32)
        requires
            old(self).wf(),
            forall|k: Seq<char>|
                #[trigger] old(self)@.dom().contains(k) ==> i32::MIN <= old(self)@[k] + s
                    <= i32::MAX,
        ensures
            final(self).wf(),
            final(self)@ == map_plus_scalar(old(self)@, s as int),
    {
        let n = self.entries.len();
        let mut i: usize = 0;
        while i < n
            invariant
                i <= n,
                n == self.entries@.len(),
                old(self).wf(),
                forall|k: Seq<char>|
                    #[trigger] old(self)@.dom().contains(k) ==> i32::MIN <= old(self)@[k] + s
                        <= i32::MAX,
                self.entries@.len() == old(self).entries@.len(),
                forall|j: int|
                    0 <= j < n ==> #[trigger] self.entries@[j].0@ == old(self).entries@[j].0@,
                forall|j: int|
                    0 <= j < i ==> #[trigger] self.entries@[j].1 as int == old(self).entries@[j].1
                        + s,
                forall|j: int| i <= j < n ==> self.entries@[j] == old(self).entries@[j],
            decreases n - i,
        {
            proof {
                let gk = old(self).entries@[i as int].0@;
                lemma_assoc_value(old(self).entries@, i as int);
                assert(old(self)@.dom().contains(gk));
                assert(i32::MIN <= old(self)@[gk] + s <= i32::MAX);
                assert(self.entries@[i as int] == old(self).entries@[i as int]);
            }
            let v = self.entries[i].1;
            let k = self.entries[i].0.clone();
            self.entries.set(i, (k, v + s));
            i += 1;
        }
        proof {
            lemma_assoc_mapped(old(self).entries@, self.entries@, |x: int| x + s as int);
            assert(distinct_keys(self.entries@));
            assert(self@ =~= map_plus_scalar(old(self)@, s as int));
        }
    }

    /// Subtracts the scalar `s` from every value in place; no key is added or
    /// removed.
    pub fn minus_scalar_assign(&mut self, s: i32)
        requires
            old(self).wf(),
            forall|k: Seq<char>|
                #[trigger] old(self)@.dom().contains(k) ==> i32::MIN <= old(self)@[k] - s
                    <= i32::MAX,
        ensures
            final(self).wf(),
            final(self)@ == map_minus_scalar(old(self)@, s as int),
    {
        let n = self.entries.len();
        let mut i: usize = 0;
        while i < n
            invariant
                i <= n,
                n == self.entries@.len(),
                old(self).wf(),
                forall|k: Seq<char>|
                    #[trigger] old(self)@.dom().contains(k) ==> i32::MIN <= old(self)@[k] - s
                        <= i32::MAX,
                self.entries@.len() == old(self).entries@.len(),
                forall|j: int|
                    0 <= j < n ==> #[trigger] self.entries@[j].0@ == old(self).entries@[j].0@,
                forall|j: int|
                    0 <= j < i ==> #[trigger] self.entries@[j].1 as int == old(self).entries@[j].1
                        - s,
                forall|j: int| i <= j < n ==> self.entries@[j] == old(self).entries@[j],
            decreases n - i,
        {
            proof {
                let gk = old(self).entries@[i as int].0@;
                lemma_assoc_value(old(self).entries@, i as int);
                assert(old(self)@.dom().contains(gk));
                assert(i32::MIN <= old(self)@[gk] - s <= i32::MAX);
                assert(self.entries@[i as int] == old(self).entries@[i as int]);
            }
            let v = self.entries[i].1;
            let k = self.entries[i].0.clone();
            self.entries.set(i, (k, v - s));
            i += 1;
        }
        proof {
            lemma_assoc_mapped(old(self).entries@, self.entries@, |x: int| x - s as int);
            assert(distinct_keys(self.entries@));
            assert(self@ =~= map_minus_scalar(old(self)@, s as int));
        }
    }

    /// Multiplies every value by the scalar `s` in place; no key is added or
    /// removed.
    pub fn times_scalar_assign(&mut self, s: i32)
        requires
            old(self).wf(),
            forall|k: Seq<char>|
                #[trigger] old(self)@.dom().contains(k) ==> i32::MIN <= old(self)@[k] * s
                    <= i32::MAX,
        ensures
            final(self).wf(),
            final(self)@ == map_times_scalar(old(self)@, s as int),
    {
        let n = self.entries.len();
        let mut i: usize = 0;
        while i < n
            invariant
                i <= n,
                n == self.entries@.len(),
                old(self).wf(),
                forall|k: Seq<char>|
                    #[trigger] old(self)@.dom().contains(k) ==> i32::MIN <= old(self)@[k] * s
                        <= i32::MAX,
                self.entries@.len() == old(self).entries@.len(),
                forall|j: int|
                    0 <= j < n ==> #[trigger] self.entries@[j].0@ == old(self).entries@[j].0@,
                forall|j: int|
                    0 <= j < i ==> #[trigger] self.entries@[j].1 as int == old(self).entries@[j].1
                        * s,
                forall|j: int| i <= j < n ==> self.entries@[j] == old(self).entries@[j],
            decreases n - i,
        {
            proof {
                let gk = old(self).entries@[i as int].0@;
                lemma_assoc_value(old(self).entries@, i as int);
                assert(old(self)@.dom().contains(gk));
                assert(i32::MIN <= old(self)@[gk] * s <= i32::MAX);
                assert(self.entries@[i as int] == old(self).entries@[i as int]);
            }
            let v = self.entries[i].1;
            let k = self.entries[i].0.clone();
            self.entries.set(i, (k, v * s));
            i += 1;
        }
        proof {
            lemma_assoc_mapped(old(self).entries@, self.entries@, |x: int| x * s as int);
            assert(distinct_keys(self.entries@));
            assert(self@ =~= map_times_scalar(old(self)@, s as int));
        }
    }

    /// A map with the scalar `s` added to every value; keys are untouched.
    pub fn plus_scalar(self, s: i32) -> (r: ArithMap)
        requires
            self.wf(),
            forall|k: Seq<char>|
                #[trigger] self@.dom().contains(k) ==> i32::MIN <= self@[k] + s <= i32::MAX,
        ensures
            r.wf(),
            r@ == map_plus_scalar(self@, s as int),
    {
        let mut m = self;
        m.plus_scalar_assign(s);
        m
    }

    /// A map with the scalar `s` subtracted from every value; keys are
    /// untouched.
    pub fn minus_scalar(self, s: i32) -> (r: ArithMap)
        requires
            self.wf(),
            forall|k: Seq<char>|
                #[trigger] self@.dom().contains(k) ==> i32::MIN <= self@[k] - s <= i32::MAX,
        ensures
            r.wf(),
            r@ == map_minus_scalar(self@, s as int),
    {
        let mut m = self;
        m.minus_scalar_assign(s);
        m
    }

    /// A map with every value multiplied by the scalar `s`; keys are
    /// untouched.
    pub fn times_scalar(self, s: i32) -> (r: ArithMap)
        requires
            self.wf(),
            forall|k: Seq<char>|
                #[trigger] self@.dom().contains(k) ==> i32::MIN <= self@[k] * s <= i32::MAX,
        ensures
            r.wf(),
            r@ == map_times_scalar(self@, s as int),
    {
        let mut m = self;
        m.times_scalar_assign(s);
        m
    }

    /// Adds `other` into `self` elementwise, in place, with union-of-keys
    /// semantics: a key absent from `self` is inserted with `other`'s value,
    /// a key absent from `other` keeps its value.
    pub fn plus_assign(&mut self, other: &ArithMap)
        requires
            old(self).wf(),
            other.wf(),
            forall|k: Seq<char>|
                old(self)@.dom().contains(k) && #[trigger] other@.dom().contains(k) ==> i32::MIN
                    <= old(self)@[k] + other@[k] <= i32::MAX,
        ensures
            final(self).wf(),
            final(self)@ == map_plus(old(self)@, other@),
    {
        let m = other.entries.len();
        let mut j: usize = 0;
        proof {
            assert(other.entries@.take(0) =~= Seq::<(String, i32)>::empty());
            assert(self@ =~= map_plus(old(self)@, assoc_map(other.entries@.take(0))));
        }
        while j < m
            invariant
                j <= m,
                m == other.entries@.len(),
                old(self).wf(),
                other.wf(),
                forall|k: Seq<char>|
                    old(self)@.dom().contains(k) && #[trigger] other@.dom().contains(k)
                        ==> i32::MIN <= old(self)@[k] + other@[k] <= i32::MAX,
                self.wf(),
                self@ == map_plus(old(self)@, assoc_map(other.entries@.take(j as int))),
            decreases m - j,
        {
            let ghost tj = assoc_map(other.entries@.take(j as int));
            let ghost kj = other.entries@[j as int].0@;
            proof {
                lemma_assoc_value(other.entries@, j as int);
                assert(forall|i: int| 0 <= i < j ==> other.entries@.take(j as int)[i].0@ != kj);
                lemma_assoc_absent(other.entries@.take(j as int), kj);
                assert(other.entries@.take(j + 1).drop_last() =~= other.entries@.take(j as int));
                assert(other.entries@.take(j + 1).last() == other.entries@[j as int]);
            }
            let v2 = other.entries[j].1;
            let key = other.entries[j].0.clone();
            match self.find_index(&key) {
                Some(i) => {
                    proof {
                        lemma_assoc_value(self.entries@, i as int);
                        assert(self@.dom().contains(kj));
                        assert(old(self)@.dom().contains(kj));
                        assert(self@[kj] == old(self)@[kj]);
                        assert(i32::MIN <= old(self)@[kj] + other@[kj] <= i32::MAX);
                    }
                    let v1 = self.entries[i].1;
                    let nv = v1 + v2;
                    proof {
                        lemma_assoc_update(self.entries@, i as int, (key, nv));
                    }
                    self.entries.set(i, (key, nv));
                },
                None => {
                    proof {
                        lemma_assoc_absent(self.entries@, kj);
                        assert(!self@.dom().contains(kj));
                        assert(!old(self)@.dom().contains(kj));
                        lemma_assoc_push(self.entries@, (key, v2));
                        assert(distinct_keys(self.entries@.push((key, v2))));
                    }
                    self.entries.push((key, v2));
                },
            }
            proof {
                assert(self@ =~= map_plus(old(self)@, assoc_map(other.entries@.take(j + 1))));
            }
            j += 1;
        }
        proof {
            assert(other.entries@.take(m as int) =~= other.entries@);
            assert(self@ == map_plus(old(self)@, other@));
        }
    }

    /// Subtracts `other` from `self` elementwise, in place, with union-of-keys
    /// semantics: a key absent from `self` is inserted with `other`'s value
    /// negated, a key absent from `other` keeps its value.
    pub fn minus_assign(&mut self, other: &ArithMap)
        requires
            old(self).wf(),
            other.wf(),
            forall|k: Seq<char>|
                old(self)@.dom().contains(k) && #[trigger] other@.dom().contains(k) ==> i32::MIN
                    <= old(self)@[k] - other@[k] <= i32::MAX,
            forall|k: Seq<char>|
                !old(self)@.dom().contains(k) && #[trigger] other@.dom().contains(k) ==> i32::MIN
                    <= 0 - other@[k] <= i32::MAX,
        ensures
            final(self).wf(),
            final(self)@ == map_minus(old(self)@, other@),
    {
        let m = other.entries.len();
        let mut j: usize = 0;
        proof {
            assert(other.entries@.take(0) =~= Seq::<(String, i32)>::empty());
            assert(self@ =~= map_minus(old(self)@, assoc_map(other.entries@.take(0))));
        }
        while j < m
            invariant
                j <= m,
                m == other.entries@.len(),
                old(self).wf(),
                other.wf(),
                forall|k: Seq<char>|
                    old(self)@.dom().contains(k) && #[trigger] other@.dom().contains(k)
                        ==> i32::MIN <= old(self)@[k] - other@[k] <= i32::MAX,
                forall|k: Seq<char>|
                    !old(self)@.dom().contains(k) && #[trigger] other@.dom().contains(k)
                        ==> i32::MIN <= 0 - other@[k] <= i32::MAX,
                self.wf(),
                self@ == map_minus(old(self)@, assoc_map(other.entries@.take(j as int))),
            decreases m - j,
        {
            let ghost tj = assoc_map(other.entries@.take(j as int));
            let ghost kj = other.entries@[j as int].0@;
            proof {
                lemma_assoc_value(other.entries@, j as int);
                assert(forall|i: int| 0 <= i < j ==> other.entries@.take(j as int)[i].0@ != kj);
                lemma_assoc_absent(other.entries@.take(j as int), kj);
                assert(other.entries@.take(j + 1).drop_last() =~= other.entries@.take(j as int));
                assert(other.entries@.take(j + 1).last() == other.entries@[j as int]);
            }
            let v2 = other.entries[j].1;
            let key = other.entries[j].0.clone();
            match self.find_index(&key) {
                Some(i) => {
                    proof {
                        lemma_assoc_value(self.entries@, i as int);
                        assert(self@.dom().contains(kj));
                        assert(old(self)@.dom().contains(kj));
                        assert(self@[kj] == old(self)@[kj]);
                        assert(i32::MIN <= old(self)@[kj] - other@[kj] <= i32::MAX);
                    }
                    let v1 = self.entries[i].1;
                    let nv = v1 - v2;
                    proof {
                        lemma_assoc_update(self.entries@, i as int, (key, nv));
                    }
                    self.entries.set(i, (key, nv));
                },
                None => {
                    proof {
                        lemma_assoc_absent(self.entries@, kj);
                        assert(!self@.dom().contains(kj));
                        assert(!old(self)@.dom().contains(kj));
                        assert(i32::MIN <= 0 - other@[kj] <= i32::MAX);
                    }
                    let nv: i32 = 0 - v2;
                    proof {
                        lemma_assoc_push(self.entries@, (key, nv));
                        assert(distinct_keys(self.entries@.push((key, nv))));
                    }
                    self.entries.push((key, nv));
                },
            }
            proof {
                assert(self@ =~= map_minus(old(self)@, assoc_map(other.entries@.take(j + 1))));
            }
            j += 1;
        }
        proof {
            assert(other.entries@.take(m as int) =~= other.entries@);
            assert(self@ == map_minus(old(self)@, other@));
        }
    }

    /// The elementwise sum of the two maps, with union-of-keys semantics: for
    /// each key of either operand the result holds the sum of the operands'
    /// values at it, a missing key counting as zero.
    pub fn plus(self, other: &ArithMap) -> (r: ArithMap)
        requires
            self.wf(),
            other.wf(),
            forall|k: Seq<char>|
                self@.dom().contains(k) && #[trigger] other@.dom().contains(k) ==> i32::MIN
                    <= self@[k] + other@[k] <= i32::MAX,
        ensures
            r.wf(),
            r@ == map_plus(self@, other@),
    {
        let mut m = self;
        m.plus_assign(other);
        m
    }

    /// The elementwise difference of the two maps, with union-of-keys
    /// semantics: for each key of either operand the result holds the
    /// difference of the operands' values at it, a missing key counting as
    /// zero.
    pub fn minus(self, other: &ArithMap) -> (r: ArithMap)
        requires
            self.wf(),
            other.wf(),
            forall|k: Seq<char>|
                self@.dom().contains(k) && #[trigger] other@.dom().contains(k) ==> i32::MIN
                    <= self@[k] - other@[k] <= i32::MAX,
            forall|k: Seq<char>|
                !self@.dom().contains(k) && #[trigger] other@.dom().contains(k) ==> i32::MIN <= 0
                    - other@[k] <= i32::MAX,
        ensures
            r.wf(),
            r@ == map_minus(self@, other@),
    {
        let mut m = self;
        m.minus_assign(other);
        m
    }

    /// Removes every entry whose value is zero; entries with a non-zero value
    /// are kept unchanged.
    pub fn prune(&mut self)
        requires
            old(self).wf(),
        ensures
            final(self).wf(),
            final(self)@ == pruned(old(self)@),
    {
        let mut kept: Vec<(String, i32)> = Vec::new();
        proof {
            assert(pruned(assoc_map(self.entries@)).union_prefer_right(assoc_map(kept@)) =~= pruned(
                old(self)@,
            ));
        }
        while self.entries.len() > 0
            invariant
                distinct_keys(self.entries@),
                distinct_keys(kept@),
                forall|a: int, b: int|
                    0 <= a < kept@.len() && 0 <= b < self.entries@.len() ==> #[trigger] kept@[a].0@
                        != #[trigger] self.entries@[b].0@,
                pruned(assoc_map(self.entries@)).union_prefer_right(assoc_map(kept@)) == pruned(
                    old(self)@,
                ),
            decreases self.entries@.len(),
        {
            let ghost s_before = self.entries@;
            let p = self.entries.pop().unwrap();
            let ghost k = p.0@;
            let ghost mprev = assoc_map(self.entries@);
            proof {
                assert(self.entries@ =~= s_before.drop_last());
                assert(assoc_map(s_before) == mprev.insert(k, p.1 as int));
                assert(forall|i: int|
                    0 <= i < self.entries@.len() ==> #[trigger] self.entries@[i].0@ != k);
                lemma_assoc_absent(self.entries@, k);
            }
            if p.1 != 0 {
                proof {
                    lemma_assoc_push(kept@, p);
                    assert(forall|a: int| 0 <= a < kept@.len() ==> #[trigger] kept@[a].0@ != k);
                    lemma_assoc_absent(kept@, k);
                    assert(distinct_keys(kept@.push(p)));
                    assert(pruned(mprev).union_prefer_right(assoc_map(kept@).insert(k, p.1 as int))
                        =~= pruned(assoc_map(s_before)).union_prefer_right(assoc_map(kept@)));
                }
                kept.push(p);
            } else {
                proof {
                    assert(pruned(mprev).union_prefer_right(assoc_map(kept@)) =~= pruned(
                        assoc_map(s_before),
                    ).union_prefer_right(assoc_map(kept@)));
                }
            }
        }
        proof {
            assert(assoc_map(kept@) =~= pruned(old(self)@));
        }
        self.entries = kept;
    }

    /// Whether the two maps hold exactly the same key-value pairs.
    pub fn equals(&self, other: &ArithMap) -> (r: bool)
        requires
            self.wf(),
            other.wf(),
        ensures
            r == (self@ == other@),
    {
        let n = self.entries.len();
        let mut i: usize = 0;
        while i < n
            invariant
                i <= n,
                n == self.entries@.len(),
                self.wf(),
                other.wf(),
                forall|j: int|
                    0 <= j < i ==> other@.dom().contains(#[trigger] self.entries@[j].0@)
                        && other@[self.entries@[j].0@] == self.entries@[j].1 as int,
            decreases n - i,
        {
            proof {
                lemma_assoc_value(self.entries@, i as int);
            }
            match other.find_index(&self.entries[i].0) {
                Some(j) => {
                    proof {
                        lemma_assoc_value(other.entries@, j as int);
                    }
                    if other.entries[j].1 != self.entries[i].1 {
                        return false;
                    }
                },
                None => {
                    proof {
                        lemma_assoc_absent(other.entries@, self.entries@[i as int].0@);
                    }
                    return false;
                },
            }
            i += 1;
        }
        let m = other.entries.len();
        let mut j: usize = 0;
        while j < m
            invariant
                j <= m,
                m == other.entries@.len(),
                self.wf(),
                other.wf(),
                forall|jj: int|
                    0 <= jj < self.entries@.len() ==> other@.dom().contains(
                        #[trigger] self.entries@[jj].0@,
                    ) && other@[self.entries@[jj].0@] == self.entries@[jj].1 as int,
                forall|jj: int|
                    0 <= jj < j ==> self@.dom().contains(#[trigger] other.entries@[jj].0@),
            decreases m - j,
        {
            match self.find_index(&other.entries[j].0) {
                Some(i2) => {
                    proof {
                        lemma_assoc_contains(self.entries@, i2 as int);
                    }
                },
                None => {
                    proof {
                        lemma_assoc_contains(other.entries@, j as int);
                        lemma_assoc_absent(self.entries@, other.entries@[j as int].0@);
                    }
                    return false;
                },
            }
            j += 1;
        }
        proof {
            lemma_assoc_dom(self.entries@);
            lemma_assoc_dom(other.entries@);
            assert forall|k: Seq<char>| #[trigger] self@.dom().contains(k) implies other@.dom().contains(
                k,
            ) && other@[k] == self@[k] by {
                let jj = choose|jj: int|
                    0 <= jj < self.entries@.len() && #[trigger] self.entries@[jj].0@ == k;
                lemma_assoc_value(self.entries@, jj);
            }
            assert forall|k: Seq<char>| #[trigger] other@.dom().contains(k) implies self@.dom().contains(
                k,
            ) by {
                let jj = choose|jj: int|
                    0 <= jj < other.entries@.len() && #[trigger] other.entries@[jj].0@ == k;
                assert(self@.dom().contains(other.entries@[jj].0@));
            }
            assert(self@ =~= other@);
        }
        true
    }
}

} // verus!
