//! An ordered map over identifier keys, iterated in ascending key order.
//!
//! Entries are kept in a vector sorted by key, so iteration order is deterministic and equals
//! the key order (as for a B-tree map).

use vstd::prelude::*;
use crate::order::CmpResult;

verus! {

/// A value that can produce an identical copy of itself.
pub trait Duplicate: Sized {
    fn duplicate(&self) -> (r: Self)
        ensures
            r == *self,
    ;
}

/// Keys with a strict total order on their views and an exact comparison.
pub trait OrdKey: View + Sized {
    spec fn key_lt(a: Self::V, b: Self::V) -> bool;

    proof fn lemma_key_irreflexive(a: Self::V)
        ensures
            !Self::key_lt(a, a),
    ;

    proof fn lemma_key_transitive(a: Self::V, b: Self::V, c: Self::V)
        requires
            Self::key_lt(a, b),
            Self::key_lt(b, c),
        ensures
            Self::key_lt(a, c),
    ;

    proof fn lemma_key_total(a: Self::V, b: Self::V)
        ensures
            a == b || Self::key_lt(a, b) || Self::key_lt(b, a),
    ;

    fn compare_key(&self, other: &Self) -> (c: CmpResult)
        ensures
            c == CmpResult::Less <==> Self::key_lt(self@, other@),
            c == CmpResult::Equal <==> self@ == other@,
            c == CmpResult::Greater <==> Self::key_lt(other@, self@),
    ;

    fn key_dup(&self) -> (r: Self)
        ensures
            r@ == self@,
    ;
}

/// Keys in strictly ascending order (hence without repetition).
pub open spec fn strictly_sorted<K: OrdKey>(s: Seq<K::V>) -> bool {
    forall|i: int, j: int| 0 <= i < j < s.len() ==> #[trigger] K::key_lt(s[i], s[j]) && #[trigger] s[j] == s[j]
}

pub proof fn lemma_sorted_distinct<K: OrdKey>(s: Seq<K::V>, i: int, j: int)
    requires
        strictly_sorted::<K>(s),
        0 <= i < s.len(),
        0 <= j < s.len(),
        i != j,
    ensures
        s[i] != s[j],
{
    if i < j {
        assert(K::key_lt(s[i], s[j]) && s[j] == s[j]);
        K::lemma_key_irreflexive(s[i]);
    } else {
        assert(K::key_lt(s[j], s[i]) && s[i] == s[i]);
        K::lemma_key_irreflexive(s[j]);
    }
}

#[derive(Debug)]
pub struct SortedMap<K: OrdKey, V> {
    keys: Vec<K>,
    vals: Vec<V>,
}

impl<K: OrdKey, V> SortedMap<K, V> {
    /// Key views in ascending order.
    pub closed spec fn keys_seq(&self) -> Seq<K::V> {
        self.keys@.map_values(|k: K| k@)
    }

    /// Values, aligned with `keys_seq`.
    pub closed spec fn vals_seq(&self) -> Seq<V> {
        self.vals@
    }

    #[verifier::type_invariant]
    pub closed spec fn well_formed(&self) -> bool {
        &&& self.keys@.len() == self.vals@.len()
        &&& strictly_sorted::<K>(self.keys_seq())
    }

    /// The map of key views to values.
    pub open spec fn view(&self) -> Map<K::V, V> {
        Map::new(
            |k: K::V| self.keys_seq().contains(k),
            |k: K::V| self.vals_seq()[self.keys_seq().index_of(k)],
        )
    }

    /// The entries are sorted by key, aligned, and agree with the map view.
    pub proof fn lemma_shape(&self)
        requires
            self.well_formed(),
        ensures
            self.keys_seq().len() == self.vals_seq().len(),
            strictly_sorted::<K>(self.keys_seq()),
            forall|i: int|
                0 <= i < self.keys_seq().len() ==> #[trigger] self@.contains_key(self.keys_seq()[i])
                    && self@[self.keys_seq()[i]] == self.vals_seq()[i],
            forall|k: K::V| #[trigger] self@.contains_key(k) <==> self.keys_seq().contains(k),
    {
        assert forall|i: int| 0 <= i < self.keys_seq().len() implies #[trigger] self@.contains_key(
            self.keys_seq()[i],
        ) && self@[self.keys_seq()[i]] == self.vals_seq()[i] by {
            let k = self.keys_seq()[i];
            assert(self.keys_seq().contains(k));
            let j = self.keys_seq().index_of(k);
            if j != i {
                lemma_sorted_distinct::<K>(self.keys_seq(), i, j);
            }
        }
    }

    pub fn new() -> (m: Self)
        ensures
            m@ == Map::<K::V, V>::empty(),
            m.keys_seq().len() == 0,
    {
        let m = SortedMap { keys: Vec::new(), vals: Vec::new() };
        assert(m.keys_seq() =~= Seq::<K::V>::empty());
        assert(m@ =~= Map::<K::V, V>::empty());
        m
    }

    pub fn len(&self) -> (n: usize)
        ensures
            n == self.keys_seq().len(),
    {
        proof {
            use_type_invariant(self);
        }
        self.keys.len()
    }

    pub fn is_empty(&self) -> (b: bool)
        ensures
            b <==> self.keys_seq().len() == 0,
    {
        self.keys.len() == 0
    }

    /// The key at position `i` in ascending order.
    pub fn key_at(&self, i: usize) -> (k: &K)
        requires
            i < self.keys_seq().len(),
        ensures
            k@ == self.keys_seq()[i as int],
    {
        &self.keys[i]
    }

    /// The value at position `i` in ascending key order.
    pub fn value_at(&self, i: usize) -> (v: &V)
        requires
            i < self.keys_seq().len(),
        ensures
            *v == self.vals_seq()[i as int],
    {
        proof {
            use_type_invariant(self);
        }
        &self.vals[i]
    }

    /// Position of `k`, or the position where it would be inserted.
    fn locate(&self, k: &K) -> (r: (bool, usize))
        ensures
            r.1 <= self.keys_seq().len(),
            r.0 ==> r.1 < self.keys_seq().len() && self.keys_seq()[r.1 as int] == k@,
            !r.0 ==> forall|i: int|
                0 <= i < self.keys_seq().len() ==> (i < r.1 ==> K::key_lt(
                    #[trigger] self.keys_seq()[i],
                    k@,
                )) && (i >= r.1 ==> K::key_lt(k@, self.keys_seq()[i])),
    {
        proof {
            use_type_invariant(self);
        }
        let n = self.keys.len();
        let mut i: usize = 0;
        while i < n
            invariant
                n == self.keys_seq().len(),
                i <= n,
                strictly_sorted::<K>(self.keys_seq()),
                forall|j: int| 0 <= j < i ==> K::key_lt(#[trigger] self.keys_seq()[j], k@),
            decreases n - i,
        {
            match self.keys[i].compare_key(k) {
                CmpResult::Less => {
                    i = i + 1;
                },
                CmpResult::Equal => {
                    return (true, i);
                },
                CmpResult::Greater => {
                    proof {
                        assert forall|j: int| 0 <= j < n && j >= i implies K::key_lt(
                            k@,
                            #[trigger] self.keys_seq()[j],
                        ) by {
                            if j > i {
                                assert(K::key_lt(self.keys_seq()[i as int], self.keys_seq()[j])
                                    && self.keys_seq()[j] == self.keys_seq()[j]);
                                K::lemma_key_transitive(
                                    k@,
                                    self.keys_seq()[i as int],
                                    self.keys_seq()[j],
                                );
                            }
                        }
                    }
                    return (false, i);
                },
            }
        }
        (false, i)
    }

    pub fn contains_key(&self, k: &K) -> (b: bool)
        ensures
            b <==> self@.contains_key(k@),
    {
        let (found, i) = self.locate(k);
        proof {
            use_type_invariant(self);
            self.lemma_shape();
            if !found && self.keys_seq().contains(k@) {
                let j = self.keys_seq().index_of(k@);
                K::lemma_key_irreflexive(k@);
            }
        }
        found
    }

    pub fn get(&self, k: &K) -> (r: Option<&V>)
        ensures
            r is Some <==> self@.contains_key(k@),
            r matches Some(v) ==> *v == self@[k@],
    {
        let (found, i) = self.locate(k);
        proof {
            use_type_invariant(self);
            self.lemma_shape();
            if !found && self.keys_seq().contains(k@) {
                let j = self.keys_seq().index_of(k@);
                K::lemma_key_irreflexive(k@);
            }
        }
        if found {
            Some(self.value_at(i))
        } else {
            None
        }
    }

    /// Inserts or replaces the value for `k`; returns the previous value if there was one.
    pub fn insert(&mut self, k: K, v: V) -> (old_v: Option<V>)
        ensures
            final(self)@ == old(self)@.insert(k@, v),
            old_v is Some <==> old(self)@.contains_key(k@),
            old_v matches Some(ov) ==> ov == old(self)@[k@],
    {
        proof {
            use_type_invariant(&*self);
            self.lemma_shape();
        }
        let (found, i) = self.locate(&k);
        let ghost old_keys = self.keys_seq();
        let ghost old_vals = self.vals_seq();
        let ghost kv = k@;
        let mut taken = SortedMap::new();
        std::mem::swap(&mut taken, self);
        let SortedMap { keys: mut keys, vals: mut vals } = taken;
        if found {
            let mut replacement = v;
            proof {
                assert(old(self)@.contains_key(kv));
            }
            std::mem::swap(&mut vals[i], &mut replacement);
            *self = SortedMap { keys, vals };
            proof {
                assert(self.keys_seq() =~= old_keys);
                assert(self.vals_seq() =~= old_vals.update(i as int, v));
                assert(strictly_sorted::<K>(self.keys_seq()));
                assert(self.well_formed());
                assert(self.well_formed());
                self.lemma_shape();
                assert(self@ =~= old(self)@.insert(kv, v)) by {
                    assert forall|key: K::V| #[trigger] self@.contains_key(key) implies self@[key]
                        == old(self)@.insert(kv, v)[key] by {
                        let j = self.keys_seq().index_of(key);
                        if j != i {
                            lemma_sorted_distinct::<K>(old_keys, i as int, j);
                        }
                    }
                }
            }
            Some(replacement)
        } else {
            keys.insert(i, k);
            vals.insert(i, v);
            proof {
                assert(keys@.map_values(|k: K| k@) =~= old_keys.insert(i as int, kv));
            }
            *self = SortedMap { keys, vals };
            proof {
                assert(self.keys_seq() =~= old_keys.insert(i as int, kv));
                assert(self.vals_seq() =~= old_vals.insert(i as int, v));
                assert forall|a: int, b: int| 0 <= a < b < self.keys_seq().len() implies
                    #[trigger] K::key_lt(self.keys_seq()[a], self.keys_seq()[b])
                    && #[trigger] self.keys_seq()[b] == self.keys_seq()[b] by {
                    if b < i {
                        assert(K::key_lt(old_keys[a], old_keys[b]) && old_keys[b] == old_keys[b]);
                    } else if b == i {
                        assert(K::key_lt(old_keys[a], kv));
                    } else if a == i {
                        assert(K::key_lt(kv, old_keys[b - 1]));
                    } else if a < i {
                        assert(K::key_lt(old_keys[a], old_keys[b - 1]) && old_keys[b - 1]
                            == old_keys[b - 1]);
                    } else {
                        assert(K::key_lt(old_keys[a - 1], old_keys[b - 1]) && old_keys[b - 1]
                            == old_keys[b - 1]);
                    }
                }
                assert(!old(self)@.contains_key(kv)) by {
                    if old_keys.contains(kv) {
                        let j = old_keys.index_of(kv);
                        K::lemma_key_irreflexive(kv);
                    }
                }
                assert(self.well_formed());
                self.lemma_shape();
                assert(self@ =~= old(self)@.insert(kv, v)) by {
                    assert forall|key: K::V| #[trigger]
                        old(self)@.insert(kv, v).contains_key(key) implies self@.contains_key(
                        key,
                    ) by {
                        if key == kv {
                            assert(self.keys_seq()[i as int] == kv);
                        } else {
                            let j = old_keys.index_of(key);
                            if j < i {
                                assert(self.keys_seq()[j] == key);
                            } else {
                                assert(self.keys_seq()[j + 1] == key);
                            }
                        }
                    }
                    assert forall|key: K::V| #[trigger] self@.contains_key(key) implies self@[key]
                        == old(self)@.insert(kv, v)[key] && old(self)@.insert(kv, v).contains_key(
                        key,
                    ) by {
                        let j = self.keys_seq().index_of(key);
                        assert(self@[self.keys_seq()[j]] == self.vals_seq()[j]);
                        if j < i {
                            assert(old_keys[j] == key);
                            lemma_sorted_distinct::<K>(self.keys_seq(), j, i as int);
                            assert(old(self)@.contains_key(old_keys[j]));
                            assert(old(self)@[old_keys[j]] == old_vals[j]);
                        } else if j > i {
                            assert(old_keys[j - 1] == key);
                            lemma_sorted_distinct::<K>(self.keys_seq(), j, i as int);
                            assert(old(self)@.contains_key(old_keys[j - 1]));
                            assert(old(self)@[old_keys[j - 1]] == old_vals[j - 1]);
                        }
                    }
                }
            }
            None
        }
    }

    /// Removes `k`; returns its value if it was present.
    pub fn remove(&mut self, k: &K) -> (old_v: Option<V>)
        ensures
            final(self)@ == old(self)@.remove(k@),
            old_v is Some <==> old(self)@.contains_key(k@),
            old_v matches Some(ov) ==> ov == old(self)@[k@],
    {
        proof {
            use_type_invariant(&*self);
            self.lemma_shape();
        }
        let (found, i) = self.locate(k);
        let ghost old_keys = self.keys_seq();
        let ghost old_vals = self.vals_seq();
        let ghost kv = k@;
        if found {
            let mut taken = SortedMap::new();
            std::mem::swap(&mut taken, self);
            let SortedMap { keys: mut keys, vals: mut vals } = taken;
            keys.remove(i);
            let removed = vals.remove(i);
            proof {
                assert(keys@.map_values(|k: K| k@) =~= old_keys.remove(i as int));
            }
            *self = SortedMap { keys, vals };
            proof {
                assert(old(self)@.contains_key(old_keys[i as int]));
                assert(old(self)@[kv] == old_vals[i as int]);
                assert(self.keys_seq() =~= old_keys.remove(i as int));
                assert(self.vals_seq() =~= old_vals.remove(i as int));
                assert forall|a: int, b: int| 0 <= a < b < self.keys_seq().len() implies
                    #[trigger] K::key_lt(self.keys_seq()[a], self.keys_seq()[b])
                    && #[trigger] self.keys_seq()[b] == self.keys_seq()[b] by {
                    let oa = if a < i { a } else { a + 1 };
                    let ob = if b < i { b } else { b + 1 };
                    assert(K::key_lt(old_keys[oa], old_keys[ob]) && old_keys[ob] == old_keys[ob]);
                }
                assert(self.well_formed());
                self.lemma_shape();
                assert(self@ =~= old(self)@.remove(kv)) by {
                    assert forall|key: K::V| #[trigger]
                        old(self)@.remove(kv).contains_key(key) implies self@.contains_key(key) by {
                        let j = old_keys.index_of(key);
                        if j < i {
                            assert(self.keys_seq()[j] == key);
                        } else {
                            if j == i {
                                assert(false);
                            }
                            assert(self.keys_seq()[j - 1] == key);
                        }
                    }
                    assert forall|key: K::V| #[trigger] self@.contains_key(key) implies self@[key]
                        == old(self)@.remove(kv)[key] && old(self)@.remove(kv).contains_key(
                        key,
                    ) by {
                        let j = self.keys_seq().index_of(key);
                        let oj = if j < i { j } else { j + 1 };
                        assert(old_keys[oj] == key);
                        lemma_sorted_distinct::<K>(old_keys, oj, i as int);
                        assert(old(self)@.contains_key(old_keys[oj]));
                        assert(old(self)@[old_keys[oj]] == old_vals[oj]);
                        assert(self@[self.keys_seq()[j]] == self.vals_seq()[j]);
                    }
                }
            }
            Some(removed)
        } else {
            proof {
                assert(!old(self)@.contains_key(kv)) by {
                    if old_keys.contains(kv) {
                        let j = old_keys.index_of(kv);
                        K::lemma_key_irreflexive(kv);
                    }
                }
                assert(old(self)@.remove(kv) =~= old(self)@);
            }
            None
        }
    }
}

impl<K: OrdKey, V> SortedMap<K, V> {
    /// The keys in ascending order.
    pub fn keys_vec(&self) -> (r: Vec<K>)
        ensures
            r@.map_values(|k: K| k@) == self.keys_seq(),
    {
        let n = self.keys.len();
        let mut r: Vec<K> = Vec::new();
        let mut i: usize = 0;
        while i < n
            invariant
                n == self.keys@.len(),
                i <= n,
                r@.map_values(|k: K| k@) =~= self.keys_seq().take(i as int),
            decreases n - i,
        {
            let ghost prev = r@.map_values(|k: K| k@);
            r.push(self.keys[i].key_dup());
            i = i + 1;
            proof {
                assert(r@.map_values(|k: K| k@) =~= prev.push(self.keys_seq()[i - 1]));
                assert(self.keys_seq().take(i as int) =~= self.keys_seq().take(i - 1).push(self.keys_seq()[i - 1]));
            }
        }
        proof {
            assert(self.keys_seq().take(n as int) =~= self.keys_seq());
        }
        r
    }
}

/// A sequence without repetition whose elements all occur in `k` is no longer than `k`.
pub proof fn lemma_distinct_within_len<T>(q: Seq<T>, k: Seq<T>)
    requires
        q.no_duplicates(),
        forall|i: int| 0 <= i < q.len() ==> k.contains(#[trigger] q[i]),
    ensures
        q.len() <= k.len(),
{
    q.unique_seq_to_set();
    k.lemma_cardinality_of_set();
    assert(q.to_set().subset_of(k.to_set())) by {
        assert forall|x: T| q.to_set().contains(x) implies k.to_set().contains(x) by {
            let i = choose|i: int| 0 <= i < q.len() && q[i] == x;
            assert(k.contains(q[i]));
        }
    }
    vstd::set_lib::lemma_len_subset(q.to_set(), k.to_set());
}

impl<K: OrdKey, V: Duplicate> SortedMap<K, V> {
    /// An identical copy: same keys, same values, same order.
    pub fn duplicate(&self) -> (r: Self)
        ensures
            r.keys_seq() == self.keys_seq(),
            r.vals_seq() == self.vals_seq(),
            r@ == self@,
    {
        proof {
            use_type_invariant(self);
        }
        let n = self.keys.len();
        let mut keys: Vec<K> = Vec::new();
        let mut vals: Vec<V> = Vec::new();
        let mut i: usize = 0;
        while i < n
            invariant
                n == self.keys@.len(),
                n == self.vals@.len(),
                i <= n,
                keys@.map_values(|k: K| k@) =~= self.keys@.take(i as int).map_values(|k: K| k@),
                vals@ =~= self.vals@.take(i as int),
            decreases n - i,
        {
            let ghost prev = keys@.map_values(|k: K| k@);
            keys.push(self.keys[i].key_dup());
            vals.push(self.vals[i].duplicate());
            i = i + 1;
            proof {
                assert(keys@.map_values(|k: K| k@) =~= prev.push(self.keys@[i - 1]@));
                assert(self.keys@.take(i as int).map_values(|k: K| k@) =~= self.keys@.take(i - 1).map_values(|k: K| k@).push(self.keys@[i - 1]@));
                assert(vals@ =~= self.vals@.take(i as int));
            }
        }
        proof {
            assert(self.keys@.take(n as int) =~= self.keys@);
            assert(vals@ =~= self.vals@);
        }
        let r = SortedMap { keys, vals };
        proof {
            assert(r.keys_seq() =~= self.keys_seq());
        }
        r
    }
}

impl<K: OrdKey, V: Duplicate> Clone for SortedMap<K, V> {
    fn clone(&self) -> (r: Self)
        ensures
            r@ == self@,
    {
        self.duplicate()
    }
}

} // verus!
