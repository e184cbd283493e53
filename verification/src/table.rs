//! A map from keys to values, found by a 64-bit digest of the key.
//!
//! The entries lie in one vector; a hash index leads from a digest to the places where keys
//! with that digest lie. A table's view is the mathematical map of what it holds.
//!
//! Digests are salted: whoever does not know a table's salt does not know which keys share a
//! digest, and so cannot fill it with such. What a table holds does not depend on its salt.

use std::collections::HashMap;

use vstd::prelude::*;

verus! {

/// A key that a [`Table`] can hold. Two keys are the same when their views are.
pub trait TableKey: Sized + View {
    /// The digest, under a salt, of the key with this view.
    spec fn digest_of(key: Self::V, salt: u64) -> u64;

    /// The key's digest under a salt.
    fn digest(&self, salt: u64) -> (d: u64)
        ensures
            d == Self::digest_of(self@, salt),
    ;

    /// Are the two keys the same?
    fn same(&self, other: &Self) -> (res: bool)
        ensures
            res == (self@ == other@),
    ;
}

/// A value that grows stale, and of which the lowest-ranked leave first.
pub trait Aged: Sized {
    /// Is the value still worth keeping at `now`?
    spec fn live_at(self, now: u64) -> bool;

    /// Where the value stands in the order of eviction.
    spec fn rank(self) -> u64;

    /// Is the value still worth keeping at `now`?
    fn is_live_at(&self, now: u64) -> (res: bool)
        ensures
            res == self.live_at(now),
    ;

    /// Where the value stands in the order of eviction.
    fn eviction_rank(&self) -> (r: u64)
        ensures
            r == self.rank(),
    ;
}

/// A map from `K` to `V`.
pub struct Table<K: TableKey, V> {
    entries: Vec<(K, V)>,
    index: HashMap<u64, Vec<usize>>,
    salt: u64,
}

/// What is left of `m` once the stale entries are gone.
pub open spec fn live_part<K, V: Aged>(m: Map<K, V>, now: u64) -> Map<K, V> {
    m.restrict(Set::new(|k: K| m.contains_key(k) && m[k].live_at(now)))
}

/// `after` is `before` without `n` entries, and none that left ranks above one that stayed.
pub open spec fn evicted<K, V: Aged>(before: Map<K, V>, after: Map<K, V>, n: nat) -> bool {
    &&& after.submap_of(before)
    &&& after.dom().finite()
    &&& after.len() + n == before.len()
    &&& forall|gone: K, kept: K|
        #![trigger before.contains_key(gone), after.contains_key(kept)]
        before.contains_key(gone) && !after.contains_key(gone) && after.contains_key(kept)
            ==> before[gone].rank() <= before[kept].rank()
}

/// Is `at` one of the places that `index` lists under `d`?
pub closed spec fn listed(index: Map<u64, Vec<usize>>, d: u64, at: usize) -> bool {
    index.contains_key(d) && index[d]@.contains(at)
}

/// The map that a list of entries stands for.
spec fn entries_map<K: TableKey, V>(s: Seq<(K, V)>) -> Map<K::V, V> {
    Map::new(
        |k: K::V| exists|i: int| 0 <= i < s.len() && (#[trigger] s[i]).0@ == k,
        |k: K::V| s[choose|i: int| 0 <= i < s.len() && (#[trigger] s[i]).0@ == k].1,
    )
}

spec fn distinct_keys<K: TableKey, V>(s: Seq<(K, V)>) -> bool {
    forall|i: int, j: int|
        #![trigger s[i], s[j]]
        0 <= i < s.len() && 0 <= j < s.len() && s[i].0@ == s[j].0@ ==> i == j
}

spec fn index_fits<K: TableKey, V>(
    s: Seq<(K, V)>,
    index: Map<u64, Vec<usize>>,
    salt: u64,
) -> bool {
    forall|d: u64, at: usize| #[trigger]
        listed(index, d, at) <==> (at < s.len() && K::digest_of(s[at as int].0@, salt) == d)
}

proof fn lemma_entries_map<K: TableKey, V>(s: Seq<(K, V)>)
    requires
        distinct_keys(s),
    ensures
        forall|i: int|
            0 <= i < s.len() ==> entries_map(s).contains_key((#[trigger] s[i]).0@) && entries_map(
                s,
            )[s[i].0@] == s[i].1,
        entries_map(s).dom().finite(),
        entries_map(s).len() == s.len(),
{
    let m = entries_map(s);
    let keys = s.map_values(|e: (K, V)| e.0@);
    assert forall|i: int| 0 <= i < s.len() implies m.contains_key((#[trigger] s[i]).0@)
        && m[s[i].0@] == s[i].1 by {
        let k = s[i].0@;
        let at = choose|j: int| 0 <= j < s.len() && (#[trigger] s[j]).0@ == k;
        assert(s[at].0@ == s[i].0@);
    }
    assert(keys.no_duplicates()) by {
        assert forall|i: int, j: int|
            0 <= i < keys.len() && 0 <= j < keys.len() && i != j implies keys[i] != keys[j] by {
            let (a, b) = (s[i], s[j]);
        }
    }
    keys.unique_seq_to_set();
    vstd::seq_lib::seq_to_set_is_finite(keys);
    assert(m.dom() =~= keys.to_set()) by {
        assert forall|k: K::V| m.dom().contains(k) implies keys.to_set().contains(k) by {
            let at = choose|j: int| 0 <= j < s.len() && (#[trigger] s[j]).0@ == k;
            assert(keys[at] == k);
        }
        assert forall|k: K::V| keys.to_set().contains(k) implies m.dom().contains(k) by {
            let at = choose|j: int| 0 <= j < keys.len() && keys[j] == k;
            assert(s[at].0@ == k);
        }
    }
}

impl<K: TableKey, V> View for Table<K, V> {
    type V = Map<K::V, V>;

    closed spec fn view(&self) -> Map<K::V, V> {
        entries_map(self.entries@)
    }
}

impl<K: TableKey, V> Table<K, V> {
    /// No key lies in two places, and the index leads to every place.
    pub closed spec fn wf(&self) -> bool {
        &&& distinct_keys(self.entries@)
        &&& index_fits(self.entries@, self.index@, self.salt)
    }

    /// A table that holds nothing, without a salt: for keys that nobody chooses.
    pub fn new() -> (res: Self)
        ensures
            res.wf(),
            res@ == Map::<K::V, V>::empty(),
    {
        Table::salted(0)
    }

    /// A table that holds nothing, with a salt that those who choose its keys do not know.
    pub fn salted(salt: u64) -> (res: Self)
        ensures
            res.wf(),
            res@ == Map::<K::V, V>::empty(),
    {
        let res = Table { entries: Vec::new(), index: HashMap::new(), salt };
        assert(res@ =~= Map::<K::V, V>::empty());
        res
    }

    /// A table that holds nothing, with the salt of this one.
    pub fn emptied(&self) -> (res: Self)
        ensures
            res.wf(),
            res@ == Map::<K::V, V>::empty(),
    {
        Table::salted(self.salt)
    }

    /// How many keys the table holds.
    pub fn len(&self) -> (n: usize)
        requires
            self.wf(),
        ensures
            n == self@.len(),
            self@.dom().finite(),
    {
        proof {
            lemma_entries_map(self.entries@);
        }
        self.entries.len()
    }

    /// The keys, in the order in which they lie.
    pub closed spec fn order(&self) -> Seq<K::V> {
        self.entries@.map_values(|e: (K, V)| e.0@)
    }

    /// Every key lies in exactly one place.
    pub proof fn lemma_order(&self)
        requires
            self.wf(),
        ensures
            self.order().no_duplicates(),
            self.order().to_set() == self@.dom(),
            self.order().len() == self@.len(),
            self@.dom().finite(),
    {
        let (s, keys) = (self.entries@, self.order());
        lemma_entries_map(s);
        assert forall|i: int, j: int|
            0 <= i < keys.len() && 0 <= j < keys.len() && i != j implies keys[i] != keys[j] by {
            let (a, b) = (s[i], s[j]);
        }
        assert(keys.to_set() =~= self@.dom()) by {
            assert forall|k: K::V| self@.dom().contains(k) implies keys.to_set().contains(k) by {
                let at = choose|j: int| 0 <= j < s.len() && (#[trigger] s[j]).0@ == k;
                assert(keys[at] == k);
            }
            assert forall|k: K::V| keys.to_set().contains(k) implies self@.dom().contains(k) by {
                let at = choose|j: int| 0 <= j < keys.len() && keys[j] == k;
                assert(s[at].0@ == k);
            }
        }
    }

    /// The key that lies at `i`.
    pub fn key_at(&self, i: usize) -> (key: &K)
        requires
            self.wf(),
            i < self@.len(),
        ensures
            i < self.order().len(),
            key@ == self.order()[i as int],
    {
        proof {
            lemma_entries_map(self.entries@);
        }
        &self.entries[i].0
    }

    /// Where `key` lies.
    fn find(&self, key: &K) -> (res: Option<usize>)
        requires
            self.wf(),
        ensures
            match res {
                Some(at) => at < self.entries.len() && self.entries@[at as int].0@ == key@,
                None => !self@.contains_key(key@),
            },
    {
        let d: u64 = key.digest(self.salt);
        let n: usize = self.entries.len();
        let ghost s = self.entries@;
        match self.index.get(&d) {
            None => {
                proof {
                    assert forall|i: int| 0 <= i < s.len() implies (#[trigger] s[i]).0@ != key@ by {
                        if s[i].0@ == key@ {
                            assert(listed(self.index@, d, i as usize));
                        }
                    }
                }
                None
            },
            Some(places) => {
                let mut j: usize = 0;
                while j < places.len()
                    invariant
                        self.wf(),
                        s == self.entries@,
                        s.len() == n,
                        d == K::digest_of(key@, self.salt),
                        self.index@.contains_key(d),
                        self.index@[d] == *places,
                        forall|i: int| 0 <= i < j ==> s[#[trigger] places@[i] as int].0@ != key@,
                    decreases places.len() - j,
                {
                    let at: usize = places[j];
                    assert(places@.contains(at));
                    assert(listed(self.index@, d, at));
                    if self.entries[at].0.same(key) {
                        return Some(at);
                    }
                    j += 1;
                }
                proof {
                    assert forall|i: int| 0 <= i < s.len() implies (#[trigger] s[i]).0@ != key@ by {
                        if s[i].0@ == key@ {
                            assert(listed(self.index@, d, i as usize));
                            let j = choose|j: int|
                                0 <= j < places@.len() && places@[j] == i as usize;
                            assert(places@[j] == i);
                        }
                    }
                }
                None
            },
        }
    }

    /// Does the table hold `key`?
    pub fn contains_key(&self, key: &K) -> (res: bool)
        requires
            self.wf(),
        ensures
            res == self@.contains_key(key@),
    {
        match self.find(key) {
            Some(at) => {
                proof {
                    lemma_entries_map(self.entries@);
                    let e = self.entries@[at as int];
                }
                true
            },
            None => false,
        }
    }

    /// The value held under `key`.
    pub fn get(&self, key: &K) -> (res: Option<&V>)
        requires
            self.wf(),
        ensures
            match res {
                Some(v) => self@.contains_key(key@) && *v == self@[key@],
                None => !self@.contains_key(key@),
            },
    {
        match self.find(key) {
            Some(at) => {
                proof {
                    lemma_entries_map(self.entries@);
                    let e = self.entries@[at as int];
                }
                Some(&self.entries[at].1)
            },
            None => None,
        }
    }

    /// Adds `at` to the places listed under `d`.
    fn list(&mut self, d: u64, at: usize)
        ensures
            final(self).entries == old(self).entries,
            final(self).salt == old(self).salt,
            forall|e: u64, y: usize| #[trigger]
                listed(final(self).index@, e, y) <==> listed(old(self).index@, e, y) || (e == d && y
                    == at),
    {
        let mut places: Vec<usize> = match self.index.remove(&d) {
            Some(places) => places,
            None => Vec::new(),
        };
        let ghost before = places@;
        places.push(at);
        proof {
            assert forall|y: usize| #[trigger]
                places@.contains(y) <==> before.contains(y) || y == at by {
                if before.contains(y) {
                    let j = choose|j: int| 0 <= j < before.len() && before[j] == y;
                    assert(places@[j] == y);
                }
                assert(places@[before.len() as int] == at);
            }
        }
        let ghost added = places@;
        self.index.insert(d, places);
        proof {
            let (was, is) = (old(self).index@, self.index@);
            assert forall|e: u64, y: usize| #[trigger]
                listed(is, e, y) <==> listed(was, e, y) || (e == d && y == at) by {
                if e == d {
                    assert(is[e]@ == added);
                    if was.contains_key(d) {
                        assert(was[e]@ == before);
                    }
                } else {
                    assert(is.contains_key(e) == was.contains_key(e));
                }
            }
        }
    }

    /// Takes `at` out of the places listed under `d`.
    fn unlist(&mut self, d: u64, at: usize)
        ensures
            final(self).entries == old(self).entries,
            final(self).salt == old(self).salt,
            forall|e: u64, y: usize| #[trigger]
                listed(final(self).index@, e, y) <==> listed(old(self).index@, e, y) && !(e == d
                    && y == at),
    {
        match self.index.remove(&d) {
            Some(places) => {
                let rest = without(&places, at);
                let ghost left = rest@;
                if rest.len() > 0 {
                    self.index.insert(d, rest);
                }
                proof {
                    let (was, is) = (old(self).index@, self.index@);
                    assert(was[d]@ == places@);
                    assert forall|e: u64, y: usize| #[trigger]
                        listed(is, e, y) <==> listed(was, e, y) && !(e == d && y == at) by {
                        if e == d {
                            assert(left.contains(y) <==> places@.contains(y) && y != at);
                        } else {
                            assert(is.contains_key(e) == was.contains_key(e));
                        }
                    }
                }
            },
            None => {
                assert(self.index@ =~= old(self).index@);
            },
        }
    }

    /// Puts `value` under `key`; returns what lay there before.
    pub fn insert(&mut self, key: K, value: V) -> (res: Option<V>)
        requires
            old(self).wf(),
        ensures
            final(self).wf(),
            final(self)@ == old(self)@.insert(key@, value),
            match res {
                Some(v) => old(self)@.contains_key(key@) && v == old(self)@[key@],
                None => !old(self)@.contains_key(key@),
            },
    {
        let n: usize = self.entries.len();
        let ghost s = self.entries@;
        let ghost k = key@;
        proof {
            lemma_entries_map(s);
        }
        match self.find(&key) {
            Some(at) => {
                self.entries.push((key, value));
                let before = self.entries.swap_remove(at);
                proof {
                    let e = s[at as int];
                    let t = self.entries@;
                    assert(t.len() == s.len());
                    assert(t[at as int].0@ == k && t[at as int].1 == value);
                    assert forall|i: int| 0 <= i < s.len() && i != at implies t[i] == s[i] by {}
                    assert forall|i: int| 0 <= i < s.len() implies (#[trigger] t[i]).0@ == s[i].0@ by {}
                    assert(distinct_keys(t)) by {
                        assert forall|i: int, j: int|
                            #![trigger t[i], t[j]]
                            0 <= i < t.len() && 0 <= j < t.len() && t[i].0@ == t[j].0@ implies i
                            == j by {
                            let (a, b) = (s[i], s[j]);
                        }
                    }
                    assert(index_fits(t, self.index@, self.salt)) by {
                        assert forall|d: u64, y: usize| #[trigger]
                            listed(self.index@, d, y) <==> (y < t.len() && K::digest_of(
                                t[y as int].0@,
                                self.salt,
                            ) == d) by {
                            if y < t.len() {
                                let a = t[y as int];
                            }
                        }
                    }
                    lemma_entries_map(t);
                    assert(self@ =~= old(self)@.insert(k, value)) by {
                        assert forall|q: K::V| self@.contains_key(q) <==> old(self)@.insert(
                            k,
                            value,
                        ).contains_key(q) by {
                            if self@.contains_key(q) {
                                let i = choose|i: int| 0 <= i < t.len() && (#[trigger] t[i]).0@ == q;
                                let a = s[i];
                            }
                            if old(self)@.contains_key(q) {
                                let i = choose|i: int| 0 <= i < s.len() && (#[trigger] s[i]).0@ == q;
                                let a = t[i];
                            }
                        }
                        assert forall|q: K::V| self@.contains_key(q) implies self@[q] == old(
                            self,
                        )@.insert(k, value)[q] by {
                            let i = choose|i: int| 0 <= i < t.len() && (#[trigger] t[i]).0@ == q;
                            let a = s[i];
                            if i == at {
                            } else {
                                assert(t[i] == s[i]);
                                assert(q != k);
                            }
                        }
                    }
                }
                Some(before.1)
            },
            None => {
                let d: u64 = key.digest(self.salt);
                self.list(d, n);
                self.entries.push((key, value));
                proof {
                    let t = self.entries@;
                    assert forall|i: int| 0 <= i < s.len() implies t[i] == s[i] && (#[trigger] s[i]).0@
                        != k by {
                        assert(old(self)@.contains_key(s[i].0@));
                    }
                    assert(distinct_keys(t)) by {
                        assert forall|i: int, j: int|
                            #![trigger t[i], t[j]]
                            0 <= i < t.len() && 0 <= j < t.len() && t[i].0@ == t[j].0@ implies i
                            == j by {
                            if i < s.len() {
                                let a = s[i];
                            }
                            if j < s.len() {
                                let a = s[j];
                            }
                        }
                    }
                    assert(index_fits(t, self.index@, self.salt)) by {
                        assert forall|e: u64, y: usize| #[trigger]
                            listed(self.index@, e, y) <==> (y < t.len() && K::digest_of(
                                t[y as int].0@,
                                self.salt,
                            ) == e) by {
                            if y < s.len() {
                                assert(t[y as int] == s[y as int]);
                            }
                            assert(listed(old(self).index@, e, y) <==> (y < s.len() && K::digest_of(
                                s[y as int].0@,
                                self.salt,
                            ) == e));
                        }
                    }
                    lemma_entries_map(t);
                    assert(self@ =~= old(self)@.insert(k, value)) by {
                        assert forall|q: K::V| self@.contains_key(q) <==> old(self)@.insert(
                            k,
                            value,
                        ).contains_key(q) by {
                            if self@.contains_key(q) {
                                let i = choose|i: int| 0 <= i < t.len() && (#[trigger] t[i]).0@ == q;
                                if i < s.len() {
                                    let a = s[i];
                                }
                            }
                            if old(self)@.contains_key(q) {
                                let i = choose|i: int| 0 <= i < s.len() && (#[trigger] s[i]).0@ == q;
                                let a = t[i];
                            }
                            let a = t[s.len() as int];
                        }
                        assert forall|q: K::V| self@.contains_key(q) implies self@[q] == old(
                            self,
                        )@.insert(k, value)[q] by {
                            let i = choose|i: int| 0 <= i < t.len() && (#[trigger] t[i]).0@ == q;
                            if i < s.len() {
                                let a = s[i];
                            }
                        }
                    }
                }
                None
            },
        }
    }

    /// Takes `key` out; returns what lay under it.
    pub fn remove(&mut self, key: &K) -> (res: Option<V>)
        requires
            old(self).wf(),
        ensures
            final(self).wf(),
            final(self)@ == old(self)@.remove(key@),
            match res {
                Some(v) => old(self)@.contains_key(key@) && v == old(self)@[key@],
                None => !old(self)@.contains_key(key@),
            },
    {
        let ghost s = self.entries@;
        let ghost k = key@;
        proof {
            lemma_entries_map(s);
        }
        match self.find(key) {
            None => {
                assert(self@ =~= old(self)@.remove(k));
                None
            },
            Some(at) => {
                let last: usize = self.entries.len() - 1;
                let d: u64 = key.digest(self.salt);
                let d_last: u64 = self.entries[last].0.digest(self.salt);
                self.unlist(d, at);
                if at != last {
                    self.unlist(d_last, last);
                    self.list(d_last, at);
                }
                let gone = self.entries.swap_remove(at);
                proof {
                    let t = self.entries@;
                    let e = s[at as int];
                    assert(t.len() == last);
                    assert forall|i: int| 0 <= i < t.len() implies #[trigger] t[i] == (if i == at {
                        s[last as int]
                    } else {
                        s[i]
                    }) by {}
                    assert(distinct_keys(t)) by {
                        assert forall|i: int, j: int|
                            #![trigger t[i], t[j]]
                            0 <= i < t.len() && 0 <= j < t.len() && t[i].0@ == t[j].0@ implies i
                            == j by {
                            let (a, b, c) = (s[i], s[j], s[last as int]);
                        }
                    }
                    assert(index_fits(t, self.index@, self.salt)) by {
                        assert forall|f: u64, y: usize| #[trigger]
                            listed(self.index@, f, y) <==> (y < t.len() && K::digest_of(
                                t[y as int].0@,
                                self.salt,
                            ) == f) by {
                            assert(listed(old(self).index@, f, y) <==> (y < s.len() && K::digest_of(
                                s[y as int].0@,
                                self.salt,
                            ) == f));
                            if y < t.len() {
                                let a = t[y as int];
                            }
                        }
                    }
                    lemma_entries_map(t);
                    assert(self@ =~= old(self)@.remove(k)) by {
                        assert forall|q: K::V| self@.contains_key(q) <==> old(self)@.remove(
                            k,
                        ).contains_key(q) by {
                            if self@.contains_key(q) {
                                let i = choose|i: int| 0 <= i < t.len() && (#[trigger] t[i]).0@ == q;
                                let (a, b) = (s[i], s[last as int]);
                            }
                            if old(self)@.contains_key(q) && q != k {
                                let i = choose|i: int| 0 <= i < s.len() && (#[trigger] s[i]).0@ == q;
                                if i == last {
                                    let a = t[at as int];
                                } else {
                                    let a = t[i];
                                }
                            }
                        }
                        assert forall|q: K::V| self@.contains_key(q) implies self@[q] == old(
                            self,
                        )@.remove(k)[q] by {
                            let i = choose|i: int| 0 <= i < t.len() && (#[trigger] t[i]).0@ == q;
                            let (a, b) = (s[i], s[last as int]);
                        }
                    }
                }
                Some(gone.1)
            },
        }
    }
}

/// `v` without `x`.
fn without(v: &Vec<usize>, x: usize) -> (res: Vec<usize>)
    ensures
        forall|y: usize| #[trigger] res@.contains(y) <==> v@.contains(y) && y != x,
{
    let mut res: Vec<usize> = Vec::new();
    let mut i: usize = 0;
    while i < v.len()
        invariant
            i <= v.len(),
            forall|y: usize| #[trigger]
                res@.contains(y) <==> v@.take(i as int).contains(y) && y != x,
        decreases v.len() - i,
    {
        let ghost before = res@;
        let ghost seen = v@.take(i as int);
        if v[i] != x {
            res.push(v[i]);
        }
        proof {
            let now = v@.take(i + 1);
            assert(now =~= seen.push(v@[i as int]));
            assert forall|y: usize| #[trigger] res@.contains(y) <==> now.contains(y) && y != x by {
                if before.contains(y) {
                    let j = choose|j: int| 0 <= j < before.len() && before[j] == y;
                    assert(res@[j] == y);
                }
                if res@.contains(y) {
                    let j = choose|j: int| 0 <= j < res@.len() && res@[j] == y;
                    if j < before.len() {
                        assert(before[j] == y);
                    }
                }
                if now.contains(y) {
                    let j = choose|j: int| 0 <= j < now.len() && now[j] == y;
                    if j < i {
                        assert(seen[j] == y);
                    }
                }
                if seen.contains(y) {
                    let j = choose|j: int| 0 <= j < seen.len() && seen[j] == y;
                    assert(now[j] == y);
                }
                assert(now[i as int] == v@[i as int]);
                if v@[i as int] != x {
                    assert(res@[before.len() as int] == v@[i as int]);
                }
            }
        }
        i += 1;
    }
    assert(v@.take(i as int) =~= v@);
    res
}

/// How many of `flags` are set.
spec fn trues(flags: Seq<bool>) -> nat
    decreases flags.len(),
{
    if flags.len() == 0 {
        0
    } else {
        trues(flags.drop_last()) + if flags.last() {
            1nat
        } else {
            0nat
        }
    }
}

/// How many of `ranks` lie below `t`.
spec fn below(ranks: Seq<u64>, t: int) -> nat
    decreases ranks.len(),
{
    if ranks.len() == 0 {
        0
    } else {
        below(ranks.drop_last(), t) + if ranks.last() < t {
            1nat
        } else {
            0nat
        }
    }
}

proof fn lemma_below_all(ranks: Seq<u64>, t: int)
    requires
        t > u64::MAX,
    ensures
        below(ranks, t) == ranks.len(),
    decreases ranks.len(),
{
    if ranks.len() > 0 {
        lemma_below_all(ranks.drop_last(), t);
    }
}

proof fn lemma_below_none(ranks: Seq<u64>)
    ensures
        below(ranks, 0) == 0,
    decreases ranks.len(),
{
    if ranks.len() > 0 {
        lemma_below_none(ranks.drop_last());
    }
}

proof fn lemma_below_prefix(ranks: Seq<u64>, i: int, t: int)
    requires
        0 <= i < ranks.len(),
    ensures
        below(ranks.take(i + 1), t) == below(ranks.take(i), t) + if ranks[i] < t {
            1nat
        } else {
            0nat
        },
{
    assert(ranks.take(i + 1).drop_last() =~= ranks.take(i));
}

/// How many of `ranks` are at most `t`.
fn count_at_most(ranks: &Vec<u64>, t: u64) -> (n: usize)
    ensures
        n == below(ranks@, t + 1),
{
    let mut n: usize = 0;
    let mut i: usize = 0;
    while i < ranks.len()
        invariant
            i <= ranks.len(),
            n <= i,
            n == below(ranks@.take(i as int), t + 1),
        decreases ranks.len() - i,
    {
        proof {
            lemma_below_prefix(ranks@, i as int, t + 1);
        }
        if ranks[i] <= t {
            n += 1;
        }
        i += 1;
    }
    assert(ranks@.take(i as int) =~= ranks@);
    n
}

/// The `n`-th lowest of `ranks`, found by halving the range in which it can lie.
fn nth_lowest(ranks: &Vec<u64>, n: usize) -> (t: u64)
    requires
        0 < n <= ranks.len(),
    ensures
        below(ranks@, t as int) < n <= below(ranks@, t + 1),
{
    let mut low: u64 = 0;
    let mut high: u64 = u64::MAX;
    proof {
        lemma_below_all(ranks@, high + 1);
        lemma_below_none(ranks@);
    }
    while low < high
        invariant
            low <= high,
            below(ranks@, low as int) < n <= below(ranks@, high + 1),
        decreases high - low,
    {
        let mid: u64 = low + (high - low) / 2;
        if count_at_most(ranks, mid) >= n {
            high = mid;
        } else {
            low = mid + 1;
        }
    }
    low
}

/// Flags for the ranks that stay when the `n` lowest leave.
fn all_but_lowest(ranks: &Vec<u64>, n: usize) -> (keep: Vec<bool>)
    requires
        n <= ranks.len(),
    ensures
        keep.len() == ranks.len(),
        trues(keep@) + n == ranks.len(),
        forall|i: int, j: int|
            0 <= i < ranks.len() && 0 <= j < ranks.len() && !keep@[i] && keep@[j] ==> ranks@[i]
                <= ranks@[j],
{
    let mut keep: Vec<bool> = Vec::new();
    if n == 0 {
        let mut i: usize = 0;
        while i < ranks.len()
            invariant
                i <= ranks.len(),
                keep.len() == i,
                trues(keep@) == i,
                forall|j: int| 0 <= j < i ==> keep@[j],
            decreases ranks.len() - i,
        {
            let ghost before = keep@;
            keep.push(true);
            assert(keep@.drop_last() =~= before);
            i += 1;
        }
        return keep;
    }
    let t: u64 = nth_lowest(ranks, n);
    let at_most: usize = count_at_most(ranks, t);
    let under: usize = if t == 0 {
        0
    } else {
        count_at_most(ranks, t - 1)
    };
    proof {
        lemma_below_none(ranks@);
    }
    let quota: usize = n - under;
    let mut left: usize = quota;
    let mut i: usize = 0;
    while i < ranks.len()
        invariant
            i <= ranks.len(),
            keep.len() == i,
            left <= quota,
            quota + under == n,
            under == below(ranks@, t as int),
            at_most == below(ranks@, t + 1),
            at_most >= n,
            trues(keep@) + below(ranks@.take(i as int), t as int) + (quota - left) == i,
            left > 0 ==> quota - left == below(ranks@.take(i as int), t + 1) - below(
                ranks@.take(i as int),
                t as int,
            ),
            forall|j: int| 0 <= j < i && keep@[j] ==> ranks@[j] >= t,
            forall|j: int| 0 <= j < i && !keep@[j] ==> ranks@[j] <= t,
        decreases ranks.len() - i,
    {
        let ghost before = keep@;
        proof {
            lemma_below_prefix(ranks@, i as int, t as int);
            lemma_below_prefix(ranks@, i as int, t + 1);
        }
        let r: u64 = ranks[i];
        if r < t {
            keep.push(false);
        } else if r == t && left > 0 {
            left -= 1;
            keep.push(false);
        } else {
            keep.push(true);
        }
        assert(keep@.drop_last() =~= before);
        i += 1;
    }
    assert(ranks@.take(i as int) =~= ranks@);
    keep
}

impl<K: TableKey, V> Table<K, V> {
    /// Keeps the entries whose flag is set.
    fn keep_flagged(&mut self, keep: &Vec<bool>)
        requires
            old(self).wf(),
            keep.len() == old(self).entries.len(),
        ensures
            final(self).wf(),
            final(self)@.submap_of(old(self)@),
            final(self)@.dom().finite(),
            forall|i: int|
                0 <= i < keep.len() ==> (final(self)@.contains_key(
                    (#[trigger] old(self).entries@[i]).0@,
                ) <==> keep@[i]),
            final(self)@.len() == trues(keep@),
    {
        let ghost s = self.entries@;
        let ghost m = self@;
        proof {
            lemma_entries_map(s);
        }
        let mut entries: Vec<(K, V)> = Vec::new();
        std::mem::swap(&mut entries, &mut self.entries);
        let mut out: Table<K, V> = self.emptied();
        assert(keep@.take(entries.len() as int) =~= keep@);
        assert(out@.dom() =~= Set::<K::V>::empty());
        while entries.len() > 0
            invariant
                entries.len() <= s.len(),
                entries@ == s.take(entries.len() as int),
                keep.len() == s.len(),
                distinct_keys(s),
                m == entries_map(s),
                forall|i: int|
                    0 <= i < s.len() ==> m.contains_key((#[trigger] s[i]).0@) && m[s[i].0@]
                        == s[i].1,
                out.wf(),
                out@.submap_of(m),
                out@.dom().finite(),
                out@.len() + trues(keep@.take(entries.len() as int)) == trues(keep@),
                forall|i: int|
                    entries.len() <= i < s.len() ==> (out@.contains_key((#[trigger] s[i]).0@)
                        <==> keep@[i]),
                forall|k: K::V|
                    out@.contains_key(k) ==> exists|i: int|
                        entries.len() <= i < s.len() && (#[trigger] s[i]).0@ == k,
            decreases entries.len(),
        {
            let at: usize = entries.len() - 1;
            let ghost was = out@;
            proof {
                assert(keep@.take(at + 1).drop_last() =~= keep@.take(at as int));
                assert(s.take(at + 1).drop_last() =~= s.take(at as int));
                assert(s.take(at + 1).last() == s[at as int]);
            }
            match entries.pop() {
                Some((k, v)) => {
                    assert(k@ == s[at as int].0@ && v == s[at as int].1);
                    assert(!was.contains_key(s[at as int].0@)) by {
                        if was.contains_key(s[at as int].0@) {
                            let i = choose|i: int|
                                at + 1 <= i < s.len() && (#[trigger] s[i]).0@ == s[at as int].0@;
                            assert(s[i].0@ == s[at as int].0@);
                        }
                    }
                    if keep[at] {
                        out.insert(k, v);
                        proof {
                            assert forall|i: int| at <= i < s.len() implies (out@.contains_key(
                                (#[trigger] s[i]).0@,
                            ) <==> keep@[i]) by {
                                if i > at {
                                    assert(s[i].0@ != s[at as int].0@);
                                }
                            }
                            assert forall|q: K::V| out@.contains_key(q) implies exists|i: int|
                                at <= i < s.len() && (#[trigger] s[i]).0@ == q by {
                                if q == s[at as int].0@ {
                                } else {
                                    assert(was.contains_key(q));
                                }
                            }
                        }
                    }
                },
                None => {},
            }
        }
        assert(trues(keep@.take(0)) == 0);
        *self = out;
    }
}

impl<K: TableKey, V: Aged> Table<K, V> {
    /// Is any entry stale at `now`?
    fn has_stale(&self, now: u64) -> (res: bool)
        ensures
            res == exists|i: int|
                0 <= i < self.entries@.len() && !(#[trigger] self.entries@[i]).1.live_at(now),
    {
        let mut i: usize = 0;
        while i < self.entries.len()
            invariant
                i <= self.entries.len(),
                forall|j: int| 0 <= j < i ==> (#[trigger] self.entries@[j]).1.live_at(now),
            decreases self.entries.len() - i,
        {
            if !self.entries[i].1.is_live_at(now) {
                return true;
            }
            i += 1;
        }
        false
    }

    /// Drops the entries that are stale at `now`.
    pub fn drop_stale(&mut self, now: u64)
        requires
            old(self).wf(),
        ensures
            final(self).wf(),
            final(self)@ == live_part(old(self)@, now),
    {
        let ghost s = self.entries@;
        if !self.has_stale(now) {
            proof {
                lemma_entries_map(s);
                assert forall|k: K::V| #[trigger] self@.contains_key(k) implies self@[k].live_at(
                    now,
                ) by {
                    let i = choose|i: int| 0 <= i < s.len() && (#[trigger] s[i]).0@ == k;
                    let e = s[i];
                }
                assert(self@ =~= live_part(self@, now));
            }
            return;
        }
        let mut keep: Vec<bool> = Vec::new();
        let mut i: usize = 0;
        while i < self.entries.len()
            invariant
                i <= self.entries.len(),
                *self == *old(self),
                s == self.entries@,
                keep.len() == i,
                forall|j: int| 0 <= j < i ==> keep@[j] == (#[trigger] s[j]).1.live_at(now),
            decreases self.entries.len() - i,
        {
            keep.push(self.entries[i].1.is_live_at(now));
            i += 1;
        }
        self.keep_flagged(&keep);
        proof {
            lemma_entries_map(s);
            let (m, live) = (old(self)@, live_part(old(self)@, now));
            assert(self@ =~= live) by {
                assert forall|k: K::V| self@.contains_key(k) <==> live.contains_key(k) by {
                    if m.contains_key(k) {
                        let i = choose|i: int| 0 <= i < s.len() && (#[trigger] s[i]).0@ == k;
                        let e = s[i];
                    }
                    if self@.contains_key(k) {
                        assert(m.contains_key(k));
                    }
                }
                assert forall|k: K::V| self@.contains_key(k) implies self@[k] == live[k] by {
                    assert(m.contains_key(k) && self@[k] == m[k]);
                    assert(live.contains_key(k));
                }
            }
        }
    }

    /// Drops the `n` lowest-ranked entries.
    pub fn evict_lowest(&mut self, n: usize)
        requires
            old(self).wf(),
            n <= old(self)@.len(),
        ensures
            final(self).wf(),
            evicted(old(self)@, final(self)@, n as nat),
    {
        let ghost s = self.entries@;
        proof {
            lemma_entries_map(s);
        }
        let mut ranks: Vec<u64> = Vec::new();
        let mut i: usize = 0;
        while i < self.entries.len()
            invariant
                i <= self.entries.len(),
                *self == *old(self),
                s == self.entries@,
                ranks.len() == i,
                forall|j: int| 0 <= j < i ==> ranks@[j] == (#[trigger] s[j]).1.rank(),
            decreases self.entries.len() - i,
        {
            ranks.push(self.entries[i].1.eviction_rank());
            i += 1;
        }
        let keep = all_but_lowest(&ranks, n);
        self.keep_flagged(&keep);
        proof {
            let (m, rest) = (old(self)@, self@);
            assert forall|gone: K::V, kept: K::V|
                #![trigger m.contains_key(gone), rest.contains_key(kept)]
                m.contains_key(gone) && !rest.contains_key(gone) && rest.contains_key(
                    kept,
                ) implies m[gone].rank() <= m[kept].rank() by {
                let a = choose|i: int| 0 <= i < s.len() && (#[trigger] s[i]).0@ == gone;
                assert(m.contains_key(kept));
                let b = choose|i: int| 0 <= i < s.len() && (#[trigger] s[i]).0@ == kept;
                let (x, y) = (s[a], s[b]);
                assert(!keep@[a] && keep@[b]);
            }
        }
    }
}

} // verus!
