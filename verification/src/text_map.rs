//! A map from text to values that keeps its entries in the order in which they came.

use crate::text::{same_text, views};
use vstd::prelude::*;

verus! {

/// A type whose values stand for mathematical ones.
pub trait Model {
    type M;

    spec fn model(&self) -> Self::M;

    /// Another value that stands for the same.
    fn duplicate(&self) -> (r: Self) where Self: Sized
        ensures
            r.model() == self.model(),
    ;
}

impl Model for i64 {
    type M = int;

    open spec fn model(&self) -> int {
        *self as int
    }

    fn duplicate(&self) -> (r: i64) {
        *self
    }
}

/// The map from `keys[i]` to `values[i]`.
pub open spec fn map_of<M>(keys: Seq<Seq<char>>, values: Seq<M>) -> Map<Seq<char>, M>
    decreases keys.len(),
{
    if keys.len() == 0 {
        Map::empty()
    } else {
        map_of(keys.drop_last(), values.drop_last()).insert(keys.last(), values.last())
    }
}

pub proof fn lemma_map_of<M>(keys: Seq<Seq<char>>, values: Seq<M>)
    requires
        keys.len() == values.len(),
        keys.no_duplicates(),
    ensures
        forall|k: Seq<char>| #[trigger]
            map_of(keys, values).contains_key(k) <==> keys.contains(k),
        forall|i: int|
            0 <= i < keys.len() ==> map_of(keys, values)[#[trigger] keys[i]] == values[i],
        forall|i: int|
            0 <= i < keys.len() ==> map_of(keys, values).contains_key(#[trigger] keys[i]),
    decreases keys.len(),
{
    if keys.len() > 0 {
        let k0 = keys.drop_last();
        let v0 = values.drop_last();
        lemma_map_of(k0, v0);
        let m = map_of(keys, values);
        assert forall|i: int| 0 <= i < keys.len() implies m[#[trigger] keys[i]] == values[i]
            && m.contains_key(keys[i]) by {
            if i < k0.len() {
                assert(k0[i] == keys[i]);
                assert(keys[i] != keys.last());
            }
        }
        assert forall|k: Seq<char>| #[trigger] m.contains_key(k) <==> keys.contains(k) by {
            if m.contains_key(k) && k != keys.last() {
                assert(map_of(k0, v0).contains_key(k));
                assert(k0.contains(k));
                let i = choose|i: int| 0 <= i < k0.len() && k0[i] == k;
                assert(keys[i] == k);
            }
            if keys.contains(k) {
                let i = choose|i: int| 0 <= i < keys.len() && keys[i] == k;
                assert(m.contains_key(keys[i]));
            }
        }
    }
}

/// One more entry of a map.
pub proof fn lemma_map_of_push<M>(keys: Seq<Seq<char>>, values: Seq<M>, k: Seq<char>, v: M)
    ensures
        map_of(keys.push(k), values.push(v)) == map_of(keys, values).insert(k, v),
{
    assert(keys.push(k).drop_last() =~= keys);
    assert(values.push(v).drop_last() =~= values);
}

/// The entries up to one more.
pub proof fn lemma_map_of_take<M>(keys: Seq<Seq<char>>, values: Seq<M>, i: int)
    requires
        keys.len() == values.len(),
        0 <= i < keys.len(),
        keys.no_duplicates(),
    ensures
        map_of(keys.take(i + 1), values.take(i + 1)) == map_of(
            keys.take(i),
            values.take(i),
        ).insert(keys[i], values[i]),
        !map_of(keys.take(i), values.take(i)).contains_key(keys[i]),
{
    assert(keys.take(i + 1) =~= keys.take(i).push(keys[i]));
    assert(values.take(i + 1) =~= values.take(i).push(values[i]));
    lemma_map_of_push(keys.take(i), values.take(i), keys[i], values[i]);
    lemma_map_of(keys.take(i), values.take(i));
    if keys.take(i).contains(keys[i]) {
        let j = choose|j: int| 0 <= j < i && keys.take(i)[j] == keys[i];
        assert(keys[j] == keys[i]);
    }
}

/// A new value for one entry.
pub proof fn lemma_map_of_update<M>(keys: Seq<Seq<char>>, values: Seq<M>, i: int, v: M)
    requires
        keys.len() == values.len(),
        keys.no_duplicates(),
        0 <= i < keys.len(),
    ensures
        map_of(keys, values.update(i, v)) == map_of(keys, values).insert(keys[i], v),
{
    lemma_map_of(keys, values);
    lemma_map_of(keys, values.update(i, v));
    let a = map_of(keys, values.update(i, v));
    let b = map_of(keys, values).insert(keys[i], v);
    assert forall|k: Seq<char>| a.contains_key(k) implies a[k] == b[k] by {
        let j = choose|j: int| 0 <= j < keys.len() && keys[j] == k;
        assert(a[keys[j]] == values.update(i, v)[j]);
    }
    assert(a =~= b);
}

/// The keys after an entry with the key `k` is set.
pub open spec fn keys_with(keys: Seq<Seq<char>>, k: Seq<char>) -> Seq<Seq<char>> {
    if keys.contains(k) {
        keys
    } else {
        keys.push(k)
    }
}

/// The values after the entry with the key `k` is set to `v`.
pub open spec fn values_with<M>(
    keys: Seq<Seq<char>>,
    values: Seq<M>,
    k: Seq<char>,
    v: M,
) -> Seq<M> {
    if keys.contains(k) {
        values.update(keys.index_of(k), v)
    } else {
        values.push(v)
    }
}

/// The models of a sequence of values.
pub open spec fn models<V: Model>(s: Seq<V>) -> Seq<V::M> {
    s.map_values(|v: V| v.model())
}

/// A map from text to values. No two entries have the same key.
pub struct TextMap<V: Model> {
    names: Vec<String>,
    items: Vec<V>,
}

impl<V: Model> TextMap<V> {
    #[verifier::type_invariant]
    spec fn inv(self) -> bool {
        &&& self.names@.len() == self.items@.len()
        &&& views(self.names@).no_duplicates()
    }

    /// The keys, in the order of the entries.
    pub closed spec fn keys(self) -> Seq<Seq<char>> {
        views(self.names@)
    }

    /// The values themselves, in the order of the entries.
    pub closed spec fn entries(self) -> Seq<V> {
        self.items@
    }

    /// What the values stand for, in the order of the entries.
    pub closed spec fn values(self) -> Seq<V::M> {
        models(self.items@)
    }

    /// What the map holds.
    pub open spec fn map(self) -> Map<Seq<char>, V::M> {
        map_of(self.keys(), self.values())
    }

    /// The value of the entry with the key `key`.
    pub open spec fn lookup(self, key: Seq<char>) -> Option<V> {
        if self.keys().contains(key) {
            Some(self.entries()[self.keys().index_of(key)])
        } else {
            None
        }
    }

    /// Whether the keys differ from each other and there is one value for each.
    pub open spec fn wf(self) -> bool {
        &&& self.keys().no_duplicates()
        &&& self.keys().len() == self.values().len()
        &&& self.values() == models(self.entries())
    }

    /// An empty map.
    pub fn new() -> (r: Self)
        ensures
            r.wf(),
            r.keys() == Seq::<Seq<char>>::empty(),
            r.values() == Seq::<V::M>::empty(),
            r.map() == Map::<Seq<char>, V::M>::empty(),
    {
        TextMap { names: Vec::new(), items: Vec::new() }
    }

    /// The number of entries.
    pub fn len(&self) -> (r: usize)
        ensures
            r == self.keys().len(),
            r == self.map().dom().len(),
            self.map().dom().finite(),
            self.wf(),
    {
        proof {
            use_type_invariant(self);
            lemma_map_of(self.keys(), self.values());
            assert(self.map().dom() =~= self.keys().to_set());
            self.keys().unique_seq_to_set();
        }
        self.names.len()
    }

    /// Whether there is no entry.
    pub fn is_empty(&self) -> (r: bool)
        ensures
            r == (self.map() == Map::<Seq<char>, V::M>::empty()),
            r == (self.keys().len() == 0),
            self.wf(),
    {
        let n = self.len();
        proof {
            lemma_map_of(self.keys(), self.values());
            if n > 0 {
                assert(self.map().contains_key(self.keys()[0]));
            }
        }
        n == 0
    }

    /// The key of the entry at index `i`.
    pub fn key_at(&self, i: usize) -> (r: &String)
        requires
            i < self.keys().len(),
        ensures
            r@ == self.keys()[i as int],
            self.wf(),
    {
        proof {
            use_type_invariant(self);
        }
        &self.names[i]
    }

    /// The value of the entry at index `i`.
    pub fn value_at(&self, i: usize) -> (r: &V)
        requires
            i < self.keys().len(),
        ensures
            *r == self.entries()[i as int],
            r.model() == self.values()[i as int],
            r.model() == self.map()[self.keys()[i as int]],
            self.wf(),
    {
        proof {
            use_type_invariant(self);
            lemma_map_of(self.keys(), self.values());
        }
        &self.items[i]
    }

    /// The index of the entry with the key `key`.
    pub fn position(&self, key: &str) -> (r: Option<usize>)
        ensures
            match r {
                Some(i) => i < self.keys().len() && self.keys()[i as int] == key@
                    && self.map().contains_key(key@),
                None => !self.keys().contains(key@) && !self.map().contains_key(key@),
            },
            self.wf(),
    {
        proof {
            use_type_invariant(self);
            lemma_map_of(self.keys(), self.values());
        }
        for i in 0..self.names.len()
            invariant
                self.wf(),
                self.keys().len() == self.names@.len(),
                forall|k: Seq<char>| #[trigger]
                    self.map().contains_key(k) <==> self.keys().contains(k),
                forall|j: int| 0 <= j < i ==> self.keys()[j] != key@,
        {
            assert(self.keys()[i as int] == self.names@[i as int]@);
            if same_text(self.names[i].as_str(), key) {
                assert(self.keys().contains(key@));
                return Some(i);
            }
        }
        None
    }

    /// Whether there is an entry with the key `key`.
    pub fn contains_key(&self, key: &str) -> (r: bool)
        ensures
            r == self.map().contains_key(key@),
    {
        self.position(key).is_some()
    }

    /// The value of the entry with the key `key`.
    pub fn get(&self, key: &str) -> (r: Option<&V>)
        ensures
            match r {
                Some(v) => self.map().contains_key(key@) && v.model() == self.map()[key@]
                    && self.lookup(key@) == Some(*v),
                None => !self.map().contains_key(key@) && self.lookup(key@) is None,
            },
            self.wf(),
    {
        match self.position(key) {
            Some(i) => {
                assert(self.keys().contains(key@));
                assert(self.keys().index_of(key@) == i);
                Some(self.value_at(i))
            },
            None => None,
        }
    }

    /// Adds an entry at the end.
    fn push(&mut self, key: String, v: V)
        requires
            !old(self).keys().contains(key@),
        ensures
            final(self).wf(),
            final(self).keys() == old(self).keys().push(key@),
            final(self).values() == old(self).values().push(v.model()),
    {
        proof {
            use_type_invariant(&*self);
        }
        let mut whole = TextMap { names: Vec::new(), items: Vec::new() };
        std::mem::swap(&mut whole, self);
        let mut names = whole.names;
        let mut items = whole.items;
        names.push(key);
        items.push(v);
        assert(views(names@) =~= old(self).keys().push(key@));
        *self = TextMap { names, items };
        assert(self.keys() =~= old(self).keys().push(key@));
        assert(self.values() =~= old(self).values().push(v.model()));
    }

    /// The value at index `i`, to change.
    fn slot(&mut self, i: usize) -> (r: &mut V)
        requires
            i < old(self).keys().len(),
        ensures
            r.model() == old(self).values()[i as int],
            final(self).keys() == old(self).keys(),
            final(self).values() == old(self).values().update(i as int, final(r).model()),
    {
        proof {
            use_type_invariant(&*self);
        }
        &mut self.items[i]
    }

    /// The value of the entry with the key `key`, to change; where there is no such entry, one
    /// with the value `first` comes in at the end.
    pub fn entry(&mut self, key: &str, first: V) -> (r: &mut V)
        ensures
            r.model() == if old(self).map().contains_key(key@) {
                old(self).map()[key@]
            } else {
                first.model()
            },
            final(self).map() == old(self).map().insert(key@, final(r).model()),
    {
        match self.position(key) {
            Some(i) => {
                proof {
                    lemma_map_of(self.keys(), self.values());
                    assert forall|v: V::M| #[trigger]
                        map_of(self.keys(), self.values().update(i as int, v)) == self.map().insert(
                            key@,
                            v,
                        ) by {
                        lemma_map_of_update(self.keys(), self.values(), i as int, v);
                    }
                }
                self.slot(i)
            },
            None => {
                let n: usize = self.len();
                let ghost before = *self;
                self.push(key.to_owned(), first);
                proof {
                    lemma_map_of(self.keys(), self.values());
                    lemma_map_of_push(before.keys(), before.values(), key@, first.model());
                    assert(self.keys()[n as int] == key@);
                    assert forall|v: V::M| #[trigger]
                        map_of(self.keys(), self.values().update(n as int, v))
                            == before.map().insert(key@, v) by {
                        lemma_map_of_update(self.keys(), self.values(), n as int, v);
                        assert(before.map().insert(key@, first.model()).insert(key@, v)
                            =~= before.map().insert(key@, v));
                    }
                }
                self.slot(n)
            },
        }
    }

    /// Sets the value of the entry with the key `key`.
    pub fn insert(&mut self, key: String, v: V)
        ensures
            final(self).wf(),
            final(self).map() == old(self).map().insert(key@, v.model()),
            final(self).keys() == keys_with(old(self).keys(), key@),
            final(self).values() == values_with(
                old(self).keys(),
                old(self).values(),
                key@,
                v.model(),
            ),
    {
        match self.position(key.as_str()) {
            Some(i) => {
                proof {
                    assert(self.keys().contains(key@));
                    assert(self.keys().index_of(key@) == i);
                    lemma_map_of_update(self.keys(), self.values(), i as int, v.model());
                }
                let slot = self.slot(i);
                *slot = v;
            },
            None => {
                proof {
                    lemma_map_of_push(self.keys(), self.values(), key@, v.model());
                }
                self.push(key, v);
            },
        }
    }

    /// A map with the same entries in the same order.
    pub fn duplicate(&self) -> (r: Self)
        ensures
            r.keys() == self.keys(),
            r.values() == self.values(),
            r.wf(),
    {
        let n: usize = self.len();
        let mut out: TextMap<V> = TextMap::new();
        for i in 0..n
            invariant
                n == self.keys().len(),
                self.wf(),
                out.wf(),
                out.keys() == self.keys().take(i as int),
                out.values() == self.values().take(i as int),
        {
            proof {
                if self.keys().take(i as int).contains(self.keys()[i as int]) {
                    let j = choose|j: int|
                        0 <= j < i && self.keys().take(i as int)[j] == self.keys()[i as int];
                    assert(self.keys()[j] == self.keys()[i as int]);
                }
            }
            out.push(self.key_at(i).clone(), self.value_at(i).duplicate());
            assert(out.keys() =~= self.keys().take(i as int + 1));
            assert(out.values() =~= self.values().take(i as int + 1));
        }
        assert(self.keys().take(n as int) =~= self.keys());
        assert(self.values().take(n as int) =~= self.values());
        out
    }

    /// Takes every entry away.
    pub fn clear(&mut self)
        ensures
            final(self).wf(),
            final(self).map() == Map::<Seq<char>, V::M>::empty(),
    {
        *self = TextMap::new();
    }
}

// ---------------------------------------------------------------------------
// Counters
// ---------------------------------------------------------------------------

/// The count under `k`, zero where there is none.
pub open spec fn count_of(m: Map<Seq<char>, int>, k: Seq<char>) -> int {
    if m.contains_key(k) {
        m[k]
    } else {
        0
    }
}

/// The sums of two maps of counts, key by key.
pub open spec fn plus(m: Map<Seq<char>, int>, d: Map<Seq<char>, int>) -> Map<Seq<char>, int> {
    Map::new(
        |k: Seq<char>| m.contains_key(k) || d.contains_key(k),
        |k: Seq<char>| count_of(m, k) + count_of(d, k),
    )
}

/// The entries with a count above zero.
pub open spec fn positive(d: Map<Seq<char>, int>) -> Map<Seq<char>, int> {
    Map::new(|k: Seq<char>| d.contains_key(k) && d[k] > 0, |k: Seq<char>| d[k])
}

pub open spec fn fits(n: int) -> bool {
    i64::MIN <= n <= i64::MAX
}

/// Every sum of the two maps is an `i64`.
pub open spec fn sums_fit(m: Map<Seq<char>, int>, d: Map<Seq<char>, int>) -> bool {
    forall|k: Seq<char>| #[trigger] d.contains_key(k) ==> fits(count_of(m, k) + d[k])
}

/// The sum of a sequence of numbers.
pub open spec fn sum(s: Seq<int>) -> int
    decreases s.len(),
{
    if s.len() == 0 {
        0
    } else {
        sum(s.drop_last()) + s.last()
    }
}

/// The sum of all counts of a finite map.
pub open spec fn map_sum(m: Map<Seq<char>, int>) -> int
    decreases m.dom().len(),
    when m.dom().finite()
{
    if m.dom().len() == 0 {
        0
    } else {
        let k = m.dom().choose();
        m[k] + map_sum(m.remove(k))
    }
}

/// The sum does not depend on which count is taken first.
proof fn lemma_sum_remove(m: Map<Seq<char>, int>, k: Seq<char>)
    requires
        m.dom().finite(),
        m.contains_key(k),
    ensures
        map_sum(m) == m[k] + map_sum(m.remove(k)),
    decreases m.dom().len(),
{
    let c = m.dom().choose();
    assert(m.dom().contains(k));
    if c != k {
        let without_c = m.remove(c);
        let without_k = m.remove(k);
        lemma_sum_remove(without_c, k);
        lemma_sum_remove(without_k, c);
        assert(without_c.remove(k) =~= without_k.remove(c));
    }
}

/// A new count takes the place of the old one in the sum.
pub proof fn lemma_sum_insert(m: Map<Seq<char>, int>, k: Seq<char>, v: int)
    requires
        m.dom().finite(),
    ensures
        map_sum(m.insert(k, v)) == map_sum(m) - count_of(m, k) + v,
        m.insert(k, v).dom().finite(),
{
    let n = m.insert(k, v);
    lemma_sum_remove(n, k);
    if m.contains_key(k) {
        lemma_sum_remove(m, k);
        assert(n.remove(k) =~= m.remove(k));
    } else {
        assert(n.remove(k) =~= m);
    }
}

/// The sum of every beginning of the sequence is an `i64`.
pub open spec fn running_sums_fit(s: Seq<int>) -> bool {
    forall|i: int| 0 <= i <= s.len() ==> fits(#[trigger] sum(s.take(i)))
}

pub proof fn lemma_plus_insert(
    m: Map<Seq<char>, int>,
    d: Map<Seq<char>, int>,
    k: Seq<char>,
    v: int,
)
    requires
        !d.contains_key(k),
    ensures
        plus(m, d.insert(k, v)) == plus(m, d).insert(k, count_of(m, k) + v),
        count_of(plus(m, d), k) == count_of(m, k),
{
    assert(plus(m, d.insert(k, v)) =~= plus(m, d).insert(k, count_of(m, k) + v));
}

pub proof fn lemma_plus_empty(m: Map<Seq<char>, int>)
    ensures
        plus(m, Map::empty()) == m,
{
    assert(plus(m, Map::empty()) =~= m);
}

/// The sum of the sums of two maps is the sum of both.
pub proof fn lemma_sum_plus(m: Map<Seq<char>, int>, d: Map<Seq<char>, int>)
    requires
        m.dom().finite(),
        d.dom().finite(),
    ensures
        map_sum(plus(m, d)) == map_sum(m) + map_sum(d),
        plus(m, d).dom().finite(),
    decreases d.dom().len(),
{
    if d.dom().len() == 0 {
        assert(d =~= Map::empty());
        lemma_plus_empty(m);
    } else {
        let k = d.dom().choose();
        let rest = d.remove(k);
        lemma_sum_plus(m, rest);
        lemma_plus_insert(m, rest, k, d[k]);
        assert(rest.insert(k, d[k]) =~= d);
        lemma_sum_insert(plus(m, rest), k, count_of(m, k) + d[k]);
    }
}

/// Whether the sum of two numbers is an `i64`.
pub fn sum_fits(a: i64, b: i64) -> (r: bool)
    ensures
        r == fits(a + b),
{
    a.checked_add(b).is_some()
}

impl TextMap<i64> {
    /// The count under `key`, zero where there is none.
    pub fn count(&self, key: &str) -> (r: i64)
        ensures
            r == count_of(self.map(), key@),
    {
        match self.get(key) {
            Some(v) => *v,
            None => 0,
        }
    }

    /// Adds `n` to the count under `key`.
    pub fn add_count(&mut self, key: &str, n: i64)
        requires
            fits(count_of(old(self).map(), key@) + n),
        ensures
            final(self).map() == old(self).map().insert(key@, count_of(old(self).map(), key@) + n),
    {
        let slot = self.entry(key, 0);
        *slot = *slot + n;
    }

    /// Whether every sum of the counts here and in `d` is an `i64`.
    pub fn sums_fit(&self, d: &TextMap<i64>) -> (r: bool)
        ensures
            r == sums_fit(self.map(), d.map()),
    {
        let n: usize = d.len();
        proof {
            lemma_map_of(d.keys(), d.values());
        }
        for i in 0..n
            invariant
                n == d.keys().len(),
                d.wf(),
                forall|j: int|
                    0 <= j < n ==> d.map().contains_key(#[trigger] d.keys()[j]) && d.map()[d.keys()[j]]
                        == d.values()[j],
                forall|j: int|
                    0 <= j < i ==> fits(
                        count_of(self.map(), #[trigger] d.keys()[j]) + d.values()[j],
                    ),
        {
            let k = d.key_at(i);
            let v = *d.value_at(i);
            if !sum_fits(self.count(k.as_str()), v) {
                assert(d.map().contains_key(d.keys()[i as int]));
                return false;
            }
        }
        assert forall|k: Seq<char>| #[trigger] d.map().contains_key(k) implies fits(
            count_of(self.map(), k) + d.map()[k],
        ) by {
            let j = choose|j: int| 0 <= j < n && d.keys()[j] == k;
            assert(d.map()[d.keys()[j]] == d.values()[j]);
        }
        true
    }

    /// Adds every count in `d`.
    pub fn add_counts(&mut self, d: &TextMap<i64>)
        requires
            sums_fit(old(self).map(), d.map()),
        ensures
            final(self).map() == plus(old(self).map(), d.map()),
    {
        let n: usize = d.len();
        let ghost start = self.map();
        proof {
            lemma_map_of(d.keys(), d.values());
            assert(d.keys().take(0) =~= Seq::<Seq<char>>::empty());
            lemma_plus_empty(start);
        }
        for i in 0..n
            invariant
                n == d.keys().len(),
                d.wf(),
                sums_fit(start, d.map()),
                forall|j: int|
                    0 <= j < n ==> d.map().contains_key(#[trigger] d.keys()[j]) && d.map()[d.keys()[j]]
                        == d.values()[j],
                self.map() == plus(
                    start,
                    map_of(d.keys().take(i as int), d.values().take(i as int)),
                ),
        {
            let k = d.key_at(i);
            let v = *d.value_at(i);
            proof {
                assert(d.map().contains_key(d.keys()[i as int]));
                lemma_map_of_take(d.keys(), d.values(), i as int);
                lemma_plus_insert(
                    start,
                    map_of(d.keys().take(i as int), d.values().take(i as int)),
                    k@,
                    v as int,
                );
            }
            self.add_count(k.as_str(), v);
        }
        assert(d.keys().take(n as int) =~= d.keys());
        assert(d.values().take(n as int) =~= d.values());
    }

    /// Whether every sum of the counts here and of those in `d` above zero is an `i64`.
    pub fn positive_sums_fit(&self, d: &TextMap<i64>) -> (r: bool)
        ensures
            r == sums_fit(self.map(), positive(d.map())),
    {
        let n: usize = d.len();
        proof {
            lemma_map_of(d.keys(), d.values());
        }
        for i in 0..n
            invariant
                n == d.keys().len(),
                d.wf(),
                forall|j: int|
                    0 <= j < n ==> d.map().contains_key(#[trigger] d.keys()[j]) && d.map()[d.keys()[j]]
                        == d.values()[j],
                forall|j: int|
                    0 <= j < i && d.values()[j] > 0 ==> fits(
                        count_of(self.map(), #[trigger] d.keys()[j]) + d.values()[j],
                    ),
        {
            let k = d.key_at(i);
            let v = *d.value_at(i);
            if v > 0 && !sum_fits(self.count(k.as_str()), v) {
                assert(d.map().contains_key(d.keys()[i as int]));
                assert(positive(d.map()).contains_key(k@));
                return false;
            }
        }
        assert forall|k: Seq<char>| #[trigger] positive(d.map()).contains_key(k) implies fits(
            count_of(self.map(), k) + positive(d.map())[k],
        ) by {
            assert(d.map().contains_key(k));
            let j = choose|j: int| 0 <= j < n && d.keys()[j] == k;
            assert(d.map()[d.keys()[j]] == d.values()[j]);
        }
        true
    }

    /// Adds every count in `d` that is above zero.
    pub fn add_positive(&mut self, d: &TextMap<i64>)
        requires
            sums_fit(old(self).map(), positive(d.map())),
        ensures
            final(self).map() == plus(old(self).map(), positive(d.map())),
    {
        let n: usize = d.len();
        let ghost start = self.map();
        proof {
            lemma_map_of(d.keys(), d.values());
            assert(d.keys().take(0) =~= Seq::<Seq<char>>::empty());
            assert(positive(Map::empty()) =~= Map::<Seq<char>, int>::empty());
            lemma_plus_empty(start);
        }
        for i in 0..n
            invariant
                n == d.keys().len(),
                d.wf(),
                sums_fit(start, positive(d.map())),
                forall|j: int|
                    0 <= j < n ==> d.map().contains_key(#[trigger] d.keys()[j]) && d.map()[d.keys()[j]]
                        == d.values()[j],
                self.map() == plus(
                    start,
                    positive(map_of(d.keys().take(i as int), d.values().take(i as int))),
                ),
        {
            let k = d.key_at(i);
            let v = *d.value_at(i);
            let ghost part = map_of(d.keys().take(i as int), d.values().take(i as int));
            proof {
                assert(d.map().contains_key(d.keys()[i as int]));
                lemma_map_of_take(d.keys(), d.values(), i as int);
                if v > 0 {
                    assert(positive(d.map()).contains_key(k@));
                    assert(positive(part.insert(k@, v as int)) =~= positive(part).insert(
                        k@,
                        v as int,
                    ));
                    lemma_plus_insert(start, positive(part), k@, v as int);
                } else {
                    assert(positive(part.insert(k@, v as int)) =~= positive(part));
                }
            }
            if v > 0 {
                self.add_count(k.as_str(), v);
            }
        }
        assert(d.keys().take(n as int) =~= d.keys());
        assert(d.values().take(n as int) =~= d.values());
    }

    /// The sum of all counts, if every sum on the way is an `i64`.
    pub fn checked_total(&self) -> (r: Option<i64>)
        ensures
            match r {
                Some(t) => running_sums_fit(self.values()) && t == sum(self.values()) && t
                    == map_sum(self.map()),
                None => !running_sums_fit(self.values()),
            },
    {
        let n: usize = self.len();
        let ghost all = self.values();
        let mut t: i64 = 0;
        for i in 0..n
            invariant
                n == all.len(),
                all == self.values(),
                self.wf(),
                t == sum(all.take(i as int)),
                forall|j: int| 0 <= j <= i ==> fits(#[trigger] sum(all.take(j))),
        {
            let v: i64 = *self.value_at(i);
            proof {
                let next = all.take(i as int + 1);
                assert(next.drop_last() =~= all.take(i as int));
                assert(next.last() == v);
            }
            match t.checked_add(v) {
                Some(next) => {
                    t = next;
                },
                None => {
                    assert(!fits(sum(all.take(i as int + 1))));
                    return None;
                },
            }
        }
        assert(all.take(n as int) =~= all);
        proof {
            lemma_sum_of_map(self.keys(), all);
        }
        Some(t)
    }
}

/// The sum of the values is the sum of the map.
pub proof fn lemma_sum_of_map(keys: Seq<Seq<char>>, values: Seq<int>)
    requires
        keys.len() == values.len(),
        keys.no_duplicates(),
    ensures
        map_sum(map_of(keys, values)) == sum(values),
        map_of(keys, values).dom().finite(),
    decreases keys.len(),
{
    if keys.len() > 0 {
        let k0 = keys.drop_last();
        let v0 = values.drop_last();
        assert(k0.no_duplicates());
        lemma_sum_of_map(k0, v0);
        lemma_map_of(k0, v0);
        assert(!k0.contains(keys.last())) by {
            if k0.contains(keys.last()) {
                let j = choose|j: int| 0 <= j < k0.len() && k0[j] == keys.last();
                assert(keys[j] == keys[keys.len() - 1]);
            }
        }
        lemma_sum_insert(map_of(k0, v0), keys.last(), values.last());
    }
}

/// The count under `k` has grown by `n`, from nothing where there was none.
pub open spec fn grows_by(
    before: Map<Seq<char>, int>,
    after: Map<Seq<char>, int>,
    k: Seq<char>,
    n: int,
) -> bool {
    &&& after.contains_key(k)
    &&& before.contains_key(k) ==> after[k] == before[k] + n
    &&& !before.contains_key(k) ==> after[k] == n
}

/// There is an entry under `k` afterwards exactly where there was one before, and it is the same.
pub open spec fn stays_under<M>(
    before: Map<Seq<char>, M>,
    after: Map<Seq<char>, M>,
    k: Seq<char>,
) -> bool {
    &&& after.contains_key(k) <==> before.contains_key(k)
    &&& before.contains_key(k) ==> after[k] == before[k]
}

/// Sums of counts are taken key by key: a count that is added makes its own grow and no other. Only
/// the counts above zero are positive, and they are so in full.
pub proof fn counts_are_added_by_key(
    m: Map<Seq<char>, int>,
    d: Map<Seq<char>, int>,
    k: Seq<char>,
)
    ensures
        d.contains_key(k) ==> grows_by(m, plus(m, d), k, d[k]),
        !d.contains_key(k) ==> stays_under(m, plus(m, d), k),
        d.contains_key(k) && d[k] > 0 ==> stays_under(d, positive(d), k),
        d.contains_key(k) && d[k] <= 0 ==> !positive(d).contains_key(k),
        !d.contains_key(k) ==> !positive(d).contains_key(k),
{
}

/// A number fits exactly where it is one of 64 bits with a sign.
pub proof fn numbers_fit_in_64_bits(n: int)
    ensures
        fits(n) <==> -0x8000_0000_0000_0000 <= n < 0x8000_0000_0000_0000,
{
}

/// Sums are taken of all values: one more value, or one more count, adds itself.
pub proof fn sums_take_in_every_value(s: Seq<int>, x: int, m: Map<Seq<char>, int>, k: Seq<char>)
    requires
        m.dom().finite(),
        !m.contains_key(k),
    ensures
        sum(Seq::empty()) == 0,
        sum(s.push(x)) == sum(s) + x,
        map_sum(Map::empty()) == 0,
        map_sum(m.insert(k, x)) == map_sum(m) + x,
{
    assert(s.push(x).drop_last() =~= s);
    lemma_sum_insert(m, k, x);
}

} // verus!
