use vstd::prelude::*;

use crate::symbol::Symbol;
use crate::tree::{found, inserted, lemma_traversal, lemma_traversal_order, proper_prefix, Cursor, Tree};

verus! {

broadcast use crate::tree::lemma_replaced_value;

/// A map from sequences of symbols to values, stored in a prefix tree.
#[derive(Debug)]
pub struct PrefixMap<K, V> {
    root: Tree<K, V>,
    length: usize,
}

impl<K, V> View for PrefixMap<K, V> {
    type V = Map<Seq<K>, V>;

    closed spec fn view(&self) -> Map<Seq<K>, V> {
        self.root@
    }
}

/// The map after inserting the pairs of `s` in order.
pub open spec fn insert_all<K, V>(m: Map<Seq<K>, V>, s: Seq<(Seq<K>, V)>) -> Map<Seq<K>, V>
    decreases s.len(),
{
    if s.len() == 0 {
        m
    } else {
        insert_all(m, s.drop_last()).insert(s.last().0, s.last().1)
    }
}

/// The pairs of `s` with each key as a sequence.
pub open spec fn pairs_view<K, V>(s: Seq<(Vec<K>, V)>) -> Seq<(Seq<K>, V)> {
    s.map_values(|p: (Vec<K>, V)| (p.0@, p.1))
}

/// Inserting pairs whose keys are all different stores each key with its
/// value and nothing else: reading any of the keys back gives the value
/// inserted with it, and the map holds as many keys as there were pairs.
pub proof fn lemma_round_trip<K, V>(s: Seq<(Seq<K>, V)>)
    requires
        forall|i: int, j: int| 0 <= i < j < s.len() ==> (#[trigger] s[i]).0 != (#[trigger] s[j]).0,
    ensures
        insert_all(Map::<Seq<K>, V>::empty(), s).dom().finite(),
        insert_all(Map::<Seq<K>, V>::empty(), s).len() == s.len(),
        forall|i: int|
            0 <= i < s.len() ==> found(insert_all(Map::<Seq<K>, V>::empty(), s), (#[trigger] s[i]).0)
                == Some(s[i].1),
        forall|k: Seq<K>|
            #[trigger] insert_all(Map::<Seq<K>, V>::empty(), s).contains_key(k) ==> exists|i: int|
                0 <= i < s.len() && (#[trigger] s[i]).0 == k,
    decreases s.len(),
{
    if s.len() > 0 {
        let t = s.drop_last();
        assert forall|i: int, j: int| 0 <= i < j < t.len() implies (#[trigger] t[i]).0 != (#[trigger] t[j]).0 by {
            assert(t[i] == s[i]);
            assert(t[j] == s[j]);
        }
        lemma_round_trip(t);
        let m = insert_all(Map::<Seq<K>, V>::empty(), t);
        let last = s.last();
        assert(!m.contains_key(last.0)) by {
            if m.contains_key(last.0) {
                let i = choose|i: int| 0 <= i < t.len() && (#[trigger] t[i]).0 == last.0;
                assert(s[i] == t[i]);
            }
        }
        assert forall|i: int| 0 <= i < s.len() implies found(
            insert_all(Map::<Seq<K>, V>::empty(), s),
            (#[trigger] s[i]).0,
        ) == Some(s[i].1) by {
            if i < t.len() {
                assert(s[i] == t[i]);
            }
        }
        assert forall|k: Seq<K>| #[trigger] insert_all(Map::<Seq<K>, V>::empty(), s).contains_key(k) implies exists|
            i: int,
        | 0 <= i < s.len() && (#[trigger] s[i]).0 == k by {
            if k != last.0 {
                let i = choose|i: int| 0 <= i < t.len() && (#[trigger] t[i]).0 == k;
                assert(s[i] == t[i]);
            } else {
                assert(s[s.len() - 1] == last);
            }
        }
    }
}

/// Storing `a` and then `b` under a key that was absent: the first insert
/// finds nothing, the second finds `a` and does not change the number of
/// keys, and afterwards the key holds `b`.
pub proof fn lemma_overwrite<K, V>(m: Map<Seq<K>, V>, k: Seq<K>, a: V, b: V)
    requires
        m.dom().finite(),
        !m.contains_key(k),
    ensures
        found(m, k) is None,
        found(m.insert(k, a), k) == Some(a),
        m.insert(k, a).insert(k, b).len() == m.insert(k, a).len(),
        m.insert(k, a).len() == m.len() + 1,
        found(m.insert(k, a).insert(k, b), k) == Some(b),
{
    assert(m.insert(k, a).insert(k, b).dom() =~= m.insert(k, a).dom());
}

/// The empty key is a key like any other: it holds what was stored under
/// it, and an empty map holds no key at all.
pub proof fn lemma_empty_key<K, V>(m: Map<Seq<K>, V>, v: V, k: Seq<K>)
    ensures
        found(m.insert(Seq::<K>::empty(), v), Seq::<K>::empty()) == Some(v),
        found(Map::<Seq<K>, V>::empty(), k) is None,
{
}

/// Enumerating a map yields every stored key exactly once, each with the
/// value stored under it, and nothing else; so it yields `len` entries.
pub proof fn lemma_enumeration<K, V>(m: PrefixMap<K, V>)
    requires
        m.wf(),
    ensures
        m@.dom().finite(),
        m.entries().len() == m@.len(),
        forall|i: int|
            0 <= i < m.entries().len() ==> m@.contains_key(#[trigger] m.entries()[i].0)
                && m@[m.entries()[i].0] == m.entries()[i].1,
        forall|k: Seq<K>|
            #[trigger] m@.contains_key(k) ==> exists|i: int|
                0 <= i < m.entries().len() && (#[trigger] m.entries()[i]).0 == k,
        forall|i: int, j: int|
            0 <= i < j < m.entries().len() ==> (#[trigger] m.entries()[i]).0 != (#[trigger] m.entries()[j]).0,
{
    lemma_traversal(m.root);
    assert(m@ == m.root@);
    assert(m.entries() == m.root.traversal());
    assert forall|k: Seq<K>| #[trigger] m@.contains_key(k) implies exists|i: int|
        0 <= i < m.entries().len() && (#[trigger] m.entries()[i]).0 == k by {
        assert(m.root@.contains_key(k));
    }
}

/// Enumerating a map yields the value of the empty key, if stored, first,
/// and every key before the keys that extend it.
pub proof fn lemma_enumeration_order<K, V>(m: PrefixMap<K, V>)
    requires
        m.wf(),
    ensures
        m@.contains_key(Seq::<K>::empty()) ==> m.entries().len() > 0 && m.entries()[0] == (
            Seq::<K>::empty(),
            m@[Seq::<K>::empty()],
        ),
        forall|i: int, j: int|
            0 <= i < m.entries().len() && 0 <= j < m.entries().len() && proper_prefix(
                (#[trigger] m.entries()[i]).0,
                (#[trigger] m.entries()[j]).0,
            ) ==> i < j,
{
    lemma_traversal_order(m.root);
}

impl<K, V> PrefixMap<K, V> {
    /// The tree that holds the entries; its root has an empty fragment.
    pub closed spec fn tree(&self) -> Tree<K, V> {
        self.root
    }

    /// The tree holds no node but an empty root.
    pub open spec fn bare(&self) -> bool {
        &&& self.tree().fragment() == Seq::<K>::empty()
        &&& self.tree().stored() is None
        &&& self.tree().branches().len() == 0
    }

    /// The entries in the order in which `iter` yields them.
    pub open spec fn entries(&self) -> Seq<(Seq<K>, V)> {
        self.tree().traversal()
    }

    /// The root has an empty fragment, the tree is well formed, and `length`
    /// counts the stored keys.
    pub closed spec fn wf(&self) -> bool {
        &&& self.root.wf()
        &&& self.root.fragment() == Seq::<K>::empty()
        &&& self@.dom().finite()
        &&& self.length == self@.len()
    }
}

impl<K: Symbol, V> PrefixMap<K, V> {
    /// Creates an empty map.
    pub fn new() -> (m: PrefixMap<K, V>)
        ensures
            m.wf(),
            m@ == Map::<Seq<K>, V>::empty(),
            m@.dom().finite(),
            m.bare(),
    {
        PrefixMap { root: Tree::empty(), length: 0 }
    }

    /// Whether a value is stored under `key`.
    pub fn contains_key(&self, key: &[K]) -> (r: bool)
        requires
            self.wf(),
        ensures
            r == self@.contains_key(key@),
    {
        self.get(key).is_some()
    }

    /// Removes every entry.
    pub fn clear(&mut self)
        ensures
            final(self).wf(),
            final(self)@ == Map::<Seq<K>, V>::empty(),
            final(self)@.dom().finite(),
            final(self).bare(),
    {
        *self = PrefixMap::new();
    }

    /// The value stored under `key`.
    pub fn get(&self, key: &[K]) -> (r: Option<&V>)
        requires
            self.wf(),
        ensures
            match r {
                Some(v) => self@.contains_key(key@) && *v == self@[key@],
                None => !self@.contains_key(key@),
            },
    {
        match self.root.find(key) {
            Some(node) => node.value(),
            None => None,
        }
    }

    /// The value stored under `key`, for changing it in place.
    pub fn get_mut(&mut self, key: &[K]) -> (r: Option<&mut V>)
        requires
            old(self).wf(),
        ensures
            final(self).wf(),
            final(self)@.dom().finite(),
            r is Some <==> old(self)@.contains_key(key@),
            r is None ==> *final(self) == *old(self),
            match r {
                Some(v) => {
                    &&& *v == old(self)@[key@]
                    &&& final(self)@ == old(self)@.insert(key@, *final(v))
                },
                None => true,
            },
    {
        match self.root.find_mut(key) {
            Some(node) => node.value_mut(),
            None => None,
        }
    }

    /// Stores `value` under `key` and returns the value stored there before.
    /// The length grows by one exactly when `key` was not stored.
    pub fn insert(&mut self, key: &[K], value: V) -> (r: Option<V>)
        requires
            old(self).wf(),
            old(self)@.contains_key(key@) || old(self)@.len() < usize::MAX,
        ensures
            final(self).wf(),
            final(self)@ == old(self)@.insert(key@, value),
            final(self)@.dom().finite(),
            r == found(old(self)@, key@),
            inserted(old(self).tree(), final(self).tree(), key@, value),
    {
        let prev = self.root.insert(key, value);
        if prev.is_none() {
            self.length = self.length + 1;
        }
        proof {
            assert(self.root.fragment() =~= Seq::<K>::empty());
            if prev is Some {
                assert(self@.dom() =~= old(self)@.dom());
            } else {
                assert(self@.dom() =~= old(self)@.dom().insert(key@));
            }
        }
        prev
    }

    /// Builds a map by inserting the pairs of `pairs` in order.
    pub fn from_iter(pairs: Vec<(Vec<K>, V)>) -> (m: PrefixMap<K, V>)
        ensures
            m.wf(),
            m@ == insert_all(Map::<Seq<K>, V>::empty(), pairs_view(pairs@)),
            m@.dom().finite(),
    {
        let ghost orig = pairs@;
        let ghost all = pairs_view(pairs@);
        let n = pairs.len();
        let mut pairs = pairs;
        let mut backwards: Vec<(Vec<K>, V)> = Vec::new();
        while pairs.len() > 0
            invariant
                pairs@.len() + backwards@.len() == n,
                forall|j: int| 0 <= j < pairs@.len() ==> (#[trigger] pairs@[j]) == orig[j],
                forall|j: int| 0 <= j < backwards@.len() ==> (#[trigger] backwards@[j]) == orig[n - 1 - j],
                orig.len() == n,
            decreases pairs@.len(),
        {
            let p = pairs.pop().unwrap();
            backwards.push(p);
        }
        let mut m = PrefixMap::new();
        let mut i: usize = 0;
        while backwards.len() > 0
            invariant
                m.wf(),
                i + backwards@.len() == n,
                all.len() == n,
                all == pairs_view(orig),
                orig.len() == n,
                forall|j: int| 0 <= j < backwards@.len() ==> (#[trigger] backwards@[j]) == orig[n - 1 - j],
                m@ == insert_all(Map::<Seq<K>, V>::empty(), all.take(i as int)),
                m@.len() <= i,
            decreases backwards@.len(),
        {
            let ghost before = backwards@;
            let (key, value) = backwards.pop().unwrap();
            assert(all[i as int] == (key@, value));
            m.insert(key.as_slice(), value);
            proof {
                assert(all.take(i + 1).drop_last() =~= all.take(i as int));
                assert(m@.dom() =~= insert_all(Map::<Seq<K>, V>::empty(), all.take(i as int)).dom().insert(key@));
            }
            i = i + 1;
        }
        assert(all.take(n as int) =~= all);
        m
    }

    /// A walk over the entries: each stored key once, with its value, a
    /// node's own value before those of the nodes below it.
    pub fn iter(&self) -> (it: Iter<'_, K, V>)
        requires
            self.wf(),
        ensures
            it.wf(),
            it@ == self.entries(),
    {
        proof {
            lemma_traversal(self.root);
        }
        Iter { cursor: Cursor::new(&self.root), length: self.length }
    }

    /// A walk over the stored keys, in the order of `iter`.
    pub fn keys(&self) -> (it: Keys<'_, K, V>)
        requires
            self.wf(),
        ensures
            it.wf(),
            it@ == self.entries(),
    {
        Keys { inner: self.iter() }
    }

    /// A walk over the stored values, in the order of `iter`.
    pub fn values(&self) -> (it: Values<'_, K, V>)
        requires
            self.wf(),
        ensures
            it.wf(),
            it@ == self.entries(),
    {
        Values { inner: self.iter() }
    }

    /// Whether the map stores nothing.
    pub fn is_empty(&self) -> (r: bool)
        requires
            self.wf(),
        ensures
            r == (self@.len() == 0),
    {
        self.len() == 0
    }

    /// The number of stored keys.
    pub fn len(&self) -> (r: usize)
        requires
            self.wf(),
        ensures
            r == self@.len(),
    {
        self.length
    }
}

impl<K: Symbol, V> Default for PrefixMap<K, V> {
    /// An empty map.
    fn default() -> (m: PrefixMap<K, V>)
        ensures
            m.wf(),
            m@ == Map::<Seq<K>, V>::empty(),
            m@.dom().finite(),
            m.bare(),
    {
        PrefixMap::new()
    }
}

/// A walk over the entries of a `PrefixMap` that knows how many are left.
pub struct Iter<'a, K, V> {
    cursor: Cursor<'a, K, V>,
    length: usize,
}

impl<'a, K, V> View for Iter<'a, K, V> {
    type V = Seq<(Seq<K>, V)>;

    /// The entries still to come, in order.
    closed spec fn view(&self) -> Seq<(Seq<K>, V)> {
        self.cursor@
    }
}

impl<'a, K, V> Iter<'a, K, V> {
    /// The walk is consistent and `length` counts what is left.
    pub closed spec fn wf(&self) -> bool {
        &&& self.cursor.wf()
        &&& self.length == self@.len()
    }
}

impl<'a, K: Symbol, V> Iter<'a, K, V> {
    /// The next entry; `None` once all have been yielded, and from then on.
    pub fn next(&mut self) -> (r: Option<(Vec<K>, &'a V)>)
        requires
            old(self).wf(),
        ensures
            final(self).wf(),
            match r {
                Some(e) => {
                    &&& old(self)@.len() > 0
                    &&& old(self)@[0] == (e.0@, *e.1)
                    &&& final(self)@ == old(self)@.drop_first()
                },
                None => old(self)@.len() == 0 && final(self)@ == old(self)@,
            },
    {
        let r = self.cursor.next();
        if r.is_some() {
            self.length = self.length - 1;
        }
        r
    }

    /// The number of entries still to come.
    pub fn len(&self) -> (r: usize)
        requires
            self.wf(),
        ensures
            r == self@.len(),
    {
        self.length
    }
}

/// A walk over the keys of a `PrefixMap`.
pub struct Keys<'a, K, V> {
    inner: Iter<'a, K, V>,
}

impl<'a, K, V> View for Keys<'a, K, V> {
    type V = Seq<(Seq<K>, V)>;

    /// The entries whose keys are still to come, in order.
    closed spec fn view(&self) -> Seq<(Seq<K>, V)> {
        self.inner@
    }
}

impl<'a, K, V> Keys<'a, K, V> {
    pub closed spec fn wf(&self) -> bool {
        self.inner.wf()
    }
}

impl<'a, K: Symbol, V> Keys<'a, K, V> {
    /// The next key; `None` once all have been yielded, and from then on.
    pub fn next(&mut self) -> (r: Option<Vec<K>>)
        requires
            old(self).wf(),
        ensures
            final(self).wf(),
            match r {
                Some(k) => {
                    &&& old(self)@.len() > 0
                    &&& old(self)@[0].0 == k@
                    &&& final(self)@ == old(self)@.drop_first()
                },
                None => old(self)@.len() == 0 && final(self)@ == old(self)@,
            },
    {
        match self.inner.next() {
            Some((k, _)) => Some(k),
            None => None,
        }
    }
}

/// A walk over the values of a `PrefixMap`.
pub struct Values<'a, K, V> {
    inner: Iter<'a, K, V>,
}

impl<'a, K, V> View for Values<'a, K, V> {
    type V = Seq<(Seq<K>, V)>;

    /// The entries whose values are still to come, in order.
    closed spec fn view(&self) -> Seq<(Seq<K>, V)> {
        self.inner@
    }
}

impl<'a, K, V> Values<'a, K, V> {
    pub closed spec fn wf(&self) -> bool {
        self.inner.wf()
    }
}

impl<'a, K: Symbol, V> Values<'a, K, V> {
    /// The next value; `None` once all have been yielded, and from then on.
    pub fn next(&mut self) -> (r: Option<&'a V>)
        requires
            old(self).wf(),
        ensures
            final(self).wf(),
            match r {
                Some(v) => {
                    &&& old(self)@.len() > 0
                    &&& old(self)@[0].1 == *v
                    &&& final(self)@ == old(self)@.drop_first()
                },
                None => old(self)@.len() == 0 && final(self)@ == old(self)@,
            },
    {
        match self.inner.next() {
            Some((_, v)) => Some(v),
            None => None,
        }
    }
}

} // verus!
