use vstd::prelude::*;

use crate::map::{lemma_enumeration, Iter as MapIter, PrefixMap};
use crate::tree::{inserted, Tree};
use crate::symbol::Symbol;

verus! {

/// A set of sequences of symbols: a `PrefixMap` whose values are `()`.
#[derive(Debug)]
pub struct PrefixSet<T> {
    map: PrefixMap<T, ()>,
}

impl<T> View for PrefixSet<T> {
    type V = Set<Seq<T>>;

    closed spec fn view(&self) -> Set<Seq<T>> {
        self.map@.dom()
    }
}

/// The keys of `s`, each as a sequence.
pub open spec fn keys_view<T>(s: Seq<Vec<T>>) -> Seq<Seq<T>> {
    s.map_values(|k: Vec<T>| k@)
}

/// Inserting the keys of `ks` one after the other: the insert of `ks[i]`
/// reports a new element exactly when no earlier key equals it, and the set
/// ends up holding exactly the keys of `ks`.
pub proof fn lemma_insert_reports_new<T>(ks: Seq<Seq<T>>)
    ensures
        forall|i: int|
            0 <= i < ks.len() ==> (!ks.take(i).to_set().contains(#[trigger] ks[i]) <==> forall|j: int|
                0 <= j < i ==> ks[j] != ks[i]),
        forall|i: int| 0 <= i < ks.len() ==> ks.take(i + 1).to_set() == (#[trigger] ks.take(i).to_set()).insert(ks[i]),
        ks.take(ks.len() as int).to_set() == ks.to_set(),
{
    assert forall|i: int|
        0 <= i < ks.len() implies (!ks.take(i).to_set().contains(#[trigger] ks[i]) <==> forall|j: int|
        0 <= j < i ==> ks[j] != ks[i]) by {
        if ks.take(i).to_set().contains(ks[i]) {
            let j = choose|j: int| 0 <= j < ks.take(i).len() && ks.take(i)[j] == ks[i];
            assert(ks[j] == ks.take(i)[j]);
        } else {
            assert forall|j: int| 0 <= j < i implies ks[j] != ks[i] by {
                assert(ks.take(i)[j] == ks[j]);
                assert(ks.take(i).contains(ks[j]));
            }
        }
    }
    assert forall|i: int| 0 <= i < ks.len() implies ks.take(i + 1).to_set() == (
    #[trigger] ks.take(i).to_set()).insert(ks[i]) by {
        assert(ks.take(i + 1) =~= ks.take(i).push(ks[i]));
        ks.take(i).lemma_push_to_set_commute(ks[i]);
    }
    assert(ks.take(ks.len() as int) =~= ks);
}

/// Walking a set yields every element exactly once and nothing else, so it
/// yields `len` elements; a set holds finitely many elements.
pub proof fn lemma_set_enumeration<T>(s: PrefixSet<T>)
    requires
        s.wf(),
    ensures
        s@.finite(),
        s.elements().len() == s@.len(),
        forall|i: int| 0 <= i < s.elements().len() ==> s@.contains(#[trigger] s.elements()[i]),
        forall|k: Seq<T>|
            #[trigger] s@.contains(k) ==> exists|i: int| 0 <= i < s.elements().len() && s.elements()[i] == k,
        forall|i: int, j: int|
            0 <= i < j < s.elements().len() ==> (#[trigger] s.elements()[i]) != (#[trigger] s.elements()[j]),
{
    lemma_enumeration(s.map);
    let es = s.map.entries();
    assert(s.elements().len() == es.len());
    assert forall|i: int| 0 <= i < s.elements().len() implies s@.contains(#[trigger] s.elements()[i]) by {
        assert(s.elements()[i] == es[i].0);
    }
    assert forall|k: Seq<T>| #[trigger] s@.contains(k) implies exists|i: int|
        0 <= i < s.elements().len() && s.elements()[i] == k by {
        assert(s.map@.contains_key(k));
        let i = choose|i: int| 0 <= i < es.len() && (#[trigger] es[i]).0 == k;
        assert(s.elements()[i] == es[i].0);
    }
    assert forall|i: int, j: int| 0 <= i < j < s.elements().len() implies (#[trigger] s.elements()[i]) != (
    #[trigger] s.elements()[j]) by {
        assert(s.elements()[i] == es[i].0);
        assert(s.elements()[j] == es[j].0);
    }
}

impl<T> PrefixSet<T> {
    /// The tree that holds the elements; its root has an empty fragment.
    pub closed spec fn tree(&self) -> Tree<T, ()> {
        self.map.tree()
    }

    /// The tree holds no node but an empty root.
    pub open spec fn bare(&self) -> bool {
        &&& self.tree().fragment() == Seq::<T>::empty()
        &&& self.tree().stored() is None
        &&& self.tree().branches().len() == 0
    }

    /// The elements in the order in which `iter` yields them.
    pub open spec fn elements(&self) -> Seq<Seq<T>> {
        self.tree().traversal().map_values(|e: (Seq<T>, ())| e.0)
    }

    /// The underlying map is well formed.
    pub closed spec fn wf(&self) -> bool {
        self.map.wf()
    }
}

impl<T: Symbol> PrefixSet<T> {
    /// Creates an empty set.
    pub fn new() -> (s: PrefixSet<T>)
        ensures
            s.wf(),
            s@ == Set::<Seq<T>>::empty(),
            s@.finite(),
            s.bare(),
    {
        let s = PrefixSet { map: PrefixMap::new() };
        assert(s@ =~= Set::<Seq<T>>::empty());
        s
    }

    /// Removes every element.
    pub fn clear(&mut self)
        ensures
            final(self).wf(),
            final(self)@ == Set::<Seq<T>>::empty(),
            final(self)@.finite(),
            final(self).bare(),
    {
        self.map.clear();
        assert(self@ =~= Set::<Seq<T>>::empty());
    }

    /// Whether `key` is an element.
    pub fn contains(&self, key: &[T]) -> (r: bool)
        requires
            self.wf(),
        ensures
            r == self@.contains(key@),
    {
        self.map.get(key).is_some()
    }

    /// Adds `key`; returns whether it was not an element before.
    pub fn insert(&mut self, key: &[T]) -> (r: bool)
        requires
            old(self).wf(),
            old(self)@.contains(key@) || old(self)@.len() < usize::MAX,
        ensures
            final(self).wf(),
            final(self)@ == old(self)@.insert(key@),
            final(self)@.finite(),
            r == !old(self)@.contains(key@),
            inserted(old(self).tree(), final(self).tree(), key@, ()),
    {
        let r = self.map.insert(key, ()).is_none();
        assert(self@ =~= old(self)@.insert(key@));
        r
    }

    /// Builds a set from the keys of `keys`.
    pub fn from_iter(keys: Vec<Vec<T>>) -> (s: PrefixSet<T>)
        ensures
            s.wf(),
            s@ == keys_view(keys@).to_set(),
            s@.finite(),
    {
        let ghost all = keys_view(keys@);
        let mut s = PrefixSet::new();
        let mut i: usize = 0;
        while i < keys.len()
            invariant
                s.wf(),
                i <= keys@.len(),
                all == keys_view(keys@),
                s@ == all.take(i as int).to_set(),
                s@.len() <= i,
            decreases keys@.len() - i,
        {
            s.insert(keys[i].as_slice());
            proof {
                assert(all.take(i + 1) =~= all.take(i as int).push(all[i as int]));
                all.take(i as int).lemma_push_to_set_commute(all[i as int]);
            }
            i = i + 1;
        }
        assert(all.take(i as int) =~= all);
        s
    }

    /// A walk over the elements, each once.
    pub fn iter(&self) -> (it: Iter<'_, T>)
        requires
            self.wf(),
        ensures
            it.wf(),
            it@ == self.elements(),
    {
        Iter { iter: self.map.iter() }
    }

    /// Whether the set has no elements.
    pub fn is_empty(&self) -> (r: bool)
        requires
            self.wf(),
        ensures
            r == (self@.len() == 0),
    {
        self.map.is_empty()
    }

    /// The number of elements.
    pub fn len(&self) -> (r: usize)
        requires
            self.wf(),
        ensures
            r == self@.len(),
    {
        self.map.len()
    }
}

impl<T: Symbol> Default for PrefixSet<T> {
    /// An empty set.
    fn default() -> (s: PrefixSet<T>)
        ensures
            s.wf(),
            s@ == Set::<Seq<T>>::empty(),
            s@.finite(),
            s.bare(),
    {
        PrefixSet::new()
    }
}

/// A walk over the elements of a `PrefixSet`.
pub struct Iter<'a, T> {
    iter: MapIter<'a, T, ()>,
}

impl<'a, T> View for Iter<'a, T> {
    type V = Seq<Seq<T>>;

    /// The elements still to come, in order.
    closed spec fn view(&self) -> Seq<Seq<T>> {
        self.iter@.map_values(|e: (Seq<T>, ())| e.0)
    }
}

impl<'a, T> Iter<'a, T> {
    pub closed spec fn wf(&self) -> bool {
        self.iter.wf()
    }
}

impl<'a, T: Symbol> Iter<'a, T> {
    /// The next element; `None` once all have been yielded, and from then on.
    pub fn next(&mut self) -> (r: Option<Vec<T>>)
        requires
            old(self).wf(),
        ensures
            final(self).wf(),
            match r {
                Some(k) => {
                    &&& old(self)@.len() > 0
                    &&& old(self)@[0] == k@
                    &&& final(self)@ == old(self)@.drop_first()
                },
                None => old(self)@.len() == 0 && final(self)@ == old(self)@,
            },
    {
        let r = self.iter.next();
        proof {
            if r is Some {
                assert(self@ =~= old(self)@.drop_first());
            }
        }
        match r {
            Some((k, _)) => Some(k),
            None => None,
        }
    }

    /// The number of elements still to come.
    pub fn len(&self) -> (r: usize)
        requires
            self.wf(),
        ensures
            r == self@.len(),
    {
        self.iter.len()
    }
}

} // verus!
