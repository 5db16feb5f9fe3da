//! Compressed prefix trees (radix trees) with map and set front ends.
//!
//! [`tree::Tree`] is the generic radix node with an ordered list of
//! children; [`PrefixMap`] and [`PrefixSet`] are built on it. [`Node`] and
//! [`Tree`] at the crate root are the byte-keyed variant in which each node
//! links to its first child and to its next sibling.
use vstd::prelude::*;

pub mod map;
pub mod set;
pub mod symbol;
pub mod tree;

pub use map::PrefixMap;
pub use set::PrefixSet;

use vstd::slice::slice_to_vec;
use tree::{common_len, common_prefix, found};

verus! {

/// A node of the byte-keyed prefix tree. `key` labels the edge into the
/// node; `child` is the first node one level down and `sibling` the next
/// node on the same level.
pub struct Node<T> {
    key: Vec<u8>,
    pub value: Option<T>,
    child: Option<Box<Node<T>>>,
    sibling: Option<Box<Node<T>>>,
}

/// Two fragments compete for the same place on a level: both are empty, or
/// both start with the same byte.
pub open spec fn clash(a: Seq<u8>, b: Seq<u8>) -> bool {
    (a.len() == 0 && b.len() == 0) || (a.len() > 0 && b.len() > 0 && a[0] == b[0])
}


/// `l` is a single node, without child or sibling, that stores `v` under the
/// fragment `k`.
pub open spec fn is_leaf<T>(l: Node<T>, k: Seq<u8>, v: T) -> bool {
    &&& l.fragment() == k
    &&& l.stored() == Some(v)
    &&& l.down() is None
    &&& l.next() is None
}

/// `n` is the node that storing `v` under `k` makes of the node `o`, on the
/// level that starts at `o`. Let `p` be the length of the prefix that `o`'s
/// fragment and `k` share.
/// - `k` is the fragment: only the value changes.
/// - `p` is 0: the change happens further along the level; at its end a
///   leaf for `k` is appended.
/// - `k` goes on past the fragment: the change happens one level down, where
///   a leaf for the rest of `k` is the first node if there was none.
/// - `k` leaves the fragment part-way: the fragment is cut after `p` bytes;
///   its tail, with the old value and child, becomes the only node one level
///   down, followed by a leaf for the rest of `k`, unless `k` ends at the
///   cut, in which case the cut node itself stores `v`.
pub open spec fn inserted<T>(o: Node<T>, n: Node<T>, k: Seq<u8>, v: T) -> bool
    decreases o,
{
    let f = o.fragment();
    let p = common_len(f, k);
    if p == f.len() && p == k.len() {
        &&& n.fragment() == f
        &&& n.stored() == Some(v)
        &&& n.down() == o.down()
        &&& n.next() == o.next()
    } else if p == 0 {
        &&& n.fragment() == f
        &&& n.stored() == o.stored()
        &&& n.down() == o.down()
        &&& match o.next() {
            Some(s) => n.next() is Some && inserted(s, n.next()->Some_0, k, v),
            None => n.next() is Some && is_leaf(n.next()->Some_0, k, v),
        }
    } else if p == f.len() {
        &&& n.fragment() == f
        &&& n.stored() == o.stored()
        &&& n.next() == o.next()
        &&& match o.down() {
            Some(c) => n.down() is Some && inserted(c, n.down()->Some_0, k.skip(p as int), v),
            None => n.down() is Some && is_leaf(n.down()->Some_0, k.skip(p as int), v),
        }
    } else {
        &&& n.fragment() == f.take(p as int)
        &&& n.stored() == if p == k.len() { Some(v) } else { None }
        &&& n.next() == o.next()
        &&& n.down() is Some
        &&& n.down()->Some_0.fragment() == f.skip(p as int)
        &&& n.down()->Some_0.stored() == o.stored()
        &&& n.down()->Some_0.down() == o.down()
        &&& if p < k.len() {
            n.down()->Some_0.next() is Some && is_leaf(n.down()->Some_0.next()->Some_0, k.skip(p as int), v)
        } else {
            n.down()->Some_0.next() is None
        }
    }
}

impl<T> Node<T> {
    /// The edge label of this node.
    pub closed spec fn fragment(self) -> Seq<u8> {
        self.key@
    }

    /// The value held at this node itself.
    pub closed spec fn stored(self) -> Option<T> {
        self.value
    }

    /// The value under `k` found through this node itself (not its
    /// siblings), `k` read from the start of its fragment.
    pub closed spec fn own(self, k: Seq<u8>) -> Option<T>
        decreases self, 0int,
    {
        let f = self.key@;
        if f.len() <= k.len() && k.take(f.len() as int) == f {
            if k.len() == f.len() {
                self.value
            } else {
                Self::lookup_opt(self.child, k.skip(f.len() as int))
            }
        } else {
            None
        }
    }

    /// The value under `k` on the level that starts at this node.
    pub closed spec fn lookup(self, k: Seq<u8>) -> Option<T>
        decreases self, 1int,
    {
        match self.own(k) {
            Some(v) => Some(v),
            None => Self::lookup_opt(self.sibling, k),
        }
    }

    /// The value under `k` on the level that starts at `o`, if any.
    pub closed spec fn lookup_opt(o: Option<Box<Node<T>>>, k: Seq<u8>) -> Option<T>
        decreases o,
    {
        match o {
            Some(n) => n.lookup(k),
            None => None,
        }
    }

    /// The node that holds `k` on the level that starts at this node, for a
    /// stored key `k`.
    pub closed spec fn at(self, k: Seq<u8>) -> Node<T>
        decreases self,
    {
        if self.own(k) is Some {
            if k.len() == self.key@.len() {
                self
            } else {
                match self.child {
                    Some(c) => c.at(k.skip(self.key@.len() as int)),
                    None => self,
                }
            }
        } else {
            match self.sibling {
                Some(s) => s.at(k),
                None => self,
            }
        }
    }

    /// `after` is `before` with the node that holds `k` replaced by `t`.
    pub closed spec fn replaced(before: Node<T>, after: Node<T>, k: Seq<u8>, t: Node<T>) -> bool
        decreases before,
    {
        if before.own(k) is Some && k.len() != before.key@.len() && before.child is Some {
            &&& after.key@ == before.key@
            &&& after.value == before.value
            &&& after.sibling == before.sibling
            &&& after.child is Some
            &&& Self::replaced(*before.child->Some_0, *after.child->Some_0, k.skip(before.key@.len() as int), t)
        } else if before.own(k) is None && before.sibling is Some {
            &&& after.key@ == before.key@
            &&& after.value == before.value
            &&& after.child == before.child
            &&& after.sibling is Some
            &&& Self::replaced(*before.sibling->Some_0, *after.sibling->Some_0, k, t)
        } else {
            after == t
        }
    }

    /// The nodes of the level that starts at this node, in order.
    pub closed spec fn level(self) -> Seq<Node<T>>
        decreases self,
    {
        seq![self] + match self.sibling {
            Some(s) => s.level(),
            None => Seq::<Node<T>>::empty(),
        }
    }

    /// Some node on the level that starts at `o` clashes with `f`.
    pub closed spec fn chain_clash(o: Option<Box<Node<T>>>, f: Seq<u8>) -> bool
        decreases o,
    {
        match o {
            Some(n) => n.clashes(f),
            None => false,
        }
    }

    /// This node or a later sibling clashes with `f`.
    pub closed spec fn clashes(self, f: Seq<u8>) -> bool
        decreases self,
    {
        clash(self.key@, f) || Self::chain_clash(self.sibling, f)
    }

    /// The level that starts at this node is well formed: no two nodes on a
    /// level clash, a node with an empty fragment has no child, no node below
    /// the top level has an empty fragment, and so on all the way down.
    pub closed spec fn wf(self) -> bool
        decreases self,
    {
        &&& !Self::chain_clash(self.sibling, self.key@)
        &&& self.key@.len() == 0 ==> self.child is None
        &&& !Self::chain_clash(self.child, Seq::<u8>::empty())
        &&& Self::wf_opt(self.child)
        &&& Self::wf_opt(self.sibling)
    }

    pub closed spec fn wf_opt(o: Option<Box<Node<T>>>) -> bool
        decreases o,
    {
        match o {
            Some(n) => n.wf(),
            None => true,
        }
    }
}

impl<T> View for Node<T> {
    type V = Map<Seq<u8>, T>;

    /// Every key stored on the level that starts at this node, with its value.
    closed spec fn view(&self) -> Map<Seq<u8>, T> {
        Map::new(|k: Seq<u8>| self.lookup(k) is Some, |k: Seq<u8>| self.lookup(k)->Some_0)
    }
}

impl<T> Node<T> {
    proof fn lemma_view(self, k: Seq<u8>)
        ensures
            found(self@, k) == self.lookup(k),
    {
    }

    /// Clashing depends on the first symbol only.
    proof fn lemma_clash_head(o: Option<Box<Node<T>>>, a: Seq<u8>, b: Seq<u8>)
        requires
            a.len() == 0 <==> b.len() == 0,
            a.len() > 0 ==> a[0] == b[0],
        ensures
            Self::chain_clash(o, a) == Self::chain_clash(o, b),
        decreases o,
    {
        if let Some(n) = o {
            Self::lemma_clash_head(n.sibling, a, b);
        }
    }

    /// Cutting a node's fragment after `p` bytes and moving the rest, with
    /// the value and the child, one level down, next to an optional leaf for
    /// the rest of `key`, changes what the node itself holds only at `key`.
    proof fn lemma_split_own(n: Node<T>, m: Node<T>, p: int, key: Seq<u8>, v: T)
        requires
            0 < p < n.key@.len(),
            p <= key.len(),
            key.take(p) == n.key@.take(p),
            p < key.len() ==> key[p] != n.key@[p],
            m.key@ == n.key@.take(p),
            m.value == if p == key.len() { Some(v) } else { None },
            m.child matches Some(t) && t.key@ == n.key@.skip(p) && t.value == n.value && t.child
                == n.child && (t.sibling matches Some(l) ==> p < key.len() && l.key@ == key.skip(p)
                && l@ == map![key.skip(p) => v]) && (t.sibling is None ==> p == key.len()),
        ensures
            forall|x: Seq<u8>| #[trigger] m.own(x) == if x == key { Some(v) } else { n.own(x) },
    {
        let f = n.key@;
        let t = *m.child->Some_0;
        assert forall|x: Seq<u8>| #[trigger] m.own(x) == if x == key { Some(v) } else { n.own(x) } by {
            if p <= x.len() && x.take(p) == f.take(p) {
                if x.len() == p {
                    if x == key {
                    } else {
                        if key.len() == p {
                            assert(x =~= key) by {
                                assert forall|j: int| 0 <= j < x.len() implies x[j] == key[j] by {
                                    assert(x.take(p)[j] == x[j]);
                                    assert(key.take(p)[j] == key[j]);
                                }
                            }
                        }
                    }
                } else {
                    let y = x.skip(p);
                    assert(Self::lookup_opt(m.child, y) == t.lookup(y));
                    // what the moved node holds itself
                    if f.len() <= x.len() && x.take(f.len() as int) == f {
                        assert(y.take(f.len() - p) =~= f.skip(p));
                        assert(y.skip(f.len() - p) =~= x.skip(f.len() as int));
                    } else if f.len() - p <= y.len() && y.take(f.len() - p) == f.skip(p) {
                        assert(x.take(f.len() as int) =~= f) by {
                            assert forall|j: int| 0 <= j < f.len() implies x.take(f.len() as int)[j] == f[j] by {
                                if j < p {
                                    assert(x.take(p)[j] == f.take(p)[j]);
                                } else {
                                    assert(y.take(f.len() - p)[j - p] == f.skip(p)[j - p]);
                                }
                            }
                        }
                    }
                    assert(t.own(y) == n.own(x));
                    if x == key {
                        assert(y == key.skip(p));
                        assert(y.take(1)[0] != f.skip(p)[0]);
                        assert(t.own(y) is None);
                        let l = *t.sibling->Some_0;
                        l.lemma_view(y);
                    } else {
                        if t.sibling is Some {
                            let l = *t.sibling->Some_0;
                            l.lemma_view(y);
                            if y == key.skip(p) {
                                assert(x =~= key) by {
                                    assert forall|j: int| 0 <= j < x.len() implies x[j] == key[j] by {
                                        if j < p {
                                            assert(x.take(p)[j] == x[j]);
                                            assert(key.take(p)[j] == key[j]);
                                        } else {
                                            assert(y[j - p] == x[j]);
                                            assert(key.skip(p)[j - p] == key[j]);
                                        }
                                    }
                                }
                            }
                        }
                    }
                }
            } else {
                if x == key {
                    assert(false);
                }
                if f.len() <= x.len() && x.take(f.len() as int) == f {
                    assert(x.take(p) =~= f.take(p)) by {
                        assert forall|j: int| 0 <= j < p implies x.take(p)[j] == f.take(p)[j] by {
                            assert(x.take(f.len() as int)[j] == f[j]);
                        }
                    }
                }
            }
        }
    }

    /// Lookups that change only at `key`, to `v`, give the map with `key`
    /// set to `v`.
    proof fn lemma_lookup_map(n: Node<T>, m: Node<T>, key: Seq<u8>, v: T)
        requires
            forall|x: Seq<u8>| #[trigger] m.lookup(x) == if x == key { Some(v) } else { n.lookup(x) },
        ensures
            m@ == n@.insert(key, v),
    {
        assert forall|x: Seq<u8>| #[trigger] m@.contains_key(x) == n@.insert(key, v).contains_key(x) by {
            m.lemma_view(x);
            n.lemma_view(x);
        }
        assert(m@ =~= n@.insert(key, v)) by {
            assert forall|x: Seq<u8>| m@.contains_key(x) implies m@[x] == n@.insert(key, v)[x] by {
                m.lemma_view(x);
                n.lemma_view(x);
            }
        }
    }

    /// No node on a level that does not clash with `f` clashes with it.
    proof fn lemma_level_no_clash(self, f: Seq<u8>)
        requires
            !self.clashes(f),
        ensures
            forall|i: int| 0 <= i < self.level().len() ==> !clash((#[trigger] self.level()[i]).key@, f),
        decreases self,
    {
        if let Some(s) = self.sibling {
            s.lemma_level_no_clash(f);
            assert forall|i: int| 0 <= i < self.level().len() implies !clash((#[trigger] self.level()[i]).key@, f) by {
                if i > 0 {
                    assert(self.level()[i] == s.level()[i - 1]);
                }
            }
        } else {
            assert(self.level().len() == 1);
        }
    }

    /// A level on which nothing clashes with `k` does not hold `k`.
    proof fn lemma_no_clash(o: Option<Box<Node<T>>>, k: Seq<u8>)
        requires
            Self::wf_opt(o),
            !Self::chain_clash(o, k),
        ensures
            Self::lookup_opt(o, k) is None,
        decreases o,
    {
        if let Some(n) = o {
            Self::lemma_no_clash(n.sibling, k);
            let f = n.key@;
            if f.len() <= k.len() && k.take(f.len() as int) == f && f.len() > 0 {
                assert(k[0] == k.take(f.len() as int)[0]);
            }
            assert(n.own(k) is None);
            assert(Self::lookup_opt(o, k) == n.lookup(k));
        }
    }
}

impl<T> Node<T> {
    /// The first node one level down, if any.
    pub closed spec fn down(self) -> Option<Node<T>> {
        match self.child {
            Some(c) => Some(*c),
            None => None,
        }
    }

    /// The next node on the same level, if any.
    pub closed spec fn next(self) -> Option<Node<T>> {
        match self.sibling {
            Some(s) => Some(*s),
            None => None,
        }
    }

    /// A single node with fragment `key` that stores `value`.
    pub fn new(key: Vec<u8>, value: T) -> (n: Node<T>)
        ensures
            n.wf(),
            n.fragment() == key@,
            n.stored() == Some(value),
            n.down() is None,
            n.next() is None,
            n@ == map![key@ => value],
            forall|f: Seq<u8>| #[trigger] n.clashes(f) == clash(key@, f),
    {
        let n = Node { key, value: Some(value), child: None, sibling: None };
        proof {
            assert(n.key@.take(n.key@.len() as int) =~= n.key@);
            assert forall|k: Seq<u8>| #[trigger] n@.contains_key(k) == map![n.key@ => value].contains_key(k) by {
                n.lemma_view(k);
                assert(n.lookup(k) == n.own(k));
                if n.key@.len() <= k.len() && k.take(n.key@.len() as int) == n.key@ && k.len() == n.key@.len() {
                    assert(k =~= n.key@) by {
                        assert forall|j: int| 0 <= j < k.len() implies k[j] == n.key@[j] by {
                            assert(k.take(n.key@.len() as int)[j] == k[j]);
                        }
                    }
                }
            }
            assert(n@ =~= map![n.key@ => value]) by {
                assert forall|k: Seq<u8>| n@.contains_key(k) implies n@[k] == map![n.key@ => value][k] by {
                    n.lemma_view(k);
                }
            }
        }
        n
    }

    /// A boxed single node with fragment `key` that stores `value`.
    fn boxed(key: &[u8], value: T) -> (n: Box<Node<T>>)
        ensures
            n.wf(),
            n.fragment() == key@,
            is_leaf(*n, key@, value),
            n@ == map![key@ => value],
            forall|f: Seq<u8>| #[trigger] n.clashes(f) == clash(key@, f),
    {
        Box::new(Self::new(slice_to_vec(key), value))
    }

    /// The fragment of this node.
    pub fn key(&self) -> (r: &[u8])
        ensures
            r@ == self.fragment(),
    {
        self.key.as_slice()
    }

    /// The value held at this node itself.
    pub fn value(&self) -> (r: Option<&T>)
        ensures
            match r {
                Some(v) => self.stored() == Some(*v),
                None => self.stored() is None,
            },
    {
        self.value.as_ref()
    }

    /// The first node one level down, if any.
    pub fn child(&self) -> (r: Option<&Node<T>>)
        ensures
            match r {
                Some(c) => self.down() == Some(*c),
                None => self.down() is None,
            },
    {
        match &self.child {
            Some(c) => Some(&**c),
            None => None,
        }
    }

    /// The next node on the same level, if any.
    pub fn sibling(&self) -> (r: Option<&Node<T>>)
        ensures
            match r {
                Some(s) => self.next() == Some(*s),
                None => self.next() is None,
            },
    {
        match &self.sibling {
            Some(s) => Some(&**s),
            None => None,
        }
    }

    /// Counts the leading bytes that this node's fragment shares with `other`.
    pub fn common_prefix(&self, other: &[u8]) -> (r: usize)
        ensures
            r == common_len(self.fragment(), other@),
    {
        common_prefix(self.key.as_slice(), other)
    }

    /// Stores `value` under `key` on the level that starts at this node,
    /// `key` read from the start of this node's fragment.
    ///
    /// A key that no node on the level starts like is appended at the end of
    /// the level; a key that leaves a fragment part-way splits it there.
    pub fn insert(&mut self, key: &[u8], value: T)
        requires
            old(self).wf(),
        ensures
            final(self).wf(),
            final(self)@ == old(self)@.insert(key@, value),
            forall|f: Seq<u8>| #[trigger] final(self).clashes(f) == (old(self).clashes(f) || clash(key@, f)),
            inserted(*old(self), *final(self), key@, value),
        decreases *old(self),
    {
        let ghost before = *self;
        if key.len() == 0 && self.key.len() == 0 {
            self.value = Some(value);
            proof {
                assert(key@ =~= self.key@);
                assert forall|x: Seq<u8>| #[trigger] self.lookup(x) == if x == key@ {
                    Some(value)
                } else {
                    before.lookup(x)
                } by {
                    if x.len() == 0 {
                        assert(x =~= key@);
                    }
                    assert(x.take(0) =~= self.key@);
                }
                Self::lemma_lookup_map(before, *self, key@, value);
            }
            return;
        }
        proof {
            if key@.len() > 0 {
                Self::lemma_clash_head(self.sibling, key@, key@.take(1));
            }
            if self.key@.len() > 0 {
                Self::lemma_clash_head(self.sibling, self.key@, self.key@.take(1));
            }
        }
        let p = common_prefix(self.key.as_slice(), key);
        if p == 0 {
            proof {
                if self.key@.len() > 0 && self.key@.len() <= key@.len() {
                    assert(key@.take(self.key@.len() as int)[0] == key@[0]);
                }
            }
            assert(self.own(key@) is None);
            assert(!clash(key@, self.key@));
            match &mut self.sibling {
                Some(s) => {
                    s.insert(key, value);
                },
                None => {
                    self.sibling = Some(Self::boxed(key, value));
                },
            }
            proof {
                let s = *self.sibling->Some_0;
                assert(Self::lookup_opt(self.sibling, key@) == s.lookup(key@));
                assert forall|x: Seq<u8>| #[trigger] self.lookup(x) == if x == key@ {
                    Some(value)
                } else {
                    before.lookup(x)
                } by {
                    s.lemma_view(x);
                    if before.sibling is Some {
                        let s0 = *before.sibling->Some_0;
                        s0.lemma_view(x);
                    }
                }
                Self::lemma_lookup_map(before, *self, key@, value);
                assert forall|f: Seq<u8>| #[trigger] Self::chain_clash(self.sibling, f) == (Self::chain_clash(
                    before.sibling,
                    f,
                ) || clash(key@, f)) by {
                    assert(Self::chain_clash(self.sibling, f) == s.clashes(f));
                    if before.sibling is Some {
                        let s0 = *before.sibling->Some_0;
                        assert(Self::chain_clash(before.sibling, f) == s0.clashes(f));
                    }
                }
                assert forall|f: Seq<u8>| #[trigger] self.clashes(f) == (before.clashes(f) || clash(key@, f)) by {
                    assert(self.clashes(f) == (clash(self.key@, f) || Self::chain_clash(self.sibling, f)));
                    assert(before.clashes(f) == (clash(before.key@, f) || Self::chain_clash(before.sibling, f)));
                }
            }
        } else if p == self.key.len() {
            assert(self.key@.take(p as int) =~= self.key@);
            assert(key@[0] == key@.take(p as int)[0]);
            assert(key@.take(1) =~= self.key@.take(1));
            if p == key.len() {
                assert(key@.take(p as int) =~= key@);
                self.value = Some(value);
                proof {
                    assert forall|x: Seq<u8>| #[trigger] self.lookup(x) == if x == key@ {
                        Some(value)
                    } else {
                        before.lookup(x)
                    } by {
                        assert(self.own(x) == if x == key@ { Some(value) } else { before.own(x) }) by {
                            if x.len() == key@.len() && x.take(p as int) == key@ {
                                assert(x =~= key@) by {
                                    assert forall|j: int| 0 <= j < x.len() implies x[j] == key@[j] by {
                                        assert(x.take(p as int)[j] == x[j]);
                                    }
                                }
                            }
                        }
                    }
                    Self::lemma_lookup_map(before, *self, key@, value);
                }
            } else {
                let (_, rest) = key.split_at(p);
                assert(rest@ =~= key@.skip(p as int));
                match &mut self.child {
                    Some(c) => {
                        c.insert(rest, value);
                    },
                    None => {
                        self.child = Some(Self::boxed(rest, value));
                    },
                }
                proof {
                    let c = *self.child->Some_0;
                    assert(!clash(rest@, Seq::<u8>::empty()));
                    assert forall|f: Seq<u8>| #[trigger] Self::chain_clash(self.child, f) == (Self::chain_clash(
                        before.child,
                        f,
                    ) || clash(rest@, f)) by {
                        assert(Self::chain_clash(self.child, f) == c.clashes(f));
                        if before.child is Some {
                            let c0 = *before.child->Some_0;
                            assert(Self::chain_clash(before.child, f) == c0.clashes(f));
                        }
                    }
                    assert(Self::wf_opt(self.child));
                    assert forall|y: Seq<u8>| #[trigger] Self::lookup_opt(self.child, y) == if y == rest@ {
                        Some(value)
                    } else {
                        Self::lookup_opt(before.child, y)
                    } by {
                        c.lemma_view(y);
                        if before.child is Some {
                            let c0 = *before.child->Some_0;
                            c0.lemma_view(y);
                        }
                    }
                    assert forall|x: Seq<u8>| #[trigger] self.lookup(x) == if x == key@ {
                        Some(value)
                    } else {
                        before.lookup(x)
                    } by {
                        assert(self.own(x) == if x == key@ { Some(value) } else { before.own(x) }) by {
                            let f = self.key@;
                            assert(before.key@ == f);
                            assert(key@.take(f.len() as int) == f);
                            assert(key@.skip(f.len() as int) == rest@);
                            if x == key@ {
                                assert(self.own(x) == Self::lookup_opt(self.child, rest@));
                            } else if f.len() <= x.len() && x.take(f.len() as int) == f && x.len() != f.len() {
                                let y = x.skip(f.len() as int);
                                if y == rest@ {
                                    assert(x.len() == key@.len());
                                    assert(x =~= key@) by {
                                        assert forall|j: int| 0 <= j < x.len() implies x[j] == key@[j] by {
                                            if j < p {
                                                assert(x.take(p as int)[j] == x[j]);
                                                assert(key@.take(p as int)[j] == key@[j]);
                                            } else {
                                                assert(y[j - p] == x[j]);
                                                assert(rest@[j - p] == key@[j]);
                                            }
                                        }
                                    }
                                }
                                assert(self.own(x) == Self::lookup_opt(self.child, y));
                                assert(before.own(x) == Self::lookup_opt(before.child, y));
                            }
                        }
                    }
                    Self::lemma_lookup_map(before, *self, key@, value);
                }
            }
            proof {
                Self::lemma_no_clash(before.sibling, key@);
                assert forall|f: Seq<u8>| #[trigger] self.clashes(f) == (before.clashes(f) || clash(key@, f)) by {
                    assert(self.clashes(f) == (clash(self.key@, f) || Self::chain_clash(self.sibling, f)));
                    assert(before.clashes(f) == (clash(before.key@, f) || Self::chain_clash(before.sibling, f)));
                }
            }
        } else {
            proof {
                assert(key@[0] == key@.take(p as int)[0]);
                assert(key@.take(1) =~= self.key@.take(1));
                Self::lemma_no_clash(self.sibling, key@);
                if self.key@.len() <= key@.len() {
                    assert(key@.take(self.key@.len() as int)[p as int] == key@[p as int]);
                }
            }
            let tail = self.key.split_off(p);
            let old_value = self.value.take();
            let old_child = self.child.take();
            let next = if p < key.len() {
                let (_, rest) = key.split_at(p);
                assert(rest@ =~= key@.skip(p as int));
                Some(Self::boxed(rest, value))
            } else {
                assert(key@.take(p as int) =~= key@);
                self.value = Some(value);
                None
            };
            self.child = Some(Box::new(Node { key: tail, value: old_value, child: old_child, sibling: next }));
            proof {
                Self::lemma_split_own(before, *self, p as int, key@, value);
                assert forall|x: Seq<u8>| #[trigger] self.lookup(x) == if x == key@ {
                    Some(value)
                } else {
                    before.lookup(x)
                } by {
                    assert(self.own(x) == if x == key@ { Some(value) } else { before.own(x) });
                    assert(self.lookup(x) == match self.own(x) {
                        Some(v) => Some(v),
                        None => Self::lookup_opt(self.sibling, x),
                    });
                    assert(before.lookup(x) == match before.own(x) {
                        Some(v) => Some(v),
                        None => Self::lookup_opt(before.sibling, x),
                    });
                }
                Self::lemma_lookup_map(before, *self, key@, value);
                Self::lemma_clash_head(self.sibling, self.key@, before.key@);
                let t = *self.child->Some_0;
                assert(t.key@[0] == before.key@[p as int]);
                assert(Self::wf_opt(before.child));
                if t.sibling is Some {
                    let l = *t.sibling->Some_0;
                    assert(l.key@[0] == key@[p as int]);
                    assert(l.clashes(t.key@) == clash(l.key@, t.key@));
                    assert(!Self::chain_clash(t.sibling, t.key@));
                    assert(!l.clashes(Seq::<u8>::empty()));
                }
                assert(!Self::chain_clash(t.sibling, Seq::<u8>::empty()));
                assert(!t.clashes(Seq::<u8>::empty()));
                assert(t.wf());
                assert(!Self::chain_clash(self.child, Seq::<u8>::empty()));
                assert(!Self::chain_clash(self.sibling, self.key@));
            }
        }
    }

    /// Finds the node that holds a value under `key`, for changing it in
    /// place.
    pub fn find_mut(&mut self, key: &[u8]) -> (r: Option<&mut Node<T>>)
        requires
            old(self).wf(),
        ensures
            r is Some <==> old(self)@.contains_key(key@),
            r is None ==> *final(self) == *old(self),
            match r {
                Some(n) => {
                    &&& *n == old(self).at(key@)
                    &&& n.stored() == found(old(self)@, key@)
                    &&& Self::replaced(*old(self), *final(self), key@, *final(n))
                },
                None => true,
            },
    {
        if self.find(key).is_none() {
            return None;
        }
        Some(self.locate_mut(key))
    }

    /// The node that holds the stored key `key`.
    fn locate_mut(&mut self, key: &[u8]) -> (n: &mut Node<T>)
        requires
            old(self).wf(),
            old(self)@.contains_key(key@),
        ensures
            *n == old(self).at(key@),
            n.stored() == found(old(self)@, key@),
            Self::replaced(*old(self), *final(self), key@, *final(n)),
        decreases *old(self),
    {
        proof {
            self.lemma_view(key@);
        }
        if key.len() == 0 && self.key.len() == 0 {
            proof {
                assert(key@.take(0) =~= key@);
                assert(key@ =~= self.key@);
                Self::lemma_no_clash(self.sibling, key@);
            }
            return self;
        }
        proof {
            if key@.len() > 0 {
                Self::lemma_clash_head(self.sibling, key@, key@.take(1));
            }
            if self.key@.len() > 0 {
                Self::lemma_clash_head(self.sibling, self.key@, self.key@.take(1));
            }
        }
        let p = common_prefix(self.key.as_slice(), key);
        if p == 0 {
            proof {
                if self.key@.len() > 0 && self.key@.len() <= key@.len() {
                    assert(key@.take(self.key@.len() as int)[0] == key@[0]);
                }
                assert(self.own(key@) is None);
                if self.sibling is Some {
                    let s = *self.sibling->Some_0;
                    s.lemma_view(key@);
                }
            }
            let s = self.sibling.as_mut().unwrap();
            s.locate_mut(key)
        } else {
            proof {
                assert(key@[0] == key@.take(p as int)[0]);
                assert(key@.take(1) =~= self.key@.take(1));
                Self::lemma_no_clash(self.sibling, key@);
                if p < self.key@.len() && self.key@.len() <= key@.len() {
                    assert(key@.take(self.key@.len() as int)[p as int] == key@[p as int]);
                }
                assert(self.own(key@) is Some);
            }
            assert(self.key@.take(p as int) =~= self.key@);
            if p == key.len() {
                assert(key@.take(p as int) =~= key@);
                self
            } else {
                let (_, rest) = key.split_at(p);
                assert(rest@ =~= key@.skip(p as int));
                proof {
                    let c = *self.child->Some_0;
                    c.lemma_view(rest@);
                }
                let c = self.child.as_mut().unwrap();
                c.locate_mut(rest)
            }
        }
    }

    /// Finds the node on this level, or below it, at which the key `key`
    /// ends; `key` is read from the start of this node's fragment.
    pub fn find(&self, key: &[u8]) -> (r: Option<&Node<T>>)
        requires
            self.wf(),
        ensures
            r is Some <==> self@.contains_key(key@),
            r is Some ==> r->Some_0.stored() == found(self@, key@),
        decreases self,
    {
        proof {
            self.lemma_view(key@);
        }
        if key.len() == 0 && self.key.len() == 0 {
            proof {
                assert(key@.take(0) =~= key@);
                assert(key@ =~= self.key@);
                Self::lemma_no_clash(self.sibling, key@);
            }
            if self.value.is_some() {
                return Some(self);
            } else {
                return None;
            }
        }
        proof {
            if key@.len() > 0 {
                Self::lemma_clash_head(self.sibling, key@, key@.take(1));
            }
            if self.key@.len() > 0 {
                Self::lemma_clash_head(self.sibling, self.key@, self.key@.take(1));
            }
        }
        let p = common_prefix(self.key.as_slice(), key);
        if p == 0 {
            proof {
                if self.key@.len() > 0 && self.key@.len() <= key@.len() {
                    assert(key@.take(self.key@.len() as int)[0] == key@[0]);
                }
            }
            assert(self.own(key@) is None);
            match &self.sibling {
                Some(s) => {
                    let r = s.find(key);
                    proof {
                        s.lemma_view(key@);
                    }
                    r
                },
                None => None,
            }
        } else if p == self.key.len() {
            assert(self.key@.take(p as int) =~= self.key@);
            assert(key@[0] == key@.take(p as int)[0]);
            assert(key@.take(1) =~= self.key@.take(1));
            proof {
                Self::lemma_no_clash(self.sibling, key@);
            }
            if p == key.len() {
                assert(key@.take(p as int) =~= key@);
                if self.value.is_some() {
                    Some(self)
                } else {
                    None
                }
            } else {
                let (_, rest) = key.split_at(p);
                assert(rest@ =~= key@.skip(p as int));
                match &self.child {
                    Some(c) => {
                        let r = c.find(rest);
                        proof {
                            c.lemma_view(rest@);
                        }
                        r
                    },
                    None => None,
                }
            }
        } else {
            proof {
                assert(key@[0] == key@.take(p as int)[0]);
                assert(key@.take(1) =~= self.key@.take(1));
                Self::lemma_no_clash(self.sibling, key@);
                if self.key@.len() <= key@.len() {
                    assert(key@.take(self.key@.len() as int)[p as int] == key@[p as int]);
                }
            }
            None
        }
    }
}


/// Putting a node with a new value in place of the node that holds the
/// stored key `k` changes what the level holds only at `k`, and keeps it
/// well formed.
pub broadcast proof fn lemma_node_replaced_value<T>(o: Node<T>, n: Node<T>, k: Seq<u8>, t: Node<T>)
    requires
        o.wf(),
        o@.contains_key(k),
        #[trigger] Node::<T>::replaced(o, n, k, t),
        t.fragment() == o.at(k).fragment(),
        t.down() == o.at(k).down(),
        t.next() == o.at(k).next(),
        t.stored() is Some,
    ensures
        n.wf(),
        n@ == o@.insert(k, t.stored()->Some_0),
        forall|f: Seq<u8>| #[trigger] n.clashes(f) == o.clashes(f),
    decreases o,
{
    let v = t.value->Some_0;
    o.lemma_view(k);
    let f = o.key@;
    if o.own(k) is Some && k.len() != f.len() && o.child is Some {
        let c = *o.child->Some_0;
        let c2 = *n.child->Some_0;
        let r = k.skip(f.len() as int);
        assert(c.lookup(r) is Some);
        c.lemma_view(r);
        lemma_node_replaced_value(c, c2, r, t);
        assert forall|g: Seq<u8>| #[trigger] Node::<T>::chain_clash(n.child, g) == Node::<T>::chain_clash(o.child, g) by {
            assert(c2.clashes(g) == c.clashes(g));
        }
        assert forall|x: Seq<u8>| #[trigger] n.lookup(x) == if x == k { Some(v) } else { o.lookup(x) } by {
            assert(n.own(x) == if x == k { Some(v) } else { o.own(x) }) by {
                if f.len() <= x.len() && x.take(f.len() as int) == f && x.len() != f.len() {
                    let y = x.skip(f.len() as int);
                    c2.lemma_view(y);
                    c.lemma_view(y);
                    if y == r {
                        assert(x.len() == k.len());
                        assert(x =~= k) by {
                            assert forall|j: int| 0 <= j < x.len() implies x[j] == k[j] by {
                                if j < f.len() {
                                    assert(x.take(f.len() as int)[j] == x[j]);
                                    assert(k.take(f.len() as int)[j] == k[j]);
                                } else {
                                    assert(y[j - f.len()] == x[j]);
                                    assert(r[j - f.len()] == k[j]);
                                }
                            }
                        }
                    }
                    assert(n.own(x) == Node::<T>::lookup_opt(n.child, y));
                    assert(o.own(x) == Node::<T>::lookup_opt(o.child, y));
                }
            }
        }
        assert forall|g: Seq<u8>| #[trigger] n.clashes(g) == o.clashes(g) by {
            assert(n.clashes(g) == (clash(n.key@, g) || Node::<T>::chain_clash(n.sibling, g)));
            assert(o.clashes(g) == (clash(o.key@, g) || Node::<T>::chain_clash(o.sibling, g)));
        }
        Node::<T>::lemma_lookup_map(o, n, k, v);
    } else if o.own(k) is None && o.sibling is Some {
        let s0 = *o.sibling->Some_0;
        let s1 = *n.sibling->Some_0;
        assert(s0.lookup(k) is Some);
        s0.lemma_view(k);
        lemma_node_replaced_value(s0, s1, k, t);
        assert forall|g: Seq<u8>| #[trigger] Node::<T>::chain_clash(n.sibling, g) == Node::<T>::chain_clash(o.sibling, g) by {
            assert(s1.clashes(g) == s0.clashes(g));
        }
        assert forall|x: Seq<u8>| #[trigger] n.lookup(x) == if x == k { Some(v) } else { o.lookup(x) } by {
            s1.lemma_view(x);
            s0.lemma_view(x);
            if x == k {
                if n.own(x) is Some {
                    assert(n.own(x) == o.own(x));
                }
            }
        }
        assert forall|g: Seq<u8>| #[trigger] n.clashes(g) == o.clashes(g) by {
            assert(n.clashes(g) == (clash(n.key@, g) || Node::<T>::chain_clash(n.sibling, g)));
            assert(o.clashes(g) == (clash(o.key@, g) || Node::<T>::chain_clash(o.sibling, g)));
        }
        Node::<T>::lemma_lookup_map(o, n, k, v);
    } else {
        assert(o.own(k) is Some);
        assert(k.len() == f.len());
        assert(o.at(k) == o);
        assert(n == t);
        assert(k =~= f) by {
            assert forall|j: int| 0 <= j < k.len() implies k[j] == f[j] by {
                assert(k.take(f.len() as int)[j] == k[j]);
            }
        }
        assert(n.child == o.child);
        assert(n.sibling == o.sibling);
        assert forall|x: Seq<u8>| #[trigger] n.lookup(x) == if x == k { Some(v) } else { o.lookup(x) } by {
            assert(n.own(x) == if x == k { Some(v) } else { o.own(x) }) by {
                if f.len() == x.len() && x.take(f.len() as int) == f {
                    assert(x =~= k) by {
                        assert forall|j: int| 0 <= j < x.len() implies x[j] == k[j] by {
                            assert(x.take(f.len() as int)[j] == x[j]);
                        }
                    }
                }
                assert(f.take(f.len() as int) =~= f);
            }
        }
        assert forall|g: Seq<u8>| #[trigger] n.clashes(g) == o.clashes(g) by {
            assert(n.clashes(g) == (clash(n.key@, g) || Node::<T>::chain_clash(n.sibling, g)));
            assert(o.clashes(g) == (clash(o.key@, g) || Node::<T>::chain_clash(o.sibling, g)));
        }
        Node::<T>::lemma_lookup_map(o, n, k, v);
    }
}


/// No two nodes on a level of a well-formed byte-keyed tree share a
/// non-empty prefix, at most one of them has an empty fragment, and every
/// node is well formed, with a non-empty fragment at the first node one level
/// down; every insertion keeps a tree well formed, so this holds after any
/// sequence of insertions.
pub proof fn lemma_disjoint_level<T>(n: Node<T>)
    requires
        n.wf(),
    ensures
        n.level().len() > 0,
        n.level()[0] == n,
        forall|i: int, j: int|
            0 <= i < n.level().len() && 0 <= j < n.level().len() && i != j ==> common_len(
                (#[trigger] n.level()[i]).fragment(),
                (#[trigger] n.level()[j]).fragment(),
            ) == 0,
        forall|i: int| 0 <= i < n.level().len() ==> (#[trigger] n.level()[i]).wf(),
        forall|i: int|
            0 <= i < n.level().len() && (#[trigger] n.level()[i]).down() is Some ==> n.level()[i].down()->Some_0.fragment().len()
                > 0,
    decreases n,
{
    let l = n.level();
    assert(l[0] == n);
    if let Some(s) = n.sibling {
        lemma_disjoint_level(*s);
        s.lemma_level_no_clash(n.key@);
        let ls = s.level();
        assert(l == seq![n] + ls);
        assert forall|i: int, j: int|
            0 <= i < l.len() && 0 <= j < l.len() && i != j implies common_len(
            (#[trigger] l[i]).fragment(),
            (#[trigger] l[j]).fragment(),
        ) == 0 by {
            if i > 0 {
                assert(l[i] == ls[i - 1]);
            }
            if j > 0 {
                assert(l[j] == ls[j - 1]);
            }
            if i == 0 {
                assert(!clash(ls[j - 1].key@, n.key@));
            } else if j == 0 {
                assert(!clash(ls[i - 1].key@, n.key@));
            }
        }
        assert forall|i: int| 0 <= i < l.len() implies (#[trigger] l[i]).wf() by {
            if i > 0 {
                assert(l[i] == ls[i - 1]);
            }
        }
        assert forall|i: int| 0 <= i < l.len() && (#[trigger] l[i]).down() is Some implies l[i].down()->Some_0.fragment().len() > 0 by {
            if i > 0 {
                assert(l[i] == ls[i - 1]);
            } else {
                let c = *n.child->Some_0;
                assert(!c.clashes(Seq::<u8>::empty()));
            }
        }
    } else {
        assert(l.len() == 1);
        if n.child is Some {
            let c = *n.child->Some_0;
            assert(!c.clashes(Seq::<u8>::empty()));
        }
    }
}

/// A byte-keyed tree holds what the level at its first node holds.
pub proof fn lemma_tree_top<T>(t: Tree<T>)
    ensures
        t.top() is None ==> t@ == Map::<Seq<u8>, T>::empty() && t.wf(),
        t.top() is Some ==> t@ == t.top()->Some_0@ && (t.wf() <==> t.top()->Some_0.wf()),
{
    if t.root is Some {
        t.lemma_view(Seq::<u8>::empty());
    } else {
        assert(t@ =~= Map::<Seq<u8>, T>::empty());
    }
}

/// A byte-keyed prefix tree: the top level of nodes, if any.
pub struct Tree<T> {
    root: Option<Box<Node<T>>>,
}

impl<T> Tree<T> {
    /// The first node of the top level, if any.
    pub closed spec fn top(self) -> Option<Node<T>> {
        match self.root {
            Some(n) => Some(*n),
            None => None,
        }
    }

    /// The nodes are well formed.
    pub closed spec fn wf(self) -> bool {
        Node::<T>::wf_opt(self.root)
    }
}

impl<T> View for Tree<T> {
    type V = Map<Seq<u8>, T>;

    /// Every stored key with its value.
    closed spec fn view(&self) -> Map<Seq<u8>, T> {
        Map::new(
            |k: Seq<u8>| Node::<T>::lookup_opt(self.root, k) is Some,
            |k: Seq<u8>| Node::<T>::lookup_opt(self.root, k)->Some_0,
        )
    }
}

impl<T> Tree<T> {
    proof fn lemma_view(self, k: Seq<u8>)
        ensures
            found(self@, k) == Node::<T>::lookup_opt(self.root, k),
            self.root matches Some(n) ==> self@ == n@,
    {
        if self.root is Some {
            assert(self@ =~= (*self.root->Some_0)@);
        }
    }

    /// An empty tree.
    pub fn new() -> (t: Tree<T>)
        ensures
            t.wf(),
            t.top() is None,
            t@ == Map::<Seq<u8>, T>::empty(),
    {
        let t = Tree { root: None };
        assert(t@ =~= Map::<Seq<u8>, T>::empty());
        t
    }

    /// The first node of the top level, if any.
    pub fn root(&self) -> (r: Option<&Node<T>>)
        ensures
            match r {
                Some(n) => self.top() == Some(*n),
                None => self.top() is None,
            },
    {
        match &self.root {
            Some(n) => Some(&**n),
            None => None,
        }
    }

    /// Finds the node at which the key `key` ends.
    pub fn find(&self, key: &[u8]) -> (r: Option<&Node<T>>)
        requires
            self.wf(),
        ensures
            r is Some <==> self@.contains_key(key@),
            r is Some ==> r->Some_0.stored() == found(self@, key@),
    {
        proof {
            self.lemma_view(key@);
        }
        match &self.root {
            Some(n) => n.find(key),
            None => None,
        }
    }

    /// Finds the node that holds a value under `key`, for changing it in
    /// place.
    pub fn find_mut(&mut self, key: &[u8]) -> (r: Option<&mut Node<T>>)
        requires
            old(self).wf(),
        ensures
            r is Some <==> old(self)@.contains_key(key@),
            r is None ==> *final(self) == *old(self),
            match r {
                Some(n) => {
                    &&& n.stored() == found(old(self)@, key@)
                    &&& old(self).top() is Some
                    &&& final(self).top() is Some
                    &&& Node::<T>::replaced(
                        old(self).top()->Some_0,
                        final(self).top()->Some_0,
                        key@,
                        *final(n),
                    )
                },
                None => true,
            },
    {
        proof {
            self.lemma_view(key@);
        }
        match &mut self.root {
            Some(n) => n.find_mut(key),
            None => None,
        }
    }

    /// Stores `value` under `key`.
    pub fn insert(&mut self, key: &[u8], value: T)
        requires
            old(self).wf(),
        ensures
            final(self).wf(),
            final(self)@ == old(self)@.insert(key@, value),
            final(self).top() is Some,
            match old(self).top() {
                Some(o) => inserted(o, final(self).top()->Some_0, key@, value),
                None => is_leaf(final(self).top()->Some_0, key@, value),
            },
    {
        match &mut self.root {
            Some(n) => {
                n.insert(key, value);
            },
            None => {
                self.root = Some(Node::boxed(key, value));
            },
        }
        proof {
            let n = *self.root->Some_0;
            self.lemma_view(key@);
            assert(self@ == n@);
            if old(self).root is Some {
                old(self).lemma_view(key@);
            } else {
                assert(old(self)@ =~= Map::<Seq<u8>, T>::empty());
                assert(map![key@ => value] =~= Map::<Seq<u8>, T>::empty().insert(key@, value));
            }
        }
    }
}

} // verus!
