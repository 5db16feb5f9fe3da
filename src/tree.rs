use vstd::prelude::*;

use crate::symbol::Symbol;
use vstd::seq_lib::seq_to_set_is_finite;
use vstd::slice::slice_to_vec;

verus! {

/// Length of the longest common prefix of `a` and `b`.
pub open spec fn common_len<K>(a: Seq<K>, b: Seq<K>) -> nat
    decreases a.len(),
{
    if a.len() == 0 || b.len() == 0 || a[0] != b[0] {
        0
    } else {
        1 + common_len(a.drop_first(), b.drop_first())
    }
}

/// The common prefix is no longer than either sequence.
pub proof fn lemma_common_len_bounds<K>(a: Seq<K>, b: Seq<K>)
    ensures
        common_len(a, b) <= a.len(),
        common_len(a, b) <= b.len(),
    decreases a.len(),
{
    if a.len() > 0 && b.len() > 0 && a[0] == b[0] {
        lemma_common_len_bounds(a.drop_first(), b.drop_first());
    }
}

/// `n` is the length of the longest common prefix of `a` and `b`.
proof fn lemma_common_len<K>(a: Seq<K>, b: Seq<K>, n: nat)
    requires
        n <= a.len(),
        n <= b.len(),
        a.take(n as int) == b.take(n as int),
        n < a.len() && n < b.len() ==> a[n as int] != b[n as int],
    ensures
        common_len(a, b) == n,
    decreases n,
{
    if n > 0 {
        assert(a[0] == a.take(n as int)[0]);
        assert(b[0] == b.take(n as int)[0]);
        assert(a.drop_first().take(n - 1) =~= a.take(n as int).drop_first());
        assert(b.drop_first().take(n - 1) =~= b.take(n as int).drop_first());
        lemma_common_len(a.drop_first(), b.drop_first(), (n - 1) as nat);
    }
}

/// Counts the leading symbols that `a` and `b` share.
pub fn common_prefix<K: Symbol>(a: &[K], b: &[K]) -> (r: usize)
    ensures
        r == common_len(a@, b@),
        r <= a@.len(),
        r <= b@.len(),
        a@.take(r as int) == b@.take(r as int),
        r < a@.len() && r < b@.len() ==> a@[r as int] != b@[r as int],
{
    let mut i: usize = 0;
    while i < a.len() && i < b.len() && a[i].same(&b[i])
        invariant
            i <= a@.len(),
            i <= b@.len(),
            a@.take(i as int) == b@.take(i as int),
        decreases a@.len() - i,
    {
        assert(a@.take(i + 1) == a@.take(i as int).push(a@[i as int]));
        assert(b@.take(i + 1) == b@.take(i as int).push(b@[i as int]));
        i = i + 1;
    }
    proof {
        lemma_common_len(a@, b@, i as nat);
    }
    i
}



/// `a` is a proper prefix of `b`.
pub open spec fn proper_prefix<K>(a: Seq<K>, b: Seq<K>) -> bool {
    a.len() < b.len() && b.take(a.len() as int) == a
}

/// `t` is a node without children that stores `v` under the fragment `k`.
pub open spec fn is_leaf<K, V>(t: Tree<K, V>, k: Seq<K>, v: V) -> bool {
    &&& t.fragment() == k
    &&& t.stored() == Some(v)
    &&& t.branches().len() == 0
}

/// `n` is the node that storing `v` under `k` makes of the node `o`, `k` read
/// from the start of `o`'s fragment. Let `p` be the length of the prefix that
/// the fragment and `k` share.
/// - `k` leaves the fragment part-way: the fragment is cut after `p`
///   symbols; its tail, with the old value and children, becomes the first
///   child, and a leaf for the rest of `k` follows it, unless `k` ends at
///   the cut, in which case the cut node itself stores `v`.
/// - `k` is the fragment: only the value changes.
/// - `k` goes on past the fragment: the child that starts like the rest of
///   `k` is changed in the same way, all other children stay as they were;
///   without such a child, a leaf for the rest of `k` is appended last.
pub open spec fn inserted<K, V>(o: Tree<K, V>, n: Tree<K, V>, k: Seq<K>, v: V) -> bool
    decreases k.len(), if o.fragment().len() == 0 { 1int } else { 0int },
{
    let f = o.fragment();
    let p = common_len(f, k);
    if p < f.len() {
        &&& n.fragment() == f.take(p as int)
        &&& n.stored() == if p == k.len() { Some(v) } else { None }
        &&& n.branches().len() == if p == k.len() { 1int } else { 2int }
        &&& n.branches()[0].fragment() == f.skip(p as int)
        &&& n.branches()[0].stored() == o.stored()
        &&& n.branches()[0].branches() == o.branches()
        &&& p < k.len() ==> is_leaf(n.branches()[1], k.skip(p as int), v)
    } else if p == k.len() {
        &&& n.fragment() == f
        &&& n.stored() == Some(v)
        &&& n.branches() == o.branches()
    } else {
        proof {
            lemma_common_len_bounds(f, k);
        }
        let r = k.skip(p as int);
        let cs = o.branches();
        &&& n.fragment() == f
        &&& n.stored() == o.stored()
        &&& if exists|i: int| 0 <= i < cs.len() && (#[trigger] cs[i]).fragment().len() > 0 && cs[i].fragment()[0] == r[0] {
            let i = choose|i: int| 0 <= i < cs.len() && (#[trigger] cs[i]).fragment().len() > 0 && cs[i].fragment()[0] == r[0];
            &&& n.branches().len() == cs.len()
            &&& forall|j: int| 0 <= j < cs.len() && j != i ==> #[trigger] n.branches()[j] == cs[j]
            &&& inserted(cs[i], n.branches()[i], r, v)
        } else {
            &&& n.branches().len() == cs.len() + 1
            &&& n.branches().take(cs.len() as int) == cs
            &&& is_leaf(n.branches()[cs.len() as int], r, v)
        }
    }
}

/// A node of a compressed prefix tree.
///
/// `key` labels the edge that leads into the node, `value` is present when
/// the key that ends here is stored, and `children` are kept in insertion
/// order. No two children start with the same symbol.
#[derive(Debug)]
pub struct Tree<K, V> {
    key: Vec<K>,
    pub value: Option<V>,
    children: Vec<Tree<K, V>>,
}

/// The value stored under `k` in a search that consumes `k` from the start.
pub open spec fn found<K, V>(m: Map<Seq<K>, V>, k: Seq<K>) -> Option<V> {
    if m.contains_key(k) {
        Some(m[k])
    } else {
        None
    }
}

impl<K, V> Tree<K, V> {
    /// The edge label of this node.
    pub closed spec fn fragment(self) -> Seq<K> {
        self.key@
    }

    /// The value held at this node itself.
    pub closed spec fn stored(self) -> Option<V> {
        self.value
    }

    /// The children of this node, in storage order.
    pub closed spec fn branches(self) -> Seq<Tree<K, V>> {
        self.children@
    }

    /// The value under `k`, where `k` is read from the start of this node's
    /// fragment.
    pub closed spec fn lookup(self, k: Seq<K>) -> Option<V>
        decreases self,
    {
        let f = self.key@;
        if f.len() <= k.len() && k.take(f.len() as int) == f {
            if k.len() == f.len() {
                self.value
            } else {
                Self::lookup_in(self.children@, k.skip(f.len() as int))
            }
        } else {
            None
        }
    }

    /// The value under `k` in the first of `cs` that stores one.
    pub closed spec fn lookup_in(cs: Seq<Tree<K, V>>, k: Seq<K>) -> Option<V>
        decreases cs,
    {
        if cs.len() == 0 {
            None
        } else {
            match cs[0].lookup(k) {
                Some(v) => Some(v),
                None => Self::lookup_in(cs.drop_first(), k),
            }
        }
    }

    /// The entries of the subtree at this node in traversal order: the value
    /// held at the node first, then the entries of each child, children in
    /// storage order. `p` is the key that leads to this node's fragment.
    pub open spec fn entries(self, p: Seq<K>) -> Seq<(Seq<K>, V)>
        decreases self,
    {
        let q = p + self.fragment();
        let own = match self.stored() {
            Some(v) => seq![(q, v)],
            None => Seq::<(Seq<K>, V)>::empty(),
        };
        own + Self::entries_in(self.branches(), q)
    }

    /// The entries of the subtrees at `cs`, one after the other.
    pub open spec fn entries_in(cs: Seq<Tree<K, V>>, p: Seq<K>) -> Seq<(Seq<K>, V)>
        decreases cs,
    {
        if cs.len() == 0 {
            Seq::<(Seq<K>, V)>::empty()
        } else {
            cs[0].entries(p) + Self::entries_in(cs.drop_first(), p)
        }
    }

    /// The entries of the whole tree at this node, in traversal order.
    pub open spec fn traversal(self) -> Seq<(Seq<K>, V)> {
        self.entries(Seq::<K>::empty())
    }

    /// The number of nodes in the subtree at this node.
    pub closed spec fn size(self) -> nat
        decreases self,
    {
        1 + Self::size_in(self.children@)
    }

    /// The number of nodes in the subtrees at `cs`.
    pub closed spec fn size_in(cs: Seq<Tree<K, V>>) -> nat
        decreases cs,
    {
        if cs.len() == 0 {
            0
        } else {
            cs[0].size() + Self::size_in(cs.drop_first())
        }
    }

    /// The position of the child whose fragment starts with the first symbol
    /// of `x`.
    pub closed spec fn pick(cs: Seq<Tree<K, V>>, x: Seq<K>) -> int {
        if exists|i: int| 0 <= i < cs.len() && x.len() > 0 && (#[trigger] cs[i]).key@[0] == x[0] {
            choose|i: int| 0 <= i < cs.len() && x.len() > 0 && (#[trigger] cs[i]).key@[0] == x[0]
        } else {
            -1
        }
    }

    /// The node at which a search for `k` ends.
    pub closed spec fn at(self, k: Seq<K>) -> Tree<K, V>
        decreases self,
    {
        let f = self.key@;
        if f.len() < k.len() && k.take(f.len() as int) == f {
            let x = k.skip(f.len() as int);
            let i = Self::pick(self.children@, x);
            if 0 <= i < self.children@.len() {
                self.children@[i].at(x)
            } else {
                self
            }
        } else {
            self
        }
    }

    /// `after` is `before` with the node at which a search for `k` ends
    /// replaced by `t`.
    pub closed spec fn replaced(before: Tree<K, V>, after: Tree<K, V>, k: Seq<K>, t: Tree<K, V>) -> bool
        decreases before,
    {
        let f = before.key@;
        if f.len() < k.len() && k.take(f.len() as int) == f {
            let x = k.skip(f.len() as int);
            let i = Self::pick(before.children@, x);
            if 0 <= i < before.children@.len() {
                &&& after.key@ == f
                &&& after.value == before.value
                &&& after.children@ == before.children@.update(i, after.children@[i])
                &&& Self::replaced(before.children@[i], after.children@[i], x, t)
            } else {
                after == t
            }
        } else {
            after == t
        }
    }

    /// Sibling fragments are non-empty and start with distinct symbols, so no
    /// two of them share a non-empty prefix.
    pub closed spec fn siblings_ok(cs: Seq<Tree<K, V>>) -> bool {
        &&& forall|i: int| 0 <= i < cs.len() ==> (#[trigger] cs[i]).key@.len() > 0
        &&& forall|i: int, j: int|
            0 <= i < cs.len() && 0 <= j < cs.len() && i != j ==> (#[trigger] cs[i]).key@[0]
                != (#[trigger] cs[j]).key@[0]
    }

    /// The tree invariant, holding at every node.
    pub closed spec fn wf(self) -> bool
        decreases self,
    {
        &&& Self::siblings_ok(self.children@)
        &&& forall|i: int| 0 <= i < self.children@.len() ==> (#[trigger] self.children@[i]).wf()
    }
}

impl<K, V> View for Tree<K, V> {
    type V = Map<Seq<K>, V>;

    /// Every full key stored in this subtree, fragment of this node included,
    /// with its value.
    closed spec fn view(&self) -> Map<Seq<K>, V> {
        Map::new(|k: Seq<K>| self.lookup(k) is Some, |k: Seq<K>| self.lookup(k)->Some_0)
    }
}

impl<K, V> Tree<K, V> {
    proof fn lemma_view(self, k: Seq<K>)
        ensures
            found(self@, k) == self.lookup(k),
    {
    }

    /// A stored key begins with the node's fragment.
    proof fn lemma_lookup_prefix(self, k: Seq<K>)
        ensures
            self.lookup(k) is Some ==> self.key@.len() <= k.len() && k.take(
                self.key@.len() as int,
            ) == self.key@,
    {
    }

    proof fn lemma_lookup_in_one(c: Tree<K, V>, k: Seq<K>)
        ensures
            Self::lookup_in(seq![c], k) == c.lookup(k),
    {
        assert(seq![c].drop_first() =~= Seq::<Tree<K, V>>::empty());
        assert(Self::lookup_in(Seq::<Tree<K, V>>::empty(), k) is None);
    }

    proof fn lemma_split_lookup(n: Tree<K, V>, m: Tree<K, V>, c: Tree<K, V>, p: int, k: Seq<K>)
        requires
            0 <= p < n.key@.len(),
            m.key@ == n.key@.take(p),
            m.value is None,
            m.children@ == seq![c],
            c.key@ == n.key@.skip(p),
            c.value == n.value,
            c.children@ == n.children@,
        ensures
            m.lookup(k) == n.lookup(k),
    {
        let f = n.key@;
        Self::lemma_lookup_in_one(c, k.skip(p));
        if p <= k.len() && k.take(p) == f.take(p) && k.len() > p {
            let x = k.skip(p);
            if f.len() <= k.len() && k.take(f.len() as int) == f {
                assert(x.take(f.len() - p) =~= f.skip(p));
                assert(x.skip(f.len() - p) =~= k.skip(f.len() as int));
            } else if f.len() - p <= x.len() && x.take(f.len() - p) == f.skip(p) {
                assert(k.take(f.len() as int) =~= f) by {
                    assert forall|j: int| 0 <= j < f.len() implies k.take(f.len() as int)[j] == f[j] by {
                        if j < p {
                            assert(k.take(p)[j] == f.take(p)[j]);
                        } else {
                            assert(x.take(f.len() - p)[j - p] == f.skip(p)[j - p]);
                        }
                    }
                }
            }
        } else if f.len() <= k.len() && k.take(f.len() as int) == f {
            assert(k.take(p) =~= f.take(p)) by {
                assert forall|j: int| 0 <= j < p implies k.take(p)[j] == f.take(p)[j] by {
                    assert(k.take(f.len() as int)[j] == f[j]);
                }
            }
        }
    }

    /// Replacing the child that starts like `r` by one that additionally
    /// stores `r` changes the siblings' lookups only at `r`.
    proof fn lemma_update_child(
        cs: Seq<Tree<K, V>>,
        i: int,
        c: Tree<K, V>,
        r: Seq<K>,
        v: V,
    )
        requires
            Self::siblings_ok(cs),
            0 <= i < cs.len(),
            r.len() > 0,
            cs[i].key@[0] == r[0],
            c.key@.len() > 0,
            c.key@[0] == cs[i].key@[0],
            forall|x: Seq<K>| #[trigger] c.lookup(x) == if x == r { Some(v) } else { cs[i].lookup(x) },
        ensures
            Self::siblings_ok(cs.update(i, c)),
            forall|x: Seq<K>|
                #[trigger] Self::lookup_in(cs.update(i, c), x) == if x == r {
                    Some(v)
                } else {
                    Self::lookup_in(cs, x)
                },
    {
        let cs2 = cs.update(i, c);
        assert(Self::siblings_ok(cs2)) by {
            assert forall|j: int| 0 <= j < cs2.len() implies (#[trigger] cs2[j]).key@.len() > 0 by {}
            assert forall|j: int, l: int|
                0 <= j < cs2.len() && 0 <= l < cs2.len() && j != l implies (#[trigger] cs2[j]).key@[0]
                != (#[trigger] cs2[l]).key@[0] by {
                assert(cs2[j].key@[0] == cs[j].key@[0]);
                assert(cs2[l].key@[0] == cs[l].key@[0]);
            }
        }
        assert forall|x: Seq<K>|
            #[trigger] Self::lookup_in(cs2, x) == if x == r {
                Some(v)
            } else {
                Self::lookup_in(cs, x)
            } by {
            Self::lemma_lookup_in(cs, x);
            Self::lemma_lookup_in(cs2, x);
            if x.len() > 0 && x[0] == r[0] {
                assert(cs2[i] == c);
            } else {
                assert(x != r);
                if exists|j: int| 0 <= j < cs.len() && x.len() > 0 && (#[trigger] cs[j]).key@[0] == x[0] {
                    let j = choose|j: int| 0 <= j < cs.len() && x.len() > 0 && (#[trigger] cs[j]).key@[0] == x[0];
                    assert(j != i);
                    assert(cs2[j] == cs[j]);
                } else {
                    assert forall|j: int| 0 <= j < cs2.len() implies x.len() == 0 || (#[trigger] cs2[j]).key@[0]
                        != x[0] by {
                        if j != i {
                            assert(cs2[j] == cs[j]);
                        }
                    }
                }
            }
        }
    }

    /// Appending a leaf for `r`, whose first symbol no sibling starts with,
    /// changes the siblings' lookups only at `r`.
    proof fn lemma_push_child(cs: Seq<Tree<K, V>>, c: Tree<K, V>, r: Seq<K>, v: V)
        requires
            Self::siblings_ok(cs),
            r.len() > 0,
            forall|j: int| 0 <= j < cs.len() ==> (#[trigger] cs[j]).key@[0] != r[0],
            c.key@ == r,
            c.value == Some(v),
            c.children@.len() == 0,
        ensures
            Self::siblings_ok(cs.push(c)),
            forall|x: Seq<K>|
                #[trigger] Self::lookup_in(cs.push(c), x) == if x == r {
                    Some(v)
                } else {
                    Self::lookup_in(cs, x)
                },
    {
        let cs2 = cs.push(c);
        assert(Self::siblings_ok(cs2)) by {
            assert forall|j: int| 0 <= j < cs2.len() implies (#[trigger] cs2[j]).key@.len() > 0 by {
                if j < cs.len() {
                    assert(cs2[j] == cs[j]);
                }
            }
            assert forall|j: int, l: int|
                0 <= j < cs2.len() && 0 <= l < cs2.len() && j != l implies (#[trigger] cs2[j]).key@[0]
                != (#[trigger] cs2[l]).key@[0] by {
                if j < cs.len() {
                    assert(cs2[j] == cs[j]);
                }
                if l < cs.len() {
                    assert(cs2[l] == cs[l]);
                }
            }
        }
        assert(Self::lookup_in(c.children@, Seq::<K>::empty()) is None);
        assert forall|x: Seq<K>|
            #[trigger] Self::lookup_in(cs2, x) == if x == r {
                Some(v)
            } else {
                Self::lookup_in(cs, x)
            } by {
            Self::lemma_lookup_in(cs, x);
            Self::lemma_lookup_in(cs2, x);
            assert(cs2[cs.len() as int] == c);
            if x.len() > 0 && x[0] == r[0] {
                assert(Self::lookup_in(cs2, x) == c.lookup(x));
                assert(Self::lookup_in(cs, x) is None);
                if x == r {
                    assert(x.take(r.len() as int) =~= r);
                } else if x.len() >= r.len() && x.take(r.len() as int) == r {
                    if x.len() == r.len() {
                        assert(x =~= r) by {
                            assert forall|j: int| 0 <= j < x.len() implies x[j] == r[j] by {
                                assert(x.take(r.len() as int)[j] == x[j]);
                            }
                        }
                    }
                    assert(Self::lookup_in(c.children@, x.skip(r.len() as int)) is None);
                }
            } else {
                assert(x != r);
                if exists|j: int| 0 <= j < cs.len() && x.len() > 0 && (#[trigger] cs[j]).key@[0] == x[0] {
                    let j = choose|j: int| 0 <= j < cs.len() && x.len() > 0 && (#[trigger] cs[j]).key@[0] == x[0];
                    assert(cs2[j] == cs[j]);
                } else {
                    assert forall|j: int| 0 <= j < cs2.len() implies x.len() == 0 || (#[trigger] cs2[j]).key@[0]
                        != x[0] by {
                        if j < cs.len() {
                            assert(cs2[j] == cs[j]);
                        }
                    }
                }
            }
        }
    }

    /// A node whose children's lookups change only at the remainder of `key`
    /// changes its own lookups only at `key`.
    proof fn lemma_lift(n: Tree<K, V>, m: Tree<K, V>, key: Seq<K>, v: V)
        requires
            m.key@ == n.key@,
            m.value == n.value,
            n.key@.len() < key.len(),
            key.take(n.key@.len() as int) == n.key@,
            forall|x: Seq<K>|
                #[trigger] Self::lookup_in(m.children@, x) == if x == key.skip(n.key@.len() as int) {
                    Some(v)
                } else {
                    Self::lookup_in(n.children@, x)
                },
        ensures
            forall|k: Seq<K>| #[trigger] m.lookup(k) == if k == key { Some(v) } else { n.lookup(k) },
    {
        let f = n.key@;
        assert forall|k: Seq<K>| #[trigger] m.lookup(k) == if k == key { Some(v) } else { n.lookup(k) } by {
            if f.len() <= k.len() && k.take(f.len() as int) == f && k.len() != f.len() {
                let x = k.skip(f.len() as int);
                assert(m.lookup(k) == Self::lookup_in(m.children@, x));
                assert(n.lookup(k) == Self::lookup_in(n.children@, x));
                if x == key.skip(f.len() as int) {
                    assert(x.len() == k.len() - f.len());
                    assert(key.skip(f.len() as int).len() == key.len() - f.len());
                    assert(k.len() == key.len());
                    assert(k =~= key) by {
                        assert forall|j: int| 0 <= j < k.len() implies k[j] == key[j] by {
                            if j < f.len() {
                                assert(k.take(f.len() as int)[j] == k[j]);
                                assert(key.take(f.len() as int)[j] == key[j]);
                            } else {
                                assert(x[j - f.len()] == k[j]);
                                assert(key.skip(f.len() as int)[j - f.len()] == key[j]);
                            }
                        }
                    }
                } else {
                    assert(k != key);
                }
            } else if k == key {
                assert(false);
            }
        }
    }

    /// Setting the value of a node whose fragment is exactly `key` changes
    /// its lookups only at `key`.
    proof fn lemma_set_value(n: Tree<K, V>, m: Tree<K, V>, key: Seq<K>, v: V)
        requires
            n.key@ == key,
            m.key@ == key,
            m.children@ == n.children@,
            m.value == Some(v),
        ensures
            forall|k: Seq<K>| #[trigger] m.lookup(k) == if k == key { Some(v) } else { n.lookup(k) },
    {
        assert(key.take(key.len() as int) =~= key);
        assert forall|k: Seq<K>| #[trigger] m.lookup(k) == if k == key { Some(v) } else { n.lookup(k) } by {
            if key.len() == k.len() && k.take(key.len() as int) == key {
                assert(k =~= key) by {
                    assert forall|j: int| 0 <= j < k.len() implies k[j] == key[j] by {
                        assert(k.take(key.len() as int)[j] == k[j]);
                    }
                }
            }
        }
    }

    /// The traversal of a subtree lists each stored key once, after the
    /// prefix `p`, with the value stored under it.
    #[verifier::rlimit(60)]
    proof fn lemma_entries(self, p: Seq<K>)
        requires
            self.wf(),
        ensures
            forall|i: int|
                0 <= i < self.entries(p).len() ==> {
                    let e = #[trigger] self.entries(p)[i];
                    &&& e.0.len() >= p.len() + self.key@.len()
                    &&& e.0.take(p.len() as int) == p
                    &&& self.lookup(e.0.skip(p.len() as int)) == Some(e.1)
                },
            forall|k: Seq<K>|
                #[trigger] self.lookup(k) is Some ==> exists|i: int|
                    0 <= i < self.entries(p).len() && (#[trigger] self.entries(p)[i]).0 == p + k,
            forall|i: int, j: int|
                0 <= i < j < self.entries(p).len() ==> (#[trigger] self.entries(p)[i]).0
                    != (#[trigger] self.entries(p)[j]).0,
        decreases self, 1int,
    {
        let q = p + self.key@;
        let own = match self.value {
            Some(v) => seq![(q, v)],
            None => Seq::<(Seq<K>, V)>::empty(),
        };
        let rest = Self::entries_in(self.children@, q);
        let s = self.entries(p);
        assert(s == own + rest);
        Self::lemma_entries_in(self.children@, q);
        assert(q.take(p.len() as int) =~= p);
        assert(q.skip(p.len() as int) =~= self.key@);
        assert(self.key@.take(self.key@.len() as int) =~= self.key@);
        assert forall|i: int| 0 <= i < s.len() implies {
            let e = #[trigger] s[i];
            &&& e.0.len() >= p.len() + self.key@.len()
            &&& e.0.take(p.len() as int) == p
            &&& self.lookup(e.0.skip(p.len() as int)) == Some(e.1)
        } by {
            if i >= own.len() {
                let e = rest[i - own.len()];
                assert(s[i] == e);
                let x = e.0.skip(q.len() as int);
                assert(e.0.take(p.len() as int) =~= p) by {
                    assert forall|j: int| 0 <= j < p.len() implies e.0.take(p.len() as int)[j] == p[j] by {
                        assert(e.0.take(q.len() as int)[j] == q[j]);
                    }
                }
                let y = e.0.skip(p.len() as int);
                assert(y.take(self.key@.len() as int) =~= self.key@) by {
                    assert forall|j: int| 0 <= j < self.key@.len() implies y.take(self.key@.len() as int)[j]
                        == self.key@[j] by {
                        assert(e.0.take(q.len() as int)[p.len() + j] == q[p.len() + j]);
                    }
                }
                assert(y.skip(self.key@.len() as int) =~= x);
            }
        }
        assert forall|k: Seq<K>| #[trigger] self.lookup(k) is Some implies exists|i: int|
            0 <= i < s.len() && (#[trigger] s[i]).0 == p + k by {
            let f = self.key@;
            if k.len() == f.len() {
                assert(k =~= f) by {
                    assert forall|j: int| 0 <= j < k.len() implies k[j] == f[j] by {
                        assert(k.take(f.len() as int)[j] == k[j]);
                    }
                }
                assert(self.lookup(k) == self.value);
                assert(s[0] == own[0]);
            } else {
                let x = k.skip(f.len() as int);
                assert(Self::lookup_in(self.children@, x) is Some);
                assert(q + x =~= p + k) by {
                    assert forall|j: int| 0 <= j < (p + k).len() implies (q + x)[j] == (p + k)[j] by {
                        if j >= p.len() && j < q.len() {
                            assert(k.take(f.len() as int)[j - p.len()] == k[j - p.len()]);
                        }
                    }
                }
                let i = choose|i: int| 0 <= i < rest.len() && (#[trigger] rest[i]).0 == q + x;
                assert(s[own.len() + i] == rest[i]);
            }
        }
        assert forall|i: int, j: int| 0 <= i < j < s.len() implies (#[trigger] s[i]).0 != (#[trigger] s[j]).0 by {
            if i < own.len() {
                assert(s[j] == rest[j - own.len()]);
                assert(rest[j - own.len()].0.len() > q.len());
            } else {
                assert(s[i] == rest[i - own.len()]);
                assert(s[j] == rest[j - own.len()]);
            }
        }
    }

    /// The traversal of sibling subtrees lists each key they store once,
    /// after the prefix `p`, with its value.
    proof fn lemma_entries_in(cs: Seq<Tree<K, V>>, p: Seq<K>)
        requires
            Self::siblings_ok(cs),
            forall|i: int| 0 <= i < cs.len() ==> (#[trigger] cs[i]).wf(),
        ensures
            forall|i: int|
                0 <= i < Self::entries_in(cs, p).len() ==> {
                    let e = #[trigger] Self::entries_in(cs, p)[i];
                    &&& e.0.len() > p.len()
                    &&& e.0.take(p.len() as int) == p
                    &&& Self::lookup_in(cs, e.0.skip(p.len() as int)) == Some(e.1)
                },
            forall|k: Seq<K>|
                #[trigger] Self::lookup_in(cs, k) is Some ==> exists|i: int|
                    0 <= i < Self::entries_in(cs, p).len() && (#[trigger] Self::entries_in(cs, p)[i]).0 == p
                        + k,
            forall|i: int, j: int|
                0 <= i < j < Self::entries_in(cs, p).len() ==> (#[trigger] Self::entries_in(cs, p)[i]).0
                    != (#[trigger] Self::entries_in(cs, p)[j]).0,
        decreases cs, 0int,
    {
        if cs.len() > 0 {
            let c = cs[0];
            let tail = cs.drop_first();
            assert(Self::siblings_ok(tail)) by {
                assert forall|i: int| 0 <= i < tail.len() implies (#[trigger] tail[i]).key@.len() > 0 by {
                    assert(tail[i] == cs[i + 1]);
                }
                assert forall|i: int, j: int|
                    0 <= i < tail.len() && 0 <= j < tail.len() && i != j implies (#[trigger] tail[i]).key@[0]
                    != (#[trigger] tail[j]).key@[0] by {
                    assert(tail[i] == cs[i + 1]);
                    assert(tail[j] == cs[j + 1]);
                }
            }
            assert forall|i: int| 0 <= i < tail.len() implies (#[trigger] tail[i]).wf() by {
                assert(tail[i] == cs[i + 1]);
            }
            c.lemma_entries(p);
            Self::lemma_entries_in(tail, p);
            let a = c.entries(p);
            let b = Self::entries_in(tail, p);
            let s = Self::entries_in(cs, p);
            assert(s == a + b);
            // a key that a later sibling stores starts like that sibling
            assert forall|x: Seq<K>| #[trigger] Self::lookup_in(tail, x) is Some implies x.len() > 0 && x[0]
                != c.key@[0] && c.lookup(x) is None by {
                Self::lemma_lookup_in(tail, x);
                let j = choose|j: int| 0 <= j < tail.len() && x.len() > 0 && (#[trigger] tail[j]).key@[0] == x[0];
                assert(tail[j] == cs[j + 1]);
                c.lemma_lookup_prefix(x);
                if c.lookup(x) is Some {
                    assert(x.take(c.key@.len() as int)[0] == x[0]);
                }
            }
            assert forall|i: int| 0 <= i < s.len() implies {
                let e = #[trigger] s[i];
                &&& e.0.len() > p.len()
                &&& e.0.take(p.len() as int) == p
                &&& Self::lookup_in(cs, e.0.skip(p.len() as int)) == Some(e.1)
            } by {
                if i < a.len() {
                    assert(s[i] == a[i]);
                } else {
                    assert(s[i] == b[i - a.len()]);
                }
            }
            assert forall|k: Seq<K>| #[trigger] Self::lookup_in(cs, k) is Some implies exists|i: int|
                0 <= i < s.len() && (#[trigger] s[i]).0 == p + k by {
                if c.lookup(k) is Some {
                    let i = choose|i: int| 0 <= i < a.len() && (#[trigger] a[i]).0 == p + k;
                    assert(s[i] == a[i]);
                } else {
                    assert(Self::lookup_in(cs, k) == Self::lookup_in(tail, k));
                    assert(Self::lookup_in(tail, k) is Some);
                    let i = choose|i: int| 0 <= i < b.len() && (#[trigger] b[i]).0 == p + k;
                    assert(s[a.len() + i] == b[i]);
                }
            }
            assert forall|i: int, j: int| 0 <= i < j < s.len() implies (#[trigger] s[i]).0 != (#[trigger] s[j]).0 by {
                if i < a.len() && j >= a.len() {
                    let e = a[i];
                    let d = b[j - a.len()];
                    assert(s[i] == e);
                    assert(s[j] == d);
                    let x = e.0.skip(p.len() as int);
                    let y = d.0.skip(p.len() as int);
                    c.lemma_lookup_prefix(x);
                    assert(x[0] == x.take(c.key@.len() as int)[0]);
                    assert(y.len() > 0 && y[0] != c.key@[0]);
                    assert(e.0[p.len() as int] == x[0]);
                    assert(d.0[p.len() as int] == y[0]);
                } else if i < a.len() {
                    assert(s[i] == a[i]);
                    assert(s[j] == a[j]);
                } else {
                    assert(s[i] == b[i - a.len()]);
                    assert(s[j] == b[j - a.len()]);
                }
            }
        }
    }

    /// Going past child `i` of `cs` in a traversal.
    proof fn lemma_skip_step(cs: Seq<Tree<K, V>>, i: int, p: Seq<K>)
        requires
            0 <= i < cs.len(),
        ensures
            Self::entries_in(cs.skip(i), p) == cs[i].entries(p) + Self::entries_in(cs.skip(i + 1), p),
            Self::size_in(cs.skip(i)) == cs[i].size() + Self::size_in(cs.skip(i + 1)),
    {
        assert(cs.skip(i).drop_first() =~= cs.skip(i + 1));
        assert(cs.skip(i)[0] == cs[i]);
    }

    /// Counting the nodes of a list of subtrees after replacing one of them.
    proof fn lemma_size_update(cs: Seq<Tree<K, V>>, i: int, c: Tree<K, V>)
        requires
            0 <= i < cs.len(),
        ensures
            Self::size_in(cs.update(i, c)) + cs[i].size() == Self::size_in(cs) + c.size(),
        decreases cs.len(),
    {
        if i == 0 {
            assert(cs.update(i, c).drop_first() =~= cs.drop_first());
        } else {
            assert(cs.update(i, c).drop_first() =~= cs.drop_first().update(i - 1, c));
            Self::lemma_size_update(cs.drop_first(), i - 1, c);
        }
    }

    /// Counting the nodes of a list of subtrees after appending one.
    proof fn lemma_size_push(cs: Seq<Tree<K, V>>, c: Tree<K, V>)
        ensures
            Self::size_in(cs.push(c)) == Self::size_in(cs) + c.size(),
        decreases cs.len(),
    {
        if cs.len() == 0 {
            assert(cs.push(c).drop_first() =~= Seq::<Tree<K, V>>::empty());
            assert(cs.push(c)[0] == c);
            assert(Self::size_in(Seq::<Tree<K, V>>::empty()) == 0);
        } else {
            assert(cs.push(c).drop_first() =~= cs.drop_first().push(c));
            assert(cs.push(c)[0] == cs[0]);
            Self::lemma_size_push(cs.drop_first(), c);
        }
    }

    /// In the traversal of a subtree, a key comes before every key that
    /// extends it.
    proof fn lemma_order(self, p: Seq<K>)
        requires
            self.wf(),
        ensures
            forall|i: int, j: int|
                0 <= i < self.entries(p).len() && 0 <= j < self.entries(p).len() && proper_prefix(
                    (#[trigger] self.entries(p)[i]).0,
                    (#[trigger] self.entries(p)[j]).0,
                ) ==> i < j,
        decreases self, 1int,
    {
        let q = p + self.key@;
        let own = match self.value {
            Some(v) => seq![(q, v)],
            None => Seq::<(Seq<K>, V)>::empty(),
        };
        let rest = Self::entries_in(self.children@, q);
        let s = self.entries(p);
        assert(s == own + rest);
        Self::lemma_entries_in(self.children@, q);
        Self::lemma_order_in(self.children@, q);
        assert forall|i: int, j: int|
            0 <= i < s.len() && 0 <= j < s.len() && proper_prefix(
                (#[trigger] s[i]).0,
                (#[trigger] s[j]).0,
            ) implies i < j by {
            if j < own.len() {
                assert(s[j].0 == q);
                if i >= own.len() {
                    assert(s[i] == rest[i - own.len()]);
                    assert(rest[i - own.len()].0.len() > q.len());
                }
            } else if i >= own.len() {
                assert(s[i] == rest[i - own.len()]);
                assert(s[j] == rest[j - own.len()]);
            }
        }
    }

    /// In the traversal of sibling subtrees, a key comes before every key
    /// that extends it.
    proof fn lemma_order_in(cs: Seq<Tree<K, V>>, p: Seq<K>)
        requires
            Self::siblings_ok(cs),
            forall|i: int| 0 <= i < cs.len() ==> (#[trigger] cs[i]).wf(),
        ensures
            forall|i: int, j: int|
                0 <= i < Self::entries_in(cs, p).len() && 0 <= j < Self::entries_in(cs, p).len()
                    && proper_prefix(
                    (#[trigger] Self::entries_in(cs, p)[i]).0,
                    (#[trigger] Self::entries_in(cs, p)[j]).0,
                ) ==> i < j,
        decreases cs, 0int,
    {
        if cs.len() > 0 {
            let c = cs[0];
            let tail = cs.drop_first();
            assert(Self::siblings_ok(tail)) by {
                assert forall|i: int| 0 <= i < tail.len() implies (#[trigger] tail[i]).key@.len() > 0 by {
                    assert(tail[i] == cs[i + 1]);
                }
                assert forall|i: int, j: int|
                    0 <= i < tail.len() && 0 <= j < tail.len() && i != j implies (#[trigger] tail[i]).key@[0]
                    != (#[trigger] tail[j]).key@[0] by {
                    assert(tail[i] == cs[i + 1]);
                    assert(tail[j] == cs[j + 1]);
                }
            }
            assert forall|i: int| 0 <= i < tail.len() implies (#[trigger] tail[i]).wf() by {
                assert(tail[i] == cs[i + 1]);
            }
            c.lemma_entries(p);
            c.lemma_order(p);
            Self::lemma_entries_in(tail, p);
            Self::lemma_order_in(tail, p);
            let a = c.entries(p);
            let b = Self::entries_in(tail, p);
            let s = Self::entries_in(cs, p);
            assert(s == a + b);
            assert forall|x: Seq<K>| #[trigger] Self::lookup_in(tail, x) is Some implies x.len() > 0 && x[0]
                != c.key@[0] by {
                Self::lemma_lookup_in(tail, x);
                let j = choose|j: int| 0 <= j < tail.len() && x.len() > 0 && (#[trigger] tail[j]).key@[0] == x[0];
                assert(tail[j] == cs[j + 1]);
            }
            assert forall|i: int, j: int|
                0 <= i < s.len() && 0 <= j < s.len() && proper_prefix(
                    (#[trigger] s[i]).0,
                    (#[trigger] s[j]).0,
                ) implies i < j by {
                if i < a.len() && j < a.len() {
                    assert(s[i] == a[i]);
                    assert(s[j] == a[j]);
                } else if i >= a.len() && j >= a.len() {
                    assert(s[i] == b[i - a.len()]);
                    assert(s[j] == b[j - a.len()]);
                } else if i >= a.len() {
                    let e = a[j];
                    let d = b[i - a.len()];
                    assert(s[j] == e);
                    assert(s[i] == d);
                    let x = e.0.skip(p.len() as int);
                    let y = d.0.skip(p.len() as int);
                    c.lemma_lookup_prefix(x);
                    assert(x[0] == x.take(c.key@.len() as int)[0]);
                    assert(e.0[p.len() as int] == x[0]);
                    assert(d.0[p.len() as int] == y[0]);
                    assert(e.0.take(d.0.len() as int)[p.len() as int] == e.0[p.len() as int]);
                }
            }
        }
    }

    /// Among siblings, only the child whose fragment starts with the first
    /// symbol of `k` can hold `k`.
    proof fn lemma_lookup_in(cs: Seq<Tree<K, V>>, k: Seq<K>)
        requires
            Self::siblings_ok(cs),
        ensures
            (forall|i: int| 0 <= i < cs.len() ==> k.len() == 0 || (#[trigger] cs[i]).key@[0] != k[0])
                ==> Self::lookup_in(cs, k) is None,
            forall|i: int|
                0 <= i < cs.len() && k.len() > 0 && (#[trigger] cs[i]).key@[0] == k[0]
                    ==> Self::lookup_in(cs, k) == cs[i].lookup(k),
        decreases cs.len(),
    {
        if cs.len() > 0 {
            let rest = cs.drop_first();
            assert(Self::siblings_ok(rest)) by {
                assert forall|i: int| 0 <= i < rest.len() implies (#[trigger] rest[i]).key@.len() > 0 by {
                    assert(rest[i] == cs[i + 1]);
                }
                assert forall|i: int, j: int|
                    0 <= i < rest.len() && 0 <= j < rest.len() && i != j implies (#[trigger] rest[i]).key@[0]
                    != (#[trigger] rest[j]).key@[0] by {
                    assert(rest[i] == cs[i + 1]);
                    assert(rest[j] == cs[j + 1]);
                }
            }
            Self::lemma_lookup_in(rest, k);
            cs[0].lemma_lookup_prefix(k);
            if k.len() > 0 {
                assert(cs[0].key@.len() > 0);
                assert(cs[0].key@[0] == cs[0].key@.take(cs[0].key@.len() as int)[0]);
            }
            assert forall|i: int|
                0 <= i < cs.len() && k.len() > 0 && (#[trigger] cs[i]).key@[0] == k[0] implies Self::lookup_in(
                cs,
                k,
            ) == cs[i].lookup(k) by {
                if i > 0 {
                    assert(rest[i - 1] == cs[i]);
                    assert(cs[0].key@[0] != k[0]);
                } else {
                    assert forall|j: int| 0 <= j < rest.len() implies k.len() == 0 || (#[trigger] rest[j]).key@[0]
                        != k[0] by {
                        assert(rest[j] == cs[j + 1]);
                    }
                }
            }
            if forall|i: int| 0 <= i < cs.len() ==> k.len() == 0 || (#[trigger] cs[i]).key@[0] != k[0] {
                assert forall|j: int| 0 <= j < rest.len() implies k.len() == 0 || (#[trigger] rest[j]).key@[0]
                    != k[0] by {
                    assert(rest[j] == cs[j + 1]);
                }
                assert(k.len() == 0 || cs[0].key@[0] != k[0]);
            }
        }
    }
}

/// Putting a node with a new value in place of the node that holds the
/// stored key `k` changes the lookups only at `k`.
pub broadcast proof fn lemma_replaced_value<K, V>(o: Tree<K, V>, n: Tree<K, V>, k: Seq<K>, t: Tree<K, V>)
    requires
        o.wf(),
        o@.contains_key(k),
        #[trigger] Tree::<K, V>::replaced(o, n, k, t),
        t.fragment() == o.at(k).fragment(),
        t.branches() == o.at(k).branches(),
        t.stored() is Some,
    ensures
        n.wf(),
        n.fragment() == o.fragment(),
        n@ == o@.insert(k, t.stored()->Some_0),
        n@.dom() == o@.dom(),
    decreases o,
{
    o.lemma_view(k);
    let f = o.key@;
    let v = t.value->Some_0;
    if f.len() < k.len() && k.take(f.len() as int) == f {
        let x = k.skip(f.len() as int);
        let cs = o.children@;
        Tree::<K, V>::lemma_lookup_in(cs, x);
        assert(exists|i: int| 0 <= i < cs.len() && x.len() > 0 && (#[trigger] cs[i]).key@[0] == x[0]);
        let i = Tree::<K, V>::pick(cs, x);
        let c = n.children@[i];
        cs[i].lemma_view(x);
        lemma_replaced_value(cs[i], c, x, t);
        assert forall|y: Seq<K>| #[trigger] c.lookup(y) == if y == x { Some(v) } else { cs[i].lookup(y) } by {
            c.lemma_view(y);
            cs[i].lemma_view(y);
        }
        Tree::<K, V>::lemma_update_child(cs, i, c, x, v);
        Tree::<K, V>::lemma_lift(o, n, k, v);
        assert forall|j: int| 0 <= j < n.children@.len() implies (#[trigger] n.children@[j]).wf() by {
            if j != i {
                assert(n.children@[j] == cs[j]);
            }
        }
    } else {
        assert(k.take(f.len() as int) == f);
        assert(k.len() == f.len());
        assert(k =~= f) by {
            assert forall|j: int| 0 <= j < k.len() implies k[j] == f[j] by {
                assert(k.take(f.len() as int)[j] == k[j]);
            }
        }
        Tree::<K, V>::lemma_set_value(o, n, k, v);
    }
    assert forall|y: Seq<K>| #[trigger] n@.contains_key(y) == o@.insert(k, v).contains_key(y) by {
        n.lemma_view(y);
        o.lemma_view(y);
    }
    assert(n@.dom() =~= o@.dom());
    assert(n@ =~= o@.insert(k, v)) by {
        assert forall|y: Seq<K>| n@.contains_key(y) implies n@[y] == o@.insert(k, v)[y] by {
            n.lemma_view(y);
            o.lemma_view(y);
        }
    }

}

/// The traversal of a well-formed tree lists every stored key exactly once,
/// each with the value stored under it, and nothing else; so the tree stores
/// finitely many keys, as many as the traversal has entries.
#[verifier::rlimit(60)]
pub proof fn lemma_traversal<K, V>(t: Tree<K, V>)
    requires
        t.wf(),
    ensures
        t@.dom().finite(),
        t.traversal().len() == t@.len(),
        forall|i: int|
            0 <= i < t.traversal().len() ==> t@.contains_key(#[trigger] t.traversal()[i].0)
                && t@[t.traversal()[i].0] == t.traversal()[i].1,
        forall|k: Seq<K>|
            #[trigger] t@.contains_key(k) ==> exists|i: int|
                0 <= i < t.traversal().len() && (#[trigger] t.traversal()[i]).0 == k,
        forall|i: int, j: int|
            0 <= i < j < t.traversal().len() ==> (#[trigger] t.traversal()[i]).0
                != (#[trigger] t.traversal()[j]).0,
{
    let p = Seq::<K>::empty();
    let s = t.traversal();
    t.lemma_entries(p);
    assert forall|i: int| 0 <= i < s.len() implies t@.contains_key(#[trigger] s[i].0) && t@[s[i].0] == s[i].1 by {
        assert(s[i].0.skip(0) =~= s[i].0);
        t.lemma_view(s[i].0);
    }
    assert forall|k: Seq<K>| #[trigger] t@.contains_key(k) implies exists|i: int|
        0 <= i < s.len() && (#[trigger] s[i]).0 == k by {
        t.lemma_view(k);
        assert(p + k =~= k);
    }
    let keys = s.map_values(|e: (Seq<K>, V)| e.0);
    assert(keys.no_duplicates()) by {
        assert forall|i: int, j: int| 0 <= i < keys.len() && 0 <= j < keys.len() && i != j implies keys[i]
            != keys[j] by {
            if i < j {
                assert(s[i].0 != s[j].0);
            } else {
                assert(s[j].0 != s[i].0);
            }
        }
    }
    keys.unique_seq_to_set();
    assert(t@.dom() =~= keys.to_set()) by {
        assert forall|k: Seq<K>| t@.contains_key(k) implies keys.to_set().contains(k) by {
            let i = choose|i: int| 0 <= i < s.len() && (#[trigger] s[i]).0 == k;
            assert(keys[i] == k);
        }
        assert forall|k: Seq<K>| keys.to_set().contains(k) implies t@.contains_key(k) by {
            let i = choose|i: int| 0 <= i < keys.len() && keys[i] == k;
            assert(s[i].0 == k);
        }
    }
    seq_to_set_is_finite(keys);
}

/// No two children of a node of a well-formed tree share a non-empty
/// prefix, and the children are well formed in turn; every insertion keeps
/// a tree well formed, so this holds after any sequence of insertions.
pub proof fn lemma_disjoint_siblings<K, V>(t: Tree<K, V>)
    requires
        t.wf(),
    ensures
        forall|i: int, j: int|
            0 <= i < t.branches().len() && 0 <= j < t.branches().len() && i != j ==> common_len(
                (#[trigger] t.branches()[i]).fragment(),
                (#[trigger] t.branches()[j]).fragment(),
            ) == 0,
        forall|i: int| 0 <= i < t.branches().len() ==> (#[trigger] t.branches()[i]).wf(),
{
}

/// An insertion adds at most two nodes: the one a split cuts off and a new
/// leaf.
pub proof fn lemma_insert_size<K, V>(o: Tree<K, V>, n: Tree<K, V>, k: Seq<K>, v: V)
    requires
        inserted(o, n, k, v),
    ensures
        n.size() <= o.size() + 2,
    decreases k.len(), if o.fragment().len() == 0 { 1int } else { 0int },
{
    let f = o.fragment();
    let p = common_len(f, k);
    lemma_common_len_bounds(f, k);
    let cs = o.children@;
    let ns = n.children@;
    if p < f.len() {
        let t = ns[0];
        assert(t.size() == o.size());
        if p < k.len() {
            let e = Seq::<Tree<K, V>>::empty();
            assert(ns.drop_first().drop_first() =~= e);
            assert(ns.drop_first()[0] == ns[1]);
            assert(Tree::<K, V>::size_in(e) == 0);
            assert(ns[1].children@ =~= e);
            assert(ns[1].size() == 1);
            assert(Tree::<K, V>::size_in(ns.drop_first()) == ns[1].size());
            assert(Tree::<K, V>::size_in(ns) == t.size() + ns[1].size());
        } else {
            assert(ns.drop_first() =~= Seq::<Tree<K, V>>::empty());
            assert(Tree::<K, V>::size_in(Seq::<Tree<K, V>>::empty()) == 0);
            assert(Tree::<K, V>::size_in(ns) == t.size());
        }
    } else if p < k.len() {
        let r = k.skip(p as int);
        if exists|i: int| 0 <= i < cs.len() && (#[trigger] cs[i]).fragment().len() > 0 && cs[i].fragment()[0] == r[0] {
            let i = choose|i: int| 0 <= i < cs.len() && (#[trigger] cs[i]).fragment().len() > 0 && cs[i].fragment()[0] == r[0];
            lemma_insert_size(cs[i], ns[i], r, v);
            assert(ns =~= cs.update(i, ns[i]));
            Tree::<K, V>::lemma_size_update(cs, i, ns[i]);
        } else {
            assert(ns =~= cs.push(ns[cs.len() as int]));
            Tree::<K, V>::lemma_size_push(cs, ns[cs.len() as int]);
            assert(ns[cs.len() as int].children@ =~= Seq::<Tree<K, V>>::empty());
            assert(Tree::<K, V>::size_in(Seq::<Tree<K, V>>::empty()) == 0);
            assert(ns[cs.len() as int].size() == 1);
        }
    }
}

/// The traversal of a well-formed tree lists the value held at the root
/// first, and every key before the keys that extend it.
pub proof fn lemma_traversal_order<K, V>(t: Tree<K, V>)
    requires
        t.wf(),
    ensures
        t@.contains_key(t.fragment()) <==> t.stored() is Some,
        t.stored() is Some ==> t@[t.fragment()] == t.stored()->Some_0,
        t.stored() is Some ==> t.traversal().len() > 0 && t.traversal()[0] == (
            t.fragment(),
            t.stored()->Some_0,
        ),
        forall|i: int, j: int|
            0 <= i < t.traversal().len() && 0 <= j < t.traversal().len() && proper_prefix(
                (#[trigger] t.traversal()[i]).0,
                (#[trigger] t.traversal()[j]).0,
            ) ==> i < j,
{
    t.lemma_order(Seq::<K>::empty());
    assert(Seq::<K>::empty() + t.key@ =~= t.key@);
    assert(t.key@.take(t.key@.len() as int) =~= t.key@);
    t.lemma_view(t.key@);
}

impl<K: Symbol, V> Tree<K, V> {
    /// A node with fragment `key` that stores `value`.
    pub fn new(key: Vec<K>, value: V) -> (t: Tree<K, V>)
        ensures
            t.wf(),
            t.fragment() == key@,
            t.stored() == Some(value),
            t.branches().len() == 0,
            t@ == map![key@ => value],
    {
        let t = Tree { key, value: Some(value), children: Vec::new() };
        proof {
            assert(t.key@.take(t.key@.len() as int) =~= t.key@);
            assert forall|k: Seq<K>| #[trigger] t@.contains_key(k) == map![t.key@ => value].contains_key(k) by {
                t.lemma_view(k);
                if t.key@.len() <= k.len() && k.take(t.key@.len() as int) == t.key@ && k.len() == t.key@.len() {
                    assert(k =~= t.key@) by {
                        assert forall|j: int| 0 <= j < k.len() implies k[j] == t.key@[j] by {
                            assert(k.take(t.key@.len() as int)[j] == k[j]);
                        }
                    }
                }
            }
            assert(t@ =~= map![t.key@ => value]) by {
                assert forall|k: Seq<K>| t@.contains_key(k) implies t@[k] == map![t.key@ => value][k] by {
                    t.lemma_view(k);
                }
            }
        }
        t
    }

    /// A node with an empty fragment, no value and no children.
    pub fn empty() -> (t: Tree<K, V>)
        ensures
            t.wf(),
            t.fragment() == Seq::<K>::empty(),
            t.stored() is None,
            t.branches().len() == 0,
            t@ == Map::<Seq<K>, V>::empty(),
    {
        let t = Tree { key: Vec::new(), value: None, children: Vec::new() };
        proof {
            assert forall|k: Seq<K>| !t@.contains_key(k) by {
                t.lemma_view(k);
            }
            assert(t@ =~= Map::<Seq<K>, V>::empty());
        }
        t
    }

    /// The fragment of this node.
    pub fn key(&self) -> (r: &[K])
        ensures
            r@ == self.fragment(),
    {
        self.key.as_slice()
    }

    /// The value held at this node itself.
    pub fn value(&self) -> (r: Option<&V>)
        ensures
            match r {
                Some(v) => self.stored() == Some(*v),
                None => self.stored() is None,
            },
    {
        self.value.as_ref()
    }

    /// The value held at this node itself, for changing it in place.
    pub fn value_mut(&mut self) -> (r: Option<&mut V>)
        ensures
            r is Some <==> old(self).stored() is Some,
            r is None ==> *final(self) == *old(self),
            match r {
                Some(v) => {
                    &&& Some(*v) == old(self).stored()
                    &&& final(self).stored() == Some(*final(v))
                    &&& final(self).fragment() == old(self).fragment()
                    &&& final(self).branches() == old(self).branches()
                },
                None => true,
            },
    {
        self.value.as_mut()
    }

    /// The children of this node, in storage order.
    pub fn children(&self) -> (r: &[Tree<K, V>])
        ensures
            r@ == self.branches(),
    {
        self.children.as_slice()
    }

    /// A childless node holding `value` under the fragment `key`.
    fn leaf(key: &[K], value: V) -> (t: Tree<K, V>)
        ensures
            t.key@ == key@,
            t.value == Some(value),
            t.children@.len() == 0,
            t.wf(),
    {
        Tree { key: slice_to_vec(key), value: Some(value), children: Vec::new() }
    }

    /// Cuts the fragment after its first `p` symbols; the rest of the
    /// fragment, the value and the children move into a single new child.
    fn split(&mut self, p: usize)
        requires
            old(self).wf(),
            p < old(self).key@.len(),
        ensures
            final(self).wf(),
            final(self)@ == old(self)@,
            final(self).key@ == old(self).key@.take(p as int),
            final(self).value is None,
            final(self).children@.len() == 1,
            final(self).children@[0].key@ == old(self).key@.skip(p as int),
            final(self).children@[0].value == old(self).value,
            final(self).children@[0].children@ == old(self).children@,
    {
        let ghost before = *self;
        let tail = self.key.split_off(p);
        let value = self.value.take();
        let mut children: Vec<Tree<K, V>> = Vec::new();
        std::mem::swap(&mut self.children, &mut children);
        let node = Tree { key: tail, value, children };
        self.children.push(node);
        proof {
            assert(node.wf());
            assert(Self::siblings_ok(self.children@));
            assert forall|k: Seq<K>| #[trigger] self.lookup(k) == before.lookup(k) by {
                Self::lemma_split_lookup(before, *self, node, p as int, k);
            }
            assert(self@ =~= before@);
        }
    }

    /// Stores `value` under `key`, read from the start of this node's
    /// fragment, and returns the value that was stored there before.
    ///
    /// When `key` leaves the fragment part-way, the fragment is split at that
    /// point first; the fragment only ever keeps the part it shares with `key`.
    pub fn insert(&mut self, key: &[K], value: V) -> (r: Option<V>)
        requires
            old(self).wf(),
        ensures
            final(self).wf(),
            final(self)@ == old(self)@.insert(key@, value),
            r == found(old(self)@, key@),
            final(self).fragment() == old(self).fragment().take(
                common_len(old(self).fragment(), key@) as int,
            ),
            inserted(*old(self), *final(self), key@, value),
        decreases *old(self),
    {
        let ghost before = *self;
        proof {
            before.lemma_view(key@);
        }
        let p = common_prefix(self.key.as_slice(), key);
        if p < self.key.len() {
            proof {
                if self.key@.len() <= key@.len() {
                    assert(key@.take(self.key@.len() as int)[p as int] == key@[p as int]);
                }
            }
            self.split(p);
            assert(self.key@.take(p as int) =~= self.key@);
            if p == key.len() {
                assert(key@.take(p as int) =~= key@);
                let ghost mid = *self;
                self.value = Some(value);
                proof {
                    Self::lemma_set_value(mid, *self, key@, value);
                    assert forall|k: Seq<K>| #[trigger] self.lookup(k) == if k == key@ {
                        Some(value)
                    } else {
                        before.lookup(k)
                    } by {
                        assert(mid@.contains_key(k) == before@.contains_key(k));
                        mid.lemma_view(k);
                        before.lemma_view(k);
                    }
                    assert(self@ =~= before@.insert(key@, value));
                }
                return None;
            }
            let (_, rest) = key.split_at(p);
            assert(rest@ =~= key@.skip(p as int));
            let ghost mid = *self;
            let ghost cs = self.children@;
            let leaf = Self::leaf(rest, value);
            self.children.push(leaf);
            proof {
                assert(cs[0].key@[0] == before.key@[p as int]);
                Self::lemma_push_child(cs, leaf, rest@, value);
                Self::lemma_lift(mid, *self, key@, value);
                assert(self.children@[1] == leaf);
                assert forall|k: Seq<K>| #[trigger] self.lookup(k) == if k == key@ {
                    Some(value)
                } else {
                    before.lookup(k)
                } by {
                    assert(mid@.contains_key(k) == before@.contains_key(k));
                    mid.lemma_view(k);
                    before.lemma_view(k);
                }
                assert(self@ =~= before@.insert(key@, value));
            }
            return None;
        }
        assert(self.key@.take(p as int) =~= self.key@);
        if p == key.len() {
            assert(key@.take(p as int) =~= key@);
            let prev = self.value.take();
            self.value = Some(value);
            proof {
                Self::lemma_set_value(before, *self, key@, value);
                assert(self@ =~= before@.insert(key@, value));
            }
            return prev;
        }
        let (_, rest) = key.split_at(p);
        assert(rest@ =~= key@.skip(p as int));
        let i = self.branch_for(rest);
        proof {
            Self::lemma_lookup_in(self.children@, rest@);
        }
        if i < self.children.len() {
            let ghost child = self.children@[i as int];
            proof {
                child.lemma_view(rest@);
            }
            let r = self.children[i].insert(rest, value);
            proof {
                let c = self.children@[i as int];
                lemma_common_len_bounds(child.key@, rest@);
                assert(common_len(child.key@, rest@) >= 1);
                assert(c.key@[0] == child.key@.take(common_len(child.key@, rest@) as int)[0]);
                assert forall|x: Seq<K>| #[trigger] c.lookup(x) == if x == rest@ {
                    Some(value)
                } else {
                    child.lookup(x)
                } by {
                    c.lemma_view(x);
                    child.lemma_view(x);
                }
                Self::lemma_update_child(before.children@, i as int, c, rest@, value);
                let cs = before.children@;
                assert(cs[i as int].key@.len() > 0 && cs[i as int].key@[0] == rest@[0]);
                let j = choose|j: int| 0 <= j < cs.len() && (#[trigger] cs[j]).fragment().len() > 0 && cs[j].fragment()[0] == rest@[0];
                assert(j == i);
                lemma_common_len_bounds(before.key@, key@);
                assert(self.children@ == before.children@.update(i as int, c));
                Self::lemma_lift(before, *self, key@, value);
                assert(self@ =~= before@.insert(key@, value));
            }
            r
        } else {
            let ghost cs = self.children@;
            let leaf = Self::leaf(rest, value);
            self.children.push(leaf);
            proof {
                Self::lemma_push_child(cs, leaf, rest@, value);
                Self::lemma_lift(before, *self, key@, value);
                assert(self.children@.take(cs.len() as int) =~= cs);
                assert(self.children@[cs.len() as int] == leaf);
                lemma_common_len_bounds(before.key@, key@);
                assert(self@ =~= before@.insert(key@, value));
            }
            None
        }
    }

    /// Finds the node that holds a value under `key`, for changing it in
    /// place.
    pub fn find_mut(&mut self, key: &[K]) -> (r: Option<&mut Tree<K, V>>)
        requires
            old(self).wf(),
        ensures
            r is Some <==> old(self)@.contains_key(key@),
            r is None ==> *final(self) == *old(self),
            match r {
                Some(t) => {
                    &&& *t == old(self).at(key@)
                    &&& t.stored() == found(old(self)@, key@)
                    &&& Self::replaced(*old(self), *final(self), key@, *final(t))
                },
                None => true,
            },
    {
        if self.find(key).is_none() {
            return None;
        }
        Some(self.locate_mut(key))
    }

    /// The node that holds the stored key `key`.
    fn locate_mut(&mut self, key: &[K]) -> (t: &mut Tree<K, V>)
        requires
            old(self).wf(),
            old(self)@.contains_key(key@),
        ensures
            *t == old(self).at(key@),
            t.stored() == found(old(self)@, key@),
            Self::replaced(*old(self), *final(self), key@, *final(t)),
        decreases *old(self),
    {
        proof {
            self.lemma_view(key@);
        }
        let p = common_prefix(self.key.as_slice(), key);
        proof {
            if p < self.key@.len() && self.key@.len() <= key@.len() {
                assert(key@.take(self.key@.len() as int)[p as int] == key@[p as int]);
            }
        }
        assert(self.key@.take(p as int) =~= self.key@);
        if p == key.len() {
            assert(key@.take(p as int) =~= key@);
            return self;
        }
        let (_, rest) = key.split_at(p);
        assert(rest@ =~= key@.skip(p as int));
        let i = self.branch_for(rest);
        proof {
            Self::lemma_lookup_in(self.children@, rest@);
            self.children@[i as int].lemma_view(rest@);
            assert(Self::pick(self.children@, rest@) == i) by {
                let j = Self::pick(self.children@, rest@);
                assert(0 <= j < self.children@.len() && self.children@[j].key@[0] == rest@[0]);
            }
        }
        self.children[i].locate_mut(rest)
    }

    /// The position of the child whose fragment starts with the first symbol
    /// of `rest`, or the number of children when there is none.
    fn branch_for(&self, rest: &[K]) -> (i: usize)
        requires
            Self::siblings_ok(self.children@),
            rest@.len() > 0,
        ensures
            i <= self.children@.len(),
            i < self.children@.len() ==> self.children@[i as int].key@[0] == rest@[0],
            i == self.children@.len() ==> forall|j: int|
                0 <= j < self.children@.len() ==> (#[trigger] self.children@[j]).key@[0] != rest@[0],
    {
        let mut i: usize = 0;
        while i < self.children.len()
            invariant
                Self::siblings_ok(self.children@),
                i <= self.children@.len(),
                rest@.len() > 0,
                forall|j: int| 0 <= j < i ==> (#[trigger] self.children@[j]).key@[0] != rest@[0],
            decreases self.children@.len() - i,
        {
            if self.children[i].key[0].same(&rest[0]) {
                return i;
            }
            i = i + 1;
        }
        i
    }

    /// Counts the leading symbols that this node's fragment shares with
    /// `other`.
    pub fn common_prefix(&self, other: &[K]) -> (r: usize)
        ensures
            r == common_len(self.fragment(), other@),
    {
        common_prefix(self.key.as_slice(), other)
    }

    /// Finds the node that holds a value under `key`, where `key` is read from
    /// the start of this node's fragment.
    pub fn find(&self, key: &[K]) -> (r: Option<&Tree<K, V>>)
        requires
            self.wf(),
        ensures
            r is Some <==> self@.contains_key(key@),
            r is Some ==> r->Some_0.stored() == found(self@, key@),
        decreases self,
    {
        proof {
            self.lemma_view(key@);
        }
        let p = common_prefix(self.key.as_slice(), key);
        if p < self.key.len() {
            proof {
                if self.key@.len() <= key@.len() {
                    assert(key@.take(self.key@.len() as int)[p as int] == key@[p as int]);
                }
            }
            return None;
        }
        assert(self.key@.take(p as int) =~= self.key@);
        if p == key.len() {
            assert(key@.take(p as int) =~= key@);
            if self.value.is_some() {
                return Some(self);
            } else {
                return None;
            }
        }
        let (_, rest) = key.split_at(p);
        assert(rest@ =~= key@.skip(p as int));
        let i = self.branch_for(rest);
        proof {
            Self::lemma_lookup_in(self.children@, rest@);
        }
        if i < self.children.len() {
            let r = self.children[i].find(rest);
            proof {
                self.children@[i as int].lemma_view(rest@);
            }
            r
        } else {
            None
        }
    }
}

/// One level of the traversal stack: a node, how many of its children have
/// been entered, and the length of the key that ends at the node.
struct Frame<'a, K, V> {
    node: &'a Tree<K, V>,
    next: usize,
    depth: usize,
}

/// A depth-first walk over a tree that rebuilds each full key from the
/// fragments on the path to its node. A node's own value comes before the
/// entries of its children, and children are visited in storage order.
pub struct Cursor<'a, K, V> {
    root: &'a Tree<K, V>,
    pending: bool,
    stack: Vec<Frame<'a, K, V>>,
    key: Vec<K>,
}

impl<'a, K, V> Cursor<'a, K, V> {
    /// What the frames still have to visit, top frame first.
    spec fn rest(stack: Seq<Frame<'a, K, V>>, key: Seq<K>) -> Seq<(Seq<K>, V)>
        decreases stack.len(),
    {
        if stack.len() == 0 {
            Seq::<(Seq<K>, V)>::empty()
        } else {
            let f = stack.last();
            Tree::<K, V>::entries_in(f.node.children@.skip(f.next as int), key.take(f.depth as int))
                + Self::rest(stack.drop_last(), key)
        }
    }

    /// The number of nodes the frames have still to enter.
    spec fn unvisited(stack: Seq<Frame<'a, K, V>>) -> nat
        decreases stack.len(),
    {
        if stack.len() == 0 {
            0
        } else {
            let f = stack.last();
            Tree::<K, V>::size_in(f.node.children@.skip(f.next as int)) + Self::unvisited(stack.drop_last())
        }
    }

    /// The frames are consistent with the key that has been rebuilt.
    pub closed spec fn wf(&self) -> bool {
        &&& self.pending ==> self.root.value is Some && self.key@ == self.root.key@
        &&& forall|j: int|
            0 <= j < self.stack@.len() ==> (#[trigger] self.stack@[j]).next <= self.stack@[j].node.children@.len()
        &&& forall|j: int|
            0 <= j < self.stack@.len() ==> (#[trigger] self.stack@[j]).depth <= self.key@.len()
        &&& forall|i: int, j: int|
            0 <= i <= j < self.stack@.len() ==> (#[trigger] self.stack@[i]).depth <= (
            #[trigger] self.stack@[j]).depth
        &&& self.stack@.len() > 0 ==> self.stack@.last().depth == self.key@.len()
    }

    /// Keys that the frames below the top read are not changed by extending
    /// or cutting the rebuilt key above their depths.
    proof fn lemma_rest_key(stack: Seq<Frame<'a, K, V>>, key: Seq<K>, key2: Seq<K>, n: int)
        requires
            forall|j: int| 0 <= j < stack.len() ==> (#[trigger] stack[j]).depth <= n,
            n <= key.len(),
            n <= key2.len(),
            key.take(n) == key2.take(n),
        ensures
            Self::rest(stack, key) == Self::rest(stack, key2),
        decreases stack.len(),
    {
        if stack.len() > 0 {
            let f = stack.last();
            assert(key.take(f.depth as int) =~= key2.take(f.depth as int)) by {
                assert forall|j: int| 0 <= j < f.depth implies key.take(f.depth as int)[j] == key2.take(
                    f.depth as int,
                )[j] by {
                    assert(key.take(n)[j] == key2.take(n)[j]);
                }
            }
            let st = stack.drop_last();
            assert forall|j: int| 0 <= j < st.len() implies (#[trigger] st[j]).depth <= n by {
                assert(st[j] == stack[j]);
            }
            Self::lemma_rest_key(st, key, key2, n);
        }
    }
}

impl<'a, K, V> View for Cursor<'a, K, V> {
    type V = Seq<(Seq<K>, V)>;

    /// The entries still to come, in order.
    closed spec fn view(&self) -> Seq<(Seq<K>, V)> {
        let own = if self.pending {
            seq![(self.root.key@, self.root.value->Some_0)]
        } else {
            Seq::<(Seq<K>, V)>::empty()
        };
        own + Self::rest(self.stack@, self.key@)
    }
}

impl<'a, K: Copy, V> Cursor<'a, K, V> {
    /// Starts a walk over the tree at `root`.
    pub fn new(root: &'a Tree<K, V>) -> (c: Cursor<'a, K, V>)
        ensures
            c.wf(),
            c@ == root.traversal(),
    {
        let key = slice_to_vec(root.key.as_slice());
        let mut stack: Vec<Frame<'a, K, V>> = Vec::new();
        stack.push(Frame { node: root, next: 0, depth: root.key.len() });
        let c = Cursor { root, pending: root.value.is_some(), stack, key };
        proof {
            let f = c.stack@[0];
            assert(c.stack@.drop_last() =~= Seq::<Frame<'a, K, V>>::empty());
            assert(root.children@.skip(0) =~= root.children@);
            assert(c.key@.take(f.depth as int) =~= root.key@);
            assert(Seq::<K>::empty() + root.key@ =~= root.key@);
            assert(Self::rest(c.stack@, c.key@) == Tree::<K, V>::entries_in(root.children@, root.key@)
                + Self::rest(Seq::<Frame<'a, K, V>>::empty(), c.key@));
            assert(Self::rest(c.stack@, c.key@) =~= Tree::<K, V>::entries_in(root.children@, root.key@));
            assert(root.traversal() == root.entries(Seq::<K>::empty()));
            assert(c@ =~= root.traversal());
        }
        c
    }

    /// The next entry, with its full key; `None` once the walk is over, and
    /// from then on.
    pub fn next(&mut self) -> (r: Option<(Vec<K>, &'a V)>)
        requires
            old(self).wf(),
        ensures
            final(self).wf(),
            match r {
                Some(e) => {
                    &&& old(self)@.len() > 0
                    &&& old(self)@[0] == (e.0@, *e.1)
                    &&& final(self)@ == old(self)@.drop_first()
                },
                None => old(self)@.len() == 0 && final(self)@ == old(self)@,
            },
    {
        if self.pending {
            self.pending = false;
            let v = self.root.value.as_ref().unwrap();
            let k = slice_to_vec(self.key.as_slice());
            assert(old(self)@ == seq![(k@, *v)] + self@);
            assert(old(self)@.drop_first() =~= self@);
            return Some((k, v));
        }
        let ghost todo = self@;
        loop
            invariant
                self.wf(),
                !self.pending,
                self@ == todo,
                todo == old(self)@,
            decreases 2 * Self::unvisited(self.stack@) + self.stack@.len(),
        {
            let n = self.stack.len();
            if n == 0 {
                assert(self@ =~= Seq::<(Seq<K>, V)>::empty());
                return None;
            }
            let node: &'a Tree<K, V> = self.stack[n - 1].node;
            let next = self.stack[n - 1].next;
            let depth = self.stack[n - 1].depth;
            let ghost st = self.stack@;
            let ghost key0 = self.key@;
            if next < node.children.len() {
                let child: &'a Tree<K, V> = &node.children[next];
                self.stack.pop();
                assert(self.stack@ == st.drop_last());
                self.stack.push(Frame { node, next: next + 1, depth });
                let ghost st1 = self.stack@;
                let mut i: usize = 0;
                while i < child.key.len()
                    invariant
                        i <= child.key@.len(),
                        self.key@ == key0 + child.key@.take(i as int),
                        self.stack@ == st1,
                        !self.pending,
                    decreases child.key@.len() - i,
                {
                    self.key.push(child.key[i]);
                    assert(child.key@.take(i + 1) == child.key@.take(i as int).push(child.key@[i as int]));
                    i = i + 1;
                }
                assert(child.key@.take(i as int) =~= child.key@);
                self.stack.push(Frame { node: child, next: 0, depth: self.key.len() });
                proof {
                    let below = st.drop_last();
                    assert(self.stack@.drop_last().drop_last() =~= below);
                    assert forall|j: int| 0 <= j < below.len() implies (#[trigger] below[j]).depth <= key0.len() by {
                        assert(below[j] == st[j]);
                    }
                    assert(self.key@.take(key0.len() as int) =~= key0);
                    assert(key0.take(key0.len() as int) =~= key0);
                    Self::lemma_rest_key(below, key0, self.key@, key0.len() as int);
                    Tree::<K, V>::lemma_skip_step(node.children@, next as int, key0.take(depth as int));
                    assert(key0.take(depth as int) =~= key0);
                    assert(self.key@.take(self.key@.len() as int) =~= self.key@);
                    assert(self.key@.take(depth as int) =~= key0);
                    assert(child.children@.skip(0) =~= child.children@);
                    assert(Self::unvisited(self.stack@) == Tree::<K, V>::size_in(child.children@) + Self::unvisited(
                        self.stack@.drop_last(),
                    ));
                    assert(Self::unvisited(self.stack@.drop_last()) == Tree::<K, V>::size_in(
                        node.children@.skip(next + 1),
                    ) + Self::unvisited(below));
                    assert(Self::unvisited(st) == Tree::<K, V>::size_in(node.children@.skip(next as int))
                        + Self::unvisited(below));
                    assert(child.size() == 1 + Tree::<K, V>::size_in(child.children@));
                    let key1 = self.key@;
                    let ea = Tree::<K, V>::entries_in(child.children@, key1);
                    let eb = Tree::<K, V>::entries_in(node.children@.skip(next + 1), key0);
                    let ec = Self::rest(below, key0);
                    assert(self.stack@.last().node == child);
                    assert(Self::rest(self.stack@, key1) == ea + Self::rest(self.stack@.drop_last(), key1));
                    assert(self.stack@.drop_last().last().depth == depth);
                    assert(Self::rest(self.stack@.drop_last(), key1) == eb + Self::rest(below, key1));
                    assert(Self::rest(below, key1) == ec);
                    assert(self@ == Self::rest(self.stack@, key1)) by {
                        assert(Seq::<(Seq<K>, V)>::empty() + Self::rest(self.stack@, key1) =~= Self::rest(
                            self.stack@,
                            key1,
                        ));
                    }
                    assert(self@ =~= ea + (eb + ec));
                    assert(todo == Tree::<K, V>::entries_in(node.children@.skip(next as int), key0) + ec);
                    assert(todo == child.entries(key0) + (eb + ec));
                    assert forall|j: int| 0 <= j < self.stack@.len() implies (#[trigger] self.stack@[j]).next
                        <= self.stack@[j].node.children@.len() && self.stack@[j].depth <= self.key@.len() by {
                        if j < below.len() {
                            assert(self.stack@[j] == st[j]);
                        }
                    }
                    assert forall|a: int, b: int| 0 <= a <= b < self.stack@.len() implies (
                    #[trigger] self.stack@[a]).depth <= (#[trigger] self.stack@[b]).depth by {
                        if a < below.len() {
                            assert(self.stack@[a] == st[a]);
                            assert(st[a].depth <= st[st.len() - 1].depth);
                        }
                        if b < below.len() {
                            assert(self.stack@[b] == st[b]);
                        }
                    }
                }
                match child.value.as_ref() {
                    Some(v) => {
                        let k = slice_to_vec(self.key.as_slice());
                        proof {
                            let key1 = self.key@;
                            let a = Tree::<K, V>::entries_in(child.children@, key1);
                            assert(child.entries(key0) == seq![(key1, *v)] + a);
                            assert(todo =~= seq![(k@, *v)] + self@);
                            assert(todo.drop_first() =~= self@);
                        }
                        return Some((k, v));
                    },
                    None => {
                        proof {
                            let a = Tree::<K, V>::entries_in(child.children@, self.key@);
                            assert(child.entries(key0) =~= a);
                        }
                        assert(self@ =~= todo);
                    },
                }
            } else {
                self.stack.pop();
                proof {
                    assert(node.children@.skip(next as int) =~= Seq::<Tree<K, V>>::empty());
                    assert(Tree::<K, V>::size_in(Seq::<Tree<K, V>>::empty()) == 0);
                    assert(Self::unvisited(st) == Self::unvisited(self.stack@));
                }
                if n > 1 {
                    let d = self.stack[n - 2].depth;
                    self.key.truncate(d);
                    proof {
                        let below = self.stack@;
                        assert(below == st.drop_last());
                        assert forall|j: int| 0 <= j < below.len() implies (#[trigger] below[j]).depth <= d by {
                            assert(below[j] == st[j]);
                            assert(below[below.len() - 1] == st[n - 2]);
                        }
                        assert(key0.take(d as int) =~= self.key@.take(d as int));
                        Self::lemma_rest_key(below, key0, self.key@, d as int);
                    }
                }
                assert(self@ =~= todo);
            }
        }
    }
}

} // verus!
