use core::cmp::Ordering;
use vstd::laws_cmp::{obeys_cmp_partial_ord, obeys_partial_cmp_spec_properties};
use vstd::laws_eq::obeys_concrete_eq;
use vstd::prelude::*;
use vstd::std_specs::cmp::{PartialEqSpec, PartialOrdSpec};

verus! {

/// A binary search tree: `Nil` holds no binding, a `Node` holds one binding
/// and owns the sub-trees of smaller and of greater keys.
pub enum Tree<K, V> {
    Node { left: Box<Tree<K, V>>, right: Box<Tree<K, V>>, value: V, key: K },
    Nil,
}

/// The strict order on keys that `<` computes.
pub open spec fn key_lt<K: PartialOrd>(a: K, b: K) -> bool {
    a.partial_cmp_spec(&b) == Some(Ordering::Less)
}

/// The key type's `==` is equality of values, and its `partial_cmp` is a
/// strict total order that agrees with that `==`.
pub open spec fn valid_key_order<K: PartialOrd>() -> bool {
    &&& obeys_concrete_eq::<K>()
    &&& obeys_cmp_partial_ord::<K>()
    &&& obeys_partial_cmp_spec_properties::<K>()
    &&& forall|a: K, b: K| (#[trigger] a.partial_cmp_spec(&b)) is Some
}

/// The mapping that results from inserting `k` with `v` into `m`: a binding
/// already present for `k` is kept.
pub open spec fn inserted<K, V>(m: Map<K, V>, k: K, v: V) -> Map<K, V> {
    if m.dom().contains(k) {
        m
    } else {
        m.insert(k, v)
    }
}

/// The mapping that results from inserting the pairs of `s` into `m`, first
/// to last.
pub open spec fn inserted_all<K, V>(m: Map<K, V>, s: Seq<(K, V)>) -> Map<K, V>
    decreases s.len(),
{
    if s.len() == 0 {
        m
    } else {
        inserted(inserted_all(m, s.drop_last()), s.last().0, s.last().1)
    }
}

/// Under a valid key order, `==` and `<` compute their specifications, `==`
/// is equality, and exactly one of `a == b`, `a < b`, `b < a` holds.
proof fn lemma_key_trichotomy<K: PartialOrd>(a: K, b: K)
    requires
        valid_key_order::<K>(),
    ensures
        K::obeys_eq_spec(),
        K::obeys_partial_cmp_spec(),
        a.eq_spec(&b) <==> a == b,
        a.partial_cmp_spec(&b) == Some(Ordering::Equal) <==> a == b,
        a.partial_cmp_spec(&b) == Some(Ordering::Greater) <==> key_lt(b, a),
        a == b || key_lt(a, b) || key_lt(b, a),
        !(key_lt(a, b) && key_lt(b, a)),
        !key_lt(a, a),
{
    reveal(obeys_concrete_eq);
    reveal(obeys_cmp_partial_ord);
    reveal(obeys_partial_cmp_spec_properties);
    assert(a.partial_cmp_spec(&a) is Some);
    match a.partial_cmp_spec(&b).unwrap() {
        Ordering::Less => {},
        Ordering::Equal => {},
        Ordering::Greater => {},
    }
}

impl<K, V> Tree<K, V> {
    /// The bindings that the tree holds.
    pub open spec fn as_map(self) -> Map<K, V>
        decreases self,
    {
        match self {
            Tree::Nil => Map::empty(),
            Tree::Node { left, right, value, key } => {
                left.as_map().union_prefer_right(right.as_map()).insert(key, value)
            },
        }
    }
}

impl<K, V> View for Tree<K, V> {
    type V = Map<K, V>;

    open spec fn view(&self) -> Map<K, V> {
        self.as_map()
    }
}

impl<K: PartialEq + PartialOrd, V> Tree<K, V> {
    /// Every key of a left sub-tree is less than its node's key, every key of
    /// a right sub-tree greater, at every node.
    pub open spec fn wf(self) -> bool
        decreases self,
    {
        match self {
            Tree::Nil => true,
            Tree::Node { left, right, value, key } => {
                &&& left.wf()
                &&& right.wf()
                &&& forall|k: K| #[trigger] left.as_map().dom().contains(k) ==> key_lt(k, key)
                &&& forall|k: K| #[trigger] right.as_map().dom().contains(k) ==> key_lt(key, k)
            },
        }
    }

    /// Returns a new, empty tree.
    pub fn new() -> (r: Tree<K, V>)
        ensures
            r is Nil,
            r@ == Map::<K, V>::empty(),
            r.wf(),
    {
        Tree::Nil
    }

    /// Returns whether the tree holds no binding.
    pub fn is_empty(&self) -> (r: bool)
        ensures
            r == (*self is Nil),
            r == (self@ == Map::<K, V>::empty()),
    {
        match self {
            Tree::Nil => true,
            Tree::Node { key, .. } => {
                assert(self@.dom().contains(*key));
                false
            },
        }
    }
    /// Adds a binding of `key` to `value` and returns the new tree. Where
    /// the tree already binds `key`, that binding is kept and `value` is
    /// dropped. Only the sub-trees on the search path are rebuilt.
    pub fn insert(self, key: K, value: V) -> (r: Tree<K, V>)
        requires
            valid_key_order::<K>(),
            self.wf(),
        ensures
            r.wf(),
            r@ == inserted(self@, key, value),
            r@.dom().contains(key),
            !(r is Nil),
            (match self {
                Tree::Nil => true,
                Tree::Node { left, right, value: v, key: k } => {
                    &&& r matches Tree::Node { left: rl, right: rr, value: rv, key: rk }
                    &&& rk == k
                    &&& rv == v
                    &&& !key_lt(key, k) ==> rl == left
                    &&& !key_lt(k, key) ==> rr == right
                },
            }),
        decreases self,
    {
        match self {
            Tree::Nil => {
                let r = Tree::Node {
                    left: Box::new(Tree::Nil),
                    right: Box::new(Tree::Nil),
                    value: value,
                    key: key,
                };
                assert(Tree::<K, V>::Nil@ == Map::<K, V>::empty());
                assert(r@ =~= Map::<K, V>::empty().insert(key, value));
                r
            },
            Tree::Node { left, right, value: v, key: k } => {
                proof { lemma_key_trichotomy(key, k) }
                if key == k {
                    Tree::Node { left: left, right: right, value: v, key: k }
                } else if key < k {
                    let new_left = (*left).insert(key, value);
                    assert(!right@.dom().contains(key));
                    let r = Tree::Node { left: Box::new(new_left), right: right, value: v, key: k };
                    assert(r@ =~= inserted(self@, key, value));
                    r
                } else {
                    let new_right = (*right).insert(key, value);
                    assert(!left@.dom().contains(key));
                    let r = Tree::Node { left: left, right: Box::new(new_right), value: v, key: k };
                    assert(r@ =~= inserted(self@, key, value));
                    r
                }
            },
        }
    }

    /// Returns the value bound to `key`, or `None` where the tree has no
    /// binding for it.
    pub fn get(&self, key: &K) -> (r: Option<&V>)
        requires
            valid_key_order::<K>(),
            self.wf(),
        ensures
            (match r {
                Some(v) => self@.dom().contains(*key) && *v == self@[*key],
                None => !self@.dom().contains(*key),
            }),
        decreases self,
    {
        match self {
            Tree::Nil => None,
            Tree::Node { left, right, value, key: k } => {
                proof { lemma_key_trichotomy(*key, *k) }
                if *key == *k {
                    Some(value)
                } else if *key < *k {
                    assert(!right@.dom().contains(*key));
                    left.get(key)
                } else {
                    assert(!left@.dom().contains(*key));
                    right.get(key)
                }
            },
        }
    }
}

} // verus!
