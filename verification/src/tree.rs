//! Binary trie for canonical Huffman prefix codes.
//!
//! A node is either internal (no value) or a leaf holding a symbol value;
//! a leaf never has children, so no code is a prefix of another. The trie
//! is built once per code table and consulted bit by bit through a
//! `Cursor` during decoding.

use crate::error::Error;
use vstd::prelude::*;

verus! {

/// True iff bit `i` (counting from the least significant end) of `n` is set.
pub open spec fn spec_get_bit(n: u64, i: usize) -> bool {
    ((1u64 << i) & n) > 0
}

pub fn get_bit(n: u64, i: usize) -> (r: bool)
    requires
        i < 64,
    ensures
        r == spec_get_bit(n, i),
{
    ((1u64 << i) & n) > 0
}

/// The decision path of a code of `len` bits read MSB-first from `key`:
/// entry `j` is bit `len - 1 - j` of `key`.
pub open spec fn key_path(key: u64, len: nat) -> Seq<bool> {
    Seq::new(len, |j: int| spec_get_bit(key, (len - 1 - j) as usize))
}

/// `p` is an initial segment of `q`.
pub open spec fn path_prefix_of(p: Seq<bool>, q: Seq<bool>) -> bool {
    p.len() <= q.len() && q.subrange(0, p.len() as int) == p
}

/// An optional owned child of a trie node.
#[derive(Debug)]
pub struct NodeChild(pub Option<Box<Node>>);

impl NodeChild {
    pub fn unbox(&self) -> (r: Option<&Node>)
        ensures
            match r {
                Some(n) => self.0 is Some && *n == self.0->Some_0,
                None => self.0 is None,
            },
    {
        match &self.0 {
            Some(boxed) => Some(&**boxed),
            None => None,
        }
    }

    pub fn is_present(&self) -> (r: bool)
        ensures
            r == (self.0 is Some),
    {
        self.0.is_some()
    }
}

/// One trie node: a leaf iff `value` is present.
#[derive(Debug)]
pub struct Node {
    pub value: Option<u64>,
    pub zero: NodeChild,
    pub one: NodeChild,
}

impl Node {
    /// The child selected by one bit.
    pub open spec fn spec_child(self, bit: bool) -> Option<Box<Node>> {
        if bit {
            self.one.0
        } else {
            self.zero.0
        }
    }

    /// The node reached by following `path` from `self`, if every edge on
    /// the way exists.
    pub open spec fn node_at(self, path: Seq<bool>) -> Option<Node>
        decreases path.len(),
    {
        if path.len() == 0 {
            Some(self)
        } else {
            match self.spec_child(path[0]) {
                Some(c) => c.node_at(path.skip(1)),
                None => None,
            }
        }
    }

    /// A new code at `path` may be added below `self`: the path crosses no
    /// leaf, and the slot at its end is still empty.
    pub open spec fn can_add(self, path: Seq<bool>) -> bool
        decreases path.len(),
    {
        if self.value is Some {
            false
        } else if path.len() == 0 {
            false
        } else {
            match self.spec_child(path[0]) {
                Some(c) => c.can_add(path.skip(1)),
                None => true,
            }
        }
    }

    pub fn new(value: Option<u64>) -> (r: Node)
        ensures
            r.value == value,
            (r.zero.0 is None),
            (r.one.0 is None),
    {
        Node { value, zero: NodeChild(None), one: NodeChild(None) }
    }

    /// Borrows the child selected by `bit`; fails with `InvalidCode`
    /// exactly when that child is absent.
    pub fn follow(&self, bit: bool) -> (r: Result<&Node, Error>)
        ensures
            match self.spec_child(bit) {
                Some(c) => r is Ok && *r->Ok_0 == c,
                None => r == Err::<&Node, Error>(Error::InvalidCode),
            },
    {
        let child = if bit { &self.one } else { &self.zero };
        match &child.0 {
            Some(boxed) => Ok(&**boxed),
            None => Err(Error::InvalidCode),
        }
    }

    /// Installs `node` as the child selected by `bit`; fails, changing
    /// nothing, exactly when that child already exists.
    pub fn add(&mut self, bit: bool, node: Node) -> (r: Result<(), Error>)
        ensures
            old(self).spec_child(bit) is Some ==> {
                &&& r == Err::<(), Error>(Error::MalformedCodeTable)
                &&& *final(self) == *old(self)
            },
            old(self).spec_child(bit) is None ==> {
                &&& r == Ok::<(), Error>(())
                &&& final(self).value == old(self).value
                &&& final(self).spec_child(bit) matches Some(c) && *c == node
                &&& final(self).spec_child(!bit) == old(self).spec_child(!bit)
            },
    {
        if bit {
            if self.one.0.is_some() {
                return Err(Error::MalformedCodeTable);
            }
            self.one = NodeChild(Some(Box::new(node)));
        } else {
            if self.zero.0.is_some() {
                return Err(Error::MalformedCodeTable);
            }
            self.zero = NodeChild(Some(Box::new(node)));
        }
        Ok(())
    }

    /// Ensures the child selected by `bit` exists, creating a node with
    /// `value` when it is absent; an existing child is left as it is.
    pub fn follow_or_add(&mut self, bit: bool, value: Option<u64>)
        ensures
            final(self).value == old(self).value,
            final(self).spec_child(!bit) == old(self).spec_child(!bit),
            match old(self).spec_child(bit) {
                Some(c) => final(self).spec_child(bit) == old(self).spec_child(bit),
                None => final(self).spec_child(bit) matches Some(c) && c.value == value
                    && c.zero.0 is None && c.one.0 is None,
            },
    {
        let child = if bit { &mut self.one } else { &mut self.zero };
        if child.0.is_none() {
            *child = NodeChild(Some(Box::new(Node::new(value))));
        }
    }

    pub fn is_leaf(&self) -> (r: bool)
        ensures
            r == (self.value is Some),
    {
        self.value.is_some()
    }

    /// Adds a leaf holding `value` at the end of the `len`-bit path spelt
    /// by `key` (MSB first). Succeeds exactly when the path crosses no
    /// leaf and ends at an empty slot; on failure nothing changes.
    fn insert_path(&mut self, key: u64, len: usize, value: u64) -> (r: Result<(), Error>)
        requires
            1 <= len <= 64,
        ensures
            r is Ok <==> old(self).can_add(key_path(key, len as nat)),
            r is Err ==> *final(self) == *old(self),
            r is Err ==> r == Err::<(), Error>(Error::MalformedCodeTable),
            r is Ok ==> ({
                let path = key_path(key, len as nat);
                &&& final(self).node_at(path) matches Some(m) && m.value == Some(value)
                    && m.zero.0 is None && m.one.0 is None
                &&& forall|q: Seq<bool>|
                    path_prefix_of(q, path) && q.len() < path.len()
                        ==> ((#[trigger] final(self).node_at(q)) matches Some(m) && m.value is None)
                &&& forall|q: Seq<bool>|
                    !path_prefix_of(q, path) && !path_prefix_of(path, q)
                        ==> #[trigger] final(self).node_at(q) == old(self).node_at(q)
                &&& forall|q: Seq<bool>|
                    path_prefix_of(path, q) && q.len() > path.len()
                        ==> (#[trigger] final(self).node_at(q) is None)
            }),
        decreases len,
    {
        let ghost path = key_path(key, len as nat);
        proof {
            assert(path[0] == spec_get_bit(key, (len - 1) as usize));
        }
        if self.value.is_some() {
            return Err(Error::MalformedCodeTable);
        }
        let bit = get_bit(key, len - 1);
        if len == 1 {
            let exists_already = if bit { self.one.0.is_some() } else { self.zero.0.is_some() };
            if exists_already {
                proof {
                    let c = self.spec_child(path[0])->Some_0;
                    assert(path.skip(1).len() == 0);
                    assert(!c.can_add(path.skip(1)));
                }
                return Err(Error::MalformedCodeTable);
            }
            let leaf = Node::new(Some(value));
            if bit {
                self.one = NodeChild(Some(Box::new(leaf)));
            } else {
                self.zero = NodeChild(Some(Box::new(leaf)));
            }
            proof {
                lemma_insert_leaf_shape(*old(self), *self, path, value);
            }
            Ok(())
        } else {
            let ghost subpath = key_path(key, (len - 1) as nat);
            proof {
                assert(subpath =~= path.skip(1));
            }
            let taken = if bit { self.one.0.take() } else { self.zero.0.take() };
            let existed: bool = taken.is_some();
            let mut c: Box<Node> = match taken {
                Some(c) => c,
                None => Box::new(Node::new(None)),
            };
            let r = (&mut *c).insert_path(key, len - 1, value);
            if bit {
                self.one = NodeChild(Some(c));
            } else {
                self.zero = NodeChild(Some(c));
            }
            proof {
                if r is Err {
                    assert(*self == *old(self)) by {
                        assert(existed);
                        assert(self.spec_child(path[0]) matches Some(cc) && *cc == *c);
                        assert(self.spec_child(!path[0]) == old(self).spec_child(!path[0]));
                        lemma_node_fields_eq(*self, *old(self), path[0]);
                    }
                } else {
                    lemma_insert_step_shape(*old(self), *self, *c, existed, path, subpath, value);
                }
            }
            r
        }
    }
}

/// After installing a fresh leaf as the `path[0]` child of a childless
/// step, the whole-tree shape clauses hold for a one-bit path.
proof fn lemma_insert_leaf_shape(pre: Node, post: Node, path: Seq<bool>, value: u64)
    requires
        path.len() == 1,
        (pre.value is None),
        (pre.spec_child(path[0]) is None),
        post.value == pre.value,
        post.spec_child(!path[0]) == pre.spec_child(!path[0]),
        (post.spec_child(path[0]) matches Some(c) && c.value == Some(value) && c.zero.0 is None
            && c.one.0 is None),
    ensures
        (post.node_at(path) matches Some(m) && m.value == Some(value) && m.zero.0 is None
            && m.one.0 is None),
        forall|q: Seq<bool>|
            path_prefix_of(q, path) && q.len() < path.len() ==> ((#[trigger] post.node_at(q))
                matches Some(m) && m.value is None),
        forall|q: Seq<bool>|
            !path_prefix_of(q, path) && !path_prefix_of(path, q) ==> #[trigger] post.node_at(q)
                == pre.node_at(q),
        forall|q: Seq<bool>|
            path_prefix_of(path, q) && q.len() > path.len() ==> (#[trigger] post.node_at(q) is None),
{
    let leaf = post.spec_child(path[0])->Some_0;
    assert(path.skip(1).len() == 0);
    assert(post.node_at(path) == leaf.node_at(path.skip(1)));
    assert forall|q: Seq<bool>|
        path_prefix_of(q, path) && q.len() < path.len() implies ((#[trigger] post.node_at(q))
        matches Some(m) && m.value is None) by {
        assert(q.len() == 0);
    }
    assert forall|q: Seq<bool>|
        !path_prefix_of(q, path) && !path_prefix_of(path, q) implies #[trigger] post.node_at(q)
        == pre.node_at(q) by {
        if q.len() == 0 {
            assert(path.subrange(0, 0) =~= q);
            assert(path_prefix_of(q, path));
        } else {
            if q[0] == path[0] {
                assert(q.subrange(0, 1) =~= path);
                assert(path_prefix_of(path, q));
            } else {
                assert(post.spec_child(q[0]) == pre.spec_child(q[0]));
            }
        }
    }
    assert forall|q: Seq<bool>|
        path_prefix_of(path, q) && q.len() > path.len() implies (#[trigger] post.node_at(q)
        is None) by {
        assert(q[0] == path[0]);
        let qs = q.skip(1);
        assert(qs.len() > 0);
        assert(leaf.spec_child(qs[0]) is None);
        assert(post.node_at(q) == leaf.node_at(qs));
    }
}

/// Two nodes with equal value and equal children are the same node.
proof fn lemma_node_fields_eq(a: Node, b: Node, bit: bool)
    requires
        a.value == b.value,
        a.spec_child(bit) == b.spec_child(bit),
        a.spec_child(!bit) == b.spec_child(!bit),
    ensures
        a == b,
{
    if bit {
        assert(a.one.0 == b.one.0);
        assert(a.zero.0 == b.zero.0);
    } else {
        assert(a.one.0 == b.one.0);
        assert(a.zero.0 == b.zero.0);
    }
    assert(a == Node { value: a.value, zero: NodeChild(a.zero.0), one: NodeChild(a.one.0) });
    assert(b == Node { value: b.value, zero: NodeChild(b.zero.0), one: NodeChild(b.one.0) });
}

/// Lifts the shape clauses from the modified child `c` one level up to
/// the parent: the parent keeps its value and its other child, and every
/// path through the trie either starts with `path[0]` (and is answered by
/// `c`) or is untouched.
proof fn lemma_insert_step_shape(
    pre: Node,
    post: Node,
    c: Node,
    existed: bool,
    path: Seq<bool>,
    subpath: Seq<bool>,
    value: u64,
)
    requires
        path.len() >= 2,
        subpath == path.skip(1),
        (pre.value is None),
        post.value == pre.value,
        post.spec_child(!path[0]) == pre.spec_child(!path[0]),
        (post.spec_child(path[0]) matches Some(cc) && *cc == c),
        existed ==> (pre.spec_child(path[0]) is Some),
        !existed ==> (pre.spec_child(path[0]) is None),
        (c.node_at(subpath) matches Some(m) && m.value == Some(value) && m.zero.0 is None
            && m.one.0 is None),
        forall|q: Seq<bool>|
            path_prefix_of(q, subpath) && q.len() < subpath.len() ==> ((#[trigger] c.node_at(q))
                matches Some(m) && m.value is None),
        existed ==> (forall|q: Seq<bool>|
            !path_prefix_of(q, subpath) && !path_prefix_of(subpath, q) ==> #[trigger] c.node_at(q)
                == pre.spec_child(path[0])->Some_0.node_at(q)),
        !existed ==> (forall|q: Seq<bool>|
            !path_prefix_of(q, subpath) && !path_prefix_of(subpath, q) ==> #[trigger] c.node_at(q)
                == (Node { value: None, zero: NodeChild(None), one: NodeChild(None) }).node_at(q)),
        forall|q: Seq<bool>|
            path_prefix_of(subpath, q) && q.len() > subpath.len() ==> (#[trigger] c.node_at(q)
                is None),
    ensures
        (post.node_at(path) matches Some(m) && m.value == Some(value) && m.zero.0 is None
            && m.one.0 is None),
        forall|q: Seq<bool>|
            path_prefix_of(q, path) && q.len() < path.len() ==> ((#[trigger] post.node_at(q))
                matches Some(m) && m.value is None),
        forall|q: Seq<bool>|
            !path_prefix_of(q, path) && !path_prefix_of(path, q) ==> #[trigger] post.node_at(q)
                == pre.node_at(q),
        forall|q: Seq<bool>|
            path_prefix_of(path, q) && q.len() > path.len() ==> (#[trigger] post.node_at(q) is None),
{
    assert(post.node_at(path) == c.node_at(subpath));
    assert forall|q: Seq<bool>|
        path_prefix_of(q, path) && q.len() < path.len() implies ((#[trigger] post.node_at(q))
        matches Some(m) && m.value is None) by {
        if q.len() == 0 {
            assert(post.node_at(q) == Some(post));
        } else {
            assert(q[0] == path[0]);
            let qs = q.skip(1);
            assert(path_prefix_of(qs, subpath) && qs.len() < subpath.len()) by {
                assert(qs =~= q.subrange(1, q.len() as int));
                assert(subpath.subrange(0, qs.len() as int) =~= qs) by {
                    assert(q.subrange(0, q.len() as int) =~= q);
                    assert(forall|j: int|
                        0 <= j < qs.len() ==> subpath[j] == path[j + 1] && qs[j] == q[j + 1]);
                    assert(forall|j: int| 0 <= j < q.len() ==> q[j] == path[j]);
                }
            }
            assert(post.node_at(q) == c.node_at(qs));
        }
    }
    assert forall|q: Seq<bool>|
        !path_prefix_of(q, path) && !path_prefix_of(path, q) implies #[trigger] post.node_at(q)
        == pre.node_at(q) by {
        if q.len() == 0 {
            assert(path.subrange(0, 0) =~= q);
            assert(path_prefix_of(q, path));
        } else {
            if q[0] != path[0] {
                assert(post.spec_child(q[0]) == pre.spec_child(q[0]));
            } else {
                let qs = q.skip(1);
                assert(!path_prefix_of(qs, subpath) && !path_prefix_of(subpath, qs)) by {
                    assert(qs =~= q.subrange(1, q.len() as int));
                    if path_prefix_of(qs, subpath) {
                        assert(subpath.subrange(0, qs.len() as int) == qs);
                        assert forall|j: int|
                            0 <= j < q.len() implies path.subrange(0, q.len() as int)[j]
                            == q[j] by {
                            assert(path.subrange(0, q.len() as int)[j] == path[j]);
                            if j > 0 {
                                assert(qs[j - 1] == subpath.subrange(0, qs.len() as int)[j - 1]);
                                assert(subpath[j - 1] == path.skip(1)[j - 1]);
                                assert(qs[j - 1] == q.subrange(1, q.len() as int)[j - 1]);
                            }
                        }
                        assert(path.subrange(0, q.len() as int) =~= q);
                        assert(path_prefix_of(q, path));
                        assert(false);
                    }
                    if path_prefix_of(subpath, qs) {
                        assert(qs.subrange(0, subpath.len() as int) == subpath);
                        assert forall|j: int|
                            0 <= j < path.len() implies q.subrange(0, path.len() as int)[j]
                            == path[j] by {
                            assert(q.subrange(0, path.len() as int)[j] == q[j]);
                            if j > 0 {
                                assert(subpath[j - 1] == qs.subrange(0, subpath.len() as int)[j
                                    - 1]);
                                assert(subpath[j - 1] == path.skip(1)[j - 1]);
                                assert(qs[j - 1] == q.subrange(1, q.len() as int)[j - 1]);
                            }
                        }
                        assert(q.subrange(0, path.len() as int) =~= path);
                        assert(path_prefix_of(path, q));
                        assert(false);
                    }
                }
                if existed {
                    assert(post.node_at(q) == c.node_at(qs));
                    assert(pre.node_at(q) == pre.spec_child(path[0])->Some_0.node_at(qs));
                } else {
                    let empty_node = Node { value: None, zero: NodeChild(None), one: NodeChild(None) };
                    assert(c.node_at(qs) == empty_node.node_at(qs));
                    assert(qs.len() > 0) by {
                        if qs.len() == 0 {
                            assert(qs =~= subpath.subrange(0, 0));
                            assert(path_prefix_of(qs, subpath));
                        }
                    }
                    assert(empty_node.node_at(qs) is None);
                    assert(pre.node_at(q) is None);
                }
            }
        }
    }
    assert forall|q: Seq<bool>|
        path_prefix_of(path, q) && q.len() > path.len() implies (#[trigger] post.node_at(q)
        is None) by {
        assert(q[0] == path[0]);
        let qs = q.skip(1);
        assert(path_prefix_of(subpath, qs) && qs.len() > subpath.len()) by {
            assert(qs =~= q.subrange(1, q.len() as int));
            assert(q.subrange(0, path.len() as int) == path);
            assert(forall|j: int| 0 <= j < path.len() ==> q[j] == path[j]);
            assert(qs.subrange(0, subpath.len() as int) =~= subpath) by {
                assert(forall|j: int|
                    0 <= j < subpath.len() ==> subpath[j] == path[j + 1] && qs[j] == q[j + 1]);
            }
        }
        assert(post.node_at(q) == c.node_at(qs));
    }
}

/// A nonempty prefix agrees on the first decision, and the tails keep
/// the prefix relation.
pub proof fn lemma_prefix_skip(p: Seq<bool>, q: Seq<bool>)
    requires
        path_prefix_of(p, q),
        p.len() >= 1,
    ensures
        p[0] == q[0],
        path_prefix_of(p.skip(1), q.skip(1)),
{
    assert forall|j: int| 0 <= j < p.len() implies p[j] == q[j] by {
        assert(p[j] == q.subrange(0, p.len() as int)[j]);
    }
    assert(q.skip(1).subrange(0, p.len() - 1) =~= p.skip(1)) by {
        assert forall|j: int|
            0 <= j < p.len() - 1 implies q.skip(1).subrange(0, p.len() - 1)[j] == p.skip(1)[j] by {
            assert(q.skip(1).subrange(0, p.len() - 1)[j] == q.skip(1)[j]);
            assert(q.skip(1)[j] == q[j + 1]);
            assert(p.skip(1)[j] == p[j + 1]);
        }
    }
}

/// Every node on the way to an existing node exists.
pub proof fn lemma_node_at_prefix(n: Node, p: Seq<bool>, q: Seq<bool>)
    requires
        path_prefix_of(p, q),
        (n.node_at(q) is Some),
    ensures
        (n.node_at(p) is Some),
    decreases p.len(),
{
    if p.len() == 0 {
    } else {
        lemma_prefix_skip(p, q);
        let c = n.spec_child(q[0]);
        assert(c is Some);
        lemma_node_at_prefix(*c->Some_0, p.skip(1), q.skip(1));
    }
}

/// While a code can still be added along `path`, every existing node on
/// that path is internal.
pub proof fn lemma_can_add_no_leaf_on_path(root: Node, path: Seq<bool>, q: Seq<bool>)
    requires
        root.can_add(path),
        path.len() >= 1,
        path_prefix_of(q, path),
        (root.node_at(q) is Some),
    ensures
        (root.node_at(q)->Some_0.value is None),
    decreases path.len(),
{
    if q.len() == 0 {
    } else {
        lemma_prefix_skip(q, path);
        let c = root.spec_child(path[0]);
        assert(c is Some);
        assert(path.skip(1).len() >= 1) by {
            if path.len() == 1 {
                assert(c->Some_0.can_add(path.skip(1)));
                assert(path.skip(1).len() == 0);
                assert(false);
            }
        }
        lemma_can_add_no_leaf_on_path(*c->Some_0, path.skip(1), q.skip(1));
    }
}

/// While a code can still be added along `path`, the slot at the end of
/// the path is empty.
/// When a code cannot be added, something already stands in its way: a
/// leaf somewhere strictly along the path, or any node at its very end.
pub proof fn lemma_cannot_add_blocked(root: Node, p: Seq<bool>)
    requires
        (root.value is None),
        p.len() >= 1,
        !root.can_add(p),
    ensures
        exists|i: int|
            1 <= i <= p.len() && (#[trigger] root.node_at(p.take(i))) is Some && (root.node_at(
                p.take(i),
            )->Some_0.value is Some || i == p.len()),
    decreases p.len(),
{
    match root.spec_child(p[0]) {
        None => {
            assert(root.can_add(p));
        },
        Some(c) => {
            assert(root.node_at(p.take(1)) == Some(*c)) by {
                assert(p.take(1).len() == 1);
                assert(p.take(1)[0] == p[0]);
                assert(p.take(1).skip(1) =~= Seq::<bool>::empty());
                assert(c.node_at(p.take(1).skip(1)) == c.node_at(Seq::<bool>::empty()));
                assert(c.node_at(Seq::<bool>::empty()) == Some(*c));
            }
            if p.len() == 1 {
                assert(root.node_at(p.take(1)) is Some);
            } else if c.value is Some {
                assert(root.node_at(p.take(1))->Some_0.value is Some);
                assert(1 <= 1 < p.len());
            } else {
                assert(!c.can_add(p.skip(1)));
                lemma_cannot_add_blocked(*c, p.skip(1));
                let i = choose|i: int|
                    1 <= i <= p.skip(1).len() && (#[trigger] c.node_at(p.skip(1).take(i)))
                        is Some && (c.node_at(p.skip(1).take(i))->Some_0.value is Some || i == p.skip(
                        1,
                    ).len());
                assert(p.take(i + 1).skip(1) =~= p.skip(1).take(i));
                assert(p.take(i + 1)[0] == p[0]);
                assert(root.node_at(p.take(i + 1)) == c.node_at(p.skip(1).take(i)));
            }
        },
    }
}

pub proof fn lemma_can_add_end_empty(root: Node, path: Seq<bool>)
    requires
        root.can_add(path),
        path.len() >= 1,
    ensures
        (root.node_at(path) is None),
    decreases path.len(),
{
    match root.spec_child(path[0]) {
        None => {},
        Some(c) => {
            assert(c.can_add(path.skip(1)));
            if path.len() == 1 {
                assert(path.skip(1).len() == 0);
                assert(!c.can_add(path.skip(1)));
            } else {
                lemma_can_add_end_empty(*c, path.skip(1));
            }
        },
    }
}

/// Following one more bit goes to the corresponding child of the node
/// reached so far.
pub proof fn lemma_node_at_snoc(n: Node, q: Seq<bool>, b: bool)
    ensures
        n.node_at(q.push(b)) == (match n.node_at(q) {
            Some(m) => match m.spec_child(b) {
                Some(c) => Some(*c),
                None => None,
            },
            None => None,
        }),
    decreases q.len(),
{
    let qb = q.push(b);
    if q.len() == 0 {
        assert(qb[0] == b);
        assert(qb.skip(1) =~= Seq::<bool>::empty());
        match n.spec_child(b) {
            Some(c) => {
                assert(n.node_at(qb) == c.node_at(qb.skip(1)));
            },
            None => {},
        }
    } else {
        assert(qb[0] == q[0]);
        match n.spec_child(q[0]) {
            Some(c) => {
                assert(qb.skip(1) =~= q.skip(1).push(b));
                lemma_node_at_snoc(*c, q.skip(1), b);
            },
            None => {},
        }
    }
}

/// A binary trie with an internal root.
#[derive(Debug)]
pub struct BinaryTrie {
    root: Node,
}

/// A code: `bits` read MSB-first, `length` bits long.
#[derive(Debug)]
pub struct TreeKey(pub u64, pub usize);

impl BinaryTrie {
    /// The root node, for stating where a `Cursor` stands.
    pub closed spec fn spec_root(&self) -> Node {
        self.root
    }

    pub fn new() -> (r: BinaryTrie)
        ensures
            r.spec_root().value is None,
            r.spec_root().zero.0 is None,
            r.spec_root().one.0 is None,
    {
        BinaryTrie { root: Node::new(None) }
    }

    /// Adds the code `key` with symbol `value`. Succeeds exactly when the
    /// key has a positive length, its path crosses no existing leaf, and
    /// its end slot is empty; on failure the trie is unchanged.
    pub fn add(&mut self, key: TreeKey, value: u64) -> (r: Result<(), Error>)
        requires
            key.1 <= 64,
        ensures
            r is Ok <==> (key.1 >= 1 && old(self).spec_root().can_add(
                key_path(key.0, key.1 as nat),
            )),
            r is Err ==> *final(self) == *old(self),
            r is Err ==> r == Err::<(), Error>(Error::MalformedCodeTable),
            r is Ok ==> ({
                let path = key_path(key.0, key.1 as nat);
                &&& final(self).spec_root().node_at(path) matches Some(m) && m.value == Some(value)
                    && m.zero.0 is None && m.one.0 is None
                &&& forall|q: Seq<bool>|
                    path_prefix_of(q, path) && q.len() < path.len()
                        ==> ((#[trigger] final(self).spec_root().node_at(q)) matches Some(m) && m.value is None)
                &&& forall|q: Seq<bool>|
                    !path_prefix_of(q, path) && !path_prefix_of(path, q)
                        ==> #[trigger] final(self).spec_root().node_at(q) == old(self).spec_root().node_at(q)
                &&& forall|q: Seq<bool>|
                    path_prefix_of(path, q) && q.len() > path.len()
                        ==> (#[trigger] final(self).spec_root().node_at(q) is None)
            }),
    {
        let TreeKey(bits, len) = key;
        if len == 0 {
            return Err(Error::MalformedCodeTable);
        }
        self.root.insert_path(bits, len, value)
    }

    /// A cursor standing at the root.
    pub fn cursor(&self) -> (r: Cursor<'_>)
        ensures
            r.spec_node() == self.spec_root(),
    {
        Cursor { node: &self.root }
    }
}

/// Borrows a trie and walks it one bit at a time.
#[derive(Debug)]
pub struct Cursor<'a> {
    node: &'a Node,
}

/// What a step of a cursor found.
#[derive(Debug, PartialEq, Eq, Structural)]
pub enum NodeType {
    InnerNode,
    LeafNode(u64),
}

impl<'a> Cursor<'a> {
    /// The node the cursor currently stands on.
    pub closed spec fn spec_node(&self) -> Node {
        *self.node
    }

    /// Descends one bit. Reports the node reached — leaf with its value,
    /// or inner node — and fails with `InvalidCode`, staying put, exactly
    /// when there is no child on that side.
    pub fn follow(&mut self, bit: bool) -> (r: Result<NodeType, Error>)
        ensures
            match old(self).spec_node().spec_child(bit) {
                Some(c) => {
                    &&& final(self).spec_node() == *c
                    &&& r == Ok::<NodeType, Error>(
                        if c.value is Some {
                            NodeType::LeafNode(c.value->Some_0)
                        } else {
                            NodeType::InnerNode
                        },
                    )
                },
                None => {
                    &&& r == Err::<NodeType, Error>(Error::InvalidCode)
                    &&& final(self).spec_node() == old(self).spec_node()
                },
            },
    {
        let node = match self.node.follow(bit) {
            Ok(n) => n,
            Err(e) => {
                return Err(e);
            },
        };
        self.node = node;
        match self.node.value {
            Some(v) => Ok(NodeType::LeafNode(v)),
            None => Ok(NodeType::InnerNode),
        }
    }

    /// The value of the leaf the cursor stands on; `InvalidCode` when it
    /// does not stand on a leaf.
    pub fn value(self) -> (r: Result<u64, Error>)
        ensures
            match self.spec_node().value {
                Some(v) => r == Ok::<u64, Error>(v),
                None => r == Err::<u64, Error>(Error::InvalidCode),
            },
    {
        match self.node.value {
            Some(v) => Ok(v),
            None => Err(Error::InvalidCode),
        }
    }
}

} // verus!
