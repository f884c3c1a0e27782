//! The tree, the store built on it, and the proofs the store hands out.
use vstd::prelude::*;
use crate::digest::{Digest, blake3_hash_pair, digests_view};
use crate::merkle::{
    evens, odds, merkle_root, merkle_path, node_of, fold_proof, recover_root,
    lemma_halves_push, lemma_path_proves, lemma_push_path_recovers,
};

verus! {

/// A binary tree of digests. A store's tree holds `Empty` only as the whole
/// tree, when the store is empty.
#[derive(Debug)]
pub enum Tree {
    Empty,
    Leaf { hash: Digest },
    Node { left: Box<Tree>, right: Box<Tree> },
}

/// What `merge` builds: `Empty` is an identity on either side, any other
/// pair becomes a node, with no reshaping.
pub open spec fn merged(a: Tree, b: Tree) -> Tree {
    if a is Empty {
        b
    } else if b is Empty {
        a
    } else {
        Tree::Node { left: Box::new(a), right: Box::new(b) }
    }
}

/// Merging two non-empty, different trees in one order and in the other
/// gives different trees: merge keeps the order of its operands.
pub proof fn lemma_merge_keeps_order(a: Tree, b: Tree)
    requires
        !(a is Empty),
        !(b is Empty),
        a != b,
    ensures
        merged(a, b) != merged(b, a),
{
    if merged(a, b) == merged(b, a) {
        assert(Box::new(a) == Box::new(b));
    }
}

/// No `Empty` anywhere in the tree.
pub open spec fn complete(t: Tree) -> bool
    decreases t,
{
    match t {
        Tree::Empty => false,
        Tree::Leaf { .. } => true,
        Tree::Node { left, right } => complete(*left) && complete(*right),
    }
}

/// The root hash: a leaf's own hash, or the hash of the children's root
/// hashes laid end to end. It has no meaning where `Empty` occurs.
pub open spec fn root_hash(t: Tree) -> Seq<u8>
    decreases t,
{
    match t {
        Tree::Empty => Seq::empty(),
        Tree::Leaf { hash } => hash@,
        Tree::Node { left, right } => node_of(root_hash(*left), root_hash(*right)),
    }
}

/// The tree has the shape that `n` pushes give: empty, one leaf, or a node
/// with the even positions on the left and the odd ones on the right.
pub open spec fn has_shape(t: Tree, n: nat) -> bool
    decreases t,
{
    match t {
        Tree::Empty => n == 0,
        Tree::Leaf { .. } => n == 1,
        Tree::Node { left, right } => {
            n >= 2 && has_shape(*left, ((n + 1) / 2) as nat) && has_shape(*right, n / 2)
        },
    }
}

/// The hash of leaf `i`, found by the low bits of `i`: 0 goes left,
/// 1 goes right, least significant bit at the root.
pub open spec fn leaf_at(t: Tree, i: nat) -> Seq<u8>
    decreases t,
{
    match t {
        Tree::Empty => Seq::empty(),
        Tree::Leaf { hash } => hash@,
        Tree::Node { left, right } => {
            if i % 2 == 1 {
                leaf_at(*right, i / 2)
            } else {
                leaf_at(*left, i / 2)
            }
        },
    }
}

/// The hashes of leaves `0 .. n` in insertion order.
pub open spec fn leaves_of(t: Tree, n: nat) -> Seq<Seq<u8>> {
    Seq::new(n, |i: int| leaf_at(t, i as nat))
}

/// A node's leaves split into those of its children.
pub proof fn lemma_leaves_split(left: Tree, right: Tree, n: nat)
    ensures
        evens(leaves_of(Tree::Node { left: Box::new(left), right: Box::new(right) }, n))
            == leaves_of(left, ((n + 1) / 2) as nat),
        odds(leaves_of(Tree::Node { left: Box::new(left), right: Box::new(right) }, n))
            == leaves_of(right, n / 2),
{
    let t = Tree::Node { left: Box::new(left), right: Box::new(right) };
    assert forall|k: int| 0 <= k < (n + 1) / 2 implies #[trigger] evens(leaves_of(t, n))[k]
        == leaves_of(left, ((n + 1) / 2) as nat)[k] by {
        assert((2 * k) % 2 == 0 && (2 * k) / 2 == k);
    }
    assert forall|k: int| 0 <= k < n / 2 implies #[trigger] odds(leaves_of(t, n))[k]
        == leaves_of(right, n / 2)[k] by {
        assert((2 * k + 1) % 2 == 1 && (2 * k + 1) / 2 == k);
    }
    assert(evens(leaves_of(t, n)) =~= leaves_of(left, ((n + 1) / 2) as nat));
    assert(odds(leaves_of(t, n)) =~= leaves_of(right, n / 2));
}

/// A sequence is determined by its length and its two halves.
pub proof fn lemma_halves_determine(s: Seq<Seq<u8>>, t: Seq<Seq<u8>>)
    requires
        s.len() == t.len(),
        evens(s) == evens(t),
        odds(s) == odds(t),
    ensures
        s == t,
{
    assert forall|i: int| 0 <= i < s.len() implies s[i] == t[i] by {
        if i % 2 == 0 {
            assert(evens(s)[i / 2] == evens(t)[i / 2]);
        } else {
            assert(odds(s)[i / 2] == odds(t)[i / 2]);
        }
    }
    assert(s =~= t);
}

/// A shaped tree with leaves has no `Empty` inside.
pub proof fn lemma_shape_complete(t: Tree, n: nat)
    requires
        has_shape(t, n),
        n >= 1,
    ensures
        complete(t),
    decreases t,
{
    if let Tree::Node { left, right } = t {
        lemma_shape_complete(*left, ((n + 1) / 2) as nat);
        lemma_shape_complete(*right, n / 2);
    }
}

/// The root hash of a shaped tree is the model's root of its leaves.
pub proof fn lemma_shape_root(t: Tree, n: nat)
    requires
        has_shape(t, n),
        n >= 1,
    ensures
        root_hash(t) == merkle_root(leaves_of(t, n)),
    decreases t,
{
    match t {
        Tree::Empty => {},
        Tree::Leaf { hash } => {
            assert(leaves_of(t, n)[0] == hash@);
        },
        Tree::Node { left, right } => {
            lemma_leaves_split(*left, *right, n);
            lemma_shape_root(*left, ((n + 1) / 2) as nat);
            lemma_shape_root(*right, n / 2);
        },
    }
}

impl Tree {
    /// A copy of the whole tree.
    pub fn duplicate(&self) -> (r: Tree)
        ensures
            r == *self,
        decreases self,
    {
        match self {
            Tree::Empty => Tree::Empty,
            Tree::Leaf { hash } => Tree::Leaf { hash: *hash },
            Tree::Node { left, right } => {
                let l = left.duplicate();
                let r = right.duplicate();
                Tree::Node { left: Box::new(l), right: Box::new(r) }
            },
        }
    }

    /// Structural equality: same shape, same leaf digests.
    pub fn same_as(&self, other: &Tree) -> (r: bool)
        ensures
            r == (*self == *other),
        decreases self,
    {
        match (self, other) {
            (Tree::Empty, Tree::Empty) => true,
            (Tree::Leaf { hash: a }, Tree::Leaf { hash: b }) => {
                let same = a.same_as(b);
                proof {
                    if same {
                        assert(a.bytes =~= b.bytes);
                    }
                }
                same
            },
            (Tree::Node { left: l1, right: r1 }, Tree::Node { left: l2, right: r2 }) => {
                l1.same_as(l2) && r1.same_as(r2)
            },
            _ => false,
        }
    }

    /// Joins two trees: `Empty` on either side gives the other one back,
    /// otherwise a node with `self` on the left and `with` on the right.
    pub fn merge(self, with: Self) -> (r: Self)
        ensures
            r == merged(self, with),
            self is Empty ==> r == with,
            with is Empty ==> r == self,
    {
        match self {
            Tree::Empty => with,
            _ => match with {
                Tree::Empty => self,
                _ => Tree::Node { left: Box::new(self), right: Box::new(with) },
            },
        }
    }

    /// The root hash of the tree, hashing children by streaming their
    /// digests one after the other.
    pub fn hash(&self) -> (r: Digest)
        requires
            complete(*self),
        ensures
            r@ == root_hash(*self),
        decreases self,
    {
        match self {
            Tree::Node { left, right } => {
                let l = left.hash();
                let r = right.hash();
                blake3_hash_pair(&l, &r)
            },
            Tree::Leaf { hash } => *hash,
            Tree::Empty => Digest::from_bytes([0u8; 32]),
        }
    }
}

/// An inclusion proof: the position of a leaf and the sibling hashes met
/// from the root down to it, the one at the root first.
#[derive(Debug, PartialEq, Eq)]
pub struct Proof {
    pub nth: usize,
    pub hashes: Vec<Digest>,
}

/// The root that a proof gives for a candidate leaf hash, to be compared
/// with a root one trusts.
#[derive(Clone, Copy, Debug)]
pub struct PartialProof(Digest);

impl View for PartialProof {
    type V = Seq<u8>;

    closed spec fn view(&self) -> Seq<u8> {
        self.0@
    }
}

impl PartialProof {
    /// Whether the candidate root is `root`, byte for byte.
    pub fn against(&self, root: Digest) -> (r: bool)
        ensures
            r == (self@ == root@),
    {
        self.0.same_as(&root)
    }

    /// The candidate root itself.
    pub fn digest(&self) -> (r: Digest)
        ensures
            r@ == self@,
    {
        self.0
    }
}

impl std::ops::Deref for PartialProof {
    type Target = Digest;

    fn deref(&self) -> (r: &Digest)
        ensures
            r@ == self@,
    {
        &self.0
    }
}

/// Folds `hashes[j .. end]` over `leaf`, the last of them first; `nth` holds
/// the position bits that pair with `hashes[j]` and the ones after it.
fn fold_range(nth: usize, hashes: &Vec<Digest>, j: usize, end: usize, leaf: Digest) -> (r: Digest)
    requires
        j <= end <= hashes@.len(),
    ensures
        r@ == fold_proof(nth as nat, digests_view(hashes@).subrange(j as int, end as int), leaf@),
    decreases end - j,
{
    if j == end {
        proof {
            assert(digests_view(hashes@).subrange(j as int, end as int).len() == 0);
        }
        leaf
    } else {
        let below = fold_range(nth / 2, hashes, j + 1, end, leaf);
        let sub = Ghost(digests_view(hashes@).subrange(j as int, end as int));
        proof {
            assert(sub@.drop_first() =~= digests_view(hashes@).subrange(j + 1, end as int));
            assert(sub@[0] == hashes@[j as int]@);
        }
        if nth % 2 == 1 {
            blake3_hash_pair(&hashes[j], &below)
        } else {
            blake3_hash_pair(&below, &hashes[j])
        }
    }
}

impl Proof {
    /// The sibling hashes as byte sequences, root level first.
    pub open spec fn path(&self) -> Seq<Seq<u8>> {
        digests_view(self.hashes@)
    }

    /// The position of the leaf this proof is for.
    pub fn nth(&self) -> (r: usize)
        ensures
            r == self.nth,
    {
        self.nth
    }

    /// The root that this proof gives when the leaf's hash is `hash`.
    pub fn prove_on(&self, hash: Digest) -> (r: PartialProof)
        ensures
            r@ == fold_proof(self.nth as nat, self.path(), hash@),
    {
        let d = fold_range(self.nth, &self.hashes, 0, self.hashes.len(), hash);
        proof {
            assert(self.path().subrange(0, self.hashes@.len() as int) =~= self.path());
        }
        PartialProof(d)
    }

    /// For the proof returned by a push, the root before that push: the last
    /// sibling folded over the others. `None` when there are no siblings.
    pub fn hash(&self) -> (r: Option<Digest>)
        ensures
            r is None <==> recover_root(self.nth as nat, self.path()) is None,
            r matches Some(d) ==> recover_root(self.nth as nat, self.path()) == Some(d@),
    {
        let len = self.hashes.len();
        if len == 0 {
            None
        } else {
            let d = fold_range(self.nth, &self.hashes, 0, len - 1, self.hashes[len - 1]);
            proof {
                assert(self.path().subrange(0, len - 1) =~= self.path().drop_last());
            }
            Some(d)
        }
    }
}

/// Appends a leaf of hash `hash` to a subtree holding `pos` leaves, and
/// appends to `hashes` the siblings met on the way down to the new leaf.
fn push_into(t: Tree, pos: usize, hash: Digest, hashes: &mut Vec<Digest>) -> (r: Tree)
    requires
        has_shape(t, pos as nat),
    ensures
        has_shape(r, (pos + 1) as nat),
        leaves_of(r, (pos + 1) as nat) == leaves_of(t, pos as nat).push(hash@),
        digests_view(final(hashes)@) == digests_view(old(hashes)@) + merkle_path(
            leaves_of(t, pos as nat).push(hash@),
            pos as nat,
        ),
    decreases t,
{
    let ghost n = pos as nat;
    let ghost before = leaves_of(t, n);
    let ghost after = before.push(hash@);
    match t {
        Tree::Node { left, right } => {
            proof {
                lemma_leaves_split(*left, *right, n);
                lemma_halves_push(before, hash@);
            }
            if pos % 2 == 1 {
                proof {
                    lemma_shape_complete(*left, ((n + 1) / 2) as nat);
                    lemma_shape_root(*left, ((n + 1) / 2) as nat);
                }
                let sibling = left.hash();
                hashes.push(sibling);
                let ghost mid = hashes@;
                let grown = push_into(*right, pos / 2, hash, hashes);
                let r = Tree::Node { left, right: Box::new(grown) };
                proof {
                    assert(digests_view(mid) =~= digests_view(old(hashes)@).push(sibling@));
                    assert(merkle_path(after, n) == seq![merkle_root(evens(after))]
                        + merkle_path(odds(after), n / 2));
                    assert((n + 2) / 2 == (n + 1) / 2 && (n + 1) / 2 == n / 2 + 1);
                    assert(has_shape(r, n + 1));
                    lemma_leaves_split(*left, grown, n + 1);
                    lemma_halves_determine(leaves_of(r, n + 1), after);
                    assert(digests_view(final(hashes)@) =~= digests_view(old(hashes)@)
                        + merkle_path(after, n));
                }
                r
            } else {
                proof {
                    lemma_shape_complete(*right, n / 2);
                    lemma_shape_root(*right, n / 2);
                }
                let sibling = right.hash();
                hashes.push(sibling);
                let ghost mid = hashes@;
                let grown = push_into(*left, pos / 2, hash, hashes);
                let r = Tree::Node { left: Box::new(grown), right };
                proof {
                    assert(digests_view(mid) =~= digests_view(old(hashes)@).push(sibling@));
                    assert(merkle_path(after, n) == seq![merkle_root(odds(after))]
                        + merkle_path(evens(after), n / 2));
                    assert((n + 2) / 2 == n / 2 + 1 && (n + 1) / 2 == n / 2);
                    assert(has_shape(r, n + 1));
                    lemma_leaves_split(grown, *right, n + 1);
                    lemma_halves_determine(leaves_of(r, n + 1), after);
                    assert(digests_view(final(hashes)@) =~= digests_view(old(hashes)@)
                        + merkle_path(after, n));
                }
                r
            }
        },
        Tree::Leaf { hash: own } => {
            hashes.push(own);
            let r = Tree::Leaf { hash: own }.merge(Tree::Leaf { hash });
            proof {
                assert(digests_view(final(hashes)@) =~= digests_view(old(hashes)@).push(own@));
                assert(before =~= seq![own@]);
                assert(evens(after) =~= seq![own@]);
                assert(odds(after) =~= seq![hash@]);
                assert(merkle_path(odds(after), 0) =~= Seq::<Seq<u8>>::empty());
                assert(merkle_path(after, n) =~= seq![own@]);
                assert(r == Tree::Node {
                    left: Box::new(Tree::Leaf { hash: own }),
                    right: Box::new(Tree::Leaf { hash }),
                });
                assert(leaf_at(Tree::Leaf { hash: own }, 0) == own@);
                assert(leaf_at(Tree::Leaf { hash }, 0) == hash@);
                assert(has_shape(Tree::Leaf { hash: own }, 1));
                assert(has_shape(Tree::Leaf { hash }, 1));
                assert(leaf_at(r, 0) == own@ && leaf_at(r, 1) == hash@);
                assert(leaves_of(r, 2) =~= after);
            }
            r
        },
        Tree::Empty => {
            let r = Tree::Empty.merge(Tree::Leaf { hash });
            proof {
                assert(digests_view(final(hashes)@) =~= digests_view(old(hashes)@));
                assert(merkle_path(after, n) =~= Seq::<Seq<u8>>::empty());
                assert(leaves_of(r, 1) =~= after);
            }
            r
        },
    }
}

/// Appends to `hashes` the siblings met from the root of `t`, a subtree
/// holding `n` leaves, down to its leaf `pos`.
fn path_to(t: &Tree, pos: usize, Ghost(n): Ghost<nat>, hashes: &mut Vec<Digest>)
    requires
        has_shape(*t, n),
        pos < n,
    ensures
        digests_view(final(hashes)@) == digests_view(old(hashes)@) + merkle_path(
            leaves_of(*t, n),
            pos as nat,
        ),
    decreases t,
{
    let ghost leaves = leaves_of(*t, n);
    match t {
        Tree::Node { left, right } => {
            proof {
                lemma_leaves_split(**left, **right, n);
            }
            if pos % 2 == 1 {
                proof {
                    lemma_shape_complete(**left, ((n + 1) / 2) as nat);
                    lemma_shape_root(**left, ((n + 1) / 2) as nat);
                }
                let sibling = left.hash();
                hashes.push(sibling);
                let ghost mid = hashes@;
                path_to(right, pos / 2, Ghost(n / 2), hashes);
                proof {
                    assert(digests_view(mid) =~= digests_view(old(hashes)@).push(sibling@));
                    assert(digests_view(final(hashes)@) =~= digests_view(old(hashes)@)
                        + merkle_path(leaves, pos as nat));
                }
            } else {
                proof {
                    lemma_shape_complete(**right, n / 2);
                    lemma_shape_root(**right, n / 2);
                }
                let sibling = right.hash();
                hashes.push(sibling);
                let ghost mid = hashes@;
                path_to(left, pos / 2, Ghost(((n + 1) / 2) as nat), hashes);
                proof {
                    assert(digests_view(mid) =~= digests_view(old(hashes)@).push(sibling@));
                    assert(digests_view(final(hashes)@) =~= digests_view(old(hashes)@)
                        + merkle_path(leaves, pos as nat));
                }
            }
        },
        _ => {
            proof {
                assert(merkle_path(leaves, pos as nat) =~= Seq::<Seq<u8>>::empty());
                assert(digests_view(final(hashes)@) =~= digests_view(old(hashes)@));
            }
        },
    }
}

/// Whether `t` has the shape that `n` pushes give.
fn fits(t: &Tree, n: usize) -> (r: bool)
    ensures
        r == has_shape(*t, n as nat),
    decreases t,
{
    match t {
        Tree::Empty => n == 0,
        Tree::Leaf { .. } => n == 1,
        Tree::Node { left, right } => n >= 2 && fits(left, n / 2 + n % 2) && fits(right, n / 2),
    }
}

/// The append-only store: payloads in insertion order and the tree of
/// their hashes.
#[derive(Debug)]
pub struct HMap<D> {
    data: Vec<D>,
    tree: Tree,
}

/// The digest of leaf `pos` of `t`, a subtree holding `n` leaves.
fn leaf_in(t: &Tree, pos: usize, Ghost(n): Ghost<nat>) -> (r: Digest)
    requires
        has_shape(*t, n),
        pos < n,
    ensures
        r@ == leaf_at(*t, pos as nat),
    decreases t,
{
    match t {
        Tree::Node { left, right } => {
            if pos % 2 == 1 {
                leaf_in(right, pos / 2, Ghost(n / 2))
            } else {
                leaf_in(left, pos / 2, Ghost(((n + 1) / 2) as nat))
            }
        },
        Tree::Leaf { hash } => *hash,
        Tree::Empty => Digest::from_bytes([0u8; 32]),
    }
}

impl<D> HMap<D> {
    /// The tree has the shape that pushing the payloads one by one gives.
    pub closed spec fn wf(&self) -> bool {
        has_shape(self.tree, self.data@.len())
    }

    /// The payloads in insertion order.
    pub closed spec fn payloads(&self) -> Seq<D> {
        self.data@
    }

    /// The leaf hashes in insertion order.
    pub closed spec fn leaves(&self) -> Seq<Seq<u8>> {
        leaves_of(self.tree, self.data@.len())
    }

    /// The tree.
    pub closed spec fn shape(&self) -> Tree {
        self.tree
    }

    /// An empty store.
    pub fn new() -> (r: Self)
        ensures
            r.wf(),
            r.payloads() == Seq::<D>::empty(),
            r.leaves() == Seq::<Seq<u8>>::empty(),
    {
        let r = HMap { data: Vec::new(), tree: Tree::Empty };
        proof {
            assert(r.leaves() =~= Seq::<Seq<u8>>::empty());
        }
        r
    }

    /// A store from its payloads and its tree, when the tree has the shape
    /// that pushing that many payloads gives; `None` otherwise.
    pub fn from_parts(data: Vec<D>, tree: Tree) -> (r: Option<Self>)
        ensures
            r is Some <==> has_shape(tree, data@.len()),
            r matches Some(s) ==> {
                &&& s.wf()
                &&& s.payloads() == data@
                &&& s.shape() == tree
                &&& s.leaves() == leaves_of(tree, data@.len())
            },
    {
        if fits(&tree, data.len()) {
            Some(HMap { data, tree })
        } else {
            None
        }
    }

    /// The payloads in insertion order.
    pub fn data(&self) -> (r: &Vec<D>)
        ensures
            r@ == self.payloads(),
    {
        &self.data
    }

    /// The tree.
    pub fn tree(&self) -> (r: &Tree)
        ensures
            *r == self.shape(),
    {
        &self.tree
    }

    /// The root hash of the whole tree. Only a store with at least one
    /// payload has one.
    pub fn root(&self) -> (r: Digest)
        requires
            self.wf(),
            self.payloads().len() > 0,
        ensures
            r@ == merkle_root(self.leaves()),
    {
        proof {
            lemma_shape_complete(self.tree, self.data@.len());
            lemma_shape_root(self.tree, self.data@.len());
        }
        self.tree.hash()
    }

    /// Appends a payload whose hash is `hash` and returns the proof of the
    /// new leaf. That proof gives the new root on `hash`, and the old root
    /// through `Proof::hash`.
    pub fn push(&mut self, hash: Digest, data: D) -> (r: Proof)
        requires
            old(self).wf(),
        ensures
            final(self).wf(),
            final(self).payloads() == old(self).payloads().push(data),
            final(self).leaves() == old(self).leaves().push(hash@),
            r.nth == old(self).payloads().len(),
            r.path() == merkle_path(final(self).leaves(), r.nth as nat),
            fold_proof(r.nth as nat, r.path(), hash@) == merkle_root(final(self).leaves()),
            old(self).payloads().len() == 0 ==> recover_root(r.nth as nat, r.path()) is None,
            old(self).payloads().len() > 0 ==> recover_root(r.nth as nat, r.path()) == Some(
                merkle_root(old(self).leaves()),
            ),
    {
        let nth = self.data.len();
        let mut hashes: Vec<Digest> = Vec::new();
        let mut tree = Tree::Empty;
        std::mem::swap(&mut tree, &mut self.tree);
        let grown = push_into(tree, nth, hash, &mut hashes);
        self.tree = grown;
        self.data.push(data);
        let r = Proof { nth, hashes };
        proof {
            let before = leaves_of(tree, nth as nat);
            assert(digests_view(Seq::<Digest>::empty()) =~= Seq::<Seq<u8>>::empty());
            assert(r.path() =~= merkle_path(before.push(hash@), nth as nat));
            lemma_path_proves(before.push(hash@), nth as nat);
            if nth > 0 {
                lemma_push_path_recovers(before, hash@);
            } else {
                assert(merkle_path(before.push(hash@), 0) =~= Seq::<Seq<u8>>::empty());
            }
        }
        r
    }

    /// The hash the `nth` payload was pushed with, or `None` when there is
    /// no such payload.
    pub fn get_hash(&self, nth: usize) -> (r: Option<Digest>)
        requires
            self.wf(),
        ensures
            r is Some <==> nth < self.payloads().len(),
            r matches Some(d) ==> d@ == self.leaves()[nth as int],
    {
        if nth >= self.data.len() {
            None
        } else {
            Some(leaf_in(&self.tree, nth, Ghost(self.data@.len())))
        }
    }

    /// The proof of the `nth` payload, or `None` when there is no such
    /// payload.
    pub fn proof_of(&self, nth: usize) -> (r: Option<Proof>)
        requires
            self.wf(),
        ensures
            r is Some <==> nth < self.payloads().len(),
            r matches Some(p) ==> p.nth == nth && p.path() == merkle_path(self.leaves(), nth as nat),
    {
        if nth >= self.data.len() {
            return None;
        }
        let mut hashes: Vec<Digest> = Vec::new();
        path_to(&self.tree, nth, Ghost(self.data@.len()), &mut hashes);
        proof {
            assert(digests_view(Seq::<Digest>::empty()) =~= Seq::<Seq<u8>>::empty());
            assert(digests_view(hashes@) =~= merkle_path(self.leaves(), nth as nat));
        }
        Some(Proof { nth, hashes })
    }
}

/// A store has one leaf per payload.
pub proof fn lemma_one_leaf_per_payload<D>(store: &HMap<D>)
    ensures
        store.leaves().len() == store.payloads().len(),
{
}

/// A store can be rebuilt from its payloads and its tree: `from_parts`
/// accepts what `data` and `tree` hand out and gives back a store with the
/// same leaves, hence the same root.
pub proof fn lemma_parts_round_trip<D>(store: &HMap<D>)
    requires
        store.wf(),
    ensures
        has_shape(store.shape(), store.payloads().len()),
        leaves_of(store.shape(), store.payloads().len()) == store.leaves(),
{
}

impl<D: Clone> HMap<D> {
    /// The `nth` payload, copied, with its proof; `None` when there is no
    /// such payload.
    pub fn get(&self, nth: usize) -> (r: Option<(Proof, D)>)
        requires
            self.wf(),
        ensures
            r is Some <==> nth < self.payloads().len(),
            r matches Some((p, d)) ==> {
                &&& p.nth == nth
                &&& p.path() == merkle_path(self.leaves(), nth as nat)
                &&& cloned(self.payloads()[nth as int], d)
            },
    {
        match self.proof_of(nth) {
            Some(p) => Some((p, self.data[nth].clone())),
            None => None,
        }
    }
}

impl Clone for Tree {
    fn clone(&self) -> (r: Tree)
        ensures
            r == *self,
    {
        self.duplicate()
    }
}

impl PartialEq for Tree {
    fn eq(&self, other: &Tree) -> (r: bool)
        ensures
            r == (*self == *other),
    {
        self.same_as(other)
    }
}

impl vstd::std_specs::cmp::PartialEqSpecImpl for Tree {
    open spec fn obeys_eq_spec() -> bool {
        true
    }

    open spec fn eq_spec(&self, other: &Tree) -> bool {
        *self == *other
    }
}

impl Eq for Tree {
}

} // verus!
