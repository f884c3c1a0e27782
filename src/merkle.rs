//! The mathematical model of the tree: roots, paths and proof folding,
//! stated over the sequence of leaf hashes in insertion order.
//!
//! Leaf `i` of a store lies in the left subtree when `i` is even and in the
//! right one when it is odd; inside that subtree it has index `i / 2`. So the
//! left subtree holds the leaves at even positions and the right one those at
//! odd positions, each in insertion order.
use vstd::prelude::*;
use crate::digest::blake3_of;

verus! {

/// The hash of an inner node from the hashes of its children.
pub open spec fn node_of(left: Seq<u8>, right: Seq<u8>) -> Seq<u8> {
    blake3_of(left + right)
}

/// The leaves at even positions: those of the left subtree.
pub open spec fn evens(s: Seq<Seq<u8>>) -> Seq<Seq<u8>> {
    Seq::new(((s.len() + 1) / 2) as nat, |k: int| s[2 * k])
}

/// The leaves at odd positions: those of the right subtree.
pub open spec fn odds(s: Seq<Seq<u8>>) -> Seq<Seq<u8>> {
    Seq::new((s.len() / 2) as nat, |k: int| s[2 * k + 1])
}

/// The root hash of the tree built from the leaf hashes `s` pushed in order.
/// It has no meaning for an empty `s`.
pub open spec fn merkle_root(s: Seq<Seq<u8>>) -> Seq<u8>
    decreases s.len(),
{
    if s.len() <= 1 {
        s[0]
    } else {
        node_of(merkle_root(evens(s)), merkle_root(odds(s)))
    }
}

/// The sibling hashes met from the root down to leaf `i` of the tree built
/// from `s`, the one at the root first.
pub open spec fn merkle_path(s: Seq<Seq<u8>>, i: nat) -> Seq<Seq<u8>>
    decreases s.len(),
{
    if s.len() <= 1 {
        Seq::empty()
    } else if i % 2 == 1 {
        seq![merkle_root(evens(s))] + merkle_path(odds(s), i / 2)
    } else {
        seq![merkle_root(odds(s))] + merkle_path(evens(s), i / 2)
    }
}

/// The root that a proof for position `nth` with sibling hashes `hashes`
/// (root level first) gives for a leaf of hash `leaf`. The sibling at depth
/// `j` pairs with bit `j` of `nth`: when it is set, the path goes right and
/// the sibling stands on the left.
pub open spec fn fold_proof(nth: nat, hashes: Seq<Seq<u8>>, leaf: Seq<u8>) -> Seq<u8>
    decreases hashes.len(),
{
    if hashes.len() == 0 {
        leaf
    } else {
        let below = fold_proof(nth / 2, hashes.drop_first(), leaf);
        if nth % 2 == 1 {
            node_of(hashes[0], below)
        } else {
            node_of(below, hashes[0])
        }
    }
}

/// The root before the push that produced a proof: the last sibling is the
/// leaf that the new one was paired with, folded over the other siblings.
pub open spec fn recover_root(nth: nat, hashes: Seq<Seq<u8>>) -> Option<Seq<u8>> {
    if hashes.len() == 0 {
        None
    } else {
        Some(fold_proof(nth, hashes.drop_last(), hashes.last()))
    }
}

/// In the tree built by pushing the hashes `s` in order, the proof of every
/// leaf, applied to that leaf's hash, gives the root.
pub proof fn lemma_path_proves(s: Seq<Seq<u8>>, i: nat)
    requires
        i < s.len(),
    ensures
        fold_proof(i, merkle_path(s, i), s[i as int]) == merkle_root(s),
    decreases s.len(),
{
    if s.len() > 1 {
        let path = merkle_path(s, i);
        if i % 2 == 1 {
            let rest = merkle_path(odds(s), i / 2);
            assert(path.drop_first() =~= rest);
            assert(odds(s)[(i / 2) as int] == s[i as int]);
            lemma_path_proves(odds(s), i / 2);
        } else {
            let rest = merkle_path(evens(s), i / 2);
            assert(path.drop_first() =~= rest);
            assert(evens(s)[(i / 2) as int] == s[i as int]);
            lemma_path_proves(evens(s), i / 2);
        }
    }
}

/// How the halves change when a leaf is appended: it joins the evens when
/// its position is even and the odds otherwise.
pub proof fn lemma_halves_push(s: Seq<Seq<u8>>, x: Seq<u8>)
    ensures
        s.len() % 2 == 0 ==> evens(s.push(x)) == evens(s).push(x) && odds(s.push(x)) == odds(s),
        s.len() % 2 == 1 ==> odds(s.push(x)) == odds(s).push(x) && evens(s.push(x)) == evens(s),
{
    if s.len() % 2 == 0 {
        assert(evens(s.push(x)) =~= evens(s).push(x));
        assert(odds(s.push(x)) =~= odds(s));
    } else {
        assert(odds(s.push(x)) =~= odds(s).push(x));
        assert(evens(s.push(x)) =~= evens(s));
    }
}

/// The proof of a freshly appended leaf gives back the root from before the
/// append: its path without the last sibling, folded over that sibling.
pub proof fn lemma_push_path_recovers(s: Seq<Seq<u8>>, x: Seq<u8>)
    requires
        s.len() >= 1,
    ensures
        recover_root(s.len(), merkle_path(s.push(x), s.len())) == Some(merkle_root(s)),
    decreases s.len(),
{
    let n = s.len();
    let t = s.push(x);
    let path = merkle_path(t, n);
    lemma_halves_push(s, x);
    if n == 1 {
        assert(odds(t) =~= seq![x]);
        assert(evens(t) =~= seq![s[0]]);
        assert(path =~= seq![s[0]]);
    } else if n % 2 == 1 {
        let half = odds(s);
        let rest = merkle_path(half.push(x), half.len());
        assert(path =~= seq![merkle_root(evens(s))] + rest);
        lemma_push_path_recovers(half, x);
        assert(path.drop_last().drop_first() =~= rest.drop_last());
    } else {
        let half = evens(s);
        let rest = merkle_path(half.push(x), half.len());
        assert(path =~= seq![merkle_root(odds(s))] + rest);
        lemma_push_path_recovers(half, x);
        assert(path.drop_last().drop_first() =~= rest.drop_last());
    }
}

} // verus!
