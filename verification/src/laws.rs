//! The engine's global laws, proved from the same specifications its
//! public functions carry.

use vstd::prelude::*;

use crate::hashing::{combine, lemma_lex_le_total_ordering, lex_leq};
use crate::tree::{
    build_layers, fold_proof, lemma_build_layers_props, lemma_proof_round_trip, next_layer,
    proof_from, root_of, sibling_index, OzMerkleTree,
};

verus! {

/// Round trip at the tree level: a proof extracted for any leaf a
/// well-formed tree holds folds back to that tree's root, so verification
/// against that root succeeds.
pub proof fn lemma_tree_round_trip(t: OzMerkleTree, leaf: Seq<u8>)
    requires
        t.wf(),
        t.spec_leaves().contains(leaf),
    ensures
        fold_proof(leaf, proof_from(t@, t.spec_leaves().index_of_first(leaf).unwrap()))
            == t.spec_root(),
{
    t.spec_leaves().index_of_first_ensures(leaf);
    let idx = t.spec_leaves().index_of_first(leaf).unwrap();
    lemma_proof_round_trip(t.spec_leaves(), idx);
    lemma_build_layers_props(t.spec_leaves());
}

/// Order independence: two well-formed trees over the same multiset of
/// leaves are layer-for-layer identical, root included — so building from
/// any permutation of a record set converges on one root.
pub proof fn lemma_order_independence(a: OzMerkleTree, b: OzMerkleTree)
    requires
        a.wf(),
        b.wf(),
        a.spec_leaves().to_multiset() == b.spec_leaves().to_multiset(),
    ensures
        a@ == b@,
        a.spec_root() == b.spec_root(),
{
    lemma_lex_le_total_ordering();
    vstd::seq_lib::lemma_sorted_unique(a.spec_leaves(), b.spec_leaves(), lex_leq());
    assert(a.spec_leaves() == b.spec_leaves());
}

/// Odd-node promotion: with three leaves, the derived layer hashes the
/// first two together and promotes the third unchanged, and the promoted
/// leaf's proof is one entry shorter than the others'.
pub proof fn lemma_odd_node_promotion(l0: Seq<Seq<u8>>)
    requires
        l0.len() == 3,
    ensures
        build_layers(l0)[1] == seq![combine(l0[0], l0[1]), l0[2]],
        proof_from(build_layers(l0), 0).len() == 2,
        proof_from(build_layers(l0), 2).len() == 1,
{
    let l1 = next_layer(l0);
    assert(l0.skip(2) =~= seq![l0[2]]);
    assert(next_layer(l0.skip(2)) == l0.skip(2));
    assert(l1 == seq![combine(l0[0], l0[1])] + l0.skip(2));
    assert(l1 =~= seq![combine(l0[0], l0[1]), l0[2]]);
    let l2 = next_layer(l1);
    assert(l1.skip(2) =~= Seq::<Seq<u8>>::empty());
    assert(next_layer(l1.skip(2)) == l1.skip(2));
    assert(l2 == seq![combine(l1[0], l1[1])] + l1.skip(2));
    assert(l2 =~= seq![combine(l1[0], l1[1])]);
    let ls = build_layers(l0);
    assert(build_layers(l2) == seq![l2]);
    assert(build_layers(l1) == seq![l1] + build_layers(l2));
    assert(ls == seq![l0] + build_layers(l1));
    assert(ls =~= seq![l0, l1, l2]);
    assert(ls.drop_first() =~= seq![l1, l2]);
    assert(ls.drop_first().drop_first() =~= seq![l2]);
    assert(proof_from(seq![l2], 0).len() == 0);
    assert(proof_from(seq![l2], 1).len() == 0);
    assert(sibling_index(0) == 1);
    assert(sibling_index(1) == 0);
    assert(sibling_index(2) == 3);
    assert(proof_from(seq![l1, l2], 0) =~= seq![l1[1]] + proof_from(seq![l2], 0));
    assert(proof_from(seq![l1, l2], 1) =~= seq![l1[0]] + proof_from(seq![l2], 0));
    assert(proof_from(ls, 0) =~= seq![l0[1]] + proof_from(seq![l1, l2], 0));
    assert(proof_from(ls, 2) =~= proof_from(seq![l1, l2], 1));
}

/// A single-leaf tree: the root is the leaf itself and its proof is empty.
pub proof fn lemma_single_leaf(l0: Seq<Seq<u8>>)
    requires
        l0.len() == 1,
    ensures
        root_of(l0) == l0[0],
        proof_from(build_layers(l0), 0) == Seq::<Seq<u8>>::empty(),
{
    assert(build_layers(l0) == seq![l0]);
}

} // verus!
