//! The Merkle tree: sorted leaf layer, bottom-up sorted-pair hashing with
//! odd-node promotion, proof extraction by index arithmetic, and proof
//! verification by folding.

use vstd::prelude::*;
use vstd::relations::sorted_by;

use crate::error::MerkleError;
use crate::hashing::{
    combine, hash_pair, lemma_combine_commutes, lemma_lex_le_total, lemma_lex_le_transitive,
    lex_le, lex_le32, lex_leq,
};

verus! {

/// The byte sequences of a row of 32-byte hashes.
pub open spec fn hashes_view(v: Seq<[u8; 32]>) -> Seq<Seq<u8>> {
    Seq::new(v.len(), |i: int| v[i]@)
}

/// The byte-sequence view of a stack of layers.
pub open spec fn layers_view(v: Seq<Vec<[u8; 32]>>) -> Seq<Seq<Seq<u8>>> {
    Seq::new(v.len(), |i: int| hashes_view(v[i]@))
}

/// One construction step: hash consecutive pairs into parents; promote a
/// trailing unpaired node unchanged rather than hashing it with a copy.
pub open spec fn next_layer(l: Seq<Seq<u8>>) -> Seq<Seq<u8>>
    decreases l.len(),
{
    if l.len() <= 1 {
        l
    } else {
        seq![combine(l[0], l[1])] + next_layer(l.skip(2))
    }
}

pub proof fn lemma_next_layer_len(l: Seq<Seq<u8>>)
    ensures
        next_layer(l).len() == (l.len() + 1) / 2,
    decreases l.len(),
{
    if l.len() > 1 {
        lemma_next_layer_len(l.skip(2));
    }
}

/// Where each node of a derived layer comes from: position `j` is the hash
/// of the pair at `2j`, `2j + 1`, or the node at `2j` promoted when it has
/// no right neighbour.
pub proof fn lemma_next_layer_index(l: Seq<Seq<u8>>, j: int)
    requires
        0 <= j < (l.len() + 1) / 2,
    ensures
        2 * j + 1 < l.len() ==> next_layer(l)[j] == combine(l[2 * j], l[2 * j + 1]),
        2 * j + 1 >= l.len() ==> next_layer(l)[j] == l[2 * j],
    decreases l.len(),
{
    lemma_next_layer_len(l);
    if l.len() <= 1 {
    } else if j == 0 {
    } else {
        lemma_next_layer_len(l.skip(2));
        lemma_next_layer_index(l.skip(2), j - 1);
        assert(l.skip(2)[2 * (j - 1)] == l[2 * j]);
        if 2 * j + 1 < l.len() {
            assert(l.skip(2)[2 * (j - 1) + 1] == l[2 * j + 1]);
        }
    }
}

/// Every layer of the tree a leaf layer determines, bottom-up, ending with
/// the first layer that holds a single node.
pub open spec fn build_layers(l0: Seq<Seq<u8>>) -> Seq<Seq<Seq<u8>>>
    decreases l0.len() via build_layers_decreases
{
    if l0.len() <= 1 {
        seq![l0]
    } else {
        seq![l0] + build_layers(next_layer(l0))
    }
}

#[via_fn]
proof fn build_layers_decreases(l0: Seq<Seq<u8>>) {
    if l0.len() > 1 {
        lemma_next_layer_len(l0);
    }
}

/// The root committed by a leaf layer.
pub open spec fn root_of(l0: Seq<Seq<u8>>) -> Seq<u8> {
    build_layers(l0).last()[0]
}

/// The position of a node's sibling within its layer.
pub open spec fn sibling_index(i: int) -> int {
    if i % 2 == 0 {
        i + 1
    } else {
        i - 1
    }
}

/// The sibling hashes read along the path from position `idx` of the first
/// layer up to just below the root; an out-of-bounds sibling (the promoted
/// odd node's) contributes nothing.
pub open spec fn proof_from(ls: Seq<Seq<Seq<u8>>>, idx: int) -> Seq<Seq<u8>>
    decreases ls.len(),
{
    if ls.len() <= 1 {
        Seq::empty()
    } else {
        let sib = sibling_index(idx);
        let rest = proof_from(ls.drop_first(), idx / 2);
        if 0 <= sib < ls[0].len() {
            seq![ls[0][sib]] + rest
        } else {
            rest
        }
    }
}

/// Folding a proof over a leaf, left to right, with the pair combination.
pub open spec fn fold_proof(leaf: Seq<u8>, siblings: Seq<Seq<u8>>) -> Seq<u8>
    decreases siblings.len(),
{
    if siblings.len() == 0 {
        leaf
    } else {
        fold_proof(combine(leaf, siblings[0]), siblings.drop_first())
    }
}

/// Each layer but the last has at least two nodes and derives the next by
/// `next_layer`.
pub open spec fn chain_ok(chain: Seq<Seq<Seq<u8>>>) -> bool {
    forall|k: int|
        0 <= k < chain.len() - 1 ==> (#[trigger] chain[k]).len() >= 2 && chain[k + 1] == next_layer(
            chain[k],
        )
}

/// The shape `build_layers` guarantees: each layer but the last has at
/// least two nodes and derives the next; the last holds the root alone.
pub proof fn lemma_build_layers_props(l0: Seq<Seq<u8>>)
    requires
        l0.len() >= 1,
    ensures
        build_layers(l0).len() >= 1,
        build_layers(l0)[0] == l0,
        build_layers(l0).last().len() == 1,
        chain_ok(build_layers(l0)),
    decreases l0.len(),
{
    if l0.len() <= 1 {
    } else {
        lemma_next_layer_len(l0);
        lemma_build_layers_props(next_layer(l0));
        let ls = build_layers(l0);
        let tail = build_layers(next_layer(l0));
        assert(ls.last() == tail.last());
        assert forall|k: int|
            0 <= k < ls.len() - 1 implies (#[trigger] ls[k]).len() >= 2 && ls[k + 1] == next_layer(
            ls[k],
        ) by {
            if k > 0 {
                assert(ls[k] == tail[k - 1]);
                assert(ls[k + 1] == tail[k]);
            }
        }
    }
}

/// Round trip, layer by layer: the sibling path extracted for any position
/// of a leaf layer folds back to that layer's root.
pub proof fn lemma_proof_round_trip(l0: Seq<Seq<u8>>, idx: int)
    requires
        l0.len() >= 1,
        0 <= idx < l0.len(),
    ensures
        fold_proof(l0[idx], proof_from(build_layers(l0), idx)) == root_of(l0),
    decreases l0.len(),
{
    let ls = build_layers(l0);
    if l0.len() == 1 {
        assert(ls == seq![l0]);
        assert(proof_from(ls, idx) =~= Seq::<Seq<u8>>::empty());
    } else {
        let l1 = next_layer(l0);
        lemma_next_layer_len(l0);
        let j = idx / 2;
        let sib = sibling_index(idx);
        assert(0 <= j < l1.len());
        lemma_next_layer_index(l0, j);
        assert(ls.drop_first() =~= build_layers(l1));
        lemma_proof_round_trip(l1, j);
        lemma_build_layers_props(l1);
        assert(ls.last() == build_layers(l1).last());
        if 0 <= sib < l0.len() {
            assert(2 * j + 1 < l0.len());
            lemma_combine_commutes(l0[idx], l0[sib]);
            assert(l1[j] == combine(l0[idx], l0[sib]));
            let pf = proof_from(ls, idx);
            assert(pf == seq![l0[sib]] + proof_from(ls.drop_first(), j));
            assert(pf[0] == l0[sib]);
            assert(pf.drop_first() =~= proof_from(build_layers(l1), j));
            assert(fold_proof(l0[idx], pf) == fold_proof(
                combine(l0[idx], l0[sib]),
                pf.drop_first(),
            ));
        } else {
            assert(2 * j + 1 >= l0.len());
            assert(l1[j] == l0[2 * j]);
            assert(proof_from(ls, idx) == proof_from(ls.drop_first(), j));
        }
    }
}

/// A stack of layers that starts anywhere, steps by `next_layer`, and ends
/// with a single node is exactly what `build_layers` yields from its base.
proof fn lemma_chain_is_build_layers(ls: Seq<Seq<Seq<u8>>>)
    requires
        ls.len() >= 1,
        ls.last().len() == 1,
        chain_ok(ls),
    ensures
        ls == build_layers(ls[0]),
    decreases ls.len(),
{
    if ls.len() == 1 {
        assert(ls =~= seq![ls[0]]);
    } else {
        let tail = ls.drop_first();
        assert(ls[0].len() >= 2);
        assert(tail[0] == next_layer(ls[0]));
        assert forall|k: int|
            0 <= k < tail.len() - 1 implies (#[trigger] tail[k]).len() >= 2 && tail[k + 1]
            == next_layer(tail[k]) by {
            assert(tail[k] == ls[k + 1]);
            assert(tail[k + 1] == ls[k + 2]);
        }
        assert(tail.last() == ls.last());
        lemma_chain_is_build_layers(tail);
        assert(ls =~= seq![ls[0]] + tail);
    }
}

proof fn lemma_layers_view_push(v: Seq<Vec<[u8; 32]>>, x: Vec<[u8; 32]>)
    ensures
        layers_view(v.push(x)) =~= layers_view(v).push(hashes_view(x@)),
{
}

/// The first position holding `leaf`, if any.
fn find_leaf(v: &Vec<[u8; 32]>, leaf: &[u8; 32]) -> (r: Option<usize>)
    ensures
        match r {
            Some(i) => {
                &&& i < v@.len()
                &&& v@[i as int]@ == leaf@
                &&& forall|j: int| 0 <= j < i ==> v@[j]@ != leaf@
            },
            None => forall|j: int| 0 <= j < v@.len() ==> v@[j]@ != leaf@,
        },
{
    let mut i: usize = 0;
    while i < v.len()
        invariant
            i <= v@.len(),
            forall|j: int| 0 <= j < i ==> v@[j]@ != leaf@,
        decreases v@.len() - i,
    {
        if eq32(&v[i], leaf) {
            return Some(i);
        }
        i = i + 1;
    }
    None
}

fn eq32(a: &[u8; 32], b: &[u8; 32]) -> (r: bool)
    ensures
        r == (a@ == b@),
{
    let mut i: usize = 0;
    while i < 32
        invariant
            0 <= i <= 32,
            forall|j: int| 0 <= j < i ==> a@[j] == b@[j],
        decreases 32 - i,
    {
        if a[i] != b[i] {
            return false;
        }
        i = i + 1;
    }
    proof {
        assert(a@ =~= b@);
    }
    true
}

/// The position at which `x` can be placed in `v` so that everything before
/// it sorts no later than `x` and everything from it on sorts no earlier.
fn insert_pos(v: &Vec<[u8; 32]>, x: &[u8; 32]) -> (j: usize)
    ensures
        j <= v@.len(),
        forall|k: int| 0 <= k < j ==> lex_le(v@[k]@, x@),
        j < v@.len() ==> !lex_le(v@[j as int]@, x@),
{
    let mut j: usize = 0;
    while j < v.len()
        invariant
            j <= v@.len(),
            forall|k: int| 0 <= k < j ==> lex_le(v@[k]@, x@),
        decreases v@.len() - j,
    {
        if !lex_le32(&v[j], x) {
            return j;
        }
        j = j + 1;
    }
    j
}

/// Insertion sort on hashes under the lexicographic byte order.
fn sort_hashes(leaves: &[[u8; 32]]) -> (r: Vec<[u8; 32]>)
    ensures
        r@.len() == leaves@.len(),
        sorted_by(hashes_view(r@), lex_leq()),
        hashes_view(r@).to_multiset() == hashes_view(leaves@).to_multiset(),
{
    broadcast use vstd::seq_lib::to_multiset_insert;
    broadcast use vstd::seq_lib::to_multiset_build;

    let mut out: Vec<[u8; 32]> = Vec::new();
    let mut i: usize = 0;
    proof {
        assert(hashes_view(out@) =~= Seq::<Seq<u8>>::empty());
        assert(hashes_view(leaves@.take(0)) =~= Seq::<Seq<u8>>::empty());
        assert(hashes_view(out@).to_multiset() =~= hashes_view(leaves@.take(0)).to_multiset());
    }
    while i < leaves.len()
        invariant
            i <= leaves@.len(),
            out@.len() == i,
            sorted_by(hashes_view(out@), lex_leq()),
            hashes_view(out@).to_multiset() == hashes_view(leaves@.take(i as int)).to_multiset(),
        decreases leaves@.len() - i,
    {
        let x = leaves[i];
        let j = insert_pos(&out, &x);
        let ghost pre = out@;
        out.insert(j, x);
        proof {
            assert(hashes_view(out@) =~= hashes_view(pre).insert(j as int, x@));
            assert forall|p: int, q: int|
                0 <= p < q < hashes_view(out@).len() implies #[trigger] lex_leq()(
                hashes_view(out@)[p],
                hashes_view(out@)[q],
            ) by {
                let hv = hashes_view(pre);
                let nv = hashes_view(out@);
                if q == j {
                    lemma_lex_le_total(hv[p], x@);
                    assert(lex_le(nv[p], nv[q]));
                } else if p == j {
                    lemma_lex_le_total(hv[q - 1], x@);
                    if q - 1 >= j {
                        lemma_lex_le_total(hv[j as int], x@);
                        if (j as int) < q - 1 {
                            assert(lex_leq()(hv[j as int], hv[q - 1]));
                        }
                        if lex_le(hv[q - 1], x@) {
                            if (j as int) < q - 1 {
                                lemma_lex_le_transitive(hv[j as int], hv[q - 1], x@);
                            }
                            assert(false);
                        }
                    }
                    assert(lex_le(x@, hv[q - 1]));
                } else if p < j && q < j {
                    assert(lex_leq()(hv[p], hv[q]));
                } else if p < j && q > j {
                    assert(lex_leq()(hv[p], hv[q - 1]));
                } else {
                    assert(lex_leq()(hv[p - 1], hv[q - 1]));
                }
            }
            vstd::seq_lib::to_multiset_insert(hashes_view(pre), j as int, x@);
            assert(hashes_view(out@).to_multiset() == hashes_view(pre).to_multiset().insert(x@));
            assert(leaves@.take(i as int + 1) =~= leaves@.take(i as int).push(leaves@[i as int]));
            assert(hashes_view(leaves@.take(i as int + 1)) =~= hashes_view(
                leaves@.take(i as int),
            ).push(x@));
            vstd::seq_lib::to_multiset_build(hashes_view(leaves@.take(i as int)), x@);
            assert(hashes_view(out@).to_multiset() == hashes_view(
                leaves@.take(i as int + 1),
            ).to_multiset());
        }
        i = i + 1;
    }
    proof {
        assert(leaves@.take(leaves@.len() as int) =~= leaves@);
    }
    out
}

/// An OpenZeppelin-compatible Merkle tree: `layers[0]` is the sorted leaf
/// layer and the last layer holds the single root. Parent/child relations
/// are pure index arithmetic, so the structure is immutable once built.
#[derive(Debug)]
pub struct OzMerkleTree {
    layers: Vec<Vec<[u8; 32]>>,
}

impl View for OzMerkleTree {
    type V = Seq<Seq<Seq<u8>>>;

    closed spec fn view(&self) -> Seq<Seq<Seq<u8>>> {
        layers_view(self.layers@)
    }
}

impl OzMerkleTree {
    /// A built tree: at least one leaf, leaves sorted ascending, every
    /// further layer derived from the one below, ending in a single root.
    pub open spec fn wf(self) -> bool {
        &&& self@.len() >= 1
        &&& self@[0].len() >= 1
        &&& sorted_by(self@[0], lex_leq())
        &&& self@ == build_layers(self@[0])
    }

    /// The leaf layer.
    pub open spec fn spec_leaves(self) -> Seq<Seq<u8>> {
        self@[0]
    }

    /// The root hash.
    pub open spec fn spec_root(self) -> Seq<u8> {
        self@.last()[0]
    }

    /// Build the tree from a set of leaf hashes (already double-hashed
    /// record encodings). The leaves are sorted first, so any input order
    /// yields the same tree; zero leaves are refused.
    pub fn from_leaves(leaves: &[[u8; 32]]) -> (r: Result<OzMerkleTree, MerkleError>)
        ensures
            match r {
                Ok(t) => {
                    &&& leaves@.len() > 0
                    &&& t.wf()
                    &&& t.spec_leaves().len() == leaves@.len()
                    &&& t.spec_leaves().to_multiset() == hashes_view(leaves@).to_multiset()
                    &&& t.spec_root() == root_of(t.spec_leaves())
                },
                Err(e) => e == MerkleError::EmptyLeafSet && leaves@.len() == 0,
            },
    {
        if leaves.len() == 0 {
            return Err(MerkleError::EmptyLeafSet);
        }
        let mut current = sort_hashes(leaves);
        let ghost l0 = hashes_view(current@);
        let mut layers: Vec<Vec<[u8; 32]>> = Vec::new();
        while current.len() > 1
            invariant
                current@.len() >= 1,
                layers_view(layers@).push(hashes_view(current@))[0] == l0,
                chain_ok(layers_view(layers@).push(hashes_view(current@))),
            decreases current@.len(),
        {
            let ghost chain_pre = layers_view(layers@).push(hashes_view(current@));
            let ghost cv = hashes_view(current@);
            let n = current.len();
            let mut next: Vec<[u8; 32]> = Vec::new();
            let mut i: usize = 0;
            while i + 1 < n
                invariant
                    n == current@.len(),
                    n >= 2,
                    i % 2 == 0,
                    i <= n,
                    cv == hashes_view(current@),
                    next@.len() == i / 2,
                    forall|j: int|
                        0 <= j < i / 2 ==> (#[trigger] next@[j])@ == combine(
                            cv[2 * j],
                            cv[2 * j + 1],
                        ),
                decreases n - i,
            {
                let h = hash_pair(current[i], current[i + 1]);
                next.push(h);
                i = i + 2;
            }
            if i < n {
                let promoted = current[i];
                next.push(promoted);
            }
            proof {
                lemma_next_layer_len(cv);
                assert(next@.len() == next_layer(cv).len());
                assert forall|j: int| 0 <= j < next@.len() implies (#[trigger] next@[j])@
                    == next_layer(cv)[j] by {
                    lemma_next_layer_index(cv, j);
                }
                assert(hashes_view(next@) =~= next_layer(cv));
            }
            let ghost layers_pre = layers@;
            let ghost cur_snap = current;
            layers.push(current);
            proof {
                lemma_layers_view_push(layers_pre, cur_snap);
                let chain_post = layers_view(layers@).push(hashes_view(next@));
                assert(chain_post =~= chain_pre.push(next_layer(cv)));
                assert(chain_post[0] == l0);
                assert forall|k: int|
                    0 <= k < chain_post.len() - 1 implies (#[trigger] chain_post[k]).len() >= 2
                    && chain_post[k + 1] == next_layer(chain_post[k]) by {
                    if k < chain_post.len() - 2 {
                        assert(chain_post[k] == chain_pre[k]);
                        assert(chain_post[k + 1] == chain_pre[k + 1]);
                    } else {
                        assert(chain_post[k] == chain_pre[chain_pre.len() - 1]);
                        assert(chain_post[k] == cv);
                    }
                }
            }
            current = next;
        }
        let ghost layers_pre = layers@;
        let ghost cur_snap = current;
        let ghost final_layer = hashes_view(current@);
        layers.push(current);
        let t = OzMerkleTree { layers };
        proof {
            lemma_layers_view_push(layers_pre, cur_snap);
            let chain = layers_view(layers@);
            assert(chain =~= layers_view(layers_pre).push(final_layer));
            assert(chain.last().len() == 1);
            lemma_chain_is_build_layers(chain);
            lemma_build_layers_props(l0);
            assert(t@ == chain);
            assert(t.wf());
        }
        Ok(t)
    }

    /// The root hash: the single node of the top layer.
    pub fn root(&self) -> (r: [u8; 32])
        requires
            self.wf(),
        ensures
            r@ == self.spec_root(),
    {
        proof {
            lemma_build_layers_props(self@[0]);
        }
        let last = self.layers.len() - 1;
        self.layers[last][0]
    }

    /// Extract the Merkle proof for a leaf: walk from its first occurrence
    /// in the leaf layer to just below the root, collecting the sibling at
    /// each layer; a leaf absent from the tree yields `None`.
    pub fn get_proof(&self, leaf: &[u8; 32]) -> (r: Option<Vec<[u8; 32]>>)
        requires
            self.wf(),
        ensures
            match r {
                Some(p) => {
                    &&& self.spec_leaves().contains(leaf@)
                    &&& hashes_view(p@) == proof_from(
                        self@,
                        self.spec_leaves().index_of_first(leaf@).unwrap(),
                    )
                    &&& fold_proof(leaf@, hashes_view(p@)) == self.spec_root()
                },
                None => !self.spec_leaves().contains(leaf@),
            },
    {
        proof {
            lemma_build_layers_props(self@[0]);
            self.spec_leaves().index_of_first_ensures(leaf@);
        }
        let found = find_leaf(&self.layers[0], leaf);
        let mut index: usize = match found {
            None => {
                proof {
                    assert forall|j: int|
                        0 <= j < self.spec_leaves().len() implies self.spec_leaves()[j]
                        != leaf@ by {}
                }
                return None;
            },
            Some(i) => i,
        };
        proof {
            assert(self.spec_leaves()[index as int] == leaf@);
            assert(self.spec_leaves().contains(leaf@));
        }
        let ghost idx0 = self.spec_leaves().index_of_first(leaf@).unwrap();
        proof {
            assert(idx0 == index as int);
        }
        let height = self.layers.len();
        let mut siblings: Vec<[u8; 32]> = Vec::new();
        let mut k: usize = 0;
        let ghost ls = self@;
        proof {
            assert(ls.skip(0) =~= ls);
            assert(hashes_view(siblings@) =~= Seq::<Seq<u8>>::empty());
            assert(hashes_view(siblings@) + proof_from(ls, idx0) =~= proof_from(ls, idx0));
        }
        while k + 1 < height
            invariant
                self.wf(),
                ls == self@,
                height == ls.len(),
                k < height,
                index < ls[k as int].len(),
                proof_from(ls, idx0) == hashes_view(siblings@) + proof_from(
                    ls.skip(k as int),
                    index as int,
                ),
            decreases height - k,
        {
            proof {
                lemma_build_layers_props(self@[0]);
                lemma_next_layer_len(ls[k as int]);
                assert(ls.skip(k as int)[0] == ls[k as int]);
                assert(ls.skip(k as int).drop_first() =~= ls.skip(k as int + 1));
                assert(ls.skip(k as int).len() == height - k >= 2);
            }
            let layer_len = self.layers[k].len();
            proof {
                assert(ls[k as int].len() == self.layers@[k as int]@.len());
                assert(index < layer_len);
            }
            let sib: usize = if index % 2 == 0 {
                index + 1
            } else {
                index - 1
            };
            proof {
                assert(sib as int == sibling_index(index as int));
            }
            let ghost pre = siblings@;
            if sib < layer_len {
                let s = self.layers[k][sib];
                siblings.push(s);
                proof {
                    assert(hashes_view(siblings@) =~= hashes_view(pre).push(
                        ls[k as int][sib as int],
                    ));
                    assert(proof_from(ls.skip(k as int), index as int) =~= seq![
                        ls[k as int][sib as int],
                    ] + proof_from(ls.skip(k as int + 1), index as int / 2));
                    assert(hashes_view(siblings@) + proof_from(
                        ls.skip(k as int + 1),
                        index as int / 2,
                    ) =~= hashes_view(pre) + proof_from(ls.skip(k as int), index as int));
                }
            } else {
                proof {
                    assert(proof_from(ls.skip(k as int), index as int) == proof_from(
                        ls.skip(k as int + 1),
                        index as int / 2,
                    ));
                }
            }
            proof {
                assert(ls[k as int + 1] == next_layer(ls[k as int]));
                assert(index as int / 2 < ls[k as int + 1].len());
            }
            index = index / 2;
            k = k + 1;
        }
        proof {
            assert(ls.skip(k as int).len() <= 1);
            assert(proof_from(ls.skip(k as int), index as int) =~= Seq::<Seq<u8>>::empty());
            assert(hashes_view(siblings@) + Seq::<Seq<u8>>::empty() =~= hashes_view(siblings@));
            lemma_proof_round_trip(self.spec_leaves(), idx0);
        }
        Some(siblings)
    }

    /// Fold the proof over the leaf and compare with the root: the
    /// off-chain mirror of the external verifier. Never errors; any
    /// mismatch, including a proof of the wrong length, yields `false`.
    pub fn verify(root: &[u8; 32], siblings: &[[u8; 32]], leaf: &[u8; 32]) -> (r: bool)
        ensures
            r == (fold_proof(leaf@, hashes_view(siblings@)) == root@),
    {
        let ghost sv = hashes_view(siblings@);
        let mut computed: [u8; 32] = *leaf;
        let mut i: usize = 0;
        proof {
            assert(sv.skip(0) =~= sv);
        }
        while i < siblings.len()
            invariant
                i <= siblings@.len(),
                sv == hashes_view(siblings@),
                fold_proof(leaf@, sv) == fold_proof(computed@, sv.skip(i as int)),
            decreases siblings@.len() - i,
        {
            proof {
                assert(sv.skip(i as int)[0] == siblings@[i as int]@);
                assert(sv.skip(i as int).drop_first() =~= sv.skip(i as int + 1));
            }
            computed = hash_pair(computed, siblings[i]);
            i = i + 1;
        }
        proof {
            assert(sv.skip(siblings@.len() as int) =~= Seq::<Seq<u8>>::empty());
        }
        eq32(&computed, root)
    }
}

} // verus!
