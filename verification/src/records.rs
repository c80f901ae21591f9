//! From subscriber records to trees and proofs: the compute side of a
//! build, the per-user proof lookup, and off-chain verification against a
//! hex-encoded root.

use vstd::prelude::*;
use vstd::string::StrSliceExecFns;

use crate::error::MerkleError;
use crate::hexcodec::{hex_decodable, hex_decode, hex_decoded, hex_encode, hex_encoding};
use crate::leaf::{
    address_bytes, address_error, compute_leaf, leaf_hash, strip_prefix, valid_address_hex,
};
use crate::tree::{fold_proof, hashes_view, proof_from, OzMerkleTree};

verus! {

/// Whether a subscriber entry names the given user.
pub open spec fn entry_matches(sub: (String, i64), user: Seq<char>) -> bool {
    sub.0@ == user
}

/// Position `i` holds the first entry for the user.
pub open spec fn first_entry_for(subs: Seq<(String, i64)>, user: Seq<char>, i: int) -> bool {
    &&& 0 <= i < subs.len()
    &&& entry_matches(subs[i], user)
    &&& forall|j: int| 0 <= j < i ==> !entry_matches(#[trigger] subs[j], user)
}

/// Some entry names the user.
pub open spec fn has_entry_for(subs: Seq<(String, i64)>, user: Seq<char>) -> bool {
    exists|i: int| 0 <= i < subs.len() && entry_matches(#[trigger] subs[i], user)
}

/// Every record carries a valid address.
pub open spec fn all_addresses_valid(rs: Seq<(String, i64)>) -> bool {
    forall|i: int| 0 <= i < rs.len() ==> valid_address_hex((#[trigger] rs[i]).0@)
}

/// Position `i` holds the first record with an invalid address.
pub open spec fn first_invalid_at(rs: Seq<(String, i64)>, i: int) -> bool {
    &&& 0 <= i < rs.len()
    &&& !valid_address_hex(rs[i].0@)
    &&& forall|j: int| 0 <= j < i ==> valid_address_hex((#[trigger] rs[j]).0@)
}

/// The leaves a record list encodes, in record order.
pub open spec fn record_leaves(rs: Seq<(String, i64)>) -> Seq<Seq<u8>> {
    Seq::new(rs.len(), |i: int| leaf_hash(address_bytes(rs[i].0@), rs[i].1))
}

fn str_eq(a: &str, b: &str) -> (r: bool)
    ensures
        r == (a@ == b@),
{
    let n = a.unicode_len();
    let m = b.unicode_len();
    if n != m {
        return false;
    }
    let mut i: usize = 0;
    while i < n
        invariant
            a@.len() == n,
            b@.len() == n,
            i <= n,
            forall|j: int| 0 <= j < i ==> a@[j] == b@[j],
        decreases n - i,
    {
        if a.get_char(i) != b.get_char(i) {
            return false;
        }
        i = i + 1;
    }
    proof {
        assert(a@ =~= b@);
    }
    true
}

fn to_array32(v: &Vec<u8>) -> (r: [u8; 32])
    requires
        v@.len() == 32,
    ensures
        r@ == v@,
{
    let mut out: [u8; 32] = [0u8; 32];
    let mut i: usize = 0;
    while i < 32
        invariant
            i <= 32,
            v@.len() == 32,
            forall|j: int| 0 <= j < i ==> out@[j] == v@[j],
        decreases 32 - i,
    {
        out[i] = v[i];
        i = i + 1;
    }
    proof {
        assert(out@ =~= v@);
    }
    out
}

/// Encode every record's leaf, build the tree, and return the root as
/// lowercase hex alongside it. Zero records are refused; an invalid
/// address fails with that record's own error.
pub fn build_tree_from_records(records: &[(String, i64)]) -> (r: Result<
    (String, OzMerkleTree),
    MerkleError,
>)
    ensures
        match r {
            Ok(p) => {
                &&& records@.len() > 0
                &&& all_addresses_valid(records@)
                &&& p.1.wf()
                &&& p.1.spec_leaves().len() == records@.len()
                &&& p.1.spec_leaves().to_multiset() == record_leaves(records@).to_multiset()
                &&& p.0@ == hex_encoding(p.1.spec_root())
            },
            Err(e) => {
                ||| (records@.len() == 0 && e == MerkleError::EmptyLeafSet)
                ||| (exists|i: int|
                    #[trigger] first_invalid_at(records@, i) && e == address_error(
                        records@[i].0@,
                    ))
            },
        },
{
    if records.len() == 0 {
        return Err(MerkleError::EmptyLeafSet);
    }
    let mut leaves: Vec<[u8; 32]> = Vec::new();
    let mut i: usize = 0;
    while i < records.len()
        invariant
            i <= records@.len(),
            leaves@.len() == i,
            forall|j: int| 0 <= j < i ==> valid_address_hex((#[trigger] records@[j]).0@),
            forall|j: int| 0 <= j < i ==> (#[trigger] leaves@[j])@ == record_leaves(records@)[j],
        decreases records@.len() - i,
    {
        let entry = &records[i];
        match compute_leaf(entry.0.as_str(), entry.1) {
            Err(e) => {
                proof {
                    assert(first_invalid_at(records@, i as int));
                }
                return Err(e);
            },
            Ok(h) => {
                leaves.push(h);
            },
        }
        i = i + 1;
    }
    proof {
        assert(hashes_view(leaves@) =~= record_leaves(records@));
    }
    let t = match OzMerkleTree::from_leaves(leaves.as_slice()) {
        Err(_) => {
            proof {
                assert(false);
            }
            return Err(MerkleError::EmptyLeafSet);
        },
        Ok(t) => t,
    };
    let root = t.root();
    let root_hex = hex_encode(root.as_slice());
    Ok((root_hex, t))
}

/// Look a user up among the records, re-encode their leaf, and extract its
/// proof from the tree; `None` when the user is absent, their stored
/// address is invalid, or the re-encoded leaf is not in the tree.
pub fn get_proof_for_user(
    tree: &OzMerkleTree,
    subscribers: &[(String, i64)],
    user_pubkey: &str,
) -> (r: Option<Vec<[u8; 32]>>)
    requires
        tree.wf(),
    ensures
        match r {
            Some(p) => exists|i: int|
                {
                    &&& #[trigger] first_entry_for(subscribers@, user_pubkey@, i)
                    &&& valid_address_hex(user_pubkey@)
                    &&& tree.spec_leaves().contains(
                        leaf_hash(address_bytes(user_pubkey@), subscribers@[i].1),
                    )
                    &&& hashes_view(p@) == proof_from(
                        tree@,
                        tree.spec_leaves().index_of_first(
                            leaf_hash(address_bytes(user_pubkey@), subscribers@[i].1),
                        ).unwrap(),
                    )
                    &&& fold_proof(
                        leaf_hash(address_bytes(user_pubkey@), subscribers@[i].1),
                        hashes_view(p@),
                    ) == tree.spec_root()
                },
            None => {
                ||| !has_entry_for(subscribers@, user_pubkey@)
                ||| (exists|i: int|
                    #[trigger] first_entry_for(subscribers@, user_pubkey@, i) && (
                    !valid_address_hex(user_pubkey@) || !tree.spec_leaves().contains(
                        leaf_hash(address_bytes(user_pubkey@), subscribers@[i].1),
                    )))
            },
        },
{
    let n = subscribers.len();
    let mut i: usize = 0;
    while i < n
        invariant
            n == subscribers@.len(),
            i <= n,
            tree.wf(),
            forall|j: int| 0 <= j < i ==> !entry_matches(#[trigger] subscribers@[j], user_pubkey@),
        decreases n - i,
    {
        let entry = &subscribers[i];
        if str_eq(entry.0.as_str(), user_pubkey) {
            proof {
                assert(first_entry_for(subscribers@, user_pubkey@, i as int));
            }
            let leaf = match compute_leaf(user_pubkey, entry.1) {
                Err(_) => {
                    return None;
                },
                Ok(h) => h,
            };
            return tree.get_proof(&leaf);
        }
        i = i + 1;
    }
    None
}

/// Decode the root hex, re-encode the user's leaf, and fold the proof:
/// the off-chain mirror of the external verifier's check.
pub fn verify_subscription(
    root_hex: &str,
    siblings: &[[u8; 32]],
    user_pubkey: &str,
    expiration_ts: i64,
) -> (r: Result<bool, MerkleError>)
    ensures
        match r {
            Ok(b) => {
                &&& hex_decodable(root_hex@)
                &&& hex_decoded(root_hex@).len() == 32
                &&& valid_address_hex(user_pubkey@)
                &&& b == (fold_proof(
                    leaf_hash(address_bytes(user_pubkey@), expiration_ts),
                    hashes_view(siblings@),
                ) == hex_decoded(root_hex@))
            },
            Err(e) => {
                ||| (!hex_decodable(root_hex@) && e == MerkleError::InvalidHexInput)
                ||| (hex_decodable(root_hex@) && hex_decoded(root_hex@).len() != 32 && e
                    == MerkleError::InvalidRootLength)
                ||| (hex_decodable(root_hex@) && hex_decoded(root_hex@).len() == 32
                    && !valid_address_hex(user_pubkey@) && e == address_error(user_pubkey@))
            },
        },
{
    let root_vec = match hex_decode(root_hex) {
        None => {
            return Err(MerkleError::InvalidHexInput);
        },
        Some(v) => v,
    };
    if root_vec.len() != 32 {
        return Err(MerkleError::InvalidRootLength);
    }
    let root = to_array32(&root_vec);
    let leaf = match compute_leaf(user_pubkey, expiration_ts) {
        Err(e) => {
            return Err(e);
        },
        Ok(h) => h,
    };
    Ok(OzMerkleTree::verify(&root, siblings, &leaf))
}

} // verus!
