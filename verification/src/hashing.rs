//! The fixed 32-byte hash (Keccak-256) and the commutative sorted-pair
//! combination used for interior tree nodes.

use vstd::prelude::*;

verus! {

/// The 32-byte Keccak-256 digest of `data`, named but not written out:
/// it is a pure function of the input bytes alone.
pub uninterp spec fn keccak_of(data: Seq<u8>) -> Seq<u8>;

/// Relies on `sha3::Keccak256` through the `Digest` trait: `digest` returns
/// the 32-byte Keccak-256 hash of the input, depending on the input alone.
#[verifier::external_body]
pub(crate) fn keccak256(data: &[u8]) -> (r: [u8; 32])
    ensures
        r@ == keccak_of(data@),
{
    <sha3::Keccak256 as sha3::Digest>::digest(data).into()
}

/// Lexicographic byte order on hash values; a strict prefix sorts first.
pub open spec fn lex_le(a: Seq<u8>, b: Seq<u8>) -> bool
    decreases a.len(),
{
    if a.len() == 0 {
        true
    } else if b.len() == 0 {
        false
    } else if a[0] < b[0] {
        true
    } else if a[0] > b[0] {
        false
    } else {
        lex_le(a.drop_first(), b.drop_first())
    }
}

/// `lex_le` as a binary relation value, for use with `sorted_by`.
pub open spec fn lex_leq() -> spec_fn(Seq<u8>, Seq<u8>) -> bool {
    |a: Seq<u8>, b: Seq<u8>| lex_le(a, b)
}

pub proof fn lemma_lex_le_reflexive(a: Seq<u8>)
    ensures
        lex_le(a, a),
    decreases a.len(),
{
    if a.len() > 0 {
        lemma_lex_le_reflexive(a.drop_first());
    }
}

pub proof fn lemma_lex_le_total(a: Seq<u8>, b: Seq<u8>)
    ensures
        lex_le(a, b) || lex_le(b, a),
    decreases a.len(),
{
    if a.len() > 0 && b.len() > 0 && a[0] == b[0] {
        lemma_lex_le_total(a.drop_first(), b.drop_first());
    }
}

pub proof fn lemma_lex_le_antisymmetric(a: Seq<u8>, b: Seq<u8>)
    requires
        lex_le(a, b),
        lex_le(b, a),
    ensures
        a == b,
    decreases a.len(),
{
    if a.len() == 0 {
        assert(a =~= b);
    } else {
        lemma_lex_le_antisymmetric(a.drop_first(), b.drop_first());
        assert(a.len() == b.len());
        assert forall|i: int| 0 <= i < a.len() implies a[i] == b[i] by {
            if i > 0 {
                assert(a.drop_first()[i - 1] == b.drop_first()[i - 1]);
            }
        }
        assert(a =~= b);
    }
}

pub proof fn lemma_lex_le_transitive(a: Seq<u8>, b: Seq<u8>, c: Seq<u8>)
    requires
        lex_le(a, b),
        lex_le(b, c),
    ensures
        lex_le(a, c),
    decreases a.len(),
{
    if a.len() > 0 && b.len() > 0 && c.len() > 0 && a[0] == b[0] && b[0] == c[0] {
        lemma_lex_le_transitive(a.drop_first(), b.drop_first(), c.drop_first());
    }
}

/// `lex_le` is a total ordering, so a sorted leaf layer is unique for a
/// given multiset of leaves.
pub proof fn lemma_lex_le_total_ordering()
    ensures
        vstd::relations::total_ordering(lex_leq()),
{
    assert forall|a: Seq<u8>| #[trigger] lex_leq()(a, a) by {
        lemma_lex_le_reflexive(a);
    }
    assert forall|a: Seq<u8>, b: Seq<u8>|
        #[trigger] lex_leq()(a, b) && #[trigger] lex_leq()(b, a) implies a == b by {
        lemma_lex_le_antisymmetric(a, b);
    }
    assert forall|a: Seq<u8>, b: Seq<u8>, c: Seq<u8>|
        #[trigger] lex_leq()(a, b) && #[trigger] lex_leq()(b, c) implies lex_leq()(a, c) by {
        lemma_lex_le_transitive(a, b, c);
    }
    assert forall|a: Seq<u8>, b: Seq<u8>| #[trigger] lex_leq()(a, b) || #[trigger] lex_leq()(
        b,
        a,
    ) by {
        lemma_lex_le_total(a, b);
    }
}

/// The parent of two nodes: the hash of their concatenation, smaller first.
pub open spec fn combine(a: Seq<u8>, b: Seq<u8>) -> Seq<u8> {
    if lex_le(a, b) {
        keccak_of(a + b)
    } else {
        keccak_of(b + a)
    }
}

/// The pair combination is commutative: the verifier folding a proof need
/// not know on which side of a pair each node stood.
pub proof fn lemma_combine_commutes(a: Seq<u8>, b: Seq<u8>)
    ensures
        combine(a, b) == combine(b, a),
{
    lemma_lex_le_total(a, b);
    if lex_le(a, b) && lex_le(b, a) {
        lemma_lex_le_antisymmetric(a, b);
    }
}

pub(crate) fn lex_le32(a: &[u8; 32], b: &[u8; 32]) -> (r: bool)
    ensures
        r == lex_le(a@, b@),
{
    proof {
        assert(a@.skip(0) =~= a@);
        assert(b@.skip(0) =~= b@);
    }
    let mut i: usize = 0;
    while i < 32
        invariant
            0 <= i <= 32,
            lex_le(a@, b@) == lex_le(a@.skip(i as int), b@.skip(i as int)),
        decreases 32 - i,
    {
        let x = a[i];
        let y = b[i];
        proof {
            assert(a@.skip(i as int)[0] == a@[i as int]);
            assert(b@.skip(i as int)[0] == b@[i as int]);
            assert(a@.skip(i as int).drop_first() =~= a@.skip(i as int + 1));
            assert(b@.skip(i as int).drop_first() =~= b@.skip(i as int + 1));
        }
        if x < y {
            return true;
        }
        if x > y {
            return false;
        }
        i = i + 1;
    }
    proof {
        assert(a@.skip(32) =~= Seq::<u8>::empty());
    }
    true
}

fn push_bytes(buf: &mut Vec<u8>, h: &[u8; 32])
    ensures
        final(buf)@ == old(buf)@ + h@,
{
    let ghost buf0 = buf@;
    let mut k: usize = 0;
    while k < 32
        invariant
            0 <= k <= 32,
            buf@ == buf0 + h@.take(k as int),
        decreases 32 - k,
    {
        buf.push(h[k]);
        proof {
            assert(buf0 + h@.take(k as int) + seq![h@[k as int]] =~= buf0 + h@.take(k as int + 1));
        }
        k = k + 1;
    }
    proof {
        assert(h@.take(32) =~= h@);
    }
}

/// Hash two 32-byte nodes into their parent, concatenating the
/// lexicographically smaller one first.
pub fn hash_pair(a: [u8; 32], b: [u8; 32]) -> (r: [u8; 32])
    ensures
        r@ == combine(a@, b@),
{
    let mut buf: Vec<u8> = Vec::new();
    if lex_le32(&a, &b) {
        push_bytes(&mut buf, &a);
        push_bytes(&mut buf, &b);
        proof {
            assert(buf@ =~= a@ + b@);
        }
    } else {
        push_bytes(&mut buf, &b);
        push_bytes(&mut buf, &a);
        proof {
            assert(buf@ =~= b@ + a@);
        }
    }
    keccak256(buf.as_slice())
}

} // verus!
