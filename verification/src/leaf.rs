//! Leaf encoding: one record becomes a fixed 64-byte ABI tuple
//! `(address, uint256)` and is hashed twice, the format the external
//! verifier reconstructs on its side.

use vstd::prelude::*;
use vstd::string::StrSliceExecFns;

use crate::error::MerkleError;
use crate::hexcodec::{hex_decodable, hex_decode, hex_decoded};
use crate::hashing::{keccak_of, keccak256};

verus! {

/// The two's-complement image of a signed expiration in a 64-bit word.
pub open spec fn expiration_word(e: i64) -> u64 {
    if e >= 0 {
        e as u64
    } else {
        (e + 0x1_0000_0000_0000_0000) as u64
    }
}

/// The big-endian bytes of a 64-bit word.
pub open spec fn be_bytes64(v: u64) -> Seq<u8> {
    seq![
        ((v >> 56) & 0xff) as u8,
        ((v >> 48) & 0xff) as u8,
        ((v >> 40) & 0xff) as u8,
        ((v >> 32) & 0xff) as u8,
        ((v >> 24) & 0xff) as u8,
        ((v >> 16) & 0xff) as u8,
        ((v >> 8) & 0xff) as u8,
        (v & 0xff) as u8,
    ]
}

/// The 64-byte ABI tuple of a record: 12 zero bytes, the 20-byte address,
/// 24 zero bytes, the 8-byte big-endian expiration.
pub open spec fn leaf_preimage(addr: Seq<u8>, e: i64) -> Seq<u8> {
    Seq::new(64, |i: int|
        if 12 <= i < 32 {
            addr[i - 12]
        } else if 56 <= i < 64 {
            be_bytes64(expiration_word(e))[i - 56]
        } else {
            0u8
        },
    )
}

/// The leaf committing a record: the double Keccak-256 of its ABI tuple.
pub open spec fn leaf_hash(addr: Seq<u8>, e: i64) -> Seq<u8> {
    keccak_of(keccak_of(leaf_preimage(addr, e)))
}

/// An address-hex string with one optional `0x` prefix removed.
pub open spec fn strip_prefix(s: Seq<char>) -> Seq<char> {
    if s.len() >= 2 && s[0] == '0' && s[1] == 'x' {
        s.skip(2)
    } else {
        s
    }
}

/// A valid address: well-formed hex denoting exactly 20 bytes.
pub open spec fn valid_address_hex(s: Seq<char>) -> bool {
    hex_decodable(strip_prefix(s)) && hex_decoded(strip_prefix(s)).len() == 20
}

/// The address bytes a valid address-hex string denotes.
pub open spec fn address_bytes(s: Seq<char>) -> Seq<u8> {
    hex_decoded(strip_prefix(s))
}

/// The error an invalid address reports: bad hex comes before bad length.
pub open spec fn address_error(s: Seq<char>) -> MerkleError {
    if !hex_decodable(strip_prefix(s)) {
        MerkleError::InvalidHexInput
    } else {
        MerkleError::InvalidAddressLength
    }
}

/// Encode one record into its 32-byte leaf: strip an optional `0x`, decode
/// the address hex, reject anything but 20 bytes, then double-hash the
/// fixed ABI tuple.
pub fn compute_leaf(address_hex: &str, expiration: i64) -> (r: Result<[u8; 32], MerkleError>)
    ensures
        match r {
            Ok(h) => {
                &&& valid_address_hex(address_hex@)
                &&& h@ == leaf_hash(address_bytes(address_hex@), expiration)
            },
            Err(e) => {
                &&& !valid_address_hex(address_hex@)
                &&& e == address_error(address_hex@)
            },
        },
{
    let n = address_hex.unicode_len();
    let clean: &str = if n >= 2 && address_hex.get_char(0) == '0' && address_hex.get_char(1)
        == 'x' {
        address_hex.substring_char(2, n)
    } else {
        address_hex
    };
    proof {
        assert(clean@ =~= strip_prefix(address_hex@));
    }
    let decoded = hex_decode(clean);
    let addr: Vec<u8> = match decoded {
        None => {
            return Err(MerkleError::InvalidHexInput);
        },
        Some(v) => v,
    };
    if addr.len() != 20 {
        return Err(MerkleError::InvalidAddressLength);
    }
    let w: u64 = if expiration >= 0 {
        expiration as u64
    } else {
        ((expiration as i128) + 0x1_0000_0000_0000_0000_i128) as u64
    };
    proof {
        assert(w == expiration_word(expiration));
    }
    let ghost pre = leaf_preimage(addr@, expiration);
    let mut buf: Vec<u8> = Vec::new();
    let mut i: usize = 0;
    proof {
        assert(buf@ =~= pre.take(0));
    }
    while i < 12
        invariant
            i <= 12,
            pre == leaf_preimage(addr@, expiration),
            addr@.len() == 20,
            buf@ == pre.take(i as int),
        decreases 12 - i,
    {
        buf.push(0u8);
        proof {
            assert(buf@ =~= pre.take(i as int + 1));
        }
        i = i + 1;
    }
    let mut k: usize = 0;
    while k < 20
        invariant
            k <= 20,
            pre == leaf_preimage(addr@, expiration),
            addr@.len() == 20,
            buf@ == pre.take(12 + k as int),
        decreases 20 - k,
    {
        buf.push(addr[k]);
        proof {
            assert(buf@ =~= pre.take(12 + k as int + 1));
        }
        k = k + 1;
    }
    let mut z: usize = 0;
    while z < 24
        invariant
            z <= 24,
            pre == leaf_preimage(addr@, expiration),
            addr@.len() == 20,
            buf@ == pre.take(32 + z as int),
        decreases 24 - z,
    {
        buf.push(0u8);
        proof {
            assert(buf@ =~= pre.take(32 + z as int + 1));
        }
        z = z + 1;
    }
    proof {
        assert((w >> 56) & 0xff < 256 && (w >> 48) & 0xff < 256 && (w >> 40) & 0xff < 256 && (w
            >> 32) & 0xff < 256 && (w >> 24) & 0xff < 256 && (w >> 16) & 0xff < 256 && (w >> 8)
            & 0xff < 256 && w & 0xff < 256) by (bit_vector);
    }
    buf.push(((w >> 56) & 0xff) as u8);
    buf.push(((w >> 48) & 0xff) as u8);
    buf.push(((w >> 40) & 0xff) as u8);
    buf.push(((w >> 32) & 0xff) as u8);
    buf.push(((w >> 24) & 0xff) as u8);
    buf.push(((w >> 16) & 0xff) as u8);
    buf.push(((w >> 8) & 0xff) as u8);
    buf.push((w & 0xff) as u8);
    proof {
        assert(buf@ =~= pre);
    }
    let inner: [u8; 32] = keccak256(buf.as_slice());
    let outer: [u8; 32] = keccak256(inner.as_slice());
    Ok(outer)
}

} // verus!
