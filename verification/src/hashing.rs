//! Commitments: the hash that binds an account to a name before the name is shown.

use vstd::prelude::*;

verus! {

/// An account, as the host names it.
pub type AccountId = u64;

/// What the host's hasher gives: 32 bytes.
pub type Hash = [u8; 32];

/// A name: any bytes.
pub type Name = Vec<u8>;

/// The longest name that a commitment can be made for. The bytes that are hashed
/// carry a 32-bit length, and hold the account (8 bytes) and the name's own
/// length (at most 5 bytes) beside the name.
pub const MAX_NAME_LEN: usize = 0xFFFF_FFF2;

/// 256 to the power `i`.
pub open spec fn pow256(i: nat) -> nat
    decreases i,
{
    if i == 0 {
        1
    } else {
        256 * pow256((i - 1) as nat)
    }
}

/// The `width` low bytes of `v`, lowest first.
pub open spec fn le_bytes(v: nat, width: nat) -> Seq<u8> {
    Seq::new(width, |i: int| ((v / pow256(i as nat)) % 256) as u8)
}

/// The compact form of a length below 2^32: one, two or four bytes whose two
/// lowest bits tell the width, or a byte 3 and four bytes.
pub open spec fn compact_len(n: nat) -> Seq<u8> {
    if n < 0x40 {
        le_bytes(4 * n, 1)
    } else if n < 0x4000 {
        le_bytes(4 * n + 1, 2)
    } else if n < 0x4000_0000 {
        le_bytes(4 * n + 2, 4)
    } else {
        seq![3u8] + le_bytes(n, 4)
    }
}

/// The canonical encoding of an account: eight bytes, lowest first.
pub open spec fn encoded_account(id: AccountId) -> Seq<u8> {
    le_bytes(id as nat, 8)
}

/// The canonical encoding of a name: its length in compact form, then its bytes.
pub open spec fn encoded_name(name: Seq<u8>) -> Seq<u8> {
    compact_len(name.len()) + name
}

/// The digest that `BlakeTwo256::hash_of` gives for a byte vector.
pub uninterp spec fn blake2_256_of(bytes: Seq<u8>) -> Seq<u8>;

/// The bytes that a commitment is the digest of.
pub open spec fn preimage(id: AccountId, name: Seq<u8>) -> Seq<u8> {
    encoded_account(id) + encoded_name(name)
}

/// The commitment of `id` to `name`.
pub open spec fn commit_hash(id: AccountId, name: Seq<u8>) -> Seq<u8> {
    blake2_256_of(preimage(id, name))
}

/// Trusted: `parity_scale_codec::Encode::encode` on a `u64`. The codec writes a
/// fixed-width integer as its bytes in little-endian order.
#[verifier::external_body]
fn encode_account(id: AccountId) -> (bytes: Vec<u8>)
    ensures
        bytes@ == encoded_account(id),
{
    parity_scale_codec::Encode::encode(&id)
}

/// Trusted: `parity_scale_codec::Encode::encode` on a `Vec<u8>`. The codec writes
/// the number of items as a compact 32-bit integer and then the bytes as they
/// are; it panics on more than `u32::MAX` items.
#[verifier::external_body]
fn encode_name(name: &Name) -> (bytes: Vec<u8>)
    requires
        name@.len() <= u32::MAX,
    ensures
        bytes@ == encoded_name(name@),
{
    parity_scale_codec::Encode::encode(name)
}

/// Trusted: `sp_runtime::traits::Hash::hash_of` of `BlakeTwo256` on a `Vec<u8>`.
/// The digest depends on the bytes alone. The call encodes the vector first, so
/// it panics on more than `u32::MAX` bytes.
#[verifier::external_body]
fn blake2_256(bytes: &Vec<u8>) -> (h: Hash)
    requires
        bytes@.len() <= u32::MAX,
    ensures
        h@ == blake2_256_of(bytes@),
{
    <sp_runtime::traits::BlakeTwo256 as sp_runtime::traits::Hash>::hash_of(bytes).0
}

/// Whether two hashes hold the same bytes.
pub fn same_hash(a: &Hash, b: &Hash) -> (same: bool)
    ensures
        same == (a@ == b@),
{
    let mut i: usize = 0;
    while i < 32
        invariant
            i <= 32,
            forall|j: int| 0 <= j < i ==> a@[j] == b@[j],
        decreases 32 - i,
    {
        if a[i] != b[i] {
            return false;
        }
        i += 1;
    }
    assert(a@ =~= b@);
    true
}

/// The compact form of a length is at most five bytes long.
pub proof fn lemma_compact_len_short(n: nat)
    ensures
        1 <= compact_len(n).len() <= 5,
{
}

/// The bytes that the commitment of `id` to `name` is the digest of: the
/// encoding of the account, then the encoding of the name.
pub fn commit_preimage(id: AccountId, name: &Name) -> (bytes: Vec<u8>)
    requires
        name@.len() <= MAX_NAME_LEN,
    ensures
        bytes@ == preimage(id, name@),
        bytes@.len() <= u32::MAX,
{
    let mut id_plus_name = encode_account(id);
    let encoded = encode_name(name);
    proof {
        lemma_compact_len_short(name@.len());
    }
    let ghost before = id_plus_name@;
    id_plus_name.extend_from_slice(encoded.as_slice());
    assert(id_plus_name@ =~= before + encoded@);
    id_plus_name
}

/// The commitment of `id` to `name`: the digest of `id`'s encoding followed by
/// `name`'s. It depends on these bytes alone.
pub fn hash_of(id: AccountId, name: &Name) -> (h: Hash)
    requires
        name@.len() <= MAX_NAME_LEN,
    ensures
        h@ == commit_hash(id, name@),
{
    let id_plus_name = commit_preimage(id, name);
    blake2_256(&id_plus_name)
}

} // verus!
