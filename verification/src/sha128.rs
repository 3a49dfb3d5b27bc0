use vstd::prelude::*;
use sha2::{Digest, Sha256};
use crate::blockchain::BlockHeader;

verus! {

/// Modulus applied to every summand before values are added up for hashing.
pub const OVERFLOW_PROTECTION: u128 = 0x7fff_ffff_ffff_ffff_ffff_ffff_ffff_ffff;

/// The SHA-256 digest of a byte string, as a sequence of 32 bytes.
pub uninterp spec fn sha256(input: Seq<u8>) -> Seq<u8>;

/// Byte `i` (most significant first) of the 16-byte big-endian encoding of `n`.
pub open spec fn be_byte(n: u128, i: int) -> u8 {
    ((n >> ((8 * (15 - i)) as u128)) & 0xff) as u8
}

/// The 16-byte big-endian encoding of `n`.
pub open spec fn be_bytes(n: u128) -> Seq<u8> {
    Seq::new(16, |i: int| be_byte(n, i))
}

/// The number whose big-endian digits in base 256 are the first `len` bytes of `s`.
pub open spec fn be_value(s: Seq<u8>, len: nat) -> u128
    decreases len,
{
    if len == 0 {
        0
    } else {
        (be_value(s, (len - 1) as nat) << 8) | (s[len - 1] as u128)
    }
}

/// The 128-bit hash: the first 16 bytes of the SHA-256 digest of the
/// big-endian encoding of `x`, read as a big-endian number.
pub open spec fn hash128(x: u128) -> u128 {
    be_value(sha256(be_bytes(x)), 16)
}

/// Reduction of a mathematical sum into the 128-bit accumulator.
pub open spec fn wrap128(x: int) -> u128 {
    (x % (u128::MAX + 1)) as u128
}

/// What is hashed to identify a transaction. Each summand is reduced below
/// the modulus first; the sum of the three can still pass 128 bits, and then
/// wraps around.
pub open spec fn transaction_data(public_key: u128, receiver_address: u128, amount: u128) -> u128 {
    wrap128(
        public_key % OVERFLOW_PROTECTION + receiver_address % OVERFLOW_PROTECTION + amount
            % OVERFLOW_PROTECTION,
    )
}

/// What is hashed to identify a block; the time stamp takes no part. The sum
/// wraps around where it passes 128 bits.
pub open spec fn header_data(header: BlockHeader) -> u128 {
    wrap128(
        header.nonce % OVERFLOW_PROTECTION + header.pre_hash % OVERFLOW_PROTECTION + header.merkle
            % OVERFLOW_PROTECTION + header.difficulty,
    )
}

/// The public identity that belongs to a secret.
pub open spec fn public_key_of(private_key: u128) -> u128 {
    hash128(private_key)
}

/// The address that belongs to a secret: the hash of its public identity.
pub open spec fn address_of(private_key: u128) -> u128 {
    hash128(hash128(private_key))
}

/// The hash that identifies a transaction.
pub open spec fn transaction_hash_of(public_key: u128, receiver_address: u128, amount: u128) -> u128 {
    hash128(transaction_data(public_key, receiver_address, amount))
}

/// The hash that identifies a block.
pub open spec fn block_hash_of(header: BlockHeader) -> u128 {
    hash128(header_data(header))
}

/// Sum of two 128-bit values in the 128-bit accumulator.
pub fn add_wrapping(a: u128, b: u128) -> (r: u128)
    ensures
        r == wrap128(a + b),
{
    a.wrapping_add(b)
}

/// The sixteen bytes of `n`, most significant first.
pub fn u128_to_u8_array(n: u128) -> (result: [u8; 16])
    ensures
        result@ == be_bytes(n),
{
    let mut result = [0u8; 16];
    let mut i: usize = 0;
    while i < 16
        invariant
            i <= 16,
            forall|j: int| 0 <= j < i ==> result@[j] == be_byte(n, j),
        decreases 16 - i,
    {
        let shift: u32 = (8 * (15 - i)) as u32;
        let byte: u8 = ((n >> shift) & 0xff) as u8;
        assert(byte == be_byte(n, i as int)) by {
            assert(shift as u128 == (8 * (15 - i)) as u128);
            assert((n >> shift) == (n >> (shift as u128))) by (bit_vector);
        }
        result[i] = byte;
        i += 1;
    }
    assert(result@ =~= be_bytes(n));
    result
}

/// The number that sixteen bytes spell, most significant first.
pub fn u8_array_to_u128(array: [u8; 16]) -> (result: u128)
    ensures
        result == be_value(array@, 16),
{
    let mut result: u128 = 0;
    let mut i: usize = 0;
    while i < 16
        invariant
            i <= 16,
            result == be_value(array@, i as nat),
        decreases 16 - i,
    {
        result = (result << 8) | (array[i] as u128);
        i += 1;
    }
    result
}

/// Calls `sha2::Sha256::digest` on the sixteen bytes given. The contract names
/// the digest `sha256` of the input and says that it has 32 bytes, which is
/// the output size of SHA-256.
#[verifier::external_body]
fn sha256_digest(input: &[u8; 16]) -> (digest: [u8; 32])
    ensures
        digest@ == sha256(input@),
{
    Sha256::digest(input).into()
}

/// The 128-bit hash of `input`.
fn sha128(input: u128) -> (r: u128)
    ensures
        r == hash128(input),
{
    let bytes = u128_to_u8_array(input);
    let digest = sha256_digest(&bytes);
    let mut head = [0u8; 16];
    let mut i: usize = 0;
    while i < 16
        invariant
            i <= 16,
            forall|j: int| 0 <= j < i ==> head@[j] == digest@[j],
        decreases 16 - i,
    {
        head[i] = digest[i];
        i += 1;
    }
    proof {
        lemma_be_value_prefix(head@, digest@, 16);
    }
    u8_array_to_u128(head)
}

/// The first `len` bytes of the encoding of `n` are the number made of the
/// top `8 * len` bits of `n`.
pub proof fn lemma_be_value_of_bytes(n: u128, len: nat)
    requires
        1 <= len <= 16,
    ensures
        be_value(be_bytes(n), len) == n >> ((8 * (16 - len)) as u128),
    decreases len,
{
    let s = be_bytes(n);
    let shift: u128 = (8 * (16 - len)) as u128;
    let byte: u8 = s[len - 1];
    assert(byte == be_byte(n, len - 1));
    assert(byte as u128 == (n >> shift) & 0xff) by (bit_vector)
        requires
            byte == ((n >> shift) & 0xff) as u8,
    ;
    if len == 1 {
        assert(be_value(s, 0) == 0);
        assert((0u128 << 8) | ((n >> shift) & 0xff) == n >> shift) by (bit_vector)
            requires
                shift == 120,
        ;
    } else {
        lemma_be_value_of_bytes(n, (len - 1) as nat);
        let above: u128 = (8 * (16 - (len - 1))) as u128;
        assert(((n >> above) << 8) | ((n >> shift) & 0xff) == n >> shift) by (bit_vector)
            requires
                shift <= 112,
                above == shift + 8,
        ;
    }
}

/// Decoding the encoding of a number gives the number back.
pub proof fn lemma_be_round_trip(n: u128)
    ensures
        be_value(be_bytes(n), 16) == n,
{
    lemma_be_value_of_bytes(n, 16);
    assert(n >> 0u128 == n) by (bit_vector);
}

/// `be_value` reads only the first `len` bytes.
pub proof fn lemma_be_value_prefix(a: Seq<u8>, b: Seq<u8>, len: nat)
    requires
        forall|j: int| 0 <= j < len ==> a[j] == b[j],
    ensures
        be_value(a, len) == be_value(b, len),
    decreases len,
{
    if len > 0 {
        lemma_be_value_prefix(a, b, (len - 1) as nat);
    }
}

/// The hash functions of the chain, all built on one 128-bit hash.
pub struct Sha128;

impl Sha128 {
    /// The 128-bit hash of `input`.
    pub fn hash(input: u128) -> (r: u128)
        ensures
            r == hash128(input),
    {
        sha128(input)
    }

    /// The public identity that belongs to `private_key`.
    pub fn public_key(private_key: u128) -> (r: u128)
        ensures
            r == public_key_of(private_key),
    {
        sha128(private_key)
    }

    /// The address that belongs to `private_key`.
    pub fn address(private_key: u128) -> (r: u128)
        ensures
            r == address_of(private_key),
    {
        sha128(Sha128::public_key(private_key))
    }

    /// The hash that identifies the transfer of `amount` from the holder of
    /// `public_key` to `receiver_address`.
    pub fn transaction_hash(public_key: u128, receiver_address: u128, amount: u128) -> (r: u128)
        ensures
            r == transaction_hash_of(public_key, receiver_address, amount),
    {
        let a: u128 = public_key % OVERFLOW_PROTECTION;
        let b: u128 = receiver_address % OVERFLOW_PROTECTION;
        let c: u128 = amount % OVERFLOW_PROTECTION;
        let ab: u128 = add_wrapping(a, b);
        let abc: u128 = add_wrapping(ab, c);
        sha128(abc)
    }

    /// The hash that identifies the block with this header.
    pub fn block_hash(header: &BlockHeader) -> (r: u128)
        ensures
            r == block_hash_of(*header),
    {
        sha128(header.get_data())
    }
}

} // verus!
