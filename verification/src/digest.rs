//! Placement of keys on shards by their MD5 digest.

use vstd::prelude::*;

verus! {

/// The MD5 digest of the UTF-8 bytes of `text`: what `md5::compute` returns
/// for it, as sixteen bytes.
pub uninterp spec fn md5_digest(text: Seq<char>) -> Seq<u8>;

/// The digest of `object`.
///
/// Trusted: calls `md5::compute` on the string and takes the sixteen bytes of
/// the `Digest` it returns. The function reads nothing but its argument, so
/// its result is named by `md5_digest`.
#[verifier::external_body]
pub(crate) fn digest_of(object: &str) -> (d: [u8; 16])
    ensures
        d@ == md5_digest(object@),
{
    md5::compute(object).0
}

/// 256 to the power `n`.
pub open spec fn radix_pow(n: nat) -> nat
    decreases n,
{
    if n == 0 {
        1
    } else {
        256 * radix_pow((n - 1) as nat)
    }
}

/// The number that `bytes` spell in base 256, most significant byte first.
pub open spec fn digest_value(bytes: Seq<u8>) -> nat
    decreases bytes.len(),
{
    if bytes.len() == 0 {
        0
    } else {
        digest_value(bytes.drop_last()) * 256 + bytes.last() as nat
    }
}

/// The shard on which a key with the digest `digest` lies, of `num_shards`.
pub open spec fn shard_index(digest: Seq<u8>, num_shards: nat) -> nat {
    digest_value(digest) % num_shards
}

/// The shard of the key `text` in a bucket of `num_shards` shards.
pub open spec fn shard_of_key(text: Seq<char>, num_shards: nat) -> nat {
    shard_index(md5_digest(text), num_shards)
}

proof fn lemma_digest_value_bound(bytes: Seq<u8>)
    ensures
        digest_value(bytes) < radix_pow(bytes.len()),
    decreases bytes.len(),
{
    if bytes.len() > 0 {
        lemma_digest_value_bound(bytes.drop_last());
    }
}

proof fn lemma_radix_pow_monotonic(i: nat, j: nat)
    requires
        i <= j,
    ensures
        radix_pow(i) <= radix_pow(j),
    decreases j,
{
    if i < j {
        lemma_radix_pow_monotonic(i, (j - 1) as nat);
    }
}

proof fn lemma_radix_pow_15()
    ensures
        radix_pow(15) == 0x1_0000_0000_0000_0000_0000_0000_0000_00,
{
    reveal_with_fuel(radix_pow, 16);
}

/// The shard, of `num_shards`, for a key whose digest is `digest`: the digest
/// read as one big-endian number, modulo the number of shards.
pub fn shard_of_digest(digest: &[u8; 16], num_shards: usize) -> (r: usize)
    requires
        num_shards > 0,
    ensures
        r == shard_index(digest@, num_shards as nat),
        r < num_shards,
{
    let mut v: u128 = 0;
    let mut i: usize = 0;
    while i < 16
        invariant
            i <= 16,
            digest@.len() == 16,
            v == digest_value(digest@.take(i as int)),
        decreases 16 - i,
    {
        let b: u8 = digest[i];
        proof {
            let before = digest@.take(i as int);
            let after = digest@.take(i + 1);
            assert(after.drop_last() =~= before);
            assert(after.last() == b);
            lemma_digest_value_bound(before);
            lemma_radix_pow_monotonic(i as nat, 15);
            lemma_radix_pow_15();
            let w = v;
            assert(w < 0x1_0000_0000_0000_0000_0000_0000_0000_00u128 ==> ((w << 8) | (b as u128))
                == w * 256 + (b as u128)) by (bit_vector);
        }
        v = (v << 8) | (b as u128);
        i += 1;
    }
    assert(digest@.take(16) =~= digest@);
    (v % (num_shards as u128)) as usize
}

} // verus!
