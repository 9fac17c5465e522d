//! The bucket index: shards of keys, and counters of the work done on them.

use crate::digest::{digest_of, shard_of_digest, shard_of_key};
use crate::shard::{lemma_with_key, with_key, Shard};
use vstd::prelude::*;
use vstd::string::*;

verus! {

/// Every key of every shard lies on the shard that its digest selects.
pub open spec fn placed(shards: Seq<Seq<Seq<char>>>) -> bool {
    forall|i: int, j: int|
        0 <= i < shards.len() && 0 <= j < shards[i].len() ==> shard_of_key(
            #[trigger] shards[i][j],
            shards.len(),
        ) == i
}

/// Whether some shard holds `key`.
pub open spec fn holds(shards: Seq<Seq<Seq<char>>>, key: Seq<char>) -> bool {
    exists|i: int| 0 <= i < shards.len() && #[trigger] shards[i].contains(key)
}

/// A bucket index: its shards, and counters of the shard requests made
/// (`calls`), of the scans that returned rows (`queries`) and of the rows that
/// those scans returned (`rows_read`).
pub struct Bucket {
    pub shards: Vec<Shard>,
    pub rows_read: usize,
    pub queries: usize,
    pub calls: usize,
}

impl Bucket {
    /// The keys of each shard, in shard order.
    pub open spec fn shard_keys(&self) -> Seq<Seq<Seq<char>>> {
        Seq::new(self.shards@.len(), |i: int| self.shards@[i]@)
    }

    /// Every shard is sorted, and every key lies on the shard of its digest.
    pub open spec fn wf(&self) -> bool {
        &&& forall|i: int| 0 <= i < self.shards@.len() ==> (#[trigger] self.shards@[i]).wf()
        &&& placed(self.shard_keys())
    }
}

/// A bucket of `num_shards` empty shards, with all counters at zero.
pub fn new_bucket(num_shards: usize) -> (bucket: Bucket)
    ensures
        bucket.wf(),
        bucket.shards@.len() == num_shards,
        forall|i: int| 0 <= i < num_shards ==> (#[trigger] bucket.shards@[i])@.len() == 0,
        bucket.rows_read == 0,
        bucket.queries == 0,
        bucket.calls == 0,
{
    let mut shards: Vec<Shard> = Vec::new();
    let mut i: usize = 0;
    while i < num_shards
        invariant
            i <= num_shards,
            shards@.len() == i,
            forall|j: int| 0 <= j < i ==> (#[trigger] shards@[j])@.len() == 0,
            forall|j: int| 0 <= j < i ==> (#[trigger] shards@[j]).wf(),
        decreases num_shards - i,
    {
        shards.push(Shard::new());
        i += 1;
    }
    Bucket { shards, rows_read: 0, queries: 0, calls: 0 }
}

/// Adds the key `object` to the shard with the number `shard_id`, on which
/// its digest places it.
fn add_to_shard(bucket: &mut Bucket, shard_id: usize, object: &str)
    requires
        old(bucket).wf(),
        shard_id < old(bucket).shards@.len(),
        shard_id == shard_of_key(object@, old(bucket).shards@.len()),
    ensures
        final(bucket).wf(),
        final(bucket).shards@.len() == old(bucket).shards@.len(),
        final(bucket).shard_keys() == old(bucket).shard_keys().update(
            shard_id as int,
            with_key(old(bucket).shard_keys()[shard_id as int], object@),
        ),
        final(bucket).rows_read == old(bucket).rows_read,
        final(bucket).queries == old(bucket).queries,
        final(bucket).calls == old(bucket).calls,
{
    let ghost before = bucket.shard_keys();
    proof {
        lemma_with_key(before[shard_id as int], object@);
    }
    bucket.shards[shard_id].insert(String::from_str(object));
    proof {
        let after = bucket.shard_keys();
        assert(after =~= before.update(shard_id as int, with_key(before[shard_id as int], object@)));
        assert forall|i: int, j: int| 0 <= i < after.len() && 0 <= j < after[i].len() implies shard_of_key(
            #[trigger] after[i][j],
            after.len(),
        ) == i by {
            if i == shard_id {
                let grown = with_key(before[i], object@);
                assert(after[i] == grown);
                assert(grown.contains(grown[j]));
                if after[i][j] != object@ {
                    assert(before[i].contains(grown[j]));
                    let k = choose|k: int| 0 <= k < before[i].len() && before[i][k] == after[i][j];
                    assert(shard_of_key(before[i][k], before.len()) == i);
                }
            } else {
                assert(after[i][j] == before[i][j]);
            }
        }
    }
}

/// Adds the key `object` to the bucket, on the shard that its MD5 digest
/// selects.
pub fn add_to_bucket(bucket: &mut Bucket, object: &str)
    requires
        old(bucket).wf(),
        old(bucket).shards@.len() > 0,
    ensures
        final(bucket).wf(),
        final(bucket).shards@.len() == old(bucket).shards@.len(),
        final(bucket).shard_keys() == old(bucket).shard_keys().update(
            shard_of_key(object@, old(bucket).shards@.len()) as int,
            with_key(
                old(bucket).shard_keys()[shard_of_key(object@, old(bucket).shards@.len()) as int],
                object@,
            ),
        ),
        final(bucket).rows_read == old(bucket).rows_read,
        final(bucket).queries == old(bucket).queries,
        final(bucket).calls == old(bucket).calls,
{
    let digest = digest_of(object);
    let shard_id = shard_of_digest(&digest, bucket.shards.len());
    add_to_shard(bucket, shard_id, object);
}

} // verus!
