//! The sizes that the rounds of a listing aim for.

use crate::listing::MAX_ROUNDS;
use vstd::prelude::*;

verus! {

/// The number of entries that the round with the number `attempt` aims to
/// read over all shards: the larger of the page size and the read-ahead hint
/// in the first round, one less in each later round, and never less than
/// zero.
pub open spec fn round_target(max_keys: nat, read_ahead: nat, attempt: nat) -> nat {
    let to_read = if max_keys >= read_ahead {
        max_keys
    } else {
        read_ahead
    };
    if to_read + 1 >= attempt {
        (to_read + 1 - attempt) as nat
    } else {
        0
    }
}

/// The targets of all rounds, the first round's first. The per-shard estimate
/// of a round is sized from its target and the number of shards.
pub fn request_targets(max_keys: usize, read_ahead: usize) -> (targets: [usize; MAX_ROUNDS])
    ensures
        forall|i: int|
            0 <= i < MAX_ROUNDS ==> #[trigger] targets@[i] == round_target(
                max_keys as nat,
                read_ahead as nat,
                (i + 1) as nat,
            ),
{
    let to_read: usize = if max_keys >= read_ahead {
        max_keys
    } else {
        read_ahead
    };
    let mut targets: [usize; MAX_ROUNDS] = [0; MAX_ROUNDS];
    let mut i: usize = 0;
    while i < MAX_ROUNDS
        invariant
            i <= MAX_ROUNDS,
            to_read == if max_keys >= read_ahead {
                max_keys
            } else {
                read_ahead
            },
            forall|j: int|
                0 <= j < i ==> #[trigger] targets@[j] == round_target(
                    max_keys as nat,
                    read_ahead as nat,
                    (j + 1) as nat,
                ),
        decreases MAX_ROUNDS - i,
    {
        targets[i] = to_read.saturating_sub(i);
        i += 1;
    }
    targets
}

} // verus!
