//! The query that one shard answers: a ranged scan from a cursor, with
//! delimiter collapsing, repeated until an output quota is met.

use crate::bucket::Bucket;
use crate::key::{
    cursor_past_group, group_prefix, has_delimiter, lemma_less_total, past_group, split_prefix,
};
use crate::shard::{first_after, strictly_sorted, Shard};
use crate::plain::{lemma_shard_page_plain, plain_count};
use crate::shard_order::{lemma_shard_page_bounded, lemma_shard_page_ordered, stands_for};
use std::collections::VecDeque;
use vstd::prelude::*;
use vstd::string::*;

verus! {

/// Most scans that a shard makes to answer one query.
pub const MAX_SCANS: usize = 8;

/// What a shard returns: output items in order, and whether matching entries
/// exist behind the last of them.
#[derive(Debug)]
pub struct ListResult {
    pub keys: VecDeque<String>,
    pub is_truncated: bool,
}

impl ListResult {
    /// The output items as character sequences.
    pub open spec fn items(&self) -> Seq<Seq<char>> {
        Seq::new(self.keys@.len(), |i: int| self.keys@[i]@)
    }
}

/// The characters of an optional string.
pub open spec fn text_of(s: Option<String>) -> Option<Seq<char>> {
    match s {
        Some(t) => Some(t@),
        None => None,
    }
}

/// `n` as a counter holds it: counters stop at the largest `usize`.
pub open spec fn saturated(n: int) -> usize {
    if n > usize::MAX {
        usize::MAX
    } else {
        n as usize
    }
}

/// The state after a batch of rows: the items put out so far, the prefix that
/// is remembered, and whether the quota was reached.
pub struct Emitted {
    pub items: Seq<Seq<char>>,
    pub previous: Option<Seq<char>>,
    pub full: bool,
}

/// Processing one row. With a delimiter that the row holds, the row stands for
/// its prefix: a prefix equal to the remembered one puts out nothing, another
/// is put out and remembered. A row without the delimiter is put out as it is
/// and clears the memory. Without a delimiter every row is put out.
pub open spec fn emit_row(
    row: Seq<char>,
    delimiter: Option<char>,
    items: Seq<Seq<char>>,
    previous: Option<Seq<char>>,
) -> (Seq<Seq<char>>, Option<Seq<char>>) {
    match delimiter {
        Some(d) => if has_delimiter(row, d) {
            let p = group_prefix(row, d);
            if previous == Some(p) {
                (items, previous)
            } else {
                (items.push(p), Some(p))
            }
        } else {
            (items.push(row), None)
        },
        None => (items.push(row), previous),
    }
}

/// Processing the rows `keys[i..end]` in order, stopping as soon as a row has
/// been put out that brings the items to `quota`.
pub open spec fn emit_rows(
    keys: Seq<Seq<char>>,
    delimiter: Option<char>,
    quota: nat,
    i: nat,
    end: nat,
    items: Seq<Seq<char>>,
    previous: Option<Seq<char>>,
) -> Emitted
    decreases end - i,
{
    if i >= end {
        Emitted { items, previous, full: false }
    } else {
        let next = emit_row(keys[i as int], delimiter, items, previous);
        if next.0.len() > items.len() && next.0.len() >= quota {
            Emitted { items: next.0, previous: next.1, full: true }
        } else {
            emit_rows(keys, delimiter, quota, i + 1, end, next.0, next.1)
        }
    }
}

/// The answer of a shard, with the work it took: the rows that its scans
/// returned and the number of scans that returned any.
pub struct ShardPage {
    pub items: Seq<Seq<char>>,
    pub truncated: bool,
    pub rows: nat,
    pub scans: nat,
}

/// The number of rows that the scan with the number `attempt` returns: it asks
/// for `quota + 1 - attempt` rows behind the cursor and gets those that exist.
pub open spec fn rows_scanned(keys: Seq<Seq<char>>, cursor: Seq<char>, quota: nat, attempt: nat) -> int {
    let wanted = quota + 1 - attempt;
    let available = keys.len() - first_after(keys, cursor);
    if wanted <= 0 {
        0
    } else if wanted < available {
        wanted
    } else {
        available
    }
}

/// The scans of a query from the one with the number `attempt` on. A scan that
/// returns no row ends the query, which is then not truncated. Otherwise the
/// query is truncated unless the last row scanned is the shard's last key. The
/// rows are processed in order; the query ends when the quota is reached or
/// after `MAX_SCANS` scans. The next scan starts behind the whole group of the
/// remembered prefix, if one is remembered, else behind the last row scanned.
pub open spec fn scan_rounds(
    keys: Seq<Seq<char>>,
    delimiter: Option<char>,
    quota: nat,
    attempt: nat,
    cursor: Seq<char>,
    items: Seq<Seq<char>>,
    previous: Option<Seq<char>>,
    truncated: bool,
    rows: nat,
    scans: nat,
) -> ShardPage
    decreases MAX_SCANS + 1 - attempt,
{
    if attempt > MAX_SCANS {
        ShardPage { items, truncated, rows, scans }
    } else {
        let start = first_after(keys, cursor);
        let n = rows_scanned(keys, cursor, quota, attempt);
        if n <= 0 {
            ShardPage { items, truncated: false, rows, scans }
        } else {
            let last = keys[start + n - 1];
            let more = last != keys.last();
            let batch = emit_rows(keys, delimiter, quota, start, (start + n) as nat, items, previous);
            if batch.full {
                ShardPage { items: batch.items, truncated: more, rows: (rows + n) as nat, scans: scans + 1 }
            } else {
                let next_cursor = if delimiter is Some && batch.previous is Some {
                    past_group(batch.previous->0)
                } else {
                    last
                };
                scan_rounds(
                    keys,
                    delimiter,
                    quota,
                    attempt + 1,
                    next_cursor,
                    batch.items,
                    batch.previous,
                    more,
                    (rows + n) as nat,
                    scans + 1,
                )
            }
        }
    }
}

/// The answer of a shard with the keys `keys` to a query for `quota` items
/// behind `cursor`.
pub open spec fn shard_page(
    keys: Seq<Seq<char>>,
    cursor: Seq<char>,
    delimiter: Option<char>,
    quota: nat,
) -> ShardPage {
    scan_rounds(keys, delimiter, quota, 1, cursor, Seq::empty(), None, false, 0, 0)
}

/// Processes the rows `start..end` of `shard` into `result`, and says whether
/// the quota was reached.
fn emit_batch(
    shard: &Shard,
    start: usize,
    end: usize,
    delimiter: Option<char>,
    quota: usize,
    result: &mut ListResult,
    previous: &mut Option<String>,
) -> (full: bool)
    requires
        start <= end <= shard@.len(),
    ensures
        final(result).is_truncated == old(result).is_truncated,
        emit_rows(
            shard@,
            delimiter,
            quota as nat,
            start as nat,
            end as nat,
            old(result).items(),
            text_of(*old(previous)),
        ) == (Emitted {
            items: final(result).items(),
            previous: text_of(*final(previous)),
            full,
        }),
{
    let ghost goal = emit_rows(
        shard@,
        delimiter,
        quota as nat,
        start as nat,
        end as nat,
        result.items(),
        text_of(*previous),
    );
    let mut i: usize = start;
    while i < end
        invariant
            start <= i <= end <= shard@.len(),
            result.is_truncated == old(result).is_truncated,
            goal == emit_rows(
                shard@,
                delimiter,
                quota as nat,
                start as nat,
                end as nat,
                old(result).items(),
                text_of(*old(previous)),
            ),
            goal == emit_rows(
                shard@,
                delimiter,
                quota as nat,
                i as nat,
                end as nat,
                result.items(),
                text_of(*previous),
            ),
        decreases end - i,
    {
        let key: &String = shard.key(i);
        let ghost items = result.items();
        let ghost remembered = text_of(*previous);
        let mut pushed = false;
        match delimiter {
            Some(d) => match split_prefix(key.as_str(), d) {
                Some(p) => {
                    let same = match previous {
                        Some(q) => *q == p,
                        None => false,
                    };
                    if !same {
                        result.keys.push_back(p.clone());
                        *previous = Some(p);
                        pushed = true;
                    }
                },
                None => {
                    result.keys.push_back(key.clone());
                    *previous = None;
                    pushed = true;
                },
            },
            None => {
                result.keys.push_back(key.clone());
                pushed = true;
            },
        }
        proof {
            let next = emit_row(shard@[i as int], delimiter, items, remembered);
            if pushed {
                assert(result.items() =~= items.push(result.items().last()));
            } else {
                assert(result.items() =~= items);
            }
            assert(next.0 == result.items());
            assert(next.1 == text_of(*previous));
        }
        if pushed && result.keys.len() >= quota {
            return true;
        }
        i += 1;
    }
    false
}

/// Lists the shard with the number `shard_id` from the cursor `start`: up to
/// `num_entries` keys, or prefixes through `delimiter`, in order, and whether
/// more exist behind them. Counts the rows scanned and the scans on `bucket`.
pub fn rgw_list(
    bucket: &mut Bucket,
    shard_id: usize,
    start: &str,
    num_entries: usize,
    delimiter: Option<char>,
) -> (res: ListResult)
    requires
        old(bucket).wf(),
        shard_id < old(bucket).shards@.len(),
    ensures
        final(bucket).shards@ == old(bucket).shards@,
        final(bucket).calls == old(bucket).calls,
        res.keys@.len() <= num_entries,
        strictly_sorted(res.items()),
        forall|t: int|
            0 <= t < res.keys@.len() ==> stands_for(
                old(bucket).shards@[shard_id as int]@,
                delimiter,
                #[trigger] res.items()[t],
            ),
        delimiter is None ==> {
            &&& res.items() == old(bucket).shards@[shard_id as int]@.subrange(
                first_after(old(bucket).shards@[shard_id as int]@, start@) as int,
                first_after(old(bucket).shards@[shard_id as int]@, start@) as int + res.keys@.len() as int,
            )
            &&& res.keys@.len() == plain_count(
                old(bucket).shards@[shard_id as int]@,
                start@,
                num_entries as nat,
            )
            &&& (res.is_truncated <==> 0 < num_entries < old(bucket).shards@[shard_id as int]@.len()
                - first_after(old(bucket).shards@[shard_id as int]@, start@))
        },
        res.items() == shard_page(
            old(bucket).shards@[shard_id as int]@,
            start@,
            delimiter,
            num_entries as nat,
        ).items,
        res.is_truncated == shard_page(
            old(bucket).shards@[shard_id as int]@,
            start@,
            delimiter,
            num_entries as nat,
        ).truncated,
        final(bucket).rows_read == saturated(
            old(bucket).rows_read + shard_page(
                old(bucket).shards@[shard_id as int]@,
                start@,
                delimiter,
                num_entries as nat,
            ).rows,
        ),
        final(bucket).queries == saturated(
            old(bucket).queries + shard_page(
                old(bucket).shards@[shard_id as int]@,
                start@,
                delimiter,
                num_entries as nat,
            ).scans,
        ),
{
    let shard: &Shard = &bucket.shards[shard_id];
    let ghost keys = shard@;
    let ghost goal = shard_page(keys, start@, delimiter, num_entries as nat);
    proof {
        lemma_shard_page_ordered(keys, start@, delimiter, num_entries as nat);
        lemma_shard_page_bounded(keys, start@, delimiter, num_entries as nat);
        if delimiter is None {
            lemma_shard_page_plain(keys, start@, num_entries as nat);
        }
    }
    let mut result = ListResult { keys: VecDeque::new(), is_truncated: false };
    let mut previous: Option<String> = None;
    let mut last_key: String = String::from_str(start);
    let mut rows_read: usize = bucket.rows_read;
    let mut queries: usize = bucket.queries;
    let ghost mut rows: nat = 0;
    let ghost mut scans: nat = 0;
    let mut attempt: usize = 1;
    assert(result.items() =~= Seq::<Seq<char>>::empty());
    while attempt <= MAX_SCANS
        invariant_except_break
            rows_read == saturated(old(bucket).rows_read + rows),
            queries == saturated(old(bucket).queries + scans),
            goal == scan_rounds(
                keys,
                delimiter,
                num_entries as nat,
                attempt as nat,
                last_key@,
                result.items(),
                text_of(previous),
                result.is_truncated,
                rows,
                scans,
            ),
        invariant
            1 <= attempt <= MAX_SCANS + 1,
            attempt - 1 <= num_entries,
            shard@ == keys,
            shard.wf(),
        ensures
            goal == (ShardPage { items: result.items(), truncated: result.is_truncated, rows, scans }),
            rows_read == saturated(old(bucket).rows_read + rows),
            queries == saturated(old(bucket).queries + scans),
        decreases MAX_SCANS + 1 - attempt,
    {
        let first: usize = shard.first_after(last_key.as_str());
        let wanted: usize = num_entries - (attempt - 1);
        let available: usize = shard.len() - first;
        let n: usize = if wanted < available { wanted } else { available };
        assert(n == rows_scanned(keys, last_key@, num_entries as nat, attempt as nat));
        if n == 0 {
            result.is_truncated = false;
            break;
        }
        let last: usize = first + n - 1;
        proof {
            if last < keys.len() - 1 {
                lemma_less_total(keys[last as int], keys.last());
            }
        }
        result.is_truncated = last + 1 < shard.len();
        rows_read = rows_read.saturating_add(n);
        queries = queries.saturating_add(1);
        proof {
            rows = rows + n as nat;
            scans = scans + 1;
        }
        let full = emit_batch(shard, first, first + n, delimiter, num_entries, &mut result, &mut previous);
        if full {
            break;
        }
        last_key = match (&delimiter, &previous) {
            (Some(_), Some(p)) => cursor_past_group(p.as_str()),
            _ => shard.key(last).clone(),
        };
        attempt += 1;
    }
    bucket.rows_read = rows_read;
    bucket.queries = queries;
    result
}

} // verus!
