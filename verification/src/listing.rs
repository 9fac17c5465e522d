//! The coordinator: rounds of shard queries, merged into one ordered page.

use crate::bucket::Bucket;
use crate::key::{
    cursor_for_start, cursor_past_group, group_prefix, has_delimiter, key_less, past_group,
    split_prefix, start_cursor, str_less,
};
use crate::page_order::{lemma_page_ordered, listed_form};
use crate::plain::{all_behind, complete, gap_free, lemma_plain_page};
use crate::shard::strictly_sorted;
use crate::shard_query::{rgw_list, saturated, shard_page, text_of, ListResult};
use vstd::prelude::*;
use vstd::string::*;

verus! {

/// Most rounds of shard queries that one listing makes.
pub const MAX_ROUNDS: usize = 8;

/// The least number of entries that a shard is asked for.
pub const MIN_SHARD_QUOTA: usize = 8;

/// Why a listing failed.
#[derive(Debug, Clone, Copy, PartialEq, Eq, Structural)]
pub enum ListError {
    /// In delimiter mode a round ended with no prefix remembered, so there is
    /// no prefix group behind which the next round could start.
    MissingPrefix,
}

/// What is left of a shard's answer during a merge: the items not merged yet,
/// and whether the shard has more behind them.
pub struct Buffer {
    pub items: Seq<Seq<char>>,
    pub truncated: bool,
}

/// The buffer that a shard's answer fills.
pub open spec fn buffer_of(page: ListResult) -> Buffer {
    Buffer { items: page.items(), truncated: page.is_truncated }
}

/// The buffers that the answers `pages` fill.
pub open spec fn buffers_of(pages: Seq<ListResult>) -> Seq<Buffer> {
    Seq::new(pages.len(), |i: int| buffer_of(pages[i]))
}

/// The per-shard quota of a round for which `estimate` entries per shard were
/// estimated: the estimate, but at least `MIN_SHARD_QUOTA`.
pub open spec fn shard_quota(estimate: usize) -> usize {
    if estimate < MIN_SHARD_QUOTA {
        MIN_SHARD_QUOTA
    } else {
        estimate
    }
}

/// The buffers after every shard has been asked for `quota` items behind
/// `cursor`.
pub open spec fn round_buffers(
    shards: Seq<Seq<Seq<char>>>,
    cursor: Seq<char>,
    delimiter: Option<char>,
    quota: nat,
) -> Seq<Buffer> {
    Seq::new(
        shards.len(),
        |i: int|
            Buffer {
                items: shard_page(shards[i], cursor, delimiter, quota).items,
                truncated: shard_page(shards[i], cursor, delimiter, quota).truncated,
            },
    )
}

/// The rows that the first `n` shards scan in such a round.
pub open spec fn round_rows(
    shards: Seq<Seq<Seq<char>>>,
    cursor: Seq<char>,
    delimiter: Option<char>,
    quota: nat,
    n: nat,
) -> nat
    decreases n,
{
    if n == 0 {
        0
    } else {
        round_rows(shards, cursor, delimiter, quota, (n - 1) as nat) + shard_page(
            shards[n - 1],
            cursor,
            delimiter,
            quota,
        ).rows
    }
}

/// The scans that the first `n` shards make in such a round.
pub open spec fn round_scans(
    shards: Seq<Seq<Seq<char>>>,
    cursor: Seq<char>,
    delimiter: Option<char>,
    quota: nat,
    n: nat,
) -> nat
    decreases n,
{
    if n == 0 {
        0
    } else {
        round_scans(shards, cursor, delimiter, quota, (n - 1) as nat) + shard_page(
            shards[n - 1],
            cursor,
            delimiter,
            quota,
        ).scans
    }
}

/// Whether some shard reported that it has more.
pub open spec fn any_truncated(buffers: Seq<Buffer>) -> bool {
    exists|i: int| 0 <= i < buffers.len() && (#[trigger] buffers[i]).truncated
}

/// The choice of the next buffer to take from, looking at the buffers from `i`
/// on with `best` the choice among those before: `None` where an empty buffer
/// of a truncated shard is met, or where every buffer is empty; else the
/// buffer whose first item sorts first, the earliest of them among equals.
pub open spec fn pick_from(buffers: Seq<Buffer>, i: nat, best: Option<int>) -> Option<int>
    decreases buffers.len() - i,
{
    if i >= buffers.len() {
        best
    } else if buffers[i as int].items.len() == 0 {
        if buffers[i as int].truncated {
            None
        } else {
            pick_from(buffers, i + 1, best)
        }
    } else {
        let better = match best {
            Some(b) => key_less(buffers[i as int].items[0], buffers[b].items[0]),
            None => true,
        };
        pick_from(
            buffers,
            i + 1,
            if better {
                Some(i as int)
            } else {
                best
            },
        )
    }
}

/// The buffer from which the merge takes next, or `None` where it halts.
pub open spec fn pick(buffers: Seq<Buffer>) -> Option<int> {
    pick_from(buffers, 0, None)
}

/// The number of items in all buffers.
pub open spec fn buffered(buffers: Seq<Buffer>) -> nat
    decreases buffers.len(),
{
    if buffers.len() == 0 {
        0
    } else {
        buffered(buffers.drop_last()) + buffers.last().items.len()
    }
}

/// `buffers` with the first item of buffer `i` taken out.
pub open spec fn popped(buffers: Seq<Buffer>, i: int) -> Seq<Buffer> {
    buffers.update(i, Buffer { items: buffers[i].items.drop_first(), truncated: buffers[i].truncated })
}

/// Merging one item into the page. Without a delimiter it is appended. With a
/// delimiter that it holds, it stands for its prefix, which is appended and
/// remembered unless it is the remembered one. With a delimiter that it does
/// not hold, nothing is appended and the memory is cleared.
pub open spec fn merge_item(
    item: Seq<char>,
    delimiter: Option<char>,
    items: Seq<Seq<char>>,
    previous: Option<Seq<char>>,
) -> (Seq<Seq<char>>, Option<Seq<char>>) {
    match delimiter {
        Some(d) => if has_delimiter(item, d) {
            let p = group_prefix(item, d);
            if previous == Some(p) {
                (items, previous)
            } else {
                (items.push(p), Some(p))
            }
        } else {
            (items, None)
        },
        None => (items.push(item), previous),
    }
}

/// The state after the merge of a round.
pub struct Merged {
    pub items: Seq<Seq<char>>,
    pub previous: Option<Seq<char>>,
    pub full: bool,
}

proof fn lemma_pick_from(buffers: Seq<Buffer>, i: nat, best: Option<int>)
    requires
        best matches Some(b) ==> 0 <= b < buffers.len() && buffers[b].items.len() > 0,
    ensures
        pick_from(buffers, i, best) matches Some(p) ==> 0 <= p < buffers.len() && buffers[p].items.len()
            > 0,
    decreases buffers.len() - i,
{
    if i >= buffers.len() {
    } else if buffers[i as int].items.len() == 0 {
        if !buffers[i as int].truncated {
            lemma_pick_from(buffers, i + 1, best);
        }
    } else {
        let better = match best {
            Some(b) => key_less(buffers[i as int].items[0], buffers[b].items[0]),
            None => true,
        };
        lemma_pick_from(buffers, i + 1, if better { Some(i as int) } else { best });
    }
}

/// The buffer that is picked exists and is not empty.
pub proof fn lemma_pick(buffers: Seq<Buffer>)
    ensures
        pick(buffers) matches Some(p) ==> 0 <= p < buffers.len() && buffers[p].items.len() > 0,
{
    lemma_pick_from(buffers, 0, None);
}

/// Taking an item out of a buffer leaves one item less.
pub proof fn lemma_buffered_popped(buffers: Seq<Buffer>, i: int)
    requires
        0 <= i < buffers.len(),
        buffers[i].items.len() > 0,
    ensures
        buffered(popped(buffers, i)) + 1 == buffered(buffers),
    decreases buffers.len(),
{
    let after = popped(buffers, i);
    if i == buffers.len() - 1 {
        assert(after.drop_last() =~= buffers.drop_last());
    } else {
        lemma_buffered_popped(buffers.drop_last(), i);
        assert(after.drop_last() =~= popped(buffers.drop_last(), i));
    }
}

/// The merge of a round: as long as the page holds fewer than `max_keys`
/// items, the item that sorts first among the buffers' first items is taken
/// out and merged in. The merge halts where no buffer is picked. It is `full`
/// where the page reached `max_keys`.
pub open spec fn merge(
    buffers: Seq<Buffer>,
    delimiter: Option<char>,
    max_keys: nat,
    items: Seq<Seq<char>>,
    previous: Option<Seq<char>>,
) -> Merged
    decreases buffered(buffers),
{
    if items.len() >= max_keys {
        Merged { items, previous, full: true }
    } else {
        match pick(buffers) {
            None => Merged { items, previous, full: false },
            Some(i) => {
                proof {
                    lemma_pick(buffers);
                    lemma_buffered_popped(buffers, i);
                }
                let next = merge_item(buffers[i].items[0], delimiter, items, previous);
                merge(popped(buffers, i), delimiter, max_keys, next.0, next.1)
            },
        }
    }
}

/// A page, or the failure of the listing, with the work that it took: shard
/// requests, rows scanned and scans.
pub struct ListOutcome {
    pub page: Result<(Seq<Seq<char>>, bool), ListError>,
    pub calls: nat,
    pub rows: nat,
    pub scans: nat,
}

/// The rounds of a listing from the one with the number `attempt` on.
///
/// A round asks every shard for `shard_quota` of the round's estimate behind
/// the cursor and merges the answers into the page. The page is truncated
/// where a shard of the round was. The listing ends: where the page reached
/// `max_keys`; with `MissingPrefix`, in delimiter mode, where no prefix is
/// remembered after the merge; where the page is still empty; where the page
/// holds at least half of `max_keys`, rounded up; and after `MAX_ROUNDS`
/// rounds. Else the next round starts behind the whole group of the
/// remembered prefix in delimiter mode, and behind the last item without one.
pub open spec fn list_rounds(
    shards: Seq<Seq<Seq<char>>>,
    delimiter: Option<char>,
    max_keys: nat,
    estimates: Seq<usize>,
    attempt: nat,
    cursor: Seq<char>,
    items: Seq<Seq<char>>,
    previous: Option<Seq<char>>,
    calls: nat,
    rows: nat,
    scans: nat,
) -> ListOutcome
    decreases MAX_ROUNDS + 1 - attempt,
{
    let quota = shard_quota(estimates[attempt - 1]) as nat;
    let buffers = round_buffers(shards, cursor, delimiter, quota);
    let truncated = any_truncated(buffers);
    let merged = merge(buffers, delimiter, max_keys, items, previous);
    let calls = calls + shards.len();
    let rows = rows + round_rows(shards, cursor, delimiter, quota, shards.len());
    let scans = scans + round_scans(shards, cursor, delimiter, quota, shards.len());
    if delimiter is Some && merged.previous is None && !merged.full {
        ListOutcome { page: Err(ListError::MissingPrefix), calls, rows, scans }
    } else if merged.full || merged.items.len() == 0 || merged.items.len() >= (max_keys + 1) / 2
        || attempt >= MAX_ROUNDS {
        ListOutcome { page: Ok((merged.items, truncated)), calls, rows, scans }
    } else {
        let next_cursor = if delimiter is Some {
            past_group(merged.previous->0)
        } else {
            merged.items.last()
        };
        list_rounds(
            shards,
            delimiter,
            max_keys,
            estimates,
            attempt + 1,
            next_cursor,
            merged.items,
            merged.previous,
            calls,
            rows,
            scans,
        )
    }
}

/// The listing of a bucket with the shards `shards`: up to `max_keys` items
/// behind `start`, with the per-shard estimates `estimates`, one for each
/// round.
pub open spec fn listing(
    shards: Seq<Seq<Seq<char>>>,
    start: Seq<char>,
    delimiter: Option<char>,
    max_keys: nat,
    estimates: Seq<usize>,
) -> ListOutcome {
    list_rounds(
        shards,
        delimiter,
        max_keys,
        estimates,
        1,
        start_cursor(start, delimiter),
        Seq::empty(),
        None,
        0,
        0,
        0,
    )
}

/// The page of a listing as character sequences.
pub open spec fn page_of(res: Result<(Vec<String>, bool), ListError>) -> Result<
    (Seq<Seq<char>>, bool),
    ListError,
> {
    match res {
        Ok(page) => Ok((texts(page.0@), page.1)),
        Err(e) => Err(e),
    }
}

/// The items of a page as character sequences.
pub open spec fn texts(items: Seq<String>) -> Seq<Seq<char>> {
    Seq::new(items.len(), |i: int| items[i]@)
}

/// The per-shard quota for an estimate.
pub fn quota_for(estimate: usize) -> (quota: usize)
    ensures
        quota == shard_quota(estimate),
{
    if estimate < MIN_SHARD_QUOTA {
        MIN_SHARD_QUOTA
    } else {
        estimate
    }
}

/// Asks every shard of `bucket` for `quota` items behind `cursor`, and counts
/// one shard request for each.
fn query_shards(bucket: &mut Bucket, cursor: &str, quota: usize, delimiter: Option<char>) -> (res: (
    Vec<ListResult>,
    bool,
))
    requires
        old(bucket).wf(),
    ensures
        final(bucket).shards@ == old(bucket).shards@,
        buffers_of(res.0@) == round_buffers(old(bucket).shard_keys(), cursor@, delimiter, quota as nat),
        res.1 == any_truncated(buffers_of(res.0@)),
        final(bucket).calls == saturated(old(bucket).calls + old(bucket).shards@.len()),
        final(bucket).rows_read == saturated(
            old(bucket).rows_read + round_rows(
                old(bucket).shard_keys(),
                cursor@,
                delimiter,
                quota as nat,
                old(bucket).shards@.len() as nat,
            ),
        ),
        final(bucket).queries == saturated(
            old(bucket).queries + round_scans(
                old(bucket).shard_keys(),
                cursor@,
                delimiter,
                quota as nat,
                old(bucket).shards@.len() as nat,
            ),
        ),
{
    let ghost shards = bucket.shard_keys();
    let ghost goal = round_buffers(shards, cursor@, delimiter, quota as nat);
    let mut pages: Vec<ListResult> = Vec::new();
    let mut truncated = false;
    let mut i: usize = 0;
    while i < bucket.shards.len()
        invariant
            i <= bucket.shards@.len(),
            bucket.wf(),
            bucket.shards@ == old(bucket).shards@,
            shards == old(bucket).shard_keys(),
            goal == round_buffers(shards, cursor@, delimiter, quota as nat),
            pages@.len() == i,
            forall|j: int| 0 <= j < i ==> buffer_of(#[trigger] pages@[j]) == goal[j],
            truncated == (exists|j: int| 0 <= j < i && (#[trigger] goal[j]).truncated),
            bucket.calls == saturated(old(bucket).calls + i),
            bucket.rows_read == saturated(
                old(bucket).rows_read + round_rows(shards, cursor@, delimiter, quota as nat, i as nat),
            ),
            bucket.queries == saturated(
                old(bucket).queries + round_scans(shards, cursor@, delimiter, quota as nat, i as nat),
            ),
        decreases bucket.shards@.len() - i,
    {
        let page = rgw_list(bucket, i, cursor, quota, delimiter);
        assert(shards[i as int] == bucket.shards@[i as int]@);
        assert(buffer_of(page) == goal[i as int]);
        if page.is_truncated {
            truncated = true;
        }
        bucket.calls = bucket.calls.saturating_add(1);
        pages.push(page);
        i += 1;
    }
    assert(buffers_of(pages@) =~= goal);
    (pages, truncated)
}

/// Picks the buffer from which the merge takes next.
fn pick_page(pages: &Vec<ListResult>) -> (res: Option<usize>)
    ensures
        res matches Some(p) ==> pick(buffers_of(pages@)) == Some(p as int) && p < pages@.len()
            && pages@[p as int].keys@.len() > 0,
        res is None ==> pick(buffers_of(pages@)) is None,
{
    let ghost buffers = buffers_of(pages@);
    let mut best: Option<usize> = None;
    let mut i: usize = 0;
    while i < pages.len()
        invariant
            i <= pages@.len(),
            buffers == buffers_of(pages@),
            best matches Some(b) ==> b < i && buffers[b as int].items.len() > 0,
            pick(buffers) == pick_from(
                buffers,
                i as nat,
                match best {
                    Some(b) => Some(b as int),
                    None => None,
                },
            ),
        decreases pages@.len() - i,
    {
        if pages[i].keys.len() == 0 {
            if pages[i].is_truncated {
                return None;
            }
        } else {
            let better = match best {
                Some(b) => str_less(pages[i].keys[0].as_str(), pages[b].keys[0].as_str()),
                None => true,
            };
            if better {
                best = Some(i);
            }
        }
        i += 1;
    }
    best
}

/// Merges the answers `pages` into `result` until the page holds `max_keys`
/// items or the merge halts, and says whether the page is full.
fn merge_pages(
    pages: &mut Vec<ListResult>,
    delimiter: Option<char>,
    max_keys: usize,
    result: &mut Vec<String>,
    previous: &mut Option<String>,
) -> (full: bool)
    ensures
        merge(
            buffers_of(old(pages)@),
            delimiter,
            max_keys as nat,
            texts(old(result)@),
            text_of(*old(previous)),
        ) == (Merged { items: texts(final(result)@), previous: text_of(*final(previous)), full }),
{
    let ghost goal = merge(
        buffers_of(pages@),
        delimiter,
        max_keys as nat,
        texts(result@),
        text_of(*previous),
    );
    loop
        invariant
            goal == merge(
                buffers_of(pages@),
                delimiter,
                max_keys as nat,
                texts(result@),
                text_of(*previous),
            ),
            goal == merge(
                buffers_of(old(pages)@),
                delimiter,
                max_keys as nat,
                texts(old(result)@),
                text_of(*old(previous)),
            ),
        decreases buffered(buffers_of(pages@)),
    {
        if result.len() >= max_keys {
            return true;
        }
        let ghost buffers = buffers_of(pages@);
        let ghost items = texts(result@);
        let ghost remembered = text_of(*previous);
        let ghost before = pages@;
        let index: usize = match pick_page(pages) {
            Some(index) => index,
            None => {
                return false;
            },
        };
        let first: Option<String> = pages[index].keys.pop_front();
        let key: String = first.unwrap();
        proof {
            lemma_buffered_popped(buffers, index as int);
            assert(pages@.len() == before.len());
            assert(forall|j: int| 0 <= j < before.len() && j != index ==> pages@[j] == before[j]);
            assert(pages@[index as int].is_truncated == before[index as int].is_truncated);
            assert(pages@[index as int].items() =~= before[index as int].items().drop_first());
            assert(buffers_of(pages@) =~= popped(buffers, index as int));
            assert(key@ == buffers[index as int].items[0]);
        }
        match delimiter {
            Some(d) => match split_prefix(key.as_str(), d) {
                Some(p) => {
                    let same = match previous {
                        Some(q) => *q == p,
                        None => false,
                    };
                    if !same {
                        result.push(p.clone());
                        *previous = Some(p);
                    }
                },
                None => {
                    *previous = None;
                },
            },
            None => {
                result.push(key);
            },
        }
        proof {
            let next = merge_item(key@, delimiter, items, remembered);
            if texts(result@).len() > items.len() {
                assert(texts(result@) =~= items.push(texts(result@).last()));
            } else {
                assert(texts(result@) =~= items);
            }
            assert(next.0 == texts(result@));
            assert(next.1 == text_of(*previous));
        }
    }
}

/// Whether a page of `len` items holds at least half of `max_keys`, rounded
/// up.
fn holds_half(len: usize, max_keys: usize) -> (r: bool)
    ensures
        r == (len >= (max_keys + 1) / 2),
{
    len >= max_keys / 2 + max_keys % 2
}

/// Lists `bucket` behind `start`: up to `max_keys` keys, or prefixes through
/// `delimiter`, in order, and whether more exist behind them.
///
/// `estimates` holds, for each round, the number of entries per shard that a
/// single round needs to be likely to fill the page; each shard is asked for
/// that many, but at least `MIN_SHARD_QUOTA`. Counts the work on `bucket`.
pub fn list(
    bucket: &mut Bucket,
    start: &str,
    delimiter: Option<char>,
    max_keys: usize,
    estimates: &[usize; MAX_ROUNDS],
) -> (res: Result<(Vec<String>, bool), ListError>)
    requires
        old(bucket).wf(),
    ensures
        final(bucket).shards@ == old(bucket).shards@,
        page_of(res) == listing(
            old(bucket).shard_keys(),
            start@,
            delimiter,
            max_keys as nat,
            estimates@,
        ).page,
        delimiter is None ==> res is Ok,
        res matches Ok(page) ==> {
            &&& page.0@.len() <= max_keys
            &&& strictly_sorted(texts(page.0@))
            &&& forall|t: int|
                0 <= t < page.0@.len() ==> listed_form(
                    old(bucket).shard_keys(),
                    delimiter,
                    #[trigger] texts(page.0@)[t],
                )
        },
        delimiter is None ==> (res matches Ok(page) ==> {
            &&& all_behind(start@, texts(page.0@))
            &&& gap_free(old(bucket).shard_keys(), start@, texts(page.0@))
            &&& (!page.1 && page.0@.len() < max_keys ==> complete(
                old(bucket).shard_keys(),
                start@,
                texts(page.0@),
            ))
        }),
        final(bucket).calls == saturated(
            old(bucket).calls + listing(
                old(bucket).shard_keys(),
                start@,
                delimiter,
                max_keys as nat,
                estimates@,
            ).calls,
        ),
        final(bucket).rows_read == saturated(
            old(bucket).rows_read + listing(
                old(bucket).shard_keys(),
                start@,
                delimiter,
                max_keys as nat,
                estimates@,
            ).rows,
        ),
        final(bucket).queries == saturated(
            old(bucket).queries + listing(
                old(bucket).shard_keys(),
                start@,
                delimiter,
                max_keys as nat,
                estimates@,
            ).scans,
        ),
{
    let ghost shards = bucket.shard_keys();
    let ghost goal = listing(shards, start@, delimiter, max_keys as nat, estimates@);
    proof {
        lemma_page_ordered(shards, start@, delimiter, max_keys as nat, estimates@);
        if delimiter is None {
            lemma_plain_page(shards, start@, max_keys as nat, estimates@);
        }
    }
    let mut result: Vec<String> = Vec::new();
    let mut previous: Option<String> = None;
    let mut last_key: String = cursor_for_start(start, delimiter);
    let mut attempt: usize = 1;
    let ghost mut calls: nat = 0;
    let ghost mut rows: nat = 0;
    let ghost mut scans: nat = 0;
    assert(texts(result@) =~= Seq::<Seq<char>>::empty());
    loop
        invariant
            1 <= attempt <= MAX_ROUNDS,
            bucket.wf(),
            bucket.shards@ == old(bucket).shards@,
            shards == old(bucket).shard_keys(),
            estimates@.len() == MAX_ROUNDS,
            goal == listing(shards, start@, delimiter, max_keys as nat, estimates@),
            delimiter is None ==> goal.page is Ok,
            goal.page matches Ok(page) ==> {
                &&& page.0.len() <= max_keys
                &&& strictly_sorted(page.0)
                &&& forall|t: int|
                    0 <= t < page.0.len() ==> listed_form(shards, delimiter, #[trigger] page.0[t])
            },
            delimiter is None ==> (goal.page matches Ok(page) ==> {
                &&& all_behind(start@, page.0)
                &&& gap_free(shards, start@, page.0)
                &&& (!page.1 && page.0.len() < max_keys ==> complete(shards, start@, page.0))
            }),
            bucket.calls == saturated(old(bucket).calls + calls),
            bucket.rows_read == saturated(old(bucket).rows_read + rows),
            bucket.queries == saturated(old(bucket).queries + scans),
            goal == list_rounds(
                shards,
                delimiter,
                max_keys as nat,
                estimates@,
                attempt as nat,
                last_key@,
                texts(result@),
                text_of(previous),
                calls,
                rows,
                scans,
            ),
        decreases MAX_ROUNDS - attempt,
    {
        let quota = quota_for(estimates[attempt - 1]);
        let ghost buffers = round_buffers(shards, last_key@, delimiter, quota as nat);
        let (mut pages, is_truncated) = query_shards(bucket, last_key.as_str(), quota, delimiter);
        proof {
            calls = calls + shards.len();
            rows = rows + round_rows(shards, last_key@, delimiter, quota as nat, shards.len());
            scans = scans + round_scans(shards, last_key@, delimiter, quota as nat, shards.len());
        }
        let full = merge_pages(&mut pages, delimiter, max_keys, &mut result, &mut previous);
        if full {
            return Ok((result, is_truncated));
        }
        if delimiter.is_some() && previous.is_none() {
            return Err(ListError::MissingPrefix);
        }
        if result.len() == 0 || holds_half(result.len(), max_keys) || attempt >= MAX_ROUNDS {
            return Ok((result, is_truncated));
        }
        last_key = match (&delimiter, &previous) {
            (Some(_), Some(p)) => cursor_past_group(p.as_str()),
            _ => result[result.len() - 1].clone(),
        };
        attempt += 1;
    }
}

} // verus!
