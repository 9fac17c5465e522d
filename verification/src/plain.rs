//! Listings without a delimiter: what a shard returns in closed form, and
//! that a page leaves no key out.

use crate::bucket::placed;
use crate::digest::shard_of_key;
use crate::key::{
    key_at_most, key_less, lemma_less_chain, lemma_less_irreflexive, lemma_less_total,
    lemma_less_transitive,
};
use crate::listing::{
    any_truncated, buffered, lemma_buffered_popped, lemma_pick, list_rounds, listing, merge, pick,
    pick_from, popped, round_buffers, round_rows, round_scans, shard_quota, Buffer, MAX_ROUNDS,
};
use crate::page_order::{lemma_merge, lemma_page_ordered, lemma_pick_least, lemma_round_buffers};
use crate::shard::{first_after, lemma_first_after, lemma_first_after_is, strictly_sorted};
use crate::shard_query::{emit_row, emit_rows, rows_scanned, scan_rounds, shard_page};
use vstd::prelude::*;

verus! {

/// The number of items that a shard returns without a delimiter: the quota,
/// or the number of its keys behind the cursor if that is less.
pub open spec fn plain_count(keys: Seq<Seq<char>>, cursor: Seq<char>, quota: nat) -> nat {
    let available = (keys.len() - first_after(keys, cursor)) as nat;
    if quota < available {
        quota
    } else {
        available
    }
}

proof fn lemma_emit_rows_plain(
    keys: Seq<Seq<char>>,
    quota: nat,
    start: nat,
    i: nat,
    end: nat,
    items: Seq<Seq<char>>,
)
    requires
        start <= i <= end <= keys.len(),
        end - start <= quota,
        items == keys.subrange(start as int, i as int),
    ensures
        emit_rows(keys, None, quota, i, end, items, None).items == keys.subrange(start as int, end as int),
        emit_rows(keys, None, quota, i, end, items, None).previous is None,
        emit_rows(keys, None, quota, i, end, items, None).full <==> i < end && end - start == quota,
    decreases end - i,
{
    if i < end {
        let next = emit_row(keys[i as int], None, items, None);
        assert(next.0 =~= keys.subrange(start as int, i as int + 1));
        if !(next.0.len() > items.len() && next.0.len() >= quota) {
            lemma_emit_rows_plain(keys, quota, start, i + 1, end, next.0);
        }
    }
}

/// Without a delimiter a shard returns its first keys behind the cursor, as
/// many as the quota and as it has, and is truncated exactly if it has more
/// than a quota that is not zero. It scans the rows that it returns, in one
/// scan.
pub proof fn lemma_shard_page_plain(keys: Seq<Seq<char>>, cursor: Seq<char>, quota: nat)
    requires
        strictly_sorted(keys),
    ensures
        first_after(keys, cursor) + plain_count(keys, cursor, quota) <= keys.len(),
        shard_page(keys, cursor, None, quota).items == keys.subrange(
            first_after(keys, cursor) as int,
            first_after(keys, cursor) as int + plain_count(keys, cursor, quota) as int,
        ),
        shard_page(keys, cursor, None, quota).truncated <==> 0 < quota < keys.len() - first_after(
            keys,
            cursor,
        ),
        shard_page(keys, cursor, None, quota).rows == plain_count(keys, cursor, quota),
        shard_page(keys, cursor, None, quota).scans == if plain_count(keys, cursor, quota) > 0 {
            1nat
        } else {
            0nat
        },
{
    reveal_with_fuel(scan_rounds, 3);
    lemma_first_after(keys, cursor);
    let start = first_after(keys, cursor);
    let n = rows_scanned(keys, cursor, quota, 1);
    let empty = Seq::<Seq<char>>::empty();
    assert(n == plain_count(keys, cursor, quota));
    if n > 0 {
        let end = (start + n) as nat;
        let last = keys[end - 1];
        assert(empty =~= keys.subrange(start as int, start as int));
        lemma_emit_rows_plain(keys, quota, start, start, end, empty);
        let batch = emit_rows(keys, None, quota, start, end, empty, None);
        if end < keys.len() {
            lemma_less_total(last, keys.last());
        }
        if !batch.full {
            assert(end == keys.len());
            lemma_less_irreflexive(last);
            assert forall|j: int| 0 <= j < keys.len() implies !key_less(last, #[trigger] keys[j]) by {
                if j < keys.len() - 1 {
                    lemma_less_total(keys[j], last);
                }
            }
            lemma_first_after_is(keys, last, keys.len() as int);
            assert(rows_scanned(keys, last, quota, 2) == 0);
        }
    } else {
        assert(shard_page(keys, cursor, None, quota).items =~= keys.subrange(start as int, start as int));
    }
}

/// Every item of the page is a key behind `start`.
pub open spec fn all_behind(start: Seq<char>, items: Seq<Seq<char>>) -> bool {
    forall|t: int| 0 <= t < items.len() ==> key_less(start, #[trigger] items[t])
}

/// The page leaves out no key between `start` and its last item.
pub open spec fn gap_free(shards: Seq<Seq<Seq<char>>>, start: Seq<char>, items: Seq<Seq<char>>) -> bool {
    forall|s: int, j: int|
        0 <= s < shards.len() && 0 <= j < shards[s].len() && items.len() > 0 && key_less(
            start,
            #[trigger] shards[s][j],
        ) && key_at_most(shards[s][j], items.last()) ==> items.contains(shards[s][j])
}

/// The page holds every key behind `start`.
pub open spec fn complete(shards: Seq<Seq<Seq<char>>>, start: Seq<char>, items: Seq<Seq<char>>) -> bool {
    forall|s: int, j: int|
        0 <= s < shards.len() && 0 <= j < shards[s].len() && key_less(start, #[trigger] shards[s][j])
            ==> items.contains(shards[s][j])
}

/// Each buffer is the part of its shard from `heads[s]` on, as long as the
/// buffer, and its shard is truncated exactly if it has keys behind that part.
pub open spec fn windows(shards: Seq<Seq<Seq<char>>>, buffers: Seq<Buffer>, heads: Seq<int>) -> bool {
    &&& buffers.len() == shards.len()
    &&& heads.len() == shards.len()
    &&& forall|s: int|
        0 <= s < shards.len() ==> {
            &&& 0 <= #[trigger] heads[s]
            &&& heads[s] + buffers[s].items.len() <= shards[s].len()
            &&& buffers[s].items == shards[s].subrange(heads[s], heads[s] + buffers[s].items.len())
            &&& (buffers[s].truncated <==> heads[s] + buffers[s].items.len() < shards[s].len())
        }
}

/// The merge has taken in every key behind `start` that lies before the
/// buffers, and the keys from the buffers on lie behind `start` and behind the
/// page.
pub open spec fn merged_to(
    shards: Seq<Seq<Seq<char>>>,
    heads: Seq<int>,
    start: Seq<char>,
    items: Seq<Seq<char>>,
) -> bool {
    &&& forall|s: int, j: int|
        0 <= s < shards.len() && 0 <= j < heads[s] && j < shards[s].len() && key_less(
            start,
            #[trigger] shards[s][j],
        ) ==> items.contains(shards[s][j])
    &&& forall|s: int, j: int|
        0 <= s < shards.len() && heads[s] <= j < shards[s].len() ==> key_less(
            start,
            #[trigger] shards[s][j],
        ) && (items.len() > 0 ==> key_less(items.last(), shards[s][j]))
}

proof fn lemma_pick_from_some(buffers: Seq<Buffer>, i: nat, best: Option<int>)
    ensures
        pick_from(buffers, i, best) is Some ==> forall|s: int|
            i <= s < buffers.len() && (#[trigger] buffers[s]).items.len() == 0 ==> !buffers[s].truncated,
        pick_from(buffers, i, best) is None && best is Some ==> exists|s: int|
            i <= s < buffers.len() && (#[trigger] buffers[s]).truncated,
        pick_from(buffers, i, best) is None && !(exists|s: int|
            i <= s < buffers.len() && (#[trigger] buffers[s]).truncated) ==> forall|s: int|
            i <= s < buffers.len() ==> (#[trigger] buffers[s]).items.len() == 0,
    decreases buffers.len() - i,
{
    if i >= buffers.len() {
    } else if buffers[i as int].items.len() == 0 {
        if !buffers[i as int].truncated {
            lemma_pick_from_some(buffers, i + 1, best);
        }
    } else {
        let better = match best {
            Some(b) => key_less(buffers[i as int].items[0], buffers[b].items[0]),
            None => true,
        };
        lemma_pick_from_some(buffers, i + 1, if better { Some(i as int) } else { best });
    }
}

/// Where a buffer is picked, no shard with an empty buffer is truncated. Where
/// none is picked and no shard is truncated, every buffer is empty.
pub proof fn lemma_pick_halts(buffers: Seq<Buffer>)
    ensures
        pick(buffers) is Some ==> forall|s: int|
            0 <= s < buffers.len() && (#[trigger] buffers[s]).items.len() == 0 ==> !buffers[s].truncated,
        pick(buffers) is None && !any_truncated(buffers) ==> forall|s: int|
            0 <= s < buffers.len() ==> (#[trigger] buffers[s]).items.len() == 0,
{
    lemma_pick_from_some(buffers, 0, None);
}

proof fn lemma_gap_free(
    shards: Seq<Seq<Seq<char>>>,
    heads: Seq<int>,
    start: Seq<char>,
    items: Seq<Seq<char>>,
)
    requires
        heads.len() == shards.len(),
        merged_to(shards, heads, start, items),
    ensures
        gap_free(shards, start, items),
{
    assert forall|s: int, j: int|
        0 <= s < shards.len() && 0 <= j < shards[s].len() && items.len() > 0 && key_less(
            start,
            #[trigger] shards[s][j],
        ) && key_at_most(shards[s][j], items.last()) implies items.contains(shards[s][j]) by {
        if heads[s] <= j {
            lemma_less_total(items.last(), shards[s][j]);
        }
    }
}

/// Without a delimiter the merge of a round leaves out no key, and takes in
/// all there is behind `start` where it does not fill the page and no shard
/// is truncated.
proof fn lemma_merge_plain(
    shards: Seq<Seq<Seq<char>>>,
    buffers: Seq<Buffer>,
    heads: Seq<int>,
    start: Seq<char>,
    max_keys: nat,
    items: Seq<Seq<char>>,
)
    requires
        forall|s: int| 0 <= s < shards.len() ==> strictly_sorted(#[trigger] shards[s]),
        placed(shards),
        windows(shards, buffers, heads),
        merged_to(shards, heads, start, items),
        all_behind(start, items),
    ensures
        gap_free(shards, start, merge(buffers, None, max_keys, items, None).items),
        all_behind(start, merge(buffers, None, max_keys, items, None).items),
        merge(buffers, None, max_keys, items, None).previous is None,
        merge(buffers, None, max_keys, items, None).full ==> merge(
            buffers,
            None,
            max_keys,
            items,
            None,
        ).items.len() >= max_keys,
        !merge(buffers, None, max_keys, items, None).full && !any_truncated(buffers) ==> complete(
            shards,
            start,
            merge(buffers, None, max_keys, items, None).items,
        ),
    decreases buffered(buffers),
{
    lemma_gap_free(shards, heads, start, items);
    if items.len() < max_keys {
        lemma_pick(buffers);
        lemma_pick_least(buffers);
        lemma_pick_halts(buffers);
        match pick(buffers) {
            Some(i) => {
                let x = buffers[i].items[0];
                assert(x == shards[i][heads[i]]);
                let after = popped(buffers, i);
                let next_heads = heads.update(i, heads[i] + 1);
                let next_items = items.push(x);
                lemma_buffered_popped(buffers, i);
                assert(windows(shards, after, next_heads)) by {
                    assert forall|s: int| 0 <= s < shards.len() implies {
                        &&& 0 <= #[trigger] next_heads[s]
                        &&& next_heads[s] + after[s].items.len() <= shards[s].len()
                        &&& after[s].items == shards[s].subrange(
                            next_heads[s],
                            next_heads[s] + after[s].items.len(),
                        )
                        &&& (after[s].truncated <==> next_heads[s] + after[s].items.len()
                            < shards[s].len())
                    } by {
                        assert(0 <= heads[s]);
                        if s == i {
                            assert(after[s].items =~= shards[s].subrange(
                                next_heads[s],
                                next_heads[s] + after[s].items.len(),
                            ));
                        }
                    }
                }
                assert(merged_to(shards, next_heads, start, next_items)) by {
                    assert forall|s: int, j: int|
                        0 <= s < shards.len() && 0 <= j < next_heads[s] && j < shards[s].len()
                            && key_less(start, #[trigger] shards[s][j]) implies next_items.contains(
                        shards[s][j],
                    ) by {
                        if s == i && j == heads[i] {
                            assert(next_items[items.len() as int] == x);
                        } else {
                            assert(items.contains(shards[s][j]));
                            let t = choose|t: int| 0 <= t < items.len() && items[t] == shards[s][j];
                            assert(next_items[t] == shards[s][j]);
                        }
                    }
                    assert forall|s: int, j: int|
                        0 <= s < shards.len() && next_heads[s] <= j < shards[s].len() implies key_less(
                        start,
                        #[trigger] shards[s][j],
                    ) && (next_items.len() > 0 ==> key_less(next_items.last(), shards[s][j])) by {
                        assert(0 <= heads[s]);
                        if s == i {
                        } else {
                            assert(buffers[s].items.len() > 0);
                            let head = buffers[s].items[0];
                            assert(head == shards[s][heads[s]]);
                            assert(key_at_most(x, head));
                            assert(shard_of_key(shards[s][j], shards.len()) == s);
                            assert(shard_of_key(shards[i][heads[i]], shards.len()) == i);
                            if j > heads[s] {
                                lemma_less_chain(x, head, shards[s][j]);
                            }
                        }
                    }
                }
                assert(all_behind(start, next_items)) by {
                    assert forall|t: int| 0 <= t < next_items.len() implies key_less(
                        start,
                        #[trigger] next_items[t],
                    ) by {
                        if t < items.len() {
                            assert(next_items[t] == items[t]);
                        }
                    }
                }
                lemma_merge_plain(shards, after, next_heads, start, max_keys, next_items);
                if !any_truncated(buffers) {
                    assert forall|s: int| 0 <= s < after.len() implies !(#[trigger] after[s]).truncated by {
                        assert(!buffers[s].truncated);
                    }
                }
            },
            None => {
                if !any_truncated(buffers) {
                    assert forall|s: int, j: int|
                        0 <= s < shards.len() && 0 <= j < shards[s].len() && key_less(
                            start,
                            #[trigger] shards[s][j],
                        ) implies items.contains(shards[s][j]) by {
                        assert(buffers[s].items.len() == 0);
                        assert(!buffers[s].truncated);
                        assert(0 <= heads[s]);
                    }
                }
            },
        }
    }
}

/// The position in each shard of its first key behind `cursor`.
pub open spec fn heads_behind(shards: Seq<Seq<Seq<char>>>, cursor: Seq<char>) -> Seq<int> {
    Seq::new(shards.len(), |s: int| first_after(shards[s], cursor) as int)
}

/// Without a delimiter the buffers of a round are the parts of the shards
/// behind the cursor, each as long as the quota allows.
proof fn lemma_round_windows(shards: Seq<Seq<Seq<char>>>, cursor: Seq<char>, quota: nat)
    requires
        forall|s: int| 0 <= s < shards.len() ==> strictly_sorted(#[trigger] shards[s]),
        quota > 0,
    ensures
        windows(shards, round_buffers(shards, cursor, None, quota), heads_behind(shards, cursor)),
{
    let buffers = round_buffers(shards, cursor, None, quota);
    let heads = heads_behind(shards, cursor);
    assert forall|s: int| 0 <= s < shards.len() implies {
        &&& 0 <= #[trigger] heads[s]
        &&& heads[s] + buffers[s].items.len() <= shards[s].len()
        &&& buffers[s].items == shards[s].subrange(heads[s], heads[s] + buffers[s].items.len())
        &&& (buffers[s].truncated <==> heads[s] + buffers[s].items.len() < shards[s].len())
    } by {
        lemma_shard_page_plain(shards[s], cursor, quota);
    }
}

/// Without a delimiter the rounds of a listing leave out no key.
proof fn lemma_list_rounds_plain(
    shards: Seq<Seq<Seq<char>>>,
    start: Seq<char>,
    max_keys: nat,
    estimates: Seq<usize>,
    attempt: nat,
    cursor: Seq<char>,
    items: Seq<Seq<char>>,
    calls: nat,
    rows: nat,
    scans: nat,
)
    requires
        forall|s: int| 0 <= s < shards.len() ==> strictly_sorted(#[trigger] shards[s]),
        placed(shards),
        all_behind(start, items),
        gap_free(shards, start, items),
        items.len() == 0 ==> cursor == start,
        items.len() > 0 ==> cursor == items.last(),
    ensures
        list_rounds(
            shards,
            None,
            max_keys,
            estimates,
            attempt,
            cursor,
            items,
            None,
            calls,
            rows,
            scans,
        ).page matches Ok(page) && {
            &&& all_behind(start, page.0)
            &&& gap_free(shards, start, page.0)
            &&& (!page.1 && page.0.len() < max_keys ==> complete(shards, start, page.0))
        },
    decreases MAX_ROUNDS + 1 - attempt,
{
    let quota = shard_quota(estimates[attempt - 1]) as nat;
    let buffers = round_buffers(shards, cursor, None, quota);
    let heads = heads_behind(shards, cursor);
    lemma_round_windows(shards, cursor, quota);
    assert(merged_to(shards, heads, start, items)) by {
        assert forall|s: int, j: int|
            0 <= s < shards.len() && 0 <= j < heads[s] && j < shards[s].len() && key_less(
                start,
                #[trigger] shards[s][j],
            ) implies items.contains(shards[s][j]) by {
            lemma_first_after(shards[s], cursor);
            lemma_less_total(cursor, shards[s][j]);
        }
        assert forall|s: int, j: int|
            0 <= s < shards.len() && heads[s] <= j < shards[s].len() implies key_less(
            start,
            #[trigger] shards[s][j],
        ) && (items.len() > 0 ==> key_less(items.last(), shards[s][j])) by {
            lemma_first_after(shards[s], cursor);
            if items.len() > 0 {
                lemma_less_transitive(start, cursor, shards[s][j]);
            }
        }
    }
    lemma_merge_plain(shards, buffers, heads, start, max_keys, items);
    let merged = merge(buffers, None, max_keys, items, None);
    if merged.full || merged.items.len() == 0 || merged.items.len() >= (max_keys + 1) / 2 || attempt
        >= MAX_ROUNDS {
    } else {
        lemma_list_rounds_plain(
            shards,
            start,
            max_keys,
            estimates,
            attempt + 1,
            merged.items.last(),
            merged.items,
            calls + shards.len(),
            rows + round_rows(shards, cursor, None, quota, shards.len()),
            scans + round_scans(shards, cursor, None, quota, shards.len()),
        );
    }
}

/// Without a delimiter a listing never fails, and its page is made of keys
/// behind `start` and leaves out no key of the bucket between `start` and its
/// last item. A page that is not truncated and holds fewer than `max_keys`
/// items holds every key of the bucket behind `start`.
pub proof fn lemma_plain_page(
    shards: Seq<Seq<Seq<char>>>,
    start: Seq<char>,
    max_keys: nat,
    estimates: Seq<usize>,
)
    requires
        forall|s: int| 0 <= s < shards.len() ==> strictly_sorted(#[trigger] shards[s]),
        placed(shards),
    ensures
        listing(shards, start, None, max_keys, estimates).page matches Ok(page) && {
            &&& all_behind(start, page.0)
            &&& gap_free(shards, start, page.0)
            &&& (!page.1 && page.0.len() < max_keys ==> complete(shards, start, page.0))
        },
{
    lemma_list_rounds_plain(shards, start, max_keys, estimates, 1, start, Seq::empty(), 0, 0, 0);
}

/// Two pages in a row, the second listed from the last item of the first,
/// are together in strictly increasing order and leave out no key between
/// `start` and the last item of the second. Where the second page is not
/// truncated and not full, the two hold every key of the bucket behind
/// `start`.
pub proof fn lemma_next_page(
    shards: Seq<Seq<Seq<char>>>,
    start: Seq<char>,
    first_max: nat,
    first_estimates: Seq<usize>,
    next_max: nat,
    next_estimates: Seq<usize>,
)
    requires
        forall|s: int| 0 <= s < shards.len() ==> strictly_sorted(#[trigger] shards[s]),
        placed(shards),
        listing(shards, start, None, first_max, first_estimates).page matches Ok(first)
            && first.0.len() > 0,
    ensures
        ({
            let first = listing(shards, start, None, first_max, first_estimates).page->Ok_0;
            listing(shards, first.0.last(), None, next_max, next_estimates).page matches Ok(next) && {
                &&& strictly_sorted(first.0 + next.0)
                &&& all_behind(start, first.0 + next.0)
                &&& gap_free(shards, start, first.0 + next.0)
                &&& (!next.1 && next.0.len() < next_max ==> complete(shards, start, first.0 + next.0))
            }
        }),
{
    let first = listing(shards, start, None, first_max, first_estimates).page->Ok_0;
    let middle = first.0.last();
    lemma_plain_page(shards, start, first_max, first_estimates);
    lemma_plain_page(shards, middle, next_max, next_estimates);
    lemma_page_ordered(shards, start, None, first_max, first_estimates);
    lemma_page_ordered(shards, middle, None, next_max, next_estimates);
    let next = listing(shards, middle, None, next_max, next_estimates).page->Ok_0;
    let joined = first.0 + next.0;
    assert forall|t: int| 0 <= t < joined.len() implies key_less(start, #[trigger] joined[t]) by {
        if t >= first.0.len() {
            assert(joined[t] == next.0[t - first.0.len()]);
            lemma_less_transitive(start, middle, joined[t]);
        } else {
            assert(joined[t] == first.0[t]);
        }
    }
    assert forall|i: int, j: int| 0 <= i < j < joined.len() implies key_less(
        #[trigger] joined[i],
        #[trigger] joined[j],
    ) by {
        if j >= first.0.len() {
            assert(joined[j] == next.0[j - first.0.len()]);
            if i >= first.0.len() {
                assert(joined[i] == next.0[i - first.0.len()]);
            } else {
                assert(joined[i] == first.0[i]);
                if i < first.0.len() - 1 {
                    lemma_less_transitive(first.0[i], middle, joined[j]);
                }
            }
        } else {
            assert(joined[i] == first.0[i]);
            assert(joined[j] == first.0[j]);
        }
    }
    assert forall|s: int, j: int|
        0 <= s < shards.len() && 0 <= j < shards[s].len() && key_less(start, #[trigger] shards[s][j])
            && (key_at_most(shards[s][j], joined.last()) || (!next.1 && next.0.len()
            < next_max)) implies joined.contains(shards[s][j]) by {
        let k = shards[s][j];
        lemma_less_total(middle, k);
        if key_at_most(k, middle) {
            assert(first.0.contains(k));
            let t = choose|t: int| 0 <= t < first.0.len() && first.0[t] == k;
            assert(joined[t] == k);
        } else {
            if next.0.len() == 0 {
                assert(joined =~= first.0);
            } else {
                assert(joined.last() == next.0.last());
            }
            assert(next.0.contains(k));
            let t = choose|t: int| 0 <= t < next.0.len() && next.0[t] == k;
            assert(joined[first.0.len() + t] == k);
        }
    }
}

/// The number of keys of the bucket behind `cursor`.
pub open spec fn keys_behind(shards: Seq<Seq<Seq<char>>>, cursor: Seq<char>) -> nat
    decreases shards.len(),
{
    if shards.len() == 0 {
        0
    } else {
        keys_behind(shards.drop_last(), cursor) + (shards.last().len() - first_after(
            shards.last(),
            cursor,
        )) as nat
    }
}

proof fn lemma_pick_from_none(buffers: Seq<Buffer>, i: nat, best: Option<int>)
    ensures
        pick_from(buffers, i, best) is None ==> (exists|s: int|
            i <= s < buffers.len() && (#[trigger] buffers[s]).items.len() == 0 && buffers[s].truncated)
            || (best is None && forall|s: int|
            i <= s < buffers.len() ==> (#[trigger] buffers[s]).items.len() == 0),
    decreases buffers.len() - i,
{
    if i >= buffers.len() {
    } else if buffers[i as int].items.len() == 0 {
        if !buffers[i as int].truncated {
            lemma_pick_from_none(buffers, i + 1, best);
        }
    } else {
        let better = match best {
            Some(b) => key_less(buffers[i as int].items[0], buffers[b].items[0]),
            None => true,
        };
        lemma_pick_from_none(buffers, i + 1, if better { Some(i as int) } else { best });
    }
}

/// Empty buffers hold nothing.
proof fn lemma_buffered_empty(buffers: Seq<Buffer>)
    requires
        forall|s: int| 0 <= s < buffers.len() ==> (#[trigger] buffers[s]).items.len() == 0,
    ensures
        buffered(buffers) == 0,
    decreases buffers.len(),
{
    if buffers.len() > 0 {
        assert forall|s: int| 0 <= s < buffers.drop_last().len() implies (#[trigger] buffers.drop_last()[s]).items.len()
            == 0 by {
            assert(buffers.drop_last()[s] == buffers[s]);
        }
        lemma_buffered_empty(buffers.drop_last());
    }
}

/// Without a delimiter the merge fills the page, if every truncated shard
/// gave at least a page and, where none is truncated, the buffers hold enough
/// to fill it.
proof fn lemma_merge_fills(
    buffers: Seq<Buffer>,
    quota: nat,
    max_keys: nat,
    items: Seq<Seq<char>>,
)
    requires
        quota >= max_keys,
        forall|s: int|
            0 <= s < buffers.len() && (#[trigger] buffers[s]).truncated ==> items.len()
                + buffers[s].items.len() >= quota,
        any_truncated(buffers) || items.len() + buffered(buffers) >= max_keys,
    ensures
        merge(buffers, None, max_keys, items, None).full,
    decreases buffered(buffers),
{
    if items.len() < max_keys {
        lemma_pick(buffers);
        lemma_pick_from_none(buffers, 0, None);
        match pick(buffers) {
            Some(i) => {
                let after = popped(buffers, i);
                let next_items = items.push(buffers[i].items[0]);
                lemma_buffered_popped(buffers, i);
                assert forall|s: int| 0 <= s < after.len() && (#[trigger] after[s]).truncated implies next_items.len()
                    + after[s].items.len() >= quota by {
                    assert(buffers[s].truncated);
                }
                if any_truncated(buffers) {
                    let s = choose|s: int| 0 <= s < buffers.len() && (#[trigger] buffers[s]).truncated;
                    assert(after[s].truncated);
                }
                lemma_merge_fills(after, quota, max_keys, next_items);
            },
            None => {
                if forall|s: int| 0 <= s < buffers.len() ==> (#[trigger] buffers[s]).items.len() == 0 {
                    lemma_buffered_empty(buffers);
                    if any_truncated(buffers) {
                        let s = choose|s: int| 0 <= s < buffers.len() && (#[trigger] buffers[s]).truncated;
                        assert(buffers[s].items.len() == 0);
                    }
                }
            },
        }
    }
}

proof fn lemma_round_buffered(shards: Seq<Seq<Seq<char>>>, cursor: Seq<char>, quota: nat)
    requires
        forall|s: int| 0 <= s < shards.len() ==> strictly_sorted(#[trigger] shards[s]),
        quota > 0,
        !any_truncated(round_buffers(shards, cursor, None, quota)),
    ensures
        buffered(round_buffers(shards, cursor, None, quota)) == keys_behind(shards, cursor),
    decreases shards.len(),
{
    if shards.len() > 0 {
        let buffers = round_buffers(shards, cursor, None, quota);
        let fewer = round_buffers(shards.drop_last(), cursor, None, quota);
        assert(buffers.drop_last() =~= fewer);
        assert forall|s: int| 0 <= s < shards.drop_last().len() implies strictly_sorted(
            #[trigger] shards.drop_last()[s],
        ) by {
            assert(shards.drop_last()[s] == shards[s]);
        }
        if any_truncated(fewer) {
            let s = choose|s: int| 0 <= s < fewer.len() && (#[trigger] fewer[s]).truncated;
            assert(buffers[s].truncated);
        }
        lemma_round_buffered(shards.drop_last(), cursor, quota);
        lemma_shard_page_plain(shards.last(), cursor, quota);
        assert(!buffers[shards.len() - 1].truncated);
    }
}

/// Without a delimiter, where every shard is asked for at least a page in the
/// first round and the bucket holds at least a page of keys behind `start`,
/// the page holds exactly `max_keys` items, and it is truncated exactly if
/// some shard holds more keys behind `start` than it was asked for.
pub proof fn lemma_full_page(
    shards: Seq<Seq<Seq<char>>>,
    start: Seq<char>,
    max_keys: nat,
    estimates: Seq<usize>,
)
    requires
        forall|s: int| 0 <= s < shards.len() ==> strictly_sorted(#[trigger] shards[s]),
        placed(shards),
        shard_quota(estimates[0]) >= max_keys,
        keys_behind(shards, start) >= max_keys,
    ensures
        listing(shards, start, None, max_keys, estimates).page matches Ok(page) && {
            &&& page.0.len() == max_keys
            &&& (page.1 <==> exists|s: int|
                0 <= s < shards.len() && shard_quota(estimates[0]) < (#[trigger] shards[s]).len()
                    - first_after(shards[s], start))
        },
{
    let quota = shard_quota(estimates[0]) as nat;
    let buffers = round_buffers(shards, start, None, quota);
    let empty = Seq::<Seq<char>>::empty();
    assert forall|s: int| 0 <= s < buffers.len() implies ((#[trigger] buffers[s]).truncated <==> quota
        < shards[s].len() - first_after(shards[s], start)) && (buffers[s].truncated
        ==> buffers[s].items.len() >= quota) by {
        lemma_shard_page_plain(shards[s], start, quota);
    }
    if !any_truncated(buffers) {
        lemma_round_buffered(shards, start, quota);
    }
    lemma_merge_fills(buffers, quota, max_keys, empty);
    lemma_round_buffers(shards, start, None, quota, empty, None);
    lemma_merge(shards, buffers, None, max_keys, empty, None);
    if any_truncated(buffers) {
        let s = choose|s: int| 0 <= s < buffers.len() && (#[trigger] buffers[s]).truncated;
        assert(quota < shards[s].len() - first_after(shards[s], start));
    }
    if exists|s: int|
        0 <= s < shards.len() && quota < (#[trigger] shards[s]).len() - first_after(shards[s], start) {
        let s = choose|s: int|
            0 <= s < shards.len() && quota < (#[trigger] shards[s]).len() - first_after(
                shards[s],
                start,
            );
        assert(buffers[s].truncated);
    }
}

/// Once the page holds every key behind `start`, the rounds that follow find
/// nothing, and the page is returned as it is, not truncated.
proof fn lemma_list_rounds_done(
    shards: Seq<Seq<Seq<char>>>,
    start: Seq<char>,
    max_keys: nat,
    estimates: Seq<usize>,
    attempt: nat,
    items: Seq<Seq<char>>,
    calls: nat,
    rows: nat,
    scans: nat,
)
    requires
        forall|s: int| 0 <= s < shards.len() ==> strictly_sorted(#[trigger] shards[s]),
        strictly_sorted(items),
        all_behind(start, items),
        complete(shards, start, items),
        0 < items.len() < max_keys,
    ensures
        list_rounds(
            shards,
            None,
            max_keys,
            estimates,
            attempt,
            items.last(),
            items,
            None,
            calls,
            rows,
            scans,
        ).page == Ok::<(Seq<Seq<char>>, bool), crate::listing::ListError>((items, false)),
    decreases MAX_ROUNDS + 1 - attempt,
{
    let cursor = items.last();
    let quota = shard_quota(estimates[attempt - 1]) as nat;
    let buffers = round_buffers(shards, cursor, None, quota);
    assert forall|s: int| 0 <= s < buffers.len() implies (#[trigger] buffers[s]).items.len() == 0
        && !buffers[s].truncated by {
        assert forall|j: int| 0 <= j < shards[s].len() implies !key_less(
            cursor,
            #[trigger] shards[s][j],
        ) by {
            let k = shards[s][j];
            lemma_less_total(start, k);
            lemma_less_total(cursor, k);
            if key_less(start, k) {
                let t = choose|t: int| 0 <= t < items.len() && items[t] == k;
                if t < items.len() - 1 {
                    lemma_less_total(items[t], cursor);
                }
            } else if key_less(cursor, k) {
                lemma_less_transitive(start, cursor, k);
            }
        }
        lemma_first_after_is(shards[s], cursor, shards[s].len() as int);
        lemma_shard_page_plain(shards[s], cursor, quota);
    }
    lemma_buffered_empty(buffers);
    lemma_pick(buffers);
    assert(merge(buffers, None, max_keys, items, None).items == items);
    assert(!merge(buffers, None, max_keys, items, None).full);
    if !(items.len() >= (max_keys + 1) / 2 || attempt >= MAX_ROUNDS) {
        lemma_list_rounds_done(
            shards,
            start,
            max_keys,
            estimates,
            attempt + 1,
            items,
            calls + shards.len(),
            rows + round_rows(shards, cursor, None, quota, shards.len()),
            scans + round_scans(shards, cursor, None, quota, shards.len()),
        );
    }
}

/// Without a delimiter, where the bucket holds fewer than `max_keys` keys
/// behind `start` and no shard holds more of them than it is asked for in the
/// first round, the page holds every key of the bucket behind `start` and is
/// not truncated.
pub proof fn lemma_small_bucket(
    shards: Seq<Seq<Seq<char>>>,
    start: Seq<char>,
    max_keys: nat,
    estimates: Seq<usize>,
)
    requires
        forall|s: int| 0 <= s < shards.len() ==> strictly_sorted(#[trigger] shards[s]),
        placed(shards),
        keys_behind(shards, start) < max_keys,
        forall|s: int|
            0 <= s < shards.len() ==> (#[trigger] shards[s]).len() - first_after(shards[s], start)
                <= shard_quota(estimates[0]),
    ensures
        listing(shards, start, None, max_keys, estimates).page matches Ok(page) && {
            &&& !page.1
            &&& page.0.len() == keys_behind(shards, start)
            &&& strictly_sorted(page.0)
            &&& all_behind(start, page.0)
            &&& complete(shards, start, page.0)
        },
{
    let quota = shard_quota(estimates[0]) as nat;
    let buffers = round_buffers(shards, start, None, quota);
    let heads = heads_behind(shards, start);
    let empty = Seq::<Seq<char>>::empty();
    assert forall|s: int| 0 <= s < buffers.len() implies !(#[trigger] buffers[s]).truncated by {
        lemma_shard_page_plain(shards[s], start, quota);
    }
    lemma_round_buffered(shards, start, quota);
    lemma_round_windows(shards, start, quota);
    assert(merged_to(shards, heads, start, empty)) by {
        assert forall|s: int, j: int|
            0 <= s < shards.len() && 0 <= j < heads[s] && j < shards[s].len() && key_less(
                start,
                #[trigger] shards[s][j],
            ) implies empty.contains(shards[s][j]) by {
            lemma_first_after(shards[s], start);
        }
        assert forall|s: int, j: int|
            0 <= s < shards.len() && heads[s] <= j < shards[s].len() implies key_less(
            start,
            #[trigger] shards[s][j],
        ) && (empty.len() > 0 ==> key_less(empty.last(), shards[s][j])) by {
            lemma_first_after(shards[s], start);
        }
    }
    lemma_merge_plain(shards, buffers, heads, start, max_keys, empty);
    lemma_round_buffers(shards, start, None, quota, empty, None);
    lemma_merge(shards, buffers, None, max_keys, empty, None);
    lemma_merge_all(buffers, max_keys, empty);
    let merged = merge(buffers, None, max_keys, empty, None);
    if !(merged.items.len() == 0 || merged.items.len() >= (max_keys + 1) / 2) {
        lemma_list_rounds_done(
            shards,
            start,
            max_keys,
            estimates,
            2,
            merged.items,
            shards.len(),
            round_rows(shards, start, None, quota, shards.len()),
            round_scans(shards, start, None, quota, shards.len()),
        );
    }
}

/// Without a delimiter, a merge that does not fill the page and meets no
/// truncated shard takes in all that the buffers hold.
proof fn lemma_merge_all(buffers: Seq<Buffer>, max_keys: nat, items: Seq<Seq<char>>)
    requires
        !any_truncated(buffers),
        items.len() + buffered(buffers) < max_keys,
    ensures
        merge(buffers, None, max_keys, items, None).items.len() == items.len() + buffered(buffers),
    decreases buffered(buffers),
{
    lemma_pick(buffers);
    lemma_pick_halts(buffers);
    match pick(buffers) {
        Some(i) => {
            let after = popped(buffers, i);
            lemma_buffered_popped(buffers, i);
            if any_truncated(after) {
                let s = choose|s: int| 0 <= s < after.len() && (#[trigger] after[s]).truncated;
                assert(buffers[s].truncated);
            }
            lemma_merge_all(after, max_keys, items.push(buffers[i].items[0]));
        },
        None => {
            lemma_buffered_empty(buffers);
        },
    }
}

} // verus!
