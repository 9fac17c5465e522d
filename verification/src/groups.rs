//! Listings with a delimiter of buckets that are small against the quotas:
//! every group behind the cursor is listed, and the page is not truncated.

use crate::bucket::placed;
use crate::key::{
    collapsed, group_prefix, has_delimiter, key_less, lemma_collapsed_twice,
    lemma_group_before_cursor, lemma_groups_apart, lemma_less_chain, lemma_less_irreflexive,
    lemma_less_past_group, lemma_less_total, lemma_less_transitive, past_group, sentinel_free,
    start_cursor,
};
use crate::listing::{
    any_truncated, buffered, lemma_buffered_popped, lemma_pick, list_rounds, listing, merge,
    merge_item, pick, popped, round_buffers, round_rows, round_scans, shard_quota, Buffer, ListError,
    MAX_ROUNDS,
};
use crate::page_order::{lemma_merge, lemma_round_buffers, listed_form};
use crate::plain::{keys_behind, lemma_pick_halts};
use crate::shard::{
    first_after, lemma_first_after, lemma_first_after_is, lemma_first_after_within, strictly_sorted,
};
use crate::shard_order::remembers_last;
use crate::shard_query::{emit_row, emit_rows, rows_scanned, scan_rounds, shard_page};
use vstd::prelude::*;

verus! {

/// The item `y` is what one of the rows `keys[from..to]` collapses to.
pub open spec fn row_form(
    keys: Seq<Seq<char>>,
    delimiter: Option<char>,
    from: int,
    to: int,
    y: Seq<char>,
) -> bool {
    exists|j: int| from <= j < to && 0 <= j < keys.len() && y == collapsed(#[trigger] keys[j], delimiter)
}

/// A batch of rows too short to reach the quota puts out what each of its rows
/// collapses to, and nothing else.
proof fn lemma_emit_rows_whole(
    keys: Seq<Seq<char>>,
    delimiter: Option<char>,
    quota: nat,
    i: nat,
    end: nat,
    items: Seq<Seq<char>>,
    previous: Option<Seq<char>>,
)
    requires
        i <= end <= keys.len(),
        items.len() + (end - i) < quota,
        remembers_last(delimiter, items, previous),
    ensures
        !emit_rows(keys, delimiter, quota, i, end, items, previous).full,
        remembers_last(
            delimiter,
            emit_rows(keys, delimiter, quota, i, end, items, previous).items,
            emit_rows(keys, delimiter, quota, i, end, items, previous).previous,
        ),
        items.len() <= emit_rows(keys, delimiter, quota, i, end, items, previous).items.len()
            <= items.len() + (end - i),
        forall|t: int|
            0 <= t < items.len() ==> emit_rows(keys, delimiter, quota, i, end, items, previous).items[t]
                == items[t],
        forall|t: int|
            items.len() <= t < emit_rows(keys, delimiter, quota, i, end, items, previous).items.len()
                ==> row_form(
                keys,
                delimiter,
                i as int,
                end as int,
                #[trigger] emit_rows(keys, delimiter, quota, i, end, items, previous).items[t],
            ),
        forall|j: int|
            i <= j < end ==> emit_rows(keys, delimiter, quota, i, end, items, previous).items.contains(
                collapsed(#[trigger] keys[j], delimiter),
            ),
        i < end ==> match emit_rows(keys, delimiter, quota, i, end, items, previous).previous {
            Some(p) => delimiter is Some && has_delimiter(keys[end - 1], delimiter->0) && p
                == group_prefix(keys[end - 1], delimiter->0),
            None => emit_rows(keys, delimiter, quota, i, end, items, previous).items.len() > 0
                && emit_rows(keys, delimiter, quota, i, end, items, previous).items.last() == keys[end
                - 1],
        },
    decreases end - i,
{
    if i < end {
        let row = keys[i as int];
        let c = collapsed(row, delimiter);
        let next = emit_row(row, delimiter, items, previous);
        lemma_collapsed_twice(row, delimiter);
        assert(next.0 == items || next.0 == items.push(c));
        assert(next.0.contains(c)) by {
            if next.0 == items {
                assert(items[items.len() - 1] == c);
            } else {
                assert(next.0[items.len() as int] == c);
            }
        }
        let c_at = choose|t: int| 0 <= t < next.0.len() && next.0[t] == c;
        lemma_emit_rows_whole(keys, delimiter, quota, i + 1, end, next.0, next.1);
        let out = emit_rows(keys, delimiter, quota, i, end, items, previous);
        assert(out == emit_rows(keys, delimiter, quota, i + 1, end, next.0, next.1));
        assert(out.items[c_at] == c);
        assert forall|t: int| items.len() <= t < out.items.len() implies row_form(
            keys,
            delimiter,
            i as int,
            end as int,
            #[trigger] out.items[t],
        ) by {
            if t < next.0.len() {
                assert(out.items[t] == next.0[t]);
                assert(out.items[t] == collapsed(keys[i as int], delimiter));
            } else {
                assert(row_form(keys, delimiter, i as int + 1, end as int, out.items[t]));
                let j = choose|j: int|
                    i + 1 <= j < end && 0 <= j < keys.len() && out.items[t] == collapsed(
                        #[trigger] keys[j],
                        delimiter,
                    );
                assert(out.items[t] == collapsed(keys[j], delimiter));
            }
        }
        assert forall|t: int| 0 <= t < items.len() implies out.items[t] == items[t] by {
            assert(next.0[t] == items[t]);
        }
    }
}

/// A shard that holds fewer keys behind the cursor than the quota, none of
/// them with the largest code point, returns what each of them collapses to
/// and nothing else, and is not truncated.
pub proof fn lemma_shard_page_whole(
    keys: Seq<Seq<char>>,
    cursor: Seq<char>,
    delimiter: Option<char>,
    quota: nat,
)
    requires
        strictly_sorted(keys),
        forall|j: int| 0 <= j < keys.len() ==> sentinel_free(#[trigger] keys[j]),
        keys.len() - first_after(keys, cursor) < quota,
    ensures
        !shard_page(keys, cursor, delimiter, quota).truncated,
        shard_page(keys, cursor, delimiter, quota).items.len() <= keys.len() - first_after(keys, cursor),
        forall|t: int|
            0 <= t < shard_page(keys, cursor, delimiter, quota).items.len() ==> row_form(
                keys,
                delimiter,
                first_after(keys, cursor) as int,
                keys.len() as int,
                #[trigger] shard_page(keys, cursor, delimiter, quota).items[t],
            ),
        forall|j: int|
            first_after(keys, cursor) <= j < keys.len() ==> shard_page(
                keys,
                cursor,
                delimiter,
                quota,
            ).items.contains(collapsed(#[trigger] keys[j], delimiter)),
{
    reveal_with_fuel(scan_rounds, 3);
    lemma_first_after(keys, cursor);
    let start = first_after(keys, cursor);
    let n = rows_scanned(keys, cursor, quota, 1);
    let empty = Seq::<Seq<char>>::empty();
    if n > 0 {
        let end = keys.len();
        assert(n == end - start);
        let last = keys[end - 1];
        lemma_emit_rows_whole(keys, delimiter, quota, start, end, empty, None);
        let batch = emit_rows(keys, delimiter, quota, start, end, empty, None);
        let next_cursor = if delimiter is Some && batch.previous is Some {
            past_group(batch.previous->0)
        } else {
            last
        };
        assert forall|j: int| 0 <= j < keys.len() implies !key_less(next_cursor, #[trigger] keys[j]) by {
            if j < end - 1 {
                lemma_less_total(keys[j], last);
            }
            if delimiter is Some && batch.previous is Some {
                lemma_group_before_cursor(last, delimiter->0);
                lemma_less_chain(keys[j], last, next_cursor);
                lemma_less_total(keys[j], next_cursor);
            } else {
                lemma_less_total(keys[j], last);
                lemma_less_irreflexive(last);
            }
        }
        lemma_first_after_is(keys, next_cursor, keys.len() as int);
        assert(rows_scanned(keys, next_cursor, quota, 2) == 0);
    }
}

/// Every item of the buffers is a prefix through the delimiter `d`.
pub open spec fn all_groups(buffers: Seq<Buffer>, d: char) -> bool {
    forall|b: int, t: int|
        0 <= b < buffers.len() && 0 <= t < buffers[b].items.len() ==> has_delimiter(
            #[trigger] buffers[b].items[t],
            d,
        ) && group_prefix(buffers[b].items[t], d) == buffers[b].items[t]
}

/// A merge of group prefixes that cannot fill the page and meets no truncated
/// shard takes in every item of the buffers.
proof fn lemma_merge_whole(
    buffers: Seq<Buffer>,
    d: char,
    max_keys: nat,
    items: Seq<Seq<char>>,
    previous: Option<Seq<char>>,
)
    requires
        items.len() + buffered(buffers) < max_keys,
        !any_truncated(buffers),
        remembers_last(Some(d), items, previous),
        all_groups(buffers, d),
    ensures
        !merge(buffers, Some(d), max_keys, items, previous).full,
        remembers_last(
            Some(d),
            merge(buffers, Some(d), max_keys, items, previous).items,
            merge(buffers, Some(d), max_keys, items, previous).previous,
        ),
        merge(buffers, Some(d), max_keys, items, previous).items.len() >= items.len(),
        forall|t: int|
            0 <= t < items.len() ==> merge(buffers, Some(d), max_keys, items, previous).items[t]
                == items[t],
        forall|b: int, t: int|
            0 <= b < buffers.len() && 0 <= t < buffers[b].items.len() ==> merge(
                buffers,
                Some(d),
                max_keys,
                items,
                previous,
            ).items.contains(#[trigger] buffers[b].items[t]),
        previous is Some || merge(buffers, Some(d), max_keys, items, previous).items.len()
            > items.len() ==> merge(buffers, Some(d), max_keys, items, previous).previous is Some,
    decreases buffered(buffers),
{
    lemma_pick(buffers);
    lemma_pick_halts(buffers);
    match pick(buffers) {
        Some(i) => {
            let x = buffers[i].items[0];
            let after = popped(buffers, i);
            let next = merge_item(x, Some(d), items, previous);
            lemma_buffered_popped(buffers, i);
            assert(has_delimiter(x, d) && group_prefix(x, d) == x);
            assert(next.0 == items || next.0 == items.push(x));
            assert(next.1 == Some(x));
            if any_truncated(after) {
                let s = choose|s: int| 0 <= s < after.len() && (#[trigger] after[s]).truncated;
                assert(buffers[s].truncated);
            }
            assert(all_groups(after, d)) by {
                assert forall|b: int, t: int|
                    0 <= b < after.len() && 0 <= t < after[b].items.len() implies has_delimiter(
                    #[trigger] after[b].items[t],
                    d,
                ) && group_prefix(after[b].items[t], d) == after[b].items[t] by {
                    let u = if b == i {
                        t + 1
                    } else {
                        t
                    };
                    assert(after[b].items[t] == buffers[b].items[u]);
                }
            }
            lemma_merge_whole(after, d, max_keys, next.0, next.1);
            let out = merge(buffers, Some(d), max_keys, items, previous);
            assert(out == merge(after, Some(d), max_keys, next.0, next.1));
            assert(next.0[next.0.len() - 1] == x);
            assert(out.items[next.0.len() - 1] == x);
            assert forall|t: int| 0 <= t < items.len() implies out.items[t] == items[t] by {
                assert(next.0[t] == items[t]);
            }
            assert forall|b: int, t: int|
                0 <= b < buffers.len() && 0 <= t < buffers[b].items.len() implies out.items.contains(
                #[trigger] buffers[b].items[t],
            ) by {
                if b == i && t == 0 {
                } else {
                    let u = if b == i {
                        t - 1
                    } else {
                        t
                    };
                    assert(after[b].items[u] == buffers[b].items[t]);
                }
            }
        },
        None => {},
    }
}

/// Rounds that find no key behind the cursor leave the page as it is, and it
/// is returned not truncated.
proof fn lemma_list_rounds_idle(
    shards: Seq<Seq<Seq<char>>>,
    d: char,
    max_keys: nat,
    estimates: Seq<usize>,
    attempt: nat,
    items: Seq<Seq<char>>,
    calls: nat,
    rows: nat,
    scans: nat,
)
    requires
        0 < items.len() < max_keys,
        forall|s: int, j: int|
            0 <= s < shards.len() && 0 <= j < shards[s].len() ==> !key_less(
                past_group(items.last()),
                #[trigger] shards[s][j],
            ),
    ensures
        list_rounds(
            shards,
            Some(d),
            max_keys,
            estimates,
            attempt,
            past_group(items.last()),
            items,
            Some(items.last()),
            calls,
            rows,
            scans,
        ).page == Ok::<(Seq<Seq<char>>, bool), ListError>((items, false)),
    decreases MAX_ROUNDS + 1 - attempt,
{
    let cursor = past_group(items.last());
    let previous = Some(items.last());
    let quota = shard_quota(estimates[attempt - 1]) as nat;
    let buffers = round_buffers(shards, cursor, Some(d), quota);
    assert forall|s: int| 0 <= s < buffers.len() implies (#[trigger] buffers[s]).items.len() == 0
        && !buffers[s].truncated by {
        lemma_first_after_is(shards[s], cursor, shards[s].len() as int);
        assert(rows_scanned(shards[s], cursor, quota, 1) == 0);
    }
    lemma_pick(buffers);
    assert(merge(buffers, Some(d), max_keys, items, previous).items == items);
    assert(merge(buffers, Some(d), max_keys, items, previous).previous == previous);
    assert(!merge(buffers, Some(d), max_keys, items, previous).full);
    if !(items.len() >= (max_keys + 1) / 2 || attempt >= MAX_ROUNDS) {
        lemma_list_rounds_idle(
            shards,
            d,
            max_keys,
            estimates,
            attempt + 1,
            items,
            calls + shards.len(),
            rows + round_rows(shards, cursor, Some(d), quota, shards.len()),
            scans + round_scans(shards, cursor, Some(d), quota, shards.len()),
        );
    }
}

proof fn lemma_round_buffered_whole(
    shards: Seq<Seq<Seq<char>>>,
    cursor: Seq<char>,
    delimiter: Option<char>,
    quota: nat,
)
    requires
        forall|s: int|
            0 <= s < shards.len() ==> shard_page(#[trigger] shards[s], cursor, delimiter, quota).items.len()
                <= shards[s].len() - first_after(shards[s], cursor),
    ensures
        buffered(round_buffers(shards, cursor, delimiter, quota)) <= keys_behind(shards, cursor),
    decreases shards.len(),
{
    if shards.len() > 0 {
        let buffers = round_buffers(shards, cursor, delimiter, quota);
        let fewer = round_buffers(shards.drop_last(), cursor, delimiter, quota);
        assert(buffers.drop_last() =~= fewer);
        assert forall|s: int| 0 <= s < shards.drop_last().len() implies shard_page(
            #[trigger] shards.drop_last()[s],
            cursor,
            delimiter,
            quota,
        ).items.len() <= shards.drop_last()[s].len() - first_after(shards.drop_last()[s], cursor) by {
            assert(shards.drop_last()[s] == shards[s]);
        }
        lemma_round_buffered_whole(shards.drop_last(), cursor, delimiter, quota);
        assert(shards.last() == shards[shards.len() - 1]);
    }
}

proof fn lemma_keys_behind_positive(shards: Seq<Seq<Seq<char>>>, cursor: Seq<char>)
    requires
        keys_behind(shards, cursor) > 0,
    ensures
        exists|s: int| 0 <= s < shards.len() && first_after(#[trigger] shards[s], cursor) < shards[s].len(),
    decreases shards.len(),
{
    if shards.len() > 0 {
        let s = shards.len() - 1;
        if first_after(shards[s], cursor) < shards[s].len() {
        } else {
            lemma_first_after_within(shards[s], cursor);
            assert(shards.last() == shards[s]);
            lemma_keys_behind_positive(shards.drop_last(), cursor);
            let r = choose|r: int|
                0 <= r < shards.drop_last().len() && first_after(
                    #[trigger] shards.drop_last()[r],
                    cursor,
                ) < shards.drop_last()[r].len();
            assert(shards.drop_last()[r] == shards[r]);
        }
    }
}

/// The buffers of a round in which no shard holds as many keys behind the
/// cursor as the quota: none is truncated, their items are group prefixes,
/// they hold fewer items than there are keys behind the cursor, and the prefix
/// of each such key is among them.
proof fn lemma_round_whole(shards: Seq<Seq<Seq<char>>>, cursor: Seq<char>, d: char, quota: nat)
    requires
        forall|s: int| 0 <= s < shards.len() ==> strictly_sorted(#[trigger] shards[s]),
        forall|s: int, j: int|
            0 <= s < shards.len() && 0 <= j < shards[s].len() ==> sentinel_free(#[trigger] shards[s][j]),
        forall|s: int, j: int|
            0 <= s < shards.len() && first_after(shards[s], cursor) <= j < shards[s].len()
                ==> has_delimiter(#[trigger] shards[s][j], d),
        forall|s: int|
            0 <= s < shards.len() ==> (#[trigger] shards[s]).len() - first_after(shards[s], cursor)
                < quota,
    ensures
        !any_truncated(round_buffers(shards, cursor, Some(d), quota)),
        all_groups(round_buffers(shards, cursor, Some(d), quota), d),
        buffered(round_buffers(shards, cursor, Some(d), quota)) <= keys_behind(shards, cursor),
        forall|s: int, j: int|
            0 <= s < shards.len() && first_after(shards[s], cursor) <= j < shards[s].len()
                ==> round_buffers(shards, cursor, Some(d), quota)[s].items.contains(
                group_prefix(#[trigger] shards[s][j], d),
            ),
{
    let delimiter = Some(d);
    let buffers = round_buffers(shards, cursor, delimiter, quota);
    assert forall|s: int| 0 <= s < shards.len() implies !(#[trigger] buffers[s]).truncated by {
        lemma_shard_page_whole(shards[s], cursor, delimiter, quota);
    }
    assert forall|s: int| 0 <= s < shards.len() implies shard_page(
        #[trigger] shards[s],
        cursor,
        delimiter,
        quota,
    ).items.len() <= shards[s].len() - first_after(shards[s], cursor) by {
        lemma_shard_page_whole(shards[s], cursor, delimiter, quota);
    }
    lemma_round_buffered_whole(shards, cursor, delimiter, quota);
    assert forall|b: int, t: int|
        0 <= b < buffers.len() && 0 <= t < buffers[b].items.len() implies has_delimiter(
        #[trigger] buffers[b].items[t],
        d,
    ) && group_prefix(buffers[b].items[t], d) == buffers[b].items[t] by {
        lemma_shard_page_whole(shards[b], cursor, delimiter, quota);
        let y = buffers[b].items[t];
        let first = first_after(shards[b], cursor) as int;
        assert(row_form(shards[b], delimiter, first, shards[b].len() as int, y));
        let j = choose|j: int|
            first <= j < shards[b].len() && 0 <= j < shards[b].len() && y == collapsed(
                #[trigger] shards[b][j],
                delimiter,
            );
        lemma_collapsed_twice(shards[b][j], delimiter);
    }
    assert forall|s: int, j: int|
        0 <= s < shards.len() && first_after(shards[s], cursor) <= j < shards[s].len() implies buffers[s].items.contains(
        group_prefix(#[trigger] shards[s][j], d),
    ) by {
        lemma_shard_page_whole(shards[s], cursor, delimiter, quota);
        assert(collapsed(shards[s][j], delimiter) == group_prefix(shards[s][j], d));
    }
}

/// Behind the group of the last item of a page that holds the prefix of each
/// key behind the cursor, the bucket holds no key.
proof fn lemma_nothing_behind(
    shards: Seq<Seq<Seq<char>>>,
    cursor: Seq<char>,
    d: char,
    items: Seq<Seq<char>>,
    s: int,
    j: int,
)
    requires
        forall|r: int| 0 <= r < shards.len() ==> strictly_sorted(#[trigger] shards[r]),
        strictly_sorted(items),
        0 <= s < shards.len(),
        0 <= j < shards[s].len(),
        items.len() > 0,
        has_delimiter(items.last(), d),
        group_prefix(items.last(), d) == items.last(),
        forall|r: int, i: int|
            0 <= r < shards.len() && 0 <= i < shards[r].len() ==> sentinel_free(#[trigger] shards[r][i]),
        forall|r: int, i: int|
            0 <= r < shards.len() && first_after(shards[r], cursor) <= i < shards[r].len()
                ==> has_delimiter(#[trigger] shards[r][i], d) && items.contains(
                group_prefix(shards[r][i], d),
            ),
        exists|r: int| 0 <= r < shards.len() && first_after(#[trigger] shards[r], cursor) < shards[r].len(),
    ensures
        !key_less(past_group(items.last()), shards[s][j]),
{
    let last = items.last();
    let next_cursor = past_group(last);
    let k = shards[s][j];
    lemma_less_past_group(last);
    if first_after(shards[s], cursor) <= j {
        lemma_key_before_next(items, d, k);
    } else {
        let r = choose|r: int| 0 <= r < shards.len() && first_after(#[trigger] shards[r], cursor) < shards[r].len();
        let witness = shards[r][first_after(shards[r], cursor) as int];
        lemma_first_after(shards[r], cursor);
        lemma_first_after(shards[s], cursor);
        lemma_key_before_next(items, d, witness);
        lemma_less_transitive(cursor, witness, next_cursor);
        lemma_less_total(cursor, k);
        lemma_less_chain(k, cursor, next_cursor);
    }
    lemma_less_total(k, next_cursor);
}

/// A key whose prefix is in a page of group prefixes lies before the cursor
/// behind the group of the page's last item.
proof fn lemma_key_before_next(items: Seq<Seq<char>>, d: char, k: Seq<char>)
    requires
        strictly_sorted(items),
        items.len() > 0,
        has_delimiter(items.last(), d),
        group_prefix(items.last(), d) == items.last(),
        sentinel_free(k),
        has_delimiter(k, d),
        items.contains(group_prefix(k, d)),
    ensures
        key_less(k, past_group(items.last())),
{
    let last = items.last();
    let c = group_prefix(k, d);
    let t = choose|t: int| 0 <= t < items.len() && items[t] == c;
    lemma_collapsed_twice(k, Some(d));
    lemma_group_before_cursor(k, d);
    lemma_less_past_group(last);
    if t < items.len() - 1 {
        assert(key_less(items[t], items[items.len() - 1]));
        lemma_groups_apart(c, last, d);
        lemma_less_transitive(k, past_group(c), last);
        lemma_less_transitive(k, last, past_group(last));
    }
}

/// With a delimiter, where the bucket holds keys behind the cursor but fewer
/// than `max_keys`, each of them with the delimiter and none with the largest
/// code point, and no shard holds as many of them as it is asked for in the
/// first round, the page holds the prefix of each of them, in strictly
/// increasing order, and is not truncated.
pub proof fn lemma_small_bucket_groups(
    shards: Seq<Seq<Seq<char>>>,
    start: Seq<char>,
    d: char,
    max_keys: nat,
    estimates: Seq<usize>,
)
    requires
        forall|s: int| 0 <= s < shards.len() ==> strictly_sorted(#[trigger] shards[s]),
        placed(shards),
        forall|s: int, j: int|
            0 <= s < shards.len() && 0 <= j < shards[s].len() ==> sentinel_free(#[trigger] shards[s][j]),
        forall|s: int, j: int|
            0 <= s < shards.len() && first_after(shards[s], start_cursor(start, Some(d))) <= j
                < shards[s].len() ==> has_delimiter(#[trigger] shards[s][j], d),
        forall|s: int|
            0 <= s < shards.len() ==> (#[trigger] shards[s]).len() - first_after(
                shards[s],
                start_cursor(start, Some(d)),
            ) < shard_quota(estimates[0]),
        0 < keys_behind(shards, start_cursor(start, Some(d))) < max_keys,
    ensures
        listing(shards, start, Some(d), max_keys, estimates).page matches Ok(page) && {
            &&& !page.1
            &&& strictly_sorted(page.0)
            &&& forall|t: int|
                0 <= t < page.0.len() ==> listed_form(shards, Some(d), #[trigger] page.0[t])
            &&& forall|s: int, j: int|
                0 <= s < shards.len() && first_after(shards[s], start_cursor(start, Some(d))) <= j
                    < shards[s].len() ==> page.0.contains(group_prefix(#[trigger] shards[s][j], d))
        },
{
    let delimiter = Some(d);
    let cursor = start_cursor(start, delimiter);
    let quota = shard_quota(estimates[0]) as nat;
    let buffers = round_buffers(shards, cursor, delimiter, quota);
    let empty = Seq::<Seq<char>>::empty();
    lemma_round_whole(shards, cursor, d, quota);
    lemma_merge_whole(buffers, d, max_keys, empty, None);
    lemma_round_buffers(shards, cursor, delimiter, quota, empty, None);
    lemma_merge(shards, buffers, delimiter, max_keys, empty, None);
    let merged = merge(buffers, delimiter, max_keys, empty, None);
    assert forall|s: int, j: int|
        0 <= s < shards.len() && first_after(shards[s], cursor) <= j < shards[s].len() implies merged.items.contains(
        group_prefix(#[trigger] shards[s][j], d),
    ) by {
        let c = group_prefix(shards[s][j], d);
        assert(buffers[s].items.contains(c));
        let t = choose|t: int| 0 <= t < buffers[s].items.len() && buffers[s].items[t] == c;
        assert(merged.items.contains(buffers[s].items[t]));
    }
    lemma_keys_behind_positive(shards, cursor);
    let ws = choose|s: int| 0 <= s < shards.len() && first_after(#[trigger] shards[s], cursor) < shards[s].len();
    let wj = first_after(shards[ws], cursor) as int;
    assert(merged.items.contains(group_prefix(shards[ws][wj], d)));
    assert(merged.items.len() > 0);
    assert(merged.previous == Some(merged.items.last()));
    if !(merged.items.len() >= (max_keys + 1) / 2) {
        assert forall|s: int, j: int| 0 <= s < shards.len() && 0 <= j < shards[s].len() implies !key_less(
            past_group(merged.items.last()),
            #[trigger] shards[s][j],
        ) by {
            lemma_nothing_behind(shards, cursor, d, merged.items, s, j);
        }
        lemma_list_rounds_idle(
            shards,
            d,
            max_keys,
            estimates,
            2,
            merged.items,
            shards.len(),
            round_rows(shards, cursor, delimiter, quota, shards.len()),
            round_scans(shards, cursor, delimiter, quota, shards.len()),
        );
    }
}

} // verus!
