//! What holds of every page of a listing: it is in strictly increasing order,
//! it holds no more than the page size, and each item stands for a key of the
//! bucket.

use crate::bucket::placed;
use crate::key::{
    collapsed, has_delimiter, key_at_most, key_less, lemma_collapsed_monotonic,
    lemma_collapsed_twice, lemma_less_chain, lemma_less_past_group, lemma_less_total,
    lemma_less_transitive, past_group, start_cursor,
};
use crate::listing::{
    buffered, lemma_buffered_popped, lemma_pick, list_rounds, listing, merge, merge_item, pick,
    pick_from, popped, round_buffers, shard_quota, Buffer, MAX_ROUNDS,
};
use crate::shard::{first_after, lemma_first_after, strictly_sorted};
use crate::shard_order::{lemma_shard_page_ordered, may_follow, remembers_last, stands_for};
use crate::shard_query::shard_page;
use vstd::prelude::*;

verus! {

/// The item `y` is what some key of some shard collapses to.
pub open spec fn listed_form(shards: Seq<Seq<Seq<char>>>, delimiter: Option<char>, y: Seq<char>) -> bool {
    exists|s: int| 0 <= s < shards.len() && stands_for(#[trigger] shards[s], delimiter, y)
}

/// The buffers of a merge are each in order, their items are collapsed forms
/// of keys of the bucket, each may follow the page, and without a delimiter no
/// item lies in two buffers.
pub open spec fn buffers_ok(
    shards: Seq<Seq<Seq<char>>>,
    buffers: Seq<Buffer>,
    delimiter: Option<char>,
    items: Seq<Seq<char>>,
    previous: Option<Seq<char>>,
) -> bool {
    &&& forall|b: int| 0 <= b < buffers.len() ==> strictly_sorted((#[trigger] buffers[b]).items)
    &&& forall|b: int, t: int|
        0 <= b < buffers.len() && 0 <= t < buffers[b].items.len() ==> {
            &&& collapsed(#[trigger] buffers[b].items[t], delimiter) == buffers[b].items[t]
            &&& listed_form(shards, delimiter, buffers[b].items[t])
            &&& may_follow(items, previous, buffers[b].items[t])
        }
    &&& delimiter is None ==> forall|a: int, b: int, s: int, t: int|
        0 <= a < buffers.len() && 0 <= b < buffers.len() && a != b && 0 <= s < buffers[a].items.len()
            && 0 <= t < buffers[b].items.len() ==> #[trigger] buffers[a].items[s]
            != #[trigger] buffers[b].items[t]
}

/// The page of a listing under way is in order, within the page size, made of
/// collapsed forms of keys of the bucket, and remembers its last item if
/// anything.
pub open spec fn page_ok(
    shards: Seq<Seq<Seq<char>>>,
    delimiter: Option<char>,
    max_keys: nat,
    items: Seq<Seq<char>>,
    previous: Option<Seq<char>>,
) -> bool {
    &&& strictly_sorted(items)
    &&& items.len() <= max_keys
    &&& remembers_last(delimiter, items, previous)
    &&& forall|t: int|
        0 <= t < items.len() ==> {
            &&& listed_form(shards, delimiter, #[trigger] items[t])
            &&& collapsed(items[t], delimiter) == items[t]
        }
}

proof fn lemma_pick_from_least(buffers: Seq<Buffer>, i: nat, best: Option<int>)
    requires
        i <= buffers.len(),
        best matches Some(b) ==> 0 <= b < buffers.len() && buffers[b].items.len() > 0,
        forall|j: int|
            0 <= j < i && (#[trigger] buffers[j]).items.len() > 0 ==> best is Some && key_at_most(
                buffers[best->0].items[0],
                buffers[j].items[0],
            ),
    ensures
        pick_from(buffers, i, best) matches Some(p) ==> forall|j: int|
            0 <= j < buffers.len() && (#[trigger] buffers[j]).items.len() > 0 ==> key_at_most(
                buffers[p].items[0],
                buffers[j].items[0],
            ),
    decreases buffers.len() - i,
{
    if i >= buffers.len() {
    } else if buffers[i as int].items.len() == 0 {
        if !buffers[i as int].truncated {
            lemma_pick_from_least(buffers, i + 1, best);
        }
    } else {
        let head = buffers[i as int].items[0];
        let better = match best {
            Some(b) => key_less(head, buffers[b].items[0]),
            None => true,
        };
        let next = if better {
            Some(i as int)
        } else {
            best
        };
        assert forall|j: int| 0 <= j < i + 1 && (#[trigger] buffers[j]).items.len() > 0 implies next
            is Some && key_at_most(buffers[next->0].items[0], buffers[j].items[0]) by {
            if j < i {
                if better {
                    lemma_less_chain(head, buffers[best->0].items[0], buffers[j].items[0]);
                }
            } else if !better {
                lemma_less_total(head, buffers[best->0].items[0]);
            }
        }
        lemma_pick_from_least(buffers, i + 1, next);
    }
}

/// No buffer's first item sorts before the first item of the buffer picked.
pub proof fn lemma_pick_least(buffers: Seq<Buffer>)
    ensures
        pick(buffers) matches Some(p) ==> forall|j: int|
            0 <= j < buffers.len() && (#[trigger] buffers[j]).items.len() > 0 ==> key_at_most(
                buffers[p].items[0],
                buffers[j].items[0],
            ),
{
    lemma_pick_from_least(buffers, 0, None);
}

proof fn lemma_push_page(
    shards: Seq<Seq<Seq<char>>>,
    delimiter: Option<char>,
    max_keys: nat,
    items: Seq<Seq<char>>,
    y: Seq<char>,
)
    requires
        strictly_sorted(items),
        items.len() < max_keys,
        forall|t: int|
            0 <= t < items.len() ==> {
                &&& listed_form(shards, delimiter, #[trigger] items[t])
                &&& collapsed(items[t], delimiter) == items[t]
            },
        items.len() > 0 ==> key_less(items.last(), y),
        listed_form(shards, delimiter, y),
        collapsed(y, delimiter) == y,
    ensures
        strictly_sorted(items.push(y)),
        forall|t: int|
            0 <= t < items.push(y).len() ==> {
                &&& listed_form(shards, delimiter, #[trigger] items.push(y)[t])
                &&& collapsed(items.push(y)[t], delimiter) == items.push(y)[t]
            },
{
    let after = items.push(y);
    assert forall|i: int, j: int| 0 <= i < j < after.len() implies key_less(
        #[trigger] after[i],
        #[trigger] after[j],
    ) by {
        if j == items.len() {
            if i < items.len() - 1 {
                lemma_less_transitive(items[i], items.last(), y);
            }
        }
    }
    assert forall|t: int| 0 <= t < after.len() implies {
        &&& listed_form(shards, delimiter, #[trigger] after[t])
        &&& collapsed(after[t], delimiter) == after[t]
    } by {
        if t < items.len() {
            assert(after[t] == items[t]);
        }
    }
}

/// Merging the item picked keeps the page and the buffers in order.
proof fn lemma_merge_step(
    shards: Seq<Seq<Seq<char>>>,
    buffers: Seq<Buffer>,
    delimiter: Option<char>,
    max_keys: nat,
    items: Seq<Seq<char>>,
    previous: Option<Seq<char>>,
    i: int,
)
    requires
        page_ok(shards, delimiter, max_keys, items, previous),
        buffers_ok(shards, buffers, delimiter, items, previous),
        items.len() < max_keys,
        pick(buffers) == Some(i),
    ensures
        0 <= i < buffers.len(),
        buffers[i].items.len() > 0,
        page_ok(
            shards,
            delimiter,
            max_keys,
            merge_item(buffers[i].items[0], delimiter, items, previous).0,
            merge_item(buffers[i].items[0], delimiter, items, previous).1,
        ),
        buffers_ok(
            shards,
            popped(buffers, i),
            delimiter,
            merge_item(buffers[i].items[0], delimiter, items, previous).0,
            merge_item(buffers[i].items[0], delimiter, items, previous).1,
        ),
{
    lemma_pick(buffers);
    lemma_pick_least(buffers);
    let x = buffers[i].items[0];
    let next = merge_item(x, delimiter, items, previous);
    let after = popped(buffers, i);
    assert(may_follow(items, previous, x));
    assert(collapsed(x, delimiter) == x);
    if next.0 != items {
        assert(next.0 == items.push(x));
        lemma_push_page(shards, delimiter, max_keys, items, x);
    }
    assert forall|b: int| 0 <= b < after.len() implies strictly_sorted((#[trigger] after[b]).items) by {
        if b == i {
            let rest = after[b].items;
            assert forall|s: int, t: int| 0 <= s < t < rest.len() implies key_less(
                #[trigger] rest[s],
                #[trigger] rest[t],
            ) by {
                assert(rest[s] == buffers[i].items[s + 1]);
                assert(rest[t] == buffers[i].items[t + 1]);
            }
        } else {
            assert(after[b] == buffers[b]);
        }
    }
    assert forall|b: int, t: int| 0 <= b < after.len() && 0 <= t < after[b].items.len() implies {
        &&& collapsed(#[trigger] after[b].items[t], delimiter) == after[b].items[t]
        &&& listed_form(shards, delimiter, after[b].items[t])
        &&& may_follow(next.0, next.1, after[b].items[t])
    } by {
        let y = after[b].items[t];
        let u = if b == i {
            t + 1
        } else {
            t
        };
        assert(y == buffers[b].items[u]);
        assert(may_follow(items, previous, y));
        if b == i {
            assert(key_less(x, y));
        } else {
            assert(buffers[b].items.len() > 0);
            assert(key_at_most(x, buffers[b].items[0]));
            if u > 0 {
                lemma_less_chain(x, buffers[b].items[0], y);
            }
            if delimiter is None {
                assert(buffers[i].items[0] != buffers[b].items[u]);
            }
        }
        assert(key_at_most(x, y));
        if next.0 == items && next.1 != previous && items.len() > 0 {
            assert(!has_delimiter(x, delimiter->0));
            assert(key_less(items.last(), x));
            lemma_less_chain(items.last(), x, y);
        }
    }
    if delimiter is None {
        assert forall|a: int, b: int, s: int, t: int|
            0 <= a < after.len() && 0 <= b < after.len() && a != b && 0 <= s < after[a].items.len()
                && 0 <= t < after[b].items.len() implies #[trigger] after[a].items[s]
            != #[trigger] after[b].items[t] by {
            let sa = if a == i {
                s + 1
            } else {
                s
            };
            let tb = if b == i {
                t + 1
            } else {
                t
            };
            assert(after[a].items[s] == buffers[a].items[sa]);
            assert(after[b].items[t] == buffers[b].items[tb]);
        }
    }
}

/// The merge of a round keeps the page in order and within the page size, and
/// it is full exactly where the page reached the page size.
pub proof fn lemma_merge(
    shards: Seq<Seq<Seq<char>>>,
    buffers: Seq<Buffer>,
    delimiter: Option<char>,
    max_keys: nat,
    items: Seq<Seq<char>>,
    previous: Option<Seq<char>>,
)
    requires
        page_ok(shards, delimiter, max_keys, items, previous),
        buffers_ok(shards, buffers, delimiter, items, previous),
    ensures
        page_ok(
            shards,
            delimiter,
            max_keys,
            merge(buffers, delimiter, max_keys, items, previous).items,
            merge(buffers, delimiter, max_keys, items, previous).previous,
        ),
        merge(buffers, delimiter, max_keys, items, previous).full <==> merge(
            buffers,
            delimiter,
            max_keys,
            items,
            previous,
        ).items.len() == max_keys,
    decreases buffered(buffers),
{
    if items.len() < max_keys {
        if let Some(i) = pick(buffers) {
            lemma_merge_step(shards, buffers, delimiter, max_keys, items, previous, i);
            lemma_buffered_popped(buffers, i);
            let next = merge_item(buffers[i].items[0], delimiter, items, previous);
            lemma_merge(shards, popped(buffers, i), delimiter, max_keys, next.0, next.1);
        }
    }
}

/// What the shards return behind a cursor may follow a page, if what any key
/// behind the cursor collapses to may.
pub proof fn lemma_round_buffers(
    shards: Seq<Seq<Seq<char>>>,
    cursor: Seq<char>,
    delimiter: Option<char>,
    quota: nat,
    items: Seq<Seq<char>>,
    previous: Option<Seq<char>>,
)
    requires
        forall|s: int| 0 <= s < shards.len() ==> strictly_sorted(#[trigger] shards[s]),
        placed(shards),
        forall|k: Seq<char>|
            key_less(cursor, k) ==> may_follow(items, previous, #[trigger] collapsed(k, delimiter)),
    ensures
        buffers_ok(shards, round_buffers(shards, cursor, delimiter, quota), delimiter, items, previous),
{
    let buffers = round_buffers(shards, cursor, delimiter, quota);
    assert forall|b: int| 0 <= b < buffers.len() implies strictly_sorted((#[trigger] buffers[b]).items) by {
        lemma_shard_page_ordered(shards[b], cursor, delimiter, quota);
    }
    assert forall|b: int, t: int| 0 <= b < buffers.len() && 0 <= t < buffers[b].items.len() implies {
        &&& collapsed(#[trigger] buffers[b].items[t], delimiter) == buffers[b].items[t]
        &&& listed_form(shards, delimiter, buffers[b].items[t])
        &&& may_follow(items, previous, buffers[b].items[t])
    } by {
        lemma_shard_page_ordered(shards[b], cursor, delimiter, quota);
        lemma_first_after(shards[b], cursor);
        let page = shard_page(shards[b], cursor, delimiter, quota).items;
        let y = page[t];
        assert(stands_for(shards[b], delimiter, y));
        let j = choose|j: int| 0 <= j < shards[b].len() && y == collapsed(#[trigger] shards[b][j], delimiter);
        lemma_collapsed_twice(shards[b][j], delimiter);
        let first = shards[b][first_after(shards[b], cursor) as int];
        assert(may_follow(items, previous, collapsed(first, delimiter)));
        if t > 0 && items.len() > 0 {
            lemma_less_chain(items.last(), page[0], y);
        }
    }
    if delimiter is None {
        assert forall|a: int, b: int, s: int, t: int|
            0 <= a < buffers.len() && 0 <= b < buffers.len() && a != b && 0 <= s < buffers[a].items.len()
                && 0 <= t < buffers[b].items.len() implies #[trigger] buffers[a].items[s]
            != #[trigger] buffers[b].items[t] by {
            lemma_shard_page_ordered(shards[a], cursor, delimiter, quota);
            lemma_shard_page_ordered(shards[b], cursor, delimiter, quota);
            let ya = buffers[a].items[s];
            let yb = buffers[b].items[t];
            assert(stands_for(shards[a], delimiter, ya));
            assert(stands_for(shards[b], delimiter, yb));
            let ja = choose|j: int| 0 <= j < shards[a].len() && ya == collapsed(#[trigger] shards[a][j], delimiter);
            let jb = choose|j: int| 0 <= j < shards[b].len() && yb == collapsed(#[trigger] shards[b][j], delimiter);
            assert(crate::digest::shard_of_key(shards[a][ja], shards.len()) == a);
            assert(crate::digest::shard_of_key(shards[b][jb], shards.len()) == b);
        }
    }
}

/// The rounds of a listing keep the page in order and within the page size.
proof fn lemma_list_rounds(
    shards: Seq<Seq<Seq<char>>>,
    delimiter: Option<char>,
    max_keys: nat,
    estimates: Seq<usize>,
    attempt: nat,
    cursor: Seq<char>,
    items: Seq<Seq<char>>,
    previous: Option<Seq<char>>,
    calls: nat,
    rows: nat,
    scans: nat,
)
    requires
        forall|s: int| 0 <= s < shards.len() ==> strictly_sorted(#[trigger] shards[s]),
        placed(shards),
        page_ok(shards, delimiter, max_keys, items, previous),
        forall|k: Seq<char>|
            key_less(cursor, k) ==> may_follow(items, previous, #[trigger] collapsed(k, delimiter)),
    ensures
        list_rounds(
            shards,
            delimiter,
            max_keys,
            estimates,
            attempt,
            cursor,
            items,
            previous,
            calls,
            rows,
            scans,
        ).page matches Ok(page) ==> page_ok(shards, delimiter, max_keys, page.0, None),
    decreases MAX_ROUNDS + 1 - attempt,
{
    let quota = shard_quota(estimates[attempt - 1]) as nat;
    let buffers = round_buffers(shards, cursor, delimiter, quota);
    lemma_round_buffers(shards, cursor, delimiter, quota, items, previous);
    lemma_merge(shards, buffers, delimiter, max_keys, items, previous);
    let merged = merge(buffers, delimiter, max_keys, items, previous);
    if delimiter is Some && merged.previous is None && !merged.full {
    } else if merged.full || merged.items.len() == 0 || merged.items.len() >= (max_keys + 1) / 2
        || attempt >= MAX_ROUNDS {
    } else {
        let next_cursor = if delimiter is Some {
            past_group(merged.previous->0)
        } else {
            merged.items.last()
        };
        assert forall|k: Seq<char>| key_less(next_cursor, k) implies may_follow(
            merged.items,
            merged.previous,
            #[trigger] collapsed(k, delimiter),
        ) by {
            if delimiter is Some {
                let p = merged.previous->0;
                lemma_less_past_group(p);
                lemma_less_transitive(p, next_cursor, k);
                lemma_collapsed_monotonic(p, k, delimiter);
            }
        }
        lemma_list_rounds(
            shards,
            delimiter,
            max_keys,
            estimates,
            attempt + 1,
            next_cursor,
            merged.items,
            merged.previous,
            calls + shards.len(),
            rows + crate::listing::round_rows(shards, cursor, delimiter, quota, shards.len()),
            scans + crate::listing::round_scans(shards, cursor, delimiter, quota, shards.len()),
        );
    }
}

/// Every page is in strictly increasing order, so without duplicates and in
/// the order of one sorted scan of the whole bucket; it holds no more than
/// `max_keys` items; and each item is what a key of the bucket collapses to,
/// so that no two items share a collapsed prefix.
pub proof fn lemma_page_ordered(
    shards: Seq<Seq<Seq<char>>>,
    start: Seq<char>,
    delimiter: Option<char>,
    max_keys: nat,
    estimates: Seq<usize>,
)
    requires
        forall|s: int| 0 <= s < shards.len() ==> strictly_sorted(#[trigger] shards[s]),
        placed(shards),
    ensures
        listing(shards, start, delimiter, max_keys, estimates).page matches Ok(page) ==> {
            &&& strictly_sorted(page.0)
            &&& page.0.len() <= max_keys
            &&& forall|t: int|
                0 <= t < page.0.len() ==> {
                    &&& listed_form(shards, delimiter, #[trigger] page.0[t])
                    &&& collapsed(page.0[t], delimiter) == page.0[t]
                }
        },
{
    lemma_list_rounds(
        shards,
        delimiter,
        max_keys,
        estimates,
        1,
        start_cursor(start, delimiter),
        Seq::empty(),
        None,
        0,
        0,
        0,
    );
}

proof fn lemma_list_rounds_calls(
    shards: Seq<Seq<Seq<char>>>,
    delimiter: Option<char>,
    max_keys: nat,
    estimates: Seq<usize>,
    attempt: nat,
    cursor: Seq<char>,
    items: Seq<Seq<char>>,
    previous: Option<Seq<char>>,
    calls: nat,
    rows: nat,
    scans: nat,
)
    requires
        1 <= attempt <= MAX_ROUNDS,
    ensures
        calls + shards.len() <= list_rounds(
            shards,
            delimiter,
            max_keys,
            estimates,
            attempt,
            cursor,
            items,
            previous,
            calls,
            rows,
            scans,
        ).calls <= calls + (MAX_ROUNDS + 1 - attempt) * shards.len(),
    decreases MAX_ROUNDS + 1 - attempt,
{
    let quota = shard_quota(estimates[attempt - 1]) as nat;
    let buffers = round_buffers(shards, cursor, delimiter, quota);
    let merged = merge(buffers, delimiter, max_keys, items, previous);
    let left = MAX_ROUNDS + 1 - attempt;
    assert(shards.len() + (left - 1) * shards.len() == left * shards.len()) by (nonlinear_arith);
    assert(shards.len() <= left * shards.len()) by (nonlinear_arith)
        requires
            left >= 1,
    ;
    if delimiter is Some && merged.previous is None && !merged.full {
    } else if merged.full || merged.items.len() == 0 || merged.items.len() >= (max_keys + 1) / 2
        || attempt >= MAX_ROUNDS {
    } else {
        let next_cursor = if delimiter is Some {
            past_group(merged.previous->0)
        } else {
            merged.items.last()
        };
        lemma_list_rounds_calls(
            shards,
            delimiter,
            max_keys,
            estimates,
            attempt + 1,
            next_cursor,
            merged.items,
            merged.previous,
            calls + shards.len(),
            rows + crate::listing::round_rows(shards, cursor, delimiter, quota, shards.len()),
            scans + crate::listing::round_scans(shards, cursor, delimiter, quota, shards.len()),
        );
    }
}

/// A listing asks every shard at least once and at most `MAX_ROUNDS` times.
pub proof fn lemma_listing_calls(
    shards: Seq<Seq<Seq<char>>>,
    start: Seq<char>,
    delimiter: Option<char>,
    max_keys: nat,
    estimates: Seq<usize>,
)
    ensures
        shards.len() <= listing(shards, start, delimiter, max_keys, estimates).calls <= MAX_ROUNDS
            * shards.len(),
{
    lemma_list_rounds_calls(
        shards,
        delimiter,
        max_keys,
        estimates,
        1,
        start_cursor(start, delimiter),
        Seq::empty(),
        None,
        0,
        0,
        0,
    );
}

} // verus!
