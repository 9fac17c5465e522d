//! What holds of every answer of a shard: its items are in strictly
//! increasing order, and each stands for a key of the shard.

use crate::key::{
    collapsed, has_delimiter, key_less, lemma_collapsed_behind_plain, lemma_collapsed_monotonic,
    lemma_collapsed_twice, lemma_less_past_group, lemma_less_transitive, past_group,
};
use crate::shard::{first_after, lemma_first_after, lemma_first_after_within, strictly_sorted};
use crate::shard_query::{emit_row, emit_rows, rows_scanned, scan_rounds, shard_page, MAX_SCANS};
use vstd::prelude::*;

verus! {

/// The item `y` may come next in a listing that has put out `items` and
/// remembers `previous`: it sorts behind the last item, or it is the
/// remembered prefix once more.
pub open spec fn may_follow(items: Seq<Seq<char>>, previous: Option<Seq<char>>, y: Seq<char>) -> bool {
    items.len() > 0 ==> key_less(items.last(), y) || (previous == Some(y) && items.last() == y)
}

/// The item `y` is what some key of `keys` collapses to.
pub open spec fn stands_for(keys: Seq<Seq<char>>, delimiter: Option<char>, y: Seq<char>) -> bool {
    exists|j: int| 0 <= j < keys.len() && y == collapsed(#[trigger] keys[j], delimiter)
}

/// A remembered prefix is the last item put out, and a prefix through the
/// delimiter.
pub open spec fn remembers_last(
    delimiter: Option<char>,
    items: Seq<Seq<char>>,
    previous: Option<Seq<char>>,
) -> bool {
    previous matches Some(p) ==> {
        &&& delimiter is Some
        &&& has_delimiter(p, delimiter->0)
        &&& collapsed(p, delimiter) == p
        &&& items.len() > 0
        &&& items.last() == p
    }
}

/// The state of a query that goes on with the rows of `keys` from `from`: the
/// items are in order, each stands for a key, and what any further row
/// collapses to may follow them.
pub open spec fn scan_ok(
    keys: Seq<Seq<char>>,
    delimiter: Option<char>,
    items: Seq<Seq<char>>,
    previous: Option<Seq<char>>,
    from: int,
) -> bool {
    &&& strictly_sorted(items)
    &&& remembers_last(delimiter, items, previous)
    &&& forall|j: int|
        from <= j < keys.len() ==> may_follow(items, previous, collapsed(#[trigger] keys[j], delimiter))
    &&& forall|t: int| 0 <= t < items.len() ==> stands_for(keys, delimiter, #[trigger] items[t])
}

proof fn lemma_push_sorted(items: Seq<Seq<char>>, y: Seq<char>)
    requires
        strictly_sorted(items),
        items.len() > 0 ==> key_less(items.last(), y),
    ensures
        strictly_sorted(items.push(y)),
{
    let after = items.push(y);
    assert forall|i: int, j: int| 0 <= i < j < after.len() implies key_less(
        #[trigger] after[i],
        #[trigger] after[j],
    ) by {
        if j == items.len() {
            if i < items.len() - 1 {
                lemma_less_transitive(items[i], items.last(), y);
            }
        }
    }
}

/// One row keeps the state of a query in order.
proof fn lemma_emit_row(
    keys: Seq<Seq<char>>,
    delimiter: Option<char>,
    i: int,
    items: Seq<Seq<char>>,
    previous: Option<Seq<char>>,
)
    requires
        strictly_sorted(keys),
        0 <= i < keys.len(),
        scan_ok(keys, delimiter, items, previous, i),
    ensures
        scan_ok(
            keys,
            delimiter,
            emit_row(keys[i], delimiter, items, previous).0,
            emit_row(keys[i], delimiter, items, previous).1,
            i + 1,
        ),
        emit_row(keys[i], delimiter, items, previous).0 == items || emit_row(
            keys[i],
            delimiter,
            items,
            previous,
        ).0 == items.push(collapsed(keys[i], delimiter)),
        previous is None ==> emit_row(keys[i], delimiter, items, previous).0 == items.push(
            collapsed(keys[i], delimiter),
        ),
        emit_row(keys[i], delimiter, items, previous).1 is None ==> {
            &&& emit_row(keys[i], delimiter, items, previous).0.last() == keys[i]
            &&& emit_row(keys[i], delimiter, items, previous).0.len() > 0
            &&& (delimiter matches Some(d) ==> !has_delimiter(keys[i], d))
        },
{
    let row = keys[i];
    let c = collapsed(row, delimiter);
    let next = emit_row(row, delimiter, items, previous);
    lemma_collapsed_twice(row, delimiter);
    assert(may_follow(items, previous, c));
    if next.0 != items {
        assert(next.0 == items.push(c));
        lemma_push_sorted(items, c);
        assert forall|j: int| i + 1 <= j < keys.len() implies may_follow(
            next.0,
            next.1,
            collapsed(#[trigger] keys[j], delimiter),
        ) by {
            if next.1 is None {
                lemma_collapsed_behind_plain(row, keys[j], delimiter);
            } else {
                lemma_collapsed_monotonic(row, keys[j], delimiter);
            }
        }
        assert forall|t: int| 0 <= t < next.0.len() implies stands_for(
            keys,
            delimiter,
            #[trigger] next.0[t],
        ) by {
            if t < items.len() {
                assert(next.0[t] == items[t]);
            }
        }
    }
}

/// A batch of rows keeps the state of a query in order. The first row of a
/// query is always put out, and a batch that ends with nothing remembered has
/// put out its last row as it stands.
proof fn lemma_emit_rows(
    keys: Seq<Seq<char>>,
    delimiter: Option<char>,
    quota: nat,
    i: nat,
    end: nat,
    items: Seq<Seq<char>>,
    previous: Option<Seq<char>>,
)
    requires
        strictly_sorted(keys),
        i <= end <= keys.len(),
        scan_ok(keys, delimiter, items, previous, i as int),
    ensures
        scan_ok(
            keys,
            delimiter,
            emit_rows(keys, delimiter, quota, i, end, items, previous).items,
            emit_rows(keys, delimiter, quota, i, end, items, previous).previous,
            end as int,
        ),
        emit_rows(keys, delimiter, quota, i, end, items, previous).items.len() >= items.len(),
        items.len() > 0 ==> emit_rows(keys, delimiter, quota, i, end, items, previous).items[0]
            == items[0],
        items.len() == 0 && previous is None && i < end ==> {
            &&& emit_rows(keys, delimiter, quota, i, end, items, previous).items.len() > 0
            &&& emit_rows(keys, delimiter, quota, i, end, items, previous).items[0] == collapsed(
                keys[i as int],
                delimiter,
            )
        },
        i < end && !emit_rows(keys, delimiter, quota, i, end, items, previous).full && emit_rows(
            keys,
            delimiter,
            quota,
            i,
            end,
            items,
            previous,
        ).previous is None ==> {
            &&& emit_rows(keys, delimiter, quota, i, end, items, previous).items.len() > 0
            &&& emit_rows(keys, delimiter, quota, i, end, items, previous).items.last() == keys[end
                - 1]
            &&& (delimiter matches Some(d) ==> !has_delimiter(keys[end - 1], d))
        },
    decreases end - i,
{
    if i < end {
        lemma_emit_row(keys, delimiter, i as int, items, previous);
        let next = emit_row(keys[i as int], delimiter, items, previous);
        if !(next.0.len() > items.len() && next.0.len() >= quota) {
            lemma_emit_rows(keys, delimiter, quota, i + 1, end, next.0, next.1);
        }
    }
}

/// The scans of a query keep its state in order.
proof fn lemma_scan_rounds(
    keys: Seq<Seq<char>>,
    delimiter: Option<char>,
    quota: nat,
    attempt: nat,
    cursor: Seq<char>,
    items: Seq<Seq<char>>,
    previous: Option<Seq<char>>,
    truncated: bool,
    rows: nat,
    scans: nat,
)
    requires
        strictly_sorted(keys),
        scan_ok(keys, delimiter, items, previous, first_after(keys, cursor) as int),
    ensures
        strictly_sorted(
            scan_rounds(
                keys,
                delimiter,
                quota,
                attempt,
                cursor,
                items,
                previous,
                truncated,
                rows,
                scans,
            ).items,
        ),
        forall|t: int|
            0 <= t < scan_rounds(
                keys,
                delimiter,
                quota,
                attempt,
                cursor,
                items,
                previous,
                truncated,
                rows,
                scans,
            ).items.len() ==> stands_for(
                keys,
                delimiter,
                #[trigger] scan_rounds(
                    keys,
                    delimiter,
                    quota,
                    attempt,
                    cursor,
                    items,
                    previous,
                    truncated,
                    rows,
                    scans,
                ).items[t],
            ),
        items.len() == 0 && previous is None && scan_rounds(
            keys,
            delimiter,
            quota,
            attempt,
            cursor,
            items,
            previous,
            truncated,
            rows,
            scans,
        ).items.len() > 0 ==> {
            &&& first_after(keys, cursor) < keys.len()
            &&& scan_rounds(
                keys,
                delimiter,
                quota,
                attempt,
                cursor,
                items,
                previous,
                truncated,
                rows,
                scans,
            ).items[0] == collapsed(keys[first_after(keys, cursor) as int], delimiter)
        },
        items.len() > 0 ==> scan_rounds(
            keys,
            delimiter,
            quota,
            attempt,
            cursor,
            items,
            previous,
            truncated,
            rows,
            scans,
        ).items[0] == items[0],
    decreases MAX_SCANS + 1 - attempt,
{
    lemma_first_after(keys, cursor);
    if attempt <= MAX_SCANS {
        let start = first_after(keys, cursor);
        let n = rows_scanned(keys, cursor, quota, attempt);
        if n > 0 {
            let end = (start + n) as nat;
            let last = keys[start + n - 1];
            let batch = emit_rows(keys, delimiter, quota, start, end, items, previous);
            lemma_emit_rows(keys, delimiter, quota, start, end, items, previous);
            if !batch.full {
                let next_cursor = if delimiter is Some && batch.previous is Some {
                    past_group(batch.previous->0)
                } else {
                    last
                };
                lemma_first_after(keys, next_cursor);
                assert forall|j: int| first_after(keys, next_cursor) <= j < keys.len() implies may_follow(
                    batch.items,
                    batch.previous,
                    collapsed(#[trigger] keys[j], delimiter),
                ) by {
                    if let Some(p) = batch.previous {
                        lemma_less_past_group(p);
                        lemma_less_transitive(p, next_cursor, keys[j]);
                        lemma_collapsed_monotonic(p, keys[j], delimiter);
                    } else {
                        lemma_collapsed_behind_plain(last, keys[j], delimiter);
                    }
                }
                lemma_scan_rounds(
                    keys,
                    delimiter,
                    quota,
                    attempt + 1,
                    next_cursor,
                    batch.items,
                    batch.previous,
                    last != keys.last(),
                    (rows + n) as nat,
                    scans + 1,
                );
            }
        }
    }
}

/// The items that a shard returns are in strictly increasing order; each is
/// what a key of the shard collapses to; and the first is what the first key
/// behind the cursor collapses to.
pub proof fn lemma_shard_page_ordered(
    keys: Seq<Seq<char>>,
    cursor: Seq<char>,
    delimiter: Option<char>,
    quota: nat,
)
    requires
        strictly_sorted(keys),
    ensures
        strictly_sorted(shard_page(keys, cursor, delimiter, quota).items),
        forall|t: int|
            0 <= t < shard_page(keys, cursor, delimiter, quota).items.len() ==> stands_for(
                keys,
                delimiter,
                #[trigger] shard_page(keys, cursor, delimiter, quota).items[t],
            ),
        shard_page(keys, cursor, delimiter, quota).items.len() > 0 ==> {
            &&& first_after(keys, cursor) < keys.len()
            &&& shard_page(keys, cursor, delimiter, quota).items[0] == collapsed(
                keys[first_after(keys, cursor) as int],
                delimiter,
            )
        },
{
    lemma_scan_rounds(keys, delimiter, quota, 1, cursor, Seq::empty(), None, false, 0, 0);
}

proof fn lemma_emit_rows_bounded(
    keys: Seq<Seq<char>>,
    delimiter: Option<char>,
    quota: nat,
    i: nat,
    end: nat,
    items: Seq<Seq<char>>,
    previous: Option<Seq<char>>,
)
    requires
        items.len() < quota,
    ensures
        emit_rows(keys, delimiter, quota, i, end, items, previous).items.len() <= quota,
        !emit_rows(keys, delimiter, quota, i, end, items, previous).full ==> emit_rows(
            keys,
            delimiter,
            quota,
            i,
            end,
            items,
            previous,
        ).items.len() < quota,
    decreases end - i,
{
    if i < end {
        let next = emit_row(keys[i as int], delimiter, items, previous);
        if !(next.0.len() > items.len() && next.0.len() >= quota) {
            lemma_emit_rows_bounded(keys, delimiter, quota, i + 1, end, next.0, next.1);
        }
    }
}

proof fn lemma_scan_rounds_bounded(
    keys: Seq<Seq<char>>,
    delimiter: Option<char>,
    quota: nat,
    attempt: nat,
    cursor: Seq<char>,
    items: Seq<Seq<char>>,
    previous: Option<Seq<char>>,
    truncated: bool,
    rows: nat,
    scans: nat,
)
    requires
        attempt >= 1,
        items.len() < quota || items.len() == 0,
    ensures
        scan_rounds(
            keys,
            delimiter,
            quota,
            attempt,
            cursor,
            items,
            previous,
            truncated,
            rows,
            scans,
        ).items.len() <= quota,
    decreases MAX_SCANS + 1 - attempt,
{
    if attempt <= MAX_SCANS {
        let start = first_after(keys, cursor);
        let n = rows_scanned(keys, cursor, quota, attempt);
        if n > 0 {
            let end = (start + n) as nat;
            let batch = emit_rows(keys, delimiter, quota, start, end, items, previous);
            lemma_emit_rows_bounded(keys, delimiter, quota, start, end, items, previous);
            if !batch.full {
                let next_cursor = if delimiter is Some && batch.previous is Some {
                    past_group(batch.previous->0)
                } else {
                    keys[start + n - 1]
                };
                lemma_scan_rounds_bounded(
                    keys,
                    delimiter,
                    quota,
                    attempt + 1,
                    next_cursor,
                    batch.items,
                    batch.previous,
                    keys[start + n - 1] != keys.last(),
                    (rows + n) as nat,
                    scans + 1,
                );
            }
        }
    }
}

/// A shard returns no more items than the quota.
pub proof fn lemma_shard_page_bounded(
    keys: Seq<Seq<char>>,
    cursor: Seq<char>,
    delimiter: Option<char>,
    quota: nat,
)
    ensures
        shard_page(keys, cursor, delimiter, quota).items.len() <= quota,
{
    lemma_scan_rounds_bounded(keys, delimiter, quota, 1, cursor, Seq::empty(), None, false, 0, 0);
}

proof fn lemma_scan_rounds_work(
    keys: Seq<Seq<char>>,
    delimiter: Option<char>,
    quota: nat,
    attempt: nat,
    cursor: Seq<char>,
    items: Seq<Seq<char>>,
    previous: Option<Seq<char>>,
    truncated: bool,
    rows: nat,
    scans: nat,
)
    requires
        1 <= attempt <= MAX_SCANS + 1,
    ensures
        scan_rounds(keys, delimiter, quota, attempt, cursor, items, previous, truncated, rows, scans).scans
            <= scans + (MAX_SCANS + 1 - attempt),
        scan_rounds(keys, delimiter, quota, attempt, cursor, items, previous, truncated, rows, scans).rows
            <= rows + (MAX_SCANS + 1 - attempt) * quota,
        scan_rounds(keys, delimiter, quota, attempt, cursor, items, previous, truncated, rows, scans).rows
            <= rows + keys.len() * (MAX_SCANS + 1 - attempt),
    decreases MAX_SCANS + 1 - attempt,
{
    if attempt <= MAX_SCANS {
        let start = first_after(keys, cursor);
        let n = rows_scanned(keys, cursor, quota, attempt);
        lemma_first_after_within(keys, cursor);
        if n > 0 {
            let end = (start + n) as nat;
            let batch = emit_rows(keys, delimiter, quota, start, end, items, previous);
            if !batch.full {
                let next_cursor = if delimiter is Some && batch.previous is Some {
                    past_group(batch.previous->0)
                } else {
                    keys[start + n - 1]
                };
                lemma_scan_rounds_work(
                    keys,
                    delimiter,
                    quota,
                    attempt + 1,
                    next_cursor,
                    batch.items,
                    batch.previous,
                    keys[start + n - 1] != keys.last(),
                    (rows + n) as nat,
                    scans + 1,
                );
            }
            let left = MAX_SCANS + 1 - attempt;
            assert(n + (left - 1) * quota <= left * quota) by (nonlinear_arith)
                requires
                    n <= quota,
                    left >= 1,
            ;
            assert(n + keys.len() * (left - 1) <= keys.len() * left) by (nonlinear_arith)
                requires
                    n <= keys.len(),
                    left >= 1,
            ;
        }
    }
}

/// The work of a shard on one query is bounded: it makes at most `MAX_SCANS`
/// scans, and each returns no more rows than the quota and than the shard
/// holds.
pub proof fn lemma_shard_page_work(
    keys: Seq<Seq<char>>,
    cursor: Seq<char>,
    delimiter: Option<char>,
    quota: nat,
)
    ensures
        shard_page(keys, cursor, delimiter, quota).scans <= MAX_SCANS,
        shard_page(keys, cursor, delimiter, quota).rows <= MAX_SCANS * quota,
        shard_page(keys, cursor, delimiter, quota).rows <= keys.len() * MAX_SCANS,
{
    lemma_scan_rounds_work(keys, delimiter, quota, 1, cursor, Seq::empty(), None, false, 0, 0);
}

} // verus!
