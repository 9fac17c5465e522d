//! Keys, their order, delimiter collapsing and scan cursors.
//!
//! A key is a string, modelled as the sequence of its characters. Keys are
//! ordered lexicographically by code point, which is the order of their UTF-8
//! bytes.

use vstd::prelude::*;
use vstd::std_specs::iter::IteratorSpec;
use vstd::string::*;

verus! {

/// The first position at or after `i` where `a` and `b` stop agreeing: either
/// the characters differ there or one of the two keys ends.
pub open spec fn agree_from(a: Seq<char>, b: Seq<char>, i: nat) -> nat
    decreases a.len() - i,
{
    if i < a.len() && i < b.len() && a[i as int] == b[i as int] {
        agree_from(a, b, i + 1)
    } else {
        i
    }
}

/// The length of the longest common prefix of `a` and `b`.
pub open spec fn first_difference(a: Seq<char>, b: Seq<char>) -> nat {
    agree_from(a, b, 0)
}

/// Strict lexicographic order on keys: `a` sorts before `b` when `a` is a
/// proper prefix of `b`, or when at the first position where they differ the
/// character of `a` has the smaller code point.
pub open spec fn key_less(a: Seq<char>, b: Seq<char>) -> bool {
    let d = first_difference(a, b) as int;
    d < b.len() && (d == a.len() || a[d] < b[d])
}

/// `a` sorts before `b` or equals it.
pub open spec fn key_at_most(a: Seq<char>, b: Seq<char>) -> bool {
    a == b || key_less(a, b)
}

proof fn lemma_agree_from(a: Seq<char>, b: Seq<char>, i: nat)
    requires
        i <= a.len(),
        i <= b.len(),
        forall|j: int| 0 <= j < i ==> a[j] == b[j],
    ensures
        i <= agree_from(a, b, i) <= a.len(),
        agree_from(a, b, i) <= b.len(),
        forall|j: int| 0 <= j < agree_from(a, b, i) ==> a[j] == b[j],
        agree_from(a, b, i) < a.len() && agree_from(a, b, i) < b.len() ==> a[agree_from(
            a,
            b,
            i,
        ) as int] != b[agree_from(a, b, i) as int],
    decreases a.len() - i,
{
    if i < a.len() && i < b.len() && a[i as int] == b[i as int] {
        lemma_agree_from(a, b, i + 1);
    }
}

/// What `first_difference` is: the two keys agree before it, and at it they
/// differ or one of them ends.
pub proof fn lemma_first_difference(a: Seq<char>, b: Seq<char>)
    ensures
        first_difference(a, b) <= a.len(),
        first_difference(a, b) <= b.len(),
        forall|j: int| 0 <= j < first_difference(a, b) ==> a[j] == b[j],
        first_difference(a, b) < a.len() && first_difference(a, b) < b.len() ==> a[first_difference(
            a,
            b,
        ) as int] != b[first_difference(a, b) as int],
{
    lemma_agree_from(a, b, 0);
}

/// A position with the properties of `first_difference` is it.
pub proof fn lemma_first_difference_is(a: Seq<char>, b: Seq<char>, m: int)
    requires
        0 <= m <= a.len(),
        m <= b.len(),
        forall|j: int| 0 <= j < m ==> a[j] == b[j],
        m < a.len() && m < b.len() ==> a[m] != b[m],
    ensures
        first_difference(a, b) == m,
{
    lemma_first_difference(a, b);
    let d = first_difference(a, b) as int;
    if d < m {
        assert(a[d] == b[d]);
    }
    if m < d {
        assert(a[m] == b[m]);
    }
}

/// Characters are ordered by code point: two different ones are ordered one
/// way or the other, and none lies above the largest code point.
pub proof fn lemma_char_order(x: char, y: char)
    ensures
        x != y ==> x < y || y < x,
        x <= '\u{10FFFF}',
{
}

/// No key sorts before itself.
pub proof fn lemma_less_irreflexive(a: Seq<char>)
    ensures
        !key_less(a, a),
{
    lemma_first_difference_is(a, a, a.len() as int);
}

/// Of two different keys one sorts before the other, and never both.
pub proof fn lemma_less_total(a: Seq<char>, b: Seq<char>)
    ensures
        a != b ==> key_less(a, b) || key_less(b, a),
        !(key_less(a, b) && key_less(b, a)),
        key_less(a, b) ==> a != b,
{
    lemma_first_difference(a, b);
    let d = first_difference(a, b) as int;
    lemma_first_difference_is(b, a, d);
    if d == a.len() && d == b.len() {
        assert(a =~= b);
    }
    if d < a.len() && d < b.len() {
        lemma_char_order(a[d], b[d]);
    }
    lemma_less_irreflexive(a);
}

/// The order is transitive.
pub proof fn lemma_less_transitive(a: Seq<char>, b: Seq<char>, c: Seq<char>)
    requires
        key_less(a, b),
        key_less(b, c),
    ensures
        key_less(a, c),
{
    lemma_first_difference(a, b);
    lemma_first_difference(b, c);
    let d1 = first_difference(a, b) as int;
    let d2 = first_difference(b, c) as int;
    let m = if d1 <= d2 { d1 } else { d2 };
    assert forall|j: int| 0 <= j < m implies a[j] == c[j] by {
        assert(a[j] == b[j]);
        assert(b[j] == c[j]);
    }
    if d1 < d2 {
        assert(b[d1] == c[d1]);
    }
    if d2 < d1 {
        assert(a[d2] == b[d2]);
    }
    lemma_first_difference_is(a, c, m);
}

/// Mixed transitivity: `a <= b < c` and `a < b <= c` both give `a < c`.
pub proof fn lemma_less_chain(a: Seq<char>, b: Seq<char>, c: Seq<char>)
    requires
        (key_at_most(a, b) && key_less(b, c)) || (key_less(a, b) && key_at_most(b, c)),
    ensures
        key_less(a, c),
{
    if a != b && b != c {
        lemma_less_transitive(a, b, c);
    }
}

/// Whether `a` sorts strictly before `b`.
pub fn str_less(a: &str, b: &str) -> (r: bool)
    ensures
        r == key_less(a@, b@),
{
    let mut left = a.chars();
    let mut right = b.chars();
    let ghost mut i: int = 0;
    loop
        invariant
            0 <= i <= a@.len(),
            i <= b@.len(),
            left.obeys_prophetic_iter_laws(),
            right.obeys_prophetic_iter_laws(),
            left.remaining() == a@.skip(i),
            right.remaining() == b@.skip(i),
            forall|j: int| 0 <= j < i ==> a@[j] == b@[j],
        decreases a@.len() - i,
    {
        let x = left.next();
        let y = right.next();
        match (x, y) {
            (_, None) => {
                proof {
                    lemma_first_difference_is(a@, b@, i);
                }
                return false;
            },
            (None, Some(_)) => {
                proof {
                    lemma_first_difference_is(a@, b@, i);
                }
                return true;
            },
            (Some(p), Some(q)) => {
                if p != q {
                    proof {
                        lemma_first_difference_is(a@, b@, i);
                    }
                    return p < q;
                }
                proof {
                    assert(a@.skip(i).drop_first() =~= a@.skip(i + 1));
                    assert(b@.skip(i).drop_first() =~= b@.skip(i + 1));
                    i = i + 1;
                }
            },
        }
    }
}

/// The first position at or after `i` that holds the delimiter `d`, or the
/// length of `k` if there is none.
pub open spec fn scan_delimiter(k: Seq<char>, d: char, i: nat) -> nat
    decreases k.len() - i,
{
    if i < k.len() && k[i as int] != d {
        scan_delimiter(k, d, i + 1)
    } else {
        i
    }
}

/// The position of the first occurrence of `d` in `k`, or the length of `k`
/// if `d` does not occur.
pub open spec fn delimiter_index(k: Seq<char>, d: char) -> nat {
    scan_delimiter(k, d, 0)
}

/// Whether `d` occurs in `k`.
pub open spec fn has_delimiter(k: Seq<char>, d: char) -> bool {
    delimiter_index(k, d) < k.len()
}

/// The part of `k` up to and including the first occurrence of `d`.
pub open spec fn group_prefix(k: Seq<char>, d: char) -> Seq<char> {
    k.subrange(0, delimiter_index(k, d) as int + 1)
}

/// What a listing reports for the key `k`: its prefix through the first
/// delimiter where a delimiter is configured and occurs, else the key itself.
pub open spec fn collapsed(k: Seq<char>, delimiter: Option<char>) -> Seq<char> {
    match delimiter {
        Some(d) => if has_delimiter(k, d) {
            group_prefix(k, d)
        } else {
            k
        },
        None => k,
    }
}

/// The cursor that lies behind the whole group of keys that start with `p`:
/// `p` followed by the largest code point.
pub open spec fn past_group(p: Seq<char>) -> Seq<char> {
    p.push('\u{10FFFF}')
}

/// Where a scan that is asked to start after `start` really starts: behind the
/// whole group of `start` where a delimiter is configured and `start` holds it.
pub open spec fn start_cursor(start: Seq<char>, delimiter: Option<char>) -> Seq<char> {
    match delimiter {
        Some(d) => if has_delimiter(start, d) {
            past_group(group_prefix(start, d))
        } else {
            start
        },
        None => start,
    }
}

proof fn lemma_scan_delimiter(k: Seq<char>, d: char, i: nat)
    requires
        i <= k.len(),
        forall|j: int| 0 <= j < i ==> k[j] != d,
    ensures
        i <= scan_delimiter(k, d, i) <= k.len(),
        forall|j: int| 0 <= j < scan_delimiter(k, d, i) ==> k[j] != d,
        scan_delimiter(k, d, i) < k.len() ==> k[scan_delimiter(k, d, i) as int] == d,
    decreases k.len() - i,
{
    if i < k.len() && k[i as int] != d {
        lemma_scan_delimiter(k, d, i + 1);
    }
}

/// What `delimiter_index` is: no delimiter stands before it, and one stands at
/// it unless it is the key's length.
pub proof fn lemma_delimiter_index(k: Seq<char>, d: char)
    ensures
        delimiter_index(k, d) <= k.len(),
        forall|j: int| 0 <= j < delimiter_index(k, d) ==> k[j] != d,
        delimiter_index(k, d) < k.len() ==> k[delimiter_index(k, d) as int] == d,
{
    lemma_scan_delimiter(k, d, 0);
}

/// A position with the properties of `delimiter_index` is it.
pub proof fn lemma_delimiter_index_is(k: Seq<char>, d: char, m: int)
    requires
        0 <= m <= k.len(),
        forall|j: int| 0 <= j < m ==> k[j] != d,
        m < k.len() ==> k[m] == d,
    ensures
        delimiter_index(k, d) == m,
{
    lemma_delimiter_index(k, d);
    let i = delimiter_index(k, d) as int;
    if i < m {
        assert(k[i] != d);
    }
    if m < i {
        assert(k[m] != d);
    }
}

/// The prefix of `key` through the first `delimiter`, if `key` holds one.
pub fn split_prefix(key: &str, delimiter: char) -> (r: Option<String>)
    ensures
        r is Some <==> has_delimiter(key@, delimiter),
        r matches Some(p) ==> p@ == group_prefix(key@, delimiter),
{
    let n: usize = key.unicode_len();
    let mut rest = key.chars();
    let mut i: usize = 0;
    loop
        invariant
            n == key@.len(),
            i <= n,
            rest.obeys_prophetic_iter_laws(),
            rest.remaining() == key@.skip(i as int),
            forall|j: int| 0 <= j < i ==> key@[j] != delimiter,
        decreases n - i,
    {
        match rest.next() {
            None => {
                proof {
                    lemma_delimiter_index_is(key@, delimiter, n as int);
                }
                return None;
            },
            Some(c) => {
                if c == delimiter {
                    proof {
                        lemma_delimiter_index_is(key@, delimiter, i as int);
                    }
                    return Some(String::from_str(key.substring_char(0, i + 1)));
                }
                proof {
                    assert(key@.skip(i as int).drop_first() =~= key@.skip(i + 1));
                }
                i += 1;
            },
        }
    }
}

/// The cursor behind the whole group of the prefix `prefix`.
pub fn cursor_past_group(prefix: &str) -> (r: String)
    ensures
        r@ == past_group(prefix@),
{
    let mut cursor = String::from_str(prefix);
    cursor.append("\u{10FFFF}");
    proof {
        reveal_strlit("\u{10FFFF}");
        assert(cursor@ =~= past_group(prefix@));
    }
    cursor
}

/// The cursor from which a listing asked to start after `start` scans.
pub fn cursor_for_start(start: &str, delimiter: Option<char>) -> (r: String)
    ensures
        r@ == start_cursor(start@, delimiter),
{
    match delimiter {
        Some(d) => match split_prefix(start, d) {
            Some(p) => cursor_past_group(p.as_str()),
            None => String::from_str(start),
        },
        None => String::from_str(start),
    }
}

/// A key sorts before every longer key that starts with it, so before the
/// cursor behind its group.
pub proof fn lemma_less_past_group(p: Seq<char>)
    ensures
        key_less(p, past_group(p)),
{
    lemma_first_difference_is(p, past_group(p), p.len() as int);
}

/// Collapsing a key twice is collapsing it once. With a delimiter that the
/// key holds, its prefix holds the delimiter and is its own prefix.
pub proof fn lemma_collapsed_twice(k: Seq<char>, delimiter: Option<char>)
    ensures
        collapsed(collapsed(k, delimiter), delimiter) == collapsed(k, delimiter),
        delimiter matches Some(d) ==> (has_delimiter(collapsed(k, delimiter), d) <==> has_delimiter(k, d)),
{
    if let Some(d) = delimiter {
        lemma_delimiter_index(k, d);
        let c = collapsed(k, delimiter);
        if has_delimiter(k, d) {
            lemma_delimiter_index_is(c, d, delimiter_index(k, d) as int);
            assert(group_prefix(c, d) =~= c);
        }
    }
}

/// Collapsing keeps the order of keys, though it may make two keys equal.
pub proof fn lemma_collapsed_monotonic(a: Seq<char>, b: Seq<char>, delimiter: Option<char>)
    requires
        key_less(a, b),
    ensures
        key_at_most(collapsed(a, delimiter), collapsed(b, delimiter)),
{
    if let Some(d) = delimiter {
        lemma_first_difference(a, b);
        lemma_delimiter_index(a, d);
        lemma_delimiter_index(b, d);
        let m = first_difference(a, b) as int;
        let ia = delimiter_index(a, d) as int;
        let ca = collapsed(a, delimiter);
        let cb = collapsed(b, delimiter);
        if ia < m {
            assert(b[ia] == a[ia]);
            assert forall|j: int| 0 <= j < ia implies b[j] != d by {
                assert(b[j] == a[j]);
            }
            lemma_delimiter_index_is(b, d, ia);
            assert(ca =~= cb);
        } else {
            let ib = delimiter_index(b, d) as int;
            if ib < m {
                assert(a[ib] == b[ib]);
            }
            assert forall|j: int| 0 <= j < m implies ca[j] == cb[j] by {
                assert(a[j] == b[j]);
            }
            lemma_first_difference_is(ca, cb, m);
        }
    }
}

/// A key that is listed as it stands sorts strictly before what any later key
/// collapses to.
pub proof fn lemma_collapsed_behind_plain(a: Seq<char>, b: Seq<char>, delimiter: Option<char>)
    requires
        key_less(a, b),
        delimiter matches Some(d) ==> !has_delimiter(a, d),
    ensures
        key_less(a, collapsed(b, delimiter)),
{
    lemma_collapsed_monotonic(a, b, delimiter);
    lemma_collapsed_twice(b, delimiter);
    lemma_less_irreflexive(a);
}

/// The key holds no character with the largest code point, which cursors
/// use to get behind a group.
pub open spec fn sentinel_free(k: Seq<char>) -> bool {
    forall|i: int| 0 <= i < k.len() ==> k[i] != '\u{10FFFF}'
}

/// A key without the largest code point lies before the cursor behind its
/// group.
pub proof fn lemma_group_before_cursor(k: Seq<char>, d: char)
    requires
        has_delimiter(k, d),
        sentinel_free(k),
    ensures
        key_less(k, past_group(group_prefix(k, d))),
{
    lemma_delimiter_index(k, d);
    let cursor = past_group(group_prefix(k, d));
    let m = delimiter_index(k, d) as int + 1;
    if m < k.len() {
        lemma_char_order(k[m], '\u{10FFFF}');
    }
    lemma_first_difference_is(k, cursor, m);
}

/// Of two group prefixes in order, the cursor behind the group of the first
/// lies before the second.
pub proof fn lemma_groups_apart(a: Seq<char>, b: Seq<char>, d: char)
    requires
        has_delimiter(a, d),
        has_delimiter(b, d),
        group_prefix(a, d) == a,
        group_prefix(b, d) == b,
        key_less(a, b),
    ensures
        key_less(past_group(a), b),
{
    lemma_delimiter_index(a, d);
    lemma_delimiter_index(b, d);
    lemma_first_difference(a, b);
    let m = first_difference(a, b) as int;
    assert(a.len() == delimiter_index(a, d) + 1);
    assert(b.len() == delimiter_index(b, d) + 1);
    if m == a.len() {
        assert(b[m - 1] == a[m - 1]);
    }
    lemma_first_difference_is(past_group(a), b, m);
}

} // verus!
