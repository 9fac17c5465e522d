//! One shard of a bucket index: a sorted, duplicate-free set of keys.

use crate::key::{key_less, lemma_less_total, lemma_less_transitive, str_less};
use vstd::prelude::*;

verus! {

/// Every key of `keys` sorts strictly before those behind it.
pub open spec fn strictly_sorted(keys: Seq<Seq<char>>) -> bool {
    forall|i: int, j: int| 0 <= i < j < keys.len() ==> key_less(#[trigger] keys[i], #[trigger] keys[j])
}

/// The first position at or after `i` whose key sorts behind `cursor`, or the
/// length of `keys` if there is none.
pub open spec fn scan_after(keys: Seq<Seq<char>>, cursor: Seq<char>, i: nat) -> nat
    decreases keys.len() - i,
{
    if i < keys.len() && !key_less(cursor, keys[i as int]) {
        scan_after(keys, cursor, i + 1)
    } else {
        i
    }
}

/// Where a scan of `keys` with the exclusive lower bound `cursor` starts: the
/// position of the first key that sorts behind `cursor`.
pub open spec fn first_after(keys: Seq<Seq<char>>, cursor: Seq<char>) -> nat {
    scan_after(keys, cursor, 0)
}

/// `keys` with `key` added in its place, if it was not there.
pub open spec fn with_key(keys: Seq<Seq<char>>, key: Seq<char>) -> Seq<Seq<char>> {
    if keys.contains(key) {
        keys
    } else {
        keys.insert(first_after(keys, key) as int, key)
    }
}

proof fn lemma_scan_after(keys: Seq<Seq<char>>, cursor: Seq<char>, i: nat)
    requires
        i <= keys.len(),
        forall|j: int| 0 <= j < i ==> !key_less(cursor, #[trigger] keys[j]),
    ensures
        i <= scan_after(keys, cursor, i) <= keys.len(),
        forall|j: int| 0 <= j < scan_after(keys, cursor, i) ==> !key_less(cursor, #[trigger] keys[j]),
        scan_after(keys, cursor, i) < keys.len() ==> key_less(
            cursor,
            keys[scan_after(keys, cursor, i) as int],
        ),
    decreases keys.len() - i,
{
    if i < keys.len() && !key_less(cursor, keys[i as int]) {
        lemma_scan_after(keys, cursor, i + 1);
    }
}

/// A scan starts within the shard or at its end.
pub proof fn lemma_first_after_within(keys: Seq<Seq<char>>, cursor: Seq<char>)
    ensures
        first_after(keys, cursor) <= keys.len(),
{
    lemma_scan_after(keys, cursor, 0);
}

/// What `first_after` is in a sorted shard: the keys before it do not sort
/// behind the cursor, and all keys from it on do.
pub proof fn lemma_first_after(keys: Seq<Seq<char>>, cursor: Seq<char>)
    requires
        strictly_sorted(keys),
    ensures
        first_after(keys, cursor) <= keys.len(),
        forall|j: int| 0 <= j < first_after(keys, cursor) ==> !key_less(cursor, #[trigger] keys[j]),
        forall|j: int| first_after(keys, cursor) <= j < keys.len() ==> key_less(cursor, #[trigger] keys[j]),
{
    lemma_scan_after(keys, cursor, 0);
    let r = first_after(keys, cursor) as int;
    assert forall|j: int| r <= j < keys.len() implies key_less(cursor, #[trigger] keys[j]) by {
        if r < j {
            lemma_less_transitive(cursor, keys[r], keys[j]);
        }
    }
}

/// A position with the properties of `first_after` is it.
pub proof fn lemma_first_after_is(keys: Seq<Seq<char>>, cursor: Seq<char>, m: int)
    requires
        0 <= m <= keys.len(),
        forall|j: int| 0 <= j < m ==> !key_less(cursor, #[trigger] keys[j]),
        m < keys.len() ==> key_less(cursor, keys[m]),
    ensures
        first_after(keys, cursor) == m,
{
    lemma_scan_after(keys, cursor, 0);
    let r = first_after(keys, cursor) as int;
    if r < m {
        assert(!key_less(cursor, keys[r]));
    }
    if m < r {
        assert(!key_less(cursor, keys[m]));
    }
}

/// Adding a key to a sorted shard keeps it sorted, and the shard then holds
/// the key and what it held before.
pub proof fn lemma_with_key(keys: Seq<Seq<char>>, key: Seq<char>)
    requires
        strictly_sorted(keys),
    ensures
        strictly_sorted(with_key(keys, key)),
        forall|k: Seq<char>| with_key(keys, key).contains(k) <==> (k == key || keys.contains(k)),
{
    let after = with_key(keys, key);
    if !keys.contains(key) {
        lemma_first_after(keys, key);
        let p = first_after(keys, key) as int;
        assert forall|i: int, j: int| 0 <= i < j < after.len() implies key_less(
            #[trigger] after[i],
            #[trigger] after[j],
        ) by {
            if j == p {
                assert(after[i] == keys[i]);
                assert(keys.contains(keys[i]));
                lemma_less_total(keys[i], key);
            } else if i == p {
                assert(after[j] == keys[j - 1]);
            } else {
                let oi = if i < p { i } else { i - 1 };
                let oj = if j < p { j } else { j - 1 };
                assert(after[i] == keys[oi]);
                assert(after[j] == keys[oj]);
            }
        }
        assert forall|k: Seq<char>| after.contains(k) <==> (k == key || keys.contains(k)) by {
            if after.contains(k) {
                let i = choose|i: int| 0 <= i < after.len() && after[i] == k;
                if i < p {
                    assert(keys[i] == k);
                } else if i > p {
                    assert(keys[i - 1] == k);
                }
            }
            if k == key {
                assert(after[p] == k);
            } else if keys.contains(k) {
                let i = choose|i: int| 0 <= i < keys.len() && keys[i] == k;
                if i < p {
                    assert(after[i] == k);
                } else {
                    assert(after[i + 1] == k);
                }
            }
        }
    }
}

/// A sorted, duplicate-free set of keys.
pub struct Shard {
    keys: Vec<String>,
}

impl View for Shard {
    type V = Seq<Seq<char>>;

    /// The keys of the shard in the order in which it stores them.
    closed spec fn view(&self) -> Seq<Seq<char>> {
        Seq::new(self.keys@.len(), |i: int| self.keys@[i]@)
    }
}

impl Shard {
    /// The shard's keys are in strictly increasing order.
    pub open spec fn wf(&self) -> bool {
        strictly_sorted(self@)
    }

    /// A shard without keys.
    pub fn new() -> (r: Shard)
        ensures
            r@ == Seq::<Seq<char>>::empty(),
            r.wf(),
    {
        let r = Shard { keys: Vec::new() };
        assert(r@ =~= Seq::<Seq<char>>::empty());
        r
    }

    /// The number of keys.
    pub fn len(&self) -> (n: usize)
        ensures
            n == self@.len(),
    {
        self.keys.len()
    }

    /// The key at position `i`.
    pub fn key(&self, i: usize) -> (k: &String)
        requires
            i < self@.len(),
        ensures
            k@ == self@[i as int],
    {
        &self.keys[i]
    }

    /// The position of the first key that sorts behind `cursor`.
    pub fn first_after(&self, cursor: &str) -> (r: usize)
        requires
            self.wf(),
        ensures
            r == first_after(self@, cursor@),
            r <= self@.len(),
    {
        let mut lo: usize = 0;
        let mut hi: usize = self.keys.len();
        while lo < hi
            invariant
                lo <= hi <= self@.len(),
                self@.len() == self.keys@.len(),
                self.wf(),
                forall|j: int| 0 <= j < lo ==> !key_less(cursor@, #[trigger] self@[j]),
                forall|j: int| hi <= j < self@.len() ==> key_less(cursor@, #[trigger] self@[j]),
            decreases hi - lo,
        {
            let mid: usize = lo + (hi - lo) / 2;
            let behind = str_less(cursor, self.keys[mid].as_str());
            assert(self@[mid as int] == self.keys@[mid as int]@);
            if behind {
                proof {
                    assert forall|j: int| mid <= j < self@.len() implies key_less(
                        cursor@,
                        #[trigger] self@[j],
                    ) by {
                        if mid < j {
                            lemma_less_transitive(cursor@, self@[mid as int], self@[j]);
                        }
                    }
                }
                hi = mid;
            } else {
                proof {
                    assert forall|j: int| 0 <= j < mid + 1 implies !key_less(
                        cursor@,
                        #[trigger] self@[j],
                    ) by {
                        if j < mid && key_less(cursor@, self@[j]) {
                            lemma_less_transitive(cursor@, self@[j], self@[mid as int]);
                        }
                    }
                }
                lo = mid + 1;
            }
        }
        proof {
            lemma_first_after_is(self@, cursor@, lo as int);
        }
        lo
    }

    /// Adds `key` to the shard, unless the shard holds it already. A key that
    /// sorts behind all keys of the shard is appended without a search.
    pub fn insert(&mut self, key: String)
        requires
            old(self).wf(),
        ensures
            final(self)@ == with_key(old(self)@, key@),
            final(self).wf(),
    {
        proof {
            lemma_with_key(self@, key@);
        }
        let n: usize = self.keys.len();
        if n == 0 || str_less(self.keys[n - 1].as_str(), key.as_str()) {
            let ghost before = self@;
            proof {
                assert forall|j: int| 0 <= j < before.len() implies !key_less(key@, #[trigger] before[j])
                    && before[j] != key@ by {
                    assert(before[n - 1] == self.keys@[n - 1]@);
                    if j < n - 1 {
                        lemma_less_transitive(before[j], before[n - 1], key@);
                    }
                    lemma_less_total(before[j], key@);
                }
                lemma_first_after_is(before, key@, n as int);
            }
            self.keys.push(key);
            assert(self@ =~= before.insert(n as int, key@));
            return;
        }
        let p: usize = self.first_after(key.as_str());
        proof {
            lemma_first_after(self@, key@);
        }
        let present = p > 0 && !str_less(self.keys[p - 1].as_str(), key.as_str());
        proof {
            if p > 0 {
                assert(self@[p - 1] == self.keys@[p - 1]@);
                lemma_less_total(self@[p - 1], key@);
            }
            if present {
                assert(self@.contains(key@));
            } else {
                assert forall|j: int| 0 <= j < self@.len() implies self@[j] != key@ by {
                    if j < p {
                        if p - 1 > j {
                            lemma_less_transitive(self@[j], self@[p - 1], key@);
                        }
                        lemma_less_total(self@[j], key@);
                    } else {
                        lemma_less_total(key@, self@[j]);
                    }
                }
            }
        }
        if !present {
            let ghost before = self@;
            self.keys.insert(p, key);
            assert(self@ =~= before.insert(p as int, key@));
        }
    }
}

} // verus!
