//! A synthetic bucket: directories of numbered files.

use crate::bucket::{add_to_bucket, holds, new_bucket, Bucket};
use crate::digest::shard_of_key;
use crate::shard::{lemma_with_key, with_key};
use vstd::prelude::*;
use vstd::string::*;

verus! {

/// The character of the decimal digit `d`.
pub open spec fn digit_char(d: nat) -> char {
    if d == 0 {
        '0'
    } else if d == 1 {
        '1'
    } else if d == 2 {
        '2'
    } else if d == 3 {
        '3'
    } else if d == 4 {
        '4'
    } else if d == 5 {
        '5'
    } else if d == 6 {
        '6'
    } else if d == 7 {
        '7'
    } else if d == 8 {
        '8'
    } else {
        '9'
    }
}

/// The decimal digits of `n`, without leading zeros.
pub open spec fn decimal(n: nat) -> Seq<char>
    decreases n,
{
    if n < 10 {
        seq![digit_char(n)]
    } else {
        decimal(n / 10).push(digit_char(n % 10))
    }
}

/// The decimal digits of `n`, with zeros in front of them up to `width`
/// characters.
pub open spec fn zero_padded(n: nat, width: nat) -> Seq<char> {
    let digits = decimal(n);
    if digits.len() >= width {
        digits
    } else {
        Seq::new((width - digits.len()) as nat, |i: int| '0') + digits
    }
}

/// The name of the file with the number `file` in the directory with the
/// number `dir`: `dir`, the directory in two digits or more, `/file`, and the
/// file in six digits or more.
pub open spec fn object_name_text(dir: nat, file: nat) -> Seq<char> {
    seq!['d', 'i', 'r'] + zero_padded(dir, 2) + seq!['/', 'f', 'i', 'l', 'e'] + zero_padded(file, 6)
}

fn digit_text(d: usize) -> (r: &'static str)
    requires
        d < 10,
    ensures
        r@ == seq![digit_char(d as nat)],
{
    proof {
        reveal_strlit("0");
        reveal_strlit("1");
        reveal_strlit("2");
        reveal_strlit("3");
        reveal_strlit("4");
        reveal_strlit("5");
        reveal_strlit("6");
        reveal_strlit("7");
        reveal_strlit("8");
        reveal_strlit("9");
    }
    let r = if d == 0 {
        "0"
    } else if d == 1 {
        "1"
    } else if d == 2 {
        "2"
    } else if d == 3 {
        "3"
    } else if d == 4 {
        "4"
    } else if d == 5 {
        "5"
    } else if d == 6 {
        "6"
    } else if d == 7 {
        "7"
    } else if d == 8 {
        "8"
    } else {
        "9"
    };
    assert(r@ =~= seq![digit_char(d as nat)]);
    r
}

fn decimal_len(n: usize) -> (len: usize)
    ensures
        len == decimal(n as nat).len(),
        1 <= len <= n + 1,
    decreases n,
{
    if n < 10 {
        1
    } else {
        1 + decimal_len(n / 10)
    }
}

fn push_decimal(text: &mut String, n: usize)
    ensures
        final(text)@ == old(text)@ + decimal(n as nat),
    decreases n,
{
    if n >= 10 {
        push_decimal(text, n / 10);
    }
    text.append(digit_text(n % 10));
    assert(text@ =~= old(text)@ + decimal(n as nat));
}

fn push_zero_padded(text: &mut String, n: usize, width: usize)
    ensures
        final(text)@ == old(text)@ + zero_padded(n as nat, width as nat),
{
    let len: usize = decimal_len(n);
    let mut i: usize = len;
    while i < width
        invariant
            len <= i,
            i == len || i <= width,
            text@ == old(text)@ + Seq::new((i - len) as nat, |j: int| '0'),
        decreases width - i,
    {
        proof {
            reveal_strlit("0");
        }
        text.append("0");
        i += 1;
        assert(text@ =~= old(text)@ + Seq::new((i - len) as nat, |j: int| '0'));
    }
    let ghost zeros = Seq::new((i - len) as nat, |j: int| '0');
    push_decimal(text, n);
    proof {
        let digits = decimal(n as nat);
        assert(text@ == old(text)@ + zeros + digits);
        if digits.len() >= width {
            assert(zeros + digits =~= digits);
        } else {
            assert(zeros =~= Seq::new((width - digits.len()) as nat, |j: int| '0'));
        }
        assert(zero_padded(n as nat, width as nat) =~= zeros + digits);
        assert(text@ =~= old(text)@ + (zeros + digits));
    }
}

/// The name of the file with the number `file` in the directory with the
/// number `dir`.
pub fn object_name(dir: usize, file: usize) -> (name: String)
    ensures
        name@ == object_name_text(dir as nat, file as nat),
{
    let mut name = String::from_str("dir");
    push_zero_padded(&mut name, dir, 2);
    name.append("/file");
    push_zero_padded(&mut name, file, 6);
    proof {
        reveal_strlit("dir");
        reveal_strlit("/file");
        assert("dir"@ =~= seq!['d', 'i', 'r']);
        assert("/file"@ =~= seq!['/', 'f', 'i', 'l', 'e']);
        assert(name@ =~= object_name_text(dir as nat, file as nat));
    }
    name
}

/// Whether `key` names one of the files among the first `dirs` directories in
/// full and the first `files` files of the directory behind them.
pub open spec fn generated(key: Seq<char>, dirs: nat, entries: nat, files: nat) -> bool {
    exists|d: nat, f: nat|
        (d < dirs && f < entries || d == dirs && f < files) && key == #[trigger] object_name_text(d, f)
}

/// After a key is added to its shard, the bucket holds it and what it held.
proof fn lemma_holds_after_add(shards: Seq<Seq<Seq<char>>>, key: Seq<char>, k: Seq<char>)
    requires
        shards.len() > 0,
        forall|i: int| 0 <= i < shards.len() ==> crate::shard::strictly_sorted(#[trigger] shards[i]),
    ensures
        holds(
            shards.update(
                shard_of_key(key, shards.len()) as int,
                with_key(shards[shard_of_key(key, shards.len()) as int], key),
            ),
            k,
        ) <==> (k == key || holds(shards, k)),
{
    let s = shard_of_key(key, shards.len()) as int;
    let after = shards.update(s, with_key(shards[s], key));
    lemma_with_key(shards[s], key);
    if holds(after, k) {
        let i = choose|i: int| 0 <= i < after.len() && #[trigger] after[i].contains(k);
        if i != s {
            assert(shards[i].contains(k));
        } else if k != key {
            assert(shards[s].contains(k));
        }
    }
    if k == key {
        assert(after[s].contains(k));
    } else if holds(shards, k) {
        let i = choose|i: int| 0 <= i < shards.len() && #[trigger] shards[i].contains(k);
        assert(after[i].contains(k));
    }
}

/// A bucket of `num_shards` shards that holds the files `0..num_entries` of
/// each of the directories `0..num_dirs`, and nothing else.
pub fn create_bucket(num_shards: usize, num_dirs: usize, num_entries: usize) -> (bucket: Bucket)
    requires
        num_shards > 0 || num_dirs == 0 || num_entries == 0,
    ensures
        bucket.wf(),
        bucket.shards@.len() == num_shards,
        bucket.rows_read == 0,
        bucket.queries == 0,
        bucket.calls == 0,
        forall|k: Seq<char>|
            holds(bucket.shard_keys(), k) <==> exists|d: nat, f: nat|
                d < num_dirs && f < num_entries && k == #[trigger] object_name_text(d, f),
{
    let mut bucket = new_bucket(num_shards);
    assert forall|k: Seq<char>| !holds(bucket.shard_keys(), k) by {
        if holds(bucket.shard_keys(), k) {
            let i = choose|i: int|
                0 <= i < bucket.shard_keys().len() && #[trigger] bucket.shard_keys()[i].contains(k);
            assert(bucket.shards@[i]@.len() == 0);
        }
    }
    let mut dir: usize = 0;
    while dir < num_dirs
        invariant
            dir <= num_dirs,
            num_shards > 0 || num_dirs == 0 || num_entries == 0,
            bucket.wf(),
            bucket.shards@.len() == num_shards,
            bucket.rows_read == 0,
            bucket.queries == 0,
            bucket.calls == 0,
            forall|k: Seq<char>|
                holds(bucket.shard_keys(), k) <==> generated(k, dir as nat, num_entries as nat, 0),
        decreases num_dirs - dir,
    {
        let mut file: usize = 0;
        while file < num_entries
            invariant
                dir < num_dirs,
                file <= num_entries,
                num_shards > 0 || num_dirs == 0 || num_entries == 0,
                bucket.wf(),
                bucket.shards@.len() == num_shards,
                bucket.rows_read == 0,
                bucket.queries == 0,
                bucket.calls == 0,
                forall|k: Seq<char>|
                    holds(bucket.shard_keys(), k) <==> generated(
                        k,
                        dir as nat,
                        num_entries as nat,
                        file as nat,
                    ),
            decreases num_entries - file,
        {
            let object = object_name(dir, file);
            let ghost before = bucket.shard_keys();
            add_to_bucket(&mut bucket, object.as_str());
            proof {
                assert forall|k: Seq<char>|
                    holds(bucket.shard_keys(), k) <==> generated(
                        k,
                        dir as nat,
                        num_entries as nat,
                        (file + 1) as nat,
                    ) by {
                    lemma_holds_after_add(before, object@, k);
                    if generated(k, dir as nat, num_entries as nat, (file + 1) as nat) {
                        let (d, f) = choose|d: nat, f: nat|
                            (d < dir && f < num_entries || d == dir && f < file + 1) && k
                                == #[trigger] object_name_text(d, f);
                        if !(d == dir && f == file) {
                            assert(generated(k, dir as nat, num_entries as nat, file as nat));
                        }
                    }
                    if k == object@ {
                        assert(k == object_name_text(dir as nat, file as nat));
                    }
                }
            }
            file += 1;
        }
        proof {
            assert forall|k: Seq<char>|
                generated(k, dir as nat, num_entries as nat, num_entries as nat) <==> generated(
                    k,
                    (dir + 1) as nat,
                    num_entries as nat,
                    0,
                ) by {
                if generated(k, dir as nat, num_entries as nat, num_entries as nat) {
                    let (d, f) = choose|d: nat, f: nat|
                        (d < dir && f < num_entries || d == dir && f < num_entries) && k
                            == #[trigger] object_name_text(d, f);
                    assert(d < dir + 1 && f < num_entries);
                }
                if generated(k, (dir + 1) as nat, num_entries as nat, 0) {
                    let (d, f) = choose|d: nat, f: nat|
                        (d < dir + 1 && f < num_entries || d == dir + 1 && f < 0) && k
                            == #[trigger] object_name_text(d, f);
                    assert(d < dir && f < num_entries || d == dir && f < num_entries);
                }
            }
        }
        dir += 1;
    }
    proof {
        assert forall|k: Seq<char>|
            generated(k, num_dirs as nat, num_entries as nat, 0) <==> exists|d: nat, f: nat|
                d < num_dirs && f < num_entries && k == #[trigger] object_name_text(d, f) by {
            if generated(k, num_dirs as nat, num_entries as nat, 0) {
                let (d, f) = choose|d: nat, f: nat|
                    (d < num_dirs && f < num_entries || d == num_dirs && f < 0) && k
                        == #[trigger] object_name_text(d, f);
                assert(d < num_dirs && f < num_entries);
            }
        }
    }
    bucket
}

} // verus!
