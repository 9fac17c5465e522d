use bucket_listing::bucket::{add_to_bucket, new_bucket, Bucket};
use bucket_listing::listing::{list, ListError};
use bucket_listing::shard_query::rgw_list;

fn bucket_with(num_shards: usize, keys: &[&str]) -> Bucket {
    let mut bucket = new_bucket(num_shards);
    for key in keys {
        add_to_bucket(&mut bucket, key);
    }
    bucket
}

fn page(items: &[&str], truncated: bool) -> Result<(Vec<String>, bool), ListError> {
    Ok((items.iter().map(|s| s.to_string()).collect(), truncated))
}

#[test]
fn listings_of_small_buckets_1() {
    let mut bucket = bucket_with(3, &["c5", "c9", "c0", "d/e/5", "a/0", "b/4", "a/2"]);
    assert_eq!(list(&mut bucket, "d/e/5", Some('/'), 13, &[3, 0, 12, 8, 8, 8, 9, 3]), Err(ListError::MissingPrefix));
    assert_eq!((bucket.calls, bucket.rows_read, bucket.queries), (3, 0, 0));
    let mut bucket = bucket_with(2, &["/", "bab/", "a/a", "a\u{E9}", "/a/b", "a", "acb", "b", "a/", "/ab/", "/abb", "a/a/", "bb/a", "/ac", "\u{E9}"]);
    assert_eq!(list(&mut bucket, "/", Some('/'), 8, &[3, 12, 9, 9, 12, 0, 12, 0]), Err(ListError::MissingPrefix));
    assert_eq!((bucket.calls, bucket.rows_read, bucket.queries), (2, 10, 2));
    let mut bucket = bucket_with(1, &["b", "ba/", "a", "\u{E9}", "bbb\u{E9}", "/bab", "ab/a", "bbb", "ab", "/b/", "/b", "/\u{E9}", "/abb", "/"]);
    assert_eq!(list(&mut bucket, "//bc", Some('/'), 40, &[8, 9, 12, 0, 12, 12, 9, 12]), Err(ListError::MissingPrefix));
    assert_eq!((bucket.calls, bucket.rows_read, bucket.queries), (1, 8, 1));
    let mut bucket = bucket_with(1, &["aab/", "baaa", "////", "a/a", "ba", "/aaa", "/ab", "aa", "b\u{E9}ba", "//", "/a"]);
    assert_eq!(list(&mut bucket, "", None, 8, &[0, 9, 9, 0, 0, 9, 0, 9]), page(&["//", "////", "/a", "/aaa", "/ab", "a/a", "aa", "aab/"], true));
    assert_eq!((bucket.calls, bucket.rows_read, bucket.queries), (1, 8, 1));
    let mut bucket = bucket_with(2, &["b", "/b", "a/", "b/a", "bba", "a/\u{10FFFF}b", "bab", "ab//", "c/aa", "a/b", "bbb/", "baa", "/", "/\u{E9}", "abb", "/aba", "bca", "/c", "bb", "///a", "bbb"]);
    assert_eq!(list(&mut bucket, "", None, 1, &[8, 0, 0, 12, 9, 8, 3, 0]), page(&["/"], true));
    assert_eq!((bucket.calls, bucket.rows_read, bucket.queries), (2, 16, 2));
    let mut bucket = bucket_with(5, &["a", "aa", "\u{10FFFF}bb", "ba\u{10FFFF}a"]);
    assert_eq!(list(&mut bucket, "\u{10FFFF}bb", Some('/'), 5, &[9, 0, 3, 0, 12, 12, 3, 8]), Err(ListError::MissingPrefix));
    assert_eq!((bucket.calls, bucket.rows_read, bucket.queries), (5, 0, 0));
    let mut bucket = bucket_with(3, &["b/1", "d/e/9", "a/6", "c3", "c8", "a/8", "a/7"]);
    assert_eq!(list(&mut bucket, "", None, 40, &[3, 9, 9, 3, 8, 0, 8, 12]), page(&["a/6", "a/7", "a/8", "b/1", "c3", "c8", "d/e/9"], false));
    assert_eq!((bucket.calls, bucket.rows_read, bucket.queries), (24, 7, 3));
    let mut bucket = bucket_with(3, &["c2", "d/e/8", "b/3", "c0", "d/e/6", "c8", "b/2", "d/e/2", "c3", "d/e/1", "c5", "a/2"]);
    assert_eq!(list(&mut bucket, "", None, 5, &[12, 3, 0, 12, 3, 12, 0, 0]), page(&["a/2", "b/2", "b/3", "c0", "c2"], false));
    assert_eq!((bucket.calls, bucket.rows_read, bucket.queries), (3, 12, 3));
}

#[test]
fn listings_of_small_buckets_2() {
    let mut bucket = bucket_with(5, &["d/e/1", "c0", "d/e/8", "d/e/7", "c6", "d/e/3", "c5", "b/7", "c2", "c1", "a/5", "b/9", "a/8"]);
    assert_eq!(list(&mut bucket, "b/7", None, 2, &[0, 0, 9, 3, 12, 9, 12, 3]), page(&["b/9", "c0"], false));
    assert_eq!((bucket.calls, bucket.rows_read, bucket.queries), (5, 10, 4));
    let mut bucket = bucket_with(3, &["a/0", "h/10", "c/11", "h/17", "d/9", "e/29", "i/23", "f/16", "g/14", "g/12", "e/11", "i/30", "b/8", "h/28", "b/19", "e/13", "g/27", "e/24", "j/29", "i/18", "a/25", "a/14", "g/19", "b/18", "c/6", "j/25", "h/13"]);
    assert_eq!(list(&mut bucket, "ab\u{E9}/", Some('/'), 40, &[0, 3, 0, 9, 8, 3, 8, 0]), page(&["b/", "c/", "d/", "e/", "f/", "g/", "h/", "i/", "j/"], false));
    assert_eq!((bucket.calls, bucket.rows_read, bucket.queries), (24, 24, 4));
    let mut bucket = bucket_with(3, &["d/e/8", "c3", "b/7", "d/e/7", "a/7", "b/9", "d/e/0", "a/6", "d/e/9", "c6", "a/8"]);
    assert_eq!(list(&mut bucket, "", None, 13, &[3, 8, 8, 12, 0, 12, 9, 12]), page(&["a/6", "a/7", "a/8", "b/7", "b/9", "c3", "c6", "d/e/0", "d/e/7", "d/e/8", "d/e/9"], false));
    assert_eq!((bucket.calls, bucket.rows_read, bucket.queries), (3, 11, 3));
    let mut bucket = bucket_with(5, &["a", "b/\u{E9}\u{E9}", "b\u{E9}", "aaaa", "/a", "b//a", "bb", "ab/", "b", "a/", "acb", "b/aa", "aaa"]);
    assert_eq!(list(&mut bucket, "", None, 40, &[9, 12, 3, 9, 0, 9, 12, 0]), page(&["/a", "a", "a/", "aaa", "aaaa", "ab/", "acb", "b", "b//a", "b/aa", "b/\u{E9}\u{E9}", "bb", "b\u{E9}"], false));
    assert_eq!((bucket.calls, bucket.rows_read, bucket.queries), (40, 13, 5));
    let mut bucket = bucket_with(5, &["g/4", "a/28", "e/3", "c/27", "j/1", "b/24", "e/25", "i/20", "i/26", "h/18", "a/24", "d/26", "j/30", "g/13", "e/16", "j/10", "i/5", "j/11", "c/1", "h/25", "f/11", "h/14", "e/27", "g/17", "i/15", "d/18"]);
    assert_eq!(list(&mut bucket, "", None, 13, &[3, 3, 0, 9, 0, 3, 12, 8]), page(&["a/24", "a/28", "b/24", "c/1", "c/27", "d/18", "d/26", "e/16", "e/25", "e/27", "e/3", "f/11", "g/13"], false));
    assert_eq!((bucket.calls, bucket.rows_read, bucket.queries), (5, 26, 5));
    let mut bucket = bucket_with(2, &["b/7", "c4", "d/e/2", "d/e/6", "b/0", "a/4", "d/e/3", "b/6", "a/7", "c6", "b/8", "a/0", "c0", "c1", "b/5", "c7", "d/e/8", "d/e/4", "b/2"]);
    assert_eq!(list(&mut bucket, "", Some('/'), 13, &[9, 9, 12, 8, 9, 9, 0, 3]), page(&["a/", "b/", "d/"], false));
    assert_eq!((bucket.calls, bucket.rows_read, bucket.queries), (16, 19, 3));
    let mut bucket = bucket_with(1, &["bab", "\u{E9}bbb", "b///", "c/", "/b/", "bb/", "b", "/b", "a/", "/ba/", "baa/", "///a", "bbbb", "a/b", "abba", "/"]);
    assert_eq!(list(&mut bucket, "", None, 40, &[9, 12, 3, 12, 0, 0, 0, 9]), page(&["/", "///a", "/b", "/b/", "/ba/", "a/", "a/b", "abba", "b", "b///", "baa/", "bab", "bb/", "bbbb", "c/", "\u{E9}bbb"], false));
    assert_eq!((bucket.calls, bucket.rows_read, bucket.queries), (8, 16, 2));
    let mut bucket = bucket_with(1, &["e/13", "j/20", "a/29", "e/24", "c/4", "g/0", "g/17", "a/28", "d/22", "i/30", "a/9", "h/1", "c/5", "h/5", "g/13", "i/0"]);
    assert_eq!(list(&mut bucket, "aab", Some('/'), 40, &[3, 12, 8, 12, 9, 3, 8, 3]), page(&["c/", "d/", "e/", "g/", "h/", "i/", "j/"], false));
    assert_eq!((bucket.calls, bucket.rows_read, bucket.queries), (8, 13, 2));
}

#[test]
fn listings_of_small_buckets_3() {
    let mut bucket = bucket_with(5, &["a/", "b//b", "//ab", "b/", "/ab", "b", "//bb", "/a/c", "/aa/", "/", "/a/a"]);
    assert_eq!(list(&mut bucket, "/aa/", None, 1, &[3, 9, 8, 9, 3, 12, 3, 8]), page(&["/ab"], false));
    assert_eq!((bucket.calls, bucket.rows_read, bucket.queries), (5, 5, 4));
    let mut bucket = bucket_with(2, &["a/16", "f/2", "e/19", "j/16", "a/15", "i/30", "c/4", "g/2"]);
    assert_eq!(list(&mut bucket, "", Some('/'), 1, &[3, 8, 0, 3, 12, 0, 3, 0]), page(&["a/"], false));
    assert_eq!((bucket.calls, bucket.rows_read, bucket.queries), (2, 8, 2));
    let mut bucket = bucket_with(2, &["b/7", "b/2", "c2", "d/e/0", "c6", "b/3", "b/8", "a/7", "c7", "c8", "b/5", "d/e/1", "a/9", "b/6", "d/e/5", "b/9", "d/e/6"]);
    assert_eq!(list(&mut bucket, "b/7", Some('/'), 1, &[0, 0, 3, 3, 3, 9, 0, 12]), page(&["d/"], false));
    assert_eq!((bucket.calls, bucket.rows_read, bucket.queries), (2, 8, 2));
    let mut bucket = bucket_with(1, &["g/25", "c/28", "h/14", "f/23", "i/10", "g/24", "i/2"]);
    assert_eq!(list(&mut bucket, "c/28", None, 13, &[12, 9, 9, 3, 8, 8, 9, 8]), page(&["f/23", "g/24", "g/25", "h/14", "i/10", "i/2"], false));
    assert_eq!((bucket.calls, bucket.rows_read, bucket.queries), (8, 6, 1));
    let mut bucket = bucket_with(1, &["a/9", "b/4", "a/8", "d/e/9", "d/e/1", "c7", "b/7", "a/7", "a/0", "a/3", "a/5", "b/5", "d/e/4", "d/e/8", "b/2", "c9", "a/2", "c8", "b/8"]);
    assert_eq!(list(&mut bucket, "b/4", Some('/'), 40, &[8, 9, 0, 0, 3, 12, 8, 9]), page(&["d/"], false));
    assert_eq!((bucket.calls, bucket.rows_read, bucket.queries), (8, 7, 1));
    let mut bucket = bucket_with(3, &["i/16", "a/29", "a/25", "c/22", "b/17", "a/8", "d/27", "j/20", "j/7"]);
    assert_eq!(list(&mut bucket, "i/16", Some('/'), 0, &[8, 9, 8, 8, 3, 12, 0, 0]), page(&[], false));
    assert_eq!((bucket.calls, bucket.rows_read, bucket.queries), (3, 2, 2));
    let mut bucket = bucket_with(2, &["a", "ab", "a/ba", "b\u{10FFFF}ab", "/a/b", "\u{10FFFF}b", "b/", "ac", "a/b", "ba", "ba/", "b/a", "b", "cbb", "bb"]);
    assert_eq!(list(&mut bucket, "", None, 2, &[9, 12, 0, 0, 0, 9, 8, 8]), page(&["/a/b", "a"], true));
    assert_eq!((bucket.calls, bucket.rows_read, bucket.queries), (2, 14, 2));
    let mut bucket = bucket_with(2, &["b/b", "b", "/ba", "b/\u{10FFFF}/", "abb/"]);
    assert_eq!(list(&mut bucket, "", Some('/'), 40, &[12, 12, 8, 8, 0, 3, 8, 3]), page(&["/", "abb/", "b/"], false));
    assert_eq!((bucket.calls, bucket.rows_read, bucket.queries), (16, 68, 65));
}

#[test]
fn listings_of_small_buckets_4() {
    let mut bucket = bucket_with(5, &["f/28", "i/1", "j/12", "h/18", "g/5", "f/29", "a/18", "b/26", "e/4", "b/15", "d/11", "b/27", "i/27", "a/29", "c/15"]);
    assert_eq!(list(&mut bucket, "", None, 3, &[0, 8, 9, 12, 8, 3, 3, 12]), page(&["a/18", "a/29", "b/15"], false));
    assert_eq!((bucket.calls, bucket.rows_read, bucket.queries), (5, 15, 5));
    let mut bucket = bucket_with(3, &["d/21", "j/19", "d/11", "c/16", "i/13", "e/27", "g/14", "i/27", "d/1", "i/1", "b/1", "j/17", "g/10", "c/12", "b/2", "i/17", "e/6", "e/12", "i/16", "i/24"]);
    assert_eq!(list(&mut bucket, "b/2", Some('/'), 1, &[9, 3, 3, 0, 0, 12, 3, 9]), page(&["c/"], false));
    assert_eq!((bucket.calls, bucket.rows_read, bucket.queries), (3, 18, 3));
    let mut bucket = bucket_with(1, &[]);
    assert_eq!(list(&mut bucket, "", None, 5, &[9, 3, 0, 8, 9, 8, 3, 3]), page(&[], false));
    assert_eq!((bucket.calls, bucket.rows_read, bucket.queries), (1, 0, 0));
    let mut bucket = bucket_with(3, &["/bc/", "ca/", "bb", "baba", "/b/", "a/a", "//b", "b//b", "bba\u{E9}", "/", "aab", "a//a", "c", "a", "/abc", "/a\u{E9}a", "/aa", "b", "/b", "\u{E9}"]);
    assert_eq!(list(&mut bucket, "", None, 8, &[9, 3, 8, 9, 12, 0, 0, 12]), page(&["/", "//b", "/aa", "/abc", "/a\u{E9}a", "/b", "/b/", "/bc/"], false));
    assert_eq!((bucket.calls, bucket.rows_read, bucket.queries), (3, 20, 3));
    let mut bucket = bucket_with(3, &["d/4", "i/20", "a/18", "c/13", "j/18", "b/29", "e/19", "d/1", "c/20"]);
    assert_eq!(list(&mut bucket, "b/29", Some('/'), 5, &[0, 8, 3, 3, 9, 12, 0, 0]), page(&["c/", "d/", "e/", "i/", "j/"], false));
    assert_eq!((bucket.calls, bucket.rows_read, bucket.queries), (3, 7, 2));
    let mut bucket = bucket_with(3, &["b/9", "i/1", "g/11", "c/9", "f/21", "f/29", "b/16", "f/10", "j/20", "h/18", "e/2"]);
    assert_eq!(list(&mut bucket, "", Some('/'), 5, &[0, 8, 8, 9, 3, 12, 9, 8]), page(&["b/", "c/", "e/", "f/", "g/"], false));
    assert_eq!((bucket.calls, bucket.rows_read, bucket.queries), (3, 11, 3));
    let mut bucket = bucket_with(3, &["h/1", "b/30", "d/25", "d/13", "i/12", "c/2", "b/16", "e/8", "h/20", "h/29", "e/29", "c/6", "c/28", "a/15", "f/20", "a/5", "b/11", "g/26", "i/18", "c/24", "e/10", "i/15", "h/6"]);
    assert_eq!(list(&mut bucket, "", Some('/'), 13, &[0, 8, 0, 3, 3, 8, 9, 8]), page(&["a/", "b/", "c/", "d/", "e/", "f/", "g/", "h/", "i/"], false));
    assert_eq!((bucket.calls, bucket.rows_read, bucket.queries), (3, 23, 4));
    let mut bucket = bucket_with(5, &["d/e/3", "b/3", "a/0", "d/e/6", "a/7", "a/9", "b/2", "b/5", "c8", "b/4", "a/8", "a/3"]);
    assert_eq!(list(&mut bucket, "\u{E9}/a/", None, 40, &[9, 0, 9, 3, 8, 8, 8, 9]), page(&[], false));
    assert_eq!((bucket.calls, bucket.rows_read, bucket.queries), (5, 0, 0));
}

#[test]
fn listings_of_small_buckets_5() {
    let mut bucket = bucket_with(2, &["a//\u{E9}", "abab", "ab", "a", "abb/", "\u{10FFFF}", "a/a", "baa", "\u{E9}", "/", "bab", "ba\u{10FFFF}", "b", "bb", "a\u{E9}", "/ba", "abbb", "aab", "/a", "////", "\u{E9}b", "b\u{E9}aa", "cba", "aaac"]);
    assert_eq!(list(&mut bucket, "", Some('/'), 13, &[0, 3, 12, 9, 8, 12, 9, 12]), Err(ListError::MissingPrefix));
    assert_eq!((bucket.calls, bucket.rows_read, bucket.queries), (2, 24, 4));
    let mut bucket = bucket_with(2, &["/b/a", "aa//", "/\u{10FFFF}b", "b/"]);
    assert_eq!(list(&mut bucket, "", Some('/'), 8, &[3, 9, 8, 3, 3, 3, 12, 12]), page(&["/", "aa/", "b/"], false));
    assert_eq!((bucket.calls, bucket.rows_read, bucket.queries), (16, 4, 2));
    let mut bucket = bucket_with(2, &["b/7", "c/28", "b/0", "h/22", "d/18", "j/4", "b/25", "e/11", "i/3", "d/26", "a/0", "g/24", "g/1", "a/7", "g/7", "h/18", "f/7", "j/24", "g/14", "d/30", "d/24", "a/14", "i/1", "d/13", "g/23", "d/21", "f/27"]);
    assert_eq!(list(&mut bucket, "aaa/", None, 5, &[3, 9, 9, 0, 3, 9, 0, 9]), page(&["b/0", "b/25", "b/7", "c/28", "d/13"], true));
    assert_eq!((bucket.calls, bucket.rows_read, bucket.queries), (2, 16, 2));
    let mut bucket = bucket_with(5, &["i/8", "f/21", "d/3", "d/15", "j/12", "h/4", "b/11", "h/3", "a/19", "f/5", "j/19", "i/14", "j/23"]);
    assert_eq!(list(&mut bucket, "", Some('/'), 5, &[0, 0, 12, 12, 9, 8, 8, 12]), page(&["a/", "b/", "d/", "f/", "h/"], false));
    assert_eq!((bucket.calls, bucket.rows_read, bucket.queries), (5, 13, 5));
    let mut bucket = bucket_with(3, &["b/5", "j/27", "e/22", "b/1", "b/25", "f/7", "i/13", "a/9", "h/6", "i/17", "g/14", "f/29", "g/24", "g/30", "j/19", "c/5", "i/24", "e/29", "f/25", "j/26", "e/26", "a/17"]);
    assert_eq!(list(&mut bucket, "", Some('/'), 2, &[8, 0, 9, 3, 0, 0, 9, 9]), page(&["a/", "b/"], false));
    assert_eq!((bucket.calls, bucket.rows_read, bucket.queries), (3, 22, 4));
    let mut bucket = bucket_with(2, &["j/13", "j/6", "a/21", "b/9", "e/13", "b/10", "f/4", "c/12", "f/8", "g/3", "a/16", "j/19", "c/24", "f/12", "j/12", "b/17", "f/1", "g/22", "d/29", "i/2", "g/10"]);
    assert_eq!(list(&mut bucket, "b/9", Some('/'), 8, &[0, 12, 12, 12, 8, 9, 3, 8]), page(&["c/", "d/", "e/", "f/", "g/", "i/", "j/"], false));
    assert_eq!((bucket.calls, bucket.rows_read, bucket.queries), (2, 15, 2));
    let mut bucket = bucket_with(5, &["g/7", "e/17", "j/4", "a/2", "g/6", "c/30", "h/27", "d/24", "g/10", "e/30", "g/23", "d/2", "b/22", "e/8"]);
    assert_eq!(list(&mut bucket, "", Some('/'), 5, &[12, 12, 12, 9, 9, 12, 9, 8]), page(&["a/", "b/", "c/", "d/", "e/"], false));
    assert_eq!((bucket.calls, bucket.rows_read, bucket.queries), (5, 14, 5));
    let mut bucket = bucket_with(2, &["c/14", "a/15", "c/9", "g/21", "d/6", "e/23", "g/1", "a/0", "b/21", "b/29", "b/24", "h/29", "j/30", "e/2", "h/6", "g/5", "c/13", "e/7", "h/17"]);
    assert_eq!(list(&mut bucket, "e/2", Some('/'), 1, &[3, 9, 8, 9, 9, 3, 3, 12]), page(&["g/"], false));
    assert_eq!((bucket.calls, bucket.rows_read, bucket.queries), (2, 7, 2));
}

#[test]
fn listings_of_small_buckets_6() {
    let mut bucket = bucket_with(3, &["e/1", "c/19", "g/22", "i/18"]);
    assert_eq!(list(&mut bucket, "i/18", Some('/'), 40, &[9, 8, 0, 3, 12, 0, 9, 9]), Err(ListError::MissingPrefix));
    assert_eq!((bucket.calls, bucket.rows_read, bucket.queries), (3, 0, 0));
    let mut bucket = bucket_with(1, &["a/30", "f/3", "d/19", "j/21", "b/14", "a/11"]);
    assert_eq!(list(&mut bucket, "ba", Some('/'), 3, &[0, 12, 3, 12, 8, 12, 0, 8]), page(&["d/", "f/", "j/"], false));
    assert_eq!((bucket.calls, bucket.rows_read, bucket.queries), (1, 3, 1));
    let mut bucket = bucket_with(5, &["bb\u{E9}/", "aa/", "\u{10FFFF}/"]);
    assert_eq!(list(&mut bucket, "/ab", Some('/'), 13, &[3, 0, 8, 0, 12, 3, 12, 0]), page(&["aa/", "bb\u{E9}/", "\u{10FFFF}/"], false));
    assert_eq!((bucket.calls, bucket.rows_read, bucket.queries), (40, 3, 2));
    let mut bucket = bucket_with(2, &["h/27", "c/17"]);
    assert_eq!(list(&mut bucket, "c/17", Some('/'), 2, &[8, 8, 0, 12, 9, 9, 3, 12]), page(&["h/"], false));
    assert_eq!((bucket.calls, bucket.rows_read, bucket.queries), (2, 1, 1));
    let mut bucket = bucket_with(2, &["c/15", "b/29", "a/17", "a/9", "a/14", "h/2", "h/20", "g/25", "g/8", "c/21", "j/5", "h/8", "e/10", "a/2", "e/8", "c/25", "e/25", "g/15"]);
    assert_eq!(list(&mut bucket, "", None, 0, &[0, 0, 3, 0, 8, 0, 3, 3]), page(&[], true));
    assert_eq!((bucket.calls, bucket.rows_read, bucket.queries), (2, 16, 2));
    let mut bucket = bucket_with(1, &["a/9", "d/e/4", "b/6", "d/e/3", "a/7", "c2", "b/2", "c7", "c9", "c3", "b/0", "c8"]);
    assert_eq!(list(&mut bucket, "", Some('/'), 13, &[12, 8, 8, 8, 0, 0, 3, 12]), page(&["a/", "b/", "d/"], false));
    assert_eq!((bucket.calls, bucket.rows_read, bucket.queries), (8, 12, 1));
    let mut bucket = bucket_with(5, &["d/e/1", "d/e/6", "c3", "c4", "b/8", "b/3", "a/0", "d/e/4"]);
    assert_eq!(list(&mut bucket, "", Some('/'), 2, &[12, 8, 12, 9, 0, 3, 3, 9]), page(&["a/", "b/"], false));
    assert_eq!((bucket.calls, bucket.rows_read, bucket.queries), (5, 8, 4));
    let mut bucket = bucket_with(2, &["//", "a", "/bb", "/", "a//b", "b", "/abb"]);
    assert_eq!(list(&mut bucket, "//", Some('/'), 1, &[3, 8, 8, 0, 8, 8, 3, 3]), page(&["a/"], false));
    assert_eq!((bucket.calls, bucket.rows_read, bucket.queries), (2, 3, 2));
}

#[test]
fn shard_queries_of_small_shards_1() {
    let mut bucket = bucket_with(1, &["/a", "///", "b/\u{E9}", "b", "/", "b/a"]);
    let res = rgw_list(&mut bucket, 0, "", 5, Some('/'));
    let expected: &[&str] = &["/", "b", "b/"];
    assert_eq!(Vec::from(res.keys), expected);
    assert_eq!((res.is_truncated, bucket.rows_read, bucket.queries), (false, 5, 1));
    let mut bucket = bucket_with(1, &["/baa", "/bba", "/aa", "c", "/c", "aaa", "/\u{10FFFF}ba", "ab/", "ba/b", "b", "/b", "b/a", "b\u{10FFFF}a", "bb", "\u{E9}bb", "c/a/", "b/", "\u{10FFFF}/\u{10FFFF}/", "/a", "a", "/", "\u{E9}ab", "aa", "a/b", "a/a", "a\u{E9}ab", "abb/", "baa/", "/\u{10FFFF}a\u{E9}", "/ab"]);
    let res = rgw_list(&mut bucket, 0, "", 4, None);
    let expected: &[&str] = &["/", "/a", "/aa", "/ab"];
    assert_eq!(Vec::from(res.keys), expected);
    assert_eq!((res.is_truncated, bucket.rows_read, bucket.queries), (true, 4, 1));
    let mut bucket = bucket_with(1, &["f/4", "j/25", "t1", "h/4", "i/19", "b/29", "j/3", "j/22", "k/9", "j/21", "a/17", "e/26", "i/0", "d/5", "h/9", "g/9", "t4", "g/2", "l/21", "a/27", "h/25", "j/1", "t5", "c/29", "a/0", "k/12", "g/30", "d/16", "c/15", "b/10", "d/11", "g/12", "f/18"]);
    let res = rgw_list(&mut bucket, 0, "", 8, Some('/'));
    let expected: &[&str] = &["a/", "b/", "c/", "d/", "e/", "f/", "g/", "h/"];
    assert_eq!(Vec::from(res.keys), expected);
    assert_eq!((res.is_truncated, bucket.rows_read, bucket.queries), (true, 21, 3));
    let mut bucket = bucket_with(1, &["k/8", "h/24", "g/19", "h/10", "d/10", "g/24", "c/25", "e/2", "g/2", "t5", "g/10", "d/6", "e/8", "i/1", "j/14", "c/29", "h/22", "t3"]);
    let res = rgw_list(&mut bucket, 0, "a\u{E9}//", 8, Some('/'));
    let expected: &[&str] = &["c/", "d/", "e/", "g/", "h/", "i/", "j/", "k/"];
    assert_eq!(Vec::from(res.keys), expected);
    assert_eq!((res.is_truncated, bucket.rows_read, bucket.queries), (true, 15, 2));
    let mut bucket = bucket_with(1, &["a/b", "///b", "a", "b/a/", "b", "babb", "/b", "bb/b", "/", "//b", "bba\u{10FFFF}", "b\u{E9}b/", "bb/", "/ab/", "//a", "cabc", "ba", "a/", "aaa/"]);
    let res = rgw_list(&mut bucket, 0, "", 0, None);
    let expected: &[&str] = &[];
    assert_eq!(Vec::from(res.keys), expected);
    assert_eq!((res.is_truncated, bucket.rows_read, bucket.queries), (false, 0, 0));
    let mut bucket = bucket_with(1, &["a/11", "a/10", "k/24", "e/2", "h/8", "j/29", "i/9", "d/30", "t3", "e/11", "f/16", "d/9", "t0", "h/16", "i/15", "t1", "i/21", "t2", "e/6", "e/12", "g/17", "k/10", "j/19"]);
    let res = rgw_list(&mut bucket, 0, "i/21", 11, None);
    let expected: &[&str] = &["i/9", "j/19", "j/29", "k/10", "k/24", "t0", "t1", "t2", "t3"];
    assert_eq!(Vec::from(res.keys), expected);
    assert_eq!((res.is_truncated, bucket.rows_read, bucket.queries), (false, 9, 1));
    let mut bucket = bucket_with(1, &["i/17", "c/27", "i/4", "d/15", "j/5", "e/24", "h/7", "b/29"]);
    let res = rgw_list(&mut bucket, 0, "a/b\u{10FFFF}", 5, Some('/'));
    let expected: &[&str] = &["b/", "c/", "d/", "e/", "h/"];
    assert_eq!(Vec::from(res.keys), expected);
    assert_eq!((res.is_truncated, bucket.rows_read, bucket.queries), (true, 5, 1));
    let mut bucket = bucket_with(1, &["a/23", "a/19", "l/20", "c/29"]);
    let res = rgw_list(&mut bucket, 0, "/ba/", 4, None);
    let expected: &[&str] = &["a/19", "a/23", "c/29", "l/20"];
    assert_eq!(Vec::from(res.keys), expected);
    assert_eq!((res.is_truncated, bucket.rows_read, bucket.queries), (false, 4, 1));
}

#[test]
fn shard_queries_of_small_shards_2() {
    let mut bucket = bucket_with(1, &["/ba", "aba", "a/", "ac", "bb", "aa", "/bc/", "ab", "a\u{10FFFF}c\u{E9}", "b/b/", "//aa", "/\u{10FFFF}//", "/", "\u{10FFFF}//", "b", "a", "//b", "b/", "ba//", "/b//", "\u{10FFFF}c", "\u{E9}ba", "ba\u{10FFFF}", "//a", "/bb", "/ab", "ab/"]);
    let res = rgw_list(&mut bucket, 0, "", 3, None);
    let expected: &[&str] = &["/", "//a", "//aa"];
    assert_eq!(Vec::from(res.keys), expected);
    assert_eq!((res.is_truncated, bucket.rows_read, bucket.queries), (true, 3, 1));
    let mut bucket = bucket_with(1, &["/", "/\u{10FFFF}\u{10FFFF}", "aa/", "bbba", "a", "/b", "\u{E9}abb", "ba", "/abb", "\u{E9}", "ab/b"]);
    let res = rgw_list(&mut bucket, 0, "", 5, Some('/'));
    let expected: &[&str] = &["/", "a", "aa/", "ab/", "ba"];
    assert_eq!(Vec::from(res.keys), expected);
    assert_eq!((res.is_truncated, bucket.rows_read, bucket.queries), (true, 9, 2));
    let mut bucket = bucket_with(1, &["ab/b", "a\u{E9}a", "acb", "b\u{10FFFF}", "a//", "caba", "ba", "b/", "////", "bbb", "aab", "babb", "a", "/a", "//", "/b//", "bbc", "///a", "/", "a/", "c/", "//bb", "a/a/", "a/b/", "b", "aaa", "b\u{E9}/"]);
    let res = rgw_list(&mut bucket, 0, "/ba", 11, Some('/'));
    let expected: &[&str] = &["a", "a/", "aaa", "aab", "ab/", "acb", "a\u{E9}a", "b", "b/", "ba", "babb"];
    assert_eq!(Vec::from(res.keys), expected);
    assert_eq!((res.is_truncated, bucket.rows_read, bucket.queries), (false, 20, 2));
    let mut bucket = bucket_with(1, &["b", "c/", "a\u{10FFFF}/a", "/aab", "/", "a/", "a\u{E9}c", "a//", "a", "bbb/", "/b", "bab/", "abab", "a\u{E9}/c", "\u{E9}abb", "/aa/", "ab", "ba", "b\u{10FFFF}/", "/ba", "ab/b", "aa", "c"]);
    let res = rgw_list(&mut bucket, 0, "", 3, None);
    let expected: &[&str] = &["/", "/aa/", "/aab"];
    assert_eq!(Vec::from(res.keys), expected);
    assert_eq!((res.is_truncated, bucket.rows_read, bucket.queries), (true, 3, 1));
    let mut bucket = bucket_with(1, &["f/10", "l/22", "t1", "f/6", "h/2", "c/2", "c/19", "b/21", "j/13", "h/10", "h/19", "f/14", "b/14", "f/19", "t0", "e/15", "e/18", "g/16", "j/22", "c/16", "t5", "k/14"]);
    let res = rgw_list(&mut bucket, 0, "a/ab", 20, None);
    let expected: &[&str] = &["b/14", "b/21", "c/16", "c/19", "c/2", "e/15", "e/18", "f/10", "f/14", "f/19", "f/6", "g/16", "h/10", "h/19", "h/2", "j/13", "j/22", "k/14", "l/22", "t0"];
    assert_eq!(Vec::from(res.keys), expected);
    assert_eq!((res.is_truncated, bucket.rows_read, bucket.queries), (true, 20, 1));
    let mut bucket = bucket_with(1, &["b/a/", "bbb", "bab", "a\u{E9}a/", "ab", "a", "aabb", "//a", "aa", "/ba", "bb/", "ab/a", "bb", "b", "aaa", "b/a"]);
    let res = rgw_list(&mut bucket, 0, "", 11, Some('/'));
    let expected: &[&str] = &["/", "a", "aa", "aaa", "aabb", "ab", "ab/", "a\u{E9}a/", "b", "b/", "bab"];
    assert_eq!(Vec::from(res.keys), expected);
    assert_eq!((res.is_truncated, bucket.rows_read, bucket.queries), (false, 15, 2));
    let mut bucket = bucket_with(1, &["t5", "i/10", "d/27", "e/4", "b/6", "d/8", "i/12", "b/2"]);
    let res = rgw_list(&mut bucket, 0, "", 4, None);
    let expected: &[&str] = &["b/2", "b/6", "d/27", "d/8"];
    assert_eq!(Vec::from(res.keys), expected);
    assert_eq!((res.is_truncated, bucket.rows_read, bucket.queries), (true, 4, 1));
    let mut bucket = bucket_with(1, &["a/16", "g/28", "c/30", "l/23", "f/29", "k/14", "d/20", "e/23", "e/4", "l/16", "d/11", "t1"]);
    let res = rgw_list(&mut bucket, 0, "b", 0, Some('/'));
    let expected: &[&str] = &[];
    assert_eq!(Vec::from(res.keys), expected);
    assert_eq!((res.is_truncated, bucket.rows_read, bucket.queries), (false, 0, 0));
}

#[test]
fn shard_queries_of_small_shards_3() {
    let mut bucket = bucket_with(1, &[]);
    let res = rgw_list(&mut bucket, 0, "", 8, Some('/'));
    let expected: &[&str] = &[];
    assert_eq!(Vec::from(res.keys), expected);
    assert_eq!((res.is_truncated, bucket.rows_read, bucket.queries), (false, 0, 0));
    let mut bucket = bucket_with(1, &["a/13", "c/16", "h/1", "t1", "d/17", "j/6", "j/25", "g/6", "h/15", "f/20", "t0", "k/26", "f/21", "c/6", "a/23", "g/28", "h/24"]);
    let res = rgw_list(&mut bucket, 0, "", 2, Some('/'));
    let expected: &[&str] = &["a/", "c/"];
    assert_eq!(Vec::from(res.keys), expected);
    assert_eq!((res.is_truncated, bucket.rows_read, bucket.queries), (true, 3, 2));
    let mut bucket = bucket_with(1, &["/a/", "ba/", "/b\u{10FFFF}", "\u{E9}a", "/c", "b", "/", "///b", "a", "aac", "aab", "//aa", "//a", "/ba"]);
    let res = rgw_list(&mut bucket, 0, "b/", 20, Some('/'));
    let expected: &[&str] = &["ba/", "\u{E9}a"];
    assert_eq!(Vec::from(res.keys), expected);
    assert_eq!((res.is_truncated, bucket.rows_read, bucket.queries), (false, 2, 1));
    let mut bucket = bucket_with(1, &["j/12", "e/1", "a/23", "f/22", "t5", "h/13", "c/20", "a/19", "i/0", "h/8", "g/12"]);
    let res = rgw_list(&mut bucket, 0, "", 2, None);
    let expected: &[&str] = &["a/19", "a/23"];
    assert_eq!(Vec::from(res.keys), expected);
    assert_eq!((res.is_truncated, bucket.rows_read, bucket.queries), (true, 2, 1));
    let mut bucket = bucket_with(1, &["f/27", "a/4", "e/23", "j/10", "j/26", "f/26", "t2", "a/28", "j/13", "i/6", "g/21", "f/15", "i/25", "j/29", "c/0", "a/1", "t3", "c/18", "l/6"]);
    let res = rgw_list(&mut bucket, 0, "", 20, Some('/'));
    let expected: &[&str] = &["a/", "c/", "e/", "f/", "g/", "i/", "j/", "l/", "t2", "t3"];
    assert_eq!(Vec::from(res.keys), expected);
    assert_eq!((res.is_truncated, bucket.rows_read, bucket.queries), (false, 19, 1));
    let mut bucket = bucket_with(1, &["ab", "cb/", "/", "\u{E9}/b/", "b\u{E9}bb", "cbb\u{E9}", "aa", "\u{10FFFF}b", "/b", "ba/", "//aa", "b"]);
    let res = rgw_list(&mut bucket, 0, "", 3, Some('/'));
    let expected: &[&str] = &["/", "aa", "ab"];
    assert_eq!(Vec::from(res.keys), expected);
    assert_eq!((res.is_truncated, bucket.rows_read, bucket.queries), (true, 5, 2));
    let mut bucket = bucket_with(1, &["t4", "t3", "j/11", "e/25", "l/23", "c/2", "g/23", "j/23", "l/12", "b/0", "b/11", "a/7", "j/5", "d/21", "d/29", "e/21", "g/0"]);
    let res = rgw_list(&mut bucket, 0, "", 11, Some('/'));
    let expected: &[&str] = &["a/", "b/", "c/", "d/", "e/", "g/", "j/", "l/", "t3", "t4"];
    assert_eq!(Vec::from(res.keys), expected);
    assert_eq!((res.is_truncated, bucket.rows_read, bucket.queries), (false, 15, 2));
    let mut bucket = bucket_with(1, &["/a\u{E9}/", "\u{E9}b", "b", "cbaa", "aa", "ba", "b//b", "b/", "b\u{10FFFF}", "aa/b", "bb\u{10FFFF}b"]);
    let res = rgw_list(&mut bucket, 0, "", 1, None);
    let expected: &[&str] = &["/a\u{E9}/"];
    assert_eq!(Vec::from(res.keys), expected);
    assert_eq!((res.is_truncated, bucket.rows_read, bucket.queries), (true, 1, 1));
}

#[test]
fn shard_queries_of_small_shards_4() {
    let mut bucket = bucket_with(1, &["d/28", "l/24", "k/4", "k/12", "i/27", "f/19", "l/22", "b/1", "c/19", "i/13", "t0", "l/27", "t2", "a/6", "l/21", "e/12", "g/9", "b/26", "g/28", "a/22", "c/3", "f/14", "h/7", "l/7", "j/27"]);
    let res = rgw_list(&mut bucket, 0, "b/", 0, Some('/'));
    let expected: &[&str] = &[];
    assert_eq!(Vec::from(res.keys), expected);
    assert_eq!((res.is_truncated, bucket.rows_read, bucket.queries), (false, 0, 0));
    let mut bucket = bucket_with(1, &["i/12", "a/6", "j/8", "t5", "d/23", "k/0", "j/27", "k/9", "c/22", "k/21", "a/12", "h/6", "b/29", "i/30", "j/17", "e/4", "c/19", "g/13", "k/17", "b/18", "t4", "c/30", "k/19", "f/16", "k/11", "g/18", "g/6", "t0", "l/30"]);
    let res = rgw_list(&mut bucket, 0, "j/27", 8, Some('/'));
    let expected: &[&str] = &["j/", "k/", "l/", "t0", "t4", "t5"];
    assert_eq!(Vec::from(res.keys), expected);
    assert_eq!((res.is_truncated, bucket.rows_read, bucket.queries), (false, 11, 2));
    let mut bucket = bucket_with(1, &[]);
    let res = rgw_list(&mut bucket, 0, "", 4, None);
    let expected: &[&str] = &[];
    assert_eq!(Vec::from(res.keys), expected);
    assert_eq!((res.is_truncated, bucket.rows_read, bucket.queries), (false, 0, 0));
    let mut bucket = bucket_with(1, &["k/20", "h/22", "c/24", "c/2", "a/12", "i/25", "a/8", "c/11", "c/26", "i/16", "h/5", "g/21", "j/1", "d/27", "f/6", "g/0", "c/4", "h/13", "e/17", "j/5", "t5", "k/26", "c/25"]);
    let res = rgw_list(&mut bucket, 0, "", 1, Some('/'));
    let expected: &[&str] = &["a/"];
    assert_eq!(Vec::from(res.keys), expected);
    assert_eq!((res.is_truncated, bucket.rows_read, bucket.queries), (true, 1, 1));
    let mut bucket = bucket_with(1, &["b/2", "a/23", "k/27", "i/13", "f/6", "a/3", "b/0", "h/26", "i/24", "h/4", "k/4", "l/16", "j/11", "i/22", "t5", "d/18", "i/11", "j/27", "f/24", "t4", "h/8", "g/13", "b/22", "k/18", "d/23", "c/7", "b/8", "e/16", "f/16"]);
    let res = rgw_list(&mut bucket, 0, "", 2, None);
    let expected: &[&str] = &["a/23", "a/3"];
    assert_eq!(Vec::from(res.keys), expected);
    assert_eq!((res.is_truncated, bucket.rows_read, bucket.queries), (true, 2, 1));
    let mut bucket = bucket_with(1, &["a", "\u{E9}\u{E9}", "aaa", "\u{E9}", "aaab", "c/", "aa/\u{10FFFF}", "abaa", "/b", "/", "baa", "ab", "b", "a/bb", "abbb", "cc/b", "caa\u{10FFFF}", "///", "a//a", "bac", "ca", "bb"]);
    let res = rgw_list(&mut bucket, 0, "", 3, None);
    let expected: &[&str] = &["/", "///", "/b"];
    assert_eq!(Vec::from(res.keys), expected);
    assert_eq!((res.is_truncated, bucket.rows_read, bucket.queries), (true, 3, 1));
    let mut bucket = bucket_with(1, &["b/22", "j/24", "t2", "b/16", "j/20", "t1", "t0", "t4", "d/29", "c/14", "k/8", "i/0", "l/11"]);
    let res = rgw_list(&mut bucket, 0, "", 11, Some('/'));
    let expected: &[&str] = &["b/", "c/", "d/", "i/", "j/", "k/", "l/", "t0", "t1", "t2", "t4"];
    assert_eq!(Vec::from(res.keys), expected);
    assert_eq!((res.is_truncated, bucket.rows_read, bucket.queries), (false, 13, 2));
    let mut bucket = bucket_with(1, &["h/23", "l/9", "e/22", "c/30", "i/30", "k/28", "c/26", "k/15", "k/17", "i/21", "l/4", "g/28", "h/8", "l/14", "t1", "t0", "c/0", "l/0", "b/11", "k/19", "i/0", "t2", "g/26", "g/24", "g/3", "f/30", "g/27", "c/25", "k/30", "b/19", "g/4", "g/14"]);
    let res = rgw_list(&mut bucket, 0, "", 11, None);
    let expected: &[&str] = &["b/11", "b/19", "c/0", "c/25", "c/26", "c/30", "e/22", "f/30", "g/14", "g/24", "g/26"];
    assert_eq!(Vec::from(res.keys), expected);
    assert_eq!((res.is_truncated, bucket.rows_read, bucket.queries), (true, 11, 1));
}
