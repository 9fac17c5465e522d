use bucket_listing::bucket::{add_to_bucket, new_bucket, Bucket};
use bucket_listing::dataset::create_bucket;
use bucket_listing::estimate::request_targets;
use bucket_listing::listing::{list, quota_for, ListError, MAX_ROUNDS, MIN_SHARD_QUOTA};
use bucket_listing::shard_query::rgw_list;

fn balls_into_bins(num_entries: f64, num_shards: f64) -> usize {
    let bib = 1. + (num_entries / num_shards) + ((2. * num_entries) * num_shards.ln() / num_shards).sqrt();
    bib as usize
}

fn estimates(bucket: &Bucket, max_keys: usize, read_ahead: usize) -> [usize; MAX_ROUNDS] {
    let targets = request_targets(max_keys, read_ahead);
    let mut sizes = [0usize; MAX_ROUNDS];
    for i in 0..MAX_ROUNDS {
        sizes[i] = balls_into_bins(targets[i] as f64, bucket.shards.len() as f64);
    }
    sizes
}

fn list_page(
    bucket: &mut Bucket,
    start: &str,
    delimiter: Option<char>,
    max_keys: usize,
    read_ahead: usize,
) -> Result<(Vec<String>, bool), ListError> {
    let sizes = estimates(bucket, max_keys, read_ahead);
    list(bucket, start, delimiter, max_keys, &sizes)
}

fn bucket_of(num_shards: usize, keys: &[&str]) -> Bucket {
    let mut bucket = new_bucket(num_shards);
    for key in keys {
        add_to_bucket(&mut bucket, key);
    }
    bucket
}

fn all_keys(bucket: &Bucket) -> Vec<String> {
    let mut keys = Vec::new();
    for shard in &bucket.shards {
        for i in 0..shard.len() {
            keys.push(shard.key(i).clone());
        }
    }
    keys.sort();
    keys
}

fn collapse(key: &str, delimiter: char) -> String {
    match key.find(delimiter) {
        Some(pos) => key[..pos + delimiter.len_utf8()].to_string(),
        None => key.to_string(),
    }
}

fn all_prefixes(bucket: &Bucket, delimiter: char) -> Vec<String> {
    let mut prefixes: Vec<String> = all_keys(bucket).iter().map(|k| collapse(k, delimiter)).collect();
    prefixes.dedup();
    prefixes
}

fn strictly_increasing(items: &[String]) -> bool {
    items.windows(2).all(|w| w[0] < w[1])
}

#[test]
fn test() {
    // test rgw_list
    let mut bucket = create_bucket(11, 30, 100000);
    let res = rgw_list(&mut bucket, 0, "", 10, None);
    assert!(res.keys.len() == 10);
    assert_eq!(res.is_truncated, true);
    let res = rgw_list(&mut bucket, 0, "", 10, Some('/'));
    println!("{:?}", res);
    println!("rows_read: {}", bucket.rows_read);
    println!("queries: {}", bucket.queries);
    println!("calls: {}", bucket.calls);
    assert!(res.keys.len() == 8);
    assert_eq!(res.is_truncated, true);

    // test list
    let res = list_page(&mut bucket, "", None, 100, 100).unwrap();
    assert!(res.0.len() == 100);
    assert_eq!(res.1, true);

    bucket.rows_read = 0;
    bucket.queries = 0;
    bucket.calls = 0;
    let res = list_page(&mut bucket, "", Some('/'), 100, 1000);
    println!("{:?}", res);
    println!("rows_read: {}", bucket.rows_read);
    println!("queries: {}", bucket.queries);
    println!("calls: {}", bucket.calls);

    let mut bucket = create_bucket(11, 1, 100);
    let res = list_page(&mut bucket, "", None, 100, 100).unwrap();
    assert!(res.0.len() == 100);
    assert_eq!(res.1, false);

    let res = list_page(&mut bucket, "", Some('/'), 100, 1000).unwrap();
    assert!(res.0.len() == 1);
    assert_eq!(res.1, false);
}

#[test]
fn small_bucket_lists_every_key_in_order() {
    let mut bucket = bucket_of(3, &["pear", "apple", "fig", "kiwi", "lime", "date"]);
    let res = list_page(&mut bucket, "", None, 10, 10).unwrap();
    assert_eq!(res.0, vec!["apple", "date", "fig", "kiwi", "lime", "pear"]);
    assert_eq!(res.1, false);
}

#[test]
fn one_directory_of_a_hundred_files() {
    let mut bucket = create_bucket(11, 1, 100);
    let res = list_page(&mut bucket, "", None, 100, 100).unwrap();
    assert_eq!(res.0.len(), 100);
    assert_eq!(res.1, false);
    assert_eq!(res.0, all_keys(&bucket));
    assert_eq!((bucket.calls, bucket.rows_read, bucket.queries), (11, 100, 11));

    let mut bucket = create_bucket(11, 1, 100);
    let res = list_page(&mut bucket, "", Some('/'), 100, 1000).unwrap();
    assert_eq!(res.0, vec!["dir00/"]);
    assert_eq!(res.1, false);
    assert_eq!((bucket.calls, bucket.rows_read, bucket.queries), (88, 100, 11));
}

#[test]
fn plain_page_is_strictly_increasing() {
    let mut bucket = create_bucket(11, 3, 200);
    let res = list_page(&mut bucket, "", None, 100, 100).unwrap();
    assert_eq!(res.0.len(), 100);
    assert_eq!(res.1, true);
    assert!(strictly_increasing(&res.0));
    assert_eq!(res.0, all_keys(&bucket)[..100].to_vec());
    assert_eq!(res.0[99], "dir00/file000099");
    assert_eq!((bucket.calls, bucket.rows_read, bucket.queries), (11, 176, 11));
}

#[test]
fn delimiter_page_holds_each_prefix_once() {
    let mut bucket = create_bucket(11, 3, 200);
    let res = list_page(&mut bucket, "", Some('/'), 100, 1000).unwrap();
    assert_eq!(res.0, vec!["dir00/", "dir01/", "dir02/"]);
    assert_eq!(res.1, false);
    assert_eq!(res.0, all_prefixes(&bucket, '/'));
    assert_eq!((bucket.calls, bucket.rows_read, bucket.queries), (88, 600, 11));

    let mut bucket = create_bucket(11, 30, 50);
    let res = list_page(&mut bucket, "", Some('/'), 10, 1000).unwrap();
    assert_eq!(res.0, all_prefixes(&bucket, '/')[..10].to_vec());
    assert!(strictly_increasing(&res.0));
    assert_eq!(res.1, false);
    assert_eq!((bucket.calls, bucket.rows_read, bucket.queries), (11, 1477, 22));
}

#[test]
fn delimiter_page_from_a_key_starts_behind_its_group() {
    let mut bucket = create_bucket(11, 30, 50);
    let res = list_page(&mut bucket, "dir03/file000010", Some('/'), 10, 10).unwrap();
    assert_eq!(
        res.0,
        vec!["dir04/", "dir05/", "dir06/", "dir07/", "dir08/", "dir09/", "dir10/", "dir11/"]
    );
    assert_eq!(res.1, true);
    assert_eq!((bucket.calls, bucket.rows_read, bucket.queries), (11, 302, 49));
}

#[test]
fn full_page_of_a_larger_bucket_is_truncated() {
    let mut bucket = create_bucket(11, 2, 500);
    for n in [1usize, 7, 8, 50, 333] {
        let res = list_page(&mut bucket, "", None, n, n).unwrap();
        assert_eq!(res.0.len(), n);
        assert_eq!(res.1, true);
        assert_eq!(res.0, all_keys(&bucket)[..n].to_vec());
    }
}

#[test]
fn paging_until_not_truncated_yields_every_key() {
    let mut bucket = create_bucket(7, 4, 250);
    let expected = all_keys(&bucket);
    let mut seen: Vec<String> = Vec::new();
    let mut cursor = String::new();
    loop {
        let (items, truncated) = list_page(&mut bucket, &cursor, None, 64, 64).unwrap();
        assert!(items.len() <= 64);
        if let Some(last) = items.last() {
            cursor = last.clone();
        }
        seen.extend(items);
        if !truncated {
            break;
        }
    }
    assert_eq!(seen, expected);
}

#[test]
fn paging_with_a_delimiter_yields_every_prefix() {
    let mut bucket = create_bucket(5, 40, 30);
    let expected = all_prefixes(&bucket, '/');
    assert_eq!(expected.len(), 40);
    let mut seen: Vec<String> = Vec::new();
    let mut cursor = String::new();
    loop {
        let (items, truncated) = list_page(&mut bucket, &cursor, Some('/'), 6, 6).unwrap();
        assert!(items.len() <= 6);
        if let Some(last) = items.last() {
            cursor = last.clone();
        }
        seen.extend(items);
        if !truncated {
            break;
        }
    }
    assert_eq!(seen, expected);
}

#[test]
fn bucket_smaller_than_the_page_is_returned_whole() {
    let mut bucket = create_bucket(11, 2, 30);
    let res = list_page(&mut bucket, "", None, 61, 1000).unwrap();
    assert_eq!(res.0, all_keys(&bucket));
    assert_eq!(res.0.len(), 60);
    assert_eq!(res.1, false);
    assert_eq!((bucket.calls, bucket.rows_read, bucket.queries), (11, 60, 11));
}

#[test]
fn shard_with_more_keys_than_its_quota_cuts_the_page_short() {
    let mut bucket = create_bucket(11, 2, 30);
    assert_eq!(bucket.shards[4].len(), 12);
    assert_eq!(estimates(&bucket, 61, 0)[0], 11);
    let res = list_page(&mut bucket, "", None, 61, 0).unwrap();
    assert_eq!(res.0.len(), 56);
    assert_eq!(res.0, all_keys(&bucket)[..56].to_vec());
    assert_eq!(res.0[55], "dir01/file000025");
    assert_eq!(res.1, true);
    assert_eq!((bucket.calls, bucket.rows_read, bucket.queries), (11, 59, 11));

    let mut bucket = create_bucket(11, 2, 30);
    assert_eq!(estimates(&bucket, 60, 0)[0], 11);
    let res = list_page(&mut bucket, "", None, 60, 0).unwrap();
    assert_eq!(res.0.len(), 56);
    assert_eq!(res.0, all_keys(&bucket)[..56].to_vec());
    assert_eq!(res.1, true);
}

#[test]
fn small_quotas_return_half_a_page() {
    let mut bucket = new_bucket(1);
    for i in 0..50 {
        add_to_bucket(&mut bucket, &format!("k{:03}", i));
    }
    let res = list(&mut bucket, "", None, 51, &[8; MAX_ROUNDS]).unwrap();
    assert_eq!(res.0.len(), 32);
    assert_eq!(res.0[31], "k031");
    assert_eq!(res.1, true);
    assert_eq!(res.0, all_keys(&bucket)[..32].to_vec());
}

#[test]
fn page_filled_in_the_middle_of_a_merge_reports_the_shards_flags() {
    let mut bucket = bucket_of(2, &["apple", "pear", "fig", "kiwi", "lime", "date"]);
    assert_eq!(bucket.shards[0].len(), 3);
    assert_eq!(bucket.shards[1].len(), 3);
    let res = list_page(&mut bucket, "", None, 2, 0).unwrap();
    assert_eq!(res.0, vec!["apple", "date"]);
    assert_eq!(res.1, false);
    assert_eq!((bucket.calls, bucket.rows_read, bucket.queries), (2, 6, 2));
}

#[test]
fn key_without_delimiter_ends_a_delimiter_listing_with_an_error() {
    let mut bucket = bucket_of(3, &["a/x", "a/y", "top"]);
    assert_eq!(list_page(&mut bucket, "", Some('/'), 10, 10), Err(ListError::MissingPrefix));
    assert_eq!(
        list_page(&mut bucket, "", Some('/'), 1, 10),
        Ok((vec!["a/".to_string()], false))
    );
    let plain = list_page(&mut bucket, "", None, 10, 10).unwrap();
    assert_eq!(plain.0, vec!["a/x", "a/y", "top"]);

    let mut bucket = bucket_of(3, &["a/x", "a/y", "b/z", "top"]);
    assert_eq!(list_page(&mut bucket, "", Some('/'), 10, 10), Err(ListError::MissingPrefix));
    assert_eq!(
        list_page(&mut bucket, "", Some('/'), 2, 10),
        Ok((vec!["a/".to_string(), "b/".to_string()], false))
    );
}

#[test]
fn empty_bucket() {
    let mut bucket = new_bucket(4);
    assert_eq!(list_page(&mut bucket, "", None, 10, 10), Ok((vec![], false)));
    assert_eq!(bucket.calls, 4);
    assert_eq!(bucket.rows_read, 0);
    assert_eq!(bucket.queries, 0);
    assert_eq!(list_page(&mut bucket, "", Some('/'), 10, 10), Err(ListError::MissingPrefix));
    assert_eq!(list_page(&mut bucket, "", Some('/'), 0, 10), Ok((vec![], false)));

    let mut none = new_bucket(0);
    assert_eq!(list(&mut none, "", None, 10, &[0; MAX_ROUNDS]), Ok((vec![], false)));
    assert_eq!(none.calls, 0);
}

#[test]
fn page_of_no_keys_is_empty_and_reports_the_shards_flags() {
    let mut bucket = create_bucket(3, 1, 100);
    let res = list_page(&mut bucket, "", None, 0, 0).unwrap();
    assert_eq!(res.0.len(), 0);
    assert_eq!(res.1, true);
    assert_eq!(bucket.calls, 3);
}

#[test]
fn listing_behind_the_last_key_is_empty() {
    let mut bucket = create_bucket(3, 1, 20);
    let res = list_page(&mut bucket, "dir00/file000019", None, 5, 5).unwrap();
    assert_eq!(res, (vec![], false));
    let res = list_page(&mut bucket, "dir00/file000017", None, 5, 5).unwrap();
    assert_eq!(res.0, vec!["dir00/file000018", "dir00/file000019"]);
    assert_eq!(res.1, false);
}

#[test]
fn counters_stop_at_the_largest_value() {
    let mut bucket = create_bucket(3, 1, 20);
    bucket.calls = usize::MAX - 1;
    bucket.rows_read = usize::MAX - 5;
    bucket.queries = usize::MAX;
    let res = list_page(&mut bucket, "", None, 20, 20).unwrap();
    assert_eq!(res.0.len(), 20);
    assert_eq!(bucket.calls, usize::MAX);
    assert_eq!(bucket.rows_read, usize::MAX);
    assert_eq!(bucket.queries, usize::MAX);
}

#[test]
fn round_targets_count_down_from_the_larger_of_page_and_read_ahead() {
    assert_eq!(request_targets(10, 1000), [1000, 999, 998, 997, 996, 995, 994, 993]);
    assert_eq!(request_targets(100, 10), [100, 99, 98, 97, 96, 95, 94, 93]);
    assert_eq!(request_targets(3, 0), [3, 2, 1, 0, 0, 0, 0, 0]);
    assert_eq!(request_targets(0, 0), [0; 8]);
    assert_eq!(request_targets(usize::MAX, 1)[0], usize::MAX);
}

#[test]
fn shard_quota_is_at_least_eight() {
    assert_eq!(MIN_SHARD_QUOTA, 8);
    assert_eq!(MAX_ROUNDS, 8);
    assert_eq!(quota_for(0), 8);
    assert_eq!(quota_for(7), 8);
    assert_eq!(quota_for(8), 8);
    assert_eq!(quota_for(9), 9);
    assert_eq!(quota_for(112), 112);
}

#[test]
fn estimate_grows_with_the_target_and_is_exact_for_one_shard() {
    for shards in [1usize, 2, 11, 64] {
        let mut last = 0;
        for n in 0..2000 {
            let e = balls_into_bins(n as f64, shards as f64);
            assert!(e >= last);
            last = e;
        }
    }
    for n in [0usize, 1, 7, 100, 12345] {
        assert_eq!(balls_into_bins(n as f64, 1.0), 1 + n);
    }
    assert_eq!(balls_into_bins(100.0, 11.0), 16);
    assert_eq!(balls_into_bins(1000.0, 11.0), 112);
}

#[test]
fn shard_that_fills_its_quota_inside_a_batch_hides_its_last_group() {
    let keys = [
        "g1/0", "g1/1", "g1/2", "g1/3", "g1/4", "g1/5", "g1/6", "g2/2", "h1/1", "h2/0", "h3/3", "h4/3",
        "h5/2", "h6/0", "h7/0", "z/0",
    ];
    let mut bucket = bucket_of(2, &keys);
    assert_eq!(bucket.shards[0].len(), 15);
    assert_eq!(bucket.shards[1].len(), 1);
    let shard = rgw_list(&mut bucket, 0, "", 8, Some('/'));
    assert_eq!(
        Vec::from(shard.keys),
        vec!["g1/", "g2/", "h1/", "h2/", "h3/", "h4/", "h5/", "h6/"]
    );
    assert_eq!(shard.is_truncated, false);
    assert_eq!(estimates(&bucket, 10, 0)[0], 8);
    let res = list_page(&mut bucket, "", Some('/'), 10, 0).unwrap();
    assert_eq!(res.0, vec!["g1/", "g2/", "h1/", "h2/", "h3/", "h4/", "h5/", "h6/", "z/"]);
    assert_eq!(res.1, false);
    let res = list_page(&mut bucket, "h6/", Some('/'), 10, 0).unwrap();
    assert_eq!(res.0, vec!["h7/", "z/"]);
    assert_eq!(res.1, false);
}

#[test]
fn small_bucket_lists_every_group_once() {
    let mut bucket = create_bucket(11, 5, 20);
    let res = list_page(&mut bucket, "", Some('/'), 101, 1000).unwrap();
    assert_eq!(res.0, vec!["dir00/", "dir01/", "dir02/", "dir03/", "dir04/"]);
    assert_eq!(res.1, false);
    assert_eq!((bucket.calls, bucket.rows_read, bucket.queries), (88, 100, 11));

    let mut bucket = create_bucket(11, 5, 20);
    let res = list_page(&mut bucket, "dir01/file000003", Some('/'), 6, 1000).unwrap();
    assert_eq!(res.0, vec!["dir02/", "dir03/", "dir04/"]);
    assert_eq!(res.1, false);
}
