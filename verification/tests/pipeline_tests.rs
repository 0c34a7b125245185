use url_counter::codec::encode_item;
use url_counter::config::validate_config;
use url_counter::config::ConfigError;
use url_counter::counting::count_items;
use url_counter::counting::count_top_k;
use url_counter::hashing::assign_shard;
use url_counter::hashing::assign_shard_skewed;
use url_counter::hashing::assign_shard_with_skew;
use url_counter::item::bytes_eq;
use url_counter::partition::num_shards;
use url_counter::partition::partition;
use url_counter::partition::shard_bytes_of_mb;
use url_counter::reducer::reduce;
use url_counter::reducer::reduce_sidecars;
use url_counter::item::CountItem;

fn lines(words: &[&str]) -> Vec<Vec<u8>> {
    words.iter().map(|w| w.as_bytes().to_vec()).collect()
}

fn count_of(items: &[CountItem], key: &[u8]) -> Option<u64> {
    items.iter().find(|it| it.key == key.to_vec()).map(|it| it.cnt)
}

#[test]
fn scenario_one_shard_top_two() {
    // one shard large enough for the whole source, K = 2
    let src = lines(&["a", "b", "a", "c", "a", "b"]);
    let counts = count_items(&src);
    assert_eq!(counts.len(), 3);
    assert_eq!(count_of(&counts, b"a"), Some(3));
    assert_eq!(count_of(&counts, b"b"), Some(2));
    assert_eq!(count_of(&counts, b"c"), Some(1));

    let top = count_top_k(&src, 2);
    assert_eq!(top.len(), 2);
    assert_eq!(top[0].key, b"a".to_vec());
    assert_eq!(top[0].cnt, 3);
    assert_eq!(top[1].key, b"b".to_vec());
    assert_eq!(top[1].cnt, 2);
}

#[test]
fn scenario_two_shards_reduced() {
    // the same source split across two shards by the fixed hash, skew
    // disabled, K_shard = 3, K_global = 2
    let src = lines(&["a", "b", "a", "c", "a", "b"]);
    let shards = partition(&src, 2);
    assert_eq!(shards.len(), 2);

    let mut sidecar_lines: Vec<Vec<u8>> = Vec::new();
    let mut a_total = 0u64;
    for shard in &shards {
        let local = count_top_k(shard, 3);
        if let Some(c) = count_of(&local, b"a") {
            a_total += c;
        }
        for it in &local {
            sidecar_lines.push(encode_item(it));
        }
    }
    // the per-shard counts for "a" sum to its source count
    assert_eq!(a_total, 3);

    let top = reduce_sidecars(&sidecar_lines, 2);
    assert_eq!(top.len(), 2);
    assert_eq!(top[0].key, b"a".to_vec());
    assert_eq!(top[0].cnt, 3);
    assert_eq!(top[1].key, b"b".to_vec());
    assert_eq!(top[1].cnt, 2);
}

#[test]
fn conservation_of_counts_across_shards() {
    let src = lines(&["x", "y", "x", "z", "y", "x", "w", "z", "x"]);
    let shards = partition(&src, 3);
    for key in [b"x".to_vec(), b"y".to_vec(), b"z".to_vec(), b"w".to_vec()] {
        let total: u64 = shards
            .iter()
            .map(|s| count_of(&count_items(s), &key).unwrap_or(0))
            .sum();
        let direct = count_of(&count_items(&src), &key).unwrap();
        assert_eq!(total, direct);
    }
}

#[test]
fn merge_equivalence_without_truncation() {
    // reducing per-shard exact tables equals counting the source directly
    let src = lines(&["p", "q", "p", "r", "s", "q", "p", "t", "u", "r"]);
    let shards = partition(&src, 4);
    let mut sidecar_lines: Vec<Vec<u8>> = Vec::new();
    for shard in &shards {
        for it in &count_items(shard) {
            sidecar_lines.push(encode_item(it));
        }
    }
    let merged = reduce_sidecars(&sidecar_lines, 100);
    let direct = count_top_k(&src, 100);
    assert_eq!(merged.len(), direct.len());
    for it in &direct {
        assert_eq!(count_of(&merged, &it.key), Some(it.cnt));
    }
}

#[test]
fn boundary_k_zero_is_empty() {
    let src = lines(&["a", "b", "a"]);
    assert!(count_top_k(&src, 0).is_empty());
    let sidecars = vec![b"a,3".to_vec(), b"b,2".to_vec()];
    assert!(reduce_sidecars(&sidecars, 0).is_empty());
    assert!(reduce(Vec::new(), 0).is_empty());
}

#[test]
fn boundary_k_beyond_distinct_keeps_all() {
    let src = lines(&["a", "b", "a", "c", "a", "b"]);
    let top = count_top_k(&src, 10);
    assert_eq!(top.len(), 3);
    assert_eq!(top[0].key, b"a".to_vec());
    assert_eq!(top[0].cnt, 3);
    assert_eq!(top[1].key, b"b".to_vec());
    assert_eq!(top[1].cnt, 2);
    assert_eq!(top[2].key, b"c".to_vec());
    assert_eq!(top[2].cnt, 1);
}

#[test]
fn empty_source_yields_nothing() {
    let src: Vec<Vec<u8>> = Vec::new();
    assert!(count_items(&src).is_empty());
    assert!(count_top_k(&src, 5).is_empty());
    let shards = partition(&src, 2);
    assert_eq!(shards.len(), 2);
    assert!(shards.iter().all(|s| s.is_empty()));
}

#[test]
fn reducer_skips_malformed_sidecar_lines() {
    let sidecars = vec![
        b"a,3".to_vec(),
        b"garbage".to_vec(),
        b"b,2".to_vec(),
        b"c,".to_vec(),
    ];
    let top = reduce_sidecars(&sidecars, 10);
    assert_eq!(top.len(), 2);
    assert_eq!(top[0].key, b"a".to_vec());
    assert_eq!(top[1].key, b"b".to_vec());
}

#[test]
fn partitioning_is_deterministic() {
    let src = lines(&["one", "two", "three", "four", "five", "one"]);
    let first = partition(&src, 5);
    let second = partition(&src, 5);
    assert_eq!(first, second);
}

#[test]
fn partition_keeps_every_line_once() {
    let src = lines(&["one", "two", "three", "one"]);
    let shards = partition(&src, 3);
    let total: usize = shards.iter().map(|s| s.len()).sum();
    assert_eq!(total, src.len());
}

#[test]
fn hash_assignment_matches_murmur3() {
    // fasthash documents murmur3 hash32(b"hello") == 613153351 and
    // hash32(b"helloworld") == 2687965642
    let n = 5_000_000_000u64;
    assert_eq!(assign_shard(&b"hello".to_vec(), n), 613153351);
    assert_eq!(assign_shard(&b"helloworld".to_vec(), n), 2687965642);
    assert_eq!(assign_shard(&b"hello".to_vec(), 7), 613153351 % 7);
}

#[test]
fn skewed_assignment_prepends_prefix() {
    let n = 5_000_000_000u64;
    // the prefix byte changes the hash input: prefix 104 is 'h'
    assert_eq!(assign_shard_skewed(&b"ello".to_vec(), n, 104), 613153351);
    let r = assign_shard_with_skew(&b"hot-key".to_vec(), 4, 26);
    assert!(r < 4);
}

#[test]
fn num_shards_is_ceiling() {
    assert_eq!(num_shards(0, 10), 0);
    assert_eq!(num_shards(1, 10), 1);
    assert_eq!(num_shards(10, 10), 1);
    assert_eq!(num_shards(11, 10), 2);
    assert_eq!(num_shards(100, 10), 10);
}

#[test]
fn shard_bytes_from_megabytes() {
    assert_eq!(shard_bytes_of_mb(1), Some(1 << 20));
    assert_eq!(shard_bytes_of_mb(64), Some(64 << 20));
    assert_eq!(shard_bytes_of_mb(u64::MAX), None);
}

#[test]
fn config_rejects_bad_combinations() {
    assert_eq!(validate_config(false, 10, true), Ok(()));
    assert_eq!(validate_config(true, 10, false), Ok(()));
    assert_eq!(
        validate_config(true, 27, false),
        Err(ConfigError::SkewFactorOutOfRange)
    );
    assert_eq!(
        validate_config(true, 0, false),
        Err(ConfigError::SkewFactorOutOfRange)
    );
    assert_eq!(
        validate_config(true, 10, true),
        Err(ConfigError::SkewWithExactCounting)
    );
}

#[test]
fn byte_keys_compare_exactly() {
    assert!(bytes_eq(&b"abc".to_vec(), &b"abc".to_vec()));
    assert!(!bytes_eq(&b"abc".to_vec(), &b"abd".to_vec()));
    assert!(!bytes_eq(&b"abc".to_vec(), &b"ab".to_vec()));
}
