use mapreduce::codec::{decode_records, encode_records};
use mapreduce::keys::key_less;
use mapreduce::naming::{intermediate_name, output_name, to_decimal};
use mapreduce::partition::{calculate_hash, partition};
use mapreduce::shuffle::{group_records, partition_records};
use mapreduce::worker::{
    emit_counts, map_task_output, merge_intermediate, reduce, reduce_partition,
    reduce_task_output, sum_fits, WorkerError,
};
use mapreduce::KVPair;
use std::collections::hash_map::DefaultHasher;
use std::collections::BTreeMap;
use std::hash::{Hash, Hasher};

fn kv(key: &str, val: u64) -> KVPair {
    KVPair { key: key.to_string(), val }
}

fn pairs(records: &[KVPair]) -> Vec<(String, u64)> {
    records.iter().map(|r| (r.key.clone(), r.val)).collect()
}

#[test]
fn hash_is_std_default_hasher() {
    let mut h = DefaultHasher::new();
    "abc".to_string().hash(&mut h);
    assert_eq!(calculate_hash("abc"), h.finish());
    assert_eq!(calculate_hash("abc"), calculate_hash("abc"));
}

#[test]
fn partition_is_deterministic_and_in_range() {
    for key in ["a", "b", "c", "hello", "", "wörd"] {
        let p = partition(key, 7);
        assert!(p < 7);
        assert_eq!(p, partition(key, 7));
        assert_eq!(p, calculate_hash(key) % 7);
    }
    assert_eq!(partition("anything", 1), 0);
}

#[test]
fn decimal_text() {
    assert_eq!(to_decimal(0), "0");
    assert_eq!(to_decimal(1234), "1234");
    assert_eq!(to_decimal(u64::MAX), "18446744073709551615");
}

#[test]
fn file_names() {
    assert_eq!(intermediate_name(3, 12), "map-3-12");
    assert_eq!(output_name(7), "out-7");
}

#[test]
fn key_order_is_str_order() {
    let keys = ["", "a", "ab", "b", "Z", "z", "é", "abc", "aa"];
    for a in keys {
        for b in keys {
            assert_eq!(key_less(a, b), a < b, "{:?} < {:?}", a, b);
        }
    }
}

#[test]
fn map_counts_each_word() {
    let r = mapreduce::worker::map("a b a");
    assert_eq!(r, vec![kv("a", 1), kv("b", 1), kv("a", 1)]);
    assert_eq!(mapreduce::worker::map("  x\ty\n\n z "), vec![kv("x", 1), kv("y", 1), kv("z", 1)]);
    assert!(mapreduce::worker::map("").is_empty());
    assert!(mapreduce::worker::map(" \n\t ").is_empty());
}

#[test]
fn emit_counts_gives_one_per_word() {
    let words = vec!["p".to_string(), "q".to_string()];
    assert_eq!(emit_counts(&words), vec![kv("p", 1), kv("q", 1)]);
}

#[test]
fn reduce_sums() {
    assert_eq!(reduce("a".to_string(), vec![1, 2, 3]), 6);
    assert_eq!(reduce("a".to_string(), vec![]), 0);
    assert_eq!(reduce("a".to_string(), vec![u64::MAX]), u64::MAX);
}

#[test]
fn sum_fits_detects_overflow() {
    assert!(sum_fits(&vec![u64::MAX - 1, 1]));
    assert!(!sum_fits(&vec![u64::MAX, 1]));
    assert!(sum_fits(&vec![]));
}

#[test]
fn partition_records_routes_every_record() {
    let records = vec![kv("a", 1), kv("b", 2), kv("c", 3), kv("a", 4)];
    let buckets = partition_records(&records, 3);
    assert_eq!(buckets.len(), 3);
    for (p, bucket) in buckets.iter().enumerate() {
        let expected: Vec<(String, u64)> = pairs(&records)
            .into_iter()
            .filter(|(k, _)| partition(k, 3) as usize == p)
            .collect();
        assert_eq!(pairs(bucket), expected);
    }
}

#[test]
fn group_records_sorts_keys_and_keeps_value_order() {
    let records = vec![kv("b", 5), kv("a", 1), kv("b", 2), kv("c", 9), kv("a", 3)];
    let groups = group_records(&records);
    assert_eq!(
        groups,
        vec![
            ("a".to_string(), vec![1, 3]),
            ("b".to_string(), vec![5, 2]),
            ("c".to_string(), vec![9]),
        ]
    );
    assert!(group_records(&Vec::new()).is_empty());
}

#[test]
fn reduce_partition_writes_one_line_per_key() {
    let records = vec![kv("b", 5), kv("a", 1), kv("b", 2)];
    assert_eq!(reduce_partition(&records).unwrap(), "a 1\nb 7\n");
    assert_eq!(reduce_partition(&Vec::new()).unwrap(), "");
}

#[test]
fn reduce_partition_reports_overflow() {
    let records = vec![kv("a", u64::MAX), kv("a", 1)];
    assert_eq!(reduce_partition(&records).unwrap_err(), WorkerError::ValueOverflow);
}

#[test]
fn codec_round_trip() {
    let records = vec![kv("a \"quoted\"", 1), kv("ü", u64::MAX)];
    let text = encode_records(&records);
    assert_eq!(decode_records(&text).unwrap(), records);
    assert_eq!(encode_records(&vec![kv("a", 1)]), "[[\"a\",1]]");
    assert_eq!(encode_records(&Vec::new()), "[]");
}

#[test]
fn decode_rejects_malformed_text() {
    assert_eq!(decode_records("not json").unwrap_err(), WorkerError::MalformedIntermediate);
    assert_eq!(decode_records("[[\"a\",-1]]").unwrap_err(), WorkerError::MalformedIntermediate);
    assert_eq!(decode_records("[[1,1]]").unwrap_err(), WorkerError::MalformedIntermediate);
}

#[test]
fn merge_intermediate_concatenates_in_order() {
    let texts = vec!["[[\"a\",1]]".to_string(), "[]".to_string(), "[[\"b\",2],[\"a\",3]]".to_string()];
    let merged = merge_intermediate(&texts).unwrap();
    assert_eq!(merged, vec![kv("a", 1), kv("b", 2), kv("a", 3)]);
    let bad = vec!["[]".to_string(), "{".to_string()];
    assert_eq!(merge_intermediate(&bad).unwrap_err(), WorkerError::MalformedIntermediate);
}

#[test]
fn map_task_output_writes_every_partition() {
    let files = map_task_output("", 4, 3);
    assert_eq!(files.len(), 3);
    for (p, (name, text)) in files.iter().enumerate() {
        assert_eq!(name, &format!("map-4-{}", p));
        assert_eq!(text, "[]");
    }
}

fn run_job(splits: &[&str], reduce_task_count: u64) -> Vec<String> {
    let outputs: Vec<Vec<(String, String)>> = splits
        .iter()
        .enumerate()
        .map(|(m, s)| map_task_output(s, m as u64, reduce_task_count))
        .collect();
    (0..reduce_task_count as usize)
        .map(|p| {
            let texts: Vec<String> = outputs.iter().map(|files| files[p].1.clone()).collect();
            reduce_task_output(&texts).unwrap()
        })
        .collect()
}

fn counts(outputs: &[String]) -> BTreeMap<String, u64> {
    let mut total = BTreeMap::new();
    for out in outputs {
        for line in out.lines() {
            let (word, n) = line.split_once(' ').unwrap();
            *total.entry(word.to_string()).or_insert(0) += n.parse::<u64>().unwrap();
        }
    }
    total
}

#[test]
fn end_to_end_word_count() {
    let outputs = run_job(&["a b a", "b c c"], 2);
    assert_eq!(outputs.len(), 2);
    for (p, out) in outputs.iter().enumerate() {
        for line in out.lines() {
            let word = line.split_once(' ').unwrap().0;
            assert_eq!(partition(word, 2) as usize, p);
        }
    }
    let total = counts(&outputs);
    let expected: BTreeMap<String, u64> =
        [("a", 2), ("b", 2), ("c", 2)].iter().map(|(k, v)| (k.to_string(), *v)).collect();
    assert_eq!(total, expected);
}

#[test]
fn shuffle_delivers_all_values_of_a_key() {
    let splits = ["x y z x", "y y w", "", "z x q q q"];
    let r: u64 = 3;
    let outputs: Vec<Vec<(String, String)>> = splits
        .iter()
        .enumerate()
        .map(|(m, s)| map_task_output(s, m as u64, r))
        .collect();
    let mut expected: BTreeMap<String, Vec<u64>> = BTreeMap::new();
    for s in splits {
        for w in s.split_whitespace() {
            expected.entry(w.to_string()).or_default().push(1);
        }
    }
    for p in 0..r as usize {
        let texts: Vec<String> = outputs.iter().map(|files| files[p].1.clone()).collect();
        let merged = merge_intermediate(&texts).unwrap();
        let groups = group_records(&merged);
        let want: Vec<(String, Vec<u64>)> = expected
            .iter()
            .filter(|(k, _)| partition(k, r) as usize == p)
            .map(|(k, v)| (k.clone(), v.clone()))
            .collect();
        assert_eq!(groups, want);
    }
}

#[test]
fn reduce_is_idempotent() {
    let texts = vec!["[[\"b\",1],[\"a\",2]]".to_string(), "[[\"a\",5]]".to_string()];
    let first = reduce_task_output(&texts).unwrap();
    let second = reduce_task_output(&texts).unwrap();
    assert_eq!(first, second);
    assert_eq!(first, "a 7\nb 1\n");
}

#[test]
fn reduce_task_output_errors() {
    let bad = vec!["oops".to_string()];
    assert_eq!(reduce_task_output(&bad).unwrap_err(), WorkerError::MalformedIntermediate);
    let big = vec![format!("[[\"k\",{}]]", u64::MAX), "[[\"k\",1]]".to_string()];
    assert_eq!(reduce_task_output(&big).unwrap_err(), WorkerError::ValueOverflow);
}

#[test]
fn map_files_read_back_as_their_partitions() {
    let files = map_task_output("x y x z", 1, 2);
    for (p, (_, text)) in files.iter().enumerate() {
        let back = decode_records(text).unwrap();
        let want: Vec<KVPair> = ["x", "y", "x", "z"]
            .iter()
            .filter(|w| partition(w, 2) as usize == p)
            .map(|w| kv(w, 1))
            .collect();
        assert_eq!(back, want);
    }
}
