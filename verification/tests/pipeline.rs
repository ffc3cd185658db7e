//! Tests of the worker-side computation: record encoding and parsing,
//! sorting, grouping, partitioning, the built-in applications, and the
//! end-to-end word-count pipeline.
use mapreduce::App;
use mapreduce::apps::{CrashApp, EarlyExitApp, IndexerApp, WcApp, crash_map, crash_reduce,
    indexer_map, indexer_reduce, sort_strings, split_words, wc_map, wc_reduce};
use mapreduce::coordinator::PollTaskReply;
use mapreduce::kv::{ParseError, encode_line, encode_lines, group_pairs, parse_content,
    sort_pairs};
use mapreduce::partition::partition_of_key;
use mapreduce::task::{MapPayload, Payload, Task};
use mapreduce::text::{join_strings, u64_to_string};
use mapreduce::worker::{WorkerAction, intermediate_name, map_task_buckets, output_name,
    run_reduce_output, worker_step};

fn pairs(ps: &[(&str, &str)]) -> Vec<(String, String)> {
    ps.iter().map(|(k, v)| (k.to_string(), v.to_string())).collect()
}

#[test]
fn decimal_formatting() {
    assert_eq!(u64_to_string(0), "0");
    assert_eq!(u64_to_string(7), "7");
    assert_eq!(u64_to_string(10), "10");
    assert_eq!(u64_to_string(105), "105");
    assert_eq!(u64_to_string(98765), "98765");
}

#[test]
fn record_encoding() {
    assert_eq!(encode_line("cat", "1"), "cat 1\n");
    assert_eq!(encode_lines(&pairs(&[("a", "x"), ("b", "y")])), "a x\nb y\n");
    assert_eq!(encode_lines(&pairs(&[])), "");
}

#[test]
fn record_parsing_round_trip() {
    let parsed = parse_content("a 1\nb 2\n").unwrap();
    assert_eq!(parsed, pairs(&[("a", "1"), ("b", "2")]));
    // the final line may also arrive without its newline
    let parsed = parse_content("a 1\nb 2").unwrap();
    assert_eq!(parsed, pairs(&[("a", "1"), ("b", "2")]));
    // a value may itself hold spaces; the key ends at the first one
    let parsed = parse_content("k v w\n").unwrap();
    assert_eq!(parsed, pairs(&[("k", "v w")]));
    assert_eq!(parse_content("").unwrap(), pairs(&[]));
}

#[test]
fn malformed_line_is_a_parse_fault() {
    assert_eq!(parse_content("nospace\n").unwrap_err(), ParseError::MissingSeparator);
    assert_eq!(parse_content("a 1\n\nb 2\n").unwrap_err(), ParseError::MissingSeparator);
}

#[test]
fn sorting_and_grouping() {
    let sorted = sort_pairs(pairs(&[("b", "2"), ("a", "9"), ("b", "1"), ("a", "3")]));
    assert_eq!(sorted, pairs(&[("a", "3"), ("a", "9"), ("b", "1"), ("b", "2")]));
    let groups = group_pairs(&sorted);
    assert_eq!(groups.len(), 2);
    assert_eq!(groups[0].0, "a");
    assert_eq!(groups[0].1, vec!["3".to_string(), "9".to_string()]);
    assert_eq!(groups[1].0, "b");
    assert_eq!(groups[1].1, vec!["1".to_string(), "2".to_string()]);
}

#[test]
fn partitioning_is_deterministic() {
    for key in ["the", "cat", "sat", "dog", ""] {
        let first = partition_of_key(key, 2);
        for _ in 0..10 {
            assert_eq!(partition_of_key(key, 2), first);
        }
        assert!(first < 2);
        assert!(partition_of_key(key, 7) < 7);
    }
    // the rolling hash of "the": ((116 * 31) + 104) * 31 + 101 = 114801
    assert_eq!(partition_of_key("the", 2), 114801 % 2);
    assert_eq!(partition_of_key("the", 7), 114801 % 7);
    assert_eq!(partition_of_key("", 5), 0);
}

#[test]
fn file_names() {
    assert_eq!(output_name(5), "out/mr-out-5");
    let name = intermediate_name(3, 1);
    let prefix = "out/mr-3-1-";
    assert!(name.starts_with(prefix));
    let suffix = &name[prefix.len()..];
    assert_eq!(suffix.chars().count(), 36);
    assert!(suffix.chars().all(|c| c.is_ascii_hexdigit() || c == '-'));
}

#[test]
fn word_splitting_ignores_non_alphabetic() {
    assert_eq!(split_words("the cat sat"), vec!["the", "cat", "sat"]);
    assert_eq!(split_words("ab2cd ef!"), vec!["ab", "cd", "ef"]);
    assert_eq!(split_words("  "), Vec::<String>::new());
    assert_eq!(split_words(""), Vec::<String>::new());
}

#[test]
fn word_count_app() {
    assert_eq!(wc_map("the cat sat"), pairs(&[("the", "1"), ("cat", "1"), ("sat", "1")]));
    assert_eq!(wc_reduce(&vec!["1".to_string(), "1".to_string()]), "2");
}

#[test]
fn indexer_app() {
    let f = "doc.txt".to_string();
    assert_eq!(indexer_map(&f, "the the cat"), pairs(&[("the", "doc.txt"), ("cat", "doc.txt")]));
    assert_eq!(indexer_reduce(&vec!["a".to_string(), "b".to_string()]), "2 a,b");
}

#[test]
fn crash_app_pure_part() {
    let out = crash_map("name".to_string(), "contents");
    assert_eq!(
        out,
        pairs(&[("a", "name"), ("b", "4"), ("c", "8"), ("d", "xyzzy")])
    );
    assert_eq!(crash_reduce(vec!["b".to_string(), "a".to_string(), "c".to_string()]), "a b c");
}

#[test]
fn early_exit_app() {
    let app = EarlyExitApp::default();
    assert_eq!(app.map("f1".to_string(), "ignored".to_string()), pairs(&[("f1", "1")]));
    assert_eq!(app.reduce("f1".to_string(), vec!["1".to_string(), "1".to_string()]), "2");
}

#[test]
fn string_sorting() {
    let sorted = sort_strings(vec!["pear".to_string(), "apple".to_string(), "fig".to_string()]);
    assert_eq!(sorted, vec!["apple", "fig", "pear"]);
    assert_eq!(join_strings(&sorted, ","), "apple,fig,pear");
}

#[test]
fn worker_step_decisions() {
    let t = Task {
        id: 9,
        payload: Payload::MapTask(MapPayload { index: 0, files: vec![], n_reduce: 1 }),
    };
    match worker_step(PollTaskReply { task: Some(t), shutdown: false }) {
        WorkerAction::Execute(t) => assert_eq!(t.id, 9),
        _ => panic!("a handed-out task must be executed"),
    }
    assert!(matches!(
        worker_step(PollTaskReply { task: None, shutdown: true }),
        WorkerAction::Shutdown
    ));
    assert!(matches!(
        worker_step(PollTaskReply { task: None, shutdown: false }),
        WorkerAction::Idle
    ));
}

/// Runs the worker-side pipeline in memory: maps every input through
/// the application, partitions each map attempt's records into
/// `n_reduce` bucket files, then reduces each partition from its
/// buckets. Returns the final output file contents by partition.
fn run_pipeline<A: App>(app: &A, inputs: &[(&str, &str)], n_reduce: u64) -> Vec<String> {
    let mut intermediate: Vec<Vec<String>> = (0..n_reduce).map(|_| Vec::new()).collect();
    for (name, contents) in inputs {
        let records = app.map(name.to_string(), contents.to_string());
        let buckets = map_task_buckets(&records, n_reduce);
        for (j, bucket) in buckets.into_iter().enumerate() {
            intermediate[j].push(bucket);
        }
    }
    intermediate
        .iter()
        .map(|files| run_reduce_output(app, files).expect("well-formed intermediate files"))
        .collect()
}

#[test]
fn word_count_end_to_end() {
    let inputs = [("f1", "the cat sat"), ("f2", "the dog sat")];
    let outputs = run_pipeline(&WcApp::default(), &inputs, 2);
    let mut all_counts: Vec<(String, String)> = Vec::new();
    for out in &outputs {
        all_counts.extend(parse_content(out).unwrap());
    }
    all_counts.sort();
    assert_eq!(
        all_counts,
        pairs(&[("cat", "1"), ("dog", "1"), ("sat", "2"), ("the", "2")])
    );
}

#[test]
fn pipeline_is_idempotent() {
    let inputs = [("f1", "the cat sat"), ("f2", "the dog sat")];
    let first = run_pipeline(&WcApp::default(), &inputs, 3);
    let second = run_pipeline(&WcApp::default(), &inputs, 3);
    assert_eq!(first, second, "two runs on the same inputs write identical bytes");
    let crash_first = run_pipeline(&CrashApp::default(), &inputs, 2);
    let crash_second = run_pipeline(&CrashApp::default(), &inputs, 2);
    assert_eq!(crash_first, crash_second);
    let idx_first = run_pipeline(&IndexerApp::default(), &inputs, 2);
    let idx_second = run_pipeline(&IndexerApp::default(), &inputs, 2);
    assert_eq!(idx_first, idx_second);
}
