use rmq::input::{parse_input, parse_token, sort_by_size, token_spans, Input};
use rmq::monitor::{run_queries, QueryLog};
use rmq::naive::Naive;
use rmq::report::{push_decimal, Query_Monitor};
use rmq::rmq::Rmq;
use rmq::blocks::Blocks;

#[test]
fn decimal_notation() {
    let mut s = String::from("x=");
    push_decimal(&mut s, 0);
    assert_eq!(s, "x=0");
    let mut s = String::new();
    push_decimal(&mut s, 1234567890);
    assert_eq!(s, "1234567890");
    let mut s = String::new();
    push_decimal(&mut s, u64::MAX);
    assert_eq!(s, u64::MAX.to_string());
}

#[test]
fn monitor_report_lines() {
    let mut m = Query_Monitor::build("Blocks".to_string());
    assert!(m.queries.is_empty());
    m.add_query(1, 2, 3);
    m.add_query(10, 200, 7);
    assert_eq!(m.queries, vec![(1, 2, 3), (10, 200, 7)]);
    assert_eq!(m.report(), "Blocks\nl:1\tr:2\t3\nl:10\tr:200\t7\n");
    let empty = Query_Monitor::build("x".to_string());
    assert_eq!(empty.report(), "x\n");
}

#[test]
fn tokens_split_on_ascii_whitespace() {
    let text = b"  12\t+3\n\x0c4 \r5";
    let spans = token_spans(text);
    assert_eq!(spans, vec![(2, 4), (5, 7), (9, 10), (12, 13)]);
    assert_eq!(parse_token(text, 2, 4), Some(12));
    assert_eq!(parse_token(text, 5, 7), Some(3));
}

#[test]
fn tokens_parse_like_u64() {
    let t = b"+ -5 18446744073709551615 18446744073709551616 0012 1a";
    let spans = token_spans(t);
    let vals: Vec<Option<u64>> = spans.iter().map(|&(lo, hi)| parse_token(t, lo, hi)).collect();
    assert_eq!(vals, vec![None, None, Some(u64::MAX), None, Some(12), None]);
}

#[test]
fn parse_well_formed_input() {
    let input = parse_input(b"3 2\n5\n1\n4\n0 2\n1 1\n").unwrap();
    assert_eq!(input.data, vec![5, 1, 4]);
    assert_eq!(input.queries, vec![(0, 2), (1, 1)]);
}

#[test]
fn parse_reads_only_what_it_needs() {
    let input = parse_input(b"1 0 7 garbage").unwrap();
    assert_eq!(input.data, vec![7]);
    assert!(input.queries.is_empty());
    // Fewer values than announced, and no queries.
    let input = parse_input(b"5 0 1 2").unwrap();
    assert_eq!(input.data, vec![1, 2]);
}

#[test]
fn parse_rejects_malformed_input() {
    assert!(parse_input(b"").is_none());
    assert!(parse_input(b"3").is_none());
    assert!(parse_input(b"x 1").is_none());
    assert!(parse_input(b"2 1 4 oops 0 1").is_none());
    assert!(parse_input(b"2 1 4 5 0").is_none());
    assert!(parse_input(b"2 1 4 5 0 z").is_none());
    assert!(parse_input(b"5 1 1 2").is_none());
}

#[test]
fn sort_keeps_order_of_equal_sizes() {
    let mk = |n: usize, tag: usize| Input { data: vec![0; n], queries: vec![(tag, tag)] };
    let sorted = sort_by_size(vec![mk(3, 0), mk(1, 1), mk(3, 2), mk(0, 3), mk(1, 4)]);
    let order: Vec<(usize, usize)> = sorted.iter().map(|i| (i.data.len(), i.queries[0].0)).collect();
    assert_eq!(order, vec![(0, 3), (1, 1), (1, 4), (3, 0), (3, 2)]);
}

#[test]
fn query_log_keeps_first_answer() {
    let mut log = QueryLog::new();
    assert_eq!(log.get(1, 2), None);
    assert_eq!(log.record(1, 2, 5), None);
    assert_eq!(log.get(1, 2), Some(5));
    assert_eq!(log.record(1, 2, 9), Some(5));
    assert_eq!(log.get(1, 2), Some(5));
    assert_eq!(log.record(1, 3, 9), None);
    assert_eq!(log.get(1, 3), Some(9));
}

#[test]
fn run_queries_sums_and_cross_checks() {
    let data: Vec<u64> = vec![5, 3, 8, 1, 9];
    let naive = Naive::build(&data);
    let mut log = QueryLog::new();
    log.record(0, 1, 4);
    let queries = vec![(0, 1), (2, 4), (0, 4), (2, 4)];
    let run = run_queries(&naive, &queries, &mut log);
    assert_eq!(run.answered, 4);
    assert_eq!(run.sum, 3 + 1 + 1 + 1);
    assert_eq!(run.mismatches, vec![(0, 1, 4, 3)]);
    assert_eq!(log.get(2, 4), Some(1));
    assert_eq!(log.get(0, 1), Some(4));
}

#[test]
fn run_queries_stops_at_unanswerable_query() {
    let data: Vec<u64> = vec![5, 6, 7, 8, 9, 1, 4, 3];
    let blocks = Blocks::build(&data);
    let mut log = QueryLog::new();
    let queries = vec![(0, 2), (1, 2), (0, 5)];
    let run = run_queries(&blocks, &queries, &mut log);
    assert_eq!(run.answered, 1);
    assert_eq!(run.sum, 3);
    assert!(run.mismatches.is_empty());
}

#[test]
fn run_queries_wraps_the_sum() {
    let data: Vec<u64> = vec![u64::MAX, u64::MAX];
    let naive = Naive::build(&data);
    let mut log = QueryLog::new();
    let run = run_queries(&naive, &vec![(0, 0), (1, 1)], &mut log);
    assert_eq!(run.sum, u64::MAX - 1);
}

#[test]
fn written_input_reads_back() {
    let data: Vec<u64> = (0..50u64).map(|i| i * i * 7919 % 100_003).chain([u64::MAX, 0]).collect();
    let queries: Vec<(usize, usize)> = (0..20usize).map(|i| (i, i + 3)).collect();
    let mut text = format!("{} {}\n", data.len(), queries.len());
    for v in &data {
        text.push_str(&format!("{}\n", v));
    }
    for (l, r) in &queries {
        text.push_str(&format!("{} {}\n", l, r));
    }
    let input = parse_input(text.as_bytes()).unwrap();
    assert_eq!(input.data, data);
    assert_eq!(input.queries, queries);
}
