use user_processes::aggregate::{update_users, Aggregate, UserProcessCount};
use user_processes::parse::{parse_field, parse_ps_output, ProcessRecord};
use user_processes::service::{route, show_users, summary_body, RequestMethod};

fn rec(uid: usize, pid: usize) -> ProcessRecord {
    ProcessRecord { uid, pid }
}

fn count(uid: usize, process_count: usize) -> UserProcessCount {
    UserProcessCount { uid, process_count }
}

fn body_text(body: &[u8]) -> String {
    String::from_utf8(body.to_vec()).unwrap()
}

#[test]
fn merge_same_record_twice_counts_once() {
    let mut once = Aggregate::new();
    once.merge(&[rec(9, 4)]);
    let mut twice = Aggregate::new();
    twice.merge(&[rec(9, 4)]);
    twice.merge(&[rec(9, 4)]);
    assert_eq!(once.snapshot(), vec![count(9, 1)]);
    assert_eq!(twice.snapshot(), once.snapshot());
}

#[test]
fn merge_within_one_batch_is_idempotent() {
    let mut a = Aggregate::new();
    a.merge(&[rec(2, 11), rec(2, 11), rec(2, 11)]);
    assert_eq!(a.snapshot(), vec![count(2, 1)]);
}

#[test]
fn merge_accumulates_union_of_pids() {
    let mut a = Aggregate::new();
    a.merge(&[rec(5, 1), rec(5, 2)]);
    a.merge(&[rec(5, 2), rec(5, 3)]);
    assert_eq!(a.snapshot(), vec![count(5, 3)]);
}

#[test]
fn counts_never_shrink() {
    let batches = vec![
        vec![rec(1, 10), rec(1, 11)],
        vec![rec(1, 12)],
        vec![],
        vec![rec(2, 10)],
        vec![rec(1, 10)],
    ];
    let mut a = Aggregate::new();
    let mut last = 0;
    for b in batches.iter() {
        a.merge(b);
        let now = a
            .snapshot()
            .iter()
            .find(|c| c.uid == 1)
            .map(|c| c.process_count)
            .unwrap_or(0);
        assert!(now >= last);
        last = now;
    }
    assert_eq!(last, 3);
}

#[test]
fn snapshot_orders_owners_descending() {
    let mut a = Aggregate::new();
    a.merge(&[rec(1, 100), rec(5, 200), rec(3, 300), rec(5, 201)]);
    assert_eq!(a.snapshot(), vec![count(5, 2), count(3, 1), count(1, 1)]);
}

#[test]
fn snapshot_of_empty_aggregate_is_empty() {
    let a = Aggregate::new();
    assert_eq!(a.snapshot(), vec![]);
}

#[test]
fn snapshot_is_a_copy() {
    let mut a = Aggregate::new();
    a.merge(&[rec(4, 1)]);
    let before = a.snapshot();
    a.merge(&[rec(4, 2), rec(6, 1)]);
    assert_eq!(before, vec![count(4, 1)]);
    assert_eq!(a.snapshot(), vec![count(6, 1), count(4, 2)]);
}

#[test]
fn malformed_field_reads_as_zero_and_other_lines_still_merge() {
    let out = b"  RUID   PID\n  1000    42\n  abc     7\n     5   x1\n    0     1\n";
    assert_eq!(
        parse_ps_output(out),
        vec![rec(1000, 42), rec(0, 7), rec(5, 0), rec(0, 1)]
    );
    let mut a = Aggregate::new();
    update_users(&mut a, out);
    assert_eq!(a.snapshot(), vec![count(1000, 1), count(5, 1), count(0, 2)]);
}

#[test]
fn parse_skips_header_only() {
    assert_eq!(parse_ps_output(b"RUID PID\n1 2\n3 4"), vec![rec(1, 2), rec(3, 4)]);
    assert_eq!(parse_ps_output(b"1 2\n3 4\n"), vec![rec(3, 4)]);
}

#[test]
fn parse_empty_and_header_only_give_nothing() {
    assert_eq!(parse_ps_output(b""), vec![]);
    assert_eq!(parse_ps_output(b"RUID PID"), vec![]);
    assert_eq!(parse_ps_output(b"RUID PID\n"), vec![]);
}

#[test]
fn parse_blank_lines_give_no_record() {
    assert_eq!(
        parse_ps_output(b"H\n\n   \n7 8\n\n"),
        vec![rec(7, 8)]
    );
}

#[test]
fn parse_tabs_and_carriage_returns_separate_fields() {
    assert_eq!(
        parse_ps_output(b"RUID PID\r\n\t12\t34\r\n 5 6\r\n"),
        vec![rec(12, 34), rec(5, 6)]
    );
}

#[test]
fn parse_missing_second_field_reads_as_zero() {
    assert_eq!(parse_ps_output(b"H\n77\n"), vec![rec(77, 0)]);
}

#[test]
fn parse_ignores_fields_after_the_second() {
    assert_eq!(parse_ps_output(b"H\n1 2 3 4\n"), vec![rec(1, 2)]);
}

#[test]
fn parse_field_reads_unsigned_integers() {
    assert_eq!(parse_field(b"0"), 0);
    assert_eq!(parse_field(b"42"), 42);
    assert_eq!(parse_field(b"007"), 7);
    assert_eq!(parse_field(b"+5"), 5);
    let max = format!("{}", usize::MAX);
    assert_eq!(parse_field(max.as_bytes()), usize::MAX);
}

#[test]
fn parse_field_is_lenient() {
    assert_eq!(parse_field(b""), 0);
    assert_eq!(parse_field(b"+"), 0);
    assert_eq!(parse_field(b"-1"), 0);
    assert_eq!(parse_field(b"-0"), 0);
    assert_eq!(parse_field(b"12a"), 0);
    assert_eq!(parse_field(b"1.5"), 0);
    let over = format!("{}0", usize::MAX);
    assert_eq!(parse_field(over.as_bytes()), 0);
}

#[test]
fn get_root_with_empty_aggregate_is_empty_array() {
    let a = Aggregate::new();
    let r = show_users(RequestMethod::Get, "/", Some(a.snapshot()));
    assert_eq!(r.status, 200);
    assert_eq!(body_text(&r.body), "[]");
}

#[test]
fn get_root_lists_counts() {
    let mut a = Aggregate::new();
    a.merge(&[rec(7, 100), rec(7, 101)]);
    let r = show_users(RequestMethod::Get, "/", Some(a.snapshot()));
    assert_eq!(r.status, 200);
    assert_eq!(body_text(&r.body), "[{\"uid\":7,\"process_count\":2}]");
}

#[test]
fn get_root_lists_owners_descending() {
    let mut a = Aggregate::new();
    a.merge(&[rec(0, 1), rec(1000, 2), rec(10, 3), rec(1000, 4)]);
    let r = show_users(RequestMethod::Get, "/", Some(a.snapshot()));
    assert_eq!(
        body_text(&r.body),
        "[{\"uid\":1000,\"process_count\":2},{\"uid\":10,\"process_count\":1},{\"uid\":0,\"process_count\":1}]"
    );
}

#[test]
fn post_root_is_not_found() {
    let r = show_users(RequestMethod::Post, "/", Some(vec![count(1, 1)]));
    assert_eq!(r.status, 404);
    assert!(r.body.is_empty());
}

#[test]
fn get_unknown_path_is_not_found() {
    let r = show_users(RequestMethod::Get, "/unknown", Some(vec![count(1, 1)]));
    assert_eq!(r.status, 404);
    assert!(r.body.is_empty());
    let r = show_users(RequestMethod::Other, "/", None);
    assert_eq!(r.status, 404);
    assert!(r.body.is_empty());
}

#[test]
fn unreadable_aggregate_is_server_error() {
    let r = show_users(RequestMethod::Get, "/", None);
    assert_eq!(r.status, 500);
    assert!(r.body.is_empty());
}

#[test]
fn route_accepts_only_get_root() {
    assert!(route(RequestMethod::Get, "/"));
    assert!(!route(RequestMethod::Get, ""));
    assert!(!route(RequestMethod::Get, "//"));
    assert!(!route(RequestMethod::Get, "é"));
    assert!(!route(RequestMethod::Post, "/"));
    assert!(!route(RequestMethod::Other, "/"));
}

#[test]
fn summary_body_writes_decimal_numbers() {
    assert_eq!(
        body_text(&summary_body(&[count(usize::MAX, 10), count(0, 0)])),
        format!(
            "[{{\"uid\":{},\"process_count\":10}},{{\"uid\":0,\"process_count\":0}}]",
            usize::MAX
        )
    );
}

#[test]
fn update_users_merges_a_listing() {
    let mut a = Aggregate::new();
    update_users(&mut a, b"RUID PID\n0 1\n0 2\n501 300\n");
    update_users(&mut a, b"RUID PID\n0 2\n0 3\n");
    assert_eq!(a.snapshot(), vec![count(501, 1), count(0, 3)]);
}
