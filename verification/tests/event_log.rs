use todo_core::clock::Timestamp;
use todo_core::json::Json;
use todo_core::log::{
    append_op, append_op_at, get_data_dir, get_ops_dir, partition_file_name, read_all_ops, read_all_ops_at,
    read_ops_for_month, EventLog, LogError, Record,
};
use todo_core::model::{EdgeV1, Kind, ObjectV1, Op};
use todo_core::text::{record_line, record_lines};

fn at(secs: i64, nanos: u32) -> Timestamp {
    Timestamp { secs, nanos }
}

fn object(id: u128, secs: i64, nanos: u32) -> Op {
    Op::AppendObject(ObjectV1 {
        id,
        kind: Kind::Doc,
        payload: Json::Null,
        created: at(secs, nanos),
        updated: None,
    })
}

fn edge(id: u128, secs: i64) -> Op {
    Op::AppendEdge(EdgeV1::at(id, at(secs, 0), 1, 2, "CREATES"))
}

fn update(id: u128) -> Op {
    Op::UpdateObject { id, patch: Json::empty_object() }
}

fn ids(ops: &[Op]) -> Vec<u128> {
    ops.iter()
        .map(|op| match op {
            Op::AppendObject(o) => o.id,
            Op::AppendEdge(e) => e.id,
            Op::UpdateObject { id, .. } => *id,
        })
        .collect()
}

#[test]
fn empty_log_has_no_history() {
    let log = EventLog::new();
    assert_eq!(read_all_ops(&log), Ok(vec![]));
    assert_eq!(read_all_ops_at(&log, at(0, 0)), Ok(vec![]));
    assert_eq!(read_ops_for_month(&log, "2024-01"), Ok(vec![]));
}

#[test]
fn append_goes_to_the_partition_of_the_present_month() {
    let mut log = EventLog::new();
    let key = append_op(&mut log, &object(1, 5, 0));
    assert_eq!(key.len(), 7);
    assert_eq!(key.as_bytes()[4], b'-');
    assert!(key[..4].chars().all(|c| c.is_ascii_digit()));
    assert!(key[..4].parse::<u32>().unwrap() >= 2024);
    let month: u32 = key[5..].parse().unwrap();
    assert!((1..=12).contains(&month));
    assert_eq!(read_ops_for_month(&log, &key), Ok(vec![object(1, 5, 0)]));
    let again = append_op(&mut log, &object(2, 6, 0));
    assert_eq!(read_ops_for_month(&log, &again).expect("read").len(), if again == key { 2 } else { 1 });
}

#[test]
fn append_at_a_moment_goes_to_the_partition_of_its_month() {
    let mut log = EventLog::new();
    assert_eq!(
        append_op_at(&mut log, &object(1, 5, 0), at(1_706_745_600, 0)),
        Ok("2024-02".to_string())
    );
    assert_eq!(
        append_op_at(&mut log, &object(2, 5, 0), at(1_706_745_599, 0)),
        Ok("2024-01".to_string())
    );
    assert_eq!(
        append_op_at(&mut log, &object(3, 5, 0), at(1_706_745_601, 0)),
        Ok("2024-02".to_string())
    );
    assert_eq!(ids(&read_ops_for_month(&log, "2024-02").expect("read")), vec![1, 3]);
    assert_eq!(ids(&read_ops_for_month(&log, "2024-01").expect("read")), vec![2]);
}

#[test]
fn append_at_a_moment_without_a_month_changes_nothing() {
    let mut log = EventLog::new();
    assert_eq!(append_op_at(&mut log, &object(1, 5, 0), at(i64::MAX, 0)), Err(LogError::NoMonth));
    assert_eq!(read_all_ops_at(&log, at(0, 0)), Ok(vec![]));
}

#[test]
fn partition_keeps_the_order_of_appending() {
    let mut log = EventLog::new();
    log.push_record("2024-05", Record::Parsed(object(3, 30, 0)));
    log.push_record("2024-06", Record::Parsed(object(9, 1, 0)));
    log.push_record("2024-05", Record::Parsed(object(1, 10, 0)));
    log.push_record("2024-05", Record::Parsed(update(2)));
    assert_eq!(ids(&read_ops_for_month(&log, "2024-05").expect("read")), vec![3, 1, 2]);
    assert_eq!(ids(&read_ops_for_month(&log, "2024-06").expect("read")), vec![9]);
    assert_eq!(read_ops_for_month(&log, "2024-07"), Ok(vec![]));
    assert_eq!(read_ops_for_month(&log, "2024-0"), Ok(vec![]));
}

#[test]
fn malformed_record_fails_the_read_of_its_partition() {
    let mut log = EventLog::new();
    log.push_record("2024-05", Record::Parsed(object(3, 30, 0)));
    log.push_record("2024-06", Record::Parsed(object(4, 40, 0)));
    log.push_record("2024-06", Record::Parsed(object(5, 50, 0)));
    log.push_record("2024-06", Record::Malformed("{".to_string()));
    log.push_record("2024-06", Record::Malformed("}".to_string()));
    assert_eq!(read_ops_for_month(&log, "2024-05").expect("read").len(), 1);
    assert_eq!(
        read_ops_for_month(&log, "2024-06"),
        Err(LogError::Malformed { partition: "2024-06".to_string(), line: 2 })
    );
    assert_eq!(
        read_all_ops_at(&log, at(0, 0)),
        Err(LogError::Malformed { partition: "2024-06".to_string(), line: 2 })
    );
    assert_eq!(
        read_all_ops(&log),
        Err(LogError::Malformed { partition: "2024-06".to_string(), line: 2 })
    );
}

#[test]
fn the_first_malformed_record_of_the_log_gives_the_error() {
    let mut log = EventLog::new();
    log.push_record("b", Record::Parsed(object(3, 30, 0)));
    log.push_record("a", Record::Malformed("x".to_string()));
    log.push_record("b", Record::Malformed("y".to_string()));
    assert_eq!(
        read_all_ops_at(&log, at(0, 0)),
        Err(LogError::Malformed { partition: "b".to_string(), line: 1 })
    );
}

#[test]
fn history_is_ordered_by_creation_across_partitions() {
    let mut log = EventLog::new();
    log.push_record("2024-02", Record::Parsed(object(4, 400, 0)));
    log.push_record("2024-02", Record::Parsed(edge(2, 200)));
    log.push_record("2024-01", Record::Parsed(object(3, 300, 0)));
    log.push_record("2024-01", Record::Parsed(object(1, 100, 0)));
    let history = read_all_ops_at(&log, at(1000, 0)).expect("read");
    assert_eq!(ids(&history), vec![1, 2, 3, 4]);
}

#[test]
fn operations_of_one_moment_keep_their_order() {
    let mut log = EventLog::new();
    log.push_record("2024-02", Record::Parsed(object(1, 7, 0)));
    log.push_record("2024-01", Record::Parsed(object(2, 7, 0)));
    log.push_record("2024-02", Record::Parsed(object(3, 7, 0)));
    log.push_record("2024-01", Record::Parsed(object(4, 6, 0)));
    let history = read_all_ops_at(&log, at(1000, 0)).expect("read");
    assert_eq!(ids(&history), vec![4, 1, 3, 2]);
}

#[test]
fn nanoseconds_order_operations_of_one_second() {
    let mut log = EventLog::new();
    log.push_record("m", Record::Parsed(object(1, 7, 500)));
    log.push_record("m", Record::Parsed(object(2, 7, 499)));
    log.push_record("m", Record::Parsed(object(3, 6, 999_999_999)));
    log.push_record("m", Record::Parsed(object(4, -1, 0)));
    log.push_record("m", Record::Parsed(object(5, -1, 1)));
    log.push_record("m", Record::Parsed(object(6, -2, 4_000_000_000)));
    let history = read_all_ops_at(&log, at(1000, 0)).expect("read");
    assert_eq!(ids(&history), vec![6, 4, 5, 3, 2, 1]);
}

#[test]
fn update_counts_as_made_at_the_moment_of_reading() {
    let mut log = EventLog::new();
    log.push_record("m", Record::Parsed(update(1)));
    log.push_record("m", Record::Parsed(object(2, 100, 0)));
    log.push_record("m", Record::Parsed(update(3)));
    log.push_record("m", Record::Parsed(object(4, 300, 0)));
    assert_eq!(ids(&read_all_ops_at(&log, at(200, 0)).expect("read")), vec![2, 1, 3, 4]);
    assert_eq!(ids(&read_all_ops_at(&log, at(50, 0)).expect("read")), vec![1, 3, 2, 4]);
    assert_eq!(ids(&read_all_ops_at(&log, at(300, 0)).expect("read")), vec![2, 1, 3, 4]);
    assert_eq!(ids(&read_all_ops_at(&log, at(300, 1)).expect("read")), vec![2, 4, 1, 3]);
    // Read now, the updates come after what was created in the past.
    assert_eq!(ids(&read_all_ops(&log).expect("read")), vec![2, 4, 1, 3]);
}

#[test]
fn history_at_the_ends_of_time() {
    let mut log = EventLog::new();
    log.push_record("m", Record::Parsed(object(1, i64::MAX, u32::MAX)));
    log.push_record("m", Record::Parsed(object(2, i64::MIN, 0)));
    log.push_record("m", Record::Parsed(object(3, i64::MAX, 0)));
    assert_eq!(ids(&read_all_ops_at(&log, at(0, 0)).expect("read")), vec![2, 3, 1]);
}

#[test]
fn partition_is_kept_in_a_file_named_after_its_month() {
    assert_eq!(partition_file_name("2024-01"), "2024-01.jsonl");
    assert_eq!(partition_file_name(""), ".jsonl");
}

#[test]
fn data_lie_below_the_home_directory() {
    assert_eq!(get_data_dir(Some("/home/ann")), "/home/ann/.todo-graph");
    assert_eq!(get_data_dir(Some("/home/ann/")), "/home/ann/.todo-graph");
    assert_eq!(get_data_dir(Some("/")), "/.todo-graph");
    assert_eq!(get_data_dir(Some("")), ".todo-graph");
    assert_eq!(get_data_dir(None), "./.todo-graph");
    assert_eq!(get_data_dir(Some("rel")), "rel/.todo-graph");
}

#[test]
fn partitions_lie_below_the_data_directory() {
    assert_eq!(get_ops_dir(Some("/home/ann")), "/home/ann/.todo-graph/ops");
    assert_eq!(get_ops_dir(Some("")), ".todo-graph/ops");
    assert_eq!(get_ops_dir(None), "./.todo-graph/ops");
}

#[test]
fn content_is_cut_into_lines() {
    assert_eq!(record_lines("a\nb\n"), vec!["a", "b"]);
    assert_eq!(record_lines("a\nb"), vec!["a", "b"]);
    assert_eq!(record_lines(""), Vec::<String>::new());
    assert_eq!(record_lines("\n"), Vec::<String>::new());
    assert_eq!(record_lines("one"), vec!["one"]);
}

#[test]
fn blank_lines_are_no_records() {
    assert_eq!(record_lines("a\n\n  \t\nb\n \n"), vec!["a", "b"]);
    assert_eq!(record_lines("\n\n\n"), Vec::<String>::new());
    assert_eq!(record_lines("   "), Vec::<String>::new());
    assert_eq!(record_lines("\u{a0}\u{3000}\nx"), vec!["x"]);
}

#[test]
fn carriage_return_belongs_to_the_line_end() {
    assert_eq!(record_lines("a\r\nb\r\n"), vec!["a", "b"]);
    assert_eq!(record_lines("a\r\n\r\nb"), vec!["a", "b"]);
    assert_eq!(record_lines("a\r\r\nb"), vec!["a\r", "b"]);
    assert_eq!(record_lines("a\rb\nc"), vec!["a\rb", "c"]);
    // The last line, without a line feed, keeps a carriage return.
    assert_eq!(record_lines("a\nb\r"), vec!["a", "b\r"]);
    assert_eq!(record_lines("a\n\r"), vec!["a"]);
}

#[test]
fn lines_are_what_the_standard_library_gives() {
    for content in [
        "",
        "\n",
        "a",
        "a\n",
        "a\r\n",
        "a\r",
        " a \n\n b\r\n\r\n\tc",
        "{\"x\":1}\n{\"y\":\"\u{e9}\u{4e2d}\"}\n",
        "\r\n\r\n",
        "x\n \r\ny\r",
    ] {
        let expected: Vec<String> = content
            .lines()
            .filter(|l| !l.trim().is_empty())
            .map(|l| l.to_string())
            .collect();
        assert_eq!(record_lines(content), expected);
    }
}

#[test]
fn lines_keep_their_inner_and_outer_white_space() {
    assert_eq!(record_lines("  a b  \n"), vec!["  a b  "]);
    assert_eq!(record_lines("\u{e9}t\u{e9}\nna\u{ef}ve"), vec!["\u{e9}t\u{e9}", "na\u{ef}ve"]);
}

#[test]
fn record_is_written_as_one_line() {
    assert_eq!(record_line("{\"a\":1}"), "{\"a\":1}\n");
    assert_eq!(record_line(""), "\n");
}

#[test]
fn records_written_one_after_the_other_read_back() {
    let records = ["{\"a\":1}", "  {\"b\": \"\u{e9}\"} ", "x"];
    let mut content = String::new();
    let mut written: Vec<String> = Vec::new();
    for record in records {
        content.push_str(&record_line(record));
        written.push(record.to_string());
        assert_eq!(record_lines(&content), written);
    }
}
