use shadps4_launcher::clock::Timestamp;
use shadps4_launcher::log_store::{Entry, Level, LogData, LogEntry};
use shadps4_launcher::query::{format_log_line, get_log, LogFilter};

fn no_filter() -> LogFilter {
    LogFilter { level: None, log_class: None, range: None }
}

fn ten_rows() -> LogData {
    let mut log = LogData::new();
    let lines = [
        "[Core] <Info> zero",
        "[Core] <Error> one",
        "[Gpu] <Info> two",
        "plain three",
        "[Gpu] <Warning> four",
        "[Core] <Info> five",
        "[Audio] <Debug> six",
        "[Gpu] <Error> seven",
        "plain eight",
        "[Core] <Critical> nine",
    ];
    for (n, line) in lines.iter().enumerate() {
        let time = Timestamp { secs: n as i64, nanos: 0 };
        let entry = match log.parse_entry_at(line, time) {
            Some((entry, _)) => entry,
            None => Entry {
                time,
                level: Level::Info,
                class: LogData::UNK,
                message: line.to_string(),
            },
        };
        log.add_entry(entry);
    }
    log
}

fn ids(rows: &[LogEntry]) -> Vec<u32> {
    rows.iter().map(|row| row.row_id).collect()
}

#[test]
fn a_query_without_filter_lists_every_row_in_order() {
    let log = ten_rows();
    let rows = get_log(&log, &no_filter());
    assert_eq!(ids(&rows), vec![0, 1, 2, 3, 4, 5, 6, 7, 8, 9]);
    assert_eq!(rows[3].class, "UNK");
    assert_eq!(rows[3].message, "plain three");
    assert_eq!(rows[6].class, "Audio");
    assert_eq!(rows[6].level, Level::Debug);
    assert_eq!(rows[6].time, Timestamp { secs: 6, nanos: 0 });
}

#[test]
fn a_query_by_range_lists_the_rows_of_the_range() {
    let log = ten_rows();
    let filter = LogFilter { range: Some((3, 5)), ..no_filter() };
    let rows = get_log(&log, &filter);
    assert_eq!(ids(&rows), vec![3, 4, 5]);
    assert_eq!(rows[0].message, "plain three");
    assert_eq!(rows[1].message, "four");
    assert_eq!(rows[2].message, "five");
}

#[test]
fn a_range_includes_both_of_its_ends_and_may_reach_past_the_log() {
    let log = ten_rows();
    let one = LogFilter { range: Some((4, 4)), ..no_filter() };
    assert_eq!(ids(&get_log(&log, &one)), vec![4]);
    let past = LogFilter { range: Some((8, 400)), ..no_filter() };
    assert_eq!(ids(&get_log(&log, &past)), vec![8, 9]);
    let beyond = LogFilter { range: Some((10, 20)), ..no_filter() };
    assert_eq!(ids(&get_log(&log, &beyond)), Vec::<u32>::new());
    let backwards = LogFilter { range: Some((5, 3)), ..no_filter() };
    assert_eq!(ids(&get_log(&log, &backwards)), Vec::<u32>::new());
}

#[test]
fn a_query_by_level_lists_the_rows_of_these_levels() {
    let log = ten_rows();
    let errors = LogFilter { level: Some(vec![Level::Error]), ..no_filter() };
    assert_eq!(ids(&get_log(&log, &errors)), vec![1, 7]);
    let two = LogFilter { level: Some(vec![Level::Critical, Level::Error]), ..no_filter() };
    assert_eq!(ids(&get_log(&log, &two)), vec![1, 7, 9]);
    let none = LogFilter { level: Some(vec![Level::Trace]), ..no_filter() };
    assert_eq!(ids(&get_log(&log, &none)), Vec::<u32>::new());
}

#[test]
fn a_query_by_level_agrees_with_the_level_index() {
    let log = ten_rows();
    let all = [
        Level::Unknown,
        Level::Trace,
        Level::Debug,
        Level::Info,
        Level::Warning,
        Level::Error,
        Level::Critical,
    ];
    for level in all {
        let filter = LogFilter { level: Some(vec![level]), ..no_filter() };
        assert_eq!(&ids(&get_log(&log, &filter)), log.rows_with_level(level));
    }
}

#[test]
fn a_query_by_class_lists_the_rows_of_these_classes() {
    let log = ten_rows();
    let gpu = LogFilter { log_class: Some(vec!["Gpu".to_string()]), ..no_filter() };
    assert_eq!(ids(&get_log(&log, &gpu)), vec![2, 4, 7]);
    let unk = LogFilter { log_class: Some(vec!["UNK".to_string()]), ..no_filter() };
    assert_eq!(ids(&get_log(&log, &unk)), vec![3, 8]);
    let missing = LogFilter { log_class: Some(vec!["gpu".to_string()]), ..no_filter() };
    assert_eq!(ids(&get_log(&log, &missing)), Vec::<u32>::new());
}

#[test]
fn an_empty_list_filters_nothing() {
    let log = ten_rows();
    let filter = LogFilter { level: Some(vec![]), log_class: Some(vec![]), range: None };
    assert_eq!(ids(&get_log(&log, &filter)), vec![0, 1, 2, 3, 4, 5, 6, 7, 8, 9]);
}

#[test]
fn the_parts_of_a_filter_hold_together() {
    let log = ten_rows();
    let filter = LogFilter {
        level: Some(vec![Level::Info, Level::Error]),
        log_class: Some(vec!["Core".to_string(), "Gpu".to_string()]),
        range: Some((1, 6)),
    };
    assert_eq!(ids(&get_log(&log, &filter)), vec![1, 2, 5]);
}

#[test]
fn a_query_of_an_empty_log_lists_nothing() {
    let log = LogData::new();
    assert_eq!(get_log(&log, &no_filter()), Vec::<LogEntry>::new());
}

#[test]
fn a_row_is_written_out_with_time_class_level_and_message() {
    let row = LogEntry {
        row_id: 4,
        time: Timestamp { secs: 1_700_000_000, nanos: 5 },
        level: Level::Warning,
        class: "Kernel.Vmm".to_string(),
        message: "out of memory".to_string(),
    };
    // 1 700 000 000 s after the epoch is 22:13:20 UTC.
    assert_eq!(format_log_line(&row), "22:13:20 [Kernel.Vmm] <Warning> out of memory\n");
}

#[test]
fn the_time_of_day_has_two_digits_for_each_part() {
    assert_eq!(Timestamp { secs: 0, nanos: 0 }.clock_text(), "00:00:00");
    assert_eq!(Timestamp { secs: 3_661, nanos: 0 }.clock_text(), "01:01:01");
    assert_eq!(Timestamp { secs: 86_399, nanos: 999 }.clock_text(), "23:59:59");
    assert_eq!(Timestamp { secs: 86_400, nanos: 0 }.clock_text(), "00:00:00");
    assert_eq!(Timestamp { secs: 45_296, nanos: 0 }.clock_text(), "12:34:56");
}

#[test]
fn the_time_of_day_before_the_epoch_counts_back_from_midnight() {
    assert_eq!(Timestamp { secs: -1, nanos: 0 }.clock_text(), "23:59:59");
    assert_eq!(Timestamp { secs: -86_400, nanos: 0 }.clock_text(), "00:00:00");
    assert_eq!(Timestamp { secs: -86_401, nanos: 0 }.second_of_day(), 86_399);
    assert_eq!(Timestamp { secs: i64::MIN, nanos: 0 }.second_of_day(), 30_592);
    assert_eq!(Timestamp { secs: i64::MAX, nanos: 0 }.second_of_day(), 55_807);
    assert_eq!(Timestamp::epoch(), Timestamp { secs: 0, nanos: 0 });
}
