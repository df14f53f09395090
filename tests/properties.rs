use log_analyzer::date_time::{DateTime, TimestampError};
use log_analyzer::log_analyzer::LogAnalyzer;
use log_analyzer::log_entry::{parse_log_line, Field, LineError, LogEntry};
use log_analyzer::log_level::LogLevel;
use log_analyzer::statistics_aggregator::Statistics;

fn entry(line: &str) -> LogEntry {
    parse_log_line(line, "test.log", 1).unwrap()
}

fn line_kind(line: &str) -> LineError {
    parse_log_line(line, "test.log", 7).unwrap_err().kind
}

#[test]
fn timestamp_fields_are_read() {
    let dt = DateTime::parse("2024-1-5 3:04:05").unwrap();
    assert_eq!(
        dt,
        DateTime { year: 2024, month: 1, day: 5, hour: 3, minute: 4, second: 5 }
    );
}

#[test]
fn timestamp_renders_without_padding_and_reads_back() {
    let dt = DateTime::parse("2024-01-05 03:04:05").unwrap();
    assert_eq!(dt.to_string(), "2024-1-5 3:4:5");
    assert_eq!(DateTime::parse(&dt.to_string()).unwrap(), dt);
    let edge = DateTime { year: 9999, month: 12, day: 31, hour: 23, minute: 59, second: 59 };
    assert_eq!(DateTime::parse(&edge.to_string()).unwrap(), edge);
}

#[test]
fn timestamp_errors_name_the_field() {
    assert_eq!(DateTime::parse("2024-01-15T10:00:00"), Err(TimestampError::InvalidFormat));
    assert_eq!(DateTime::parse("2024-01 10:00:00"), Err(TimestampError::InvalidDate));
    assert_eq!(DateTime::parse("2024--15 10:00:00"), Err(TimestampError::InvalidDate));
    assert_eq!(DateTime::parse("2024-01-15 10:00"), Err(TimestampError::InvalidTime));
    assert_eq!(DateTime::parse("1969-01-15 10:00:00"), Err(TimestampError::InvalidYear));
    assert_eq!(DateTime::parse("70000-01-15 10:00:00"), Err(TimestampError::InvalidYear));
    assert_eq!(DateTime::parse("2024-x1-15 10:00:00"), Err(TimestampError::InvalidMonth));
    assert_eq!(DateTime::parse("2024-01-32 10:00:00"), Err(TimestampError::InvalidDay));
    assert_eq!(DateTime::parse("2024-01-15 10:60:00"), Err(TimestampError::InvalidMinute));
    assert_eq!(DateTime::parse("2024-01-15 10:00:60"), Err(TimestampError::InvalidSecond));
    assert_eq!(DateTime::parse("2024-01-15 24:00:00"), Err(TimestampError::InvalidHour));
}

#[test]
fn timestamp_reading_errors_come_before_range_errors() {
    // the month is out of range, but the hour is no number at all
    assert_eq!(DateTime::parse("2024-13-15 xx:00:00"), Err(TimestampError::InvalidHour));
}

#[test]
fn timestamp_accepts_any_day_up_to_31() {
    let dt = DateTime::parse("2024-02-31 00:00:00").unwrap();
    assert_eq!(dt.day, 31);
    assert_eq!(DateTime::parse("2024-01-15 09:00:00").unwrap().hour, 9);
    assert_eq!(DateTime::parse("2024-01-15 +9:00:00"), Err(TimestampError::InvalidHour));
    assert_eq!(DateTime::parse("+2024-01-15 10:23:45"), Err(TimestampError::InvalidYear));
}

#[test]
fn timestamp_order_is_lexicographic() {
    let a = DateTime::parse("2023-12-31 23:59:59").unwrap();
    let b = DateTime::parse("2024-01-01 00:00:00").unwrap();
    assert!(a < b && b > a);
    assert!(a.is_before(&b) && !b.is_before(&a) && !a.is_before(&a));
}

#[test]
fn severity_names_ignore_case_and_render_canonically() {
    assert_eq!(LogLevel::parse("wArN").unwrap(), LogLevel::Warn);
    assert_eq!(LogLevel::parse("trace").unwrap(), LogLevel::Trace);
    assert_eq!(LogLevel::parse("Debug").unwrap(), LogLevel::Debug);
    assert_eq!(LogLevel::Info.to_string(), "Info");
    assert_eq!(LogLevel::Fatal.to_string(), "Fatal");
    let err = LogLevel::parse("NOTICE").unwrap_err();
    assert_eq!(err.token, "NOTICE");
    assert!(LogLevel::parse("").is_err());
    assert!(LogLevel::parse("INFO ").is_err());
}

#[test]
fn severity_order_follows_rank() {
    let all = [
        LogLevel::Trace,
        LogLevel::Debug,
        LogLevel::Info,
        LogLevel::Warn,
        LogLevel::Error,
        LogLevel::Fatal,
    ];
    for i in 0..all.len() {
        for j in 0..all.len() {
            assert_eq!(all[i] < all[j], i < j);
        }
    }
    assert!(LogLevel::Error.is_error() && LogLevel::Fatal.is_error());
    assert!(!LogLevel::Warn.is_error());
}

#[test]
fn line_fields_are_read() {
    let e = parse_log_line("2024-01-15 10:23:45 [INFO] storage: Started", "a.log", 3).unwrap();
    assert_eq!(e.component, "storage");
    assert_eq!(e.message, "Started");
    assert_eq!(e.level, LogLevel::Info);
    assert_eq!(e.timestamp.hour, 10);
    assert_eq!(e.source_file, "a.log");
    assert_eq!(e.line_number, 3);
}

#[test]
fn line_whitespace_does_not_matter() {
    let a = entry("2024-01-15 10:23:45 [INFO] storage: Started");
    let b = entry(" 2024-01-15 10:23:45   [INFO]  storage: Started ");
    assert_eq!(a.timestamp, b.timestamp);
    assert_eq!(a.level, b.level);
    assert_eq!(a.component, b.component);
    assert_eq!(a.message, b.message);
}

#[test]
fn line_message_words_are_joined_with_one_space() {
    let e = entry("2024-01-15 10:23:45 [error] disk:   Failed  to\tmount  /dev/sda1");
    assert_eq!(e.message, "Failed to mount /dev/sda1");
    assert_eq!(e.level, LogLevel::Error);
}

#[test]
fn line_component_loses_one_colon() {
    assert_eq!(entry("2024-01-15 10:23:45 [INFO] storage:: x").component, "storage:");
    assert_eq!(entry("2024-01-15 10:23:45 [INFO] : x").component, "");
}

#[test]
fn line_errors_are_classified() {
    assert_eq!(line_kind("   "), LineError::EmptyLine);
    assert_eq!(line_kind("2024-01-15"), LineError::MissingField(Field::Time));
    assert_eq!(
        line_kind("123 dummy"),
        LineError::InvalidTimestamp(TimestampError::InvalidDate)
    );
    assert_eq!(line_kind("2024-01-15 10:23:45"), LineError::MissingField(Field::Level));
    assert_eq!(line_kind("2024-01-15 10:23:45 INFO storage: x"), LineError::MalformedLevel);
    assert_eq!(line_kind("2024-01-15 10:23:45 [NOPE] storage: x"), LineError::InvalidSeverity);
    assert_eq!(line_kind("2024-01-15 10:23:45 [[INFO]] storage: x"), LineError::InvalidSeverity);
    assert_eq!(line_kind("2024-01-15 10:23:45 [INFO]"), LineError::MissingField(Field::Component));
    assert_eq!(line_kind("2024-01-15 10:23:45 [INFO] storage x"), LineError::MalformedComponent);
    assert_eq!(line_kind("2024-01-15 10:23:45 [INFO] storage:"), LineError::MissingField(Field::Message));
}

#[test]
fn line_error_keeps_its_context() {
    let err = parse_log_line("  2024-01-15 10:23:45 [BAD] x: y  ", "b.log", 12).unwrap_err();
    assert_eq!(err.file, "b.log");
    assert_eq!(err.line_number, 12);
    assert_eq!(err.content, "2024-01-15 10:23:45 [BAD] x: y");
    assert_eq!(err.kind, LineError::InvalidSeverity);
    assert!(err.reason.contains("BAD"));
}

#[test]
fn statistics_error_rate_half() {
    let entries = vec![
        entry("2024-01-15 10:00:00 [ERROR] storage: Failed"),
        entry("2024-01-15 11:00:00 [INFO] network: OK"),
    ];
    let stats = Statistics::from_entries(&entries);
    assert_eq!(stats.error_count, 1);
    assert_eq!(stats.total_entries, 2);
    assert_eq!(stats.entries_by_level, vec![(LogLevel::Error, 1), (LogLevel::Info, 1)]);
    assert_eq!(stats.most_active_component.as_deref(), Some("storage"));
}

#[test]
fn statistics_of_nothing() {
    let stats = Statistics::from_entries(&[]);
    assert_eq!(stats.total_entries, 0);
    assert_eq!(stats.error_count, 0);
    assert!(stats.first_entry.is_none() && stats.last_entry.is_none());
    assert!(stats.most_active_component.is_none() && stats.peak_hour.is_none());
    assert!(stats.entries_by_level.is_empty() && stats.entries_by_hour.is_empty());
}

#[test]
fn statistics_peak_hour_and_ties() {
    let entries = vec![
        entry("2024-01-15 08:00:00 [INFO] a: x"),
        entry("2024-01-15 09:00:00 [INFO] b: x"),
        entry("2024-01-15 09:10:00 [FATAL] b: x"),
        entry("2024-01-15 09:20:00 [INFO] c: x"),
    ];
    let stats = Statistics::from_entries(&entries);
    assert_eq!(stats.peak_hour, Some(9));
    assert_eq!(stats.entries_by_hour, vec![(8, 1), (9, 3)]);
    assert_eq!(stats.error_count, 1);
    assert_eq!(stats.most_active_component.as_deref(), Some("b"));

    let tied = vec![
        entry("2024-01-15 14:00:00 [INFO] x: m"),
        entry("2024-01-15 07:00:00 [INFO] y: m"),
        entry("2024-01-15 07:30:00 [INFO] x: m"),
        entry("2024-01-15 14:30:00 [INFO] y: m"),
    ];
    let stats = Statistics::from_entries(&tied);
    assert_eq!(stats.peak_hour, Some(14));
    assert_eq!(stats.most_active_component.as_deref(), Some("x"));
}

#[test]
fn statistics_time_span() {
    let entries = vec![
        entry("2024-03-01 12:00:00 [INFO] a: x"),
        entry("2023-12-31 23:59:59 [INFO] a: x"),
        entry("2024-06-01 00:00:00 [INFO] a: x"),
    ];
    let stats = Statistics::from_entries(&entries);
    assert_eq!(stats.first_entry.unwrap().to_string(), "2023-12-31 23:59:59");
    assert_eq!(stats.last_entry.unwrap().to_string(), "2024-6-1 0:0:0");
    assert_eq!(stats.entries_by_component.len(), 1);
    assert_eq!(stats.entries_by_component[0].1, 3);
}

#[test]
fn analyzer_reads_lines_and_keeps_failures() {
    let mut analyzer = LogAnalyzer::new();
    let text = "2024-01-15 10:23:45 [INFO] storage: Started\r\nbroken line\n\n2024-01-15 11:00:00 [WARN] net: Slow\n";
    let added = analyzer.process_text(text, "all.log");
    assert_eq!(added, 2);
    assert_eq!(analyzer.entries().len(), 2);
    assert_eq!(analyzer.entries()[1].line_number, 4);
    assert_eq!(analyzer.entries()[0].message, "Started");
    let errors = analyzer.parse_errors();
    assert_eq!(errors.len(), 2);
    assert_eq!(errors[0].line_number, 2);
    assert_eq!(errors[1].line_number, 3);
    assert_eq!(errors[1].kind, LineError::EmptyLine);
    let stats = analyzer.statistics();
    assert_eq!(stats.total_entries, 2);
    assert_eq!(analyzer.process_text("", "empty.log"), 0);
    assert_eq!(analyzer.entries().len(), 2);
}

#[test]
fn line_error_reasons_name_the_problem() {
    let reason = |line: &str| parse_log_line(line, "r.log", 1).unwrap_err().reason;
    assert_eq!(reason(""), "Empty line");
    assert_eq!(reason("2024-01-15"), "Missing required field: time");
    assert_eq!(reason("2024-01-15 10:23"), "Invalid timestamp: invalid time format");
    assert_eq!(
        reason("2024-01-15 10:23:45 INFO a: b"),
        "level must be in [LEVEL] format, got 'INFO'"
    );
    assert_eq!(reason("2024-01-15 10:23:45 [Nope] a: b"), "Invalid log level: Nope");
    assert_eq!(
        reason("2024-01-15 10:23:45 [INFO] a b"),
        "component must end with ':', got 'a'"
    );
    assert_eq!(reason("2024-01-15 10:23:45 [INFO] a:"), "Missing required field: message");
    assert_eq!(TimestampError::InvalidDay.describe(), "invalid day");
    assert_eq!(Field::Level.describe(), "log level");
}

#[test]
fn whitespace_test_follows_unicode() {
    let e = entry("2024-01-15\u{3000}10:23:45\u{a0}[INFO]\u{2003}svc:\u{85}ok");
    assert_eq!(e.component, "svc");
    assert_eq!(e.message, "ok");
}
