use rustsafe::logger::{
    format_line, parse_line, parse_log, time_till_unban, LockoutError, LockoutLog, LogEntry,
    LogType, BAN_TIME, MAX_FAILS, MAX_LOGS,
};

fn entry(time: u128, kind: LogType) -> LogEntry {
    LogEntry { time, kind }
}

#[test]
fn time_till_unban_counts_down_to_the_ban_end() {
    assert_eq!(time_till_unban(&LogType::BAN(1000), 400), Some(600));
    assert_eq!(time_till_unban(&LogType::BAN(1000), 999), Some(1));
    assert_eq!(time_till_unban(&LogType::BAN(1000), 1000), None);
    assert_eq!(time_till_unban(&LogType::BAN(1000), 5000), None);
    assert_eq!(time_till_unban(&LogType::INFO, 0), None);
    assert_eq!(time_till_unban(&LogType::LOGIN_FAILED, 0), None);
}

#[test]
fn five_failures_start_a_ban() {
    let mut log = LockoutLog::new();
    for t in 0..(MAX_FAILS as u128) {
        assert_eq!(log.record_attempt(1000 + t, false), Ok(()));
    }
    assert_eq!(log.failure_streak(), 0);
    assert_eq!(log.last_ban(), Some(1004 + BAN_TIME));
    assert_eq!(
        log.record_attempt(2000, false),
        Err(LockoutError::CurrentlyBanned(1004 + BAN_TIME - 2000))
    );
    assert_eq!(
        log.record_attempt(2000, true),
        Err(LockoutError::CurrentlyBanned(1004 + BAN_TIME - 2000))
    );
    assert_eq!(log.entries().len(), 6);
    assert_eq!(log.entries()[5], entry(1004, LogType::BAN(1004 + BAN_TIME)));
    assert_eq!(log.time_remaining(1004), Some(BAN_TIME));
}

#[test]
fn four_failures_then_success_reset_the_streak() {
    let mut log = LockoutLog::new();
    for t in 0..4u128 {
        assert_eq!(log.record_attempt(t, false), Ok(()));
    }
    assert_eq!(log.failure_streak(), 4);
    assert_eq!(log.record_attempt(10, true), Ok(()));
    assert_eq!(log.failure_streak(), 0);
    assert_eq!(log.record_attempt(11, false), Ok(()));
    assert_eq!(log.failure_streak(), 1);
    assert_eq!(log.last_ban(), None);
    assert_eq!(log.time_remaining(12), None);
    assert_eq!(log.entries()[4], entry(10, LogType::INFO));
}

#[test]
fn an_expired_ban_clears_and_counting_restarts() {
    let mut log = LockoutLog::new();
    for t in 0..5u128 {
        log.record_attempt(t, false).unwrap();
    }
    let until = 4 + BAN_TIME;
    assert_eq!(log.time_remaining(until - 1), Some(1));
    assert_eq!(log.time_remaining(until), None);
    assert_eq!(log.time_remaining(until + 1), None);
    assert_eq!(log.record_attempt(until + 1, false), Ok(()));
    assert_eq!(log.failure_streak(), 1);
    assert_eq!(log.last_ban(), Some(until));
}

#[test]
fn appending_past_the_bound_drops_the_oldest_lines() {
    let mut log = LockoutLog::new();
    for t in 0..(MAX_LOGS as u128 + 100) {
        log.append(entry(t, LogType::DEBUG));
    }
    assert_eq!(log.entries().len(), MAX_LOGS);
    for (i, e) in log.entries().iter().enumerate() {
        assert_eq!(e.time, 100 + i as u128);
    }
}

#[test]
fn loading_a_long_log_keeps_the_newest_lines() {
    let lines: Vec<LogEntry> = (0..(MAX_LOGS as u128 + 7)).map(|t| entry(t, LogType::INFO)).collect();
    let log = LockoutLog::from_entries(lines);
    assert_eq!(log.entries().len(), MAX_LOGS);
    assert_eq!(log.entries()[0].time, 7);
    assert_eq!(log.entries()[MAX_LOGS - 1].time, MAX_LOGS as u128 + 6);
    let short = LockoutLog::from_entries(vec![entry(1, LogType::ERROR), entry(2, LogType::INFO)]);
    assert_eq!(short.entries().len(), 2);
    assert_eq!(short.entries()[0], entry(1, LogType::ERROR));
}

#[test]
fn a_ban_in_a_loaded_log_refuses_attempts() {
    let mut log = LockoutLog::from_entries(vec![
        entry(10, LogType::LOGIN_FAILED),
        entry(20, LogType::BAN(500)),
        entry(30, LogType::DEBUG),
    ]);
    assert_eq!(log.record_attempt(100, true), Err(LockoutError::CurrentlyBanned(400)));
    assert_eq!(log.entries().len(), 3);
    assert_eq!(log.record_attempt(500, true), Ok(()));
}

#[test]
fn format_line_writes_time_kind_and_ban_end() {
    assert_eq!(format_line(&entry(1700, LogType::LOGIN_FAILED)), b"1700 FAILED".to_vec());
    assert_eq!(format_line(&entry(5, LogType::BAN(300005))), b"5 BAN 300005".to_vec());
    assert_eq!(format_line(&entry(0, LogType::INFO)), b"0 INFO".to_vec());
    assert_eq!(format_line(&entry(42, LogType::ERROR)), b"42 ERROR".to_vec());
    assert_eq!(format_line(&entry(7, LogType::DEBUG)), b"7 DEBUG".to_vec());
    assert_eq!(format_line(&entry(9, LogType::INVALID)), b"9 INVALID".to_vec());
}

#[test]
fn parse_line_reads_exact_kind_words() {
    assert_eq!(parse_line(b"123 BAN 456"), entry(123, LogType::BAN(456)));
    assert_eq!(parse_line(b"123 INFO Records were viewed"), entry(123, LogType::INFO));
    assert_eq!(parse_line(b"123 INFO BAN ERROR"), entry(123, LogType::INFO));
    assert_eq!(parse_line(b"9 FAILED"), entry(9, LogType::LOGIN_FAILED));
    assert_eq!(parse_line(b"9 DEBUG x"), entry(9, LogType::DEBUG));
    assert_eq!(parse_line(b"9 ERROR"), entry(9, LogType::ERROR));
}

#[test]
fn parse_line_classifies_unreadable_lines_as_invalid() {
    assert_eq!(parse_line(b"garbage"), entry(0, LogType::INVALID));
    assert_eq!(parse_line(b""), entry(0, LogType::INVALID));
    assert_eq!(parse_line(b"12 FOO"), entry(12, LogType::INVALID));
    assert_eq!(parse_line(b"12"), entry(12, LogType::INVALID));
    assert_eq!(parse_line(b"12 BAN"), entry(12, LogType::INVALID));
    assert_eq!(parse_line(b"12 BAN x"), entry(12, LogType::INVALID));
    assert_eq!(parse_line(b"12 BANNED 5"), entry(12, LogType::INVALID));
    assert_eq!(parse_line(b"12 info"), entry(12, LogType::INVALID));
    assert_eq!(parse_line(b"-1 INFO"), entry(0, LogType::INVALID));
    assert_eq!(parse_line(b" 1 INFO"), entry(0, LogType::INVALID));
}

#[test]
fn parse_line_refuses_numbers_beyond_128_bits() {
    let max = u128::MAX.to_string();
    assert_eq!(parse_line(format!("{} INFO", max).as_bytes()), entry(u128::MAX, LogType::INFO));
    let over = "340282366920938463463374607431768211456";
    assert_eq!(parse_line(format!("{} INFO", over).as_bytes()), entry(0, LogType::INVALID));
    assert_eq!(parse_line(format!("1 BAN {}", over).as_bytes()), entry(1, LogType::INVALID));
    assert_eq!(parse_line(format!("{}0 INFO", max).as_bytes()), entry(0, LogType::INVALID));
}

#[test]
fn formatted_lines_read_back() {
    let kinds = [
        LogType::ERROR,
        LogType::DEBUG,
        LogType::BAN(u128::MAX),
        LogType::BAN(0),
        LogType::INVALID,
        LogType::INFO,
        LogType::LOGIN_FAILED,
    ];
    for k in kinds {
        for t in [0u128, 9, 10, 1_700_000_000_000, u128::MAX] {
            let e = entry(t, k);
            assert_eq!(parse_line(&format_line(&e)), e);
        }
    }
}

#[test]
fn parse_log_reads_one_entry_per_line() {
    let text = b"1 INFO ok\n2 FAILED\n\n3 BAN 99\nbad line\n";
    assert_eq!(
        parse_log(text),
        vec![
            entry(1, LogType::INFO),
            entry(2, LogType::LOGIN_FAILED),
            entry(0, LogType::INVALID),
            entry(3, LogType::BAN(99)),
            entry(0, LogType::INVALID),
        ]
    );
    assert_eq!(parse_log(b""), Vec::new());
    assert_eq!(parse_log(b"5 INFO"), vec![entry(5, LogType::INFO)]);
}

#[test]
fn formatted_logs_read_back() {
    let es = vec![
        entry(1, LogType::INFO),
        entry(2, LogType::LOGIN_FAILED),
        entry(3, LogType::BAN(300003)),
        entry(4, LogType::INVALID),
    ];
    let text = rustsafe::logger::format_log(&es);
    assert_eq!(text, b"1 INFO\n2 FAILED\n3 BAN 300003\n4 INVALID\n".to_vec());
    assert_eq!(parse_log(&text), es);
    assert_eq!(rustsafe::logger::format_log(&Vec::new()), Vec::<u8>::new());
}

#[test]
fn get_last_logs_returns_the_newest_kinds() {
    let empty = LockoutLog::new();
    assert_eq!(rustsafe::logger::get_last_logs(&empty, 5), None);
    let log = LockoutLog::from_entries(vec![
        entry(1, LogType::INFO),
        entry(2, LogType::LOGIN_FAILED),
        entry(3, LogType::BAN(9)),
    ]);
    assert_eq!(
        rustsafe::logger::get_last_logs(&log, 2),
        Some(vec![LogType::LOGIN_FAILED, LogType::BAN(9)])
    );
    assert_eq!(
        rustsafe::logger::get_last_logs(&log, 10),
        Some(vec![LogType::INFO, LogType::LOGIN_FAILED, LogType::BAN(9)])
    );
    assert_eq!(rustsafe::logger::get_last_logs(&log, 0), Some(vec![]));
}

#[test]
fn ban_if_invalid_refuses_during_a_ban() {
    let mut log = LockoutLog::from_entries(vec![entry(3, LogType::BAN(100))]);
    assert!(!rustsafe::logger::ban_if_invalid(&mut log, 50));
    assert_eq!(log.entries().len(), 1);
    assert!(rustsafe::logger::ban_if_invalid(&mut log, 100));
    assert_eq!(log.entries().len(), 1);
    assert!(rustsafe::logger::ban_if_invalid(&mut LockoutLog::new(), 0));
}

#[test]
fn five_trailing_failures_without_a_ban_line_are_banned() {
    let lines: Vec<LogEntry> = (1..=5u128).map(|t| entry(t, LogType::LOGIN_FAILED)).collect();
    let mut log = LockoutLog::from_entries(lines);
    assert!(!rustsafe::logger::ban_if_invalid(&mut log, 1000));
    assert_eq!(log.entries().len(), 6);
    assert_eq!(log.entries()[5], entry(1000, LogType::BAN(1000 + BAN_TIME)));
    assert_eq!(
        rustsafe::logger::get_last_logs(&log, 1),
        Some(vec![LogType::BAN(1000 + BAN_TIME)])
    );
    assert!(!rustsafe::logger::ban_if_invalid(&mut log, 1001));
    assert_eq!(log.entries().len(), 6);

    let lines: Vec<LogEntry> = (1..=5u128).map(|t| entry(t, LogType::LOGIN_FAILED)).collect();
    let mut log = LockoutLog::from_entries(lines);
    assert_eq!(log.record_attempt(2000, true), Err(LockoutError::CurrentlyBanned(BAN_TIME)));
    assert_eq!(log.entries().len(), 6);
    assert_eq!(log.entries()[5], entry(2000, LogType::BAN(2000 + BAN_TIME)));
}

#[test]
fn four_trailing_failures_are_not_banned() {
    let lines: Vec<LogEntry> = (1..=4u128).map(|t| entry(t, LogType::LOGIN_FAILED)).collect();
    let mut log = LockoutLog::from_entries(lines);
    assert!(rustsafe::logger::ban_if_invalid(&mut log, 1000));
    assert_eq!(log.entries().len(), 4);
}
