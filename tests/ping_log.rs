use ping_log::history::{checked_history, generate_history, history_reads, read_history};
use ping_log::logfiles::{
    date_stamp, expired_logs, is_log_file, log_file_name, log_files, older, retention_cutoff,
    try_open_log, Date,
};
use ping_log::range::{read_log, RangeReader};
use ping_log::record::{parse, Ping, LOST_PING};
use ping_log::stats::{accumulate, PingStats};
use ping_log::writer::{next_tick, plan_append};

fn stats(time: i64, min: Option<u64>, max: Option<u64>, avg: Option<u64>, lost: usize, count: usize) -> PingStats {
    PingStats { min, max, avg, lost, count, time }
}

#[test]
fn old_filename() {
    assert_eq!(10, "191129.txt".len());

    assert!(!older("malformed", "191129"));

    assert!(older("191029.txt", "191129"));
    assert!(older("191129.txt", "191130"));

    assert!(!older("191129.txt", "191129"));
    assert!(!older("191129.txt", "191128"));
}

#[test]
fn ping_stats_test_parse() {
    assert_eq!(
        parse("1626457680 11.5\n1626457740 1000\n1626462480 13.9\n"),
        vec![
            Ping::new(1626462480, 13_900),
            Ping::new(1626457740, 1_000_000),
            Ping::new(1626457680, 11_500),
        ]
    );
}

#[test]
fn test_generate_history() {
    let log = [Ping::new(1536062893, 10_000), Ping::new(1536059293, 20_000)];

    let history = generate_history(&log);

    assert_eq!(2, history.len());
    assert_eq!(
        stats(1536066000, Some(10_000), Some(10_000), Some(10_000), 0, 1),
        history[0]
    );
    assert_eq!(
        stats(1536062400, Some(20_000), Some(20_000), Some(20_000), 0, 1),
        history[1]
    );

    let log = [Ping::new(1536062893, 10_000), Ping::new(1536055693, 20_000)];

    let history = generate_history(&log);
    println!("{:?}", history);

    assert_eq!(3, history.len());
    assert_eq!(
        stats(1536066000, Some(10_000), Some(10_000), Some(10_000), 0, 1),
        history[0]
    );
    assert_eq!(stats(1536062400, None, None, None, 0, 0), history[1]);
    assert_eq!(
        stats(1536058800, Some(20_000), Some(20_000), Some(20_000), 0, 1),
        history[2]
    );
}

#[test]
fn record_lines_are_written_in_milliseconds() {
    assert_eq!(Ping::new(1626457680, 11_500).to_line(), "1626457680 11.5");
    assert_eq!(Ping::new(-5, 45).to_line(), "-5 0.045");
    assert_eq!(Ping::new(0, 1_000_000).to_line(), "0 1000.0");
    assert_eq!(Ping::new(7, 1_250).to_line(), "7 1.25");
    assert_eq!(Ping::new(7, 1_205).to_line(), "7 1.205");
    assert_eq!(Ping::new(1, 2).to_entry(), "1 0.002\n");
}

#[test]
fn record_lines_read_back() {
    let samples = [
        Ping::new(1626457680, 11_500),
        Ping::new(-5, 45),
        Ping::new(0, 1_000_000),
        Ping::new(i64::MIN, u64::MAX),
        Ping::new(i64::MAX, 0),
        Ping::new(42, 123_456_789),
    ];
    for p in samples {
        assert_eq!(Ping::from_line(&p.to_line()), Some(p));
    }
}

#[test]
fn malformed_record_lines() {
    assert_eq!(Ping::from_line("1626457680 11.5"), Some(Ping::new(1626457680, 11_500)));
    assert_eq!(Ping::from_line("1626457680\t11.55555"), Some(Ping::new(1626457680, 11_555)));
    assert_eq!(Ping::from_line(""), None);
    assert_eq!(Ping::from_line("1626457680"), None);
    assert_eq!(Ping::from_line("abc 11.5"), None);
    assert_eq!(Ping::from_line("1 2 3"), None);
    assert_eq!(Ping::from_line("1  2"), Some(Ping::new(1, 2_000)));
    assert_eq!(Ping::from_line("1 -2"), None);
    assert_eq!(Ping::from_line("1 2."), Some(Ping::new(1, 2_000)));
    assert_eq!(Ping::from_line("1 .5"), Some(Ping::new(1, 500)));
    assert_eq!(Ping::from_line("+1 +2.5"), Some(Ping::new(1, 2_500)));
    assert_eq!(Ping::from_line(" 1 2.0"), Some(Ping::new(1, 2_000)));
    assert_eq!(Ping::from_line("1 2.0 "), Some(Ping::new(1, 2_000)));
    assert_eq!(Ping::from_line("1\u{a0}\u{3000}2.0\u{b}"), Some(Ping::new(1, 2_000)));
    assert_eq!(Ping::from_line("1 ."), None);
    assert_eq!(Ping::from_line("1 1e3"), None);
    assert_eq!(Ping::from_line("   "), None);
    assert_eq!(Ping::from_line("--1 2"), None);
    assert_eq!(Ping::from_line("9223372036854775808 1"), None);
    assert_eq!(Ping::from_line("-9223372036854775808 1"), Some(Ping::new(i64::MIN, 1_000)));
}

#[test]
fn bad_lines_do_not_spoil_a_file() {
    assert_eq!(
        parse("100 1.5\ngarbage\n\r\n200 2.5\r\n300 3"),
        vec![Ping::new(300, 3_000), Ping::new(200, 2_500), Ping::new(100, 1_500)]
    );
    assert_eq!(parse(""), vec![]);
}

#[test]
fn accumulate_one_lost_sample() {
    let s = accumulate(&[Ping::new(1, 1_000_000)], 0);
    assert_eq!(s.lost, 1);
    assert_eq!(s.count, 1);
    assert_eq!(s.min, None);
    assert_eq!(s.max, None);
    assert_eq!(s.avg, Some(0));
}

#[test]
fn accumulate_mixed_window() {
    let s = accumulate(
        &[
            Ping::new(3, 20_000),
            Ping::new(2, 1_000_000),
            Ping::new(1, 10_000),
            Ping::new(0, 999_999),
        ],
        3600,
    );
    assert_eq!(s, stats(3600, Some(10_000), Some(999_999), Some(257_499), 1, 4));
}

#[test]
fn accumulate_empty_window() {
    assert_eq!(accumulate(&[], 7200), stats(7200, None, None, None, 0, 0));
}

#[test]
fn history_windows_are_an_hour_apart() {
    let log = [
        Ping::new(36_000, 1_000),
        Ping::new(35_999, 2_000),
        Ping::new(20_000, 3_000),
        Ping::new(3_600, 1_000_000),
    ];
    let history = generate_history(&log);
    assert_eq!(history.len(), 10);
    assert_eq!(history[0], stats(39_600, Some(1_000), Some(1_000), Some(1_000), 0, 1));
    assert_eq!(history[1], stats(36_000, Some(2_000), Some(2_000), Some(2_000), 0, 1));
    assert_eq!(history[9], stats(7_200, None, None, Some(0), 1, 1));
    for k in 0..history.len() - 1 {
        assert_eq!(history[k].time - history[k + 1].time, 3600);
    }
    let empty: Vec<PingStats> = history.iter().copied().filter(|h| h.count == 0).collect();
    assert_eq!(empty.len(), 6);
    for h in empty {
        assert_eq!((h.min, h.max, h.avg), (None, None, None));
    }
}

#[test]
fn history_of_nothing_is_empty() {
    assert_eq!(generate_history(&[]), vec![]);
}

#[test]
fn history_before_the_epoch() {
    let history = generate_history(&[Ping::new(-1, 5_000), Ping::new(-3601, 6_000)]);
    assert_eq!(history.len(), 2);
    assert_eq!(history[0].time, 0);
    assert_eq!(history[1].time, -3600);
}

#[test]
fn history_out_of_range_times() {
    assert_eq!(checked_history(&[Ping::new(i64::MAX, 1)]), None);
    assert_eq!(
        checked_history(&[Ping::new(10, 1_000)]),
        Some(vec![stats(3600, Some(1_000), Some(1_000), Some(1_000), 0, 1)])
    );
}

#[test]
fn read_log_on_no_files() {
    assert_eq!(read_log(&vec![], 0, 60, 0, 0), vec![]);
}

fn sample_files() -> Vec<String> {
    vec![
        "100 1\n110 1.1\n120 1.2\n".to_string(),
        "200 2\nbroken\n210 2.1\n".to_string(),
        "300 3\n310 3.1\n".to_string(),
    ]
}

fn times(pings: &[Ping]) -> Vec<i64> {
    pings.iter().map(|p| p.time).collect()
}

#[test]
fn read_log_selects_newest_first() {
    let files = sample_files();
    assert_eq!(times(&read_log(&files, 0, 60, 0, 0)), vec![310, 300, 210, 200, 120, 110, 100]);
    assert_eq!(times(&read_log(&files, 0, 3, 0, 0)), vec![310, 300, 210]);
    assert_eq!(times(&read_log(&files, 2, 3, 0, 0)), vec![210, 200, 120]);
    assert_eq!(times(&read_log(&files, 0, 60, 300, 0)), vec![210, 200, 120, 110, 100]);
    assert_eq!(times(&read_log(&files, 1, 2, 300, 0)), vec![200, 120]);
    assert_eq!(times(&read_log(&files, 0, 60, 0, 200)), vec![310, 300, 210, 200]);
    assert_eq!(times(&read_log(&files, 0, 60, 301, 110)), vec![300, 210, 200, 120, 110]);
    assert_eq!(times(&read_log(&files, 10, 60, 0, 0)), Vec::<i64>::new());
    assert_eq!(times(&read_log(&files, 0, 0, 0, 0)), Vec::<i64>::new());
    let r = read_log(&files, 1, 4, 0, 0);
    assert!(r.len() <= 4);
    for w in r.windows(2) {
        assert!(w[0].time > w[1].time);
    }
}

#[test]
fn range_reader_closes_early() {
    let mut reader = RangeReader::new(0, 2, 0, 0);
    assert!(!reader.is_done());
    reader.feed_text("300 3\n310 3.1\n");
    assert!(reader.is_done());
    assert_eq!(times(&reader.selected()), vec![310, 300]);
    let mut reader = RangeReader::new(0, 10, 0, 305);
    reader.feed_text("300 3\n310 3.1\n");
    assert!(reader.is_done());
    assert_eq!(times(&reader.selected()), vec![310]);
    let mut reader = RangeReader::new(0, 10, 0, 0);
    reader.push(Ping::new(1, 1));
    assert!(!reader.is_done());
}

#[test]
fn read_history_reads_65_samples_per_window() {
    assert_eq!(history_reads(2), 130);
    assert_eq!(history_reads(usize::MAX), usize::MAX);
    let files = vec!["3000 1\n3700 2\n7300 4\n".to_string()];
    let h = read_history(&files, 0, 24, 0, 0);
    assert_eq!(h.len(), 3);
    assert_eq!(h[0], stats(10_800, Some(4_000), Some(4_000), Some(4_000), 0, 1));
    assert_eq!(h[1], stats(7_200, Some(2_000), Some(2_000), Some(2_000), 0, 1));
    assert_eq!(h[2], stats(3_600, Some(1_000), Some(1_000), Some(1_000), 0, 1));
    assert_eq!(read_history(&vec![], 0, 24, 0, 0), vec![]);
}

#[test]
fn log_file_names() {
    assert!(is_log_file("191129.txt"));
    assert!(!is_log_file("malformed"));
    assert!(!is_log_file("19112a.txt"));
    assert!(!is_log_file("191129.log"));
    assert!(!is_log_file("1911290.txt"));
    let d = Date::new(2019, 11, 29).unwrap();
    assert_eq!(log_file_name(&d), "191129.txt");
    assert_eq!(date_stamp(&Date::new(2005, 1, 2).unwrap()), "050102");
    assert_eq!(Date::new(2019, 2, 29), None);
    assert!(Date::new(2020, 2, 29).is_some());
}

#[test]
fn log_files_sorted_and_filtered() {
    let entries = vec![
        "191130.txt".to_string(),
        "notes.md".to_string(),
        "191029.txt".to_string(),
        "200101.txt".to_string(),
        "191129.txt".to_string(),
    ];
    assert_eq!(
        log_files(&entries),
        vec!["191029.txt", "191129.txt", "191130.txt", "200101.txt"]
    );
    assert_eq!(log_files(&vec![]), Vec::<String>::new());
}

#[test]
fn retention_is_eight_weeks() {
    let today = Date::new(2019, 11, 29).unwrap();
    assert_eq!(retention_cutoff(&today), Some("191004".to_string()));
    let entries = vec![
        "191003.txt".to_string(),
        "191004.txt".to_string(),
        "190101.txt".to_string(),
        "!!!!!!.txt".to_string(),
        "191129.txt".to_string(),
    ];
    assert_eq!(expired_logs(&entries, "191004"), vec!["191003.txt", "190101.txt"]);
}

#[test]
fn append_prunes_on_a_new_day_only() {
    let today = Date::new(2019, 11, 29).unwrap();
    let sample = Ping::new(1575000000, 12_300);
    let entries = vec!["191003.txt".to_string(), "191128.txt".to_string()];
    let plan = plan_append(&today, &entries, &sample);
    assert_eq!(plan.file_name, "191129.txt");
    assert_eq!(plan.entry, "1575000000 12.3\n");
    assert_eq!(plan.prune, vec!["191003.txt"]);
    let entries = vec!["191003.txt".to_string(), "191129.txt".to_string()];
    let plan = plan_append(&today, &entries, &sample);
    assert_eq!(plan.prune, Vec::<String>::new());
}

#[test]
fn ticks_fall_on_interval_boundaries() {
    assert_eq!(next_tick(125, 60), 180);
    assert_eq!(next_tick(120, 60), 180);
    assert_eq!(next_tick(0, 1), 1);
}

#[test]
fn log_requests_name_listed_files() {
    let files = vec!["191128.txt".to_string(), "191129.txt".to_string()];
    assert_eq!(try_open_log("/191129.txt", &files), Some(1));
    assert_eq!(try_open_log("/191130.txt", &files), None);
    assert_eq!(try_open_log("191129.txt", &files), None);
    assert_eq!(try_open_log("", &files), None);
}

#[test]
fn appended_entry_reads_back() {
    let mut text = String::from("100 1.5\n");
    text.push_str(&Ping::new(200, 2_500).to_entry());
    assert_eq!(parse(&text), vec![Ping::new(200, 2_500), Ping::new(100, 1_500)]);
    let mut text = String::new();
    text.push_str(&Ping::new(-7, 1_000_000).to_entry());
    assert_eq!(parse(&text), vec![Ping::new(-7, 1_000_000)]);
}

#[test]
fn log_names_sort_as_strings_and_dates() {
    let names = log_files(&vec!["200101.txt".to_string(), "191231.txt".to_string()]);
    let mut sorted = names.clone();
    sorted.sort();
    assert_eq!(names, sorted);
    assert!(older("191231.txt", "200101"));
}

#[test]
fn range_reader_names_files_newest_first() {
    let mut reader = RangeReader::new(0, 2, 0, 0);
    assert_eq!(reader.next_file(3, 0), Some(2));
    reader.feed_text("300 3\n");
    assert_eq!(reader.next_file(3, 1), Some(1));
    reader.feed_text("200 2\n");
    assert_eq!(reader.next_file(3, 2), None);
    let reader = RangeReader::new(0, 2, 0, 0);
    assert_eq!(reader.next_file(3, 3), None);
}
