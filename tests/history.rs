use dirhist::{
    by_directory, by_prefix, dedup_commands, index_lines, render_commands, HistoryEntry,
    HistoryError, HistoryFile,
};

fn loaded(bytes: &[u8]) -> HistoryFile {
    let mut h = HistoryFile::new("/tmp/history".to_string());
    h.load_bytes(bytes.to_vec());
    h
}

fn entry(ts: u64, dur: u64, dir: &str, cmd: &str) -> HistoryEntry {
    HistoryEntry { timestamp: ts, duration: dur, directory: dir.to_string(), command: cmd.to_string() }
}

const THREE: &[u8] = b": 100:5;/a;ls\0: 200:0;/b;cd x\0: 300:2;/a;ls -l";

#[test]
fn three_records_directory_first() {
    let h = loaded(THREE);
    assert_eq!(h.read_commands_with("/a", "").unwrap(), vec!["ls", "ls -l", "cd x"]);
}

#[test]
fn three_records_prefix_only() {
    let h = loaded(THREE);
    assert_eq!(h.read_commands_with("", "ls").unwrap(), vec!["ls", "ls -l"]);
}

#[test]
fn repeated_command_once() {
    let h = loaded(b": 1:0;/a;ls\0: 2:0;/a;ls");
    assert_eq!(h.read_commands_with("", "").unwrap(), vec!["ls"]);
}

#[test]
fn indices_none_and_two() {
    assert_eq!(index_lines(0), vec!["NONE"]);
    assert_eq!(index_lines(2), vec!["0", "1"]);
    let h = loaded(THREE);
    let found = h.read_commands_with("", "zzz").unwrap();
    assert_eq!(index_lines(found.len()), vec!["NONE"]);
}

#[test]
fn indices_past_nine() {
    let lines = index_lines(12);
    assert_eq!(lines.len(), 12);
    assert_eq!(lines[10], "10");
    assert_eq!(lines[11], "11");
}

#[test]
fn missing_duration_is_zero() {
    let e = HistoryEntry::parse_record(": 1;/a;ls").unwrap();
    assert_eq!(e, entry(1, 0, "/a", "ls"));
}

#[test]
fn four_meta_subfields_rejected() {
    let r = HistoryEntry::parse_record(": 1:2:3;/a;ls");
    assert_eq!(r, Err(HistoryError::MalformedRecord(": 1:2:3;/a;ls".to_string())));
}

#[test]
fn record_fields_read_back() {
    let e = HistoryEntry::parse_record(": 1700000000:42;/home/u/src;git commit -m 'a;b'").unwrap();
    assert_eq!(e, entry(1700000000, 42, "/home/u/src", "git commit -m 'a;b'"));
    let text = format!(": {}:{};{};{}", e.timestamp, e.duration, e.directory, e.command);
    assert_eq!(HistoryEntry::parse_record(&text).unwrap(), e);
}

#[test]
fn parse_through_from_str() {
    let e: HistoryEntry = ": 5:6;/x;y".parse().unwrap();
    assert_eq!(e, entry(5, 6, "/x", "y"));
}

#[test]
fn numbers_trimmed_and_signed() {
    let e = HistoryEntry::parse_record(":  42 :\t7 ; dir ;cmd ").unwrap();
    assert_eq!(e, entry(42, 7, " dir ", "cmd "));
    let e = HistoryEntry::parse_record("x:+9;/a;b").unwrap();
    assert_eq!(e.timestamp, 9);
}

#[test]
fn largest_timestamp_and_overflow() {
    let e = HistoryEntry::parse_record(": 18446744073709551615:0;/a;b").unwrap();
    assert_eq!(e.timestamp, u64::MAX);
    assert!(HistoryEntry::parse_record(": 18446744073709551616:0;/a;b").is_err());
}

#[test]
fn malformed_records() {
    for bad in [
        "no separators",
        ": 1:0;/a",
        "abc;/a;ls",
        ": x:0;/a;ls",
        ": 1:y;/a;ls",
        ": ;/a;ls",
        ": -1;/a;ls",
        ": +;/a;ls",
    ] {
        assert_eq!(
            HistoryEntry::parse_record(bad),
            Err(HistoryError::MalformedRecord(bad.to_string())),
            "{}",
            bad
        );
    }
}

#[test]
fn blank_records_skipped() {
    let h = loaded(b": 1:0;/a;ls\0   \t\0\0: 2:0;/b;cd\0");
    assert_eq!(h.read_all().unwrap(), vec![entry(1, 0, "/a", "ls"), entry(2, 0, "/b", "cd")]);
    let empty = loaded(b"");
    assert_eq!(empty.read_all().unwrap(), vec![]);
}

#[test]
fn malformed_record_fails_traversal() {
    let h = loaded(b": 1:0;/a;ls\0broken\0: 2:0;/b;cd");
    assert_eq!(h.read_all(), Err(HistoryError::MalformedRecord("broken".to_string())));
    assert_eq!(
        h.read_commands_with("/a", ""),
        Err(HistoryError::MalformedRecord("broken".to_string()))
    );
}

#[test]
fn invalid_bytes_replaced() {
    let h = loaded(b": 1:0;/a;echo \xff!");
    let all = h.read_all().unwrap();
    assert_eq!(all[0].command, "echo \u{FFFD}!");
}

#[test]
fn directory_priority_is_stable_partition() {
    let es = vec![
        entry(1, 0, "/b", "one"),
        entry(2, 0, "/a", "two"),
        entry(3, 0, "/b", "three"),
        entry(4, 0, "/a", "four"),
    ];
    let out: Vec<String> = by_directory(&es, "/a").into_iter().map(|e| e.command).collect();
    assert_eq!(out, vec!["two", "four", "one", "three"]);
    let h = loaded(b": 1:0;/b;one\0: 2:0;/a;two\0: 3:0;/b;three");
    let cmds: Vec<String> = h.read_all_by_dir("/a").unwrap().into_iter().map(|e| e.command).collect();
    assert_eq!(cmds, vec!["two", "one", "three"]);
}

#[test]
fn empty_directory_keeps_order() {
    let es = vec![entry(1, 0, "/b", "one"), entry(2, 0, "", "two")];
    assert_eq!(by_directory(&es, ""), es);
}

#[test]
fn prefix_filter() {
    let es = vec![entry(1, 0, "/a", "ls"), entry(2, 0, "/a", "cd"), entry(3, 0, "/a", "lsblk")];
    assert_eq!(by_prefix(&es, ""), es);
    let kept: Vec<String> = by_prefix(&es, "ls").into_iter().map(|e| e.command).collect();
    assert_eq!(kept, vec!["ls", "lsblk"]);
    assert_eq!(by_prefix(&es, "LS"), vec![]);
    let h = loaded(b": 1:0;/a;ls\0: 2:0;/b;lsof\0: 3:0;/a;cd");
    assert_eq!(h.read_all_with("/b", "ls").unwrap(), vec![entry(2, 0, "/b", "lsof"), entry(1, 0, "/a", "ls")]);
}

#[test]
fn dedup_first_wins_and_idempotent() {
    let es = vec![
        entry(1, 0, "/a", "b"),
        entry(2, 0, "/a", "a"),
        entry(3, 0, "/a", "b"),
        entry(4, 0, "/a", "c"),
        entry(5, 0, "/a", "a"),
    ];
    let once = dedup_commands(&es);
    assert_eq!(once, vec!["b", "a", "c"]);
    let again: Vec<HistoryEntry> = once.iter().map(|c| entry(0, 0, "/a", c)).collect();
    assert_eq!(dedup_commands(&again), once);
}

#[test]
fn bytes_taken_once() {
    let mut h = HistoryFile::new("/tmp/history".to_string());
    assert!(h.needs_read());
    h.load_bytes(b": 1:0;/a;first".to_vec());
    assert!(!h.needs_read());
    h.load_bytes(b": 1:0;/a;second".to_vec());
    assert_eq!(h.read_commands_with("", "").unwrap(), vec!["first"]);
    assert_eq!(h.read_commands_with("", "").unwrap(), vec!["first"]);
    assert_eq!(h.path(), "/tmp/history");
}

#[test]
fn locate_history_file() {
    let f = HistoryFile::locate(Some("/x/hist".to_string()), Some("/home/u".to_string())).unwrap();
    assert_eq!(f.path(), "/x/hist");
    let f = HistoryFile::locate(None, Some("/home/u".to_string())).unwrap();
    assert_eq!(f.path(), "/home/u/.directory_history");
    let f = HistoryFile::locate(None, Some("/home/u/".to_string())).unwrap();
    assert_eq!(f.path(), "/home/u/.directory_history");
    assert!(f.needs_read());
    assert_eq!(HistoryFile::locate(None, None).err(), Some(HistoryError::Config));
}

#[test]
fn joined_output() {
    let cmds = vec!["ls".to_string(), "ls -l".to_string()];
    assert_eq!(render_commands(&cmds), "ls\0\nls -l");
    assert_eq!(render_commands(&vec!["one".to_string()]), "one");
    assert_eq!(render_commands(&vec![]), "");
}

#[test]
fn command_keeps_later_separators() {
    let e: HistoryEntry = "x:5;/d;a; b;c".parse().unwrap();
    assert_eq!(e, entry(5, 0, "/d", "a; b;c"));
    let e: HistoryEntry = ":  7 : 3 ; /d ;ls ".parse().unwrap();
    assert_eq!(e, entry(7, 3, " /d ", "ls "));
    let r: Result<HistoryEntry, HistoryError> = ": 1:abc;/a;ls".parse();
    assert_eq!(r, Err(HistoryError::MalformedRecord(": 1:abc;/a;ls".to_string())));
}

#[test]
fn blank_record_between_nuls_changes_nothing() {
    let with_blank = loaded(b": 1:0;/a;ls\0 \t \0: 2:0;/b;cd");
    let without = loaded(b": 1:0;/a;ls\0: 2:0;/b;cd");
    assert_eq!(with_blank.read_all().unwrap(), without.read_all().unwrap());
}
