use bloomy::storage::wal::{encode_record, write_header, write_record, WalRecord, FILE_HEADER_BYTES};
use bloomy::viewer::{
    detail_texts, inspect_wal_bytes, preview_key, preview_value, record_line, truncate_chars,
    usage, RecordBrowser, RecordKind, ViewedRecord, ViewerAction, ViewerArgs, ViewerArgsError,
    ViewerKey, ViewerState, ViewerStatus, WalSnapshot,
};

fn args(list: &[&str]) -> Vec<String> {
    list.iter().map(|s| s.to_string()).collect()
}

#[test]
fn viewer_args_default_to_tailing_one_path() {
    let parsed = ViewerArgs::parse(args(&["data/bloomy.wal"])).unwrap();
    assert_eq!(parsed, ViewerArgs { path: "data/bloomy.wal".to_string(), tail: true });
    let parsed = ViewerArgs::parse(args(&["--snapshot", "x.wal"])).unwrap();
    assert!(!parsed.tail);
    let parsed = ViewerArgs::parse(args(&["--snapshot", "x.wal", "--tail"])).unwrap();
    assert!(parsed.tail);
}

#[test]
fn viewer_args_refusals() {
    assert_eq!(ViewerArgs::parse(args(&[])).unwrap_err(), ViewerArgsError::MissingPath);
    assert_eq!(ViewerArgs::parse(args(&["a", "b"])).unwrap_err(), ViewerArgsError::ExtraPath);
    assert_eq!(ViewerArgs::parse(args(&["-h", "a"])).unwrap_err(), ViewerArgsError::Help);
    assert_eq!(ViewerArgs::parse(args(&["--help"])).unwrap_err().message(), usage());
    let error = ViewerArgs::parse(args(&["a", "--bogus", "b"])).unwrap_err();
    assert_eq!(
        error.message(),
        format!("unknown argument: --bogus\n\n{}", usage())
    );
    assert_eq!(
        ViewerArgs::parse(args(&["a", "b"])).unwrap_err().message(),
        format!("expected one WAL path\n\n{}", usage())
    );
}

#[test]
fn truncate_chars_keeps_short_text_and_marks_long_text() {
    assert_eq!(truncate_chars("hello", 5), "hello");
    assert_eq!(truncate_chars("hello", 3), "hel...");
    assert_eq!(truncate_chars("", 0), "");
    assert_eq!(truncate_chars("héllo wörld", 4), "héll...");
}

#[test]
fn previews_show_text_or_binary_placeholder() {
    assert_eq!(preview_value(b"plain", 96), "plain");
    assert_eq!(preview_value(&[0xff, 0xfe], 96), "<binary 2 bytes>");
    assert_eq!(preview_value("ünïcode".as_bytes(), 3), "ünï...");
    assert_eq!(preview_key(b"key", 36), "key");
    assert_eq!(preview_key(b"a\nb", 36), "<binary 3 bytes>");
    assert_eq!(preview_key(&[0xc3], 36), "<binary 1 bytes>");
    assert_eq!(preview_key("\u{85}".as_bytes(), 36), "<binary 2 bytes>");
    assert_eq!(preview_key("abcdef".as_bytes(), 2), "ab...");
}

fn viewed(index: usize) -> ViewedRecord {
    ViewedRecord::from_record(
        index,
        0,
        1,
        WalRecord::Delete { key: vec![index as u8 + 1] },
    )
}

#[test]
fn browser_moves_within_the_records() {
    let mut browser = RecordBrowser::new();
    assert!(browser.selected_record().is_none());
    browser.next();
    assert_eq!(browser.selected(), 0);
    browser.replace(vec![viewed(0), viewed(1), viewed(2)]);
    browser.next();
    browser.next();
    browser.next();
    assert_eq!(browser.selected(), 2);
    browser.previous();
    assert_eq!(browser.selected_record().unwrap().index, 1);
    browser.select_first();
    browser.previous();
    assert_eq!(browser.selected(), 0);
    browser.select_last();
    assert_eq!(browser.selected(), 2);
    browser.replace(vec![viewed(0)]);
    assert_eq!(browser.selected(), 0);
    browser.replace(Vec::new());
    assert_eq!(browser.selected(), 0);
    assert!(browser.records().is_empty());
}

#[test]
fn from_record_keeps_kind_key_and_value() {
    let put = ViewedRecord::from_record(3, 10, 30, WalRecord::Put { key: b"k".to_vec(), value: b"v".to_vec() });
    assert_eq!(put.kind, RecordKind::Put);
    assert_eq!(put.value, Some(b"v".to_vec()));
    assert_eq!((put.index, put.offset, put.end_offset), (3, 10, 30));
    let delete = ViewedRecord::from_record(0, 0, 0, WalRecord::Delete { key: b"k".to_vec() });
    assert_eq!(delete.kind, RecordKind::Delete);
    assert_eq!(delete.value, None);
    assert_eq!(delete.key, b"k".to_vec());
}

#[test]
fn inspect_lists_records_with_offsets() {
    let mut log = Vec::new();
    write_header(&mut log);
    let first = WalRecord::Put { key: b"alpha".to_vec(), value: b"1".to_vec() };
    let second = WalRecord::Delete { key: b"alpha".to_vec() };
    write_record(&mut log, &first).unwrap();
    let boundary = log.len() as u64;
    write_record(&mut log, &second).unwrap();
    let clean = inspect_wal_bytes(&log).unwrap();
    assert_eq!(clean.records.len(), 2);
    assert_eq!(clean.records[0].offset, FILE_HEADER_BYTES as u64);
    assert_eq!(clean.records[0].end_offset, boundary);
    assert_eq!(clean.records[1].offset, boundary);
    assert_eq!(clean.records[1].index, 1);
    assert_eq!(clean.records[1].kind, RecordKind::Delete);
    assert_eq!(clean.status, ViewerStatus::CleanEof { offset: log.len() as u64 });

    let end = log.len() as u64;
    let mut partial = encode_record(&first).unwrap();
    partial.truncate(3);
    log.extend_from_slice(&partial);
    let cut = inspect_wal_bytes(&log).unwrap();
    assert_eq!(cut.records.len(), 2);
    assert_eq!(cut.status, ViewerStatus::PartialTail { offset: end });
}

#[test]
fn inspect_waits_for_header_and_reports_corruption() {
    let waiting = inspect_wal_bytes(b"BLOOM").unwrap();
    assert!(waiting.records.is_empty());
    assert_eq!(
        waiting.status,
        ViewerStatus::Waiting("waiting for WAL header: 5 / 10 bytes".to_string())
    );
    let error = inspect_wal_bytes(b"NOTAWAL!\x01\x00").unwrap_err();
    assert_eq!(error.message(), "invalid WAL file magic");
}

#[test]
fn usage_names_the_viewer() {
    assert_eq!(usage(), "usage: bloomy-viewer [--tail|--snapshot] path/to/bloomy.wal");
}

#[test]
fn viewer_args_accept_flags_and_one_path_in_any_order() {
    let parsed = ViewerArgs::parse(args(&["--tail", "--snapshot", "--tail", "--snapshot", "p"])).unwrap();
    assert_eq!(parsed, ViewerArgs { path: "p".to_string(), tail: false });
    let parsed = ViewerArgs::parse(args(&["p", "--snapshot", "--tail"])).unwrap();
    assert_eq!(parsed, ViewerArgs { path: "p".to_string(), tail: true });
    assert_eq!(
        ViewerArgs::parse(args(&["--snapshot", "--tail"])).unwrap_err(),
        ViewerArgsError::MissingPath
    );
    assert_eq!(
        ViewerArgs::parse(args(&["-x"])).unwrap_err(),
        ViewerArgsError::UnknownArgument { arg: "-x".to_string() }
    );
}

fn snapshot(count: usize) -> WalSnapshot {
    WalSnapshot {
        records: (0..count).map(viewed).collect(),
        status: ViewerStatus::CleanEof { offset: 10 },
    }
}

#[test]
fn viewer_state_starts_waiting() {
    let state = ViewerState::new(true);
    assert!(state.tail());
    assert_eq!(state.status(), &ViewerStatus::Waiting("opening WAL".to_string()));
    assert!(state.browser().records().is_empty());
}

#[test]
fn viewer_tick_refreshes_only_when_tailing_after_the_interval() {
    let tailing = ViewerState::new(true);
    assert_eq!(tailing.on_tick(249), ViewerAction::Continue);
    assert_eq!(tailing.on_tick(250), ViewerAction::Refresh);
    assert_eq!(tailing.on_tick(u64::MAX), ViewerAction::Refresh);
    let snapshot_only = ViewerState::new(false);
    assert_eq!(snapshot_only.on_tick(10_000), ViewerAction::Continue);
}

#[test]
fn viewer_keys_move_quit_refresh_and_toggle() {
    let mut state = ViewerState::new(true);
    state.apply_refresh(Ok(snapshot(3)));
    assert_eq!(state.status(), &ViewerStatus::CleanEof { offset: 10 });
    assert_eq!(state.on_key(ViewerKey::Down), ViewerAction::Continue);
    assert_eq!(state.browser().selected(), 1);
    assert_eq!(state.on_key(ViewerKey::Char('j')), ViewerAction::Continue);
    assert_eq!(state.on_key(ViewerKey::Char('j')), ViewerAction::Continue);
    assert_eq!(state.browser().selected(), 2);
    assert_eq!(state.on_key(ViewerKey::Char('k')), ViewerAction::Continue);
    assert_eq!(state.browser().selected(), 1);
    assert_eq!(state.on_key(ViewerKey::Up), ViewerAction::Continue);
    assert_eq!(state.on_key(ViewerKey::Up), ViewerAction::Continue);
    assert_eq!(state.browser().selected(), 0);
    assert_eq!(state.on_key(ViewerKey::End), ViewerAction::Continue);
    assert_eq!(state.browser().selected(), 2);
    assert_eq!(state.on_key(ViewerKey::Home), ViewerAction::Continue);
    assert_eq!(state.browser().selected(), 0);
    assert_eq!(state.on_key(ViewerKey::Char('r')), ViewerAction::Refresh);
    assert!(state.tail());
    assert_eq!(state.on_key(ViewerKey::Char('t')), ViewerAction::Refresh);
    assert!(!state.tail());
    assert_eq!(state.on_key(ViewerKey::Char('x')), ViewerAction::Continue);
    assert_eq!(state.on_key(ViewerKey::Other), ViewerAction::Continue);
    assert_eq!(state.browser().selected(), 0);
    assert_eq!(state.on_key(ViewerKey::Char('q')), ViewerAction::Quit);
    assert_eq!(state.on_key(ViewerKey::Esc), ViewerAction::Quit);
    assert!(!state.tail());
    assert_eq!(state.browser().records().len(), 3);
}

#[test]
fn viewer_refresh_failure_keeps_records() {
    let mut state = ViewerState::new(false);
    state.apply_refresh(Ok(snapshot(2)));
    state.on_key(ViewerKey::End);
    state.apply_refresh(Err("checksum mismatch".to_string()));
    assert_eq!(state.status(), &ViewerStatus::Corrupt("checksum mismatch".to_string()));
    assert_eq!(state.browser().records().len(), 2);
    assert_eq!(state.browser().selected(), 1);
    state.apply_refresh(Ok(snapshot(1)));
    assert_eq!(state.browser().selected(), 0);
}

#[test]
fn record_line_aligns_columns() {
    let put = ViewedRecord::from_record(3, 10, 31, WalRecord::Put { key: b"alpha".to_vec(), value: b"1".to_vec() });
    assert_eq!(record_line(&put), "#3            10..31         PUT    key=alpha");
    let delete = ViewedRecord::from_record(12345, 1234567890123, 1234567890140, WalRecord::Delete { key: vec![0xff] });
    assert_eq!(
        record_line(&delete),
        "#12345 1234567890123..1234567890140 DELETE key=<binary 1 bytes>"
    );
}

#[test]
fn detail_texts_describe_put_and_tombstone() {
    let put = ViewedRecord::from_record(0, 10, 31, WalRecord::Put { key: b"alpha".to_vec(), value: b"hello".to_vec() });
    assert_eq!(
        detail_texts(&put),
        vec![
            "index       0".to_string(),
            "offset      10".to_string(),
            "end offset  31".to_string(),
            "bytes       21".to_string(),
            "kind        PUT".to_string(),
            "key len     5".to_string(),
            "value len   5".to_string(),
            "value       hello".to_string(),
        ]
    );
    let delete = ViewedRecord::from_record(7, 31, 49, WalRecord::Delete { key: b"alpha".to_vec() });
    let lines = detail_texts(&delete);
    assert_eq!(lines[3], "bytes       18");
    assert_eq!(lines[4], "kind        DELETE");
    assert_eq!(lines[6], "value len   0");
    assert_eq!(lines[7], "value       tombstone");
}

#[test]
fn inspect_gives_puts_their_values_even_when_empty() {
    let mut log = Vec::new();
    write_header(&mut log);
    write_record(&mut log, &WalRecord::Put { key: b"k".to_vec(), value: Vec::new() }).unwrap();
    let snap = inspect_wal_bytes(&log).unwrap();
    assert_eq!(snap.records[0].kind, RecordKind::Put);
    assert_eq!(snap.records[0].value, Some(Vec::new()));
}
