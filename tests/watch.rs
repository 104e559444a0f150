use log_viewer::watch::WatchState;

fn texts(lines: &[Vec<u8>]) -> Vec<&[u8]> {
    lines.iter().map(|l| l.as_slice()).collect()
}

#[test]
fn starts_at_end_of_file() {
    let s = WatchState::new(42);
    assert_eq!(s.offset(), 42);
}

#[test]
fn appended_lines_are_shown_once_in_order() {
    let mut file: Vec<u8> = b"old content\n".to_vec();
    let mut s = WatchState::new(file.len() as u64);

    file.extend_from_slice(b"one\ntwo\nthr");
    assert!(!s.check_length(file.len() as u64));
    let start = s.offset() as usize;
    let lines = s.take_lines(&file[start..]);
    assert_eq!(texts(&lines), vec![&b"one\n"[..], b"two\n"]);
    assert_eq!(s.offset(), 20);

    file.extend_from_slice(b"ee\nfour\n");
    assert!(!s.check_length(file.len() as u64));
    let start = s.offset() as usize;
    let lines = s.take_lines(&file[start..]);
    assert_eq!(texts(&lines), vec![&b"three\n"[..], b"four\n"]);
    assert_eq!(s.offset(), file.len() as u64);
}

#[test]
fn tick_without_new_content_shows_nothing() {
    let mut s = WatchState::new(5);
    assert!(!s.check_length(5));
    let lines = s.take_lines(b"");
    assert!(lines.is_empty());
    assert_eq!(s.offset(), 5);
}

#[test]
fn partial_line_waits_for_its_newline() {
    let mut s = WatchState::new(0);
    let lines = s.take_lines(b"no newline yet");
    assert!(lines.is_empty());
    assert_eq!(s.offset(), 0);
}

#[test]
fn empty_lines_are_lines() {
    let mut s = WatchState::new(3);
    let lines = s.take_lines(b"\n\nx\n");
    assert_eq!(texts(&lines), vec![&b"\n"[..], b"\n", b"x\n"]);
    assert_eq!(s.offset(), 7);
}

#[test]
fn truncated_file_is_cleared_once_and_read_from_start() {
    let mut s = WatchState::new(100);
    assert!(s.check_length(10));
    assert_eq!(s.offset(), 0);
    let file = b"new first\nhalf";
    let lines = s.take_lines(file);
    assert_eq!(texts(&lines), vec![&b"new first\n"[..]]);
    assert_eq!(s.offset(), 10);
    assert!(!s.check_length(file.len() as u64));
    assert_eq!(s.offset(), 10);
    assert!(!s.check_length(30));
}

#[test]
fn same_length_is_not_a_truncation() {
    let mut s = WatchState::new(8);
    assert!(!s.check_length(8));
    assert_eq!(s.offset(), 8);
    assert!(s.check_length(7));
    assert_eq!(s.offset(), 0);
}
