use ui_core::Match;
use ui_core::SimpleSinkError;
use ui_core::matching::match_indices;

#[test]
fn finds_every_occurrence() {
    let r = match_indices(b"abcabcab", b"ab");
    assert_eq!(r, vec![0, 3, 6]);
}

#[test]
fn occurrences_do_not_overlap() {
    let r = match_indices(b"aaaa", b"aa");
    assert_eq!(r, vec![0, 2]);
}

#[test]
fn missing_needle_finds_nothing() {
    let r = match_indices(b"abcdef", b"xy");
    assert_eq!(r, Vec::<usize>::new());
}

#[test]
fn empty_needle_matches_every_position() {
    let r = match_indices(b"ab", b"");
    assert_eq!(r, vec![0, 1, 2]);
}

#[test]
fn needle_longer_than_hay_finds_nothing() {
    let r = match_indices(b"ab", b"abc");
    assert_eq!(r, Vec::<usize>::new());
}

#[test]
fn match_records_carry_columns_and_context() {
    let line = b"say hello, hello world".as_slice();
    let buffer = b"say hello, hello world\n".as_slice();
    let r = Match::from_sink_match_with_path(
        "hello",
        Some(line),
        buffer,
        Some("src/main.c"),
        Some(7),
    )
    .expect("a line was given");
    assert_eq!(r.len(), 2);
    assert_eq!(r[0].column, 5);
    assert_eq!(r[1].column, 12);
    assert_eq!(r[0].path, "src/main.c");
    assert_eq!(r[0].line_number, Some(7));
    assert_eq!(r[0].text, buffer.to_vec());
}

#[test]
fn missing_line_is_the_no_line_error() {
    let r = Match::from_sink_match_with_path("hello", None, b"", Some("p"), None);
    match r {
        Err(e) => assert_eq!(e, SimpleSinkError::NoLine),
        Ok(_) => panic!("a missing line must be reported"),
    }
}

#[test]
fn missing_path_becomes_empty() {
    let r = Match::from_sink_match_with_path("a", Some(b"abc"), b"abc", None, None)
        .expect("a line was given");
    assert_eq!(r.len(), 1);
    assert_eq!(r[0].path, "");
    assert_eq!(r[0].line_number, None);
}
