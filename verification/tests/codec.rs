use filedb::codec::{append_record, decode_records, encode_record, next_record, LF};

#[test]
fn terminator_is_line_feed() {
    assert_eq!(LF, 0x0a);
    assert_eq!(LF, b'\n');
}

#[test]
fn encode_record_adds_the_terminator() {
    assert_eq!(encode_record(b"alpha"), b"alpha\n".to_vec());
    assert_eq!(encode_record(b""), b"\n".to_vec());
    assert_eq!(encode_record(b"a\nb"), b"a\nb\n".to_vec());
}

#[test]
fn append_record_writes_behind_what_is_there() {
    let mut out = b"one\n".to_vec();
    append_record(&mut out, b"two");
    assert_eq!(out, b"one\ntwo\n".to_vec());
    append_record(&mut out, b"");
    assert_eq!(out, b"one\ntwo\n\n".to_vec());
}

#[test]
fn decode_of_nothing_is_no_record() {
    assert_eq!(decode_records(b""), Vec::<Vec<u8>>::new());
}

#[test]
fn decode_splits_on_line_feed() {
    assert_eq!(
        decode_records(b"alpha\nbeta\ngamma\n"),
        vec![b"alpha".to_vec(), b"beta".to_vec(), b"gamma".to_vec()]
    );
}

#[test]
fn decode_trailing_line_feed_opens_no_record() {
    assert_eq!(decode_records(b"x\n"), vec![b"x".to_vec()]);
}

#[test]
fn decode_two_line_feeds_hold_an_empty_record() {
    assert_eq!(
        decode_records(b"a\n\nb\n"),
        vec![b"a".to_vec(), Vec::new(), b"b".to_vec()]
    );
    assert_eq!(decode_records(b"\n"), vec![Vec::<u8>::new()]);
    assert_eq!(decode_records(b"\n\n"), vec![Vec::<u8>::new(), Vec::new()]);
}

#[test]
fn decode_yields_a_last_record_without_terminator() {
    assert_eq!(
        decode_records(b"a\nbc"),
        vec![b"a".to_vec(), b"bc".to_vec()]
    );
    assert_eq!(decode_records(b"bc"), vec![b"bc".to_vec()]);
}

#[test]
fn decode_keeps_carriage_returns() {
    assert_eq!(decode_records(b"a\r\n"), vec![b"a\r".to_vec()]);
}

#[test]
fn decode_after_encode_gives_the_records_back() {
    let records: Vec<Vec<u8>> = vec![
        b"alpha".to_vec(),
        Vec::new(),
        vec![0, 255, 9, 13],
        b"omega".to_vec(),
    ];
    let mut column: Vec<u8> = Vec::new();
    for record in &records {
        append_record(&mut column, record);
    }
    assert_eq!(decode_records(&column), records);
}

#[test]
fn encode_after_decode_gives_the_column_back() {
    let column = b"a\n\nbcd\n\n\nz\n".to_vec();
    let mut again: Vec<u8> = Vec::new();
    for record in decode_records(&column) {
        append_record(&mut again, &record);
    }
    assert_eq!(again, column);
}

#[test]
fn encode_after_decode_terminates_a_dangling_record() {
    let mut again: Vec<u8> = Vec::new();
    for record in decode_records(b"a\nb") {
        append_record(&mut again, &record);
    }
    assert_eq!(again, b"a\nb\n".to_vec());
}

#[test]
fn next_record_walks_the_column() {
    let column = b"ab\n\ncd";
    assert_eq!(next_record(column, 0), Some((b"ab".to_vec(), 3)));
    assert_eq!(next_record(column, 3), Some((Vec::new(), 4)));
    assert_eq!(next_record(column, 4), Some((b"cd".to_vec(), 6)));
    assert_eq!(next_record(column, 6), None);
    assert_eq!(next_record(column, 7), None);
}

#[test]
fn next_record_from_the_middle_of_a_record() {
    assert_eq!(next_record(b"abc\nd\n", 1), Some((b"bc".to_vec(), 4)));
}

#[test]
fn next_record_at_end_of_empty_column() {
    assert_eq!(next_record(b"", 0), None);
}
