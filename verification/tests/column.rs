use filedb::callback::{ForEachResultValue, RemoveResultValue, SelectResultValue};
use filedb::C;

fn docs() -> C {
    let mut c = C::new("docs", Vec::new());
    c.insert(b"alpha");
    c.insert(b"beta");
    c.insert(b"gamma");
    c
}

fn collect(c: &C) -> Vec<(usize, Vec<u8>)> {
    let mut seen: Vec<(usize, Vec<u8>)> = Vec::new();
    c.for_each(|index, bytes| {
        seen.push((index, bytes));
        ForEachResultValue::new(false)
    });
    seen
}

#[test]
fn new_keeps_path_and_bytes() {
    let c = C::new("/tmp/store/docs.filedb", b"one\ntwo\n".to_vec());
    assert_eq!(c.get_path(), "/tmp/store/docs.filedb");
    assert_eq!(c.as_bytes(), b"one\ntwo\n");
}

#[test]
fn insert_appends_record_and_terminator() {
    let mut c = C::new("docs", Vec::new());
    c.insert(b"alpha");
    assert_eq!(c.as_bytes(), b"alpha\n");
    c.insert(b"beta");
    assert_eq!(c.as_bytes(), b"alpha\nbeta\n");
    assert_eq!(c.get_path(), "docs");
}

#[test]
fn insert_then_for_each_yields_records_in_order() {
    let c = docs();
    let mut seen: Vec<(usize, Vec<u8>)> = Vec::new();
    let count = c.for_each(|index, bytes| {
        seen.push((index, bytes));
        ForEachResultValue::new(false)
    });
    assert_eq!(count, 3);
    assert_eq!(
        seen,
        vec![
            (0, b"alpha".to_vec()),
            (1, b"beta".to_vec()),
            (2, b"gamma".to_vec()),
        ]
    );
}

#[test]
fn for_each_does_not_change_the_column() {
    let c = docs();
    collect(&c);
    assert_eq!(c.as_bytes(), b"alpha\nbeta\ngamma\n");
}

#[test]
fn append_round_trip_of_many_records() {
    let mut c = C::new("many", Vec::new());
    let mut expected: Vec<(usize, Vec<u8>)> = Vec::new();
    for i in 0..50usize {
        let record = format!("record-{}", i * 7).into_bytes();
        c.insert(&record);
        expected.push((i, record));
    }
    assert_eq!(collect(&c), expected);
}

#[test]
fn select_each_drops_the_record_that_is_not_kept() {
    let mut c = docs();
    let count = c.select_each(|index, bytes| SelectResultValue::new(index != 1, bytes, false));
    assert_eq!(count, 3);
    assert_eq!(c.as_bytes(), b"alpha\ngamma\n");
    assert_eq!(
        collect(&c),
        vec![(0, b"alpha".to_vec()), (1, b"gamma".to_vec())]
    );
}

#[test]
fn for_each_stops_after_the_record_that_says_stop() {
    let c = docs();
    let mut seen: Vec<(usize, Vec<u8>)> = Vec::new();
    let count = c.for_each(|index, bytes| {
        seen.push((index, bytes));
        ForEachResultValue::new(index == 1)
    });
    assert_eq!(count, 2);
    assert_eq!(
        seen,
        vec![(0, b"alpha".to_vec()), (1, b"beta".to_vec())]
    );
}

#[test]
fn for_each_stop_on_first_record_counts_one() {
    let c = docs();
    let count = c.for_each(|_, _| ForEachResultValue::new(true));
    assert_eq!(count, 1);
}

#[test]
fn select_each_writes_the_data_of_the_answer() {
    let mut c = docs();
    let count =
        c.select_each(|_, bytes| SelectResultValue::new(true, bytes.to_ascii_uppercase(), false));
    assert_eq!(count, 3);
    assert_eq!(c.as_bytes(), b"ALPHA\nBETA\nGAMMA\n");
    assert_eq!(
        collect(&c),
        vec![
            (0, b"ALPHA".to_vec()),
            (1, b"BETA".to_vec()),
            (2, b"GAMMA".to_vec()),
        ]
    );
}

#[test]
fn empty_column_scans_nothing() {
    let mut c = C::new("empty", Vec::new());
    let mut calls = 0;
    let count = c.for_each(|_, _| {
        calls += 1;
        ForEachResultValue::new(false)
    });
    assert_eq!(count, 0);
    assert_eq!(calls, 0);
    let count = c.select_each(|_, bytes| {
        calls += 1;
        SelectResultValue::new(true, bytes, false)
    });
    assert_eq!(count, 0);
    assert_eq!(calls, 0);
    assert_eq!(c.as_bytes().len(), 0);
    let count = c.remove_each(|_, _| {
        calls += 1;
        RemoveResultValue::new(false, false)
    });
    assert_eq!(count, 0);
    assert_eq!(calls, 0);
    assert_eq!(c.as_bytes().len(), 0);
}

#[test]
fn select_each_stop_with_keep_on_single_record() {
    let mut c = C::new("x", Vec::new());
    c.insert(b"x");
    let count = c.select_each(|_, bytes| SelectResultValue::new(true, bytes, true));
    assert_eq!(count, 1);
    assert_eq!(c.as_bytes(), b"x\n");
}

#[test]
fn select_identity_leaves_the_column_as_it_was() {
    let mut c = docs();
    let before = c.as_bytes().to_vec();
    let count = c.select_each(|_, bytes| SelectResultValue::new(true, bytes, false));
    assert_eq!(count, 3);
    assert_eq!(c.as_bytes(), &before[..]);
    assert_eq!(c.get_path(), "docs");
}

#[test]
fn select_identity_terminates_a_dangling_record() {
    let mut c = C::new("torn", b"alpha\nbet".to_vec());
    let count = c.select_each(|_, bytes| SelectResultValue::new(true, bytes, false));
    assert_eq!(count, 2);
    assert_eq!(c.as_bytes(), b"alpha\nbet\n");
}

#[test]
fn select_drop_all_leaves_zero_bytes() {
    let mut c = docs();
    let count = c.select_each(|_, bytes| SelectResultValue::new(false, bytes, false));
    assert_eq!(count, 3);
    assert_eq!(c.as_bytes().len(), 0);
    assert_eq!(collect(&c), vec![]);
}

#[test]
fn select_each_stop_drops_the_records_behind() {
    let mut c = docs();
    let mut seen: Vec<usize> = Vec::new();
    let count = c.select_each(|index, bytes| {
        seen.push(index);
        SelectResultValue::new(true, bytes, index == 1)
    });
    assert_eq!(count, 2);
    assert_eq!(seen, vec![0, 1]);
    assert_eq!(c.as_bytes(), b"alpha\nbeta\n");
}

#[test]
fn select_each_stop_without_keep_drops_that_record_too() {
    let mut c = docs();
    let count = c.select_each(|index, bytes| SelectResultValue::new(index != 1, bytes, index == 1));
    assert_eq!(count, 2);
    assert_eq!(c.as_bytes(), b"alpha\n");
}

#[test]
fn select_each_shows_records_with_their_indices() {
    let mut c = docs();
    let mut seen: Vec<(usize, Vec<u8>)> = Vec::new();
    c.select_each(|index, bytes| {
        seen.push((index, bytes.clone()));
        SelectResultValue::new(true, bytes, false)
    });
    assert_eq!(
        seen,
        vec![
            (0, b"alpha".to_vec()),
            (1, b"beta".to_vec()),
            (2, b"gamma".to_vec()),
        ]
    );
}

#[test]
fn select_each_may_write_a_record_that_splits() {
    let mut c = C::new("split", Vec::new());
    c.insert(b"one");
    c.select_each(|_, _| SelectResultValue::new(true, b"a\nb".to_vec(), false));
    assert_eq!(c.as_bytes(), b"a\nb\n");
    assert_eq!(collect(&c), vec![(0, b"a".to_vec()), (1, b"b".to_vec())]);
}

#[test]
fn empty_record_is_kept() {
    let mut c = C::new("blank", Vec::new());
    c.insert(b"");
    assert_eq!(c.as_bytes(), b"\n");
    let seen = collect(&c);
    assert_eq!(seen.len(), 1);
    assert_eq!(seen[0].0, 0);
    assert_eq!(seen[0].1.len(), 0);
}

#[test]
fn empty_record_between_others_is_kept() {
    let mut c = C::new("blank", Vec::new());
    c.insert(b"a");
    c.insert(b"");
    c.insert(b"b");
    assert_eq!(
        collect(&c),
        vec![(0, b"a".to_vec()), (1, Vec::new()), (2, b"b".to_vec())]
    );
}

#[test]
fn inserted_line_feed_splits_the_record() {
    let mut c = C::new("raw", Vec::new());
    c.insert(b"a\nb");
    assert_eq!(c.as_bytes(), b"a\nb\n");
    assert_eq!(collect(&c), vec![(0, b"a".to_vec()), (1, b"b".to_vec())]);
}

#[test]
fn record_without_terminator_is_still_shown() {
    let c = C::new("torn", b"alpha\nbet".to_vec());
    assert_eq!(
        collect(&c),
        vec![(0, b"alpha".to_vec()), (1, b"bet".to_vec())]
    );
}

#[test]
fn insert_behind_a_dangling_record_joins_it() {
    let mut c = C::new("torn", b"alpha\nbet".to_vec());
    c.insert(b"a");
    assert_eq!(c.as_bytes(), b"alpha\nbeta\n");
    assert_eq!(
        collect(&c),
        vec![(0, b"alpha".to_vec()), (1, b"beta".to_vec())]
    );
}

#[test]
fn carriage_return_belongs_to_the_record() {
    let c = C::new("crlf", b"a\r\nb\r\n".to_vec());
    assert_eq!(
        collect(&c),
        vec![(0, b"a\r".to_vec()), (1, b"b\r".to_vec())]
    );
}

#[test]
fn bytes_that_are_not_text_are_records_too() {
    let mut c = C::new("bin", Vec::new());
    c.insert(&[0xff, 0x00, 0xfe]);
    assert_eq!(c.as_bytes(), &[0xff, 0x00, 0xfe, 0x0a]);
    assert_eq!(collect(&c), vec![(0, vec![0xff, 0x00, 0xfe])]);
}

#[test]
fn remove_each_drops_the_records_marked() {
    let mut c = docs();
    let count = c.remove_each(|index, _| RemoveResultValue::new(index == 1, false));
    assert_eq!(count, 3);
    assert_eq!(c.as_bytes(), b"alpha\ngamma\n");
}

#[test]
fn remove_each_keeps_everything_when_nothing_is_marked() {
    let mut c = docs();
    let count = c.remove_each(|_, _| RemoveResultValue::new(false, false));
    assert_eq!(count, 3);
    assert_eq!(c.as_bytes(), b"alpha\nbeta\ngamma\n");
}

#[test]
fn remove_each_removes_everything_when_all_is_marked() {
    let mut c = docs();
    let count = c.remove_each(|_, _| RemoveResultValue::new(true, false));
    assert_eq!(count, 3);
    assert_eq!(c.as_bytes().len(), 0);
}

#[test]
fn remove_each_stop_drops_the_records_behind() {
    let mut c = docs();
    let mut seen: Vec<(usize, Vec<u8>)> = Vec::new();
    let count = c.remove_each(|index, bytes| {
        seen.push((index, bytes));
        RemoveResultValue::new(false, index == 0)
    });
    assert_eq!(count, 1);
    assert_eq!(seen, vec![(0, b"alpha".to_vec())]);
    assert_eq!(c.as_bytes(), b"alpha\n");
}

#[test]
fn remove_each_by_content() {
    let mut c = docs();
    let count = c.remove_each(|_, bytes| RemoveResultValue::new(bytes.starts_with(b"g"), false));
    assert_eq!(count, 3);
    assert_eq!(c.as_bytes(), b"alpha\nbeta\n");
}

#[test]
fn scans_keep_the_path() {
    let mut c = docs();
    c.select_each(|_, bytes| SelectResultValue::new(false, bytes, false));
    assert_eq!(c.get_path(), "docs");
    c.insert(b"z");
    c.remove_each(|_, _| RemoveResultValue::new(true, false));
    assert_eq!(c.get_path(), "docs");
}
