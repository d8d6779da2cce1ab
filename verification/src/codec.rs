//! The record codec: byte records framed by a line feed.
//!
//! A column is a byte string in which every record is followed by one line
//! feed. Nothing is escaped: a record that holds a line feed reads back as
//! several records.

use vstd::prelude::*;

verus! {

/// The byte that ends a record.
pub const LF: u8 = 10;

/// A record as it stands in a column: its bytes and the terminator.
pub open spec fn encode(record: Seq<u8>) -> Seq<u8> {
    record.push(LF)
}

/// The column that holds exactly `records`, in order.
pub open spec fn encode_all(records: Seq<Seq<u8>>) -> Seq<u8>
    decreases records.len(),
{
    if records.len() == 0 {
        Seq::empty()
    } else {
        encode_all(records.drop_last()) + encode(records.last())
    }
}

/// The number of bytes before the first line feed of `bytes`, or its length
/// where it holds none.
pub open spec fn head_len(bytes: Seq<u8>) -> nat
    decreases bytes.len(),
{
    if bytes.len() == 0 || bytes[0] == LF {
        0
    } else {
        1 + head_len(bytes.skip(1))
    }
}

/// The records of a column: the pieces between line feeds. A line feed at
/// the very end opens no further record; bytes after the last line feed are
/// a record of their own.
pub open spec fn decode(bytes: Seq<u8>) -> Seq<Seq<u8>>
    decreases bytes.len(),
{
    if bytes.len() == 0 {
        Seq::empty()
    } else {
        let n = head_len(bytes) as int;
        if n < bytes.len() {
            seq![bytes.take(n)] + decode(bytes.skip(n + 1))
        } else {
            seq![bytes]
        }
    }
}

/// No byte of `record` is a line feed.
pub open spec fn plain(record: Seq<u8>) -> bool {
    forall|i: int| 0 <= i < record.len() ==> record[i] != LF
}

/// Every record of `records` is free of line feeds.
pub open spec fn all_plain(records: Seq<Seq<u8>>) -> bool {
    forall|i: int| 0 <= i < records.len() ==> plain(#[trigger] records[i])
}

/// The column that `bytes` becomes when `records` are appended to it, one
/// by one and in order.
pub open spec fn append_all(bytes: Seq<u8>, records: Seq<Seq<u8>>) -> Seq<u8>
    decreases records.len(),
{
    if records.len() == 0 {
        bytes
    } else {
        append_all(bytes, records.drop_last()) + encode(records.last())
    }
}

/// Every record of the column is terminated: the column is empty or ends
/// in a line feed.
pub open spec fn terminated(bytes: Seq<u8>) -> bool {
    bytes.len() == 0 || bytes.last() == LF
}

/// `head_len` is the position of the first line feed.
pub proof fn lemma_head_len(bytes: Seq<u8>)
    ensures
        head_len(bytes) <= bytes.len(),
        plain(bytes.take(head_len(bytes) as int)),
        head_len(bytes) < bytes.len() ==> bytes[head_len(bytes) as int] == LF,
    decreases bytes.len(),
{
    if bytes.len() == 0 || bytes[0] == LF {
    } else {
        let rest = bytes.skip(1);
        lemma_head_len(rest);
        let n = head_len(bytes) as int;
        let head = bytes.take(n);
        let rest_head = rest.take(n - 1);
        assert forall|i: int| 0 <= i < head.len() implies #[trigger] head[i] != LF by {
            if i > 0 {
                assert(rest_head[i - 1] == bytes[i]);
            }
        }
    }
}

/// A position with a line feed (or the end) and none before it is `head_len`.
pub proof fn lemma_head_len_is(bytes: Seq<u8>, n: int)
    requires
        0 <= n <= bytes.len(),
        plain(bytes.take(n)),
        n < bytes.len() ==> bytes[n] == LF,
    ensures
        head_len(bytes) == n,
    decreases bytes.len(),
{
    if bytes.len() == 0 {
    } else if bytes[0] == LF {
        if n > 0 {
            assert(bytes.take(n)[0] == LF);
        }
    } else {
        let rest = bytes.skip(1);
        let head = bytes.take(n);
        let rest_head = rest.take(n - 1);
        assert forall|i: int| 0 <= i < rest_head.len() implies #[trigger] rest_head[i] != LF by {
            assert(head[i + 1] == rest_head[i]);
        }
        lemma_head_len_is(rest, n - 1);
    }
}

/// A column of terminated records ends in a line feed or is empty.
pub proof fn lemma_encode_all_terminated(records: Seq<Seq<u8>>)
    ensures
        terminated(encode_all(records)),
{
}

/// Encoding goes through concatenation.
pub proof fn lemma_encode_all_concat(front: Seq<Seq<u8>>, back: Seq<Seq<u8>>)
    ensures
        encode_all(front + back) == encode_all(front) + encode_all(back),
    decreases back.len(),
{
    if back.len() == 0 {
        assert(front + back =~= front);
        assert(encode_all(front) + encode_all(back) =~= encode_all(front));
    } else {
        lemma_encode_all_concat(front, back.drop_last());
        assert((front + back).drop_last() =~= front + back.drop_last());
        assert((front + back).last() == back.last());
        assert(encode_all(front + back) =~= encode_all(front) + encode_all(back));
    }
}

/// One more record at the end of a column is one more terminated piece.
pub proof fn lemma_encode_all_push(records: Seq<Seq<u8>>, record: Seq<u8>)
    ensures
        encode_all(records.push(record)) == encode_all(records) + encode(record),
{
    assert(records.push(record).drop_last() =~= records);
}

/// A column of one record is that record and its terminator.
pub proof fn lemma_encode_all_one(record: Seq<u8>)
    ensures
        encode_all(seq![record]) == encode(record),
{
    lemma_encode_all_push(Seq::empty(), record);
    assert(Seq::<Seq<u8>>::empty().push(record) =~= seq![record]);
    assert(encode_all(Seq::empty()) + encode(record) =~= encode(record));
}

/// A record without line feeds reads back as itself.
pub proof fn lemma_decode_encode(record: Seq<u8>)
    requires
        plain(record),
    ensures
        decode(encode(record)) == seq![record],
{
    let bytes = encode(record);
    let n = record.len() as int;
    assert(bytes.take(n) =~= record);
    lemma_head_len_is(bytes, n);
    assert(bytes.skip(n + 1) =~= Seq::<u8>::empty());
    assert(decode(bytes.skip(n + 1)) =~= Seq::<Seq<u8>>::empty());
    assert(decode(bytes) =~= seq![record]);
}

/// Behind a column whose records are all terminated, more bytes decode on
/// their own.
pub proof fn lemma_decode_concat(front: Seq<u8>, back: Seq<u8>)
    requires
        terminated(front),
    ensures
        decode(front + back) == decode(front) + decode(back),
    decreases front.len(),
{
    if front.len() == 0 {
        assert(front + back =~= back);
        assert(decode(front) + decode(back) =~= decode(back));
    } else {
        let n = head_len(front) as int;
        lemma_head_len(front);
        if n == front.len() {
            assert(front.take(n) =~= front);
            assert(front[n - 1] != LF);
        }
        let whole = front + back;
        assert(whole.take(n) =~= front.take(n));
        lemma_head_len_is(whole, n);
        let rest = front.skip(n + 1);
        assert(whole.skip(n + 1) =~= rest + back);
        if rest.len() > 0 {
            assert(rest.last() == front.last());
        }
        lemma_decode_concat(rest, back);
        assert(decode(whole) =~= decode(front) + decode(back));
    }
}

/// Decoding never yields a record that holds a line feed.
pub proof fn lemma_decode_plain(bytes: Seq<u8>)
    ensures
        all_plain(decode(bytes)),
    decreases bytes.len(),
{
    if bytes.len() > 0 {
        let n = head_len(bytes) as int;
        lemma_head_len(bytes);
        if n < bytes.len() {
            let rest = decode(bytes.skip(n + 1));
            lemma_decode_plain(bytes.skip(n + 1));
            assert forall|i: int| 0 <= i < decode(bytes).len() implies plain(
                #[trigger] decode(bytes)[i],
            ) by {
                if i > 0 {
                    assert(decode(bytes)[i] == rest[i - 1]);
                }
            }
        } else {
            assert(bytes.take(n) =~= bytes);
        }
    }
}

/// Records without line feeds read back as they were written.
pub proof fn lemma_decode_encode_all(records: Seq<Seq<u8>>)
    requires
        all_plain(records),
    ensures
        decode(encode_all(records)) == records,
    decreases records.len(),
{
    if records.len() == 0 {
        assert(decode(encode_all(records)) =~= records);
    } else {
        let front = records.drop_last();
        lemma_decode_encode_all(front);
        lemma_encode_all_terminated(front);
        lemma_decode_concat(encode_all(front), encode(records.last()));
        lemma_decode_encode(records.last());
        assert(front + seq![records.last()] =~= records);
    }
}

/// Appending records one by one puts their encoding behind the column.
pub proof fn lemma_append_all(bytes: Seq<u8>, records: Seq<Seq<u8>>)
    ensures
        append_all(bytes, records) == bytes + encode_all(records),
    decreases records.len(),
{
    if records.len() == 0 {
        assert(bytes + encode_all(records) =~= bytes);
    } else {
        lemma_append_all(bytes, records.drop_last());
        assert(append_all(bytes, records) =~= bytes + encode_all(records));
    }
}

/// Records without line feeds that are appended in order to a column whose
/// records are all terminated are read back in that order, each as it was,
/// after the records that were there. Appended to an empty column, they
/// are all that is read back.
pub proof fn lemma_append_round_trip(bytes: Seq<u8>, records: Seq<Seq<u8>>)
    requires
        terminated(bytes),
        all_plain(records),
    ensures
        decode(append_all(bytes, records)) == decode(bytes) + records,
        bytes.len() == 0 ==> decode(append_all(bytes, records)) == records,
        terminated(append_all(bytes, records)),
{
    lemma_append_all(bytes, records);
    lemma_decode_concat(bytes, encode_all(records));
    lemma_decode_encode_all(records);
    lemma_encode_all_terminated(records);
    if bytes.len() == 0 {
        assert(decode(bytes) + records =~= records);
    }
}

/// A record without line feeds that is appended to a column whose records
/// are all terminated is the last record of the column, and the records
/// before it are unchanged.
pub proof fn lemma_append_visible(bytes: Seq<u8>, record: Seq<u8>)
    requires
        terminated(bytes),
        plain(record),
    ensures
        decode(bytes + encode(record)) == decode(bytes).push(record),
        terminated(bytes + encode(record)),
{
    lemma_decode_concat(bytes, encode(record));
    lemma_decode_encode(record);
    assert(decode(bytes) + seq![record] =~= decode(bytes).push(record));
}

/// An empty record is kept: appended to a column whose records are all
/// terminated, it is read back as one record of length zero.
pub proof fn lemma_append_empty_record(bytes: Seq<u8>)
    requires
        terminated(bytes),
    ensures
        decode(bytes + encode(Seq::<u8>::empty())) == decode(bytes).push(Seq::<u8>::empty()),
        decode(bytes + encode(Seq::<u8>::empty())).len() == decode(bytes).len() + 1,
        decode(bytes + encode(Seq::<u8>::empty())).last().len() == 0,
{
    lemma_append_visible(bytes, Seq::<u8>::empty());
}

/// Writing the records of a column out again gives the column back, with
/// the terminator that its last record may have lacked.
pub proof fn lemma_encode_all_decode(bytes: Seq<u8>)
    ensures
        terminated(bytes) ==> encode_all(decode(bytes)) == bytes,
        !terminated(bytes) ==> encode_all(decode(bytes)) == bytes.push(LF),
    decreases bytes.len(),
{
    if bytes.len() == 0 {
    } else {
        let n = head_len(bytes) as int;
        lemma_head_len(bytes);
        if n < bytes.len() {
            let head = bytes.take(n);
            let rest = bytes.skip(n + 1);
            lemma_encode_all_decode(rest);
            lemma_encode_all_concat(seq![head], decode(rest));
            lemma_encode_all_one(head);
            assert(encode(head) + rest =~= bytes);
            if rest.len() > 0 {
                assert(rest.last() == bytes.last());
                assert(encode(head) + rest.push(LF) =~= bytes.push(LF));
            }
        } else {
            assert(bytes.take(n) =~= bytes);
            assert(bytes[n - 1] != LF);
            lemma_encode_all_one(bytes);
        }
    }
}

/// Appends `record` and its terminator to `out`.
pub fn append_record(out: &mut Vec<u8>, record: &[u8])
    ensures
        final(out)@ == old(out)@ + encode(record@),
{
    let mut i: usize = 0;
    while i < record.len()
        invariant
            i <= record@.len(),
            out@ == old(out)@ + record@.take(i as int),
        decreases record@.len() - i,
    {
        out.push(record[i]);
        i += 1;
        assert(out@ =~= old(out)@ + record@.take(i as int));
    }
    out.push(LF);
    assert(record@.take(i as int) =~= record@);
    assert(out@ =~= old(out)@ + encode(record@));
}

/// The bytes that stand for `record` in a column.
pub fn encode_record(record: &[u8]) -> (bytes: Vec<u8>)
    ensures
        bytes@ == encode(record@),
{
    let mut bytes: Vec<u8> = Vec::new();
    append_record(&mut bytes, record);
    assert(bytes@ =~= encode(record@));
    bytes
}

/// Reads the record that begins at `start`. Returns it with the position at
/// which the next one begins, or `None` at the end of the column.
pub fn next_record(bytes: &[u8], start: usize) -> (r: Option<(Vec<u8>, usize)>)
    ensures
        start >= bytes@.len() ==> r.is_none(),
        start < bytes@.len() ==> r.is_some(),
        r matches Some((record, next)) ==> {
            let rest = bytes@.skip(start as int);
            &&& record@ == rest.take(head_len(rest) as int)
            &&& next == if head_len(rest) < rest.len() {
                start + head_len(rest) + 1
            } else {
                bytes@.len() as int
            }
            &&& start < next <= bytes@.len()
            &&& decode(rest) == seq![record@] + decode(bytes@.skip(next as int))
        },
{
    if start >= bytes.len() {
        return None;
    }
    let ghost tail = bytes@.skip(start as int);
    let mut record: Vec<u8> = Vec::new();
    let mut i: usize = start;
    while i < bytes.len() && bytes[i] != LF
        invariant
            start <= i <= bytes@.len(),
            tail == bytes@.skip(start as int),
            record@ == tail.take(i - start),
            plain(record@),
        decreases bytes@.len() - i,
    {
        record.push(bytes[i]);
        i += 1;
        assert(record@ =~= tail.take(i - start));
    }
    proof {
        lemma_head_len_is(tail, i - start);
    }
    if i < bytes.len() {
        assert(tail.skip(i - start + 1) =~= bytes@.skip(i + 1));
        Some((record, i + 1))
    } else {
        assert(tail.take(i - start) =~= tail);
        assert(decode(bytes@.skip(i as int)) =~= Seq::<Seq<u8>>::empty());
        assert(decode(tail) =~= seq![record@] + decode(bytes@.skip(i as int)));
        Some((record, i))
    }
}

/// Splits a column into its records.
pub fn decode_records(bytes: &[u8]) -> (records: Vec<Vec<u8>>)
    ensures
        records.deep_view() == decode(bytes@),
{
    let mut records: Vec<Vec<u8>> = Vec::new();
    let mut pos: usize = 0;
    assert(bytes@.skip(0) =~= bytes@);
    loop
        invariant
            pos <= bytes@.len(),
            decode(bytes@) == records.deep_view() + decode(bytes@.skip(pos as int)),
        decreases bytes@.len() - pos,
    {
        match next_record(bytes, pos) {
            None => {
                assert(bytes@.skip(pos as int) =~= Seq::<u8>::empty());
                assert(records.deep_view() =~= decode(bytes@));
                return records;
            },
            Some((record, next)) => {
                let ghost before = records.deep_view();
                records.push(record);
                assert(records.deep_view() =~~= before + seq![record@]);
                pos = next;
                assert(decode(bytes@) =~= records.deep_view() + decode(bytes@.skip(pos as int)));
            },
        }
    }
}

} // verus!
