//! The column: a path and the bytes that stand under it.

use vstd::prelude::*;
use crate::callback::{ForEachResultValue, RemoveResultValue, SelectResultValue};
use crate::codec::{
    append_record, decode, encode, encode_all, lemma_append_visible, lemma_encode_all_push,
    next_record, plain, terminated,
};
use crate::scan::{accepts, is_trace, kept, may_answer, retained, Answer};

verus! {

/// What a column is, to its contracts.
pub struct ColumnView {
    /// Where the column is kept.
    pub path: Seq<char>,
    /// Every byte of the column, terminators included.
    pub contents: Seq<u8>,
}

/// Where the records from `index` on are `record` and then `behind`,
/// `record` is the record at `index` and `behind` are those after it.
proof fn lemma_head_of_rest(
    records: Seq<Seq<u8>>,
    index: int,
    record: Seq<u8>,
    behind: Seq<Seq<u8>>,
)
    requires
        0 <= index <= records.len(),
        records.skip(index) == seq![record] + behind,
    ensures
        index < records.len(),
        records[index] == record,
        records.skip(index + 1) == behind,
{
    let ahead = records.skip(index);
    assert(ahead.len() == 1 + behind.len());
    assert(ahead[0] == record);
    assert(behind =~= ahead.skip(1));
    assert(ahead.skip(1) =~= records.skip(index + 1));
}

/// One column of the store.
#[derive(Debug)]
pub struct C {
    path: String,
    bytes: Vec<u8>,
}

impl View for C {
    type V = ColumnView;

    closed spec fn view(&self) -> ColumnView {
        ColumnView { path: self.path@, contents: self.bytes@ }
    }
}

impl C {
    /// The records of the column, in order.
    pub open spec fn records(&self) -> Seq<Seq<u8>> {
        decode(self@.contents)
    }

    /// The column kept under `path` whose bytes are `bytes`.
    pub fn new(path: &str, bytes: Vec<u8>) -> (c: Self)
        ensures
            c@.path == path@,
            c@.contents == bytes@,
    {
        C { path: path.to_owned(), bytes }
    }

    /// Where the column is kept.
    pub fn get_path(&self) -> (path: String)
        ensures
            path@ == self@.path,
    {
        self.path.clone()
    }

    /// Every byte of the column.
    pub fn as_bytes(&self) -> (bytes: &[u8])
        ensures
            bytes@ == self@.contents,
    {
        self.bytes.as_slice()
    }

    /// Appends `buf` as a record: its bytes, then the terminator. Nothing is
    /// escaped, so a `buf` that holds line feeds reads back as several
    /// records.
    pub fn insert(&mut self, buf: &[u8])
        ensures
            final(self)@.path == old(self)@.path,
            final(self)@.contents == old(self)@.contents + encode(buf@),
            terminated(final(self)@.contents),
            terminated(old(self)@.contents) && plain(buf@) ==> final(self).records() == old(
                self,
            ).records().push(buf@),
    {
        proof {
            if terminated(self@.contents) && plain(buf@) {
                lemma_append_visible(self@.contents, buf@);
            }
        }
        append_record(&mut self.bytes, buf);
    }

    /// Shows every record to `f`, with its index, until `f` answers that it
    /// has seen enough. Returns how many records were shown.
    pub fn for_each<F>(&self, mut f: F) -> (count: usize) where
        F: FnMut(usize, Vec<u8>) -> ForEachResultValue,

        requires
            accepts(f, self.records()),
        ensures
            exists|answers: Seq<ForEachResultValue>|
                #[trigger] is_trace(f, self.records(), answers) && answers.len() == count,
    {
        let ghost records = self.records();
        let ghost asked = f;
        let ghost mut answers: Seq<ForEachResultValue> = Seq::empty();
        let mut index: usize = 0;
        let mut pos: usize = 0;
        assert(self.bytes@.skip(0) =~= self.bytes@);
        loop
            invariant_except_break
                forall|i: int| 0 <= i < answers.len() ==> !(#[trigger] answers[i]).stop(),
            invariant
                records == decode(self.bytes@),
                f == asked,
                accepts(f, records),
                index <= pos <= self.bytes@.len(),
                index <= records.len(),
                decode(self.bytes@.skip(pos as int)) == records.skip(index as int),
                answers.len() == index,
                forall|i: int|
                    0 <= i < answers.len() ==> may_answer(
                        f,
                        i as usize,
                        records[i],
                        #[trigger] answers[i],
                    ),
            ensures
                is_trace(f, records, answers),
                answers.len() == index,
            decreases self.bytes@.len() - pos,
        {
            match next_record(self.bytes.as_slice(), pos) {
                None => {
                    assert(self.bytes@.skip(pos as int) =~= Seq::<u8>::empty());
                    assert(records.skip(index as int).len() == 0);
                    break ;
                },
                Some((record, next)) => {
                    let ghost shown = record;
                    proof {
                        lemma_head_of_rest(
                            records,
                            index as int,
                            record@,
                            decode(self.bytes@.skip(next as int)),
                        );
                    }
                    let answer = f(index, record);
                    proof {
                        assert(f.ensures((index, shown), answer));
                        assert(may_answer(f, index, records[index as int], answer));
                        answers = answers.push(answer);
                    }
                    index += 1;
                    pos = next;
                    if answer.is_stop() {
                        break ;
                    }
                },
            }
        }
        index
    }

    /// Rewrites the column. Every record is shown to `f`, with its index;
    /// where the answer says keep, the data of the answer is written as a
    /// record of the new column, and where it does not, nothing is. After
    /// an answer that says stop no further record is shown, and none of
    /// those is written. Returns how many records were shown.
    pub fn select_each<F>(&mut self, mut f: F) -> (count: usize) where
        F: FnMut(usize, Vec<u8>) -> SelectResultValue,

        requires
            accepts(f, old(self).records()),
        ensures
            final(self)@.path == old(self)@.path,
            exists|answers: Seq<SelectResultValue>|
                #[trigger] is_trace(f, old(self).records(), answers) && answers.len() == count
                    && final(self)@.contents == encode_all(kept(answers)),
            terminated(final(self)@.contents),
    {
        let ghost records = self.records();
        let ghost asked = f;
        let ghost mut answers: Seq<SelectResultValue> = Seq::empty();
        let mut out: Vec<u8> = Vec::new();
        let mut index: usize = 0;
        let mut pos: usize = 0;
        assert(self.bytes@.skip(0) =~= self.bytes@);
        loop
            invariant_except_break
                forall|i: int| 0 <= i < answers.len() ==> !(#[trigger] answers[i]).stop(),
            invariant
                *self == *old(self),
                records == decode(self.bytes@),
                f == asked,
                accepts(f, records),
                index <= pos <= self.bytes@.len(),
                index <= records.len(),
                decode(self.bytes@.skip(pos as int)) == records.skip(index as int),
                answers.len() == index,
                out@ == encode_all(kept(answers)),
                forall|i: int|
                    0 <= i < answers.len() ==> may_answer(
                        f,
                        i as usize,
                        records[i],
                        #[trigger] answers[i],
                    ),
            ensures
                is_trace(f, records, answers),
                answers.len() == index,
            decreases self.bytes@.len() - pos,
        {
            match next_record(self.bytes.as_slice(), pos) {
                None => {
                    assert(self.bytes@.skip(pos as int) =~= Seq::<u8>::empty());
                    assert(records.skip(index as int).len() == 0);
                    break ;
                },
                Some((record, next)) => {
                    let ghost shown = record;
                    proof {
                        lemma_head_of_rest(
                            records,
                            index as int,
                            record@,
                            decode(self.bytes@.skip(next as int)),
                        );
                    }
                    let answer = f(index, record);
                    proof {
                        assert(f.ensures((index, shown), answer));
                        assert(may_answer(f, index, records[index as int], answer));
                        assert(answers.push(answer).drop_last() =~= answers);
                        lemma_encode_all_push(kept(answers), answer.1@);
                        answers = answers.push(answer);
                    }
                    if answer.0 {
                        append_record(&mut out, answer.1.as_slice());
                    }
                    index += 1;
                    pos = next;
                    if answer.2 {
                        break ;
                    }
                },
            }
        }
        self.bytes = out;
        index
    }

    /// Deletes records. Every record is shown to `f`, with its index; where
    /// the answer says remove, the record is left out of the new column,
    /// and where it does not, the record is written to it unchanged. After
    /// an answer that says stop no further record is shown, and none of
    /// those is written. Returns how many records were shown.
    pub fn remove_each<F>(&mut self, mut f: F) -> (count: usize) where
        F: FnMut(usize, Vec<u8>) -> RemoveResultValue,

        requires
            accepts(f, old(self).records()),
        ensures
            final(self)@.path == old(self)@.path,
            exists|answers: Seq<RemoveResultValue>|
                #[trigger] is_trace(f, old(self).records(), answers) && answers.len() == count
                    && final(self)@.contents == encode_all(retained(old(self).records(), answers)),
            terminated(final(self)@.contents),
    {
        let ghost records = self.records();
        let ghost asked = f;
        let ghost mut answers: Seq<RemoveResultValue> = Seq::empty();
        let mut out: Vec<u8> = Vec::new();
        let mut index: usize = 0;
        let mut pos: usize = 0;
        assert(self.bytes@.skip(0) =~= self.bytes@);
        loop
            invariant_except_break
                forall|i: int| 0 <= i < answers.len() ==> !(#[trigger] answers[i]).stop(),
            invariant
                *self == *old(self),
                records == decode(self.bytes@),
                f == asked,
                accepts(f, records),
                index <= pos <= self.bytes@.len(),
                index <= records.len(),
                decode(self.bytes@.skip(pos as int)) == records.skip(index as int),
                answers.len() == index,
                out@ == encode_all(retained(records, answers)),
                forall|i: int|
                    0 <= i < answers.len() ==> may_answer(
                        f,
                        i as usize,
                        records[i],
                        #[trigger] answers[i],
                    ),
            ensures
                is_trace(f, records, answers),
                answers.len() == index,
            decreases self.bytes@.len() - pos,
        {
            match next_record(self.bytes.as_slice(), pos) {
                None => {
                    assert(self.bytes@.skip(pos as int) =~= Seq::<u8>::empty());
                    assert(records.skip(index as int).len() == 0);
                    break ;
                },
                Some((record, next)) => {
                    proof {
                        lemma_head_of_rest(
                            records,
                            index as int,
                            record@,
                            decode(self.bytes@.skip(next as int)),
                        );
                    }
                    let copy = record.clone();
                    let ghost shown = copy;
                    let answer = f(index, copy);
                    proof {
                        assert(f.ensures((index, shown), answer));
                        assert(may_answer(f, index, records[index as int], answer));
                        assert(answers.push(answer).drop_last() =~= answers);
                        lemma_encode_all_push(retained(records, answers), record@);
                        answers = answers.push(answer);
                    }
                    if !answer.0 {
                        append_record(&mut out, record.as_slice());
                    }
                    index += 1;
                    pos = next;
                    if answer.1 {
                        break ;
                    }
                },
            }
        }
        self.bytes = out;
        index
    }
}

} // verus!
