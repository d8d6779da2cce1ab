//! The vocabulary in which the scans of a column are specified.
//!
//! A scan shows the records of a column to a closure, one by one and in
//! order, and goes by what the closure answers. What a closure answers is
//! known only through its own contract, so a scan is described by the
//! sequence of answers it received: its trace.

use vstd::prelude::*;
use crate::callback::{ForEachResultValue, RemoveResultValue, SelectResultValue};
use crate::codec::{
    decode, encode_all, lemma_decode_encode_all, lemma_decode_plain, lemma_encode_all_decode,
    terminated, LF,
};

verus! {

/// An answer that can end a scan.
pub trait Answer {
    /// The scan ends after the record that got this answer.
    spec fn stop(&self) -> bool;
}

impl Answer for ForEachResultValue {
    open spec fn stop(&self) -> bool {
        self.0
    }
}

impl Answer for SelectResultValue {
    open spec fn stop(&self) -> bool {
        self.2
    }
}

impl Answer for RemoveResultValue {
    open spec fn stop(&self) -> bool {
        self.1
    }
}

/// `f` may be called on every record of `records` under its index.
pub open spec fn accepts<F, R>(f: F, records: Seq<Seq<u8>>) -> bool where
    F: FnMut(usize, Vec<u8>) -> R,
 {
    forall|index: usize, bytes: Vec<u8>|
        index < records.len() && bytes@ == records[index as int] ==> #[trigger] f.requires(
            (index, bytes),
        )
}

/// `answer` is a value that `f` may give when it is shown `record` under
/// `index`.
pub open spec fn may_answer<F, R>(f: F, index: usize, record: Seq<u8>, answer: R) -> bool where
    F: FnMut(usize, Vec<u8>) -> R,
 {
    exists|bytes: Vec<u8>| bytes@ == record && #[trigger] f.ensures((index, bytes), answer)
}

/// `answers` ends as a scan of `n` records ends: only its last answer may
/// stop, and it falls short of `n` only where the last answer stops.
pub open spec fn is_run<R: Answer>(answers: Seq<R>, n: nat) -> bool {
    &&& answers.len() <= n
    &&& forall|i: int| 0 <= i < answers.len() - 1 ==> !(#[trigger] answers[i]).stop()
    &&& answers.len() < n ==> answers.len() > 0 && answers.last().stop()
}

/// `answers` is the trace of a scan of `records` by `f`: the answer at each
/// place is one that `f` may give to the record at that place, and the
/// trace ends as a scan ends.
pub open spec fn is_trace<F, R: Answer>(f: F, records: Seq<Seq<u8>>, answers: Seq<R>) -> bool where
    F: FnMut(usize, Vec<u8>) -> R,
 {
    &&& is_run(answers, records.len())
    &&& forall|i: int|
        0 <= i < answers.len() ==> may_answer(f, i as usize, records[i], #[trigger] answers[i])
}

/// What a rewriting scan with the trace `answers` writes: the data of each
/// answer that says keep, in order.
pub open spec fn kept(answers: Seq<SelectResultValue>) -> Seq<Seq<u8>>
    decreases answers.len(),
{
    if answers.len() == 0 {
        Seq::empty()
    } else if answers.last().0 {
        kept(answers.drop_last()).push(answers.last().1@)
    } else {
        kept(answers.drop_last())
    }
}

/// What a deleting scan of `records` with the trace `answers` leaves: each
/// record that was shown and whose answer does not say remove, in order.
pub open spec fn retained(records: Seq<Seq<u8>>, answers: Seq<RemoveResultValue>) -> Seq<Seq<u8>>
    decreases answers.len(),
{
    if answers.len() == 0 {
        Seq::empty()
    } else if answers.last().0 {
        retained(records, answers.drop_last())
    } else {
        retained(records, answers.drop_last()).push(records[answers.len() - 1])
    }
}

/// Whatever `f` answers, to whatever record, `holds` of the index, the
/// record and the answer.
pub open spec fn always<F, R>(f: F, holds: spec_fn(usize, Seq<u8>, R) -> bool) -> bool where
    F: FnMut(usize, Vec<u8>) -> R,
 {
    forall|index: usize, bytes: Vec<u8>, answer: R| #[trigger]
        f.ensures((index, bytes), answer) ==> holds(index, bytes@, answer)
}

/// What always holds of the answers of `f` holds of each answer of a trace.
pub proof fn lemma_trace_holds<F, R: Answer>(
    f: F,
    records: Seq<Seq<u8>>,
    answers: Seq<R>,
    holds: spec_fn(usize, Seq<u8>, R) -> bool,
) where F: FnMut(usize, Vec<u8>) -> R
    requires
        is_trace(f, records, answers),
        always(f, holds),
    ensures
        forall|i: int| 0 <= i < answers.len() ==> holds(i as usize, records[i], #[trigger] answers[i]),
{
    assert forall|i: int| 0 <= i < answers.len() implies holds(
        i as usize,
        records[i],
        #[trigger] answers[i],
    ) by {
        assert(may_answer(f, i as usize, records[i], answers[i]));
    }
}

/// An answer that says stop is the last of its run: a scan that is told to
/// stop at index `k` has shown `k + 1` records, and no more.
pub proof fn lemma_stop_ends_run<R: Answer>(answers: Seq<R>, n: nat, k: int)
    requires
        is_run(answers, n),
        0 <= k < answers.len(),
        answers[k].stop(),
    ensures
        answers.len() == k + 1,
{
}

/// A scan that is never told to stop shows every record.
pub proof fn lemma_run_without_stop<R: Answer>(answers: Seq<R>, n: nat)
    requires
        is_run(answers, n),
        forall|i: int| 0 <= i < answers.len() ==> !(#[trigger] answers[i]).stop(),
    ensures
        answers.len() == n,
{
}

/// A scan by a closure that never says stop shows every record.
pub proof fn lemma_scan_to_end<F, R: Answer>(f: F, records: Seq<Seq<u8>>, answers: Seq<R>) where
    F: FnMut(usize, Vec<u8>) -> R,

    requires
        is_trace(f, records, answers),
        always(f, |index: usize, record: Seq<u8>, answer: R| !answer.stop()),
    ensures
        answers.len() == records.len(),
{
    lemma_trace_holds(f, records, answers, |index: usize, record: Seq<u8>, answer: R| !answer.stop());
    lemma_run_without_stop(answers, records.len());
}

/// A scan by a closure that says stop at the index `k`, and at no other,
/// shows the records up to and with the one at `k`: `k + 1` of them.
pub proof fn lemma_scan_stops_at<F, R: Answer>(
    f: F,
    records: Seq<Seq<u8>>,
    answers: Seq<R>,
    k: usize,
) where F: FnMut(usize, Vec<u8>) -> R
    requires
        is_trace(f, records, answers),
        k < records.len(),
        always(f, |index: usize, record: Seq<u8>, answer: R| answer.stop() <==> index == k),
    ensures
        answers.len() == k + 1,
{
    lemma_trace_holds(
        f,
        records,
        answers,
        |index: usize, record: Seq<u8>, answer: R| answer.stop() <==> index == k,
    );
    if answers.len() <= k {
        assert(answers.last().stop());
    } else {
        assert(answers[k as int].stop());
    }
}

/// A rewriting scan writes at most one record for each record shown.
pub proof fn lemma_kept_len(answers: Seq<SelectResultValue>)
    ensures
        kept(answers).len() <= answers.len(),
    decreases answers.len(),
{
    if answers.len() > 0 {
        lemma_kept_len(answers.drop_last());
    }
}

/// A rewriting scan that is told to stop at index `k` writes what the
/// answers to the first `k + 1` records keep, and nothing of the records
/// behind them.
pub proof fn lemma_select_stop(answers: Seq<SelectResultValue>, n: nat, k: int)
    requires
        is_run(answers, n),
        0 <= k < answers.len(),
        answers[k].stop(),
    ensures
        answers.len() == k + 1,
        kept(answers) == kept(answers.take(k + 1)),
        kept(answers).len() <= k + 1,
{
    assert(answers.take(k + 1) =~= answers);
    lemma_kept_len(answers);
}

/// Answers that all keep what they were shown keep every record shown.
proof fn lemma_kept_all(records: Seq<Seq<u8>>, answers: Seq<SelectResultValue>)
    requires
        answers.len() <= records.len(),
        forall|i: int|
            0 <= i < answers.len() ==> (#[trigger] answers[i]).0 && answers[i].1@ == records[i],
    ensures
        kept(answers) == records.take(answers.len() as int),
    decreases answers.len(),
{
    if answers.len() == 0 {
        assert(kept(answers) =~= records.take(0));
    } else {
        let front = answers.drop_last();
        lemma_kept_all(records, front);
        assert(kept(answers) =~= records.take(answers.len() as int));
    }
}

/// Answers that never keep write nothing.
proof fn lemma_kept_none(answers: Seq<SelectResultValue>)
    requires
        forall|i: int| 0 <= i < answers.len() ==> !(#[trigger] answers[i]).0,
    ensures
        kept(answers) == Seq::<Seq<u8>>::empty(),
    decreases answers.len(),
{
    if answers.len() > 0 {
        lemma_kept_none(answers.drop_last());
    }
}

/// A rewriting scan by a closure that always keeps the record as it was
/// shown, and never says stop, shows every record and writes the records
/// of the column. The new column is the old one byte for byte where every
/// record of the old one was terminated; where the last was not, it has
/// got its terminator. Either way the new column reads as the old one did.
pub proof fn lemma_select_identity<F>(f: F, bytes: Seq<u8>, answers: Seq<SelectResultValue>) where
    F: FnMut(usize, Vec<u8>) -> SelectResultValue,

    requires
        is_trace(f, decode(bytes), answers),
        always(
            f,
            |index: usize, record: Seq<u8>, answer: SelectResultValue|
                answer.0 && answer.1@ == record && !answer.2,
        ),
    ensures
        answers.len() == decode(bytes).len(),
        kept(answers) == decode(bytes),
        terminated(bytes) ==> encode_all(kept(answers)) == bytes,
        !terminated(bytes) ==> encode_all(kept(answers)) == bytes.push(LF),
        decode(encode_all(kept(answers))) == decode(bytes),
{
    let records = decode(bytes);
    lemma_trace_holds(
        f,
        records,
        answers,
        |index: usize, record: Seq<u8>, answer: SelectResultValue|
            answer.0 && answer.1@ == record && !answer.2,
    );
    lemma_run_without_stop(answers, records.len());
    lemma_kept_all(records, answers);
    assert(records.take(records.len() as int) =~= records);
    lemma_decode_plain(bytes);
    lemma_decode_encode_all(records);
    lemma_encode_all_decode(bytes);
}

/// A rewriting scan by a closure that never keeps leaves a column of zero
/// bytes; where the closure never says stop either, every record was
/// shown.
pub proof fn lemma_select_drop_all<F>(
    f: F,
    records: Seq<Seq<u8>>,
    answers: Seq<SelectResultValue>,
) where F: FnMut(usize, Vec<u8>) -> SelectResultValue
    requires
        is_trace(f, records, answers),
        always(f, |index: usize, record: Seq<u8>, answer: SelectResultValue| !answer.0),
    ensures
        kept(answers) == Seq::<Seq<u8>>::empty(),
        encode_all(kept(answers)).len() == 0,
        always(f, |index: usize, record: Seq<u8>, answer: SelectResultValue| !answer.2)
            ==> answers.len() == records.len(),
{
    lemma_trace_holds(
        f,
        records,
        answers,
        |index: usize, record: Seq<u8>, answer: SelectResultValue| !answer.0,
    );
    lemma_kept_none(answers);
    if always(f, |index: usize, record: Seq<u8>, answer: SelectResultValue| !answer.2) {
        lemma_trace_holds(
            f,
            records,
            answers,
            |index: usize, record: Seq<u8>, answer: SelectResultValue| !answer.2,
        );
        lemma_run_without_stop(answers, records.len());
    }
}

/// A deleting scan is the rewriting scan that keeps, unchanged, each record
/// that is not marked for removal: where every answer of `selected` keeps
/// what the answer of `removed` at its place does not remove, hands the
/// record back as it was shown, and stops where that one stops, both scans
/// write the same records.
pub proof fn lemma_remove_is_select(
    records: Seq<Seq<u8>>,
    removed: Seq<RemoveResultValue>,
    selected: Seq<SelectResultValue>,
)
    requires
        removed.len() == selected.len(),
        removed.len() <= records.len(),
        forall|i: int|
            0 <= i < selected.len() ==> {
                &&& (#[trigger] selected[i]).0 == !removed[i].0
                &&& selected[i].1@ == records[i]
                &&& selected[i].2 == removed[i].1
            },
    ensures
        kept(selected) == retained(records, removed),
        forall|n: nat| is_run(removed, n) <==> is_run(selected, n),
    decreases removed.len(),
{
    if removed.len() > 0 {
        lemma_remove_is_select(records, removed.drop_last(), selected.drop_last());
    }
    assert forall|n: nat| is_run(removed, n) <==> is_run(selected, n) by {
        assert(forall|i: int|
            0 <= i < selected.len() ==> (#[trigger] selected[i]).stop() == removed[i].stop());
        assert(forall|i: int|
            0 <= i < removed.len() ==> (#[trigger] removed[i]).stop() == selected[i].stop());
    }
}

} // verus!
