//! The values that a caller's closure hands back to a column scan.
//!
//! Each of the three scans has an answer type of its own, so that a flag can
//! never be read with the wrong meaning.

use vstd::prelude::*;

verus! {

/// The answer to a rewriting scan: `(keep, data, stop)`.
///
/// When the first field is `true`, the second is written to the rewritten
/// column in place of the record that was shown; when it is `false`, the
/// record is left out. The third field ends the scan after this record.
#[derive(Clone, Debug, PartialEq)]
pub struct SelectResultValue(pub bool, pub Vec<u8>, pub bool);

impl SelectResultValue {
    /// The answer with these three fields.
    pub fn new(keep: bool, data: Vec<u8>, stop: bool) -> (r: Self)
        ensures
            r.0 == keep,
            r.1 == data,
            r.2 == stop,
    {
        SelectResultValue(keep, data, stop)
    }

    /// The three fields as a tuple, the bytes copied.
    pub fn to_tuple(&self) -> (t: (bool, Vec<u8>, bool))
        ensures
            t.0 == self.0,
            t.1@ == self.1@,
            t.2 == self.2,
    {
        let data = self.1.clone();
        (self.0, data, self.2)
    }
}

/// The answer to a deleting scan: `(remove, stop)`.
///
/// When the first field is `true`, the record that was shown is left out
/// of the rewritten column; when it is `false`, the record stays as it is.
/// The second field ends the scan after this record.
#[derive(Clone, Debug, PartialEq)]
pub struct RemoveResultValue(pub bool, pub bool);

impl RemoveResultValue {
    /// The answer with these two fields.
    pub fn new(remove: bool, stop: bool) -> (r: Self)
        ensures
            r.0 == remove,
            r.1 == stop,
    {
        RemoveResultValue(remove, stop)
    }

    /// The two fields as a tuple.
    pub fn to_tuple(&self) -> (t: (bool, bool))
        ensures
            t.0 == self.0,
            t.1 == self.1,
    {
        (self.0, self.1)
    }
}

/// The answer to a read-only scan: whether to stop.
#[derive(Clone, Debug, PartialEq)]
pub struct ForEachResultValue(pub bool);

impl ForEachResultValue {
    /// The answer that says stop, or not.
    pub fn new(stop: bool) -> (r: Self)
        ensures
            r.0 == stop,
    {
        ForEachResultValue(stop)
    }

    /// Whether the scan is to end here.
    pub fn is_stop(&self) -> (stop: bool)
        ensures
            stop == self.0,
    {
        self.0
    }
}

} // verus!
