//! How the columns of a store are named in its directory.
//!
//! A store is one directory. Each column is a file in it, named by the
//! column's name, a dot and the store's extension.

use vstd::prelude::*;
use vstd::utf8::encode_utf8;

verus! {

/// The extension that marks a file as a column.
pub const FILEDB_EXT: &'static str = "filedb";

/// A dot and the store's extension, as bytes: `.filedb`.
pub open spec fn column_suffix() -> Seq<u8> {
    seq![0x2eu8, 0x66u8, 0x69u8, 0x6cu8, 0x65u8, 0x64u8, 0x62u8]
}

/// `name`, the bytes of a file's name without its directory, is the name
/// of a column's file: something that is not empty, then a dot and the
/// store's extension. A name that is nothing but the dot and the extension
/// is a hidden file without extension, and names no column.
pub open spec fn names_column(name: Seq<u8>) -> bool {
    name.len() > column_suffix().len() && name.skip(name.len() - column_suffix().len())
        == column_suffix()
}

/// The suffix of a column's file is a dot and the store's extension.
pub proof fn lemma_column_suffix()
    ensures
        column_suffix() == seq![0x2eu8] + encode_utf8(FILEDB_EXT@),
{
    reveal_strlit("filedb");
    assert(vstd::string::is_ascii(FILEDB_EXT));
    vstd::string::is_ascii_spec_bytes(FILEDB_EXT);
    assert(column_suffix() =~= seq![0x2eu8] + encode_utf8(FILEDB_EXT@));
}

/// Whether the file called `name` in a store's directory is a column.
pub fn is_column_file(name: &str) -> (b: bool)
    ensures
        b == names_column(encode_utf8(name@)),
{
    let bytes = name.as_bytes();
    let n = bytes.len();
    if n <= 7 {
        return false;
    }
    let ghost tail = bytes@.skip(n - 7);
    assert(forall|i: int| 0 <= i < 7 ==> tail[i] == bytes@[n - 7 + i]);
    let b = bytes[n - 7] == 0x2e && bytes[n - 6] == 0x66 && bytes[n - 5] == 0x69 && bytes[n - 4]
        == 0x6c && bytes[n - 3] == 0x65 && bytes[n - 2] == 0x64 && bytes[n - 1] == 0x62;
    proof {
        let suffix = column_suffix();
        if b {
            assert(tail =~= suffix);
        } else {
            assert(suffix[0] == 0x2e && suffix[1] == 0x66 && suffix[2] == 0x69 && suffix[3]
                == 0x6c && suffix[4] == 0x65 && suffix[5] == 0x64 && suffix[6] == 0x62);
        }
    }
    b
}

/// Those of `names`, the names of the files in a store's directory, that
/// are columns, in the order in which they came.
pub fn column_files(names: Vec<String>) -> (columns: Vec<String>)
    ensures
        columns@ == names@.filter(|name: String| names_column(encode_utf8(name@))),
{
    let ghost is_column = |name: String| names_column(encode_utf8(name@));
    let mut columns: Vec<String> = Vec::new();
    let mut i: usize = 0;
    assert(names@.take(0) =~= Seq::<String>::empty());
    while i < names.len()
        invariant
            i <= names@.len(),
            is_column == |name: String| names_column(encode_utf8(name@)),
            columns@ == names@.take(i as int).filter(is_column),
        decreases names@.len() - i,
    {
        proof {
            assert(names@.take(i + 1).drop_last() =~= names@.take(i as int));
            reveal(Seq::filter);
        }
        if is_column_file(names[i].as_str()) {
            columns.push(names[i].clone());
        }
        i += 1;
    }
    assert(names@.take(i as int) =~= names@);
    columns
}

} // verus!
