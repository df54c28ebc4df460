//! RSV: a minimal binary alternative to CSV.  Rows of optional text values
//! are delimited by reserved bytes that no UTF-8 string can contain, so text
//! never needs escaping.  The codec lives in [`codec`]; [`Rsv`] is a small
//! in-memory handle pairing a file name with a decoded table.
use vstd::prelude::*;

pub mod codec;

pub use crate::codec::decode_rsv;
pub use crate::codec::encode_rsv;
pub use crate::codec::DecodeError;

verus! {

/// A table together with the name of the file it belongs to.
/// The file itself is read and written by unverified callers; this type only
/// holds the decoded data.
pub struct Rsv {
    pub file: String,
    pub data: Vec<Vec<Option<String>>>,
}

impl Rsv {
    /// An owned copy of the table.
    pub fn data(&self) -> (r: Vec<Vec<Option<String>>>)
        ensures
            r.deep_view() == self.data.deep_view(),
    {
        clone_table(&self.data)
    }

    /// Replaces the whole table; the file name is kept.
    pub fn set_data(&mut self, data: Vec<Vec<Option<String>>>)
        ensures
            final(self).data == data,
            final(self).file == old(self).file,
    {
        self.data = data;
    }
}

/// An owned copy of one row.
fn clone_row(row: &Vec<Option<String>>) -> (r: Vec<Option<String>>)
    ensures
        r.deep_view() == row.deep_view(),
{
    let mut out: Vec<Option<String>> = Vec::new();
    let mut j: usize = 0;
    while j < row.len()
        invariant
            j <= row@.len(),
            out.deep_view() =~= row.deep_view().take(j as int),
        decreases row@.len() - j,
    {
        proof {
            assert(row.deep_view().len() == row@.len());
            assert(row.deep_view().take(j as int).len() == j);
        }
        match &row[j] {
            Some(text) => out.push(Some(text.clone())),
            None => out.push(None),
        }
        proof {
            assert forall|k: int| 0 <= k < out@.len() implies out.deep_view()[k]
                == row.deep_view().take(j as int + 1)[k] by {
                assert(out.deep_view()[k] == out@[k].deep_view());
                assert(row.deep_view()[k] == row@[k].deep_view());
            }
            assert(out.deep_view() =~= row.deep_view().take(j as int + 1));
        }
        j = j + 1;
    }
    assert(row.deep_view().take(row@.len() as int) =~= row.deep_view());
    out
}

/// An owned copy of a whole table.
fn clone_table(table: &Vec<Vec<Option<String>>>) -> (r: Vec<Vec<Option<String>>>)
    ensures
        r.deep_view() == table.deep_view(),
{
    let mut out: Vec<Vec<Option<String>>> = Vec::new();
    let mut i: usize = 0;
    while i < table.len()
        invariant
            i <= table@.len(),
            out.deep_view() =~= table.deep_view().take(i as int),
        decreases table@.len() - i,
    {
        proof {
            assert(table.deep_view().len() == table@.len());
            assert(table.deep_view().take(i as int).len() == i);
        }
        out.push(clone_row(&table[i]));
        proof {
            assert forall|k: int| 0 <= k < out@.len() implies out.deep_view()[k]
                == table.deep_view().take(i as int + 1)[k] by {
                assert(out.deep_view()[k] == out@[k].deep_view());
                assert(table.deep_view()[k] == table@[k].deep_view());
            }
            assert(out.deep_view() =~= table.deep_view().take(i as int + 1));
        }
        i = i + 1;
    }
    assert(table.deep_view().take(table@.len() as int) =~= table.deep_view());
    out
}

} // verus!
