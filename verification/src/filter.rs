//! Which records a caller wants to keep.

use crate::line::{ParsedData, Record};
use vstd::prelude::*;
use vstd::string::StringSliceAdditionalSpecFns;

verus! {

/// Whether two texts are the same, byte for byte.
pub fn same_bytes(a: &[u8], b: &[u8]) -> (r: bool)
    ensures
        r == (a@ == b@),
{
    if a.len() != b.len() {
        return false;
    }
    let mut i: usize = 0;
    while i < a.len()
        invariant
            i <= a.len(),
            a.len() == b.len(),
            forall|k: int| 0 <= k < i ==> a@[k] == b@[k],
        decreases a.len() - i,
    {
        if a[i] != b[i] {
            return false;
        }
        i = i + 1;
    }
    assert(a@ =~= b@);
    true
}

/// A selection of records by thread id and by task name. A part that is
/// absent selects everything.
#[derive(Clone, Copy, Debug, PartialEq, Eq)]
pub struct Filter<'a> {
    pub tid: Option<u64>,
    /// Compared with the whole task name, spaces in front of the identity
    /// field included.
    pub task_name: Option<&'a str>,
}

impl<'a> Filter<'a> {
    /// Whether the filter keeps `record`.
    pub open spec fn admits(self, record: Record) -> bool {
        &&& match self.tid {
            Some(tid) => record.tid == tid,
            None => true,
        }
        &&& match self.task_name {
            Some(name) => record.task_name == name.spec_bytes(),
            None => true,
        }
    }

    /// Whether the filter keeps `data`.
    pub fn accepts(&self, data: &ParsedData<'_>) -> (r: bool)
        ensures
            r == self.admits(data@),
    {
        let tid_fits = match self.tid {
            Some(tid) => data.tid == tid,
            None => true,
        };
        let name_fits = match self.task_name {
            Some(name) => same_bytes(data.task_name.as_bytes(), name.as_bytes()),
            None => true,
        };
        tid_fits && name_fits
    }
}

} // verus!
