use vstd::prelude::*;

verus! {

/// Traversal order of a range request.
#[derive(Debug, Clone, Copy, PartialEq, Eq)]
pub enum Direction {
    /// Ascending key order: the collection's iteration order.
    Forward,
    /// Descending key order: the same window, reversed.
    Reverse,
}

/// A typed record together with the collection key it is stored under.
#[derive(Debug, PartialEq, Eq)]
pub struct KeyValuePair<T> {
    pub key: String,
    pub value: T,
}

/// A collection's storage footprint, read from the engine's numeric
/// properties: live sorted-table bytes, write-buffer bytes, blob bytes,
/// and their sum.
#[derive(Debug, Clone, Copy, PartialEq, Eq)]
pub struct CFSize {
    pub total_bytes: u64,
    pub sst_bytes: u64,
    pub mem_table_bytes: u64,
    pub blob_bytes: u64,
}

/// Builds a size breakdown from the engine's three property reads.  A
/// property the engine does not report counts as zero; the total is the
/// sum of the three parts, saturating at the top of the range.
pub fn size_from_properties(sst: Option<u64>, mem: Option<u64>, blob: Option<u64>) -> (r: CFSize)
    ensures
        r.sst_bytes == sst.unwrap_or(0),
        r.mem_table_bytes == mem.unwrap_or(0),
        r.blob_bytes == blob.unwrap_or(0),
        r.sst_bytes + r.mem_table_bytes + r.blob_bytes <= u64::MAX ==> r.total_bytes
            == r.sst_bytes + r.mem_table_bytes + r.blob_bytes,
        r.sst_bytes + r.mem_table_bytes + r.blob_bytes > u64::MAX ==> r.total_bytes == u64::MAX,
{
    let s = match sst {
        Some(v) => v,
        None => 0,
    };
    let m = match mem {
        Some(v) => v,
        None => 0,
    };
    let b = match blob {
        Some(v) => v,
        None => 0,
    };
    let sm = match s.checked_add(m) {
        Some(x) => x,
        None => u64::MAX,
    };
    let total = match sm.checked_add(b) {
        Some(x) => x,
        None => u64::MAX,
    };
    CFSize { total_bytes: total, sst_bytes: s, mem_table_bytes: m, blob_bytes: b }
}

} // verus!
