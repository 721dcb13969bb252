//! The records that a walk collects.

use vstd::prelude::*;

use crate::order::Row;

verus! {

/// A file or directory: its id, the id of the directory that holds it, and its path.
#[derive(Debug)]
pub struct FileRecord {
    pub id: u64,
    pub parent_id: u64,
    pub name: String,
}

/// A record as plain values.
pub struct RecordView {
    pub id: u64,
    pub parent_id: u64,
    pub name: Seq<char>,
}

impl View for FileRecord {
    type V = RecordView;

    open spec fn view(&self) -> RecordView {
        RecordView { id: self.id, parent_id: self.parent_id, name: self.name@ }
    }
}

impl Clone for FileRecord {
    fn clone(&self) -> (r: Self)
        ensures
            r == *self,
    {
        FileRecord { id: self.id, parent_id: self.parent_id, name: self.name.clone() }
    }
}

/// The records of a list as plain values.
pub open spec fn views(list: Seq<FileRecord>) -> Seq<RecordView> {
    Seq::new(list.len(), |i: int| list[i]@)
}

/// The entry that a record becomes: of its ids there is room for the low 32 bits.
pub open spec fn row_of(record: RecordView) -> Row {
    Row {
        id: (record.id % 0x1_0000_0000) as u32,
        parent_id: (record.parent_id % 0x1_0000_0000) as u32,
        path: record.name,
    }
}

/// The entries that records become.
pub open spec fn rows_of(records: Seq<RecordView>) -> Seq<Row> {
    Seq::new(records.len(), |i: int| row_of(records[i]))
}

/// Each record becomes one entry, in their order, with its path as it is and the low 32 bits of its
/// ids; ids that fit in 32 bits stay as they are.
pub proof fn rows_are_the_records(records: Seq<RecordView>, i: int)
    requires
        0 <= i < records.len(),
    ensures
        rows_of(records).len() == records.len(),
        rows_of(records)[i].path == records[i].name,
        rows_of(records)[i].id == records[i].id as int % 0x1_0000_0000,
        rows_of(records)[i].parent_id == records[i].parent_id as int % 0x1_0000_0000,
        records[i].id < 0x1_0000_0000 ==> rows_of(records)[i].id == records[i].id,
        records[i].parent_id < 0x1_0000_0000 ==> rows_of(records)[i].parent_id
            == records[i].parent_id,
{
}

/// The records of a list from `start` on.
pub(crate) fn copy_from(list: &Vec<FileRecord>, start: usize) -> (r: Vec<FileRecord>)
    requires
        start <= list@.len(),
    ensures
        r@ == list@.skip(start as int),
{
    let mut r: Vec<FileRecord> = Vec::new();
    let mut i: usize = start;
    assert(r@ =~= list@.subrange(start as int, i as int));
    while i < list.len()
        invariant
            start <= i <= list@.len(),
            r@ == list@.subrange(start as int, i as int),
        decreases list@.len() - i,
    {
        r.push(list[i].clone());
        assert(r@ =~= list@.subrange(start as int, i + 1));
        i = i + 1;
    }
    assert(r@ =~= list@.skip(start as int));
    r
}

/// How far an indexer has come.
#[derive(Debug, Clone, Copy, PartialEq, Eq, Structural)]
pub enum IndexerStatus {
    Idle,
    Running,
    Completed,
    Failed,
}

} // verus!
