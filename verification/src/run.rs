//! A whole run: what can be seen of it from outside is what its file holds.

use vstd::prelude::*;

use crate::drives::DriveView;
use crate::indexer;
use crate::indexer::IndexerState;
use crate::layout::IndexSource;
use crate::reader;
use crate::reader::IndexView;
use crate::records;
use crate::records::{IndexerStatus, RecordView};
use crate::roundtrip;
use crate::walk;
use crate::walk::{WalkEvent, WalkState, ROOT_ID};

verus! {

/// The walk of a run, after the given events.
pub open spec fn walked(events: Seq<WalkEvent>) -> WalkState {
    walk::after_all(walk::started("/"@, seq![indexer::root_record()]), events)
}

/// What the file of a run is made from.
pub open spec fn run_source(
    events: Seq<WalkEvent>,
    drives: Seq<DriveView>,
    compressed: bool,
) -> IndexSource {
    IndexSource { rows: records::rows_of(walked(events).records), drives, compressed }
}

/// The state of an indexer after a run whose walk has met with the given events and come to its end,
/// and whose file is written.
pub open spec fn completed(state: IndexerState, events: Seq<WalkEvent>) -> IndexerState {
    let begun = walk::started("/"@, seq![indexer::root_record()]);
    let found = walked(events);
    let now = indexer::absorbed_all(indexer::walk_begun(state), begun, events).absorbed(
        false,
        found.published(found.handed_on()),
    );
    IndexerState { status: indexer::final_status(Ok(())), ..now }
}

/// The `i`th entry of a file is that of a record: it has the record's id, its parent's id, and as its
/// name the record's, up to a NUL.
pub open spec fn entry_is(file: IndexView, i: int, record: RecordView) -> bool {
    let entry = file.entries[i];
    &&& entry.id == record.id
    &&& entry.parent_id == record.parent_id
    &&& reader::name_at(file.name_data, entry.name_off as int) == roundtrip::before_nul(record.name)
}

/// A file has an entry for a record.
pub open spec fn holds(file: IndexView, record: RecordView) -> bool {
    exists|i: int| 0 <= i < file.entries.len() && #[trigger] entry_is(file, i, record)
}

proof fn lemma_latest_id_bound(records: Seq<RecordView>, base: int, path: Seq<char>, bound: int)
    requires
        0 <= base,
        ROOT_ID < bound,
        forall|i: int| base <= i < records.len() ==> (#[trigger] records[i]).id < bound,
    ensures
        walk::latest_id(records, base, path) < bound,
    decreases records.len(),
{
    if base < records.len() && walk::key(records.last().name) != path {
        let init = records.drop_last();
        assert forall|i: int| base <= i < init.len() implies (#[trigger] init[i]).id < bound by {
            assert(init[i] == records[i]);
        }
        lemma_latest_id_bound(init, base, path, bound);
    }
}

/// The ids in the records of a run fit in the file.
proof fn lemma_ids_fit(events: Seq<WalkEvent>)
    requires
        events.len() + 2 <= u64::MAX,
        walked(events).next_id <= 0x1_0000_0000,
    ensures
        walked(events).records.len() > 0,
        walked(events).records[0] == indexer::root_record(),
        forall|i: int|
            0 <= i < walked(events).records.len() ==> (#[trigger] walked(events).records[i]).id
                < 0x1_0000_0000 && walked(events).records[i].parent_id < 0x1_0000_0000,
{
    let begun = walk::started("/"@, seq![indexer::root_record()]);
    let state = walked(events);
    let found = state.records;
    walk::walk_begins_consistent("/"@, seq![indexer::root_record()]);
    walk::run_keeps_consistent(begun, 1, events);
    walk::run_hands_on_in_order(begun, events);
    assert(found[0] == found.take(1)[0]);
    assert forall|i: int| 0 <= i < found.len() implies (#[trigger] found[i]).id < 0x1_0000_0000
        && found[i].parent_id < 0x1_0000_0000 by {
        if i > 0 {
            let before = found.take(i);
            assert forall|j: int| 1 <= j < before.len() implies (#[trigger] before[j]).id
                < 0x1_0000_0000 by {
                assert(before[j] == found[j]);
            }
            lemma_latest_id_bound(
                before,
                1,
                walk::parent_key(state.root, found[i].name),
                0x1_0000_0000,
            );
        }
    }
}

/// After a run that is completed, the records that can be seen are the root and then those of its
/// walk; the file, opened again, holds an entry for each of them, with the same id, parent and name,
/// and none besides. This holds of all runs whose ids and name offsets the file has room for.
pub proof fn seen_records_are_those_of_the_file(
    state: IndexerState,
    events: Seq<WalkEvent>,
    drives: Seq<DriveView>,
    compressed: bool,
    timestamp: i64,
)
    requires
        events.len() + 2 <= u64::MAX,
        walked(events).next_id <= 0x1_0000_0000,
        forall|i: int|
            0 <= i < walked(events).records.len() ==> #[trigger] roundtrip::name_offset(
                run_source(events, drives, compressed).sorted(),
                i,
            ) < 0x1_0000_0000,
    ensures
        ({
            let seen = completed(state, events).records;
            let file = roundtrip::written_contents(
                run_source(events, drives, compressed),
                timestamp,
            );
            &&& completed(state, events).status == IndexerStatus::Completed
            &&& seen == seq![indexer::root_record()] + walked(events).records
            &&& seen[0] == indexer::root_record()
            &&& file.entries.len() == walked(events).records.len()
            &&& forall|i: int|
                0 <= i < file.entries.len() ==> #[trigger] entry_is(file, i, seen[i + 1])
            &&& forall|k: int| 0 <= k < seen.len() ==> holds(file, #[trigger] seen[k])
        }),
{
    let begun = walk::started("/"@, seq![indexer::root_record()]);
    let found = walked(events);
    let source = run_source(events, drives, compressed);
    let rows = source.rows;
    let file = roundtrip::written_contents(source, timestamp);
    let seen = completed(state, events).records;
    indexer::progress_counts_records(state, events);
    indexer::file_keeps_the_order_of_the_walk(events);
    walk::run_hands_on_in_order(begun, events);
    lemma_ids_fit(events);
    assert(found.records.take(found.synced) + found.records.subrange(
        found.synced,
        found.records.len() as int,
    ) =~= found.records);
    assert(seen =~= seq![indexer::root_record()] + found.records);
    assert forall|i: int| 0 <= i < file.entries.len() implies #[trigger] entry_is(
        file,
        i,
        seen[i + 1],
    ) by {
        assert(seen[i + 1] == found.records[i]);
        assert(source.sorted() == rows);
        assert(roundtrip::name_offset(source.sorted(), i) < 0x1_0000_0000);
        assert(rows[i] == records::row_of(found.records[i]));
        roundtrip::entry_of_an_id(source, timestamp, i, i);
    }
    assert forall|k: int| 0 <= k < seen.len() implies holds(file, #[trigger] seen[k]) by {
        if k == 0 {
            assert(seen[1] == found.records[0]);
            assert(entry_is(file, 0, seen[0int + 1]));
            assert(entry_is(file, 0, seen[k]));
        } else {
            assert(entry_is(file, k - 1, seen[(k - 1) + 1]));
        }
    }
}

/// The name that the file has for a record without NUL is the record's.
pub proof fn name_in_file_is_whole(file: IndexView, i: int, record: RecordView)
    requires
        entry_is(file, i, record),
        forall|k: int| 0 <= k < record.name.len() ==> record.name[k] != '\0',
    ensures
        reader::name_at(file.name_data, file.entries[i].name_off as int) == record.name,
{
    roundtrip::before_nul_is_whole(record.name);
}

} // verus!
