//! The state of an indexer, from the start of a run to its end.

use std::path::PathBuf;

use vstd::prelude::*;

use crate::ignore::{IgnoreConfig, IgnoreRules};
use crate::order;
use crate::records;
use crate::records::{FileRecord, IndexerStatus, RecordView};
use crate::text;
use crate::walk;
use crate::walk::{Walk, WalkAction, WalkEvent, WalkState, ROOT_ID};

verus! {

/// `std::path::PathBuf`, carried through as it is.
#[verifier::external_type_specification]
#[verifier::external_body]
pub struct ExPathBuf(std::path::PathBuf);

/// An indexer: where its file goes, by which rules it walks, how far it has come and what it has
/// found so far.
pub struct Indexer {
    status: IndexerStatus,
    progress: u64,
    records: Vec<FileRecord>,
    output: PathBuf,
    pub compressed: bool,
    ignore: IgnoreConfig,
}

/// The state of an indexer as plain values.
pub struct IndexerState {
    pub status: IndexerStatus,
    pub progress: u64,
    pub records: Seq<RecordView>,
    pub output: PathBuf,
    pub compressed: bool,
    pub ignore: IgnoreRules,
}

/// The settings of an indexer that a run works by.
#[derive(Debug)]
pub struct RunSettings {
    pub compressed: bool,
    pub ignore: IgnoreConfig,
}

impl View for Indexer {
    type V = IndexerState;

    closed spec fn view(&self) -> IndexerState {
        IndexerState {
            status: self.status,
            progress: self.progress,
            records: records::views(self.records@),
            output: self.output,
            compressed: self.compressed,
            ignore: self.ignore@,
        }
    }
}

/// The record that every run starts from.
pub open spec fn root_record() -> RecordView {
    RecordView { id: ROOT_ID, parent_id: 0, name: "/"@ }
}

impl IndexerState {
    /// At the start of a run.
    pub open spec fn running(self) -> IndexerState {
        IndexerState {
            status: IndexerStatus::Running,
            progress: 0,
            records: Seq::<RecordView>::empty(),
            ..self
        }
    }

    /// With one more step of progress; the count wraps around.
    pub open spec fn advanced(self) -> IndexerState {
        IndexerState { progress: ((self.progress + 1) % 0x1_0000_0000_0000_0000) as u64, ..self }
    }

    /// After a walk has answered an event.
    pub open spec fn absorbed(self, recorded: bool, publish: Seq<RecordView>) -> IndexerState {
        let counted = if recorded {
            self.advanced()
        } else {
            self
        };
        IndexerState { records: self.records + publish, ..counted }
    }
}

/// The status that a run ends in: done, given up because it was cancelled, or failed.
pub open spec fn final_status(outcome: Result<(), Seq<char>>) -> IndexerStatus {
    match outcome {
        Ok(_) => IndexerStatus::Completed,
        Err(message) => if message == "cancelled"@ {
            IndexerStatus::Idle
        } else {
            IndexerStatus::Failed
        },
    }
}

impl Indexer {
    /// An idle indexer that packs names and has no rules.
    pub fn new(output: PathBuf) -> (r: Self)
        ensures
            r@.status == IndexerStatus::Idle,
            r@.progress == 0,
            r@.records == Seq::<RecordView>::empty(),
            r@.output == output,
            r@.compressed,
            r@.ignore.dir_prefixes == Seq::<Seq<char>>::empty(),
            r@.ignore.file_names == Seq::<Seq<char>>::empty(),
            r@.ignore.file_exts == Seq::<Seq<char>>::empty(),
    {
        let r = Indexer {
            status: IndexerStatus::Idle,
            progress: 0,
            records: Vec::new(),
            output,
            compressed: true,
            ignore: IgnoreConfig::new(),
        };
        assert(r@.records =~= Seq::<RecordView>::empty());
        r
    }

    /// Sets the rules.
    pub fn set_ignore_config(&mut self, config: IgnoreConfig)
        ensures
            final(self)@ == (IndexerState { ignore: config@, ..old(self)@ }),
    {
        self.ignore = config;
    }

    /// Sets whether the names are packed.
    pub fn set_compressed(&mut self, compressed: bool)
        ensures
            final(self)@ == (IndexerState { compressed, ..old(self)@ }),
    {
        self.compressed = compressed;
    }

    /// The rules.
    pub fn ignore_config(&self) -> (r: &IgnoreConfig)
        ensures
            r@ == self@.ignore,
    {
        &self.ignore
    }

    /// A copy of the settings, for a run to work by; what is set later does not reach it.
    pub fn run_settings(&self) -> (r: RunSettings)
        ensures
            r.compressed == self@.compressed,
            r.ignore@ == self@.ignore,
    {
        RunSettings { compressed: self.compressed, ignore: self.ignore.clone() }
    }

    /// Where the file goes.
    pub fn output(&self) -> (r: &PathBuf)
        ensures
            *r == self@.output,
    {
        &self.output
    }

    /// How far the indexer has come.
    pub fn status(&self) -> (r: IndexerStatus)
        ensures
            r == self@.status,
    {
        self.status
    }

    /// How many records there are so far.
    pub fn progress(&self) -> (r: u64)
        ensures
            r == self@.progress,
    {
        self.progress
    }

    /// The records that were handed on so far.
    pub fn partial_records(&self) -> (r: Vec<FileRecord>)
        ensures
            records::views(r@) == self@.records,
    {
        let r = records::copy_from(&self.records, 0);
        assert(records::views(r@) =~= self@.records);
        r
    }

    /// Starts a run, unless one is under way; says whether it did.
    pub fn start(&mut self) -> (r: bool)
        ensures
            r == (old(self)@.status != IndexerStatus::Running),
            final(self)@ == (if r {
                old(self)@.running()
            } else {
                old(self)@
            }),
    {
        if self.status == IndexerStatus::Running {
            return false;
        }
        self.status = IndexerStatus::Running;
        self.progress = 0;
        self.records = Vec::new();
        assert(self@.records =~= Seq::<RecordView>::empty());
        true
    }

    /// Begins the walk of a run at `/`: the root is recorded.
    pub fn begin_walk(&mut self) -> (r: Walk)
        ensures
            final(self)@ == (IndexerState {
                records: seq![root_record()],
                ..old(self)@.advanced()
            }),
            r@ == walk::started("/"@, seq![root_record()]),
            r@.wf(),
    {
        let root = FileRecord { id: ROOT_ID, parent_id: 0, name: "/".to_string() };
        self.advance();
        self.records = Vec::new();
        self.records.push(root.clone());
        let mut found: Vec<FileRecord> = Vec::new();
        found.push(root);
        assert(self@.records =~= seq![root_record()]);
        assert(records::views(found@) =~= seq![root_record()]);
        Walk::new("/", found)
    }

    fn advance(&mut self)
        ensures
            final(self)@ == old(self)@.advanced(),
    {
        self.progress = self.progress.wrapping_add(1);
    }

    /// Does what a walk has answered: counts the new record, and takes over those handed on.
    pub fn absorb(&mut self, action: WalkAction)
        ensures
            final(self)@ == old(self)@.absorbed(action.recorded, records::views(action.publish@)),
    {
        if action.recorded {
            self.advance();
        }
        self.take_over(action.publish);
    }

    /// Takes over records that a walk hands on.
    pub fn take_over(&mut self, publish: Vec<FileRecord>)
        ensures
            final(self)@ == old(self)@.absorbed(false, records::views(publish@)),
    {
        let mut more = publish;
        self.records.append(&mut more);
        assert(self@.records =~= old(self)@.records + records::views(publish@));
    }

    /// Ends the walk of a run. If it was cancelled the run is over, and the indexer idle; says
    /// whether the file is to be written.
    pub fn end_walk(&mut self, cancelled: bool) -> (r: bool)
        ensures
            r == !cancelled,
            final(self)@ == (if cancelled {
                IndexerState { status: IndexerStatus::Idle, ..old(self)@ }
            } else {
                old(self)@
            }),
    {
        if cancelled {
            self.status = IndexerStatus::Idle;
        }
        !cancelled
    }

    /// Ends a run, given what writing the file came to.
    pub fn end_run(&mut self, outcome: &Result<(), String>)
        ensures
            final(self)@ == (IndexerState {
                status: final_status(
                    match *outcome {
                        Ok(_) => Ok(()),
                        Err(message) => Err(message@),
                    },
                ),
                ..old(self)@
            }),
    {
        self.status = match outcome {
            Ok(_) => IndexerStatus::Completed,
            Err(message) => if text::same_text(message.as_str(), "cancelled") {
                IndexerStatus::Idle
            } else {
                IndexerStatus::Failed
            },
        };
    }
}

/// After a run of events, each answered by the walk.
pub open spec fn absorbed_all(
    state: IndexerState,
    walk: WalkState,
    events: Seq<WalkEvent>,
) -> IndexerState
    decreases events.len(),
{
    if events.len() == 0 {
        state
    } else {
        let before = walk::after_all(walk, events.drop_last());
        absorbed_all(state, walk, events.drop_last()).absorbed(
            events.last() matches WalkEvent::Entry(path) && path is Some,
            before.published(before.after(events.last())),
        )
    }
}

/// The state at the beginning of the walk of a run.
pub open spec fn walk_begun(state: IndexerState) -> IndexerState {
    IndexerState { records: seq![root_record()], ..state.running().advanced() }
}

/// At every point of a run the progress is the number of records that the walk has made, and what
/// can be seen from outside is the root, followed by the records of the walk in their order, as far
/// as they were handed on.
pub proof fn progress_counts_records(state: IndexerState, events: Seq<WalkEvent>)
    requires
        events.len() + 2 <= u64::MAX,
    ensures
        ({
            let begun = walk::started("/"@, seq![root_record()]);
            let now = absorbed_all(walk_begun(state), begun, events);
            let found = walk::after_all(begun, events);
            &&& now.status == IndexerStatus::Running
            &&& now.progress == found.records.len()
            &&& now.records == seq![root_record()] + found.records.take(found.synced)
        }),
    decreases events.len(),
{
    let begun = walk::started("/"@, seq![root_record()]);
    let now = absorbed_all(walk_begun(state), begun, events);
    let found = walk::after_all(begun, events);
    walk::run_hands_on_in_order(begun, events);
    lemma_absorbed(walk_begun(state), begun, events);
    assert(found.records.subrange(0, found.synced) =~= found.records.take(found.synced));
}

/// A run leaves the settings as they were when it started.
pub proof fn run_keeps_settings(state: IndexerState, walk: WalkState, events: Seq<WalkEvent>)
    ensures
        ({
            let now = absorbed_all(walk_begun(state), walk, events);
            &&& now.output == state.output
            &&& now.ignore == state.ignore
            &&& now.compressed == state.compressed
        }),
    decreases events.len(),
{
    if events.len() > 0 {
        run_keeps_settings(state, walk, events.drop_last());
    }
}

/// Settings that are made during a run change nothing that can be seen of it.
pub proof fn settings_do_not_reach_a_run(
    state: IndexerState,
    ignore: IgnoreRules,
    compressed: bool,
    walk: WalkState,
    events: Seq<WalkEvent>,
)
    ensures
        absorbed_all(IndexerState { ignore, compressed, ..state }, walk, events) == (IndexerState {
            ignore,
            compressed,
            ..absorbed_all(state, walk, events)
        }),
    decreases events.len(),
{
    if events.len() > 0 {
        settings_do_not_reach_a_run(state, ignore, compressed, walk, events.drop_last());
    }
}

/// What a run that is started shows at once is the new run alone: nothing is left of an earlier one,
/// and the first record is the root.
pub proof fn start_forgets_earlier_runs(state: IndexerState)
    ensures
        state.running().status == IndexerStatus::Running,
        state.running().progress == 0,
        state.running().records.len() == 0,
        walk_begun(state).status == IndexerStatus::Running,
        walk_begun(state).progress == 1,
        walk_begun(state).records == seq![root_record()],
        root_record().id == 1,
        root_record().parent_id == 0,
        root_record().name == "/"@,
{
}

/// The records of a run stand in its file as the walk made them: no two have the same id, and the
/// order by id is the order of the walk. This holds of all runs whose ids the file has room for.
pub proof fn file_keeps_the_order_of_the_walk(events: Seq<WalkEvent>)
    requires
        events.len() + 2 <= u64::MAX,
        walk::after_all(walk::started("/"@, seq![root_record()]), events).next_id <= 0x1_0000_0000,
    ensures
        ({
            let found = walk::after_all(walk::started("/"@, seq![root_record()]), events);
            let rows = records::rows_of(found.records);
            order::distinct_ids(rows) && order::by_id(rows) == rows
        }),
{
    let begun = walk::started("/"@, seq![root_record()]);
    let found = walk::after_all(begun, events).records;
    let rows = records::rows_of(found);
    walk::walk_begins_consistent("/"@, seq![root_record()]);
    walk::run_keeps_consistent(begun, 1, events);
    walk::run_hands_on_in_order(begun, events);
    assert(found[0] == found.take(1)[0]);
    assert forall|i: int, j: int| 0 <= i < j < rows.len() implies rows[i].id < rows[j].id by {
        assert(found[j].id >= 2);
        if i > 0 {
            assert(found[i].id < found[j].id);
        }
    }
    order::by_id_keeps_order(rows);
}

proof fn lemma_absorbed(state: IndexerState, walk: WalkState, events: Seq<WalkEvent>)
    requires
        state.progress + events.len() <= u64::MAX,
    ensures
        ({
            let now = absorbed_all(state, walk, events);
            &&& now.status == state.status
            &&& now.progress == state.progress + walk::recorded_by(events)
            &&& walk::recorded_by(events) <= events.len()
            &&& now.records == state.records + walk::published_by(walk, events)
        }),
    decreases events.len(),
{
    if events.len() > 0 {
        lemma_absorbed(state, walk, events.drop_last());
    }
    assert(absorbed_all(state, walk, events).records =~= state.records + walk::published_by(
        walk,
        events,
    ));
}

/// A run that could write its file is completed; one that ended in the message "cancelled", and in no
/// other, leaves the indexer idle; every other message means that it has failed.
pub proof fn status_tells_the_outcome(outcome: Result<(), Seq<char>>)
    ensures
        final_status(outcome) == IndexerStatus::Completed <==> outcome is Ok,
        final_status(outcome) == IndexerStatus::Idle <==> outcome == Err::<(), Seq<char>>(
            "cancelled"@,
        ),
        final_status(outcome) == IndexerStatus::Failed <==> outcome is Err && outcome->Err_0
            != "cancelled"@,
        final_status(outcome) != IndexerStatus::Running,
{
}

/// Whatever the state, absorbing an answer of a walk puts the records that are handed on behind those
/// that were there, counts one more if there is a new record, and changes nothing else.
pub proof fn absorbing_appends(state: IndexerState, recorded: bool, publish: Seq<RecordView>)
    ensures
        ({
            let now = state.absorbed(recorded, publish);
            &&& now.records == state.records + publish
            &&& !recorded ==> now.progress == state.progress
            &&& recorded && state.progress < u64::MAX ==> now.progress == state.progress + 1
            &&& recorded && state.progress == u64::MAX ==> now.progress == 0
            &&& now.status == state.status
            &&& now.output == state.output
            &&& now.compressed == state.compressed
            &&& now.ignore == state.ignore
        }),
{
}

} // verus!
