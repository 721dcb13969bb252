//! The walk that collects the records of an index.
//!
//! Whoever reads the directories tells the walk what happens, event by event, and does what it
//! answers.

use vstd::hash_map::StringHashMap;
use vstd::prelude::*;

use crate::paths;
use crate::records;
use crate::records::{FileRecord, RecordView};

verus! {

/// The id of the record that a walk starts from.
pub const ROOT_ID: u64 = 1;

/// How many new records are handed on at once.
pub const BATCH: usize = 5000;

/// Something that happens on a walk.
#[derive(Debug)]
pub enum WalkEvent {
    /// The walk was cancelled.
    Cancelled,
    /// What was next could not be read.
    Failed,
    /// A file or directory was reached: its path, unless that is not Unicode.
    Entry(Option<String>),
}

/// What is to be done after an event.
#[derive(Debug)]
pub struct WalkAction {
    /// The walk is over.
    pub stop: bool,
    /// There is a new record.
    pub recorded: bool,
    /// The records to hand on.
    pub publish: Vec<FileRecord>,
}

/// The state of a walk.
pub struct Walk {
    root: String,
    records: Vec<FileRecord>,
    /// The id of what was last recorded at each path.
    parent_ids: StringHashMap<u64>,
    next_id: u64,
    last_sync: usize,
}

/// The state of a walk as plain values; paths are in their shortest form.
pub struct WalkState {
    pub root: Seq<char>,
    pub records: Seq<RecordView>,
    pub parent_ids: Map<Seq<char>, u64>,
    pub next_id: u64,
    pub synced: int,
}

impl View for Walk {
    type V = WalkState;

    closed spec fn view(&self) -> WalkState {
        WalkState {
            root: self.root@,
            records: records::views(self.records@),
            parent_ids: self.parent_ids@,
            next_id: self.next_id,
            synced: self.last_sync as int,
        }
    }
}

/// The shortest form of a path.
pub open spec fn key(path: Seq<char>) -> Seq<char> {
    paths::key_of(paths::path_of(path))
}

/// The shortest form of the directory that holds `path`; what has none is held by the root.
pub open spec fn parent_key(root: Seq<char>, path: Seq<char>) -> Seq<char> {
    match paths::parent_of(paths::path_of(path)) {
        Some(parent) => paths::key_of(parent),
        None => root,
    }
}

/// The state in which a walk from `root` begins, with the records that are there already.
pub open spec fn started(root: Seq<char>, records: Seq<RecordView>) -> WalkState {
    WalkState {
        root: key(root),
        records,
        parent_ids: Map::<Seq<char>, u64>::empty().insert(key(root), ROOT_ID),
        next_id: 2,
        synced: 0,
    }
}

impl WalkState {
    /// Not more is handed on than there is.
    pub open spec fn wf(self) -> bool {
        0 <= self.synced <= self.records.len()
    }

    /// The id known for a path; where there is none, that of the root.
    pub open spec fn id_of(self, path: Seq<char>) -> u64 {
        if self.parent_ids.contains_key(path) {
            self.parent_ids[path]
        } else {
            ROOT_ID
        }
    }

    /// The record that reaching `path` gives.
    pub open spec fn record_for(self, path: Seq<char>) -> RecordView {
        RecordView {
            id: self.next_id,
            parent_id: self.id_of(parent_key(self.root, path)),
            name: path,
        }
    }

    /// After something was reached. Every such thing takes an id; what has a path is recorded.
    pub open spec fn reached(self, path: Option<Seq<char>>) -> WalkState {
        let next_id = (self.next_id + 1) as u64;
        match path {
            Some(path) => WalkState {
                records: self.records.push(self.record_for(path)),
                parent_ids: self.parent_ids.insert(key(path), self.next_id),
                next_id,
                ..self
            },
            None => WalkState { next_id, ..self },
        }
    }

    /// There are enough new records to hand them on.
    pub open spec fn batch_full(self) -> bool {
        self.records.len() - self.synced >= BATCH
    }

    /// After all records were handed on.
    pub open spec fn handed_on(self) -> WalkState {
        WalkState { synced: self.records.len() as int, ..self }
    }

    /// After an event.
    pub open spec fn after(self, event: WalkEvent) -> WalkState {
        match event {
            WalkEvent::Entry(path) => {
                let now = self.reached(
                    match path {
                        Some(path) => Some(path@),
                        None => None,
                    },
                );
                if now.batch_full() {
                    now.handed_on()
                } else {
                    now
                }
            },
            _ => self,
        }
    }

    /// The records that are handed on when this state becomes `now`.
    pub open spec fn published(self, now: WalkState) -> Seq<RecordView> {
        now.records.subrange(self.synced, now.synced)
    }
}

impl Walk {
    /// A walk from `root`, with the records that are there already.
    pub fn new(root: &str, records: Vec<FileRecord>) -> (r: Self)
        ensures
            r@ == started(root@, records::views(records@)),
            r@.wf(),
    {
        let key = paths::path_key(root);
        let mut parent_ids: StringHashMap<u64> = StringHashMap::new();
        parent_ids.insert(key.clone(), ROOT_ID);
        Walk { root: key, records, parent_ids, next_id: 2, last_sync: 0 }
    }

    /// The id that what is reached next will take.
    pub fn next_id(&self) -> (r: u64)
        ensures
            r == self@.next_id,
    {
        self.next_id
    }

    /// The records so far.
    pub fn records(&self) -> (r: &Vec<FileRecord>)
        ensures
            records::views(r@) == self@.records,
    {
        &self.records
    }

    fn reach(&mut self, path: Option<String>)
        requires
            old(self)@.next_id < u64::MAX,
        ensures
            final(self)@ == old(self)@.reached(
                match path {
                    Some(path) => Some(path@),
                    None => None,
                },
            ),
    {
        let id: u64 = self.next_id;
        self.next_id = id + 1;
        if let Some(name) = path {
            let parent = match paths::parent_key(name.as_str()) {
                Some(parent) => parent,
                None => self.root.clone(),
            };
            let parent_id: u64 = match self.parent_ids.get(parent.as_str()) {
                Some(known) => *known,
                None => ROOT_ID,
            };
            self.parent_ids.insert(paths::path_key(name.as_str()), id);
            let record = FileRecord { id, parent_id, name };
            self.records.push(record);
            assert(self@.records =~= old(self)@.records.push(record@));
        }
    }

    /// Takes in an event. A cancelled walk stops where it is; what could not be read is passed
    /// over; what was reached is recorded, and once there are enough new records they are handed
    /// on.
    pub fn step(&mut self, event: WalkEvent) -> (r: WalkAction)
        requires
            old(self)@.wf(),
            old(self)@.next_id < u64::MAX,
        ensures
            final(self)@ == old(self)@.after(event),
            final(self)@.wf(),
            r.stop == (event is Cancelled),
            r.recorded == (event matches WalkEvent::Entry(path) && path is Some),
            records::views(r.publish@) == old(self)@.published(final(self)@),
    {
        let mut action = WalkAction { stop: false, recorded: false, publish: Vec::new() };
        match event {
            WalkEvent::Cancelled => {
                action.stop = true;
            },
            WalkEvent::Failed => {},
            WalkEvent::Entry(path) => {
                action.recorded = path.is_some();
                self.reach(path);
                let ghost before = self@;
                assert(before.records.len() >= old(self)@.records.len());
                assert(before.records.len() == self.records@.len());
                if self.records.len() - self.last_sync >= BATCH {
                    action.publish = records::copy_from(&self.records, self.last_sync);
                    self.last_sync = self.records.len();
                    assert(self@ == before.handed_on());
                }
            },
        }
        assert(records::views(action.publish@) =~= old(self)@.published(self@));
        action
    }

    /// Ends a walk that was not cancelled: the records that were not handed on yet.
    pub fn finish(&mut self) -> (r: Vec<FileRecord>)
        requires
            old(self)@.wf(),
        ensures
            final(self)@ == old(self)@.handed_on(),
            final(self)@.wf(),
            records::views(r@) == old(self)@.published(final(self)@),
    {
        let r = records::copy_from(&self.records, self.last_sync);
        self.last_sync = self.records.len();
        assert(records::views(r@) =~= old(self)@.published(self@));
        r
    }
}

/// The id of the last of the records from `base` on that was made for `path` (in its shortest
/// form); the root's if there is none.
pub open spec fn latest_id(records: Seq<RecordView>, base: int, path: Seq<char>) -> u64
    decreases records.len(),
{
    if records.len() <= base || records.len() == 0 {
        ROOT_ID
    } else if key(records.last().name) == path {
        records.last().id
    } else {
        latest_id(records.drop_last(), base, path)
    }
}

/// What holds at every point of a walk that began with `base` records: ids grow from 2 on and are
/// used once; the id known for a path is that of the last record made for it; and each record has
/// as its parent the last record that was made before it for the directory that holds it, or else
/// the root.
pub open spec fn consistent(state: WalkState, base: int) -> bool {
    &&& 0 <= base <= state.records.len()
    &&& state.next_id >= 2
    &&& forall|i: int|
        base <= i < state.records.len() ==> 2 <= (#[trigger] state.records[i]).id < state.next_id
    &&& forall|i: int, j: int|
        base <= i < j < state.records.len() ==> (#[trigger] state.records[i]).id < (
        #[trigger] state.records[j]).id
    &&& forall|path: Seq<char>| #[trigger]
        state.id_of(path) == latest_id(state.records, base, path)
    &&& forall|i: int|
        base <= i < state.records.len() ==> (#[trigger] state.records[i]).parent_id == latest_id(
            state.records.take(i),
            base,
            parent_key(state.root, state.records[i].name),
        )
}

/// A walk begins consistently.
pub proof fn walk_begins_consistent(root: Seq<char>, records: Seq<RecordView>)
    ensures
        consistent(started(root, records), records.len() as int),
{
}

/// Every event keeps a walk consistent, and the records that were there before it.
pub proof fn step_keeps_consistent(state: WalkState, base: int, event: WalkEvent)
    requires
        consistent(state, base),
        state.next_id < u64::MAX,
    ensures
        consistent(state.after(event), base),
        state.records.len() <= state.after(event).records.len(),
        state.after(event).records.take(state.records.len() as int) == state.records,
        state.after(event).root == state.root,
{
    let now = state.after(event);
    if let WalkEvent::Entry(found) = event {
        if let Some(p) = found {
            let path = p@;
            let n = state.records.len() as int;
            let record = state.record_for(path);
            assert(now.records == state.records.push(record));
            assert(now.records.drop_last() =~= state.records);
            assert(now.records.take(n) =~= state.records);
            assert forall|other: Seq<char>| #[trigger] now.id_of(other) == latest_id(
                now.records,
                base,
                other,
            ) by {
                assert(state.id_of(other) == latest_id(state.records, base, other));
            }
            assert forall|i: int| base <= i < now.records.len() implies (
            #[trigger] now.records[i]).parent_id == latest_id(
                now.records.take(i),
                base,
                parent_key(now.root, now.records[i].name),
            ) by {
                if i < n {
                    assert(now.records.take(i) =~= state.records.take(i));
                    assert(state.records[i].parent_id == latest_id(
                        state.records.take(i),
                        base,
                        parent_key(state.root, state.records[i].name),
                    ));
                }
            }
        } else {
            assert(now.records.take(state.records.len() as int) =~= state.records);
            assert forall|other: Seq<char>| #[trigger] now.id_of(other) == latest_id(
                now.records,
                base,
                other,
            ) by {
                assert(state.id_of(other) == latest_id(state.records, base, other));
            }
        }
    } else {
        assert(now.records.take(state.records.len() as int) =~= state.records);
    }
}

/// After a run of events.
pub open spec fn after_all(state: WalkState, events: Seq<WalkEvent>) -> WalkState
    decreases events.len(),
{
    if events.len() == 0 {
        state
    } else {
        after_all(state, events.drop_last()).after(events.last())
    }
}

/// Everything that is handed on in a run of events.
pub open spec fn published_by(state: WalkState, events: Seq<WalkEvent>) -> Seq<RecordView>
    decreases events.len(),
{
    if events.len() == 0 {
        Seq::<RecordView>::empty()
    } else {
        let before = after_all(state, events.drop_last());
        published_by(state, events.drop_last()) + before.published(before.after(events.last()))
    }
}

/// How many of the events give a record.
pub open spec fn recorded_by(events: Seq<WalkEvent>) -> nat
    decreases events.len(),
{
    if events.len() == 0 {
        0
    } else {
        recorded_by(events.drop_last()) + (if events.last() matches WalkEvent::Entry(path) && path
            is Some {
            1nat
        } else {
            0nat
        })
    }
}

/// A run of events hands on each record once and in order, gives one record for each event that
/// says so, and takes at most one id for each event.
pub proof fn run_hands_on_in_order(state: WalkState, events: Seq<WalkEvent>)
    requires
        state.wf(),
        state.next_id + events.len() <= u64::MAX,
    ensures
        after_all(state, events).wf(),
        state.synced <= after_all(state, events).synced,
        published_by(state, events) == after_all(state, events).records.subrange(
            state.synced,
            after_all(state, events).synced,
        ),
        after_all(state, events).records.len() == state.records.len() + recorded_by(events),
        after_all(state, events).records.take(state.records.len() as int) == state.records,
        after_all(state, events).next_id <= state.next_id + events.len(),
    decreases events.len(),
{
    if events.len() == 0 {
        assert(state.records.subrange(state.synced, state.synced) =~= Seq::<RecordView>::empty());
        assert(state.records.take(state.records.len() as int) =~= state.records);
    } else {
        let init = events.drop_last();
        run_hands_on_in_order(state, init);
        let before = after_all(state, init);
        let now = before.after(events.last());
        assert(now.records.take(before.records.len() as int) =~= before.records);
        assert(now.records.take(state.records.len() as int) =~= before.records.take(
            state.records.len() as int,
        ));
        assert(now.records.subrange(state.synced, now.synced) =~= before.records.subrange(
            state.synced,
            before.synced,
        ) + now.records.subrange(before.synced, now.synced));
    }
}

/// A walk stays consistent over any run of events.
pub proof fn run_keeps_consistent(state: WalkState, base: int, events: Seq<WalkEvent>)
    requires
        state.wf(),
        consistent(state, base),
        state.next_id + events.len() <= u64::MAX,
    ensures
        consistent(after_all(state, events), base),
    decreases events.len(),
{
    if events.len() > 0 {
        let init = events.drop_last();
        run_keeps_consistent(state, base, init);
        run_hands_on_in_order(state, init);
        step_keeps_consistent(after_all(state, init), base, events.last());
    }
}

/// An event adds exactly what it tells: what was reached under a path gives one more record, with the
/// next id and that path, character for character; what was reached without one only takes the id; and
/// what could not be read, or a cancelled walk, changes nothing.
pub proof fn step_records_the_path(state: WalkState, event: WalkEvent)
    requires
        state.next_id < u64::MAX,
    ensures
        ({
            let now = state.after(event);
            match event {
                WalkEvent::Entry(Some(path)) => {
                    &&& now.records.len() == state.records.len() + 1
                    &&& now.records.drop_last() == state.records
                    &&& now.records.last().name == path@
                    &&& now.records.last().id == state.next_id
                    &&& now.next_id == state.next_id + 1
                    &&& now.root == state.root
                },
                WalkEvent::Entry(None) => {
                    &&& now.records == state.records
                    &&& now.next_id == state.next_id + 1
                    &&& now.parent_ids == state.parent_ids
                    &&& now.root == state.root
                },
                _ => now == state,
            }
        }),
{
    if let WalkEvent::Entry(Some(path)) = event {
        assert(state.after(event).records.drop_last() =~= state.records);
    }
}

/// Records are handed on once there are 5000 of them that were not, all together, so that never as
/// many are left behind.
pub proof fn batches_are_whole(state: WalkState, event: WalkEvent)
    requires
        state.wf(),
        state.records.len() - state.synced < 5000,
    ensures
        ({
            let now = state.after(event);
            &&& now.records.len() - now.synced < 5000
            &&& if now.records.len() - state.synced >= 5000 {
                &&& now.synced == now.records.len()
                &&& state.published(now) == now.records.skip(state.synced)
            } else {
                &&& now.synced == state.synced
                &&& state.published(now).len() == 0
            }
        }),
{
    let now = state.after(event);
    if now.records.len() - state.synced >= 5000 {
        assert(state.published(now) =~= now.records.skip(state.synced));
    }
}

/// How many of the events reach something, under a path or not.
pub open spec fn reached_by(events: Seq<WalkEvent>) -> nat
    decreases events.len(),
{
    if events.len() == 0 {
        0
    } else {
        reached_by(events.drop_last()) + (if events.last() is Entry {
            1nat
        } else {
            0nat
        })
    }
}

proof fn lemma_ids_of_a_run(state: WalkState, events: Seq<WalkEvent>)
    requires
        state.next_id + events.len() <= u64::MAX,
    ensures
        reached_by(events) <= events.len(),
        after_all(state, events).next_id == state.next_id + reached_by(events),
        after_all(state, events).root == state.root,
        after_all(state, events).records.len() == state.records.len() + recorded_by(events),
    decreases events.len(),
{
    if events.len() > 0 {
        lemma_ids_of_a_run(state, events.drop_last());
    }
}

/// Every event of a run that reaches something under a path has its record: behind those that were
/// there, in the order of the events, with the path of the event, character for character, and with
/// the id that the events before it have left. There are no other new records.
pub proof fn events_are_recorded(state: WalkState, events: Seq<WalkEvent>, j: int, path: String)
    requires
        state.next_id + events.len() <= u64::MAX,
        0 <= j < events.len(),
        events[j] == WalkEvent::Entry(Some(path)),
    ensures
        ({
            let records = after_all(state, events).records;
            let n = (state.records.len() + recorded_by(events.take(j))) as int;
            &&& n < records.len()
            &&& records[n].name == path@
            &&& records[n].id == state.next_id + reached_by(events.take(j))
            &&& records.len() == state.records.len() + recorded_by(events)
            &&& records.take(state.records.len() as int) == state.records
        }),
    decreases events.len(),
{
    let init = events.drop_last();
    let before = after_all(state, init);
    lemma_ids_of_a_run(state, init);
    lemma_ids_of_a_run(state, events);
    lemma_records_stay(state, events);
    step_records_the_path(before, events.last());
    let now = before.after(events.last());
    if j == events.len() - 1 {
        assert(init =~= events.take(j));
    } else {
        assert(init.take(j) =~= events.take(j));
        events_are_recorded(state, init, j, path);
        let n = (state.records.len() + recorded_by(events.take(j))) as int;
        assert(now.records[n] == before.records[n]) by {
            if events.last() matches WalkEvent::Entry(found) && found is Some {
                assert(now.records.drop_last()[n] == now.records[n]);
            }
        }
    }
}

proof fn lemma_records_stay(state: WalkState, events: Seq<WalkEvent>)
    requires
        state.next_id + events.len() <= u64::MAX,
    ensures
        after_all(state, events).records.len() >= state.records.len(),
        after_all(state, events).records.take(state.records.len() as int) == state.records,
    decreases events.len(),
{
    if events.len() == 0 {
        assert(state.records.take(state.records.len() as int) =~= state.records);
    } else {
        let before = after_all(state, events.drop_last());
        lemma_records_stay(state, events.drop_last());
        lemma_ids_of_a_run(state, events.drop_last());
        step_records_the_path(before, events.last());
        let now = before.after(events.last());
        let n = state.records.len() as int;
        assert(now.records.take(n) =~= before.records.take(n)) by {
            if events.last() matches WalkEvent::Entry(found) && found is Some {
                assert(forall|i: int|
                    0 <= i < n ==> #[trigger] now.records[i] == now.records.drop_last()[i]);
            }
        }
    }
}

/// An event reaches what `dir` names.
pub open spec fn reaches(event: WalkEvent, dir: Seq<char>) -> bool {
    event matches WalkEvent::Entry(Some(path)) && paths::path_of(path@) == paths::path_of(dir)
}

proof fn lemma_keys(a: Seq<char>, b: Seq<char>)
    ensures
        key(a) == key(b) <==> paths::path_of(a) == paths::path_of(b),
{
    paths::key_names_the_path(a);
    paths::key_names_the_path(b);
}

proof fn lemma_id_stays(state: WalkState, events: Seq<WalkEvent>, j: int, dir: Seq<char>)
    requires
        state.next_id + events.len() <= u64::MAX,
        0 <= j < events.len(),
        reaches(events[j], dir),
        forall|m: int| j < m < events.len() ==> !reaches(#[trigger] events[m], dir),
    ensures
        after_all(state, events).id_of(key(dir)) == state.next_id + reached_by(events.take(j)),
    decreases events.len(),
{
    let init = events.drop_last();
    let before = after_all(state, init);
    let now = before.after(events.last());
    lemma_ids_of_a_run(state, init);
    if let WalkEvent::Entry(Some(path)) = events.last() {
        lemma_keys(path@, dir);
    }
    if j == events.len() - 1 {
        assert(init =~= events.take(j));
    } else {
        assert(init.take(j) =~= events.take(j));
        assert forall|m: int| j < m < init.len() implies !reaches(#[trigger] init[m], dir) by {
            assert(init[m] == events[m]);
        }
        lemma_id_stays(state, init, j, dir);
        assert(!reaches(events[events.len() - 1], dir));
        assert(now.id_of(key(dir)) == before.id_of(key(dir)));
    }
}

proof fn lemma_id_unknown(state: WalkState, events: Seq<WalkEvent>, dir: Seq<char>)
    requires
        state.next_id + events.len() <= u64::MAX,
        forall|m: int| 0 <= m < events.len() ==> !reaches(#[trigger] events[m], dir),
    ensures
        after_all(state, events).id_of(key(dir)) == state.id_of(key(dir)),
    decreases events.len(),
{
    if events.len() > 0 {
        let init = events.drop_last();
        let before = after_all(state, init);
        assert forall|m: int| 0 <= m < init.len() implies !reaches(#[trigger] init[m], dir) by {
            assert(init[m] == events[m]);
        }
        lemma_id_unknown(state, init, dir);
        assert(!reaches(events[events.len() - 1], dir));
        if let WalkEvent::Entry(Some(path)) = events.last() {
            lemma_keys(path@, dir);
        }
        assert(before.after(events.last()).id_of(key(dir)) == before.id_of(key(dir)));
    }
}

/// `dir` holds `path` on a walk from `root`: it is the directory of `path`, or, where that has none,
/// the root of the walk.
pub open spec fn held_by(root: Seq<char>, path: Seq<char>, dir: Seq<char>) -> bool {
    match paths::parent_of(paths::path_of(path)) {
        Some(parent) => paths::path_of(dir) == parent,
        None => paths::path_of(dir) == paths::path_of(root),
    }
}

/// What is called `name` in a directory is held by it; the root of the file system, which nothing
/// holds, is held by the root of the walk.
pub proof fn names_are_held_by_their_directory(root: Seq<char>, dir: Seq<char>, name: Seq<char>)
    requires
        dir.len() > 0,
        name.len() > 0,
        !name.contains('/'),
        name != seq!['.'],
    ensures
        held_by(root, dir + seq!['/'] + name, dir),
        dir.last() == '/' ==> held_by(root, dir + name, dir),
        held_by(root, seq!['/'], root),
{
    paths::parent_is_the_directory(dir, name);
}

/// A record has as its parent the record of the directory that holds it, the last that was made for it
/// before; where the walk has made none, the parent is the root, whose id is 1.
pub proof fn children_are_below_their_directory(
    root: Seq<char>,
    records: Seq<RecordView>,
    events: Seq<WalkEvent>,
    k: int,
    path: String,
    dir: Seq<char>,
)
    requires
        events.len() + 2 <= u64::MAX,
        0 <= k < events.len(),
        events[k] == WalkEvent::Entry(Some(path)),
        held_by(root, path@, dir),
    ensures
        ({
            let found = after_all(started(root, records), events).records;
            let child = found[(records.len() + recorded_by(events.take(k))) as int];
            &&& child.name == path@
            &&& forall|j: int|
                0 <= j < k && reaches(#[trigger] events[j], dir) && (forall|m: int|
                    j < m < k ==> !reaches(#[trigger] events[m], dir)) ==> child.parent_id
                    == found[(records.len() + recorded_by(events.take(j))) as int].id
            &&& (forall|m: int| 0 <= m < k ==> !reaches(#[trigger] events[m], dir))
                ==> child.parent_id == 1
        }),
{
    let state = started(root, records);
    let all = after_all(state, events).records;
    let head = events.take(k);
    let before = after_all(state, head);
    let upto = events.take(k + 1);
    assert(upto.drop_last() =~= head);
    assert(upto.last() == events[k]);
    let n = (records.len() + recorded_by(head)) as int;
    lemma_ids_of_a_run(state, head);
    events_are_recorded(state, events, k, path);
    lemma_prefix_of_run(state, events, k + 1);
    step_records_the_path(before, events[k]);
    let there = before.after(events[k]).records;
    assert(there.len() == n + 1);
    assert(all[n] == all.take(n + 1)[n]);
    let child = all[n];
    assert(child == there[n]);
    lemma_keys(dir, root);
    assert(child.parent_id == before.id_of(parent_key(state.root, path@)));
    assert(parent_key(state.root, path@) == key(dir));
    assert forall|j: int|
        0 <= j < k && reaches(#[trigger] events[j], dir) && (forall|m: int|
            j < m < k ==> !reaches(#[trigger] events[m], dir)) implies child.parent_id
        == all[(records.len() + recorded_by(events.take(j))) as int].id by {
        assert(head[j] == events[j]);
        assert forall|m: int| j < m < head.len() implies !reaches(#[trigger] head[m], dir) by {
            assert(head[m] == events[m]);
        }
        lemma_id_stays(state, head, j, dir);
        assert(head.take(j) =~= events.take(j));
        if let WalkEvent::Entry(Some(found)) = events[j] {
            events_are_recorded(state, events, j, found);
        }
    }
    if forall|m: int| 0 <= m < k ==> !reaches(#[trigger] events[m], dir) {
        assert forall|m: int| 0 <= m < head.len() implies !reaches(#[trigger] head[m], dir) by {
            assert(head[m] == events[m]);
        }
        lemma_id_unknown(state, head, dir);
        assert(state.id_of(key(dir)) == 1);
    }
}

/// The records of a run begin with those of each of its beginnings.
proof fn lemma_prefix_of_run(state: WalkState, events: Seq<WalkEvent>, k: int)
    requires
        state.next_id + events.len() <= u64::MAX,
        0 <= k <= events.len(),
    ensures
        ({
            let early = after_all(state, events.take(k)).records;
            let late = after_all(state, events).records;
            late.len() >= early.len() && late.take(early.len() as int) == early
        }),
    decreases events.len(),
{
    let early = after_all(state, events.take(k)).records;
    if k == events.len() {
        assert(events.take(k) =~= events);
        assert(early.take(early.len() as int) =~= early);
    } else {
        let init = events.drop_last();
        assert(init.take(k) =~= events.take(k));
        lemma_prefix_of_run(state, init, k);
        lemma_ids_of_a_run(state, init);
        let one = seq![events.last()];
        assert(one.drop_last() =~= Seq::<WalkEvent>::empty());
        lemma_records_stay(after_all(state, init), one);
        assert(after_all(after_all(state, init), one.drop_last()) == after_all(state, init));
        assert(after_all(after_all(state, init), one) == after_all(state, events));
        let late = after_all(state, events).records;
        let mid = after_all(state, init).records;
        assert(late.take(early.len() as int) =~= late.take(mid.len() as int).take(
            early.len() as int,
        ));
    }
}

/// At its end a walk hands on all records that it has not handed on yet, and keeps all of them.
pub proof fn finish_hands_on_the_rest(state: WalkState)
    requires
        state.wf(),
    ensures
        state.published(state.handed_on()) == state.records.skip(state.synced),
        state.handed_on().records == state.records,
        state.handed_on().synced == state.records.len(),
        state.handed_on().next_id == state.next_id,
        state.handed_on().parent_ids == state.parent_ids,
        state.handed_on().root == state.root,
{
    assert(state.published(state.handed_on()) =~= state.records.skip(state.synced));
}

} // verus!
