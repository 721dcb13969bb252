//! Writing an index file.

use vstd::prelude::*;
use vstd::slice::slice_subrange;

use std::sync::atomic::{AtomicBool, Ordering};

use crate::compress;
use crate::drives;
use crate::drives::{DriveInfo, MountProbe};
use crate::layout;
use crate::layout::{IndexSource, ENTRY_SIZE, FORMAT_VERSION, HEADER_SIZE, MAGIC, ZSTD_LEVEL};
use crate::le;
use crate::order;
use crate::records;
use crate::records::{FileRecord, RecordView};
use crate::text;

verus! {

/// Collects entries and drives, and makes an index file of them.
pub struct IndexBuilder {
    /// Id, parent id and path of each entry.
    entries: Vec<(u32, u32, String)>,
    drives: Vec<DriveInfo>,
    pub compressed: bool,
}

impl View for IndexBuilder {
    type V = IndexSource;

    closed spec fn view(&self) -> IndexSource {
        IndexSource {
            rows: order::rows(self.entries@),
            drives: drives::views(self.drives@),
            compressed: self.compressed,
        }
    }
}

/// The bytes or the message of a result.
pub open spec fn seen(r: Result<Vec<u8>, String>) -> Result<Seq<u8>, Seq<char>> {
    match r {
        Ok(bytes) => Ok(bytes@),
        Err(message) => Err(message@),
    }
}

/// What writing gives, once it is known what packing the names gave: the file, or the message of
/// a failure to pack. `packed` does not matter where the names are not packed.
pub open spec fn written(
    source: IndexSource,
    timestamp: i64,
    packed: Result<Seq<u8>, Seq<char>>,
) -> Result<Seq<u8>, Seq<char>> {
    if source.packs_names() {
        match packed {
            Ok(frame) => Ok(source.image(timestamp, frame)),
            Err(message) => Err("zstd compress failed: "@ + message),
        }
    } else {
        Ok(source.image(timestamp, source.names()))
    }
}

/// What writing may give, whatever packing the names gives: the file, with names that unpack to what
/// they were, or the message of a failure to pack.
pub open spec fn may_write(
    source: IndexSource,
    timestamp: i64,
    outcome: Result<Seq<u8>, Seq<char>>,
) -> bool {
    match outcome {
        Ok(file) => {
            &&& file == source.image(timestamp, source.stored_names())
            &&& source.packs_names() ==> compress::zstd_decoded(source.stored_names()) == Some(
                source.names(),
            ) && source.stored_names().len() > 0
        },
        Err(message) => source.packs_names() && text::starts_with(
            message,
            "zstd compress failed: "@,
        ),
    }
}

/// How many looks at a flag there are in front of the first that finds it set.
pub open spec fn clear_reads(reads: Seq<bool>) -> nat
    decreases reads.len(),
{
    if reads.len() == 0 {
        0
    } else {
        let before = clear_reads(reads.drop_last());
        if before < reads.len() - 1 || reads.last() {
            before
        } else {
            before + 1
        }
    }
}

proof fn lemma_clear_reads(reads: Seq<bool>)
    ensures
        clear_reads(reads) <= reads.len(),
        clear_reads(reads) < reads.len() <==> reads.contains(true),
    decreases reads.len(),
{
    if reads.len() > 0 {
        let init = reads.drop_last();
        lemma_clear_reads(init);
        if init.contains(true) {
            let i = choose|i: int| 0 <= i < init.len() && init[i];
            assert(reads[i]);
        } else if reads.last() {
            assert(reads[reads.len() - 1]);
        } else if reads.contains(true) {
            let i = choose|i: int| 0 <= i < reads.len() && reads[i];
            assert(init[i]);
        }
    }
}

/// A look that finds the flag set, with none in front of it, is the first.
proof fn lemma_first_set(reads: Seq<bool>, i: int)
    requires
        0 <= i < reads.len(),
        reads[i],
        clear_reads(reads.take(i)) == i,
    ensures
        clear_reads(reads) == i,
    decreases reads.len(),
{
    let init = reads.drop_last();
    if i == reads.len() - 1 {
        assert(init =~= reads.take(i));
    } else {
        assert(init.take(i) =~= reads.take(i));
        lemma_first_set(init, i);
    }
}

/// What building an index gives, once it is known what the looks at the flag found and what packing
/// the names gave: the message "cancelled" if the flag was found set, else what writing gives.
pub open spec fn built(
    source: IndexSource,
    timestamp: i64,
    reads: Seq<bool>,
    packed: Result<Seq<u8>, Seq<char>>,
) -> Result<Seq<u8>, Seq<char>> {
    if reads.contains(true) {
        Err("cancelled"@)
    } else {
        written(source, timestamp, packed)
    }
}

fn push_bytes(out: &mut Vec<u8>, bytes: &[u8])
    ensures
        final(out)@ == old(out)@ + bytes@,
{
    out.extend_from_slice(bytes);
    assert(out@ =~= old(out)@ + bytes@);
}

/// The tree data and the name block of the entries, in the given order.
fn tree_and_names(entries: &Vec<(u32, u32, String)>, positions: &Vec<usize>) -> (r: (
    Vec<u8>,
    Vec<u8>,
))
    requires
        order::in_range(order::rows(entries@), positions@),
    ensures
        r.0@ == layout::tree_data(order::picked(order::rows(entries@), positions@)),
        r.1@ == layout::name_block(order::picked(order::rows(entries@), positions@)),
{
    let mut tree: Vec<u8> = Vec::new();
    let mut names: Vec<u8> = Vec::new();
    let mut i: usize = 0;
    let ghost all = order::picked(order::rows(entries@), positions@);
    while i < positions.len()
        invariant
            i <= positions@.len(),
            order::in_range(order::rows(entries@), positions@),
            all == order::picked(order::rows(entries@), positions@),
            tree@ == layout::tree_data(all.take(i as int)),
            names@ == layout::name_block(all.take(i as int)),
        decreases positions@.len() - i,
    {
        let ghost before = tree@;
        let entry = &entries[positions[i]];
        le::push_le(&mut tree, entry.0 as u64, 4);
        le::push_le(&mut tree, entry.1 as u64, 4);
        le::push_le(&mut tree, names.len() as u64, 4);
        push_bytes(&mut names, entry.2.as_str().as_bytes());
        names.push(0);
        proof {
            let now = all.take(i + 1);
            assert(now.drop_last() =~= all.take(i as int));
            assert(now.last() == order::row(*entry));
            assert(tree@ =~= layout::tree_data(now));
            assert(names@ =~= layout::name_block(now));
        }
        i = i + 1;
    }
    assert(all.take(i as int) =~= all);
    (tree, names)
}

/// Appends the drive data.
fn push_drives(out: &mut Vec<u8>, list: &Vec<DriveInfo>)
    ensures
        final(out)@ == old(out)@ + layout::drive_data(drives::views(list@)),
{
    let ghost all = drives::views(list@);
    let mut i: usize = 0;
    assert(out@ =~= old(out)@ + layout::drive_data(all.take(0)));
    while i < list.len()
        invariant
            i <= list@.len(),
            all == drives::views(list@),
            out@ == old(out)@ + layout::drive_data(all.take(i as int)),
        decreases list@.len() - i,
    {
        let drive = &list[i];
        let path = drive.path.as_str().as_bytes();
        le::push_le(out, path.len() as u64, 4);
        push_bytes(out, path);
        le::push_le(out, drive.volume_id.len() as u64, 1);
        push_bytes(out, drive.volume_id.as_slice());
        proof {
            let now = all.take(i + 1);
            assert(now.drop_last() =~= all.take(i as int));
            assert(now.last() == drive@);
            assert(out@ =~= old(out)@ + layout::drive_data(now));
        }
        i = i + 1;
    }
    assert(all.take(i as int) =~= all);
}

impl IndexBuilder {
    /// A builder without entries or drives that does not pack names.
    pub fn new() -> (r: Self)
        ensures
            r@.rows == Seq::<order::Row>::empty(),
            r@.drives == Seq::<drives::DriveView>::empty(),
            !r@.compressed,
    {
        let r = IndexBuilder { entries: Vec::new(), drives: Vec::new(), compressed: false };
        assert(r@.rows =~= Seq::<order::Row>::empty());
        assert(r@.drives =~= Seq::<drives::DriveView>::empty());
        r
    }

    /// Sets whether the names are packed.
    pub fn set_compressed(&mut self, compressed: bool)
        ensures
            final(self)@ == (IndexSource { compressed, ..old(self)@ }),
    {
        self.compressed = compressed;
    }

    /// Adds an entry; of `id` and `parent_id` the file has room for the low 32 bits.
    pub fn add_entry(&mut self, id: u64, parent_id: u64, path: &str)
        ensures
            final(self)@.rows == old(self)@.rows.push(
                order::Row {
                    id: (id % 0x1_0000_0000) as u32,
                    parent_id: (parent_id % 0x1_0000_0000) as u32,
                    path: path@,
                },
            ),
            final(self)@.drives == old(self)@.drives,
            final(self)@.compressed == old(self)@.compressed,
    {
        let id32: u32 = (id % 0x1_0000_0000) as u32;
        let parent32: u32 = (parent_id % 0x1_0000_0000) as u32;
        self.entries.push((id32, parent32, path.to_owned()));
        assert(self@.rows =~= old(self)@.rows.push(
            order::Row { id: id32, parent_id: parent32, path: path@ },
        ));
    }

    /// Adds a drive.
    pub fn add_drive(&mut self, drive: DriveInfo)
        ensures
            final(self)@.drives == old(self)@.drives.push(drive@),
            final(self)@.rows == old(self)@.rows,
            final(self)@.compressed == old(self)@.compressed,
    {
        self.drives.push(drive);
        assert(self@.drives =~= old(self)@.drives.push(drive@));
    }

    /// Replaces the drives by those at the given mount points, with `/` as a fallback.
    pub fn auto_detect_drives(&mut self, mounts: &Vec<MountProbe>, root_device: Option<u64>)
        ensures
            final(self)@ == (IndexSource {
                drives: drives::detected(mounts@, root_device),
                ..old(self)@
            }),
    {
        self.drives = drives::detect_drives(mounts, root_device);
    }

    /// Adds a record, unless the work was cancelled.
    pub fn add_record(&mut self, record: &FileRecord, cancelled: bool) -> (r: Result<(), String>)
        ensures
            cancelled ==> final(self)@ == old(self)@ && (r matches Err(message) && message@
                == "cancelled"@),
            !cancelled ==> r is Ok && final(self)@ == (IndexSource {
                rows: old(self)@.rows.push(records::row_of(record@)),
                ..old(self)@
            }),
    {
        if cancelled {
            return Err("cancelled".to_string());
        }
        self.add_entry(record.id, record.parent_id, record.name.as_str());
        Ok(())
    }

    /// Adds records, given what a look at the flag before each found: the first look that finds it
    /// set ends the work, and the records from there on are not added.
    pub fn add_records(&mut self, records: &[FileRecord], reads: &[bool]) -> (r: Result<(), String>)
        requires
            records@.len() == reads@.len(),
        ensures
            r is Err <==> reads@.contains(true),
            r matches Err(message) ==> message@ == "cancelled"@,
            final(self)@ == (IndexSource {
                rows: old(self)@.rows + records::rows_of(records::views(records@)).take(
                    clear_reads(reads@) as int,
                ),
                ..old(self)@
            }),
            !reads@.contains(true) ==> final(self)@ == (IndexSource {
                rows: old(self)@.rows + records::rows_of(records::views(records@)),
                ..old(self)@
            }),
    {
        let ghost first = self@;
        let ghost rows = records::rows_of(records::views(records@));
        let mut i: usize = 0;
        proof {
            lemma_clear_reads(reads@);
            assert(rows.take(rows.len() as int) =~= rows);
            assert(first.rows + rows.take(0) =~= first.rows);
        }
        while i < records.len()
            invariant
                i <= records@.len() == reads@.len(),
                rows == records::rows_of(records::views(records@)),
                first == old(self)@,
                clear_reads(reads@.take(i as int)) == i,
                self@ == (IndexSource { rows: first.rows + rows.take(i as int), ..first }),
            decreases records@.len() - i,
        {
            proof {
                assert(reads@.take(i + 1).drop_last() =~= reads@.take(i as int));
                assert(reads@.take(i + 1).last() == reads@[i as int]);
            }
            let added = self.add_record(&records[i], reads[i]);
            if let Err(message) = added {
                proof {
                    assert(reads@[i as int]);
                    lemma_first_set(reads@, i as int);
                }
                return Err(message);
            }
            assert(first.rows + rows.take(i + 1) =~= (first.rows + rows.take(i as int)).push(
                records::row_of(records@[i as int]@),
            ));
            i = i + 1;
        }
        assert(reads@.take(i as int) =~= reads@);
        assert(rows.take(i as int) =~= rows);
        Ok(())
    }

    /// The file, from the ordered tree data, the name block, the time, and, where the names are
    /// packed, what packing them gave.
    fn assemble(
        &self,
        mut tree: Vec<u8>,
        mut names: Vec<u8>,
        timestamp: i64,
        packed: Result<Vec<u8>, String>,
    ) -> (r: Result<Vec<u8>, String>)
        requires
            tree@ == layout::tree_data(self@.sorted()),
            names@ == self@.names(),
        ensures
            seen(r) == written(self@, timestamp, seen(packed)),
    {
        let names_size: usize = names.len();
        let packs: bool = self.compressed && names_size > 0;
        let mut stored: Vec<u8> = if packs {
            match packed {
                Ok(frame) => frame,
                Err(message) => {
                    let mut text = "zstd compress failed: ".to_string();
                    text.append(message.as_str());
                    return Err(text);
                },
            }
        } else {
            names
        };
        let ghost kept = stored@;
        let csize: u64 = if packs {
            stored.len() as u64
        } else {
            0
        };

        let mut body: Vec<u8> = vec![0; HEADER_SIZE];
        body.append(&mut tree);
        let drive_off: usize = body.len();
        push_drives(&mut body, &self.drives);
        let name_off: usize = body.len();
        proof {
            layout::lemma_tree_len(self@.sorted());
            order::by_id_is_stable_sort(self@.rows);
            assert(drive_off == self@.drive_off());
            assert(name_off == self@.name_off());
        }

        let flags: u64 = (if self.compressed {
            1u64
        } else {
            0u64
        }) + (if self.drives.len() > 0 {
            2u64
        } else {
            0u64
        });
        let mut out: Vec<u8> = Vec::new();
        push_bytes(&mut out, MAGIC.as_slice());
        le::push_le(&mut out, FORMAT_VERSION as u64, 4);
        le::push_le(&mut out, flags, 2);
        le::push_le(&mut out, 0, 2);
        proof {
            le::lemma_pow256();
            le::lemma_le_bytes_wrap(timestamp as int, 1, 8);
            assert(timestamp >= 0 ==> (timestamp as u64) == timestamp);
            assert(timestamp < 0 ==> (timestamp as u64) == timestamp + 0x1_0000_0000_0000_0000)
                by (bit_vector);
        }
        le::push_le(&mut out, timestamp as u64, 8);
        le::push_le(&mut out, self.entries.len() as u64, 8);
        le::push_le(&mut out, names_size as u64, 8);
        le::push_le(&mut out, csize, 8);
        le::push_le(&mut out, self.drives.len() as u64, 4);
        le::push_le(&mut out, self.entries.len() as u64, 4);
        le::push_le(&mut out, drive_off as u64, 8);
        le::push_le(&mut out, name_off as u64, 8);
        le::push_le(&mut out, 0, 8);
        assert(out@ =~= self@.header(timestamp, kept));
        push_bytes(&mut out, slice_subrange(body.as_slice(), HEADER_SIZE, body.len()));
        out.append(&mut stored);
        assert(out@ =~= self@.image(timestamp, kept));
        Ok(out)
    }

    /// The file as it was written at `timestamp` (unix milliseconds), given what packing the names
    /// gave. `packed` is not looked at where the names are not packed.
    pub fn write_with(&self, timestamp: i64, packed: Result<Vec<u8>, String>) -> (r: Result<
        Vec<u8>,
        String,
    >)
        ensures
            seen(r) == written(self@, timestamp, seen(packed)),
    {
        let positions = order::sorted_order(&self.entries);
        let (tree, names) = tree_and_names(&self.entries, &positions);
        self.assemble(tree, names, timestamp, packed)
    }

    /// The file as it was written at `timestamp` (unix milliseconds): the entries by id, the drives
    /// as they were added, and the names, packed if that was asked for.
    pub fn write(&self, timestamp: i64) -> (r: Result<Vec<u8>, String>)
        ensures
            !self@.packs_names() ==> seen(r) == Ok::<Seq<u8>, Seq<char>>(
                self@.image(timestamp, self@.names()),
            ),
            may_write(self@, timestamp, seen(r)),
    {
        let positions = order::sorted_order(&self.entries);
        let (tree, names) = tree_and_names(&self.entries, &positions);
        let packed: Result<Vec<u8>, String> = if self.compressed && names.len() > 0 {
            compress::encode_all(names.as_slice(), ZSTD_LEVEL)
        } else {
            Ok(Vec::new())
        };
        let ghost what = seen(packed);
        let r = self.assemble(tree, names, timestamp, packed);
        proof {
            if let Err(message) = what {
                let p = "zstd compress failed: "@;
                assert((p + message).take(p.len() as int) =~= p);
            }
        }
        r
    }
}

/// What the file of an index is made from.
pub open spec fn index_source(
    files: Seq<FileRecord>,
    drives: Seq<DriveInfo>,
    compressed: bool,
) -> IndexSource {
    IndexSource {
        rows: records::rows_of(records::views(files)),
        drives: drives::views(drives),
        compressed,
    }
}

/// The file of an index, given what a look at the flag before each record found and what packing the
/// names gave. `packed` is not looked at where the names are not packed.
pub fn build_with(
    records: &[FileRecord],
    drives: Vec<DriveInfo>,
    compressed: bool,
    reads: &[bool],
    timestamp: i64,
    packed: Result<Vec<u8>, String>,
) -> (r: Result<Vec<u8>, String>)
    requires
        records@.len() == reads@.len(),
    ensures
        seen(r) == built(
            index_source(records@, drives@, compressed),
            timestamp,
            reads@,
            seen(packed),
        ),
{
    let mut builder = IndexBuilder { entries: Vec::new(), drives, compressed };
    let ghost source = index_source(records@, drives@, compressed);
    assert(builder@.rows + source.rows =~= source.rows);
    match builder.add_records(records, reads) {
        Ok(_) => builder.write_with(timestamp, packed),
        Err(message) => Err(message),
    }
}

/// What a builder holds after the records were added one by one.
pub open spec fn added_all(source: IndexSource, files: Seq<RecordView>) -> IndexSource
    decreases files.len(),
{
    if files.len() == 0 {
        source
    } else {
        let before = added_all(source, files.drop_last());
        IndexSource { rows: before.rows.push(records::row_of(files.last())), ..before }
    }
}

proof fn lemma_added_all(source: IndexSource, files: Seq<RecordView>)
    ensures
        added_all(source, files) == (IndexSource {
            rows: source.rows + records::rows_of(files),
            ..source
        }),
    decreases files.len(),
{
    if files.len() > 0 {
        lemma_added_all(source, files.drop_last());
    }
    assert(added_all(source, files).rows =~= source.rows + records::rows_of(files));
}

/// Building an index in one call is adding the drives and the records to a new builder and writing:
/// both work on the same source, and as long as the flag is found clear both give the same file or
/// the same message for every outcome of packing.
pub proof fn building_is_adding_and_writing(
    files: Seq<FileRecord>,
    drives: Seq<DriveInfo>,
    compressed: bool,
    timestamp: i64,
    reads: Seq<bool>,
    packed: Result<Seq<u8>, Seq<char>>,
)
    requires
        !reads.contains(true),
    ensures
        ({
            let empty = IndexSource {
                rows: Seq::<order::Row>::empty(),
                drives: drives::views(drives),
                compressed,
            };
            let collected = added_all(empty, records::views(files));
            &&& collected == index_source(files, drives, compressed)
            &&& built(index_source(files, drives, compressed), timestamp, reads, packed) == written(
                collected,
                timestamp,
                packed,
            )
        }),
{
    let empty = IndexSource {
        rows: Seq::<order::Row>::empty(),
        drives: drives::views(drives),
        compressed,
    };
    lemma_added_all(empty, records::views(files));
    let rows = records::rows_of(records::views(files));
    assert(empty.rows + rows =~= rows);
}

/// Building gives the message "cancelled" exactly if a look has found the flag set. As long as none
/// has, it gives the file, but for names that are to be packed and cannot be: then it gives the
/// message of that.
pub proof fn cancelled_is_found_set(
    source: IndexSource,
    timestamp: i64,
    reads: Seq<bool>,
    packed: Result<Seq<u8>, Seq<char>>,
)
    ensures
        ({
            let outcome = built(source, timestamp, reads, packed);
            &&& outcome == Err::<Seq<u8>, Seq<char>>("cancelled"@) <==> exists|k: int|
                0 <= k < reads.len() && #[trigger] reads[k]
            &&& (forall|k: int| 0 <= k < reads.len() ==> !(#[trigger] reads[k])) ==> {
                &&& !(source.compressed && source.rows.len() > 0) ==> outcome == Ok::<
                    Seq<u8>,
                    Seq<char>,
                >(source.image(timestamp, source.names()))
                &&& source.compressed && source.rows.len() > 0 && packed is Ok ==> outcome == Ok::<
                    Seq<u8>,
                    Seq<char>,
                >(source.image(timestamp, packed->Ok_0))
                &&& source.compressed && source.rows.len() > 0 && packed is Err ==> outcome == Err::<
                    Seq<u8>,
                    Seq<char>,
                >("zstd compress failed: "@ + packed->Err_0)
            }
        }),
{
    reveal_strlit("cancelled");
    reveal_strlit("zstd compress failed: ");
    order::by_id_is_stable_sort(source.rows);
    if let Err(message) = packed {
        assert(("zstd compress failed: "@ + message)[0] == 'z');
    }
    if exists|k: int| 0 <= k < reads.len() && #[trigger] reads[k] {
        let k = choose|k: int| 0 <= k < reads.len() && #[trigger] reads[k];
        assert(reads.contains(true));
    }
}

/// Records are added up to the first look that finds the flag set, or all of them.
pub proof fn reads_stop_at_the_first(reads: Seq<bool>, n: int)
    ensures
        clear_reads(reads) == n <==> {
            &&& 0 <= n <= reads.len()
            &&& forall|k: int| 0 <= k < n ==> !(#[trigger] reads[k])
            &&& n < reads.len() ==> reads[n]
        },
    decreases reads.len(),
{
    if reads.len() > 0 {
        let init = reads.drop_last();
        let m = reads.len() - 1;
        reads_stop_at_the_first(init, n);
        reads_stop_at_the_first(init, clear_reads(init) as int);
        reads_stop_at_the_first(init, m);
        assert(forall|k: int| 0 <= k < m ==> reads[k] == #[trigger] init[k]);
        assert(forall|k: int| 0 <= k < m ==> #[trigger] reads[k] == init[k]);
    }
}

/// Whatever writing may give is what some outcome of packing gives.
pub proof fn outcome_of_packing(
    source: IndexSource,
    timestamp: i64,
    outcome: Result<Seq<u8>, Seq<char>>,
)
    requires
        may_write(source, timestamp, outcome),
    ensures
        exists|packed: Result<Seq<u8>, Seq<char>>| #[trigger]
            written(source, timestamp, packed) == outcome,
{
    match outcome {
        Ok(_) => {
            let packed = Ok::<Seq<u8>, Seq<char>>(source.stored_names());
            assert(written(source, timestamp, packed) == outcome);
        },
        Err(message) => {
            let p = "zstd compress failed: "@;
            let rest = message.skip(p.len() as int);
            assert(p + rest =~= message);
            let packed = Err::<Seq<u8>, Seq<char>>(rest);
            assert(written(source, timestamp, packed) == outcome);
        },
    }
}

/// `found` is what a look at the flag, a sequentially consistent load, may give. That it may is known
/// only of what a look has given.
pub open spec fn may_find(flag: &AtomicBool, found: bool) -> bool {
    call_ensures(AtomicBool::load, (flag, Ordering::SeqCst), found)
}

/// The looks at the flag gave `reads`.
pub open spec fn looked(flag: &AtomicBool, reads: Seq<bool>) -> bool {
    forall|k: int| 0 <= k < reads.len() ==> may_find(flag, #[trigger] reads[k])
}

/// What one look at the flag gives.
fn look<F: Fn(&AtomicBool, Ordering) -> bool>(load: F, flag: &AtomicBool) -> (r: bool)
    requires
        call_requires(load, (flag, Ordering::SeqCst)),
    ensures
        call_ensures(load, (flag, Ordering::SeqCst), r),
{
    load(flag, Ordering::SeqCst)
}

fn is_set(flag: &AtomicBool) -> (r: bool)
    ensures
        may_find(flag, r),
{
    look(AtomicBool::load, flag)
}

/// The file of an index with the given records and drives, as it was written at `timestamp` (unix
/// milliseconds). Before each record `cancel` is looked at: once it is set there is no file, but
/// the message "cancelled". That message comes only if a look has found `cancel` set, and anything
/// else only if the looks before all records have found it clear.
pub fn build_index_file(
    records: &[FileRecord],
    drives: Vec<DriveInfo>,
    compressed: bool,
    cancel: &AtomicBool,
    timestamp: i64,
) -> (r: Result<Vec<u8>, String>)
    ensures
        ({
            ||| records@.len() > 0 && seen(r) == Err::<Seq<u8>, Seq<char>>("cancelled"@)
            ||| may_write(index_source(records@, drives@, compressed), timestamp, seen(r))
        }),
        seen(r) == Err::<Seq<u8>, Seq<char>>("cancelled"@) ==> records@.len() > 0 && may_find(
            cancel,
            true,
        ),
        seen(r) != Err::<Seq<u8>, Seq<char>>("cancelled"@) ==> (records@.len() > 0 ==> may_find(
            cancel,
            false,
        )) && may_write(index_source(records@, drives@, compressed), timestamp, seen(r)),
        exists|reads: Seq<bool>, packed: Result<Seq<u8>, Seq<char>>|
            {
                &&& looked(cancel, reads)
                &&& reads.len() <= records@.len()
                &&& reads.contains(true) || reads.len() == records@.len()
                &&& seen(r) == #[trigger] built(
                    index_source(records@, drives@, compressed),
                    timestamp,
                    reads,
                    packed,
                )
            },
{
    let ghost source = index_source(records@, drives@, compressed);
    let mut builder = IndexBuilder { entries: Vec::new(), drives, compressed };
    let mut i: usize = 0;
    let ghost mut reads: Seq<bool> = Seq::empty();
    assert(builder@.rows =~= source.rows.take(0));
    while i < records.len()
        invariant
            i <= records@.len(),
            source == index_source(records@, drives@, compressed),
            reads.len() == i,
            looked(cancel, reads),
            !reads.contains(true),
            builder@ == (IndexSource { rows: source.rows.take(i as int), ..source }),
        decreases records@.len() - i,
    {
        let cancelled: bool = is_set(cancel);
        let ghost before = reads;
        proof {
            reads = reads.push(cancelled);
            assert(reads[i as int] == cancelled);
            assert forall|k: int| 0 <= k < reads.len() implies may_find(cancel, #[trigger] reads[k]) by {
                assert(k < i ==> reads[k] == before[k]);
            }
        }
        let added = builder.add_record(&records[i], cancelled);
        if let Err(message) = added {
            proof {
                assert(reads.contains(true));
                let packed = Ok::<Seq<u8>, Seq<char>>(Seq::empty());
                assert(built(source, timestamp, reads, packed) == Err::<Seq<u8>, Seq<char>>(
                    message@,
                ));
            }
            return Err(message);
        }
        proof {
            if reads.contains(true) {
                let k = choose|k: int| 0 <= k < reads.len() && reads[k];
                assert(before[k]);
            }
        }
        assert(source.rows.take(i + 1) =~= source.rows.take(i as int).push(
            records::row_of(records@[i as int]@),
        ));
        i = i + 1;
    }
    assert(source.rows.take(i as int) =~= source.rows);
    let r = builder.write(timestamp);
    proof {
        outcome_of_packing(source, timestamp, seen(r));
        let packed = choose|packed: Result<Seq<u8>, Seq<char>>| #[trigger]
            written(source, timestamp, packed) == seen(r);
        assert(built(source, timestamp, reads, packed) == seen(r));
        cancelled_is_found_set(source, timestamp, reads, packed);
        assert(reads.len() > 0 ==> may_find(cancel, reads[0]));
        assert(reads.len() > 0 ==> !reads[0]);
    }
    r
}

} // verus!
