//! Reading an index file.

use vstd::prelude::*;
use vstd::slice::{slice_subrange, slice_to_vec};
use vstd::utf8::*;

use crate::builder;
use crate::compress;
use crate::drives;
use crate::drives::{DriveInfo, DriveProbe, DriveView};
use crate::layout;
use crate::layout::{ENTRY_SIZE, FORMAT_VERSION, HEADER_SIZE, MAGIC};
use crate::le;
use crate::text;

verus! {

/// An entry of an index file; `name_off` is where its name begins in the name block.
#[derive(Debug)]
pub struct Entry {
    pub id: u32,
    pub parent_id: u32,
    pub name_off: u32,
}

impl Clone for Entry {
    fn clone(&self) -> (r: Self)
        ensures
            r == *self,
    {
        Entry { id: self.id, parent_id: self.parent_id, name_off: self.name_off }
    }
}

/// The contents of an index file.
pub struct IndexReader {
    pub entries: Vec<Entry>,
    pub drives: Vec<DriveInfo>,
    /// The name block, unpacked.
    pub name_data: Vec<u8>,
    /// Unix milliseconds.
    pub timestamp: i64,
    pub entry_count: u64,
    /// The paths of the drives that are gone or have another volume now.
    pub changed_drives: Vec<String>,
}

/// The contents of an index file as plain values.
pub struct IndexView {
    pub entries: Seq<Entry>,
    pub drives: Seq<DriveView>,
    pub name_data: Seq<u8>,
    pub timestamp: i64,
    pub entry_count: u64,
    pub changed_drives: Seq<Seq<char>>,
}

impl View for IndexReader {
    type V = IndexView;

    open spec fn view(&self) -> IndexView {
        IndexView {
            entries: self.entries@,
            drives: drives::views(self.drives@),
            name_data: self.name_data@,
            timestamp: self.timestamp,
            entry_count: self.entry_count,
            changed_drives: text::views(self.changed_drives@),
        }
    }
}

/// The contents of a file whose layout is sound, given its unpacked names.
pub open spec fn contents(data: Seq<u8>, names: Seq<u8>) -> IndexView {
    IndexView {
        entries: layout::entries(data),
        drives: layout::drives(data),
        name_data: names,
        timestamp: layout::timestamp(data) as i64,
        entry_count: layout::entry_count(data) as u64,
        changed_drives: Seq::<Seq<char>>::empty(),
    }
}

/// What opening gives, once it is known what unpacking the names gave: the contents, or the
/// message of the first thing that is wrong. `unpacked` does not matter where the layout is not
/// sound or the names are not packed.
pub open spec fn opened(data: Seq<u8>, unpacked: Result<Seq<u8>, Seq<char>>) -> Result<
    IndexView,
    Seq<char>,
> {
    match layout::layout_error(data) {
        Some(message) => Err(message),
        None => if layout::names_packed(data) {
            match unpacked {
                Ok(names) => Ok(contents(data, names)),
                Err(message) => Err("zstd decompress failed: "@ + message),
            }
        } else {
            Ok(contents(data, layout::stored_names(data)))
        },
    }
}

/// The contents or the message of a result.
pub open spec fn seen(r: Result<IndexReader, String>) -> Result<IndexView, Seq<char>> {
    match r {
        Ok(reader) => Ok(reader@),
        Err(message) => Err(message@),
    }
}

/// What the header of a file says of its parts.
#[derive(Debug, Clone, Copy)]
pub struct FileSummary {
    pub entries: u64,
    pub drives: u64,
    /// The size of the name block before packing.
    pub name_bytes: u64,
    /// The size of the name block after packing, if the file is one with packed names.
    pub packed_bytes: Option<u64>,
}

/// The bytes of `s` in front of its first zero byte; all of them if there is none.
pub open spec fn until_nul(s: Seq<u8>) -> Seq<u8>
    decreases s.len(),
{
    if s.len() == 0 || s[0] == 0 {
        Seq::<u8>::empty()
    } else {
        seq![s[0]] + until_nul(s.drop_first())
    }
}

/// The name that begins at `off` in a name block: up to the next zero byte; empty if that is not
/// UTF-8.
pub open spec fn name_at(names: Seq<u8>, off: int) -> Seq<char> {
    let bytes = until_nul(names.skip(off));
    if valid_utf8(bytes) {
        decode_utf8(bytes)
    } else {
        Seq::<char>::empty()
    }
}

/// The ids of `s` do not decrease.
pub open spec fn id_sorted(s: Seq<Entry>) -> bool {
    forall|i: int, j: int| 0 <= i <= j < s.len() ==> s[i].id <= s[j].id
}

fn magic_matches(data: &[u8]) -> (r: bool)
    requires
        data@.len() >= 8,
    ensures
        r == (data@.subrange(0, 8) == MAGIC@),
{
    let mut i: usize = 0;
    while i < 8
        invariant
            i <= 8 <= data@.len(),
            forall|k: int| 0 <= k < i ==> data@[k] == MAGIC@[k],
        decreases 8 - i,
    {
        if data[i] != MAGIC[i] {
            assert(data@.subrange(0, 8)[i as int] != MAGIC@[i as int]);
            return false;
        }
        i = i + 1;
    }
    assert(data@.subrange(0, 8) =~= MAGIC@);
    true
}

/// The message of what is wrong with the header or the tree data, if anything is.
fn find_layout_error(data: &[u8]) -> (r: Option<String>)
    ensures
        r is Some <==> layout::layout_error(data@) is Some,
        r matches Some(message) ==> layout::layout_error(data@) == Some(message@),
{
    if data.len() < HEADER_SIZE {
        return Some("file too small".to_string());
    }
    if !magic_matches(data) {
        return Some("bad magic".to_string());
    }
    let version: u64 = le::read_le(data, 8, 4);
    if version != FORMAT_VERSION as u64 {
        proof {
            le::lemma_pow256();
        }
        let mut message = "unsupported version ".to_string();
        message.append(text::to_decimal(version as u32).as_str());
        return Some(message);
    }
    let count: u64 = le::read_le(data, 24, 8);
    let room: usize = (data.len() - HEADER_SIZE) / ENTRY_SIZE;
    if count > room as u64 {
        return Some("truncated tree data".to_string());
    }
    None
}

fn read_entries(data: &[u8]) -> (r: Vec<Entry>)
    requires
        layout::layout_error(data@) is None,
    ensures
        r@ == layout::entries(data@),
{
    let len: usize = data.len();
    let count: u64 = le::read_le(data, 24, 8);
    let mut r: Vec<Entry> = Vec::new();
    let mut i: u64 = 0;
    let mut at: usize = HEADER_SIZE;
    while i < count
        invariant
            i <= count,
            len == data@.len(),
            count == layout::entry_count(data@),
            at == HEADER_SIZE + ENTRY_SIZE * i,
            HEADER_SIZE + ENTRY_SIZE * count <= len,
            r@ == layout::entries(data@).take(i as int),
        decreases count - i,
    {
        let id: u64 = le::read_le(data, at, 4);
        let parent_id: u64 = le::read_le(data, at + 4, 4);
        let name_off: u64 = le::read_le(data, at + 8, 4);
        proof {
            le::lemma_pow256();
        }
        r.push(Entry { id: id as u32, parent_id: parent_id as u32, name_off: name_off as u32 });
        assert(r@ =~= layout::entries(data@).take(i + 1));
        i = i + 1;
        at = at + ENTRY_SIZE;
    }
    assert(layout::entries(data@).take(count as int) =~= layout::entries(data@));
    r
}

fn read_drives(data: &[u8]) -> (r: Vec<DriveInfo>)
    requires
        data@.len() >= HEADER_SIZE,
    ensures
        drives::views(r@) == layout::drives(data@),
{
    let len: usize = data.len();
    let flags: u64 = le::read_le(data, 12, 2);
    let count: u64 = le::read_le(data, 48, 4);
    let start: u64 = le::read_le(data, 56, 8);
    let mut r: Vec<DriveInfo> = Vec::new();
    assert(drives::views(r@) =~= Seq::<DriveView>::empty());
    if (flags / 2) % 2 != 1 {
        return r;
    }
    if start > (len - 4) as u64 {
        return r;
    }
    let mut pos: usize = start as usize;
    let mut i: u64 = 0;
    let ghost all = layout::drives(data@);
    assert(drives::views(r@) + layout::drives_from(data@, pos as int, count as nat) =~= all);
    while i < count
        invariant
            i <= count,
            pos <= len == data@.len(),
            drives::views(r@) + layout::drives_from(data@, pos as int, (count - i) as nat) == all,
        ensures
            drives::views(r@) == all,
        decreases count - i,
    {
        if len - pos < 4 {
            assert(drives::views(r@) + Seq::<DriveView>::empty() =~= drives::views(r@));
            break;
        }
        let path_len: u64 = le::read_le(data, pos, 4);
        let path_at: usize = pos + 4;
        if path_len >= (len - path_at) as u64 {
            assert(drives::views(r@) + Seq::<DriveView>::empty() =~= drives::views(r@));
            break;
        }
        let volume_at: usize = path_at + path_len as usize;
        let volume_len: usize = data[volume_at] as usize;
        if volume_len > len - volume_at - 1 {
            assert(drives::views(r@) + Seq::<DriveView>::empty() =~= drives::views(r@));
            break;
        }
        let end: usize = volume_at + 1 + volume_len;
        let drive = DriveInfo {
            path: text::from_utf8_lossy(slice_subrange(data, path_at, volume_at)),
            volume_id: slice_to_vec(slice_subrange(data, volume_at + 1, end)),
        };
        let ghost before = drives::views(r@);
        let ghost rest = layout::drives_from(data@, end as int, (count - i - 1) as nat);
        r.push(drive);
        proof {
            assert(drive@ == layout::drive_at(data@, pos as int));
            assert(drives::views(r@) =~= before.push(drive@));
            assert(before + (seq![drive@] + rest) =~= drives::views(r@) + rest);
        }
        pos = end;
        i = i + 1;
    }
    r
}

/// What the header of a file says of its parts, if there is a whole header.
pub fn summarize(data: &[u8]) -> (r: Option<FileSummary>)
    ensures
        r is Some <==> data@.len() >= HEADER_SIZE,
        r matches Some(summary) ==> {
            &&& summary.entries == layout::entry_count(data@)
            &&& summary.drives == layout::field(data@, 48, 4)
            &&& summary.name_bytes == layout::field(data@, 32, 8)
            &&& summary.packed_bytes is Some <==> layout::flag_compressed(data@)
            &&& summary.packed_bytes is Some ==> summary.packed_bytes->0 == layout::field(
                data@,
                40,
                8,
            )
        },
{
    if data.len() < HEADER_SIZE {
        return None;
    }
    let flags: u64 = le::read_le(data, 12, 2);
    let packed_bytes: Option<u64> = if flags % 2 == 1 {
        Some(le::read_le(data, 40, 8))
    } else {
        None
    };
    Some(
        FileSummary {
            entries: le::read_le(data, 24, 8),
            drives: le::read_le(data, 48, 4),
            name_bytes: le::read_le(data, 32, 8),
            packed_bytes,
        },
    )
}

/// What stands between a file and its contents: the block of packed names, if the layout is sound
/// and there is one.
fn packed_block(data: &[u8]) -> (r: Option<&[u8]>)
    ensures
        r is Some <==> layout::layout_error(data@) is None && layout::names_packed(data@),
        r matches Some(block) ==> block@ == layout::stored_names(data@),
{
    if find_layout_error(data).is_some() {
        return None;
    }
    let flags: u64 = le::read_le(data, 12, 2);
    let off: u64 = le::read_le(data, 64, 8);
    if flags % 2 == 1 && off < data.len() as u64 {
        Some(slice_subrange(data, off as usize, data.len()))
    } else {
        None
    }
}

impl IndexReader {
    /// The contents of a file, given what unpacking its names gave. `unpacked` is not looked at
    /// where the layout is not sound or the names are not packed.
    pub fn open_with(data: &[u8], unpacked: Result<Vec<u8>, String>) -> (r: Result<Self, String>)
        ensures
            seen(r) == opened(data@, builder::seen(unpacked)),
    {
        if let Some(message) = find_layout_error(data) {
            return Err(message);
        }
        let len: usize = data.len();
        let flags: u64 = le::read_le(data, 12, 2);
        let off: u64 = le::read_le(data, 64, 8);
        let name_data: Vec<u8> = if off < len as u64 {
            if flags % 2 == 1 {
                match unpacked {
                    Ok(names) => names,
                    Err(message) => {
                        let mut text = "zstd decompress failed: ".to_string();
                        text.append(message.as_str());
                        return Err(text);
                    },
                }
            } else {
                slice_to_vec(slice_subrange(data, off as usize, len))
            }
        } else {
            Vec::new()
        };
        let entry_count: u64 = le::read_le(data, 24, 8);
        let stamp: u64 = le::read_le(data, 16, 8);
        let timestamp: i64 = stamp as i64;
        proof {
            assert(stamp < 0x8000_0000_0000_0000 ==> (stamp as i64) == stamp) by (bit_vector);
            assert(stamp >= 0x8000_0000_0000_0000 ==> (stamp as i64) == stamp
                - 0x1_0000_0000_0000_0000) by (bit_vector);
        }
        let reader = IndexReader {
            entries: read_entries(data),
            drives: read_drives(data),
            name_data,
            timestamp,
            entry_count,
            changed_drives: Vec::new(),
        };
        proof {
            assert(reader@.changed_drives =~= Seq::<Seq<char>>::empty());
            assert(reader@.name_data =~= (if layout::names_packed(data@) {
                builder::seen(unpacked)->Ok_0
            } else {
                layout::stored_names(data@)
            }));
        }
        Ok(reader)
    }

    /// The contents of a file. Packed names are unpacked; which drives have changed is not known
    /// yet.
    pub fn open(data: &[u8]) -> (r: Result<Self, String>)
        ensures
            layout::layout_error(data@) matches Some(message) ==> seen(r)
                == Err::<IndexView, Seq<char>>(message),
            layout::layout_error(data@) is None && !layout::names_packed(data@) ==> seen(r)
                == Ok::<IndexView, Seq<char>>(contents(data@, layout::stored_names(data@))),
            layout::layout_error(data@) is None && layout::names_packed(data@) ==> match r {
                Ok(reader) => {
                    &&& compress::zstd_decoded(layout::stored_names(data@)) == Some(
                        reader@.name_data,
                    )
                    &&& reader@ == contents(data@, reader@.name_data)
                },
                Err(message) => text::starts_with(message@, "zstd decompress failed: "@),
            },
    {
        let unpacked: Result<Vec<u8>, String> = match packed_block(data) {
            Some(block) => compress::decode_all(block),
            None => Ok(Vec::new()),
        };
        proof {
            if let Err(message) = builder::seen(unpacked) {
                let p = "zstd decompress failed: "@;
                assert((p + message).take(p.len() as int) =~= p);
            }
        }
        Self::open_with(data, unpacked)
    }

    /// Notes which of the drives have changed, given what is found where each was.
    pub fn record_drive_changes(&mut self, probes: &[DriveProbe])
        requires
            old(self).drives@.len() == probes@.len(),
            forall|i: int|
                0 <= i < probes@.len() ==> drives::comparable(
                    (#[trigger] old(self).drives@[i])@,
                    probes@[i],
                ),
        ensures
            final(self)@ == (IndexView {
                changed_drives: drives::changed_paths(old(self)@.drives, probes@),
                ..old(self)@
            }),
    {
        self.changed_drives = drives::check_drive_changes(self.drives.as_slice(), probes);
    }

    /// The name of an entry: from its offset in the name block up to the next zero byte. A name
    /// that is not UTF-8 comes out empty.
    pub fn get_name(&self, entry: &Entry) -> (r: &str)
        requires
            entry.name_off <= self.name_data@.len(),
        ensures
            r@ == name_at(self.name_data@, entry.name_off as int),
    {
        let start: usize = entry.name_off as usize;
        let len: usize = self.name_data.len();
        let mut end: usize = start;
        let ghost all = self.name_data@;
        assert(all.subrange(start as int, end as int) + until_nul(all.skip(end as int))
            =~= until_nul(all.skip(start as int)));
        while end < len && self.name_data[end] != 0
            invariant
                start <= end <= len == all.len(),
                all == self.name_data@,
                all.subrange(start as int, end as int) + until_nul(all.skip(end as int))
                    == until_nul(all.skip(start as int)),
            decreases len - end,
        {
            proof {
                let tail = all.skip(end as int);
                assert(tail.drop_first() =~= all.skip(end + 1));
                assert(until_nul(tail) == seq![all[end as int]] + until_nul(all.skip(end + 1)));
                assert(all.subrange(start as int, end + 1) + until_nul(all.skip(end + 1))
                    =~= all.subrange(start as int, end as int) + until_nul(tail));
            }
            end = end + 1;
        }
        assert(all.subrange(start as int, end as int) =~= until_nul(all.skip(start as int)));
        match text::from_utf8(slice_subrange(self.name_data.as_slice(), start, end)) {
            Some(name) => name,
            None => {
                proof {
                    reveal_strlit("");
                }
                assert(""@ =~= Seq::<char>::empty());
                ""
            },
        }
    }

    /// The entry with the given id, found by halving: whatever is found has the id, and in entries
    /// that are ordered by id an entry is found if there is one. Of several with the id it is not
    /// said which one.
    pub fn get_by_id(&self, id: u32) -> (r: Option<&Entry>)
        ensures
            r matches Some(entry) ==> entry.id == id && self.entries@.contains(*entry),
            r is None && id_sorted(self.entries@) ==> forall|i: int|
                0 <= i < self.entries@.len() ==> (#[trigger] self.entries@[i]).id != id,
    {
        let mut lo: usize = 0;
        let mut hi: usize = self.entries.len();
        while lo < hi
            invariant
                lo <= hi <= self.entries@.len(),
                id_sorted(self.entries@) ==> forall|i: int|
                    0 <= i < self.entries@.len() && !(lo <= i < hi) ==> (
                    #[trigger] self.entries@[i]).id != id,
            decreases hi - lo,
        {
            let mid: usize = lo + (hi - lo) / 2;
            let entry = &self.entries[mid];
            if entry.id == id {
                assert(self.entries@[mid as int] == *entry);
                return Some(entry);
            }
            if entry.id < id {
                lo = mid + 1;
            } else {
                hi = mid;
            }
        }
        None
    }
}

/// What is read of a sound file stands in its bytes: the time in bytes 16 to 24, the number of entries
/// in bytes 24 to 32, the drives only if bit 1 of byte 12 is set, and the name block from the offset
/// in bytes 64 to 72 to the end, packed only if bit 0 of byte 12 is set.
pub proof fn contents_are_in_the_bytes(data: Seq<u8>, names: Seq<u8>)
    requires
        layout::layout_error(data) is None,
    ensures
        ({
            let read = contents(data, names);
            let off = le::le_value(data.subrange(64, 72));
            &&& le::le_bytes(read.timestamp as int, 8) == data.subrange(16, 24)
            &&& le::le_bytes(read.entry_count as int, 8) == data.subrange(24, 32)
            &&& read.entries.len() == read.entry_count
            &&& read.name_data == names
            &&& read.changed_drives.len() == 0
            &&& data[12] / 2 % 2 == 0 ==> read.drives.len() == 0
            &&& layout::names_packed(data) <==> data[12] % 2 == 1 && off < data.len()
            &&& off < data.len() ==> data.take(off) + layout::stored_names(data) == data
            &&& off >= data.len() ==> layout::stored_names(data).len() == 0
        }),
{
    let stamp = data.subrange(16, 24);
    let count = data.subrange(24, 32);
    let flags = data.subrange(12, 14);
    let off = le::le_value(data.subrange(64, 72));
    le::lemma_pow256();
    le::lemma_le_value_roundtrip(stamp);
    le::lemma_le_value_roundtrip(count);
    le::lemma_le_value_roundtrip(flags);
    le::lemma_le_value_roundtrip(data.subrange(64, 72));
    le::lemma_le_bytes_wrap(layout::timestamp(data), 1, 8);
    assert(flags[0] == data[12]);
    let high = le::le_value(flags.drop_first());
    let low = flags[0] as int;
    assert(layout::field(data, 12, 2) == low + 256 * high);
    assert((low + 256 * high) % 2 == low % 2);
    assert((low + 256 * high) / 2 % 2 == low / 2 % 2);
    if off < data.len() {
        assert(data.take(off) + layout::stored_names(data) =~= data);
    }
}

/// Opening gives the message of the first thing that is wrong with the layout, as it is; else, where
/// the names are packed and could not be unpacked, the message of that; else the contents, with the
/// names as they were unpacked or as they stand in the file.
pub proof fn opening_tells_the_first_fault(
    data: Seq<u8>,
    unpacked: Result<Seq<u8>, Seq<char>>,
)
    ensures
        ({
            let outcome = opened(data, unpacked);
            let sound = layout::layout_error(data) is None;
            let packed = layout::names_packed(data);
            &&& !sound ==> outcome == Err::<IndexView, Seq<char>>(layout::layout_error(data)->0)
            &&& sound && packed && unpacked is Err ==> outcome == Err::<IndexView, Seq<char>>(
                "zstd decompress failed: "@ + unpacked->Err_0,
            )
            &&& outcome is Ok <==> sound && (packed ==> unpacked is Ok)
            &&& outcome is Ok ==> outcome->Ok_0.name_data == (if packed {
                unpacked->Ok_0
            } else {
                layout::stored_names(data)
            })
            &&& outcome is Ok ==> outcome->Ok_0.entries == layout::entries(data)
            &&& outcome is Ok ==> outcome->Ok_0.drives == layout::drives(data)
            &&& outcome is Ok ==> outcome->Ok_0 == contents(data, outcome->Ok_0.name_data)
        }),
{
}

} // verus!
