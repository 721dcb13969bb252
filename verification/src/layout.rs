//! The layout of an index file.
//!
//! ```text
//! [Header] [Tree Data] [Drive Data] [Name Block]
//!
//! Header (80 bytes, numbers little-endian):
//!    0  magic             8 bytes  "ANYIDX\1\0"
//!    8  version           4 bytes  1
//!   12  flags             2 bytes  bit 0: names compressed (zstd), bit 1: has drive info
//!   14  reserved          2 bytes
//!   16  timestamp         8 bytes  unix ms, signed
//!   24  entry count       8 bytes
//!   32  name block size   8 bytes  before compression
//!   40  name block csize  8 bytes  after compression, 0 if not compressed
//!   48  drive count       4 bytes
//!   52  tree entry count  4 bytes  the entry count again
//!   56  drive data offset 8 bytes  from the start of the file
//!   64  name block offset 8 bytes  from the start of the file
//!   72  reserved          8 bytes
//!
//! Tree Data (from byte 80): 12 bytes for each entry: id, parent id and the offset of its name
//! in the name block, 4 bytes each.
//!
//! Drive Data: for each drive the length of its path (4 bytes), the path, the length of its volume
//! id (1 byte), the volume id.
//!
//! Name Block: the paths in UTF-8, each followed by a zero byte; if flag bit 0 is set, the whole
//! block is packed with zstd.
//! ```

use vstd::prelude::*;
use vstd::utf8::*;

use crate::compress;
use crate::drives::DriveView;
use crate::le;
use crate::order;
use crate::order::Row;
use crate::reader::Entry;
use crate::text;

verus! {

/// "ANYIDX\1\0".
pub const MAGIC: [u8; 8] = [0x41, 0x4E, 0x59, 0x49, 0x44, 0x58, 0x01, 0x00];

/// The bytes of the header.
pub const HEADER_SIZE: usize = 80;

/// The bytes of one entry in the tree data.
pub const ENTRY_SIZE: usize = 12;

/// The version of the layout.
pub const FORMAT_VERSION: u32 = 1;

/// The level at which names are packed.
pub const ZSTD_LEVEL: i32 = 3;

/// The paths of `rows` in UTF-8, each followed by a zero byte.
pub open spec fn name_block(rows: Seq<Row>) -> Seq<u8>
    decreases rows.len(),
{
    if rows.len() == 0 {
        Seq::<u8>::empty()
    } else {
        name_block(rows.drop_last()) + encode_utf8(rows.last().path) + seq![0u8]
    }
}

/// One entry of the tree data.
pub open spec fn entry_bytes(row: Row, name_off: int) -> Seq<u8> {
    le::le_bytes(row.id as int, 4) + le::le_bytes(row.parent_id as int, 4) + le::le_bytes(
        name_off,
        4,
    )
}

/// The tree data of `rows`: the name of each begins where those before it end.
pub open spec fn tree_data(rows: Seq<Row>) -> Seq<u8>
    decreases rows.len(),
{
    if rows.len() == 0 {
        Seq::<u8>::empty()
    } else {
        tree_data(rows.drop_last()) + entry_bytes(
            rows.last(),
            name_block(rows.drop_last()).len() as int,
        )
    }
}

pub proof fn lemma_tree_len(rows: Seq<Row>)
    ensures
        tree_data(rows).len() == ENTRY_SIZE * rows.len(),
    decreases rows.len(),
{
    if rows.len() > 0 {
        lemma_tree_len(rows.drop_last());
        lemma_entry_len(rows.last(), name_block(rows.drop_last()).len() as int);
    }
}

pub proof fn lemma_entry_len(row: Row, name_off: int)
    ensures
        entry_bytes(row, name_off).len() == ENTRY_SIZE,
{
    le::lemma_le_bytes_len(row.id as int, 4);
    le::lemma_le_bytes_len(row.parent_id as int, 4);
    le::lemma_le_bytes_len(name_off, 4);
}

/// One drive in the drive data.
pub open spec fn drive_bytes(drive: DriveView) -> Seq<u8> {
    le::le_bytes(encode_utf8(drive.path).len() as int, 4) + encode_utf8(drive.path) + le::le_bytes(
        drive.volume_id.len() as int,
        1,
    ) + drive.volume_id
}

/// The drive data of `drives`.
pub open spec fn drive_data(drives: Seq<DriveView>) -> Seq<u8>
    decreases drives.len(),
{
    if drives.len() == 0 {
        Seq::<u8>::empty()
    } else {
        drive_data(drives.drop_last()) + drive_bytes(drives.last())
    }
}

/// What a file is made from: the entries as they were added, the drives, and whether to pack the
/// names.
pub struct IndexSource {
    pub rows: Seq<Row>,
    pub drives: Seq<DriveView>,
    pub compressed: bool,
}

impl IndexSource {
    /// The rows in the order of the file.
    pub open spec fn sorted(self) -> Seq<Row> {
        order::by_id(self.rows)
    }

    /// The name block before packing.
    pub open spec fn names(self) -> Seq<u8> {
        name_block(self.sorted())
    }

    /// The names are packed: this was asked for, and there is something to pack.
    pub open spec fn packs_names(self) -> bool {
        self.compressed && self.names().len() > 0
    }

    /// The name block as it stands in the file.
    pub open spec fn stored_names(self) -> Seq<u8> {
        if self.packs_names() {
            compress::zstd_encoded(self.names(), ZSTD_LEVEL)
        } else {
            self.names()
        }
    }

    /// The flags of the header.
    pub open spec fn flags(self) -> int {
        (if self.compressed {
            1int
        } else {
            0
        }) + (if self.drives.len() > 0 {
            2int
        } else {
            0
        })
    }

    /// Where the drive data begins.
    pub open spec fn drive_off(self) -> int {
        HEADER_SIZE + ENTRY_SIZE * self.rows.len()
    }

    /// Where the name block begins.
    pub open spec fn name_off(self) -> int {
        self.drive_off() + drive_data(self.drives).len()
    }

    /// The header of the file, given the time and the name block as it stands in the file.
    pub open spec fn header(self, timestamp: i64, stored: Seq<u8>) -> Seq<u8> {
        MAGIC@ + le::le_bytes(FORMAT_VERSION as int, 4) + le::le_bytes(self.flags(), 2)
            + le::le_bytes(0, 2) + le::le_bytes(timestamp as int, 8) + le::le_bytes(
            self.rows.len() as int,
            8,
        ) + le::le_bytes(self.names().len() as int, 8) + le::le_bytes(
            if self.packs_names() {
                stored.len() as int
            } else {
                0
            },
            8,
        ) + le::le_bytes(self.drives.len() as int, 4) + le::le_bytes(self.rows.len() as int, 4)
            + le::le_bytes(self.drive_off(), 8) + le::le_bytes(self.name_off(), 8) + le::le_bytes(
            0,
            8,
        )
    }

    /// The file, given the time and the name block as it stands in the file.
    pub open spec fn image(self, timestamp: i64, stored: Seq<u8>) -> Seq<u8> {
        self.header(timestamp, stored) + tree_data(self.sorted()) + drive_data(self.drives) + stored
    }
}

/// The number in the `n` bytes at `at`.
pub open spec fn field(data: Seq<u8>, at: int, n: int) -> int {
    le::le_value(data.subrange(at, at + n))
}

/// How many entries the header announces.
pub open spec fn entry_count(data: Seq<u8>) -> int {
    field(data, 24, 8)
}

/// What is wrong with the header or the tree data, if anything is.
pub open spec fn layout_error(data: Seq<u8>) -> Option<Seq<char>> {
    if data.len() < HEADER_SIZE {
        Some("file too small"@)
    } else if data.subrange(0, 8) != MAGIC@ {
        Some("bad magic"@)
    } else if field(data, 8, 4) != FORMAT_VERSION {
        Some("unsupported version "@ + text::decimal(field(data, 8, 4) as nat))
    } else if HEADER_SIZE + ENTRY_SIZE * entry_count(data) > data.len() {
        Some("truncated tree data"@)
    } else {
        None
    }
}

/// Flag bit 0: the name block is packed.
pub open spec fn flag_compressed(data: Seq<u8>) -> bool {
    field(data, 12, 2) % 2 == 1
}

/// Flag bit 1: there is drive data.
pub open spec fn flag_drives(data: Seq<u8>) -> bool {
    (field(data, 12, 2) / 2) % 2 == 1
}

/// The time in the header: eight bytes in two's complement.
pub open spec fn timestamp(data: Seq<u8>) -> int {
    let v = field(data, 16, 8);
    if v < 0x8000_0000_0000_0000 {
        v
    } else {
        v - 0x1_0000_0000_0000_0000
    }
}

/// The `i`th entry of the tree data.
pub open spec fn entry_at(data: Seq<u8>, i: int) -> Entry {
    let at = HEADER_SIZE + ENTRY_SIZE * i;
    Entry {
        id: field(data, at, 4) as u32,
        parent_id: field(data, at + 4, 4) as u32,
        name_off: field(data, at + 8, 4) as u32,
    }
}

/// The entries of the tree data.
pub open spec fn entries(data: Seq<u8>) -> Seq<Entry> {
    Seq::new(entry_count(data) as nat, |i: int| entry_at(data, i))
}

/// Where the drive at `pos` has its volume id length.
pub open spec fn volume_at(data: Seq<u8>, pos: int) -> int {
    pos + 4 + field(data, pos, 4)
}

/// Where the drive at `pos` ends.
pub open spec fn drive_end(data: Seq<u8>, pos: int) -> int {
    volume_at(data, pos) + 1 + data[volume_at(data, pos)]
}

/// A whole drive stands at `pos`.
pub open spec fn drive_fits(data: Seq<u8>, pos: int) -> bool {
    &&& pos + 4 <= data.len()
    &&& volume_at(data, pos) < data.len()
    &&& drive_end(data, pos) <= data.len()
}

/// The drive at `pos`.
pub open spec fn drive_at(data: Seq<u8>, pos: int) -> DriveView {
    let v = volume_at(data, pos);
    DriveView {
        path: text::text_of(data.subrange(pos + 4, v)),
        volume_id: data.subrange(v + 1, drive_end(data, pos)),
    }
}

/// At most `count` drives from `pos` on; the first that is cut off ends them.
pub open spec fn drives_from(data: Seq<u8>, pos: int, count: nat) -> Seq<DriveView>
    decreases count,
{
    if count == 0 || !drive_fits(data, pos) {
        Seq::<DriveView>::empty()
    } else {
        seq![drive_at(data, pos)] + drives_from(data, drive_end(data, pos), (count - 1) as nat)
    }
}

/// The drives of the file.
pub open spec fn drives(data: Seq<u8>) -> Seq<DriveView> {
    if flag_drives(data) {
        drives_from(data, field(data, 56, 8), field(data, 48, 4) as nat)
    } else {
        Seq::<DriveView>::empty()
    }
}

/// The name block as it stands in the file: from its offset to the end.
pub open spec fn stored_names(data: Seq<u8>) -> Seq<u8> {
    if field(data, 64, 8) < data.len() {
        data.skip(field(data, 64, 8))
    } else {
        Seq::<u8>::empty()
    }
}

/// The names have to be unpacked: the flag is set, and there is something to unpack.
pub open spec fn names_packed(data: Seq<u8>) -> bool {
    flag_compressed(data) && stored_names(data).len() > 0
}

/// A file is sound exactly if it has a whole header, which begins with the eight magic bytes and names
/// version 1, and a whole entry for each that the header announces. Of what is wrong, the first of
/// these is told.
pub proof fn sound_files(data: Seq<u8>)
    ensures
        ({
            let whole = data.len() >= 80;
            let magic = data[0] == 0x41 && data[1] == 0x4E && data[2] == 0x59 && data[3] == 0x49
                && data[4] == 0x44 && data[5] == 0x58 && data[6] == 0x01 && data[7] == 0x00;
            let version = le::le_value(data.subrange(8, 12));
            let announced = le::le_value(data.subrange(24, 32));
            &&& layout_error(data) is None <==> whole && magic && version == 1 && 80 + 12
                * announced <= data.len()
            &&& layout_error(data) == Some("file too small"@) <==> !whole
            &&& whole && !magic ==> layout_error(data) == Some("bad magic"@)
            &&& whole && magic && version != 1 ==> layout_error(data) == Some(
                "unsupported version "@ + text::decimal(version as nat),
            )
            &&& whole && magic && version == 1 && 80 + 12 * announced > data.len()
                ==> layout_error(data) == Some("truncated tree data"@)
        }),
{
    reveal_strlit("file too small");
    reveal_strlit("bad magic");
    reveal_strlit("unsupported version ");
    reveal_strlit("truncated tree data");
    assert("file too small"@[0] == 'f');
    assert("bad magic"@[0] == 'b');
    assert(("unsupported version "@ + text::decimal(field(data, 8, 4) as nat))[0] == 'u');
    assert("truncated tree data"@[0] == 't');
    if data.len() >= 80 {
        let head = data.subrange(0, 8);
        if data[0] == 0x41 && data[1] == 0x4E && data[2] == 0x59 && data[3] == 0x49 && data[4]
            == 0x44 && data[5] == 0x58 && data[6] == 0x01 && data[7] == 0x00 {
            assert(head =~= MAGIC@);
        }
        if head == MAGIC@ {
            assert(forall|i: int| 0 <= i < 8 ==> #[trigger] data[i] == head[i]);
        }
    }
}

/// The entries that are read of a sound file are the numbers in their twelve bytes each, from byte 80
/// on, as many as the header announces.
pub proof fn entries_are_in_their_bytes(data: Seq<u8>, i: int)
    requires
        layout_error(data) is None,
        0 <= i < entries(data).len(),
    ensures
        entries(data).len() == le::le_value(data.subrange(24, 32)),
        ({
            let entry = entries(data)[i];
            data.subrange(80 + 12 * i, 80 + 12 * i + 12) == le::le_bytes(entry.id as int, 4)
                + le::le_bytes(entry.parent_id as int, 4) + le::le_bytes(entry.name_off as int, 4)
        }),
{
    let at = 80 + 12 * i;
    le::lemma_le_value_roundtrip(data.subrange(24, 32));
    le::lemma_pow256();
    le::lemma_le_value_roundtrip(data.subrange(at, at + 4));
    le::lemma_le_value_roundtrip(data.subrange(at + 4, at + 8));
    le::lemma_le_value_roundtrip(data.subrange(at + 8, at + 12));
    assert(data.subrange(at, at + 12) =~= data.subrange(at, at + 4) + data.subrange(at + 4, at + 8)
        + data.subrange(at + 8, at + 12));
}

/// The names are packed, at level 3, exactly if that was asked for and there are entries; else they
/// stand in the file as they are.
pub proof fn packing_is_as_asked(source: IndexSource)
    ensures
        source.compressed && source.rows.len() > 0 ==> source.stored_names()
            == compress::zstd_encoded(source.names(), 3),
        !(source.compressed && source.rows.len() > 0) ==> source.stored_names() == source.names(),
        source.rows.len() == 0 ==> source.names().len() == 0,
{
    order::by_id_is_stable_sort(source.rows);
}

} // verus!
