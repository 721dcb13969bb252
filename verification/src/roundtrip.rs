//! What is written is what is read.

use vstd::prelude::*;
use vstd::utf8::*;

use crate::compress;
use crate::drives::DriveView;
use crate::layout;
use crate::layout::{IndexSource, ENTRY_SIZE, FORMAT_VERSION, HEADER_SIZE, MAGIC};
use crate::le;
use crate::order;
use crate::order::Row;
use crate::reader;
use crate::reader::{Entry, IndexView};
use crate::records;
use crate::records::RecordView;

verus! {

/// A drive that the drive data has room for: the length of its path fits in four bytes, that of
/// its volume id in one.
pub open spec fn drive_representable(drive: DriveView) -> bool {
    encode_utf8(drive.path).len() < 0x1_0000_0000 && drive.volume_id.len() < 0x100
}

/// Everything in the header and in the drive data fits in its bytes.
pub open spec fn representable(source: IndexSource) -> bool {
    &&& forall|i: int|
        0 <= i < source.drives.len() ==> drive_representable(#[trigger] source.drives[i])
    &&& source.drives.len() < 0x1_0000_0000
    &&& source.name_off() < 0x1_0000_0000_0000_0000
}

/// Where the name of the `i`th entry of the file begins in the name block.
pub open spec fn name_offset(sorted: Seq<Row>, i: int) -> int {
    layout::name_block(sorted.take(i)).len() as int
}

/// The `i`th entry of the file; of the offset of its name there is room for the low 32 bits.
pub open spec fn written_entry(sorted: Seq<Row>, i: int) -> Entry {
    Entry {
        id: sorted[i].id,
        parent_id: sorted[i].parent_id,
        name_off: (name_offset(sorted, i) % 0x1_0000_0000) as u32,
    }
}

/// The contents that a file made from `source` at `timestamp` has.
pub open spec fn written_contents(source: IndexSource, timestamp: i64) -> IndexView {
    IndexView {
        entries: Seq::new(source.rows.len(), |i: int| written_entry(source.sorted(), i)),
        drives: source.drives,
        name_data: source.names(),
        timestamp,
        entry_count: source.rows.len() as u64,
        changed_drives: Seq::<Seq<char>>::empty(),
    }
}

/// Each number of the header stands at its place.
pub proof fn header_fields(source: IndexSource, timestamp: i64, stored: Seq<u8>)
    ensures
        ({
            let h = source.header(timestamp, stored);
            &&& h.len() == HEADER_SIZE
            &&& h.subrange(0, 8) == MAGIC@
            &&& h.subrange(8, 12) == le::le_bytes(FORMAT_VERSION as int, 4)
            &&& h.subrange(12, 14) == le::le_bytes(source.flags(), 2)
            &&& h.subrange(14, 16) == le::le_bytes(0, 2)
            &&& h.subrange(16, 24) == le::le_bytes(timestamp as int, 8)
            &&& h.subrange(24, 32) == le::le_bytes(source.rows.len() as int, 8)
            &&& h.subrange(32, 40) == le::le_bytes(source.names().len() as int, 8)
            &&& h.subrange(40, 48) == le::le_bytes(
                if source.packs_names() {
                    stored.len() as int
                } else {
                    0
                },
                8,
            )
            &&& h.subrange(48, 52) == le::le_bytes(source.drives.len() as int, 4)
            &&& h.subrange(52, 56) == le::le_bytes(source.rows.len() as int, 4)
            &&& h.subrange(56, 64) == le::le_bytes(source.drive_off(), 8)
            &&& h.subrange(64, 72) == le::le_bytes(source.name_off(), 8)
            &&& h.subrange(72, 80) == le::le_bytes(0, 8)
        }),
{
    let csize = if source.packs_names() {
        stored.len() as int
    } else {
        0
    };
    le::lemma_le_bytes_len(FORMAT_VERSION as int, 4);
    le::lemma_le_bytes_len(source.flags(), 2);
    le::lemma_le_bytes_len(0, 2);
    le::lemma_le_bytes_len(timestamp as int, 8);
    le::lemma_le_bytes_len(source.rows.len() as int, 8);
    le::lemma_le_bytes_len(source.names().len() as int, 8);
    le::lemma_le_bytes_len(csize, 8);
    le::lemma_le_bytes_len(source.drives.len() as int, 4);
    le::lemma_le_bytes_len(source.rows.len() as int, 4);
    le::lemma_le_bytes_len(source.drive_off(), 8);
    le::lemma_le_bytes_len(source.name_off(), 8);
    le::lemma_le_bytes_len(0, 8);
    let h = source.header(timestamp, stored);
    assert(h.subrange(0, 8) =~= MAGIC@);
    assert(h.subrange(8, 12) =~= le::le_bytes(FORMAT_VERSION as int, 4));
    assert(h.subrange(12, 14) =~= le::le_bytes(source.flags(), 2));
    assert(h.subrange(14, 16) =~= le::le_bytes(0, 2));
    assert(h.subrange(16, 24) =~= le::le_bytes(timestamp as int, 8));
    assert(h.subrange(24, 32) =~= le::le_bytes(source.rows.len() as int, 8));
    assert(h.subrange(32, 40) =~= le::le_bytes(source.names().len() as int, 8));
    assert(h.subrange(40, 48) =~= le::le_bytes(csize, 8));
    assert(h.subrange(48, 52) =~= le::le_bytes(source.drives.len() as int, 4));
    assert(h.subrange(52, 56) =~= le::le_bytes(source.rows.len() as int, 4));
    assert(h.subrange(56, 64) =~= le::le_bytes(source.drive_off(), 8));
    assert(h.subrange(64, 72) =~= le::le_bytes(source.name_off(), 8));
    assert(h.subrange(72, 80) =~= le::le_bytes(0, 8));
}

/// Files made from the same source at different times differ in the eight bytes of the time alone.
pub proof fn time_stands_in_its_bytes(source: IndexSource, a: i64, b: i64, stored: Seq<u8>)
    ensures
        source.image(a, stored).len() == source.image(b, stored).len(),
        forall|i: int|
            0 <= i < source.image(a, stored).len() && !(16 <= i < 24) ==> #[trigger] source.image(
                a,
                stored,
            )[i] == source.image(b, stored)[i],
{
    header_fields(source, a, stored);
    header_fields(source, b, stored);
    le::lemma_le_bytes_len(a as int, 8);
    le::lemma_le_bytes_len(b as int, 8);
    let x = source.header(a, stored);
    let y = source.header(b, stored);
    assert forall|i: int| 0 <= i < HEADER_SIZE && !(16 <= i < 24) implies x[i] == y[i] by {}
}

/// The header, read back from the file.
proof fn lemma_read_header(source: IndexSource, timestamp: i64, stored: Seq<u8>)
    requires
        representable(source),
    ensures
        ({
            let data = source.image(timestamp, stored);
            &&& data.len() == source.name_off() + stored.len()
            &&& data.subrange(0, 8) == MAGIC@
            &&& layout::field(data, 8, 4) == FORMAT_VERSION
            &&& layout::field(data, 12, 2) == source.flags()
            &&& layout::timestamp(data) == timestamp
            &&& layout::field(data, 24, 8) == source.rows.len()
            &&& layout::field(data, 48, 4) == source.drives.len()
            &&& layout::field(data, 56, 8) == source.drive_off()
            &&& layout::field(data, 64, 8) == source.name_off()
        }),
{
    let data = source.image(timestamp, stored);
    let h = source.header(timestamp, stored);
    header_fields(source, timestamp, stored);
    layout::lemma_tree_len(source.sorted());
    order::by_id_is_stable_sort(source.rows);
    le::lemma_pow256();
    assert forall|a: int, b: int| 0 <= a <= b <= HEADER_SIZE implies #[trigger] data.subrange(a, b)
        == h.subrange(a, b) by {
        assert(data.subrange(a, b) =~= h.subrange(a, b));
    }
    le::lemma_le_roundtrip(FORMAT_VERSION as int, 4);
    le::lemma_le_roundtrip(source.flags(), 2);
    le::lemma_le_roundtrip(source.rows.len() as int, 8);
    le::lemma_le_roundtrip(source.drives.len() as int, 4);
    le::lemma_le_roundtrip(source.drive_off(), 8);
    le::lemma_le_roundtrip(source.name_off(), 8);
    if timestamp >= 0 {
        le::lemma_le_roundtrip(timestamp as int, 8);
    } else {
        le::lemma_le_bytes_wrap(timestamp as int, 1, 8);
        le::lemma_le_roundtrip(timestamp + 0x1_0000_0000_0000_0000, 8);
    }
}

/// Each entry stands at its place in the tree data.
proof fn lemma_tree_entry(rows: Seq<Row>, i: int)
    requires
        0 <= i < rows.len(),
    ensures
        layout::tree_data(rows).len() == ENTRY_SIZE * rows.len(),
        layout::tree_data(rows).subrange(ENTRY_SIZE * i, ENTRY_SIZE * i + ENTRY_SIZE)
            == layout::entry_bytes(rows[i], name_offset(rows, i)),
    decreases rows.len(),
{
    let init = rows.drop_last();
    let last = layout::entry_bytes(rows.last(), layout::name_block(init).len() as int);
    layout::lemma_tree_len(rows);
    layout::lemma_tree_len(init);
    layout::lemma_entry_len(rows.last(), layout::name_block(init).len() as int);
    let part = layout::tree_data(rows).subrange(ENTRY_SIZE * i, ENTRY_SIZE * i + ENTRY_SIZE);
    if i == rows.len() - 1 {
        assert(init =~= rows.take(i));
        assert(part =~= last);
    } else {
        lemma_tree_entry(init, i);
        assert(init.take(i) =~= rows.take(i));
        assert(part =~= layout::tree_data(init).subrange(
            ENTRY_SIZE * i,
            ENTRY_SIZE * i + ENTRY_SIZE,
        ));
    }
}

/// The tree data, read back from the file.
proof fn lemma_read_entry(source: IndexSource, timestamp: i64, stored: Seq<u8>, i: int)
    requires
        representable(source),
        0 <= i < source.rows.len(),
    ensures
        layout::entry_at(source.image(timestamp, stored), i) == written_entry(source.sorted(), i),
{
    let sorted = source.sorted();
    let data = source.image(timestamp, stored);
    let at = HEADER_SIZE + ENTRY_SIZE * i;
    let row = sorted[i];
    let off = name_offset(sorted, i);
    let bytes = layout::entry_bytes(row, off);
    header_fields(source, timestamp, stored);
    order::by_id_is_stable_sort(source.rows);
    lemma_tree_entry(sorted, i);
    le::lemma_le_bytes_len(row.id as int, 4);
    le::lemma_le_bytes_len(row.parent_id as int, 4);
    le::lemma_le_bytes_len(off, 4);
    let tree = layout::tree_data(sorted);
    assert(data.subrange(at, at + 12) =~= tree.subrange(
        ENTRY_SIZE * i,
        ENTRY_SIZE * i + ENTRY_SIZE,
    ));
    assert(data.subrange(at, at + 4) =~= data.subrange(at, at + 12).subrange(0, 4));
    assert(data.subrange(at + 4, at + 8) =~= data.subrange(at, at + 12).subrange(4, 8));
    assert(data.subrange(at + 8, at + 12) =~= data.subrange(at, at + 12).subrange(8, 12));
    assert(bytes.subrange(0, 4) =~= le::le_bytes(row.id as int, 4));
    assert(bytes.subrange(4, 8) =~= le::le_bytes(row.parent_id as int, 4));
    assert(bytes.subrange(8, 12) =~= le::le_bytes(off, 4));
    le::lemma_pow256();
    le::lemma_le_roundtrip(row.id as int, 4);
    le::lemma_le_roundtrip(row.parent_id as int, 4);
    let low = off % 0x1_0000_0000;
    le::lemma_le_bytes_wrap(low, off / 0x1_0000_0000, 4);
    assert(off == low + (off / 0x1_0000_0000) * 0x1_0000_0000);
    le::lemma_le_roundtrip(low, 4);
}

proof fn lemma_drive_data_concat(a: Seq<DriveView>, b: Seq<DriveView>)
    ensures
        layout::drive_data(a + b) == layout::drive_data(a) + layout::drive_data(b),
    decreases b.len(),
{
    if b.len() == 0 {
        assert(a + b =~= a);
        assert(layout::drive_data(a + b) =~= layout::drive_data(a) + layout::drive_data(b));
    } else {
        lemma_drive_data_concat(a, b.drop_last());
        assert((a + b).drop_last() =~= a + b.drop_last());
        assert(layout::drive_data(a + b) =~= layout::drive_data(a) + layout::drive_data(b));
    }
}

/// A drive that stands at `pos` is read as what it is.
proof fn lemma_read_drive(data: Seq<u8>, pos: int, drive: DriveView)
    requires
        drive_representable(drive),
        0 <= pos,
        pos + layout::drive_bytes(drive).len() <= data.len(),
        data.subrange(pos, pos + layout::drive_bytes(drive).len()) == layout::drive_bytes(drive),
    ensures
        layout::drive_fits(data, pos),
        layout::drive_at(data, pos) == drive,
        layout::drive_end(data, pos) == pos + layout::drive_bytes(drive).len(),
{
    let path = encode_utf8(drive.path);
    let n = path.len() as int;
    let m = drive.volume_id.len() as int;
    let bytes = layout::drive_bytes(drive);
    le::lemma_le_bytes_len(n, 4);
    le::lemma_le_bytes_len(m, 1);
    le::lemma_pow256();
    le::lemma_le_roundtrip(n, 4);
    assert(data.subrange(pos, pos + 4) =~= bytes.subrange(0, 4));
    assert(bytes.subrange(0, 4) =~= le::le_bytes(n, 4));
    assert(layout::field(data, pos, 4) == n);
    let v = pos + 4 + n;
    assert(data[v] == data.subrange(pos, pos + bytes.len())[4 + n]);
    assert(bytes[4 + n] == le::le_bytes(m, 1)[0]);
    assert(le::le_bytes(m, 1)[0] == (m % 256) as u8);
    assert(data[v] == m);
    assert(data.subrange(pos + 4, v) =~= bytes.subrange(4, 4 + n));
    assert(bytes.subrange(4, 4 + n) =~= path);
    assert(data.subrange(v + 1, v + 1 + m) =~= bytes.subrange(5 + n, 5 + n + m));
    assert(bytes.subrange(5 + n, 5 + n + m) =~= drive.volume_id);
    encode_utf8_valid_utf8(drive.path);
    encode_utf8_decode_utf8(drive.path);
}

/// The drives from the `k`th on, read back from where they stand.
proof fn lemma_read_drives(data: Seq<u8>, start: int, drives: Seq<DriveView>, k: int)
    requires
        0 <= k <= drives.len(),
        0 <= start,
        start + layout::drive_data(drives).len() <= data.len(),
        data.subrange(start, start + layout::drive_data(drives).len()) == layout::drive_data(
            drives,
        ),
        forall|i: int| 0 <= i < drives.len() ==> drive_representable(#[trigger] drives[i]),
    ensures
        layout::drives_from(
            data,
            start + layout::drive_data(drives.take(k)).len(),
            (drives.len() - k) as nat,
        ) == drives.skip(k),
    decreases drives.len() - k,
{
    if k == drives.len() {
        assert(drives.skip(k) =~= Seq::<DriveView>::empty());
    } else {
        let head = drives.take(k);
        let tail = drives.skip(k + 1);
        let drive = drives[k];
        let pos = start + layout::drive_data(head).len();
        let bytes = layout::drive_bytes(drive);
        assert(drives.take(k + 1).drop_last() =~= head);
        assert(drives =~= drives.take(k + 1) + tail);
        lemma_drive_data_concat(drives.take(k + 1), tail);
        assert(layout::drive_data(drives.take(k + 1)) == layout::drive_data(head) + bytes);
        let d0 = layout::drive_data(head).len() as int;
        assert(data.subrange(pos, pos + bytes.len()) =~= data.subrange(
            start,
            start + layout::drive_data(drives).len(),
        ).subrange(d0, d0 + bytes.len()));
        assert(layout::drive_data(drives).subrange(d0, d0 + bytes.len()) =~= bytes);
        lemma_read_drive(data, pos, drive);
        lemma_read_drives(data, start, drives, k + 1);
        assert(drives.skip(k) =~= seq![drive] + tail);
    }
}

/// The parts of a file stand one behind the other.
proof fn lemma_sections(h: Seq<u8>, tree: Seq<u8>, drives: Seq<u8>, stored: Seq<u8>)
    ensures
        ({
            let data = h + tree + drives + stored;
            let a = (h.len() + tree.len()) as int;
            let b = (a + drives.len()) as int;
            &&& data.subrange(a, b) == drives
            &&& data.skip(b) == stored
        }),
{
    let data = h + tree + drives + stored;
    let a = (h.len() + tree.len()) as int;
    let b = (a + drives.len()) as int;
    assert(data.subrange(a, b) =~= drives);
    assert(data.skip(b) =~= stored);
}

proof fn lemma_header_len(source: IndexSource, timestamp: i64, stored: Seq<u8>)
    ensures
        source.header(timestamp, stored).len() == HEADER_SIZE,
{
    header_fields(source, timestamp, stored);
}

/// The drive data and the name block stand at their offsets.
proof fn lemma_image_sections(source: IndexSource, timestamp: i64, stored: Seq<u8>)
    ensures
        source.image(timestamp, stored).subrange(source.drive_off(), source.name_off())
            == layout::drive_data(source.drives),
        source.image(timestamp, stored).skip(source.name_off()) == stored,
{
    lemma_header_len(source, timestamp, stored);
    order::by_id_is_stable_sort(source.rows);
    layout::lemma_tree_len(source.sorted());
    lemma_sections(
        source.header(timestamp, stored),
        layout::tree_data(source.sorted()),
        layout::drive_data(source.drives),
        stored,
    );
}

/// A file whose parts are those of `source` has the contents of `source`.
proof fn lemma_parts_are_contents(
    source: IndexSource,
    timestamp: i64,
    stored: Seq<u8>,
    data: Seq<u8>,
)
    requires
        representable(source),
        source.packs_names() ==> stored.len() > 0,
        !source.packs_names() ==> stored == source.names(),
        data.len() == source.name_off() + stored.len(),
        data.subrange(0, 8) == MAGIC@,
        layout::field(data, 8, 4) == FORMAT_VERSION,
        layout::field(data, 12, 2) == source.flags(),
        layout::timestamp(data) == timestamp,
        layout::field(data, 24, 8) == source.rows.len(),
        layout::field(data, 48, 4) == source.drives.len(),
        layout::field(data, 56, 8) == source.drive_off(),
        layout::field(data, 64, 8) == source.name_off(),
        forall|i: int|
            0 <= i < source.rows.len() ==> #[trigger] layout::entry_at(data, i) == written_entry(
                source.sorted(),
                i,
            ),
        data.subrange(source.drive_off(), source.name_off()) == layout::drive_data(source.drives),
        data.skip(source.name_off()) == stored,
    ensures
        layout::layout_error(data) is None,
        layout::names_packed(data) == source.packs_names(),
        layout::stored_names(data) == stored,
        reader::contents(data, source.names()) == written_contents(source, timestamp),
{
    lemma_read_drives(data, source.drive_off(), source.drives, 0);
    assert(source.drives.take(0) =~= Seq::<DriveView>::empty());
    assert(source.drives.skip(0) =~= source.drives);
    assert(layout::stored_names(data) =~= stored);
    let read = reader::contents(data, source.names());
    let made = written_contents(source, timestamp);
    assert(read.entries =~= made.entries);
    assert(read.drives =~= made.drives);
}

/// A file, opened again, has the contents that it was made from: the entries in their order, each
/// with its id, its parent's id and the offset of its name; the drives; the name block; the time;
/// the number of entries. This holds of packed names too, once they are unpacked to what they were
/// before.
pub proof fn open_undoes_write(source: IndexSource, timestamp: i64, stored: Seq<u8>)
    requires
        representable(source),
        source.packs_names() ==> stored.len() > 0,
        !source.packs_names() ==> stored == source.names(),
    ensures
        layout::layout_error(source.image(timestamp, stored)) is None,
        layout::names_packed(source.image(timestamp, stored)) == source.packs_names(),
        layout::stored_names(source.image(timestamp, stored)) == stored,
        reader::opened(source.image(timestamp, stored), Ok(source.names())) == Ok::<
            IndexView,
            Seq<char>,
        >(written_contents(source, timestamp)),
{
    let data = source.image(timestamp, stored);
    lemma_read_header(source, timestamp, stored);
    lemma_image_sections(source, timestamp, stored);
    assert forall|i: int| 0 <= i < source.rows.len() implies #[trigger] layout::entry_at(data, i)
        == written_entry(source.sorted(), i) by {
        lemma_read_entry(source, timestamp, stored, i);
    }
    lemma_parts_are_contents(source, timestamp, stored, data);
}

/// What opening a written file gives, packed or not: its layout is sound, and whatever contents come
/// out are those that went in. (`source` and its stored names are as a successful write leaves them,
/// `read` as a successful opening gives it.)
pub proof fn reopened_file_is_unchanged(source: IndexSource, timestamp: i64, read: IndexView)
    requires
        representable(source),
        source.packs_names() ==> compress::zstd_decoded(source.stored_names()) == Some(
            source.names(),
        ) && source.stored_names().len() > 0,
        ({
            let data = source.image(timestamp, source.stored_names());
            if layout::names_packed(data) {
                &&& compress::zstd_decoded(layout::stored_names(data)) == Some(read.name_data)
                &&& read == reader::contents(data, read.name_data)
            } else {
                read == reader::contents(data, layout::stored_names(data))
            }
        }),
    ensures
        layout::layout_error(source.image(timestamp, source.stored_names())) is None,
        read == written_contents(source, timestamp),
{
    open_undoes_write(source, timestamp, source.stored_names());
}

/// The characters of a path in front of its first NUL; all of them if there is none.
pub open spec fn before_nul(path: Seq<char>) -> Seq<char>
    decreases path.len(),
{
    if path.len() == 0 || path[0] == '\0' {
        Seq::<char>::empty()
    } else {
        seq![path[0]] + before_nul(path.drop_first())
    }
}

/// A path without NUL is whole in front of its first NUL.
pub proof fn before_nul_is_whole(path: Seq<char>)
    requires
        forall|i: int| 0 <= i < path.len() ==> path[i] != '\0',
    ensures
        before_nul(path) == path,
    decreases path.len(),
{
    if path.len() > 0 {
        before_nul_is_whole(path.drop_first());
        assert(before_nul(path) =~= path);
    } else {
        assert(before_nul(path) =~= path);
    }
}

proof fn lemma_until_nul_skips(x: Seq<u8>, y: Seq<u8>)
    requires
        forall|i: int| 0 <= i < x.len() ==> x[i] != 0,
    ensures
        reader::until_nul(x + y) == x + reader::until_nul(y),
    decreases x.len(),
{
    if x.len() == 0 {
        assert(x + y =~= y);
        assert(x + reader::until_nul(y) =~= reader::until_nul(y));
    } else {
        lemma_until_nul_skips(x.drop_first(), y);
        assert((x + y).drop_first() =~= x.drop_first() + y);
        assert(reader::until_nul(x + y) =~= x + reader::until_nul(y));
    }
}

/// Only the NUL character has a zero byte in its encoding.
proof fn lemma_scalar_nonzero(c: char)
    requires
        c != '\0',
    ensures
        forall|i: int|
            0 <= i < encode_scalar(c as u32).len() ==> #[trigger] encode_scalar(c as u32)[i] != 0,
{
    let v = c as u32;
    assert(v != 0);
    assert(0 < v <= 0x7f ==> (v & 0x7f) as u8 != 0) by (bit_vector);
    assert((0xC0 | ((v >> 6) & 0x1F) as u8) != 0) by (bit_vector);
    assert((0xE0 | ((v >> 12) & 0x0F) as u8) != 0) by (bit_vector);
    assert((0xF0 | ((v >> 18) & 0x7) as u8) != 0) by (bit_vector);
    assert((0x80 | (v & 0x3F) as u8) != 0) by (bit_vector);
    assert((0x80 | ((v >> 6) & 0x3F) as u8) != 0) by (bit_vector);
    assert((0x80 | ((v >> 12) & 0x3F) as u8) != 0) by (bit_vector);
}

/// What is read of a name that stands in front of a zero byte.
proof fn lemma_until_nul_of_path(path: Seq<char>, rest: Seq<u8>)
    ensures
        reader::until_nul(encode_utf8(path) + (seq![0u8] + rest)) == encode_utf8(before_nul(path)),
    decreases path.len(),
{
    let behind = seq![0u8] + rest;
    let all = encode_utf8(path) + behind;
    if path.len() == 0 {
        assert(all =~= behind);
    } else if path[0] == '\0' {
        assert(encode_scalar(0u32)[0] == 0) by {
            assert((0u32 & 0x7F) as u8 == 0) by (bit_vector);
        }
        assert(all[0] == 0);
    } else {
        let first = encode_scalar(path[0] as u32);
        let tail = encode_utf8(path.drop_first()) + behind;
        lemma_scalar_nonzero(path[0]);
        assert(all =~= first + tail);
        lemma_until_nul_skips(first, tail);
        lemma_until_nul_of_path(path.drop_first(), rest);
        let kept = before_nul(path);
        assert(kept.drop_first() =~= before_nul(path.drop_first()));
    }
}

proof fn lemma_name_block_concat(a: Seq<Row>, b: Seq<Row>)
    ensures
        layout::name_block(a + b) == layout::name_block(a) + layout::name_block(b),
    decreases b.len(),
{
    if b.len() == 0 {
        assert(a + b =~= a);
        assert(layout::name_block(a + b) =~= layout::name_block(a) + layout::name_block(b));
    } else {
        lemma_name_block_concat(a, b.drop_last());
        assert((a + b).drop_last() =~= a + b.drop_last());
        assert(layout::name_block(a + b) =~= layout::name_block(a) + layout::name_block(b));
    }
}

/// The name of every entry of a file is the path that was added, up to its first NUL, as long as
/// the name begins within the reach of its 32-bit offset. The offset is one that a name can be
/// asked for at.
pub proof fn names_are_the_paths(source: IndexSource, timestamp: i64, i: int)
    requires
        0 <= i < source.rows.len(),
        name_offset(source.sorted(), i) < 0x1_0000_0000,
    ensures
        written_contents(source, timestamp).entries[i].name_off <= source.names().len(),
        reader::name_at(source.names(), written_contents(source, timestamp).entries[i].name_off as int)
            == before_nul(source.sorted()[i].path),
{
    let sorted = source.sorted();
    order::by_id_is_stable_sort(source.rows);
    let head = sorted.take(i);
    let tail = sorted.skip(i + 1);
    let path = sorted[i].path;
    let off = name_offset(sorted, i);
    assert(sorted.take(i + 1).drop_last() =~= head);
    assert(sorted =~= sorted.take(i + 1) + tail);
    lemma_name_block_concat(sorted.take(i + 1), tail);
    let rest = layout::name_block(tail);
    assert(source.names() =~= layout::name_block(head) + encode_utf8(path) + seq![0u8] + rest);
    assert(source.names().skip(off) =~= encode_utf8(path) + (seq![0u8] + rest));
    lemma_until_nul_of_path(path, rest);
    encode_utf8_valid_utf8(before_nul(path));
    encode_utf8_decode_utf8(before_nul(path));
}

/// The entries of a file are ordered by id, so that every id that was added can be found by
/// halving.
pub proof fn entries_are_searchable(source: IndexSource, timestamp: i64)
    ensures
        reader::id_sorted(written_contents(source, timestamp).entries),
        forall|k: int|
            0 <= k < source.rows.len() ==> exists|i: int|
                0 <= i < source.rows.len() && written_contents(source, timestamp).entries[i].id == (
                #[trigger] source.rows[k]).id,
{
    broadcast use vstd::seq_lib::group_to_multiset_ensures;

    let sorted = source.sorted();
    let entries = written_contents(source, timestamp).entries;
    order::by_id_is_stable_sort(source.rows);
    assert forall|k: int| 0 <= k < source.rows.len() implies exists|i: int|
        0 <= i < source.rows.len() && entries[i].id == (#[trigger] source.rows[k]).id by {
        let row = source.rows[k];
        assert(source.rows.contains(row));
        assert(sorted.to_multiset().count(row) > 0);
        assert(sorted.contains(row));
        let i = choose|i: int| 0 <= i < sorted.len() && sorted[i] == row;
        assert(entries[i].id == row.id);
    }
}

/// Where no two entries were added with the same id, the entry that a file has for an id is the one
/// that was added with it: it has the same parent, and its name is the path up to its first NUL, as
/// long as that name begins within the reach of a 32-bit offset.
pub proof fn entry_of_an_id(source: IndexSource, timestamp: i64, k: int, i: int)
    requires
        order::distinct_ids(source.rows),
        0 <= k < source.rows.len(),
        0 <= i < source.rows.len(),
        name_offset(source.sorted(), i) < 0x1_0000_0000,
        written_contents(source, timestamp).entries[i].id == source.rows[k].id,
    ensures
        written_contents(source, timestamp).entries[i].parent_id == source.rows[k].parent_id,
        reader::name_at(source.names(), written_contents(source, timestamp).entries[i].name_off as int)
            == before_nul(source.rows[k].path),
{
    broadcast use vstd::seq_lib::group_to_multiset_ensures;

    let sorted = source.sorted();
    order::by_id_is_stable_sort(source.rows);
    let row = sorted[i];
    assert(sorted.contains(row));
    assert(source.rows.to_multiset().count(row) > 0);
    assert(source.rows.contains(row));
    let m = choose|m: int| 0 <= m < source.rows.len() && source.rows[m] == row;
    assert(m == k);
    names_are_the_paths(source, timestamp, i);
}

/// The order in which entries are added makes no difference to the file, but for entries of the
/// same id.
pub proof fn adding_order_does_not_matter(a: IndexSource, b: IndexSource, timestamp: i64)
    requires
        forall|id: u32| #[trigger] order::with_id(a.rows, id) == order::with_id(b.rows, id),
        a.drives == b.drives,
        a.compressed == b.compressed,
    ensures
        a.stored_names() == b.stored_names(),
        a.image(timestamp, a.stored_names()) == b.image(timestamp, b.stored_names()),
{
    order::by_id_is_stable_sort(a.rows);
    order::by_id_is_stable_sort(b.rows);
    assert forall|id: u32| #[trigger] order::with_id(a.sorted(), id) == order::with_id(
        b.rows,
        id,
    ) by {
        assert(order::with_id(a.rows, id) == order::with_id(b.rows, id));
    }
    order::by_id_is_unique(b.rows, a.sorted());
}

/// The flags of a file say whether packing was asked for and whether there are drives.
pub proof fn flags_say_so(source: IndexSource, timestamp: i64, stored: Seq<u8>)
    requires
        representable(source),
    ensures
        layout::flag_compressed(source.image(timestamp, stored)) == source.compressed,
        layout::flag_drives(source.image(timestamp, stored)) == (source.drives.len() > 0),
{
    lemma_read_header(source, timestamp, stored);
}

/// What stands in front of the first NUL is all that is kept of a path.
pub proof fn nul_ends_a_path(a: Seq<char>, b: Seq<char>)
    requires
        forall|i: int| 0 <= i < a.len() ==> a[i] != '\0',
    ensures
        before_nul(a + seq!['\0'] + b) == a,
    decreases a.len(),
{
    let path = a + seq!['\0'] + b;
    if a.len() > 0 {
        nul_ends_a_path(a.drop_first(), b);
        assert(path.drop_first() =~= a.drop_first() + seq!['\0'] + b);
        assert(before_nul(path) =~= a);
    } else {
        assert(before_nul(path) =~= a);
    }
}

/// The name at an offset is what stands there up to the next zero byte or the end, and it is empty if
/// that is not UTF-8; what stands in front of it or behind it makes no difference.
pub proof fn names_end_at_a_zero(front: Seq<u8>, name: Seq<u8>, rest: Seq<u8>)
    requires
        forall|i: int| 0 <= i < name.len() ==> name[i] != 0,
        rest.len() == 0 || rest[0] == 0,
    ensures
        reader::name_at(front + name + rest, front.len() as int) == (if valid_utf8(name) {
            decode_utf8(name)
        } else {
            Seq::<char>::empty()
        }),
{
    let all = front + name + rest;
    assert(all.skip(front.len() as int) =~= name + rest);
    lemma_until_nul_skips(name, rest);
    assert(name + reader::until_nul(rest) =~= name);
}

/// Drives that stand whole in the drive data are read as they are, up to one that is cut off.
pub proof fn drives_before_a_cut(
    front: Seq<u8>,
    drives: Seq<DriveView>,
    last: DriveView,
    m: int,
    count: nat,
)
    requires
        forall|i: int| 0 <= i < drives.len() ==> drive_representable(#[trigger] drives[i]),
        drive_representable(last),
        0 <= m < layout::drive_bytes(last).len(),
        count > drives.len(),
    ensures
        layout::drives_from(
            front + layout::drive_data(drives) + layout::drive_bytes(last).take(m),
            front.len() as int,
            count,
        ) == drives,
{
    let data = front + layout::drive_data(drives) + layout::drive_bytes(last).take(m);
    let a = front.len() as int;
    let b = a + layout::drive_data(drives).len();
    assert(data.subrange(a, b) =~= layout::drive_data(drives));
    assert(data.skip(b) =~= layout::drive_bytes(last).take(m));
    lemma_read_drives_before(data, a, drives, last, m, count, 0);
    assert(drives.take(0) =~= Seq::<DriveView>::empty());
    assert(drives.skip(0) =~= drives);
}

proof fn lemma_read_drives_before(
    data: Seq<u8>,
    start: int,
    drives: Seq<DriveView>,
    last: DriveView,
    m: int,
    count: nat,
    k: int,
)
    requires
        0 <= k <= drives.len() < count,
        0 <= start,
        drive_representable(last),
        0 <= m < layout::drive_bytes(last).len(),
        data.len() == start + layout::drive_data(drives).len() + m,
        data.subrange(start, start + layout::drive_data(drives).len()) == layout::drive_data(
            drives,
        ),
        data.skip(start + layout::drive_data(drives).len()) == layout::drive_bytes(last).take(m),
        forall|i: int| 0 <= i < drives.len() ==> drive_representable(#[trigger] drives[i]),
    ensures
        layout::drives_from(
            data,
            start + layout::drive_data(drives.take(k)).len(),
            (count - k) as nat,
        ) == drives.skip(k),
    decreases drives.len() - k,
{
    if k == drives.len() {
        assert(drives.take(k) =~= drives);
        assert(drives.skip(k) =~= Seq::<DriveView>::empty());
        let pos = start + layout::drive_data(drives).len();
        let bytes = layout::drive_bytes(last);
        let n = encode_utf8(last.path).len() as int;
        let v = last.volume_id.len() as int;
        le::lemma_le_bytes_len(n, 4);
        le::lemma_le_bytes_len(v, 1);
        le::lemma_pow256();
        le::lemma_le_roundtrip(n, 4);
        if m >= 4 {
            assert(data.subrange(pos, pos + 4) =~= data.skip(pos).subrange(0, 4));
            assert(bytes.take(m).subrange(0, 4) =~= le::le_bytes(n, 4));
            assert(layout::field(data, pos, 4) == n);
            if m > 4 + n {
                assert(data[pos + 4 + n] == data.skip(pos)[4 + n]);
                assert(bytes.take(m)[4 + n] == bytes[4 + n]);
                assert(bytes[4 + n] == le::le_bytes(v, 1)[0]);
                assert(le::le_bytes(v, 1)[0] == (v % 256) as u8);
                assert(data[pos + 4 + n] == v);
            }
        }
        assert(!layout::drive_fits(data, pos));
    } else {
        let head = drives.take(k);
        let tail = drives.skip(k + 1);
        let drive = drives[k];
        let pos = start + layout::drive_data(head).len();
        let bytes = layout::drive_bytes(drive);
        assert(drives.take(k + 1).drop_last() =~= head);
        assert(drives =~= drives.take(k + 1) + tail);
        lemma_drive_data_concat(drives.take(k + 1), tail);
        assert(layout::drive_data(drives.take(k + 1)) == layout::drive_data(head) + bytes);
        let d0 = layout::drive_data(head).len() as int;
        assert(data.subrange(pos, pos + bytes.len()) =~= data.subrange(
            start,
            start + layout::drive_data(drives).len(),
        ).subrange(d0, d0 + bytes.len()));
        assert(layout::drive_data(drives).subrange(d0, d0 + bytes.len()) =~= bytes);
        lemma_read_drive(data, pos, drive);
        lemma_read_drives_before(data, start, drives, last, m, count, k + 1);
        assert(drives.skip(k) =~= seq![drive] + tail);
    }
}

/// The file of an index has an entry for each record, and for an id that only one record has, cut to
/// 32 bits, the entry with it is that record's: with its parent's id, cut likewise, and as its name
/// the record's, up to a NUL, as long as that begins within the reach of its offset.
pub proof fn records_are_in_their_file(
    files: Seq<RecordView>,
    drives: Seq<DriveView>,
    compressed: bool,
    timestamp: i64,
    k: int,
    i: int,
)
    requires
        0 <= k < files.len(),
        0 <= i < files.len(),
        forall|a: int, b: int|
            0 <= a < b < files.len() ==> (#[trigger] files[a]).id % 0x1_0000_0000 != (
            #[trigger] files[b]).id % 0x1_0000_0000,
        ({
            let source = IndexSource { rows: records::rows_of(files), drives, compressed };
            &&& name_offset(source.sorted(), i) < 0x1_0000_0000
            &&& written_contents(source, timestamp).entries[i].id == files[k].id % 0x1_0000_0000
        }),
    ensures
        ({
            let source = IndexSource { rows: records::rows_of(files), drives, compressed };
            let file = written_contents(source, timestamp);
            &&& file.entries.len() == files.len()
            &&& files.len() <= u64::MAX ==> file.entry_count == files.len()
            &&& file.entries[i].parent_id == files[k].parent_id % 0x1_0000_0000
            &&& reader::name_at(file.name_data, file.entries[i].name_off as int) == before_nul(
                files[k].name,
            )
        }),
{
    let source = IndexSource { rows: records::rows_of(files), drives, compressed };
    assert forall|a: int, b: int| 0 <= a < b < source.rows.len() implies source.rows[a].id
        != source.rows[b].id by {
        records::rows_are_the_records(files, a);
        records::rows_are_the_records(files, b);
        assert(files[a].id % 0x1_0000_0000 != files[b].id % 0x1_0000_0000);
    }
    records::rows_are_the_records(files, k);
    entry_of_an_id(source, timestamp, k, i);
}

} // verus!
