use libanything::{build_index_file, build_with, summarize, DriveInfo, FileRecord, IndexBuilder, IndexReader, MountProbe};
use std::sync::atomic::AtomicBool;

fn record(id: u64, parent_id: u64, name: &str) -> FileRecord {
    FileRecord { id, parent_id, name: name.to_string() }
}

fn le(data: &[u8], at: usize, n: usize) -> u64 {
    (0..n).rev().fold(0, |v, i| v * 256 + data[at + i] as u64)
}

fn put(data: &mut Vec<u8>, at: usize, n: usize, v: u64) {
    for i in 0..n {
        data[at + i] = (v >> (8 * i)) as u8;
    }
}

fn root_drive() -> Vec<DriveInfo> {
    vec![DriveInfo { path: "/".to_string(), volume_id: vec![1, 2, 3, 4, 5, 6, 7, 8] }]
}

#[test]
fn test_index_file_roundtrip() {
    let records = vec![record(1, 0, "/"), record(2, 1, "/home"), record(3, 2, "/home/user")];
    let cancel = AtomicBool::new(false);

    let file = build_index_file(&records, root_drive(), false, &cancel, 1234).unwrap();

    let reader = IndexReader::open(&file).unwrap();
    assert_eq!(reader.entry_count, 3);
    assert_eq!(reader.get_name(&reader.entries[0]), "/");
    assert_eq!(reader.get_name(&reader.entries[2]), "/home/user");
    assert_eq!(reader.timestamp, 1234);
    assert_eq!(reader.drives.len(), 1);
    assert_eq!(reader.drives[0].path, "/");
    assert_eq!(reader.drives[0].volume_id, vec![1, 2, 3, 4, 5, 6, 7, 8]);
    assert!(reader.changed_drives.is_empty());
}

#[test]
fn test_compressed_roundtrip() {
    let records = vec![record(1, 0, "/"), record(2, 1, "/home/user/document.txt")];
    let cancel = AtomicBool::new(false);

    let file = build_index_file(&records, root_drive(), true, &cancel, 0).unwrap();
    let reader = IndexReader::open(&file).unwrap();
    assert_eq!(reader.entry_count, 2);
    assert_eq!(reader.get_name(&reader.entries[1]), "/home/user/document.txt");
}

#[test]
fn the_bytes_of_a_small_file() {
    let mut builder = IndexBuilder::new();
    builder.add_entry(7, 1, "/b");
    builder.add_entry(1, 0, "/");
    builder.add_drive(DriveInfo { path: "/x".to_string(), volume_id: vec![9] });
    let file = builder.write(-2).unwrap();
    let mut expected: Vec<u8> = b"ANYIDX\x01\x00".to_vec();
    expected.extend([1, 0, 0, 0]); // version
    expected.extend([2, 0]); // flags
    expected.extend([0, 0]);
    expected.extend([254, 255, 255, 255, 255, 255, 255, 255]); // timestamp
    expected.extend([2, 0, 0, 0, 0, 0, 0, 0]); // entries
    expected.extend([5, 0, 0, 0, 0, 0, 0, 0]); // name block
    expected.extend([0; 8]); // packed name block
    expected.extend([1, 0, 0, 0]); // drives
    expected.extend([2, 0, 0, 0]); // entries again
    expected.extend([104, 0, 0, 0, 0, 0, 0, 0]); // drive data
    expected.extend([112, 0, 0, 0, 0, 0, 0, 0]); // name block
    expected.extend([0; 8]);
    expected.extend([1, 0, 0, 0, 0, 0, 0, 0, 0, 0, 0, 0]);
    expected.extend([7, 0, 0, 0, 1, 0, 0, 0, 2, 0, 0, 0]);
    expected.extend([2, 0, 0, 0, b'/', b'x', 1, 9]);
    expected.extend(b"/\0/b\0");
    assert_eq!(file, expected);
}

#[test]
fn a_packed_file_is_flagged_and_smaller() {
    let mut builder = IndexBuilder::new();
    builder.set_compressed(true);
    let path = "/home/user/".repeat(200);
    builder.add_entry(1, 0, &path);
    let file = builder.write(0).unwrap();
    assert_eq!(le(&file, 12, 2), 1);
    assert_eq!(le(&file, 32, 8), path.len() as u64 + 1);
    let off = le(&file, 64, 8) as usize;
    assert_eq!(le(&file, 40, 8), (file.len() - off) as u64);
    assert!(file.len() - off < 200);
    let reader = IndexReader::open(&file).unwrap();
    assert_eq!(reader.get_name(&reader.entries[0]), path);
    builder.set_compressed(false);
    let plain = builder.write(0).unwrap();
    assert_eq!(le(&plain, 12, 2), 0);
    assert_eq!(le(&plain, 40, 8), 0);
    assert_eq!(plain.len(), 80 + 12 + path.len() + 1);
}

#[test]
fn packing_uses_the_documented_level() {
    let mut builder = IndexBuilder::new();
    builder.set_compressed(true);
    builder.add_entry(1, 0, "/abc/abc/abc/abc");
    let file = builder.write(0).unwrap();
    let frame = zstd::encode_all(&b"/abc/abc/abc/abc\0"[..], 3).unwrap();
    assert_eq!(&file[92..], &frame[..]);
}

#[test]
fn an_empty_index() {
    for compressed in [false, true] {
        let mut builder = IndexBuilder::new();
        builder.set_compressed(compressed);
        let file = builder.write(5).unwrap();
        assert_eq!(file.len(), 80);
        assert_eq!(le(&file, 12, 2), compressed as u64);
        let reader = IndexReader::open(&file).unwrap();
        assert_eq!(reader.entry_count, 0);
        assert!(reader.entries.is_empty());
        assert!(reader.drives.is_empty());
        assert!(reader.name_data.is_empty());
        assert_eq!(reader.timestamp, 5);
        assert!(reader.get_by_id(1).is_none());
    }
}

#[test]
fn entries_are_ordered_by_id_and_equal_ids_as_added() {
    let mut builder = IndexBuilder::new();
    for (id, name) in [(5, "a"), (3, "b"), (5, "c"), (1, "d"), (3, "e"), (4, "f"), (5, "g")] {
        builder.add_entry(id, 0, name);
    }
    let reader = IndexReader::open(&builder.write(0).unwrap()).unwrap();
    let got: Vec<(u32, &str)> = reader.entries.iter().map(|e| (e.id, reader.get_name(e))).collect();
    assert_eq!(got, vec![(1, "d"), (3, "b"), (3, "e"), (4, "f"), (5, "a"), (5, "c"), (5, "g")]);
}

#[test]
fn many_entries_in_any_order() {
    let mut one = IndexBuilder::new();
    let mut other = IndexBuilder::new();
    let n: u64 = 3000;
    for i in 0..n {
        let id = (i * 1103) % n;
        one.add_entry(id, id / 2, &format!("/p{}", id));
        let id = n - 1 - i;
        other.add_entry(id, id / 2, &format!("/p{}", id));
    }
    let file = one.write(9).unwrap();
    assert_eq!(file, other.write(9).unwrap());
    let reader = IndexReader::open(&file).unwrap();
    for id in 0..n as u32 {
        let entry = reader.get_by_id(id).unwrap();
        assert_eq!(entry.id, id);
        assert_eq!(entry.parent_id, id / 2);
        assert_eq!(reader.get_name(entry), format!("/p{}", id));
    }
    assert!(reader.get_by_id(n as u32).is_none());
}

#[test]
fn ids_keep_their_low_bits() {
    let mut builder = IndexBuilder::new();
    builder.add_entry(0x1_0000_0005, 0xff_0000_0007, "x");
    let reader = IndexReader::open(&builder.write(0).unwrap()).unwrap();
    assert_eq!(reader.entries[0].id, 5);
    assert_eq!(reader.entries[0].parent_id, 7);
}

#[test]
fn timestamps_are_signed() {
    for t in [0, 1, -1, i64::MAX, i64::MIN, 1_700_000_000_000] {
        let reader = IndexReader::open(&IndexBuilder::new().write(t).unwrap()).unwrap();
        assert_eq!(reader.timestamp, t);
    }
}

#[test]
fn a_name_ends_at_a_nul() {
    let mut builder = IndexBuilder::new();
    builder.add_entry(1, 0, "ab\0cd");
    builder.add_entry(2, 0, "größe");
    builder.add_entry(3, 0, "");
    let reader = IndexReader::open(&builder.write(0).unwrap()).unwrap();
    assert_eq!(reader.get_name(&reader.entries[0]), "ab");
    assert_eq!(reader.get_name(&reader.entries[1]), "größe");
    assert_eq!(reader.get_name(&reader.entries[2]), "");
}

#[test]
fn a_name_that_is_not_utf8_is_empty() {
    let mut builder = IndexBuilder::new();
    builder.add_entry(1, 0, "ab");
    builder.add_entry(2, 0, "cd");
    let mut file = builder.write(0).unwrap();
    let names = le(&file, 64, 8) as usize;
    file[names] = 0xff;
    let n = file.len();
    file.truncate(n - 1);
    let reader = IndexReader::open(&file).unwrap();
    assert_eq!(reader.get_name(&reader.entries[0]), "");
    // Without a zero byte a name goes on to the end of the block.
    assert_eq!(reader.get_name(&reader.entries[1]), "cd");
}

#[test]
fn what_is_wrong_with_a_file() {
    let mut builder = IndexBuilder::new();
    builder.add_entry(1, 0, "/");
    let file = builder.write(0).unwrap();
    let message = |data: &[u8]| IndexReader::open(data).err().unwrap();
    assert_eq!(message(&[]), "file too small");
    assert_eq!(message(&file[..79]), "file too small");
    let mut bad = file.clone();
    bad[7] = 1;
    assert_eq!(message(&bad), "bad magic");
    let mut bad = file.clone();
    put(&mut bad, 8, 4, 2);
    assert_eq!(message(&bad), "unsupported version 2");
    put(&mut bad, 8, 4, 4294967295);
    assert_eq!(message(&bad), "unsupported version 4294967295");
    put(&mut bad, 8, 4, 0);
    assert_eq!(message(&bad), "unsupported version 0");
    assert_eq!(message(&file[..91]), "truncated tree data");
    let mut bad = file.clone();
    put(&mut bad, 24, 8, 2);
    assert_eq!(message(&bad), "truncated tree data");
    put(&mut bad, 24, 8, u64::MAX);
    assert_eq!(message(&bad), "truncated tree data");
    assert!(IndexReader::open(&file).is_ok());
}

#[test]
fn names_that_cannot_be_unpacked() {
    let mut builder = IndexBuilder::new();
    builder.set_compressed(true);
    builder.add_entry(1, 0, "/home");
    let mut file = builder.write(0).unwrap();
    let names = le(&file, 64, 8) as usize;
    file[names] = 0;
    let message = IndexReader::open(&file).err().unwrap();
    let cause = zstd::decode_all(&file[names..]).err().unwrap();
    assert_eq!(message, format!("zstd decompress failed: {}", cause));
    let message = IndexReader::open_with(&file, Err("no".to_string())).err().unwrap();
    assert_eq!(message, "zstd decompress failed: no");
    let reader = IndexReader::open_with(&file, Ok(b"/x\0".to_vec())).unwrap();
    assert_eq!(reader.get_name(&reader.entries[0]), "/x");
}

#[test]
fn what_packing_gave_decides() {
    let mut builder = IndexBuilder::new();
    builder.add_entry(1, 0, "/");
    let plain = builder.write(3).unwrap();
    assert_eq!(builder.write_with(3, Err("no".to_string())), Ok(plain));
    builder.set_compressed(true);
    assert_eq!(builder.write_with(3, Err("no".to_string())), Err("zstd compress failed: no".to_string()));
    let file = builder.write_with(3, Ok(vec![7, 7])).unwrap();
    assert_eq!(&file[92..], &[7, 7]);
    assert_eq!(le(&file, 40, 8), 2);
}

#[test]
fn an_offset_behind_the_file_means_no_names() {
    let mut file = IndexBuilder::new().write(0).unwrap();
    put(&mut file, 64, 8, u64::MAX);
    assert!(IndexReader::open(&file).unwrap().name_data.is_empty());
}

#[test]
fn drives_that_are_cut_off_are_left_out() {
    let mut builder = IndexBuilder::new();
    builder.add_drive(DriveInfo { path: "/a".to_string(), volume_id: vec![1, 2] });
    builder.add_drive(DriveInfo { path: "/b".to_string(), volume_id: vec![] });
    builder.add_drive(DriveInfo { path: "/cc".to_string(), volume_id: vec![3] });
    let file = builder.write(0).unwrap();
    let paths = |data: &[u8]| {
        let reader = IndexReader::open(data).unwrap();
        reader.drives.into_iter().map(|d| d.path).collect::<Vec<_>>()
    };
    assert_eq!(paths(&file), vec!["/a", "/b", "/cc"]);
    assert_eq!(file.len(), 80 + 9 + 7 + 9);
    assert_eq!(paths(&file[..104]), vec!["/a", "/b"]);
    assert_eq!(paths(&file[..96]), vec!["/a", "/b"]);
    assert_eq!(paths(&file[..95]), vec!["/a"]);
    assert_eq!(paths(&file[..89]), vec!["/a"]);
    assert_eq!(paths(&file[..88]), Vec::<String>::new());
    assert_eq!(paths(&file[..83]), Vec::<String>::new());
    // Fewer drives than there are, no flag, an offset behind the file.
    let mut other = file.clone();
    put(&mut other, 48, 4, 1);
    assert_eq!(paths(&other), vec!["/a"]);
    let mut other = file.clone();
    put(&mut other, 12, 2, 0);
    assert_eq!(paths(&other), Vec::<String>::new());
    let mut other = file.clone();
    put(&mut other, 56, 8, u64::MAX);
    assert_eq!(paths(&other), Vec::<String>::new());
}

#[test]
fn a_drive_path_that_is_not_utf8_is_repaired() {
    let mut builder = IndexBuilder::new();
    builder.add_drive(DriveInfo { path: "/aé".to_string(), volume_id: vec![] });
    let mut file = builder.write(0).unwrap();
    assert_eq!(IndexReader::open(&file).unwrap().drives[0].path, "/aé");
    file[85] = 0xff;
    assert_eq!(IndexReader::open(&file).unwrap().drives[0].path, "/\u{fffd}é");
}

#[test]
fn a_cancelled_build_gives_no_file() {
    let cancel = AtomicBool::new(true);
    let records = vec![record(1, 0, "/")];
    let r = build_index_file(&records, Vec::new(), false, &cancel, 0);
    assert_eq!(r, Err("cancelled".to_string()));
    assert!(build_index_file(&[], Vec::new(), false, &cancel, 0).is_ok());
    let mut builder = IndexBuilder::new();
    assert_eq!(builder.add_record(&records[0], true), Err("cancelled".to_string()));
    assert_eq!(builder.write(0), IndexBuilder::new().write(0));
    assert_eq!(builder.add_record(&records[0], false), Ok(()));
    assert_eq!(le(&builder.write(0).unwrap(), 24, 8), 1);
}

#[test]
fn detected_drives_replace_those_there() {
    let mut builder = IndexBuilder::new();
    builder.add_drive(DriveInfo { path: "/old".to_string(), volume_id: vec![] });
    let mounts = vec![MountProbe { path: "/home".to_string(), device: Some(0x0102) }];
    builder.auto_detect_drives(&mounts, Some(3));
    let reader = IndexReader::open(&builder.write(0).unwrap()).unwrap();
    assert_eq!(reader.drives.len(), 2);
    assert_eq!(reader.drives[0].path, "/home");
    assert_eq!(reader.drives[0].volume_id, vec![2, 1, 0, 0, 0, 0, 0, 0]);
    assert_eq!(reader.drives[1].path, "/");
}

#[test]
fn an_unordered_file_can_still_be_asked() {
    let mut builder = IndexBuilder::new();
    builder.add_entry(1, 0, "a");
    builder.add_entry(2, 0, "b");
    let mut file = builder.write(0).unwrap();
    put(&mut file, 80, 4, 9);
    let reader = IndexReader::open(&file).unwrap();
    for id in 0..10 {
        if let Some(entry) = reader.get_by_id(id) {
            assert_eq!(entry.id, id);
        }
    }
}

#[test]
fn each_id_has_the_entry_that_was_added_with_it() {
    for compressed in [false, true] {
        let added = [(9u64, 4u64, "/c"), (2, 1, "/a\0hidden"), (4, 2, "/b")];
        let mut builder = IndexBuilder::new();
        builder.set_compressed(compressed);
        for (id, parent_id, path) in added {
            builder.add_entry(id, parent_id, path);
        }
        let reader = IndexReader::open(&builder.write(0).unwrap()).unwrap();
        for (id, parent_id, name) in [(9, 4, "/c"), (2, 1, "/a"), (4, 2, "/b")] {
            let entry = reader.get_by_id(id).unwrap();
            assert_eq!(entry.parent_id, parent_id);
            assert_eq!(reader.get_name(entry), name);
        }
        assert!(reader.get_by_id(3).is_none());
    }
}

#[test]
fn a_written_file_is_read_back_whole() {
    for compressed in [false, true] {
        let mut builder = IndexBuilder::new();
        builder.set_compressed(compressed);
        builder.add_entry(2, 1, "/home");
        builder.add_entry(1, 0, "/");
        builder.add_drive(DriveInfo { path: "/".to_string(), volume_id: vec![] });
        builder.add_drive(DriveInfo { path: "/d".to_string(), volume_id: vec![7; 255] });
        let reader = IndexReader::open(&builder.write(-77).unwrap()).unwrap();
        let entries: Vec<(u32, u32, u32)> =
            reader.entries.iter().map(|e| (e.id, e.parent_id, e.name_off)).collect();
        assert_eq!(entries, vec![(1, 0, 0), (2, 1, 2)]);
        assert_eq!(reader.name_data, b"/\0/home\0");
        assert_eq!(reader.timestamp, -77);
        assert_eq!(reader.entry_count, 2);
        let drives: Vec<(&str, usize)> =
            reader.drives.iter().map(|d| (d.path.as_str(), d.volume_id.len())).collect();
        assert_eq!(drives, vec![("/", 0), ("/d", 255)]);
        assert!(reader.changed_drives.is_empty());
    }
}

#[test]
fn records_are_added_until_the_flag_is_found_set() {
    let records = vec![record(1, 0, "/"), record(2, 1, "/a"), record(3, 1, "/b")];
    let mut all = IndexBuilder::new();
    assert_eq!(all.add_records(&records, &[false, false, false]), Ok(()));
    assert_eq!(le(&all.write(0).unwrap(), 24, 8), 3);
    let mut some = IndexBuilder::new();
    assert_eq!(some.add_records(&records, &[false, true, false]), Err("cancelled".to_string()));
    assert_eq!(le(&some.write(0).unwrap(), 24, 8), 1);
    assert_eq!(all.add_records(&[], &[]), Ok(()));
}

#[test]
fn building_is_adding_and_writing() {
    let records = vec![record(2, 1, "/a"), record(1, 0, "/")];
    let cancel = AtomicBool::new(false);
    for compressed in [false, true] {
        let mut builder = IndexBuilder::new();
        builder.set_compressed(compressed);
        for drive in root_drive() {
            builder.add_drive(drive);
        }
        for r in &records {
            builder.add_entry(r.id, r.parent_id, &r.name);
        }
        let written = builder.write(5).unwrap();
        let built = build_index_file(&records, root_drive(), compressed, &cancel, 5).unwrap();
        assert_eq!(built, written);
        // Only the time differs at another time.
        let later = build_index_file(&records, root_drive(), compressed, &cancel, -9).unwrap();
        assert_eq!(later[..16], written[..16]);
        assert_ne!(later[16..24], written[16..24]);
        assert_eq!(later[24..], written[24..]);
        let failed = builder.write_with(5, Err("no".to_string()));
        let reads = [false, false];
        let no = Err("no".to_string());
        assert_eq!(build_with(&records, root_drive(), compressed, &reads, 5, no), failed);
    }
    let r = build_with(&records, Vec::new(), false, &[false, true], 0, Ok(Vec::new()));
    assert_eq!(r, Err("cancelled".to_string()));
}

#[test]
fn the_summary_of_a_file() {
    let records = vec![record(1, 0, "/"), record(2, 1, "/a")];
    let cancel = AtomicBool::new(false);
    let file = build_index_file(&records, root_drive(), false, &cancel, 0).unwrap();
    let summary = summarize(&file).unwrap();
    assert_eq!((summary.entries, summary.drives, summary.name_bytes), (2, 1, 5));
    assert_eq!(summary.packed_bytes, None);
    let file = build_index_file(&records, root_drive(), true, &cancel, 0).unwrap();
    let packed = file.len() as u64 - le(&file, 64, 8);
    assert_eq!(summarize(&file).unwrap().packed_bytes, Some(packed));
    assert!(summarize(&file[..79]).is_none());
}
