use libanything::drives::{list_drives, mount_points};
use libanything::text::is_white_space;
use libanything::{check_drive_changes, detect_drives, DriveInfo, DriveProbe, IndexBuilder, IndexReader, MountProbe};

const TABLE: &str = "\
22 1 8:1 / / rw,relatime shared:1 - ext4 /dev/sda1 rw
23 22 0:21 / /proc rw,nosuid shared:2 - proc proc rw
24 22 0:22 / /dev/shm rw,nosuid shared:3 - tmpfs tmpfs rw
25 22 0:23 / /home rw shared:4 - ext4 /dev/sda2 rw\r
26 22 0:24 / /short rw - ext4 /dev/sda3

27 22 0:25 / /devices rw shared:5 - ext4 /dev/sda4 rw
28 22 0:26 / /mnt/data\trw shared:6 - ext4\u{a0}/dev/sda5 rw
29 22 0:27 / /var/lib/docker/overlay rw shared:7 - overlay overlay rw";

fn probe(path: &str, device: Option<u64>) -> MountProbe {
    MountProbe { path: path.to_string(), device }
}

fn drive(path: &str, volume_id: &[u8]) -> DriveInfo {
    DriveInfo { path: path.to_string(), volume_id: volume_id.to_vec() }
}

#[test]
fn mount_points_of_real_file_systems() {
    assert_eq!(mount_points(TABLE), vec!["/", "/dev/shm", "/home", "/mnt/data"]);
    assert!(mount_points("").is_empty());
    // Nine words are one too few.
    assert!(mount_points("1 2 3 4 /x 6 7 8 9").is_empty());
    assert_eq!(mount_points("1 2 3 4 /x 6 7 8 9 10"), vec!["/x"]);
    assert_eq!(mount_points("  1  2 3 4 /x 6 7 8 9 10  11 "), vec!["/x"]);
}

#[test]
fn every_pseudo_file_system_is_left_out() {
    let line = |m: &str| format!("1 2 3 4 {} 6 7 8 9 10\n", m);
    for m in ["/proc", "/proc/x", "/sys", "/sys/fs", "/dev", "/dev/pts", "/run", "/run/user", "/snap", "/snap/x", "/var/lib/docker", "/dev/shm/x", "/process"] {
        assert!(mount_points(&line(m)).is_empty(), "{}", m);
    }
    for m in ["/", "/dev/shm", "/home", "/var/lib", "/mnt/proc"] {
        assert_eq!(mount_points(&line(m)), vec![m]);
    }
}

#[test]
fn white_space_is_that_of_std() {
    for v in 0..=0x10ffffu32 {
        if let Some(c) = char::from_u32(v) {
            assert_eq!(is_white_space(c), c.is_whitespace(), "{:x}", v);
        }
    }
}

#[test]
fn drives_with_a_device_number() {
    let mounts = vec![probe("/home", Some(0x0807060504030201)), probe("/gone", None), probe("/", Some(5))];
    let drives = detect_drives(&mounts, Some(6));
    assert_eq!(drives.len(), 2);
    assert_eq!(drives[0].path, "/home");
    assert_eq!(drives[0].volume_id, vec![1, 2, 3, 4, 5, 6, 7, 8]);
    assert_eq!(drives[1].path, "/");
    assert_eq!(drives[1].volume_id, vec![5, 0, 0, 0, 0, 0, 0, 0]);
}

#[test]
fn the_root_is_a_fallback() {
    let drives = detect_drives(&vec![probe("/home", Some(1)), probe("/", None)], Some(258));
    assert_eq!(drives.len(), 2);
    assert_eq!(drives[1].path, "/");
    assert_eq!(drives[1].volume_id, vec![2, 1, 0, 0, 0, 0, 0, 0]);
    assert_eq!(detect_drives(&vec![], Some(1)).len(), 1);
    assert!(detect_drives(&vec![], None).is_empty());
}

#[test]
fn listed_file_systems() {
    let mounts = vec![drive("/", &[1]), drive("/dev", &[2]), drive("/System/Volumes", &[3]), drive("/proc/x", &[]), drive("/sys", &[])];
    let kept = list_drives(&mounts);
    assert_eq!(kept.len(), 2);
    assert_eq!(kept[0].path, "/");
    assert_eq!(kept[1].path, "/System/Volumes");
    assert_eq!(kept[1].volume_id, vec![3]);
}

#[test]
fn drives_that_changed() {
    let stored = vec![
        drive("/same", &[7, 0, 0, 0, 0, 0, 0, 0]),
        drive("/other", &[7, 0, 0, 0, 0, 0, 0, 1]),
        drive("/gone", &[7, 0, 0, 0, 0, 0, 0, 0]),
        drive("/no-id", &[]),
        drive("/no-id-gone", &[]),
        drive("/unknown", &[1, 2]),
        drive("/long", &[7, 0, 0, 0, 0, 0, 0, 0, 9]),
    ];
    let here = |device| DriveProbe { exists: true, device };
    let gone = DriveProbe { exists: false, device: None };
    let probes = [here(Some(7)), here(Some(7)), gone, here(Some(7)), gone, here(None), here(Some(7))];
    assert_eq!(check_drive_changes(&stored, &probes), vec!["/other", "/gone", "/no-id-gone"]);
    assert!(check_drive_changes(&[], &[]).is_empty());
}

#[test]
fn a_drive_found_again_is_unchanged() {
    let drives = detect_drives(&vec![probe("/a", Some(u64::MAX)), probe("/b", Some(0))], Some(77));
    let devices = [u64::MAX, 0, 77];
    let same: Vec<DriveProbe> = devices.iter().map(|d| DriveProbe { exists: true, device: Some(*d) }).collect();
    assert!(check_drive_changes(&drives, &same).is_empty());
    let other: Vec<DriveProbe> = devices.iter().map(|d| DriveProbe { exists: true, device: Some(d ^ 1) }).collect();
    assert_eq!(check_drive_changes(&drives, &other), vec!["/a", "/b", "/"]);
}

#[test]
fn a_reader_notes_changed_drives() {
    let mut builder = IndexBuilder::new();
    builder.auto_detect_drives(&vec![probe("/a", Some(1)), probe("/", Some(2))], None);
    let mut reader = IndexReader::open(&builder.write(0).unwrap()).unwrap();
    reader.record_drive_changes(&[
        DriveProbe { exists: true, device: Some(1) },
        DriveProbe { exists: true, device: Some(3) },
    ]);
    assert_eq!(reader.changed_drives, vec!["/"]);
    assert_eq!(reader.drives.len(), 2);
}
