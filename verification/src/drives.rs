//! Mounted drives: finding them, and telling whether they are still the same.

use vstd::prelude::*;

use crate::le;
use crate::text;

verus! {

/// A mounted drive: where it is mounted, and the bytes that identify its volume.
#[derive(Debug)]
pub struct DriveInfo {
    pub path: String,
    pub volume_id: Vec<u8>,
}

/// A drive as plain values.
pub struct DriveView {
    pub path: Seq<char>,
    pub volume_id: Seq<u8>,
}

impl View for DriveInfo {
    type V = DriveView;

    open spec fn view(&self) -> DriveView {
        DriveView { path: self.path@, volume_id: self.volume_id@ }
    }
}

impl Clone for DriveInfo {
    fn clone(&self) -> (r: Self)
        ensures
            r@ == self@,
    {
        let r = DriveInfo { path: self.path.clone(), volume_id: self.volume_id.clone() };
        assert(r.volume_id@ =~= self.volume_id@);
        r
    }
}

/// The drives of a list as plain values.
pub open spec fn views(list: Seq<DriveInfo>) -> Seq<DriveView> {
    Seq::new(list.len(), |i: int| list[i]@)
}

/// A mount point, and the device number of what is mounted there, if it could be asked for.
#[derive(Debug)]
pub struct MountProbe {
    pub path: String,
    pub device: Option<u64>,
}

/// What is found where a drive was: whether anything is there, and its device number, if it could
/// be asked for.
#[derive(Debug, Clone, Copy)]
pub struct DriveProbe {
    pub exists: bool,
    pub device: Option<u64>,
}

/// A mount point of a pseudo file system; `/dev/shm` counts as real.
pub open spec fn pseudo_mount(mount: Seq<char>) -> bool {
    &&& mount != "/dev/shm"@
    &&& {
        ||| text::starts_with(mount, "/proc"@)
        ||| text::starts_with(mount, "/sys"@)
        ||| text::starts_with(mount, "/dev"@)
        ||| text::starts_with(mount, "/run"@)
        ||| text::starts_with(mount, "/snap"@)
        ||| text::starts_with(mount, "/var/lib/docker"@)
    }
}

/// Whether a mount point is one of a pseudo file system.
fn is_pseudo_mount(mount: &str) -> (r: bool)
    ensures
        r == pseudo_mount(mount@),
{
    (text::after_prefix(mount, "/proc").is_some() || text::after_prefix(mount, "/sys").is_some()
        || text::after_prefix(mount, "/dev").is_some() || text::after_prefix(
        mount,
        "/run",
    ).is_some() || text::after_prefix(mount, "/snap").is_some() || text::after_prefix(
        mount,
        "/var/lib/docker",
    ).is_some()) && !text::same_text(mount, "/dev/shm")
}

/// The mount point that a line of the mount table names: its fifth word. Lines of less than ten
/// words, and those of pseudo file systems, name none.
pub open spec fn line_mount(line: Seq<char>) -> Option<Seq<char>> {
    let words = text::words(line);
    if words.len() >= 10 && !pseudo_mount(words[4]) {
        Some(words[4])
    } else {
        None
    }
}

/// The mount points that the lines name, in their order.
pub open spec fn lines_mounts(lines: Seq<Seq<char>>) -> Seq<Seq<char>>
    decreases lines.len(),
{
    if lines.len() == 0 {
        Seq::<Seq<char>>::empty()
    } else {
        match line_mount(lines.last()) {
            Some(mount) => lines_mounts(lines.drop_last()).push(mount),
            None => lines_mounts(lines.drop_last()),
        }
    }
}

/// The mount points that a mount table (the text of `/proc/self/mountinfo`) names.
pub fn mount_points(mountinfo: &str) -> (r: Vec<String>)
    ensures
        text::views(r@) == lines_mounts(text::pieces(mountinfo@, '\n')),
{
    let lines = text::split_on(mountinfo, '\n');
    let ghost all = text::views(lines@);
    let mut r: Vec<String> = Vec::new();
    let mut i: usize = 0;
    assert(text::views(r@) =~= lines_mounts(all.take(0)));
    while i < lines.len()
        invariant
            i <= lines@.len(),
            all == text::views(lines@),
            text::views(r@) == lines_mounts(all.take(i as int)),
        decreases lines@.len() - i,
    {
        let words = text::split_words(lines[i].as_str());
        let ghost before = text::views(r@);
        assert(all.take(i + 1).drop_last() =~= all.take(i as int));
        assert(all.take(i + 1).last() == lines@[i as int]@);
        assert(text::views(words@).len() == words@.len());
        if words.len() >= 10 {
            assert(text::views(words@)[4] == words@[4]@);
            if !is_pseudo_mount(words[4].as_str()) {
                r.push(words[4].clone());
                assert(text::views(r@) =~= before.push(words@[4]@));
            }
        }
        i = i + 1;
    }
    assert(all.take(i as int) =~= all);
    r
}

/// The drive that a device number makes of a mount point.
pub open spec fn drive_of(path: Seq<char>, device: u64) -> DriveView {
    DriveView { path, volume_id: le::le_bytes(device as int, 8) }
}

/// The drives at the mount points whose device number is known, in their order.
pub open spec fn probed(mounts: Seq<MountProbe>) -> Seq<DriveView>
    decreases mounts.len(),
{
    if mounts.len() == 0 {
        Seq::<DriveView>::empty()
    } else {
        match mounts.last().device {
            Some(device) => probed(mounts.drop_last()).push(
                drive_of(mounts.last().path@, device),
            ),
            None => probed(mounts.drop_last()),
        }
    }
}

/// One of the drives is mounted at `/`.
pub open spec fn has_root(drives: Seq<DriveView>) -> bool {
    exists|i: int| 0 <= i < drives.len() && (#[trigger] drives[i]).path == "/"@
}

/// The drives that are found: those at the mount points, and, if none of them is at `/`, the one
/// at `/`, if its device number is known.
pub open spec fn detected(mounts: Seq<MountProbe>, root_device: Option<u64>) -> Seq<DriveView> {
    let found = probed(mounts);
    match root_device {
        Some(device) if !has_root(found) => found.push(drive_of("/"@, device)),
        _ => found,
    }
}

fn drive_from(path: &str, device: u64) -> (r: DriveInfo)
    ensures
        r@ == drive_of(path@, device),
{
    let mut volume_id: Vec<u8> = Vec::new();
    le::push_le(&mut volume_id, device, 8);
    assert(volume_id@ =~= le::le_bytes(device as int, 8));
    DriveInfo { path: path.to_owned(), volume_id }
}

/// The drives at the given mount points, with `/` as a fallback.
pub fn detect_drives(mounts: &Vec<MountProbe>, root_device: Option<u64>) -> (r: Vec<DriveInfo>)
    ensures
        views(r@) == detected(mounts@, root_device),
{
    let mut r: Vec<DriveInfo> = Vec::new();
    let mut rooted: bool = false;
    let mut i: usize = 0;
    assert(views(r@) =~= probed(mounts@.take(0)));
    while i < mounts.len()
        invariant
            i <= mounts@.len(),
            views(r@) == probed(mounts@.take(i as int)),
            rooted == has_root(views(r@)),
        decreases mounts@.len() - i,
    {
        let mount = &mounts[i];
        assert(mounts@.take(i + 1).drop_last() =~= mounts@.take(i as int));
        if let Some(device) = mount.device {
            let ghost before = views(r@);
            let drive = drive_from(mount.path.as_str(), device);
            r.push(drive);
            proof {
                assert(views(r@) =~= before.push(drive@));
                if has_root(before) {
                    let k = choose|k: int|
                        0 <= k < before.len() && (#[trigger] before[k]).path == "/"@;
                    assert(views(r@)[k].path == "/"@);
                }
                if mount.path@ == "/"@ {
                    assert(views(r@)[before.len() as int].path == "/"@);
                }
                if has_root(views(r@)) && !has_root(before) {
                    let k = choose|k: int|
                        0 <= k < views(r@).len() && (#[trigger] views(r@)[k]).path == "/"@;
                    assert(k < before.len() ==> before[k].path == "/"@);
                }
            }
            if text::same_text(mount.path.as_str(), "/") {
                rooted = true;
            }
        }
        i = i + 1;
    }
    assert(mounts@.take(i as int) =~= mounts@);
    if !rooted {
        if let Some(device) = root_device {
            let ghost before = views(r@);
            let drive = drive_from("/", device);
            r.push(drive);
            assert(views(r@) =~= before.push(drive@));
        }
    }
    r
}

/// A mount point that is not taken over from a list of mounted file systems.
pub open spec fn unlisted_mount(mount: Seq<char>) -> bool {
    ||| text::starts_with(mount, "/proc"@)
    ||| text::starts_with(mount, "/sys"@)
    ||| text::starts_with(mount, "/dev"@)
}

/// The drives of a list of mounted file systems, in their order.
pub open spec fn listed(mounts: Seq<DriveView>) -> Seq<DriveView>
    decreases mounts.len(),
{
    if mounts.len() == 0 {
        Seq::<DriveView>::empty()
    } else if unlisted_mount(mounts.last().path) {
        listed(mounts.drop_last())
    } else {
        listed(mounts.drop_last()).push(mounts.last())
    }
}

/// The drives of a list of mounted file systems, such as `getfsstat` gives, that are not pseudo
/// file systems.
pub fn list_drives(mounts: &Vec<DriveInfo>) -> (r: Vec<DriveInfo>)
    ensures
        views(r@) == listed(views(mounts@)),
{
    let ghost all = views(mounts@);
    let mut r: Vec<DriveInfo> = Vec::new();
    let mut i: usize = 0;
    assert(views(r@) =~= listed(all.take(0)));
    while i < mounts.len()
        invariant
            i <= mounts@.len(),
            all == views(mounts@),
            views(r@) == listed(all.take(i as int)),
        decreases mounts@.len() - i,
    {
        let mount = mounts[i].path.as_str();
        let ghost before = views(r@);
        assert(all.take(i + 1).drop_last() =~= all.take(i as int));
        assert(all.take(i + 1).last() == mounts@[i as int]@);
        if !(text::after_prefix(mount, "/proc").is_some() || text::after_prefix(
            mount,
            "/sys",
        ).is_some() || text::after_prefix(mount, "/dev").is_some()) {
            r.push(mounts[i].clone());
            assert(views(r@) =~= before.push(mounts@[i as int]@));
        }
        i = i + 1;
    }
    assert(all.take(i as int) =~= all);
    r
}

/// What is found where the drive was can be held against it: where there is a device number to
/// compare with, a volume id that is not empty has the eight bytes of one.
pub open spec fn comparable(drive: DriveView, probe: DriveProbe) -> bool {
    probe.exists && probe.device is Some && drive.volume_id.len() > 0 ==> drive.volume_id.len() >= 8
}

/// The drive is gone, or another volume is mounted there now. A drive without a volume id, or whose
/// device number cannot be asked for, counts as the same as long as anything is there.
pub open spec fn drive_changed(drive: DriveView, probe: DriveProbe) -> bool {
    ||| !probe.exists
    ||| drive.volume_id.len() > 0 && probe.device is Some && probe.device->0 != le::le_value(
        drive.volume_id.take(8),
    )
}

/// The paths of the drives that have changed, in their order.
pub open spec fn changed_paths(drives: Seq<DriveView>, probes: Seq<DriveProbe>) -> Seq<Seq<char>>
    decreases drives.len(),
{
    if drives.len() == 0 {
        Seq::<Seq<char>>::empty()
    } else {
        let before = changed_paths(drives.drop_last(), probes);
        if drive_changed(drives.last(), probes[drives.len() - 1]) {
            before.push(drives.last().path)
        } else {
            before
        }
    }
}

/// The paths of the stored drives that are gone or changed, given what is found where each was.
pub fn check_drive_changes(stored: &[DriveInfo], probes: &[DriveProbe]) -> (r: Vec<String>)
    requires
        stored@.len() == probes@.len(),
        forall|i: int| 0 <= i < stored@.len() ==> comparable(#[trigger] stored@[i]@, probes@[i]),
    ensures
        text::views(r@) == changed_paths(views(stored@), probes@),
{
    let ghost all = views(stored@);
    let mut r: Vec<String> = Vec::new();
    let mut i: usize = 0;
    assert(text::views(r@) =~= changed_paths(all.take(0), probes@));
    while i < stored.len()
        invariant
            i <= stored@.len() == probes@.len(),
            all == views(stored@),
            forall|k: int|
                0 <= k < stored@.len() ==> comparable(#[trigger] stored@[k]@, probes@[k]),
            text::views(r@) == changed_paths(all.take(i as int), probes@),
        decreases stored@.len() - i,
    {
        let drive = &stored[i];
        let probe = probes[i];
        let ghost before = text::views(r@);
        assert(comparable(stored@[i as int]@, probes@[i as int]));
        assert(all.take(i + 1).drop_last() =~= all.take(i as int));
        let mut changed: bool = !probe.exists;
        if probe.exists && drive.volume_id.len() > 0 {
            if let Some(device) = probe.device {
                assert(drive.volume_id@.take(8) =~= drive.volume_id@.subrange(0, 8));
                if device != le::read_le(drive.volume_id.as_slice(), 0, 8) {
                    changed = true;
                }
            }
        }
        if changed {
            r.push(drive.path.clone());
            assert(text::views(r@) =~= before.push(drive.path@));
        }
        i = i + 1;
    }
    assert(all.take(i as int) =~= all);
    r
}

/// No mount point that a mount table names is one of a pseudo file system.
pub proof fn mounts_are_real(lines: Seq<Seq<char>>, i: int)
    requires
        0 <= i < lines_mounts(lines).len(),
    ensures
        !pseudo_mount(lines_mounts(lines)[i]),
    decreases lines.len(),
{
    let init = lines.drop_last();
    if i < lines_mounts(init).len() {
        mounts_are_real(init, i);
    }
}

/// Where the device number of `/` is known, there is a drive at `/`.
pub proof fn root_is_detected(mounts: Seq<MountProbe>, device: u64)
    ensures
        has_root(detected(mounts, Some(device))),
{
    let found = probed(mounts);
    if !has_root(found) {
        let all = detected(mounts, Some(device));
        assert(all[found.len() as int].path == "/"@);
    }
}

/// The volume id of a drive that was found has eight bytes, so it can be compared with anything.
pub proof fn detected_is_comparable(
    mounts: Seq<MountProbe>,
    root_device: Option<u64>,
    i: int,
    probe: DriveProbe,
)
    requires
        0 <= i < detected(mounts, root_device).len(),
    ensures
        detected(mounts, root_device)[i].volume_id.len() == 8,
        comparable(detected(mounts, root_device)[i], probe),
{
    if i < probed(mounts).len() {
        lemma_probed_volume(mounts, i);
    } else {
        le::lemma_le_bytes_len(root_device->0 as int, 8);
    }
}

proof fn lemma_probed_volume(mounts: Seq<MountProbe>, i: int)
    requires
        0 <= i < probed(mounts).len(),
    ensures
        probed(mounts)[i].volume_id.len() == 8,
    decreases mounts.len(),
{
    let init = mounts.drop_last();
    if i < probed(init).len() {
        lemma_probed_volume(init, i);
    } else {
        le::lemma_le_bytes_len(mounts.last().device->0 as int, 8);
    }
}

/// A drive that was found with one device number has changed exactly if it is gone or its device
/// number is another one now.
pub proof fn change_is_another_device(path: Seq<char>, device: u64, probe: DriveProbe)
    ensures
        drive_changed(drive_of(path, device), probe) <==> !probe.exists || (probe.device is Some
            && probe.device->0 != device),
{
    le::lemma_le_bytes_len(device as int, 8);
    le::lemma_pow256();
    le::lemma_le_roundtrip(device as int, 8);
    let id = le::le_bytes(device as int, 8);
    assert(id.take(8) =~= id);
}

/// Drives of which none has changed give no paths.
pub proof fn unchanged_drives_are_silent(drives: Seq<DriveView>, probes: Seq<DriveProbe>)
    requires
        drives.len() <= probes.len(),
        forall|i: int|
            0 <= i < drives.len() ==> !drive_changed(#[trigger] drives[i], probes[i]),
    ensures
        changed_paths(drives, probes) == Seq::<Seq<char>>::empty(),
    decreases drives.len(),
{
    if drives.len() > 0 {
        let n = drives.len() - 1;
        assert forall|i: int| 0 <= i < n implies !drive_changed(
            #[trigger] drives.drop_last()[i],
            probes[i],
        ) by {
            assert(!drive_changed(drives[i], probes[i]));
        }
        unchanged_drives_are_silent(drives.drop_last(), probes);
        assert(!drive_changed(drives[n], probes[n]));
    }
}

/// Positions below `n`, each greater than the one before.
pub open spec fn ascending(positions: Seq<int>, n: int) -> bool {
    &&& forall|k: int| 0 <= k < positions.len() ==> 0 <= #[trigger] positions[k] < n
    &&& forall|a: int, b: int| 0 <= a < b < positions.len() ==> positions[a] < positions[b]
}

proof fn lemma_ascending_push(positions: Seq<int>, n: int)
    requires
        ascending(positions, n),
        n >= 0,
    ensures
        ascending(positions, n + 1),
        ascending(positions.push(n), n + 1),
        forall|i: int| #[trigger] positions.contains(i) ==> positions.push(n).contains(i),
        positions.push(n).contains(n),
{
    assert forall|i: int| #[trigger] positions.contains(i) implies positions.push(n).contains(i) by {
        let k = choose|k: int| 0 <= k < positions.len() && positions[k] == i;
        assert(positions.push(n)[k] == i);
    }
    assert(positions.push(n)[positions.len() as int] == n);
}

/// The paths that are reported are those of the drives that have changed, each of them, once for each
/// such drive and in their order: their positions are the ones that come back.
pub proof fn every_changed_drive_is_reported(
    drives: Seq<DriveView>,
    probes: Seq<DriveProbe>,
) -> (positions: Seq<int>)
    requires
        drives.len() <= probes.len(),
    ensures
        ascending(positions, drives.len() as int),
        forall|i: int|
            0 <= i < drives.len() ==> (drive_changed(drives[i], probes[i]) <==> #[trigger]
            positions.contains(i)),
        changed_paths(drives, probes).len() == positions.len(),
        forall|k: int|
            0 <= k < positions.len() ==> #[trigger] changed_paths(drives, probes)[k]
                == drives[positions[k]].path,
        forall|i: int|
            0 <= i < drives.len() && drive_changed(#[trigger] drives[i], probes[i])
                ==> changed_paths(drives, probes).contains(drives[i].path),
    decreases drives.len(),
{
    if drives.len() == 0 {
        Seq::empty()
    } else {
        let init = drives.drop_last();
        let n = init.len() as int;
        let before = every_changed_drive_is_reported(init, probes);
        lemma_ascending_push(before, n);
        let changed = drive_changed(drives[n], probes[n]);
        let positions = if changed {
            before.push(n)
        } else {
            before
        };
        let all = changed_paths(drives, probes);
        assert(forall|k: int| 0 <= k < before.len() ==> before[k] < n);
        assert forall|i: int| 0 <= i < drives.len() implies (drive_changed(drives[i], probes[i])
            <==> #[trigger] positions.contains(i)) by {
            if i < n {
                assert(init[i] == drives[i]);
                assert(drive_changed(init[i], probes[i]) <==> before.contains(i));
                if positions.contains(i) {
                    let k = choose|k: int| 0 <= k < positions.len() && positions[k] == i;
                    assert(k < before.len());
                    assert(before[k] == i);
                }
            } else if positions.contains(i) {
                let k = choose|k: int| 0 <= k < positions.len() && positions[k] == i;
                assert(k < before.len() ==> before[k] == i);
            }
        }
        assert forall|k: int| 0 <= k < positions.len() implies #[trigger] all[k]
            == drives[positions[k]].path by {
            if k < before.len() {
                assert(changed_paths(init, probes)[k] == init[before[k]].path);
            }
        }
        assert forall|i: int|
            0 <= i < drives.len() && drive_changed(#[trigger] drives[i], probes[i]) implies all.contains(
        drives[i].path) by {
            assert(positions.contains(i));
            let k = choose|k: int| 0 <= k < positions.len() && positions[k] == i;
            assert(all[k] == drives[i].path);
        }
        positions
    }
}

/// Whether a drive has changed rests on what is there now: it has if nothing is; else it has exactly
/// if the device number is known and is not the one in the first eight bytes of the volume id. Without
/// a volume id, or without a device number, it has not.
pub proof fn change_is_in_the_first_bytes(
    path: Seq<char>,
    device: u64,
    rest: Seq<u8>,
    probe: DriveProbe,
)
    ensures
        drive_changed(
            DriveView { path, volume_id: le::le_bytes(device as int, 8) + rest },
            probe,
        ) <==> !probe.exists || (probe.device is Some && probe.device->0 != device),
        drive_changed(DriveView { path, volume_id: Seq::empty() }, probe) <==> !probe.exists,
{
    le::lemma_le_bytes_len(device as int, 8);
    le::lemma_pow256();
    le::lemma_le_roundtrip(device as int, 8);
    let id = le::le_bytes(device as int, 8);
    assert((id + rest).take(8) =~= id);
}

/// Of the mount points, exactly those with a device number give a drive, each of them, in their order,
/// with its path and the eight bytes of its device number. Behind them stands the root alone, and only
/// if none of them is the root and its own device number is known.
pub proof fn every_probed_mount_is_a_drive(mounts: Seq<MountProbe>, root_device: Option<u64>) -> (
    positions: Seq<int>)
    ensures
        ascending(positions, mounts.len() as int),
        forall|i: int|
            0 <= i < mounts.len() ==> (mounts[i].device is Some <==> #[trigger] positions.contains(
                i,
            )),
        forall|k: int|
            0 <= k < positions.len() ==> {
                let drive = #[trigger] detected(mounts, root_device)[k];
                &&& drive.path == mounts[positions[k]].path@
                &&& drive.volume_id == le::le_bytes(mounts[positions[k]].device->0 as int, 8)
            },
        ({
            let rooted = exists|i: int|
                0 <= i < mounts.len() && (#[trigger] mounts[i]).device is Some && mounts[i].path@
                    == "/"@;
            let all = detected(mounts, root_device);
            if !rooted && root_device is Some {
                &&& all.len() == positions.len() + 1
                &&& all.last().path == "/"@
                &&& all.last().volume_id == le::le_bytes(root_device->0 as int, 8)
            } else {
                all.len() == positions.len()
            }
        }),
{
    let positions = lemma_probed_positions(mounts);
    let found = probed(mounts);
    let all = detected(mounts, root_device);
    let rooted = exists|i: int|
        0 <= i < mounts.len() && (#[trigger] mounts[i]).device is Some && mounts[i].path@ == "/"@;
    if rooted {
        let i = choose|i: int|
            0 <= i < mounts.len() && (#[trigger] mounts[i]).device is Some && mounts[i].path@
                == "/"@;
        assert(positions.contains(i));
        let k = choose|k: int| 0 <= k < positions.len() && positions[k] == i;
        assert(found[k].path == "/"@);
    }
    if has_root(found) {
        let k = choose|k: int| 0 <= k < found.len() && (#[trigger] found[k]).path == "/"@;
        let i = positions[k];
        assert(positions.contains(i));
        assert(mounts[i].device is Some);
    }
    assert forall|k: int| 0 <= k < positions.len() implies {
        let drive = #[trigger] all[k];
        &&& drive.path == mounts[positions[k]].path@
        &&& drive.volume_id == le::le_bytes(mounts[positions[k]].device->0 as int, 8)
    } by {
        assert(all[k] == found[k]);
    }
    positions
}

proof fn lemma_probed_positions(mounts: Seq<MountProbe>) -> (positions: Seq<int>)
    ensures
        ascending(positions, mounts.len() as int),
        forall|i: int|
            0 <= i < mounts.len() ==> (mounts[i].device is Some <==> #[trigger] positions.contains(
                i,
            )),
        probed(mounts).len() == positions.len(),
        forall|k: int|
            0 <= k < positions.len() ==> {
                let drive = #[trigger] probed(mounts)[k];
                &&& drive.path == mounts[positions[k]].path@
                &&& drive.volume_id == le::le_bytes(mounts[positions[k]].device->0 as int, 8)
            },
    decreases mounts.len(),
{
    if mounts.len() == 0 {
        Seq::empty()
    } else {
        let init = mounts.drop_last();
        let n = init.len() as int;
        let before = lemma_probed_positions(init);
        lemma_ascending_push(before, n);
        let positions = if mounts[n].device is Some {
            before.push(n)
        } else {
            before
        };
        assert(forall|k: int| 0 <= k < before.len() ==> before[k] < n);
        assert forall|i: int| 0 <= i < mounts.len() implies (mounts[i].device is Some
            <==> #[trigger] positions.contains(i)) by {
            if i < n {
                assert(init[i] == mounts[i]);
                assert(init[i].device is Some <==> before.contains(i));
            }
            if positions.contains(i) {
                let k = choose|k: int| 0 <= k < positions.len() && positions[k] == i;
                assert(k < before.len() ==> before[k] == i);
            }
        }
        assert forall|k: int| 0 <= k < positions.len() implies {
            let drive = #[trigger] probed(mounts)[k];
            &&& drive.path == mounts[positions[k]].path@
            &&& drive.volume_id == le::le_bytes(mounts[positions[k]].device->0 as int, 8)
        } by {
            if k < before.len() {
                assert(probed(mounts)[k] == probed(init)[k]);
                assert(init[before[k]] == mounts[before[k]]);
            }
        }
        positions
    }
}

/// A mount point is not taken over from a list exactly if it begins with `/proc`, `/sys` or `/dev`.
pub proof fn unlisted_mounts_begin_so(mount: Seq<char>)
    ensures
        unlisted_mount(mount) <==> exists|rest: Seq<char>|
            {
                ||| mount == #[trigger] ("/proc"@ + rest)
                ||| mount == "/sys"@ + rest
                ||| mount == "/dev"@ + rest
            },
{
    lemma_begins(mount, "/proc"@);
    lemma_begins(mount, "/sys"@);
    lemma_begins(mount, "/dev"@);
    if unlisted_mount(mount) {
        let len = if text::starts_with(mount, "/proc"@) {
            "/proc"@.len() as int
        } else if text::starts_with(mount, "/sys"@) {
            "/sys"@.len() as int
        } else {
            "/dev"@.len() as int
        };
        let rest = mount.skip(len);
        let some = "/proc"@ + rest;
        assert(mount == some || mount == "/sys"@ + rest || mount == "/dev"@ + rest);
    }
}

/// Of a list of mounted file systems all are kept, as they are and in their order, but for those whose
/// mount point is not taken over.
pub proof fn every_real_file_system_is_listed(mounts: Seq<DriveView>) -> (positions: Seq<int>)
    ensures
        ascending(positions, mounts.len() as int),
        forall|i: int|
            0 <= i < mounts.len() ==> (!unlisted_mount(mounts[i].path) <==> #[trigger]
            positions.contains(i)),
        listed(mounts).len() == positions.len(),
        forall|k: int|
            0 <= k < positions.len() ==> #[trigger] listed(mounts)[k] == mounts[positions[k]],
    decreases mounts.len(),
{
    if mounts.len() == 0 {
        Seq::empty()
    } else {
        let init = mounts.drop_last();
        let n = init.len() as int;
        let before = every_real_file_system_is_listed(init);
        lemma_ascending_push(before, n);
        let positions = if unlisted_mount(mounts[n].path) {
            before
        } else {
            before.push(n)
        };
        assert(forall|k: int| 0 <= k < before.len() ==> before[k] < n);
        assert forall|i: int| 0 <= i < mounts.len() implies (!unlisted_mount(mounts[i].path)
            <==> #[trigger] positions.contains(i)) by {
            if i < n {
                assert(init[i] == mounts[i]);
                assert(!unlisted_mount(init[i].path) <==> before.contains(i));
            }
            if positions.contains(i) {
                let k = choose|k: int| 0 <= k < positions.len() && positions[k] == i;
                assert(k < before.len() ==> before[k] == i);
            }
        }
        assert forall|k: int| 0 <= k < positions.len() implies #[trigger] listed(mounts)[k]
            == mounts[positions[k]] by {
            if k < before.len() {
                assert(listed(mounts)[k] == listed(init)[k]);
            }
        }
        positions
    }
}

/// To begin with `p` is to be `p` with something behind it.
proof fn lemma_begins(s: Seq<char>, p: Seq<char>)
    ensures
        text::starts_with(s, p) <==> s == p + s.skip(p.len() as int) && p.len() <= s.len(),
        forall|rest: Seq<char>| s == #[trigger] (p + rest) ==> text::starts_with(s, p),
{
    if text::starts_with(s, p) {
        assert(s =~= p + s.skip(p.len() as int));
    }
    if s == p + s.skip(p.len() as int) && p.len() <= s.len() {
        assert(s.take(p.len() as int) =~= p);
    }
    assert forall|rest: Seq<char>| s == #[trigger] (p + rest) implies text::starts_with(s, p) by {
        assert(s.take(p.len() as int) =~= p);
    }
}

/// A mount point is one of a pseudo file system exactly if it begins with one of six prefixes and is
/// not `/dev/shm`.
pub proof fn pseudo_mounts_begin_so(mount: Seq<char>)
    ensures
        pseudo_mount(mount) <==> mount != "/dev/shm"@ && exists|rest: Seq<char>|
            {
                ||| mount == #[trigger] ("/proc"@ + rest)
                ||| mount == "/sys"@ + rest
                ||| mount == "/dev"@ + rest
                ||| mount == "/run"@ + rest
                ||| mount == "/snap"@ + rest
                ||| mount == "/var/lib/docker"@ + rest
            },
{
    lemma_begins(mount, "/proc"@);
    lemma_begins(mount, "/sys"@);
    lemma_begins(mount, "/dev"@);
    lemma_begins(mount, "/run"@);
    lemma_begins(mount, "/snap"@);
    lemma_begins(mount, "/var/lib/docker"@);
    if pseudo_mount(mount) {
        let len = if text::starts_with(mount, "/proc"@) {
            "/proc"@.len() as int
        } else if text::starts_with(mount, "/sys"@) {
            "/sys"@.len() as int
        } else if text::starts_with(mount, "/dev"@) {
            "/dev"@.len() as int
        } else if text::starts_with(mount, "/run"@) {
            "/run"@.len() as int
        } else if text::starts_with(mount, "/snap"@) {
            "/snap"@.len() as int
        } else {
            "/var/lib/docker"@.len() as int
        };
        let rest = mount.skip(len);
        let some = "/proc"@ + rest;
        assert(mount == some || mount == "/sys"@ + rest || mount == "/dev"@ + rest || mount
            == "/run"@ + rest || mount == "/snap"@ + rest || mount == "/var/lib/docker"@ + rest);
    }
}

/// The mount points of a table are the fifth words of its lines, in their order: of each line that has
/// at least ten words and does not name a pseudo file system, and of no other.
pub proof fn every_mount_is_named(lines: Seq<Seq<char>>) -> (positions: Seq<int>)
    ensures
        ascending(positions, lines.len() as int),
        forall|i: int|
            0 <= i < lines.len() ==> (text::words(lines[i]).len() >= 10 && !pseudo_mount(
                text::words(lines[i])[4],
            ) <==> #[trigger] positions.contains(i)),
        lines_mounts(lines).len() == positions.len(),
        forall|k: int|
            0 <= k < positions.len() ==> #[trigger] lines_mounts(lines)[k] == text::words(
                lines[positions[k]],
            )[4],
    decreases lines.len(),
{
    if lines.len() == 0 {
        Seq::empty()
    } else {
        let init = lines.drop_last();
        let n = init.len() as int;
        let before = every_mount_is_named(init);
        lemma_ascending_push(before, n);
        let positions = if line_mount(lines[n]) is Some {
            before.push(n)
        } else {
            before
        };
        assert(forall|k: int| 0 <= k < before.len() ==> before[k] < n);
        assert forall|i: int| 0 <= i < lines.len() implies (text::words(lines[i]).len() >= 10
            && !pseudo_mount(text::words(lines[i])[4]) <==> #[trigger] positions.contains(i)) by {
            if i < n {
                assert(init[i] == lines[i]);
                assert(text::words(init[i]).len() >= 10 && !pseudo_mount(text::words(init[i])[4])
                    <==> before.contains(i));
            }
            if positions.contains(i) {
                let k = choose|k: int| 0 <= k < positions.len() && positions[k] == i;
                assert(k < before.len() ==> before[k] == i);
            }
        }
        assert forall|k: int| 0 <= k < positions.len() implies #[trigger] lines_mounts(lines)[k]
            == text::words(lines[positions[k]])[4] by {
            if k < before.len() {
                assert(lines_mounts(lines)[k] == lines_mounts(init)[k]);
            }
        }
        positions
    }
}

} // verus!
