use libanything::IgnoreConfig;

fn strings(list: &[&str]) -> Vec<String> {
    list.iter().map(|s| s.to_string()).collect()
}

fn test_ignore() -> IgnoreConfig {
    IgnoreConfig {
        skip_dir_prefixes: strings(&[
            "/proc",
            "/sys",
            "/dev",
            "/run",
            "/snap",
            "/lost+found",
            "/tmp",
            "/boot",
            "/lib",
            "/lib64",
            "/usr/lib",
            "/usr/lib64",
            "/usr/share/zoneinfo",
            "/usr/share/doc",
            "/usr/share/help",
            "/usr/share/man",
            "/usr/include",
            "/usr/src",
            "/var/cache",
            "/var/log",
            "/var/tmp",
            "/opt",
            "/sysroot",
            "/var/lib/docker",
            "/var/lib/flatpak",
        ]),
        skip_file_names: strings(&["thumbs.db", "desktop.ini", ".ds_store", "icon\r"]),
        skip_file_exts: strings(&["tmp", "temp", "bak"]),
    }
}

#[test]
fn test_skip_dir_filtering() {
    let ig = test_ignore();
    assert!(ig.is_skip_dir("/proc"));
    assert!(ig.is_skip_dir("/proc/self"));
    assert!(ig.is_skip_dir("/sys/class"));
    assert!(ig.is_skip_dir("/dev"));
    assert!(ig.is_skip_dir("/dev/shm"));
    assert!(ig.is_skip_dir("/run/user/1000"));
    assert!(ig.is_skip_dir("/snap/core/1234"));
    assert!(ig.is_skip_dir("/lost+found"));
    assert!(ig.is_skip_dir("/var/lib/docker/overlay2"));
    assert!(ig.is_skip_dir("/var/lib/flatpak/repo"));
    assert!(ig.is_skip_dir("/tmp"));
    assert!(ig.is_skip_dir("/tmp/foo"));
    assert!(ig.is_skip_dir("/boot"));
    assert!(ig.is_skip_dir("/lib/x86_64-linux-gnu"));
    assert!(ig.is_skip_dir("/lib64"));
    assert!(ig.is_skip_dir("/usr/lib/python3"));
    assert!(ig.is_skip_dir("/usr/share/zoneinfo/America"));
    assert!(ig.is_skip_dir("/usr/share/doc/bash"));
    assert!(ig.is_skip_dir("/usr/include/linux"));
    assert!(ig.is_skip_dir("/var/cache/apt"));
    assert!(ig.is_skip_dir("/var/log/syslog"));
    assert!(ig.is_skip_dir("/opt/google"));
    assert!(ig.is_skip_dir("/sysroot"));
    assert!(!ig.is_skip_dir("/home/user/proc"));
    assert!(!ig.is_skip_dir("/home/user/dev"));
}

#[test]
fn test_noise_filter() {
    let ig = test_ignore();
    assert!(ig.is_noise("/home/user/thumbs.db"));
    assert!(ig.is_noise("/home/user/desktop.ini"));
    assert!(ig.is_noise("/home/user/.ds_store"));
    assert!(!ig.is_noise("/home/user/report.pdf"));
    // extension filters
    assert!(ig.is_noise("/tmp/foo.tmp"));
    assert!(ig.is_noise("/tmp/foo.temp"));
    assert!(ig.is_noise("/tmp/foo.bak"));
    assert!(!ig.is_noise("/home/user/notes.txt"));
    // trailing tilde
    assert!(ig.is_noise("/home/user/backup~"));
}

#[test]
fn a_skipped_name_must_end_at_a_separator() {
    let ig = test_ignore();
    assert!(!ig.is_skip_dir("/process"));
    assert!(!ig.is_skip_dir("/libfoo"));
    assert!(!ig.is_skip_dir("/"));
    assert!(!ig.is_skip_dir(""));
    assert!(!ig.is_skip_dir("/pro"));
    let mut unicode = IgnoreConfig::new();
    unicode.skip_dir_prefixes.push("/Größe".to_string());
    assert!(unicode.is_skip_dir("/Größe/x"));
    assert!(!unicode.is_skip_dir("/Größen/x"));
}

#[test]
fn what_lies_below_a_skipped_directory_is_skipped() {
    let ig = test_ignore();
    for dir in ["/proc", "/tmp/foo", "/usr/share/doc/bash"] {
        assert!(ig.is_skip_dir(dir));
        assert!(ig.is_skip_dir(&format!("{}/a/b", dir)));
        assert!(ig.is_skip_dir(&format!("{}/", dir)));
    }
}

#[test]
fn noise_does_not_depend_on_case() {
    let ig = test_ignore();
    assert!(ig.is_noise("/home/user/Thumbs.DB"));
    assert!(ig.is_noise("/home/user/REPORT.TMP"));
    let mut greek = IgnoreConfig::new();
    greek.skip_file_names.push("όσος".to_string());
    assert!(greek.is_noise("/ΌΣΟΣ"));
    assert!(!greek.is_noise("/όσοσ"));
}

#[test]
fn noise_looks_at_the_last_name_of_a_path() {
    let ig = test_ignore();
    assert!(ig.is_noise("foo.tmp"));
    assert!(ig.is_noise("/a/foo.tmp/"));
    assert!(ig.is_noise("/a/foo.tmp//."));
    assert!(!ig.is_noise("/a/foo.tmp/.."));
    assert!(!ig.is_noise("/a.tmp/foo"));
    assert!(!ig.is_noise("/"));
    assert!(!ig.is_noise(""));
    assert!(!ig.is_noise("."));
    assert!(!ig.is_noise("./"));
    assert!(!ig.is_noise(".."));
    // A dot in front makes no extension.
    assert!(!ig.is_noise("/home/user/.tmp"));
    assert!(ig.is_noise("/home/user/.a.tmp"));
    assert!(ig.is_noise("/home/user/..tmp"));
    assert!(!ig.is_noise("/home/user/tmp"));
    assert!(ig.is_noise("~"));
}

#[test]
fn names_and_extensions_are_those_of_std() {
    let cases = [
        "", "/", "//", ".", "./", "..", "../", "/..", "/.", "a", "a/", "a//", "a/.", "a/./", "./a", "a/..", "/a/b.c",
        "a.b.c", ".a", "..a", "a.", "...", "a/.b", "a/b..", "/.../x", "a//b/./c.d/", "ä.ö",
    ];
    for case in cases {
        let path = std::path::Path::new(case);
        let name = path.file_name().and_then(|n| n.to_str());
        let mut by_name = IgnoreConfig::new();
        by_name.skip_file_names.push(name.unwrap_or("none").to_string());
        assert_eq!(by_name.is_noise(case), name.is_some(), "name of {:?}", case);
        let ext = path.extension().and_then(|e| e.to_str());
        let mut by_ext = IgnoreConfig::new();
        by_ext.skip_file_exts.push(ext.unwrap_or("none").to_string());
        assert_eq!(by_ext.is_noise(case), ext.is_some(), "extension of {:?}", case);
    }
}

#[test]
fn without_rules_only_a_tilde_is_noise() {
    let none = IgnoreConfig::new();
    assert!(!none.is_skip_dir("/proc"));
    assert!(!none.is_noise("/tmp/foo.tmp"));
    assert!(none.is_noise("/tmp/foo~"));
    assert!(none.is_noise("/tmp/Größe~"));
    assert!(!none.is_noise("/tmp/~/x"));
    assert!(!none.is_listed_file("/tmp/foo~"));
    assert!(!none.is_listed_name("", None));
    assert!(!none.is_listed_name("a~", Some("b")));
    assert!(none.keep_child(true, false, false, "/tmp/foo~"));
}

#[test]
fn listed_by_name_and_extension() {
    let ig = test_ignore();
    assert!(ig.is_listed_name("thumbs.db", None));
    assert!(ig.is_listed_name("x", Some("bak")));
    assert!(!ig.is_listed_name("x", Some("db")));
    assert!(!ig.is_listed_name("x", None));
}

#[test]
fn children_that_a_walk_keeps() {
    let ig = test_ignore();
    assert!(ig.keep_child(true, false, true, "/home"));
    assert!(!ig.keep_child(false, false, true, "/home"));
    assert!(!ig.keep_child(true, true, true, "/home"));
    assert!(!ig.keep_child(true, false, true, "/proc"));
    assert!(!ig.keep_child(true, false, false, "/proc/x"));
    // Listed files are left out, directories of such a name are not.
    assert!(!ig.keep_child(true, false, false, "/home/b.tmp"));
    assert!(!ig.keep_child(true, false, false, "/home/B.TMP"));
    assert!(!ig.keep_child(true, false, false, "/home/Thumbs.db"));
    assert!(ig.keep_child(true, false, true, "/home/b.tmp"));
    assert!(ig.keep_child(true, false, false, "/home/a.txt"));
    // A tilde is noise in a search, but recorded.
    assert!(ig.keep_child(true, false, false, "/home/x~"));
    assert!(ig.is_noise("/home/x~"));
}

#[test]
fn a_cloned_config_has_the_same_rules() {
    let ig = test_ignore().clone();
    assert!(ig.is_skip_dir("/proc"));
    assert!(ig.is_noise("thumbs.db"));
    assert!(ig.is_noise("a.bak"));
}

#[test]
fn a_prefix_may_end_in_a_separator() {
    let mut ig = IgnoreConfig::new();
    ig.skip_dir_prefixes.push("/tmp/".to_string());
    assert!(ig.is_skip_dir("/tmp/foo"));
    assert!(ig.is_skip_dir("/tmp/foo/bar"));
    assert!(ig.is_skip_dir("/tmp/"));
    assert!(!ig.is_skip_dir("/tmp"));
    assert!(!ig.is_skip_dir("/tmpfoo"));
    let mut lib = IgnoreConfig::new();
    lib.skip_dir_prefixes.push("/lib".to_string());
    assert!(!lib.is_skip_dir("/lib64"));
    assert!(lib.is_skip_dir("/lib/x"));
}

#[test]
fn rules_may_be_given_in_any_letter_case() {
    let ig = IgnoreConfig {
        skip_dir_prefixes: Vec::new(),
        skip_file_names: strings(&["Thumbs.db", "GRÖSSE"]),
        skip_file_exts: strings(&["TMP"]),
    };
    assert!(ig.is_noise("/x/Thumbs.db"));
    assert!(ig.is_noise("/x/thumbs.db"));
    assert!(ig.is_noise("/x/THUMBS.DB"));
    assert!(ig.is_noise("/x/a.TMP"));
    assert!(ig.is_noise("/x/a.tmp"));
    assert!(ig.is_noise("/x/Grösse"));
    assert!(!ig.is_noise("/x/Thumbs.dbx"));
    assert!(!ig.is_noise("/x/TMP"));
    let lower = ig.lowered();
    assert_eq!(lower.skip_file_names, vec!["thumbs.db", "grösse"]);
    assert_eq!(lower.skip_file_exts, vec!["tmp"]);
    assert!(lower.is_listed_name("thumbs.db", None));
    assert!(!ig.is_listed_name("thumbs.db", None));
}

#[test]
fn lowercase_of_ascii() {
    for v in 0u8..128 {
        let mut ig = IgnoreConfig::new();
        ig.skip_file_names.push((v as char).to_string());
        assert_eq!(ig.lowered().skip_file_names, vec![(v as char).to_ascii_lowercase().to_string()]);
    }
}

#[test]
fn noise_rests_on_the_last_part_in_any_letter_case() {
    let ig = test_ignore();
    for name in ["thumbs.db", "a.tmp", "b~", "report.pdf", ".ds_store", "..x"] {
        let noise = ig.is_noise(name);
        for dir in ["", "/", "a", "/a.tmp", "..", "/x/y/", "b~"] {
            assert_eq!(ig.is_noise(&format!("{}/{}", dir, name)), noise);
        }
        assert_eq!(ig.is_noise(&name.to_ascii_uppercase()), noise);
    }
}
