use libanything::{build_index_file, FileRecord, IgnoreConfig, IndexReader, Indexer, IndexerStatus, Walk, WalkEvent};
use std::path::PathBuf;
use std::sync::atomic::AtomicBool;

fn root_records() -> Vec<FileRecord> {
    vec![FileRecord { id: 1, parent_id: 0, name: "/".to_string() }]
}

fn entry(path: &str) -> WalkEvent {
    WalkEvent::Entry(Some(path.to_string()))
}

fn triples(records: &[FileRecord]) -> Vec<(u64, u64, &str)> {
    records.iter().map(|r| (r.id, r.parent_id, r.name.as_str())).collect()
}

#[test]
fn test_indexer_lifecycle() {
    let tmp = PathBuf::from("libanything-test.anythingindex");
    let indexer = Indexer::new(tmp.clone());
    assert_eq!(indexer.status(), IndexerStatus::Idle);
    assert_eq!(indexer.progress(), 0);
    assert_eq!(indexer.output(), &tmp);
    assert!(indexer.compressed);
    assert!(indexer.partial_records().is_empty());
    assert!(!indexer.ignore_config().is_skip_dir("/proc"));
}

#[test]
fn test_walk_small_dir() {
    let mut walk = Walk::new("/tmp/libanything-walk-test", root_records());
    let mut progress = 0;
    let mut shared: Vec<FileRecord> = Vec::new();
    for path in ["", "/a.txt", "/b.txt", "/sub", "/sub/c.txt"] {
        let action = walk.step(entry(&format!("/tmp/libanything-walk-test{}", path)));
        assert!(!action.stop);
        progress += action.recorded as u64;
        shared.extend(action.publish);
    }
    shared.extend(walk.finish());
    assert!(!walk.records().is_empty());
    assert!(progress > 0);
    assert!(!shared.is_empty());
    let expected = vec![
        (1, 0, "/"),
        (2, 1, "/tmp/libanything-walk-test"),
        (3, 2, "/tmp/libanything-walk-test/a.txt"),
        (4, 2, "/tmp/libanything-walk-test/b.txt"),
        (5, 2, "/tmp/libanything-walk-test/sub"),
        (6, 5, "/tmp/libanything-walk-test/sub/c.txt"),
    ];
    assert_eq!(triples(walk.records()), expected);
    assert_eq!(triples(&shared), expected);
    assert_eq!(progress, 5);
}

#[test]
fn test_cancel() {
    let mut walk = Walk::new("/", root_records());
    let action = walk.step(WalkEvent::Cancelled);
    assert!(action.stop);
    assert!(action.publish.is_empty());
    assert_eq!(walk.records().len(), 1);
}

#[test]
fn a_walk_from_the_root() {
    let mut walk = Walk::new("/", root_records());
    for path in ["/", "/home", "/home/user", "/etc"] {
        walk.step(entry(path));
    }
    let expected = vec![(1, 0, "/"), (2, 1, "/"), (3, 2, "/home"), (4, 3, "/home/user"), (5, 2, "/etc")];
    assert_eq!(triples(walk.records()), expected);
}

#[test]
fn entries_without_a_path_take_an_id_and_failures_do_not() {
    let mut walk = Walk::new("/", Vec::new());
    assert_eq!(walk.next_id(), 2);
    assert!(!walk.step(WalkEvent::Failed).recorded);
    assert_eq!(walk.next_id(), 2);
    assert!(!walk.step(WalkEvent::Entry(None)).recorded);
    assert_eq!(walk.next_id(), 3);
    assert!(walk.step(entry("/a")).recorded);
    assert_eq!(triples(walk.records()), vec![(3, 1, "/a")]);
}

#[test]
fn paths_are_compared_by_their_parts() {
    let mut walk = Walk::new("/data//x/", Vec::new());
    walk.step(entry("/data/x"));
    walk.step(entry("/data/./x//y"));
    walk.step(entry("/data/x/y/z"));
    walk.step(entry("/elsewhere/q"));
    walk.step(entry("./a"));
    walk.step(entry("a/b"));
    let parents: Vec<u64> = walk.records().iter().map(|r| r.parent_id).collect();
    assert_eq!(parents, vec![1, 2, 3, 1, 1, 1]);
}

#[test]
fn a_path_reached_again_gets_the_later_id() {
    let mut walk = Walk::new("/", Vec::new());
    walk.step(entry("/a"));
    walk.step(entry("/a"));
    walk.step(entry("/a/b"));
    assert_eq!(triples(walk.records()), vec![(2, 1, "/a"), (3, 1, "/a"), (4, 3, "/a/b")]);
}

#[test]
fn records_are_handed_on_in_batches() {
    let mut walk = Walk::new("/", root_records());
    let mut shared: Vec<FileRecord> = Vec::new();
    let mut sizes: Vec<usize> = Vec::new();
    for i in 0..10_001 {
        let action = walk.step(entry(&format!("/{}", i)));
        if !action.publish.is_empty() {
            sizes.push(action.publish.len());
        }
        shared.extend(action.publish);
    }
    assert_eq!(sizes, vec![5000, 5000]);
    let rest = walk.finish();
    assert_eq!(rest.len(), 2);
    shared.extend(rest);
    assert_eq!(triples(&shared), triples(walk.records()));
    assert!(walk.finish().is_empty());
}

#[test]
fn a_run_that_completes() {
    let mut indexer = Indexer::new(PathBuf::from("x"));
    assert!(indexer.start());
    assert_eq!(indexer.status(), IndexerStatus::Running);
    let mut walk = indexer.begin_walk();
    assert_eq!(indexer.progress(), 1);
    assert_eq!(triples(&indexer.partial_records()), vec![(1, 0, "/")]);
    for path in ["/", "/home"] {
        let action = walk.step(entry(path));
        indexer.absorb(action);
    }
    assert_eq!(indexer.progress(), 3);
    assert_eq!(indexer.partial_records().len(), 1);
    indexer.take_over(walk.finish());
    assert_eq!(indexer.progress(), 3);
    // What is seen begins with the root that was there before the walk.
    assert_eq!(triples(&indexer.partial_records()), vec![(1, 0, "/"), (1, 0, "/"), (2, 1, "/"), (3, 2, "/home")]);
    // No second run while this one is under way.
    assert!(!indexer.start());
    assert_eq!(indexer.progress(), 3);
    assert!(indexer.end_walk(false));
    assert_eq!(indexer.status(), IndexerStatus::Running);
    indexer.end_run(&Ok(()));
    assert_eq!(indexer.status(), IndexerStatus::Completed);
    assert!(indexer.start());
    assert_eq!(indexer.progress(), 0);
    assert!(indexer.partial_records().is_empty());
}

#[test]
fn runs_that_do_not_complete() {
    let mut indexer = Indexer::new(PathBuf::from("x"));
    indexer.start();
    assert!(!indexer.end_walk(true));
    assert_eq!(indexer.status(), IndexerStatus::Idle);
    indexer.start();
    indexer.end_run(&Err("cancelled".to_string()));
    assert_eq!(indexer.status(), IndexerStatus::Idle);
    indexer.start();
    indexer.end_run(&Err("create failed: no".to_string()));
    assert_eq!(indexer.status(), IndexerStatus::Failed);
    assert!(indexer.start());
}

#[test]
fn the_settings_of_an_indexer() {
    let mut indexer = Indexer::new(PathBuf::from("x"));
    let mut rules = IgnoreConfig::new();
    rules.skip_dir_prefixes.push("/tmp".to_string());
    indexer.set_ignore_config(rules);
    assert!(indexer.ignore_config().is_skip_dir("/tmp/a"));
    indexer.set_compressed(false);
    assert!(!indexer.compressed);
}

#[test]
fn the_file_of_a_run_has_the_order_of_the_walk() {
    let mut indexer = Indexer::new(PathBuf::from("x"));
    indexer.start();
    let mut walk = indexer.begin_walk();
    for path in ["/", "/z", "/z/y", "/a"] {
        let action = walk.step(entry(path));
        indexer.absorb(action);
    }
    let cancel = AtomicBool::new(false);
    let file = build_index_file(walk.records(), Vec::new(), true, &cancel, 0).unwrap();
    let reader = IndexReader::open(&file).unwrap();
    let read: Vec<(u32, u32, &str)> =
        reader.entries.iter().map(|e| (e.id, e.parent_id, reader.get_name(e))).collect();
    assert_eq!(read, vec![(1, 0, "/"), (2, 1, "/"), (3, 2, "/z"), (4, 3, "/z/y"), (5, 2, "/a")]);
}

#[test]
fn what_is_seen_of_a_run_is_what_its_file_holds() {
    let mut indexer = Indexer::new(PathBuf::from("x"));
    indexer.start();
    let mut walk = indexer.begin_walk();
    for path in ["/", "/home", "/home/user", "/etc"] {
        let action = walk.step(entry(path));
        indexer.absorb(action);
    }
    indexer.absorb(walk.step(WalkEvent::Entry(None)));
    indexer.absorb(walk.step(entry("/var")));
    indexer.take_over(walk.finish());
    assert!(indexer.end_walk(false));
    let cancel = AtomicBool::new(false);
    let file = build_index_file(walk.records(), Vec::new(), true, &cancel, 0).unwrap();
    indexer.end_run(&Ok(()));
    assert_eq!(indexer.status(), IndexerStatus::Completed);

    let reader = IndexReader::open(&file).unwrap();
    let seen = indexer.partial_records();
    assert_eq!((seen[0].id, seen[0].parent_id, seen[0].name.as_str()), (1, 0, "/"));
    assert_eq!(seen.len(), reader.entries.len() + 1);
    for (e, r) in reader.entries.iter().zip(&seen[1..]) {
        assert_eq!((e.id as u64, e.parent_id as u64), (r.id, r.parent_id));
        assert_eq!(reader.get_name(e), r.name);
    }
}

#[test]
fn settings_made_during_a_run_do_not_reach_it() {
    let mut indexer = Indexer::new(PathBuf::from("x"));
    let mut rules = IgnoreConfig::new();
    rules.skip_dir_prefixes.push("/tmp".to_string());
    indexer.set_ignore_config(rules);
    indexer.start();
    let settings = indexer.run_settings();
    indexer.set_ignore_config(IgnoreConfig::new());
    indexer.set_compressed(false);
    assert!(settings.compressed);
    assert!(settings.ignore.is_skip_dir("/tmp"));
    assert_eq!(indexer.status(), IndexerStatus::Running);
    assert_eq!(indexer.progress(), 0);
    indexer.begin_walk();
    assert!(!indexer.compressed);
    assert_eq!(indexer.output(), &PathBuf::from("x"));
}

#[test]
fn listed_files_are_not_recorded() {
    let mut rules = IgnoreConfig::new();
    rules.skip_file_exts.push("tmp".to_string());
    let mut walk = Walk::new("/root", Vec::new());
    walk.step(entry("/root"));
    for path in ["/root/a.txt", "/root/b.tmp"] {
        if rules.keep_child(true, false, false, path) {
            walk.step(entry(path));
        }
    }
    assert_eq!(triples(walk.records()), vec![(2, 1, "/root"), (3, 2, "/root/a.txt")]);
}
