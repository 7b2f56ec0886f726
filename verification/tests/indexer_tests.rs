use dirindex::cache::ThumbFetch;
use dirindex::config::{next_period, Config};
use dirindex::db::Database;
use dirindex::paths::LocalPath;
use dirindex::records::FileMeta;
use dirindex::scan::{ThumbJob, ThumbOutcome};
use dirindex::snapshot::{count_snapshot, snapshot_wf, SnapEntry};
use dirindex::thumbs::thumbnail_filename;

fn meta(is_dir: bool) -> FileMeta {
    FileMeta { created: 10, modified: 20, accessed: 30, is_dir, is_symlink: false }
}

fn entry(parent: &str, name: &str, is_dir: bool, entries: Vec<SnapEntry>) -> SnapEntry {
    SnapEntry {
        name: String::from(name),
        full_path: format!("{}/{}", parent, name),
        meta: meta(is_dir),
        entries,
    }
}

fn cfg() -> Config {
    Config {
        file_dir: String::from("/srv/pics"),
        thumbnail_dir: String::from("/srv/thumbs"),
        thumbnail_size: 75,
        page_root: String::from("/"),
        scan_interval_secs: 120,
    }
}

fn db() -> Database {
    Database::new(LocalPath(String::from("/srv/pics")), 128)
}

/// The tree of the worked scenario: `a.jpg` and `sub/b.png` under the root.
fn scenario_snapshot() -> Vec<SnapEntry> {
    vec![
        entry("/srv/pics", "a.jpg", false, Vec::new()),
        entry("/srv/pics", "sub", true, vec![entry("/srv/pics/sub", "b.png", false, Vec::new())]),
    ]
}

fn outcomes_for(jobs: &[ThumbJob], ok: bool) -> Vec<ThumbOutcome> {
    jobs.iter()
        .map(|j| ThumbOutcome { key: j.key.clone(), ok })
        .collect()
}

#[test]
fn snapshot_checker_accepts_the_scenario() {
    let snap = scenario_snapshot();
    assert!(snapshot_wf(&snap, &String::from("/srv/pics")));
    assert_eq!(count_snapshot(&snap, &String::from("/srv/thumbs")), Some(3));
}

#[test]
fn snapshot_checker_rejects_wrong_paths_and_duplicates() {
    let mut bad = scenario_snapshot();
    bad[0].full_path = String::from("/elsewhere/a.jpg");
    assert!(!snapshot_wf(&bad, &String::from("/srv/pics")));

    let dup = vec![
        entry("/srv/pics", "a.jpg", false, Vec::new()),
        entry("/srv/pics", "a.jpg", false, Vec::new()),
    ];
    assert!(!snapshot_wf(&dup, &String::from("/srv/pics")));

    let slashed = vec![entry("/srv/pics", "a/b", false, Vec::new())];
    assert!(!snapshot_wf(&slashed, &String::from("/srv/pics")));
}

#[test]
fn scan_indexes_files_directories_and_counts() {
    let mut d = db();
    let c = cfg();
    let snap = scenario_snapshot();
    let existing: Vec<String> = Vec::new();
    let jobs = d.plan_thumbnails(&snap, &c, &existing, false);
    assert_eq!(jobs.len(), 2);
    assert_eq!(jobs[0].key, "a.jpg");
    assert_eq!(jobs[0].source, "/srv/pics/a.jpg");
    assert_eq!(jobs[1].key, "sub/b.png");
    let outcomes = outcomes_for(&jobs, true);
    d.scan_pass(meta(true), &snap, &c, &existing, &outcomes, false);

    let a = d.lookup(&String::from("a.jpg")).expect("a.jpg indexed");
    assert_eq!(a.full_path, "/srv/pics/a.jpg");
    assert!(!a.meta.is_dir);
    assert_eq!(a.thumbnail_name, Some(thumbnail_filename("/srv/pics/a.jpg")));

    let sub = d.lookup(&String::from("sub")).expect("sub indexed");
    assert!(sub.meta.is_dir);
    assert_eq!(sub.child_items, vec![String::from("sub/b.png")]);
    assert_eq!(d.descendant_count(&String::from("sub")), Some(1));

    let root = d.lookup(&String::from("/srv/pics")).expect("root entry exists");
    assert!(root.meta.is_dir);
    assert_eq!(root.child_items, vec![String::from("a.jpg"), String::from("sub")]);
    assert_eq!(d.descendant_count(&String::from("/srv/pics")), Some(3));
}

#[test]
fn deleting_a_directory_removes_exactly_its_subtree() {
    let mut d = db();
    let c = cfg();
    let snap = scenario_snapshot();
    let existing: Vec<String> = Vec::new();
    let jobs = d.plan_thumbnails(&snap, &c, &existing, false);
    let outcomes = outcomes_for(&jobs, true);
    d.scan_pass(meta(true), &snap, &c, &existing, &outcomes, false);
    assert_eq!(d.all_keys().len(), 4);

    // `sub` disappears from disk; its generated thumbnails remain stored.
    let shrunk = vec![entry("/srv/pics", "a.jpg", false, Vec::new())];
    let existing2 = vec![
        thumbnail_filename("/srv/pics/a.jpg"),
        thumbnail_filename("/srv/pics/sub/b.png"),
    ];
    let jobs2 = d.plan_thumbnails(&shrunk, &c, &existing2, false);
    assert!(jobs2.is_empty());
    d.scan_pass(meta(true), &shrunk, &c, &existing2, &Vec::new(), false);

    assert!(d.lookup(&String::from("sub")).is_none());
    assert!(d.lookup(&String::from("sub/b.png")).is_none());
    assert!(d.lookup(&String::from("a.jpg")).is_some());
    assert_eq!(d.all_keys().len(), 2);
    // the root's descendant count drops by two
    assert_eq!(d.descendant_count(&String::from("/srv/pics")), Some(1));
}

#[test]
fn rescanning_an_unchanged_tree_changes_nothing() {
    let mut d = db();
    let c = cfg();
    let snap = scenario_snapshot();
    let existing: Vec<String> = Vec::new();
    let jobs = d.plan_thumbnails(&snap, &c, &existing, false);
    let outcomes = outcomes_for(&jobs, true);
    d.scan_pass(meta(true), &snap, &c, &existing, &outcomes, false);

    let before: Vec<_> = ["a.jpg", "sub", "sub/b.png", "/srv/pics"]
        .iter()
        .map(|k| d.lookup(&String::from(*k)).unwrap())
        .collect();

    // second pass: the store now holds what the first pass wrote
    let existing2 = vec![
        thumbnail_filename("/srv/pics/a.jpg"),
        thumbnail_filename("/srv/pics/sub/b.png"),
    ];
    let jobs2 = d.plan_thumbnails(&snap, &c, &existing2, false);
    assert!(jobs2.is_empty());
    d.scan_pass(meta(true), &snap, &c, &existing2, &Vec::new(), false);

    let after: Vec<_> = ["a.jpg", "sub", "sub/b.png", "/srv/pics"]
        .iter()
        .map(|k| d.lookup(&String::from(*k)).unwrap())
        .collect();
    for (b, a) in before.iter().zip(after.iter()) {
        assert_eq!(b.full_path, a.full_path);
        assert_eq!(b.thumbnail_name, a.thumbnail_name);
        assert_eq!(b.items_in_subdirs, a.items_in_subdirs);
        assert_eq!(b.child_items, a.child_items);
    }
}

#[test]
fn failed_thumbnails_are_marked_broken_and_not_retried() {
    let mut d = db();
    let c = cfg();
    let snap = vec![entry("/srv/pics", "bad.jpg", false, Vec::new())];
    let existing: Vec<String> = Vec::new();
    let jobs = d.plan_thumbnails(&snap, &c, &existing, false);
    assert_eq!(jobs.len(), 1);
    let outcomes = outcomes_for(&jobs, false);
    d.scan_pass(meta(true), &snap, &c, &existing, &outcomes, false);

    let rec = d.lookup(&String::from("bad.jpg")).unwrap();
    assert_eq!(rec.thumbnail_name, None);

    // the next pass plans nothing for the broken key
    let jobs2 = d.plan_thumbnails(&snap, &c, &existing, false);
    assert!(jobs2.is_empty());

    // a forced rebuild clears the marker and retries
    let jobs3 = d.plan_thumbnails(&snap, &c, &existing, true);
    assert_eq!(jobs3.len(), 1);
}

#[test]
fn symlinks_and_the_thumbnail_store_are_skipped() {
    let mut d = db();
    let c = Config { thumbnail_dir: String::from("/srv/pics/.thumbs"), ..cfg() };
    let mut link = entry("/srv/pics", "link.jpg", false, Vec::new());
    link.meta.is_symlink = true;
    let store = entry("/srv/pics", ".thumbs", true, Vec::new());
    let snap = vec![entry("/srv/pics", "a.jpg", false, Vec::new()), link, store];
    assert!(snapshot_wf(&snap, &String::from("/srv/pics")));
    let jobs = d.plan_thumbnails(&snap, &c, &Vec::new(), false);
    assert_eq!(jobs.len(), 1);
    let outcomes = outcomes_for(&jobs, true);
    d.scan_pass(meta(true), &snap, &c, &Vec::new(), &outcomes, false);
    assert!(d.lookup(&String::from("link.jpg")).is_none());
    assert!(d.lookup(&String::from(".thumbs")).is_none());
    assert!(d.lookup(&String::from("a.jpg")).is_some());
}

#[test]
fn negative_caching_suppresses_disk_reads() {
    let mut d = db();
    let key = String::from("a.jpg");
    let name = String::from("abc.webp");
    // a failed disk read marks the key broken
    assert_eq!(d.thumbnail_disk_result(&key, &name, None), None);
    // from then on the lookup step never asks for the disk again
    let step = d.thumbnail_data_step(&key, &Some(name.clone()));
    assert!(matches!(step, ThumbFetch::Nothing));
}

#[test]
fn thumbnail_data_is_encoded_and_cached() {
    let mut d = db();
    let key = String::from("a.jpg");
    let name = String::from("abc.webp");
    let first = d.thumbnail_data_step(&key, &Some(name.clone()));
    let asked = match first {
        ThumbFetch::NeedDisk(n) => n,
        _ => panic!("expected a disk request on a cold cache"),
    };
    assert_eq!(asked, name);
    let bytes = b"Man".to_vec();
    let inline = d.thumbnail_disk_result(&key, &name, Some(&bytes)).unwrap();
    assert_eq!(inline, "TWFu");
    // the encoded data is now served from the cache
    match d.thumbnail_data_step(&key, &Some(name.clone())) {
        ThumbFetch::Inline(hit) => assert_eq!(hit, "TWFu"),
        _ => panic!("expected a cache hit"),
    }
}

#[test]
fn entries_without_thumbnails_ask_for_nothing() {
    let d = db();
    let step = d.thumbnail_data_step(&String::from("plain.txt"), &None);
    assert!(matches!(step, ThumbFetch::Nothing));
}

#[test]
fn list_matching_scans_the_whole_table() {
    let mut d = db();
    let c = cfg();
    let snap = scenario_snapshot();
    let jobs = d.plan_thumbnails(&snap, &c, &Vec::new(), false);
    let outcomes = outcomes_for(&jobs, true);
    d.scan_pass(meta(true), &snap, &c, &Vec::new(), &outcomes, false);
    let mut hits = d.list_matching(|s: &String| s.ends_with(".png"));
    hits.sort();
    assert_eq!(hits, vec![String::from("sub/b.png")]);
    let mut all = d.list_matching(|_s: &String| true);
    all.sort();
    assert_eq!(
        all,
        vec![String::new(), String::from("a.jpg"), String::from("sub"), String::from("sub/b.png")],
    );
}

#[test]
fn scan_period_backs_off_additively() {
    assert_eq!(next_period(120, 120, 60), 120);
    assert_eq!(next_period(120, 120, 121), 240);
    assert_eq!(next_period(240, 120, 200), 240);
    assert_eq!(next_period(u64::MAX - 10, 120, u64::MAX), u64::MAX);
}
