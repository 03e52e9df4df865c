use r_delta::diff::{
    diff, diff_quick_check, filter_sync_plan, get_files_to_sync, SyncAction, SyncItem, SyncPlan,
};
use r_delta::manifest::{
    entry_at, entry_below, has_ignored_name, is_ignored_name, sort_entries, ContentHasher,
    FileEntry, Manifest, NotBelow,
};

fn create_test_entry(path: &str, size: u64, modified: u64, is_dir: bool) -> FileEntry {
    FileEntry::new(path.to_string(), size, modified, is_dir)
}

fn with_content(entry: FileEntry, content: &[u8]) -> FileEntry {
    let mut hasher = ContentHasher::new();
    for part in content.chunks(3) {
        hasher.update(part);
    }
    entry.with_checksum(&hasher)
}

#[test]
fn test_diff_new_file() {
    let client = Manifest::new(vec![
        create_test_entry("file1.txt", 100, 1000, false),
        create_test_entry("file2.txt", 200, 2000, false),
    ]);

    let server = Manifest::new(vec![create_test_entry("file1.txt", 100, 1000, false)]);

    let plan = diff(&client, &server);

    assert_eq!(plan.len(), 2);

    let file1_action = plan.items.iter().find(|i| i.path == "file1.txt").unwrap();
    assert_eq!(file1_action.action, SyncAction::Skip);

    let file2_action = plan.items.iter().find(|i| i.path == "file2.txt").unwrap();
    assert_eq!(file2_action.action, SyncAction::SendFull);
}

#[test]
fn test_diff_modified_file() {
    let client = Manifest::new(vec![create_test_entry("file1.txt", 150, 2000, false)]);

    let server = Manifest::new(vec![create_test_entry("file1.txt", 100, 1000, false)]);

    let plan = diff(&client, &server);

    assert_eq!(plan.len(), 1);
    assert_eq!(plan.items[0].action, SyncAction::SendDelta);
}

#[test]
fn test_diff_deleted_file() {
    let client = Manifest::new(vec![create_test_entry("file1.txt", 100, 1000, false)]);

    let server = Manifest::new(vec![
        create_test_entry("file1.txt", 100, 1000, false),
        create_test_entry("file2.txt", 200, 2000, false),
    ]);

    let plan = diff(&client, &server);

    let delete_action = plan.items.iter().find(|i| i.path == "file2.txt").unwrap();
    assert_eq!(delete_action.action, SyncAction::Delete);
}

#[test]
fn test_diff_ignores_directories() {
    let client = Manifest::new(vec![
        create_test_entry("dir1", 0, 1000, true),
        create_test_entry("dir1/file1.txt", 100, 1000, false),
    ]);

    let server = Manifest::new(vec![]);

    let plan = diff(&client, &server);

    assert_eq!(plan.len(), 1);
    assert_eq!(plan.items[0].path, "dir1/file1.txt");
}

#[test]
fn test_diff_quick_check_identical() {
    let entries = vec![
        create_test_entry("file1.txt", 100, 1000, false),
        create_test_entry("file2.txt", 200, 2000, false),
    ];

    let manifest1 = Manifest::new(entries.clone());
    let manifest2 = Manifest::new(entries);

    assert!(diff_quick_check(&manifest1, &manifest2));
}

#[test]
fn test_diff_quick_check_different() {
    let manifest1 = Manifest::new(vec![create_test_entry("file1.txt", 100, 1000, false)]);

    let manifest2 = Manifest::new(vec![create_test_entry("file1.txt", 150, 1000, false)]);

    assert!(!diff_quick_check(&manifest1, &manifest2));
}

#[test]
fn test_filter_sync_plan() {
    let plan = SyncPlan::new(vec![
        SyncItem::new("file1.txt".to_string(), SyncAction::SendFull),
        SyncItem::new("file2.txt".to_string(), SyncAction::Skip),
        SyncItem::new("file3.txt".to_string(), SyncAction::SendDelta),
    ]);

    let filtered = filter_sync_plan(&plan, &[SyncAction::SendFull, SyncAction::SendDelta]);

    assert_eq!(filtered.len(), 2);
    assert!(filtered
        .items
        .iter()
        .all(|i| matches!(i.action, SyncAction::SendFull | SyncAction::SendDelta)));
}

#[test]
fn test_get_files_to_sync() {
    let plan = SyncPlan::new(vec![
        SyncItem::new("file1.txt".to_string(), SyncAction::SendFull),
        SyncItem::new("file2.txt".to_string(), SyncAction::Skip),
        SyncItem::new("file3.txt".to_string(), SyncAction::SendDelta),
        SyncItem::new("file4.txt".to_string(), SyncAction::Delete),
    ]);

    let files = get_files_to_sync(&plan);

    assert_eq!(files.len(), 2);
    assert!(files.contains(&"file1.txt".to_string()));
    assert!(files.contains(&"file3.txt".to_string()));
}

#[test]
fn test_count_by_action() {
    let plan = SyncPlan::new(vec![
        SyncItem::new("file1.txt".to_string(), SyncAction::SendFull),
        SyncItem::new("file2.txt".to_string(), SyncAction::SendFull),
        SyncItem::new("file3.txt".to_string(), SyncAction::Skip),
        SyncItem::new("file4.txt".to_string(), SyncAction::SendDelta),
    ]);

    let counts = plan.count_by_action();

    assert_eq!(counts.get("SendFull"), Some(&2));
    assert_eq!(counts.get("Skip"), Some(&1));
    assert_eq!(counts.get("SendDelta"), Some(&1));
    assert_eq!(counts.get("Delete"), None);
    assert_eq!(counts.len(), 3);
}

#[test]
fn content_decides_where_it_is_known() {
    let entry = |modified: u64, content: &[u8]| {
        with_content(create_test_entry("a", content.len() as u64, modified, false), content)
    };
    let action = |client: FileEntry, server: FileEntry| {
        diff(&Manifest::new(vec![client]), &Manifest::new(vec![server])).items[0].action
    };
    // The same content at another time is the same file.
    assert_eq!(action(entry(1, b"same"), entry(2, b"same")), SyncAction::Skip);
    // Another content of the same size and time is another file.
    assert_eq!(action(entry(1, b"abcd"), entry(1, b"abce")), SyncAction::SendDelta);
    // Where one side has no checksum the times decide.
    let bare = create_test_entry("a", 4, 1, false);
    assert_eq!(action(bare.clone(), entry(1, b"abcd")), SyncAction::Skip);
    assert_eq!(action(bare, entry(2, b"abcd")), SyncAction::SendDelta);
    assert_eq!(action(entry(1, b"abc"), entry(1, b"abcd")), SyncAction::SendDelta);
}

#[test]
fn plan_order_and_directories() {
    let client = Manifest::new(vec![
        create_test_entry("b", 1, 1, false),
        create_test_entry("a", 1, 1, false),
        create_test_entry("d", 0, 1, true),
    ]);
    let server = Manifest::new(vec![
        create_test_entry("z", 1, 1, false),
        create_test_entry("d", 5, 1, false),
        create_test_entry("e", 0, 1, true),
        create_test_entry("y", 1, 1, false),
    ]);
    let plan = diff(&client, &server);
    let listed: Vec<(&str, SyncAction)> =
        plan.items.iter().map(|i| (i.path.as_str(), i.action)).collect();
    assert_eq!(
        listed,
        vec![
            ("b", SyncAction::SendFull),
            ("a", SyncAction::SendFull),
            ("z", SyncAction::Delete),
            ("y", SyncAction::Delete),
        ]
    );
    let copy = plan.clone();
    assert_eq!(copy.len(), 4);
    assert!(!copy.is_empty());
    assert!(SyncPlan::empty().is_empty());
}

#[test]
fn a_manifest_against_itself() {
    let manifest = Manifest::new(vec![
        create_test_entry("a", 1, 1, false),
        create_test_entry("d", 0, 1, true),
        with_content(create_test_entry("d/b", 3, 2, false), b"xyz"),
    ]);
    let plan = diff(&manifest, &manifest.clone());
    assert_eq!(plan.len(), 2);
    assert!(plan.items.iter().all(|i| i.action == SyncAction::Skip));
}

#[test]
fn last_of_equal_paths_counts_on_the_server() {
    let client = Manifest::new(vec![create_test_entry("a", 1, 1, false)]);
    let server = Manifest::new(vec![
        create_test_entry("a", 1, 1, false),
        create_test_entry("a", 2, 1, false),
    ]);
    assert_eq!(diff(&client, &server).items[0].action, SyncAction::SendDelta);
}

#[test]
fn quick_check_goes_by_the_hash_or_the_entries() {
    let a = Manifest::new(vec![create_test_entry("ab", 1, 2, false)]);
    // The hash does not tell these apart.
    let b = Manifest::new(vec![create_test_entry("cd", 2, 1, false)]);
    assert_eq!(a.root_hash, 1 + 2 + 2);
    assert!(diff_quick_check(&a, &b));
    let mut c = a.clone();
    c.root_hash = 0;
    assert!(diff_quick_check(&a, &c));
    let mut d = b.clone();
    d.root_hash = 0;
    assert!(!diff_quick_check(&a, &d));
    let mut e = Manifest::new(vec![]);
    e.root_hash = 7;
    assert!(!diff_quick_check(&a, &e));
}

#[test]
fn test_manifest_generation() {
    let found = vec![
        FileEntry::from_metadata("subdir\\file2.txt".to_string(), 12, 5, false),
        FileEntry::from_metadata("subdir".to_string(), 4096, 5, true),
        FileEntry::from_metadata("file1.txt".to_string(), 12, 5, false),
    ];
    let manifest = Manifest::from_walk(found);

    assert_eq!(manifest.len(), 3);
    assert!(manifest.find_entry("file1.txt").is_some());
    assert!(manifest.find_entry("subdir").is_some());
    assert!(manifest.find_entry("subdir/file2.txt").is_some());
    assert!(manifest.find_entry("subdir\\file2.txt").is_none());
    let paths: Vec<&str> = manifest.entries.iter().map(|e| e.path.as_str()).collect();
    assert_eq!(paths, vec!["file1.txt", "subdir", "subdir/file2.txt"]);
    assert_eq!(manifest.total_size(), 4120);
    assert!(!manifest.is_empty());
}

#[test]
fn test_manifest_ignores_target() {
    let manifest = Manifest::from_walk(vec![
        FileEntry::from_metadata("target".to_string(), 4096, 5, true),
        FileEntry::from_metadata("target/ignored.txt".to_string(), 17, 5, false),
        FileEntry::from_metadata("normal.txt".to_string(), 7, 5, false),
    ]);

    assert_eq!(manifest.len(), 1);
    assert!(manifest.find_entry("normal.txt").is_some());
    assert!(manifest.find_entry("target/ignored.txt").is_none());
}

#[test]
fn ignored_names() {
    assert!(is_ignored_name("target"));
    assert!(is_ignored_name("node_modules"));
    assert!(is_ignored_name(".git"));
    assert!(!is_ignored_name("normal.txt"));
    assert!(!is_ignored_name(".gitignore"));
    assert!(!is_ignored_name(""));
    for path in ["target", "a/target", "a/target/b", "\u{e9}/node_modules", ".git/", "/.git"] {
        assert!(has_ignored_name(path), "{}", path);
    }
    for path in ["", "/", "targets", "a/my_target", "target.txt/b", "a/.gitignore"] {
        assert!(!has_ignored_name(path), "{}", path);
    }
}

#[test]
fn test_file_entry_from_metadata() {
    let entry = FileEntry::from_metadata("test.txt".to_string(), 4, 1234, false);

    assert_eq!(entry.path, "test.txt");
    assert_eq!(entry.size, 4);
    assert!(!entry.is_dir);
    assert!(entry.modified > 0);
    assert!(entry.checksum.is_none());
}

#[test]
fn checksums_belong_to_files_with_content() {
    let file = with_content(create_test_entry("a", 3, 0, false), b"abc");
    assert_eq!(file.checksum.map(|c| c[0]), Some(0x64));
    assert!(file.needs_checksum());
    let empty = with_content(create_test_entry("a", 0, 0, false), b"abc");
    assert_eq!(empty.checksum, None);
    let dir = with_content(create_test_entry("a", 3, 0, true), b"abc");
    assert_eq!(dir.checksum, None);
}

#[test]
fn root_hash_formula() {
    let manifest = Manifest::new(vec![
        create_test_entry("ab", 10, 20, false),
        create_test_entry("\u{e9}", 1, 2, false),
    ]);
    assert_eq!(manifest.root_hash, (10 + 20 + 2) * 31 + 1 + 2 + 2);
    assert_eq!(Manifest::compute_hash(&[]), 0);
}

#[test]
fn sorting_is_by_bytes_and_stable() {
    let names = ["b", "a/z", "a", "B", "\u{e9}", "a", "", "a-b", "zz", "z"];
    let entries: Vec<FileEntry> = names
        .iter()
        .enumerate()
        .map(|(i, name)| create_test_entry(name, i as u64, 0, false))
        .collect();
    let mut expected = entries.clone();
    expected.sort_by(|a, b| a.path.cmp(&b.path));
    assert_eq!(sort_entries(entries), expected);
    let sizes: Vec<u64> =
        expected.iter().filter(|e| e.path == "a").map(|e| e.size).collect();
    assert_eq!(sizes, vec![2, 5]);
    assert_eq!(sort_entries(vec![]), vec![]);
    let many: Vec<FileEntry> = (0..1000u64)
        .map(|i| create_test_entry(&format!("f{}", i * 7919 % 311), i, 0, false))
        .collect();
    let mut expected = many.clone();
    expected.sort_by(|a, b| a.path.cmp(&b.path));
    assert_eq!(sort_entries(many), expected);
}

#[test]
fn backslashes_come_after_names() {
    let manifest = Manifest::from_walk(vec![
        FileEntry::from_metadata("x\\target".to_string(), 7, 5, false),
        FileEntry::from_metadata("x/target".to_string(), 7, 5, false),
        FileEntry::from_metadata("a\\b\\\u{e9}c".to_string(), 7, 5, false),
    ]);

    let paths: Vec<&str> = manifest.entries.iter().map(|e| e.path.as_str()).collect();
    assert_eq!(paths, vec!["a/b/\u{e9}c", "x/target"]);
}

#[test]
fn entries_below_a_root() {
    let cases = [
        ("/data", "/data/file.txt", "file.txt"),
        ("/data/", "/data/sub/file.txt", "sub/file.txt"),
        ("/", "/data", "data"),
        (".", "./sub/.hidden", "sub/.hidden"),
        ("../up", "../up/\u{e9}/..x", "\u{e9}/..x"),
        ("a/../b", "a/../b/c", "c"),
    ];
    for (root, path, expected) in cases {
        let entry = entry_below(root, path, 12, 34, true).unwrap().unwrap();
        assert_eq!(entry.path, expected);
        assert_eq!((entry.size, entry.modified, entry.is_dir), (12, 34, true));
        assert!(entry.checksum.is_none());
    }
    assert_eq!(entry_below("/data", "/data", 1, 2, true), Ok(None));
    assert_eq!(entry_below(".", ".", 1, 2, true), Ok(None));
    assert_eq!(entry_below("/data", "data/file.txt", 1, 2, false), Err(NotBelow));
}

#[test]
fn entries_at_relative_paths() {
    let entry = entry_at("r", "r/a\\b", Some("a\\b".to_string()), 3, 4, false);
    let expected = FileEntry::new("a\\b".to_string(), 3, 4, false);
    assert_eq!(entry, Ok(Some(expected)));
    assert_eq!(entry_at("r", "r", Some(String::new()), 3, 4, true), Ok(None));
    assert_eq!(entry_at("r", "r", None, 3, 4, true), Ok(None));
    assert_eq!(entry_at("r", "s", None, 3, 4, true), Err(NotBelow));
}
