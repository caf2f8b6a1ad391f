use dumap::tree::Node;
use dumap::tree::RawEntry;
use dumap::tree::ScanError;
use dumap::tree::build_tree;
use dumap::tree::compute_threshold;
use dumap::tree::other_label;
use dumap::tree::sort_children;

fn file(name: &str, size: u64) -> RawEntry {
    RawEntry::File { name: name.to_string(), size }
}

fn dir(name: &str, entries: Vec<RawEntry>) -> RawEntry {
    RawEntry::Dir { name: name.to_string(), entries }
}

fn build(raw: &RawEntry, ignore: bool) -> Result<Node, ScanError> {
    build_tree(raw, vec!["root".to_string()], ignore)
}

fn check_sums(n: &Node) {
    if n.is_dir {
        let total: u64 = n.children.iter().map(|c| c.size).sum();
        assert_eq!(n.size, total, "directory size must equal its children's sum");
    } else {
        assert!(n.children.is_empty(), "only directories carry children");
    }
    for c in &n.children {
        check_sums(c);
    }
}

#[test]
fn size_invariant_plain_tree() {
    let raw = dir(
        "root",
        vec![
            file("a", 500),
            file("b", 300),
            dir("subdir", vec![file("c", 2000), file("big", 5000)]),
        ],
    );
    let n = build(&raw, false).unwrap();
    assert_eq!(n.size, 7800);
    check_sums(&n);
}

#[test]
fn size_invariant_with_ignored_permission_errors() {
    let raw = dir(
        "root",
        vec![
            file("a", 4096),
            RawEntry::UnreadableDir { name: "locked".to_string(), permission: true },
            RawEntry::Broken { permission: true },
            dir("sub", vec![file("c", 2048)]),
        ],
    );
    let n = build(&raw, true).unwrap();
    assert_eq!(n.size, 6144);
    check_sums(&n);
    let locked = n
        .children
        .iter()
        .find(|c| c.name == "locked")
        .expect("unreadable directory keeps its place as a placeholder");
    assert!(locked.is_dir);
    assert_eq!(locked.size, 0);
    assert!(locked.children.is_empty());
}

#[test]
fn symlink_exclusion() {
    let raw = dir(
        "root",
        vec![
            RawEntry::Symlink { name: "l1".to_string() },
            RawEntry::Symlink { name: "l2".to_string() },
        ],
    );
    let n = build(&raw, false).unwrap();
    assert_eq!(n.size, 0);
    assert!(n.children.is_empty());
}

#[test]
fn threshold_count_factor_tiers() {
    // total 1_000_000 bytes; the average-based term is kept far below the
    // size-based one so the tier alone decides.
    assert_eq!(compute_threshold(50, 1000, 1_000_000), 10_000); // 1%
    assert_eq!(compute_threshold(51, 1000, 1_000_000), 5_000); // 0.5%
    assert_eq!(compute_threshold(200, 1000, 1_000_000), 5_000); // 0.5%
    assert_eq!(compute_threshold(201, 1000, 1_000_000), 1_024); // 0.1% floored
}

#[test]
fn threshold_without_files_filters_nothing() {
    assert_eq!(compute_threshold(0, 0, 123456), u64::MAX);
}

#[test]
fn threshold_average_term() {
    // 4 files totalling 400_000: a fifth of the 100_000 average is 20_000,
    // above both the floor and 1% of the level total.
    assert_eq!(compute_threshold(4, 400_000, 500_000), 20_000);
}

#[test]
fn aggregation_two_small_files_one_subdir() {
    let raw = dir(
        "root",
        vec![file("a", 500), file("b", 300), dir("subdir", vec![file("c", 2000)])],
    );
    let n = build(&raw, false).unwrap();
    assert_eq!(n.size, 2800);
    assert_eq!(n.children.len(), 2);
    assert_eq!(n.children[0].name, "subdir");
    assert_eq!(n.children[0].size, 2000);
    assert!(n.children[0].is_dir);
    assert_eq!(n.children[1].name, other_label());
    assert_eq!(n.children[1].size, 800);
    assert!(!n.children[1].is_dir);
    assert_eq!(n.children[1].path, n.path, "the bucket reuses the directory's path");
}

#[test]
fn aggregate_absorbs_nothing_when_all_large() {
    let raw = dir("root", vec![file("a", 90_000), file("b", 10_000)]);
    let n = build(&raw, false).unwrap();
    assert_eq!(n.children.len(), 2);
    assert_eq!(n.children[0].name, "a");
    assert_eq!(n.children[1].name, "b");
}

#[test]
fn directories_never_aggregated() {
    // An empty subdirectory is far below the threshold but stays visible.
    let raw = dir("root", vec![file("big", 1_000_000), dir("tiny", vec![])]);
    let n = build(&raw, false).unwrap();
    assert!(n.children.iter().any(|c| c.name == "tiny" && c.is_dir));
}

#[test]
fn children_sorted_descending_bucket_last() {
    let raw = dir(
        "root",
        vec![
            file("small", 2000),
            dir("mid", vec![file("x", 5000)]),
            file("tiny", 10),
            file("large", 9000),
        ],
    );
    let n = build(&raw, false).unwrap();
    // threshold: max(1024, 16010/100, (11010/3)/5) = 1024; only "tiny" folds.
    let names: Vec<&str> = n.children.iter().map(|c| c.name.as_str()).collect();
    assert_eq!(names, vec!["large", "mid", "small", "Other"]);
    assert_eq!(n.children[3].size, 10);
}

#[test]
fn permission_error_fatal_without_ignore() {
    let raw = dir(
        "root",
        vec![file("a", 10), RawEntry::UnreadableDir { name: "locked".to_string(), permission: true }],
    );
    assert_eq!(build(&raw, false).unwrap_err(), ScanError::Permission);
}

#[test]
fn io_error_fatal_even_with_ignore() {
    let raw = dir(
        "root",
        vec![RawEntry::Broken { permission: false }, file("a", 10)],
    );
    assert_eq!(build(&raw, true).unwrap_err(), ScanError::Io);
    let raw2 = dir(
        "root",
        vec![dir("sub", vec![RawEntry::UnreadableDir { name: "x".to_string(), permission: false }])],
    );
    assert_eq!(build(&raw2, true).unwrap_err(), ScanError::Io);
}

#[test]
fn skipped_entry_keeps_rest_of_level() {
    let raw = dir(
        "root",
        vec![RawEntry::Broken { permission: true }, file("kept", 5000)],
    );
    let n = build(&raw, true).unwrap();
    assert_eq!(n.size, 5000);
    assert_eq!(n.children.len(), 1);
    assert_eq!(n.children[0].name, "kept");
}

#[test]
fn node_paths_extend_the_root_path() {
    let raw = dir("root", vec![dir("sub", vec![file("c", 5000)])]);
    let n = build(&raw, false).unwrap();
    assert_eq!(n.path, vec!["root".to_string()]);
    assert_eq!(n.children[0].path, vec!["root".to_string(), "sub".to_string()]);
    assert_eq!(
        n.children[0].children[0].path,
        vec!["root".to_string(), "sub".to_string(), "c".to_string()]
    );
}

#[test]
fn total_size_reports_the_size_field() {
    let raw = dir("root", vec![file("a", 4000)]);
    let n = build(&raw, false).unwrap();
    assert_eq!(n.total_size(), 4000);
}

#[test]
fn sort_children_orders_descending_and_keeps_ties_stable() {
    let mk = |name: &str, size: u64| Node {
        name: name.to_string(),
        size,
        path: vec![name.to_string()],
        children: vec![],
        is_dir: false,
    };
    let sorted = sort_children(vec![mk("a", 5), mk("b", 9), mk("c", 5), mk("d", 7)]);
    let names: Vec<&str> = sorted.iter().map(|n| n.name.as_str()).collect();
    assert_eq!(names, vec!["b", "d", "a", "c"]);
}
