use rdu::order::sort_by_size_stable;
use rdu::paths::normalize_separators;
use rdu::render::{column_width, format_bytes, format_readable, num_digits, readable_size};
use rdu::tree::filter_depth;
use rdu::{
    get_dir_data, get_disk_usage, get_file_size, log_disk_usage, normalize_path_arg, Depth,
    FsNode, PathSizeMetadata, WalkError,
};

fn file(path: &str, size: u64) -> FsNode {
    FsNode::File { path: path.to_string(), size }
}

fn dir(path: &str, children: Vec<FsNode>) -> FsNode {
    FsNode::Dir { path: path.to_string(), children }
}

fn unreadable(path: &str) -> FsNode {
    FsNode::Unreadable { path: path.to_string() }
}

fn rec(path: &str, size: u64, depth: u16) -> PathSizeMetadata {
    PathSizeMetadata { path: path.to_string(), size, depth }
}

fn summary(records: &[PathSizeMetadata]) -> Vec<(String, u64, u16)> {
    records.iter().map(|r| (r.path.clone(), r.size, r.depth)).collect()
}

fn sample_tree() -> FsNode {
    dir(
        ".",
        vec![
            file("./a", 10),
            dir("./sub", vec![file("./sub/x", 100), dir("./sub/deep", vec![file("./sub/deep/y", 7)])]),
            file("./b", 1024),
        ],
    )
}

#[test]
fn two_files_report_in_bytes() {
    let root = dir(".", vec![file("a", 10), file("b", 1024)]);
    let lines = log_disk_usage(&root, 1, false, false).unwrap();
    assert_eq!(lines, vec!["  10  a".to_string(), "1024  b".to_string(), "1034  .".to_string()]);
}

#[test]
fn directory_size_is_sum_of_children() {
    let (records, total) = get_dir_data(&sample_tree(), Depth::Root).unwrap();
    assert_eq!(total, 1141);
    assert_eq!(
        summary(&records),
        vec![
            ("./a".to_string(), 10, 1),
            ("./sub/x".to_string(), 100, 2),
            ("./sub/deep/y".to_string(), 7, 3),
            ("./sub/deep".to_string(), 7, 2),
            ("./sub".to_string(), 107, 1),
            ("./b".to_string(), 1024, 1),
            (".".to_string(), 1141, 0),
        ]
    );
    let below_root: u64 = records.iter().filter(|r| r.depth == 1).map(|r| r.size).sum();
    assert_eq!(below_root, total);
    let (sub_records, sub_total) = get_dir_data(&sample_tree_sub(), Depth::Depth(1)).unwrap();
    assert_eq!(summary(&sub_records), summary(&records[1..5]));
    let below_sub: u64 = sub_records.iter().filter(|r| r.depth == 2).map(|r| r.size).sum();
    assert_eq!(below_sub, sub_total);
    assert_eq!(records[4].size, 107);
}

fn sample_tree_sub() -> FsNode {
    match sample_tree() {
        FsNode::Dir { mut children, .. } => children.remove(1),
        other => other,
    }
}

#[test]
fn traversal_starts_at_given_depth() {
    let (records, _) = get_dir_data(&dir("d", vec![file("d/f", 3)]), Depth::Depth(5)).unwrap();
    assert_eq!(summary(&records), vec![("d/f".to_string(), 3, 6), ("d".to_string(), 3, 5)]);
}

#[test]
fn single_file_gives_one_record() {
    for max_depth in [0u16, 1, 9] {
        let records = get_disk_usage(&file("notes.txt", 4321), max_depth).unwrap();
        assert_eq!(summary(&records), vec![("notes.txt".to_string(), 4321, 0)]);
    }
}

#[test]
fn depth_filter_is_monotone() {
    let tree = sample_tree();
    let mut previous: Vec<(String, u64, u16)> = Vec::new();
    for d in 0u16..5 {
        let current = summary(&get_disk_usage(&tree, d).unwrap());
        for r in &previous {
            assert!(current.contains(r));
        }
        assert!(current.iter().all(|r| r.2 <= d));
        previous = current;
    }
    assert_eq!(summary(&get_disk_usage(&tree, 0).unwrap()), vec![(".".to_string(), 1141, 0)]);
    assert_eq!(previous.len(), 7);
}

#[test]
fn filter_keeps_order() {
    let records = vec![rec("a", 1, 2), rec("b", 2, 1), rec("c", 3, 0), rec("d", 4, 3)];
    let kept = filter_depth(&records, 1);
    assert_eq!(summary(&kept), vec![("b".to_string(), 2, 1), ("c".to_string(), 3, 0)]);
}

#[test]
fn alignment_width_is_digit_count_of_max() {
    assert_eq!(num_digits(0), 1);
    assert_eq!(num_digits(1), 1);
    assert_eq!(num_digits(9), 1);
    assert_eq!(num_digits(10), 2);
    assert_eq!(num_digits(100), 3);
    assert_eq!(num_digits(1034), 4);
    assert_eq!(num_digits(u64::MAX), 20);
    assert_eq!(column_width(&vec![rec("a", 0, 0)]), 1);
    assert_eq!(column_width(&vec![rec("a", 1, 0), rec("b", 0, 0)]), 1);
    assert_eq!(column_width(&vec![rec("a", 7, 0), rec("b", 100000, 0), rec("c", 99, 0)]), 6);
}

#[test]
fn bytes_lines_align_to_widest() {
    let lines = format_bytes(&vec![rec("x", 5, 1), rec("y", 123, 1), rec("z", 0, 0)]);
    assert_eq!(lines, vec!["  5  x".to_string(), "123  y".to_string(), "  0  z".to_string()]);
}

#[test]
fn bytes_lines_pad_on_the_left() {
    let lines = format_bytes(&vec![rec("a", 10, 1), rec("b", 5, 1)]);
    assert_eq!(lines, vec!["10  a".to_string(), " 5  b".to_string()]);
}

#[test]
fn readable_sizes() {
    assert_eq!(readable_size(0), "0B");
    assert_eq!(readable_size(1), "1.0B");
    assert_eq!(readable_size(7), "7.0B");
    assert_eq!(readable_size(9), "9.0B");
    assert_eq!(readable_size(10), "10B");
    assert_eq!(readable_size(1023), "1023B");
    assert_eq!(readable_size(1024), "1.0K");
    assert_eq!(readable_size(1536), "1.5K");
    assert_eq!(readable_size(10188), "9.9K");
    assert_eq!(readable_size(10189), "10K");
    assert_eq!(readable_size(10240), "10K");
    assert_eq!(readable_size(1048575), "1024K");
    assert_eq!(readable_size(1048576), "1.0M");
    assert_eq!(readable_size(5 * 1073741824), "5.0G");
    assert_eq!(readable_size(1099511627776), "1.0?");
}

#[test]
fn readable_lines_use_four_columns() {
    let lines = format_readable(&vec![rec("a", 0, 1), rec("b", 1024, 1), rec("c", 2047, 0)]);
    assert_eq!(lines, vec!["0B    a".to_string(), "1.0K  b".to_string(), "2.0K  c".to_string()]);
}

#[test]
fn sorting_is_ascending_and_stable() {
    let records = vec![rec("p", 5, 1), rec("q", 3, 1), rec("r", 5, 1), rec("s", 1, 0), rec("t", 3, 2)];
    let sorted = sort_by_size_stable(&records);
    let names: Vec<String> = sorted.iter().map(|r| r.path.clone()).collect();
    assert_eq!(names, vec!["s", "q", "t", "p", "r"]);
}

#[test]
fn unsorted_report_keeps_traversal_order() {
    let root = dir(".", vec![file("big", 2048), file("small", 1)]);
    let plain = log_disk_usage(&root, 1, true, false).unwrap();
    assert_eq!(plain, vec!["2.0K  big".to_string(), "1.0B  small".to_string(), "2.0K  .".to_string()]);
    let sorted = log_disk_usage(&root, 1, true, true).unwrap();
    assert_eq!(sorted, vec!["1.0B  small".to_string(), "2.0K  big".to_string(), "2.0K  .".to_string()]);
}

#[test]
fn unreadable_subdirectory_counts_nothing() {
    let root = dir(".", vec![unreadable("./locked"), file("./f", 321)]);
    let (records, total) = get_dir_data(&root, Depth::Root).unwrap();
    assert_eq!(total, 321);
    assert_eq!(summary(&records), vec![("./f".to_string(), 321, 1), (".".to_string(), 321, 0)]);
}

#[test]
fn errors_are_reported() {
    assert_eq!(get_dir_data(&file("f", 1), Depth::Root).err(), Some(WalkError::NotADirectory));
    assert_eq!(get_dir_data(&unreadable("u"), Depth::Root).err(), Some(WalkError::NotADirectory));
    assert_eq!(get_file_size(&dir("d", vec![]), &Depth::Root).err(), Some(WalkError::NotAFile));
    assert_eq!(get_disk_usage(&unreadable("u"), 3).err(), Some(WalkError::NotAFile));
    let nested = dir("d", vec![dir("d/e", vec![])]);
    assert_eq!(get_dir_data(&nested, Depth::Depth(u16::MAX)).err(), Some(WalkError::TooDeep));
    assert!(get_dir_data(&nested, Depth::Depth(u16::MAX - 1)).is_ok());
    let huge = dir("d", vec![file("a", u64::MAX), file("b", 1)]);
    assert_eq!(get_disk_usage(&huge, 0).err(), Some(WalkError::SizeOverflow));
    assert_eq!(log_disk_usage(&huge, 0, false, false).err(), Some(WalkError::SizeOverflow));
}

#[test]
fn file_record_keeps_depth() {
    let r = get_file_size(&file("f", 12), &Depth::Depth(3)).unwrap();
    assert_eq!((r.path.as_str(), r.size, r.depth), ("f", 12, 3));
}

#[test]
fn empty_directory_reports_zero() {
    let lines = log_disk_usage(&dir("empty", vec![]), 0, false, false).unwrap();
    assert_eq!(lines, vec!["0  empty".to_string()]);
}

#[test]
fn separators_are_rewritten() {
    assert_eq!(normalize_separators("a\\b/c", '/'), "a/b/c");
    assert_eq!(normalize_separators("a\\b/c", '\\'), "a\\b\\c");
    assert_eq!(normalize_separators("", '/'), "");
    let host = normalize_path_arg("x/y\\z");
    assert!(host == "x/y/z" || host == "x\\y\\z");
    assert_eq!(host, format!("x{}y{}z", std::path::MAIN_SEPARATOR, std::path::MAIN_SEPARATOR));
}
