use prdiff::git::{
    count_lines, decimal_string, entries_from_records, is_binary, new_file_diff, merge_changed_files, normalize_numstat_path,
    parse_diff_records, parse_diff_status_and_stats, parse_i32, untracked_entry, DiffRecord,
};
use prdiff::model::{FileEntry, FileStatus};

fn entry(path: &str, status: FileStatus, additions: i32, deletions: i32) -> FileEntry {
    FileEntry { path: path.to_string(), status, additions, deletions }
}

fn summary(files: &[FileEntry]) -> Vec<(String, FileStatus, i32, i32)> {
    files.iter().map(|f| (f.path.clone(), f.status, f.additions, f.deletions)).collect()
}

#[test]
fn normalize_numstat_path_handles_brace_expansion() {
    assert_eq!(normalize_numstat_path("src/{old => new}/file.rs"), "src/new/file.rs");
}

#[test]
fn normalize_numstat_path_handles_simple_arrow() {
    assert_eq!(normalize_numstat_path("old => new"), "new");
}

#[test]
fn normalize_arrow_between_file_names() {
    assert_eq!(normalize_numstat_path("old.txt => new.txt"), "new.txt");
}

#[test]
fn normalize_brace_at_the_start_and_empty_side() {
    assert_eq!(normalize_numstat_path("{a => b}/x.rs"), "b/x.rs");
    assert_eq!(normalize_numstat_path("lib/{ => sub}/x.rs"), "lib/sub/x.rs");
}

#[test]
fn normalize_leaves_plain_paths_alone() {
    assert_eq!(normalize_numstat_path("src/main.rs"), "src/main.rs");
    assert_eq!(normalize_numstat_path("weird{name}.rs"), "weird{name}.rs");
    assert_eq!(normalize_numstat_path(""), "");
}

#[test]
fn combined_output_gives_status_and_counts_per_path() {
    let text = ":100644 100644 1111111 2222222 M\0src/a.rs\0\
:000000 100644 0000000 3333333 A\0new.txt\0\
:100644 100644 4444444 4444444 R100\0old.rs\0renamed.rs\0\
:100644 000000 5555555 0000000 D\0gone.rs\0\
:100644 100644 6666666 7777777 T\0link\0\
:100644 100644 8888888 9999999 C075\0base.rs\0copy.rs\0\
:100644 100644 8888888 9999999 X\0odd.rs\0\
3\t1\tsrc/a.rs\0\
10\t0\tnew.txt\0\
2\t2\t\0old.rs\0renamed.rs\0\
0\t7\tgone.rs\0\
-\t-\tlink\0";
    let files = parse_diff_status_and_stats(text);
    assert_eq!(
        summary(&files),
        vec![
            ("src/a.rs".to_string(), FileStatus::Modified, 3, 1),
            ("new.txt".to_string(), FileStatus::Added, 10, 0),
            ("renamed.rs".to_string(), FileStatus::Renamed, 2, 2),
            ("gone.rs".to_string(), FileStatus::Deleted, 0, 7),
            ("link".to_string(), FileStatus::Modified, 0, 0),
            ("copy.rs".to_string(), FileStatus::Added, 0, 0),
            ("odd.rs".to_string(), FileStatus::Unknown, 0, 0),
        ]
    );
}

#[test]
fn stats_with_an_arrow_path_go_to_the_new_path() {
    let text = ":100644 100644 1 2 R090\0dir/old.rs\0dir/new.rs\0\
4\t3\tdir/{old.rs => new.rs}\0";
    let files = parse_diff_status_and_stats(text);
    assert_eq!(summary(&files), vec![("dir/new.rs".to_string(), FileStatus::Renamed, 4, 3)]);
}

#[test]
fn empty_output_gives_no_entries() {
    assert!(parse_diff_status_and_stats("").is_empty());
}

#[test]
fn records_are_read_in_order() {
    let recs = parse_diff_records(":1 2 3 4 M\0a.rs\05\t6\ta.rs\0");
    assert_eq!(recs.len(), 2);
    assert!(matches!(&recs[0], DiffRecord::Status { path, status: FileStatus::Modified } if path == "a.rs"));
    assert!(matches!(&recs[1], DiffRecord::Stats { path, additions: 5, deletions: 6 } if path == "a.rs"));
    let files = entries_from_records(&recs);
    assert_eq!(summary(&files), vec![("a.rs".to_string(), FileStatus::Modified, 5, 6)]);
}

#[test]
fn later_records_override_earlier_ones() {
    let recs = vec![
        DiffRecord::Status { path: "x".to_string(), status: FileStatus::Added },
        DiffRecord::Stats { path: "x".to_string(), additions: 1, deletions: 1 },
        DiffRecord::Status { path: "y".to_string(), status: FileStatus::Deleted },
        DiffRecord::Status { path: "x".to_string(), status: FileStatus::Modified },
        DiffRecord::Stats { path: "x".to_string(), additions: 9, deletions: 8 },
        DiffRecord::Stats { path: "z".to_string(), additions: 1, deletions: 1 },
    ];
    let files = entries_from_records(&recs);
    assert_eq!(
        summary(&files),
        vec![
            ("x".to_string(), FileStatus::Modified, 9, 8),
            ("y".to_string(), FileStatus::Deleted, 0, 0),
        ]
    );
}

#[test]
fn integers_are_read_like_the_standard_parser() {
    assert_eq!(parse_i32("0"), Some(0));
    assert_eq!(parse_i32("42"), Some(42));
    assert_eq!(parse_i32("+7"), Some(7));
    assert_eq!(parse_i32("-12"), Some(-12));
    assert_eq!(parse_i32("2147483647"), Some(i32::MAX));
    assert_eq!(parse_i32("-2147483648"), Some(i32::MIN));
    assert_eq!(parse_i32("2147483648"), None);
    assert_eq!(parse_i32("99999999999999999999"), None);
    assert_eq!(parse_i32("-"), None);
    assert_eq!(parse_i32(""), None);
    assert_eq!(parse_i32("1x"), None);
    for s in ["0", "17", "-3", "+5", "2147483647", "-2147483648", "2147483648", "-", "", "a", "1 "] {
        assert_eq!(parse_i32(s), s.parse::<i32>().ok());
    }
}

#[test]
fn untracked_binary_file_counts_no_lines() {
    let e = untracked_entry("image.png".to_string(), Some(vec![0x89, b'P', b'N', b'G', 0, 1, 2, b'\n']));
    assert_eq!(e.path, "image.png");
    assert_eq!(e.status, FileStatus::Added);
    assert_eq!(e.additions, 0);
    assert_eq!(e.deletions, 0);
}

#[test]
fn untracked_text_file_counts_its_lines() {
    let e = untracked_entry("notes.txt".to_string(), Some(b"one\ntwo\nthree".to_vec()));
    assert_eq!((e.status, e.additions, e.deletions), (FileStatus::Added, 3, 0));
    let e = untracked_entry("notes.txt".to_string(), Some(b"one\ntwo\n".to_vec()));
    assert_eq!(e.additions, 2);
    let e = untracked_entry("missing.txt".to_string(), None);
    assert_eq!((e.status, e.additions, e.deletions), (FileStatus::Added, 0, 0));
}

#[test]
fn line_counts_of_edge_contents() {
    assert_eq!(count_lines(b""), 0);
    assert_eq!(count_lines(b"\n"), 1);
    assert_eq!(count_lines(b"x"), 1);
    assert_eq!(count_lines(b"\n\n\n"), 3);
    let mut late_nul = vec![b'a'; 9000];
    late_nul.push(0);
    assert!(!is_binary(&late_nul));
    assert_eq!(count_lines(&late_nul), 1);
    let mut early_nul = vec![b'a'; 8191];
    early_nul.push(0);
    assert!(is_binary(&early_nul));
    assert_eq!(count_lines(&early_nul), 0);
}

#[test]
fn sources_are_merged_in_priority_order() {
    let work = vec![entry("a.rs", FileStatus::Modified, 1, 1), entry("b.rs", FileStatus::Added, 2, 0)];
    let index = vec![
        entry("b.rs", FileStatus::Modified, 9, 9),
        entry("staged.rs", FileStatus::Added, 4, 0),
        entry("staged.rs", FileStatus::Modified, 5, 5),
    ];
    let untracked = vec![
        entry("", FileStatus::Added, 0, 0),
        entry("a.rs", FileStatus::Added, 7, 0),
        entry("fresh.txt", FileStatus::Added, 3, 0),
    ];
    let merged = merge_changed_files(work, index, untracked);
    assert_eq!(
        summary(&merged),
        vec![
            ("a.rs".to_string(), FileStatus::Modified, 1, 1),
            ("b.rs".to_string(), FileStatus::Added, 2, 0),
            ("staged.rs".to_string(), FileStatus::Added, 4, 0),
            ("fresh.txt".to_string(), FileStatus::Added, 3, 0),
        ]
    );
}

#[test]
fn numbers_are_written_in_decimal() {
    assert_eq!(decimal_string(0), "0");
    assert_eq!(decimal_string(7), "7");
    assert_eq!(decimal_string(10), "10");
    assert_eq!(decimal_string(1234567890), "1234567890");
    assert_eq!(decimal_string(usize::MAX), usize::MAX.to_string());
}

#[test]
fn patch_of_a_new_text_file_adds_every_line() {
    let lines = vec!["fn main() {}".to_string(), "".to_string()];
    let patch = new_file_diff("src/new.rs", b"fn main() {}\n\n", &lines, "14 bytes");
    assert_eq!(
        patch,
        vec![
            "diff --git a/src/new.rs b/src/new.rs",
            "new file mode 100644",
            "--- /dev/null",
            "+++ b/src/new.rs",
            "@@ -0,0 +1,2 @@",
            "+fn main() {}",
            "+",
        ]
    );
}

#[test]
fn patch_of_an_empty_or_binary_new_file() {
    let empty = new_file_diff("e.txt", b"", &vec![], "0 bytes");
    assert_eq!(empty.len(), 5);
    assert_eq!(empty[4], "@@ -0,0 +0,0 @@");
    let binary = new_file_diff("b.bin", &[1, 0, 2], &vec!["x".to_string()], "3 bytes");
    assert_eq!(binary.len(), 5);
    assert_eq!(binary[4], "Binary file b.bin (3 bytes)");
}
