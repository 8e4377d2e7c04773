use sidex_workspace::entries::{
    entry_before, entry_kind, is_binary_content, name_le, seconds_or_zero, sort_entries, DirEntry,
    FileStat,
};
use sidex_workspace::ops::{create_dir, deletion_op, mkdir, removal_op, RemovalOp};
use sidex_workspace::plan::PlanStep;

fn entry(name: &str, is_dir: bool) -> DirEntry {
    DirEntry::from_parts(
        name.to_string(),
        format!("/tmp/x/{name}"),
        false,
        is_dir,
        !is_dir,
        None,
        1,
        Some(5),
    )
}

#[test]
fn stat_of_regular_file() {
    // A freshly created regular file.
    let s = FileStat::from_parts(0, Some(10), Some(9), false, false, true, None, false);
    assert!(s.is_file);
    assert!(!s.is_dir);
}

#[test]
fn mkdir_non_recursive() {
    assert!(matches!(mkdir("/t/single", false), PlanStep::CreateDir(p) if p == "/t/single"));
}

#[test]
fn mkdir_recursive() {
    assert!(matches!(mkdir("/t/a/b/c", true), PlanStep::CreateDirAll(p) if p == "/t/a/b/c"));
    assert!(matches!(create_dir("/t/a/b/c"), PlanStep::CreateDirAll(p) if p == "/t/a/b/c"));
}

#[test]
fn read_dir_sorted() {
    let entries = vec![entry("afile.txt", false), entry("zdir", true), entry("bfile.txt", false)];
    let entries = sort_entries(entries);
    assert!(entries[0].is_dir, "directories come first");
    assert_eq!(entries[0].name, "zdir");
}

#[test]
fn deleting_a_file_unlinks_it() {
    // Deleting a regular file unlinks it.
    assert_eq!(deletion_op(false), RemovalOp::RemoveFile);
}

#[test]
fn remove_with_flags() {
    assert_eq!(removal_op(false, false, false), RemovalOp::RemoveFile);
    assert_eq!(removal_op(false, true, true), RemovalOp::RemoveDirAll);
}

#[test]
fn symlinked_dir_reports_dir_and_unlinks_without_following() {
    // A link to a directory stats as a directory and as a link.
    let s = FileStat::from_parts(7, None, None, true, false, false, Some((true, false)), false);
    assert!(s.is_dir, "linked directory stats as a directory");
    assert!(s.is_symlink);

    let e = DirEntry::from_parts(
        "link".to_string(),
        "/t/link".to_string(),
        true,
        false,
        false,
        Some((true, false)),
        7,
        None,
    );
    assert!(e.is_dir && e.is_symlink);

    // Removing the link unlinks it, even with `recursive`.
    assert_eq!(removal_op(true, false, true), RemovalOp::RemoveFile);

    // Broken link: listed as neither directory nor file, still removable.
    let broken = DirEntry::from_parts(
        "link".to_string(),
        "/t/link".to_string(),
        true,
        false,
        false,
        None,
        7,
        None,
    );
    assert!(!broken.is_dir && !broken.is_file && broken.is_symlink);
    assert_eq!(removal_op(true, false, true), RemovalOp::RemoveFile);
}

#[test]
fn binary_detection() {
    assert!(!is_binary_content(b"hello world"));
    assert!(is_binary_content(&[0x00, 0xFF, 0x00]));
}

#[test]
fn empty_content_is_text() {
    assert!(!is_binary_content(&[]));
}

#[test]
fn nul_at_end_is_binary() {
    assert!(is_binary_content(b"abc\0"));
}

#[test]
fn only_first_8_kib_is_examined() {
    let mut late = vec![b'a'; 8192];
    late.push(0);
    assert!(!is_binary_content(&late));
    let mut last_examined = vec![b'a'; 8191];
    last_examined.push(0);
    last_examined.push(b'a');
    assert!(is_binary_content(&last_examined));
}

#[test]
fn entry_kind_of_plain_entries() {
    assert_eq!(entry_kind(false, true, false, Some((false, true))), (true, false));
    assert_eq!(entry_kind(false, false, true, None), (false, true));
    assert_eq!(entry_kind(true, false, false, Some((false, true))), (false, true));
    assert_eq!(entry_kind(true, false, false, None), (false, false));
}

#[test]
fn times_default_to_zero() {
    assert_eq!(seconds_or_zero(None), 0);
    assert_eq!(seconds_or_zero(Some(1_700_000_000)), 1_700_000_000);
    let e = entry("a", false);
    assert_eq!(e.modified, 5);
    let s = FileStat::from_parts(3, None, Some(4), false, true, false, None, true);
    assert_eq!((s.size, s.modified, s.created, s.readonly), (3, 0, 4, true));
}

#[test]
fn names_compare_ignoring_ascii_case() {
    assert!(name_le("Apple", "banana"));
    assert!(!name_le("banana", "Apple"));
    assert!(name_le("abc", "ABC") && name_le("ABC", "abc"));
    assert!(name_le("ab", "abc"));
    assert!(!name_le("abc", "ab"));
    assert!(name_le("", ""));
    // Non-ASCII letters are not folded: 'É' (U+00C9) sorts after 'z'.
    assert!(name_le("zeta", "Épée"));
}

#[test]
fn listing_order_puts_directories_first() {
    assert!(entry_before(&entry("zzz", true), &entry("aaa", false)));
    assert!(!entry_before(&entry("aaa", false), &entry("zzz", true)));
}

#[test]
fn sort_orders_mixed_listing() {
    let entries = vec![
        entry("b.txt", false),
        entry("Src", true),
        entry("a.txt", false),
        entry("docs", true),
        entry("C.md", false),
    ];
    let sorted = sort_entries(entries);
    let names: Vec<&str> = sorted.iter().map(|e| e.name.as_str()).collect();
    assert_eq!(names, vec!["docs", "Src", "a.txt", "b.txt", "C.md"]);
}

#[test]
fn sort_keeps_every_entry() {
    let sorted = sort_entries(vec![entry("x", false), entry("X", false), entry("x", false)]);
    assert_eq!(sorted.len(), 3);
    assert!(sorted.iter().all(|e| e.name == "x" || e.name == "X"));
    assert_eq!(sorted.iter().filter(|e| e.name == "X").count(), 1);
    assert!(sort_entries(Vec::new()).is_empty());
}

#[test]
fn delete_matches_recursive_remove() {
    assert_eq!(deletion_op(true), removal_op(false, true, true));
    assert_eq!(deletion_op(false), removal_op(false, false, true));
    assert_eq!(deletion_op(false), removal_op(true, false, true));
}

#[test]
fn non_recursive_remove_of_directory() {
    assert_eq!(removal_op(false, true, false), RemovalOp::RemoveDir);
}
