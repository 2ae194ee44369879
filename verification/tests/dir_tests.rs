use snapshot::dir::{
    add_output_line_deleted, add_output_line_mod, add_output_line_new, add_root_dir,
    compare_files, compare_root_dirs, compare_snaps, search_match, DirEntryFiles,
};

#[test]
fn test_eq_operator() {
    let dir_new = DirEntryFiles::new();
    let dir = DirEntryFiles::Dir { name: String::from("dir"), files: Vec::new() };
    let dir2 = DirEntryFiles::Dir { name: String::from("dir2"), files: Vec::new() };
    let file = DirEntryFiles::File(String::from("File"), 1024);
    let file2 = DirEntryFiles::File(String::from("File2"), 1024);
    assert_eq!(dir_new, DirEntryFiles::Dir { name: String::default(), files: Vec::new() });
    assert_eq!(dir, dir2);
    assert_eq!(file, file2);
    assert_ne!(dir, file);
}

#[test]
fn test_add_file_and_dir() {
    let mut dir = DirEntryFiles::new_dir(String::from("Dir"));
    dir.add_file_to_dir((String::from("File"), 1024));
    dir.add_dir_to_dir(DirEntryFiles::new_dir(String::from("Dir2")));
    let mut dir_eq = DirEntryFiles::Dir { name: String::from("Dir"), files: Vec::new() };
    dir_eq.add_file_to_dir((String::from("File"), 1024));
    dir_eq.add_dir_to_dir(DirEntryFiles::new_dir(String::from("Dir2")));
    assert_eq!(dir, dir_eq);
}

#[test]
fn test_compare_root() {
    let dir1 = DirEntryFiles::new_dir(String::from("Dir"));
    let dir2 = DirEntryFiles::new_dir(String::from("Dir"));
    let dir3 = DirEntryFiles::new_dir(String::from("Dir3"));
    assert!(compare_root_dirs((&dir1, &dir2)) == true);
    assert!(compare_root_dirs((&dir1, &dir3)) == false);
}

#[test]
fn test_compare_files() {
    let dir1 = DirEntryFiles::new_dir(String::from("dir1"));
    let dir2 = DirEntryFiles::new_dir(String::from("dir1"));
    let dir3 = DirEntryFiles::new_dir(String::from("dir3"));
    let file1 = DirEntryFiles::new_file(String::from("file1"), 1024);
    let file2 = DirEntryFiles::new_file(String::from("file1"), 1024);
    let file3 = DirEntryFiles::new_file(String::from("file3"), 1024);
    assert_eq!(true, compare_files(&dir1, &dir2));
    assert_eq!(false, compare_files(&dir1, &dir3));
    assert_eq!(true, compare_files(&file1, &file2));
    assert_eq!(false, compare_files(&file1, &file3));
}

#[test]
fn test_search_match() {
    let files_list = vec![DirEntryFiles::new_file(String::from("File1"), 1024)];
    let file = DirEntryFiles::new_file(String::from("File1"), 1024);
    let file2 = DirEntryFiles::new_file(String::from("File2"), 1024);
    assert_eq!(Some(&file), search_match(&files_list, &file));
    assert_eq!(None, search_match(&files_list, &file2));
}

fn file(name: &str, size: u64) -> DirEntryFiles {
    DirEntryFiles::new_file(String::from(name), size)
}

fn dir(name: &str, entries: Vec<DirEntryFiles>) -> DirEntryFiles {
    let mut d = DirEntryFiles::new_dir(String::from(name));
    for e in entries {
        d.add_dir_to_dir(e);
    }
    d
}

#[test]
fn compare_files_ignores_size_and_kind_matters() {
    assert!(compare_files(&file("a", 1), &file("a", 2)));
    assert!(!compare_files(&file("a", 1), &dir("a", vec![])));
    assert!(!compare_files(&dir("a", vec![]), &file("a", 1)));
}

#[test]
fn compare_root_of_files_is_false() {
    assert!(!compare_root_dirs((&file("a", 1), &file("a", 1))));
    assert!(!compare_root_dirs((&dir("a", vec![]), &file("a", 1))));
}

#[test]
fn search_match_returns_first_of_kind_and_name() {
    let list = vec![file("x", 1), dir("a", vec![file("inner", 3)]), file("a", 7), file("a", 9)];
    let found = search_match(&list, &file("a", 0)).unwrap();
    match found {
        DirEntryFiles::File(name, size) => {
            assert_eq!(name, "a");
            assert_eq!(*size, 7);
        }
        _ => panic!("expected a file"),
    }
    let found_dir = search_match(&list, &dir("a", vec![])).unwrap();
    assert!(matches!(found_dir, DirEntryFiles::Dir { .. }));
    assert!(search_match(&Vec::new(), &file("a", 0)).is_none());
}

#[test]
fn add_file_to_a_file_changes_nothing() {
    let mut f = file("f", 5);
    f.add_file_to_dir((String::from("g"), 1));
    f.add_dir_to_dir(dir("d", vec![]));
    match f {
        DirEntryFiles::File(name, size) => {
            assert_eq!(name, "f");
            assert_eq!(size, 5);
        }
        _ => panic!("expected a file"),
    }
}

#[test]
fn add_entries_keeps_order() {
    let mut d = dir("root", vec![]);
    d.add_file_to_dir((String::from("one"), 1));
    d.add_dir_to_dir(dir("two", vec![]));
    d.add_file_to_dir((String::from("three"), 3));
    match d {
        DirEntryFiles::Dir { name, files } => {
            assert_eq!(name, "root");
            assert_eq!(files.len(), 3);
            assert!(matches!(&files[0], DirEntryFiles::File(n, 1) if n == "one"));
            assert!(matches!(&files[1], DirEntryFiles::Dir { name, .. } if name == "two"));
            assert!(matches!(&files[2], DirEntryFiles::File(n, 3) if n == "three"));
        }
        _ => panic!("expected a directory"),
    }
}

#[test]
fn output_line_mod_same_size() {
    let mut out = String::from("start\n");
    add_output_line_mod(&mut out, (2, 3), (&file("a.txt", 1024), &file("a.txt", 1024)));
    assert_eq!(out, "start\n  ---a.txt 1024 Bytes\n");
}

#[test]
fn output_line_mod_changed_size() {
    let mut out = String::new();
    add_output_line_mod(&mut out, (0, 1), (&file("a", 0), &file("a", 18446744073709551615)));
    assert_eq!(out, "-a 0 Bytes -> 18446744073709551615 Bytes\n");
}

#[test]
fn output_line_mod_file_against_dir() {
    let mut out = String::new();
    add_output_line_mod(&mut out, (1, 0), (&file("a", 10), &dir("a", vec![])));
    assert_eq!(out, " a \n");
}

#[test]
fn output_line_mod_dir() {
    let mut out = String::new();
    add_output_line_mod(&mut out, (3, 2), (&dir("d", vec![]), &dir("d", vec![])));
    assert_eq!(out, "   |--d\n");
}

#[test]
fn output_line_new_and_deleted() {
    let mut out = String::new();
    add_output_line_new(&mut out, (1, 2), &dir("d", vec![]));
    add_output_line_new(&mut out, (1, 2), &file("f", 3));
    add_output_line_deleted(&mut out, (0, 0), &dir("d", vec![]));
    add_output_line_deleted(&mut out, (2, 1), &file("f", 3));
    assert_eq!(out, " |--d new\n --f new\n|d deleted\n  -f deleted\n");
}

#[test]
fn root_dir_line() {
    let mut out = String::new();
    add_root_dir(&mut out, &dir("home", vec![]));
    add_root_dir(&mut out, &file("file", 1));
    assert_eq!(out, "home\n");
}

#[test]
fn compare_snaps_reports_changes_and_deletions() {
    let old = dir(
        "root",
        vec![
            file("same", 5),
            file("grown", 10),
            file("gone", 1),
            dir("sub", vec![file("inner", 2), dir("deep", vec![])]),
            dir("removed", vec![file("lost", 4), dir("lostdir", vec![file("x", 1)])]),
        ],
    );
    let new = dir(
        "root",
        vec![file("grown", 20), file("same", 5), dir("sub", vec![file("inner", 3)]), file("added", 1)],
    );
    let mut out = String::new();
    compare_snaps((&old, &new), (0, 0), &mut out);
    let expected = [
        "same 5 Bytes",
        "grown 10 Bytes -> 20 Bytes",
        "gone deleted",
        "|sub",
        "   ---inner 2 Bytes -> 3 Bytes",
        "   |---deep deleted",
        "|removed deleted",
        "   ---lost deleted",
        "   |---lostdir deleted",
        "      ------x deleted",
        "",
    ]
    .join("\n");
    assert_eq!(out, expected);
}

#[test]
fn compare_snaps_with_itself_has_no_deletion() {
    let snap = dir("root", vec![file("a", 1), dir("b", vec![file("c", 2)])]);
    let mut out = String::new();
    compare_snaps((&snap, &snap), (1, 1), &mut out);
    assert_eq!(out, " -a 1 Bytes\n |-b\n    ----c 2 Bytes\n");
    assert!(!out.contains("deleted"));
    assert!(!out.contains("->"));
}

#[test]
fn compare_snaps_with_empty_deletes_everything() {
    let snap = dir("root", vec![file("a", 1), dir("b", vec![file("c", 2)])]);
    let mut out = String::new();
    compare_snaps((&snap, &DirEntryFiles::new()), (0, 0), &mut out);
    assert_eq!(out, "a deleted\n|b deleted\n   ---c deleted\n");
    assert_eq!(out.lines().count(), 3);
}

#[test]
fn compare_snaps_of_a_file_reports_nothing() {
    let mut out = String::from("x");
    compare_snaps((&file("a", 1), &file("a", 2)), (0, 0), &mut out);
    assert_eq!(out, "x");
}

#[test]
fn debug_files_lists_the_tree() {
    let snap = dir("root", vec![file("a", 1), dir("b", vec![file("c", 22)])]);
    let mut out = String::new();
    snap.debug_files(0, 1, &mut out);
    assert_eq!(out, "|-root\n |----a 1\n |----b\n     |-------c 22\n");
}

#[test]
fn compare_root_is_symmetric() {
    let a = dir("Dir", vec![]);
    let b = dir("Dir", vec![file("x", 1)]);
    let c = dir("Other", vec![]);
    assert_eq!(compare_root_dirs((&a, &b)), compare_root_dirs((&b, &a)));
    assert_eq!(compare_root_dirs((&a, &c)), compare_root_dirs((&c, &a)));
    assert!(compare_root_dirs((&a, &b)));
}

#[test]
fn compare_snaps_has_one_line_per_entry() {
    let old = dir("r", vec![dir("a", vec![file("b", 1), dir("c", vec![file("d", 2)])]), file("e", 3)]);
    let new = dir("r", vec![file("e", 4), dir("a", vec![])]);
    let mut out = String::new();
    compare_snaps((&old, &new), (0, 2), &mut out);
    assert_eq!(out.lines().count(), 5);
    assert_eq!(
        out,
        "|--a\n   -----b deleted\n   |-----c deleted\n      --------d deleted\n--e 3 Bytes -> 4 Bytes\n"
    );
}

#[test]
fn compare_snaps_with_itself_and_repeated_names() {
    // Two directories of the same name: the second is compared with the first.
    let snap = dir("r", vec![dir("x", vec![]), dir("x", vec![file("f", 1)])]);
    let mut out = String::new();
    compare_snaps((&snap, &snap), (0, 0), &mut out);
    assert_eq!(out, "|x\n|x\n   ---f deleted\n");
}

#[test]
fn debug_files_prints_sizes_in_decimal() {
    let snap = dir("r", vec![file("zero", 0), file("big", 1234567890)]);
    let mut out = String::new();
    snap.debug_files(2, 0, &mut out);
    assert_eq!(out, "  |r\n  |---zero 0\n  |---big 1234567890\n");
}

#[test]
fn clone_copies_the_whole_tree() {
    let snap = dir("r", vec![file("a", 1), dir("b", vec![file("c", 22), dir("d", vec![])])]);
    let copy = snap.clone();
    let mut original_listing = String::new();
    snap.debug_files(0, 1, &mut original_listing);
    let mut copy_listing = String::new();
    copy.debug_files(0, 1, &mut copy_listing);
    assert_eq!(original_listing, copy_listing);
    let mut out = String::new();
    compare_snaps((&snap, &copy), (0, 0), &mut out);
    assert!(!out.contains("deleted"));
    assert!(!out.contains("->"));
}
