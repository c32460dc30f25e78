use zettel_web::walk::{format_path, walk_dir, Directory, EntryKind, TreeError, WalkEntry};

fn entry(path: &[&str], kind: EntryKind) -> WalkEntry {
    WalkEntry { path: path.iter().map(|s| s.to_string()).collect(), kind }
}

fn names(d: &Directory) -> (Vec<String>, Vec<String>) {
    (d.dirs.iter().map(|x| x.name.clone()).collect(), d.files.iter().map(|f| f.name.clone()).collect())
}

#[test]
fn tree_is_rebuilt_from_walk() {
    let walk = vec![
        entry(&[], EntryKind::Dir),
        entry(&["a"], EntryKind::Dir),
        entry(&["a", "b"], EntryKind::Dir),
        entry(&["a", "b", "file1"], EntryKind::File),
        entry(&["a", "file2"], EntryKind::File),
    ];
    let root = walk_dir(&walk).unwrap();
    assert_eq!(root.name, "/");
    assert!(root.path.is_empty());
    assert_eq!(names(&root), (vec!["a".to_string()], vec![]));
    let a = &root.dirs[0];
    assert_eq!(names(a), (vec!["b".to_string()], vec!["file2".to_string()]));
    assert_eq!(a.files[0].path, vec!["a".to_string(), "file2".to_string()]);
    let b = &a.dirs[0];
    assert_eq!(names(b), (vec![], vec!["file1".to_string()]));
    assert_eq!(b.path, vec!["a".to_string(), "b".to_string()]);
}

#[test]
fn lists_stay_sorted_and_apart() {
    let walk = vec![
        entry(&[], EntryKind::Dir),
        entry(&["alpha.md"], EntryKind::File),
        entry(&["beta"], EntryKind::Dir),
        entry(&["beta", "x.md"], EntryKind::File),
        entry(&["delta.md"], EntryKind::File),
        entry(&["gamma"], EntryKind::Dir),
        entry(&["link"], EntryKind::Other),
        entry(&["zeta.md"], EntryKind::File),
    ];
    let root = walk_dir(&walk).unwrap();
    let (dirs, files) = names(&root);
    assert_eq!(dirs, vec!["beta".to_string(), "gamma".to_string()]);
    assert_eq!(files, vec!["alpha.md".to_string(), "delta.md".to_string(), "zeta.md".to_string()]);
    let mut sorted_files = files.clone();
    sorted_files.sort();
    assert_eq!(files, sorted_files);
    assert!(root.dirs[1].files.is_empty());
}

#[test]
fn empty_walk_gives_empty_root() {
    let root = walk_dir(&vec![]).unwrap();
    assert_eq!(root.name, "/");
    assert!(root.dirs.is_empty() && root.files.is_empty());
}

#[test]
fn walk_that_skips_a_level_is_refused() {
    let walk = vec![entry(&[], EntryKind::Dir), entry(&["a", "b"], EntryKind::File)];
    assert_eq!(walk_dir(&walk).unwrap_err(), TreeError::OutOfOrder);
}

#[test]
fn deep_walk_unwinds_to_root() {
    let walk = vec![
        entry(&[], EntryKind::Dir),
        entry(&["a"], EntryKind::Dir),
        entry(&["a", "b"], EntryKind::Dir),
        entry(&["a", "b", "c"], EntryKind::Dir),
        entry(&["a", "b", "c", "deep"], EntryKind::File),
        entry(&["top"], EntryKind::File),
    ];
    let root = walk_dir(&walk).unwrap();
    assert_eq!(names(&root), (vec!["a".to_string()], vec!["top".to_string()]));
    assert_eq!(root.dirs[0].dirs[0].dirs[0].files[0].name, "deep");
}

#[test]
fn paths_are_written_as_text() {
    let p = vec!["a".to_string(), "b".to_string()];
    assert_eq!(format_path(&p, true, false), "a/b/");
    assert_eq!(format_path(&p, false, false), "a/b");
    assert_eq!(format_path(&p, false, true), "/a/b");
    assert_eq!(format_path(&vec![], true, false), "");
    assert_eq!(format_path(&vec![], true, true), "/");
}

#[test]
fn repeated_path_is_refused() {
    let walk = vec![entry(&[], EntryKind::Dir), entry(&["a"], EntryKind::Dir), entry(&["a"], EntryKind::File)];
    assert_eq!(walk_dir(&walk).unwrap_err(), TreeError::OutOfOrder);
}

#[test]
fn closed_directory_cannot_take_more_entries() {
    let walk = vec![
        entry(&[], EntryKind::Dir),
        entry(&["a"], EntryKind::Dir),
        entry(&["b"], EntryKind::File),
        entry(&["a", "late"], EntryKind::File),
    ];
    assert_eq!(walk_dir(&walk).unwrap_err(), TreeError::OutOfOrder);
}

#[test]
fn repeated_file_in_open_directory_is_kept() {
    let walk = vec![entry(&[], EntryKind::Dir), entry(&["f"], EntryKind::File), entry(&["f"], EntryKind::File)];
    let root = walk_dir(&walk).unwrap();
    assert_eq!(root.files.len(), 2);
}

#[test]
fn walk_below_a_nonempty_root_path() {
    let walk = vec![entry(&["base"], EntryKind::Dir), entry(&["base", "x"], EntryKind::File)];
    let root = walk_dir(&walk).unwrap();
    assert_eq!(root.path, vec!["base".to_string()]);
    assert_eq!(root.files[0].name, "x");
}

#[test]
fn lists_are_sorted_whatever_the_walk_order() {
    let walk = vec![
        entry(&[], EntryKind::Dir),
        entry(&["zeta.md"], EntryKind::File),
        entry(&["gamma"], EntryKind::Dir),
        entry(&["gamma", "b"], EntryKind::File),
        entry(&["gamma", "a"], EntryKind::File),
        entry(&["alpha.md"], EntryKind::File),
        entry(&["beta"], EntryKind::Dir),
        entry(&["delta.md"], EntryKind::File),
    ];
    let root = walk_dir(&walk).unwrap();
    let (dirs, files) = names(&root);
    assert_eq!(dirs, vec!["beta".to_string(), "gamma".to_string()]);
    assert_eq!(files, vec!["alpha.md".to_string(), "delta.md".to_string(), "zeta.md".to_string()]);
    assert_eq!(names(&root.dirs[1]).1, vec!["a".to_string(), "b".to_string()]);
}
