use qcloud::walk::{walk_dir, DirEntry, DirWalk, EntryKind};
use std::path::PathBuf;

fn run_on_disk(root: PathBuf) -> Vec<String> {
    let mut walk: DirWalk = walk_dir(root.to_string_lossy().into_owned(), root.is_dir());
    while let Some(dir) = walk.next_dir() {
        let mut entries = Vec::new();
        for item in PathBuf::from(&dir).read_dir().unwrap() {
            let entry = item.unwrap();
            let item_path = entry.path();
            // links to directories are not followed, so a link cycle cannot recur
            let file_type = entry.file_type().unwrap();
            let kind = if file_type.is_dir() {
                EntryKind::Dir
            } else if file_type.is_file() || (file_type.is_symlink() && item_path.is_file()) {
                EntryKind::File
            } else {
                EntryKind::Other
            };
            entries.push(DirEntry { path: item_path.to_string_lossy().into_owned(), kind });
        }
        walk.add_entries(entries);
    }
    walk.into_files()
}

#[test]
fn test_walk_dir() {
    let res = run_on_disk(PathBuf::from(".git"));
    println!("{:#?}", res);
    assert!(!res.is_empty());
}

#[test]
fn walk_of_plain_file_is_that_file() {
    let mut walk = walk_dir("notes/readme.md".to_string(), false);
    assert!(walk.is_done());
    assert_eq!(walk.next_dir(), None);
    assert_eq!(walk.into_files(), vec!["notes/readme.md".to_string()]);
}

fn file(p: &str) -> DirEntry {
    DirEntry { path: p.to_string(), kind: EntryKind::File }
}

fn dir(p: &str) -> DirEntry {
    DirEntry { path: p.to_string(), kind: EntryKind::Dir }
}

fn listing(d: &str) -> Vec<DirEntry> {
    match d {
        "root" => vec![file("root/a"), dir("root/x"), file("root/b"), dir("root/y")],
        "root/x" => vec![file("root/x/c"), dir("root/x/z")],
        "root/x/z" => vec![file("root/x/z/d"), file("root/x/z/e")],
        "root/y" => vec![file("root/y/f")],
        _ => panic!("unexpected directory {}", d),
    }
}

#[test]
fn walk_finds_every_file_of_a_known_tree() {
    let mut walk = walk_dir("root".to_string(), true);
    let mut listed = Vec::new();
    while let Some(d) = walk.next_dir() {
        listed.push(d.clone());
        walk.add_entries(listing(&d));
    }
    let mut files = walk.into_files();
    files.sort();
    assert_eq!(
        files,
        vec!["root/a", "root/b", "root/x/c", "root/x/z/d", "root/x/z/e", "root/y/f"]
    );
    listed.sort();
    assert_eq!(listed, vec!["root", "root/x", "root/x/z", "root/y"]);
}

#[test]
fn walk_of_empty_directory_finds_nothing() {
    let mut walk = walk_dir("empty".to_string(), true);
    assert_eq!(walk.next_dir(), Some("empty".to_string()));
    walk.add_entries(Vec::new());
    assert!(walk.is_done());
    assert!(walk.into_files().is_empty());
}

#[test]
fn walk_passes_over_entries_that_are_neither_file_nor_directory() {
    let mut walk = walk_dir("r".to_string(), true);
    assert_eq!(walk.next_dir(), Some("r".to_string()));
    walk.add_entries(vec![
        file("r/a"),
        DirEntry { path: "r/sock".to_string(), kind: EntryKind::Other },
        dir("r/s"),
    ]);
    assert_eq!(walk.next_dir(), Some("r/s".to_string()));
    walk.add_entries(vec![DirEntry { path: "r/s/link".to_string(), kind: EntryKind::Other }]);
    assert!(walk.is_done());
    assert_eq!(walk.into_files(), vec!["r/a".to_string()]);
}
