use dir_browser::listing::{
    list_file_names, list_folder_names, list_hidden_file_names, list_hidden_folder_names,
    list_names, name_is_hidden, DirEntryInfo, EntryKind,
};

fn entry(name: &str, kind: EntryKind) -> DirEntryInfo {
    DirEntryInfo { name: name.to_string(), kind }
}

/// The entries of the directory the listing tests read: two folders, two
/// hidden folders, two files and two hidden files, in the order a
/// directory may give them.
fn setup_test_dir() -> Vec<DirEntryInfo> {
    vec![
        entry("src", EntryKind::Folder),
        entry(".gitignore", EntryKind::File),
        entry("main.rs", EntryKind::File),
        entry(".git", EntryKind::Folder),
        entry("docs", EntryKind::Folder),
        entry(".env", EntryKind::File),
        entry("README.md", EntryKind::File),
        entry(".config", EntryKind::Folder),
    ]
}

#[test]
fn test_list_folder_names() {
    let dir = setup_test_dir();
    let result = list_folder_names(&dir);
    assert_eq!(result, vec!["docs", "src"]);
}

#[test]
fn test_list_file_names() {
    let dir = setup_test_dir();
    let result = list_file_names(&dir);
    assert_eq!(result, vec!["README.md", "main.rs"]);
}

#[test]
fn test_list_hidden_file_names() {
    let dir = setup_test_dir();
    let result = list_hidden_file_names(&dir);
    assert_eq!(result, vec![".env", ".gitignore"]);
}

#[test]
fn test_list_hidden_folder_names() {
    let dir = setup_test_dir();
    let result = list_hidden_folder_names(&dir);
    assert_eq!(result, vec![".config", ".git"]);
}

#[test]
fn other_entries_are_never_listed() {
    let dir = vec![
        entry("link", EntryKind::Other),
        entry(".hidden_link", EntryKind::Other),
        entry("a", EntryKind::File),
    ];
    assert_eq!(list_file_names(&dir), vec!["a"]);
    assert!(list_folder_names(&dir).is_empty());
    assert!(list_hidden_file_names(&dir).is_empty());
    assert!(list_hidden_folder_names(&dir).is_empty());
}

#[test]
fn empty_directory_lists_nothing() {
    let dir: Vec<DirEntryInfo> = Vec::new();
    assert!(list_folder_names(&dir).is_empty());
    assert!(list_file_names(&dir).is_empty());
}

#[test]
fn names_sort_by_code_point_with_prefix_first() {
    let dir = vec![
        entry("b", EntryKind::File),
        entry("ab", EntryKind::File),
        entry("a", EntryKind::File),
        entry("B", EntryKind::File),
        entry("é", EntryKind::File),
        entry("z", EntryKind::File),
        entry("_", EntryKind::File),
    ];
    assert_eq!(list_file_names(&dir), vec!["B", "_", "a", "ab", "b", "z", "é"]);
}

#[test]
fn duplicate_names_are_kept() {
    let dir = vec![entry("x", EntryKind::Folder), entry("x", EntryKind::Folder)];
    assert_eq!(list_folder_names(&dir), vec!["x", "x"]);
}

#[test]
fn hidden_and_visible_folders_together_are_all_folders() {
    let dir = setup_test_dir();
    let mut all = list_folder_names(&dir);
    all.extend(list_hidden_folder_names(&dir));
    all.sort();
    assert_eq!(all, vec![".config", ".git", "docs", "src"]);
    assert_eq!(list_names(&dir, EntryKind::Folder, true), vec![".config", ".git"]);
}

#[test]
fn hidden_means_leading_dot() {
    assert!(name_is_hidden(&".x".to_string()));
    assert!(name_is_hidden(&".".to_string()));
    assert!(!name_is_hidden(&"x.".to_string()));
    assert!(!name_is_hidden(&"".to_string()));
}

#[test]
fn four_listings_split_the_directory() {
    let dir = setup_test_dir();
    let mut all: Vec<String> = Vec::new();
    all.extend(list_file_names(&dir));
    all.extend(list_folder_names(&dir));
    all.extend(list_hidden_file_names(&dir));
    all.extend(list_hidden_folder_names(&dir));
    assert_eq!(all, vec!["README.md", "main.rs", "docs", "src", ".env", ".gitignore", ".config", ".git"]);
    let mut sorted = all.clone();
    sorted.sort();
    sorted.dedup();
    assert_eq!(sorted.len(), all.len());
}
