use dir_browser::args::{
    cli_mode, gather_listings, list_all_kinds, CliMode, Commands, DirArgs, ListingKind,
    Subcommands,
};
use dir_browser::listing::EntryKind;

fn args(list: &[&str]) -> Vec<String> {
    list.iter().map(|a| a.to_string()).collect()
}

#[test]
fn modes_of_calling() {
    assert_eq!(cli_mode(&args(&["app", "."])), CliMode::Gui);
    assert_eq!(cli_mode(&args(&["app"])), CliMode::ListAll);
    assert_eq!(cli_mode(&args(&[])), CliMode::ListAll);
    assert_eq!(cli_mode(&args(&["app", "files"])), CliMode::Command);
    assert_eq!(cli_mode(&args(&["app", "./"])), CliMode::Command);
    assert_eq!(cli_mode(&args(&["app", ".", "x"])), CliMode::Command);
}

#[test]
fn subcommands_name_their_listing_and_directory() {
    let cmd = Commands { cmd: Subcommands::HiddenFolders(DirArgs { path: Some("/tmp".to_string()) }) };
    assert_eq!(cmd.cmd.listing(), ListingKind { kind: EntryKind::Folder, hidden: true });
    assert_eq!(cmd.cmd.target(), "/tmp");
    let files = Subcommands::Files(DirArgs { path: None });
    assert_eq!(files.listing(), ListingKind { kind: EntryKind::File, hidden: false });
    assert_eq!(files.target(), ".");
    assert_eq!(Subcommands::Folders(DirArgs { path: None }).listing(), ListingKind {
        kind: EntryKind::Folder,
        hidden: false,
    });
    assert_eq!(Subcommands::HiddenFiles(DirArgs { path: None }).listing(), ListingKind {
        kind: EntryKind::File,
        hidden: true,
    });
}

#[test]
fn listing_everything_goes_files_first() {
    assert_eq!(list_all_kinds(), vec![
        ListingKind { kind: EntryKind::File, hidden: false },
        ListingKind { kind: EntryKind::Folder, hidden: false },
        ListingKind { kind: EntryKind::File, hidden: true },
        ListingKind { kind: EntryKind::Folder, hidden: true },
    ]);
}

#[test]
fn gathering_keeps_order_and_errors() {
    let results: Vec<Result<Vec<String>, String>> = vec![
        Ok(vec!["a".to_string(), "b".to_string()]),
        Err("denied".to_string()),
        Ok(vec![]),
        Ok(vec!["c".to_string()]),
        Err("gone".to_string()),
    ];
    let (items, errors) = gather_listings(results);
    assert_eq!(items, vec!["a", "b", "c"]);
    assert_eq!(errors, vec!["denied", "gone"]);
}
