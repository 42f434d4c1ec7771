use dir_browser::listing::{list_file_names, list_folder_names, DirEntryInfo, EntryKind};
use dir_browser::browser::{
    build_tree_rows, make_rows, push_visible_children, refresh_sidebar, refresh_tree, render_ui,
    run_search, user_home_dir, UiAction, UiEvent, UiState,
};
use dir_browser::text::{chars_contain, push_decimal, to_lowercase, trim};
use dir_browser::tree::{
    apply_tab_filter, collect_search_matches, join_path, FolderEntry, FsTree, PathSet,
    VisibleNode,
};

fn s(x: &str) -> String {
    x.to_string()
}

fn folder(name: &str, contents: Option<FsTree>) -> FolderEntry {
    FolderEntry { name: s(name), contents: contents.map(Box::new) }
}

fn dir(folders: Vec<FolderEntry>, files: &[&str]) -> FsTree {
    FsTree { folders, files: files.iter().map(|f| s(f)).collect() }
}

/// /h/docs holds folders "a" (holding "inner.txt") and "b" (empty), and the
/// files "notes.txt" and "README.md".
fn docs_tree() -> FsTree {
    dir(
        vec![
            folder("a", Some(dir(vec![], &["inner.txt"]))),
            folder("b", Some(dir(vec![], &[]))),
        ],
        &["README.md", "notes.txt"],
    )
}

fn summary(nodes: &[VisibleNode]) -> Vec<(String, String, i32, bool)> {
    nodes.iter().map(|n| (n.path.clone(), n.name.clone(), n.level, n.is_folder)).collect()
}

fn state_at(root: &str) -> UiState {
    let mut st = UiState::new(s("/h"));
    st.current_root = s(root);
    st
}

#[test]
fn new_state_starts_at_home() {
    let st = UiState::new(s("/home/u"));
    assert_eq!(st.home_dir, "/home/u");
    assert_eq!(st.current_root, "/home/u");
    assert!(st.sidebar_paths.is_empty());
    assert!(st.visible_nodes.is_empty());
    assert_eq!(st.selected_sidebar, None);
    assert_eq!(st.selected_tree, None);
    assert_eq!(st.active_tab, 0);
    assert!(!st.expanded_paths.contains(&s("/home/u")));
}

#[test]
fn home_dir_defaults_to_root() {
    assert_eq!(user_home_dir(Some(s("/home/u"))), "/home/u");
    assert_eq!(user_home_dir(None), "/");
}

#[test]
fn join_path_inserts_one_separator() {
    assert_eq!(join_path(&s("/h"), &s("x")), "/h/x");
    assert_eq!(join_path(&s("/"), &s("x")), "/x");
    assert_eq!(join_path(&s("/h/"), &s("x")), "/h/x");
    assert_eq!(join_path(&s(""), &s("x")), "x");
    assert_eq!(join_path(&s("."), &s("x")), "./x");
}

#[test]
fn collapsed_tree_is_flat() {
    let st = state_at("/h/docs");
    let mut out = Vec::new();
    push_visible_children(&st, &docs_tree(), &s("/h/docs"), 0, &mut out);
    assert_eq!(
        summary(&out),
        vec![
            (s("/h/docs/a"), s("a"), 0, true),
            (s("/h/docs/b"), s("b"), 0, true),
            (s("/h/docs/README.md"), s("README.md"), 0, false),
            (s("/h/docs/notes.txt"), s("notes.txt"), 0, false),
        ]
    );
}

#[test]
fn expanded_folder_opens_in_place() {
    let mut st = state_at("/h/docs");
    st.expanded_paths.toggle(s("/h/docs/a"));
    let mut out = Vec::new();
    push_visible_children(&st, &docs_tree(), &s("/h/docs"), 3, &mut out);
    assert_eq!(
        summary(&out),
        vec![
            (s("/h/docs/a"), s("a"), 3, true),
            (s("/h/docs/a/inner.txt"), s("inner.txt"), 4, false),
            (s("/h/docs/b"), s("b"), 3, true),
            (s("/h/docs/README.md"), s("README.md"), 3, false),
            (s("/h/docs/notes.txt"), s("notes.txt"), 3, false),
        ]
    );
}

#[test]
fn expanded_unreadable_folder_shows_nothing_below() {
    let mut st = state_at("/r");
    st.expanded_paths.toggle(s("/r/x"));
    let tree = dir(vec![folder("x", Some(dir(vec![], &[])))], &[]);
    let mut out = Vec::new();
    push_visible_children(&st, &tree, &s("/r"), 0, &mut out);
    assert_eq!(summary(&out), vec![(s("/r/x"), s("x"), 0, true)]);
}

#[test]
fn push_visible_children_appends() {
    let st = state_at("/r");
    let mut out = vec![VisibleNode { path: s("/p"), name: s("p"), level: 9, is_folder: false }];
    push_visible_children(&st, &dir(vec![], &["f"]), &s("/r"), 0, &mut out);
    assert_eq!(summary(&out), vec![(s("/p"), s("p"), 9, false), (s("/r/f"), s("f"), 0, false)]);
}

#[test]
fn tab_filter_selects_kinds() {
    let st = state_at("/h/docs");
    let mut out = Vec::new();
    push_visible_children(&st, &docs_tree(), &s("/h/docs"), 0, &mut out);
    let folders = apply_tab_filter(&out, 1);
    let files = apply_tab_filter(&out, 2);
    let all = apply_tab_filter(&out, 0);
    let other = apply_tab_filter(&out, 7);
    assert_eq!(folders.iter().map(|n| n.name.clone()).collect::<Vec<_>>(), vec!["a", "b"]);
    assert_eq!(files.iter().map(|n| n.name.clone()).collect::<Vec<_>>(), vec!["README.md", "notes.txt"]);
    assert_eq!(summary(&all), summary(&out));
    assert_eq!(summary(&other), summary(&out));
    assert_eq!(summary(&apply_tab_filter(&folders, 1)), summary(&folders));
    assert_eq!(folders.len() + files.len(), out.len());
}

#[test]
fn search_is_case_insensitive_and_descends_everywhere() {
    let tree = dir(
        vec![folder(
            "Readers",
            Some(dir(vec![folder("deep", Some(dir(vec![], &["ReadMe.txt"])))], &["other"])),
        )],
        &["README.md", "x"],
    );
    let mut out = Vec::new();
    let q: Vec<char> = "read".chars().collect();
    collect_search_matches(&tree, &s("/"), &q, 0, &mut out);
    assert_eq!(
        summary(&out),
        vec![
            (s("/Readers"), s("Readers"), 0, true),
            (s("/Readers/deep/ReadMe.txt"), s("ReadMe.txt"), 2, false),
            (s("/README.md"), s("README.md"), 0, false),
        ]
    );
}

#[test]
fn lowercase_and_contains() {
    assert_eq!(to_lowercase("ÄbC"), "äbc");
    let hay: Vec<char> = "hello".chars().collect();
    let yes: Vec<char> = "ll".chars().collect();
    let no: Vec<char> = "lo!".chars().collect();
    let empty: Vec<char> = Vec::new();
    assert!(chars_contain(&hay, &yes));
    assert!(!chars_contain(&hay, &no));
    assert!(chars_contain(&hay, &empty));
    assert!(!chars_contain(&empty, &yes));
}

#[test]
fn trim_removes_surrounding_whitespace() {
    assert_eq!(trim("  a b \t\n"), "a b");
    assert_eq!(trim("\u{3000}x\u{a0}"), "x");
    assert_eq!(trim("   "), "");
    assert_eq!(trim(""), "");
}

#[test]
fn decimal_numbers() {
    let mut out = s("n=");
    push_decimal(&mut out, 0);
    assert_eq!(out, "n=0");
    let mut out = String::new();
    push_decimal(&mut out, 1203);
    assert_eq!(out, "1203");
}

#[test]
fn sidebar_selects_first_folder_once() {
    let mut st = UiState::new(s("/h"));
    let rows = refresh_sidebar(&mut st, &vec![s("docs"), s("music")]);
    assert_eq!(st.sidebar_paths, vec!["/h/docs", "/h/music"]);
    assert_eq!(st.selected_sidebar, Some(0));
    assert_eq!(st.current_root, "/h/docs");
    assert_eq!(rows.iter().map(|r| (r.name.clone(), r.selected)).collect::<Vec<_>>(), vec![
        (s("docs"), true),
        (s("music"), false),
    ]);
    st.selected_sidebar = Some(1);
    st.current_root = s("/h/music");
    let rows = refresh_sidebar(&mut st, &vec![s("docs"), s("music")]);
    assert_eq!(st.current_root, "/h/music");
    assert_eq!(rows.iter().map(|r| r.selected).collect::<Vec<_>>(), vec![false, true]);
}

#[test]
fn empty_home_selects_nothing() {
    let mut st = UiState::new(s("/h"));
    let rows = refresh_sidebar(&mut st, &Vec::new());
    assert!(rows.is_empty());
    assert_eq!(st.selected_sidebar, None);
    assert_eq!(st.current_root, "/h");
}

#[test]
fn refresh_tree_shows_rows_and_status() {
    let mut st = state_at("/h/docs");
    st.expanded_paths.toggle(s("/h/docs/a"));
    st.selected_tree = Some(1);
    let view = refresh_tree(&mut st, &docs_tree());
    assert_eq!(view.status, "Root: /h/docs | 5 items");
    assert_eq!(view.rows.len(), 5);
    assert!(view.rows[0].expanded);
    assert!(!view.rows[2].expanded);
    assert!(!view.rows[1].expanded);
    assert_eq!(view.rows.iter().map(|r| r.selected).collect::<Vec<_>>(), vec![
        false, true, false, false, false,
    ]);
    assert_eq!(view.rows[1].path, "/h/docs/a/inner.txt");
    assert_eq!(view.rows[1].level, 1);
    assert_eq!(st.visible_nodes.len(), 5);
}

#[test]
fn refresh_tree_applies_the_tab() {
    let mut st = state_at("/h/docs");
    st.active_tab = 2;
    let view = refresh_tree(&mut st, &docs_tree());
    assert_eq!(view.status, "Root: /h/docs | 2 items");
    assert_eq!(view.rows.iter().map(|r| r.name.clone()).collect::<Vec<_>>(), vec![
        "README.md", "notes.txt",
    ]);
    assert_eq!(summary(&st.visible_nodes).len(), 2);
}

#[test]
fn build_tree_rows_keeps_every_kind() {
    let mut st = state_at("/h/docs");
    st.active_tab = 1;
    build_tree_rows(&mut st, &docs_tree());
    assert_eq!(st.visible_nodes.len(), 4);
}

#[test]
fn run_search_reports_matches() {
    let mut st = state_at("/h");
    let tree = dir(vec![folder("Notes", Some(dir(vec![], &["note.md"])))], &["x"]);
    let view = run_search(&mut st, &s("NOTE"), &tree).unwrap();
    assert_eq!(view.status, "Search '/' for 'NOTE' -> 2 matches");
    assert_eq!(view.rows.iter().map(|r| r.path.clone()).collect::<Vec<_>>(), vec![
        "/Notes", "/Notes/note.md",
    ]);
    assert!(view.rows.iter().all(|r| !r.expanded && !r.selected));
    assert_eq!(st.visible_nodes.len(), 2);
}

#[test]
fn search_with_no_match() {
    let mut st = state_at("/h");
    let view = run_search(&mut st, &s("zzz"), &dir(vec![], &["a"])).unwrap();
    assert_eq!(view.status, "Search '/' for 'zzz' -> 0 matches");
    assert!(view.rows.is_empty());
}

#[test]
fn sidebar_click_changes_root_and_clears() {
    let mut st = UiState::new(s("/h"));
    refresh_sidebar(&mut st, &vec![s("docs"), s("music")]);
    st.expanded_paths.toggle(s("/h/docs/a"));
    st.selected_tree = Some(0);
    let action = render_ui(&mut st, UiEvent::SidebarFolderSelected(1));
    assert!(matches!(action, UiAction::RefreshSidebarAndTree));
    assert_eq!(st.selected_sidebar, Some(1));
    assert_eq!(st.current_root, "/h/music");
    assert_eq!(st.selected_tree, None);
    assert!(!st.expanded_paths.contains(&s("/h/docs/a")));
}

#[test]
fn out_of_range_clicks_are_ignored() {
    let mut st = UiState::new(s("/h"));
    refresh_sidebar(&mut st, &vec![s("docs")]);
    assert!(matches!(render_ui(&mut st, UiEvent::SidebarFolderSelected(1)), UiAction::Ignore));
    assert!(matches!(render_ui(&mut st, UiEvent::SidebarFolderSelected(-1)), UiAction::Ignore));
    assert!(matches!(render_ui(&mut st, UiEvent::TreeRowSelected(0)), UiAction::Ignore));
    assert!(matches!(render_ui(&mut st, UiEvent::TreeRowSelected(-5)), UiAction::Ignore));
    assert_eq!(st.selected_sidebar, Some(0));
    assert_eq!(st.selected_tree, None);
}

#[test]
fn folder_click_toggles_and_file_click_reports() {
    let mut st = state_at("/h/docs");
    refresh_tree(&mut st, &docs_tree());
    let action = render_ui(&mut st, UiEvent::TreeRowSelected(0));
    assert!(matches!(action, UiAction::RefreshTree));
    assert_eq!(st.selected_tree, Some(0));
    assert!(st.expanded_paths.contains(&s("/h/docs/a")));
    let action = render_ui(&mut st, UiEvent::TreeRowSelected(0));
    assert!(matches!(action, UiAction::RefreshTree));
    assert!(!st.expanded_paths.contains(&s("/h/docs/a")));
    match render_ui(&mut st, UiEvent::TreeRowSelected(2)) {
        UiAction::ShowStatus(text) => assert_eq!(text, "Selected file: /h/docs/README.md"),
        _ => panic!("a file click shows its path"),
    }
    assert_eq!(st.selected_tree, Some(2));
}

#[test]
fn tab_click_sets_tab() {
    let mut st = state_at("/h");
    st.selected_tree = Some(3);
    match render_ui(&mut st, UiEvent::TabSelected(1)) {
        UiAction::SelectTab(t) => assert_eq!(t, 1),
        _ => panic!("a tab click selects the tab"),
    }
    assert_eq!(st.active_tab, 1);
    assert_eq!(st.selected_tree, None);
}

#[test]
fn search_event_trims_and_routes() {
    let mut st = state_at("/h");
    st.selected_tree = Some(1);
    match render_ui(&mut st, UiEvent::Search(s("  Read me \t"))) {
        UiAction::Search(q) => assert_eq!(q, "Read me"),
        _ => panic!("a search text is searched for"),
    }
    assert_eq!(st.selected_tree, None);
    assert!(matches!(render_ui(&mut st, UiEvent::Search(s(" \t "))), UiAction::RefreshTree));
    assert!(matches!(render_ui(&mut st, UiEvent::Search(s(""))), UiAction::RefreshTree));
}

#[test]
fn path_set_toggle_twice_restores() {
    let mut set = PathSet::new();
    assert!(set.toggle(s("/a")));
    assert!(set.toggle(s("/b")));
    assert!(!set.toggle(s("/a")));
    assert!(!set.contains(&s("/a")));
    assert!(set.contains(&s("/b")));
    assert!(set.toggle(s("/a")));
    assert!(set.contains(&s("/a")));
    set.clear();
    assert!(!set.contains(&s("/b")));
}

#[test]
fn rows_mark_only_the_selected_one() {
    let nodes = vec![
        VisibleNode { path: s("/a"), name: s("a"), level: 0, is_folder: true },
        VisibleNode { path: s("/b"), name: s("b"), level: 0, is_folder: false },
    ];
    let mut exp = PathSet::new();
    exp.toggle(s("/a"));
    let rows = make_rows(&nodes, &exp, Some(1), true);
    assert_eq!(rows.iter().map(|r| (r.expanded, r.selected)).collect::<Vec<_>>(), vec![
        (true, false),
        (false, true),
    ]);
    let rows = make_rows(&nodes, &exp, None, false);
    assert!(rows.iter().all(|r| !r.expanded && !r.selected));
}

#[test]
fn run_search_trims_the_query() {
    let mut st = state_at("/h");
    let tree = dir(vec![folder("Docs", Some(dir(vec![], &["docs.md"])))], &["notes.txt"]);
    let view = run_search(&mut st, &s("  DOC "), &tree).unwrap();
    assert_eq!(view.status, "Search '/' for 'DOC' -> 2 matches");
    assert_eq!(summary(&st.visible_nodes), vec![
        (s("/Docs"), s("Docs"), 0, true),
        (s("/Docs/docs.md"), s("docs.md"), 1, false),
    ]);
    assert!(view.rows.iter().all(|r| !r.expanded && !r.selected));
}

#[test]
fn run_search_with_blank_query_asks_for_the_tree() {
    let mut st = state_at("/h");
    st.selected_tree = Some(2);
    let before = st.visible_nodes.len();
    assert!(run_search(&mut st, &s(" \t "), &dir(vec![], &["a"])).is_none());
    assert_eq!(st.selected_tree, None);
    assert_eq!(st.visible_nodes.len(), before);
}

#[test]
fn longer_query_finds_fewer() {
    let tree = dir(
        vec![folder("Docs", Some(dir(vec![], &["doc.md", "docker"])))],
        &["dock", "x"],
    );
    let mut short = Vec::new();
    let mut long = Vec::new();
    let q1: Vec<char> = "doc".chars().collect();
    let q2: Vec<char> = "dock".chars().collect();
    collect_search_matches(&tree, &s("/"), &q1, 0, &mut short);
    collect_search_matches(&tree, &s("/"), &q2, 0, &mut long);
    assert_eq!(summary(&short).len(), 4);
    assert_eq!(summary(&long), vec![
        (s("/Docs/docker"), s("docker"), 1, false),
        (s("/dock"), s("dock"), 0, false),
    ]);
}

#[test]
fn empty_query_gives_fully_expanded_tree() {
    let mut st = state_at("/");
    st.expanded_paths.toggle(s("/a"));
    st.expanded_paths.toggle(s("/b"));
    let tree = dir(
        vec![
            folder("a", Some(dir(vec![], &["inner.txt"]))),
            folder("b", Some(dir(vec![], &[]))),
        ],
        &["top"],
    );
    let mut rows = Vec::new();
    push_visible_children(&st, &tree, &s("/"), 0, &mut rows);
    let mut found = Vec::new();
    collect_search_matches(&tree, &s("/"), &Vec::new(), 0, &mut found);
    assert_eq!(summary(&rows), summary(&found));
    assert_eq!(rows.len(), 4);
}

#[test]
fn two_clicks_on_a_folder_restore_the_rows() {
    let mut st = state_at("/h/docs");
    let before = summary(&refresh_tree(&mut st, &docs_tree()).rows.iter().map(|r| VisibleNode {
        path: r.path.clone(),
        name: r.name.clone(),
        level: r.level,
        is_folder: r.is_folder,
    }).collect::<Vec<_>>());
    render_ui(&mut st, UiEvent::TreeRowSelected(1));
    refresh_tree(&mut st, &docs_tree());
    assert_eq!(st.visible_nodes[1].path, "/h/docs/b");
    render_ui(&mut st, UiEvent::TreeRowSelected(1));
    let view = refresh_tree(&mut st, &docs_tree());
    assert_eq!(summary(&st.visible_nodes), before);
    assert_eq!(view.rows.iter().map(|r| r.selected).collect::<Vec<_>>(), vec![
        false, true, false, false,
    ]);
}

#[test]
fn root_follows_the_sidebar() {
    let mut st = UiState::new(s("/h"));
    assert_eq!(st.current_root, st.home_dir);
    refresh_sidebar(&mut st, &vec![s("a"), s("b")]);
    assert_eq!(st.current_root, st.sidebar_paths[0]);
    render_ui(&mut st, UiEvent::SidebarFolderSelected(1));
    assert_eq!(st.current_root, st.sidebar_paths[1]);
    render_ui(&mut st, UiEvent::SidebarFolderSelected(5));
    render_ui(&mut st, UiEvent::TabSelected(2));
    render_ui(&mut st, UiEvent::Search(s("q")));
    assert_eq!(st.selected_sidebar, Some(1));
    assert_eq!(st.current_root, st.sidebar_paths[1]);
}

#[test]
fn tree_from_listings_shows_no_hidden_names() {
    let entries = vec![
        DirEntryInfo { name: s(".git"), kind: EntryKind::Folder },
        DirEntryInfo { name: s("src"), kind: EntryKind::Folder },
        DirEntryInfo { name: s(".env"), kind: EntryKind::File },
        DirEntryInfo { name: s("main.rs"), kind: EntryKind::File },
    ];
    let tree = FsTree {
        folders: list_folder_names(&entries)
            .into_iter()
            .map(|name| FolderEntry { name, contents: Some(Box::new(dir(vec![], &[]))) })
            .collect(),
        files: list_file_names(&entries),
    };
    let mut st = state_at("/p");
    let view = refresh_tree(&mut st, &tree);
    assert_eq!(view.rows.iter().map(|r| r.name.clone()).collect::<Vec<_>>(), vec!["src", "main.rs"]);
    let mut found = Vec::new();
    collect_search_matches(&tree, &s("/p"), &Vec::new(), 0, &mut found);
    assert!(found.iter().all(|n| !n.name.starts_with('.')));
}
