//! The browser's state and how it answers the user: which root is shown,
//! which folders are expanded, which rows are selected, and the rows and
//! status line that the window shows.

use vstd::prelude::*;
use crate::tree::{
    FsTree, PathSet, VisibleNode, NodeView, nodes_view, visible, visible_from, file_nodes,
    depth_from, join_path, join_spec, expanded_read_from, fully_read_from, tab_filter, apply_tab_filter, search,
    collect_search_matches, lemma_toggle_changes_after_row, tree_wf, tree_wf_from,
    lemma_visible_not_hidden,
};
use crate::listing::is_hidden;
use crate::text::{decimal, push_decimal, to_lowercase, lowercase, chars_of, trim, trimmed};

verus! {

/// The state of the browser window.
pub struct UiState {
    pub home_dir: String,
    /// The folder whose contents the tree shows.
    pub current_root: String,
    /// The folders of the home directory, as paths, in listing order.
    pub sidebar_paths: Vec<String>,
    pub expanded_paths: PathSet,
    /// The rows the tree shows, in order.
    pub visible_nodes: Vec<VisibleNode>,
    pub selected_sidebar: Option<usize>,
    pub selected_tree: Option<usize>,
    /// 0: everything, 1: folders only, 2: files only.
    pub active_tab: i32,
}

/// The browser state as plain values.
pub struct UiStateView {
    pub home_dir: Seq<char>,
    pub current_root: Seq<char>,
    pub sidebar_paths: Seq<Seq<char>>,
    pub expanded: Set<Seq<char>>,
    pub visible_nodes: Seq<NodeView>,
    pub selected_sidebar: Option<usize>,
    pub selected_tree: Option<usize>,
    pub active_tab: int,
}

impl View for UiState {
    type V = UiStateView;

    open spec fn view(&self) -> UiStateView {
        UiStateView {
            home_dir: self.home_dir@,
            current_root: self.current_root@,
            sidebar_paths: self.sidebar_paths.deep_view(),
            expanded: self.expanded_paths@,
            visible_nodes: nodes_view(self.visible_nodes@),
            selected_sidebar: self.selected_sidebar,
            selected_tree: self.selected_tree,
            active_tab: self.active_tab as int,
        }
    }
}

/// The tree's root is the home directory while no sidebar folder is
/// selected (and then the sidebar is empty), and the selected sidebar
/// folder once one is.
pub open spec fn root_consistent(v: UiStateView) -> bool {
    ||| (v.selected_sidebar is None && v.current_root == v.home_dir && v.sidebar_paths.len() == 0)
    ||| (v.selected_sidebar matches Some(k) && k < v.sidebar_paths.len() && v.current_root
        == v.sidebar_paths[k as int])
}

impl UiState {
    /// The state of a new window: the tree shows the home directory, nothing
    /// is expanded or selected, and every kind of entry is shown.
    pub fn new(home_dir: String) -> (s: UiState)
        ensures
            s.home_dir@ == home_dir@,
            s.current_root@ == home_dir@,
            s.sidebar_paths@.len() == 0,
            s.expanded_paths@ == Set::<Seq<char>>::empty(),
            s.visible_nodes@.len() == 0,
            s.selected_sidebar is None,
            s.selected_tree is None,
            s.active_tab == 0,
            root_consistent(s@),
    {
        UiState {
            home_dir: home_dir.clone(),
            current_root: home_dir,
            sidebar_paths: Vec::new(),
            expanded_paths: PathSet::new(),
            visible_nodes: Vec::new(),
            selected_sidebar: None,
            selected_tree: None,
            active_tab: 0,
        }
    }
}

/// Appends to `out` the rows of the directory `dir` at `path`, shown at
/// `level`: each folder, followed by its own rows one level deeper when it
/// is expanded, then the files.
pub fn push_visible_children(
    state: &UiState,
    dir: &FsTree,
    path: &String,
    level: i32,
    out: &mut Vec<VisibleNode>,
)
    requires
        level as int + depth_from(*dir, 0) <= i32::MAX,
        expanded_read_from(*dir, 0, path@, state.expanded_paths@),
        tree_wf(*dir),
    ensures
        nodes_view(final(out)@) == nodes_view(old(out)@) + visible(
            *dir,
            path@,
            level as int,
            state.expanded_paths@,
        ),
        forall|k: int|
            old(out).len() <= k < final(out).len() ==> !is_hidden((#[trigger] final(out)@[k]).name@),
    decreases dir,
{
    let ghost exp = state.expanded_paths@;
    let ghost target = nodes_view(out@) + visible(*dir, path@, level as int, exp);
    let n = dir.folders.len();
    let mut i: usize = 0;
    while i < n
        invariant
            n == dir.folders.len(),
            i <= n,
            level as int + depth_from(*dir, i as int) <= i32::MAX,
            exp == state.expanded_paths@,
            expanded_read_from(*dir, i as int, path@, exp),
            tree_wf_from(*dir, i as int),
            nodes_view(out@) + visible_from(*dir, i as int, path@, level as int, exp) == target,
        decreases n - i,
    {
        let f = &dir.folders[i];
        let folder_path = join_path(path, &f.name);
        let ghost before = nodes_view(out@);
        out.push(
            VisibleNode {
                path: folder_path.clone(),
                name: f.name.clone(),
                level: level,
                is_folder: true,
            },
        );
        let ghost after_node = nodes_view(out@);
        assert(after_node =~= before.push(out@[out@.len() - 1]@));
        if state.expanded_paths.contains(&folder_path) {
            match &f.contents {
                Some(sub) => {
                    push_visible_children(state, sub, &folder_path, level + 1, out);
                },
                None => {},
            }
        }
        proof {
            let rest = visible_from(*dir, i + 1, path@, level as int, exp);
            let here = visible_from(*dir, i as int, path@, level as int, exp);
            assert(nodes_view(out@) + rest =~= before + here);
        }
        i = i + 1;
    }
    let m = dir.files.len();
    let mut j: usize = 0;
    while j < m
        invariant
            m == dir.files.len(),
            n == dir.folders.len(),
            j <= m,
            nodes_view(out@) + file_nodes(dir.files@.skip(j as int), path@, level as int) == target,
        decreases m - j,
    {
        let ghost before = nodes_view(out@);
        out.push(
            VisibleNode {
                path: join_path(path, &dir.files[j]),
                name: dir.files[j].clone(),
                level: level,
                is_folder: false,
            },
        );
        proof {
            assert(nodes_view(out@) =~= before.push(out@[out@.len() - 1]@));
            assert(file_nodes(dir.files@.skip(j as int), path@, level as int) =~= seq![
                out@[out@.len() - 1]@,
            ] + file_nodes(dir.files@.skip(j + 1), path@, level as int));
        }
        j = j + 1;
    }
    assert(dir.files@.skip(m as int) =~= Seq::<String>::empty());
    assert(nodes_view(out@) =~= target);
    proof {
        let shown = visible(*dir, path@, level as int, exp);
        lemma_visible_not_hidden(*dir, 0, path@, level as int, exp);
        assert forall|k: int| old(out).len() <= k < out.len() implies !is_hidden(
            (#[trigger] out@[k]).name@,
        ) by {
            assert(nodes_view(out@)[k] == shown[k - old(out).len()]);
        }
    }
}

/// The home directory: the value of `HOME` when it is set, else "/".
pub fn user_home_dir(home: Option<String>) -> (r: String)
    ensures
        r@ == (match home {
            Some(h) => h@,
            None => "/"@,
        }),
{
    match home {
        Some(h) => h,
        None => String::from_str("/"),
    }
}

/// Sets the rows of the tree to those of `tree`, the directory read at the
/// current root, with the expanded folders opened in place.
pub fn build_tree_rows(state: &mut UiState, tree: &FsTree)
    requires
        depth_from(*tree, 0) <= i32::MAX,
        expanded_read_from(*tree, 0, old(state).current_root@, old(state).expanded_paths@),
        tree_wf(*tree),
    ensures
        final(state)@ == (UiStateView {
            visible_nodes: visible(*tree, old(state).current_root@, 0, old(state).expanded_paths@),
            ..old(state)@
        }),
        forall|k: int|
            0 <= k < final(state)@.visible_nodes.len() ==> !is_hidden(
                (#[trigger] final(state)@.visible_nodes[k]).name,
            ),
{
    let mut rows: Vec<VisibleNode> = Vec::new();
    push_visible_children(state, tree, &state.current_root, 0, &mut rows);
    assert(nodes_view(rows@) =~= visible(*tree, state.current_root@, 0, state.expanded_paths@));
    state.visible_nodes = rows;
}

/// A row of the tree as the window shows it.
pub struct TreeRow {
    pub name: String,
    pub path: String,
    pub level: i32,
    pub is_folder: bool,
    pub expanded: bool,
    pub selected: bool,
}

/// A row as plain values.
pub struct RowView {
    pub name: Seq<char>,
    pub path: Seq<char>,
    pub level: int,
    pub is_folder: bool,
    pub expanded: bool,
    pub selected: bool,
}

impl View for TreeRow {
    type V = RowView;

    open spec fn view(&self) -> RowView {
        RowView {
            name: self.name@,
            path: self.path@,
            level: self.level as int,
            is_folder: self.is_folder,
            expanded: self.expanded,
            selected: self.selected,
        }
    }
}

/// What the tree shows: its rows and the status line.
pub struct TreeView {
    pub rows: Vec<TreeRow>,
    pub status: String,
}

/// Whether `selected` designates row `index`.
pub open spec fn is_selected(selected: Option<usize>, index: int) -> bool {
    selected matches Some(k) && k == index
}

/// The row for node `n` at position `index`. In the tree (`in_tree`) a
/// folder row is marked expanded when its path is expanded; search results
/// are never marked expanded.
pub open spec fn row_of(
    n: NodeView,
    index: int,
    expanded: Set<Seq<char>>,
    selected: Option<usize>,
    in_tree: bool,
) -> RowView {
    RowView {
        name: n.name,
        path: n.path,
        level: n.level,
        is_folder: n.is_folder,
        expanded: in_tree && n.is_folder && expanded.contains(n.path),
        selected: is_selected(selected, index),
    }
}

/// The rows for `nodes`, one per node, in order.
pub open spec fn rows_of(
    nodes: Seq<NodeView>,
    expanded: Set<Seq<char>>,
    selected: Option<usize>,
    in_tree: bool,
) -> Seq<RowView> {
    Seq::new(nodes.len(), |i: int| row_of(nodes[i], i, expanded, selected, in_tree))
}

/// The rows as plain values.
pub open spec fn rows_view(rows: Seq<TreeRow>) -> Seq<RowView> {
    rows.map_values(|r: TreeRow| r@)
}

/// The rows for the nodes of the tree or of a search.
pub fn make_rows(
    nodes: &Vec<VisibleNode>,
    expanded: &PathSet,
    selected: Option<usize>,
    in_tree: bool,
) -> (r: Vec<TreeRow>)
    ensures
        rows_view(r@) == rows_of(nodes_view(nodes@), expanded@, selected, in_tree),
        r.len() == nodes.len(),
        forall|k: int|
            0 <= k < r.len() ==> {
                &&& (#[trigger] r@[k]).name@ == nodes@[k].name@
                &&& r@[k].path@ == nodes@[k].path@
                &&& r@[k].level == nodes@[k].level
                &&& r@[k].is_folder == nodes@[k].is_folder
                &&& r@[k].expanded == (in_tree && nodes@[k].is_folder && expanded@.contains(
                    nodes@[k].path@,
                ))
                &&& r@[k].selected == (selected == Some(k as usize))
            },
{
    let mut rows: Vec<TreeRow> = Vec::new();
    let n = nodes.len();
    let mut i: usize = 0;
    while i < n
        invariant
            n == nodes.len(),
            i <= n,
            rows_view(rows@) == rows_of(nodes_view(nodes@), expanded@, selected, in_tree).take(
                i as int,
            ),
        decreases n - i,
    {
        let node = &nodes[i];
        let is_expanded = in_tree && node.is_folder && expanded.contains(&node.path);
        let is_sel = match selected {
            Some(k) => k == i,
            None => false,
        };
        let ghost before = rows_view(rows@);
        rows.push(
            TreeRow {
                name: node.name.clone(),
                path: node.path.clone(),
                level: node.level,
                is_folder: node.is_folder,
                expanded: is_expanded,
                selected: is_sel,
            },
        );
        assert(rows_view(rows@) =~= before.push(rows@[i as int]@));
        assert(rows@[i as int]@ == row_of(nodes@[i as int]@, i as int, expanded@, selected, in_tree));
        assert(rows_view(rows@) =~= rows_of(nodes_view(nodes@), expanded@, selected, in_tree).take(
            i + 1,
        ));
        i = i + 1;
    }
    assert(rows_of(nodes_view(nodes@), expanded@, selected, in_tree).take(n as int) =~= rows_of(
        nodes_view(nodes@),
        expanded@,
        selected,
        in_tree,
    ));
    assert forall|k: int| 0 <= k < rows.len() implies {
        &&& (#[trigger] rows@[k]).name@ == nodes@[k].name@
        &&& rows@[k].path@ == nodes@[k].path@
        &&& rows@[k].level == nodes@[k].level
        &&& rows@[k].is_folder == nodes@[k].is_folder
        &&& rows@[k].expanded == (in_tree && nodes@[k].is_folder && expanded@.contains(
            nodes@[k].path@,
        ))
        &&& rows@[k].selected == (selected == Some(k as usize))
    } by {
        assert(rows_view(rows@)[k] == rows@[k]@);
        assert(nodes_view(nodes@)[k] == nodes@[k]@);
        assert(rows_view(rows@)[k] == row_of(nodes@[k]@, k, expanded@, selected, in_tree));
    }
    rows
}

/// The status line of the tree: its root and how many rows it shows.
pub open spec fn root_status(root: Seq<char>, count: nat) -> Seq<char> {
    "Root: "@ + root + " | "@ + decimal(count) + " items"@
}

/// The status line after a search.
pub open spec fn search_status(query: Seq<char>, count: nat) -> Seq<char> {
    "Search '/' for '"@ + query + "' -> "@ + decimal(count) + " matches"@
}

/// The status line after a file row was selected.
pub open spec fn file_status(path: Seq<char>) -> Seq<char> {
    "Selected file: "@ + path
}

fn root_status_text(root: &String, count: usize) -> (r: String)
    ensures
        r@ == root_status(root@, count as nat),
{
    let mut s = String::from_str("Root: ");
    s.append(root.as_str());
    s.append(" | ");
    push_decimal(&mut s, count);
    s.append(" items");
    s
}

fn search_status_text(query: &String, count: usize) -> (r: String)
    ensures
        r@ == search_status(query@, count as nat),
{
    let mut s = String::from_str("Search '/' for '");
    s.append(query.as_str());
    s.append("' -> ");
    push_decimal(&mut s, count);
    s.append(" matches");
    s
}

fn file_status_text(path: &String) -> (r: String)
    ensures
        r@ == file_status(path@),
{
    let mut s = String::from_str("Selected file: ");
    s.append(path.as_str());
    s
}

/// Rebuilds the tree from `tree`, the directory read at the current root:
/// the rows of the root that the active tab shows, with the expanded
/// folders opened in place. Returns what the window shows.
pub fn refresh_tree(state: &mut UiState, tree: &FsTree) -> (view: TreeView)
    requires
        depth_from(*tree, 0) <= i32::MAX,
        expanded_read_from(*tree, 0, old(state).current_root@, old(state).expanded_paths@),
        tree_wf(*tree),
    ensures
        forall|k: int|
            0 <= k < final(state)@.visible_nodes.len() ==> !is_hidden(
                (#[trigger] final(state)@.visible_nodes[k]).name,
            ),
        final(state)@ == (UiStateView {
            visible_nodes: tab_filter(
                visible(*tree, old(state).current_root@, 0, old(state).expanded_paths@),
                old(state).active_tab as int,
            ),
            ..old(state)@
        }),
        rows_view(view.rows@) == rows_of(
            final(state)@.visible_nodes,
            final(state)@.expanded,
            final(state)@.selected_tree,
            true,
        ),
        view.status@ == root_status(
            old(state).current_root@,
            final(state)@.visible_nodes.len(),
        ),
{
    build_tree_rows(state, tree);
    let ghost all = nodes_view(state.visible_nodes@);
    let filtered = apply_tab_filter(&state.visible_nodes, state.active_tab);
    proof {
        let tab = state.active_tab as int;
        let shown = tab_filter(all, tab);
        assert forall|k: int| 0 <= k < shown.len() implies !is_hidden((#[trigger] shown[k]).name) by {
            if tab == 1 || tab == 2 {
                let pred = if tab == 1 {
                    |n: NodeView| n.is_folder
                } else {
                    |n: NodeView| !n.is_folder
                };
                assert(shown == all.filter(pred));
                assert(shown.contains(shown[k]));
                all.lemma_filter_contains_rev(pred, shown[k]);
                let j = choose|j: int| 0 <= j < all.len() && all[j] == shown[k];
                assert(!is_hidden(state@.visible_nodes[j].name));
            } else {
                assert(!is_hidden(state@.visible_nodes[k].name));
            }
        }
    }
    state.visible_nodes = filtered;
    let rows = make_rows(&state.visible_nodes, &state.expanded_paths, state.selected_tree, true);
    let status = root_status_text(&state.current_root, state.visible_nodes.len());
    TreeView { rows, status }
}

/// A folder of the home directory as the sidebar shows it.
pub struct SidebarFolder {
    pub name: String,
    pub selected: bool,
}

/// The paths of the home directory's folders `names`.
pub open spec fn sidebar_paths_of(home: Seq<char>, names: Seq<Seq<char>>) -> Seq<Seq<char>> {
    Seq::new(names.len(), |i: int| join_spec(home, names[i]))
}

/// Refreshes the sidebar from `folders`, the listing of the home
/// directory's folders. When no folder was selected yet and there is one,
/// the first is selected and becomes the root of the tree. Returns the
/// sidebar's rows: each folder name, marked when it is the selected one.
pub fn refresh_sidebar(state: &mut UiState, folders: &Vec<String>) -> (rows: Vec<SidebarFolder>)
    ensures
        ({
            let paths = sidebar_paths_of(old(state).home_dir@, folders.deep_view());
            let pick = old(state).selected_sidebar is None && folders.len() > 0;
            final(state)@ == (UiStateView {
                sidebar_paths: paths,
                selected_sidebar: if pick {
                    Some(0)
                } else {
                    old(state).selected_sidebar
                },
                current_root: if pick {
                    paths[0]
                } else {
                    old(state).current_root@
                },
                ..old(state)@
            })
        }),
        (old(state).selected_sidebar is None && old(state).current_root@ == old(state).home_dir@)
            || (root_consistent(old(state)@) && old(state)@.sidebar_paths == sidebar_paths_of(
            old(state).home_dir@,
            folders.deep_view(),
        )) ==> root_consistent(final(state)@),
        rows.len() == folders.len(),
        forall|i: int|
            0 <= i < rows.len() ==> (#[trigger] rows@[i]).name@ == folders@[i]@ && rows@[i].selected
                == is_selected(final(state).selected_sidebar, i),
{
    let mut paths: Vec<String> = Vec::new();
    let n = folders.len();
    let mut i: usize = 0;
    while i < n
        invariant
            n == folders.len(),
            i <= n,
            paths.deep_view() == sidebar_paths_of(state.home_dir@, folders.deep_view()).take(
                i as int,
            ),
        decreases n - i,
    {
        let ghost before = paths.deep_view();
        paths.push(join_path(&state.home_dir, &folders[i]));
        assert(paths.deep_view() =~= before.push(paths@[i as int]@));
        assert(folders.deep_view()[i as int] == folders@[i as int]@);
        assert(paths.deep_view() =~= sidebar_paths_of(state.home_dir@, folders.deep_view()).take(
            i + 1,
        ));
        i = i + 1;
    }
    assert(sidebar_paths_of(state.home_dir@, folders.deep_view()).take(n as int) =~= sidebar_paths_of(
        state.home_dir@,
        folders.deep_view(),
    ));
    state.sidebar_paths = paths;
    if state.selected_sidebar.is_none() && state.sidebar_paths.len() > 0 {
        state.selected_sidebar = Some(0);
        state.current_root = state.sidebar_paths[0].clone();
    }
    let mut rows: Vec<SidebarFolder> = Vec::new();
    let mut j: usize = 0;
    while j < n
        invariant
            n == folders.len(),
            j <= n,
            rows.len() == j,
            forall|k: int|
                0 <= k < j ==> (#[trigger] rows@[k]).name@ == folders@[k]@ && rows@[k].selected
                    == is_selected(state.selected_sidebar, k),
        decreases n - j,
    {
        let selected = match state.selected_sidebar {
            Some(k) => k == j,
            None => false,
        };
        rows.push(SidebarFolder { name: folders[j].clone(), selected });
        j = j + 1;
    }
    rows
}

/// Searches below "/" for the search text `query` without its surrounding
/// whitespace; `fs_root` is what was read of "/".
///
/// A blank text searches nothing: no row is selected any more, and `None`
/// says that the tree is to be refreshed instead. Otherwise the entries
/// whose lowercase names contain the lowercase form of the trimmed text
/// become the rows of the tree, and the result is what the window shows.
pub fn run_search(state: &mut UiState, query: &String, fs_root: &FsTree) -> (view: Option<
    TreeView,
>)
    requires
        depth_from(*fs_root, 0) <= i32::MAX,
        fully_read_from(*fs_root, 0),
        tree_wf(*fs_root),
    ensures
        view is None <==> trimmed(query@).len() == 0,
        view is Some ==> forall|k: int|
            0 <= k < final(state)@.visible_nodes.len() ==> !is_hidden(
                (#[trigger] final(state)@.visible_nodes[k]).name,
            ),
        view is None ==> final(state)@ == (UiStateView { selected_tree: None, ..old(state)@ }),
        view matches Some(v) ==> {
            &&& final(state)@ == (UiStateView {
                visible_nodes: search(*fs_root, "/"@, lowercase(trimmed(query@)), 0),
                ..old(state)@
            })
            &&& rows_view(v.rows@) == rows_of(
                final(state)@.visible_nodes,
                final(state)@.expanded,
                final(state)@.selected_tree,
                false,
            )
            &&& v.status@ == search_status(trimmed(query@), final(state)@.visible_nodes.len())
        },
{
    let trimmed_query = trim(query.as_str());
    if trimmed_query.as_str().unicode_len() == 0 {
        state.selected_tree = None;
        return None;
    }
    let query_lower = to_lowercase(trimmed_query.as_str());
    let query_chars = chars_of(query_lower.as_str());
    let root = String::from_str("/");
    let mut matches: Vec<VisibleNode> = Vec::new();
    collect_search_matches(fs_root, &root, &query_chars, 0, &mut matches);
    assert(nodes_view(matches@) =~= search(*fs_root, "/"@, lowercase(trimmed(query@)), 0));
    let rows = make_rows(&matches, &state.expanded_paths, state.selected_tree, false);
    state.visible_nodes = matches;
    let status = search_status_text(&trimmed_query, state.visible_nodes.len());
    Some(TreeView { rows, status })
}

/// What the user did in the window.
pub enum UiEvent {
    /// Clicked the sidebar folder at this index.
    SidebarFolderSelected(i32),
    /// Clicked the tree row at this index.
    TreeRowSelected(i32),
    /// Chose this tab.
    TabSelected(i32),
    /// Asked to search for this text.
    Search(String),
}

/// What the window has to do after an event.
pub enum UiAction {
    /// Nothing: the event did not apply.
    Ignore,
    /// Refresh the sidebar, then the tree.
    RefreshSidebarAndTree,
    /// Refresh the tree.
    RefreshTree,
    /// Show this tab as the active one, then refresh the tree.
    SelectTab(i32),
    /// Show this status line.
    ShowStatus(String),
    /// Search for this text (never empty, no surrounding whitespace).
    Search(String),
}

/// Whether `s` toggled at `p` (put in if absent, taken out if present).
pub open spec fn toggled(s: Set<Seq<char>>, p: Seq<char>) -> Set<Seq<char>> {
    if s.contains(p) {
        s.remove(p)
    } else {
        s.insert(p)
    }
}

/// Toggling the same path twice gives back the set: clicking a folder row
/// twice leaves the expanded folders as they were.
pub proof fn lemma_toggle_twice(s: Set<Seq<char>>, p: Seq<char>)
    ensures
        toggled(toggled(s, p), p) == s,
{
    if s.contains(p) {
        assert(s.remove(p).insert(p) =~= s);
    } else {
        assert(s.insert(p).remove(p) =~= s);
    }
}

/// Each row shows its node: same name, path, level and kind; in the tree a
/// row is marked expanded exactly when it is a folder whose path is
/// expanded, at whatever level it sits; search results are never marked
/// expanded; and a row is marked selected exactly when the selection names
/// it.
pub proof fn lemma_row_marks(
    nodes: Seq<NodeView>,
    expanded: Set<Seq<char>>,
    selected: Option<usize>,
    in_tree: bool,
)
    ensures
        rows_of(nodes, expanded, selected, in_tree).len() == nodes.len(),
        forall|k: int|
            0 <= k < nodes.len() ==> {
                let r = #[trigger] rows_of(nodes, expanded, selected, in_tree)[k];
                &&& r.name == nodes[k].name
                &&& r.path == nodes[k].path
                &&& r.level == nodes[k].level
                &&& r.is_folder == nodes[k].is_folder
                &&& r.expanded == (in_tree && nodes[k].is_folder && expanded.contains(nodes[k].path))
                &&& r.selected == (selected matches Some(s) && s == k)
            },
{
}

/// Clicking folder row `i` of the tree (the first row for that folder)
/// expands or collapses it; the refreshed tree, under any tab, still shows
/// the same rows up to and including row `i`, so a second click hits the
/// same folder, and the two clicks together leave the expanded folders, and
/// so the rows, as they were.
pub proof fn lemma_click_keeps_row(
    t: FsTree,
    root: Seq<char>,
    expanded: Set<Seq<char>>,
    tab: int,
    i: int,
)
    requires
        0 <= i < tab_filter(visible(t, root, 0, expanded), tab).len(),
        tab_filter(visible(t, root, 0, expanded), tab)[i].is_folder,
        forall|j: int|
            0 <= j < i ==> !((#[trigger] tab_filter(visible(t, root, 0, expanded), tab)[j]).is_folder
                && tab_filter(visible(t, root, 0, expanded), tab)[j].path == tab_filter(
                visible(t, root, 0, expanded),
                tab,
            )[i].path),
    ensures
        ({
            let nodes = tab_filter(visible(t, root, 0, expanded), tab);
            let p = nodes[i].path;
            let nodes2 = tab_filter(visible(t, root, 0, toggled(expanded, p)), tab);
            &&& i < nodes2.len()
            &&& nodes2.take(i + 1) == nodes.take(i + 1)
            &&& toggled(toggled(expanded, p), p) == expanded
        }),
{
    let nodes = tab_filter(visible(t, root, 0, expanded), tab);
    let p = nodes[i].path;
    let exp2 = toggled(expanded, p);
    lemma_toggle_twice(expanded, p);
    let v1 = visible(t, root, 0, expanded);
    let v2 = visible(t, root, 0, exp2);
    let nodes2 = tab_filter(v2, tab);
    lemma_toggle_changes_after_row(t, 0, root, 0, expanded, exp2, p);
    if v1 != v2 {
        let k = choose|k: int|
            0 <= k < v1.len() && k < v2.len() && (#[trigger] v1[k]).is_folder && v1[k].path == p
                && v1.take(k + 1) == v2.take(k + 1);
        if tab == 1 || tab == 2 {
            let pred = if tab == 1 {
                |n: NodeView| n.is_folder
            } else {
                |n: NodeView| !n.is_folder
            };
            assert(nodes == v1.filter(pred));
            assert(nodes2 == v2.filter(pred));
            if tab == 2 {
                v1.lemma_filter_pred(pred, i);
            } else {
                let a = v1.take(k + 1);
                assert(v1 =~= a + v1.skip(k + 1));
                assert(v2 =~= a + v2.skip(k + 1));
                Seq::filter_distributes_over_add(a, v1.skip(k + 1), pred);
                Seq::filter_distributes_over_add(a, v2.skip(k + 1), pred);
                let fa = a.filter(pred);
                reveal_with_fuel(Seq::filter, 1);
                assert(a.drop_last() =~= v1.take(k));
                assert(fa == a.drop_last().filter(pred).push(v1[k]));
                let m = fa.len() - 1;
                assert(nodes[m] == v1[k]);
                assert(i <= m);
                assert(nodes.take(i + 1) =~= fa.take(i + 1));
                assert(nodes2.take(i + 1) =~= fa.take(i + 1));
            }
        } else {
            assert(nodes == v1);
            assert(nodes2 == v2);
            assert(i <= k);
            assert(nodes.take(i + 1) =~= v1.take(k + 1).take(i + 1));
            assert(nodes2.take(i + 1) =~= v2.take(k + 1).take(i + 1));
        }
    }
}

/// Two search texts whose trimmed lowercase forms agree find the same
/// entries and show the same rows: surrounding whitespace and letter case
/// do not matter.
pub proof fn lemma_search_ignores_spacing_and_case(
    fs_root: FsTree,
    q1: Seq<char>,
    q2: Seq<char>,
    expanded: Set<Seq<char>>,
    selected: Option<usize>,
)
    requires
        lowercase(trimmed(q1)) == lowercase(trimmed(q2)),
    ensures
        search(fs_root, "/"@, lowercase(trimmed(q1)), 0) == search(
            fs_root,
            "/"@,
            lowercase(trimmed(q2)),
            0,
        ),
        rows_of(search(fs_root, "/"@, lowercase(trimmed(q1)), 0), expanded, selected, false)
            == rows_of(search(fs_root, "/"@, lowercase(trimmed(q2)), 0), expanded, selected, false),
{
}

/// At most one row is marked selected: the one the selection designates.
pub proof fn lemma_one_selected(
    nodes: Seq<NodeView>,
    expanded: Set<Seq<char>>,
    selected: Option<usize>,
    in_tree: bool,
)
    ensures
        forall|i: int, j: int|
            0 <= i < nodes.len() && 0 <= j < nodes.len() && (#[trigger] rows_of(
                nodes,
                expanded,
                selected,
                in_tree,
            )[i]).selected && (#[trigger] rows_of(nodes, expanded, selected, in_tree)[j]).selected
                ==> i == j,
{
}

/// Answers one event of the window: updates the state and says what the
/// window has to do next.
///
/// - Sidebar folder `i`, when there is one: it becomes the selected folder
///   and the root of the tree, nothing is expanded or selected in the
///   tree any more; the sidebar and the tree are refreshed.
/// - Tree row `i`, when there is one: it becomes the selected row; a folder
///   is expanded if it was not and collapsed if it was, and the tree is
///   refreshed; for a file the status line shows its path.
/// - Tab `t`: it becomes the active tab, no row is selected; the tree is
///   refreshed.
/// - Search: no row is selected; a blank text refreshes the tree, any other
///   is searched for without its surrounding whitespace.
pub fn render_ui(state: &mut UiState, event: UiEvent) -> (action: UiAction)
    ensures
        root_consistent(old(state)@) ==> root_consistent(final(state)@),
        match event {
            UiEvent::SidebarFolderSelected(index) => if 0 <= index < old(
                state,
            ).sidebar_paths.len() {
                &&& action is RefreshSidebarAndTree
                &&& final(state)@ == (UiStateView {
                    selected_sidebar: Some(index as usize),
                    current_root: old(state)@.sidebar_paths[index as int],
                    selected_tree: None,
                    expanded: Set::empty(),
                    ..old(state)@
                })
            } else {
                &&& action is Ignore
                &&& final(state)@ == old(state)@
            },
            UiEvent::TreeRowSelected(index) => if 0 <= index < old(state).visible_nodes.len() {
                let node = old(state)@.visible_nodes[index as int];
                &&& node.is_folder ==> {
                    &&& action is RefreshTree
                    &&& final(state)@ == (UiStateView {
                        selected_tree: Some(index as usize),
                        expanded: toggled(old(state)@.expanded, node.path),
                        ..old(state)@
                    })
                }
                &&& !node.is_folder ==> {
                    &&& action matches UiAction::ShowStatus(s) && s@ == file_status(node.path)
                    &&& final(state)@ == (UiStateView {
                        selected_tree: Some(index as usize),
                        ..old(state)@
                    })
                }
            } else {
                &&& action is Ignore
                &&& final(state)@ == old(state)@
            },
            UiEvent::TabSelected(tab) => {
                &&& action matches UiAction::SelectTab(t) && t == tab
                &&& final(state)@ == (UiStateView {
                    active_tab: tab as int,
                    selected_tree: None,
                    ..old(state)@
                })
            },
            UiEvent::Search(query) => {
                &&& final(state)@ == (UiStateView { selected_tree: None, ..old(state)@ })
                &&& trimmed(query@).len() == 0 ==> action is RefreshTree
                &&& trimmed(query@).len() > 0 ==> (action matches UiAction::Search(q) && q@
                    == trimmed(query@))
            },
        },
{
    match event {
        UiEvent::SidebarFolderSelected(index) => {
            if index < 0 || index as usize >= state.sidebar_paths.len() {
                return UiAction::Ignore;
            }
            let idx = index as usize;
            state.selected_sidebar = Some(idx);
            state.current_root = state.sidebar_paths[idx].clone();
            state.selected_tree = None;
            state.expanded_paths.clear();
            UiAction::RefreshSidebarAndTree
        },
        UiEvent::TreeRowSelected(index) => {
            if index < 0 || index as usize >= state.visible_nodes.len() {
                return UiAction::Ignore;
            }
            let idx = index as usize;
            state.selected_tree = Some(idx);
            let clicked = state.visible_nodes[idx].duplicate();
            if clicked.is_folder {
                state.expanded_paths.toggle(clicked.path);
                UiAction::RefreshTree
            } else {
                UiAction::ShowStatus(file_status_text(&clicked.path))
            }
        },
        UiEvent::TabSelected(tab) => {
            state.active_tab = tab;
            state.selected_tree = None;
            UiAction::SelectTab(tab)
        },
        UiEvent::Search(query) => {
            state.selected_tree = None;
            let t = trim(query.as_str());
            if t.as_str().unicode_len() == 0 {
                UiAction::RefreshTree
            } else {
                UiAction::Search(t)
            }
        },
    }
}

} // verus!
