//! The directory tree as the browser shows it: the rows under a root, with
//! expanded folders opened in place, and the entries whose names match a
//! search.

use vstd::prelude::*;
use crate::text::{lowercase, contains_sub, to_lowercase, chars_of, chars_contain, name_order};
use crate::listing::is_hidden;

verus! {

/// What was read of one directory: its folders, each with what was read of
/// it (if it was read), and its files, both in listing order.
pub struct FsTree {
    pub folders: Vec<FolderEntry>,
    pub files: Vec<String>,
}

/// A folder of a directory, with the listing of the folder itself when it
/// was read.
pub struct FolderEntry {
    pub name: String,
    pub contents: Option<Box<FsTree>>,
}

/// `name` appended to `base` as a path component: a '/' goes between them
/// unless `base` is empty or already ends with '/'.
pub open spec fn join_spec(base: Seq<char>, name: Seq<char>) -> Seq<char> {
    if base.len() == 0 || base.last() == '/' {
        base + name
    } else {
        base + seq!['/'] + name
    }
}

/// How many levels of folder contents the tree holds below its top, from
/// folder `i` on.
pub open spec fn depth_from(t: FsTree, i: int) -> nat
    decreases t, t.folders@.len() - i,
{
    if i < 0 || i >= t.folders@.len() {
        0
    } else {
        let rest = depth_from(t, i + 1);
        match t.folders@[i].contents {
            Some(sub) => {
                let d = 1 + depth_from(*sub, 0);
                if d > rest { d } else { rest }
            },
            None => rest,
        }
    }
}

/// `name` appended to `base` as a path component.
pub fn join_path(base: &String, name: &String) -> (r: String)
    ensures
        r@ == join_spec(base@, name@),
{
    let b = base.as_str();
    let n = b.unicode_len();
    let mut r = base.clone();
    if n > 0 && b.get_char(n - 1) != '/' {
        r.append("/");
        proof {
            reveal_strlit("/");
        }
    }
    r.append(name.as_str());
    r
}

/// A node shown in the tree or among search results.
pub struct VisibleNode {
    pub path: String,
    pub name: String,
    pub level: i32,
    pub is_folder: bool,
}

/// A node as plain values.
pub struct NodeView {
    pub path: Seq<char>,
    pub name: Seq<char>,
    pub level: int,
    pub is_folder: bool,
}

impl View for VisibleNode {
    type V = NodeView;

    open spec fn view(&self) -> NodeView {
        NodeView { path: self.path@, name: self.name@, level: self.level as int, is_folder: self.is_folder }
    }
}

/// The nodes as plain values.
pub open spec fn nodes_view(nodes: Seq<VisibleNode>) -> Seq<NodeView> {
    nodes.map_values(|n: VisibleNode| n@)
}

impl VisibleNode {
    /// A copy of the node.
    pub fn duplicate(&self) -> (r: VisibleNode)
        ensures
            r@ == self@,
    {
        VisibleNode {
            path: self.path.clone(),
            name: self.name.clone(),
            level: self.level,
            is_folder: self.is_folder,
        }
    }
}

/// Every expanded folder below the directory `t` at `path`, from its folder
/// `i` on, was read (a folder that could not be read reads as empty).
pub open spec fn expanded_read_from(t: FsTree, i: int, path: Seq<char>, expanded: Set<Seq<char>>) -> bool
    decreases t, t.folders@.len() - i,
{
    if i < 0 || i >= t.folders@.len() {
        true
    } else {
        let f = t.folders@[i];
        let child = join_spec(path, f.name@);
        &&& expanded.contains(child) ==> match f.contents {
            Some(sub) => expanded_read_from(*sub, 0, child, expanded),
            None => false,
        }
        &&& expanded_read_from(t, i + 1, path, expanded)
    }
}

/// Every folder below the directory `t`, from its folder `i` on, was read.
pub open spec fn fully_read_from(t: FsTree, i: int) -> bool
    decreases t, t.folders@.len() - i,
{
    if i < 0 || i >= t.folders@.len() {
        true
    } else {
        &&& match t.folders@[i].contents {
            Some(sub) => fully_read_from(*sub, 0),
            None => false,
        }
        &&& fully_read_from(t, i + 1)
    }
}

/// The names of the folders of `t`, in order.
pub open spec fn folder_names(t: FsTree) -> Seq<Seq<char>> {
    t.folders@.map_values(|f: FolderEntry| f.name@)
}

/// The names of the files of `t`, in order.
pub open spec fn file_names(t: FsTree) -> Seq<Seq<char>> {
    t.files@.map_values(|f: String| f@)
}

/// Names as a listing gives them: none hidden, in listing order.
pub open spec fn is_listing(names: Seq<Seq<char>>) -> bool {
    &&& forall|k: int| 0 <= k < names.len() ==> !is_hidden(#[trigger] names[k])
    &&& vstd::relations::sorted_by(names, name_order())
}

/// Every directory below `t` (from its folder `i` on, and `t` itself) holds
/// what the folder and file listings give: names that are not hidden, in
/// listing order.
pub open spec fn tree_wf_from(t: FsTree, i: int) -> bool
    decreases t, t.folders@.len() - i,
{
    if i < 0 || i >= t.folders@.len() {
        is_listing(folder_names(t)) && is_listing(file_names(t))
    } else {
        &&& match t.folders@[i].contents {
            Some(sub) => tree_wf_from(*sub, 0),
            None => true,
        }
        &&& tree_wf_from(t, i + 1)
    }
}

/// Every directory of `t` holds what the listings give.
pub open spec fn tree_wf(t: FsTree) -> bool {
    tree_wf_from(t, 0)
}

/// A well-formed tree's own folders and files are listings.
pub proof fn lemma_wf_level(t: FsTree, i: int)
    requires
        0 <= i,
        tree_wf_from(t, i),
    ensures
        is_listing(folder_names(t)),
        is_listing(file_names(t)),
    decreases t.folders@.len() - i,
{
    if i < t.folders@.len() {
        lemma_wf_level(t, i + 1);
    }
}

/// The file nodes of a directory at `path`, shown at `level`.
pub open spec fn file_nodes(files: Seq<String>, path: Seq<char>, level: int) -> Seq<NodeView> {
    files.map_values(
        |f: String| NodeView { path: join_spec(path, f@), name: f@, level: level, is_folder: false },
    )
}

/// The node of a folder `name` of the directory at `path`, shown at `level`.
pub open spec fn folder_node(path: Seq<char>, name: Seq<char>, level: int) -> NodeView {
    NodeView { path: join_spec(path, name), name: name, level: level, is_folder: true }
}

/// The rows that the directory `t` at `path` shows at `level`, from its
/// folder `i` on: each folder, followed by its own rows one level deeper
/// when it is expanded and was read; then the files.
pub open spec fn visible_from(
    t: FsTree,
    i: int,
    path: Seq<char>,
    level: int,
    expanded: Set<Seq<char>>,
) -> Seq<NodeView>
    decreases t, t.folders@.len() - i,
{
    if i < 0 || i >= t.folders@.len() {
        file_nodes(t.files@, path, level)
    } else {
        let f = t.folders@[i];
        let child = join_spec(path, f.name@);
        let below = if expanded.contains(child) {
            match f.contents {
                Some(sub) => visible_from(*sub, 0, child, level + 1, expanded),
                None => Seq::empty(),
            }
        } else {
            Seq::empty()
        };
        seq![folder_node(path, f.name@, level)] + below + visible_from(
            t,
            i + 1,
            path,
            level,
            expanded,
        )
    }
}

/// The rows of the directory `t` at `path`, shown from `level` on.
pub open spec fn visible(t: FsTree, path: Seq<char>, level: int, expanded: Set<Seq<char>>) -> Seq<
    NodeView,
> {
    visible_from(t, 0, path, level, expanded)
}

/// A name matches a search when its lowercase form contains the query.
pub open spec fn name_matches(name: Seq<char>, query: Seq<char>) -> bool {
    contains_sub(lowercase(name), query)
}

/// The entries of the directory `t` at `path`, from its folder `i` on, whose
/// names match `query`, shown from `level` on: for each folder, the folder
/// itself when it matches, then the matches found in what was read of it
/// one level deeper; then the matching files.
pub open spec fn search_from(t: FsTree, i: int, path: Seq<char>, query: Seq<char>, level: int) -> Seq<
    NodeView,
>
    decreases t, t.folders@.len() - i,
{
    if i < 0 || i >= t.folders@.len() {
        file_nodes(t.files@.filter(|f: String| name_matches(f@, query)), path, level)
    } else {
        let f = t.folders@[i];
        let child = join_spec(path, f.name@);
        let here = if name_matches(f.name@, query) {
            seq![folder_node(path, f.name@, level)]
        } else {
            Seq::empty()
        };
        let below = match f.contents {
            Some(sub) => search_from(*sub, 0, child, query, level + 1),
            None => Seq::empty(),
        };
        here + below + search_from(t, i + 1, path, query, level)
    }
}

/// The matches of `query` in the directory `t` at `path`, from `level` on.
pub open spec fn search(t: FsTree, path: Seq<char>, query: Seq<char>, level: int) -> Seq<NodeView> {
    search_from(t, 0, path, query, level)
}

/// Whether `name` matches the search for `query`.
pub fn matches_query(name: &String, query: &Vec<char>) -> (r: bool)
    ensures
        r == name_matches(name@, query@),
        r == exists|k: int|
            0 <= k && k + query@.len() <= lowercase(name@).len() && #[trigger] lowercase(
                name@,
            ).subrange(k, k + query@.len()) == query@,
{
    let lower = to_lowercase(name.as_str());
    let cs = chars_of(lower.as_str());
    chars_contain(&cs, query)
}

/// Appends to `out` the entries of the directory `dir` at `root` whose
/// lowercase names contain `query`, shown at `level` and below, in the
/// order of `search`.
pub fn collect_search_matches(
    dir: &FsTree,
    root: &String,
    query: &Vec<char>,
    level: i32,
    out: &mut Vec<VisibleNode>,
)
    requires
        level as int + depth_from(*dir, 0) <= i32::MAX,
        fully_read_from(*dir, 0),
        tree_wf(*dir),
    ensures
        nodes_view(final(out)@) == nodes_view(old(out)@) + search(*dir, root@, query@, level as int),
        forall|k: int|
            old(out).len() <= k < final(out).len() ==> !is_hidden((#[trigger] final(out)@[k]).name@),
    decreases dir,
{
    let ghost target = nodes_view(out@) + search(*dir, root@, query@, level as int);
    let n = dir.folders.len();
    let mut i: usize = 0;
    while i < n
        invariant
            n == dir.folders.len(),
            i <= n,
            level as int + depth_from(*dir, i as int) <= i32::MAX,
            fully_read_from(*dir, i as int),
            tree_wf_from(*dir, i as int),
            nodes_view(out@) + search_from(*dir, i as int, root@, query@, level as int) == target,
        decreases n - i,
    {
        let f = &dir.folders[i];
        let path = join_path(root, &f.name);
        let ghost before = nodes_view(out@);
        if matches_query(&f.name, query) {
            out.push(
                VisibleNode { path: path.clone(), name: f.name.clone(), level: level, is_folder: true },
            );
            assert(nodes_view(out@) =~= before.push(out@[out@.len() - 1]@));
        }
        let ghost after_node = nodes_view(out@);
        match &f.contents {
            Some(sub) => {
                collect_search_matches(sub, &path, query, level + 1, out);
            },
            None => {},
        }
        proof {
            let rest = search_from(*dir, i + 1, root@, query@, level as int);
            let here = search_from(*dir, i as int, root@, query@, level as int);
            assert(nodes_view(out@) + rest =~= before + here);
        }
        i = i + 1;
    }
    let ghost pred = |f: String| name_matches(f@, query@);
    let m = dir.files.len();
    let mut j: usize = 0;
    proof {
        assert(dir.files@.skip(0) =~= dir.files@);
    }
    while j < m
        invariant
            m == dir.files.len(),
            j <= m,
            pred == (|f: String| name_matches(f@, query@)),
            nodes_view(out@) + file_nodes(dir.files@.skip(j as int).filter(pred), root@, level as int)
                == target,
        decreases m - j,
    {
        let ghost before = nodes_view(out@);
        let ghost tail = dir.files@.skip(j + 1);
        proof {
            assert(dir.files@.skip(j as int) =~= seq![dir.files@[j as int]] + tail);
            tail.lemma_filter_prepend(dir.files@[j as int], pred);
        }
        if matches_query(&dir.files[j], query) {
            out.push(
                VisibleNode {
                    path: join_path(root, &dir.files[j]),
                    name: dir.files[j].clone(),
                    level: level,
                    is_folder: false,
                },
            );
            proof {
                assert(nodes_view(out@) =~= before.push(out@[out@.len() - 1]@));
                assert(file_nodes(dir.files@.skip(j as int).filter(pred), root@, level as int) =~= seq![
                    out@[out@.len() - 1]@,
                ] + file_nodes(tail.filter(pred), root@, level as int));
            }
        }
        j = j + 1;
    }
    assert(dir.files@.skip(m as int) =~= Seq::<String>::empty());
    assert(dir.files@.skip(m as int).filter(pred) =~= Seq::<String>::empty());
    assert(nodes_view(out@) =~= target);
    proof {
        let found = search(*dir, root@, query@, level as int);
        lemma_search_not_hidden(*dir, 0, root@, query@, level as int);
        assert forall|k: int| old(out).len() <= k < out.len() implies !is_hidden(
            (#[trigger] out@[k]).name@,
        ) by {
            assert(nodes_view(out@)[k] == found[k - old(out).len()]);
        }
    }
}

/// The rows a tab shows: tab 1 the folders, tab 2 the files, any other tab
/// everything; in their order.
pub open spec fn tab_filter(nodes: Seq<NodeView>, tab: int) -> Seq<NodeView> {
    if tab == 1 {
        nodes.filter(|n: NodeView| n.is_folder)
    } else if tab == 2 {
        nodes.filter(|n: NodeView| !n.is_folder)
    } else {
        nodes
    }
}

/// The nodes that tab `tab` shows.
pub fn apply_tab_filter(nodes: &Vec<VisibleNode>, tab: i32) -> (r: Vec<VisibleNode>)
    ensures
        nodes_view(r@) == tab_filter(nodes_view(nodes@), tab as int),
{
    let ghost pred = if tab == 1 {
        |n: NodeView| n.is_folder
    } else if tab == 2 {
        |n: NodeView| !n.is_folder
    } else {
        |n: NodeView| true
    };
    let mut r: Vec<VisibleNode> = Vec::new();
    let n = nodes.len();
    let mut i: usize = 0;
    while i < n
        invariant
            n == nodes.len(),
            i <= n,
            pred == (if tab == 1 {
                |n: NodeView| n.is_folder
            } else if tab == 2 {
                |n: NodeView| !n.is_folder
            } else {
                |n: NodeView| true
            }),
            nodes_view(r@) == nodes_view(nodes@).take(i as int).filter(pred),
        decreases n - i,
    {
        let ghost before = nodes_view(r@);
        let ghost prefix = nodes_view(nodes@).take(i as int);
        proof {
            assert(nodes_view(nodes@).take(i + 1) =~= prefix.push(nodes@[i as int]@));
            reveal_with_fuel(Seq::filter, 1);
            assert(prefix.push(nodes@[i as int]@).drop_last() =~= prefix);
        }
        let keep = if tab == 1 {
            nodes[i].is_folder
        } else if tab == 2 {
            !nodes[i].is_folder
        } else {
            true
        };
        if keep {
            r.push(nodes[i].duplicate());
            assert(nodes_view(r@) =~= before.push(nodes@[i as int]@));
        }
        i = i + 1;
    }
    proof {
        assert(nodes_view(nodes@).take(n as int) =~= nodes_view(nodes@));
        if tab != 1 && tab != 2 {
            lemma_filter_true(nodes_view(nodes@));
        }
    }
    r
}

proof fn lemma_filter_true(s: Seq<NodeView>)
    ensures
        s.filter(|n: NodeView| true) == s,
    decreases s.len(),
{
    reveal_with_fuel(Seq::filter, 1);
    if s.len() > 0 {
        lemma_filter_true(s.drop_last());
        assert(s.drop_last().push(s.last()) =~= s);
    }
    assert(s.filter(|n: NodeView| true) =~= s);
}

/// A joined path starts with the base and ends with the name.
pub proof fn lemma_join(base: Seq<char>, name: Seq<char>)
    ensures
        join_spec(base, name).len() == base.len() + name.len() + (if base.len() == 0 || base.last()
            == '/' {
            0int
        } else {
            1int
        }),
        !(base.len() == 0 || base.last() == '/') ==> join_spec(base, name)[base.len() as int] == '/',
        join_spec(base, name).take(base.len() as int) == base,
        join_spec(base, name).skip(join_spec(base, name).len() - name.len()) == name,
{
    let j = join_spec(base, name);
    assert(j.take(base.len() as int) =~= base);
    assert(j.skip(j.len() - name.len()) =~= name);
}

/// With no folder expanded, a directory shows each of its folders (from
/// folder `i` on) at its own level, then its files: nothing of what lies
/// below.
pub proof fn lemma_collapsed_is_flat(t: FsTree, i: int, path: Seq<char>, level: int)
    requires
        0 <= i <= t.folders@.len(),
    ensures
        visible_from(t, i, path, level, Set::empty()) == Seq::new(
            (t.folders@.len() - i) as nat,
            |k: int|
                NodeView {
                    path: join_spec(path, t.folders@[i + k].name@),
                    name: t.folders@[i + k].name@,
                    level: level,
                    is_folder: true,
                },
        ) + Seq::new(
            t.files@.len(),
            |k: int|
                NodeView {
                    path: join_spec(path, t.files@[k]@),
                    name: t.files@[k]@,
                    level: level,
                    is_folder: false,
                },
        ),
    decreases t.folders@.len() - i,
{
    let files = Seq::new(
        t.files@.len(),
        |k: int|
            NodeView {
                path: join_spec(path, t.files@[k]@),
                name: t.files@[k]@,
                level: level,
                is_folder: false,
            },
    );
    assert(file_nodes(t.files@, path, level) =~= files);
    let folders = Seq::new(
        (t.folders@.len() - i) as nat,
        |k: int|
            NodeView {
                path: join_spec(path, t.folders@[i + k].name@),
                name: t.folders@[i + k].name@,
                level: level,
                is_folder: true,
            },
    );
    if i < t.folders@.len() {
        lemma_collapsed_is_flat(t, i + 1, path, level);
        assert(visible_from(t, i, path, level, Set::empty()) =~= folders + files);
    } else {
        assert(visible_from(t, i, path, level, Set::empty()) =~= folders + files);
    }
}

/// What a directory shows from folder `j` on, it shows from any earlier
/// folder `i` on too.
proof fn lemma_visible_tail(
    t: FsTree,
    i: int,
    j: int,
    path: Seq<char>,
    level: int,
    expanded: Set<Seq<char>>,
)
    requires
        0 <= i <= j,
    ensures
        forall|x: NodeView|
            #[trigger] visible_from(t, j, path, level, expanded).contains(x) ==> visible_from(
                t,
                i,
                path,
                level,
                expanded,
            ).contains(x),
    decreases j - i,
{
    if i < j {
        lemma_visible_tail(t, i + 1, j, path, level, expanded);
        if i < t.folders@.len() {
            let f = t.folders@[i];
            let child = join_spec(path, f.name@);
            let below = if expanded.contains(child) {
                match f.contents {
                    Some(sub) => visible_from(*sub, 0, child, level + 1, expanded),
                    None => Seq::empty(),
                }
            } else {
                Seq::empty()
            };
            let head = seq![folder_node(path, f.name@, level)];
            let rest = visible_from(t, i + 1, path, level, expanded);
            let whole = visible_from(t, i, path, level, expanded);
            assert(whole == head + below + rest);
            assert forall|x: NodeView| #[trigger] rest.contains(x) implies whole.contains(x) by {
                let m = choose|m: int| 0 <= m < rest.len() && rest[m] == x;
                assert(whole[1 + below.len() + m] == x);
            }
        } else {
            assert(visible_from(t, i, path, level, expanded) == visible_from(
                t,
                i + 1,
                path,
                level,
                expanded,
            ));
        }
    }
}

/// A directory shows every one of its folders and files at its level, and,
/// right after an expanded folder that was read, everything that folder
/// shows one level deeper.
pub proof fn lemma_visible_complete(t: FsTree, path: Seq<char>, level: int, expanded: Set<Seq<char>>)
    ensures
        forall|j: int|
            0 <= j < t.files@.len() ==> visible(t, path, level, expanded).contains(
                NodeView {
                    path: join_spec(path, #[trigger] t.files@[j]@),
                    name: t.files@[j]@,
                    level: level,
                    is_folder: false,
                },
            ),
        forall|j: int|
            0 <= j < t.folders@.len() ==> visible(t, path, level, expanded).contains(
                NodeView {
                    path: join_spec(path, (#[trigger] t.folders@[j]).name@),
                    name: t.folders@[j].name@,
                    level: level,
                    is_folder: true,
                },
            ),
        forall|j: int, x: NodeView|
            0 <= j < t.folders@.len() && t.folders@[j].contents is Some && expanded.contains(
                join_spec(path, t.folders@[j].name@),
            ) && #[trigger] visible(
                *t.folders@[j].contents->0,
                join_spec(path, t.folders@[j].name@),
                level + 1,
                expanded,
            ).contains(x) ==> visible(t, path, level, expanded).contains(x),
{
    let n = t.folders@.len() as int;
    assert forall|j: int|
        0 <= j < t.files@.len() implies visible(t, path, level, expanded).contains(
            NodeView {
                path: join_spec(path, #[trigger] t.files@[j]@),
                name: t.files@[j]@,
                level: level,
                is_folder: false,
            },
        ) by {
        let last = visible_from(t, n, path, level, expanded);
        assert(last == file_nodes(t.files@, path, level));
        assert(last.contains(last[j]));
        lemma_visible_tail(t, 0, n, path, level, expanded);
    }
    assert forall|j: int|
        0 <= j < t.folders@.len() implies visible(t, path, level, expanded).contains(
            NodeView {
                path: join_spec(path, (#[trigger] t.folders@[j]).name@),
                name: t.folders@[j].name@,
                level: level,
                is_folder: true,
            },
        ) by {
        let here = visible_from(t, j, path, level, expanded);
        assert(here[0] == folder_node(path, t.folders@[j].name@, level));
        assert(here.contains(here[0]));
        lemma_visible_tail(t, 0, j, path, level, expanded);
    }
    assert forall|j: int, x: NodeView|
        0 <= j < t.folders@.len() && t.folders@[j].contents is Some && expanded.contains(
            join_spec(path, t.folders@[j].name@),
        ) && #[trigger] visible(
            *t.folders@[j].contents->0,
            join_spec(path, t.folders@[j].name@),
            level + 1,
            expanded,
        ).contains(x) implies visible(t, path, level, expanded).contains(x) by {
        let f = t.folders@[j];
        let child = join_spec(path, f.name@);
        let below = visible_from(*f.contents->0, 0, child, level + 1, expanded);
        let rest = visible_from(t, j + 1, path, level, expanded);
        let here = visible_from(t, j, path, level, expanded);
        assert(here == seq![folder_node(path, f.name@, level)] + below + rest);
        let m = choose|m: int| 0 <= m < below.len() && below[m] == x;
        assert(here[1 + m] == x);
        assert(here.contains(x));
        lemma_visible_tail(t, 0, j, path, level, expanded);
    }
}

/// Every row a directory shows sits at its level or deeper.
pub proof fn lemma_visible_levels(
    t: FsTree,
    i: int,
    path: Seq<char>,
    level: int,
    expanded: Set<Seq<char>>,
)
    ensures
        forall|k: int|
            0 <= k < visible_from(t, i, path, level, expanded).len() ==> (#[trigger] visible_from(
                t,
                i,
                path,
                level,
                expanded,
            )[k]).level >= level,
    decreases t, t.folders@.len() - i,
{
    if 0 <= i < t.folders@.len() {
        let f = t.folders@[i];
        let child = join_spec(path, f.name@);
        lemma_visible_levels(t, i + 1, path, level, expanded);
        let below = if expanded.contains(child) {
            match f.contents {
                Some(sub) => visible_from(*sub, 0, child, level + 1, expanded),
                None => Seq::empty(),
            }
        } else {
            Seq::empty()
        };
        if expanded.contains(child) {
            match f.contents {
                Some(sub) => {
                    lemma_visible_levels(*sub, 0, child, level + 1, expanded);
                },
                None => {},
            }
        }
        let head = seq![folder_node(path, f.name@, level)];
        let rest = visible_from(t, i + 1, path, level, expanded);
        let whole = visible_from(t, i, path, level, expanded);
        assert(whole == head + below + rest);
        assert forall|k: int| 0 <= k < whole.len() implies (#[trigger] whole[k]).level >= level by {
            if k < 1 {
            } else if k < 1 + below.len() {
                assert(whole[k] == below[k - 1]);
            } else {
                assert(whole[k] == rest[k - 1 - below.len()]);
            }
        }
    }
}

/// A well-formed directory shows no hidden name.
pub proof fn lemma_visible_not_hidden(
    t: FsTree,
    i: int,
    path: Seq<char>,
    level: int,
    expanded: Set<Seq<char>>,
)
    requires
        0 <= i,
        tree_wf_from(t, i),
    ensures
        forall|k: int|
            0 <= k < visible_from(t, i, path, level, expanded).len() ==> !is_hidden(
                (#[trigger] visible_from(t, i, path, level, expanded)[k]).name,
            ),
    decreases t, t.folders@.len() - i,
{
    lemma_wf_level(t, i);
    let whole = visible_from(t, i, path, level, expanded);
    if i < t.folders@.len() {
        let f = t.folders@[i];
        let child = join_spec(path, f.name@);
        lemma_visible_not_hidden(t, i + 1, path, level, expanded);
        let below = if expanded.contains(child) {
            match f.contents {
                Some(sub) => visible_from(*sub, 0, child, level + 1, expanded),
                None => Seq::empty(),
            }
        } else {
            Seq::empty()
        };
        if expanded.contains(child) {
            match f.contents {
                Some(sub) => {
                    lemma_visible_not_hidden(*sub, 0, child, level + 1, expanded);
                },
                None => {},
            }
        }
        let head = seq![folder_node(path, f.name@, level)];
        let rest = visible_from(t, i + 1, path, level, expanded);
        assert(whole == head + below + rest);
        assert(folder_names(t)[i] == f.name@);
        assert forall|k: int| 0 <= k < whole.len() implies !is_hidden((#[trigger] whole[k]).name) by {
            if k < 1 {
            } else if k < 1 + below.len() {
                assert(whole[k] == below[k - 1]);
            } else {
                assert(whole[k] == rest[k - 1 - below.len()]);
            }
        }
    } else {
        assert forall|k: int| 0 <= k < whole.len() implies !is_hidden((#[trigger] whole[k]).name) by {
            assert(whole[k].name == file_names(t)[k]);
        }
    }
}

/// A search in a well-formed directory finds no hidden name.
pub proof fn lemma_search_not_hidden(t: FsTree, i: int, path: Seq<char>, query: Seq<char>, level: int)
    requires
        0 <= i,
        tree_wf_from(t, i),
    ensures
        forall|k: int|
            0 <= k < search_from(t, i, path, query, level).len() ==> !is_hidden(
                (#[trigger] search_from(t, i, path, query, level)[k]).name,
            ),
    decreases t, t.folders@.len() - i,
{
    lemma_wf_level(t, i);
    let whole = search_from(t, i, path, query, level);
    if i < t.folders@.len() {
        let f = t.folders@[i];
        let child = join_spec(path, f.name@);
        lemma_search_not_hidden(t, i + 1, path, query, level);
        let below = match f.contents {
            Some(sub) => search_from(*sub, 0, child, query, level + 1),
            None => Seq::empty(),
        };
        match f.contents {
            Some(sub) => {
                lemma_search_not_hidden(*sub, 0, child, query, level + 1);
            },
            None => {},
        }
        let head = if name_matches(f.name@, query) {
            seq![folder_node(path, f.name@, level)]
        } else {
            Seq::empty()
        };
        let rest = search_from(t, i + 1, path, query, level);
        assert(whole == head + below + rest);
        assert(folder_names(t)[i] == f.name@);
        assert forall|k: int| 0 <= k < whole.len() implies !is_hidden((#[trigger] whole[k]).name) by {
            if k < head.len() {
            } else if k < head.len() + below.len() {
                assert(whole[k] == below[k - head.len()]);
            } else {
                assert(whole[k] == rest[k - head.len() - below.len()]);
            }
        }
    } else {
        let pred = |g: String| name_matches(g@, query);
        let fs = t.files@.filter(pred);
        assert forall|k: int| 0 <= k < whole.len() implies !is_hidden((#[trigger] whole[k]).name) by {
            assert(fs.contains(fs[k]));
            t.files@.lemma_filter_contains_rev(pred, fs[k]);
            let j = choose|j: int| 0 <= j < t.files@.len() && t.files@[j] == fs[k];
            assert(file_names(t)[j] == whole[k].name);
        }
    }
}

/// What a search finds from folder `j` on, it finds from any earlier
/// folder `i` on too.
proof fn lemma_search_tail(t: FsTree, i: int, j: int, path: Seq<char>, query: Seq<char>, level: int)
    requires
        0 <= i <= j,
    ensures
        forall|x: NodeView|
            #[trigger] search_from(t, j, path, query, level).contains(x) ==> search_from(
                t,
                i,
                path,
                query,
                level,
            ).contains(x),
    decreases j - i,
{
    if i < j {
        lemma_search_tail(t, i + 1, j, path, query, level);
        if i < t.folders@.len() {
            let f = t.folders@[i];
            let child = join_spec(path, f.name@);
            let head = if name_matches(f.name@, query) {
                seq![folder_node(path, f.name@, level)]
            } else {
                Seq::empty()
            };
            let below = match f.contents {
                Some(sub) => search_from(*sub, 0, child, query, level + 1),
                None => Seq::empty(),
            };
            let rest = search_from(t, i + 1, path, query, level);
            let whole = search_from(t, i, path, query, level);
            assert(whole == head + below + rest);
            assert forall|x: NodeView| #[trigger] rest.contains(x) implies whole.contains(x) by {
                let m = choose|m: int| 0 <= m < rest.len() && rest[m] == x;
                assert(whole[head.len() + below.len() + m] == x);
            }
        } else {
            assert(search_from(t, i, path, query, level) == search_from(t, i + 1, path, query, level));
        }
    }
}

/// A search misses nothing: every file and every folder of the directory
/// whose lowercase name contains the query as a run of consecutive
/// characters is found, whatever the query's length, at the level of the
/// search; and everything the search finds inside a folder that was read
/// is found too.
pub proof fn lemma_search_complete(t: FsTree, path: Seq<char>, query: Seq<char>, level: int)
    ensures
        forall|j: int, k: int|
            0 <= j < t.files@.len() && 0 <= k && k + query.len() <= lowercase(t.files@[j]@).len()
                && #[trigger] lowercase(t.files@[j]@).subrange(k, k + query.len()) == query
                ==> search(t, path, query, level).contains(
                NodeView {
                    path: join_spec(path, t.files@[j]@),
                    name: t.files@[j]@,
                    level: level,
                    is_folder: false,
                },
            ),
        forall|j: int, k: int|
            0 <= j < t.folders@.len() && 0 <= k && k + query.len() <= lowercase(
                t.folders@[j].name@,
            ).len() && #[trigger] lowercase(t.folders@[j].name@).subrange(k, k + query.len())
                == query ==> search(t, path, query, level).contains(
                NodeView {
                    path: join_spec(path, t.folders@[j].name@),
                    name: t.folders@[j].name@,
                    level: level,
                    is_folder: true,
                },
            ),
        forall|j: int, x: NodeView|
            0 <= j < t.folders@.len() && t.folders@[j].contents is Some && #[trigger] search(
                *t.folders@[j].contents->0,
                join_spec(path, t.folders@[j].name@),
                query,
                level + 1,
            ).contains(x) ==> search(t, path, query, level).contains(x),
{
    let n = t.folders@.len() as int;
    let pred = |g: String| name_matches(g@, query);
    assert forall|j: int, k: int|
        0 <= j < t.files@.len() && 0 <= k && k + query.len() <= lowercase(t.files@[j]@).len()
            && #[trigger] lowercase(t.files@[j]@).subrange(k, k + query.len()) == query
            implies search(t, path, query, level).contains(
            NodeView {
                path: join_spec(path, t.files@[j]@),
                name: t.files@[j]@,
                level: level,
                is_folder: false,
            },
        ) by {
        let node = NodeView {
            path: join_spec(path, t.files@[j]@),
            name: t.files@[j]@,
            level: level,
            is_folder: false,
        };
        assert(pred(t.files@[j]));
        t.files@.lemma_filter_contains(pred, j);
        let fs = t.files@.filter(pred);
        let m = choose|m: int| 0 <= m < fs.len() && fs[m] == t.files@[j];
        let last = search_from(t, n, path, query, level);
        assert(last == file_nodes(fs, path, level));
        assert(last[m] == node);
        assert(last.contains(node));
        lemma_search_tail(t, 0, n, path, query, level);
    }
    assert forall|j: int, k: int|
        0 <= j < t.folders@.len() && 0 <= k && k + query.len() <= lowercase(
            t.folders@[j].name@,
        ).len() && #[trigger] lowercase(t.folders@[j].name@).subrange(k, k + query.len())
            == query implies search(t, path, query, level).contains(
            NodeView {
                path: join_spec(path, t.folders@[j].name@),
                name: t.folders@[j].name@,
                level: level,
                is_folder: true,
            },
        ) by {
        let here = search_from(t, j, path, query, level);
        assert(name_matches(t.folders@[j].name@, query));
        assert(here[0] == folder_node(path, t.folders@[j].name@, level));
        assert(here.contains(here[0]));
        lemma_search_tail(t, 0, j, path, query, level);
    }
    assert forall|j: int, x: NodeView|
        0 <= j < t.folders@.len() && t.folders@[j].contents is Some && #[trigger] search(
            *t.folders@[j].contents->0,
            join_spec(path, t.folders@[j].name@),
            query,
            level + 1,
        ).contains(x) implies search(t, path, query, level).contains(x) by {
        let f = t.folders@[j];
        let child = join_spec(path, f.name@);
        let sub = f.contents->0;
        let below = search_from(*sub, 0, child, query, level + 1);
        let head = if name_matches(f.name@, query) {
            seq![folder_node(path, f.name@, level)]
        } else {
            Seq::empty()
        };
        let rest = search_from(t, j + 1, path, query, level);
        let here = search_from(t, j, path, query, level);
        assert(here == head + below + rest);
        let m = choose|m: int| 0 <= m < below.len() && below[m] == x;
        assert(here[head.len() + m] == x);
        assert(here.contains(x));
        lemma_search_tail(t, 0, j, path, query, level);
    }
}

/// Every entry a search finds has a name that matches the query, and sits
/// at the level of the search or deeper.
pub proof fn lemma_search_sound(t: FsTree, i: int, path: Seq<char>, query: Seq<char>, level: int)
    ensures
        forall|k: int|
            0 <= k < search_from(t, i, path, query, level).len() ==> name_matches(
                (#[trigger] search_from(t, i, path, query, level)[k]).name,
                query,
            ) && search_from(t, i, path, query, level)[k].level >= level,
    decreases t, t.folders@.len() - i,
{
    if 0 <= i < t.folders@.len() {
        let f = t.folders@[i];
        let child = join_spec(path, f.name@);
        lemma_search_sound(t, i + 1, path, query, level);
        let below = match f.contents {
            Some(sub) => search_from(*sub, 0, child, query, level + 1),
            None => Seq::empty(),
        };
        match f.contents {
            Some(sub) => {
                lemma_search_sound(*sub, 0, child, query, level + 1);
            },
            None => {},
        }
        let head = if name_matches(f.name@, query) {
            seq![folder_node(path, f.name@, level)]
        } else {
            Seq::empty()
        };
        let rest = search_from(t, i + 1, path, query, level);
        let whole = search_from(t, i, path, query, level);
        assert(whole == head + below + rest);
        assert forall|k: int| 0 <= k < whole.len() implies name_matches(
            (#[trigger] whole[k]).name,
            query,
        ) && whole[k].level >= level by {
            if k < head.len() {
            } else if k < head.len() + below.len() {
                assert(whole[k] == below[k - head.len()]);
            } else {
                assert(whole[k] == rest[k - head.len() - below.len()]);
            }
        }
    } else {
        let pred = |f: String| name_matches(f@, query);
        let fs = t.files@.filter(pred);
        assert forall|k: int| 0 <= k < fs.len() implies name_matches(#[trigger] fs[k]@, query) by {
            t.files@.lemma_filter_pred(pred, k);
        }
    }
}

/// Tab 1 shows the folders and tab 2 the files, so that together they show
/// every row once; showing a tab's rows through the same tab again changes
/// nothing.
pub proof fn lemma_tab_filter(nodes: Seq<NodeView>, tab: int)
    ensures
        tab_filter(tab_filter(nodes, tab), tab) == tab_filter(nodes, tab),
        tab_filter(nodes, 1).len() + tab_filter(nodes, 2).len() == nodes.len(),
        tab != 1 && tab != 2 ==> tab_filter(nodes, tab) == nodes,
        forall|k: int|
            0 <= k < nodes.len() && (#[trigger] nodes[k]).is_folder ==> tab_filter(nodes, 1).contains(
                nodes[k],
            ),
        forall|k: int|
            0 <= k < nodes.len() && !(#[trigger] nodes[k]).is_folder ==> tab_filter(
                nodes,
                2,
            ).contains(nodes[k]),
        forall|k: int| 0 <= k < tab_filter(nodes, 1).len() ==> (#[trigger] tab_filter(nodes, 1)[k]).is_folder,
        forall|k: int| 0 <= k < tab_filter(nodes, 2).len() ==> !(#[trigger] tab_filter(nodes, 2)[k]).is_folder,
    decreases nodes.len(),
{
    broadcast use vstd::seq_lib::group_filter_ensures;

    let p1 = |n: NodeView| n.is_folder;
    let p2 = |n: NodeView| !n.is_folder;
    lemma_filter_twice(nodes, p1);
    lemma_filter_twice(nodes, p2);
    lemma_filter_complement(nodes);
    assert forall|k: int| 0 <= k < nodes.len() && (#[trigger] nodes[k]).is_folder implies tab_filter(
        nodes,
        1,
    ).contains(nodes[k]) by {
        nodes.lemma_filter_contains(p1, k);
    }
    assert forall|k: int| 0 <= k < nodes.len() && !(#[trigger] nodes[k]).is_folder implies tab_filter(
        nodes,
        2,
    ).contains(nodes[k]) by {
        nodes.lemma_filter_contains(p2, k);
    }
}

proof fn lemma_filter_twice(s: Seq<NodeView>, p: spec_fn(NodeView) -> bool)
    ensures
        s.filter(p).filter(p) == s.filter(p),
    decreases s.len(),
{
    reveal_with_fuel(Seq::filter, 1);
    if s.len() > 0 {
        lemma_filter_twice(s.drop_last(), p);
        if p(s.last()) {
            assert(s.filter(p).drop_last() =~= s.drop_last().filter(p));
        }
    }
    assert(s.filter(p).filter(p) =~= s.filter(p));
}

proof fn lemma_filter_complement(s: Seq<NodeView>)
    ensures
        s.filter(|n: NodeView| n.is_folder).len() + s.filter(|n: NodeView| !n.is_folder).len()
            == s.len(),
    decreases s.len(),
{
    reveal_with_fuel(Seq::filter, 1);
    if s.len() > 0 {
        lemma_filter_complement(s.drop_last());
    }
}

proof fn lemma_filter_keeps_all<A>(s: Seq<A>, p: spec_fn(A) -> bool)
    requires
        forall|x: A| #[trigger] p(x),
    ensures
        s.filter(p) == s,
    decreases s.len(),
{
    reveal_with_fuel(Seq::filter, 1);
    if s.len() > 0 {
        lemma_filter_keeps_all(s.drop_last(), p);
        assert(s.drop_last().push(s.last()) =~= s);
    }
    assert(s.filter(p) =~= s);
}

/// Every folder below the directory `t` at `path`, from its folder `i` on,
/// is expanded.
pub open spec fn all_expanded_from(t: FsTree, i: int, path: Seq<char>, expanded: Set<Seq<char>>) -> bool
    decreases t, t.folders@.len() - i,
{
    if i < 0 || i >= t.folders@.len() {
        true
    } else {
        let f = t.folders@[i];
        let child = join_spec(path, f.name@);
        &&& expanded.contains(child)
        &&& match f.contents {
            Some(sub) => all_expanded_from(*sub, 0, child, expanded),
            None => true,
        }
        &&& all_expanded_from(t, i + 1, path, expanded)
    }
}

/// Every name matches the empty query.
pub proof fn lemma_empty_query_matches(name: Seq<char>)
    ensures
        name_matches(name, Seq::empty()),
{
    let l = lowercase(name);
    assert(l.subrange(0, 0 + Seq::<char>::empty().len() as int) =~= Seq::<char>::empty());
}

/// Searching for the empty text finds, in order, exactly the rows the
/// directory shows when every folder below it is expanded.
pub proof fn lemma_empty_query_is_expanded_tree(
    t: FsTree,
    i: int,
    path: Seq<char>,
    level: int,
    expanded: Set<Seq<char>>,
)
    requires
        all_expanded_from(t, i, path, expanded),
    ensures
        search_from(t, i, path, Seq::empty(), level) == visible_from(t, i, path, level, expanded),
    decreases t, t.folders@.len() - i,
{
    if 0 <= i < t.folders@.len() {
        let f = t.folders@[i];
        let child = join_spec(path, f.name@);
        lemma_empty_query_matches(f.name@);
        lemma_empty_query_is_expanded_tree(t, i + 1, path, level, expanded);
        match f.contents {
            Some(sub) => {
                lemma_empty_query_is_expanded_tree(*sub, 0, child, level + 1, expanded);
            },
            None => {},
        }
    } else {
        let pred = |g: String| name_matches(g@, Seq::empty());
        assert forall|g: String| #[trigger] pred(g) by {
            lemma_empty_query_matches(g@);
        }
        lemma_filter_keeps_all(t.files@, pred);
    }
}

/// `f` places the items of `a`, in order, at positions of `b` that hold them.
pub open spec fn embeds<A>(a: Seq<A>, b: Seq<A>, f: spec_fn(int) -> int) -> bool {
    &&& forall|k: int| 0 <= k < a.len() ==> 0 <= #[trigger] f(k) < b.len() && a[k] == b[f(k)]
    &&& forall|k: int, l: int| 0 <= k < l < a.len() ==> #[trigger] f(k) < #[trigger] f(l)
}

/// `a` is `b` with some items left out (a subsequence of it).
pub open spec fn is_subseq<A>(a: Seq<A>, b: Seq<A>) -> bool {
    exists|f: spec_fn(int) -> int| #[trigger] embeds(a, b, f)
}

proof fn lemma_subseq_concat<A>(a1: Seq<A>, b1: Seq<A>, a2: Seq<A>, b2: Seq<A>)
    requires
        is_subseq(a1, b1),
        is_subseq(a2, b2),
    ensures
        is_subseq(a1 + a2, b1 + b2),
{
    let f1 = choose|f: spec_fn(int) -> int| #[trigger] embeds(a1, b1, f);
    let f2 = choose|f: spec_fn(int) -> int| #[trigger] embeds(a2, b2, f);
    let n1 = a1.len() as int;
    let m1 = b1.len() as int;
    let f = |k: int| if k < n1 { f1(k) } else { m1 + f2(k - n1) };
    let a = a1 + a2;
    let b = b1 + b2;
    assert forall|k: int| 0 <= k < a.len() implies 0 <= #[trigger] f(k) < b.len() && a[k] == b[f(k)] by {
        if k < n1 {
            assert(0 <= f1(k) < b1.len());
        } else {
            assert(0 <= f2(k - n1) < b2.len());
        }
    }
    assert forall|k: int, l: int| 0 <= k < l < a.len() implies #[trigger] f(k) < #[trigger] f(l) by {
        if l < n1 {
            assert(f1(k) < f1(l));
        } else if k < n1 {
            assert(0 <= f1(k) < b1.len());
            assert(0 <= f2(l - n1));
        } else {
            assert(f2(k - n1) < f2(l - n1));
        }
    }
    assert(embeds(a, b, f));
}

proof fn lemma_subseq_refl<A>(a: Seq<A>)
    ensures
        is_subseq(a, a),
{
    let f = |k: int| k;
    assert(embeds(a, a, f));
}

proof fn lemma_subseq_empty<A>(b: Seq<A>)
    ensures
        is_subseq(Seq::<A>::empty(), b),
{
    let f = |k: int| k;
    assert(embeds(Seq::<A>::empty(), b, f));
}

proof fn lemma_subseq_map<A, B>(a: Seq<A>, b: Seq<A>, g: spec_fn(A) -> B)
    requires
        is_subseq(a, b),
    ensures
        is_subseq(a.map_values(g), b.map_values(g)),
{
    let f = choose|f: spec_fn(int) -> int| #[trigger] embeds(a, b, f);
    assert(embeds(a.map_values(g), b.map_values(g), f));
}

proof fn lemma_subseq_filter<A>(s: Seq<A>, strong: spec_fn(A) -> bool, weak: spec_fn(A) -> bool)
    requires
        forall|x: A| #[trigger] strong(x) ==> weak(x),
    ensures
        is_subseq(s.filter(strong), s.filter(weak)),
    decreases s.len(),
{
    reveal_with_fuel(Seq::filter, 1);
    if s.len() == 0 {
        lemma_subseq_empty(s.filter(weak));
        assert(s.filter(strong) =~= Seq::<A>::empty());
    } else {
        let rest = s.drop_last();
        let x = s.last();
        lemma_subseq_filter(rest, strong, weak);
        assert(s.filter(strong) == if strong(x) {
            rest.filter(strong).push(x)
        } else {
            rest.filter(strong)
        });
        assert(s.filter(weak) == if weak(x) {
            rest.filter(weak).push(x)
        } else {
            rest.filter(weak)
        });
        if strong(x) {
            lemma_subseq_refl(seq![x]);
            lemma_subseq_concat(rest.filter(strong), rest.filter(weak), seq![x], seq![x]);
            assert(rest.filter(strong) + seq![x] =~= s.filter(strong));
            assert(rest.filter(weak) + seq![x] =~= s.filter(weak));
        } else if weak(x) {
            lemma_subseq_empty(seq![x]);
            lemma_subseq_concat(rest.filter(strong), rest.filter(weak), Seq::<A>::empty(), seq![x]);
            assert(rest.filter(strong) + Seq::<A>::empty() =~= s.filter(strong));
            assert(rest.filter(weak) + seq![x] =~= s.filter(weak));
        } else {
            assert(s.filter(strong) == rest.filter(strong));
            assert(s.filter(weak) == rest.filter(weak));
        }
    }
}

proof fn lemma_contains_sub_trans(s: Seq<char>, q2: Seq<char>, q1: Seq<char>)
    requires
        contains_sub(s, q2),
        contains_sub(q2, q1),
    ensures
        contains_sub(s, q1),
{
    let k = choose|k: int| 0 <= k && k + q2.len() <= s.len() && #[trigger] s.subrange(k, k + q2.len()) == q2;
    let m = choose|m: int| 0 <= m && m + q1.len() <= q2.len() && #[trigger] q2.subrange(m, m + q1.len()) == q1;
    assert(s.subrange(k + m, k + m + q1.len()) =~= q1);
}

/// A query that contains another never finds more: what a search for `q2`
/// finds is what a search for `q1`, a part of `q2`, finds, with some
/// entries left out and the rest in the same order.
pub proof fn lemma_longer_query_finds_less(
    t: FsTree,
    i: int,
    path: Seq<char>,
    q1: Seq<char>,
    q2: Seq<char>,
    level: int,
)
    requires
        contains_sub(q2, q1),
    ensures
        is_subseq(search_from(t, i, path, q2, level), search_from(t, i, path, q1, level)),
    decreases t, t.folders@.len() - i,
{
    if 0 <= i < t.folders@.len() {
        let f = t.folders@[i];
        let child = join_spec(path, f.name@);
        lemma_longer_query_finds_less(t, i + 1, path, q1, q2, level);
        let h1 = if name_matches(f.name@, q1) {
            seq![folder_node(path, f.name@, level)]
        } else {
            Seq::empty()
        };
        let h2 = if name_matches(f.name@, q2) {
            seq![folder_node(path, f.name@, level)]
        } else {
            Seq::empty()
        };
        if name_matches(f.name@, q2) {
            lemma_contains_sub_trans(lowercase(f.name@), q2, q1);
            lemma_subseq_refl(h1);
        } else {
            lemma_subseq_empty(h1);
        }
        let b1 = match f.contents {
            Some(sub) => search_from(*sub, 0, child, q1, level + 1),
            None => Seq::empty(),
        };
        let b2 = match f.contents {
            Some(sub) => search_from(*sub, 0, child, q2, level + 1),
            None => Seq::empty(),
        };
        match f.contents {
            Some(sub) => {
                lemma_longer_query_finds_less(*sub, 0, child, q1, q2, level + 1);
            },
            None => {
                lemma_subseq_refl(b1);
            },
        }
        let r1 = search_from(t, i + 1, path, q1, level);
        let r2 = search_from(t, i + 1, path, q2, level);
        lemma_subseq_concat(h2, h1, b2, b1);
        lemma_subseq_concat(h2 + b2, h1 + b1, r2, r1);
    } else {
        let p1 = |g: String| name_matches(g@, q1);
        let p2 = |g: String| name_matches(g@, q2);
        assert forall|g: String| #[trigger] p2(g) implies p1(g) by {
            lemma_contains_sub_trans(lowercase(g@), q2, q1);
        }
        lemma_subseq_filter(t.files@, p2, p1);
        lemma_subseq_map(
            t.files@.filter(p2),
            t.files@.filter(p1),
            |g: String| NodeView { path: join_spec(path, g@), name: g@, level: level, is_folder: false },
        );
    }
}

/// Expanding or collapsing the folder at `p` changes what a directory
/// shows only after a folder row for `p`: either nothing changes, or some
/// row `k` is a folder row for `p` and the rows up to and including `k`
/// stay as they were.
pub proof fn lemma_toggle_changes_after_row(
    t: FsTree,
    i: int,
    path: Seq<char>,
    level: int,
    exp1: Set<Seq<char>>,
    exp2: Set<Seq<char>>,
    p: Seq<char>,
)
    requires
        forall|q: Seq<char>| q != p ==> exp1.contains(q) == exp2.contains(q),
    ensures
        ({
            let v1 = visible_from(t, i, path, level, exp1);
            let v2 = visible_from(t, i, path, level, exp2);
            ||| v1 == v2
            ||| exists|k: int|
                0 <= k < v1.len() && k < v2.len() && (#[trigger] v1[k]).is_folder && v1[k].path == p
                    && v1.take(k + 1) == v2.take(k + 1)
        }),
    decreases t, t.folders@.len() - i,
{
    let v1 = visible_from(t, i, path, level, exp1);
    let v2 = visible_from(t, i, path, level, exp2);
    if 0 <= i < t.folders@.len() {
        let f = t.folders@[i];
        let child = join_spec(path, f.name@);
        let node = folder_node(path, f.name@, level);
        if child == p {
            assert(v1[0] == node);
            assert(v1.take(1) =~= v2.take(1));
        } else {
            let b1 = if exp1.contains(child) {
                match f.contents {
                    Some(sub) => visible_from(*sub, 0, child, level + 1, exp1),
                    None => Seq::empty(),
                }
            } else {
                Seq::empty()
            };
            let b2 = if exp2.contains(child) {
                match f.contents {
                    Some(sub) => visible_from(*sub, 0, child, level + 1, exp2),
                    None => Seq::empty(),
                }
            } else {
                Seq::empty()
            };
            let r1 = visible_from(t, i + 1, path, level, exp1);
            let r2 = visible_from(t, i + 1, path, level, exp2);
            assert(v1 == seq![node] + b1 + r1);
            assert(v2 == seq![node] + b2 + r2);
            if exp1.contains(child) {
                match f.contents {
                    Some(sub) => {
                        lemma_toggle_changes_after_row(*sub, 0, child, level + 1, exp1, exp2, p);
                    },
                    None => {},
                }
            }
            if b1 != b2 {
                let k = choose|k: int|
                    0 <= k < b1.len() && k < b2.len() && (#[trigger] b1[k]).is_folder && b1[k].path
                        == p && b1.take(k + 1) == b2.take(k + 1);
                assert(v1[k + 1] == b1[k]);
                assert(v1.take(k + 2) =~= seq![node] + b1.take(k + 1));
                assert(v2.take(k + 2) =~= seq![node] + b2.take(k + 1));
            } else {
                lemma_toggle_changes_after_row(t, i + 1, path, level, exp1, exp2, p);
                if r1 != r2 {
                    let k = choose|k: int|
                        0 <= k < r1.len() && k < r2.len() && (#[trigger] r1[k]).is_folder && r1[k].path
                            == p && r1.take(k + 1) == r2.take(k + 1);
                    let n = 1 + b1.len();
                    assert(v1[n + k] == r1[k]);
                    assert(v1.take(n + k + 1) =~= seq![node] + b1 + r1.take(k + 1));
                    assert(v2.take(n + k + 1) =~= seq![node] + b2 + r2.take(k + 1));
                }
            }
        }
    }
}

/// A set of paths (the expanded folders).
pub struct PathSet {
    pub paths: Vec<String>,
}

impl View for PathSet {
    type V = Set<Seq<char>>;

    open spec fn view(&self) -> Set<Seq<char>> {
        self.paths.deep_view().to_set()
    }
}

impl PathSet {
    /// The empty set.
    pub fn new() -> (r: PathSet)
        ensures
            r@ == Set::<Seq<char>>::empty(),
    {
        let r = PathSet { paths: Vec::new() };
        assert(r@ =~= Set::<Seq<char>>::empty());
        r
    }

    /// Whether `p` is in the set.
    pub fn contains(&self, p: &String) -> (r: bool)
        ensures
            r == self@.contains(p@),
    {
        let mut i: usize = 0;
        while i < self.paths.len()
            invariant
                i <= self.paths.len(),
                forall|j: int| 0 <= j < i ==> self.paths@[j]@ != p@,
            decreases self.paths.len() - i,
        {
            if self.paths[i] == *p {
                assert(self.paths.deep_view()[i as int] == p@);
                return true;
            }
            i = i + 1;
        }
        proof {
            if self@.contains(p@) {
                let j = choose|j: int| 0 <= j < self.paths.len() && self.paths.deep_view()[j] == p@;
                assert(self.paths@[j]@ == p@);
            }
        }
        false
    }

    /// Empties the set.
    pub fn clear(&mut self)
        ensures
            final(self)@ == Set::<Seq<char>>::empty(),
    {
        self.paths.clear();
        assert(self@ =~= Set::<Seq<char>>::empty());
    }

    /// Puts `p` in the set if it is not there, and takes it out if it is.
    /// Returns whether `p` is in the set afterwards.
    pub fn toggle(&mut self, p: String) -> (r: bool)
        ensures
            r == !old(self)@.contains(p@),
            final(self)@ == (if old(self)@.contains(p@) {
                old(self)@.remove(p@)
            } else {
                old(self)@.insert(p@)
            }),
    {
        if self.contains(&p) {
            let mut kept: Vec<String> = Vec::new();
            let mut i: usize = 0;
            while i < self.paths.len()
                invariant
                    i <= self.paths.len(),
                    forall|q: Seq<char>| #[trigger]
                        kept.deep_view().contains(q) <==> (q != p@ && self.paths.deep_view().take(
                            i as int,
                        ).contains(q)),
                decreases self.paths.len() - i,
            {
                let ghost before = kept.deep_view();
                proof {
                    broadcast use vstd::seq_lib::group_seq_properties;

                }
                if self.paths[i] != p {
                    kept.push(self.paths[i].clone());
                    assert(kept.deep_view() =~= before.push(self.paths@[i as int]@));
                }
                assert(self.paths.deep_view().take(i + 1) =~= self.paths.deep_view().take(
                    i as int,
                ).push(self.paths.deep_view()[i as int]));
                proof {
                    broadcast use vstd::seq_lib::group_seq_properties;

                    assert forall|q: Seq<char>| #[trigger]
                        kept.deep_view().contains(q) <==> (q != p@ && self.paths.deep_view().take(
                            i + 1,
                        ).contains(q)) by {
                        if kept.deep_view().contains(q) && q != self.paths@[i as int]@ {
                            if kept.deep_view() != before {
                                assert(kept.deep_view() == before.push(self.paths@[i as int]@));
                                assert(before.contains(q));
                            }
                        }
                    }
                }
                i = i + 1;
            }
            let ghost old_view = self@;
            assert(self.paths.deep_view().take(self.paths.len() as int) =~= self.paths.deep_view());
            self.paths = kept;
            assert(self@ =~= old_view.remove(p@));
            false
        } else {
            let ghost old_view = self@;
            let ghost old_paths = self.paths.deep_view();
            self.paths.push(p);
            assert(self.paths.deep_view() =~= old_paths.push(p@));
            proof {
                broadcast use vstd::seq_lib::group_seq_properties;

            }
            assert(self@ =~= old_view.insert(p@));
            true
        }
    }
}

} // verus!
