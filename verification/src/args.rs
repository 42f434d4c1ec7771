//! The command line: its subcommands, and what the program does for each
//! way it is called.

use vstd::prelude::*;
use crate::listing::EntryKind;

verus! {

/// The parsed command line.
pub struct Commands {
    pub cmd: Subcommands,
}

/// The listings the command line can ask for.
pub enum Subcommands {
    /// List files in a directory.
    Files(DirArgs),
    /// List folders in a directory.
    Folders(DirArgs),
    /// List hidden files in a directory.
    HiddenFiles(DirArgs),
    /// List hidden folders in a directory.
    HiddenFolders(DirArgs),
}

/// The directory a subcommand lists (`-p`, `--path`).
pub struct DirArgs {
    pub path: Option<String>,
}

/// How the program was called.
#[derive(Clone, Copy, Debug, PartialEq, Eq, Structural)]
pub enum CliMode {
    /// With the single argument ".": open the browser window.
    Gui,
    /// Without arguments: list everything in the current directory.
    ListAll,
    /// Otherwise: parse a subcommand.
    Command,
}

/// Which way of calling the program `args` (the program name first) is.
pub open spec fn cli_mode_of(args: Seq<Seq<char>>) -> CliMode {
    if args.len() == 2 && args[1] == seq!['.'] {
        CliMode::Gui
    } else if args.len() <= 1 {
        CliMode::ListAll
    } else {
        CliMode::Command
    }
}

/// Which way of calling the program `args` (the program name first) is.
pub fn cli_mode(args: &Vec<String>) -> (m: CliMode)
    ensures
        m == cli_mode_of(args.deep_view()),
{
    if args.len() == 2 {
        let a = args[1].as_str();
        if a.unicode_len() == 1 && a.get_char(0) == '.' {
            assert(args.deep_view()[1] =~= seq!['.']);
            return CliMode::Gui;
        }
        assert(args.deep_view()[1] != seq!['.']);
    }
    if args.len() <= 1 {
        CliMode::ListAll
    } else {
        CliMode::Command
    }
}

/// What one listing shows: entries of `kind`, hidden or not.
#[derive(Clone, Copy, Debug, PartialEq, Eq, Structural)]
pub struct ListingKind {
    pub kind: EntryKind,
    pub hidden: bool,
}

/// The listings made when the program is called without arguments, in the
/// order they are printed: files, folders, hidden files, hidden folders.
pub open spec fn all_listings() -> Seq<ListingKind> {
    seq![
        ListingKind { kind: EntryKind::File, hidden: false },
        ListingKind { kind: EntryKind::Folder, hidden: false },
        ListingKind { kind: EntryKind::File, hidden: true },
        ListingKind { kind: EntryKind::Folder, hidden: true },
    ]
}

/// The listings made when the program is called without arguments, in the
/// order they are printed.
pub fn list_all_kinds() -> (r: Vec<ListingKind>)
    ensures
        r@ == all_listings(),
{
    let r = vec![
        ListingKind { kind: EntryKind::File, hidden: false },
        ListingKind { kind: EntryKind::Folder, hidden: false },
        ListingKind { kind: EntryKind::File, hidden: true },
        ListingKind { kind: EntryKind::Folder, hidden: true },
    ];
    assert(r@ =~= all_listings());
    r
}

impl Subcommands {
    /// The listing the subcommand asks for.
    pub open spec fn listing_spec(&self) -> ListingKind {
        match self {
            Subcommands::Files(_) => ListingKind { kind: EntryKind::File, hidden: false },
            Subcommands::Folders(_) => ListingKind { kind: EntryKind::Folder, hidden: false },
            Subcommands::HiddenFiles(_) => ListingKind { kind: EntryKind::File, hidden: true },
            Subcommands::HiddenFolders(_) => ListingKind { kind: EntryKind::Folder, hidden: true },
        }
    }

    /// The arguments of the subcommand.
    pub open spec fn dir_args(&self) -> &DirArgs {
        match self {
            Subcommands::Files(a) => a,
            Subcommands::Folders(a) => a,
            Subcommands::HiddenFiles(a) => a,
            Subcommands::HiddenFolders(a) => a,
        }
    }

    /// The directory the subcommand lists: its `--path`, or "." without one.
    pub open spec fn target_spec(&self) -> Seq<char> {
        match self.dir_args().path {
            Some(p) => p@,
            None => "."@,
        }
    }

    /// The listing the subcommand asks for.
    pub fn listing(&self) -> (r: ListingKind)
        ensures
            r == self.listing_spec(),
    {
        match self {
            Subcommands::Files(_) => ListingKind { kind: EntryKind::File, hidden: false },
            Subcommands::Folders(_) => ListingKind { kind: EntryKind::Folder, hidden: false },
            Subcommands::HiddenFiles(_) => ListingKind { kind: EntryKind::File, hidden: true },
            Subcommands::HiddenFolders(_) => ListingKind { kind: EntryKind::Folder, hidden: true },
        }
    }

    /// The directory the subcommand lists: its `--path`, or "." without one.
    pub fn target(&self) -> (r: String)
        ensures
            r@ == self.target_spec(),
            match self {
                Subcommands::Files(a) | Subcommands::Folders(a) | Subcommands::HiddenFiles(a)
                | Subcommands::HiddenFolders(a) => r@ == match a.path {
                    Some(p) => p@,
                    None => "."@,
                },
            },
    {
        let args = match self {
            Subcommands::Files(a) => a,
            Subcommands::Folders(a) => a,
            Subcommands::HiddenFiles(a) => a,
            Subcommands::HiddenFolders(a) => a,
        };
        match &args.path {
            Some(p) => p.clone(),
            None => String::from_str("."),
        }
    }
}

/// Every subcommand lists the directory its arguments name, whichever
/// listing it asks for: its `--path`, or "." without one.
pub proof fn lemma_target_is_path(a: DirArgs)
    ensures
        Subcommands::Files(a).target_spec() == Subcommands::Folders(a).target_spec(),
        Subcommands::Files(a).target_spec() == Subcommands::HiddenFiles(a).target_spec(),
        Subcommands::Files(a).target_spec() == Subcommands::HiddenFolders(a).target_spec(),
        Subcommands::Folders(a).target_spec() == match a.path {
            Some(p) => p@,
            None => "."@,
        },
{
}

/// The items of the successful results, in order, one after the other.
pub open spec fn ok_items<T, E>(results: Seq<Result<Vec<T>, E>>) -> Seq<T>
    decreases results.len(),
{
    if results.len() == 0 {
        Seq::empty()
    } else {
        ok_items(results.drop_last()) + match results.last() {
            Ok(v) => v@,
            Err(_) => Seq::empty(),
        }
    }
}

/// The errors of the failed results, in order.
pub open spec fn err_items<T, E>(results: Seq<Result<Vec<T>, E>>) -> Seq<E>
    decreases results.len(),
{
    if results.len() == 0 {
        Seq::empty()
    } else {
        err_items(results.drop_last()) + match results.last() {
            Ok(_) => Seq::empty(),
            Err(e) => seq![e],
        }
    }
}

/// Gathering drops nothing and reorders nothing: a successful listing
/// adds all its items, in order, after those gathered before it; a failed
/// one adds its error after the errors before it and no item; and
/// gathering two runs of listings one after the other gives the two
/// gatherings one after the other.
pub proof fn lemma_gather_keeps_everything<T, E>(
    rs: Seq<Result<Vec<T>, E>>,
    more: Seq<Result<Vec<T>, E>>,
    v: Vec<T>,
    e: E,
)
    ensures
        ok_items(Seq::<Result<Vec<T>, E>>::empty()) == Seq::<T>::empty(),
        err_items(Seq::<Result<Vec<T>, E>>::empty()) == Seq::<E>::empty(),
        ok_items(rs.push(Ok(v))) == ok_items(rs) + v@,
        ok_items(rs.push(Ok(v))).len() == ok_items(rs).len() + v@.len(),
        err_items(rs.push(Ok(v))) == err_items(rs),
        ok_items(rs.push(Err(e))) == ok_items(rs),
        err_items(rs.push(Err(e))) == err_items(rs).push(e),
        ok_items(rs + more) == ok_items(rs) + ok_items(more),
        err_items(rs + more) == err_items(rs) + err_items(more),
    decreases more.len(),
{
    assert((rs.push(Ok(v))).drop_last() =~= rs);
    assert((rs.push(Err(e))).drop_last() =~= rs);
    assert(err_items(rs.push(Err(e))) =~= err_items(rs).push(e));
    if more.len() == 0 {
        assert(rs + more =~= rs);
        assert(ok_items(rs) + ok_items(more) =~= ok_items(rs));
        assert(err_items(rs) + err_items(more) =~= err_items(rs));
    } else {
        lemma_gather_keeps_everything(rs, more.drop_last(), v, e);
        assert((rs + more).drop_last() =~= rs + more.drop_last());
        assert((rs + more).last() == more.last());
        assert(ok_items(rs + more) =~= ok_items(rs) + ok_items(more));
        assert(err_items(rs + more) =~= err_items(rs) + err_items(more));
    }
}

/// Puts the items of the successful listings one after the other, and
/// keeps the errors of the failed ones, both in order.
pub fn gather_listings<T, E>(results: Vec<Result<Vec<T>, E>>) -> (r: (Vec<T>, Vec<E>))
    ensures
        r.0@ == ok_items(results@),
        r.1@ == err_items(results@),
{
    let ghost all = results@;
    let mut items: Vec<T> = Vec::new();
    let mut errors: Vec<E> = Vec::new();
    for r in it: results
        invariant
            it.seq() == all,
            items@ == ok_items(all.take(it.index() as int)),
            errors@ == err_items(all.take(it.index() as int)),
    {
        let ghost i = it.index();
        proof {
            assert(all.take(i + 1).drop_last() =~= all.take(i as int));
            assert(all.take(i + 1).last() == all[i as int]);
        }
        match r {
            Ok(mut v) => {
                items.append(&mut v);
            },
            Err(e) => {
                errors.push(e);
            },
        }
    }
    assert(all.take(all.len() as int) =~= all);
    (items, errors)
}

} // verus!
