//! Which entries of one directory are listed: folders or files, hidden
//! (name starting with '.') or not, in listing order.

use vstd::prelude::*;
use crate::text::{sort_names, sorted_names, lemma_sorted_names};

verus! {

/// What a directory entry is, as its file type tells without following
/// symbolic links.
#[derive(Clone, Copy, Debug, PartialEq, Eq, Structural)]
pub enum EntryKind {
    Folder,
    File,
    /// Neither a folder nor a regular file (a symbolic link, a socket, ...).
    Other,
}

/// One entry of a directory: its name and what it is.
#[derive(Debug)]
pub struct DirEntryInfo {
    pub name: String,
    pub kind: EntryKind,
}

/// A name is hidden when it starts with '.'.
pub open spec fn is_hidden(name: Seq<char>) -> bool {
    name.len() > 0 && name[0] == '.'
}

/// Whether an entry is of the given kind and hiddenness.
pub open spec fn entry_selected(kind: EntryKind, hidden: bool) -> spec_fn(DirEntryInfo) -> bool {
    |e: DirEntryInfo| e.kind == kind && is_hidden(e.name@) == hidden
}

/// The names of the selected entries, in the order the directory gave them.
pub open spec fn selected_names(entries: Seq<DirEntryInfo>, kind: EntryKind, hidden: bool) -> Seq<
    Seq<char>,
> {
    entries.filter(entry_selected(kind, hidden)).map_values(|e: DirEntryInfo| e.name@)
}

/// The listing of the entries of `kind` whose hiddenness is `hidden`: their
/// names in listing order.
pub open spec fn listing(entries: Seq<DirEntryInfo>, kind: EntryKind, hidden: bool) -> Seq<
    Seq<char>,
> {
    sorted_names(selected_names(entries, kind, hidden))
}

/// Whether `name` starts with '.'.
pub fn name_is_hidden(name: &String) -> (r: bool)
    ensures
        r == is_hidden(name@),
        r == (name@.len() > 0 && name@[0] == '.'),
{
    let s = name.as_str();
    s.unicode_len() > 0 && s.get_char(0) == '.'
}

/// The names of the entries of `kind` whose hiddenness is `hidden`, sorted.
pub fn list_names(entries: &Vec<DirEntryInfo>, kind: EntryKind, hidden: bool) -> (r: Vec<String>)
    ensures
        r.deep_view() == listing(entries@, kind, hidden),
{
    let mut picked: Vec<String> = Vec::new();
    let n = entries.len();
    let mut i: usize = 0;
    while i < n
        invariant
            n == entries.len(),
            i <= n,
            picked.deep_view() == selected_names(entries@.take(i as int), kind, hidden),
        decreases n - i,
    {
        let e = &entries[i];
        let ghost before = entries@.take(i as int);
        proof {
            assert(entries@.take(i + 1) =~= before.push(entries@[i as int]));
            reveal_with_fuel(Seq::filter, 1);
            assert(before.push(entries@[i as int]).drop_last() =~= before);
        }
        if e.kind == kind && name_is_hidden(&e.name) == hidden {
            let ghost old_picked = picked.deep_view();
            picked.push(e.name.clone());
            proof {
                let f = entry_selected(kind, hidden);
                assert(f(entries@[i as int]));
                assert(before.push(entries@[i as int]).filter(f) == before.filter(f).push(
                    entries@[i as int],
                ));
                assert(picked.deep_view() =~= old_picked.push(entries@[i as int].name@));
                assert(picked.deep_view() =~= selected_names(entries@.take(i + 1), kind, hidden));
            }
        } else {
            proof {
                assert(picked.deep_view() =~= selected_names(entries@.take(i + 1), kind, hidden));
            }
        }
        i = i + 1;
    }
    proof {
        assert(entries@.take(n as int) =~= entries@);
    }
    sort_names(picked)
}

/// The names of the folders that are not hidden, sorted.
pub fn list_folder_names(entries: &Vec<DirEntryInfo>) -> (r: Vec<String>)
    ensures
        r.deep_view() == listing(entries@, EntryKind::Folder, false),
{
    list_names(entries, EntryKind::Folder, false)
}

/// The names of the regular files that are not hidden, sorted.
pub fn list_file_names(entries: &Vec<DirEntryInfo>) -> (r: Vec<String>)
    ensures
        r.deep_view() == listing(entries@, EntryKind::File, false),
{
    list_names(entries, EntryKind::File, false)
}

/// The names of the hidden regular files, sorted.
pub fn list_hidden_file_names(entries: &Vec<DirEntryInfo>) -> (r: Vec<String>)
    ensures
        r.deep_view() == listing(entries@, EntryKind::File, true),
{
    list_names(entries, EntryKind::File, true)
}

/// The names of the hidden folders, sorted.
pub fn list_hidden_folder_names(entries: &Vec<DirEntryInfo>) -> (r: Vec<String>)
    ensures
        r.deep_view() == listing(entries@, EntryKind::Folder, true),
{
    list_names(entries, EntryKind::Folder, true)
}

/// The names of the entries of `kind`, hidden or not, in directory order.
pub open spec fn names_of_kind(entries: Seq<DirEntryInfo>, kind: EntryKind) -> Seq<Seq<char>> {
    entries.filter(|e: DirEntryInfo| e.kind == kind).map_values(|e: DirEntryInfo| e.name@)
}

proof fn lemma_selected_split(entries: Seq<DirEntryInfo>, kind: EntryKind)
    ensures
        selected_names(entries, kind, false).to_multiset().add(
            selected_names(entries, kind, true).to_multiset(),
        ) == names_of_kind(entries, kind).to_multiset(),
    decreases entries.len(),
{
    broadcast use vstd::seq_lib::group_to_multiset_ensures;
    broadcast use vstd::multiset::group_multiset_axioms;

    if entries.len() == 0 {
        assert(selected_names(entries, kind, false) =~= Seq::<Seq<char>>::empty());
        assert(selected_names(entries, kind, true) =~= Seq::<Seq<char>>::empty());
        assert(names_of_kind(entries, kind) =~= Seq::<Seq<char>>::empty());
        assert(Seq::<Seq<char>>::empty().to_multiset() =~= vstd::multiset::Multiset::empty());
    } else {
        let rest = entries.drop_last();
        let x = entries.last();
        lemma_selected_split(rest, kind);
        reveal_with_fuel(Seq::filter, 1);
        let f0 = selected_names(entries, kind, false);
        let f1 = selected_names(entries, kind, true);
        let all = names_of_kind(entries, kind);
        let r0 = selected_names(rest, kind, false);
        let r1 = selected_names(rest, kind, true);
        let ra = names_of_kind(rest, kind);
        if x.kind == kind {
            assert(all =~= ra.push(x.name@));
            if is_hidden(x.name@) {
                assert(f0 =~= r0);
                assert(f1 =~= r1.push(x.name@));
            } else {
                assert(f0 =~= r0.push(x.name@));
                assert(f1 =~= r1);
            }
            assert(f0.to_multiset().add(f1.to_multiset()) =~= all.to_multiset());
        } else {
            assert(all =~= ra);
            assert(f0 =~= r0);
            assert(f1 =~= r1);
        }
    }
}

/// A listing holds only names of entries of its kind whose hiddenness is
/// its own, sorted in listing order; and the listing of the entries of a
/// kind that are not hidden, together with that of those that are, holds
/// every name of that kind exactly as often as the directory has it.
pub proof fn lemma_listings_partition(entries: Seq<DirEntryInfo>, kind: EntryKind, hidden: bool)
    ensures
        vstd::relations::sorted_by(listing(entries, kind, hidden), crate::text::name_order()),
        forall|i: int|
            0 <= i < listing(entries, kind, hidden).len() ==> is_hidden(
                #[trigger] listing(entries, kind, hidden)[i],
            ) == hidden && names_of_kind(entries, kind).contains(listing(entries, kind, hidden)[i]),
        (listing(entries, kind, false) + listing(entries, kind, true)).to_multiset()
            == names_of_kind(entries, kind).to_multiset(),
{
    broadcast use vstd::seq_lib::group_to_multiset_ensures;
    broadcast use vstd::multiset::group_multiset_axioms;

    lemma_sorted_names(selected_names(entries, kind, hidden));
    lemma_sorted_names(selected_names(entries, kind, false));
    lemma_sorted_names(selected_names(entries, kind, true));
    lemma_selected_split(entries, kind);
    vstd::seq_lib::lemma_multiset_commutative(
        listing(entries, kind, false),
        listing(entries, kind, true),
    );
    let l = listing(entries, kind, hidden);
    let sel = selected_names(entries, kind, hidden);
    let pred = entry_selected(kind, hidden);
    assert forall|i: int| 0 <= i < l.len() implies is_hidden(#[trigger] l[i]) == hidden
        && names_of_kind(entries, kind).contains(l[i]) by {
        assert(l.to_multiset().count(l[i]) > 0);
        assert(sel.contains(l[i]));
        let k = choose|k: int| 0 <= k < sel.len() && sel[k] == l[i];
        let fe = entries.filter(pred);
        assert(pred(fe[k]));
        entries.lemma_filter_pred(pred, k);
        assert(fe.contains(fe[k]));
        entries.lemma_filter_contains_rev(pred, fe[k]);
        assert(entries.contains(fe[k]));
        let j = choose|j: int| 0 <= j < entries.len() && entries[j] == fe[k];
        let kf = |e: DirEntryInfo| e.kind == kind;
        entries.lemma_filter_contains(kf, j);
        let fk = entries.filter(kf);
        let m = choose|m: int| 0 <= m < fk.len() && fk[m] == entries[j];
        assert(names_of_kind(entries, kind)[m] == l[i]);
    }
}

/// The names of the entries that are folders or regular files, in
/// directory order.
pub open spec fn names_listed(entries: Seq<DirEntryInfo>) -> Seq<Seq<char>> {
    entries.filter(|e: DirEntryInfo| e.kind != EntryKind::Other).map_values(
        |e: DirEntryInfo| e.name@,
    )
}

/// No two entries share a name (as in a directory).
pub open spec fn unique_names(entries: Seq<DirEntryInfo>) -> bool {
    forall|i: int, j: int|
        0 <= i < j < entries.len() ==> (#[trigger] entries[i]).name@ != (#[trigger] entries[j]).name@
}

proof fn lemma_kind_split(entries: Seq<DirEntryInfo>)
    ensures
        names_of_kind(entries, EntryKind::File).to_multiset().add(
            names_of_kind(entries, EntryKind::Folder).to_multiset(),
        ) == names_listed(entries).to_multiset(),
    decreases entries.len(),
{
    broadcast use vstd::seq_lib::group_to_multiset_ensures;
    broadcast use vstd::multiset::group_multiset_axioms;

    let a = names_of_kind(entries, EntryKind::File);
    let b = names_of_kind(entries, EntryKind::Folder);
    let all = names_listed(entries);
    if entries.len() == 0 {
        assert(a =~= Seq::<Seq<char>>::empty());
        assert(b =~= Seq::<Seq<char>>::empty());
        assert(all =~= Seq::<Seq<char>>::empty());
        assert(Seq::<Seq<char>>::empty().to_multiset() =~= vstd::multiset::Multiset::empty());
    } else {
        let rest = entries.drop_last();
        let x = entries.last();
        lemma_kind_split(rest);
        reveal_with_fuel(Seq::filter, 1);
        let ra = names_of_kind(rest, EntryKind::File);
        let rb = names_of_kind(rest, EntryKind::Folder);
        let rall = names_listed(rest);
        if x.kind == EntryKind::File {
            assert(a =~= ra.push(x.name@));
            assert(b =~= rb);
            assert(all =~= rall.push(x.name@));
        } else if x.kind == EntryKind::Folder {
            assert(a =~= ra);
            assert(b =~= rb.push(x.name@));
            assert(all =~= rall.push(x.name@));
        } else {
            assert(a =~= ra);
            assert(b =~= rb);
            assert(all =~= rall);
        }
        assert(a.to_multiset().add(b.to_multiset()) =~= all.to_multiset());
    }
}

proof fn lemma_name_of_kind_has_entry(entries: Seq<DirEntryInfo>, kind: EntryKind, x: Seq<char>)
    requires
        names_of_kind(entries, kind).contains(x),
    ensures
        exists|j: int| 0 <= j < entries.len() && (#[trigger] entries[j]).kind == kind && entries[j].name@ == x,
{
    broadcast use vstd::seq_lib::group_filter_ensures;

    let kf = |e: DirEntryInfo| e.kind == kind;
    let fk = entries.filter(kf);
    let m = choose|m: int| 0 <= m < fk.len() && names_of_kind(entries, kind)[m] == x;
    assert(kf(fk[m]));
    assert(fk.contains(fk[m]));
    entries.lemma_filter_contains_rev(kf, fk[m]);
    let j = choose|j: int| 0 <= j < entries.len() && entries[j] == fk[m];
    assert(entries[j].kind == kind && entries[j].name@ == x);
}

/// The four listings of a directory (files, folders, hidden files, hidden
/// folders) together hold the name of every folder and regular file, as
/// often as the directory has it; and when names are unique, as in a
/// directory, no name is in two of them.
pub proof fn lemma_four_listings(entries: Seq<DirEntryInfo>)
    ensures
        (listing(entries, EntryKind::File, false) + listing(entries, EntryKind::Folder, false)
            + listing(entries, EntryKind::File, true) + listing(
            entries,
            EntryKind::Folder,
            true,
        )).to_multiset() == names_listed(entries).to_multiset(),
        unique_names(entries) ==> forall|k1: EntryKind, h1: bool, k2: EntryKind, h2: bool, x: Seq<char>|
            (k1 != k2 || h1 != h2) && #[trigger] listing(entries, k1, h1).contains(x)
                ==> !(#[trigger] listing(entries, k2, h2).contains(x)),
{
    broadcast use vstd::seq_lib::group_to_multiset_ensures;
    broadcast use vstd::multiset::group_multiset_axioms;

    let f0 = listing(entries, EntryKind::File, false);
    let d0 = listing(entries, EntryKind::Folder, false);
    let f1 = listing(entries, EntryKind::File, true);
    let d1 = listing(entries, EntryKind::Folder, true);
    lemma_listings_partition(entries, EntryKind::File, false);
    lemma_listings_partition(entries, EntryKind::Folder, false);
    lemma_kind_split(entries);
    vstd::seq_lib::lemma_multiset_commutative(f0, d0);
    vstd::seq_lib::lemma_multiset_commutative(f0 + d0, f1);
    vstd::seq_lib::lemma_multiset_commutative(f0 + d0 + f1, d1);
    vstd::seq_lib::lemma_multiset_commutative(f0, f1);
    vstd::seq_lib::lemma_multiset_commutative(d0, d1);
    assert((f0 + d0 + f1 + d1).to_multiset() =~= names_listed(entries).to_multiset());
    if unique_names(entries) {
        assert forall|k1: EntryKind, h1: bool, k2: EntryKind, h2: bool, x: Seq<char>|
            (k1 != k2 || h1 != h2) && #[trigger] listing(entries, k1, h1).contains(x)
                implies !(#[trigger] listing(entries, k2, h2).contains(x)) by {
            if listing(entries, k2, h2).contains(x) {
                lemma_listings_partition(entries, k1, h1);
                lemma_listings_partition(entries, k2, h2);
                let i1 = choose|i: int| 0 <= i < listing(entries, k1, h1).len() && listing(entries, k1, h1)[i] == x;
                let i2 = choose|i: int| 0 <= i < listing(entries, k2, h2).len() && listing(entries, k2, h2)[i] == x;
                assert(is_hidden(listing(entries, k1, h1)[i1]) == h1);
                assert(is_hidden(listing(entries, k2, h2)[i2]) == h2);
                if k1 != k2 {
                    lemma_name_of_kind_has_entry(entries, k1, x);
                    lemma_name_of_kind_has_entry(entries, k2, x);
                    let j1 = choose|j: int| 0 <= j < entries.len() && (#[trigger] entries[j]).kind == k1 && entries[j].name@ == x;
                    let j2 = choose|j: int| 0 <= j < entries.len() && (#[trigger] entries[j]).kind == k2 && entries[j].name@ == x;
                    if j1 < j2 {
                        assert(entries[j1].name@ != entries[j2].name@);
                    } else {
                        assert(entries[j2].name@ != entries[j1].name@);
                    }
                }
            }
        }
    }
}

proof fn lemma_selected_in_listing(entries: Seq<DirEntryInfo>, kind: EntryKind, hidden: bool, j: int)
    requires
        0 <= j < entries.len(),
        entries[j].kind == kind,
        is_hidden(entries[j].name@) == hidden,
    ensures
        listing(entries, kind, hidden).contains(entries[j].name@),
{
    broadcast use vstd::seq_lib::group_to_multiset_ensures;

    let pred = entry_selected(kind, hidden);
    assert(pred(entries[j]));
    entries.lemma_filter_contains(pred, j);
    let fe = entries.filter(pred);
    let m = choose|m: int| 0 <= m < fe.len() && fe[m] == entries[j];
    let sel = selected_names(entries, kind, hidden);
    assert(sel[m] == entries[j].name@);
    assert(sel.contains(entries[j].name@));
    lemma_sorted_names(sel);
    assert(sel.to_multiset().count(entries[j].name@) > 0);
    assert(listing(entries, kind, hidden).to_multiset().count(entries[j].name@) > 0);
}

/// Every folder and every regular file is listed, by its first character
/// alone: a name that starts with '.' in the hidden listing of its kind, any
/// other name (the empty one, "__init__.py", ...) in the listing of its kind
/// that is not hidden.
pub proof fn lemma_listed_by_first_char(entries: Seq<DirEntryInfo>)
    ensures
        forall|j: int|
            0 <= j < entries.len() && (#[trigger] entries[j]).kind != EntryKind::Other ==> if entries[j].name@.len()
                > 0 && entries[j].name@[0] == '.' {
                listing(entries, entries[j].kind, true).contains(entries[j].name@)
            } else {
                listing(entries, entries[j].kind, false).contains(entries[j].name@)
            },
{
    assert forall|j: int|
        0 <= j < entries.len() && (#[trigger] entries[j]).kind != EntryKind::Other implies if entries[j].name@.len()
            > 0 && entries[j].name@[0] == '.' {
            listing(entries, entries[j].kind, true).contains(entries[j].name@)
        } else {
            listing(entries, entries[j].kind, false).contains(entries[j].name@)
        } by {
        lemma_selected_in_listing(entries, entries[j].kind, is_hidden(entries[j].name@), j);
    }
}

} // verus!
