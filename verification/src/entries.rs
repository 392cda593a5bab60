//! From the entries of a declared group to the paths of a resolved one.
use crate::error::{ErrorView, ResolutionError};
use crate::settings::{Entries, EntriesView, RawEntries, RawEntriesView};
use crate::template::{expanded, parse_path};
use crate::text::{chars_of, contains_text, lemma_texts_push, text_of, texts};
use crate::util::path::{joined, normalize, normalized, Directories, DirectoriesView};
use vstd::prelude::*;

verus! {

/// Whether an entry asks for a path to be left out.
pub open spec fn is_delete(entry: Seq<char>) -> bool {
    entry.len() > 0 && entry[0] == '-'
}

/// The entry without the sign in front of it.
pub open spec fn relative_of(entry: Seq<char>) -> Seq<char> {
    if entry.len() > 0 && (entry[0] == '-' || entry[0] == '+') {
        entry.skip(1)
    } else {
        entry
    }
}

/// The path that an entry stands for below `root`, in plain form.
pub open spec fn target_of(root: Seq<char>, entry: Seq<char>) -> Seq<char> {
    normalized(joined(root, relative_of(entry)))
}

/// `paths` with `p` at its end, unless it holds `p` already.
pub open spec fn inserted(paths: Seq<Seq<char>>, p: Seq<char>) -> Seq<Seq<char>> {
    if paths.contains(p) {
        paths
    } else {
        paths.push(p)
    }
}

/// The paths of the entries that ask for leaving out (`delete`) or for
/// belonging (otherwise), each once, in the order of their first entry.
pub open spec fn selected(root: Seq<char>, entries: Seq<Seq<char>>, delete: bool) -> Seq<Seq<char>>
    decreases entries.len(),
{
    if entries.len() == 0 {
        Seq::empty()
    } else {
        let before = selected(root, entries.drop_last(), delete);
        if is_delete(entries.last()) == delete {
            inserted(before, target_of(root, entries.last()))
        } else {
            before
        }
    }
}

/// The group that `entries` describe below `root`.
pub open spec fn classified(root: Seq<char>, entries: Seq<Seq<char>>) -> EntriesView {
    EntriesView {
        root,
        add: selected(root, entries, false),
        del: selected(root, entries, true),
    }
}

/// The resolved form of a declared group.
pub open spec fn resolved_entries(raw: RawEntriesView, dirs: DirectoriesView) -> Result<
    EntriesView,
    ErrorView,
> {
    match expanded(raw.path, dirs) {
        Ok(root) => Ok(classified(root, raw.entries)),
        Err(e) => Err(e),
    }
}

/// The view of the outcome of resolving a group.
pub open spec fn entries_result(r: Result<Entries, ResolutionError>) -> Result<
    EntriesView,
    ErrorView,
> {
    match r {
        Ok(e) => Ok(e@),
        Err(e) => Err(e@),
    }
}

/// No path is selected twice.
pub proof fn lemma_selected_no_duplicates(root: Seq<char>, entries: Seq<Seq<char>>, delete: bool)
    ensures
        selected(root, entries, delete).no_duplicates(),
    decreases entries.len(),
{
    if entries.len() > 0 {
        lemma_selected_no_duplicates(root, entries.drop_last(), delete);
    }
}

/// A path is selected exactly if an entry of the wanted kind stands for it.
pub proof fn lemma_selected_contains(
    root: Seq<char>,
    entries: Seq<Seq<char>>,
    delete: bool,
    p: Seq<char>,
)
    ensures
        selected(root, entries, delete).contains(p) <==> exists|i: int|
            0 <= i < entries.len() && is_delete(#[trigger] entries[i]) == delete && target_of(
                root,
                entries[i],
            ) == p,
    decreases entries.len(),
{
    if entries.len() > 0 {
        let init = entries.drop_last();
        let last = entries.last();
        let before = selected(root, init, delete);
        lemma_selected_contains(root, init, delete, p);
        if selected(root, entries, delete).contains(p) {
            if before.contains(p) {
                let i = choose|i: int|
                    0 <= i < init.len() && is_delete(#[trigger] init[i]) == delete && target_of(
                        root,
                        init[i],
                    ) == p;
                assert(entries[i] == init[i]);
            } else {
                assert(is_delete(last) == delete);
                assert(before.push(target_of(root, last)).contains(p));
                assert(target_of(root, last) == p);
                assert(entries[entries.len() - 1] == last);
            }
        }
        if exists|i: int|
            0 <= i < entries.len() && is_delete(#[trigger] entries[i]) == delete && target_of(
                root,
                entries[i],
            ) == p {
            let i = choose|i: int|
                0 <= i < entries.len() && is_delete(#[trigger] entries[i]) == delete && target_of(
                    root,
                    entries[i],
                ) == p;
            if i < init.len() {
                assert(init[i] == entries[i]);
                assert(before.contains(p));
                if !before.contains(target_of(root, last)) {
                    let k = choose|k: int| 0 <= k < before.len() && before[k] == p;
                    assert(before.push(target_of(root, last))[k] == p);
                }
            } else {
                if !before.contains(p) {
                    assert(before.push(p)[before.len() as int] == p);
                }
            }
        }
    }
}

/// Puts `p` at the end of `paths`, unless it holds `p` already.
pub fn insert_path(paths: &mut Vec<String>, p: String)
    ensures
        texts(final(paths)@) == inserted(texts(old(paths)@), p@),
{
    if !contains_text(paths, p.as_str()) {
        proof {
            lemma_texts_push(paths@, p);
        }
        paths.push(p);
    }
}

/// Resolves a declared group: expands the template of its root and sorts
/// its entries into the paths that belong and the paths that are left out.
pub fn parse_entries(raw: &RawEntries, dirs: &Directories) -> (r: Result<Entries, ResolutionError>)
    ensures
        entries_result(r) == resolved_entries(raw@, dirs@),
        r matches Ok(e) ==> e.wf(),
{
    let root = match parse_path(raw.path.as_str(), dirs) {
        Ok(root) => root,
        Err(e) => {
            return Err(e);
        },
    };
    let mut add: Vec<String> = Vec::new();
    let mut del: Vec<String> = Vec::new();
    let mut i: usize = 0;
    while i < raw.entries.len()
        invariant
            i <= raw.entries.len(),
            texts(add@) == selected(root@, texts(raw.entries@).take(i as int), false),
            texts(del@) == selected(root@, texts(raw.entries@).take(i as int), true),
        decreases raw.entries.len() - i,
    {
        let entry = chars_of(raw.entries[i].as_str());
        proof {
            let now = texts(raw.entries@).take(i + 1);
            assert(now.drop_last() =~= texts(raw.entries@).take(i as int));
            assert(now.last() == entry@);
        }
        if entry.len() > 0 && entry[0] == '-' {
            let relative = text_of(&entry, 1, entry.len());
            let path = crate::util::path::add(root.as_str(), relative.as_str());
            insert_path(&mut del, normalize(path.as_str()));
        } else {
            let from: usize = if entry.len() > 0 && entry[0] == '+' {
                1
            } else {
                0
            };
            let relative = text_of(&entry, from, entry.len());
            proof {
                assert(entry@.subrange(0, entry@.len() as int) =~= entry@);
            }
            let path = crate::util::path::add(root.as_str(), relative.as_str());
            insert_path(&mut add, normalize(path.as_str()));
        }
        i += 1;
    }
    proof {
        assert(texts(raw.entries@).take(raw.entries.len() as int) =~= texts(raw.entries@));
        lemma_selected_no_duplicates(root@, texts(raw.entries@), false);
        lemma_selected_no_duplicates(root@, texts(raw.entries@), true);
    }
    Ok(Entries { root, add, del })
}

} // verus!
