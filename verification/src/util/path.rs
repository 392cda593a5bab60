//! Paths as text, and the named directories that path templates refer to.
//!
//! A path is a string whose components are separated by `/`.
use crate::error::{ErrorView, ResolutionError};
use crate::text::{chars_of, push_char, same};
use vstd::prelude::*;
use vstd::string::StringExecFns;

verus! {

/// `path` extended by `tail`: a `tail` that starts at the root replaces
/// `path`; otherwise it follows `path`, after a separator where `path` does
/// not already end with one.
pub open spec fn joined(path: Seq<char>, tail: Seq<char>) -> Seq<char> {
    if tail.len() > 0 && tail[0] == '/' {
        tail
    } else if path.len() > 0 && path.last() != '/' {
        path + seq!['/'] + tail
    } else {
        path + tail
    }
}

/// Extends `path` by `tail`.
pub fn add(path: &str, tail: &str) -> (r: String)
    ensures
        r@ == joined(path@, tail@),
{
    let p = chars_of(path);
    let a = chars_of(tail);
    if a.len() > 0 && a[0] == '/' {
        return tail.to_owned();
    }
    let mut r = path.to_owned();
    if p.len() > 0 && p[p.len() - 1] != '/' {
        proof {
            reveal_strlit("/");
            assert("/"@ =~= seq!['/']);
        }
        r.append("/");
    }
    r.append(tail);
    r
}

/// The place of the first separator of `p` at or after `from`; `p.len()`
/// if there is none.
pub open spec fn separator(p: Seq<char>, from: int) -> int
    decreases p.len() - from,
{
    if from < 0 || from >= p.len() {
        p.len() as int
    } else if p[from] == '/' {
        from
    } else {
        separator(p, from + 1)
    }
}

/// The first separator at or after a place stands at or after it.
pub proof fn lemma_separator_bounds(p: Seq<char>, from: int)
    requires
        0 <= from <= p.len(),
    ensures
        from <= separator(p, from) <= p.len(),
    decreases p.len() - from,
{
    if from < p.len() && p[from] != '/' {
        lemma_separator_bounds(p, from + 1);
    }
}

/// The pieces of `p` from `from` on: what stands before the first
/// separator, between each two neighbouring separators, and after the last.
pub open spec fn pieces(p: Seq<char>, from: int) -> Seq<Seq<char>>
    decreases p.len() - from,
{
    if from < 0 || from > p.len() {
        Seq::empty()
    } else if separator(p, from) >= p.len() {
        seq![p.subrange(from, p.len() as int)]
    } else {
        proof {
            lemma_separator_bounds(p, from);
        }
        seq![p.subrange(from, separator(p, from))] + pieces(p, separator(p, from) + 1)
    }
}

/// Whether a piece counts as a component: it is not empty, and it is not
/// the single dot that stands for the directory it is found in.
pub open spec fn counts(piece: Seq<char>) -> bool {
    piece.len() > 0 && piece != seq!['.']
}

/// The pieces that count, each after a separator but the first, which
/// has one only where `started` says that something stands before it.
pub open spec fn chained(parts: Seq<Seq<char>>, started: bool) -> Seq<char>
    decreases parts.len(),
{
    if parts.len() == 0 {
        Seq::empty()
    } else if counts(parts[0]) {
        (if started {
            seq!['/']
        } else {
            Seq::empty()
        }) + parts[0] + chained(parts.skip(1), true)
    } else {
        chained(parts.skip(1), started)
    }
}

/// The plain form of a path: separators that follow one another count as
/// one, a separator at the end is dropped, and so is every component that
/// is a single dot, but for one that the path starts with.
pub open spec fn normalized(p: Seq<char>) -> Seq<char> {
    if p.len() > 0 && p[0] == '/' {
        seq!['/'] + chained(pieces(p, 1), false)
    } else if pieces(p, 0).len() > 0 && pieces(p, 0)[0] == seq!['.'] {
        seq!['.'] + chained(pieces(p, 0).skip(1), true)
    } else {
        chained(pieces(p, 0), false)
    }
}

/// The place of the first separator of `p` at or after `from`.
fn find_separator(p: &Vec<char>, from: usize) -> (r: usize)
    requires
        from <= p.len(),
    ensures
        r == separator(p@, from as int),
        from <= r <= p.len(),
{
    let mut j: usize = from;
    while j < p.len() && p[j] != '/'
        invariant
            from <= j <= p.len(),
            separator(p@, from as int) == separator(p@, j as int),
        decreases p.len() - j,
    {
        j += 1;
    }
    j
}

/// The plain form of `path`.
pub fn normalize(path: &str) -> (r: String)
    ensures
        r@ == normalized(path@),
{
    let p = chars_of(path);
    let mut out = String::new();
    let mut started = false;
    let mut i: usize = 0;
    if p.len() > 0 && p[0] == '/' {
        push_char(&mut out, '/');
        i = 1;
    } else {
        let end = find_separator(&p, 0);
        if end == 1 && p[0] == '.' {
            push_char(&mut out, '.');
            started = true;
            proof {
                assert(p@.subrange(0, 1) =~= seq!['.']);
                if end < p.len() {
                    assert(pieces(p@, 0).skip(1) =~= pieces(p@, 2));
                } else {
                    assert(pieces(p@, 0).skip(1) =~= Seq::<Seq<char>>::empty());
                    assert(pieces(p@, 2) =~= Seq::<Seq<char>>::empty());
                }
            }
            i = 2;
        } else {
            proof {
                if p.len() > 0 {
                    let first = p@.subrange(0, end as int);
                    assert(pieces(p@, 0)[0] == first);
                    if first == seq!['.'] {
                        assert(first.len() == 1);
                        assert(first[0] == p@[0]);
                    }
                } else {
                    assert(pieces(p@, 0)[0] =~= Seq::<char>::empty());
                }
            }
        }
    }
    proof {
        assert(out@ + chained(pieces(p@, i as int), started) =~= normalized(p@));
    }
    while i <= p.len()
        invariant
            p@ == path@,
            normalized(p@) == out@ + chained(pieces(p@, i as int), started),
        decreases p.len() + 1 - i,
    {
        let end = find_separator(&p, i);
        let ghost before = out@;
        let ghost piece = p@.subrange(i as int, end as int);
        let ghost rest = pieces(p@, end + 1);
        proof {
            if end < p.len() {
                assert(pieces(p@, i as int) =~= seq![piece] + rest);
                assert((seq![piece] + rest).skip(1) =~= rest);
            } else {
                assert(pieces(p@, i as int) =~= seq![piece]);
                assert(seq![piece].skip(1) =~= Seq::<Seq<char>>::empty());
                assert(rest =~= Seq::<Seq<char>>::empty());
            }
            assert(pieces(p@, i as int)[0] == piece);
            assert(pieces(p@, i as int).skip(1) =~= rest);
            if piece == seq!['.'] {
                assert(piece.len() == 1);
                assert(piece[0] == p@[i as int]);
            }
        }
        if end > i && !(end == i + 1 && p[i] == '.') {
            proof {
                if end == i + 1 {
                    assert(piece[0] == p@[i as int]);
                }
                assert(counts(piece));
            }
            if started {
                push_char(&mut out, '/');
            }
            let ghost middle = out@;
            let mut k: usize = i;
            while k < end
                invariant
                    i <= k <= end <= p.len(),
                    out@ == middle + p@.subrange(i as int, k as int),
                decreases end - k,
            {
                push_char(&mut out, p[k]);
                proof {
                    assert(p@.subrange(i as int, k + 1) =~= p@.subrange(i as int, k as int).push(
                        p@[k as int],
                    ));
                }
                k += 1;
            }
            proof {
                let lead: Seq<char> = if started {
                    seq!['/']
                } else {
                    Seq::empty()
                };
                assert(middle =~= before + lead);
                assert(out@ + chained(rest, true) =~= before + (lead + piece + chained(rest, true)));
            }
            started = true;
        } else {
            proof {
                if end == i {
                    assert(piece.len() == 0);
                } else {
                    assert(piece =~= seq!['.']);
                }
                assert(!counts(piece));
            }
        }
        if end >= p.len() {
            proof {
                assert(chained(rest, started) =~= Seq::<char>::empty());
                assert(out@ + Seq::<char>::empty() =~= out@);
            }
            return out;
        }
        i = end + 1;
    }
    proof {
        assert(pieces(p@, i as int) =~= Seq::<Seq<char>>::empty());
        assert(out@ + Seq::<char>::empty() =~= out@);
    }
    out
}

/// Where the named directories are, as far as they could be located.
#[derive(Debug, PartialEq, Eq)]
pub struct Directories {
    pub home: Option<String>,
    pub data: Option<String>,
    pub local: Option<String>,
    pub config: Option<String>,
    pub preference: Option<String>,
}

/// The mathematical value of [`Directories`].
pub struct DirectoriesView {
    pub home: Option<Seq<char>>,
    pub data: Option<Seq<char>>,
    pub local: Option<Seq<char>>,
    pub config: Option<Seq<char>>,
    pub preference: Option<Seq<char>>,
}

/// The view of an optional string.
pub open spec fn optional_text(s: Option<String>) -> Option<Seq<char>> {
    match s {
        Some(t) => Some(t@),
        None => None,
    }
}

impl View for Directories {
    type V = DirectoriesView;

    open spec fn view(&self) -> DirectoriesView {
        DirectoriesView {
            home: optional_text(self.home),
            data: optional_text(self.data),
            local: optional_text(self.local),
            config: optional_text(self.config),
            preference: optional_text(self.preference),
        }
    }
}

/// The location that `name` stands for: one of the five known names, where
/// that directory could be located.
pub open spec fn directory_of(dirs: DirectoriesView, name: Seq<char>) -> Option<Seq<char>> {
    if name == "HOME"@ {
        dirs.home
    } else if name == "DATA"@ {
        dirs.data
    } else if name == "LOCAL"@ {
        dirs.local
    } else if name == "CONFIG"@ {
        dirs.config
    } else if name == "PREFERENCE"@ {
        dirs.preference
    } else {
        None
    }
}

/// What looking up `name` gives: its location, or the error that names it.
pub open spec fn located(dirs: DirectoriesView, name: Seq<char>) -> Result<Seq<char>, ErrorView> {
    match directory_of(dirs, name) {
        Some(p) => Ok(p),
        None => Err(ErrorView::UnknownDirectory(name)),
    }
}

/// The view of the outcome of a lookup.
pub open spec fn text_result(r: Result<String, ResolutionError>) -> Result<Seq<char>, ErrorView> {
    match r {
        Ok(s) => Ok(s@),
        Err(e) => Err(e@),
    }
}

fn copy_of(dir: &Option<String>, name: &str) -> (r: Result<String, ResolutionError>)
    ensures
        text_result(r) == match optional_text(*dir) {
            Some(p) => Ok::<Seq<char>, ErrorView>(p),
            None => Err(ErrorView::UnknownDirectory(name@)),
        },
{
    match dir {
        Some(p) => Ok(p.clone()),
        None => Err(ResolutionError::UnknownDirectory(name.to_owned())),
    }
}

/// The location of the directory that `path_type` names.
pub fn get(path_type: &str, dirs: &Directories) -> (r: Result<String, ResolutionError>)
    ensures
        text_result(r) == located(dirs@, path_type@),
{
    if same(path_type, "HOME") {
        copy_of(&dirs.home, path_type)
    } else if same(path_type, "DATA") {
        copy_of(&dirs.data, path_type)
    } else if same(path_type, "LOCAL") {
        copy_of(&dirs.local, path_type)
    } else if same(path_type, "CONFIG") {
        copy_of(&dirs.config, path_type)
    } else if same(path_type, "PREFERENCE") {
        copy_of(&dirs.preference, path_type)
    } else {
        Err(ResolutionError::UnknownDirectory(path_type.to_owned()))
    }
}

/// What a search with the regular expression `pattern` captures in
/// `text`: nothing where the pattern cannot be compiled or matches nowhere;
/// otherwise, for the leftmost match, the text of each capture group by its
/// number, the whole match being group 0, and nothing for a group that took
/// no part in the match.
pub uninterp spec fn captured(pattern: Seq<char>, text: Seq<char>) -> Option<
    Seq<Option<Seq<char>>>,
>;

/// The views of the texts of capture groups.
pub open spec fn captures_view(r: Option<Vec<Option<String>>>) -> Option<Seq<Option<Seq<char>>>> {
    match r {
        Some(g) => Some(g@.map_values(|t: Option<String>| optional_text(t))),
        None => None,
    }
}

/// Compiles `pattern` with `regex::Regex::new`, searches `text` with
/// `Regex::captures`, and hands out the text of each group of the match as
/// `Captures::iter` yields them. The result is named, not described: what a
/// pattern matches is the regex crate's to say.
#[verifier::external_body]
pub(crate) fn captures(pattern: &str, text: &str) -> (r: Option<Vec<Option<String>>>)
    ensures
        captures_view(r) == captured(pattern@, text@),
{
    let compiled = regex::Regex::new(pattern).ok()?;
    let found = compiled.captures(text)?;
    Some(found.iter().map(|m| m.map(|m| m.as_str().to_string())).collect())
}

/// The pattern of a file name: its stem, and after the last dot that is
/// not the first character its extension, if it has one.
pub open spec fn file_name_pattern() -> Seq<char> {
    "^(?P<name>\\.?.*?)(\\.(?P<ext>[^.]+))?$"@
}

/// The parts of a file name, as the capture groups give them: the stem
/// (group 1), the extension (group 3) if there is one, and the whole name
/// (group 0).
pub open spec fn name_parts(groups: Option<Seq<Option<Seq<char>>>>) -> Result<
    (Seq<char>, Option<Seq<char>>, Seq<char>),
    Seq<char>,
> {
    match groups {
        Some(g) => if g.len() > 3 && g[0] is Some && g[1] is Some {
            Ok((g[1]->Some_0, g[3], g[0]->Some_0))
        } else {
            Err("Incorrect file name"@)
        },
        None => Err("Incorrect file name"@),
    }
}

/// The view of the outcome of taking a file name apart.
pub open spec fn parts_result(r: Result<(String, Option<String>, String), String>) -> Result<
    (Seq<char>, Option<Seq<char>>, Seq<char>),
    Seq<char>,
> {
    match r {
        Ok(p) => Ok((p.0@, optional_text(p.1), p.2@)),
        Err(e) => Err(e@),
    }
}

/// Takes the parts of a file name from the capture groups of its pattern.
pub fn name_from(groups: Option<Vec<Option<String>>>) -> (r: Result<
    (String, Option<String>, String),
    String,
>)
    ensures
        parts_result(r) == name_parts(captures_view(groups)),
{
    match groups {
        Some(g) => {
            if g.len() > 3 {
                match (&g[0], &g[1]) {
                    (Some(whole), Some(stem)) => {
                        let ext = match &g[3] {
                            Some(e) => Some(e.clone()),
                            None => None,
                        };
                        return Ok((stem.clone(), ext, whole.clone()));
                    },
                    _ => {},
                }
            }
            Err("Incorrect file name".to_owned())
        },
        None => Err("Incorrect file name".to_owned()),
    }
}

/// Takes a file name apart: its stem, its extension if it has one, and the
/// whole name.
pub fn name(file_name: &str) -> (r: Result<(String, Option<String>, String), String>)
    ensures
        parts_result(r) == name_parts(captured(file_name_pattern(), file_name@)),
{
    name_from(captures("^(?P<name>\\.?.*?)(\\.(?P<ext>[^.]+))?$", file_name))
}

} // verus!
