//! Path templates: text in which `{NAME}` stands for a named directory.
//!
//! A placeholder starts at a `{`, holds at least one character, none of them
//! a `}`, and ends at the first `}` that follows. The name is what stands
//! between the braces, without the white space that surrounds it. Text that
//! a directory's location brings in is not looked through again.
use crate::error::{ErrorView, ResolutionError};
use crate::text::{chars_of, push_char, trim, trimmed};
use crate::util::path::{
    get, located, normalize, normalized, text_result, Directories, DirectoriesView,
};
use vstd::prelude::*;
use vstd::string::StringExecFns;

verus! {

/// The place of the first `}` of `t` at or after `from`; `t.len()` if there
/// is none.
pub open spec fn closing(t: Seq<char>, from: int) -> int
    decreases t.len() - from,
{
    if from < 0 || from >= t.len() {
        t.len() as int
    } else if t[from] == '}' {
        from
    } else {
        closing(t, from + 1)
    }
}

/// Whether a placeholder starts at `at`.
pub open spec fn placeholder_at(t: Seq<char>, at: int) -> bool {
    0 <= at < t.len() && t[at] == '{' && at + 1 < closing(t, at + 1) < t.len()
}

/// The name of the placeholder that starts at `at`.
pub open spec fn name_at(t: Seq<char>, at: int) -> Seq<char> {
    trimmed(t.subrange(at + 1, closing(t, at + 1)))
}

/// `r` with `head` in front of what it holds.
pub open spec fn prefixed(head: Seq<char>, r: Result<Seq<char>, ErrorView>) -> Result<
    Seq<char>,
    ErrorView,
> {
    match r {
        Ok(rest) => Ok(head + rest),
        Err(e) => Err(e),
    }
}

/// The expansion of `t` from `at` on: each placeholder gives way to the
/// location of the directory it names, all other text stays. The first
/// placeholder whose directory is unknown decides the error.
pub open spec fn expanded_from(t: Seq<char>, at: int, dirs: DirectoriesView) -> Result<
    Seq<char>,
    ErrorView,
>
    decreases t.len() - at,
{
    if at < 0 || at >= t.len() {
        Ok(Seq::empty())
    } else if placeholder_at(t, at) {
        match located(dirs, name_at(t, at)) {
            Ok(p) => prefixed(p, expanded_from(t, closing(t, at + 1) + 1, dirs)),
            Err(e) => Err(e),
        }
    } else {
        prefixed(seq![t[at]], expanded_from(t, at + 1, dirs))
    }
}

/// The expansion of the template `t`, in plain form.
pub open spec fn expanded(t: Seq<char>, dirs: DirectoriesView) -> Result<Seq<char>, ErrorView> {
    match expanded_from(t, 0, dirs) {
        Ok(p) => Ok(normalized(p)),
        Err(e) => Err(e),
    }
}

/// The place of the first `}` of `t` at or after `from`; `t.len()` if there
/// is none.
pub(crate) fn find_closing(t: &Vec<char>, from: usize) -> (r: usize)
    requires
        from <= t.len(),
    ensures
        r == closing(t@, from as int),
        from <= r <= t.len(),
{
    let mut j: usize = from;
    while j < t.len() && t[j] != '}'
        invariant
            from <= j <= t.len(),
            closing(t@, from as int) == closing(t@, j as int),
        decreases t.len() - j,
    {
        j += 1;
    }
    j
}

/// Expands the path template `path`, and brings the result into plain form.
pub fn parse_path(path: &str, dirs: &Directories) -> (r: Result<String, ResolutionError>)
    ensures
        text_result(r) == expanded(path@, dirs@),
{
    let t = chars_of(path);
    let mut out = String::new();
    let mut i: usize = 0;
    while i < t.len()
        invariant
            i <= t.len(),
            t@ == path@,
            expanded_from(path@, 0, dirs@) == prefixed(out@, expanded_from(t@, i as int, dirs@)),
        decreases t.len() - i,
    {
        let ghost before = out@;
        if t[i] == '{' {
            let close = find_closing(&t, i + 1);
            if i + 1 < close && close < t.len() {
                let name = trim(&t, i + 1, close);
                match get(name.as_str(), dirs) {
                    Ok(p) => {
                        out.append(p.as_str());
                        proof {
                            let rest = expanded_from(t@, close + 1, dirs@);
                            if let Ok(tail) = rest {
                                assert(before + (p@ + tail) =~= (before + p@) + tail);
                            }
                        }
                        i = close + 1;
                        continue ;
                    },
                    Err(e) => {
                        return Err(e);
                    },
                }
            }
        }
        push_char(&mut out, t[i]);
        proof {
            let rest = expanded_from(t@, i + 1, dirs@);
            if let Ok(tail) = rest {
                assert(before + (seq![t@[i as int]] + tail) =~= before.push(t@[i as int]) + tail);
            }
        }
        i += 1;
    }
    proof {
        assert(out@ + Seq::<char>::empty() =~= out@);
    }
    Ok(normalize(out.as_str()))
}

} // verus!
