//! Inheritance between instructions: from the names that an instruction
//! inherits from to the flat list of the definitions behind them.
//!
//! The names are taken in order. A name that was seen before is refused;
//! otherwise it counts as seen, its definition is loaded, what that
//! definition inherits from is walked first, and then the definition itself
//! takes its place in the list. The names seen are handed down, not up: what
//! a walk below one name has seen is unknown to the names that follow it.
use crate::error::{ErrorView, ResolutionError};
use crate::settings::{RawInstruction, RawInstructionView};
use crate::store::{loaded, stored_names, InstructionStore, StoredView};
use crate::text::{clone_texts, contains_text, lemma_texts_push, texts};
use vstd::prelude::*;

verus! {

/// An inherited definition with its name.
pub type Inherited = (Seq<char>, RawInstructionView);

/// How many stored entries bear a name that was not seen yet.
pub open spec fn unvisited(store: Seq<StoredView>, visited: Seq<Seq<char>>) -> nat
    decreases store.len(),
{
    if store.len() == 0 {
        0
    } else {
        unvisited(store.drop_last(), visited) + if visited.contains(store.last().name) {
            0nat
        } else {
            1nat
        }
    }
}

/// Seeing one more name leaves no more entries unseen than before, and
/// fewer where the name is new and stored.
pub proof fn lemma_unvisited_push(store: Seq<StoredView>, visited: Seq<Seq<char>>, name: Seq<char>)
    ensures
        unvisited(store, visited.push(name)) <= unvisited(store, visited),
        stored_names(store).contains(name) && !visited.contains(name) ==> unvisited(
            store,
            visited.push(name),
        ) < unvisited(store, visited),
    decreases store.len(),
{
    if store.len() > 0 {
        let init = store.drop_last();
        let last = store.last();
        lemma_unvisited_push(init, visited, name);
        assert(visited.push(name)[visited.len() as int] == name);
        if visited.contains(last.name) {
            let k = choose|k: int| 0 <= k < visited.len() && visited[k] == last.name;
            assert(visited.push(name)[k] == last.name);
        }
        if stored_names(store).contains(name) && !visited.contains(name) {
            let k = choose|k: int| 0 <= k < store.len() && stored_names(store)[k] == name;
            if k < init.len() {
                assert(stored_names(init)[k] == name);
            } else {
                assert(last.name == name);
            }
        }
    }
}

/// A loaded definition is a stored one.
pub proof fn lemma_loaded_is_stored(store: Seq<StoredView>, name: Seq<char>)
    ensures
        loaded(store, name) is Ok ==> stored_names(store).contains(name),
{
    stored_names(store).index_of_first_ensures(name);
}

/// `r` with `head` in front of the list it holds.
pub open spec fn followed(head: Seq<Inherited>, r: Result<Seq<Inherited>, ErrorView>) -> Result<
    Seq<Inherited>,
    ErrorView,
> {
    match r {
        Ok(rest) => Ok(head + rest),
        Err(e) => Err(e),
    }
}

/// The flat list of what `names` bring in, after the names of `visited`
/// were seen: for each name in turn what its definition inherits, then the
/// definition itself. The first failure met on the way decides the error.
pub open spec fn walked(
    store: Seq<StoredView>,
    names: Seq<Seq<char>>,
    visited: Seq<Seq<char>>,
) -> Result<Seq<Inherited>, ErrorView>
    decreases unvisited(store, visited), names.len(),
{
    if names.len() == 0 {
        Ok(Seq::empty())
    } else if visited.contains(names[0]) {
        Err(ErrorView::RecursiveInclude(names[0]))
    } else {
        match loaded(store, names[0]) {
            Err(e) => Err(e),
            Ok(raw) => {
                proof {
                    lemma_loaded_is_stored(store, names[0]);
                    lemma_unvisited_push(store, visited, names[0]);
                }
                let seen = visited.push(names[0]);
                match walked(store, raw.inherits, seen) {
                    Err(e) => Err(e),
                    Ok(deep) => followed(
                        deep.push((names[0], raw)),
                        walked(store, names.skip(1), seen),
                    ),
                }
            },
        }
    }
}

/// The views of a list of inherited definitions.
pub open spec fn listed(v: Seq<(String, &RawInstruction)>) -> Seq<Inherited> {
    v.map_values(|p: (String, &RawInstruction)| (p.0@, p.1@))
}

/// The view of the outcome of a walk.
pub open spec fn walk_result(
    r: Result<Vec<(String, &RawInstruction)>, ResolutionError>,
) -> Result<Seq<Inherited>, ErrorView> {
    match r {
        Ok(v) => Ok(listed(v@)),
        Err(e) => Err(e@),
    }
}

/// Walks the names of `raw` after the names of `included` were seen, and
/// lists the definitions they bring in.
pub fn include_raw<'a>(
    raw: &Vec<String>,
    included: Vec<String>,
    store: &'a InstructionStore,
) -> (r: Result<Vec<(String, &'a RawInstruction)>, ResolutionError>)
    ensures
        walk_result(r) == walked(store@, texts(raw@), texts(included@)),
    decreases unvisited(store@, texts(included@)), raw.len(),
{
    let ghost start = texts(included@);
    let mut result: Vec<(String, &'a RawInstruction)> = Vec::new();
    let mut seen = included;
    let mut i: usize = 0;
    proof {
        assert(texts(raw@).skip(0) =~= texts(raw@));
        if let Ok(all) = walked(store@, texts(raw@), texts(included@)) {
            assert(listed(result@) + all =~= all);
        }
    }
    while i < raw.len()
        invariant
            i <= raw.len(),
            start == texts(included@),
            unvisited(store@, texts(seen@)) <= unvisited(store@, start),
            walked(store@, texts(raw@), start) == followed(
                listed(result@),
                walked(store@, texts(raw@).skip(i as int), texts(seen@)),
            ),
        decreases raw.len() - i,
    {
        let ghost names = texts(raw@).skip(i as int);
        let ghost visited = texts(seen@);
        let ghost head = listed(result@);
        let name = &raw[i];
        proof {
            assert(names[0] == name@);
            assert(names.skip(1) =~= texts(raw@).skip(i + 1));
        }
        if contains_text(&seen, name.as_str()) {
            return Err(ResolutionError::RecursiveInclude(name.clone()));
        }
        let inst = match store.load(name.as_str()) {
            Ok(inst) => inst,
            Err(e) => {
                return Err(e);
            },
        };
        proof {
            lemma_texts_push(seen@, *name);
            lemma_loaded_is_stored(store@, name@);
            lemma_unvisited_push(store@, visited, name@);
        }
        seen.push(name.clone());
        let mut deep = match include_raw(&inst.inherits, clone_texts(&seen), store) {
            Ok(deep) => deep,
            Err(e) => {
                return Err(e);
            },
        };
        let ghost below = listed(deep@);
        result.append(&mut deep);
        result.push((name.clone(), inst));
        proof {
            assert(listed(result@) =~= head + below.push((name@, inst@)));
            let rest = walked(store@, names.skip(1), texts(seen@));
            if let Ok(tail) = rest {
                assert(head + (below.push((name@, inst@)) + tail) =~= (head + below.push(
                    (name@, inst@),
                )) + tail);
            }
        }
        i += 1;
    }
    proof {
        assert(listed(result@) + Seq::<Inherited>::empty() =~= listed(result@));
    }
    Ok(result)
}

} // verus!
