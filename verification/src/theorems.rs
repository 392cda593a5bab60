//! What holds of resolution as a whole.
use crate::error::{ErrorView, ResolutionError};
use crate::inclusion::{
    lemma_loaded_is_stored, lemma_unvisited_push, unvisited, walked, Inherited,
};
use crate::merge::{group_of, lemma_put, overlaid, put, put_all, resolved_groups, Group};
use crate::settings::{
    instruction_result, names_of, resolved, resolved_by_name, resolved_each, resolved_on,
    EntriesView, Instruction, InstructionView, RawEntriesView, RawInstructionView,
};
use crate::store::{loaded, stored_names, DefinitionView, StoredView};
use crate::template::{closing, expanded, expanded_from, name_at, placeholder_at};
use crate::text::{lowercase_of, lowercased};
use crate::util::path::{
    chained, counts, lemma_separator_bounds, located, normalized, pieces, separator,
    DirectoriesView,
};
use vstd::prelude::*;

verus! {

/// Resolving the same instruction twice, with the same store, directories
/// and operating system, gives equal outcomes.
pub proof fn lemma_resolving_twice_agrees(
    raw: RawInstructionView,
    store: Seq<StoredView>,
    dirs: DirectoriesView,
    os: Seq<char>,
    first: Result<Instruction, ResolutionError>,
    second: Result<Instruction, ResolutionError>,
)
    requires
        instruction_result(first) == resolved(raw, store, dirs, os),
        instruction_result(second) == resolved(raw, store, dirs, os),
    ensures
        instruction_result(first) == instruction_result(second),
        first is Ok <==> second is Ok,
        first matches Ok(a) ==> second matches Ok(b) && a@ == b@,
        first matches Err(a) ==> second matches Err(b) && a@ == b@,
{
}

/// Whether the instruction `from` is loaded and inherits from `to`.
pub open spec fn inherits_from(store: Seq<StoredView>, from: Seq<char>, to: Seq<char>) -> bool {
    loaded(store, from) matches Ok(raw) && raw.inherits.contains(to)
}

/// Whether each name of `chain` but the last inherits from the next.
pub open spec fn is_chain(store: Seq<StoredView>, chain: Seq<Seq<char>>) -> bool {
    forall|j: int|
        0 <= j < chain.len() - 1 ==> inherits_from(store, #[trigger] chain[j], chain[j + 1])
}

/// Whether every stored definition is parsed and inherits from stored
/// names only.
pub open spec fn is_closed(store: Seq<StoredView>) -> bool {
    forall|i: int|
        0 <= i < store.len() ==> match (#[trigger] store[i]).definition {
            DefinitionView::Parsed(raw) => forall|k: int|
                0 <= k < raw.inherits.len() ==> stored_names(store).contains(
                    #[trigger] raw.inherits[k],
                ),
            _ => false,
        }
}

/// A walk that succeeds has met no name that was seen before: no chain
/// that starts among its names ends in one.
pub proof fn lemma_walk_avoids_visited(
    store: Seq<StoredView>,
    names: Seq<Seq<char>>,
    visited: Seq<Seq<char>>,
    chain: Seq<Seq<char>>,
)
    requires
        walked(store, names, visited) is Ok,
        chain.len() >= 1,
        names.contains(chain[0]),
        is_chain(store, chain),
    ensures
        !visited.contains(chain.last()),
    decreases unvisited(store, visited), names.len(),
{
    let n = names[0];
    let raw = loaded(store, n)->Ok_0;
    let seen = visited.push(n);
    lemma_loaded_is_stored(store, n);
    lemma_unvisited_push(store, visited, n);
    assert forall|x: Seq<char>| visited.contains(x) implies seen.contains(x) by {
        let k = choose|k: int| 0 <= k < visited.len() && visited[k] == x;
        assert(seen[k] == x);
    }
    if chain[0] == n {
        if chain.len() > 1 {
            let tail = chain.skip(1);
            assert(inherits_from(store, chain[0], chain[1]));
            assert forall|j: int| 0 <= j < tail.len() - 1 implies inherits_from(
                store,
                #[trigger] tail[j],
                tail[j + 1],
            ) by {
                assert(inherits_from(store, chain[j + 1], chain[j + 2]));
            }
            lemma_walk_avoids_visited(store, raw.inherits, seen, tail);
        }
    } else {
        let k = choose|k: int| 0 <= k < names.len() && names[k] == chain[0];
        assert(names.skip(1)[k - 1] == chain[0]);
        lemma_walk_avoids_visited(store, names.skip(1), seen, chain);
    }
}

/// A walk fails where a chain of inheritance that starts among its names
/// meets a name twice, however long the way round.
pub proof fn lemma_cycle_is_refused(
    store: Seq<StoredView>,
    names: Seq<Seq<char>>,
    visited: Seq<Seq<char>>,
    chain: Seq<Seq<char>>,
    i: int,
    j: int,
)
    requires
        chain.len() >= 1,
        names.contains(chain[0]),
        is_chain(store, chain),
        0 <= i < j < chain.len(),
        chain[i] == chain[j],
    ensures
        walked(store, names, visited) is Err,
    decreases unvisited(store, visited), names.len(),
{
    if walked(store, names, visited) is Ok {
        let n = names[0];
        let raw = loaded(store, n)->Ok_0;
        let seen = visited.push(n);
        lemma_loaded_is_stored(store, n);
        lemma_unvisited_push(store, visited, n);
        if chain[0] == n {
            assert(inherits_from(store, chain[0], chain[1]));
            if i == 0 {
                let round = chain.subrange(1, j + 1);
                assert forall|k: int| 0 <= k < round.len() - 1 implies inherits_from(
                    store,
                    #[trigger] round[k],
                    round[k + 1],
                ) by {
                    assert(inherits_from(store, chain[k + 1], chain[k + 2]));
                }
                lemma_walk_avoids_visited(store, raw.inherits, seen, round);
                assert(seen[visited.len() as int] == n);
                assert(round.last() == chain[j]);
            } else {
                let tail = chain.skip(1);
                assert forall|k: int| 0 <= k < tail.len() - 1 implies inherits_from(
                    store,
                    #[trigger] tail[k],
                    tail[k + 1],
                ) by {
                    assert(inherits_from(store, chain[k + 1], chain[k + 2]));
                }
                lemma_cycle_is_refused(store, raw.inherits, seen, tail, i - 1, j - 1);
            }
        } else {
            let k = choose|k: int| 0 <= k < names.len() && names[k] == chain[0];
            assert(names.skip(1)[k - 1] == chain[0]);
            lemma_cycle_is_refused(store, names.skip(1), seen, chain, i, j);
        }
    }
}

/// In a closed store, a walk from stored names can fail in one way only: by
/// meeting a name that was seen before.
pub proof fn lemma_closed_walk_fails_on_repetition(
    store: Seq<StoredView>,
    names: Seq<Seq<char>>,
    visited: Seq<Seq<char>>,
)
    requires
        is_closed(store),
        forall|k: int| 0 <= k < names.len() ==> stored_names(store).contains(#[trigger] names[k]),
    ensures
        walked(store, names, visited) matches Err(e) ==> e is RecursiveInclude,
    decreases unvisited(store, visited), names.len(),
{
    if names.len() > 0 && !visited.contains(names[0]) {
        let n = names[0];
        stored_names(store).index_of_first_ensures(n);
        let at = stored_names(store).index_of_first(n)->Some_0;
        assert(store[at].definition is Parsed);
        let raw = loaded(store, n)->Ok_0;
        let seen = visited.push(n);
        lemma_unvisited_push(store, visited, n);
        lemma_closed_walk_fails_on_repetition(store, raw.inherits, seen);
        if walked(store, raw.inherits, seen) is Ok {
            assert forall|k: int| 0 <= k < names.skip(1).len() implies stored_names(
                store,
            ).contains(#[trigger] names.skip(1)[k]) by {
                assert(names.skip(1)[k] == names[k + 1]);
            }
            lemma_closed_walk_fails_on_repetition(store, names.skip(1), seen);
        }
    }
}

/// An instruction that inherits from itself, directly or by way of others,
/// is refused as recursive: where the store is closed and the operating
/// system is listed, resolution fails with `RecursiveInclude` as soon as a
/// chain of inheritance that starts among the names it inherits from meets
/// a name twice.
pub proof fn lemma_recursive_instruction_is_refused(
    raw: RawInstructionView,
    required: Seq<Seq<char>>,
    actual: Seq<char>,
    store: Seq<StoredView>,
    dirs: DirectoriesView,
    chain: Seq<Seq<char>>,
    i: int,
    j: int,
)
    requires
        required.contains(actual),
        is_closed(store),
        forall|k: int|
            0 <= k < raw.inherits.len() ==> stored_names(store).contains(
                #[trigger] raw.inherits[k],
            ),
        chain.len() >= 1,
        raw.inherits.contains(chain[0]),
        is_chain(store, chain),
        0 <= i < j < chain.len(),
        chain[i] == chain[j],
    ensures
        resolved_on(raw, required, actual, store, dirs) matches Err(e) && e is RecursiveInclude,
{
    lemma_cycle_is_refused(store, raw.inherits, Seq::empty(), chain, i, j);
    lemma_closed_walk_fails_on_repetition(store, raw.inherits, Seq::empty());
}

/// A stored instruction that leads back to itself is refused as recursive,
/// however long the way round: where the store is closed and the operating
/// system is listed, resolving `name` fails with `RecursiveInclude` as soon
/// as a chain of inheritance leads from `name` to `name`.
pub proof fn lemma_self_inheriting_is_refused(
    name: Seq<char>,
    store: Seq<StoredView>,
    dirs: DirectoriesView,
    os: Seq<char>,
    chain: Seq<Seq<char>>,
)
    requires
        is_closed(store),
        chain.len() >= 2,
        chain[0] == name,
        chain.last() == name,
        is_chain(store, chain),
        loaded(store, name) matches Ok(raw) ==> lowercased(raw.os).contains(lowercase_of(os)),
    ensures
        resolved_by_name(name, store, dirs, os) matches Err(e) && e is RecursiveInclude,
{
    assert(inherits_from(store, chain[0], chain[1]));
    let raw = loaded(store, name)->Ok_0;
    stored_names(store).index_of_first_ensures(name);
    let at = stored_names(store).index_of_first(name)->Some_0;
    assert(store[at].definition == DefinitionView::Parsed(raw));
    let round = chain.skip(1).push(chain[1]);
    assert forall|k: int| 0 <= k < round.len() - 1 implies inherits_from(
        store,
        #[trigger] round[k],
        round[k + 1],
    ) by {
        if k < round.len() - 2 {
            assert(inherits_from(store, chain[k + 1], chain[k + 2]));
        } else {
            assert(round[k] == name);
            assert(round[k + 1] == chain[1]);
        }
    }
    assert(round[0] == round[round.len() - 1]);
    lemma_recursive_instruction_is_refused(
        raw,
        lowercased(raw.os),
        lowercase_of(os),
        store,
        dirs,
        round,
        0,
        round.len() - 1,
    );
}

/// A template fails to expand in one way only: by naming a directory that
/// is unknown.
pub proof fn lemma_expansion_fails_on_unknown_directory(
    t: Seq<char>,
    at: int,
    dirs: DirectoriesView,
)
    ensures
        expanded_from(t, at, dirs) matches Err(e) ==> e is UnknownDirectory,
    decreases t.len() - at,
{
    if 0 <= at < t.len() {
        if placeholder_at(t, at) {
            lemma_expansion_fails_on_unknown_directory(t, closing(t, at + 1) + 1, dirs);
        } else {
            lemma_expansion_fails_on_unknown_directory(t, at + 1, dirs);
        }
    }
}

/// Whether a path starts at the root.
pub open spec fn is_absolute(p: Seq<char>) -> bool {
    p.len() > 0 && p[0] == '/'
}

/// The plain form of a path starts at the root exactly if the path does.
pub proof fn lemma_plain_form_keeps_the_root(p: Seq<char>)
    ensures
        is_absolute(normalized(p)) <==> is_absolute(p),
{
    if !is_absolute(p) {
        if pieces(p, 0).len() > 0 && pieces(p, 0)[0] == seq!['.'] {
            assert(normalized(p)[0] == '.');
        } else {
            lemma_pieces_hold_no_separator(p, 0);
            lemma_chained_start(pieces(p, 0), false);
        }
    }
}

/// No piece of a path holds a separator.
pub proof fn lemma_pieces_hold_no_separator(p: Seq<char>, from: int)
    requires
        0 <= from <= p.len(),
    ensures
        forall|i: int, k: int|
            0 <= i < pieces(p, from).len() && 0 <= k < pieces(p, from)[i].len() ==> pieces(
                p,
                from,
            )[i][k] != '/',
    decreases p.len() - from,
{
    lemma_separator_bounds(p, from);
    lemma_before_separator(p, from);
    let end = separator(p, from);
    if end < p.len() {
        lemma_pieces_hold_no_separator(p, end + 1);
        let first = p.subrange(from, end);
        let rest = pieces(p, end + 1);
        assert forall|i: int, k: int|
            0 <= i < pieces(p, from).len() && 0 <= k < pieces(p, from)[i].len() implies pieces(
            p,
            from,
        )[i][k] != '/' by {
            if i == 0 {
                assert(pieces(p, from)[0] == first);
                assert(first[k] == p[from + k]);
            } else {
                assert(pieces(p, from)[i] == rest[i - 1]);
            }
        }
    } else {
        let only = p.subrange(from, p.len() as int);
        assert forall|i: int, k: int|
            0 <= i < pieces(p, from).len() && 0 <= k < pieces(p, from)[i].len() implies pieces(
            p,
            from,
        )[i][k] != '/' by {
            assert(pieces(p, from)[0] == only);
            assert(only[k] == p[from + k]);
        }
    }
}

/// No separator stands before the first separator.
pub proof fn lemma_before_separator(p: Seq<char>, from: int)
    requires
        0 <= from <= p.len(),
    ensures
        forall|k: int| from <= k < separator(p, from) ==> p[k] != '/',
    decreases p.len() - from,
{
    if from < p.len() && p[from] != '/' {
        lemma_before_separator(p, from + 1);
    }
}

/// Pieces without a separator, chained with nothing before them, do not
/// start with one.
pub proof fn lemma_chained_start(parts: Seq<Seq<char>>, started: bool)
    requires
        !started,
        forall|i: int, k: int|
            0 <= i < parts.len() && 0 <= k < parts[i].len() ==> parts[i][k] != '/',
    ensures
        chained(parts, started).len() > 0 ==> chained(parts, started)[0] != '/',
    decreases parts.len(),
{
    if parts.len() > 0 {
        if counts(parts[0]) {
            assert(chained(parts, started)[0] == parts[0][0]);
        } else {
            let rest = parts.skip(1);
            assert forall|i: int, k: int|
                0 <= i < rest.len() && 0 <= k < rest[i].len() implies rest[i][k] != '/' by {
                assert(rest[i] == parts[i + 1]);
            }
            lemma_chained_start(rest, started);
        }
    }
}

/// A template gives a path from the root where it starts at the root
/// itself, or with a placeholder for a directory whose location does.
pub proof fn lemma_expansion_from_the_root(t: Seq<char>, dirs: DirectoriesView)
    requires
        expanded(t, dirs) is Ok,
        is_absolute(t) || (placeholder_at(t, 0) && located(dirs, name_at(t, 0)) is Ok
            && is_absolute(located(dirs, name_at(t, 0))->Ok_0)),
    ensures
        is_absolute(expanded(t, dirs)->Ok_0),
{
    let raw = expanded_from(t, 0, dirs)->Ok_0;
    lemma_plain_form_keeps_the_root(raw);
    if is_absolute(t) {
        let rest = expanded_from(t, 1, dirs)->Ok_0;
        assert(!placeholder_at(t, 0));
        assert((seq![t[0]] + rest)[0] == '/');
    } else {
        let p = located(dirs, name_at(t, 0))->Ok_0;
        let rest = expanded_from(t, closing(t, 1) + 1, dirs)->Ok_0;
        assert((p + rest)[0] == '/');
    }
}

/// Groups fail to resolve in one way only: by naming a directory that is
/// unknown.
pub proof fn lemma_groups_fail_on_unknown_directory(
    raw: Seq<(Seq<char>, RawEntriesView)>,
    dirs: DirectoriesView,
)
    ensures
        resolved_groups(raw, dirs) matches Err(e) ==> e is UnknownDirectory,
    decreases raw.len(),
{
    if raw.len() > 0 {
        lemma_groups_fail_on_unknown_directory(raw.drop_last(), dirs);
        lemma_expansion_fails_on_unknown_directory(raw.last().1.path, 0, dirs);
    }
}

/// Inherited groups fail to resolve in one way only: under the name of the
/// definition they belong to.
pub proof fn lemma_inherited_groups_fail_by_name(list: Seq<Inherited>, dirs: DirectoriesView)
    ensures
        resolved_each(list, dirs) matches Err(e) ==> e is Included,
    decreases list.len(),
{
    if list.len() > 0 {
        lemma_inherited_groups_fail_by_name(list.drop_last(), dirs);
    }
}

/// A walk fails in four ways only: on a name seen before, on a name that
/// is not stored, and on a definition that could not be parsed or read.
pub proof fn lemma_walk_failures(
    store: Seq<StoredView>,
    names: Seq<Seq<char>>,
    visited: Seq<Seq<char>>,
)
    ensures
        walked(store, names, visited) matches Err(e) ==> e is RecursiveInclude
            || e is InstructionNotFound || e is MalformedDefinition || e is IoFailure,
    decreases unvisited(store, visited), names.len(),
{
    if names.len() > 0 && !visited.contains(names[0]) {
        if let Ok(raw) = loaded(store, names[0]) {
            let seen = visited.push(names[0]);
            lemma_loaded_is_stored(store, names[0]);
            lemma_unvisited_push(store, visited, names[0]);
            lemma_walk_failures(store, raw.inherits, seen);
            if walked(store, raw.inherits, seen) is Ok {
                lemma_walk_failures(store, names.skip(1), seen);
            }
        }
    }
}

/// The operating system decides first and alone: resolution fails with
/// `UnsupportedOs` exactly if the lowercase form of the system it runs on is
/// not among the lowercase forms of the systems that the instruction lists,
/// and the error then holds both.
pub proof fn lemma_unsupported_os(
    raw: RawInstructionView,
    store: Seq<StoredView>,
    dirs: DirectoriesView,
    os: Seq<char>,
)
    ensures
        !lowercased(raw.os).contains(lowercase_of(os)) ==> resolved(raw, store, dirs, os) == Err::<
            InstructionView,
            ErrorView,
        >(ErrorView::UnsupportedOs { required: lowercased(raw.os), actual: lowercase_of(os) }),
        lowercased(raw.os).contains(lowercase_of(os)) ==> !(resolved(raw, store, dirs, os) matches Err(
            e,
        ) && e is UnsupportedOs),
{
    lemma_walk_failures(store, raw.inherits, Seq::empty());
    if let Ok(list) = walked(store, raw.inherits, Seq::empty()) {
        lemma_inherited_groups_fail_by_name(list, dirs);
    }
    lemma_groups_fail_on_unknown_directory(raw.save, dirs);
}

/// What a walk makes of a single name: what its definition inherits,
/// then the definition.
pub proof fn lemma_walk_of_one(store: Seq<StoredView>, name: Seq<char>, visited: Seq<Seq<char>>)
    requires
        !visited.contains(name),
        loaded(store, name) is Ok,
    ensures
        walked(store, seq![name], visited) == match walked(
            store,
            loaded(store, name)->Ok_0.inherits,
            visited.push(name),
        ) {
            Ok(deep) => Ok::<Seq<Inherited>, ErrorView>(
                deep.push((name, loaded(store, name)->Ok_0)),
            ),
            Err(e) => Err(e),
        },
{
    let names = seq![name];
    let raw = loaded(store, name)->Ok_0;
    assert(names[0] == name);
    assert(names.skip(1) =~= Seq::<Seq<char>>::empty());
    if let Ok(deep) = walked(store, raw.inherits, visited.push(name)) {
        assert(walked(store, names.skip(1), visited.push(name)) == Ok::<Seq<Inherited>, ErrorView>(
            Seq::empty(),
        ));
        assert(deep.push((name, raw)) + Seq::<Inherited>::empty() =~= deep.push((name, raw)));
    }
}

/// Two neighbours may inherit from the same instruction: where `b` and `c`
/// both inherit from `d` alone, and `d` from nothing, the walk of `b` and
/// `c` succeeds and lists `d` once before each of them.
pub proof fn lemma_diamond_is_walked(
    store: Seq<StoredView>,
    b: Seq<char>,
    c: Seq<char>,
    d: Seq<char>,
)
    requires
        b != c,
        b != d,
        c != d,
        loaded(store, b) matches Ok(raw) && raw.inherits == seq![d],
        loaded(store, c) matches Ok(raw) && raw.inherits == seq![d],
        loaded(store, d) matches Ok(raw) && raw.inherits.len() == 0,
    ensures
        walked(store, seq![b, c], Seq::empty()) == Ok::<Seq<Inherited>, ErrorView>(
            seq![
                (d, loaded(store, d)->Ok_0),
                (b, loaded(store, b)->Ok_0),
                (d, loaded(store, d)->Ok_0),
                (c, loaded(store, c)->Ok_0),
            ],
        ),
{
    let none = Seq::<Seq<char>>::empty();
    let rb = loaded(store, b)->Ok_0;
    let rc = loaded(store, c)->Ok_0;
    let rd = loaded(store, d)->Ok_0;
    let names = seq![b, c];
    let seen_b = none.push(b);
    let seen_c = seen_b.push(c);
    assert(names[0] == b);
    assert(names.skip(1) =~= seq![c]);
    assert(!seen_b.contains(d));
    assert(!seen_b.contains(c));
    assert(!seen_c.contains(d));
    lemma_walk_of_one(store, d, seen_b);
    lemma_walk_of_one(store, d, seen_c);
    lemma_walk_of_one(store, c, seen_b);
    assert(rd.inherits =~= Seq::<Seq<char>>::empty());
    let below = Seq::<Inherited>::empty().push((d, rd));
    assert(walked(store, seq![d], seen_b) == Ok::<Seq<Inherited>, ErrorView>(below));
    assert(walked(store, seq![d], seen_c) == Ok::<Seq<Inherited>, ErrorView>(below));
    assert(walked(store, seq![c], seen_b) == Ok::<Seq<Inherited>, ErrorView>(below.push((c, rc))));
    assert(below.push((b, rb)) + below.push((c, rc)) =~= seq![(d, rd), (b, rb), (d, rd), (c, rc)]);
}

/// The group of the last entry of `layer` that bears `name`.
pub open spec fn last_in(layer: Seq<Group>, name: Seq<char>) -> Option<EntriesView>
    decreases layer.len(),
{
    if layer.len() == 0 {
        None
    } else if layer.last().0 == name {
        Some(layer.last().1)
    } else {
        last_in(layer.drop_last(), name)
    }
}

/// The group that the last of `layers` to bear `name` has under it.
pub open spec fn last_written(layers: Seq<Seq<Group>>, name: Seq<char>) -> Option<EntriesView>
    decreases layers.len(),
{
    if layers.len() == 0 {
        None
    } else {
        match last_in(layers.last(), name) {
            Some(e) => Some(e),
            None => last_written(layers.drop_last(), name),
        }
    }
}

/// After a layer was put, a name that the layer bears stands for the
/// layer's group, and any other name for what it stood for before.
pub proof fn lemma_put_all_group(acc: Seq<Group>, layer: Seq<Group>, name: Seq<char>)
    requires
        names_of(acc).no_duplicates(),
    ensures
        names_of(put_all(acc, layer)).no_duplicates(),
        group_of(put_all(acc, layer), name) == match last_in(layer, name) {
            Some(e) => Some(e),
            None => group_of(acc, name),
        },
    decreases layer.len(),
{
    if layer.len() > 0 {
        let init = layer.drop_last();
        lemma_put_all_group(acc, init, name);
        lemma_put(put_all(acc, init), layer.last().0, layer.last().1);
    }
}

/// The last writer wins: after the layers were put over an instruction's
/// own groups, a name stands for the group of the last layer that bears it,
/// and for the instruction's own group only where no layer bears it.
pub proof fn lemma_last_writer_wins(own: Seq<Group>, layers: Seq<Seq<Group>>, name: Seq<char>)
    requires
        names_of(own).no_duplicates(),
    ensures
        names_of(overlaid(own, layers)).no_duplicates(),
        group_of(overlaid(own, layers), name) == match last_written(layers, name) {
            Some(e) => Some(e),
            None => group_of(own, name),
        },
    decreases layers.len(),
{
    if layers.len() > 0 {
        lemma_last_writer_wins(own, layers.drop_last(), name);
        lemma_put_all_group(overlaid(own, layers.drop_last()), layers.last(), name);
    }
}

/// Where each name stands once in a layer, the last entry that bears a
/// name is the only one.
pub proof fn lemma_last_in_is_group_of(layer: Seq<Group>, name: Seq<char>)
    requires
        names_of(layer).no_duplicates(),
    ensures
        last_in(layer, name) == group_of(layer, name),
    decreases layer.len(),
{
    let names = names_of(layer);
    names.index_of_first_ensures(name);
    if layer.len() > 0 {
        let init = layer.drop_last();
        assert(names_of(init) =~= names.drop_last());
        names_of(init).index_of_first_ensures(name);
        lemma_last_in_is_group_of(init, name);
        if layer.last().0 == name {
            assert(names[names.len() - 1] == name);
        } else {
            match names.index_of_first(name) {
                Some(i) => {
                    assert(names_of(init)[i] == name);
                },
                None => {
                    if names_of(init).contains(name) {
                        let k = choose|k: int|
                            0 <= k < names_of(init).len() && names_of(init)[k] == name;
                        assert(names[k] == name);
                    }
                },
            }
        }
    }
}

/// An inherited group takes the place of an instruction's own: where an
/// instruction resolves, each of its group names stands for the group that
/// the last inherited definition to bear the name has under it, and for the
/// instruction's own group only where no inherited definition bears it.
pub proof fn lemma_inherited_group_overrides(
    raw: RawInstructionView,
    required: Seq<Seq<char>>,
    actual: Seq<char>,
    store: Seq<StoredView>,
    dirs: DirectoriesView,
    name: Seq<char>,
)
    requires
        resolved_on(raw, required, actual, store, dirs) is Ok,
    ensures
        ({
            let list = walked(store, raw.inherits, Seq::empty())->Ok_0;
            let layers = resolved_each(list, dirs)->Ok_0;
            let own = resolved_groups(raw.save, dirs)->Ok_0;
            resolved_on(raw, required, actual, store, dirs)->Ok_0.group(name) == match last_written(
                layers,
                name,
            ) {
                Some(e) => Some(e),
                None => group_of(own, name),
            }
        }),
{
    let list = walked(store, raw.inherits, Seq::empty())->Ok_0;
    let layers = resolved_each(list, dirs)->Ok_0;
    let own = resolved_groups(raw.save, dirs)->Ok_0;
    crate::settings::lemma_resolved_groups_wf(raw.save, dirs);
    lemma_last_writer_wins(own, layers, name);
}

} // verus!
