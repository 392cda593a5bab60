//! Putting groups together by name: a later group of the same name takes
//! the place of an earlier one.
use crate::entries::{parse_entries, resolved_entries};
use crate::error::{ErrorView, ResolutionError};
use crate::settings::{groups, names_of, raw_groups, Entries, EntriesView, RawEntries, RawEntriesView};
use crate::text::{clone_texts, same};
use crate::util::path::{Directories, DirectoriesView};
use vstd::prelude::*;

verus! {

/// A resolved group with its name.
pub type Group = (Seq<char>, EntriesView);

/// `acc` with the group `e` under `name`: in the place of the group that
/// bore the name, or at the end where none did.
pub open spec fn put(acc: Seq<Group>, name: Seq<char>, e: EntriesView) -> Seq<Group> {
    match names_of(acc).index_of_first(name) {
        Some(i) => acc.update(i, (name, e)),
        None => acc.push((name, e)),
    }
}

/// `acc` after the groups of `layer` were put into it, in order.
pub open spec fn put_all(acc: Seq<Group>, layer: Seq<Group>) -> Seq<Group>
    decreases layer.len(),
{
    if layer.len() == 0 {
        acc
    } else {
        put(put_all(acc, layer.drop_last()), layer.last().0, layer.last().1)
    }
}

/// `acc` after each layer of `layers` was put into it, in order.
pub open spec fn overlaid(acc: Seq<Group>, layers: Seq<Seq<Group>>) -> Seq<Group>
    decreases layers.len(),
{
    if layers.len() == 0 {
        acc
    } else {
        put_all(overlaid(acc, layers.drop_last()), layers.last())
    }
}

/// The declared groups of `raw`, resolved in order and put together by
/// name. The first group that fails to resolve decides the error.
pub open spec fn resolved_groups(
    raw: Seq<(Seq<char>, RawEntriesView)>,
    dirs: DirectoriesView,
) -> Result<Seq<Group>, ErrorView>
    decreases raw.len(),
{
    if raw.len() == 0 {
        Ok(Seq::empty())
    } else {
        match resolved_groups(raw.drop_last(), dirs) {
            Err(e) => Err(e),
            Ok(acc) => match resolved_entries(raw.last().1, dirs) {
                Err(e) => Err(e),
                Ok(e) => Ok(put(acc, raw.last().0, e)),
            },
        }
    }
}

/// The groups of an instruction: its own, resolved, and over them the
/// layers that it inherits.
pub open spec fn merged(
    raw: Seq<(Seq<char>, RawEntriesView)>,
    layers: Seq<Seq<Group>>,
    dirs: DirectoriesView,
) -> Result<Seq<Group>, ErrorView> {
    match resolved_groups(raw, dirs) {
        Err(e) => Err(e),
        Ok(own) => Ok(overlaid(own, layers)),
    }
}

/// Each name stands once, and no group holds a path twice.
pub open spec fn groups_wf(g: Seq<Group>) -> bool {
    &&& names_of(g).no_duplicates()
    &&& forall|i: int| 0 <= i < g.len() ==> (#[trigger] g[i]).1.wf()
}

/// The group that stands under `name`, if there is one.
pub open spec fn group_of(g: Seq<Group>, name: Seq<char>) -> Option<EntriesView> {
    match names_of(g).index_of_first(name) {
        Some(i) => Some(g[i].1),
        None => None,
    }
}

/// The views of a list of layers.
pub open spec fn layers_of(v: Seq<Vec<(String, Entries)>>) -> Seq<Seq<Group>> {
    v.map_values(|layer: Vec<(String, Entries)>| groups(layer@))
}

/// The view of the outcome of putting groups together.
pub open spec fn groups_result(r: Result<Vec<(String, Entries)>, ResolutionError>) -> Result<
    Seq<Group>,
    ErrorView,
> {
    match r {
        Ok(v) => Ok(groups(v@)),
        Err(e) => Err(e@),
    }
}

/// Putting a group keeps each name single and each group well formed, and
/// changes what stands under the name of the group, and nothing else.
pub proof fn lemma_put(acc: Seq<Group>, name: Seq<char>, e: EntriesView)
    requires
        names_of(acc).no_duplicates(),
    ensures
        names_of(put(acc, name, e)).no_duplicates(),
        group_of(put(acc, name, e), name) == Some(e),
        forall|other: Seq<char>|
            other != name ==> #[trigger] group_of(put(acc, name, e), other) == group_of(
                acc,
                other,
            ),
        groups_wf(acc) && e.wf() ==> groups_wf(put(acc, name, e)),
{
    let names = names_of(acc);
    let after = put(acc, name, e);
    names.index_of_first_ensures(name);
    match names.index_of_first(name) {
        Some(i) => {
            assert(names_of(after) =~= names);
            assert(after[i].1 == e);
        },
        None => {
            assert(names_of(after) =~= names.push(name));
            names_of(after).index_of_first_ensures(name);
            assert(names_of(after)[names.len() as int] == name);
            let k = names_of(after).index_of_first(name).unwrap();
            if k < names.len() {
                assert(names[k] == name);
            }
            assert(after[k].1 == e);
        },
    }
    names_of(after).index_of_first_ensures(name);
    assert forall|other: Seq<char>| other != name implies #[trigger] group_of(after, other)
        == group_of(acc, other) by {
        names.index_of_first_ensures(other);
        names_of(after).index_of_first_ensures(other);
        match names.index_of_first(other) {
            Some(j) => {
                assert(names_of(after)[j] == other);
            },
            None => {
                if names_of(after).contains(other) {
                    let j = choose|j: int|
                        0 <= j < names_of(after).len() && names_of(after)[j] == other;
                    if j < names.len() {
                        assert(names[j] == other);
                    }
                }
            },
        }
    }
}

/// Putting a layer keeps each name single and each group well formed.
pub proof fn lemma_put_all_wf(acc: Seq<Group>, layer: Seq<Group>)
    requires
        groups_wf(acc),
        forall|i: int| 0 <= i < layer.len() ==> (#[trigger] layer[i]).1.wf(),
    ensures
        groups_wf(put_all(acc, layer)),
    decreases layer.len(),
{
    if layer.len() > 0 {
        let init = layer.drop_last();
        assert forall|i: int| 0 <= i < init.len() implies (#[trigger] init[i]).1.wf() by {
            assert(init[i] == layer[i]);
        }
        lemma_put_all_wf(acc, init);
        assert(layer[layer.len() - 1].1.wf());
        lemma_put(put_all(acc, init), layer.last().0, layer.last().1);
    }
}

/// Putting layers of well-formed groups keeps the whole well formed.
pub proof fn lemma_overlaid_wf(acc: Seq<Group>, layers: Seq<Seq<Group>>)
    requires
        groups_wf(acc),
        forall|i: int| 0 <= i < layers.len() ==> groups_wf(#[trigger] layers[i]),
    ensures
        groups_wf(overlaid(acc, layers)),
    decreases layers.len(),
{
    if layers.len() > 0 {
        let init = layers.drop_last();
        assert forall|i: int| 0 <= i < init.len() implies groups_wf(#[trigger] init[i]) by {
            assert(init[i] == layers[i]);
        }
        lemma_overlaid_wf(acc, init);
        assert(groups_wf(layers[layers.len() - 1]));
        lemma_put_all_wf(overlaid(acc, init), layers.last());
    }
}

impl Entries {
    /// A copy of this group.
    pub fn duplicate(&self) -> (r: Entries)
        ensures
            r@ == self@,
    {
        Entries {
            root: self.root.clone(),
            add: clone_texts(&self.add),
            del: clone_texts(&self.del),
        }
    }
}

/// Puts the group `e` under `name` into `acc`: in the place of the group
/// that bore the name, or at the end where none did.
pub fn put_group(acc: &mut Vec<(String, Entries)>, name: String, e: Entries)
    ensures
        groups(final(acc)@) == put(groups(old(acc)@), name@, e@),
{
    let ghost before = groups(acc@);
    let ghost names = names_of(before);
    proof {
        names.index_of_first_ensures(name@);
    }
    let mut i: usize = 0;
    while i < acc.len()
        invariant
            i <= acc.len(),
            acc@ == old(acc)@,
            before == groups(acc@),
            names == names_of(before),
            forall|j: int| 0 <= j < i ==> names[j] != name@,
        decreases acc.len() - i,
    {
        if same(acc[i].0.as_str(), name.as_str()) {
            proof {
                names.index_of_first_ensures(name@);
                assert(names[i as int] == name@);
            }
            let _ = acc.remove(i);
            acc.insert(i, (name, e));
            proof {
                assert(groups(acc@) =~= before.update(i as int, (name@, e@)));
            }
            return ;
        }
        i += 1;
    }
    proof {
        names.index_of_first_ensures(name@);
    }
    acc.push((name, e));
    proof {
        assert(groups(acc@) =~= before.push((name@, e@)));
    }
}

/// Puts a copy of each group of `layer` into `acc`, in order.
pub fn put_layer(acc: &mut Vec<(String, Entries)>, layer: &Vec<(String, Entries)>)
    ensures
        groups(final(acc)@) == put_all(groups(old(acc)@), groups(layer@)),
{
    let mut i: usize = 0;
    proof {
        assert(groups(layer@).take(0) =~= Seq::<Group>::empty());
    }
    while i < layer.len()
        invariant
            i <= layer.len(),
            groups(acc@) == put_all(groups(old(acc)@), groups(layer@).take(i as int)),
        decreases layer.len() - i,
    {
        proof {
            let now = groups(layer@).take(i + 1);
            assert(now.drop_last() =~= groups(layer@).take(i as int));
            assert(now.last() == (layer@[i as int].0@, layer@[i as int].1@));
        }
        put_group(acc, layer[i].0.clone(), layer[i].1.duplicate());
        i += 1;
    }
    proof {
        assert(groups(layer@).take(layer.len() as int) =~= groups(layer@));
    }
}

/// Resolves the declared groups of `raw`, puts them together by name, and
/// puts the layers of `extend` over them, in order.
pub fn parse_save(
    raw: &Vec<(String, RawEntries)>,
    extend: &Vec<Vec<(String, Entries)>>,
    dirs: &Directories,
) -> (r: Result<Vec<(String, Entries)>, ResolutionError>)
    ensures
        groups_result(r) == merged(raw_groups(raw@), layers_of(extend@), dirs@),
{
    let mut result: Vec<(String, Entries)> = Vec::new();
    let mut i: usize = 0;
    proof {
        assert(raw_groups(raw@).take(0) =~= Seq::<(Seq<char>, RawEntriesView)>::empty());
        assert(groups(result@) =~= Seq::<Group>::empty());
    }
    while i < raw.len()
        invariant
            i <= raw.len(),
            resolved_groups(raw_groups(raw@).take(i as int), dirs@) == Ok::<
                Seq<Group>,
                ErrorView,
            >(groups(result@)),
        decreases raw.len() - i,
    {
        proof {
            let now = raw_groups(raw@).take(i + 1);
            assert(now.drop_last() =~= raw_groups(raw@).take(i as int));
            assert(now.last() == (raw@[i as int].0@, raw@[i as int].1@));
            lemma_resolved_groups_fails_on(raw_groups(raw@), i + 1, dirs@);
        }
        match parse_entries(&raw[i].1, dirs) {
            Ok(e) => {
                put_group(&mut result, raw[i].0.clone(), e);
            },
            Err(e) => {
                return Err(e);
            },
        }
        i += 1;
    }
    proof {
        assert(raw_groups(raw@).take(raw.len() as int) =~= raw_groups(raw@));
        assert(layers_of(extend@).take(0) =~= Seq::<Seq<Group>>::empty());
    }
    let ghost own = groups(result@);
    let mut k: usize = 0;
    while k < extend.len()
        invariant
            k <= extend.len(),
            groups(result@) == overlaid(own, layers_of(extend@).take(k as int)),
        decreases extend.len() - k,
    {
        proof {
            let now = layers_of(extend@).take(k + 1);
            assert(now.drop_last() =~= layers_of(extend@).take(k as int));
            assert(now.last() == groups(extend@[k as int]@));
        }
        put_layer(&mut result, &extend[k]);
        k += 1;
    }
    proof {
        assert(layers_of(extend@).take(extend.len() as int) =~= layers_of(extend@));
    }
    Ok(result)
}

/// Where a front part of the declared groups fails to resolve, the whole
/// fails in the same way.
pub proof fn lemma_resolved_groups_fails_on(
    raw: Seq<(Seq<char>, RawEntriesView)>,
    n: int,
    dirs: DirectoriesView,
)
    requires
        0 <= n <= raw.len(),
    ensures
        resolved_groups(raw.take(n), dirs) is Err ==> resolved_groups(raw, dirs)
            == resolved_groups(raw.take(n), dirs),
    decreases raw.len() - n,
{
    if n < raw.len() {
        lemma_resolved_groups_fails_on(raw, n + 1, dirs);
        assert(raw.take(n + 1).drop_last() =~= raw.take(n));
    } else {
        assert(raw.take(n) =~= raw);
    }
}

} // verus!
