//! Instructions: as they are written down, and as they are once resolved.
use crate::entries::{lemma_selected_no_duplicates, resolved_entries};
use crate::error::{ErrorView, ResolutionError};
use crate::inclusion::{include_raw, listed, walked, Inherited};
use crate::merge::{
    group_of, groups_wf, layers_of, lemma_overlaid_wf, lemma_put, merged, parse_save, put_layer,
    resolved_groups, Group,
};
use crate::store::{loaded, InstructionStore, StoredView};
use crate::text::{contains_text, lowercase_all, lowercase_of, lowercased, texts, to_lowercase};
use crate::util::path::{Directories, DirectoriesView};
use vstd::prelude::*;

verus! {

/// A group as an instruction declares it: the template of its root and the
/// entries below that root. An entry that starts with `-` is left out of the
/// group; any other entry, with or without a leading `+`, belongs to it.
#[derive(Debug, PartialEq, Eq)]
pub struct RawEntries {
    pub path: String,
    pub entries: Vec<String>,
}

/// The mathematical value of [`RawEntries`].
pub struct RawEntriesView {
    pub path: Seq<char>,
    pub entries: Seq<Seq<char>>,
}

impl View for RawEntries {
    type V = RawEntriesView;

    open spec fn view(&self) -> RawEntriesView {
        RawEntriesView { path: self.path@, entries: texts(self.entries@) }
    }
}

/// The views of a list of named groups.
pub open spec fn raw_groups(v: Seq<(String, RawEntries)>) -> Seq<(Seq<char>, RawEntriesView)> {
    v.map_values(|g: (String, RawEntries)| (g.0@, g.1@))
}

/// An instruction as it is written down: the instructions it inherits from,
/// its own groups by name, and the operating systems it is meant for.
#[derive(Debug, PartialEq, Eq)]
pub struct RawInstruction {
    pub inherits: Vec<String>,
    pub save: Vec<(String, RawEntries)>,
    pub os: Vec<String>,
}

/// The mathematical value of a [`RawInstruction`].
pub struct RawInstructionView {
    pub inherits: Seq<Seq<char>>,
    pub save: Seq<(Seq<char>, RawEntriesView)>,
    pub os: Seq<Seq<char>>,
}

impl View for RawInstruction {
    type V = RawInstructionView;

    open spec fn view(&self) -> RawInstructionView {
        RawInstructionView {
            inherits: texts(self.inherits@),
            save: raw_groups(self.save@),
            os: texts(self.os@),
        }
    }
}

/// A resolved group: its root, the paths that belong to it and the paths
/// that are left out of it. No path stands twice in either list.
#[derive(Debug, PartialEq, Eq)]
pub struct Entries {
    pub root: String,
    pub add: Vec<String>,
    pub del: Vec<String>,
}

/// The mathematical value of [`Entries`].
pub struct EntriesView {
    pub root: Seq<char>,
    pub add: Seq<Seq<char>>,
    pub del: Seq<Seq<char>>,
}

impl View for Entries {
    type V = EntriesView;

    open spec fn view(&self) -> EntriesView {
        EntriesView { root: self.root@, add: texts(self.add@), del: texts(self.del@) }
    }
}

impl EntriesView {
    /// No path stands twice among those that belong, nor among those left out.
    pub open spec fn wf(self) -> bool {
        self.add.no_duplicates() && self.del.no_duplicates()
    }
}

impl Entries {
    /// No path stands twice among those that belong, nor among those left out.
    pub open spec fn wf(&self) -> bool {
        self@.wf()
    }
}

/// The views of a list of named resolved groups.
pub open spec fn groups(v: Seq<(String, Entries)>) -> Seq<(Seq<char>, EntriesView)> {
    v.map_values(|g: (String, Entries)| (g.0@, g.1@))
}

/// The names of a list of named groups, in order.
pub open spec fn names_of(g: Seq<(Seq<char>, EntriesView)>) -> Seq<Seq<char>> {
    g.map_values(|e: (Seq<char>, EntriesView)| e.0)
}

/// A resolved instruction: its groups by name, each name once.
#[derive(Debug, PartialEq, Eq)]
pub struct Instruction {
    pub save: Vec<(String, Entries)>,
}

/// The mathematical value of an [`Instruction`].
pub struct InstructionView {
    pub save: Seq<(Seq<char>, EntriesView)>,
}

impl View for Instruction {
    type V = InstructionView;

    open spec fn view(&self) -> InstructionView {
        InstructionView { save: groups(self.save@) }
    }
}

impl InstructionView {
    /// Each name stands once, and each group is well formed.
    pub open spec fn wf(self) -> bool {
        &&& names_of(self.save).no_duplicates()
        &&& forall|i: int| 0 <= i < self.save.len() ==> (#[trigger] self.save[i]).1.wf()
    }

    /// The group that stands under `name`, if there is one.
    pub open spec fn group(self, name: Seq<char>) -> Option<EntriesView> {
        group_of(self.save, name)
    }

    /// The groups as a mapping from name to group.
    pub open spec fn by_name(self) -> Map<Seq<char>, EntriesView> {
        Map::new(
            |k: Seq<char>| group_of(self.save, k) is Some,
            |k: Seq<char>| group_of(self.save, k)->Some_0,
        )
    }
}

impl Instruction {
    /// Each name stands once, and each group is well formed.
    pub open spec fn wf(&self) -> bool {
        self@.wf()
    }
}

/// The groups of each inherited definition, resolved, in the order of the
/// list. A definition whose groups fail to resolve decides the error, which
/// bears its name.
pub open spec fn resolved_each(list: Seq<Inherited>, dirs: DirectoriesView) -> Result<
    Seq<Seq<Group>>,
    ErrorView,
>
    decreases list.len(),
{
    if list.len() == 0 {
        Ok(Seq::empty())
    } else {
        match resolved_each(list.drop_last(), dirs) {
            Err(e) => Err(e),
            Ok(layers) => match resolved_groups(list.last().1.save, dirs) {
                Err(e) => Err(ErrorView::Included(list.last().0, Box::new(e))),
                Ok(g) => Ok(layers.push(g)),
            },
        }
    }
}

/// The layers that the names `names` bring in: the definitions behind them
/// are listed first, then the groups of each are resolved.
pub open spec fn inherited(
    store: Seq<StoredView>,
    names: Seq<Seq<char>>,
    dirs: DirectoriesView,
) -> Result<Seq<Seq<Group>>, ErrorView> {
    match walked(store, names, Seq::empty()) {
        Err(e) => Err(e),
        Ok(list) => resolved_each(list, dirs),
    }
}

/// The resolved form of `raw`, where `required` is the lowercase form of
/// the systems it lists and `actual` that of the system it is resolved on.
/// An unlisted system is refused before anything else is looked at; then
/// come the failures of inheritance, then those of the instruction's own
/// groups.
pub open spec fn resolved_on(
    raw: RawInstructionView,
    required: Seq<Seq<char>>,
    actual: Seq<char>,
    store: Seq<StoredView>,
    dirs: DirectoriesView,
) -> Result<InstructionView, ErrorView> {
    if !required.contains(actual) {
        Err(ErrorView::UnsupportedOs { required, actual })
    } else {
        match inherited(store, raw.inherits, dirs) {
            Err(e) => Err(e),
            Ok(layers) => match merged(raw.save, layers, dirs) {
                Err(e) => Err(e),
                Ok(save) => Ok(InstructionView { save }),
            },
        }
    }
}

/// The resolved form of `raw` on the operating system `os`.
pub open spec fn resolved(
    raw: RawInstructionView,
    store: Seq<StoredView>,
    dirs: DirectoriesView,
    os: Seq<char>,
) -> Result<InstructionView, ErrorView> {
    resolved_on(raw, lowercased(raw.os), lowercase_of(os), store, dirs)
}

/// The resolved form of the stored instruction `name`.
pub open spec fn resolved_by_name(
    name: Seq<char>,
    store: Seq<StoredView>,
    dirs: DirectoriesView,
    os: Seq<char>,
) -> Result<InstructionView, ErrorView> {
    match loaded(store, name) {
        Err(e) => Err(e),
        Ok(raw) => resolved(raw, store, dirs, os),
    }
}

/// The views of a list of resolved instructions, as layers.
pub open spec fn saves_of(v: Seq<Instruction>) -> Seq<Seq<Group>> {
    v.map_values(|i: Instruction| groups(i.save@))
}

/// The view of the outcome of resolving what is inherited.
pub open spec fn layers_result(r: Result<Vec<Instruction>, ResolutionError>) -> Result<
    Seq<Seq<Group>>,
    ErrorView,
> {
    match r {
        Ok(v) => Ok(saves_of(v@)),
        Err(e) => Err(e@),
    }
}

/// The view of the outcome of a resolution.
pub open spec fn instruction_result(r: Result<Instruction, ResolutionError>) -> Result<
    InstructionView,
    ErrorView,
> {
    match r {
        Ok(i) => Ok(i@),
        Err(e) => Err(e@),
    }
}

/// Resolved groups bear each name once and hold no path twice.
pub proof fn lemma_resolved_groups_wf(raw: Seq<(Seq<char>, RawEntriesView)>, dirs: DirectoriesView)
    ensures
        resolved_groups(raw, dirs) matches Ok(g) ==> groups_wf(g),
    decreases raw.len(),
{
    if raw.len() > 0 {
        lemma_resolved_groups_wf(raw.drop_last(), dirs);
        if let Ok(acc) = resolved_groups(raw.drop_last(), dirs) {
            if let Ok(e) = resolved_entries(raw.last().1, dirs) {
                lemma_selected_no_duplicates(e.root, raw.last().1.entries, false);
                lemma_selected_no_duplicates(e.root, raw.last().1.entries, true);
                lemma_put(acc, raw.last().0, e);
            }
        }
    } else {
        assert(names_of(Seq::<Group>::empty()) =~= Seq::<Seq<char>>::empty());
    }
}

/// Each resolved layer bears each name once and holds no path twice.
pub proof fn lemma_resolved_each_wf(list: Seq<Inherited>, dirs: DirectoriesView)
    ensures
        resolved_each(list, dirs) matches Ok(layers) ==> forall|i: int|
            0 <= i < layers.len() ==> groups_wf(#[trigger] layers[i]),
    decreases list.len(),
{
    if list.len() > 0 {
        lemma_resolved_each_wf(list.drop_last(), dirs);
        lemma_resolved_groups_wf(list.last().1.save, dirs);
    }
}

/// Where a front part of the list fails to resolve, the whole fails in the
/// same way.
pub proof fn lemma_resolved_each_fails_on(list: Seq<Inherited>, n: int, dirs: DirectoriesView)
    requires
        0 <= n <= list.len(),
    ensures
        resolved_each(list.take(n), dirs) is Err ==> resolved_each(list, dirs) == resolved_each(
            list.take(n),
            dirs,
        ),
    decreases list.len() - n,
{
    if n < list.len() {
        lemma_resolved_each_fails_on(list, n + 1, dirs);
        assert(list.take(n + 1).drop_last() =~= list.take(n));
    } else {
        assert(list.take(n) =~= list);
    }
}

/// A resolved instruction is well formed.
pub proof fn lemma_resolved_wf(
    raw: RawInstructionView,
    required: Seq<Seq<char>>,
    actual: Seq<char>,
    store: Seq<StoredView>,
    dirs: DirectoriesView,
)
    ensures
        resolved_on(raw, required, actual, store, dirs) matches Ok(i) ==> i.wf(),
{
    if let Ok(i) = resolved_on(raw, required, actual, store, dirs) {
        let list = walked(store, raw.inherits, Seq::empty())->Ok_0;
        let layers = resolved_each(list, dirs)->Ok_0;
        let own = resolved_groups(raw.save, dirs)->Ok_0;
        lemma_resolved_each_wf(list, dirs);
        lemma_resolved_groups_wf(raw.save, dirs);
        lemma_overlaid_wf(own, layers);
    }
}

/// Lists the definitions that the names of `raw` bring in, and resolves the
/// groups of each.
pub fn parse_include(raw: &Vec<String>, store: &InstructionStore, dirs: &Directories) -> (r: Result<
    Vec<Instruction>,
    ResolutionError,
>)
    ensures
        layers_result(r) == inherited(store@, texts(raw@), dirs@),
{
    proof {
        assert(texts(Seq::<String>::empty()) =~= Seq::<Seq<char>>::empty());
    }
    let list = match include_raw(raw, Vec::new(), store) {
        Ok(list) => list,
        Err(e) => {
            return Err(e);
        },
    };
    let mut result: Vec<Instruction> = Vec::new();
    let mut i: usize = 0;
    proof {
        assert(listed(list@).take(0) =~= Seq::<Inherited>::empty());
        assert(saves_of(result@) =~= Seq::<Seq<Group>>::empty());
    }
    while i < list.len()
        invariant
            i <= list.len(),
            walked(store@, texts(raw@), Seq::empty()) == Ok::<Seq<Inherited>, ErrorView>(
                listed(list@),
            ),
            resolved_each(listed(list@).take(i as int), dirs@) == Ok::<Seq<Seq<Group>>, ErrorView>(
                saves_of(result@),
            ),
        decreases list.len() - i,
    {
        let no_layers: Vec<Vec<(String, Entries)>> = Vec::new();
        proof {
            let now = listed(list@).take(i + 1);
            assert(now.drop_last() =~= listed(list@).take(i as int));
            assert(now.last() == (list@[i as int].0@, list@[i as int].1@));
            lemma_resolved_each_fails_on(listed(list@), i + 1, dirs@);
            assert(layers_of(no_layers@) =~= Seq::<Seq<Group>>::empty());
        }
        match parse_save(&list[i].1.save, &no_layers, dirs) {
            Ok(save) => {
                let ghost before = saves_of(result@);
                result.push(Instruction { save });
                proof {
                    assert(saves_of(result@) =~= before.push(groups(save@)));
                }
            },
            Err(e) => {
                return Err(ResolutionError::Included(list[i].0.clone(), Box::new(e)));
            },
        }
        i += 1;
    }
    proof {
        assert(listed(list@).take(list.len() as int) =~= listed(list@));
    }
    Ok(result)
}

impl Instruction {
    /// Resolves the stored instruction `name` on the operating system `os`.
    pub fn from_file(name: &str, store: &InstructionStore, dirs: &Directories, os: &str) -> (r:
        Result<Instruction, ResolutionError>)
        ensures
            instruction_result(r) == resolved_by_name(name@, store@, dirs@, os@),
            r matches Ok(i) ==> i.wf(),
    {
        match store.load(name) {
            Ok(raw) => Instruction::from_raw(raw, store, dirs, os),
            Err(e) => Err(e),
        }
    }

    /// Resolves `raw` on the operating system `os`.
    pub fn from_raw(raw: &RawInstruction, store: &InstructionStore, dirs: &Directories, os: &str) -> (r:
        Result<Instruction, ResolutionError>)
        ensures
            instruction_result(r) == resolved(raw@, store@, dirs@, os@),
            r matches Ok(i) ==> i.wf(),
    {
        let required = lowercase_all(&raw.os);
        let actual = to_lowercase(os);
        Instruction::from_lowered(raw, required, actual, store, dirs)
    }

    /// Resolves `raw`, where `required` holds the lowercase form of the
    /// systems it lists and `actual` that of the system it is resolved on.
    pub fn from_lowered(
        raw: &RawInstruction,
        required: Vec<String>,
        actual: String,
        store: &InstructionStore,
        dirs: &Directories,
    ) -> (r: Result<Instruction, ResolutionError>)
        ensures
            instruction_result(r) == resolved_on(raw@, texts(required@), actual@, store@, dirs@),
            r matches Ok(i) ==> i.wf(),
    {
        proof {
            lemma_resolved_wf(raw@, texts(required@), actual@, store@, dirs@);
        }
        if !contains_text(&required, actual.as_str()) {
            return Err(ResolutionError::UnsupportedOs { required, actual });
        }
        let included = match parse_include(&raw.inherits, store, dirs) {
            Ok(included) => included,
            Err(e) => {
                return Err(e);
            },
        };
        let no_layers: Vec<Vec<(String, Entries)>> = Vec::new();
        proof {
            assert(layers_of(no_layers@) =~= Seq::<Seq<Group>>::empty());
            assert(saves_of(included@).take(0) =~= Seq::<Seq<Group>>::empty());
        }
        let mut save = match parse_save(&raw.save, &no_layers, dirs) {
            Ok(save) => save,
            Err(e) => {
                return Err(e);
            },
        };
        let ghost own = groups(save@);
        let mut k: usize = 0;
        while k < included.len()
            invariant
                k <= included.len(),
                groups(save@) == crate::merge::overlaid(own, saves_of(included@).take(k as int)),
            decreases included.len() - k,
        {
            proof {
                let now = saves_of(included@).take(k + 1);
                assert(now.drop_last() =~= saves_of(included@).take(k as int));
                assert(now.last() == groups(included@[k as int].save@));
            }
            put_layer(&mut save, &included[k].save);
            k += 1;
        }
        proof {
            assert(saves_of(included@).take(included.len() as int) =~= saves_of(included@));
        }
        Ok(Instruction { save })
    }
}

} // verus!
