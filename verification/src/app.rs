//! The instructions and the saved configs that are known, by name.
use crate::error::{ErrorView, ResolutionError};
use crate::ordered::{
    ascending, insert_entry, keys, lemma_with_entry, lemma_without, lookup, position,
    remove_entry, value_of, with_entry, without,
};
use crate::settings::{resolved_by_name, Instruction};
use crate::store::InstructionStore;
use crate::text::{decimal, framed, push_decimal};
use crate::util::path::{captured, file_name_pattern, joined, name, name_parts, Directories};
use vstd::prelude::*;
use vstd::string::StringExecFns;

verus! {

/// Paths by name.
pub type Table = Seq<(Seq<char>, Seq<char>)>;

/// For each instruction that has them: the directory of its configs, and
/// the configs in it by name.
pub type ConfigTable = Seq<(Seq<char>, (Seq<char>, Table))>;

/// What is known of instructions and configs. Both lists are kept in the
/// order of their names, each name once, as are the configs of each
/// instruction.
#[derive(Debug, PartialEq, Eq)]
pub struct App {
    pub instructions: Vec<(String, String)>,
    pub configs: Vec<(String, (String, Vec<(String, String)>))>,
}

/// The mathematical value of an [`App`].
pub struct AppView {
    pub instructions: Table,
    pub configs: ConfigTable,
}

impl View for App {
    type V = AppView;

    open spec fn view(&self) -> AppView {
        AppView {
            instructions: self.instructions.deep_view(),
            configs: self.configs.deep_view(),
        }
    }
}

impl AppView {
    /// Each list is in the order of its names.
    pub open spec fn wf(self) -> bool {
        &&& ascending(keys(self.instructions))
        &&& ascending(keys(self.configs))
        &&& forall|i: int|
            0 <= i < self.configs.len() ==> ascending(keys((#[trigger] self.configs[i]).1.1))
    }

    /// Whether `name` is known both as an instruction and by its configs.
    pub open spec fn has(self, name: Seq<char>) -> bool {
        value_of(self.instructions, name) is Some && value_of(self.configs, name) is Some
    }
}

/// The text that reports a missing instruction.
pub open spec fn no_instruction(name: Seq<char>) -> Seq<char> {
    "Instruction does not exist ("@ + name + ")"@
}

/// The text that reports a missing config.
pub open spec fn no_config(what: Seq<char>) -> Seq<char> {
    "Config does not exist ("@ + what + ")"@
}

/// The text that reports an instruction that exists already.
pub open spec fn already_there(name: Seq<char>) -> Seq<char> {
    "Instruction already exist ("@ + name + ")"@
}

/// The path of the `number`th config of `files`, counted from 1.
pub open spec fn numbered(files: Table, number: nat) -> Result<Seq<char>, Seq<char>> {
    if 1 <= number <= files.len() {
        Ok(files[number - 1].1)
    } else {
        Err(no_config(decimal(number)))
    }
}

/// The text that reports that config `number` is missing.
pub fn missing_config(number: usize) -> (r: String)
    ensures
        r@ == no_config(decimal(number as nat)),
{
    let mut r = String::from_str("Config does not exist (");
    push_decimal(&mut r, number);
    r.append(")");
    r
}

/// What taking configs out by their numbers leaves and gives: the configs
/// that remain, the paths of those taken out, in order, and the report of
/// the first number that names no config, at which the taking out stops.
/// The numbers count the configs as `listing` has them, from 1.
pub open spec fn taken_out(listing: Table, files: Table, numbers: Seq<usize>) -> (
    Table,
    Seq<Seq<char>>,
    Option<Seq<char>>,
)
    decreases numbers.len(),
{
    if numbers.len() == 0 {
        (files, Seq::empty(), None)
    } else {
        let before = taken_out(listing, files, numbers.drop_last());
        let n = numbers.last();
        if before.2 is Some {
            before
        } else if !(1 <= n <= listing.len()) {
            (before.0, before.1, Some(no_config(decimal(n as nat))))
        } else {
            match value_of(before.0, listing[n - 1].0) {
                Some(p) => (without(before.0, listing[n - 1].0), before.1.push(p), None),
                None => (before.0, before.1, Some(no_config(decimal(n as nat)))),
            }
        }
    }
}

/// What a removal asks of the file system, and how it ended.
#[derive(Debug, PartialEq, Eq)]
pub struct Removal {
    /// The paths to remove, in order.
    pub paths: Vec<String>,
    /// The report of what stopped the removal, if anything did.
    pub failure: Option<String>,
}

/// The mathematical value of a [`Removal`].
pub struct RemovalView {
    pub paths: Seq<Seq<char>>,
    pub failure: Option<Seq<char>>,
}

impl View for Removal {
    type V = RemovalView;

    open spec fn view(&self) -> RemovalView {
        RemovalView {
            paths: self.paths.deep_view(),
            failure: match self.failure {
                Some(e) => Some(e@),
                None => None,
            },
        }
    }
}

/// The state after `name` was added with its two paths.
pub open spec fn added(app: AppView, name: Seq<char>, definition: Seq<char>, dir: Seq<char>) -> AppView {
    AppView {
        instructions: with_entry(app.instructions, name, definition),
        configs: with_entry(app.configs, name, (dir, Seq::empty())),
    }
}

/// The state and the removal that deleting from `name` gives: with
/// numbers, the configs of those numbers; without, the instruction and all
/// its configs.
pub open spec fn deleted(app: AppView, name: Seq<char>, numbers: Seq<usize>) -> (
    AppView,
    RemovalView,
) {
    if numbers.len() > 0 {
        match keys(app.configs).index_of_first(name) {
            None => (app, RemovalView { paths: Seq::empty(), failure: Some(no_config(name)) }),
            Some(i) => {
                let found = app.configs[i].1;
                let out = taken_out(found.1, found.1, numbers);
                (
                    AppView {
                        instructions: app.instructions,
                        configs: app.configs.update(i, (name, (found.0, out.0))),
                    },
                    RemovalView { paths: out.1, failure: out.2 },
                )
            },
        }
    } else {
        match (value_of(app.instructions, name), value_of(app.configs, name)) {
            (None, _) => (
                app,
                RemovalView { paths: Seq::empty(), failure: Some(no_instruction(name)) },
            ),
            (Some(_), None) => (
                app,
                RemovalView { paths: Seq::empty(), failure: Some(no_config(name)) },
            ),
            (Some(definition), Some(found)) => (
                AppView {
                    instructions: without(app.instructions, name),
                    configs: without(app.configs, name),
                },
                RemovalView { paths: seq![definition, found.0], failure: None },
            ),
        }
    }
}

/// Adding an instruction keeps the lists in order.
pub proof fn lemma_added_wf(app: AppView, name: Seq<char>, definition: Seq<char>, dir: Seq<char>)
    requires
        app.wf(),
    ensures
        added(app, name, definition, dir).wf(),
{
    let none: Table = Seq::empty();
    lemma_with_entry(app.instructions, name, definition);
    lemma_with_entry(app.configs, name, (dir, none));
    crate::ordered::lemma_slot_bounds(keys(app.configs), name);
    let after = with_entry(app.configs, name, (dir, none));
    let at = crate::ordered::slot(keys(app.configs), name);
    assert forall|i: int| 0 <= i < after.len() implies ascending(
        keys((#[trigger] after[i]).1.1),
    ) by {
        if i == at {
            assert(keys(none) =~= Seq::<Seq<char>>::empty());
        } else if at < app.configs.len() && app.configs[at].0 == name {
            assert(after[i] == app.configs[i]);
        } else if i < at {
            assert(after[i] == app.configs[i]);
        } else {
            assert(after[i] == app.configs[i - 1]);
        }
    }
}

/// Taking configs out keeps the remaining ones in order.
pub proof fn lemma_taken_out_wf(listing: Table, files: Table, numbers: Seq<usize>)
    requires
        ascending(keys(files)),
    ensures
        ascending(keys(taken_out(listing, files, numbers).0)),
    decreases numbers.len(),
{
    if numbers.len() > 0 {
        lemma_taken_out_wf(listing, files, numbers.drop_last());
        let before = taken_out(listing, files, numbers.drop_last());
        let n = numbers.last();
        if 1 <= n <= listing.len() {
            lemma_without(before.0, listing[n - 1].0);
        }
    }
}

/// Deleting keeps the lists in order.
pub proof fn lemma_deleted_wf(app: AppView, name: Seq<char>, numbers: Seq<usize>)
    requires
        app.wf(),
    ensures
        deleted(app, name, numbers).0.wf(),
{
    let after = deleted(app, name, numbers).0;
    if numbers.len() > 0 {
        keys(app.configs).index_of_first_ensures(name);
        match keys(app.configs).index_of_first(name) {
            None => {},
            Some(i) => {
                let found = app.configs[i].1;
                lemma_taken_out_wf(found.1, found.1, numbers);
                assert(keys(after.configs) =~= keys(app.configs));
                assert forall|k: int| 0 <= k < after.configs.len() implies ascending(
                    keys((#[trigger] after.configs[k]).1.1),
                ) by {
                    if k != i {
                        assert(after.configs[k] == app.configs[k]);
                    }
                }
            },
        }
    } else {
        lemma_without(app.instructions, name);
        lemma_without(app.configs, name);
        keys(app.configs).index_of_first_ensures(name);
        match keys(app.configs).index_of_first(name) {
            None => {},
            Some(i) => {
                assert forall|k: int| 0 <= k < after.configs.len() implies ascending(
                    keys((#[trigger] after.configs[k]).1.1),
                ) by {
                    if value_of(app.instructions, name) is Some {
                        if k < i {
                            assert(after.configs[k] == app.configs[k]);
                        } else {
                            assert(after.configs[k] == app.configs[k + 1]);
                        }
                    }
                }
            },
        }
    }
}

/// An entry of a directory, as a listing gives it: its file name, its
/// path, and whether it is a directory or a plain file.
#[derive(Debug, PartialEq, Eq)]
pub struct Listed {
    pub name: String,
    pub path: String,
    pub is_dir: bool,
    pub is_file: bool,
}

/// The mathematical value of a [`Listed`].
pub struct ListedView {
    pub name: Seq<char>,
    pub path: Seq<char>,
    pub is_dir: bool,
    pub is_file: bool,
}

impl View for Listed {
    type V = ListedView;

    open spec fn view(&self) -> ListedView {
        ListedView { name: self.name@, path: self.path@, is_dir: self.is_dir, is_file: self.is_file }
    }
}

/// The views of a listing.
pub open spec fn listing_of(v: Seq<Listed>) -> Seq<ListedView> {
    v.map_values(|e: Listed| e@)
}

/// An entry of a directory with what listing the entry itself gave: its
/// own entries, or the report of why it could not be listed.
#[derive(Debug, PartialEq, Eq)]
pub struct ListedDir {
    pub entry: Listed,
    pub children: Result<Vec<Listed>, String>,
}

/// The mathematical value of a [`ListedDir`].
pub struct ListedDirView {
    pub entry: ListedView,
    pub children: Result<Seq<ListedView>, Seq<char>>,
}

impl View for ListedDir {
    type V = ListedDirView;

    open spec fn view(&self) -> ListedDirView {
        ListedDirView {
            entry: self.entry@,
            children: match self.children {
                Ok(c) => Ok(listing_of(c@)),
                Err(e) => Err(e@),
            },
        }
    }
}

/// The views of a listing of directories.
pub open spec fn dirs_of(v: Seq<ListedDir>) -> Seq<ListedDirView> {
    v.map_values(|e: ListedDir| e@)
}

/// The stem of a file name, or the report of why it has none.
pub open spec fn stem_of(file_name: Seq<char>) -> Result<Seq<char>, Seq<char>> {
    match name_parts(captured(file_name_pattern(), file_name)) {
        Ok(parts) => Ok(parts.0),
        Err(e) => Err(e),
    }
}

/// The paths of the entries of `files` by the stems of their names; of
/// the plain files alone where `plain` is set. The first name without a
/// stem decides the error.
pub open spec fn table_of(files: Seq<ListedView>, plain: bool) -> Result<Table, Seq<char>>
    decreases files.len(),
{
    if files.len() == 0 {
        Ok(Seq::empty())
    } else {
        match table_of(files.drop_last(), plain) {
            Err(e) => Err(e),
            Ok(t) => if plain && !files.last().is_file {
                Ok(t)
            } else {
                match stem_of(files.last().name) {
                    Err(e) => Err(e),
                    Ok(stem) => Ok(with_entry(t, stem, files.last().path)),
                }
            },
        }
    }
}

/// The configs that the directories of `dirs` hold: each directory whose
/// stem names an instruction of `instructions` gives that instruction its
/// configs, the plain files in it.
pub open spec fn configs_of(dirs: Seq<ListedDirView>, instructions: Table) -> Result<
    ConfigTable,
    Seq<char>,
>
    decreases dirs.len(),
{
    if dirs.len() == 0 {
        Ok(Seq::empty())
    } else {
        match configs_of(dirs.drop_last(), instructions) {
            Err(e) => Err(e),
            Ok(t) => match stem_of(dirs.last().entry.name) {
                Err(e) => Err(e),
                Ok(stem) => if dirs.last().entry.is_dir && value_of(instructions, stem) is Some {
                    match dirs.last().children {
                        Err(e) => Err(e),
                        Ok(children) => match table_of(children, true) {
                            Err(e) => Err(e),
                            Ok(files) => Ok(with_entry(t, stem, (dirs.last().entry.path, files))),
                        },
                    }
                } else {
                    Ok(t)
                },
            },
        }
    }
}

/// The instructions of `instructions` that have configs in `configs`.
pub open spec fn kept(instructions: Table, configs: ConfigTable) -> Table
    decreases instructions.len(),
{
    if instructions.len() == 0 {
        Seq::empty()
    } else {
        let before = kept(instructions.drop_last(), configs);
        if value_of(configs, instructions.last().0) is Some {
            before.push(instructions.last())
        } else {
            before
        }
    }
}

/// What the two listings make known: the instructions that the files of
/// the first stand for, as far as a directory of the second holds their
/// configs, and those configs.
pub open spec fn known(files: Seq<ListedView>, dirs: Seq<ListedDirView>) -> Result<
    AppView,
    Seq<char>,
> {
    match table_of(files, false) {
        Err(e) => Err(e),
        Ok(instructions) => match configs_of(dirs, instructions) {
            Err(e) => Err(e),
            Ok(configs) => Ok(AppView { instructions: kept(instructions, configs), configs }),
        },
    }
}

/// Where a front part of a listing has a name without a stem, the whole
/// fails in the same way.
pub proof fn lemma_table_of_fails_on(files: Seq<ListedView>, plain: bool, n: int)
    requires
        0 <= n <= files.len(),
    ensures
        table_of(files.take(n), plain) is Err ==> table_of(files, plain) == table_of(
            files.take(n),
            plain,
        ),
    decreases files.len() - n,
{
    if n < files.len() {
        lemma_table_of_fails_on(files, plain, n + 1);
        assert(files.take(n + 1).drop_last() =~= files.take(n));
    } else {
        assert(files.take(n) =~= files);
    }
}

/// Where a front part of the directories fails, the whole fails in the
/// same way.
pub proof fn lemma_configs_of_fails_on(dirs: Seq<ListedDirView>, instructions: Table, n: int)
    requires
        0 <= n <= dirs.len(),
    ensures
        configs_of(dirs.take(n), instructions) is Err ==> configs_of(dirs, instructions)
            == configs_of(dirs.take(n), instructions),
    decreases dirs.len() - n,
{
    if n < dirs.len() {
        lemma_configs_of_fails_on(dirs, instructions, n + 1);
        assert(dirs.take(n + 1).drop_last() =~= dirs.take(n));
    } else {
        assert(dirs.take(n) =~= dirs);
    }
}

/// A table made of a listing is in the order of its names.
pub proof fn lemma_table_of_wf(files: Seq<ListedView>, plain: bool)
    ensures
        table_of(files, plain) matches Ok(t) ==> ascending(keys(t)),
    decreases files.len(),
{
    if files.len() > 0 {
        lemma_table_of_wf(files.drop_last(), plain);
        if let Ok(t) = table_of(files.drop_last(), plain) {
            if let Ok(stem) = stem_of(files.last().name) {
                lemma_with_entry(t, stem, files.last().path);
            }
        }
    } else {
        assert(keys(Seq::<(Seq<char>, Seq<char>)>::empty()) =~= Seq::<Seq<char>>::empty());
    }
}

/// The configs made of a listing are in the order of their names, as are
/// the configs of each instruction.
pub proof fn lemma_configs_of_wf(dirs: Seq<ListedDirView>, instructions: Table)
    ensures
        configs_of(dirs, instructions) matches Ok(t) ==> ascending(keys(t)) && forall|i: int|
            0 <= i < t.len() ==> ascending(keys((#[trigger] t[i]).1.1)),
    decreases dirs.len(),
{
    if dirs.len() > 0 {
        lemma_configs_of_wf(dirs.drop_last(), instructions);
        if let Ok(t) = configs_of(dirs.drop_last(), instructions) {
            if let Ok(stem) = stem_of(dirs.last().entry.name) {
                if let Ok(children) = dirs.last().children {
                    lemma_table_of_wf(children, true);
                    if let Ok(files) = table_of(children, true) {
                        let value = (dirs.last().entry.path, files);
                        lemma_with_entry(t, stem, value);
                        crate::ordered::lemma_slot_bounds(keys(t), stem);
                        let after = with_entry(t, stem, value);
                        let at = crate::ordered::slot(keys(t), stem);
                        assert forall|i: int| 0 <= i < after.len() implies ascending(
                            keys((#[trigger] after[i]).1.1),
                        ) by {
                            if i == at {
                            } else if at < t.len() && t[at].0 == stem {
                                assert(after[i] == t[i]);
                            } else if i < at {
                                assert(after[i] == t[i]);
                            } else {
                                assert(after[i] == t[i - 1]);
                            }
                        }
                    }
                }
            }
        }
    } else {
        assert(keys(Seq::<(Seq<char>, (Seq<char>, Table))>::empty()) =~= Seq::<
            Seq<char>,
        >::empty());
    }
}

/// The instructions that are kept are some of those that were there, in
/// their order.
pub proof fn lemma_kept_wf(instructions: Table, configs: ConfigTable)
    requires
        ascending(keys(instructions)),
    ensures
        ascending(keys(kept(instructions, configs))),
        forall|i: int|
            0 <= i < kept(instructions, configs).len() ==> exists|j: int|
                0 <= j < instructions.len() && instructions[j] == #[trigger] kept(
                    instructions,
                    configs,
                )[i],
    decreases instructions.len(),
{
    if instructions.len() > 0 {
        let init = instructions.drop_last();
        assert(keys(init) =~= keys(instructions).drop_last());
        lemma_kept_wf(init, configs);
        let before = kept(init, configs);
        let after = kept(instructions, configs);
        assert forall|i: int| 0 <= i < after.len() implies exists|j: int|
            0 <= j < instructions.len() && instructions[j] == #[trigger] after[i] by {
            if i < before.len() {
                let j = choose|j: int| 0 <= j < init.len() && init[j] == before[i];
                assert(instructions[j] == after[i]);
            } else {
                assert(instructions[instructions.len() - 1] == after[i]);
            }
        }
        assert forall|a: int, b: int| 0 <= a < b < keys(after).len() implies crate::ordered::precedes(
            keys(after)[a],
            keys(after)[b],
        ) by {
            if b < before.len() {
                assert(keys(before)[a] == keys(after)[a] && keys(before)[b] == keys(after)[b]);
            } else {
                let j = choose|j: int| 0 <= j < init.len() && init[j] == before[a];
                assert(keys(instructions)[j] == keys(after)[a]);
                assert(keys(instructions)[instructions.len() - 1] == keys(after)[b]);
            }
        }
    } else {
        assert(keys(kept(instructions, configs)) =~= Seq::<Seq<char>>::empty());
    }
}

/// What the two listings make known is in order.
pub proof fn lemma_known_wf(files: Seq<ListedView>, dirs: Seq<ListedDirView>)
    ensures
        known(files, dirs) matches Ok(app) ==> app.wf(),
{
    lemma_table_of_wf(files, false);
    if let Ok(instructions) = table_of(files, false) {
        lemma_configs_of_wf(dirs, instructions);
        if let Ok(configs) = configs_of(dirs, instructions) {
            lemma_kept_wf(instructions, configs);
        }
    }
}

/// The view of the outcome of making a table.
pub open spec fn table_result(r: Result<Vec<(String, String)>, String>) -> Result<Table, Seq<char>> {
    match r {
        Ok(t) => Ok(t.deep_view()),
        Err(e) => Err(e@),
    }
}

/// The view of the outcome of reading the listings.
pub open spec fn app_result(r: Result<App, String>) -> Result<AppView, Seq<char>> {
    match r {
        Ok(app) => Ok(app@),
        Err(e) => Err(e@),
    }
}

/// The paths of the entries of `files` by the stems of their names; of
/// the plain files alone where `plain` is set.
pub fn table_from(files: &Vec<Listed>, plain: bool) -> (r: Result<Vec<(String, String)>, String>)
    ensures
        table_result(r) == table_of(listing_of(files@), plain),
{
    let mut table: Vec<(String, String)> = Vec::new();
    let mut i: usize = 0;
    proof {
        assert(listing_of(files@).take(0) =~= Seq::<ListedView>::empty());
        assert(table.deep_view() =~= Seq::<(Seq<char>, Seq<char>)>::empty());
    }
    while i < files.len()
        invariant
            i <= files.len(),
            table_of(listing_of(files@).take(i as int), plain) == Ok::<Table, Seq<char>>(
                table.deep_view(),
            ),
        decreases files.len() - i,
    {
        proof {
            let now = listing_of(files@).take(i + 1);
            assert(now.drop_last() =~= listing_of(files@).take(i as int));
            assert(now.last() == files@[i as int]@);
            lemma_table_of_fails_on(listing_of(files@), plain, i + 1);
        }
        if !plain || files[i].is_file {
            match name(files[i].name.as_str()) {
                Ok(parts) => {
                    insert_entry(&mut table, parts.0, files[i].path.clone());
                },
                Err(e) => {
                    return Err(e);
                },
            }
        }
        i += 1;
    }
    proof {
        assert(listing_of(files@).take(files.len() as int) =~= listing_of(files@));
    }
    Ok(table)
}

impl App {
    /// Reads what is known from two listings: the files that define
    /// instructions, and the directories that hold configs.
    pub fn new(files: &Vec<Listed>, dirs: &Vec<ListedDir>) -> (r: Result<App, String>)
        ensures
            app_result(r) == known(listing_of(files@), dirs_of(dirs@)),
            r matches Ok(app) ==> app.wf(),
    {
        proof {
            lemma_known_wf(listing_of(files@), dirs_of(dirs@));
        }
        let found = match table_from(files, false) {
            Ok(found) => found,
            Err(e) => {
                return Err(e);
            },
        };
        let mut configs: Vec<(String, (String, Vec<(String, String)>))> = Vec::new();
        let mut i: usize = 0;
        proof {
            assert(dirs_of(dirs@).take(0) =~= Seq::<ListedDirView>::empty());
            assert(configs.deep_view() =~= Seq::<(Seq<char>, (Seq<char>, Table))>::empty());
        }
        while i < dirs.len()
            invariant
                i <= dirs.len(),
                table_of(listing_of(files@), false) == Ok::<Table, Seq<char>>(found.deep_view()),
                configs_of(dirs_of(dirs@).take(i as int), found.deep_view()) == Ok::<
                    ConfigTable,
                    Seq<char>,
                >(configs.deep_view()),
            decreases dirs.len() - i,
        {
            proof {
                let now = dirs_of(dirs@).take(i + 1);
                assert(now.drop_last() =~= dirs_of(dirs@).take(i as int));
                assert(now.last() == dirs@[i as int]@);
                lemma_configs_of_fails_on(dirs_of(dirs@), found.deep_view(), i + 1);
            }
            let stem = match name(dirs[i].entry.name.as_str()) {
                Ok(parts) => parts.0,
                Err(e) => {
                    return Err(e);
                },
            };
            if dirs[i].entry.is_dir && position(&found, stem.as_str()).is_some() {
                let children = match &dirs[i].children {
                    Ok(children) => children,
                    Err(e) => {
                        return Err(e.clone());
                    },
                };
                let files_in = match table_from(children, true) {
                    Ok(files_in) => files_in,
                    Err(e) => {
                        return Err(e);
                    },
                };
                insert_entry(&mut configs, stem, (dirs[i].entry.path.clone(), files_in));
            }
            i += 1;
        }
        proof {
            assert(dirs_of(dirs@).take(dirs.len() as int) =~= dirs_of(dirs@));
            assert(found.deep_view().take(0) =~= Seq::<(Seq<char>, Seq<char>)>::empty());
        }
        let mut instructions: Vec<(String, String)> = Vec::new();
        let mut k: usize = 0;
        proof {
            assert(instructions.deep_view() =~= Seq::<(Seq<char>, Seq<char>)>::empty());
        }
        while k < found.len()
            invariant
                k <= found.len(),
                instructions.deep_view() == kept(
                    found.deep_view().take(k as int),
                    configs.deep_view(),
                ),
            decreases found.len() - k,
        {
            proof {
                let now = found.deep_view().take(k + 1);
                assert(now.drop_last() =~= found.deep_view().take(k as int));
                assert(now.last() == (found@[k as int].0@, found@[k as int].1@));
            }
            if position(&configs, found[k].0.as_str()).is_some() {
                let ghost before = instructions.deep_view();
                instructions.push((found[k].0.clone(), found[k].1.clone()));
                proof {
                    assert(instructions.deep_view() =~= before.push(
                        (found@[k as int].0@, found@[k as int].1@),
                    ));
                }
            }
            k += 1;
        }
        proof {
            assert(found.deep_view().take(found.len() as int) =~= found.deep_view());
        }
        Ok(App { instructions, configs })
    }

    /// Each list is in the order of its names.
    pub open spec fn wf(&self) -> bool {
        self@.wf()
    }

    /// Whether `name` is known both as an instruction and by its configs.
    pub fn exist(&self, name: &str) -> (r: bool)
        ensures
            r == self@.has(name@),
    {
        position(&self.instructions, name).is_some() && position(&self.configs, name).is_some()
    }

    /// The path of the definition of the instruction `name`.
    pub fn instruction(&self, name: &str) -> (r: Result<&String, String>)
        ensures
            match value_of(self@.instructions, name@) {
                Some(p) => r matches Ok(s) && s@ == p,
                None => r matches Err(e) && e@ == no_instruction(name@),
            },
    {
        match lookup(&self.instructions, name) {
            Some(p) => Ok(p),
            None => Err(framed("Instruction does not exist (", name, ")")),
        }
    }

    /// The directory of the configs of the instruction `name`, and the
    /// configs in it.
    pub fn configs(&self, name: &str) -> (r: Result<&(String, Vec<(String, String)>), String>)
        ensures
            match value_of(self@.configs, name@) {
                Some(c) => r matches Ok(s) && s.deep_view() == c,
                None => r matches Err(e) && e@ == no_config(name@),
            },
    {
        match lookup(&self.configs, name) {
            Some(c) => Ok(c),
            None => Err(framed("Config does not exist (", name, ")")),
        }
    }

    /// The path of the `number`th config of the instruction `name`, in the
    /// order of the configs' names and counted from 1.
    pub fn config(&self, name: &str, number: usize) -> (r: Result<&String, String>)
        ensures
            match value_of(self@.configs, name@) {
                Some(c) => match numbered(c.1, number as nat) {
                    Ok(p) => r matches Ok(s) && s@ == p,
                    Err(text) => r matches Err(e) && e@ == text,
                },
                None => r matches Err(e) && e@ == no_config(name@),
            },
    {
        let found = match self.configs(name) {
            Ok(found) => found,
            Err(e) => {
                return Err(e);
            },
        };
        if 1 <= number && number <= found.1.len() {
            Ok(&found.1[number - 1].1)
        } else {
            Err(missing_config(number))
        }
    }

    /// Resolves the instruction `name`, and hands it out with the path of
    /// its definition. An instruction that is not known here is not found.
    pub fn parse_instruction(
        &self,
        name: &str,
        store: &InstructionStore,
        dirs: &Directories,
        os: &str,
    ) -> (r: Result<(Instruction, &String), ResolutionError>)
        ensures
            match value_of(self@.instructions, name@) {
                None => r matches Err(e) && e@ == ErrorView::InstructionNotFound(name@),
                Some(p) => match resolved_by_name(name@, store@, dirs@, os@) {
                    Ok(i) => r matches Ok(found) && found.0@ == i && found.1@ == p
                        && found.0.wf(),
                    Err(e) => r matches Err(f) && f@ == e,
                },
            },
    {
        let path = match lookup(&self.instructions, name) {
            Some(path) => path,
            None => {
                return Err(ResolutionError::InstructionNotFound(name.to_owned()));
            },
        };
        match Instruction::from_file(name, store, dirs, os) {
            Ok(i) => Ok((i, path)),
            Err(e) => Err(e),
        }
    }
    /// Makes the instruction `name` known, with its definition below
    /// `config_dir` and the directory of its configs below `data_dir`, and
    /// hands out these two paths, which are still to be created.
    pub fn add(&mut self, name: &str, config_dir: &str, data_dir: &str) -> (r: Result<
        (String, String),
        String,
    >)
        ensures
            old(self)@.has(name@) ==> (r matches Err(e) && e@ == already_there(name@)
                && final(self)@ == old(self)@),
            !old(self)@.has(name@) ==> (r matches Ok(made)
                && made.0@ == joined(config_dir@, name@ + ".yml"@)
                && made.1@ == joined(data_dir@, name@)
                && final(self)@ == added(old(self)@, name@, made.0@, made.1@)),
            old(self).wf() ==> final(self).wf(),
    {
        if self.exist(name) {
            return Err(framed("Instruction already exist (", name, ")"));
        }
        let file = framed("", name, ".yml");
        proof {
            reveal_strlit("");
            assert(""@ + name@ + ".yml"@ =~= name@ + ".yml"@);
        }
        let definition = crate::util::path::add(config_dir, file.as_str());
        let dir = crate::util::path::add(data_dir, name);
        let none: Vec<(String, String)> = Vec::new();
        proof {
            assert(none.deep_view() =~= Seq::<(Seq<char>, Seq<char>)>::empty());
            if old(self).wf() {
                lemma_added_wf(old(self)@, name@, definition@, dir@);
            }
        }
        insert_entry(&mut self.instructions, name.to_owned(), definition.clone());
        insert_entry(&mut self.configs, name.to_owned(), (dir.clone(), none));
        Ok((definition, dir))
    }

    /// Forgets configs of the instruction `name`, or the instruction with
    /// all its configs where `numbers` is empty, and hands out the paths to
    /// remove. The numbers count the configs as they stood before the
    /// call, in the order of their names and from 1. The first number that
    /// names no config, or one that was taken out already, stops the
    /// removal; what was taken out before it stays so.
    pub fn del(&mut self, name: &str, numbers: &Vec<usize>) -> (r: Removal)
        ensures
            final(self)@ == deleted(old(self)@, name@, numbers@).0,
            r@ == deleted(old(self)@, name@, numbers@).1,
            old(self).wf() ==> final(self).wf(),
    {
        proof {
            if old(self).wf() {
                lemma_deleted_wf(old(self)@, name@, numbers@);
            }
        }
        if numbers.len() > 0 {
            let i = match position(&self.configs, name) {
                Some(i) => i,
                None => {
                    let paths: Vec<String> = Vec::new();
                    proof {
                        assert(paths.deep_view() =~= Seq::<Seq<char>>::empty());
                    }
                    return Removal {
                        paths,
                        failure: Some(framed("Config does not exist (", name, ")")),
                    };
                },
            };
            let ghost before = self.configs.deep_view();
            let entry = self.configs.remove(i);
            let dir = entry.1.0;
            let mut files = entry.1.1;
            let ghost listing = files.deep_view();
            let mut listed: Vec<String> = Vec::new();
            let mut k: usize = 0;
            while k < files.len()
                invariant
                    k <= files.len(),
                    listing == files.deep_view(),
                    listed.len() == k,
                    forall|j: int| 0 <= j < k ==> (#[trigger] listed@[j])@ == listing[j].0,
                decreases files.len() - k,
            {
                listed.push(files[k].0.clone());
                k += 1;
            }
            let mut paths: Vec<String> = Vec::new();
            let mut failure: Option<String> = None;
            let mut at: usize = 0;
            proof {
                assert(numbers@.take(0) =~= Seq::<usize>::empty());
                assert(paths.deep_view() =~= Seq::<Seq<char>>::empty());
            }
            while at < numbers.len() && failure.is_none()
                invariant
                    at <= numbers.len(),
                    listed.len() == listing.len(),
                    forall|j: int| 0 <= j < listed.len() ==> (#[trigger] listed@[j])@ == listing[j].0,
                    taken_out(listing, listing, numbers@.take(at as int)) == (
                        files.deep_view(),
                        paths.deep_view(),
                        match failure {
                            Some(e) => Some(e@),
                            None => None,
                        },
                    ),
                    failure is Some ==> taken_out(listing, listing, numbers@) == taken_out(
                        listing,
                        listing,
                        numbers@.take(at as int),
                    ),
                decreases numbers.len() - at,
            {
                let n = numbers[at];
                proof {
                    assert(numbers@.take(at + 1).drop_last() =~= numbers@.take(at as int));
                    assert(numbers@.take(at + 1).last() == n);
                    lemma_taken_out_stops(listing, listing, numbers@, at + 1);
                }
                if 1 <= n && n <= listed.len() {
                    match remove_entry(&mut files, listed[n - 1].as_str()) {
                        Some(p) => {
                            let ghost old_paths = paths.deep_view();
                            paths.push(p);
                            proof {
                                assert(paths.deep_view() =~= old_paths.push(p@));
                            }
                        },
                        None => {
                            failure = Some(missing_config(n));
                        },
                    }
                } else {
                    failure = Some(missing_config(n));
                }
                at += 1;
            }
            proof {
                if failure is None {
                    assert(numbers@.take(at as int) =~= numbers@);
                }
            }
            let ghost remaining = files.deep_view();
            self.configs.insert(i, (name.to_owned(), (dir, files)));
            proof {
                keys(before).index_of_first_ensures(name@);
                assert(self.configs.deep_view() =~= before.update(
                    i as int,
                    (name@, (before[i as int].1.0, remaining)),
                ));
            }
            Removal { paths, failure }
        } else {
            if position(&self.instructions, name).is_none() {
                let paths: Vec<String> = Vec::new();
                proof {
                    assert(paths.deep_view() =~= Seq::<Seq<char>>::empty());
                }
                return Removal {
                    paths,
                    failure: Some(framed("Instruction does not exist (", name, ")")),
                };
            }
            if position(&self.configs, name).is_none() {
                let paths: Vec<String> = Vec::new();
                proof {
                    assert(paths.deep_view() =~= Seq::<Seq<char>>::empty());
                }
                return Removal {
                    paths,
                    failure: Some(framed("Config does not exist (", name, ")")),
                };
            }
            let definition = remove_entry(&mut self.instructions, name);
            let found = remove_entry(&mut self.configs, name);
            let mut paths: Vec<String> = Vec::new();
            match (definition, found) {
                (Some(d), Some(f)) => {
                    paths.push(d);
                    paths.push(f.0);
                    proof {
                        assert(paths.deep_view() =~= seq![d@, f.0@]);
                    }
                },
                _ => {},
            }
            Removal { paths, failure: None }
        }
    }
}

/// Once a number has stopped the taking out, the numbers after it change
/// nothing.
pub proof fn lemma_taken_out_stops(listing: Table, files: Table, numbers: Seq<usize>, n: int)
    requires
        0 <= n <= numbers.len(),
    ensures
        taken_out(listing, files, numbers.take(n)).2 is Some ==> taken_out(listing, files, numbers)
            == taken_out(listing, files, numbers.take(n)),
    decreases numbers.len() - n,
{
    if n < numbers.len() {
        lemma_taken_out_stops(listing, files, numbers, n + 1);
        assert(numbers.take(n + 1).drop_last() =~= numbers.take(n));
    } else {
        assert(numbers.take(n) =~= numbers);
    }
}

} // verus!
