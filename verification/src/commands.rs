//! What the commands decide and compute, apart from what they do to the
//! file system.
use crate::app::{no_instruction, App, AppView, Table};
use crate::ordered::{lookup, value_of};
use crate::settings::{groups, EntriesView, Instruction, InstructionView};
use crate::text::{
    chars_of, clone_texts, contains_text, decimal, framed, push_decimal, texts, trim, trimmed,
};
use crate::util::path::joined;
use vstd::prelude::*;
use vstd::string::StringExecFns;

verus! {

/// The configs of the instruction `name`; none where it has no entry.
pub open spec fn files_of(app: AppView, name: Seq<char>) -> Table {
    match value_of(app.configs, name) {
        Some(found) => found.1,
        None => Seq::empty(),
    }
}

/// One line for each of the first `upto` configs: its number, counted from
/// 1, and its name.
pub open spec fn config_lines(files: Table, upto: int) -> Seq<char>
    decreases upto,
{
    if upto <= 0 {
        Seq::empty()
    } else {
        config_lines(files, upto - 1) + "  "@ + decimal(upto as nat) + " - "@ + files[upto - 1].0
            + "\n"@
    }
}

/// What the list shows of one instruction: its name and the count of its
/// configs where no names were asked for; its name and its configs where
/// it is among the names asked for; nothing otherwise.
pub open spec fn shown(app: AppView, names: Seq<Seq<char>>, name: Seq<char>) -> Seq<char> {
    if names.len() == 0 {
        name + " ("@ + decimal(files_of(app, name).len()) + ")\n"@
    } else if names.contains(name) {
        "\n"@ + name + "\n"@ + config_lines(files_of(app, name), files_of(app, name).len() as int)
    } else {
        Seq::empty()
    }
}

/// What the list shows of the first `upto` instructions.
pub open spec fn shown_upto(app: AppView, names: Seq<Seq<char>>, upto: int) -> Seq<char>
    decreases upto,
{
    if upto <= 0 {
        Seq::empty()
    } else {
        shown_upto(app, names, upto - 1) + shown(app, names, app.instructions[upto - 1].0)
    }
}

/// The first of `names` that is not known both as an instruction and by
/// its configs.
pub open spec fn first_unknown(app: AppView, names: Seq<Seq<char>>) -> Option<Seq<char>>
    decreases names.len(),
{
    if names.len() == 0 {
        None
    } else if !app.has(names[0]) {
        Some(names[0])
    } else {
        first_unknown(app, names.skip(1))
    }
}

/// The list of instructions as text, or the report of why there is none.
pub open spec fn listed(app: AppView, names: Seq<Seq<char>>) -> Result<Seq<char>, Seq<char>> {
    if app.instructions.len() == 0 {
        Err("Instructions not found"@)
    } else {
        match first_unknown(app, names) {
            Some(name) => Err(no_instruction(name)),
            None => Ok(trimmed(shown_upto(app, names, app.instructions.len() as int))),
        }
    }
}

/// The view of a text or a report.
pub open spec fn text_or_report(r: Result<String, String>) -> Result<Seq<char>, Seq<char>> {
    match r {
        Ok(s) => Ok(s@),
        Err(e) => Err(e@),
    }
}

/// The list of instructions as text: each with the count of its configs,
/// or, where names are given, those named with their configs by number.
pub fn run_list(app: &App, names: &Vec<String>) -> (r: Result<String, String>)
    ensures
        text_or_report(r) == listed(app@, texts(names@)),
{
    if app.instructions.len() == 0 {
        return Err("Instructions not found".to_owned());
    }
    let mut n: usize = 0;
    proof {
        assert(texts(names@).skip(0) =~= texts(names@));
    }
    while n < names.len()
        invariant
            n <= names.len(),
            app@.instructions.len() > 0,
            first_unknown(app@, texts(names@)) == first_unknown(app@, texts(names@).skip(n as int)),
        decreases names.len() - n,
    {
        proof {
            assert(texts(names@).skip(n as int)[0] == names@[n as int]@);
            assert(texts(names@).skip(n as int).skip(1) =~= texts(names@).skip(n + 1));
        }
        if !app.exist(names[n].as_str()) {
            return Err(framed("Instruction does not exist (", names[n].as_str(), ")"));
        }
        n += 1;
    }
    let mut result = String::new();
    let mut i: usize = 0;
    while i < app.instructions.len()
        invariant
            i <= app.instructions.len(),
            result@ == shown_upto(app@, texts(names@), i as int),
        decreases app.instructions.len() - i,
    {
        let name = app.instructions[i].0.as_str();
        let ghost before = result@;
        let ghost files = files_of(app@, name@);
        proof {
            assert(app@.instructions[i as int].0 == name@);
        }
        if names.len() == 0 {
            let count: usize = match lookup(&app.configs, name) {
                Some(found) => found.1.len(),
                None => 0,
            };
            result.append(name);
            result.append(" (");
            push_decimal(&mut result, count);
            result.append(")\n");
            proof {
                assert(result@ =~= before + (name@ + " ("@ + decimal(count as nat) + ")\n"@));
            }
        } else if contains_text(names, name) {
            result.append("\n");
            result.append(name);
            result.append("\n");
            let ghost head = result@;
            proof {
                assert(head =~= before + ("\n"@ + name@ + "\n"@));
            }
            match lookup(&app.configs, name) {
                Some(found) => {
                    let mut k: usize = 0;
                    while k < found.1.len()
                        invariant
                            k <= found.1.len(),
                            files == found.1.deep_view(),
                            result@ == head + config_lines(files, k as int),
                        decreases found.1.len() - k,
                    {
                        let ghost was = result@;
                        result.append("  ");
                        push_decimal(&mut result, k + 1);
                        result.append(" - ");
                        result.append(found.1[k].0.as_str());
                        result.append("\n");
                        proof {
                            assert(result@ =~= head + (config_lines(files, k as int) + "  "@
                                + decimal((k + 1) as nat) + " - "@ + files[k as int].0 + "\n"@));
                        }
                        k += 1;
                    }
                },
                None => {},
            }
            proof {
                assert(result@ =~= before + ("\n"@ + name@ + "\n"@ + config_lines(
                    files,
                    files.len() as int,
                )));
            }
        } else {
            proof {
                assert(before + Seq::<char>::empty() =~= before);
            }
        }
        i += 1;
    }
    let all = chars_of(result.as_str());
    proof {
        assert(all@.subrange(0, all@.len() as int) =~= all@);
    }
    Ok(trim(&all, 0, all.len()))
}

/// The report of a compression outside 1 to 9.
pub open spec fn bad_compression(compression: u8) -> Seq<char> {
    "The compression value must be between 1 and 9, not "@ + decimal(compression as nat)
}

/// Accepts a compression from 1 to 9 and no other.
pub fn check_compression(compression: u8) -> (r: Result<(), String>)
    ensures
        1 <= compression <= 9 ==> r is Ok,
        !(1 <= compression <= 9) ==> (r matches Err(e) && e@ == bad_compression(compression)),
{
    if compression > 9 || compression < 1 {
        let mut e = String::from_str("The compression value must be between 1 and 9, not ");
        push_decimal(&mut e, compression as usize);
        Err(e)
    } else {
        Ok(())
    }
}

/// Where the archive of a save goes: to the path asked for, or into it
/// under the instruction's name where it is a directory; with no path
/// asked for, into the directory of the instruction's configs, under the
/// time of the save.
pub open spec fn archive_at(
    requested: Option<Seq<char>>,
    is_dir: bool,
    name: Seq<char>,
    configs_dir: Seq<char>,
    stamp: Seq<char>,
) -> Seq<char> {
    match requested {
        Some(p) => if is_dir {
            joined(p, name + ".conman"@)
        } else {
            p
        },
        None => joined(configs_dir, stamp + ".conman"@),
    }
}

/// Where the archive of a save goes. `is_dir` says whether the path asked
/// for is a directory, `stamp` is the time of the save as text.
pub fn archive_path(
    requested: Option<&str>,
    is_dir: bool,
    name: &str,
    configs_dir: &str,
    stamp: &str,
) -> (r: String)
    ensures
        r@ == archive_at(
            match requested {
                Some(p) => Some(p@),
                None => None,
            },
            is_dir,
            name@,
            configs_dir@,
            stamp@,
        ),
{
    proof {
        reveal_strlit("");
        assert(""@ + name@ + ".conman"@ =~= name@ + ".conman"@);
        assert(""@ + stamp@ + ".conman"@ =~= stamp@ + ".conman"@);
    }
    match requested {
        Some(p) => {
            if is_dir {
                let file = framed("", name, ".conman");
                crate::util::path::add(p, file.as_str())
            } else {
                p.to_owned()
            }
        },
        None => {
            let file = framed("", stamp, ".conman");
            crate::util::path::add(configs_dir, file.as_str())
        },
    }
}

/// A copy that a save makes: from a path into a directory, without the
/// paths that are to be left out.
#[derive(Debug, PartialEq, Eq)]
pub struct Staged {
    pub from: String,
    pub into: String,
    pub except: Vec<String>,
}

/// The mathematical value of a [`Staged`].
pub struct StagedView {
    pub from: Seq<char>,
    pub into: Seq<char>,
    pub except: Seq<Seq<char>>,
}

impl View for Staged {
    type V = StagedView;

    open spec fn view(&self) -> StagedView {
        StagedView { from: self.from@, into: self.into@, except: texts(self.except@) }
    }
}

/// The views of a list of copies.
pub open spec fn staged_of(v: Seq<Staged>) -> Seq<StagedView> {
    v.map_values(|s: Staged| s@)
}

/// The copies of one group: each path that belongs to it goes into the
/// directory `into`.
pub open spec fn staged_group(e: EntriesView, into: Seq<char>) -> Seq<StagedView> {
    e.add.map_values(|from: Seq<char>| StagedView { from, into, except: e.del })
}

/// The copies of the first `upto` groups: the paths of each group go into
/// the directory of the group's name below `data`.
pub open spec fn staged_upto(save: Seq<(Seq<char>, EntriesView)>, data: Seq<char>, upto: int) -> Seq<
    StagedView,
>
    decreases upto,
{
    if upto <= 0 {
        Seq::empty()
    } else {
        staged_upto(save, data, upto - 1) + staged_group(
            save[upto - 1].1,
            joined(data, save[upto - 1].0),
        )
    }
}

/// The copies that saving `inst` makes below the directory `tmp`.
pub open spec fn staging_of(inst: InstructionView, tmp: Seq<char>) -> Seq<StagedView> {
    staged_upto(inst.save, joined(tmp, "data"@), inst.save.len() as int)
}

/// The copies that saving `inst` makes below the directory `tmp`: for each
/// group, in order, each path that belongs to it.
pub fn staging(inst: &Instruction, tmp: &str) -> (r: Vec<Staged>)
    ensures
        staged_of(r@) == staging_of(inst@, tmp@),
{
    let data = crate::util::path::add(tmp, "data");
    let mut r: Vec<Staged> = Vec::new();
    let mut i: usize = 0;
    proof {
        assert(staged_of(r@) =~= Seq::<StagedView>::empty());
    }
    while i < inst.save.len()
        invariant
            i <= inst.save.len(),
            data@ == joined(tmp@, "data"@),
            staged_of(r@) == staged_upto(groups(inst.save@), data@, i as int),
        decreases inst.save.len() - i,
    {
        let into = crate::util::path::add(data.as_str(), inst.save[i].0.as_str());
        let entries = &inst.save[i].1;
        let ghost before = staged_of(r@);
        let ghost group = staged_group(entries@, into@);
        let mut k: usize = 0;
        proof {
            assert(groups(inst.save@)[i as int] == (inst.save@[i as int].0@, entries@));
            assert(before + group.take(0) =~= before);
        }
        while k < entries.add.len()
            invariant
                k <= entries.add.len(),
                group == staged_group(entries@, into@),
                staged_of(r@) == before + group.take(k as int),
            decreases entries.add.len() - k,
        {
            let ghost was = staged_of(r@);
            let copy = Staged {
                from: entries.add[k].clone(),
                into: into.clone(),
                except: clone_texts(&entries.del),
            };
            r.push(copy);
            proof {
                assert(staged_of(r@) =~= was.push(copy@));
                assert(group[k as int] == copy@);
                assert(before + group.take(k + 1) =~= (before + group.take(k as int)).push(
                    group[k as int],
                ));
            }
            k += 1;
        }
        proof {
            assert(group.take(entries.add.len() as int) =~= group);
        }
        i += 1;
    }
    r
}

} // verus!
