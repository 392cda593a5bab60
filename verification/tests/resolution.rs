use conman::error::ResolutionError;
use conman::merge::{parse_save, put_group, put_layer};
use conman::settings::{parse_include, Entries, Instruction, RawEntries, RawInstruction};
use conman::store::{Definition, InstructionStore, StoredInstruction};
use conman::util::path::Directories;

fn dirs() -> Directories {
    Directories {
        home: Some("/home/u".to_string()),
        data: None,
        local: None,
        config: Some("/home/u/.config".to_string()),
        preference: None,
    }
}

fn texts(items: &[&str]) -> Vec<String> {
    items.iter().map(|e| e.to_string()).collect()
}

fn group(name: &str, path: &str, entries: &[&str]) -> (String, RawEntries) {
    (name.to_string(), RawEntries { path: path.to_string(), entries: texts(entries) })
}

fn raw(inherits: &[&str], save: Vec<(String, RawEntries)>, os: &[&str]) -> RawInstruction {
    RawInstruction { inherits: texts(inherits), save, os: texts(os) }
}

fn stored(name: &str, definition: RawInstruction) -> StoredInstruction {
    StoredInstruction {
        name: name.to_string(),
        path: format!("/conf/{}.yml", name),
        definition: Definition::Parsed(definition),
    }
}

fn entries(root: &str, add: &[&str], del: &[&str]) -> Entries {
    Entries { root: root.to_string(), add: texts(add), del: texts(del) }
}

fn empty_store() -> InstructionStore {
    InstructionStore { entries: vec![] }
}

#[test]
fn os_that_is_not_listed_is_refused() {
    let a = raw(&[], vec![], &["linux"]);
    assert_eq!(
        Instruction::from_raw(&a, &empty_store(), &dirs(), "darwin"),
        Err(ResolutionError::UnsupportedOs {
            required: texts(&["linux"]),
            actual: "darwin".to_string()
        })
    );
}

#[test]
fn os_is_matched_without_regard_to_case() {
    let a = raw(&[], vec![], &["linux"]);
    assert_eq!(
        Instruction::from_raw(&a, &empty_store(), &dirs(), "Linux"),
        Ok(Instruction { save: vec![] })
    );
    let b = raw(&[], vec![], &["MacOS", "LINUX"]);
    assert_eq!(
        Instruction::from_raw(&b, &empty_store(), &dirs(), "linux"),
        Ok(Instruction { save: vec![] })
    );
    assert_eq!(
        Instruction::from_raw(&b, &empty_store(), &dirs(), "Windows"),
        Err(ResolutionError::UnsupportedOs {
            required: texts(&["macos", "linux"]),
            actual: "windows".to_string()
        })
    );
}

#[test]
fn no_listed_os_refuses_every_os() {
    let a = raw(&[], vec![], &[]);
    assert_eq!(
        Instruction::from_raw(&a, &empty_store(), &dirs(), "linux"),
        Err(ResolutionError::UnsupportedOs { required: vec![], actual: "linux".to_string() })
    );
}

#[test]
fn os_is_looked_at_before_anything_else() {
    let a = raw(&["a", "nowhere"], vec![group("g", "{NOPE}", &[])], &["linux"]);
    let s = InstructionStore { entries: vec![stored("a", raw(&["a"], vec![], &["linux"]))] };
    assert_eq!(
        Instruction::from_raw(&a, &s, &dirs(), "freebsd"),
        Err(ResolutionError::UnsupportedOs {
            required: texts(&["linux"]),
            actual: "freebsd".to_string()
        })
    );
}

#[test]
fn os_of_an_inherited_instruction_is_not_looked_at() {
    let b = raw(&[], vec![group("g", "/b", &["x"])], &["windows"]);
    let a = raw(&["b"], vec![], &["linux"]);
    let s = InstructionStore { entries: vec![stored("b", b)] };
    assert_eq!(
        Instruction::from_raw(&a, &s, &dirs(), "linux"),
        Ok(Instruction { save: vec![("g".to_string(), entries("/b", &["/b/x"], &[]))] })
    );
}

#[test]
fn from_lowered_takes_the_lowercase_forms_as_given() {
    let a = raw(&[], vec![], &["whatever"]);
    assert_eq!(
        Instruction::from_lowered(&a, texts(&["Linux"]), "Linux".to_string(), &empty_store(), &dirs()),
        Ok(Instruction { save: vec![] })
    );
    assert_eq!(
        Instruction::from_lowered(&a, texts(&["Linux"]), "linux".to_string(), &empty_store(), &dirs()),
        Err(ResolutionError::UnsupportedOs {
            required: texts(&["Linux"]),
            actual: "linux".to_string()
        })
    );
}

#[test]
fn own_groups_are_resolved() {
    let a = raw(
        &[],
        vec![group("dotfiles", "{HOME}", &[".bashrc", "-.cache"]), group("nvim", "{CONFIG}/nvim", &["+init.lua"])],
        &["linux"],
    );
    assert_eq!(
        Instruction::from_raw(&a, &empty_store(), &dirs(), "linux"),
        Ok(Instruction {
            save: vec![
                ("dotfiles".to_string(), entries("/home/u", &["/home/u/.bashrc"], &["/home/u/.cache"])),
                ("nvim".to_string(), entries("/home/u/.config/nvim", &["/home/u/.config/nvim/init.lua"], &[])),
            ]
        })
    );
}

#[test]
fn inherited_group_overrides_own_group() {
    let b = raw(&[], vec![group("dotfiles", "/b", &["from_b"])], &["linux"]);
    let a = raw(&["b"], vec![group("dotfiles", "/a", &["from_a"])], &["linux"]);
    let s = InstructionStore { entries: vec![stored("b", b)] };
    let resolved = Instruction::from_raw(&a, &s, &dirs(), "linux").unwrap();
    assert_eq!(
        resolved,
        Instruction { save: vec![("dotfiles".to_string(), entries("/b", &["/b/from_b"], &[]))] }
    );
}

#[test]
fn the_closest_inherited_instruction_wins() {
    let c = raw(&[], vec![group("g", "/c", &["x"]), group("only_c", "/c", &["y"])], &["linux"]);
    let b = raw(&["c"], vec![group("g", "/b", &["x"])], &["linux"]);
    let a = raw(&["b"], vec![group("g", "/a", &["x"]), group("only_a", "/a", &["z"])], &["linux"]);
    let s = InstructionStore { entries: vec![stored("b", b), stored("c", c)] };
    assert_eq!(
        Instruction::from_raw(&a, &s, &dirs(), "linux"),
        Ok(Instruction {
            save: vec![
                ("g".to_string(), entries("/b", &["/b/x"], &[])),
                ("only_a".to_string(), entries("/a", &["/a/z"], &[])),
                ("only_c".to_string(), entries("/c", &["/c/y"], &[])),
            ]
        })
    );
}

#[test]
fn the_later_neighbour_wins() {
    let b = raw(&[], vec![group("g", "/b", &["x"])], &["linux"]);
    let c = raw(&[], vec![group("g", "/c", &["x"])], &["linux"]);
    let a = raw(&["b", "c"], vec![], &["linux"]);
    let s = InstructionStore { entries: vec![stored("b", b), stored("c", c)] };
    assert_eq!(
        Instruction::from_raw(&a, &s, &dirs(), "linux"),
        Ok(Instruction { save: vec![("g".to_string(), entries("/c", &["/c/x"], &[]))] })
    );
}

#[test]
fn diamond_resolves() {
    let d = raw(&[], vec![group("shared", "/d", &["x"])], &["linux"]);
    let b = raw(&["d"], vec![group("b", "/b", &["x"])], &["linux"]);
    let c = raw(&["d"], vec![group("c", "/c", &["x"])], &["linux"]);
    let a = raw(&["b", "c"], vec![group("a", "/a", &["x"])], &["linux"]);
    let s = InstructionStore { entries: vec![stored("a", a), stored("b", b), stored("c", c), stored("d", d)] };
    assert_eq!(
        Instruction::from_file("a", &s, &dirs(), "linux"),
        Ok(Instruction {
            save: vec![
                ("a".to_string(), entries("/a", &["/a/x"], &[])),
                ("shared".to_string(), entries("/d", &["/d/x"], &[])),
                ("b".to_string(), entries("/b", &["/b/x"], &[])),
                ("c".to_string(), entries("/c", &["/c/x"], &[])),
            ]
        })
    );
}

#[test]
fn diamond_puts_the_shared_ancestor_over_the_first_branch() {
    let d = raw(&[], vec![group("g", "/d", &["x"])], &["linux"]);
    let b = raw(&["d"], vec![group("g", "/b", &["x"])], &["linux"]);
    let c = raw(&["d"], vec![], &["linux"]);
    let a = raw(&["b", "c"], vec![], &["linux"]);
    let s = InstructionStore { entries: vec![stored("b", b), stored("c", c), stored("d", d)] };
    assert_eq!(
        Instruction::from_raw(&a, &s, &dirs(), "linux"),
        Ok(Instruction { save: vec![("g".to_string(), entries("/d", &["/d/x"], &[]))] })
    );
}

#[test]
fn recursive_instruction_is_refused() {
    let a = raw(&["b"], vec![], &["linux"]);
    let b = raw(&["a"], vec![], &["linux"]);
    let s = InstructionStore { entries: vec![stored("a", a), stored("b", b)] };
    assert_eq!(
        Instruction::from_file("a", &s, &dirs(), "linux"),
        Err(ResolutionError::RecursiveInclude("b".to_string()))
    );
    let own = raw(&["own"], vec![], &["linux"]);
    let s = InstructionStore { entries: vec![stored("own", own)] };
    assert_eq!(
        Instruction::from_file("own", &s, &dirs(), "linux"),
        Err(ResolutionError::RecursiveInclude("own".to_string()))
    );
}

#[test]
fn resolving_twice_gives_equal_results() {
    let b = raw(&[], vec![group("g", "{HOME}/b", &["x", "-y"])], &["linux"]);
    let a = raw(&["b"], vec![group("h", "{CONFIG}", &["k"])], &["Linux"]);
    let s = InstructionStore { entries: vec![stored("a", a), stored("b", b)] };
    let first = Instruction::from_file("a", &s, &dirs(), "linux");
    let second = Instruction::from_file("a", &s, &dirs(), "linux");
    assert!(first.is_ok());
    assert_eq!(first, second);
    let failing = Instruction::from_file("missing", &s, &dirs(), "linux");
    assert_eq!(failing, Instruction::from_file("missing", &s, &dirs(), "linux"));
}

#[test]
fn failure_in_an_inherited_group_bears_the_name() {
    let b = raw(&[], vec![group("g", "{NOPE}/b", &["x"])], &["linux"]);
    let a = raw(&["b"], vec![], &["linux"]);
    let s = InstructionStore { entries: vec![stored("b", b)] };
    let e = Instruction::from_raw(&a, &s, &dirs(), "linux").unwrap_err();
    assert_eq!(
        e,
        ResolutionError::Included(
            "b".to_string(),
            Box::new(ResolutionError::UnknownDirectory("NOPE".to_string()))
        )
    );
    assert_eq!(e.message(), "error while including (b) :: Unknown path type (NOPE)");
}

#[test]
fn failure_in_an_own_group_is_bare() {
    let a = raw(&[], vec![group("g", "{HOME}", &[]), group("h", "{NOPE}", &[])], &["linux"]);
    assert_eq!(
        Instruction::from_raw(&a, &empty_store(), &dirs(), "linux"),
        Err(ResolutionError::UnknownDirectory("NOPE".to_string()))
    );
}

#[test]
fn failures_of_inheritance_come_before_those_of_own_groups() {
    let b = raw(&[], vec![group("g", "{B}", &[])], &["linux"]);
    let a = raw(&["b"], vec![group("g", "{A}", &[])], &["linux"]);
    let s = InstructionStore { entries: vec![stored("b", b)] };
    assert_eq!(
        Instruction::from_raw(&a, &s, &dirs(), "linux"),
        Err(ResolutionError::Included(
            "b".to_string(),
            Box::new(ResolutionError::UnknownDirectory("B".to_string()))
        ))
    );
    let a = raw(&["nowhere"], vec![group("g", "{A}", &[])], &["linux"]);
    assert_eq!(
        Instruction::from_raw(&a, &s, &dirs(), "linux"),
        Err(ResolutionError::InstructionNotFound("nowhere".to_string()))
    );
}

#[test]
fn from_file_loads_by_name() {
    let s = InstructionStore {
        entries: vec![
            stored("a", raw(&[], vec![group("g", "/a", &["x"])], &["linux"])),
            StoredInstruction {
                name: "bad".to_string(),
                path: "/conf/bad.yml".to_string(),
                definition: Definition::Malformed("oops".to_string()),
            },
        ],
    };
    assert_eq!(
        Instruction::from_file("a", &s, &dirs(), "linux"),
        Ok(Instruction { save: vec![("g".to_string(), entries("/a", &["/a/x"], &[]))] })
    );
    assert_eq!(
        Instruction::from_file("z", &s, &dirs(), "linux"),
        Err(ResolutionError::InstructionNotFound("z".to_string()))
    );
    assert_eq!(
        Instruction::from_file("bad", &s, &dirs(), "linux"),
        Err(ResolutionError::MalformedDefinition("/conf/bad.yml".to_string(), "oops".to_string()))
    );
}

#[test]
fn parse_include_resolves_each_definition_by_itself() {
    let c = raw(&[], vec![group("g", "/c", &["x"])], &["linux"]);
    let b = raw(&["c"], vec![group("g", "/b", &["x"]), group("h", "/b", &["-y"])], &["none"]);
    let s = InstructionStore { entries: vec![stored("b", b), stored("c", c)] };
    assert_eq!(
        parse_include(&texts(&["b"]), &s, &dirs()),
        Ok(vec![
            Instruction { save: vec![("g".to_string(), entries("/c", &["/c/x"], &[]))] },
            Instruction {
                save: vec![
                    ("g".to_string(), entries("/b", &["/b/x"], &[])),
                    ("h".to_string(), entries("/b", &[], &["/b/y"])),
                ]
            },
        ])
    );
    assert_eq!(parse_include(&vec![], &s, &dirs()), Ok(vec![]));
}

#[test]
fn parse_save_puts_layers_over_own_groups() {
    let own = vec![group("a", "/own", &["1"]), group("b", "/own", &["2"]), group("a", "/again", &["3"])];
    let layers = vec![
        vec![("b".to_string(), entries("/l1", &["/l1/x"], &[])), ("c".to_string(), entries("/l1", &[], &[]))],
        vec![("c".to_string(), entries("/l2", &[], &["/l2/y"]))],
    ];
    assert_eq!(
        parse_save(&own, &layers, &dirs()),
        Ok(vec![
            ("a".to_string(), entries("/again", &["/again/3"], &[])),
            ("b".to_string(), entries("/l1", &["/l1/x"], &[])),
            ("c".to_string(), entries("/l2", &[], &["/l2/y"])),
        ])
    );
    assert_eq!(parse_save(&vec![], &vec![], &dirs()), Ok(vec![]));
    assert_eq!(
        parse_save(&vec![group("a", "{X}", &[]), group("b", "{Y}", &[])], &layers, &dirs()),
        Err(ResolutionError::UnknownDirectory("X".to_string()))
    );
}

#[test]
fn put_group_replaces_or_appends() {
    let mut acc = vec![("a".to_string(), entries("/1", &[], &[])), ("b".to_string(), entries("/2", &[], &[]))];
    put_group(&mut acc, "a".to_string(), entries("/3", &[], &[]));
    put_group(&mut acc, "c".to_string(), entries("/4", &[], &[]));
    assert_eq!(
        acc,
        vec![
            ("a".to_string(), entries("/3", &[], &[])),
            ("b".to_string(), entries("/2", &[], &[])),
            ("c".to_string(), entries("/4", &[], &[])),
        ]
    );
    put_layer(&mut acc, &vec![("b".to_string(), entries("/5", &[], &[])), ("b".to_string(), entries("/6", &[], &[]))]);
    assert_eq!(acc[1], ("b".to_string(), entries("/6", &[], &[])));
    assert_eq!(acc.len(), 3);
}
