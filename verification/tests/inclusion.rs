use conman::error::ResolutionError;
use conman::inclusion::include_raw;
use conman::settings::RawInstruction;
use conman::store::{Definition, InstructionStore, StoredInstruction};

fn raw(inherits: &[&str]) -> RawInstruction {
    RawInstruction {
        inherits: inherits.iter().map(|n| n.to_string()).collect(),
        save: vec![],
        os: vec!["linux".to_string()],
    }
}

fn stored(name: &str, inherits: &[&str]) -> StoredInstruction {
    StoredInstruction {
        name: name.to_string(),
        path: format!("/conf/{}.yml", name),
        definition: Definition::Parsed(raw(inherits)),
    }
}

fn store(entries: Vec<StoredInstruction>) -> InstructionStore {
    InstructionStore { entries }
}

fn names(list: &[&str]) -> Vec<String> {
    list.iter().map(|n| n.to_string()).collect()
}

fn walk(start: &[&str], s: &InstructionStore) -> Result<Vec<String>, ResolutionError> {
    include_raw(&names(start), vec![], s).map(|list| list.into_iter().map(|(n, _)| n).collect())
}

#[test]
fn nothing_inherited_gives_an_empty_list() {
    let s = store(vec![stored("a", &[])]);
    assert_eq!(walk(&[], &s), Ok(vec![]));
}

#[test]
fn ancestors_come_before_descendants() {
    let s = store(vec![stored("a", &["b"]), stored("b", &["c"]), stored("c", &[])]);
    assert_eq!(walk(&["a"], &s), Ok(names(&["c", "b", "a"])));
}

#[test]
fn neighbours_come_in_their_order() {
    let s = store(vec![
        stored("a", &[]),
        stored("b", &["x", "y"]),
        stored("x", &[]),
        stored("y", &[]),
    ]);
    assert_eq!(walk(&["a", "b"], &s), Ok(names(&["a", "x", "y", "b"])));
}

#[test]
fn the_definition_comes_with_its_name() {
    let s = store(vec![stored("a", &["b"]), stored("b", &[])]);
    let list = include_raw(&names(&["a"]), vec![], &s).unwrap();
    assert_eq!(list.len(), 2);
    assert_eq!(list[0].0, "b");
    assert_eq!(list[0].1, &raw(&[]));
    assert_eq!(list[1].0, "a");
    assert_eq!(list[1].1, &raw(&["b"]));
}

#[test]
fn self_inclusion_is_recursive() {
    let s = store(vec![stored("a", &["a"])]);
    assert_eq!(walk(&["a"], &s), Err(ResolutionError::RecursiveInclude("a".to_string())));
}

#[test]
fn two_cycle_is_recursive() {
    let s = store(vec![stored("a", &["b"]), stored("b", &["a"])]);
    assert_eq!(walk(&["a"], &s), Err(ResolutionError::RecursiveInclude("a".to_string())));
    assert_eq!(walk(&["b"], &s), Err(ResolutionError::RecursiveInclude("b".to_string())));
}

#[test]
fn three_cycle_is_recursive() {
    let s = store(vec![stored("a", &["b"]), stored("b", &["c"]), stored("c", &["a"])]);
    assert_eq!(walk(&["a"], &s), Err(ResolutionError::RecursiveInclude("a".to_string())));
    assert_eq!(walk(&["c"], &s), Err(ResolutionError::RecursiveInclude("c".to_string())));
}

#[test]
fn cycle_below_the_start_is_recursive() {
    let s = store(vec![stored("a", &["b"]), stored("b", &["c"]), stored("c", &["b"])]);
    assert_eq!(walk(&["a"], &s), Err(ResolutionError::RecursiveInclude("b".to_string())));
}

#[test]
fn diamond_is_walked() {
    let s = store(vec![
        stored("b", &["d"]),
        stored("c", &["d"]),
        stored("d", &[]),
    ]);
    assert_eq!(walk(&["b", "c"], &s), Ok(names(&["d", "b", "d", "c"])));
}

#[test]
fn a_name_twice_in_one_list_is_refused() {
    let s = store(vec![stored("b", &[])]);
    assert_eq!(walk(&["b", "b"], &s), Err(ResolutionError::RecursiveInclude("b".to_string())));
}

#[test]
fn an_earlier_neighbour_counts_as_seen_below_a_later_one() {
    let s = store(vec![stored("b", &[]), stored("c", &["b"])]);
    assert_eq!(walk(&["b", "c"], &s), Err(ResolutionError::RecursiveInclude("b".to_string())));
    assert_eq!(walk(&["c", "b"], &s), Ok(names(&["b", "c", "b"])));
}

#[test]
fn names_seen_before_the_walk_are_refused() {
    let s = store(vec![stored("a", &["b"]), stored("b", &[])]);
    assert_eq!(
        include_raw(&names(&["a"]), names(&["b"]), &s).map(|l| l.len()),
        Err(ResolutionError::RecursiveInclude("b".to_string()))
    );
    assert_eq!(
        include_raw(&names(&["a"]), names(&["a"]), &s).map(|l| l.len()),
        Err(ResolutionError::RecursiveInclude("a".to_string()))
    );
}

#[test]
fn unknown_name_is_not_found() {
    let s = store(vec![stored("a", &["x"])]);
    assert_eq!(walk(&["a"], &s), Err(ResolutionError::InstructionNotFound("x".to_string())));
    assert_eq!(walk(&["y"], &s), Err(ResolutionError::InstructionNotFound("y".to_string())));
}

#[test]
fn first_failure_on_the_way_decides() {
    let s = store(vec![stored("a", &["x", "a"]), stored("b", &["b"])]);
    assert_eq!(walk(&["a"], &s), Err(ResolutionError::InstructionNotFound("x".to_string())));
    assert_eq!(walk(&["b", "nowhere"], &s), Err(ResolutionError::RecursiveInclude("b".to_string())));
}

#[test]
fn malformed_definition_is_reported_with_its_path() {
    let s = store(vec![
        stored("a", &["bad"]),
        StoredInstruction {
            name: "bad".to_string(),
            path: "/conf/bad.yml".to_string(),
            definition: Definition::Malformed("missing field `os`".to_string()),
        },
    ]);
    assert_eq!(
        walk(&["a"], &s),
        Err(ResolutionError::MalformedDefinition(
            "/conf/bad.yml".to_string(),
            "missing field `os`".to_string()
        ))
    );
}

#[test]
fn unreadable_definition_is_reported_with_its_path() {
    let s = store(vec![StoredInstruction {
        name: "gone".to_string(),
        path: "/conf/gone.yml".to_string(),
        definition: Definition::Unreadable("No such file or directory (os error 2)".to_string()),
    }]);
    assert_eq!(
        walk(&["gone"], &s),
        Err(ResolutionError::IoFailure(
            "/conf/gone.yml".to_string(),
            "No such file or directory (os error 2)".to_string()
        ))
    );
}

#[test]
fn a_definition_that_is_not_reached_is_not_read() {
    let s = store(vec![
        stored("a", &[]),
        StoredInstruction {
            name: "bad".to_string(),
            path: "/conf/bad.yml".to_string(),
            definition: Definition::Malformed("nonsense".to_string()),
        },
    ]);
    assert_eq!(walk(&["a"], &s), Ok(names(&["a"])));
}

#[test]
fn the_first_entry_of_a_name_counts() {
    let s = store(vec![stored("a", &["b"]), stored("a", &["c"]), stored("b", &[]), stored("c", &[])]);
    assert_eq!(walk(&["a"], &s), Ok(names(&["b", "a"])));
    assert!(s.knows("a"));
    assert!(!s.knows("z"));
    assert_eq!(s.find("a").map(|e| e.definition == Definition::Parsed(raw(&["b"]))), Some(true));
    assert_eq!(s.find("z"), None);
    assert_eq!(s.load("b"), Ok(&raw(&[])));
    assert_eq!(s.load("z"), Err(ResolutionError::InstructionNotFound("z".to_string())));
}
