use conman::entries::parse_entries;
use conman::error::ResolutionError;
use conman::settings::{Entries, RawEntries};
use conman::util::path::{add, Directories};

fn dirs() -> Directories {
    Directories {
        home: Some("/home/u".to_string()),
        data: None,
        local: None,
        config: Some("/home/u/.config".to_string()),
        preference: None,
    }
}

fn raw(path: &str, entries: &[&str]) -> RawEntries {
    RawEntries { path: path.to_string(), entries: entries.iter().map(|e| e.to_string()).collect() }
}

fn texts(items: &[&str]) -> Vec<String> {
    items.iter().map(|e| e.to_string()).collect()
}

#[test]
fn duplicate_entries_are_kept_once() {
    let e = parse_entries(&raw("/root", &["a", "a", "+a"]), &dirs()).unwrap();
    assert_eq!(e.add, texts(&["/root/a"]));
    assert_eq!(e.del, texts(&[]));
    assert_eq!(e.root, "/root");
}

#[test]
fn entries_are_sorted_by_their_sign() {
    let e = parse_entries(&raw("/root", &["x", "-y", "+z"]), &dirs()).unwrap();
    assert_eq!(e, Entries { root: "/root".to_string(), add: texts(&["/root/x", "/root/z"]), del: texts(&["/root/y"]) });
}

#[test]
fn first_occurrence_keeps_its_place() {
    let e = parse_entries(&raw("/r", &["b", "a", "+b", "-q", "c", "-p", "-q", "a"]), &dirs()).unwrap();
    assert_eq!(e.add, texts(&["/r/b", "/r/a", "/r/c"]));
    assert_eq!(e.del, texts(&["/r/q", "/r/p"]));
}

#[test]
fn a_path_may_stand_on_both_sides() {
    let e = parse_entries(&raw("/r", &["a", "-a"]), &dirs()).unwrap();
    assert_eq!(e.add, texts(&["/r/a"]));
    assert_eq!(e.del, texts(&["/r/a"]));
}

#[test]
fn only_one_sign_is_stripped() {
    let e = parse_entries(&raw("/r", &["++a", "--b", "+-c", "-+d"]), &dirs()).unwrap();
    assert_eq!(e.add, texts(&["/r/+a", "/r/-c"]));
    assert_eq!(e.del, texts(&["/r/-b", "/r/+d"]));
}

#[test]
fn entries_below_an_expanded_root() {
    let e = parse_entries(&raw("{CONFIG}/nvim", &["init.lua", "-plugin/"]), &dirs()).unwrap();
    assert_eq!(e.root, "/home/u/.config/nvim");
    assert_eq!(e.add, texts(&["/home/u/.config/nvim/init.lua"]));
    assert_eq!(e.del, texts(&["/home/u/.config/nvim/plugin"]));
}

#[test]
fn entries_that_name_the_same_path_are_one() {
    let e = parse_entries(&raw("/r/", &["a", "a/", "./a", "+a//", "a/."]), &dirs()).unwrap();
    assert_eq!(e.add, texts(&["/r/a"]));
}

#[test]
fn an_entry_from_the_root_replaces_the_group_root() {
    let e = parse_entries(&raw("/r", &["/etc/hosts", "-/tmp"]), &dirs()).unwrap();
    assert_eq!(e.add, texts(&["/etc/hosts"]));
    assert_eq!(e.del, texts(&["/tmp"]));
}

#[test]
fn empty_entries_stand_for_the_root() {
    let e = parse_entries(&raw("/r", &["", "-", "+"]), &dirs()).unwrap();
    assert_eq!(e.add, texts(&["/r"]));
    assert_eq!(e.del, texts(&["/r"]));
}

#[test]
fn no_entries_give_an_empty_group() {
    let e = parse_entries(&raw("{HOME}", &[]), &dirs()).unwrap();
    assert_eq!(e, Entries { root: "/home/u".to_string(), add: vec![], del: vec![] });
}

#[test]
fn a_root_that_cannot_be_expanded_fails() {
    assert_eq!(
        parse_entries(&raw("{DATA}/x", &["a"]), &dirs()),
        Err(ResolutionError::UnknownDirectory("DATA".to_string()))
    );
}

#[test]
fn add_joins_with_one_separator() {
    assert_eq!(add("/home/u", "a"), "/home/u/a");
    assert_eq!(add("/home/u/", "a"), "/home/u/a");
    assert_eq!(add("", "a"), "a");
    assert_eq!(add("/home/u", ""), "/home/u/");
    assert_eq!(add("/home/u", "/etc"), "/etc");
    assert_eq!(add("rel", "a/b"), "rel/a/b");
}

#[test]
fn add_agrees_with_path_push() {
    let parts = ["", "/", "a", "a/", "/a", "/a/", "a/b", ".", "/x/y"];
    for p in parts {
        for q in parts {
            let mut buf = std::path::PathBuf::from(p);
            buf.push(q);
            assert_eq!(add(p, q), buf.to_str().unwrap(), "{:?} {:?}", p, q);
        }
    }
}

#[test]
fn duplicate_of_entries_is_equal() {
    let e = parse_entries(&raw("/r", &["a", "-b"]), &dirs()).unwrap();
    assert_eq!(e.duplicate(), e);
}
