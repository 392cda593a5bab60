use conman::ordered::{insert_entry, less, lookup, position, remove_entry};
use conman::text::{chars_of, contains_text, is_whitespace, lowercase_all, same};
use conman::util::path::{name, name_from};
use conman::util::str_err;

fn parts(stem: &str, ext: Option<&str>, whole: &str) -> Result<(String, Option<String>, String), String> {
    Ok((stem.to_string(), ext.map(|e| e.to_string()), whole.to_string()))
}

#[test]
fn name_splits_at_the_last_dot() {
    assert_eq!(name("vim.yml"), parts("vim", Some("yml"), "vim.yml"));
    assert_eq!(name("archive.tar.gz"), parts("archive.tar", Some("gz"), "archive.tar.gz"));
    assert_eq!(name("vim"), parts("vim", None, "vim"));
}

#[test]
fn name_keeps_a_leading_dot_in_the_stem() {
    assert_eq!(name(".bashrc"), parts(".bashrc", None, ".bashrc"));
    assert_eq!(name(".config.yml"), parts(".config", Some("yml"), ".config.yml"));
}

#[test]
fn name_with_a_dot_at_the_end_has_no_extension() {
    assert_eq!(name("vim."), parts("vim.", None, "vim."));
    assert_eq!(name("."), parts(".", None, "."));
}

#[test]
fn name_of_nothing_is_empty() {
    assert_eq!(name(""), parts("", None, ""));
}

#[test]
fn name_across_lines_is_incorrect() {
    assert_eq!(name("a\nb"), Err("Incorrect file name".to_string()));
}

#[test]
fn name_from_reads_groups_by_number() {
    let groups = vec![Some("w".to_string()), Some("s".to_string()), Some(".e".to_string()), Some("e".to_string())];
    assert_eq!(name_from(Some(groups)), parts("s", Some("e"), "w"));
    let no_ext = vec![Some("w".to_string()), Some("s".to_string()), None, None];
    assert_eq!(name_from(Some(no_ext)), parts("s", None, "w"));
    let no_stem = vec![Some("w".to_string()), None, None, None];
    assert_eq!(name_from(Some(no_stem)), Err("Incorrect file name".to_string()));
    let short = vec![Some("w".to_string()), Some("s".to_string())];
    assert_eq!(name_from(Some(short)), Err("Incorrect file name".to_string()));
    assert_eq!(name_from(None), Err("Incorrect file name".to_string()));
}

#[test]
fn str_err_displays_the_error() {
    let ok: Result<u8, std::num::ParseIntError> = "7".parse::<u8>();
    assert_eq!(str_err(ok), Ok(7));
    let bad: Result<u8, std::num::ParseIntError> = "x".parse::<u8>();
    assert_eq!(str_err(bad), Err("invalid digit found in string".to_string()));
    let text: Result<(), &str> = Err("plain");
    assert_eq!(str_err(text), Err("plain".to_string()));
}

#[test]
fn less_is_the_order_of_strings() {
    let samples = ["", "a", "A", "ab", "b", "aa", "é", "z", "zz", "a\u{10000}", "a\u{ffff}", "B"];
    for x in samples {
        for y in samples {
            assert_eq!(less(x, y), x < y, "{:?} {:?}", x, y);
        }
    }
}

#[test]
fn tables_are_kept_in_order() {
    let mut t: Vec<(String, String)> = Vec::new();
    insert_entry(&mut t, "m".to_string(), "1".to_string());
    insert_entry(&mut t, "a".to_string(), "2".to_string());
    insert_entry(&mut t, "z".to_string(), "3".to_string());
    insert_entry(&mut t, "m".to_string(), "4".to_string());
    insert_entry(&mut t, "b".to_string(), "5".to_string());
    let expected: Vec<(String, String)> = [("a", "2"), ("b", "5"), ("m", "4"), ("z", "3")]
        .iter()
        .map(|(k, v)| (k.to_string(), v.to_string()))
        .collect();
    assert_eq!(t, expected);
    assert_eq!(position(&t, "m"), Some(2));
    assert_eq!(position(&t, "q"), None);
    assert_eq!(lookup(&t, "z"), Some(&"3".to_string()));
    assert_eq!(lookup(&t, ""), None);
    assert_eq!(remove_entry(&mut t, "b"), Some("5".to_string()));
    assert_eq!(remove_entry(&mut t, "b"), None);
    assert_eq!(t.len(), 3);
    assert_eq!(t[1].0, "m");
}

#[test]
fn tables_agree_with_a_sorted_map() {
    let keys = ["q", "b", "zz", "b", "a", "", "q", "é", "Z"];
    let mut t: Vec<(String, usize)> = Vec::new();
    let mut m = std::collections::BTreeMap::new();
    for (i, k) in keys.iter().enumerate() {
        insert_entry(&mut t, k.to_string(), i);
        m.insert(k.to_string(), i);
    }
    let from_map: Vec<(String, usize)> = m.into_iter().collect();
    assert_eq!(t, from_map);
}

#[test]
fn text_helpers() {
    assert_eq!(chars_of("aé\u{10000}"), vec!['a', 'é', '\u{10000}']);
    assert!(same("abc", "abc"));
    assert!(!same("abc", "abd"));
    assert!(contains_text(&vec!["a".to_string(), "b".to_string()], "b"));
    assert!(!contains_text(&vec!["a".to_string(), "b".to_string()], "c"));
    assert_eq!(lowercase_all(&vec!["LiNuX".to_string(), "ÉCOLE".to_string()]), vec!["linux".to_string(), "école".to_string()]);
}

#[test]
fn is_whitespace_agrees_with_char() {
    for n in 0u32..0x3100 {
        if let Some(c) = char::from_u32(n) {
            assert_eq!(is_whitespace(c), c.is_whitespace(), "{:x}", n);
        }
    }
}
