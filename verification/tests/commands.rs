use conman::app::{App, Listed, ListedDir};
use conman::commands::{archive_path, check_compression, run_list, staging, Staged};
use conman::settings::{Entries, Instruction};

fn file(name: &str, dir: &str) -> Listed {
    Listed { name: name.to_string(), path: format!("{}/{}", dir, name), is_dir: false, is_file: true }
}

fn dir(name: &str, parent: &str, children: Vec<Listed>) -> ListedDir {
    ListedDir {
        entry: Listed { name: name.to_string(), path: format!("{}/{}", parent, name), is_dir: true, is_file: false },
        children: Ok(children),
    }
}

fn sample() -> App {
    let files = vec![file("vim.yml", "/c"), file("bash.yml", "/c")];
    let dirs = vec![
        dir("vim", "/d", vec![file("second.conman", "/d/vim"), file("first.conman", "/d/vim")]),
        dir("bash", "/d", vec![]),
    ];
    App::new(&files, &dirs).unwrap()
}

fn names(list: &[&str]) -> Vec<String> {
    list.iter().map(|n| n.to_string()).collect()
}

#[test]
fn list_of_all_counts_the_configs() {
    assert_eq!(run_list(&sample(), &vec![]), Ok("bash (0)\nvim (2)".to_string()));
}

#[test]
fn list_of_names_shows_their_configs() {
    assert_eq!(
        run_list(&sample(), &names(&["vim"])),
        Ok("vim\n  1 - first\n  2 - second".to_string())
    );
    assert_eq!(
        run_list(&sample(), &names(&["vim", "bash"])),
        Ok("bash\n\nvim\n  1 - first\n  2 - second".to_string())
    );
    assert_eq!(run_list(&sample(), &names(&["bash"])), Ok("bash".to_string()));
}

#[test]
fn list_of_nothing_known_fails() {
    let app = App { instructions: vec![], configs: vec![] };
    assert_eq!(run_list(&app, &vec![]), Err("Instructions not found".to_string()));
    assert_eq!(run_list(&app, &names(&["vim"])), Err("Instructions not found".to_string()));
}

#[test]
fn list_of_an_unknown_name_fails() {
    assert_eq!(
        run_list(&sample(), &names(&["vim", "nano", "pico"])),
        Err("Instruction does not exist (nano)".to_string())
    );
}

#[test]
fn list_counts_many_configs() {
    let mut children = Vec::new();
    for i in 0..12 {
        children.push(file(&format!("c{:02}.conman", i), "/d/vim"));
    }
    let app = App::new(&vec![file("vim.yml", "/c")], &vec![dir("vim", "/d", children)]).unwrap();
    assert_eq!(run_list(&app, &vec![]), Ok("vim (12)".to_string()));
    let shown = run_list(&app, &names(&["vim"])).unwrap();
    assert!(shown.ends_with("\n  10 - c09\n  11 - c10\n  12 - c11"));
}

#[test]
fn compression_from_one_to_nine() {
    for c in 1u8..=9 {
        assert_eq!(check_compression(c), Ok(()));
    }
    assert_eq!(
        check_compression(0),
        Err("The compression value must be between 1 and 9, not 0".to_string())
    );
    assert_eq!(
        check_compression(10),
        Err("The compression value must be between 1 and 9, not 10".to_string())
    );
    assert_eq!(
        check_compression(255),
        Err("The compression value must be between 1 and 9, not 255".to_string())
    );
}

#[test]
fn archive_goes_where_it_is_asked_to() {
    assert_eq!(archive_path(Some("/tmp/x.conman"), false, "vim", "/d/vim", "t"), "/tmp/x.conman");
    assert_eq!(archive_path(Some("/tmp"), true, "vim", "/d/vim", "t"), "/tmp/vim.conman");
    assert_eq!(
        archive_path(None, false, "vim", "/d/vim", "2024-05-01 10:20:30"),
        "/d/vim/2024-05-01 10:20:30.conman"
    );
    assert_eq!(
        archive_path(None, true, "vim", "/d/vim/", "2024-05-01 10:20:30"),
        "/d/vim/2024-05-01 10:20:30.conman"
    );
}

#[test]
fn staging_copies_each_path_of_each_group() {
    let inst = Instruction {
        save: vec![
            (
                "rc".to_string(),
                Entries {
                    root: "/home/u".to_string(),
                    add: names(&["/home/u/.vimrc", "/home/u/.vim"]),
                    del: names(&["/home/u/.vim/swap"]),
                },
            ),
            ("none".to_string(), Entries { root: "/x".to_string(), add: vec![], del: names(&["/x/y"]) }),
            ("etc".to_string(), Entries { root: "/etc".to_string(), add: names(&["/etc/vimrc"]), del: vec![] }),
        ],
    };
    assert_eq!(
        staging(&inst, "/tmp/job"),
        vec![
            Staged {
                from: "/home/u/.vimrc".to_string(),
                into: "/tmp/job/data/rc".to_string(),
                except: names(&["/home/u/.vim/swap"])
            },
            Staged {
                from: "/home/u/.vim".to_string(),
                into: "/tmp/job/data/rc".to_string(),
                except: names(&["/home/u/.vim/swap"])
            },
            Staged { from: "/etc/vimrc".to_string(), into: "/tmp/job/data/etc".to_string(), except: vec![] },
        ]
    );
    assert_eq!(staging(&Instruction { save: vec![] }, "/tmp/job"), vec![]);
}
