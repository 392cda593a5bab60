use conman::error::{join, ResolutionError};

#[test]
fn message_of_instruction_not_found() {
    let e = ResolutionError::InstructionNotFound("vim".to_string());
    assert_eq!(e.message(), "Instruction does not exist (vim)");
}

#[test]
fn message_of_recursive_include() {
    let e = ResolutionError::RecursiveInclude("vim".to_string());
    assert_eq!(e.message(), "Recursive inclusion (vim)");
}

#[test]
fn message_of_unsupported_os() {
    let e = ResolutionError::UnsupportedOs {
        required: vec!["linux".to_string(), "macos".to_string()],
        actual: "windows".to_string(),
    };
    assert_eq!(e.message(), "Instruction only support linux, macos not windows");
    let none = ResolutionError::UnsupportedOs { required: vec![], actual: "windows".to_string() };
    assert_eq!(none.message(), "Instruction only support  not windows");
}

#[test]
fn message_of_unknown_directory() {
    let e = ResolutionError::UnknownDirectory("MUSIC".to_string());
    assert_eq!(e.message(), "Unknown path type (MUSIC)");
}

#[test]
fn message_of_malformed_definition() {
    let e = ResolutionError::MalformedDefinition("/c/a.yml".to_string(), "missing field `os`".to_string());
    assert_eq!(e.message(), "Can't parse instruction (/c/a.yml) :: missing field `os`");
}

#[test]
fn message_of_io_failure() {
    let e = ResolutionError::IoFailure("/c/a.yml".to_string(), "Permission denied (os error 13)".to_string());
    assert_eq!(e.message(), "Permission denied (os error 13)");
}

#[test]
fn message_of_included_failure_is_a_chain() {
    let inner = ResolutionError::Included(
        "c".to_string(),
        Box::new(ResolutionError::UnknownDirectory("X".to_string())),
    );
    let e = ResolutionError::Included("b".to_string(), Box::new(inner));
    assert_eq!(
        e.message(),
        "error while including (b) :: error while including (c) :: Unknown path type (X)"
    );
}

#[test]
fn join_puts_the_separator_between() {
    assert_eq!(join(&vec![], ", "), "");
    assert_eq!(join(&vec!["a".to_string()], ", "), "a");
    assert_eq!(join(&vec!["a".to_string(), "".to_string(), "c".to_string()], ", "), "a, , c");
}
