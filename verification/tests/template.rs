use conman::error::ResolutionError;
use conman::template::parse_path;
use conman::util::path::{get, normalize, Directories};

fn dirs() -> Directories {
    Directories {
        home: Some("/home/u".to_string()),
        data: Some("/home/u/.local/share".to_string()),
        local: None,
        config: Some("/home/u/.config".to_string()),
        preference: Some("/prefs/{HOME}".to_string()),
    }
}

#[test]
fn template_expands_home() {
    assert_eq!(parse_path("{HOME}/.config", &dirs()), Ok("/home/u/.config".to_string()));
}

#[test]
fn template_with_unknown_name_fails() {
    assert_eq!(
        parse_path("{NOWHERE}/x", &dirs()),
        Err(ResolutionError::UnknownDirectory("NOWHERE".to_string()))
    );
}

#[test]
fn template_with_unlocated_directory_fails() {
    assert_eq!(
        parse_path("{LOCAL}/x", &dirs()),
        Err(ResolutionError::UnknownDirectory("LOCAL".to_string()))
    );
}

#[test]
fn template_expands_each_placeholder() {
    assert_eq!(
        parse_path("{CONFIG}/a/{CONFIG}/b", &dirs()),
        Ok("/home/u/.config/a/home/u/.config/b".to_string())
    );
    assert_eq!(
        parse_path("/mnt{HOME}and{DATA}", &dirs()),
        Ok("/mnt/home/uand/home/u/.local/share".to_string())
    );
}

#[test]
fn template_name_is_trimmed() {
    assert_eq!(parse_path("{ HOME }/x", &dirs()), Ok("/home/u/x".to_string()));
    assert_eq!(parse_path("{\tDATA\u{a0}}", &dirs()), Ok("/home/u/.local/share".to_string()));
    assert_eq!(
        parse_path("{ }", &dirs()),
        Err(ResolutionError::UnknownDirectory("".to_string()))
    );
}

#[test]
fn template_first_failure_decides() {
    assert_eq!(
        parse_path("{HOME}/{ONE}/{TWO}", &dirs()),
        Err(ResolutionError::UnknownDirectory("ONE".to_string()))
    );
}

#[test]
fn template_keeps_text_that_is_no_placeholder() {
    assert_eq!(parse_path("/a/{}/b", &dirs()), Ok("/a/{}/b".to_string()));
    assert_eq!(parse_path("/a/{HOME", &dirs()), Ok("/a/{HOME".to_string()));
    assert_eq!(parse_path("/a/HOME}", &dirs()), Ok("/a/HOME}".to_string()));
    assert_eq!(parse_path("", &dirs()), Ok("".to_string()));
    assert_eq!(parse_path("plain/path", &dirs()), Ok("plain/path".to_string()));
}

#[test]
fn template_placeholder_ends_at_first_closing_brace() {
    assert_eq!(
        parse_path("{{HOME}", &dirs()),
        Err(ResolutionError::UnknownDirectory("{HOME".to_string()))
    );
    assert_eq!(parse_path("{HOME}}", &dirs()), Ok("/home/u}".to_string()));
}

#[test]
fn template_result_is_not_expanded_again() {
    assert_eq!(parse_path("{PREFERENCE}/x", &dirs()), Ok("/prefs/{HOME}/x".to_string()));
}

#[test]
fn template_result_is_in_plain_form() {
    assert_eq!(parse_path("{HOME}//a/./b/", &dirs()), Ok("/home/u/a/b".to_string()));
}

#[test]
fn get_knows_five_names() {
    let d = Directories {
        home: Some("/h".to_string()),
        data: Some("/d".to_string()),
        local: Some("/l".to_string()),
        config: Some("/c".to_string()),
        preference: Some("/p".to_string()),
    };
    assert_eq!(get("HOME", &d), Ok("/h".to_string()));
    assert_eq!(get("DATA", &d), Ok("/d".to_string()));
    assert_eq!(get("LOCAL", &d), Ok("/l".to_string()));
    assert_eq!(get("CONFIG", &d), Ok("/c".to_string()));
    assert_eq!(get("PREFERENCE", &d), Ok("/p".to_string()));
    assert_eq!(get("home", &d), Err(ResolutionError::UnknownDirectory("home".to_string())));
    assert_eq!(get("", &d), Err(ResolutionError::UnknownDirectory("".to_string())));
}

#[test]
fn normalize_gives_the_plain_form() {
    assert_eq!(normalize(""), "");
    assert_eq!(normalize("/"), "/");
    assert_eq!(normalize("//"), "/");
    assert_eq!(normalize("."), ".");
    assert_eq!(normalize("./"), ".");
    assert_eq!(normalize("./a"), "./a");
    assert_eq!(normalize("././a"), "./a");
    assert_eq!(normalize("/./a"), "/a");
    assert_eq!(normalize("a/./b"), "a/b");
    assert_eq!(normalize("a//b"), "a/b");
    assert_eq!(normalize("a/b/"), "a/b");
    assert_eq!(normalize("a/b/."), "a/b");
    assert_eq!(normalize("/a/b"), "/a/b");
    assert_eq!(normalize("a/../b"), "a/../b");
    assert_eq!(normalize(".a/b."), ".a/b.");
    assert_eq!(normalize("a/.../b"), "a/.../b");
}

#[test]
fn normalize_agrees_with_path_components() {
    let samples = [
        "", "/", "//", ".", "./", "./a", "././a", "/./a", "a/./b", "a//b", "a/b/", "a/b/.",
        "/a/b", "a/../b", "..", "../", "/..", "a", "/a//b/./c/", ".//.", "/.", "./.", "a/.",
    ];
    for x in samples {
        for y in samples {
            let same_components = std::path::Path::new(x) == std::path::Path::new(y);
            assert_eq!(normalize(x) == normalize(y), same_components, "{:?} {:?}", x, y);
        }
    }
}
