use filepaste::endpoint::sanitize::sanitize_relative_path;
use std::path::PathBuf;

fn sanitized(p: &str) -> PathBuf {
    PathBuf::from(sanitize_relative_path(p).unwrap())
}

#[test]
fn test_valid_relative_paths() {
    assert_eq!(sanitized("docs/resume.pdf"), PathBuf::from("./docs/resume.pdf"));
    assert_eq!(sanitized("image.png"), PathBuf::from("./image.png"));
    assert_eq!(sanitized("./folder/file.txt"), PathBuf::from("./folder/file.txt"));
}

#[test]
fn test_valid_parent_navigation() {
    assert_eq!(sanitized("dir/../file.txt"), PathBuf::from("./file.txt"));
    assert_eq!(sanitized("a/b/../../c"), PathBuf::from("./c"));
}

#[test]
fn test_prevents_traversal_escape() {
    assert!(sanitize_relative_path("..").is_err());
    assert!(sanitize_relative_path("../etc/passwd").is_err());
    assert!(sanitize_relative_path("dir/../../secret").is_err());
}

#[test]
fn test_rejects_absolute_paths() {
    assert!(sanitize_relative_path("/etc/passwd").is_err());
    // A drive prefix such as `C:\Windows\System32` is only a prefix on
    // Windows; on Unix it is an ordinary file name.
    assert_eq!(
        sanitize_relative_path(r"C:\Windows\System32").unwrap(),
        r"./C:\Windows\System32"
    );
}

#[test]
fn test_rejects_empty_or_identity_paths() {
    assert!(sanitize_relative_path("").is_err());
    assert!(sanitize_relative_path(".").is_err());
    assert!(sanitize_relative_path("././.").is_err());
    assert!(sanitize_relative_path("dir/..").is_err());
}

#[test]
fn test_redundant_separators() {
    assert_eq!(sanitized("folder///file.txt"), PathBuf::from("./folder/file.txt"));
}

#[test]
fn sanitize_reports_each_reason() {
    assert_eq!(sanitize_relative_path("../x"), Err("Path traversal attempt detected"));
    assert_eq!(sanitize_relative_path("/x"), Err("Absolute paths are not allowed"));
    assert_eq!(sanitize_relative_path("a/.."), Err("File path cannot be empty"));
    assert_eq!(sanitize_relative_path(""), Err("File path cannot be empty"));
}

#[test]
fn sanitize_absolute_wins_over_traversal() {
    assert_eq!(sanitize_relative_path("/../x"), Err("Absolute paths are not allowed"));
}

#[test]
fn sanitize_traversal_wins_over_later_names() {
    assert_eq!(sanitize_relative_path("a/../../b/c/d"), Err("Path traversal attempt detected"));
}

#[test]
fn sanitize_drops_inner_dots_and_trailing_slash() {
    assert_eq!(sanitize_relative_path("a/./b/").unwrap(), "./a/b");
    assert_eq!(sanitize_relative_path("...").unwrap(), "./...");
    assert_eq!(sanitize_relative_path("a/.../b").unwrap(), "./a/.../b");
}

#[test]
fn sanitize_is_idempotent_on_examples() {
    for p in ["docs/resume.pdf", "a/b/../../c", "x//y/./z/", "über/straße"] {
        let once = sanitize_relative_path(p).unwrap();
        let twice = sanitize_relative_path(&once).unwrap();
        assert_eq!(once, twice);
    }
}

#[test]
fn sanitize_keeps_non_ascii_names() {
    assert_eq!(sanitize_relative_path("über/../straße").unwrap(), "./straße");
}
