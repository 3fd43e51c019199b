use filepaste::gc::{PruneAction, Pruner};
use filepaste::path_text::{path_components, render_components, PathComponent};
use filepaste::storage::local::{LocalError, LocalStorage};
use filepaste::storage::retention::parse_retention_hours;
use filepaste::storage::{DirMetadata, FileMetadata, Resource};
use std::path::Path;
use std::time::SystemTime;

fn names(p: &str) -> Vec<String> {
    path_components(p)
        .into_iter()
        .map(|c| match c {
            PathComponent::RootDir => "/".to_string(),
            PathComponent::CurDir => ".".to_string(),
            PathComponent::ParentDir => "..".to_string(),
            PathComponent::Normal(n) => n,
        })
        .collect()
}

fn std_names(p: &str) -> Vec<String> {
    Path::new(p)
        .components()
        .map(|c| c.as_os_str().to_string_lossy().into_owned())
        .collect()
}

#[test]
fn components_agree_with_std() {
    for p in [
        "", ".", "./", "./a", "a/./b", "/", "//a//b/", "../x", "a/..", ".hidden/x", "./.", "a/b/.",
        "/./a", "...", "x/../../y",
    ] {
        assert_eq!(names(p), std_names(p), "path {:?}", p);
    }
}

#[test]
fn render_reads_back() {
    for p in ["./data/./ab/cd", "/a//b/", "a/b", ".", "", "/", "../x/.."] {
        let c = path_components(p);
        let text = render_components(&c);
        assert_eq!(std_names(&text), std_names(p), "path {:?}", p);
    }
}

#[test]
fn cleanup_climbs_to_root_only() {
    let s = LocalStorage::from_root("./data".to_string());
    assert_eq!(s.cleanup_parent("./data/./ab/cd").as_deref(), Some("./data/ab"));
    assert_eq!(s.cleanup_parent("./data/ab"), None);
    assert_eq!(s.cleanup_parent("./other/ab/cd"), None);
    assert_eq!(s.cleanup_parent("/"), None);
    assert_eq!(s.cleanup_parent(""), None);
    let abs = LocalStorage::from_root("/srv/files".to_string());
    assert_eq!(abs.cleanup_parent("/srv/files/x/y/z").as_deref(), Some("/srv/files/x/y"));
}

#[test]
fn relative_paths_of_listed_entries() {
    let s = LocalStorage::from_root("./data".to_string());
    assert_eq!(s.relative_path("./data/ab/cd"), "ab/cd");
    assert_eq!(s.relative_path("data/ab"), "data/ab");
    assert_eq!(s.relative_path("./data"), "");
    let empty_root = LocalStorage::from_root(String::new());
    assert_eq!(empty_root.relative_path("./x"), "./x");
}

#[test]
fn local_refusals() {
    assert!(matches!(LocalStorage::check_put(true, false), Err(LocalError::TargetIsDirectory)));
    assert!(matches!(LocalStorage::check_put(false, true), Err(LocalError::ParentIsFile)));
    assert!(LocalStorage::check_put(false, false).is_ok());
    assert!(matches!(LocalStorage::check_delete(true), Err(LocalError::DirectoryDelete)));
    assert!(LocalStorage::check_delete(false).is_ok());
    assert_eq!(
        LocalError::DirectoryDelete.message(),
        "Manual deletion of directories is not allowed"
    );
}

#[test]
fn retention_hours_parsing() {
    assert_eq!(parse_retention_hours("24"), Some(24));
    assert_eq!(parse_retention_hours("+5"), Some(5));
    assert_eq!(parse_retention_hours("007"), Some(7));
    assert_eq!(parse_retention_hours(""), None);
    assert_eq!(parse_retention_hours("+"), None);
    assert_eq!(parse_retention_hours("-1"), None);
    assert_eq!(parse_retention_hours("1h"), None);
    assert_eq!(parse_retention_hours(" 1"), None);
    assert_eq!(parse_retention_hours("18446744073709551615"), Some(u64::MAX));
    assert_eq!(parse_retention_hours("18446744073709551616"), None);
    assert_eq!(parse_retention_hours("99999999999999999999x"), None);
    for s in ["0", "12", "+3", "", "x", "18446744073709551616"] {
        assert_eq!(parse_retention_hours(s), s.parse::<u64>().ok(), "input {:?}", s);
    }
}

fn file(p: &str) -> Resource {
    Resource::File {
        path: p.to_string(),
        metadata: FileMetadata { size: 1, modified: SystemTime::UNIX_EPOCH },
    }
}

fn dir(p: &str) -> Resource {
    Resource::Directory {
        path: p.to_string(),
        metadata: DirMetadata { modified: SystemTime::UNIX_EPOCH },
    }
}

#[test]
fn pruner_walks_depth_first() {
    let (mut p, a) = Pruner::start(String::new());
    assert!(matches!(a, PruneAction::List(ref s) if s.is_empty()));
    let a = p.listed(vec![file("f1"), dir("d"), file("f2")]);
    assert!(matches!(a, PruneAction::Delete(ref s) if s == "f1"));
    let a = p.deleted();
    assert!(matches!(a, PruneAction::List(ref s) if s == "d"));
    let a = p.listed(vec![file("d/g")]);
    assert!(matches!(a, PruneAction::Delete(ref s) if s == "d/g"));
    let a = p.deleted();
    assert!(matches!(a, PruneAction::Delete(ref s) if s == "f2"));
    let a = p.deleted();
    assert!(matches!(a, PruneAction::Finished));
}

#[test]
fn pruner_skips_empty_directories() {
    let (mut p, _) = Pruner::start("root".to_string());
    let a = p.listed(vec![dir("e")]);
    assert!(matches!(a, PruneAction::List(ref s) if s == "e"));
    let a = p.listed(vec![]);
    assert!(matches!(a, PruneAction::Finished));
}

#[test]
fn pruner_stops_on_list_failure() {
    let (mut p, _) = Pruner::start("root".to_string());
    let _ = p.listed(vec![dir("e"), file("later")]);
    assert!(matches!(p.list_failed(), PruneAction::Failed));
    assert!(matches!(p.deleted(), PruneAction::Finished));
}
