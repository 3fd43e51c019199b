use filepaste::endpoint::config::EndpointConfig;
use filepaste::endpoint::handlers::{
    decide_upload, download_target, file_url, generate_random_path, storage_key, upload_filename,
    UploadRejection,
};
use filepaste::path_text::join_path;
use filepaste::storage::local::LocalStorage;
use std::time::{Duration, SystemTime};

#[test]
fn join_path_cases() {
    assert_eq!(join_path("/tmp", "file.bk"), "/tmp/file.bk");
    assert_eq!(join_path("/tmp/", "file.bk"), "/tmp/file.bk");
    assert_eq!(join_path("/tmp", "/etc"), "/etc");
    assert_eq!(join_path("", "a"), "a");
    assert_eq!(join_path("a", ""), "a/");
}

#[test]
fn local_full_path_joins_root() {
    let s = LocalStorage::from_root("./data".to_string());
    assert_eq!(s.root(), "./data");
    assert_eq!(s.full_path("./ab/cd"), "./data/./ab/cd");
}

#[test]
fn random_path_shape() {
    let p = generate_random_path("hello");
    assert_eq!(p.len(), 8 + 1 + 10);
    assert!(p[..8].chars().all(|c| c.is_ascii_alphanumeric()));
    assert_eq!(&p[8..], "/68656c6c6f");
    let q = generate_random_path("hello");
    assert_eq!(&q[8..], &p[8..]);
}

#[test]
fn random_path_encodes_utf8_bytes() {
    let p = generate_random_path("ü");
    assert_eq!(&p[8..], "/c3bc");
}

#[test]
fn upload_filename_cases() {
    assert_eq!(upload_filename("test_file.txt").unwrap(), "test_file.txt");
    assert_eq!(upload_filename("./x/../test.txt").unwrap(), "test.txt");
    assert_eq!(upload_filename("a/b"), Err("Sub-paths are not allowed in upload\n"));
    assert_eq!(upload_filename("../a"), Err("Path traversal attempt detected"));
}

#[test]
fn decide_upload_cases() {
    assert_eq!(decide_upload(Ok(true), "f.txt").unwrap(), "f.txt");
    assert!(matches!(decide_upload(Ok(false), "f.txt"), Err(UploadRejection::Unauthorized)));
    assert!(matches!(
        decide_upload(Ok(true), "/abs"),
        Err(UploadRejection::BadRequest("Absolute paths are not allowed"))
    ));
    let clock_err = SystemTime::UNIX_EPOCH
        .duration_since(SystemTime::UNIX_EPOCH + Duration::from_secs(1))
        .unwrap_err();
    assert!(matches!(decide_upload(Err(clock_err), "f.txt"), Err(UploadRejection::Clock(_))));
}

#[test]
fn storage_key_and_url() {
    assert_eq!(storage_key("AbCd1234/6869"), "./AbCd1234/6869");
    assert_eq!(
        file_url("http", "localhost:8080", "AbCd1234/6869"),
        "http://localhost:8080/AbCd1234/6869"
    );
}

#[test]
fn download_target_decodes_name() {
    let t = download_target("AbCd1234/68656c6c6f").unwrap();
    assert_eq!(t.path, "./AbCd1234/68656c6c6f");
    assert_eq!(t.filename, "hello");
}

#[test]
fn download_target_falls_back_to_file_bin() {
    assert_eq!(download_target("dir/zz").unwrap().filename, "file.bin");
    assert_eq!(download_target("dir/ABCD").unwrap().filename, "file.bin");
    assert_eq!(download_target("dir/abc").unwrap().filename, "file.bin");
}

#[test]
fn download_target_is_lossy_on_bad_utf8() {
    assert_eq!(download_target("d/ff").unwrap().filename, "\u{FFFD}");
}

#[test]
fn download_target_refuses_bad_paths() {
    assert_eq!(download_target("../x").unwrap_err(), "Path traversal attempt detected");
    assert_eq!(download_target("").unwrap_err(), "File path cannot be empty");
}

#[test]
fn upload_then_download_recovers_name() {
    for name in ["test_file.txt", "straße.pdf", "a b"] {
        let p = generate_random_path(name);
        assert_eq!(upload_filename(name).unwrap(), name);
        let t = download_target(&p).unwrap();
        assert_eq!(t.filename, name);
        assert_eq!(t.path, storage_key(&p));
    }
}

#[test]
fn endpoint_default_port() {
    assert_eq!(EndpointConfig::default().port, 3000);
}
