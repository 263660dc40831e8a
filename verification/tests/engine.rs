use filedash::config::{AuthConfig, Config, DatabaseConfig, ServerConfig, StorageConfig};
use filedash::errors::ApiError;
use filedash::files::FileService;
use filedash::storage::Storage;

fn config_with(allowed: Vec<&str>, max_upload_size: u64) -> Config {
    Config {
        server: ServerConfig {
            host: String::from("127.0.0.1"),
            port: 8080,
            request_timeout_seconds: 86400,
        },
        storage: StorageConfig {
            home_directory: String::from("/data"),
            allowed_extensions: allowed.into_iter().map(String::from).collect(),
            max_upload_size,
            frontend_dist_path: String::from("frontend_dist"),
        },
        database: DatabaseConfig { url: String::from("sqlite://filedash.db"), max_connections: 10 },
        auth: AuthConfig {
            jwt_secret: String::from("SECRET-REDACTED"),
            token_expiration_hours: 24,
            enable_auth: true,
        },
    }
}

fn service() -> FileService {
    FileService::new(config_with(vec!["*"], 1024 * 1024))
}

fn store() -> Storage {
    Storage::new(String::from("/data"))
}

#[test]
fn test_upload_and_download_round_trip() {
    let svc = service();
    let mut st = store();
    let info = svc
        .upload_file(&mut st, "docs", "a.txt", b"hello world".to_vec(), 7)
        .unwrap();
    assert_eq!(info.name, String::from("a.txt"));
    assert_eq!(info.path, String::from("docs/a.txt"));
    assert_eq!(info.size, 11);
    assert!(!info.is_directory);
    let (data, name) = svc.download_file(&st, "docs/a.txt").unwrap();
    assert_eq!(data, b"hello world".to_vec());
    assert_eq!(name, String::from("a.txt"));
}

#[test]
fn test_upload_mime_guess() {
    // the MIME type comes from the real extension table; a guess that
    // merely echoed the name back would fail this
    let svc = service();
    let mut st = store();
    let info = svc.upload_file(&mut st, "", "notes.txt", b"x".to_vec(), 1).unwrap();
    assert_eq!(info.mime_type, Some(String::from("text/plain")));
    let info = svc.upload_file(&mut st, "", "img.png", b"x".to_vec(), 1).unwrap();
    assert_eq!(info.mime_type, Some(String::from("image/png")));
    let info = svc.upload_file(&mut st, "", "noext", b"x".to_vec(), 1).unwrap();
    assert_eq!(info.mime_type, None);
}

#[test]
fn test_no_silent_overwrite() {
    let svc = service();
    let mut st = store();
    svc.upload_file(&mut st, "", "a.txt", b"original".to_vec(), 1).unwrap();
    let r = svc.upload_file(&mut st, "", "a.txt", b"usurper".to_vec(), 2);
    assert!(matches!(r, Err(ApiError::FileExists { .. })));
    let (data, _) = svc.download_file(&st, "a.txt").unwrap();
    assert_eq!(data, b"original".to_vec());
}

#[test]
fn test_size_enforcement() {
    let svc = FileService::new(config_with(vec!["*"], 8));
    let mut st = store();
    // exactly the cap is accepted
    assert!(svc.upload_file(&mut st, "", "ok.bin", vec![0u8; 8], 1).is_ok());
    // one byte over the cap is refused, and nothing is left behind
    let r = svc.upload_file(&mut st, "", "big.bin", vec![0u8; 9], 2);
    assert!(matches!(r, Err(ApiError::FileTooLarge { size: 9 })));
    assert!(matches!(
        svc.download_file(&st, "big.bin"),
        Err(ApiError::FileNotFound { .. })
    ));
}

#[test]
fn test_extension_enforcement() {
    let svc = FileService::new(config_with(vec!["txt", "pdf"], 1024));
    let mut st = store();
    assert!(svc.upload_file(&mut st, "", "a.txt", b"x".to_vec(), 1).is_ok());
    let r = svc.upload_file(&mut st, "", "evil.exe", b"x".to_vec(), 2);
    assert!(matches!(r, Err(ApiError::InvalidFileType { .. })));
}

#[test]
fn test_upload_traversal_rejected() {
    let svc = service();
    let mut st = store();
    let r = svc.upload_file(&mut st, "../outside", "a.txt", b"x".to_vec(), 1);
    assert!(matches!(r, Err(ApiError::InvalidPath { .. })));
    let r = svc.upload_file(&mut st, "docs", "../a.txt", b"x".to_vec(), 1);
    assert!(matches!(r, Err(ApiError::InvalidPath { .. })));
}

#[test]
fn test_listing_order_and_idempotence() {
    let svc = service();
    let mut st = store();
    svc.upload_file(&mut st, "", "zeta.txt", b"1".to_vec(), 1).unwrap();
    svc.upload_file(&mut st, "", "alpha.txt", b"2".to_vec(), 2).unwrap();
    svc.create_directory(&mut st, "beta", true, 3).unwrap();
    let first = svc.list_files(&st, "").unwrap();
    // directories sort before files, then byte-wise by name
    let names: Vec<String> = first.iter().map(|f| f.name.clone()).collect();
    assert_eq!(
        names,
        vec![String::from("beta"), String::from("alpha.txt"), String::from("zeta.txt")]
    );
    assert!(first[0].is_directory);
    // listing an unmodified directory twice returns the same descriptors
    let second = svc.list_files(&st, "").unwrap();
    assert_eq!(first.len(), second.len());
    for (a, b) in first.iter().zip(second.iter()) {
        assert_eq!(a.name, b.name);
        assert_eq!(a.path, b.path);
        assert_eq!(a.size, b.size);
        assert_eq!(a.modified, b.modified);
        assert_eq!(a.is_directory, b.is_directory);
        assert_eq!(a.mime_type, b.mime_type);
    }
}

#[test]
fn test_list_file_target_refused() {
    // listing demands a directory; a file target is a bad request,
    // distinct from an absent path
    let svc = service();
    let mut st = store();
    svc.upload_file(&mut st, "d", "a.txt", b"abc".to_vec(), 1).unwrap();
    assert!(matches!(
        svc.list_files(&st, "d/a.txt"),
        Err(ApiError::BadRequest { .. })
    ));
}

#[test]
fn test_list_errors() {
    let svc = service();
    let st = store();
    assert!(matches!(
        svc.list_files(&st, "absent"),
        Err(ApiError::FileNotFound { .. })
    ));
    assert!(matches!(
        svc.list_files(&st, "a/../.."),
        Err(ApiError::InvalidPath { .. })
    ));
    // an empty, existing root lists as empty, distinct from NotFound
    assert_eq!(svc.list_files(&st, "").unwrap().len(), 0);
}

#[test]
fn test_download_directory_refused() {
    let svc = service();
    let mut st = store();
    svc.create_directory(&mut st, "d", true, 1).unwrap();
    assert!(matches!(svc.download_file(&st, "d"), Err(ApiError::BadRequest { .. })));
    assert!(matches!(svc.download_file(&st, ""), Err(ApiError::BadRequest { .. })));
}

#[test]
fn test_mkdir_existing_refused() {
    let svc = service();
    let mut st = store();
    let info = svc.create_directory(&mut st, "d/e", true, 1).unwrap();
    assert_eq!(info.name, String::from("e"));
    assert_eq!(info.path, String::from("d/e"));
    assert!(info.is_directory);
    assert_eq!(info.mime_type, None);
    // mkdir never succeeds idempotently
    assert!(matches!(
        svc.create_directory(&mut st, "d/e", true, 2),
        Err(ApiError::BadRequest { .. })
    ));
    // a file in the way is refused too
    svc.upload_file(&mut st, "", "f.txt", b"x".to_vec(), 3).unwrap();
    assert!(matches!(
        svc.create_directory(&mut st, "f.txt", true, 4),
        Err(ApiError::BadRequest { .. })
    ));
}

#[test]
fn test_mkdir_non_recursive_needs_parent() {
    let svc = service();
    let mut st = store();
    assert!(matches!(
        svc.create_directory(&mut st, "a/b", false, 1),
        Err(ApiError::FileNotFound { .. })
    ));
    svc.create_directory(&mut st, "a", false, 2).unwrap();
    assert!(svc.create_directory(&mut st, "a/b", false, 3).is_ok());
}

#[test]
fn test_rename() {
    let svc = service();
    let mut st = store();
    svc.upload_file(&mut st, "notes", "operations_test.txt", b"Test file for operations".to_vec(), 1)
        .unwrap();
    let info = svc.rename_file(&mut st, "notes/operations_test.txt", "renamed_file.txt").unwrap();
    assert_eq!(info.name, String::from("renamed_file.txt"));
    assert_eq!(info.path, String::from("notes/renamed_file.txt"));
    let (data, name) = svc.download_file(&st, "notes/renamed_file.txt").unwrap();
    assert_eq!(data, b"Test file for operations".to_vec());
    assert_eq!(name, String::from("renamed_file.txt"));
    assert!(matches!(
        svc.download_file(&st, "notes/operations_test.txt"),
        Err(ApiError::FileNotFound { .. })
    ));
}

#[test]
fn test_rename_rules() {
    let svc = service();
    let mut st = store();
    svc.upload_file(&mut st, "", "a.txt", b"1".to_vec(), 1).unwrap();
    svc.upload_file(&mut st, "", "b.txt", b"2".to_vec(), 2).unwrap();
    // a separator in the new name must not relocate the entry
    assert!(matches!(
        svc.rename_file(&mut st, "a.txt", "d/a.txt"),
        Err(ApiError::BadRequest { .. })
    ));
    // renaming onto an existing entry is refused
    assert!(matches!(
        svc.rename_file(&mut st, "a.txt", "b.txt"),
        Err(ApiError::FileExists { .. })
    ));
    assert!(matches!(
        svc.rename_file(&mut st, "absent.txt", "c.txt"),
        Err(ApiError::FileNotFound { .. })
    ));
}

#[test]
fn test_move() {
    let svc = service();
    let mut st = store();
    svc.upload_file(&mut st, "", "moved_file.txt", b"move me".to_vec(), 1).unwrap();
    svc.move_file(&mut st, "moved_file.txt", "subfolder/moved_file.txt", 2).unwrap();
    let listing = svc.list_files(&st, "subfolder").unwrap();
    assert!(listing.iter().any(|f| f.name == String::from("moved_file.txt")));
    assert!(matches!(
        svc.download_file(&st, "moved_file.txt"),
        Err(ApiError::FileNotFound { .. })
    ));
    let (data, _) = svc.download_file(&st, "subfolder/moved_file.txt").unwrap();
    assert_eq!(data, b"move me".to_vec());
}

#[test]
fn test_move_directory() {
    let svc = service();
    let mut st = store();
    svc.upload_file(&mut st, "a/b", "x.txt", b"deep".to_vec(), 1).unwrap();
    svc.move_file(&mut st, "a", "c", 2).unwrap();
    let (data, _) = svc.download_file(&st, "c/b/x.txt").unwrap();
    assert_eq!(data, b"deep".to_vec());
    // moving an entry into its own subtree is refused
    svc.upload_file(&mut st, "d", "y.txt", b"z".to_vec(), 3).unwrap();
    assert!(matches!(
        svc.move_file(&mut st, "d", "d/e", 4),
        Err(ApiError::BadRequest { .. })
    ));
}

#[test]
fn test_delete() {
    let svc = service();
    let mut st = store();
    svc.upload_file(&mut st, "d", "a.txt", b"1".to_vec(), 1).unwrap();
    svc.upload_file(&mut st, "d/e", "b.txt", b"2".to_vec(), 2).unwrap();
    // deleting a directory removes the whole subtree
    svc.delete_file(&mut st, "d").unwrap();
    assert!(matches!(svc.list_files(&st, "d"), Err(ApiError::FileNotFound { .. })));
    assert!(matches!(
        svc.download_file(&st, "d/e/b.txt"),
        Err(ApiError::FileNotFound { .. })
    ));
    assert!(matches!(
        svc.delete_file(&mut st, "d"),
        Err(ApiError::FileNotFound { .. })
    ));
}

#[test]
fn test_file_blocking_target_path() {
    // a regular file standing where a directory is needed surfaces as an
    // internal error, and the state is untouched
    let svc = service();
    let mut st = store();
    svc.upload_file(&mut st, "", "blocker", b"x".to_vec(), 1).unwrap();
    let r = svc.upload_file(&mut st, "blocker/sub", "a.txt", b"y".to_vec(), 2);
    assert!(matches!(r, Err(ApiError::InternalServerError { .. })));
    assert_eq!(svc.list_files(&st, "").unwrap().len(), 1);
}

#[test]
fn test_dot_dot_resolving_to_root() {
    // a path whose segments cancel out names the root itself: listing it
    // works, downloading it is refused as a directory
    let svc = service();
    let mut st = store();
    svc.upload_file(&mut st, "", "a.txt", b"x".to_vec(), 1).unwrap();
    let listing = svc.list_files(&st, "a/..").unwrap();
    assert_eq!(listing.len(), 1);
    assert!(matches!(
        svc.download_file(&st, "a/.."),
        Err(ApiError::BadRequest { .. })
    ));
}

#[test]
fn test_scenario() {
    // root /data: upload notes/todo.txt, list, download, rename, delete
    let svc = service();
    let mut st = store();
    let info = svc.upload_file(&mut st, "notes", "todo.txt", b"buy milk".to_vec(), 11).unwrap();
    assert_eq!(info.name, String::from("todo.txt"));
    assert_eq!(info.path, String::from("notes/todo.txt"));
    assert_eq!(info.size, 8);
    assert!(!info.is_directory);
    let listing = svc.list_files(&st, "notes").unwrap();
    assert!(listing.iter().any(|f| {
        f.name == String::from("todo.txt") && f.path == String::from("notes/todo.txt") && f.size
            == 8 && !f.is_directory
    }));
    let (data, name) = svc.download_file(&st, "notes/todo.txt").unwrap();
    assert_eq!(data, b"buy milk".to_vec());
    assert_eq!(name, String::from("todo.txt"));
    let renamed = svc.rename_file(&mut st, "notes/todo.txt", "done.txt").unwrap();
    assert_eq!(renamed.path, String::from("notes/done.txt"));
    svc.delete_file(&mut st, "notes").unwrap();
    assert!(matches!(svc.list_files(&st, "notes"), Err(ApiError::FileNotFound { .. })));
}
