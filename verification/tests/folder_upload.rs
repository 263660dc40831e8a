use filedash::batch::BatchFile;
use filedash::config::{AuthConfig, Config, DatabaseConfig, ServerConfig, StorageConfig};
use filedash::errors::ApiError;
use filedash::files::FileService;
use filedash::search::{contains_sub, matches_query, SearchService};
use filedash::storage::Storage;

fn config_with(allowed: Vec<&str>, max_upload_size: u64) -> Config {
    Config {
        server: ServerConfig {
            host: String::from("127.0.0.1"),
            port: 8080,
            request_timeout_seconds: 86400,
        },
        storage: StorageConfig {
            home_directory: String::from("/data"),
            allowed_extensions: allowed.into_iter().map(String::from).collect(),
            max_upload_size,
            frontend_dist_path: String::from("frontend_dist"),
        },
        database: DatabaseConfig { url: String::from("sqlite://filedash.db"), max_connections: 10 },
        auth: AuthConfig {
            jwt_secret: String::from("SECRET-REDACTED"),
            token_expiration_hours: 24,
            enable_auth: true,
        },
    }
}

fn batch_file(rp: &str, data: &[u8]) -> BatchFile {
    BatchFile { relative_path: String::from(rp), data: data.to_vec() }
}

#[test]
fn test_batch_partial_failure_isolation() {
    // N files, one failing extension validation: the others land on disk
    // and are reported uploaded; the bad one is reported failed with a
    // message, and nothing sits at its target
    let svc = FileService::new(config_with(vec!["txt"], 1024));
    let mut st = Storage::new(String::from("/data"));
    let files = vec![
        batch_file("one.txt", b"1"),
        batch_file("bad.exe", b"2"),
        batch_file("three.txt", b"3"),
    ];
    let (result, folders) = svc.upload_batch(&mut st, "up", files, 5).unwrap();
    assert_eq!(result.uploaded.len(), 2);
    assert_eq!(result.failed.len(), 1);
    assert_eq!(result.failed[0].filename, String::from("bad.exe"));
    assert!(!result.failed[0].error.is_empty());
    let (data, _) = svc.download_file(&st, "up/one.txt").unwrap();
    assert_eq!(data, b"1".to_vec());
    let (data, _) = svc.download_file(&st, "up/three.txt").unwrap();
    assert_eq!(data, b"3".to_vec());
    assert!(matches!(
        svc.download_file(&st, "up/bad.exe"),
        Err(ApiError::FileNotFound { .. })
    ));
    // no subdirectories were created by this batch
    assert_eq!(folders.len(), 0);
}

#[test]
fn test_batch_structure_and_ledger() {
    let svc = FileService::new(config_with(vec!["*"], 1024));
    let mut st = Storage::new(String::from("/data"));
    let files = vec![
        batch_file("sub/a.txt", b"a"),
        batch_file("sub/b.txt", b"b"),
        batch_file("deep/nest/c.txt", b"c"),
        batch_file("top.txt", b"t"),
    ];
    let (result, folders) = svc.upload_batch(&mut st, "base", files, 9).unwrap();
    assert_eq!(result.uploaded.len(), 4);
    assert_eq!(result.failed.len(), 0);
    // each created directory is recorded once
    assert_eq!(
        folders,
        vec![String::from("base/sub"), String::from("base/deep/nest")]
    );
    let (data, _) = svc.download_file(&st, "base/deep/nest/c.txt").unwrap();
    assert_eq!(data, b"c".to_vec());
    let listing = svc.list_files(&st, "base/sub").unwrap();
    assert_eq!(listing.len(), 2);
}

#[test]
fn test_batch_isolation_with_subdirectories() {
    let svc = FileService::new(config_with(vec!["txt"], 1024));
    let mut st = Storage::new(String::from("/data"));
    let files = vec![
        batch_file("sub/good.txt", b"g"),
        batch_file("sub/bad.exe", b"b"),
        batch_file("other/fine.txt", b"f"),
    ];
    let (result, folders) = svc.upload_batch(&mut st, "", files, 3).unwrap();
    assert_eq!(result.uploaded.len(), 2);
    assert_eq!(result.failed.len(), 1);
    assert_eq!(result.failed[0].filename, String::from("sub/bad.exe"));
    assert!(!result.failed[0].error.is_empty());
    assert!(svc.download_file(&st, "sub/good.txt").is_ok());
    assert!(svc.download_file(&st, "other/fine.txt").is_ok());
    assert!(matches!(
        svc.download_file(&st, "sub/bad.exe"),
        Err(ApiError::FileNotFound { .. })
    ));
    assert_eq!(folders, vec![String::from("sub"), String::from("other")]);
}

#[test]
fn test_batch_never_aborts_early() {
    let svc = FileService::new(config_with(vec!["*"], 4));
    let mut st = Storage::new(String::from("/data"));
    let files = vec![
        batch_file("too_big.bin", b"12345"),
        batch_file("../escape.txt", b"x"),
        batch_file("fine.txt", b"ok"),
    ];
    let (result, _) = svc.upload_batch(&mut st, "", files, 1).unwrap();
    assert_eq!(result.uploaded.len(), 1);
    assert_eq!(result.failed.len(), 2);
    assert_eq!(result.uploaded[0].name, String::from("fine.txt"));
    for f in &result.failed {
        assert!(!f.error.is_empty());
    }
}

#[test]
fn test_batch_duplicate_target() {
    let svc = FileService::new(config_with(vec!["*"], 1024));
    let mut st = Storage::new(String::from("/data"));
    let files = vec![batch_file("a.txt", b"first"), batch_file("a.txt", b"second")];
    let (result, _) = svc.upload_batch(&mut st, "", files, 1).unwrap();
    assert_eq!(result.uploaded.len(), 1);
    assert_eq!(result.failed.len(), 1);
    // the first writer won and keeps its content
    let (data, _) = svc.download_file(&st, "a.txt").unwrap();
    assert_eq!(data, b"first".to_vec());
}

#[test]
fn test_batch_bad_target_path() {
    let svc = FileService::new(config_with(vec!["*"], 1024));
    let mut st = Storage::new(String::from("/data"));
    let r = svc.upload_batch(&mut st, "../nope", vec![batch_file("a.txt", b"x")], 1);
    assert!(matches!(r, Err(ApiError::InvalidPath { .. })));
}

#[test]
fn test_search_matching() {
    // case folding comes from the real library; echoing the input back
    // unchanged would fail the cross-case matches
    assert!(matches_query("Test_Data.TXT", "test"));
    assert!(matches_query("file1.txt", "FILE"));
    assert!(matches_query("document.txt", "document.txt"));
    assert!(!matches_query("document.txt", "missing"));
    assert!(contains_sub("hello world", "o w"));
    assert!(contains_sub("abc", ""));
    assert!(!contains_sub("", "a"));
    let svc = SearchService::new(String::from("/data"));
    assert_eq!(svc.root_dir, String::from("/data"));
}
