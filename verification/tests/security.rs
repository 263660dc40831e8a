use filedash::errors::ApiError;
use filedash::auth::{extract_bearer_token, AuthContext, UserRole};
use filedash::paths::{resolve_path, validate_path};
use filedash::policy::{validate_file_extension, validate_file_size};

#[test]
fn test_validate_path_normal() {
    let result = validate_path("documents/test.txt");
    assert!(result.is_ok());
    assert_eq!(result.unwrap(), String::from("documents/test.txt"));
}

#[test]
fn test_validate_path_traversal() {
    let result = validate_path("../../../etc/passwd");
    assert!(result.is_err());
}

#[test]
fn test_validate_path_null_byte() {
    let result = validate_path("test\0.txt");
    assert!(result.is_err());
}

#[test]
fn test_resolve_path() {
    let storage_root = String::from("/app/files");
    let result = resolve_path(&storage_root, "documents/test.txt");
    assert!(result.is_ok());
    assert_eq!(result.unwrap(), String::from("/app/files/documents/test.txt"));
}

#[test]
fn test_validate_file_extension_allowed() {
    let allowed = vec!["txt".to_string(), "pdf".to_string()];
    let result = validate_file_extension("test.txt", &allowed);
    assert!(result.is_ok());
}

#[test]
fn test_validate_file_extension_wildcard() {
    let allowed = vec!["*".to_string()];
    let result = validate_file_extension("test.exe", &allowed);
    assert!(result.is_ok());
}

#[test]
fn test_validate_file_size_ok() {
    let result = validate_file_size(1000, 2000);
    assert!(result.is_ok());
}

#[test]
fn test_validate_file_size_too_large() {
    let result = validate_file_size(3000, 2000);
    assert!(result.is_err());
}

#[test]
fn test_containment_dot_segments() {
    // `.` and empty segments collapse; the result stays inside the root
    let r = resolve_path("/data", "./a//b/./c").unwrap();
    assert_eq!(r, String::from("/data/a/b/c"));
}

#[test]
fn test_containment_dotdot_inside() {
    // `..` resolved against the logical path only
    let r = resolve_path("/data", "a/b/../c").unwrap();
    assert_eq!(r, String::from("/data/a/c"));
}

#[test]
fn test_containment_absolute_prefix() {
    // a leading separator is stripped, the path treated as relative
    let r = resolve_path("/data", "/etc/passwd").unwrap();
    assert_eq!(r, String::from("/data/etc/passwd"));
}

#[test]
fn test_containment_escape_rejected() {
    assert!(matches!(
        resolve_path("/data", "a/../../etc/passwd"),
        Err(ApiError::InvalidPath { .. })
    ));
    assert!(matches!(resolve_path("/data", ".."), Err(ApiError::InvalidPath { .. })));
}

#[test]
fn test_validate_path_too_long() {
    let long = "a/".repeat(501);
    assert!(matches!(validate_path(&long), Err(ApiError::InvalidPath { .. })));
}

#[test]
fn test_extract_bearer_token() {
    let token = extract_bearer_token("Bearer abc.def.ghi").unwrap();
    assert_eq!(token, String::from("abc.def.ghi"));
    assert!(matches!(
        extract_bearer_token("Basic abc"),
        Err(ApiError::Unauthorized { .. })
    ));
    assert!(matches!(extract_bearer_token(""), Err(ApiError::Unauthorized { .. })));
}

#[test]
fn test_role_parsing() {
    assert!(matches!(UserRole::parse_role("admin"), Ok(UserRole::Admin)));
    assert!(matches!(UserRole::parse_role("ADMIN"), Ok(UserRole::Admin)));
    assert!(matches!(UserRole::parse_role("user"), Ok(UserRole::User)));
    assert!(UserRole::parse_role("root").is_err());
    assert_eq!(UserRole::Admin.as_str(), "admin");
    assert_eq!(UserRole::User.as_str(), "user");
}

#[test]
fn test_auth_context_roles() {
    let admin = AuthContext {
        user_id: String::from("u1"),
        email: String::from("a@b.c"),
        role: UserRole::Admin,
        token: String::from("t"),
    };
    let user = AuthContext {
        user_id: String::from("u2"),
        email: String::from("d@e.f"),
        role: UserRole::User,
        token: String::from("t2"),
    };
    assert!(admin.is_admin());
    assert!(!user.is_admin());
    assert!(admin.has_role(&UserRole::Admin));
    assert!(admin.has_role(&UserRole::User));
    assert!(!user.has_role(&UserRole::Admin));
    assert!(user.has_role(&UserRole::User));
}

#[test]
fn test_error_codes_and_messages() {
    let e = ApiError::FileNotFound { path: String::from("x.txt") };
    assert_eq!(e.code(), "file_not_found");
    assert_eq!(e.status_code(), 404);
    assert_eq!(ApiError::FileExists { path: String::new() }.status_code(), 409);
    assert_eq!(ApiError::Forbidden { message: String::new() }.status_code(), 403);
    assert_eq!(e.message(), String::from("file not found: x.txt"));
    let e = ApiError::FileTooLarge { size: 10 };
    assert_eq!(e.code(), "file_too_large");
    assert!(!e.message().is_empty());
    let e = ApiError::InvalidFileType { file_type: String::from("exe") };
    assert_eq!(e.message(), String::from("invalid file type: exe"));
}
