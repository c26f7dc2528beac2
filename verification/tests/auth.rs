use novadb::auth::{
    hash_password, random_token, validate_password, validate_username, AuthService, Permission,
    Role, TOKEN_BYTES,
};
use novadb::error::NovaError;

#[test]
fn credentials_sessions_and_revocation_are_enforced() {
    let mut auth = AuthService::new().unwrap();
    auth.create_user("reader", "correct horse", Role::ReadOnly)
        .unwrap();
    assert!(matches!(
        auth.authenticate("reader", "wrong password"),
        Err(NovaError::Auth(_))
    ));
    assert!(matches!(
        auth.authenticate("missing", "wrong password"),
        Err(NovaError::Auth(_))
    ));
    let token = auth.authenticate("reader", "correct horse").unwrap();
    assert_eq!(
        auth.authorize(token.as_str(), Permission::Read)
            .unwrap()
            .username,
        "reader"
    );
    assert!(matches!(
        auth.authorize(token.as_str(), Permission::Write),
        Err(NovaError::PermissionDenied(_))
    ));
    auth.revoke(token.as_str()).unwrap();
    assert!(matches!(
        auth.authorize(token.as_str(), Permission::Read),
        Err(NovaError::Auth(_))
    ));
}

#[test]
fn roles_password_changes_and_disable_revoke_sessions() {
    let mut auth = AuthService::new().unwrap();
    auth.create_user("operator", "initial-password", Role::ReadWrite)
        .unwrap();
    let first = auth.authenticate("operator", "initial-password").unwrap();
    assert!(auth.authorize(first.as_str(), Permission::Write).is_ok());
    auth.set_role("operator", Role::Admin).unwrap();
    assert!(auth.authorize(first.as_str(), Permission::Read).is_err());
    let second = auth.authenticate("operator", "initial-password").unwrap();
    assert!(auth.authorize(second.as_str(), Permission::Manage).is_ok());
    auth.change_password("operator", "replacement-password")
        .unwrap();
    assert!(auth.authorize(second.as_str(), Permission::Read).is_err());
    assert!(auth.authenticate("operator", "initial-password").is_err());
    let third = auth
        .authenticate("operator", "replacement-password")
        .unwrap();
    auth.set_enabled("operator", false).unwrap();
    assert!(auth.authorize(third.as_str(), Permission::Read).is_err());
    assert!(auth
        .authenticate("operator", "replacement-password")
        .is_err());
}

#[test]
fn validation_duplicates_and_token_redaction_are_explicit() {
    let mut auth = AuthService::new().unwrap();
    assert!(auth
        .create_user("bad/name", "long-enough", Role::Admin)
        .is_err());
    assert!(auth.create_user("admin", "short", Role::Admin).is_err());
    auth.create_user("admin", "long-enough", Role::Admin)
        .unwrap();
    assert!(matches!(
        auth.create_user("admin", "another-long", Role::Admin),
        Err(NovaError::AlreadyExists(_))
    ));
    let token = auth.authenticate("admin", "long-enough").unwrap();
    assert_eq!(token.as_str().len(), TOKEN_BYTES * 2);
    assert_eq!(token.debug_string(), "SessionToken([REDACTED])");
}

#[test]
fn role_grants_follow_the_hierarchy() {
    assert!(Role::ReadOnly.allows(Permission::Read));
    assert!(!Role::ReadOnly.allows(Permission::Write));
    assert!(!Role::ReadOnly.allows(Permission::Manage));
    assert!(Role::ReadWrite.allows(Permission::Write));
    assert!(!Role::ReadWrite.allows(Permission::Manage));
    assert!(Role::Admin.allows(Permission::Manage));
}

#[test]
fn permission_denied_names_role_and_permission() {
    let mut auth = AuthService::new().unwrap();
    auth.create_user("viewer", "viewer-password", Role::ReadOnly).unwrap();
    let token = auth.authenticate("viewer", "viewer-password").unwrap();
    match auth.authorize(token.as_str(), Permission::Manage) {
        Err(NovaError::PermissionDenied(message)) => {
            assert_eq!(message, "role ReadOnly does not grant Manage")
        }
        other => panic!("unexpected {other:?}"),
    }
    match auth.set_role("nobody", Role::Admin) {
        Err(NovaError::NotFound(message)) => assert_eq!(message, "user \"nobody\""),
        other => panic!("unexpected {other:?}"),
    }
    assert!(auth.revoke("not-a-token").is_ok());
    assert!(auth.set_enabled("viewer", true).is_ok());
    assert!(auth.authorize(token.as_str(), Permission::Read).is_ok());
}

#[test]
fn username_and_password_limits() {
    assert!(validate_username("user_01").is_ok());
    assert!(validate_username("").is_err());
    assert!(validate_username(&"a".repeat(64)).is_ok());
    assert!(validate_username(&"a".repeat(65)).is_err());
    assert!(validate_password("12345678").is_ok());
    assert!(validate_password("1234567").is_err());
    assert!(validate_password(&"p".repeat(1024)).is_ok());
    assert!(validate_password(&"p".repeat(1025)).is_err());
}

#[test]
fn hashes_are_salted_phc_strings_and_tokens_are_hex() {
    let a = hash_password("same-password").unwrap();
    let b = hash_password("same-password").unwrap();
    assert!(a.starts_with("$argon2id$"));
    assert_ne!(a, b);
    let token = random_token().unwrap();
    assert_eq!(token.as_str().len(), 64);
    assert!(token
        .as_str()
        .chars()
        .all(|c| c.is_ascii_digit() || ('a'..='f').contains(&c)));
}
