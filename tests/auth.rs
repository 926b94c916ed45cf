use pop3_server::auth::{credentials_match, hash_new_password, AuthError, AuthStore};

#[test]
fn test_create_user_and_login() {
    let db = sled::Config::new().temporary(true).open().unwrap();
    let auth_store = AuthStore::new(db);

    let username = "testuser";
    let password = "testpassword123";

    let user_created = auth_store.create_user(username, password).unwrap();
    assert!(user_created, "User should be created successfully");

    let duplicate_user_created = auth_store.create_user(username, password).unwrap();
    assert!(
        !duplicate_user_created,
        "Creating duplicate user should return false"
    );

    let login_success = auth_store.login(username, password).unwrap();
    assert!(login_success, "Login with correct password should succeed");

    let login_fail = auth_store.login(username, "wrongpassword").unwrap();
    assert!(!login_fail, "Login with wrong password should fail");

    let login_nonexistent = auth_store.login("nonexistent", password).unwrap();
    assert!(
        !login_nonexistent,
        "Login with non-existent user should fail"
    );
}

#[test]
fn stored_values_that_are_not_hashes_match_nothing() {
    assert!(!credentials_match(None, "pw"));
    assert!(!credentials_match(Some(b"pw".to_vec()), "pw"));
    assert!(!credentials_match(Some(vec![0xff, 0xfe]), "pw"));
}

#[test]
fn stored_hash_is_not_the_password() {
    let db = sled::Config::new().temporary(true).open().unwrap();
    let auth_store = AuthStore::new(db.clone());
    assert!(auth_store.create_user("carol", "hunter2").unwrap());
    let stored = db.get("carol").unwrap().unwrap().to_vec();
    assert_ne!(stored, b"hunter2".to_vec());
    assert!(String::from_utf8(stored.clone()).unwrap().starts_with("$argon2"));
    assert!(credentials_match(Some(stored.clone()), "hunter2"));
    assert!(!credentials_match(Some(stored), "hunter3"));
}

#[test]
fn creation_follows_the_lookup() {
    let db = sled::Config::new().temporary(true).open().unwrap();
    let auth_store = AuthStore::new(db.clone());
    assert!(matches!(
        auth_store.create_after_lookup("dave", "pw", Ok(Some(b"old".to_vec()))),
        Ok(false)
    ));
    assert!(db.get("dave").unwrap().is_none());
    assert!(matches!(
        auth_store.create_after_lookup("dave", "pw", Err(sled::Error::Unsupported("x".to_string()))),
        Err(AuthError::Store(_))
    ));
    assert!(matches!(auth_store.create_after_lookup("dave", "pw", Ok(None)), Ok(true)));
    assert!(auth_store.login("dave", "pw").unwrap());
}

#[test]
fn existing_user_keeps_old_password() {
    let db = sled::Config::new().temporary(true).open().unwrap();
    let auth_store = AuthStore::new(db);
    assert!(auth_store.create_user("erin", "first").unwrap());
    assert!(!auth_store.create_user("erin", "second").unwrap());
    assert!(auth_store.login("erin", "first").unwrap());
    assert!(!auth_store.login("erin", "second").unwrap());
}

#[test]
fn new_password_record_is_an_argon2_hash_that_accepts_the_password() {
    let record = hash_new_password("open sesame").unwrap();
    assert!(record.starts_with("$argon2id$"));
    assert_ne!(record, "open sesame");
    assert!(credentials_match(Some(record.clone().into_bytes()), "open sesame"));
    assert!(!credentials_match(Some(record.into_bytes()), "open sesame!"));
    let other = hash_new_password("open sesame").unwrap();
    assert!(credentials_match(Some(other.into_bytes()), "open sesame"));
}
