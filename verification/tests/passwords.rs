use ironhide_cli::password::{BcryptFailure, Password, SignInFailure};

#[test]
fn new_password_is_hashed_and_validates() {
    let p = Password::new("hunter2".to_string()).ok().unwrap();
    assert_eq!(p.plaintext, "hunter2");
    assert!(p.hashed.starts_with("$2b$12$"));
    let again = Password::new_validated("hunter2".to_string(), p.hashed.clone());
    assert!(again.is_ok());
    let q = again.ok().unwrap();
    assert_eq!(q.plaintext, "hunter2");
    assert_eq!(q.hashed, p.hashed);
}

#[test]
fn stored_hash_validates_at_next_sign_in() {
    let p = Password::new("s3cret".to_string()).ok().unwrap();
    let stored = p.hash_for_file().ok().unwrap();
    assert_ne!(stored, "s3cret");
    assert!(Password::new_validated("s3cret".to_string(), stored).is_ok());
}

#[test]
fn wrong_password_is_refused() {
    let p = Password::new("right".to_string()).ok().unwrap();
    let r = Password::new_validated("wrong".to_string(), p.hashed.clone());
    assert!(matches!(r, Err(SignInFailure::IncorrectPassword)));
}

#[test]
fn malformed_hash_is_a_bcrypt_failure() {
    let r = Password::new_validated("x".to_string(), "not a hash".to_string());
    assert!(matches!(r, Err(SignInFailure::Bcrypt(BcryptFailure::InvalidHash(_)))));
    let r = Password::new_validated("x".to_string(), "$2x$12$abc".to_string());
    assert!(matches!(r, Err(SignInFailure::Bcrypt(_))));
}

#[test]
fn validate_keeps_the_hash_only_on_success() {
    let p = Password::new("abc".to_string()).ok().unwrap();
    let good_hash = p.hashed.clone();
    let mut q = Password::new("xyz".to_string()).ok().unwrap();
    let before = q.hashed.clone();
    assert!(q.validate("garbage".to_string()).is_err());
    assert_eq!(q.hashed, before);
    assert!(q.validate(good_hash.clone()).is_ok());
    assert_eq!(q.hashed, good_hash);
}

#[test]
fn zero_byte_cannot_be_hashed() {
    let mut p = Password::new("ok".to_string()).ok().unwrap();
    p.plaintext = "a\0b".to_string();
    assert!(matches!(p.hash_for_file(), Err(BcryptFailure::InvalidPassword)));
}

#[test]
fn non_ascii_hash_is_refused() {
    let hash = format!("$2b$12${}\u{e9}{}", "a".repeat(21), "a".repeat(30));
    let r = Password::new_validated("x".to_string(), hash.clone());
    assert!(matches!(r, Err(SignInFailure::Bcrypt(BcryptFailure::InvalidHash(h))) if h == hash));
    let mut p = Password::new("x".to_string()).ok().unwrap();
    let before = p.hashed.clone();
    assert!(matches!(p.validate(hash), Err(BcryptFailure::InvalidHash(_))));
    assert_eq!(p.hashed, before);
}

#[test]
fn non_ascii_hash_gets_bcrypts_own_error() {
    let r = Password::new_validated("x".to_string(), "$2\u{e9}$12$abc".to_string());
    assert!(matches!(r, Err(SignInFailure::Bcrypt(BcryptFailure::InvalidPrefix(p))) if p == "2\u{e9}"));
    let r = Password::new_validated("x".to_string(), "\u{e9}".to_string());
    assert!(matches!(r, Err(SignInFailure::Bcrypt(BcryptFailure::InvalidHash(h))) if h == "\u{e9}"));
    let hash = format!("$2b$12${}\u{e9}{}", "a".repeat(20), "a".repeat(31));
    let r = Password::new_validated("x".to_string(), hash);
    assert!(matches!(r, Err(SignInFailure::Bcrypt(BcryptFailure::InvalidBase64))));
}
