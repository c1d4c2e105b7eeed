use ironhide_cli::database::{
    construct_cipher, convert_str_to_vec, decrypt, delete_login_query, edit_login_query, encrypt,
    find_password_query, is_usable_as_key, new_login_query, try_decrypt, CREATE_TABLE_QUERY,
    LIST_LOGINS_QUERY,
};

#[test]
fn encrypt_then_decrypt_gives_the_text_back() {
    let cipher = construct_cipher(&"correct horse".to_string());
    for s in ["hello", "", "github.com", "pässwörd ✓", "a, b, c"].iter() {
        let stored = encrypt(&cipher, s.to_string());
        assert_eq!(decrypt(&cipher, stored.clone()), *s);
        assert_eq!(try_decrypt(&cipher, stored), Some(s.to_string()));
    }
}

#[test]
fn encryption_is_deterministic_and_sealed() {
    let cipher = construct_cipher(&"master".to_string());
    let a = encrypt(&cipher, "service".to_string());
    let b = encrypt(&cipher, "service".to_string());
    assert_eq!(a, b);
    let bytes = convert_str_to_vec(a.clone());
    assert_eq!(bytes.len(), "service".len() + 16);
    assert_ne!(&bytes[..7], "service".as_bytes());
    assert_ne!(a, encrypt(&cipher, "servicf".to_string()));
}

#[test]
fn key_cycles_the_password_bytes() {
    let short = construct_cipher(&"abc".to_string());
    let cycled = construct_cipher(&"abcabcabcabcabcabcabcabcabcabcab".to_string());
    let longer = construct_cipher(&"abcabcabcabcabcabcabcabcabcabcab-anything".to_string());
    let other = construct_cipher(&"abd".to_string());
    let s = encrypt(&short, "x".to_string());
    assert_eq!(s, encrypt(&cycled, "x".to_string()));
    assert_eq!(s, encrypt(&longer, "x".to_string()));
    assert_ne!(s, encrypt(&other, "x".to_string()));
}

#[test]
fn other_key_does_not_open() {
    let a = construct_cipher(&"one key".to_string());
    let b = construct_cipher(&"another key".to_string());
    let stored = encrypt(&a, "secret".to_string());
    assert_eq!(try_decrypt(&b, stored), None);
}

#[test]
fn malformed_fields_do_not_open() {
    let cipher = construct_cipher(&"k".to_string());
    assert_eq!(try_decrypt(&cipher, "".to_string()), None);
    assert_eq!(try_decrypt(&cipher, "1, 2, 3".to_string()), None);
    assert_eq!(try_decrypt(&cipher, "not a list".to_string()), None);
    let mut stored = encrypt(&cipher, "text".to_string());
    stored.push_str(", 0");
    assert_eq!(try_decrypt(&cipher, stored), None);
}

#[test]
fn usable_keys() {
    assert!(is_usable_as_key("abc"));
    assert!(!is_usable_as_key(""));
    assert!(is_usable_as_key("é"));
    assert!(is_usable_as_key("012345678901234567890123456789é"));
}

#[test]
fn key_cycles_non_ascii_bytes() {
    // "é" is the two bytes 0xc3 0xa9; cycled to 32 bytes it is 16 copies of it.
    let short = construct_cipher(&"é".to_string());
    let cycled = construct_cipher(&"é".repeat(16));
    let other = construct_cipher(&"è".to_string());
    let s = encrypt(&short, "x".to_string());
    assert_eq!(s, encrypt(&cycled, "x".to_string()));
    assert_ne!(s, encrypt(&other, "x".to_string()));
    assert_eq!(decrypt(&short, s), "x");
}

#[test]
fn stored_field_lists_sixteen_more_bytes() {
    let cipher = construct_cipher(&"k".to_string());
    for s in ["", "a", "pässwörd", "0123456789012345678901234567890123456789"].iter() {
        let stored = encrypt(&cipher, s.to_string());
        assert_eq!(convert_str_to_vec(stored).len(), s.len() + 16);
    }
}

#[test]
fn queries_hold_the_encrypted_fields() {
    let cipher = construct_cipher(&"pw".to_string());
    let svc = encrypt(&cipher, "mail".to_string());
    let user = encrypt(&cipher, "me".to_string());
    let pass = encrypt(&cipher, "hunter2".to_string());
    assert_eq!(
        find_password_query(&cipher, "mail".to_string()),
        format!("SELECT c FROM logins WHERE a ='{}'", svc)
    );
    assert_eq!(
        delete_login_query(&cipher, "mail".to_string()),
        format!("DELETE FROM logins WHERE a ='{}'", svc)
    );
    assert_eq!(
        edit_login_query(&cipher, "mail".to_string(), "me".to_string(), "hunter2".to_string()),
        format!("UPDATE logins SET b = '{}', c = '{}' WHERE a ='{}'", user, pass, svc)
    );
    assert_eq!(
        new_login_query(&cipher, "mail".to_string(), "me".to_string(), "hunter2".to_string()),
        format!("INSERT INTO logins VALUES ({:?}, {:?}, {:?});", svc, user, pass)
    );
}

#[test]
fn fixed_queries() {
    assert_eq!(CREATE_TABLE_QUERY, "CREATE TABLE logins (a TEXT UNIQUE, b TEXT, c TEXT);");
    assert_eq!(LIST_LOGINS_QUERY, "SELECT a, b FROM logins");
}
