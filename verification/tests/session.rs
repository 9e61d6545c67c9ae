use user_manager::date::Date;
use user_manager::hashing::hash_password;
use user_manager::user_manager::AuthError;
use user_manager::user_manager::UserManager;
use user_manager::user_manager::UserState;

fn birthday() -> Date {
    Date::new(1990, 1, 1).expect("a valid date")
}

fn john() -> UserState {
    UserManager::new(
        "john".to_string(),
        "john@doe.com".to_string(),
        "password123".to_string(),
        "John Doe".to_string(),
        birthday(),
    )
}

#[test]
fn create_starts_unauthorized() {
    match john() {
        UserState::Unauthorized(_) => {}
        UserState::Authorized(_) => panic!("a fresh account must start unauthorized"),
    }
}

#[test]
fn hash_is_deterministic() {
    assert_eq!(hash_password("password123"), hash_password("password123"));
    assert_eq!(hash_password(""), hash_password(""));
}

#[test]
fn hash_matches_sha256_hex() {
    // cross-check the trusted digest wrapper against sha2 used directly
    let mut hasher = <sha2::Sha256 as sha2::Digest>::new();
    sha2::Digest::update(&mut hasher, "password123".as_bytes());
    let expected = format!("{:x}", sha2::Digest::finalize(hasher));
    assert_eq!(hash_password("password123"), expected);
}

#[test]
fn hash_known_values() {
    // the SHA-256 digest of the empty string, a published constant
    assert_eq!(
        hash_password(""),
        "e3b0c44298fc1c149afbf4c8996fb92427ae41e4649b934ca495991b7852b855"
    );
    assert_eq!(hash_password("password123").len(), 64);
    // one-way sanity: the digest is not the plaintext handed back
    assert_ne!(hash_password("password123"), "password123");
}

#[test]
fn login_with_correct_credentials_succeeds() {
    let manager = match john() {
        UserState::Unauthorized(m) => m,
        UserState::Authorized(_) => unreachable!(),
    };
    match manager.login("john@doe.com", "password123") {
        Ok(UserState::Authorized(user)) => {
            assert_eq!(user.get_name(), "John Doe");
        }
        Ok(UserState::Unauthorized(_)) => panic!("login must authorize"),
        Err(_) => panic!("correct credentials must log in"),
    }
}

#[test]
fn login_with_wrong_password_fails() {
    let manager = match john() {
        UserState::Unauthorized(m) => m,
        UserState::Authorized(_) => unreachable!(),
    };
    match manager.login("john@doe.com", "wrong") {
        Err(AuthError::InvalidCredentials) => {}
        Ok(_) => panic!("a wrong password must be rejected"),
    }
}

#[test]
fn login_with_wrong_email_fails() {
    let manager = match john() {
        UserState::Unauthorized(m) => m,
        UserState::Authorized(_) => unreachable!(),
    };
    match manager.login("other@x.com", "password123") {
        Err(AuthError::InvalidCredentials) => {}
        Ok(_) => panic!("a wrong email must be rejected"),
    }
}

#[test]
fn error_message_is_fixed() {
    let wrong_password = match john() {
        UserState::Unauthorized(m) => match m.login("john@doe.com", "nope") {
            Err(e) => e,
            Ok(_) => unreachable!(),
        },
        UserState::Authorized(_) => unreachable!(),
    };
    let wrong_email = match john() {
        UserState::Unauthorized(m) => match m.login("other@x.com", "password123") {
            Err(e) => e,
            Ok(_) => unreachable!(),
        },
        UserState::Authorized(_) => unreachable!(),
    };
    // the message never says which check failed
    assert_eq!(wrong_password.message(), "Feil e-post eller passord");
    assert_eq!(wrong_email.message(), wrong_password.message());
}

#[test]
fn logout_returns_unauthorized() {
    let manager = match john() {
        UserState::Unauthorized(m) => m,
        UserState::Authorized(_) => unreachable!(),
    };
    let authorized = match manager.login("john@doe.com", "password123") {
        Ok(UserState::Authorized(user)) => user,
        _ => unreachable!(),
    };
    match authorized.logout() {
        UserState::Unauthorized(_) => {}
        UserState::Authorized(_) => panic!("logout must deauthorize"),
    }
}

#[test]
fn login_logout_cycle_restores_the_original_fields() {
    let original = john();
    let manager = match original.clone() {
        UserState::Unauthorized(m) => m,
        UserState::Authorized(_) => unreachable!(),
    };
    let authorized = match manager.login("john@doe.com", "password123") {
        Ok(UserState::Authorized(user)) => user,
        _ => unreachable!(),
    };
    let cycled = authorized.logout();
    // the persisted form is lossless, so equal encodings mean field equality
    assert_eq!(
        user_manager::persistence::encode_session(&cycled),
        user_manager::persistence::encode_session(&original)
    );
}

#[test]
fn cloned_handle_can_retry_after_failure() {
    let manager = match john() {
        UserState::Unauthorized(m) => m,
        UserState::Authorized(_) => unreachable!(),
    };
    assert!(manager.clone().login("john@doe.com", "typo").is_err());
    assert!(manager.login("john@doe.com", "password123").is_ok());
}
