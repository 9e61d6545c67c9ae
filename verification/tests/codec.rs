use user_manager::date::Date;
use user_manager::hashing::hash_password;
use user_manager::persistence::decode_session;
use user_manager::persistence::encode_session;
use user_manager::persistence::restore_session;
use user_manager::persistence::SessionRestore;
use user_manager::user_manager::UserManager;
use user_manager::user_manager::UserState;

fn sample(password: &str) -> UserState {
    UserManager::new(
        "u".to_string(),
        "e@x".to_string(),
        password.to_string(),
        "N".to_string(),
        Date::new(1990, 1, 1).expect("a valid date"),
    )
}

fn authorized_sample() -> UserState {
    match sample("pw") {
        UserState::Unauthorized(m) => m.login("e@x", "pw").expect("correct credentials"),
        UserState::Authorized(_) => unreachable!(),
    }
}

#[test]
fn encoded_form_is_the_documented_layout() {
    let digest = hash_password("pw");
    let expected = format!("U1:u3:e@x64:{}1:N1990:1:1", digest);
    assert_eq!(encode_session(&sample("pw")), expected);
}

#[test]
fn encode_decode_round_trips_unauthorized() {
    let state = sample("pw");
    let blob = encode_session(&state);
    let back = decode_session(&blob).expect("an encoding must decode");
    assert_eq!(encode_session(&back), blob);
    match back {
        UserState::Unauthorized(_) => {}
        UserState::Authorized(_) => panic!("the tag must round-trip"),
    }
}

#[test]
fn encode_decode_round_trips_authorized() {
    let state = authorized_sample();
    let blob = encode_session(&state);
    let back = decode_session(&blob).expect("an encoding must decode");
    assert_eq!(encode_session(&back), blob);
    match back {
        UserState::Authorized(user) => assert_eq!(user.get_name(), "N"),
        UserState::Unauthorized(_) => panic!("the tag must round-trip"),
    }
}

#[test]
fn negative_years_round_trip() {
    let state = UserManager::new(
        "u".to_string(),
        "e@x".to_string(),
        "pw".to_string(),
        "N".to_string(),
        Date::new(-44, 3, 15).expect("a valid date"),
    );
    let blob = encode_session(&state);
    let back = decode_session(&blob).expect("an encoding must decode");
    assert_eq!(encode_session(&back), blob);
}

#[test]
fn awkward_field_contents_round_trip() {
    // fields holding colons, digits and non-ASCII text must survive verbatim
    let state = UserManager::new(
        "7:([".to_string(),
        "æøå@:9".to_string(),
        "p:w".to_string(),
        "".to_string(),
        Date::new(2000, 2, 29).expect("a leap day"),
    );
    let blob = encode_session(&state);
    let back = decode_session(&blob).expect("an encoding must decode");
    assert_eq!(encode_session(&back), blob);
}

#[test]
fn garbage_does_not_decode() {
    assert!(decode_session("").is_none());
    assert!(decode_session("X1:u3:e@x1:h1:N1990:1:1").is_none());
    assert!(decode_session("U").is_none());
    assert!(decode_session("hello world").is_none());
    assert!(decode_session("U9:u3:e@x1:h1:N1990:1:1").is_none());
}

#[test]
fn tampered_encodings_do_not_decode() {
    let blob = encode_session(&sample("pw"));
    let truncated = &blob[..blob.len() - 1];
    assert!(decode_session(truncated).is_none());
    let extended = format!("{}x", blob);
    assert!(decode_session(&extended).is_none());
    // appending a digit extends the day number to another valid date: the
    // result decodes, but to a different session, never to the original
    let day_extended = format!("{}9", blob);
    let reread = decode_session(&day_extended).expect("still a valid encoding");
    assert_ne!(encode_session(&reread), blob);
    let padded_length = blob.replacen("U1:", "U01:", 1);
    assert!(decode_session(&padded_length).is_none());
}

#[test]
fn serialized_form_never_holds_the_plaintext() {
    let blob = encode_session(&sample("password123"));
    assert!(!blob.contains("password123"));
    assert!(blob.contains(&hash_password("password123")));
    let blob = encode_session(&authorized_sample());
    assert!(!blob.contains("pw"));
}

#[test]
fn restore_resumes_only_a_stored_authorized_session() {
    let auth_blob = encode_session(&authorized_sample());
    match restore_session(true, Some(&auth_blob)) {
        SessionRestore::Resumed(user) => assert_eq!(user.get_name(), "N"),
        SessionRestore::Fresh { .. } => panic!("a stored authorized session must resume"),
    }
}

#[test]
fn restore_fails_safe_toward_logged_out() {
    // flag off: nothing to resume, nothing to clear
    match restore_session(false, None) {
        SessionRestore::Fresh { clear_stored } => assert!(!clear_stored),
        SessionRestore::Resumed(_) => panic!("nothing was stored"),
    }
    // flag on but no blob: clear the lying flag
    match restore_session(true, None) {
        SessionRestore::Fresh { clear_stored } => assert!(clear_stored),
        SessionRestore::Resumed(_) => panic!("nothing was stored"),
    }
    // flag on but the blob is garbage: clear both keys
    match restore_session(true, Some("not a session")) {
        SessionRestore::Fresh { clear_stored } => assert!(clear_stored),
        SessionRestore::Resumed(_) => panic!("garbage must not resume"),
    }
    // flag on but the blob holds an unauthorized session: never fail open
    let unauth_blob = encode_session(&sample("pw"));
    match restore_session(true, Some(&unauth_blob)) {
        SessionRestore::Fresh { clear_stored } => assert!(clear_stored),
        SessionRestore::Resumed(_) => panic!("an unauthorized blob must not resume"),
    }
}
