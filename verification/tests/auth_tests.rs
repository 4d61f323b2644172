use mediaorganizer::auth::{
    auth_enabled_from_setting, auth_middleware, cookie_token_of, fallback_random_bytes,
    generate_password, generate_random_hex, is_auth_enabled, load_or_generate_password, login,
    validate_token, AuthOutcome, AuthState, PASSWORD_CHARS,
};

fn enabled_state(pw: &str) -> Option<AuthState> {
    Some(AuthState::new(true, pw.to_string()))
}

#[test]
fn login_issues_a_token_that_validates() {
    let mut auth = enabled_state("secret");
    let random = [0xabu8; 32];
    let token = login(&mut auth, "secret", &random).unwrap();
    assert_eq!(token, "ab".repeat(32));
    assert!(validate_token(&auth, &token));
    assert!(!validate_token(&auth, "nope"));
}

#[test]
fn wrong_password_issues_nothing() {
    let mut auth = enabled_state("secret");
    assert!(login(&mut auth, "Secret", &[1u8; 32]).is_none());
    assert!(auth.as_ref().unwrap().tokens.is_empty());
}

#[test]
fn tokens_survive_later_logins() {
    let mut auth = enabled_state("pw");
    let t1 = login(&mut auth, "pw", &[1u8; 32]).unwrap();
    let t2 = login(&mut auth, "pw", &[2u8; 32]).unwrap();
    assert!(validate_token(&auth, &t1));
    assert!(validate_token(&auth, &t2));
    let again = login(&mut auth, "pw", &[1u8; 32]).unwrap();
    assert_eq!(again, t1);
    assert_eq!(auth.as_ref().unwrap().tokens.len(), 2);
}

#[test]
fn disabled_auth_accepts_everything() {
    let mut auth = Some(AuthState::new(false, "ignored".to_string()));
    assert_eq!(auth.as_ref().unwrap().password, "");
    assert!(validate_token(&auth, "anything"));
    assert!(!is_auth_enabled(&auth));
    assert_eq!(login(&mut auth, "x", &[0u8; 32]).as_deref(), Some("disabled"));
    assert_eq!(auth_middleware(&auth, "/api/files", None), AuthOutcome::Proceed);
}

#[test]
fn uninitialised_auth() {
    let mut auth: Option<AuthState> = None;
    assert!(!validate_token(&auth, "x"));
    assert!(is_auth_enabled(&auth));
    assert!(login(&mut auth, "x", &[0u8; 32]).is_none());
}

#[test]
fn generated_passwords_use_the_alphabet() {
    let pw = generate_password(&[0, 1, 53, 54, 255, 100, 7, 8, 9, 10]);
    let chars: Vec<char> = PASSWORD_CHARS.chars().collect();
    assert_eq!(chars.len(), 54);
    let expected: String = [0usize, 1, 53, 0, 255 % 54, 100 % 54, 7, 8, 9, 10].iter().map(|&i| chars[i]).collect();
    assert_eq!(pw, expected);
    assert_eq!(pw.len(), 10);
}

#[test]
fn random_hex_is_two_digits_per_byte() {
    let mut r = [0u8; 32];
    r[0] = 0x0f;
    r[31] = 0xa0;
    let h = generate_random_hex(&r);
    assert_eq!(h.len(), 64);
    assert!(h.starts_with("0f00"));
    assert!(h.ends_with("00a0"));
}

#[test]
fn fallback_bytes_follow_xorshift() {
    let seed = 123_456_789u64;
    let pid = 4242u32;
    let out = fallback_random_bytes(seed, pid, 16);
    let mut x = seed ^ ((pid as u64) << 32);
    for b in out {
        x ^= x << 13;
        x ^= x >> 7;
        x ^= x << 17;
        assert_eq!(b, (x >> 56) as u8);
    }
}

#[test]
fn auth_setting_parsing() {
    assert!(!auth_enabled_from_setting("false"));
    assert!(!auth_enabled_from_setting("FALSE"));
    assert!(!auth_enabled_from_setting("FaLsE"));
    assert!(auth_enabled_from_setting(""));
    assert!(auth_enabled_from_setting("no"));
    assert!(auth_enabled_from_setting(" false"));
}

#[test]
fn password_choice() {
    assert_eq!(load_or_generate_password(Some("  pw  "), None).as_deref(), Some("pw"));
    assert_eq!(load_or_generate_password(Some("   "), Some(r#"{"password":"saved"}"#)).as_deref(), Some("saved"));
    assert_eq!(load_or_generate_password(None, Some(r#"{"password":""}"#)), None);
    assert_eq!(load_or_generate_password(None, Some("not json")), None);
    assert_eq!(load_or_generate_password(None, Some(r#"{"password":5}"#)), None);
    assert_eq!(load_or_generate_password(None, None), None);
}

#[test]
fn cookie_parsing() {
    assert_eq!(cookie_token_of("vdf_auth=abc").as_deref(), Some("abc"));
    assert_eq!(cookie_token_of("theme=dark; vdf_auth= abc ;x=1").as_deref(), Some("abc"));
    assert_eq!(cookie_token_of("theme=dark").as_deref(), None);
    assert_eq!(cookie_token_of("vdf_auth").as_deref(), None);
    assert_eq!(cookie_token_of("vdf_auth_old=1; vdf_auth=2").as_deref(), Some("1"));
    assert_eq!(cookie_token_of("a=1;\tvdf_auth=x=y").as_deref(), Some("x=y"));
    assert_eq!(cookie_token_of("").as_deref(), None);
}

#[test]
fn requests_without_a_token() {
    let mut auth = enabled_state("pw");
    assert_eq!(auth_middleware(&auth, "/login", None), AuthOutcome::Proceed);
    assert_eq!(auth_middleware(&auth, "/auth/login", None), AuthOutcome::Proceed);
    assert_eq!(auth_middleware(&auth, "/api/scan", None), AuthOutcome::Unauthorized);
    assert_eq!(auth_middleware(&auth, "/", Some("vdf_auth=bad")), AuthOutcome::RedirectToLogin);
    let t = login(&mut auth, "pw", &[9u8; 32]).unwrap();
    let header = format!("other=1; vdf_auth={t}");
    assert_eq!(auth_middleware(&auth, "/api/scan", Some(&header)), AuthOutcome::Proceed);
    assert_eq!(auth_middleware(&auth, "/", Some(&header)), AuthOutcome::Proceed);
}
