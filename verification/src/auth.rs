//! Web UI authentication: the password, the tokens issued on login, the
//! `vdf_auth` cookie, and what a request is answered.
//!
//! The state lives in an `Option<AuthState>`: `None` until the service is
//! initialised.  Random bytes (for tokens and generated passwords) are handed
//! in by the caller.

use crate::db::{hex_bytes, is_hex_char, lemma_hex_bytes_chars};
use crate::text::{
    ascii_lower, ascii_lower_exec, chars_equal, chars_of, eq_ignore_ascii_case, eq_str,
    leading_white, push_char, push_hex_fixed, split_on, string_of, trailing_white, trim_chars,
    trimmed, white_space,
};
use vstd::prelude::*;

verus! {

/// The name of the cookie that carries the token.
pub const COOKIE_NAME: &'static str = "vdf_auth";

/// The lifetime of the cookie, in days.
pub const COOKIE_MAX_AGE_DAYS: u64 = 30;

/// The characters generated passwords are drawn from (no look-alikes).
pub const PASSWORD_CHARS: &'static str = "abcdefghjkmnpqrstuvwxyzABCDEFGHJKMNPQRSTUVWXYZ23456789";

/// The state of the authentication service.
pub struct AuthState {
    /// The password; empty when authentication is disabled.
    pub password: String,
    /// Whether requests must carry a valid token.
    pub enabled: bool,
    /// The tokens issued so far.
    pub tokens: Vec<String>,
}

/// Whether `t` is among the tokens issued.
pub open spec fn has_token(a: AuthState, t: Seq<char>) -> bool {
    exists|i: int| 0 <= i < a.tokens@.len() && #[trigger] a.tokens@[i]@ == t
}

impl AuthState {
    /// A fresh service: the password is kept only when authentication is
    /// enabled; no token is issued yet.
    pub fn new(enabled: bool, password: String) -> (r: Self)
        ensures
            r.enabled == enabled,
            r.password@ == (if enabled {
                password@
            } else {
                Seq::empty()
            }),
            r.tokens@.len() == 0,
    {
        let password = if enabled {
            password
        } else {
            String::new()
        };
        AuthState { password, enabled, tokens: Vec::new() }
    }
}

/// `b` is `a` with the token `t` issued: same password and switch, and the
/// tokens of `a` with `t` added.
pub open spec fn issued(a: AuthState, b: AuthState, t: Seq<char>) -> bool {
    &&& b.password == a.password
    &&& b.enabled == a.enabled
    &&& forall|x: Seq<char>| has_token(b, x) <==> (has_token(a, x) || x == t)
}

/// The form posted by the login page.
pub struct LoginForm {
    pub password: String,
}

// ─── Passwords and tokens ────────────────────────────────────────────────────

/// The password made of ten random bytes: each byte picks a character of
/// `PASSWORD_CHARS` by its remainder modulo 54.
pub open spec fn password_from(random: Seq<u8>) -> Seq<char> {
    Seq::new(random.len(), |i: int| PASSWORD_CHARS@[(random[i] % 54) as int])
}

/// A ten-character password drawn from `PASSWORD_CHARS` by random bytes.
pub fn generate_password(random: &[u8; 10]) -> (r: String)
    ensures
        r@ == password_from(random@),
{
    proof {
        reveal_strlit("abcdefghjkmnpqrstuvwxyzABCDEFGHJKMNPQRSTUVWXYZ23456789");
    }
    let alphabet = chars_of(PASSWORD_CHARS);
    assert(alphabet@.len() == 54);
    let mut s = String::new();
    let mut i: usize = 0;
    while i < 10
        invariant
            i <= 10,
            alphabet@ == PASSWORD_CHARS@,
            alphabet@.len() == 54,
            s@ == password_from(random@).take(i as int),
        decreases 10 - i,
    {
        let c = alphabet[(random[i] % 54) as usize];
        push_char(&mut s, c);
        proof {
            assert(password_from(random@).take(i + 1) =~= password_from(random@).take(
                i as int,
            ).push(c));
        }
        i = i + 1;
    }
    proof {
        assert(password_from(random@).take(10) =~= password_from(random@));
    }
    s
}

/// A token: 32 random bytes as 64 lowercase hex digits.
pub fn generate_random_hex(random: &[u8; 32]) -> (r: String)
    ensures
        r@ == hex_bytes(random@),
{
    let mut s = String::new();
    let mut i: usize = 0;
    while i < 32
        invariant
            i <= 32,
            s@ == hex_bytes(random@.take(i as int)),
        decreases 32 - i,
    {
        push_hex_fixed(&mut s, random[i] as u128, 2);
        proof {
            assert(random@.take(i + 1).drop_last() =~= random@.take(i as int));
        }
        i = i + 1;
    }
    proof {
        assert(random@.take(32) =~= random@);
    }
    s
}

/// One step of the xorshift64 generator.
pub open spec fn xorshift(x: u64) -> u64 {
    let a = x ^ (x << 13u64);
    let b = a ^ (a >> 7u64);
    b ^ (b << 17u64)
}

/// The xorshift64 state after `n` steps from `x`.
pub open spec fn xorshift_after(x: u64, n: nat) -> u64
    decreases n,
{
    if n == 0 {
        x
    } else {
        xorshift(xorshift_after(x, (n - 1) as nat))
    }
}

/// Byte `i` of the fallback random bytes: the top byte of the xorshift64
/// state after `i + 1` steps from `seed ^ (pid << 32)`.
pub open spec fn fallback_byte(seed: u64, pid: u32, i: nat) -> u8 {
    (xorshift_after(seed ^ ((pid as u64) << 32u64), i + 1) >> 56u64) as u8
}

/// Random bytes for when the system source cannot be read: xorshift64
/// seeded with the clock's nanoseconds and the process id.
pub fn fallback_random_bytes(seed: u64, pid: u32, len: usize) -> (r: Vec<u8>)
    ensures
        r@.len() == len,
        forall|i: int| 0 <= i < len ==> r@[i] == fallback_byte(seed, pid, i as nat),
{
    let mut x: u64 = seed ^ ((pid as u64) << 32u64);
    let ghost x0 = x;
    let mut out: Vec<u8> = Vec::new();
    let mut i: usize = 0;
    while i < len
        invariant
            i <= len,
            out@.len() == i,
            x0 == seed ^ ((pid as u64) << 32u64),
            x == xorshift_after(x0, i as nat),
            forall|k: int| 0 <= k < i ==> out@[k] == fallback_byte(seed, pid, k as nat),
        decreases len - i,
    {
        x = x ^ (x << 13u64);
        x = x ^ (x >> 7u64);
        x = x ^ (x << 17u64);
        out.push((x >> 56u64) as u8);
        i = i + 1;
    }
    out
}

// ─── Initialisation ──────────────────────────────────────────────────────────

/// Authentication is on unless the setting reads `false`, in any ASCII case.
pub fn auth_enabled_from_setting(value: &str) -> (r: bool)
    ensures
        r == !eq_ignore_ascii_case(value@, "false"@),
{
    proof {
        reveal_strlit("false");
    }
    let v = chars_of(value);
    let f = chars_of("false");
    if v.len() != f.len() {
        return true;
    }
    let mut i: usize = 0;
    while i < v.len()
        invariant
            i <= v@.len() == f@.len(),
            f@ == "false"@,
            v@ == value@,
            forall|k: int| 0 <= k < i ==> ascii_lower(v@[k]) == ascii_lower(f@[k]),
        decreases v@.len() - i,
    {
        if ascii_lower_exec(v[i]) != ascii_lower_exec(f[i]) {
            return true;
        }
        i = i + 1;
    }
    false
}

/// The string value stored under `key` in a JSON object.
pub uninterp spec fn json_string_field(text: Seq<char>, key: Seq<char>) -> Option<Seq<char>>;

/// The string stored under `key` in the JSON object that `text` holds
/// (serde_json `from_str` into a `Value`, then `get` and `as_str`): `None`
/// when the text is not JSON, or the key is missing or not a string.  Its
/// result is named `json_string_field(text@, key@)`; the JSON grammar is
/// left to serde_json.
#[verifier::external_body]
fn json_string(text: &str, key: &str) -> (r: Option<String>)
    ensures
        match r {
            Some(s) => json_string_field(text@, key@) == Some(s@),
            None => json_string_field(text@, key@) is None,
        },
{
    match serde_json::from_str::<serde_json::Value>(text) {
        Ok(v) => match v.get(key) {
            Some(serde_json::Value::String(s)) => Some(s.clone()),
            _ => None,
        },
        Err(_) => None,
    }
}

/// The password to use, if one is given: the password setting, trimmed,
/// when it is not blank; else the non-empty `password` of the saved
/// credentials; else none, and a new one is to be generated.
pub open spec fn chosen_password(setting: Option<Seq<char>>, saved: Option<Seq<char>>) -> Option<
    Seq<char>,
> {
    let from_setting = match setting {
        Some(v) => if trimmed(v).len() > 0 {
            Some(trimmed(v))
        } else {
            None
        },
        None => None,
    };
    let from_saved = match saved {
        Some(text) => match json_string_field(text, "password"@) {
            Some(pw) => if pw.len() > 0 {
                Some(pw)
            } else {
                None
            },
            None => None,
        },
        None => None,
    };
    if from_setting is Some {
        from_setting
    } else {
        from_saved
    }
}

/// The view of an optional string.
pub open spec fn opt_view(o: Option<&str>) -> Option<Seq<char>> {
    match o {
        Some(s) => Some(s@),
        None => None,
    }
}

/// Chooses the password from the setting and the saved credentials file.
pub fn load_or_generate_password(setting: Option<&str>, saved: Option<&str>) -> (r: Option<
    String,
>)
    ensures
        match r {
            Some(p) => chosen_password(opt_view(setting), opt_view(saved)) == Some(p@),
            None => chosen_password(opt_view(setting), opt_view(saved)) is None,
        },
{
    if let Some(env_pw) = setting {
        let t = trim_chars(&chars_of(env_pw));
        if t.len() > 0 {
            return Some(string_of(&t));
        }
    }
    if let Some(text) = saved {
        if let Some(pw) = json_string(text, "password") {
            if !pw.as_str().is_empty() {
                return Some(pw);
            }
        }
    }
    None
}

// ─── Tokens ──────────────────────────────────────────────────────────────────

/// The answer to `validate_token`.
pub open spec fn token_valid(auth: Option<AuthState>, token: Seq<char>) -> bool {
    match auth {
        None => false,
        Some(a) => !a.enabled || has_token(a, token),
    }
}

/// The answer to `is_auth_enabled`.
pub open spec fn auth_on(auth: Option<AuthState>) -> bool {
    match auth {
        None => true,
        Some(a) => a.enabled,
    }
}

fn token_known(tokens: &Vec<String>, token: &String) -> (r: bool)
    ensures
        r == exists|i: int| 0 <= i < tokens@.len() && #[trigger] tokens@[i]@ == token@,
{
    let mut i: usize = 0;
    while i < tokens.len()
        invariant
            i <= tokens@.len(),
            forall|k: int| 0 <= k < i ==> tokens@[k]@ != token@,
        decreases tokens@.len() - i,
    {
        if tokens[i] == *token {
            return true;
        }
        i = i + 1;
    }
    false
}

/// Returns `true` if the token (from the `vdf_auth` cookie) is valid: any
/// token is when authentication is disabled; none is before initialisation.
pub fn validate_token(auth: &Option<AuthState>, token: &str) -> (r: bool)
    ensures
        r == token_valid(*auth, token@),
{
    match auth {
        None => false,
        Some(a) => {
            if !a.enabled {
                return true;
            }
            let t = token.to_owned();
            token_known(&a.tokens, &t)
        },
    }
}

/// Returns `true` if authentication is enabled (and before initialisation).
pub fn is_auth_enabled(auth: &Option<AuthState>) -> (r: bool)
    ensures
        r == auth_on(*auth),
{
    match auth {
        None => true,
        Some(a) => a.enabled,
    }
}

/// Checks a password.  When authentication is disabled the answer is
/// `"disabled"`; when the password is right a new token (the hex of the
/// random bytes) is issued and returned; otherwise, and before
/// initialisation, there is no token.  Only an issued token changes the
/// state, by adding that token.
pub fn login(auth: &mut Option<AuthState>, password: &str, random: &[u8; 32]) -> (r: Option<
    String,
>)
    ensures
        match *old(auth) {
            None => r is None && *final(auth) == *old(auth),
            Some(a) => if !a.enabled {
                r is Some && r->0@ == "disabled"@ && *final(auth) == *old(auth)
            } else if a.password@ != password@ {
                r is None && *final(auth) == *old(auth)
            } else {
                &&& r is Some
                &&& r->0@ == hex_bytes(random@)
                &&& match *final(auth) {
                    Some(b) => issued(a, b, hex_bytes(random@)),
                    None => false,
                }
            },
        },
{
    match auth.take() {
        None => None,
        Some(mut state) => {
            if !state.enabled {
                *auth = Some(state);
                return Some("disabled".to_owned());
            }
            let stored = chars_of(state.password.as_str());
            let given = chars_of(password);
            if !chars_equal(&stored, &given) {
                *auth = Some(state);
                return None;
            }
            let token = generate_random_hex(random);
            let ghost before = state;
            if !token_known(&state.tokens, &token) {
                state.tokens.push(token.clone());
                proof {
                    assert forall|t: Seq<char>|
                        has_token(state, t) <==> (has_token(before, t) || t == hex_bytes(
                            random@,
                        )) by {
                        if has_token(before, t) {
                            let i = choose|i: int|
                                0 <= i < before.tokens@.len() && #[trigger] before.tokens@[i]@
                                    == t;
                            assert(state.tokens@[i] == before.tokens@[i]);
                        }
                        if t == hex_bytes(random@) {
                            assert(state.tokens@[before.tokens@.len() as int]@ == t);
                        }
                        if has_token(state, t) {
                            let i = choose|i: int|
                                0 <= i < state.tokens@.len() && #[trigger] state.tokens@[i]@
                                    == t;
                            if i < before.tokens@.len() {
                                assert(before.tokens@[i] == state.tokens@[i]);
                            }
                        }
                    }
                }
            }
            *auth = Some(state);
            Some(token)
        },
    }
}

// ─── Requests ────────────────────────────────────────────────────────────────

/// The first of `parts`, from index `i` on, that names the auth cookie once
/// trimmed.
pub open spec fn first_cookie_part(parts: Seq<Seq<char>>, i: int) -> Option<Seq<char>>
    decreases parts.len() - i,
{
    if i < 0 || i >= parts.len() {
        None
    } else if names_cookie(parts[i]) {
        Some(parts[i])
    } else {
        first_cookie_part(parts, i + 1)
    }
}

/// The index of the first `c` in `s`, or -1.
pub open spec fn first_index(s: Seq<char>, c: char) -> int
    decreases s.len(),
{
    if s.len() == 0 {
        -1
    } else if s[0] == c {
        0
    } else if first_index(s.drop_first(), c) < 0 {
        -1
    } else {
        1 + first_index(s.drop_first(), c)
    }
}

/// The token in a `Cookie` header: in the first `;`-separated part that
/// starts (after trimming) with the cookie's name, the text after its first
/// `=`, trimmed.
pub open spec fn cookie_token(header: Seq<char>) -> Option<Seq<char>> {
    match first_cookie_part(split_on(header, ';'), 0) {
        None => None,
        Some(p) => if first_index(p, '=') < 0 {
            None
        } else {
            Some(trimmed(p.skip(first_index(p, '=') + 1)))
        },
    }
}

proof fn lemma_split_len(s: Seq<char>, sep: char)
    ensures
        split_on(s, sep).len() >= 1,
    decreases s.len(),
{
    if s.len() > 0 {
        lemma_split_len(s.drop_last(), sep);
    }
}

/// Extending a string keeps every finished piece of its split.
proof fn lemma_split_prefix(s: Seq<char>, sep: char, k: int, m: int)
    requires
        0 <= k <= m <= s.len(),
    ensures
        split_on(s.take(k), sep).len() <= split_on(s.take(m), sep).len(),
        forall|j: int|
            0 <= j < split_on(s.take(k), sep).len() - 1 ==> split_on(s.take(m), sep)[j]
                == split_on(s.take(k), sep)[j],
        k < m && s[k] == sep ==> split_on(s.take(m), sep)[split_on(s.take(k), sep).len() - 1]
            == split_on(s.take(k), sep).last(),
    decreases m - k,
{
    lemma_split_len(s.take(k), sep);
    if k < m {
        lemma_split_prefix(s, sep, k + 1, m);
        let a = s.take(k + 1);
        assert(a.drop_last() =~= s.take(k));
        assert(a.last() == s[k]);
        lemma_split_len(s.take(k), sep);
    }
}

fn is_cookie_part(part: &Vec<char>) -> (r: bool)
    ensures
        r == names_cookie(part@),
{
    let t = trim_chars(part);
    let name = chars_of(COOKIE_NAME);
    if t.len() < name.len() {
        return false;
    }
    let mut i: usize = 0;
    while i < name.len()
        invariant
            i <= name@.len() <= t@.len(),
            name@ == COOKIE_NAME@,
            t@ == trimmed(part@),
            forall|k: int| 0 <= k < i ==> name@[k] == t@[k],
        decreases name@.len() - i,
    {
        if name[i] != t[i] {
            return false;
        }
        i = i + 1;
    }
    true
}

pub(crate) proof fn lemma_first_index(s: Seq<char>, c: char, i: int)
    requires
        0 <= i <= s.len(),
        forall|k: int| 0 <= k < i ==> s[k] != c,
    ensures
        i < s.len() && s[i] == c ==> first_index(s, c) == i,
        i == s.len() ==> first_index(s, c) == -1,
    decreases i,
{
    if i > 0 {
        lemma_first_index(s.drop_first(), c, i - 1);
    }
}

/// The value of a cookie part: the text after its first `=`, trimmed.
fn part_value(part: &Vec<char>) -> (r: Option<String>)
    ensures
        match r {
            None => first_index(part@, '=') < 0,
            Some(v) => first_index(part@, '=') >= 0 && v@ == trimmed(
                part@.skip(first_index(part@, '=') + 1),
            ),
        },
{
    let mut i: usize = 0;
    while i < part.len()
        invariant
            i <= part@.len(),
            forall|k: int| 0 <= k < i ==> part@[k] != '=',
        decreases part@.len() - i,
    {
        if part[i] == '=' {
            proof {
                lemma_first_index(part@, '=', i as int);
            }
            let mut rest: Vec<char> = Vec::new();
            let mut j: usize = i + 1;
            while j < part.len()
                invariant
                    i + 1 <= j <= part@.len(),
                    rest@ == part@.subrange(i + 1, j as int),
                decreases part@.len() - j,
            {
                rest.push(part[j]);
                proof {
                    assert(part@.subrange(i + 1, j + 1) =~= part@.subrange(i + 1, j as int).push(
                        part@[j as int],
                    ));
                }
                j = j + 1;
            }
            proof {
                assert(rest@ =~= part@.skip(i + 1));
            }
            let t = trim_chars(&rest);
            return Some(string_of(&t));
        }
        i = i + 1;
    }
    proof {
        lemma_first_index(part@, '=', i as int);
    }
    None
}

/// The auth token carried by a `Cookie` header, if any.
pub fn cookie_token_of(header: &str) -> (r: Option<String>)
    ensures
        match r {
            None => cookie_token(header@) is None,
            Some(t) => cookie_token(header@) == Some(t@),
        },
{
    let cs = chars_of(header);
    let ghost s = cs@;
    let mut current: Vec<char> = Vec::new();
    let mut i: usize = 0;
    proof {
        assert(s.take(0) =~= Seq::<char>::empty());
    }
    while i < cs.len()
        invariant
            i <= s.len(),
            s == cs@,
            s == header@,
            current@ == split_on(s.take(i as int), ';').last(),
            forall|j: int|
                0 <= j < split_on(s.take(i as int), ';').len() - 1 ==> !names_cookie(
                    #[trigger] split_on(s.take(i as int), ';')[j],
                ),
        decreases s.len() - i,
    {
        proof {
            lemma_split_len(s.take(i as int), ';');
            assert(s.take(i + 1).drop_last() =~= s.take(i as int));
        }
        if cs[i] == ';' {
            if is_cookie_part(&current) {
                proof {
                    let p = split_on(s.take(i as int), ';');
                    let q = split_on(s, ';');
                    assert(s.take(s.len() as int) =~= s);
                    lemma_split_prefix(s, ';', i as int, s.len() as int);
                    assert forall|j: int| 0 <= j < p.len() - 1 implies !names_cookie(
                        #[trigger] q[j],
                    ) by {
                        assert(q[j] == p[j]);
                    }
                    lemma_first_cookie_found(q, 0, p.len() - 1);
                }
                return part_value(&current);
            }
            current = Vec::new();
        } else {
            current.push(cs[i]);
        }
        proof {
            let p = split_on(s.take(i as int), ';');
            let p2 = split_on(s.take(i + 1), ';');
            assert forall|j: int| 0 <= j < p2.len() - 1 implies !names_cookie(#[trigger] p2[j]) by {
                if j < p.len() - 1 {
                    assert(p2[j] == p[j]);
                } else {
                    assert(p2[j] == p.last());
                }
            }
        }
        i = i + 1;
    }
    proof {
        assert(s.take(s.len() as int) =~= s);
        lemma_split_len(s, ';');
    }
    if is_cookie_part(&current) {
        proof {
            lemma_first_cookie_found(split_on(s, ';'), 0, split_on(s, ';').len() - 1);
        }
        part_value(&current)
    } else {
        proof {
            lemma_first_cookie_absent(split_on(s, ';'), 0);
        }
        None
    }
}

/// Whether a piece of the header names the auth cookie.
pub open spec fn names_cookie(part: Seq<char>) -> bool {
    COOKIE_NAME@.is_prefix_of(trimmed(part))
}

/// The search finds the first piece that names the cookie.
proof fn lemma_first_cookie_found(q: Seq<Seq<char>>, i: int, n: int)
    requires
        0 <= i <= n < q.len(),
        forall|j: int| i <= j < n ==> !names_cookie(#[trigger] q[j]),
        names_cookie(q[n]),
    ensures
        first_cookie_part(q, i) == Some(q[n]),
    decreases n - i,
{
    if i < n {
        lemma_first_cookie_found(q, i + 1, n);
    }
}

/// The search finds nothing when no piece names the cookie.
proof fn lemma_first_cookie_absent(q: Seq<Seq<char>>, i: int)
    requires
        0 <= i <= q.len(),
        forall|j: int| i <= j < q.len() ==> !names_cookie(#[trigger] q[j]),
    ensures
        first_cookie_part(q, i) is None,
    decreases q.len() - i,
{
    if i < q.len() {
        lemma_first_cookie_absent(q, i + 1);
    }
}

/// What a request is answered.
#[derive(Debug, Clone, Copy, PartialEq, Eq, Structural)]
pub enum AuthOutcome {
    /// The request goes on to its handler.
    Proceed,
    /// An API call without a valid token: 401 with a JSON error.
    Unauthorized,
    /// A page request without a valid token: redirect to the login page.
    RedirectToLogin,
}

/// The answer to a request for `path` carrying the `Cookie` header `cookie`:
/// everything passes when authentication is off, and so do the login
/// endpoints; otherwise a valid token in the cookie lets the request pass,
/// and without one API calls are refused and pages redirect to the login.
pub open spec fn auth_outcome(
    auth: Option<AuthState>,
    path: Seq<char>,
    cookie: Option<Seq<char>>,
) -> AuthOutcome {
    if !auth_on(auth) {
        AuthOutcome::Proceed
    } else if path == "/login"@ || path == "/auth/login"@ {
        AuthOutcome::Proceed
    } else if (match cookie {
        Some(c) => match cookie_token(c) {
            Some(t) => token_valid(auth, t),
            None => false,
        },
        None => false,
    }) {
        AuthOutcome::Proceed
    } else if "/api/"@.is_prefix_of(path) {
        AuthOutcome::Unauthorized
    } else {
        AuthOutcome::RedirectToLogin
    }
}

fn has_prefix(cs: &Vec<char>, prefix: &str) -> (r: bool)
    ensures
        r == prefix@.is_prefix_of(cs@),
{
    let p = chars_of(prefix);
    if p.len() > cs.len() {
        return false;
    }
    let mut i: usize = 0;
    while i < p.len()
        invariant
            i <= p@.len() <= cs@.len(),
            p@ == prefix@,
            forall|k: int| 0 <= k < i ==> p@[k] == cs@[k],
        decreases p@.len() - i,
    {
        if p[i] != cs[i] {
            return false;
        }
        i = i + 1;
    }
    true
}

/// Decides what a request for `path`, with the given `Cookie` header, is
/// answered.
pub fn auth_middleware(auth: &Option<AuthState>, path: &str, cookie: Option<&str>) -> (r:
    AuthOutcome)
    ensures
        r == auth_outcome(*auth, path@, opt_view(cookie)),
{
    if !is_auth_enabled(auth) {
        return AuthOutcome::Proceed;
    }
    let p = chars_of(path);
    if eq_str(&p, "/login") || eq_str(&p, "/auth/login") {
        return AuthOutcome::Proceed;
    }
    let authenticated = match cookie {
        None => false,
        Some(header) => match cookie_token_of(header) {
            None => false,
            Some(tok) => validate_token(auth, tok.as_str()),
        },
    };
    if authenticated {
        return AuthOutcome::Proceed;
    }
    if has_prefix(&p, "/api/") {
        AuthOutcome::Unauthorized
    } else {
        AuthOutcome::RedirectToLogin
    }
}

// ─── Laws ────────────────────────────────────────────────────────────────────

/// A token that a login issued is valid.
pub proof fn lemma_issued_token_is_valid(a: AuthState, b: AuthState, t: Seq<char>)
    requires
        issued(a, b, t),
    ensures
        token_valid(Some(b), t),
{
    assert(has_token(b, t));
}

/// Tokens survive later logins: what was valid stays valid.
pub proof fn lemma_tokens_survive_login(a: AuthState, b: AuthState, t: Seq<char>, x: Seq<char>)
    requires
        issued(a, b, t),
        token_valid(Some(a), x),
    ensures
        token_valid(Some(b), x),
{
    if a.enabled {
        assert(has_token(a, x));
        assert(has_token(b, x));
    }
}

/// With authentication disabled every token is valid and every request
/// passes.
pub proof fn lemma_disabled_lets_everything_through(
    a: AuthState,
    token: Seq<char>,
    path: Seq<char>,
    cookie: Option<Seq<char>>,
)
    requires
        !a.enabled,
    ensures
        token_valid(Some(a), token),
        auth_outcome(Some(a), path, cookie) == AuthOutcome::Proceed,
{
}

/// Before initialisation no token is valid, and authentication counts as
/// enabled.
pub proof fn lemma_uninitialised(token: Seq<char>)
    ensures
        !token_valid(None, token),
        auth_on(None),
{
}

proof fn lemma_split_without_sep(s: Seq<char>, sep: char)
    requires
        forall|i: int| 0 <= i < s.len() ==> s[i] != sep,
    ensures
        split_on(s, sep) == seq![s],
    decreases s.len(),
{
    if s.len() > 0 {
        lemma_split_without_sep(s.drop_last(), sep);
        assert(s.drop_last().push(s.last()) =~= s);
        assert(seq![s.drop_last()].update(0, s.drop_last().push(s.last())) =~= seq![s]);
    } else {
        assert(s =~= Seq::<char>::empty());
    }
}

proof fn lemma_trimmed_plain(s: Seq<char>)
    requires
        s.len() > 0,
        !white_space(s[0]),
        !white_space(s.last()),
    ensures
        trimmed(s) == s,
{
    assert(leading_white(s) == 0);
    assert(s.skip(0) =~= s);
    assert(trailing_white(s) == 0);
    assert(s.take(s.len() as int) =~= s);
}

/// A request whose `Cookie` header is `vdf_auth=<token>`, for a token that
/// a login issued, passes.
pub proof fn lemma_issued_cookie_passes(
    a: AuthState,
    b: AuthState,
    random: Seq<u8>,
    path: Seq<char>,
)
    requires
        random.len() == 32,
        issued(a, b, hex_bytes(random)),
    ensures
        auth_outcome(
            Some(b),
            path,
            Some(COOKIE_NAME@ + seq!['='] + hex_bytes(random)),
        ) == AuthOutcome::Proceed,
{
    reveal_strlit("vdf_auth");
    let t = hex_bytes(random);
    lemma_hex_bytes_chars(random);
    let h = COOKIE_NAME@ + seq!['='] + t;
    assert(h.len() == 9 + t.len());
    assert forall|i: int| 0 <= i < h.len() implies h[i] != ';' by {
        if i >= 9 {
            assert(h[i] == t[i - 9]);
            assert(is_hex_char(t[i - 9]));
        }
    }
    lemma_split_without_sep(h, ';');
    assert(h[0] == 'v');
    assert(h.last() == t.last());
    assert(is_hex_char(t[t.len() - 1]));
    lemma_trimmed_plain(h);
    assert(COOKIE_NAME@.is_prefix_of(h)) by {
        assert forall|i: int| 0 <= i < COOKIE_NAME@.len() implies COOKIE_NAME@[i] == h[i] by {}
    }
    assert(names_cookie(h));
    assert(first_cookie_part(split_on(h, ';'), 0) == Some(h));
    lemma_first_index(h, '=', 8);
    assert(first_index(h, '=') == 8);
    assert(h.skip(9) =~= t);
    assert(is_hex_char(t[0]));
    lemma_trimmed_plain(t);
    assert(cookie_token(h) == Some(t));
    lemma_issued_token_is_valid(a, b, t);
}

} // verus!
