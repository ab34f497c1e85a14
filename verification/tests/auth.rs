use std::collections::{HashMap, HashSet};

use argon2::password_hash::PasswordHash;
use lpframe::web::auth::{
    generate_passphrase, generate_token, hash_password, hash_password_with, passphrase_from,
    password_file, verify_password, Auth, Place, Slots, LOGIN_ATTEMPTS, LOGIN_WINDOW,
    MAX_VERIFICATIONS_IN_FLIGHT, MAX_SESSIONS, SESSION_LIFETIME, SWEEP_THRESHOLD,
};

const SECOND: u64 = 1_000_000_000;

const ALPHABET: &[u8] = b"abcdefghijkmnpqrstuvwxyz23456789";

fn auth() -> Auth {
    Auth::new(hash_password("pw").unwrap())
}

#[test]
fn a_hash_verifies_its_own_password_and_nothing_else() {
    let hash = hash_password("correct horse").unwrap();
    assert!(verify_password(&hash, "correct horse"));
    assert!(!verify_password(&hash, "correct horse "));
    assert!(!verify_password(&hash, ""));
}

#[test]
fn the_stored_hash_is_argon2id_at_the_owasp_minimum() {
    // Read back off the PHC string rather than off the constants, so a
    // change to the parameters cannot pass by editing the test's inputs.
    let hash = hash_password("x").unwrap();
    let parsed = PasswordHash::new(&hash).unwrap();
    assert_eq!(parsed.algorithm.as_str(), "argon2id");
    let params: HashMap<_, _> = parsed
        .params
        .iter()
        .map(|(k, v)| (k.as_str().to_string(), v.to_string()))
        .collect();
    assert_eq!(params.get("m").map(String::as_str), Some("19456"));
    assert_eq!(params.get("t").map(String::as_str), Some("2"));
    assert_eq!(params.get("p").map(String::as_str), Some("1"));
}

#[test]
fn the_same_password_hashes_differently_every_time() {
    // A per-hash salt, which is what stops one precomputation covering
    // every device the installer ever set up.
    assert_ne!(hash_password("same").unwrap(), hash_password("same").unwrap());
}

#[test]
fn a_salt_and_a_password_make_one_hash() {
    let salt = "c29tZXNhbHRzb21lc2FsdA";
    let a = hash_password_with("pw", salt).unwrap();
    assert_eq!(a, hash_password_with("pw", salt).unwrap());
    assert!(a.starts_with("$argon2id$v=19$m=19456,t=2,p=1$c29tZXNhbHRzb21lc2FsdA$"), "{a}");
    assert!(hash_password_with("pw", "!").is_err());
}

#[test]
fn what_is_no_hash_accepts_nothing() {
    assert!(!verify_password("", "pw"));
    assert!(!verify_password("plaintext", "plaintext"));
    assert!(!auth().verify("other"));
    assert!(auth().verify("pw"));
}

#[test]
fn a_generated_passphrase_is_unpredictable_and_readable() {
    let a = generate_passphrase();
    assert_eq!(a.len(), 23, "four groups of five and three separators");
    assert!(a.chars().all(|c| c == '-' || ALPHABET.contains(&(c as u8))));
    // No l/o/0/1, which is the whole point of the alphabet.
    assert!(!a.contains(['l', 'o', '0', '1']));

    let many: HashSet<String> = (0..64).map(|_| generate_passphrase()).collect();
    assert_eq!(many.len(), 64, "the generator repeated itself");
}

#[test]
fn a_passphrase_spells_its_bytes() {
    let bytes: Vec<u8> = (0..20).collect();
    assert_eq!(passphrase_from(&bytes), "abcde-fghij-kmnpq-rstuv");
}

#[test]
fn a_session_token_is_thirty_two_bytes_of_hex() {
    let t = generate_token();
    assert_eq!(t.len(), 64);
    assert!(t.chars().all(|c| c.is_ascii_hexdigit()));
    assert_ne!(t, generate_token());
}

#[test]
fn only_an_issued_token_validates() {
    let mut auth = auth();
    let now = 0;
    let token = auth.issue(now);
    assert!(auth.validate(&token, now));

    assert!(!auth.validate("", now));
    assert!(!auth.validate(&"0".repeat(64), now));
    // A prefix of a real token must not pass, however long.
    assert!(!auth.validate(&token[..63], now));
}

#[test]
fn a_session_expires_and_is_forgotten() {
    let mut auth = auth();
    let now = 5 * SECOND;
    let token = auth.issue(now);
    let later = now + SESSION_LIFETIME + SECOND;
    assert!(!auth.validate(&token, later));
    assert_eq!(auth.session_count(), 0, "the expired session was retained");
}

#[test]
fn revoking_a_session_ends_it() {
    let mut auth = auth();
    let now = 0;
    let a = auth.issue(now);
    let b = auth.issue(now);
    auth.revoke(&a);
    assert!(!auth.validate(&a, now));
    assert!(auth.validate(&b, now), "logout ended somebody else's session");
}

#[test]
fn the_session_set_is_capped() {
    let mut auth = auth();
    let now = 0;
    let first = auth.issue(now);
    for _ in 0..MAX_SESSIONS {
        auth.issue(now);
    }
    assert_eq!(auth.session_count(), MAX_SESSIONS);
    assert!(!auth.validate(&first, now), "the oldest should have gone");
}

#[test]
fn five_attempts_a_minute_per_address_and_then_no_more() {
    let mut auth = auth();
    let t0 = 100 * SECOND;
    let ip = "192.0.2.7";

    for i in 0..LOGIN_ATTEMPTS {
        assert!(auth.note_attempt(ip, t0), "attempt {i} refused too early");
    }
    assert!(!auth.note_attempt(ip, t0), "a sixth attempt got through");

    // A different address has its own budget.
    assert!(auth.note_attempt("192.0.2.8", t0));

    // Still refused inside the window, allowed once it has rolled past.
    assert!(!auth.note_attempt(ip, t0 + 59 * SECOND));
    assert!(auth.note_attempt(ip, t0 + 61 * SECOND));
}

#[test]
fn the_address_table_does_not_grow_without_bound() {
    // The attacker this models has a whole IPv6 /64 and uses each address
    // once, which is exactly the case per-address limiting cannot see.
    let mut auth = auth();
    let t0 = 0;
    for i in 0..(SWEEP_THRESHOLD as u64 * 4) {
        auth.note_attempt(&format!("2001:db8::{i:x}"), t0);
    }
    let grown = auth.address_count();

    // One more attempt after the window has rolled sweeps every stale
    // entry rather than adding to them.
    assert!(auth.note_attempt("2001:db8:1::1", t0 + LOGIN_WINDOW + SECOND));
    let after = auth.address_count();
    assert!(
        after < grown && after == 1,
        "{grown} entries became {after}; stale addresses were retained"
    );
}

#[test]
fn only_a_bounded_number_of_verifications_run_at_once() {
    // Argon2 at 19 MiB times tokio's 512 blocking threads is more memory
    // than the device has, so the cap is the thing standing between a
    // login flood and an OOM.
    let mut slots = Slots::new();
    for i in 0..MAX_VERIFICATIONS_IN_FLIGHT {
        assert_eq!(slots.ask(0, 0), Place::Check, "slot {i} should have been free");
    }
    // One that finds none waits out its five seconds and is then refused.
    assert_eq!(slots.ask(SECOND, SECOND), Place::Wait(5 * SECOND));
    assert_eq!(slots.ask(SECOND, 4 * SECOND), Place::Wait(2 * SECOND));
    assert_eq!(slots.ask(SECOND, 6 * SECOND), Place::GiveUp);

    slots.release();
    assert_eq!(slots.ask(0, 6 * SECOND), Place::Check, "a released slot was not reusable");
}

#[test]
fn a_successful_login_clears_the_failure_budget() {
    let mut auth = auth();
    let t0 = 0;
    let ip = "192.0.2.7";
    for _ in 0..LOGIN_ATTEMPTS {
        auth.note_attempt(ip, t0);
    }
    auth.clear_attempts(ip);
    assert!(auth.note_attempt(ip, t0), "mistyping twice locked the owner out");
}

#[test]
fn the_password_file_is_beside_the_override() {
    let f = password_file("/var/lib/lpframe", "abcde-fghij");
    assert_eq!(f.path, "/var/lib/lpframe/web-password.txt");
    assert_eq!(f.contents, "abcde-fghij\n");
    assert_eq!(f.mode, 0o600);
}
