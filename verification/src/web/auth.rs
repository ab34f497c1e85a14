//! Password and session handling for the web interface.
//!
//! # What this defends against
//!
//! Other people and other devices on the same network. That is the whole
//! claim. The page exposes listening history and every device setting, and an
//! unauthenticated page would hand both to anything that can reach the port,
//! including a guest's phone and anything already compromised on the network.
//!
//! # What it deliberately does not defend against
//!
//! * **Anyone who can watch the wire.** This is plain HTTP. The password
//!   crosses the network in the clear on every login, and the session cookie
//!   crosses it on every request.
//! * **Anyone with the device in their hands, or a shell on it.** The
//!   generated password is in a file on the device, by design, because the
//!   alternative is a device nobody can log into.
//! * **The internet.** There is no WAN mode.
//! * **Offline cracking of a stolen hash.** Argon2id at the OWASP minimum
//!   makes it expensive rather than impossible. A 100-bit generated
//!   passphrase is what actually carries that.
//!
//! # Choices worth defending
//!
//! * **Server-side sessions, not signed cookies.** A set held in memory is
//!   simpler to reason about, and it means every session dies when the daemon
//!   restarts.
//! * **Constant-time comparison** of the presented token against each live
//!   session, so the response time says nothing about how much of a guessed
//!   token was right.
//! * **Rate limiting on address, not on account.** There is one account.
//! * **A hard cap on verifications in flight, independently of the address
//!   limit.** An attacker on the network has as many addresses as they want.
//!   [`Slots`] is what actually bounds the memory; the address limit sits on
//!   top of it.

use argon2::password_hash::{PasswordHash, PasswordHasher, PasswordVerifier, SaltString};
use argon2::{Algorithm, Argon2, Params, Version};
use rand::rngs::OsRng;
use rand::RngCore;
use subtle::ConstantTimeEq;
use vstd::prelude::*;
use vstd::utf8::{encode_utf8, encode_utf8_decode_utf8};

use crate::artwork::{join_path, joined};
use crate::strings::{
    begins_with, concat, decimal, hex, hex_length, is_digit, occurs_at, same, stands_at, to_chars,
    to_hex,
};

verus! {

broadcast use vstd::seq::group_seq_axioms;

/// OWASP's minimum Argon2id parameters: 19 MiB, two passes, one lane.
///
/// Memory is the expensive dimension for an attacker with GPUs and the cheap
/// one for us.
pub const MEMORY_KIB: u32 = 19456;

pub const ITERATIONS: u32 = 2;

pub const PARALLELISM: u32 = 1;

/// Failed logins allowed per client address per [`LOGIN_WINDOW`].
pub const LOGIN_ATTEMPTS: usize = 5;

/// In nanoseconds, as all moments here.
pub const LOGIN_WINDOW: u64 = 60_000_000_000;

/// Password verifications permitted to run at once, across all addresses.
///
/// Two, because two is enough that the owner never waits behind anyone and
/// small enough that the worst case is 38 MiB.
pub const MAX_VERIFICATIONS_IN_FLIGHT: usize = 2;

/// How long a login waits for a verification slot before giving up, in
/// nanoseconds.
///
/// Long enough that a queue of legitimate logins all succeed, short enough
/// that a flood does not hold connections open indefinitely.
pub const VERIFY_WAIT: u64 = 5_000_000_000;

/// Addresses tracked for rate limiting at once.
pub const MAX_TRACKED_ADDRESSES: usize = 4096;

/// Above this many entries, sweep the whole table before adding another.
pub const SWEEP_THRESHOLD: usize = 256;

/// How long a session lives in seconds, matching the cookie's expiry.
pub const SESSION_LIFETIME_SECS: u64 = 2_592_000;

/// The same in nanoseconds.
pub const SESSION_LIFETIME: u64 = 2_592_000_000_000_000;

/// Live sessions kept. Enough for a phone, a laptop and a tablet several
/// times over; the cap exists so the constant-time scan stays bounded and a
/// login loop cannot grow the set without limit.
pub const MAX_SESSIONS: usize = 16;

/// The file the generated passphrase is written to, beside the local config.
pub const PASSWORD_FILE_NAME: &'static str = "web-password.txt";

/// The mode of that file.
pub const PASSWORD_FILE_MODE: u32 = 0o600;

// --- hashing --------------------------------------------------------------

/// The PHC string of a password under Argon2id version 19, or why it cannot be
/// made. The salt is in B64, the memory in KiB.
pub uninterp spec fn argon2id(
    password: Seq<u8>,
    salt: Seq<char>,
    memory_kib: u32,
    iterations: u32,
    lanes: u32,
) -> Result<Seq<char>, Seq<char>>;

/// How such a string begins: the algorithm and its version, the parameters,
/// and the salt.
pub open spec fn phc_head(
    salt: Seq<char>,
    memory_kib: u32,
    iterations: u32,
    lanes: u32,
) -> Seq<char> {
    "$argon2id$v=19$m="@ + decimal(memory_kib as nat) + ",t="@ + decimal(iterations as nat) + ",p="@
        + decimal(lanes as nat) + "$"@ + salt + "$"@
}

/// Whether a stored PHC string accepts a password.
pub uninterp spec fn argon2_accepts(stored: Seq<char>, password: Seq<u8>) -> bool;

/// Whether a PHC string does not ask for an absurd number of lanes: `p=` is
/// nowhere followed by nine digits.
pub open spec fn tame(stored: Seq<char>) -> bool {
    forall|i: int| #[trigger] occurs_at(stored, "p="@, i) ==> !nine_digits(stored, i + 2)
}

/// Whether nine digits stand in a text at a place.
pub open spec fn nine_digits(s: Seq<char>, at: int) -> bool {
    at + 9 <= s.len() && forall|k: int| at <= k < at + 9 ==> is_digit(#[trigger] s[k])
}

/// Calls `SaltString::generate` of password-hash with the operating system's
/// entropy source. The salt is random: nothing is claimed of it.
#[verifier::external_body]
fn fresh_salt() -> (r: String) {
    SaltString::generate(&mut OsRng).as_str().to_owned()
}

/// Calls `Argon2::hash_password` of argon2, with `Params::new` for the
/// parameters. The result is a function of the arguments, named by
/// [`argon2id`]; where there is one, verifying it against the same password
/// succeeds, since verifying computes the same output from the salt and the
/// parameters in the string; the string begins as [`phc_head`] says; and the
/// only `p=` in it is that of the lanes.
#[verifier::external_body]
fn argon2_hash(
    password: &[u8],
    salt: &str,
    memory_kib: u32,
    iterations: u32,
    lanes: u32,
) -> (r: Result<String, String>)
    requires
        lanes <= 0xff_ffff,
    ensures
        argon2id(password@, salt@, memory_kib, iterations, lanes) == (match r {
            Ok(h) => Ok::<Seq<char>, Seq<char>>(h@),
            Err(e) => Err::<Seq<char>, Seq<char>>(e@),
        }),
        r matches Ok(h) ==> argon2_accepts(h@, password@) && tame(h@) && begins_with(
            h@,
            phc_head(salt@, memory_kib, iterations, lanes),
        ),
{
    let salt = SaltString::from_b64(salt).map_err(|e| e.to_string())?;
    let params = Params::new(memory_kib, iterations, lanes, None).map_err(|e| e.to_string())?;
    let hasher = Argon2::new(Algorithm::Argon2id, Version::V0x13, params);
    let hash = hasher.hash_password(password, &salt).map_err(|e| e.to_string())?;
    Ok(hash.to_string())
}

/// Calls `PasswordHash::new` of password-hash and `Argon2::verify_password` of
/// argon2. Whether it succeeds is a function of the string, which carries the
/// parameters, and the password; it is named by [`argon2_accepts`]. A string
/// that does not parse accepts nothing, and one that does not begin with a `$`
/// does not parse. The number of lanes in the string must
/// not be absurd: `Params::new` multiplies it before it looks at its range.
#[verifier::external_body]
fn argon2_verify(stored: &str, password: &[u8]) -> (r: bool)
    requires
        tame(stored@),
    ensures
        r == argon2_accepts(stored@, password@),
        !begins_with(stored@, "$"@) ==> !r,
{
    match PasswordHash::new(stored) {
        Ok(parsed) => Argon2::default().verify_password(password, &parsed).is_ok(),
        Err(_) => false,
    }
}

/// Calls `RngCore::fill_bytes` of rand on the operating system's entropy
/// source. It fills as many bytes as there is room for; which ones is random.
#[verifier::external_body]
fn random_bytes(n: usize) -> (r: Vec<u8>)
    requires
        n <= isize::MAX,
    ensures
        r@.len() == n,
{
    let mut bytes = vec![0u8; n];
    OsRng.fill_bytes(&mut bytes);
    bytes
}

/// Calls `ConstantTimeEq::ct_eq` of subtle on two byte strings. It says
/// whether they are equal, in a time that depends on their lengths only.
#[verifier::external_body]
fn same_secret(a: &[u8], b: &[u8]) -> (r: bool)
    ensures
        r == (a@ == b@),
{
    bool::from(a.ct_eq(b))
}

fn is_tame(stored: &str) -> (r: bool)
    ensures
        r == tame(stored@),
{
    let c = to_chars(stored);
    let needle = to_chars("p=");
    proof {
        reveal_strlit("p=");
    }
    let mut i: usize = 0;
    while i < c.len()
        invariant
            c@ == stored@,
            needle@ == "p="@,
            needle@.len() == 2,
            i <= c@.len(),
            forall|k: int|
                k < i && #[trigger] occurs_at(stored@, "p="@, k) ==> !nine_digits(stored@, k + 2),
        decreases c.len() - i,
    {
        if stands_at(&c, &needle, i) && c.len() - i >= 11 {
            let mut k: usize = i + 2;
            while k < i + 11 && '0' <= c[k] && c[k] <= '9'
                invariant
                    i + 2 <= k <= i + 11 <= c@.len(),
                    c@ == stored@,
                    forall|j: int| i + 2 <= j < k ==> is_digit(#[trigger] stored@[j]),
                decreases c.len() - k,
            {
                k = k + 1;
            }
            if k == i + 11 {
                assert(occurs_at(stored@, "p="@, i as int));
                assert(nine_digits(stored@, i + 2));
                return false;
            }
            assert(!is_digit(stored@[k as int]));
        }
        i = i + 1;
    }
    assert forall|k: int| #[trigger] occurs_at(stored@, "p="@, k) implies !nine_digits(
        stored@,
        k + 2,
    ) by {}
    true
}

/// The length of a byte string decides nothing else: two texts are equal if
/// and only if their bytes are.
proof fn bytes_tell_texts_apart(a: Seq<char>, b: Seq<char>)
    ensures
        (encode_utf8(a) == encode_utf8(b)) == (a == b),
{
    encode_utf8_decode_utf8(a);
    encode_utf8_decode_utf8(b);
}

/// The PHC string of a password with the parameters used here.
pub open spec fn phc(password: Seq<char>, salt: Seq<char>) -> Result<Seq<char>, Seq<char>> {
    argon2id(encode_utf8(password), salt, MEMORY_KIB, ITERATIONS, PARALLELISM)
}

/// Whether a string is the PHC string of a password with the parameters used
/// here, for some salt.
pub open spec fn is_hash_of(hash: Seq<char>, password: Seq<char>) -> bool {
    exists|salt: Seq<char>| #[trigger]
        phc(password, salt) == Ok::<Seq<char>, Seq<char>>(hash) && begins_with(
            hash,
            phc_head(salt, MEMORY_KIB, ITERATIONS, PARALLELISM),
        )
}

/// Hash a password for storage, with a given salt. Returns a PHC string, salt
/// included, which accepts that password.
pub fn hash_password_with(password: &str, salt: &str) -> (r: Result<String, String>)
    ensures
        match r {
            Ok(h) => {
                &&& phc(password@, salt@) == Ok::<Seq<char>, Seq<char>>(h@)
                &&& begins_with(h@, phc_head(salt@, MEMORY_KIB, ITERATIONS, PARALLELISM))
                &&& accepted(h@, password@)
            },
            Err(e) => phc(password@, salt@) matches Err(why) && e@ == "hashing the web password: "@
                + why,
        },
{
    match argon2_hash(password.as_bytes(), salt, MEMORY_KIB, ITERATIONS, PARALLELISM) {
        Ok(h) => Ok(h),
        Err(e) => Err(concat("hashing the web password: ", e.as_str())),
    }
}

/// Hash a password for storage, with a fresh salt.
pub fn hash_password(password: &str) -> (r: Result<String, String>)
    ensures
        match r {
            Ok(h) => is_hash_of(h@, password@) && accepted(h@, password@),
            Err(e) => exists|salt: Seq<char>| #[trigger]
                phc(password@, salt) matches Err(why) && e@ == "hashing the web password: "@ + why,
        },
{
    let salt = fresh_salt();
    let r = hash_password_with(password, salt.as_str());
    assert(phc(password@, salt@) == phc(password@, salt@));
    r
}

/// Whether a stored PHC string accepts a password. One that asks for an
/// absurd number of lanes accepts none.
pub open spec fn accepted(stored: Seq<char>, password: Seq<char>) -> bool {
    tame(stored) && argon2_accepts(stored, encode_utf8(password))
}

/// Verify a password against a stored PHC string.
///
/// Costs about 19 MiB and tens of milliseconds by design. An unparseable hash
/// is a broken config, not a reason to let anyone in. That a hash accepts no
/// password but its own is a matter of the hash function, and not stated.
pub fn verify_password(stored: &str, password: &str) -> (r: bool)
    ensures
        r == accepted(stored@, password@),
        !begins_with(stored@, "$"@) ==> !r,
{
    is_tame(stored) && argon2_verify(stored, password.as_bytes())
}

// --- secrets --------------------------------------------------------------

/// Characters that survive being read off a terminal and typed on a phone: no
/// `l`, `o`, `0` or `1`. Exactly 32 of them, which is what makes the mapping
/// below unbiased.
pub open spec fn alphabet() -> Seq<char> {
    "abcdefghijkmnpqrstuvwxyz23456789"@
}

/// The characters for some bytes.
pub open spec fn readable(bytes: Seq<u8>) -> Seq<char> {
    bytes.map_values(|b: u8| alphabet()[(b % 32) as int])
}

/// The passphrase for twenty bytes: four groups of five characters.
pub open spec fn phrase(bytes: Seq<u8>) -> Seq<char> {
    readable(bytes.subrange(0, 5)) + "-"@ + readable(bytes.subrange(5, 10)) + "-"@ + readable(
        bytes.subrange(10, 15),
    ) + "-"@ + readable(bytes.subrange(15, 20))
}

fn push_group(out: &mut String, bytes: &[u8], from: usize)
    requires
        from + 5 <= bytes@.len(),
    ensures
        final(out)@ == old(out)@ + readable(bytes@.subrange(from as int, from + 5)),
{
    let letters = to_chars("abcdefghijkmnpqrstuvwxyz23456789");
    proof {
        reveal_strlit("abcdefghijkmnpqrstuvwxyz23456789");
    }
    let ghost group = readable(bytes@.subrange(from as int, from + 5));
    let n: usize = bytes.len();
    let mut i: usize = 0;
    assert(old(out)@ + group.take(0) == old(out)@);
    while i < 5
        invariant
            i <= 5,
            n == bytes@.len(),
            from + 5 <= n,
            letters@ == alphabet(),
            letters@.len() == 32,
            group == readable(bytes@.subrange(from as int, from + 5)),
            out@ == old(out)@ + group.take(i as int),
        decreases 5 - i,
    {
        let at: usize = (bytes[from + i] % 32) as usize;
        let ghost before = out@;
        out.push(letters[at]);
        assert(group[i as int] == alphabet()[(bytes@[from + i] % 32) as int]);
        assert(group.take(i + 1) == group.take(i as int).push(group[i as int]));
        assert(out@ == old(out)@ + group.take(i + 1));
        i = i + 1;
    }
    assert(group.take(5) == group);
}

/// The passphrase for some random bytes, grouped for reading aloud.
///
/// 32 divides 256 exactly, so this is uniform. With any other alphabet length
/// it would quietly favour the first few characters.
pub fn passphrase_from(bytes: &[u8]) -> (r: String)
    requires
        bytes@.len() == 20,
    ensures
        r@ == phrase(bytes@),
        r@.len() == 23,
{
    proof {
        reveal_strlit("-");
    }
    let mut out = String::new();
    push_group(&mut out, bytes, 0);
    out.append("-");
    push_group(&mut out, bytes, 5);
    out.append("-");
    push_group(&mut out, bytes, 10);
    out.append("-");
    push_group(&mut out, bytes, 15);
    assert(out@ == phrase(bytes@));
    out
}

/// Whether a text is a passphrase: that of some twenty bytes.
pub open spec fn is_passphrase(s: Seq<char>) -> bool {
    exists|bytes: Seq<u8>| bytes.len() == 20 && s == #[trigger] phrase(bytes)
}

/// A fresh passphrase: 100 bits from the operating system's entropy source.
pub fn generate_passphrase() -> (r: String)
    ensures
        r@.len() == 23,
        is_passphrase(r@),
{
    passphrase_from(&random_bytes(20))
}

/// Whether a text is a session token: thirty-two bytes of hexadecimal.
pub open spec fn is_token(s: Seq<char>) -> bool {
    exists|bytes: Seq<u8>| bytes.len() == 32 && s == #[trigger] hex(bytes)
}

/// A fresh session token.
pub fn generate_token() -> (r: String)
    ensures
        r@.len() == 64,
        is_token(r@),
{
    let bytes = random_bytes(32);
    proof {
        hex_length(bytes@);
    }
    to_hex(&bytes)
}

/// A file that is to be written.
#[derive(Debug)]
pub struct SecretFile {
    pub path: String,
    pub contents: String,
    pub mode: u32,
}

/// The file in which the generated passphrase can be read again.
///
/// Only its owner can read it, and there is nothing else in it: it is the one
/// place on the device where the plaintext exists.
pub fn password_file(dir: &str, passphrase: &str) -> (r: SecretFile)
    ensures
        r.path@ == joined(dir@, PASSWORD_FILE_NAME@),
        r.contents@ == passphrase@ + "\n"@,
        r.mode == PASSWORD_FILE_MODE,
{
    SecretFile {
        path: join_path(dir, PASSWORD_FILE_NAME),
        contents: concat(passphrase, "\n"),
        mode: PASSWORD_FILE_MODE,
    }
}

// --- sessions -------------------------------------------------------------

/// A login that has not been ended.
#[derive(Debug)]
pub struct Session {
    token: String,
    expires: u64,
}

/// Sessions as values: token, and the moment when it expires.
pub open spec fn sessions_view(s: Seq<Session>) -> Seq<(Seq<char>, u64)> {
    s.map_values(|x: Session| x.view())
}

impl View for Session {
    type V = (Seq<char>, u64);

    closed spec fn view(&self) -> (Seq<char>, u64) {
        (self.token@, self.expires)
    }
}

/// The sessions that have not expired.
pub open spec fn live(s: Seq<(Seq<char>, u64)>, now: u64) -> Seq<(Seq<char>, u64)>
    decreases s.len(),
{
    if s.len() == 0 {
        s
    } else if s.last().1 > now {
        live(s.drop_last(), now).push(s.last())
    } else {
        live(s.drop_last(), now)
    }
}

/// The sessions without those of a token.
pub open spec fn without(s: Seq<(Seq<char>, u64)>, token: Seq<char>) -> Seq<(Seq<char>, u64)>
    decreases s.len(),
{
    if s.len() == 0 {
        s
    } else if s.last().0 != token {
        without(s.drop_last(), token).push(s.last())
    } else {
        without(s.drop_last(), token)
    }
}

/// The sessions after one was added: the oldest goes if there are too many.
pub open spec fn admitted(
    s: Seq<(Seq<char>, u64)>,
    token: Seq<char>,
    now: u64,
) -> Seq<(Seq<char>, u64)> {
    let kept = live(s, now);
    (if kept.len() >= MAX_SESSIONS {
        kept.skip(1)
    } else {
        kept
    }).push((token, (now + SESSION_LIFETIME) as u64))
}

/// Whether a token names one of some sessions.
pub open spec fn names(s: Seq<(Seq<char>, u64)>, token: Seq<char>) -> bool {
    exists|i: int| 0 <= i < s.len() && (#[trigger] s[i]).0 == token
}

// --- attempts -------------------------------------------------------------

/// The recent attempts of one address.
#[derive(Debug)]
pub struct Attempts {
    address: String,
    seen: Vec<u64>,
}

impl Attempts {
    spec fn pair(self) -> (Seq<char>, Seq<u64>) {
        (self.address@, self.seen@)
    }
}

spec fn pairs(a: Seq<Attempts>) -> Seq<(Seq<char>, Seq<u64>)> {
    a.map_values(|x: Attempts| x.pair())
}

/// No address has two entries.
spec fn distinct(p: Seq<(Seq<char>, Seq<u64>)>) -> bool {
    forall|i: int, j: int|
        0 <= i < p.len() && 0 <= j < p.len() && (#[trigger] p[i]).0 == (#[trigger] p[j]).0 ==> i
            == j
}

spec fn is_at(p: Seq<(Seq<char>, Seq<u64>)>, a: Seq<char>, i: int) -> bool {
    0 <= i < p.len() && p[i].0 == a
}

/// The entries as a map from address to attempts.
spec fn table(p: Seq<(Seq<char>, Seq<u64>)>) -> Map<Seq<char>, Seq<u64>> {
    Map::new(
        |a: Seq<char>| p.map_values(|x: (Seq<char>, Seq<u64>)| x.0).contains(a),
        |a: Seq<char>| p[choose|i: int| is_at(p, a, i)].1,
    )
}

proof fn table_holds(p: Seq<(Seq<char>, Seq<u64>)>, i: int)
    requires
        distinct(p),
        0 <= i < p.len(),
    ensures
        table(p).contains_key(p[i].0),
        table(p)[p[i].0] == p[i].1,
{
    let keys = p.map_values(|x: (Seq<char>, Seq<u64>)| x.0);
    assert(keys[i] == p[i].0);
    assert(keys.contains(p[i].0));
    assert(is_at(p, p[i].0, i));
    let j = choose|j: int| is_at(p, p[i].0, j);
    assert(is_at(p, p[i].0, j));
}

proof fn table_finds(p: Seq<(Seq<char>, Seq<u64>)>, a: Seq<char>) -> (i: int)
    requires
        table(p).contains_key(a),
    ensures
        0 <= i < p.len(),
        p[i].0 == a,
{
    let keys = p.map_values(|x: (Seq<char>, Seq<u64>)| x.0);
    assert(keys.contains(a));
    let i = choose|i: int| 0 <= i < keys.len() && keys[i] == a;
    i
}

proof fn table_is_empty(p: Seq<(Seq<char>, Seq<u64>)>)
    requires
        p.len() == 0,
    ensures
        distinct(p),
        table(p) == Map::<Seq<char>, Seq<u64>>::empty(),
{
    assert forall|a: Seq<char>| !(#[trigger] table(p).contains_key(a)) by {
        if table(p).contains_key(a) {
            let _ = table_finds(p, a);
        }
    }
    assert(table(p).dom() == Map::<Seq<char>, Seq<u64>>::empty().dom());
    assert(table(p) == Map::<Seq<char>, Seq<u64>>::empty());
}

proof fn table_size(p: Seq<(Seq<char>, Seq<u64>)>)
    requires
        distinct(p),
    ensures
        table(p).dom().len() == p.len(),
{
    let keys = p.map_values(|x: (Seq<char>, Seq<u64>)| x.0);
    assert(keys.no_duplicates());
    keys.unique_seq_to_set();
    assert(table(p).dom() == keys.to_set());
}

proof fn table_push(p: Seq<(Seq<char>, Seq<u64>)>, x: (Seq<char>, Seq<u64>))
    requires
        distinct(p),
        !table(p).contains_key(x.0),
    ensures
        distinct(p.push(x)),
        table(p.push(x)) == table(p).insert(x.0, x.1),
{
    let q = p.push(x);
    assert forall|k: int| 0 <= k < p.len() implies (#[trigger] p[k]).0 != x.0 by {
        table_holds(p, k);
    }
    assert forall|i: int, j: int|
        0 <= i < q.len() && 0 <= j < q.len() && (#[trigger] q[i]).0 == (#[trigger] q[j]).0 implies i
        == j by {
        if i < p.len() {
            assert(q[i] == p[i]);
        }
        if j < p.len() {
            assert(q[j] == p[j]);
        }
    }
    let want = table(p).insert(x.0, x.1);
    assert forall|a: Seq<char>| #[trigger] table(q).contains_key(a) implies want.contains_key(a)
        && table(q)[a] == want[a] by {
        let k = table_finds(q, a);
        table_holds(q, k);
        if k < p.len() {
            assert(q[k] == p[k]);
            table_holds(p, k);
        }
    }
    assert forall|a: Seq<char>| #[trigger] want.contains_key(a) implies table(q).contains_key(a) by {
        if a == x.0 {
            table_holds(q, p.len() as int);
        } else {
            let k = table_finds(p, a);
            assert(q[k] == p[k]);
            table_holds(q, k);
        }
    }
    assert(table(q).dom() == want.dom());
    assert(table(q) == want);
}

proof fn table_update(p: Seq<(Seq<char>, Seq<u64>)>, i: int, seen: Seq<u64>)
    requires
        distinct(p),
        0 <= i < p.len(),
    ensures
        distinct(p.update(i, (p[i].0, seen))),
        table(p.update(i, (p[i].0, seen))) == table(p).insert(p[i].0, seen),
{
    let q = p.update(i, (p[i].0, seen));
    assert forall|k: int| 0 <= k < p.len() implies (#[trigger] q[k]).0 == p[k].0 by {}
    assert forall|a: int, b: int|
        0 <= a < q.len() && 0 <= b < q.len() && (#[trigger] q[a]).0 == (#[trigger] q[b]).0 implies a
        == b by {
        assert(p[a].0 == p[b].0);
    }
    let want = table(p).insert(p[i].0, seen);
    assert forall|a: Seq<char>| #[trigger] table(q).contains_key(a) implies want.contains_key(a)
        && table(q)[a] == want[a] by {
        let k = table_finds(q, a);
        table_holds(q, k);
        table_holds(p, k);
        if k != i {
            assert(p[k].0 != p[i].0);
        }
    }
    assert forall|a: Seq<char>| #[trigger] want.contains_key(a) implies table(q).contains_key(a) by {
        if a == p[i].0 {
            table_holds(q, i);
        } else {
            let k = table_finds(p, a);
            table_holds(q, k);
        }
    }
    assert(table(q).dom() == want.dom());
    assert(table(q) == want);
}

/// Whether an attempt still counts.
pub open spec fn counts(t: u64, now: u64) -> bool {
    now < t || now - t < LOGIN_WINDOW
}

/// The attempts that still count.
pub open spec fn recent(seen: Seq<u64>, now: u64) -> Seq<u64>
    decreases seen.len(),
{
    if seen.len() == 0 {
        seen
    } else if counts(seen.last(), now) {
        recent(seen.drop_last(), now).push(seen.last())
    } else {
        recent(seen.drop_last(), now)
    }
}

/// The attempts of an address that still count.
pub open spec fn recent_of(m: Map<Seq<char>, Seq<u64>>, a: Seq<char>, now: u64) -> Seq<u64> {
    if m.contains_key(a) {
        recent(m[a], now)
    } else {
        Seq::empty()
    }
}

/// The table without what no longer counts.
pub open spec fn swept(m: Map<Seq<char>, Seq<u64>>, now: u64) -> Map<Seq<char>, Seq<u64>> {
    Map::new(
        |a: Seq<char>| m.contains_key(a) && recent(m[a], now).len() > 0,
        |a: Seq<char>| recent(m[a], now),
    )
}

/// One more attempt: the table afterwards, and whether it is allowed.
pub open spec fn attempted(m: Map<Seq<char>, Seq<u64>>, from: Seq<char>, now: u64) -> (
    Map<Seq<char>, Seq<u64>>,
    bool,
) {
    let crowded = m.dom().len() > SWEEP_THRESHOLD && !m.contains_key(from);
    let m = if crowded {
        swept(m, now)
    } else {
        m
    };
    let seen = recent_of(m, from, now);
    if crowded && m.dom().len() >= MAX_TRACKED_ADDRESSES {
        (m, false)
    } else if seen.len() >= LOGIN_ATTEMPTS {
        (m.insert(from, seen), false)
    } else {
        (m.insert(from, seen.push(now)), true)
    }
}

// --- the whole ------------------------------------------------------------

/// The password and the live sessions.
#[derive(Debug)]
pub struct Auth {
    hash: String,
    sessions: Vec<Session>,
    /// Recent failed attempts per client address.
    attempts: Vec<Attempts>,
}

/// An [`Auth`] as values.
pub struct AuthView {
    pub hash: Seq<char>,
    pub sessions: Seq<(Seq<char>, u64)>,
    pub attempts: Map<Seq<char>, Seq<u64>>,
}

impl View for Auth {
    type V = AuthView;

    closed spec fn view(&self) -> AuthView {
        AuthView {
            hash: self.hash@,
            sessions: sessions_view(self.sessions@),
            attempts: table(pairs(self.attempts@)),
        }
    }
}

fn recent_times(seen: &Vec<u64>, now: u64) -> (r: Vec<u64>)
    ensures
        r@ == recent(seen@, now),
{
    let mut out: Vec<u64> = Vec::new();
    let mut i: usize = 0;
    assert(seen@.take(0).len() == 0);
    while i < seen.len()
        invariant
            i <= seen@.len(),
            out@ == recent(seen@.take(i as int), now),
        decreases seen.len() - i,
    {
        let t: u64 = seen[i];
        assert(seen@.take(i + 1).drop_last() == seen@.take(i as int));
        if now < t || now - t < LOGIN_WINDOW {
            out.push(t);
        }
        i = i + 1;
    }
    assert(seen@.take(seen.len() as int) == seen@);
    out
}

impl Auth {
    /// No address is tracked twice.
    pub closed spec fn valid(self) -> bool {
        distinct(pairs(self.attempts@))
    }

    /// Nobody is logged in, and nobody has tried.
    pub fn new(hash: String) -> (r: Auth)
        ensures
            r.valid(),
            r@ == (AuthView { hash: hash@, sessions: Seq::empty(), attempts: Map::empty() }),
    {
        let r = Auth { hash, sessions: Vec::new(), attempts: Vec::new() };
        assert(r@.sessions == Seq::<(Seq<char>, u64)>::empty());
        proof {
            table_is_empty(pairs(r.attempts@));
        }
        r
    }

    fn find(&self, address: &str) -> (r: Option<usize>)
        requires
            self.valid(),
        ensures
            match r {
                Some(i) => i < self.attempts@.len() && self.attempts@[i as int].address@
                    == address@ && self@.attempts.contains_key(address@)
                    && self@.attempts[address@] == self.attempts@[i as int].seen@,
                None => !self@.attempts.contains_key(address@),
            },
    {
        let ghost p = pairs(self.attempts@);
        let mut i: usize = 0;
        while i < self.attempts.len()
            invariant
                i <= self.attempts@.len(),
                self.valid(),
                p == pairs(self.attempts@),
                forall|k: int| 0 <= k < i ==> self.attempts@[k].address@ != address@,
            decreases self.attempts.len() - i,
        {
            if same(self.attempts[i].address.as_str(), address) {
                proof {
                    table_holds(p, i as int);
                }
                return Some(i);
            }
            i = i + 1;
        }
        proof {
            if self@.attempts.contains_key(address@) {
                let k = table_finds(p, address@);
                assert(self.attempts@[k].address@ == address@);
            }
        }
        None
    }

    fn sweep(&mut self, now: u64)
        requires
            old(self).valid(),
        ensures
            final(self).valid(),
            final(self)@ == (AuthView { attempts: swept(old(self)@.attempts, now), ..old(self)@ }),
    {
        let mut all: Vec<Attempts> = Vec::new();
        std::mem::swap(&mut all, &mut self.attempts);
        let ghost p = pairs(all@);
        let mut kept: Vec<Attempts> = Vec::new();
        let mut i: usize = 0;
        proof {
            table_is_empty(pairs(kept@));
            table_is_empty(p.take(0));
            assert(swept(table(p.take(0)), now) == Map::<Seq<char>, Seq<u64>>::empty());
        }
        while i < all.len()
            invariant
                i <= all@.len(),
                p == pairs(all@),
                distinct(p),
                distinct(pairs(kept@)),
                table(pairs(kept@)) == swept(table(p.take(i as int)), now),
            decreases all.len() - i,
        {
            let seen = recent_times(&all[i].seen, now);
            let ghost m = table(p.take(i as int));
            let ghost x = p[i as int];
            proof {
                assert(x == all@[i as int].pair());
                assert(p.take(i + 1) == p.take(i as int).push(x));
                assert(distinct(p.take(i as int))) by {
                    assert forall|a: int, b: int|
                        0 <= a < i && 0 <= b < i && (#[trigger] p.take(i as int)[a]).0 == (
                        #[trigger] p.take(i as int)[b]).0 implies a == b by {
                        assert(p[a].0 == p[b].0);
                    }
                }
                if m.contains_key(x.0) {
                    let k = table_finds(p.take(i as int), x.0);
                    assert(p[k].0 == p[i as int].0);
                }
                table_push(p.take(i as int), x);
            }
            let ghost before = pairs(kept@);
            if seen.len() > 0 {
                assert(swept(m.insert(x.0, x.1), now) == swept(m, now).insert(x.0, seen@));
                kept.push(Attempts { address: all[i].address.clone(), seen });
                proof {
                    assert(pairs(kept@) == before.push((x.0, seen@)));
                    table_push(before, (x.0, seen@));
                }
            } else {
                assert(swept(m.insert(x.0, x.1), now) == swept(m, now));
            }
            i = i + 1;
        }
        assert(p.take(all.len() as int) == p);
        self.attempts = kept;
    }

    fn put(&mut self, address: &str, seen: Vec<u64>)
        requires
            old(self).valid(),
        ensures
            final(self).valid(),
            final(self)@ == (AuthView {
                attempts: old(self)@.attempts.insert(address@, seen@),
                ..old(self)@
            }),
    {
        let ghost p = pairs(self.attempts@);
        let found = self.find(address);
        let entry = Attempts { address: address.to_owned(), seen };
        match found {
            Some(i) => {
                self.attempts.set(i, entry);
                proof {
                    table_update(p, i as int, seen@);
                    assert(pairs(self.attempts@) == p.update(i as int, (address@, seen@)));
                }
            },
            None => {
                self.attempts.push(entry);
                proof {
                    table_push(p, (address@, seen@));
                    assert(pairs(self.attempts@) == p.push((address@, seen@)));
                }
            },
        }
    }

    /// Whether this address is allowed another attempt, recording it.
    ///
    /// The address is the peer of the connection. A forwarding header is
    /// deliberately not consulted: it is attacker-controlled unless something
    /// trusted is stripping it. Behind a reverse proxy every client therefore
    /// shares one budget, which is the safe direction to be wrong in.
    ///
    /// An address that has not been seen before costs an entry, and the supply
    /// of addresses is unlimited. So everything that has aged out is dropped
    /// before the table grows beyond its first few hundred entries, and a
    /// newcomer to a full table is refused: an address already in it keeps its
    /// own budget.
    pub fn note_attempt(&mut self, from: &str, now: u64) -> (r: bool)
        requires
            old(self).valid(),
        ensures
            final(self).valid(),
            (final(self)@.attempts, r) == attempted(old(self)@.attempts, from@, now),
            final(self)@.hash == old(self)@.hash,
            final(self)@.sessions == old(self)@.sessions,
    {
        proof {
            table_size(pairs(self.attempts@));
        }
        if self.attempts.len() > SWEEP_THRESHOLD && self.find(from).is_none() {
            self.sweep(now);
            proof {
                table_size(pairs(self.attempts@));
            }
            if self.attempts.len() >= MAX_TRACKED_ADDRESSES {
                return false;
            }
        }
        let mut seen: Vec<u64> = match self.find(from) {
            Some(i) => recent_times(&self.attempts[i].seen, now),
            None => Vec::new(),
        };
        assert(seen@ == recent_of(self@.attempts, from@, now));
        if seen.len() >= LOGIN_ATTEMPTS {
            self.put(from, seen);
            return false;
        }
        seen.push(now);
        self.put(from, seen);
        true
    }

    /// How many addresses have entries.
    pub fn address_count(&self) -> (r: usize)
        requires
            self.valid(),
        ensures
            r == self@.attempts.dom().len(),
    {
        proof {
            table_size(pairs(self.attempts@));
        }
        self.attempts.len()
    }

    /// Forget an address's failures, so a legitimate user who mistyped twice
    /// is not locked out of their own device for the rest of the minute.
    pub fn clear_attempts(&mut self, from: &str)
        requires
            old(self).valid(),
        ensures
            final(self).valid(),
            final(self)@ == (AuthView {
                attempts: old(self)@.attempts.remove(from@),
                ..old(self)@
            }),
    {
        let ghost p = pairs(self.attempts@);
        match self.find(from) {
            Some(i) => {
                let _ = self.attempts.remove(i);
                proof {
                    let q = pairs(self.attempts@);
                    assert(q == p.remove(i as int));
                    let want = table(p).remove(from@);
                    assert(distinct(q)) by {
                        assert forall|a: int, b: int|
                            0 <= a < q.len() && 0 <= b < q.len() && (#[trigger] q[a]).0 == (
                            #[trigger] q[b]).0 implies a == b by {
                            let x = if a < i {
                                a
                            } else {
                                a + 1
                            };
                            let y = if b < i {
                                b
                            } else {
                                b + 1
                            };
                            assert(q[a] == p[x]);
                            assert(q[b] == p[y]);
                        }
                    }
                    assert forall|a: Seq<char>| #[trigger] table(q).contains_key(a) implies
                        want.contains_key(a) && table(q)[a] == want[a] by {
                        let k = table_finds(q, a);
                        table_holds(q, k);
                        let x = if k < i {
                            k
                        } else {
                            k + 1
                        };
                        assert(q[k] == p[x]);
                        table_holds(p, x);
                        assert(p[x].0 != p[i as int].0);
                    }
                    assert forall|a: Seq<char>| #[trigger] want.contains_key(a) implies table(
                        q,
                    ).contains_key(a) by {
                        let k = table_finds(p, a);
                        let x = if k < i {
                            k
                        } else {
                            k - 1
                        };
                        assert(k != i);
                        assert(q[x] == p[k]);
                        table_holds(q, x);
                    }
                    assert(table(q).dom() == want.dom());
                    assert(table(q) == want);
                }
            },
            None => {
                assert(self@.attempts.remove(from@) == self@.attempts);
            },
        }
    }

    /// Check a password. Blocking and deliberately slow.
    pub fn verify(&self, password: &str) -> (r: bool)
        ensures
            r == accepted(self@.hash, password@),
    {
        verify_password(self.hash.as_str(), password)
    }

    /// The stored hash, for checking a password elsewhere.
    pub fn hash(&self) -> (r: &str)
        ensures
            r@ == self@.hash,
    {
        self.hash.as_str()
    }

    fn expire(&mut self, now: u64)
        requires
            old(self).valid(),
        ensures
            final(self).valid(),
            final(self)@ == (AuthView { sessions: live(old(self)@.sessions, now), ..old(self)@ }),
    {
        let mut all: Vec<Session> = Vec::new();
        std::mem::swap(&mut all, &mut self.sessions);
        let ghost s = sessions_view(all@);
        let mut kept: Vec<Session> = Vec::new();
        let mut i: usize = 0;
        assert(s.take(0).len() == 0);
        assert(sessions_view(kept@) == live(s.take(0), now));
        while i < all.len()
            invariant
                i <= all@.len(),
                s == sessions_view(all@),
                sessions_view(kept@) == live(s.take(i as int), now),
            decreases all.len() - i,
        {
            assert(s.take(i + 1).drop_last() == s.take(i as int));
            assert(s.take(i + 1).last() == all@[i as int]@);
            if all[i].expires > now {
                let ghost before = sessions_view(kept@);
                let session = Session { token: all[i].token.clone(), expires: all[i].expires };
                kept.push(session);
                assert(sessions_view(kept@) == before.push(all@[i as int]@));
            }
            i = i + 1;
        }
        assert(s.take(all.len() as int) == s);
        self.sessions = kept;
    }

    /// Open a session with a given token.
    pub fn open_session(&mut self, token: &str, now: u64)
        requires
            old(self).valid(),
            now <= u64::MAX - SESSION_LIFETIME,
        ensures
            final(self).valid(),
            final(self)@ == (AuthView {
                sessions: admitted(old(self)@.sessions, token@, now),
                ..old(self)@
            }),
    {
        self.expire(now);
        let ghost kept = self@.sessions;
        if self.sessions.len() >= MAX_SESSIONS {
            let _ = self.sessions.remove(0);
            assert(sessions_view(self.sessions@) == kept.skip(1));
        }
        let ghost before = sessions_view(self.sessions@);
        let session = Session { token: token.to_owned(), expires: now + SESSION_LIFETIME };
        self.sessions.push(session);
        assert(sessions_view(self.sessions@) == before.push((token@, session.expires)));
    }

    /// Mint a session and return its token.
    pub fn issue(&mut self, now: u64) -> (r: String)
        requires
            old(self).valid(),
            now <= u64::MAX - SESSION_LIFETIME,
        ensures
            final(self).valid(),
            is_token(r@),
            final(self)@ == (AuthView {
                sessions: admitted(old(self)@.sessions, r@, now),
                ..old(self)@
            }),
    {
        let token = generate_token();
        self.open_session(token.as_str(), now);
        token
    }

    /// Whether this token names a live session.
    ///
    /// Every live session is compared, and the comparison itself is
    /// constant-time, so neither the timing nor the loop count depends on how
    /// much of the presented token was correct.
    pub fn validate(&mut self, token: &str, now: u64) -> (r: bool)
        requires
            old(self).valid(),
        ensures
            final(self).valid(),
            final(self)@ == (AuthView { sessions: live(old(self)@.sessions, now), ..old(self)@ }),
            r == names(live(old(self)@.sessions, now), token@),
    {
        self.expire(now);
        let ghost s = self@.sessions;
        let mut found: bool = false;
        let mut i: usize = 0;
        while i < self.sessions.len()
            invariant
                i <= self.sessions@.len(),
                s == sessions_view(self.sessions@),
                found == names(s.take(i as int), token@),
            decreases self.sessions.len() - i,
        {
            let hit: bool = same_secret(self.sessions[i].token.as_str().as_bytes(), token.as_bytes());
            proof {
                bytes_tell_texts_apart(self.sessions@[i as int].token@, token@);
                assert(s[i as int] == self.sessions@[i as int]@);
                assert(s.take(i + 1)[i as int] == s[i as int]);
                if names(s.take(i as int), token@) {
                    let k = choose|k: int|
                        0 <= k < i && (#[trigger] s.take(i as int)[k]).0 == token@;
                    assert(s.take(i + 1)[k] == s.take(i as int)[k]);
                }
                if names(s.take(i + 1), token@) {
                    let k = choose|k: int|
                        0 <= k < i + 1 && (#[trigger] s.take(i + 1)[k]).0 == token@;
                    if k < i {
                        assert(s.take(i as int)[k] == s.take(i + 1)[k]);
                    }
                }
            }
            found = found || hit;
            i = i + 1;
        }
        assert(s.take(s.len() as int) == s);
        found
    }

    /// Drop a session. Constant-time for the same reason as
    /// [`Auth::validate`].
    pub fn revoke(&mut self, token: &str)
        requires
            old(self).valid(),
        ensures
            final(self).valid(),
            final(self)@ == (AuthView {
                sessions: without(old(self)@.sessions, token@),
                ..old(self)@
            }),
    {
        let mut all: Vec<Session> = Vec::new();
        std::mem::swap(&mut all, &mut self.sessions);
        let ghost s = sessions_view(all@);
        let mut kept: Vec<Session> = Vec::new();
        let mut i: usize = 0;
        assert(s.take(0).len() == 0);
        assert(sessions_view(kept@) == without(s.take(0), token@));
        while i < all.len()
            invariant
                i <= all@.len(),
                s == sessions_view(all@),
                sessions_view(kept@) == without(s.take(i as int), token@),
            decreases all.len() - i,
        {
            assert(s.take(i + 1).drop_last() == s.take(i as int));
            assert(s.take(i + 1).last() == all@[i as int]@);
            proof {
                bytes_tell_texts_apart(all@[i as int].token@, token@);
            }
            if !same_secret(all[i].token.as_str().as_bytes(), token.as_bytes()) {
                let ghost before = sessions_view(kept@);
                let session = Session { token: all[i].token.clone(), expires: all[i].expires };
                kept.push(session);
                assert(sessions_view(kept@) == before.push(all@[i as int]@));
            }
            i = i + 1;
        }
        assert(s.take(all.len() as int) == s);
        self.sessions = kept;
    }

    /// How many sessions are held.
    pub fn session_count(&self) -> (r: usize)
        ensures
            r == self@.sessions.len(),
    {
        self.sessions.len()
    }
}

// --- verification slots ---------------------------------------------------

/// What a login may do that asks for a slot.
#[derive(Debug, Clone, Copy, PartialEq, Eq, Structural)]
pub enum Place {
    /// Check the password, and give the slot back after.
    Check,
    /// Ask again when a slot was given back, or after so many nanoseconds.
    Wait(u64),
    /// The device is already hashing as much as it will: refuse, rather than
    /// wait any longer.
    GiveUp,
}

/// What a login may do that has been asking since `asked`, while so many
/// verifications are running.
pub open spec fn place_for(running: nat, asked: u64, now: u64) -> Place {
    let waited = if now > asked {
        now - asked
    } else {
        0
    };
    if running < MAX_VERIFICATIONS_IN_FLIGHT {
        Place::Check
    } else if waited >= VERIFY_WAIT {
        Place::GiveUp
    } else {
        Place::Wait((VERIFY_WAIT - waited) as u64)
    }
}

/// Something that happens to the slots.
pub enum SlotEvent {
    /// A login asks, and has been asking since `asked`.
    Asked { asked: u64, now: u64 },
    /// A verification is over.
    Freed,
}

/// How many verifications are running after that.
pub open spec fn running_after(running: nat, e: SlotEvent) -> nat {
    match e {
        SlotEvent::Asked { asked, now } => if place_for(running, asked, now) == Place::Check {
            running + 1
        } else {
            running
        },
        SlotEvent::Freed => if running > 0 {
            (running - 1) as nat
        } else {
            0
        },
    }
}

/// How many verifications are running after all of that, in order, when none
/// was at first.
pub open spec fn running_then(events: Seq<SlotEvent>) -> nat
    decreases events.len(),
{
    if events.len() == 0 {
        0
    } else {
        running_after(running_then(events.drop_last()), events.last())
    }
}

/// Permits for password verification, bounding Argon2's memory across every
/// client at once.
#[derive(Debug)]
pub struct Slots {
    taken: usize,
}

impl Slots {
    /// How many verifications are running.
    pub closed spec fn running(self) -> nat {
        self.taken as nat
    }

    /// The bound.
    pub open spec fn valid(self) -> bool {
        self.running() <= MAX_VERIFICATIONS_IN_FLIGHT
    }

    pub fn new() -> (r: Slots)
        ensures
            r.valid(),
            r.running() == 0,
    {
        Slots { taken: 0 }
    }

    /// Ask for a slot, for a login that has been asking since `asked`.
    pub fn ask(&mut self, asked: u64, now: u64) -> (r: Place)
        requires
            old(self).valid(),
        ensures
            final(self).valid(),
            r == place_for(old(self).running(), asked, now),
            final(self).running() == running_after(
                old(self).running(),
                SlotEvent::Asked { asked, now },
            ),
    {
        if self.taken < MAX_VERIFICATIONS_IN_FLIGHT {
            self.taken = self.taken + 1;
            return Place::Check;
        }
        let waited: u64 = if now > asked {
            now - asked
        } else {
            0
        };
        if waited >= VERIFY_WAIT {
            Place::GiveUp
        } else {
            Place::Wait(VERIFY_WAIT - waited)
        }
    }

    /// Give a slot back.
    pub fn release(&mut self)
        requires
            old(self).valid(),
            old(self).running() > 0,
        ensures
            final(self).valid(),
            final(self).running() == running_after(old(self).running(), SlotEvent::Freed),
    {
        self.taken = self.taken - 1;
    }
}

// --- laws -----------------------------------------------------------------

/// However many logins are in progress, from whatever addresses, no more than
/// two passwords are being checked at any moment. A login that has asked for
/// five seconds is told at once to check or to give up, and one that gives up
/// has nothing checked.
pub proof fn logins_do_not_pile_up(events: Seq<SlotEvent>, asked: u64, now: u64)
    ensures
        running_then(events) <= MAX_VERIFICATIONS_IN_FLIGHT,
        now - asked >= VERIFY_WAIT ==> !(place_for(running_then(events), asked, now) is Wait),
        place_for(running_then(events), asked, now) == Place::GiveUp ==> {
            &&& now - asked >= VERIFY_WAIT
            &&& running_after(running_then(events), SlotEvent::Asked { asked, now })
                == running_then(events)
        },
        place_for(running_then(events), asked, now) matches Place::Wait(ns) ==> 0 < ns
            <= VERIFY_WAIT,
    decreases events.len(),
{
    if events.len() > 0 {
        logins_do_not_pile_up(events.drop_last(), asked, now);
    }
}

proof fn live_keeps(s: Seq<(Seq<char>, u64)>, now: u64, i: int)
    requires
        0 <= i < s.len(),
        s[i].1 > now,
    ensures
        exists|k: int| 0 <= k < live(s, now).len() && live(s, now)[k] == s[i],
    decreases s.len(),
{
    if i < s.len() - 1 {
        live_keeps(s.drop_last(), now, i);
        let r = live(s.drop_last(), now);
        let k = choose|k: int| 0 <= k < r.len() && r[k] == s[i];
        assert(live(s, now)[k] == s[i]);
    } else {
        let r = live(s, now);
        assert(r[r.len() - 1] == s[i]);
    }
}

pub proof fn live_only(s: Seq<(Seq<char>, u64)>, now: u64, k: int)
    requires
        0 <= k < live(s, now).len(),
    ensures
        live(s, now)[k].1 > now,
        exists|i: int| 0 <= i < s.len() && s[i] == live(s, now)[k],
    decreases s.len(),
{
    if s.len() > 0 {
        let r = live(s.drop_last(), now);
        if s.last().1 > now && k == r.len() {
            assert(s[s.len() - 1] == live(s, now)[k]);
        } else {
            live_only(s.drop_last(), now, k);
            let i = choose|i: int| 0 <= i < s.drop_last().len() && s.drop_last()[i] == r[k];
            assert(s[i] == live(s, now)[k]);
        }
    }
}

proof fn live_is_no_longer(s: Seq<(Seq<char>, u64)>, now: u64)
    ensures
        live(s, now).len() <= s.len(),
    decreases s.len(),
{
    if s.len() > 0 {
        live_is_no_longer(s.drop_last(), now);
    }
}

/// A token that was issued names a live session until it expires, and after
/// that it names none on its account.
pub proof fn an_issued_token_validates_until_it_expires(
    s: Seq<(Seq<char>, u64)>,
    token: Seq<char>,
    now: u64,
    later: u64,
)
    requires
        now <= u64::MAX - SESSION_LIFETIME,
        now <= later,
    ensures
        later < now + SESSION_LIFETIME ==> names(live(admitted(s, token, now), later), token),
        later >= now + SESSION_LIFETIME && !names(s, token) ==> !names(
            live(admitted(s, token, now), later),
            token,
        ),
{
    let a = admitted(s, token, now);
    let last = a.len() - 1;
    if later < now + SESSION_LIFETIME {
        live_keeps(a, later, last);
    } else if !names(s, token) && names(live(a, later), token) {
        let k = choose|k: int|
            0 <= k < live(a, later).len() && (#[trigger] live(a, later)[k]).0 == token;
        live_only(a, later, k);
        let i = choose|i: int| 0 <= i < a.len() && a[i] == live(a, later)[k];
        assert(a[i].1 > later);
        assert(i < last);
        let kept = live(s, now);
        let shift: int = if kept.len() >= MAX_SESSIONS {
            1
        } else {
            0
        };
        assert(a[i] == kept[i + shift]);
        live_only(s, now, i + shift);
    }
}

/// Only issued tokens validate: a token that names a live session after
/// another one was issued either is that one or named a session before.
pub proof fn only_an_issued_token_validates(
    s: Seq<(Seq<char>, u64)>,
    issued: Seq<char>,
    now: u64,
    token: Seq<char>,
    later: u64,
)
    requires
        names(live(admitted(s, issued, now), later), token),
    ensures
        token == issued || names(s, token),
{
    let a = admitted(s, issued, now);
    let k = choose|k: int|
        0 <= k < live(a, later).len() && (#[trigger] live(a, later)[k]).0 == token;
    live_only(a, later, k);
    let i = choose|i: int| 0 <= i < a.len() && a[i] == live(a, later)[k];
    if i < a.len() - 1 {
        let kept = live(s, now);
        let shift: int = if kept.len() >= MAX_SESSIONS {
            1
        } else {
            0
        };
        assert(a[i] == kept[i + shift]);
        live_only(s, now, i + shift);
    }
}

/// The set of sessions is capped.
pub proof fn sessions_are_capped(s: Seq<(Seq<char>, u64)>, token: Seq<char>, now: u64)
    requires
        s.len() <= MAX_SESSIONS,
    ensures
        admitted(s, token, now).len() <= MAX_SESSIONS,
        live(s, now).len() <= MAX_SESSIONS,
{
    live_is_no_longer(s, now);
}

/// Revoking a session ends it, and no other.
pub proof fn revoking_ends_one_session(
    s: Seq<(Seq<char>, u64)>,
    token: Seq<char>,
    other: Seq<char>,
)
    ensures
        !names(without(s, token), token),
        other != token ==> names(without(s, token), other) == names(s, other),
    decreases s.len(),
{
    if s.len() > 0 {
        let rest = s.drop_last();
        let r = without(rest, token);
        let w = without(s, token);
        revoking_ends_one_session(rest, token, other);
        if names(w, token) {
            let k = choose|k: int| 0 <= k < w.len() && (#[trigger] w[k]).0 == token;
            if k < r.len() {
                assert(r[k] == w[k]);
            }
        }
        if other != token {
            if names(s, other) {
                let k = choose|k: int| 0 <= k < s.len() && (#[trigger] s[k]).0 == other;
                if k < rest.len() {
                    assert(rest[k] == s[k]);
                    assert(names(rest, other));
                    let j = choose|j: int| 0 <= j < r.len() && (#[trigger] r[j]).0 == other;
                    assert(w[j] == r[j]);
                } else {
                    assert(w[w.len() - 1] == s[k]);
                }
            }
            if names(w, other) {
                let k = choose|k: int| 0 <= k < w.len() && (#[trigger] w[k]).0 == other;
                if k < r.len() {
                    assert(r[k] == w[k]);
                    assert(names(r, other));
                    let j = choose|j: int| 0 <= j < rest.len() && (#[trigger] rest[j]).0 == other;
                    assert(s[j] == rest[j]);
                } else {
                    assert(s[s.len() - 1] == w[k]);
                }
            }
        }
    }
}

proof fn recent_twice(seen: Seq<u64>, now: u64)
    ensures
        recent(recent(seen, now), now) == recent(seen, now),
        recent(seen, now).len() <= seen.len(),
    decreases seen.len(),
{
    if seen.len() > 0 {
        recent_twice(seen.drop_last(), now);
        let r = recent(seen.drop_last(), now);
        if counts(seen.last(), now) {
            assert(r.push(seen.last()).drop_last() == r);
        }
    }
}

/// Five attempts a minute per address and then no more: an attempt is allowed
/// only if fewer than that still count, it is recorded if it is allowed, and a
/// refused one is not.
pub proof fn five_attempts_and_no_more(m: Map<Seq<char>, Seq<u64>>, from: Seq<char>, now: u64)
    ensures
        attempted(m, from, now).1 ==> recent_of(m, from, now).len() < LOGIN_ATTEMPTS && recent_of(
            attempted(m, from, now).0,
            from,
            now,
        ) == recent_of(m, from, now).push(now),
        !attempted(m, from, now).1 ==> recent_of(attempted(m, from, now).0, from, now) == recent_of(
            m,
            from,
            now,
        ),
        recent_of(m, from, now).len() >= LOGIN_ATTEMPTS ==> !attempted(m, from, now).1,
{
    let crowded = m.dom().len() > SWEEP_THRESHOLD && !m.contains_key(from);
    let n = if crowded {
        swept(m, now)
    } else {
        m
    };
    let seen = recent_of(n, from, now);
    if m.contains_key(from) {
        recent_twice(m[from], now);
    }
    assert(seen.push(now).drop_last() == seen);
    assert(counts(now, now));
    assert(recent(seen, now) == seen);
    assert(recent(seen.push(now), now) == seen.push(now));
}

/// Every address has its own budget: an attempt from one changes nothing that
/// counts for another.
pub proof fn addresses_have_their_own_budget(
    m: Map<Seq<char>, Seq<u64>>,
    from: Seq<char>,
    other: Seq<char>,
    now: u64,
)
    requires
        other != from,
    ensures
        recent_of(attempted(m, from, now).0, other, now) == recent_of(m, other, now),
{
    if m.contains_key(other) {
        recent_twice(m[other], now);
        if recent(m[other], now).len() == 0 {
            assert(recent(m[other], now) == Seq::<u64>::empty());
        }
    }
}

/// The table of addresses does not grow without bound.
pub proof fn the_address_table_is_bounded(m: Map<Seq<char>, Seq<u64>>, from: Seq<char>, now: u64)
    requires
        m.dom().finite(),
        m.dom().len() <= MAX_TRACKED_ADDRESSES,
    ensures
        attempted(m, from, now).0.dom().finite(),
        attempted(m, from, now).0.dom().len() <= MAX_TRACKED_ADDRESSES,
{
    let s = swept(m, now);
    vstd::set_lib::lemma_len_subset(s.dom(), m.dom());
    assert(m.insert(from, recent_of(m, from, now)).dom() == m.dom().insert(from));
}

} // verus!
