//! The web interface.
//!
//! With no buttons, no screen controls and no keyboard, this is the only way
//! to configure a running device short of a shell, which is why it is
//! authenticated, why it is bound to the local network by default, and why
//! every write goes through the same validated path the daemon reads back at
//! boot.
//!
//! The threat model this authenticates against, and the several things it
//! deliberately does not, are written out in [`auth`].

pub mod auth;
pub mod loopback;
pub mod settings;

use vstd::prelude::*;

use crate::config::{Config, ConfigError, Edit, SocketAddress, Web};
use crate::ipc::Command;
use crate::proto::DisplayPower;
use crate::strings::{
    concat, debug_quoted, decimal, find_char, first_piece_len_is, from_chars, hex, hex_length,
    list_contains, pieces, quote, same, slice_chars, split, texts, to_chars, to_decimal, trim_chars,
    trimmed,
};
use crate::value::{Leaf, Node, Tree};
use crate::web::auth::{
    accepted, admitted, an_issued_token_validates_until_it_expires, attempted, generate_passphrase,
    hash_password, is_hash_of, is_passphrase, is_token, live, live_only, names, password_file,
    revoking_ends_one_session, without, Auth, AuthView, SecretFile, SESSION_LIFETIME,
    SESSION_LIFETIME_SECS,
};
use crate::web::settings::{
    as_setting, choices, explanation, for_browser, hint, is_secret, json_to_toml, literals,
    permitted, tier, tier_of, toml_to_json, Json, Member, Tier, CONFIRM_MODE, CONFIRM_ROTATION,
    DAEMON_UNIT, RENDERER_UNIT, SECRET_KEY,
};

verus! {

broadcast use vstd::seq::group_seq_axioms;

pub const COOKIE_NAME: &'static str = "lpframe_session";

/// The header every mutating request must carry.
///
/// `SameSite=Strict` on the cookie already stops a cross-site form arriving
/// with credentials attached; this is the half that does not depend on the
/// browser getting that right. A form post from another origin cannot set a
/// custom header at all.
pub const CSRF_HEADER: &'static str = "x-lpframe-request";

// --- the listener ---------------------------------------------------------

/// A permitted listener, and the reason to be uneasy about it if there is one.
#[derive(Debug)]
pub struct Bind {
    pub addr: SocketAddress,
    /// Present only when the bind is allowed because `web.insecure_no_auth` is
    /// set. Logged prominently at every startup.
    pub warning: Option<String>,
}

/// What is said when there is nothing to check a password against.
pub open spec fn no_hash_text(address: Seq<char>, port: nat) -> Seq<char> {
    "web.bind is "@ + address
        + " and web.auth is on, but there is no password hash and one could not be generated. Refusing to serve the settings and the listening history to the network with nothing checking. Make /var/lib/lpframe writable, or set web.bind = \"127.0.0.1:"@
        + decimal(port) + "\"."@
}

/// What is said when anyone may come in.
pub open spec fn warning_text(address: Seq<char>) -> Seq<char> {
    "SERVING THE WEB INTERFACE ON "@ + address
        + " WITH NO AUTHENTICATION. web.insecure_no_auth is set, so anything that can reach this port can read what you have been listening to and change every setting on the device. This is only sane behind something else that authenticates. Unset web.insecure_no_auth to undo it."@
}

/// What is said when anyone could come in and nobody has allowed that.
pub open spec fn open_bind_text(address: Seq<char>, port: nat) -> Seq<char> {
    "web.bind is "@ + address
        + " with web.auth = false. Refusing to expose the settings and the listening history to the network unauthenticated — set web.auth = true, or web.bind = \"127.0.0.1:"@
        + decimal(port)
        + "\" and use an SSH tunnel, or web.enabled = false. If something in front of this authenticates for you, web.insecure_no_auth = true says so deliberately."@
}

/// Whether `web.bind` may be bound: it can be read, and either only the device
/// itself can reach it, or a password is asked for, or somebody has said
/// deliberately that none is needed.
pub open spec fn may_bind(web: Web, parsed: Option<SocketAddress>) -> bool {
    parsed matches Some(a) && (a.loopback || (web.auth && web.password_hash@.len() > 0)
        || (!web.auth && web.insecure_no_auth))
}

/// Decide whether `web.bind` may be bound, given how authentication is
/// configured. `parsed` is what it reads as.
///
/// Failing here fails the daemon: binding a surface the user did not intend is
/// worse than not starting, because not starting is visible and gets fixed.
pub fn check_bind(web: &Web, parsed: Option<SocketAddress>) -> (r: Result<Bind, String>)
    ensures
        r is Ok == may_bind(*web, parsed),
        match parsed {
            None => r matches Err(e) && e@ == loopback::unreadable(web.bind@),
            Some(a) => if a.loopback {
                r matches Ok(b) && b.addr == a && b.warning is None
            } else if web.auth {
                if web.password_hash@.len() == 0 {
                    r matches Err(e) && e@ == no_hash_text(a.text@, a.port as nat)
                } else {
                    r matches Ok(b) && b.addr == a && b.warning is None
                }
            } else if web.insecure_no_auth {
                &&& r matches Ok(b)
                &&& b.addr == a
                &&& b.warning matches Some(w)
                &&& w@ == warning_text(a.text@)
            } else {
                r matches Err(e) && e@ == open_bind_text(a.text@, a.port as nat)
            },
        },
{
    let a = match loopback::check_bind(web.bind.as_str(), parsed, true) {
        Ok(a) => a,
        Err(e) => {
            return Err(e);
        },
    };
    if a.loopback {
        return Ok(Bind { addr: a, warning: None });
    }
    if web.auth {
        if web.password_hash.as_str().is_empty() {
            let mut e = concat("web.bind is ", a.text.as_str());
            e.append(
                " and web.auth is on, but there is no password hash and one could not be generated. Refusing to serve the settings and the listening history to the network with nothing checking. Make /var/lib/lpframe writable, or set web.bind = \"127.0.0.1:",
            );
            e.append(to_decimal(a.port as u64).as_str());
            e.append("\".");
            return Err(e);
        }
        return Ok(Bind { addr: a, warning: None });
    }
    if web.insecure_no_auth {
        let mut w = concat("SERVING THE WEB INTERFACE ON ", a.text.as_str());
        w.append(
            " WITH NO AUTHENTICATION. web.insecure_no_auth is set, so anything that can reach this port can read what you have been listening to and change every setting on the device. This is only sane behind something else that authenticates. Unset web.insecure_no_auth to undo it.",
        );
        return Ok(Bind { addr: a, warning: Some(w) });
    }
    let mut e = concat("web.bind is ", a.text.as_str());
    e.append(
        " with web.auth = false. Refusing to expose the settings and the listening history to the network unauthenticated — set web.auth = true, or web.bind = \"127.0.0.1:",
    );
    e.append(to_decimal(a.port as u64).as_str());
    e.append(
        "\" and use an SSH tunnel, or web.enabled = false. If something in front of this authenticates for you, web.insecure_no_auth = true says so deliberately.",
    );
    Err(e)
}

/// A password that was made up at the first start.
#[derive(Debug)]
pub struct FirstPassword {
    pub passphrase: String,
    /// The plaintext file, to be written first. If the hash were committed and
    /// the file then failed, the password would exist and be unlearnable; this
    /// way round the worst case is a password regenerated at the next start.
    pub file: SecretFile,
    /// The change to the override that stores the hash.
    pub edit: Edit,
}

impl FirstPassword {
    /// Whether it belongs to a hash: the hash is its Argon2id hash, with the
    /// parameters of this crate, and accepts it; the file holds it; and the
    /// change stores the hash.
    pub open spec fn is_for(self, hash: Seq<char>, dir: Seq<char>) -> bool {
        &&& is_hash_of(hash, self.passphrase@)
        &&& accepted(hash, self.passphrase@)
        &&& is_passphrase(self.passphrase@)
        &&& self.file.contents@ == self.passphrase@ + "\n"@
        &&& self.file.path@ == crate::artwork::joined(dir, auth::PASSWORD_FILE_NAME@)
        &&& self.file.mode == auth::PASSWORD_FILE_MODE
        &&& self.edit.key@ == SECRET_KEY@
        &&& self.edit.value matches Some(v) && v.tree() == Tree::Str(hash)
    }
}

/// Whether authentication starts out with a hash, with nobody logged in.
pub open spec fn begins_with_hash(a: Option<Auth>, hash: Seq<char>) -> bool {
    a matches Some(x) && x.valid() && x@ == (AuthView {
        hash,
        sessions: Seq::empty(),
        attempts: Map::empty(),
    })
}

/// Resolve authentication, generating a password on first run. `dir` is where
/// the local override is.
///
/// The configuration is given the hash that is actually in force. Failing to
/// write the file or the hash is loud but not fatal: the password works until
/// the daemon restarts, at which point a new one is generated.
pub fn prepare_auth(cfg: &mut Config, dir: &str) -> (r: Result<
    (Option<Auth>, Option<FirstPassword>),
    String,
>)
    ensures
        if !old(cfg).web.auth {
            &&& *final(cfg) == *old(cfg)
            &&& r matches Ok(p) && p.0 is None && p.1 is None
        } else if old(cfg).web.password_hash@.len() > 0 {
            &&& *final(cfg) == *old(cfg)
            &&& r matches Ok(p) && p.1 is None && begins_with_hash(p.0, old(cfg).web.password_hash@)
        } else {
            match r {
                Err(e) => {
                    &&& *final(cfg) == *old(cfg)
                    &&& exists|p: Seq<char>, salt: Seq<char>| #[trigger]
                        auth::phc(p, salt) matches Err(why) && e@ == "generating the web password: "@
                            + ("hashing the web password: "@ + why)
                },
                Ok(p) => {
                    let hash = final(cfg).web.password_hash@;
                    &&& *final(cfg) == (Config {
                        web: Web { password_hash: final(cfg).web.password_hash, ..old(cfg).web },
                        ..*old(cfg)
                    })
                    &&& begins_with_hash(p.0, hash)
                    &&& p.1 matches Some(first) && first.is_for(hash, dir@)
                },
            }
        },
{
    if !cfg.web.auth {
        return Ok((None, None));
    }
    if !cfg.web.password_hash.as_str().is_empty() {
        return Ok((Some(Auth::new(cfg.web.password_hash.clone())), None));
    }
    let passphrase = generate_passphrase();
    let hash = match hash_password(passphrase.as_str()) {
        Ok(h) => h,
        Err(e) => {
            return Err(concat("generating the web password: ", e.as_str()));
        },
    };
    let first = FirstPassword {
        file: password_file(dir, passphrase.as_str()),
        edit: Edit { key: SECRET_KEY.to_owned(), value: Some(Node::Str(hash.clone())) },
        passphrase,
    };
    cfg.web.password_hash = hash.clone();
    Ok((Some(Auth::new(hash)), Some(first)))
}

/// What the log says of a new password: the one place where the plaintext is
/// logged. On a device that logs at the usual level this line is the install
/// instructions. `file` is where it was written, if it was.
pub fn announcement(passphrase: &str, file: Option<&str>) -> (r: String)
    ensures
        r@ == "web interface password: "@ + passphrase@ + match file {
            Some(path) => "  (also in "@ + path@
                + ", mode 0600; reprint it with `lpctl web-password`). Only the Argon2id hash is stored."@,
            None =>
                "  (it could not be written to disk, so this log line is the only copy). Only the Argon2id hash is stored."@,
        },
{
    let mut m = concat("web interface password: ", passphrase);
    let mut rest: String;
    match file {
        Some(path) => {
            rest = concat("  (also in ", path);
            rest.append(
                ", mode 0600; reprint it with `lpctl web-password`). Only the Argon2id hash is stored.",
            );
        },
        None => {
            rest =
            "  (it could not be written to disk, so this log line is the only copy). Only the Argon2id hash is stored.".to_owned();
        },
    }
    m.append(rest.as_str());
    m
}

/// The arguments of `avahi-publish` that add a service record for the
/// interface, and nothing else: the hostname resolves either way.
pub fn advertisement(name: &str, port: u16) -> (r: Vec<String>)
    ensures
        texts(r@) == seq![
            "--service"@,
            name@ + " web"@,
            "_http._tcp"@,
            decimal(port as nat),
            "path=/"@,
        ],
{
    let r: Vec<String> = vec![
        "--service".to_owned(),
        concat(name, " web"),
        "_http._tcp".to_owned(),
        to_decimal(port as u64),
        "path=/".to_owned(),
    ];
    assert(texts(r@) == seq![
        "--service"@,
        name@ + " web"@,
        "_http._tcp"@,
        decimal(port as nat),
        "path=/"@,
    ]);
    r
}

// --- who may come in ------------------------------------------------------

/// What a client is told that does not get what it asked for.
#[derive(Debug)]
pub enum Refusal {
    /// The one failure response.
    ///
    /// A wrong password and a session that does not exist are answered alike.
    /// To a client entitled to be here both mean the same thing, log in again;
    /// and to one that is not, the absence of a difference is the point:
    /// probing cannot tell a guessed cookie from a guessed password, or either
    /// from a session that simply expired.
    Unauthenticated,
    /// Too many attempts; wait a minute.
    TooManyAttempts,
    /// Anything else: a status and a sentence.
    Because { status: u16, message: String },
    /// The unit has to be restarted by hand.
    ByHand { unit: &'static str, message: String },
}

/// A refusal as it is sent.
#[derive(Debug)]
pub struct Reply {
    pub status: u16,
    pub error: String,
    /// After how many seconds to try again.
    pub retry_after: Option<u64>,
    /// The unit that has to be restarted.
    pub unit: Option<&'static str>,
}

impl Refusal {
    /// The status a refusal is sent with.
    pub open spec fn status(self) -> u16 {
        match self {
            Refusal::Unauthenticated => 401,
            Refusal::TooManyAttempts => 429,
            Refusal::Because { status, .. } => status,
            Refusal::ByHand { .. } => 501,
        }
    }

    /// What a refusal says.
    pub open spec fn words(self) -> Seq<char> {
        match self {
            Refusal::Unauthenticated => "authentication required"@,
            Refusal::TooManyAttempts => "too many attempts; wait a minute"@,
            Refusal::Because { message, .. } => message@,
            Refusal::ByHand { message, .. } => message@,
        }
    }

    /// The refusal as it is sent.
    pub fn reply(self) -> (r: Reply)
        ensures
            r.status == self.status(),
            r.error@ == self.words(),
            r.retry_after == (if self is TooManyAttempts {
                Some(60u64)
            } else {
                None
            }),
            match self {
                Refusal::ByHand { unit, .. } => r.unit == Some(unit),
                _ => r.unit is None,
            },
    {
        match self {
            Refusal::Unauthenticated => Reply {
                status: 401,
                error: "authentication required".to_owned(),
                retry_after: None,
                unit: None,
            },
            Refusal::TooManyAttempts => Reply {
                status: 429,
                error: "too many attempts; wait a minute".to_owned(),
                retry_after: Some(60),
                unit: None,
            },
            Refusal::Because { status, message } => Reply {
                status,
                error: message,
                retry_after: None,
                unit: None,
            },
            Refusal::ByHand { unit, message } => Reply {
                status: 501,
                error: message,
                retry_after: None,
                unit: Some(unit),
            },
        }
    }
}

/// Whether a refusal has this status and says this.
pub open spec fn refuses(r: Refusal, status: u16, message: Seq<char>) -> bool {
    r matches Refusal::Because { status: s, message: m } && s == status && m@ == message
}

fn because(status: u16, message: &str) -> (r: Refusal)
    ensures
        refuses(r, status, message@),
{
    Refusal::Because { status, message: message.to_owned() }
}

/// The session cookie.
///
/// **`Secure` is deliberately absent, and must stay absent.** The device
/// serves plain HTTP; a `Secure` cookie is dropped by the browser on every
/// plain-HTTP request, which presents as "logging in appears to work and then
/// nothing does".
pub open spec fn cookie_text(token: Seq<char>) -> Seq<char> {
    COOKIE_NAME@ + "="@ + token + "; Path=/; HttpOnly; SameSite=Strict; Max-Age="@ + decimal(
        SESSION_LIFETIME_SECS as nat,
    )
}

/// The cookie that sets a session.
pub fn set_cookie(token: &str) -> (r: String)
    ensures
        r@ == cookie_text(token@),
{
    let mut c = concat(COOKIE_NAME, "=");
    c.append(token);
    c.append("; Path=/; HttpOnly; SameSite=Strict; Max-Age=");
    c.append(to_decimal(SESSION_LIFETIME_SECS).as_str());
    c
}

/// The cookie that clears it.
pub fn clear_cookie() -> (r: String)
    ensures
        r@ == COOKIE_NAME@ + "=; Path=/; HttpOnly; SameSite=Strict; Max-Age=0"@,
{
    concat(COOKIE_NAME, "=; Path=/; HttpOnly; SameSite=Strict; Max-Age=0")
}

/// Where the first equals sign stands, from a place on.
pub open spec fn equals_sign(s: Seq<char>, from: int) -> Option<int>
    decreases s.len() - from,
{
    if from < 0 || from >= s.len() {
        None
    } else if s[from] == '=' {
        Some(from)
    } else {
        equals_sign(s, from + 1)
    }
}

/// The value in one part of a cookie header, if the part is the session's.
pub open spec fn session_in(part: Seq<char>) -> Option<Seq<char>> {
    let p = trimmed(part);
    match equals_sign(p, 0) {
        Some(at) => if p.take(at) == COOKIE_NAME@ {
            Some(p.skip(at + 1))
        } else {
            None
        },
        None => None,
    }
}

/// The first value of the session's cookie among some parts.
pub open spec fn first_session(parts: Seq<Seq<char>>) -> Option<Seq<char>>
    decreases parts.len(),
{
    if parts.len() == 0 {
        None
    } else {
        match session_in(parts[0]) {
            Some(v) => Some(v),
            None => first_session(parts.drop_first()),
        }
    }
}

/// The token that a cookie header presents.
pub open spec fn presented(cookie: Option<Seq<char>>) -> Option<Seq<char>> {
    match cookie {
        Some(c) => first_session(pieces(c, ';')),
        None => None,
    }
}

/// A header as a value.
pub open spec fn opt_view(o: Option<&str>) -> Option<Seq<char>> {
    match o {
        Some(s) => Some(s@),
        None => None,
    }
}

proof fn equals_sign_is(s: Seq<char>, from: int, at: int)
    requires
        0 <= from <= at <= s.len(),
        forall|k: int| from <= k < at ==> s[k] != '=',
        at < s.len() ==> s[at] == '=',
    ensures
        equals_sign(s, from) == (if at < s.len() {
            Some(at)
        } else {
            None::<int>
        }),
    decreases at - from,
{
    if from < at {
        equals_sign_is(s, from + 1, at);
    }
}

/// The token that a cookie header presents. `None` stands for a request
/// without one, or with one that is not text.
pub fn session_token(cookie: Option<&str>) -> (r: Option<String>)
    ensures
        match r {
            Some(t) => presented(opt_view(cookie)) == Some(t@),
            None => presented(opt_view(cookie)) is None,
        },
{
    let header = match cookie {
        Some(c) => to_chars(c),
        None => {
            return None;
        },
    };
    let parts = split(&header, ';');
    let ghost all = texts(parts@);
    let mut i: usize = 0;
    assert(all.skip(0) == all);
    while i < parts.len()
        invariant
            i <= parts@.len(),
            all == texts(parts@),
            presented(opt_view(cookie)) == first_session(all.skip(i as int)),
        decreases parts.len() - i,
    {
        assert(all.skip(i as int)[0] == parts@[i as int]@);
        assert(all.skip(i as int).drop_first() == all.skip(i + 1));
        let p = trim_chars(&to_chars(parts[i].as_str()));
        match find_char(&p, '=', 0) {
            Some(at) => {
                proof {
                    equals_sign_is(p@, 0, at as int);
                }
                let name = from_chars(&slice_chars(&p, 0, at));
                let value = from_chars(&slice_chars(&p, at + 1, p.len()));
                assert(name@ == p@.take(at as int));
                assert(value@ == p@.skip(at + 1));
                if same(name.as_str(), COOKIE_NAME) {
                    return Some(value);
                }
            },
            None => {
                proof {
                    equals_sign_is(p@, 0, p@.len() as int);
                }
            },
        }
        i = i + 1;
    }
    None
}

/// Paths served without a session.
///
/// `/` is the application shell: it contains no device data and shows a login
/// form when one is needed. Everything else, including the event stream and
/// the artwork, is behind the session: the listening history is the thing
/// being protected.
pub open spec fn is_public(path: Seq<char>) -> bool {
    path == "/"@ || path == "/api/session"@ || path == "/api/login"@
}

/// Authentication as values.
pub open spec fn opt_auth(a: Option<Auth>) -> Option<AuthView> {
    match a {
        Some(x) => Some(x@),
        None => None,
    }
}

/// Whether authentication, if there is any, is in order.
pub open spec fn auth_valid(a: Option<Auth>) -> bool {
    a matches Some(x) ==> x.valid()
}

impl AuthView {
    /// Authentication after a presented token was looked up, or was not:
    /// expired sessions are forgotten on that occasion.
    pub open spec fn looked_up(self, looked: bool, cookie: Option<Seq<char>>, now: u64) -> AuthView {
        if looked && presented(cookie) is Some {
            AuthView { sessions: live(self.sessions, now), ..self }
        } else {
            self
        }
    }
}

/// Whether a cookie header presents the token of a live session.
pub open spec fn logged_in(a: AuthView, cookie: Option<Seq<char>>, now: u64) -> bool {
    presented(cookie) matches Some(t) && names(live(a.sessions, now), t)
}

/// Whether a request may go on. It is asked of every request, so that a route
/// added later is protected by default rather than by somebody remembering to
/// protect it.
pub fn guard(
    auth: &mut Option<Auth>,
    mutating: bool,
    has_header: bool,
    path: &str,
    cookie: Option<&str>,
    now: u64,
) -> (r: Option<Refusal>)
    requires
        auth_valid(*old(auth)),
    ensures
        auth_valid(*final(auth)),
        (*final(auth) is Some) == (*old(auth) is Some),
        if mutating && !has_header {
            r matches Some(x) && refuses(x, 400, "this request needs the X-LPFrame-Request header"@)
        } else {
            match opt_auth(*old(auth)) {
                None => r is None,
                Some(a) => if is_public(path@) || logged_in(a, opt_view(cookie), now) {
                    r is None
                } else {
                    r matches Some(Refusal::Unauthenticated)
                },
            }
        },
        opt_auth(*old(auth)) matches Some(a) ==> {
            let looked = !(mutating && !has_header) && !is_public(path@);
            opt_auth(*final(auth)) == Some(a.looked_up(looked, opt_view(cookie), now))
        },
{
    if mutating && !has_header {
        return Some(because(400, "this request needs the X-LPFrame-Request header"));
    }
    match auth.take() {
        None => None,
        Some(mut a) => {
            let mut ok: bool = same(path, "/") || same(path, "/api/session") || same(
                path,
                "/api/login",
            );
            if !ok {
                ok =
                match session_token(cookie) {
                    Some(t) => a.validate(t.as_str(), now),
                    None => false,
                };
            }
            *auth = Some(a);
            if ok {
                None
            } else {
                Some(Refusal::Unauthenticated)
            }
        },
    }
}

/// Whether a session is needed, and whether this client has one.
pub fn session(auth: &mut Option<Auth>, cookie: Option<&str>, now: u64) -> (r: (bool, bool))
    requires
        auth_valid(*old(auth)),
    ensures
        auth_valid(*final(auth)),
        (*final(auth) is Some) == (*old(auth) is Some),
        r.0 == (*old(auth) is Some),
        r.1 == match opt_auth(*old(auth)) {
            None => true,
            Some(a) => logged_in(a, opt_view(cookie), now),
        },
        opt_auth(*old(auth)) matches Some(a) ==> opt_auth(*final(auth)) == Some(
            a.looked_up(true, opt_view(cookie), now),
        ),
{
    match auth.take() {
        None => (false, true),
        Some(mut a) => {
            let ok: bool = match session_token(cookie) {
                Some(t) => a.validate(t.as_str(), now),
                None => false,
            };
            *auth = Some(a);
            (true, ok)
        },
    }
}

/// A login begins: the hash that the password is to be checked against, or a
/// refusal. The attempt is counted.
pub fn begin_login(auth: &mut Option<Auth>, from: &str, now: u64) -> (r: Result<String, Refusal>)
    requires
        auth_valid(*old(auth)),
    ensures
        auth_valid(*final(auth)),
        match opt_auth(*old(auth)) {
            None => {
                &&& *final(auth) is None
                &&& r matches Err(x) && refuses(x, 400, "authentication is disabled"@)
            },
            Some(a) => {
                let (attempts, allowed) = attempted(a.attempts, from@, now);
                &&& opt_auth(*final(auth)) == Some(AuthView { attempts, ..a })
                &&& if allowed {
                    r matches Ok(h) && h@ == a.hash
                } else {
                    r matches Err(Refusal::TooManyAttempts)
                }
            },
        },
{
    match auth.take() {
        None => Err(because(400, "authentication is disabled")),
        Some(mut a) => {
            let allowed: bool = a.note_attempt(from, now);
            let hash = a.hash().to_owned();
            *auth = Some(a);
            if allowed {
                Ok(hash)
            } else {
                Err(Refusal::TooManyAttempts)
            }
        },
    }
}

/// What a login is answered that had to wait too long for its turn.
pub fn too_busy() -> (r: Refusal)
    ensures
        refuses(r, 503, "too many logins at once; try again"@),
{
    because(503, "too many logins at once; try again")
}

/// A login ends: the cookie of a new session, or a refusal.
pub fn end_login(auth: &mut Option<Auth>, from: &str, ok: bool, now: u64) -> (r: Result<
    String,
    Refusal,
>)
    requires
        auth_valid(*old(auth)),
        now <= u64::MAX - SESSION_LIFETIME,
    ensures
        auth_valid(*final(auth)),
        match opt_auth(*old(auth)) {
            None => {
                &&& *final(auth) is None
                &&& r matches Err(x) && refuses(x, 400, "authentication is disabled"@)
            },
            Some(a) => if ok {
                exists|token: Seq<char>|
                    r matches Ok(c) && is_token(token) && c@ == #[trigger] cookie_text(token) && opt_auth(*final(auth))
                        == Some(
                        AuthView {
                            attempts: a.attempts.remove(from@),
                            sessions: admitted(a.sessions, token, now),
                            ..a
                        },
                    )
            } else {
                r matches Err(Refusal::Unauthenticated) && opt_auth(*final(auth)) == Some(a)
            },
        },
{
    match auth.take() {
        None => Err(because(400, "authentication is disabled")),
        Some(mut a) => {
            if !ok {
                *auth = Some(a);
                return Err(Refusal::Unauthenticated);
            }
            a.clear_attempts(from);
            let token = a.issue(now);
            *auth = Some(a);
            let cookie = set_cookie(token.as_str());
            assert(cookie@ == cookie_text(token@));
            Ok(cookie)
        },
    }
}

/// A logout: the session ends, and the cookie is cleared.
pub fn logout(auth: &mut Option<Auth>, cookie: Option<&str>) -> (r: String)
    requires
        auth_valid(*old(auth)),
    ensures
        auth_valid(*final(auth)),
        r@ == COOKIE_NAME@ + "=; Path=/; HttpOnly; SameSite=Strict; Max-Age=0"@,
        opt_auth(*final(auth)) == match (opt_auth(*old(auth)), presented(opt_view(cookie))) {
            (Some(a), Some(t)) => Some(AuthView { sessions: without(a.sessions, t), ..a }),
            (a, _) => a,
        },
{
    if let Some(mut a) = auth.take() {
        if let Some(t) = session_token(cookie) {
            a.revoke(t.as_str());
        }
        *auth = Some(a);
    }
    clear_cookie()
}

// --- settings -------------------------------------------------------------

/// One line of the settings page.
#[derive(Debug)]
pub struct Item {
    pub key: String,
    pub value: Json,
    pub default: Option<Json>,
    pub overridden: bool,
    pub tier: Tier,
    pub choices: Option<Vec<&'static str>>,
    pub hint: Option<&'static str>,
}

/// The leaves that may be shown.
pub open spec fn showable(leaves: Seq<Leaf>) -> Seq<Leaf>
    decreases leaves.len(),
{
    if leaves.len() == 0 {
        leaves
    } else if leaves.last().path@ == SECRET_KEY@ {
        showable(leaves.drop_last())
    } else {
        showable(leaves.drop_last()).push(leaves.last())
    }
}

/// Whether a line describes a leaf.
pub open spec fn describes(
    item: Item,
    leaf: Leaf,
    defaults: Seq<Leaf>,
    overridden: Seq<Seq<char>>,
) -> bool {
    let key = leaf.path@;
    &&& item.key@ == key
    &&& item.value.tree() == for_browser(leaf.value.tree())
    &&& match item.default {
        Some(d) => exists|i: int|
            0 <= i < defaults.len() && (#[trigger] defaults[i]).path@ == key && d.tree()
                == for_browser(defaults[i].value.tree()),
        None => forall|i: int|
            0 <= i < defaults.len() ==> (#[trigger] defaults[i]).path@ != key,
    }
    &&& item.overridden == overridden.contains(key)
    &&& item.tier == tier_of(key)
    &&& match item.choices {
        Some(v) => permitted(key) == Some(literals(v@)),
        None => permitted(key) is None,
    }
    &&& match item.hint {
        Some(h) => explanation(key) == Some(h@),
        None => explanation(key) is None,
    }
}

fn default_of(defaults: &Vec<Leaf>, key: &str) -> (r: Option<Json>)
    ensures
        match r {
            Some(d) => exists|i: int|
                0 <= i < defaults@.len() && (#[trigger] defaults@[i]).path@ == key@ && d.tree()
                    == for_browser(defaults@[i].value.tree()),
            None => forall|i: int|
                0 <= i < defaults@.len() ==> (#[trigger] defaults@[i]).path@ != key@,
        },
{
    let mut i: usize = 0;
    while i < defaults.len()
        invariant
            i <= defaults@.len(),
            forall|k: int| 0 <= k < i ==> (#[trigger] defaults@[k]).path@ != key@,
        decreases defaults.len() - i,
    {
        if same(defaults[i].path.as_str(), key) {
            let d = toml_to_json(&defaults[i].value);
            assert(defaults@[i as int].path@ == key@);
            return Some(d);
        }
        i = i + 1;
    }
    None
}

/// The settings page: every leaf of the configuration that may be shown, with
/// its default, whether it is overridden, and what changing it takes.
pub fn list_settings(current: &Vec<Leaf>, defaults: &Vec<Leaf>, overridden: &Vec<String>) -> (r: Vec<
    Item,
>)
    ensures
        r@.len() == showable(current@).len(),
        forall|i: int|
            0 <= i < r@.len() ==> describes(
                #[trigger] r@[i],
                showable(current@)[i],
                defaults@,
                texts(overridden@),
            ),
{
    let mut out: Vec<Item> = Vec::new();
    let mut n: usize = 0;
    assert(current@.take(0).len() == 0);
    while n < current.len()
        invariant
            n <= current@.len(),
            out@.len() == showable(current@.take(n as int)).len(),
            forall|i: int|
                0 <= i < out@.len() ==> describes(
                    #[trigger] out@[i],
                    showable(current@.take(n as int))[i],
                    defaults@,
                    texts(overridden@),
                ),
        decreases current.len() - n,
    {
        let ghost before = showable(current@.take(n as int));
        assert(current@.take(n + 1).drop_last() == current@.take(n as int));
        assert(current@.take(n + 1).last() == current@[n as int]);
        let leaf = &current[n];
        let key = leaf.path.as_str();
        if !is_secret(key) {
            let item = Item {
                key: leaf.path.clone(),
                value: toml_to_json(&leaf.value),
                default: default_of(defaults, key),
                overridden: list_contains(overridden, key),
                tier: tier(key),
                choices: choices(key),
                hint: hint(key),
            };
            assert(describes(item, *leaf, defaults@, texts(overridden@)));
            let ghost was = out@;
            out.push(item);
            proof {
                let after = showable(current@.take(n + 1));
                assert(after == before.push(*leaf));
                assert forall|i: int| 0 <= i < out@.len() implies describes(
                    #[trigger] out@[i],
                    after[i],
                    defaults@,
                    texts(overridden@),
                ) by {
                    if i < was.len() {
                        assert(out@[i] == was[i]);
                    }
                }
            }
        }
        n = n + 1;
    }
    assert(current@.take(current.len() as int) == current@);
    out
}

/// A change that may be tried.
#[derive(Debug)]
pub struct Patch {
    pub updates: Vec<Edit>,
    /// The keys among them that have to be confirmed.
    pub touched: Vec<String>,
}

/// Why a change may not be tried, if it may not: the status and the sentence.
pub open spec fn patch_problem(body: Seq<Member>) -> Option<(u16, Seq<char>)>
    decreases body.len(),
{
    if body.len() == 0 {
        None
    } else {
        match patch_problem(body.drop_last()) {
            Some(p) => Some(p),
            None => if body.last().key@ == SECRET_KEY@ {
                Some((403, "the password hash is not settable through this interface"@))
            } else if as_setting(body.last().value.tree()) is None {
                Some(
                    (
                        400,
                        debug_quoted(body.last().key@)
                            + " was sent a value this setting cannot hold"@,
                    ),
                )
            } else {
                None
            },
        }
    }
}

proof fn problems_stay(body: Seq<Member>, n: int)
    requires
        0 <= n <= body.len(),
        patch_problem(body.take(n)) is Some,
    ensures
        patch_problem(body) == patch_problem(body.take(n)),
    decreases body.len() - n,
{
    if n < body.len() {
        assert(body.take(n + 1).drop_last() == body.take(n));
        problems_stay(body, n + 1);
    } else {
        assert(body.take(n) == body);
    }
}

/// Whether changes are what a request asks for.
pub open spec fn asks_for(updates: Seq<Edit>, body: Seq<Member>) -> bool {
    &&& updates.len() == body.len()
    &&& forall|i: int|
        0 <= i < body.len() ==> asks_one(#[trigger] updates[i], body[i])
}

/// Whether a change is what a member of a request asks for.
pub open spec fn asks_one(update: Edit, member: Member) -> bool {
    &&& update.key@ == member.key@
    &&& update.value matches Some(v) && as_setting(member.value.tree()) == Some(v.tree())
}

/// Whether a request changes a key.
pub open spec fn changes(body: Seq<Member>, key: Seq<char>) -> bool {
    exists|i: int| 0 <= i < body.len() && (#[trigger] body[i]).key@ == key
}

/// The keys of a request that have to be confirmed.
pub open spec fn to_confirm(body: Seq<Member>) -> Seq<Seq<char>> {
    let mode = if changes(body, CONFIRM_MODE@) {
        seq![CONFIRM_MODE@]
    } else {
        Seq::empty()
    };
    if changes(body, CONFIRM_ROTATION@) {
        mode.push(CONFIRM_ROTATION@)
    } else {
        mode
    }
}

fn has_member(body: &Vec<Member>, key: &str) -> (r: bool)
    ensures
        r == changes(body@, key@),
{
    let mut i: usize = 0;
    while i < body.len()
        invariant
            i <= body@.len(),
            forall|k: int| 0 <= k < i ==> (#[trigger] body@[k]).key@ != key@,
        decreases body.len() - i,
    {
        if same(body[i].key.as_str(), key) {
            assert(body@[i as int].key@ == key@);
            return true;
        }
        i = i + 1;
    }
    false
}

/// Decide about a sparse update of the settings.
pub fn plan_patch(body: &Vec<Member>) -> (r: Result<Patch, Refusal>)
    ensures
        if body@.len() == 0 {
            r matches Err(x) && refuses(x, 400, "no settings in the request"@)
        } else {
            match patch_problem(body@) {
                Some(p) => r matches Err(x) && refuses(x, p.0, p.1),
                None => r matches Ok(p) && asks_for(p.updates@, body@) && texts(p.touched@)
                    == to_confirm(body@),
            }
        },
{
    if body.len() == 0 {
        return Err(because(400, "no settings in the request"));
    }
    let mut updates: Vec<Edit> = Vec::new();
    let mut i: usize = 0;
    assert(body@.take(0).len() == 0);
    while i < body.len()
        invariant
            i <= body@.len(),
            patch_problem(body@.take(i as int)) is None,
            asks_for(updates@, body@.take(i as int)),
        decreases body.len() - i,
    {
        let ghost so_far = body@.take(i + 1);
        assert(so_far.drop_last() == body@.take(i as int));
        assert(so_far.last() == body@[i as int]);
        if is_secret(body[i].key.as_str()) {
            proof {
                problems_stay(body@, i + 1);
            }
            return Err(
                because(403, "the password hash is not settable through this interface"),
            );
        }
        match json_to_toml(&body[i].value) {
            Some(v) => {
                let ghost was = updates@;
                let ghost head = body@.take(i as int);
                updates.push(Edit { key: body[i].key.clone(), value: Some(v) });
                assert forall|k: int| 0 <= k < so_far.len() implies asks_one(
                    #[trigger] updates@[k],
                    so_far[k],
                ) by {
                    if k < i {
                        assert(updates@[k] == was[k]);
                        assert(so_far[k] == head[k]);
                    }
                }
            },
            None => {
                proof {
                    problems_stay(body@, i + 1);
                }
                let message = concat(
                    quote(body[i].key.as_str()).as_str(),
                    " was sent a value this setting cannot hold",
                );
                return Err(because(400, message.as_str()));
            },
        }
        i = i + 1;
    }
    assert(body@.take(body.len() as int) == body@);
    let mut touched: Vec<String> = Vec::new();
    assert(texts(touched@) == Seq::<Seq<char>>::empty());
    if has_member(body, CONFIRM_MODE) {
        touched.push(CONFIRM_MODE.to_owned());
        assert(texts(touched@) == seq![CONFIRM_MODE@]);
    }
    let ghost mode = texts(touched@);
    if has_member(body, CONFIRM_ROTATION) {
        touched.push(CONFIRM_ROTATION.to_owned());
        assert(texts(touched@) == mode.push(CONFIRM_ROTATION@));
    }
    Ok(Patch { updates, touched })
}

/// Decide about a request to drop overrides.
pub fn plan_reset(wanted: &Vec<String>) -> (r: Result<Vec<Edit>, Refusal>)
    ensures
        if wanted@.len() == 0 {
            r matches Err(x) && refuses(x, 400, "no keys in the request"@)
        } else if texts(wanted@).contains(SECRET_KEY@) {
            r matches Err(x) && refuses(
                x,
                403,
                "the password hash is not resettable through this interface"@,
            )
        } else {
            r matches Ok(edits) && edits@.len() == wanted@.len() && forall|i: int|
                0 <= i < edits@.len() ==> (#[trigger] edits@[i]).key@ == wanted@[i]@
                    && edits@[i].value is None
        },
{
    if wanted.len() == 0 {
        return Err(because(400, "no keys in the request"));
    }
    if list_contains(wanted, SECRET_KEY) {
        return Err(because(403, "the password hash is not resettable through this interface"));
    }
    let mut edits: Vec<Edit> = Vec::new();
    let mut i: usize = 0;
    while i < wanted.len()
        invariant
            i <= wanted@.len(),
            edits@.len() == i,
            forall|k: int|
                0 <= k < i ==> (#[trigger] edits@[k]).key@ == wanted@[k]@ && edits@[k].value
                    is None,
        decreases wanted.len() - i,
    {
        edits.push(Edit { key: wanted[i].clone(), value: None });
        i = i + 1;
    }
    Ok(edits)
}

/// The overridden keys that may be named.
pub open spec fn nameable(overridden: Seq<Seq<char>>) -> Seq<Seq<char>>
    decreases overridden.len(),
{
    if overridden.len() == 0 {
        overridden
    } else if overridden.last() == SECRET_KEY@ {
        nameable(overridden.drop_last())
    } else {
        nameable(overridden.drop_last()).push(overridden.last())
    }
}

/// Which keys are overridden, minus the one the interface does not admit to.
///
/// The password hash is always overridden on a device with authentication on,
/// and naming it here would be the one place the interface mentions a setting
/// it otherwise refuses to read, write or list.
pub fn visible_overrides(overridden: &Vec<String>) -> (r: Vec<String>)
    ensures
        texts(r@) == nameable(texts(overridden@)),
{
    let ghost all = texts(overridden@);
    let mut out: Vec<String> = Vec::new();
    let mut i: usize = 0;
    assert(all.take(0).len() == 0);
    assert(texts(out@) == nameable(all.take(0)));
    while i < overridden.len()
        invariant
            i <= overridden@.len(),
            all == texts(overridden@),
            texts(out@) == nameable(all.take(i as int)),
        decreases overridden.len() - i,
    {
        assert(all.take(i + 1).drop_last() == all.take(i as int));
        assert(all.take(i + 1).last() == overridden@[i as int]@);
        if !is_secret(overridden[i].as_str()) {
            let ghost was = texts(out@);
            out.push(overridden[i].clone());
            assert(texts(out@) == was.push(overridden@[i as int]@));
        }
        i = i + 1;
    }
    assert(all.take(overridden.len() as int) == all);
    out
}

/// Whether one of some keys needs a restart.
pub open spec fn needs(keys: Seq<Seq<char>>, t: Tier) -> bool {
    exists|i: int| 0 <= i < keys.len() && tier_of(#[trigger] keys[i]) == t
}

/// The restarts that some keys need, each named once, in order.
pub open spec fn restarts(keys: Seq<Seq<char>>) -> Seq<Seq<char>> {
    let daemon = if needs(keys, Tier::Daemon) {
        seq![Tier::Daemon.name()]
    } else {
        Seq::empty()
    };
    if needs(keys, Tier::Renderer) {
        daemon.push(Tier::Renderer.name())
    } else {
        daemon
    }
}

/// The restarts that some keys need, each named once, in order.
pub fn tiers_touched(keys: &Vec<String>) -> (r: Vec<&'static str>)
    ensures
        literals(r@) == restarts(texts(keys@)),
{
    let ghost all = texts(keys@);
    let mut daemon: bool = false;
    let mut renderer: bool = false;
    let mut i: usize = 0;
    while i < keys.len()
        invariant
            i <= keys@.len(),
            all == texts(keys@),
            daemon == needs(all.take(i as int), Tier::Daemon),
            renderer == needs(all.take(i as int), Tier::Renderer),
        decreases keys.len() - i,
    {
        let t = tier(keys[i].as_str());
        proof {
            need_grows(all, i as int, Tier::Daemon);
            need_grows(all, i as int, Tier::Renderer);
        }
        match t {
            Tier::Daemon => {
                daemon = true;
            },
            Tier::Renderer => {
                renderer = true;
            },
            Tier::Live => {},
        }
        i = i + 1;
    }
    assert(all.take(keys.len() as int) == all);
    let mut out: Vec<&'static str> = Vec::new();
    assert(literals(out@) == Seq::<Seq<char>>::empty());
    if daemon {
        out.push(Tier::Daemon.as_str());
        assert(literals(out@) == seq![Tier::Daemon.name()]);
    }
    let ghost was = literals(out@);
    if renderer {
        out.push(Tier::Renderer.as_str());
        assert(literals(out@) == was.push(Tier::Renderer.name()));
    }
    out
}

proof fn need_grows(keys: Seq<Seq<char>>, n: int, t: Tier)
    requires
        0 <= n < keys.len(),
    ensures
        needs(keys.take(n + 1), t) == (needs(keys.take(n), t) || tier_of(keys[n]) == t),
{
    let a = keys.take(n);
    let b = keys.take(n + 1);
    assert(b[n] == keys[n]);
    if needs(a, t) {
        let i = choose|i: int| 0 <= i < a.len() && tier_of(#[trigger] a[i]) == t;
        assert(b[i] == a[i]);
    }
    if needs(b, t) {
        let i = choose|i: int| 0 <= i < b.len() && tier_of(#[trigger] b[i]) == t;
        if i < n {
            assert(a[i] == b[i]);
        }
    }
}

/// The answer to a change that the configuration does not take: the client's
/// fault, or ours. `number` is how an offending number reads.
pub fn config_error(e: &ConfigError, number: &str) -> (r: Refusal)
    ensures
        refuses(
            r,
            match *e {
                ConfigError::Invalid(_)
                | ConfigError::Parse { .. }
                | ConfigError::BadKey(_) => 400,
                ConfigError::Read { .. } | ConfigError::Write { .. } => 500,
            },
            e.text(number@),
        ),
{
    let status: u16 = match e {
        ConfigError::Invalid(_) | ConfigError::Parse { .. } | ConfigError::BadKey(_) => 400,
        ConfigError::Read { .. } | ConfigError::Write { .. } => 500,
    };
    because(status, e.message(number).as_str())
}

// --- actions --------------------------------------------------------------

/// What an action comes to.
#[derive(Debug)]
pub enum Act {
    /// Hand a command to the daemon.
    Send(Command),
    /// Restart a unit, and say whether that worked.
    Restart(&'static str),
    /// Answer first, then restart a unit: restarting it kills the connection
    /// the response is going out on.
    RestartAfter(&'static str),
    Refuse(Refusal),
}

/// What is said of a unit that nobody can restart from here.
pub open spec fn by_hand_text(unit: Seq<char>) -> Seq<char> {
    "systemd is not managing this device, so "@ + unit
        + " has to be restarted the way it was started. The change is written and takes effect then."@
}

fn by_hand(unit: &'static str) -> (r: Act)
    ensures
        r matches Act::Refuse(Refusal::ByHand { unit: u, message }) && u@ == unit@ && message@
            == by_hand_text(unit@),
{
    let mut message = concat("systemd is not managing this device, so ", unit);
    message.append(
        " has to be restarted the way it was started. The change is written and takes effect then.",
    );
    Act::Refuse(Refusal::ByHand { unit, message })
}

/// What an action comes to.
///
/// The renderer probes the display at startup, so restarting it *is* the
/// reprobe. Clearing the cache is refused: it means emptying an index and the
/// files it points at while the enrichment pipeline holds both open, and the
/// sweeper already enforces the cache's size.
pub fn plan_action(action: &str, systemd: bool) -> (r: Act)
    ensures
        if action@ == "amp_on"@ {
            r == Act::Send(Command::SetAmp(true))
        } else if action@ == "amp_off"@ {
            r == Act::Send(Command::SetAmp(false))
        } else if action@ == "display_wake"@ {
            r == Act::Send(Command::SetDisplay(DisplayPower::On))
        } else if action@ == "display_sleep"@ {
            r == Act::Send(Command::SetDisplay(DisplayPower::Off))
        } else if action@ == "restart_renderer"@ || action@ == "reprobe_display"@ {
            if systemd {
                r matches Act::Restart(u) && u@ == RENDERER_UNIT@
            } else {
                r matches Act::Refuse(Refusal::ByHand { unit, message }) && unit@ == RENDERER_UNIT@
                    && message@ == by_hand_text(unit@)
            }
        } else if action@ == "restart_daemon"@ {
            if systemd {
                r matches Act::RestartAfter(u) && u@ == DAEMON_UNIT@
            } else {
                r matches Act::Refuse(Refusal::ByHand { unit, message }) && unit@ == DAEMON_UNIT@
                    && message@ == by_hand_text(unit@)
            }
        } else if action@ == "cache_clear"@ {
            r matches Act::Refuse(x) && refuses(
                x,
                501,
                "cache_clear is not implemented; stop artd and remove cache.dir instead"@,
            )
        } else {
            r matches Act::Refuse(x) && refuses(x, 400, "unknown action "@ + debug_quoted(action@))
        },
{
    if same(action, "amp_on") {
        Act::Send(Command::SetAmp(true))
    } else if same(action, "amp_off") {
        Act::Send(Command::SetAmp(false))
    } else if same(action, "display_wake") {
        Act::Send(Command::SetDisplay(DisplayPower::On))
    } else if same(action, "display_sleep") {
        Act::Send(Command::SetDisplay(DisplayPower::Off))
    } else if same(action, "restart_renderer") || same(action, "reprobe_display") {
        if systemd {
            Act::Restart(RENDERER_UNIT)
        } else {
            by_hand(RENDERER_UNIT)
        }
    } else if same(action, "restart_daemon") {
        if systemd {
            Act::RestartAfter(DAEMON_UNIT)
        } else {
            by_hand(DAEMON_UNIT)
        }
    } else if same(action, "cache_clear") {
        Act::Refuse(
            because(501, "cache_clear is not implemented; stop artd and remove cache.dir instead"),
        )
    } else {
        let message = concat("unknown action ", quote(action).as_str());
        Act::Refuse(because(400, message.as_str()))
    }
}

// --- laws -----------------------------------------------------------------

/// The password hash never leaves: it is not among the settings that are
/// shown.
pub proof fn the_hash_is_never_shown(leaves: Seq<Leaf>, i: int)
    requires
        0 <= i < showable(leaves).len(),
    ensures
        showable(leaves)[i].path@ != SECRET_KEY@,
    decreases leaves.len(),
{
    if leaves.len() > 0 {
        let rest = leaves.drop_last();
        if i < showable(rest).len() {
            the_hash_is_never_shown(rest, i);
        }
    }
}

/// Nor is it among the overrides that are named.
pub proof fn the_hash_is_never_named(overridden: Seq<Seq<char>>, i: int)
    requires
        0 <= i < nameable(overridden).len(),
    ensures
        nameable(overridden)[i] != SECRET_KEY@,
    decreases overridden.len(),
{
    if overridden.len() > 0 {
        let rest = overridden.drop_last();
        if i < nameable(rest).len() {
            the_hash_is_never_named(rest, i);
        }
    }
}

/// And it cannot be set: a request that names it is refused as a whole.
pub proof fn the_hash_is_never_set(body: Seq<Member>, i: int)
    requires
        0 <= i < body.len(),
        body[i].key@ == SECRET_KEY@,
    ensures
        patch_problem(body) is Some,
    decreases body.len(),
{
    if i < body.len() - 1 {
        the_hash_is_never_set(body.drop_last(), i);
    }
}

proof fn tokens_are_hexadecimal(bytes: Seq<u8>, i: int)
    requires
        0 <= i < hex(bytes).len(),
    ensures
        '0' <= hex(bytes)[i] <= '9' || 'a' <= hex(bytes)[i] <= 'f',
    decreases bytes.len(),
{
    if bytes.len() > 0 {
        let rest = hex(bytes.drop_last());
        if i < rest.len() {
            tokens_are_hexadecimal(bytes.drop_last(), i);
        }
    }
}

/// A browser that sends back the cookie of a login presents its token.
pub proof fn a_cookie_presents_its_token(token: Seq<char>)
    requires
        is_token(token),
    ensures
        presented(Some(COOKIE_NAME@ + "="@ + token)) == Some(token),
{
    let bytes = choose|bytes: Seq<u8>| bytes.len() == 32 && token == #[trigger] hex(bytes);
    hex_length(bytes);
    reveal_strlit("lpframe_session");
    reveal_strlit("=");
    let name = COOKIE_NAME@;
    let c = name + "="@ + token;
    assert forall|k: int| 0 <= k < token.len() implies '0' <= #[trigger] token[k] <= '9' || 'a'
        <= token[k] <= 'f' by {
        tokens_are_hexadecimal(bytes, k);
    }
    assert forall|k: int| 0 <= k < c.len() implies #[trigger] c[k] != ';' by {
        if k >= 16 {
            assert(c[k] == token[k - 16]);
        }
    }
    first_piece_len_is(c, ';', c.len() as int);
    assert(pieces(c, ';') == seq![c]);
    assert(c[c.len() - 1] == token[token.len() - 1]);
    assert(trimmed(c) == c);
    equals_sign_is(c, 0, 15);
    assert(c.take(15) == name);
    assert(c.skip(16) == token);
}

/// A login admits: with the cookie that it sets, a client is logged in until
/// the session expires. A logout with that cookie ends it.
pub proof fn a_login_admits_until_it_ends(a: AuthView, token: Seq<char>, now: u64, later: u64)
    requires
        is_token(token),
        now <= u64::MAX - SESSION_LIFETIME,
        now <= later < now + SESSION_LIFETIME,
    ensures
        ({
            let cookie = Some(COOKIE_NAME@ + "="@ + token);
            let sessions = admitted(a.sessions, token, now);
            &&& logged_in(AuthView { sessions, ..a }, cookie, later)
            &&& !logged_in(AuthView { sessions: without(sessions, token), ..a }, cookie, later)
        }),
{
    a_cookie_presents_its_token(token);
    an_issued_token_validates_until_it_expires(a.sessions, token, now, later);
    let sessions = admitted(a.sessions, token, now);
    let left = without(sessions, token);
    revoking_ends_one_session(sessions, token, token);
    if names(live(left, later), token) {
        let k = choose|k: int|
            0 <= k < live(left, later).len() && (#[trigger] live(left, later)[k]).0 == token;
        live_only(left, later, k);
    }
}

/// A configuration that was accepted can be served, once there is a password
/// where one is asked for.
pub proof fn accepted_configurations_can_be_served(cfg: Config, addr: SocketAddress)
    requires
        cfg.problem(Some(addr@)) is None,
        cfg.web.enabled,
        cfg.web.auth ==> cfg.web.password_hash@.len() > 0,
    ensures
        may_bind(cfg.web, Some(addr)),
{
}

/// Nothing but the application shell, the question whether one is logged in, and
/// the login itself is answered without a session.
pub proof fn only_the_way_in_is_public(path: Seq<char>)
    ensures
        is_public(path) <==> path == "/"@ || path == "/api/session"@ || path == "/api/login"@,
        path.len() > 12 ==> !is_public(path),
{
    reveal_strlit("/");
    reveal_strlit("/api/session");
    reveal_strlit("/api/login");
}

/// A change is tried if and only if it neither sets the password's hash nor sends
/// something that no setting can hold.
pub proof fn what_cannot_be_set_is_refused(body: Seq<Member>)
    ensures
        patch_problem(body) is None <==> forall|i: int|
            0 <= i < body.len() ==> (#[trigger] body[i]).key@ != "web.password_hash"@ && as_setting(
                body[i].value.tree(),
            ) is Some,
    decreases body.len(),
{
    if body.len() > 0 {
        let rest = body.drop_last();
        what_cannot_be_set_is_refused(rest);
        assert forall|i: int| 0 <= i < rest.len() implies #[trigger] rest[i] == body[i] by {}
        assert(body[body.len() - 1] == body.last());
        if patch_problem(body) is None {
            assert forall|i: int| 0 <= i < body.len() implies (#[trigger] body[i]).key@
                != "web.password_hash"@ && as_setting(body[i].value.tree()) is Some by {
                if i < rest.len() {
                    assert(rest[i] == body[i]);
                }
            }
        }
    }
}

/// What could leave the screen dark has to be confirmed, and nothing else: a
/// change of the display's mode or of its rotation.
pub proof fn what_could_go_dark_is_confirmed(body: Seq<Member>, key: Seq<char>)
    ensures
        to_confirm(body).contains(key) <==> (key == "display.mode"@ || key == "display.rotation"@)
            && exists|i: int| 0 <= i < body.len() && (#[trigger] body[i]).key@ == key,
{
    let all = to_confirm(body);
    reveal_strlit("display.mode");
    reveal_strlit("display.rotation");
    assert("display.mode"@.len() != "display.rotation"@.len());
    if changes(body, CONFIRM_MODE@) {
        assert(all[0] == CONFIRM_MODE@);
    }
    if changes(body, CONFIRM_ROTATION@) {
        assert(all[all.len() - 1] == CONFIRM_ROTATION@);
    }
}

} // verus!
