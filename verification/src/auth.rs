//! Password authentication, bearer sessions, and role authorization.
//!
//! Passwords are stored only as salted Argon2id PHC strings; sessions are
//! random 256-bit bearer tokens; every query is authorized by the role of the
//! session's user before it runs.
use argon2::password_hash::{PasswordHasher, PasswordVerifier};
use vstd::prelude::*;

use crate::entropy::fill;
use crate::error::{error_detail, NovaError, Result};
use crate::nova_id::{encode_hex, hex_of};
use crate::text::{
    chars_of, debug_text, is_alphanumeric, plain_ascii, push_str, str_debug, unicode_alphanumeric, utf8_bytes,
};

verus! {

/// Bytes of random salt per password hash.
pub const SALT_BYTES: usize = 16;

/// Bytes of randomness per session token.
pub const TOKEN_BYTES: usize = 32;

/// Shortest accepted password, in UTF-8 bytes.
pub const MIN_PASSWORD_BYTES: usize = 8;

/// Longest accepted password, in UTF-8 bytes.
pub const MAX_PASSWORD_BYTES: usize = 1024;

/// Longest accepted username, in UTF-8 bytes.
pub const MAX_USERNAME_BYTES: usize = 64;

/// Coarse database roles enforced before query execution.
#[derive(Debug, Clone, Copy, PartialEq, Eq, Structural)]
pub enum Role {
    ReadOnly,
    ReadWrite,
    Admin,
}

/// Operation classes understood by authorization.
#[derive(Debug, Clone, Copy, PartialEq, Eq, Structural)]
pub enum Permission {
    Read,
    Write,
    Manage,
}

impl Role {
    /// What each role grants: read-only reads, read-write reads and writes,
    /// admin everything.
    pub open spec fn grants(self, permission: Permission) -> bool {
        match self {
            Role::ReadOnly => permission == Permission::Read,
            Role::ReadWrite => permission == Permission::Read || permission == Permission::Write,
            Role::Admin => true,
        }
    }

    /// Returns whether this role grants a permission.
    pub fn allows(self, permission: Permission) -> (r: bool)
        ensures
            r == self.grants(permission),
    {
        match self {
            Role::ReadOnly => match permission {
                Permission::Read => true,
                _ => false,
            },
            Role::ReadWrite => match permission {
                Permission::Manage => false,
                _ => true,
            },
            Role::Admin => true,
        }
    }
}

/// The name of a role.
pub open spec fn role_text(r: Role) -> Seq<char> {
    match r {
        Role::ReadOnly => "ReadOnly"@,
        Role::ReadWrite => "ReadWrite"@,
        Role::Admin => "Admin"@,
    }
}

/// The name of a permission.
pub open spec fn permission_text(p: Permission) -> Seq<char> {
    match p {
        Permission::Read => "Read"@,
        Permission::Write => "Write"@,
        Permission::Manage => "Manage"@,
    }
}

fn role_name(r: Role) -> (s: &'static str)
    ensures
        s@ == role_text(r),
{
    match r {
        Role::ReadOnly => "ReadOnly",
        Role::ReadWrite => "ReadWrite",
        Role::Admin => "Admin",
    }
}

fn permission_name(p: Permission) -> (s: &'static str)
    ensures
        s@ == permission_text(p),
{
    match p {
        Permission::Read => "Read",
        Permission::Write => "Write",
        Permission::Manage => "Manage",
    }
}

/// Authenticated identity returned by successful authorization.
#[derive(Debug, Clone, PartialEq, Eq)]
pub struct Principal {
    pub username: String,
    pub role: Role,
}

/// Opaque process-local bearer session token.
#[derive(Clone, PartialEq, Eq, PartialOrd, Ord, Hash)]
pub struct SessionToken(String);

impl View for SessionToken {
    type V = Seq<char>;

    closed spec fn view(&self) -> Seq<char> {
        self.0@
    }
}

impl SessionToken {
    /// The token text.
    pub fn as_str(&self) -> (r: &str)
        ensures
            r@ == self@,
    {
        self.0.as_str()
    }

    /// The token text, by value.
    pub fn into_string(self) -> (r: String)
        ensures
            r@ == self@,
    {
        self.0
    }

    /// The debugging text of a token, which never shows the secret.
    pub fn debug_string(&self) -> (r: String)
        ensures
            r@ == "SessionToken([REDACTED])"@,
    {
        "SessionToken([REDACTED])".to_owned()
    }
}

/// The PHC string Argon2id (default parameters) computes for a password and
/// a raw salt.
pub uninterp spec fn argon2_phc(password: Seq<u8>, salt: Seq<u8>) -> Seq<char>;

/// Whether Argon2 accepts a password against a PHC string.
pub uninterp spec fn argon2_matches(password: Seq<u8>, phc: Seq<char>) -> bool;

/// Hashes a password with Argon2id under its default parameters and a salt
/// given as raw bytes (the salt is first encoded as `SaltString::encode_b64`
/// requires), and renders the result as its PHC string. The result is a
/// function of the password and the salt; with a password of at most
/// `u32::MAX` bytes the computation succeeds. The salt must be 16 bytes:
/// Argon2 panics on a salt too short to encode. Calls
/// `argon2::Argon2::hash_password`.
#[verifier::external_body]
fn argon2_hash(password: &[u8], salt: &[u8]) -> (r: Option<String>)
    requires
        salt@.len() == 16,
    ensures
        r matches Some(s) ==> s@ == argon2_phc(password@, salt@),
        r is Some <==> password@.len() <= 0xFFFF_FFFF,
{
    let salt = argon2::password_hash::SaltString::encode_b64(salt).ok()?;
    argon2::Argon2::default().hash_password(password, &salt).ok().map(|h| h.to_string())
}

/// Parses a PHC string (`argon2::PasswordHash::new`) and checks a password
/// against it (`argon2::Argon2::verify_password` with default settings).
/// `None` when the string does not parse. A string that Argon2 itself
/// produced parses, and accepts the password it was computed from.
#[verifier::external_body]
fn argon2_verify(password: &[u8], encoded: &str) -> (r: Option<bool>)
    ensures
        r matches Some(b) ==> b == argon2_matches(password@, encoded@),
        forall|p: Seq<u8>, salt: Seq<u8>|
            salt.len() == 16 && p.len() <= 0xFFFF_FFFF && encoded@ == #[trigger] argon2_phc(p, salt)
                ==> r is Some,
        forall|salt: Seq<u8>|
            salt.len() == 16 && password@.len() <= 0xFFFF_FFFF && encoded@ == #[trigger] argon2_phc(password@, salt)
                ==> r == Some(true),
{
    let parsed = argon2::password_hash::PasswordHash::new(encoded).ok()?;
    Some(argon2::Argon2::default().verify_password(password, &parsed).is_ok())
}

/// A PHC string that Argon2 computed from some password and a 16-byte salt.
pub open spec fn is_phc(h: Seq<char>) -> bool {
    exists|p: Seq<u8>, salt: Seq<u8>|
        salt.len() == 16 && p.len() <= 0xFFFF_FFFF && h == #[trigger] argon2_phc(p, salt)
}

/// A valid username: 1 through 64 UTF-8 bytes of `_` and alphanumerics.
pub open spec fn username_ok(s: Seq<char>) -> bool {
    &&& s.len() > 0
    &&& (utf8_bytes(s).len() as usize) <= 64
    &&& forall|i: int| 0 <= i < s.len() ==> #[trigger] s[i] == '_' || unicode_alphanumeric(s[i])
}

/// A valid password: 8 through 1024 UTF-8 bytes.
pub open spec fn password_ok(s: Seq<char>) -> bool {
    8 <= (utf8_bytes(s).len() as usize) <= 1024
}

/// Checks a username.
pub fn validate_username(username: &str) -> (r: Result<()>)
    ensures
        r is Ok <==> username_ok(username@),
        r matches Err(e) ==> e is InvalidArgument && error_detail(e) == "invalid username "@
            + str_debug(username@),
{
    let chars = chars_of(username);
    let mut all_ok = true;
    let mut i: usize = 0;
    while i < chars.len()
        invariant
            i <= chars@.len(),
            chars@ == username@,
            all_ok <==> forall|j: int| 0 <= j < i ==> #[trigger] chars@[j] == '_' || unicode_alphanumeric(chars@[j]),
        decreases chars.len() - i,
    {
        let c = chars[i];
        if !(c == '_' || is_alphanumeric(c)) {
            all_ok = false;
        }
        i = i + 1;
    }
    if chars.len() == 0 || username.len() > MAX_USERNAME_BYTES || !all_ok {
        let mut message = String::new();
        push_str(&mut message, "invalid username ");
        let quoted = debug_text(username);
        push_str(&mut message, quoted.as_str());
        return Err(NovaError::InvalidArgument(message));
    }
    Ok(())
}

/// Checks a password's length.
pub fn validate_password(password: &str) -> (r: Result<()>)
    ensures
        r is Ok <==> password_ok(password@),
        r matches Err(e) ==> e is InvalidArgument && error_detail(e)
            == "password must be 8 through 1024 UTF-8 bytes"@,
{
    let n = password.len();
    if n < MIN_PASSWORD_BYTES || n > MAX_PASSWORD_BYTES {
        return Err(NovaError::InvalidArgument("password must be 8 through 1024 UTF-8 bytes".to_owned()));
    }
    Ok(())
}

/// Hashes a password with a fresh random 16-byte salt. The salt is random,
/// so only its length is known; the failure of the entropy source is an
/// `Internal` error.
pub fn hash_password(password: &str) -> (r: Result<String>)
    ensures
        r matches Ok(h) ==> utf8_bytes(password@).len() <= 0xFFFF_FFFF && exists|salt: Seq<u8>|
            salt.len() == 16 && h@ == #[trigger] argon2_phc(utf8_bytes(password@), salt),
        r matches Err(e) ==> e is Internal,
{
    let mut salt: Vec<u8> = vec![0u8; SALT_BYTES];
    match fill(salt.as_mut_slice()) {
        Ok(()) => {},
        Err(_) => {
            return Err(NovaError::Internal("auth entropy failure".to_owned()));
        },
    }
    let bytes = password.as_bytes();
    proof {
        assert(bytes@ == utf8_bytes(password@));
    }
    match argon2_hash(bytes, salt.as_slice()) {
        Some(h) => Ok(h),
        None => Err(NovaError::Internal("password hashing failure".to_owned())),
    }
}

/// A fresh bearer token: 32 random bytes as 64 lowercase hex digits.
pub fn random_token() -> (r: Result<SessionToken>)
    ensures
        r matches Ok(t) ==> exists|bytes: Seq<u8>| bytes.len() == 32 && t@ == #[trigger] hex_of(bytes),
        r matches Err(e) ==> e is Internal,
{
    let mut bytes: Vec<u8> = vec![0u8; TOKEN_BYTES];
    match fill(bytes.as_mut_slice()) {
        Ok(()) => {},
        Err(_) => {
            return Err(NovaError::Internal("auth entropy failure".to_owned()));
        },
    }
    let token = encode_hex(bytes.as_slice());
    Ok(SessionToken(token))
}

/// A stored user.
struct UserRecord {
    name: String,
    password_hash: String,
    role: Role,
    enabled: bool,
}

/// A live session.
struct Session {
    token: String,
    owner: String,
}

/// The abstract value of a stored user.
pub struct UserView {
    pub password_hash: Seq<char>,
    pub role: Role,
    pub enabled: bool,
}

impl UserRecord {
    spec fn user_view(self) -> UserView {
        UserView { password_hash: self.password_hash@, role: self.role, enabled: self.enabled }
    }
}

/// The abstract value of the service: users by name, and the owner of each
/// live session token.
pub struct AuthView {
    pub users: Map<Seq<char>, UserView>,
    pub sessions: Map<Seq<char>, Seq<char>>,
}

/// The sessions that remain when every session of `owner` is revoked.
pub open spec fn without_owner(m: Map<Seq<char>, Seq<char>>, owner: Seq<char>) -> Map<Seq<char>, Seq<char>> {
    Map::new(|t: Seq<char>| m.contains_key(t) && m[t] != owner, |t: Seq<char>| m[t])
}

/// Authentication and deterministic role authorization service.
pub struct AuthService {
    users: Vec<UserRecord>,
    sessions: Vec<Session>,
    dummy_hash: String,
    user_map: Ghost<Map<Seq<char>, UserView>>,
    session_map: Ghost<Map<Seq<char>, Seq<char>>>,
}

impl View for AuthService {
    type V = AuthView;

    closed spec fn view(&self) -> AuthView {
        AuthView { users: self.user_map@, sessions: self.session_map@ }
    }
}

/// The user has an enabled account whose stored hash Argon2 computed from
/// this very password.
pub open spec fn password_set(v: AuthView, username: Seq<char>, password: Seq<char>) -> bool {
    &&& v.users.contains_key(username)
    &&& v.users[username].enabled
    &&& utf8_bytes(password).len() <= 0xFFFF_FFFF
    &&& exists|salt: Seq<u8>|
        salt.len() == 16 && v.users[username].password_hash == #[trigger] argon2_phc(utf8_bytes(password), salt)
}

/// The user has an enabled account whose stored hash accepts the password.
pub open spec fn credentials_valid(v: AuthView, username: Seq<char>, password: Seq<char>) -> bool {
    &&& v.users.contains_key(username)
    &&& v.users[username].enabled
    &&& argon2_matches(utf8_bytes(password), v.users[username].password_hash)
}

/// The user records have unique names and are exactly the map's entries.
spec fn users_agree(users: Seq<UserRecord>, m: Map<Seq<char>, UserView>) -> bool {
    &&& forall|i: int, j: int| 0 <= i < j < users.len() ==> #[trigger] users[i].name@ != #[trigger] users[j].name@
    &&& forall|i: int|
        0 <= i < users.len() ==> #[trigger] m.contains_key(users[i].name@) && m[users[i].name@]
            == users[i].user_view()
    &&& forall|k: Seq<char>|
        #[trigger] m.contains_key(k) ==> exists|i: int| 0 <= i < users.len() && #[trigger] users[i].name@ == k
}

/// The sessions have unique tokens and are exactly the map's entries.
spec fn sessions_agree(sessions: Seq<Session>, m: Map<Seq<char>, Seq<char>>) -> bool {
    &&& forall|i: int, j: int|
        0 <= i < j < sessions.len() ==> #[trigger] sessions[i].token@ != #[trigger] sessions[j].token@
    &&& forall|i: int|
        0 <= i < sessions.len() ==> #[trigger] m.contains_key(sessions[i].token@) && m[sessions[i].token@]
            == sessions[i].owner@
    &&& forall|k: Seq<char>|
        #[trigger] m.contains_key(k) ==> exists|i: int|
            0 <= i < sessions.len() && #[trigger] sessions[i].token@ == k
}

impl AuthService {
    /// The stored vectors agree with the abstract maps, names and tokens are
    /// unique, and every stored hash is an Argon2 PHC string.
    pub closed spec fn wf(&self) -> bool {
        &&& users_agree(self.users@, self.user_map@)
        &&& sessions_agree(self.sessions@, self.session_map@)
        &&& is_phc(self.dummy_hash@)
        &&& forall|k: Seq<char>| #[trigger] self.user_map@.contains_key(k) ==> is_phc(self.user_map@[k].password_hash)
    }

    /// Creates an empty service and the dummy hash that unknown users are
    /// checked against, so that every failed login costs one hash check.
    pub fn new() -> (r: Result<Self>)
        ensures
            r matches Ok(s) ==> s.wf() && s@.users == Map::<Seq<char>, UserView>::empty()
                && s@.sessions == Map::<Seq<char>, Seq<char>>::empty(),
            r matches Err(e) ==> e is Internal,
    {
        let dummy = "novadb-dummy-credential";
        let dummy_hash = match hash_password(dummy) {
            Ok(h) => h,
            Err(e) => {
                return Err(e);
            },
        };
        Ok(AuthService {
            users: Vec::new(),
            sessions: Vec::new(),
            dummy_hash,
            user_map: Ghost(Map::empty()),
            session_map: Ghost(Map::empty()),
        })
    }

    fn find_user(&self, name: &str) -> (r: Option<usize>)
        requires
            self.wf(),
        ensures
            match r {
                Some(i) => i < self.users@.len() && self.users@[i as int].name@ == name@
                    && self@.users.contains_key(name@) && self@.users[name@] == self.users@[i as int].user_view(),
                None => !self@.users.contains_key(name@),
            },
    {
        let mut i: usize = 0;
        while i < self.users.len()
            invariant
                self.wf(),
                i <= self.users@.len(),
                forall|j: int| 0 <= j < i ==> #[trigger] self.users@[j].name@ != name@,
            decreases self.users.len() - i,
        {
            if crate::text::str_eq(self.users[i].name.as_str(), name) {
                assert(self.user_map@.contains_key(self.users@[i as int].name@));
                return Some(i);
            }
            i = i + 1;
        }
        None
    }

    fn find_session(&self, token: &str) -> (r: Option<usize>)
        requires
            self.wf(),
        ensures
            match r {
                Some(i) => i < self.sessions@.len() && self.sessions@[i as int].token@ == token@
                    && self@.sessions.contains_key(token@) && self@.sessions[token@]
                    == self.sessions@[i as int].owner@,
                None => !self@.sessions.contains_key(token@),
            },
    {
        let mut i: usize = 0;
        while i < self.sessions.len()
            invariant
                self.wf(),
                i <= self.sessions@.len(),
                forall|j: int| 0 <= j < i ==> #[trigger] self.sessions@[j].token@ != token@,
            decreases self.sessions.len() - i,
        {
            if crate::text::str_eq(self.sessions[i].token.as_str(), token) {
                assert(self.session_map@.contains_key(self.sessions@[i as int].token@));
                return Some(i);
            }
            i = i + 1;
        }
        None
    }

    /// Removes every session of `owner`.
    fn revoke_user_sessions(&mut self, owner: &str)
        requires
            old(self).wf(),
        ensures
            final(self).wf(),
            final(self)@.users == old(self)@.users,
            final(self)@.sessions == without_owner(old(self)@.sessions, owner@),
    {
        let ghost old_map = self.session_map@;
        let mut old_sessions: Vec<Session> = Vec::new();
        std::mem::swap(&mut old_sessions, &mut self.sessions);
        let ghost src_seq = old_sessions@;
        let n = old_sessions.len();
        let mut kept: Vec<Session> = Vec::new();
        let ghost mut from: Seq<int> = Seq::empty();
        let mut rest = old_sessions;
        let mut i: usize = 0;
        while rest.len() > 0
            invariant
                i + rest@.len() == src_seq.len(),
                src_seq.len() == n,
                rest@ == src_seq.skip(i as int),
                from.len() == kept@.len(),
                forall|a: int, b: int| 0 <= a < b < from.len() ==> #[trigger] from[a] < #[trigger] from[b],
                forall|a: int| 0 <= a < from.len() ==> 0 <= #[trigger] from[a] < i && kept@[a] == src_seq[from[a]],
                forall|a: int| 0 <= a < kept@.len() ==> #[trigger] kept@[a].owner@ != owner@,
                forall|j: int|
                    0 <= j < i && #[trigger] src_seq[j].owner@ != owner@ ==> exists|a: int|
                        0 <= a < from.len() && #[trigger] from[a] == j,
            decreases rest@.len(),
        {
            let sess = rest.remove(0);
            assert(sess == src_seq[i as int]);
            let ghost from_before = from;
            if !crate::text::str_eq(sess.owner.as_str(), owner) {
                proof {
                    from = from.push(i as int);
                }
                kept.push(sess);
            }
            proof {
                assert forall|j: int|
                    0 <= j < i + 1 && #[trigger] src_seq[j].owner@ != owner@ implies exists|a: int|
                        0 <= a < from.len() && #[trigger] from[a] == j by {
                    if j == i {
                        assert(from[from.len() - 1] == j);
                    } else {
                        let a = choose|a: int| 0 <= a < from_before.len() && #[trigger] from_before[a] == j;
                        assert(from[a] == from_before[a]);
                    }
                }
            }
            i = i + 1;
        }
        let ghost new_map = without_owner(old_map, owner@);
        proof {
            assert forall|a: int, b: int| 0 <= a < b < kept@.len() implies #[trigger] kept@[a].token@ != #[trigger] kept@[b].token@ by {
                assert(from[a] < from[b]);
                assert(src_seq[from[a]].token@ != src_seq[from[b]].token@);
            }
            assert forall|a: int| 0 <= a < kept@.len() implies #[trigger] new_map.contains_key(kept@[a].token@)
                && new_map[kept@[a].token@] == kept@[a].owner@ by {
                assert(old_map.contains_key(src_seq[from[a]].token@));
            }
        }
        self.sessions = kept;
        self.session_map = Ghost(new_map);
        proof {
            assert forall|k: Seq<char>| #[trigger] self.session_map@.contains_key(k) implies exists|a: int|
                0 <= a < self.sessions@.len() && #[trigger] self.sessions@[a].token@ == k by {
                assert(old_map.contains_key(k));
                let j = choose|j: int| 0 <= j < src_seq.len() && #[trigger] src_seq[j].token@ == k;
                assert(src_seq[j].owner@ == old_map[k]);
                assert(src_seq[j].owner@ != owner@);
                let a = choose|a: int| 0 <= a < from.len() && #[trigger] from[a] == j;
                assert(self.sessions@[a].token@ == k);
            }
        }
    }

    /// Adds a user with a freshly salted Argon2id password hash.
    ///
    /// Errors, in the order they are checked: an invalid username or
    /// password (`InvalidArgument`), an entropy or hashing failure
    /// (`Internal`), an existing user (`AlreadyExists`).
    pub fn create_user(&mut self, username: &str, password: &str, role: Role) -> (r: Result<()>)
        requires
            old(self).wf(),
        ensures
            final(self).wf(),
            final(self)@.sessions == old(self)@.sessions,
            match r {
                Ok(()) => {
                    &&& username_ok(username@)
                    &&& password_ok(password@)
                    &&& !old(self)@.users.contains_key(username@)
                    &&& exists|salt: Seq<u8>|
                        salt.len() == 16 && final(self)@.users == old(self)@.users.insert(
                            username@,
                            UserView {
                                password_hash: #[trigger] argon2_phc(utf8_bytes(password@), salt),
                                role,
                                enabled: true,
                            },
                        )
                },
                Err(e) => {
                    &&& final(self)@ == old(self)@
                    &&& !username_ok(username@) ==> e is InvalidArgument
                    &&& username_ok(username@) && !password_ok(password@) ==> e is InvalidArgument
                    &&& username_ok(username@) && password_ok(password@) ==> (e is Internal || (e is AlreadyExists
                        && old(self)@.users.contains_key(username@) && error_detail(e) == "user "@
                        + str_debug(username@)))
                },
            },
    {
        match validate_username(username) {
            Ok(()) => {},
            Err(e) => {
                return Err(e);
            },
        }
        match validate_password(password) {
            Ok(()) => {},
            Err(e) => {
                return Err(e);
            },
        }
        let password_hash = match hash_password(password) {
            Ok(h) => h,
            Err(e) => {
                return Err(e);
            },
        };
        if self.find_user(username).is_some() {
            let mut message = String::new();
            push_str(&mut message, "user ");
            let quoted = debug_text(username);
            push_str(&mut message, quoted.as_str());
            return Err(NovaError::AlreadyExists(message));
        }
        let ghost old_map = self.user_map@;
        let ghost view = UserView { password_hash: password_hash@, role, enabled: true };
        let ghost old_users = self.users@;
        self.users.push(UserRecord { name: username.to_owned(), password_hash, role, enabled: true });
        self.user_map = Ghost(old_map.insert(username@, view));
        proof {
            assert(!old_map.contains_key(username@));
            assert forall|i: int, j: int| 0 <= i < j < self.users@.len() implies #[trigger] self.users@[i].name@ != #[trigger] self.users@[j].name@ by {
                if j == old_users.len() {
                    assert(old_map.contains_key(old_users[i].name@));
                } else {
                    assert(old_users[i].name@ != old_users[j].name@);
                }
            }
            assert forall|i: int| 0 <= i < self.users@.len() implies #[trigger] self.user_map@.contains_key(self.users@[i].name@)
                && self.user_map@[self.users@[i].name@] == self.users@[i].user_view() by {
                if i < old_users.len() {
                    assert(old_map.contains_key(old_users[i].name@));
                }
            }
            assert forall|k: Seq<char>| #[trigger] self.user_map@.contains_key(k) implies exists|i: int|
                0 <= i < self.users@.len() && #[trigger] self.users@[i].name@ == k by {
                if k == username@ {
                    assert(self.users@[old_users.len() as int].name@ == k);
                } else {
                    let i = choose|i: int| 0 <= i < old_users.len() && #[trigger] old_users[i].name@ == k;
                    assert(self.users@[i].name@ == k);
                }
            }
            assert forall|k: Seq<char>| #[trigger] self.user_map@.contains_key(k) implies is_phc(self.user_map@[k].password_hash) by {
                if k == username@ {
                    let salt = choose|salt: Seq<u8>| salt.len() == 16 && view.password_hash == #[trigger] argon2_phc(utf8_bytes(password@), salt);
                    assert(view.password_hash == argon2_phc(utf8_bytes(password@), salt));
                } else {
                    assert(old_map.contains_key(k));
                }
            }
        }
        Ok(())
    }

    /// Rewrites the record at `i`, keeping its name.
    fn set_user(&mut self, i: usize, password_hash: String, role: Role, enabled: bool)
        requires
            old(self).wf(),
            i < old(self).users@.len(),
            is_phc(password_hash@),
        ensures
            final(self).wf(),
            final(self)@.sessions == old(self)@.sessions,
            final(self)@.users == old(self)@.users.insert(
                old(self).users@[i as int].name@,
                UserView { password_hash: password_hash@, role, enabled },
            ),
            final(self).users@.len() == old(self).users@.len(),
            forall|j: int| 0 <= j < final(self).users@.len() ==> #[trigger] final(self).users@[j].name@ == old(self).users@[j].name@,
    {
        let ghost old_users = self.users@;
        let ghost old_map = self.user_map@;
        let ghost name = self.users@[i as int].name@;
        let ghost view = UserView { password_hash: password_hash@, role, enabled };
        let mut users: Vec<UserRecord> = Vec::new();
        std::mem::swap(&mut users, &mut self.users);
        let rec = users.remove(i);
        users.insert(i, UserRecord { name: rec.name, password_hash, role, enabled });
        self.users = users;
        self.user_map = Ghost(old_map.insert(name, view));
        proof {
            assert(self.users@ =~= old_users.update(i as int, self.users@[i as int]));
            assert forall|a: int, b: int| 0 <= a < b < self.users@.len() implies #[trigger] self.users@[a].name@
                != #[trigger] self.users@[b].name@ by {
                assert(old_users[a].name@ != old_users[b].name@);
            }
            assert forall|j: int| 0 <= j < self.users@.len() implies #[trigger] self.user_map@.contains_key(self.users@[j].name@)
                && self.user_map@[self.users@[j].name@] == self.users@[j].user_view() by {
                if j != i {
                    assert(old_users[j].name@ != old_users[i as int].name@);
                    assert(old_map.contains_key(old_users[j].name@));
                }
            }
            assert forall|k: Seq<char>| #[trigger] self.user_map@.contains_key(k) implies exists|j: int|
                0 <= j < self.users@.len() && #[trigger] self.users@[j].name@ == k by {
                if k == name {
                    assert(self.users@[i as int].name@ == k);
                } else {
                    let j = choose|j: int| 0 <= j < old_users.len() && #[trigger] old_users[j].name@ == k;
                    assert(self.users@[j].name@ == k);
                }
            }
            assert forall|k: Seq<char>| #[trigger] self.user_map@.contains_key(k) implies is_phc(self.user_map@[k].password_hash) by {
                if k != name {
                    assert(old_map.contains_key(k));
                }
            }
            assert(users_agree(self.users@, self.user_map@));
            assert(sessions_agree(self.sessions@, self.session_map@));
            assert(is_phc(self.dummy_hash@));
        }
    }

    /// Records a session, replacing any session with the same token.
    fn insert_session(&mut self, token: &str, owner: &str)
        requires
            old(self).wf(),
        ensures
            final(self).wf(),
            final(self)@.users == old(self)@.users,
            final(self)@.sessions == old(self)@.sessions.insert(token@, owner@),
    {
        let ghost old_map = self.session_map@;
        if let Some(j) = self.find_session(token) {
            let ghost before = self.sessions@;
            let mut sessions: Vec<Session> = Vec::new();
            std::mem::swap(&mut sessions, &mut self.sessions);
            sessions.remove(j);
            self.sessions = sessions;
            self.session_map = Ghost(old_map.remove(token@));
            proof {
                assert(self.sessions@ =~= before.remove(j as int));
                assert forall|a: int, b: int| 0 <= a < b < self.sessions@.len() implies #[trigger] self.sessions@[a].token@
                    != #[trigger] self.sessions@[b].token@ by {
                    let a0 = if a < j { a } else { a + 1 };
                    let b0 = if b < j { b } else { b + 1 };
                    assert(before[a0].token@ != before[b0].token@);
                }
                assert forall|a: int| 0 <= a < self.sessions@.len() implies #[trigger] self.session_map@.contains_key(self.sessions@[a].token@)
                    && self.session_map@[self.sessions@[a].token@] == self.sessions@[a].owner@ by {
                    let a0 = if a < j { a } else { a + 1 };
                    assert(before[a0].token@ != before[j as int].token@);
                    assert(old_map.contains_key(before[a0].token@));
                }
                assert forall|k: Seq<char>| #[trigger] self.session_map@.contains_key(k) implies exists|a: int|
                    0 <= a < self.sessions@.len() && #[trigger] self.sessions@[a].token@ == k by {
                    let a0 = choose|a0: int| 0 <= a0 < before.len() && #[trigger] before[a0].token@ == k;
                    if a0 < j {
                        assert(self.sessions@[a0].token@ == k);
                    } else {
                        assert(a0 != j);
                        assert(self.sessions@[a0 - 1].token@ == k);
                    }
                }
            }
        }
        let ghost mid_map = self.session_map@;
        let ghost mid = self.sessions@;
        proof {
            assert(!mid_map.contains_key(token@));
        }
        self.sessions.push(Session { token: token.to_owned(), owner: owner.to_owned() });
        self.session_map = Ghost(mid_map.insert(token@, owner@));
        proof {
            assert forall|a: int, b: int| 0 <= a < b < self.sessions@.len() implies #[trigger] self.sessions@[a].token@
                != #[trigger] self.sessions@[b].token@ by {
                if b == mid.len() {
                    assert(mid_map.contains_key(mid[a].token@));
                } else {
                    assert(mid[a].token@ != mid[b].token@);
                }
            }
            assert forall|a: int| 0 <= a < self.sessions@.len() implies #[trigger] self.session_map@.contains_key(self.sessions@[a].token@)
                && self.session_map@[self.sessions@[a].token@] == self.sessions@[a].owner@ by {
                if a < mid.len() {
                    assert(mid_map.contains_key(mid[a].token@));
                }
            }
            assert forall|k: Seq<char>| #[trigger] self.session_map@.contains_key(k) implies exists|a: int|
                0 <= a < self.sessions@.len() && #[trigger] self.sessions@[a].token@ == k by {
                if k == token@ {
                    assert(self.sessions@[mid.len() as int].token@ == k);
                } else {
                    let a = choose|a: int| 0 <= a < mid.len() && #[trigger] mid[a].token@ == k;
                    assert(self.sessions@[a].token@ == k);
                }
            }
            assert(self.session_map@ =~= old_map.insert(token@, owner@));
        }
    }

    /// Verifies credentials and creates a random bearer session.
    ///
    /// Unknown users, disabled users and wrong passwords all get the same
    /// `Auth` error, and each costs one hash check. A failure of the entropy
    /// source is an `Internal` error.
    pub fn authenticate(&mut self, username: &str, password: &str) -> (r: Result<SessionToken>)
        requires
            old(self).wf(),
        ensures
            final(self).wf(),
            match r {
                Ok(t) => {
                    &&& credentials_valid(old(self)@, username@, password@)
                    &&& final(self)@.users == old(self)@.users
                    &&& final(self)@.sessions == old(self)@.sessions.insert(t@, username@)
                    &&& exists|bytes: Seq<u8>| bytes.len() == 32 && t@ == #[trigger] hex_of(bytes)
                },
                Err(e) => {
                    &&& final(self)@ == old(self)@
                    &&& credentials_valid(old(self)@, username@, password@) ==> e is Internal
                    &&& !credentials_valid(old(self)@, username@, password@) ==> e is Auth && error_detail(e)
                        == "invalid credentials"@
                    &&& password_set(old(self)@, username@, password@) ==> e is Internal
                },
            },
    {
        let found = self.find_user(username);
        let (encoded, valid_user): (&str, bool) = match found {
            Some(i) => (self.users[i].password_hash.as_str(), self.users[i].enabled),
            None => (self.dummy_hash.as_str(), false),
        };
        let bytes = password.as_bytes();
        proof {
            assert(bytes@ == utf8_bytes(password@));
            if found is Some {
                assert(self.user_map@.contains_key(username@));
            }
            assert(is_phc(encoded@));
            if password_set(self@, username@, password@) {
                let salt = choose|salt: Seq<u8>| salt.len() == 16 && self@.users[username@].password_hash == #[trigger] argon2_phc(utf8_bytes(password@), salt);
                assert(encoded@ == argon2_phc(bytes@, salt));
            }
        }
        let verified = match argon2_verify(bytes, encoded) {
            Some(v) => v,
            None => {
                return Err(NovaError::Internal("stored password hash invalid".to_owned()));
            },
        };
        if !valid_user || !verified {
            return Err(NovaError::Auth("invalid credentials".to_owned()));
        }
        let token = match random_token() {
            Ok(t) => t,
            Err(e) => {
                return Err(e);
            },
        };
        self.insert_session(token.as_str(), username);
        Ok(token)
    }

    /// Resolves a bearer token and checks its role: an unknown session, or
    /// one whose user is gone or disabled, is an `Auth` error; a role that
    /// does not grant the permission is `PermissionDenied`.
    pub fn authorize(&self, token: &str, permission: Permission) -> (r: Result<Principal>)
        requires
            self.wf(),
        ensures
            !self@.sessions.contains_key(token@) ==> (r matches Err(e) && e is Auth && error_detail(e)
                == "invalid or expired session"@),
            self@.sessions.contains_key(token@) ==> {
                let owner = self@.sessions[token@];
                if !self@.users.contains_key(owner) || !self@.users[owner].enabled {
                    r matches Err(e) && e is Auth && error_detail(e) == "invalid or expired session"@
                } else if !self@.users[owner].role.grants(permission) {
                    r matches Err(e) && e is PermissionDenied && error_detail(e) == "role "@ + role_text(
                        self@.users[owner].role,
                    ) + " does not grant "@ + permission_text(permission)
                } else {
                    r matches Ok(p) && p.username@ == owner && p.role == self@.users[owner].role
                }
            },
    {
        let j = match self.find_session(token) {
            Some(j) => j,
            None => {
                return Err(NovaError::Auth("invalid or expired session".to_owned()));
            },
        };
        let owner = &self.sessions[j].owner;
        let i = match self.find_user(owner.as_str()) {
            Some(i) => i,
            None => {
                return Err(NovaError::Auth("invalid or expired session".to_owned()));
            },
        };
        let user = &self.users[i];
        if !user.enabled {
            return Err(NovaError::Auth("invalid or expired session".to_owned()));
        }
        if !user.role.allows(permission) {
            let mut message = String::new();
            push_str(&mut message, "role ");
            push_str(&mut message, role_name(user.role));
            push_str(&mut message, " does not grant ");
            push_str(&mut message, permission_name(permission));
            return Err(NovaError::PermissionDenied(message));
        }
        Ok(Principal { username: owner.clone(), role: user.role })
    }

    /// Revokes one bearer session. Revocation is idempotent.
    pub fn revoke(&mut self, token: &str) -> (r: Result<()>)
        requires
            old(self).wf(),
        ensures
            final(self).wf(),
            r is Ok,
            final(self)@.users == old(self)@.users,
            final(self)@.sessions == old(self)@.sessions.remove(token@),
    {
        let ghost old_map = self.session_map@;
        if let Some(j) = self.find_session(token) {
            let ghost before = self.sessions@;
            let mut sessions: Vec<Session> = Vec::new();
            std::mem::swap(&mut sessions, &mut self.sessions);
            sessions.remove(j);
            self.sessions = sessions;
            self.session_map = Ghost(old_map.remove(token@));
            proof {
                assert(self.sessions@ =~= before.remove(j as int));
                assert forall|a: int, b: int| 0 <= a < b < self.sessions@.len() implies #[trigger] self.sessions@[a].token@
                    != #[trigger] self.sessions@[b].token@ by {
                    let a0 = if a < j { a } else { a + 1 };
                    let b0 = if b < j { b } else { b + 1 };
                    assert(before[a0].token@ != before[b0].token@);
                }
                assert forall|a: int| 0 <= a < self.sessions@.len() implies #[trigger] self.session_map@.contains_key(self.sessions@[a].token@)
                    && self.session_map@[self.sessions@[a].token@] == self.sessions@[a].owner@ by {
                    let a0 = if a < j { a } else { a + 1 };
                    assert(before[a0].token@ != before[j as int].token@);
                    assert(old_map.contains_key(before[a0].token@));
                }
                assert forall|k: Seq<char>| #[trigger] self.session_map@.contains_key(k) implies exists|a: int|
                    0 <= a < self.sessions@.len() && #[trigger] self.sessions@[a].token@ == k by {
                    let a0 = choose|a0: int| 0 <= a0 < before.len() && #[trigger] before[a0].token@ == k;
                    if a0 < j {
                        assert(self.sessions@[a0].token@ == k);
                    } else {
                        assert(a0 != j);
                        assert(self.sessions@[a0 - 1].token@ == k);
                    }
                }
            }
        } else {
            assert(old_map.remove(token@) =~= old_map);
        }
        Ok(())
    }

    fn not_found_user(username: &str) -> (e: NovaError)
        ensures
            e is NotFound && error_detail(e) == "user "@ + str_debug(username@),
    {
        let mut message = String::new();
        push_str(&mut message, "user ");
        let quoted = debug_text(username);
        push_str(&mut message, quoted.as_str());
        NovaError::NotFound(message)
    }

    /// Changes a user's role and revokes every existing session of that user.
    pub fn set_role(&mut self, username: &str, role: Role) -> (r: Result<()>)
        requires
            old(self).wf(),
        ensures
            final(self).wf(),
            r is Ok <==> old(self)@.users.contains_key(username@),
            r is Ok ==> final(self)@.users == old(self)@.users.insert(
                username@,
                UserView { role, ..old(self)@.users[username@] },
            ) && final(self)@.sessions == without_owner(old(self)@.sessions, username@),
            r matches Err(e) ==> final(self)@ == old(self)@ && e is NotFound && error_detail(e) == "user "@
                + str_debug(username@),
    {
        let i = match self.find_user(username) {
            Some(i) => i,
            None => {
                return Err(Self::not_found_user(username));
            },
        };
        let hash = self.users[i].password_hash.clone();
        let enabled = self.users[i].enabled;
        self.set_user(i, hash, role, enabled);
        self.revoke_user_sessions(username);
        Ok(())
    }

    /// Enables or disables a user, revoking the user's sessions when
    /// disabled.
    pub fn set_enabled(&mut self, username: &str, enabled: bool) -> (r: Result<()>)
        requires
            old(self).wf(),
        ensures
            final(self).wf(),
            r is Ok <==> old(self)@.users.contains_key(username@),
            r is Ok ==> final(self)@.users == old(self)@.users.insert(
                username@,
                UserView { enabled, ..old(self)@.users[username@] },
            ) && final(self)@.sessions == if enabled {
                old(self)@.sessions
            } else {
                without_owner(old(self)@.sessions, username@)
            },
            r matches Err(e) ==> final(self)@ == old(self)@ && e is NotFound && error_detail(e) == "user "@
                + str_debug(username@),
    {
        let i = match self.find_user(username) {
            Some(i) => i,
            None => {
                return Err(Self::not_found_user(username));
            },
        };
        let hash = self.users[i].password_hash.clone();
        let role = self.users[i].role;
        self.set_user(i, hash, role, enabled);
        if !enabled {
            self.revoke_user_sessions(username);
        }
        Ok(())
    }

    /// Replaces a password and revokes every existing session of the user.
    ///
    /// Errors, in the order they are checked: an invalid password
    /// (`InvalidArgument`), an entropy or hashing failure (`Internal`), an
    /// unknown user (`NotFound`).
    pub fn change_password(&mut self, username: &str, password: &str) -> (r: Result<()>)
        requires
            old(self).wf(),
        ensures
            final(self).wf(),
            match r {
                Ok(()) => {
                    &&& password_ok(password@)
                    &&& old(self)@.users.contains_key(username@)
                    &&& final(self)@.sessions == without_owner(old(self)@.sessions, username@)
                    &&& exists|salt: Seq<u8>|
                        salt.len() == 16 && final(self)@.users == old(self)@.users.insert(
                            username@,
                            UserView {
                                password_hash: #[trigger] argon2_phc(utf8_bytes(password@), salt),
                                ..old(self)@.users[username@]
                            },
                        )
                },
                Err(e) => {
                    &&& final(self)@ == old(self)@
                    &&& !password_ok(password@) ==> e is InvalidArgument
                    &&& password_ok(password@) ==> (e is Internal || (e is NotFound
                        && !old(self)@.users.contains_key(username@) && error_detail(e) == "user "@
                        + str_debug(username@)))
                },
            },
    {
        match validate_password(password) {
            Ok(()) => {},
            Err(e) => {
                return Err(e);
            },
        }
        let hash = match hash_password(password) {
            Ok(h) => h,
            Err(e) => {
                return Err(e);
            },
        };
        let i = match self.find_user(username) {
            Some(i) => i,
            None => {
                return Err(Self::not_found_user(username));
            },
        };
        let ghost h = hash@;
        proof {
            let salt = choose|salt: Seq<u8>| salt.len() == 16 && h == #[trigger] argon2_phc(utf8_bytes(password@), salt);
            assert(h == argon2_phc(utf8_bytes(password@), salt));
        }
        let role = self.users[i].role;
        let enabled = self.users[i].enabled;
        self.set_user(i, hash, role, enabled);
        self.revoke_user_sessions(username);
        Ok(())
    }
}

/// The privilege level of a role.
pub open spec fn role_level(r: Role) -> int {
    match r {
        Role::ReadOnly => 0,
        Role::ReadWrite => 1,
        Role::Admin => 2,
    }
}

/// The privilege level a permission needs.
pub open spec fn permission_level(p: Permission) -> int {
    match p {
        Permission::Read => 0,
        Permission::Write => 1,
        Permission::Manage => 2,
    }
}

/// Roles are ordered by privilege: a role grants exactly the permissions
/// whose level is at most its own, so whatever a lower role grants a higher
/// one grants too, every role may read, and only an admin may manage.
pub proof fn law_roles_ordered(a: Role, b: Role, p: Permission)
    ensures
        a.grants(p) == (permission_level(p) <= role_level(a)),
        role_level(a) <= role_level(b) && a.grants(p) ==> b.grants(p),
        a.grants(Permission::Read),
        a.grants(Permission::Manage) == (a == Role::Admin),
{
}

} // verus!
