//! The remote API: the requests the desk sends, how it reads the replies,
//! and password checks, online against the API and offline against the
//! hash kept in the cache.
use vstd::prelude::*;
use rand::RngCore;
use crate::text::{is_space, lemma_trim_line, lemma_utf8_round_trip, push_str_chars, string_of};
use crate::util::cache::{self, after_create, read_text, CacheStore};
use crate::util::traits::{opt_text, ApiPostRequest, Pushable, Queued};

verus! {

/// The root that request endpoints are appended to.
pub open spec fn api_root() -> Seq<char> {
    "https://team6479-signin.herokuapp.com/api"@
}

/// The URL that a request to `endpt` is posted to.
pub fn api_url(endpt: &str) -> (r: String)
    ensures
        r@ == api_root() + endpt@,
{
    let mut out: Vec<char> = Vec::new();
    push_str_chars(&mut out, "https://team6479-signin.herokuapp.com/api");
    push_str_chars(&mut out, endpt);
    string_of(out.as_slice())
}

/// How the desk reaches the API.
pub enum InternetStatus {
    /// The API answers.
    Online,
    /// No answer came back.
    Offline,
    /// Something answered, but not the API (a captive portal).
    Portal,
}

/// The request that checks whether the API answers.
pub fn ping_request() -> (r: ApiPostRequest)
    ensures
        r.endpt@ == "/ping"@,
        r.body@ == "ping"@,
        r.key is None,
{
    ApiPostRequest { endpt: "/ping".to_owned(), body: "ping".to_owned(), key: None }
}

fn same_text(a: &str, b: &str) -> (r: bool)
    ensures
        r == (a@ == b@),
{
    a.to_owned() == b.to_owned()
}

/// The status that the reply to the ping request shows: no reply means
/// offline, the reply `ping` means online, any other reply means a portal.
pub open spec fn status_of(reply: Option<Seq<char>>) -> InternetStatus {
    match reply {
        None => InternetStatus::Offline,
        Some(t) => if t == "ping"@ {
            InternetStatus::Online
        } else {
            InternetStatus::Portal
        },
    }
}

/// The status that the reply to the ping request shows.
pub fn get_status(reply: Option<String>) -> (r: InternetStatus)
    ensures
        r == status_of(opt_text(reply)),
{
    match reply {
        Some(data) => {
            if same_text(data.as_str(), "ping") {
                InternetStatus::Online
            } else {
                InternetStatus::Portal
            }
        },
        None => InternetStatus::Offline,
    }
}

/// The requests that send each queued record with the API key.
pub fn push_many(queue: &Vec<Queued>, key: &str) -> (r: Vec<ApiPostRequest>)
    ensures
        r@.len() == queue@.len(),
        forall|i: int| 0 <= i < r@.len() ==> {
            &&& (#[trigger] r@[i]).endpt@ == queue@[i].post_endpoint()
            &&& r@[i].body@ == queue@[i].post_body()
            &&& opt_text(r@[i].key) == Some(key@)
        },
{
    let mut r: Vec<ApiPostRequest> = Vec::new();
    let mut i: usize = 0;
    while i < queue.len()
        invariant
            i <= queue@.len(),
            r@.len() == i,
            forall|k: int| 0 <= k < i ==> {
                &&& (#[trigger] r@[k]).endpt@ == queue@[k].post_endpoint()
                &&& r@[k].body@ == queue@[k].post_body()
                &&& opt_text(r@[k].key) == Some(key@)
            },
        decreases queue@.len() - i,
    {
        r.push(queue[i].get_post_req(key));
        i = i + 1;
    }
    r
}

/// The request that checks a password (the API key) with the API: an empty
/// body sent with the password as the key.
pub fn key_check_request(passwd: &str) -> (r: ApiPostRequest)
    ensures
        r.endpt@ == "/key/check"@,
        r.body@ == Seq::<char>::empty(),
        opt_text(r.key) == Some(passwd@),
{
    ApiPostRequest { endpt: "/key/check".to_owned(), body: String::new(), key: Some(passwd.to_owned()) }
}

#[verifier::external_type_specification]
#[verifier::external_body]
pub struct ExArgon2Error(argon2::Error);

/// The encoded hash that `argon2::hash_encoded` gives for a password and a
/// salt under `argon2::Config::default()`.
pub uninterp spec fn argon2_default_hash(pwd: Seq<u8>, salt: Seq<u8>) -> Seq<char>;

/// What `argon2::verify_encoded` gives for an encoded hash and a password:
/// whether the password matches, or `None` when the check fails with an
/// error.
pub uninterp spec fn argon2_verify(encoded: Seq<char>, pwd: Seq<u8>) -> Option<bool>;

/// `argon2::hash_encoded(pwd, salt, &argon2::Config::default())`. Its
/// source refuses a password longer than `0xFFFF_FFFF` bytes and a salt
/// shorter than 8 or longer than `0xFFFF_FFFF` bytes, and accepts
/// everything else under the default configuration. The encoded hash is
/// `$argon2id$v=19$m=..,t=..,p=..$` followed by the salt and the hash in
/// unpadded base64, so it holds no whitespace; `argon2::verify_encoded`
/// decodes exactly these parameters and hashes the password again with them,
/// so the encoded hash verifies with the password it was made from.
#[verifier::external_body]
fn hash_encoded(pwd: &[u8], salt: &[u8]) -> (r: Result<String, argon2::Error>)
    ensures
        r is Ok <==> (pwd@.len() <= 0xFFFF_FFFF && 8 <= salt@.len() <= 0xFFFF_FFFF),
        r matches Ok(h) ==> h@ == argon2_default_hash(pwd@, salt@),
        r matches Ok(h) ==> forall|i: int| 0 <= i < h@.len() ==> !is_space(#[trigger] h@[i]),
        r matches Ok(h) ==> argon2_verify(h@, pwd@) == Some(true),
{
    argon2::hash_encoded(pwd, salt, &argon2::Config::default())
}

/// `argon2::verify_encoded(encoded, pwd)`: whether the password matches the
/// encoded hash, or an error when the hash cannot be decoded or the password
/// hashed with its parameters.
#[verifier::external_body]
fn verify_encoded(encoded: &str, pwd: &[u8]) -> (r: Result<bool, argon2::Error>)
    ensures
        match r {
            Ok(b) => argon2_verify(encoded@, pwd@) == Some(b),
            Err(_) => argon2_verify(encoded@, pwd@) is None,
        },
{
    argon2::verify_encoded(encoded, pwd)
}

/// Sixteen random bytes from `rand::thread_rng().fill_bytes`; which bytes
/// they are depends on chance and is not stated.
#[verifier::external_body]
fn random_salt() -> (salt: Vec<u8>)
    ensures
        salt@.len() == 16,
{
    let mut salt = [0u8; 16];
    rand::thread_rng().fill_bytes(&mut salt);
    salt.to_vec()
}

/// The file that holds the hash of the last password the API accepted.
pub open spec fn passwd_file() -> Seq<char> {
    "passwd"@
}

/// A result with its error message taken as text.
pub open spec fn result_text(r: Result<bool, String>) -> Result<bool, Seq<char>> {
    match r {
        Ok(b) => Ok(b),
        Err(e) => Err(e@),
    }
}

/// The outcome of a password check and the cache after it, for a given salt.
/// Online, the API's reply to the key check decides: `true` accepts the
/// password and keeps its hash, any other reply refuses it, and no reply is
/// an error. Otherwise the password is checked against the kept hash, and
/// without one it is an error.
pub open spec fn auth_outcome(
    m: Map<Seq<char>, Seq<u8>>,
    passwd: Seq<char>,
    status: InternetStatus,
    reply: Option<Seq<char>>,
    salt: Seq<u8>,
) -> (Result<bool, Seq<char>>, Map<Seq<char>, Seq<u8>>) {
    let pwd = vstd::utf8::encode_utf8(passwd);
    match status {
        InternetStatus::Online => match reply {
            None => (Err("reqwest error"@), m),
            Some(t) => if t == "true"@ {
                (Ok(true), after_create(m, passwd_file(), argon2_default_hash(pwd, salt)))
            } else {
                (Ok(false), m)
            },
        },
        _ => if m.contains_key(passwd_file()) {
            (Ok(argon2_verify(read_text(m, passwd_file()), pwd).unwrap()), m)
        } else {
            (Err("No cached password, internet required"@), m)
        },
    }
}

/// Whether the API's reply to the key check accepts the password: online,
/// with the reply `true`. Only then is a hash made, with a fresh salt.
pub open spec fn accepted(status: InternetStatus, reply: Option<Seq<char>>) -> bool {
    status is Online && reply == Some("true"@)
}

fn is_accepted(status: &InternetStatus, reply: &Option<String>) -> (r: bool)
    ensures
        r == accepted(*status, opt_text(*reply)),
{
    match status {
        InternetStatus::Online => match reply {
            Some(t) => same_text(t.as_str(), "true"),
            None => false,
        },
        _ => false,
    }
}

/// The password check goes through without a failing hash operation: an
/// accepted password fits the hash function, and a kept hash can be checked.
pub open spec fn auth_defined(
    m: Map<Seq<char>, Seq<u8>>,
    passwd: Seq<char>,
    status: InternetStatus,
    reply: Option<Seq<char>>,
) -> bool {
    &&& (status is Online && reply == Some("true"@)) ==> vstd::utf8::encode_utf8(passwd).len()
        <= 0xFFFF_FFFF
    &&& (!(status is Online) && m.contains_key(passwd_file())) ==> argon2_verify(
        read_text(m, passwd_file()),
        vstd::utf8::encode_utf8(passwd),
    ) is Some
}

/// Once the API accepts a password, the password passes the offline check
/// against the kept hash (when no longer, older hash file was there to be
/// partly overwritten).
pub open spec fn accepted_then_kept(
    before: Map<Seq<char>, Seq<u8>>,
    after: Map<Seq<char>, Seq<u8>>,
    passwd: Seq<char>,
    status: InternetStatus,
    reply: Option<Seq<char>>,
    salt: Seq<u8>,
) -> bool {
    let pwd = vstd::utf8::encode_utf8(passwd);
    (status is Online && reply == Some("true"@) && cache::bytes_or_empty(before, passwd_file()).len()
        <= cache::line_bytes(argon2_default_hash(pwd, salt)).len()) ==> {
        &&& after.contains_key(passwd_file())
        &&& argon2_verify(read_text(after, passwd_file()), pwd) == Some(true)
    }
}

proof fn lemma_kept_hash_reads_back(m: Map<Seq<char>, Seq<u8>>, h: Seq<char>)
    requires
        forall|i: int| 0 <= i < h.len() ==> !is_space(#[trigger] h[i]),
        cache::bytes_or_empty(m, passwd_file()).len() <= cache::line_bytes(h).len(),
    ensures
        read_text(after_create(m, passwd_file(), h), passwd_file()) == h,
{
    let m1 = after_create(m, passwd_file(), h);
    assert(m1[passwd_file()] == cache::line_bytes(h));
    lemma_utf8_round_trip(h.push('\n'));
    if h.len() > 0 {
        assert(!is_space(h[0]));
        assert(!is_space(h[h.len() - 1]));
    }
    lemma_trim_line(h);
}

/// Checks a password with the given salt for the hash that is kept when the
/// API accepts it.
pub fn auth_with_salt(
    _usr: &str,
    passwd: &str,
    status: &InternetStatus,
    reply: Option<String>,
    salt: &[u8],
    store: &mut CacheStore,
) -> (r: Result<bool, String>)
    requires
        old(store).wf(),
        accepted(*status, opt_text(reply)) ==> salt@.len() == 16,
        auth_defined(old(store)@, passwd@, *status, opt_text(reply)),
    ensures
        final(store).wf(),
        final(store).dirs() == old(store).dirs(),
        (result_text(r), final(store)@) == auth_outcome(
            old(store)@,
            passwd@,
            *status,
            opt_text(reply),
            salt@,
        ),
        accepted_then_kept(old(store)@, final(store)@, passwd@, *status, opt_text(reply), salt@),
{
    let fname = "passwd";
    proof {
        cache::lemma_desk_files(store);
        reveal_strlit("passwd");
    }
    match status {
        InternetStatus::Online => {
            match reply {
                Some(text) => {
                    if same_text(text.as_str(), "true") {
                        match hash_encoded(passwd.as_bytes(), salt) {
                            Ok(hash) => {
                                cache::create(store, fname, hash.as_str());
                                proof {
                                    if cache::bytes_or_empty(old(store)@, passwd_file()).len()
                                        <= cache::line_bytes(hash@).len() {
                                        lemma_kept_hash_reads_back(old(store)@, hash@);
                                    }
                                }
                                Ok(true)
                            },
                            Err(_) => {
                                assert(false);
                                Ok(true)
                            },
                        }
                    } else {
                        Ok(false)
                    }
                },
                None => Err("reqwest error".to_owned()),
            }
        },
        _ => {
            if store.contains(fname) {
                let hash = cache::read(store, fname);
                match verify_encoded(hash.as_str(), passwd.as_bytes()) {
                    Ok(b) => Ok(b),
                    Err(_) => {
                        assert(false);
                        Ok(false)
                    },
                }
            } else {
                Err("No cached password, internet required".to_owned())
            }
        },
    }
}

/// Checks a password: online with the API's reply to the key check (the
/// hash of an accepted password, made with a random salt, is kept for
/// offline checks), otherwise against the kept hash.
pub fn auth(
    usr: &str,
    passwd: &str,
    status: &InternetStatus,
    reply: Option<String>,
    store: &mut CacheStore,
) -> (r: Result<bool, String>)
    requires
        old(store).wf(),
        auth_defined(old(store)@, passwd@, *status, opt_text(reply)),
    ensures
        final(store).wf(),
        final(store).dirs() == old(store).dirs(),
        exists|salt: Seq<u8>|
            salt.len() == 16 && (result_text(r), final(store)@) == #[trigger] auth_outcome(
                old(store)@,
                passwd@,
                *status,
                opt_text(reply),
                salt,
            ) && accepted_then_kept(old(store)@, final(store)@, passwd@, *status, opt_text(reply), salt),
{
    if is_accepted(status, &reply) {
        let salt = random_salt();
        let ghost s = salt@;
        let r = auth_with_salt(usr, passwd, status, reply, salt.as_slice(), store);
        assert(s.len() == 16 && (result_text(r), final(store)@) == auth_outcome(
            old(store)@,
            passwd@,
            *status,
            opt_text(reply),
            s,
        ) && accepted_then_kept(old(store)@, final(store)@, passwd@, *status, opt_text(reply), s));
        r
    } else {
        let unused: Vec<u8> = Vec::new();
        let r = auth_with_salt(usr, passwd, status, reply, unused.as_slice(), store);
        let ghost s = Seq::new(16, |i: int| 0u8);
        assert(auth_outcome(old(store)@, passwd@, *status, opt_text(reply), s) == auth_outcome(
            old(store)@,
            passwd@,
            *status,
            opt_text(reply),
            unused@,
        ));
        assert(s.len() == 16 && (result_text(r), final(store)@) == auth_outcome(
            old(store)@,
            passwd@,
            *status,
            opt_text(reply),
            s,
        ) && accepted_then_kept(old(store)@, final(store)@, passwd@, *status, opt_text(reply), s));
        r
    }
}

/// Checks a password as `auth` does, or gives `None`, leaving the cache as
/// it was, when offline and the kept hash cannot be checked.
pub fn auth_checked(
    usr: &str,
    passwd: &str,
    status: &InternetStatus,
    reply: Option<String>,
    store: &mut CacheStore,
) -> (r: Option<Result<bool, String>>)
    requires
        old(store).wf(),
        (*status is Online && opt_text(reply) == Some("true"@)) ==> vstd::utf8::encode_utf8(
            passwd@,
        ).len() <= 0xFFFF_FFFF,
    ensures
        final(store).wf(),
        final(store).dirs() == old(store).dirs(),
        r is None <==> !auth_defined(old(store)@, passwd@, *status, opt_text(reply)),
        r is None ==> final(store)@ == old(store)@,
        r matches Some(x) ==> exists|salt: Seq<u8>|
            salt.len() == 16 && (result_text(x), final(store)@) == #[trigger] auth_outcome(
                old(store)@,
                passwd@,
                *status,
                opt_text(reply),
                salt,
            ) && accepted_then_kept(old(store)@, final(store)@, passwd@, *status, opt_text(reply), salt),
{
    let fname = "passwd";
    let online = match status {
        InternetStatus::Online => true,
        _ => false,
    };
    proof {
        cache::lemma_desk_files(store);
        reveal_strlit("passwd");
    }
    if !online && store.contains(fname) {
        let hash = cache::read(store, fname);
        match verify_encoded(hash.as_str(), passwd.as_bytes()) {
            Ok(_) => {},
            Err(_) => {
                return None;
            },
        }
    }
    Some(auth(usr, passwd, status, reply, store))
}

} // verus!
