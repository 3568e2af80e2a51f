//! The interfaces through which records reach the remote API and the cache.
use vstd::prelude::*;
use std::collections::HashMap;
use crate::text::{push_str_chars, string_of};
use crate::util::cache::{after_append, CacheStore};
use crate::util::sess::Session;
use crate::util::user::User;

verus! {

/// A request to the remote API: an endpoint such as `/get/user`, a
/// form-encoded body (the body holds no API key) and the API key to send
/// with it, if any.
pub struct ApiPostRequest {
    pub endpt: String,
    pub body: String,
    pub key: Option<String>,
}

/// The text of an optional string.
pub open spec fn opt_text(o: Option<String>) -> Option<Seq<char>> {
    match o {
        None => None,
        Some(t) => Some(t@),
    }
}

/// The form-encoded text that is posted for a body and an API key: the body
/// alone without a key, and otherwise the key as one more field `key` after
/// the body's fields.
pub open spec fn form_text(body: Seq<char>, key: Option<Seq<char>>) -> Seq<char> {
    match key {
        None => body,
        Some(k) => if body.len() == 0 {
            "key="@ + k
        } else {
            body + "&key="@ + k
        },
    }
}

/// The text that is posted for a request.
pub fn form_body(req: &ApiPostRequest) -> (r: String)
    ensures
        r@ == form_text(req.body@, opt_text(req.key)),
{
    match &req.key {
        None => req.body.clone(),
        Some(k) => {
            let mut out: Vec<char> = Vec::new();
            push_str_chars(&mut out, req.body.as_str());
            if out.len() == 0 {
                push_str_chars(&mut out, "key=");
            } else {
                push_str_chars(&mut out, "&key=");
            }
            push_str_chars(&mut out, k.as_str());
            proof {
                reveal_strlit("key=");
                reveal_strlit("&key=");
            }
            assert(out@ =~= form_text(req.body@, opt_text(req.key)));
            string_of(out.as_slice())
        },
    }
}

/// A record that can be sent to the remote API.
pub trait Pushable {
    /// The endpoint the record is sent to.
    spec fn post_endpoint(&self) -> Seq<char>;

    /// The body that sends the record.
    spec fn post_body(&self) -> Seq<char>;

    fn get_post_req(&self, key: &str) -> (r: ApiPostRequest)
        ensures
            r.endpt@ == self.post_endpoint(),
            r.body@ == self.post_body(),
            opt_text(r.key) == Some(key@),
    ;
}

/// A record that can be fetched from the remote API.
pub trait Pullable {
    fn get_post_req(&self, key: &str) -> ApiPostRequest;

    fn callback(resp: HashMap<String, String>);
}

/// A record kept, one line each, in a file of the cache.
pub trait Cacheable: Sized {
    /// The line that stands for the record.
    spec fn encoding(&self) -> Seq<char>;

    /// Whether a line can be read back as a record.
    spec fn decodable(line: Seq<char>) -> bool;

    /// Whether `value` is the record that `line` stands for.
    spec fn decodes_to(line: Seq<char>, value: Self) -> bool;

    /// The cache file the record is appended to.
    spec fn cache_file() -> Seq<char>;

    fn serialize(&self) -> (r: String)
        ensures
            r@ == self.encoding(),
    ;

    fn deserialize(serialized: &str) -> (r: Self)
        requires
            Self::decodable(serialized@),
        ensures
            Self::decodes_to(serialized@, r),
    ;

    fn cache(&self, store: &mut CacheStore)
        requires
            old(store).wf(),
        ensures
            final(store).wf(),
            final(store).dirs() == old(store).dirs(),
            final(store)@ == after_append(old(store)@, Self::cache_file(), self.encoding()),
    ;
}

/// A record waiting to be sent to the remote API.
pub enum Queued {
    Session(Session),
    User(User),
}

impl Pushable for Queued {
    open spec fn post_endpoint(&self) -> Seq<char> {
        match self {
            Queued::Session(s) => s.post_endpoint(),
            Queued::User(u) => u.post_endpoint(),
        }
    }

    open spec fn post_body(&self) -> Seq<char> {
        match self {
            Queued::Session(s) => s.post_body(),
            Queued::User(u) => u.post_body(),
        }
    }

    fn get_post_req(&self, key: &str) -> (r: ApiPostRequest) {
        match self {
            Queued::Session(s) => s.get_post_req(key),
            Queued::User(u) => u.get_post_req(key),
        }
    }
}

/// A queued record is posted as its body followed by the API key as the
/// field `key`: its body is never empty, as it starts with the field `id`.
pub proof fn lemma_record_form(q: Queued, key: Seq<char>)
    ensures
        form_text(q.post_body(), Some(key)) == q.post_body() + "&key="@ + key,
{
    reveal_strlit("id=");
    let b = q.post_body();
    match q {
        Queued::Session(s) => {
            assert(b[0] == 'i');
        },
        Queued::User(u) => {
            assert(b[0] == 'i');
        },
    }
}

} // verus!
