//! Sessions in the first layout: a user is signed in while `sess/<id>`
//! exists.
use vstd::prelude::*;
use crate::text::{
    chars_of, decimal, parse_unsigned, parse_unsigned_chars, push_decimal, push_str_chars, string_of,
};
use crate::util::cache::{
    self as store_ops, after_create, after_open, path_exists, stays_inside, target_key, writable, CacheStore,
};

verus! {

/// The file that marks a user as signed in.
pub open spec fn session_file(id: Seq<char>) -> Seq<char> {
    "sess/"@ + id
}

/// The start time that reading the session file gives: the read yields no
/// text, which is no number.
pub open spec fn raw_session_start(m: Map<Seq<char>, Seq<u8>>, id: Seq<char>) -> Option<nat> {
    parse_unsigned(Seq::empty(), u64::MAX as nat)
}

fn session_key(id: &str) -> (r: String)
    ensures
        r@ == session_file(id@),
{
    let mut out: Vec<char> = Vec::new();
    push_str_chars(&mut out, "sess/");
    push_str_chars(&mut out, id);
    string_of(out.as_slice())
}

/// Whether the user is signed in: whether the name of the session file
/// leads to a file or a directory.
pub fn is_signed_in(store: &CacheStore, id: &str) -> (r: bool)
    requires
        store.wf(),
        stays_inside(store.dirs(), session_file(id@)),
    ensures
        r == path_exists(store@, store.dirs(), session_file(id@)),
{
    let key = session_key(id);
    store_ops::file_exists(store, key.as_str())
}

/// Starts a session: writes the start time to the session file.
pub fn mk_sess(store: &mut CacheStore, id: &str, start: u64)
    requires
        old(store).wf(),
        writable(old(store).dirs(), session_file(id@)),
    ensures
        final(store).wf(),
        final(store).dirs() == old(store).dirs(),
        final(store)@ == after_create(old(store)@, target_key(old(store).dirs(), session_file(id@)), decimal(start as nat)),
{
    let key = session_key(id);
    let mut digits: Vec<char> = Vec::new();
    push_decimal(&mut digits, start);
    let text = string_of(digits.as_slice());
    store_ops::create(store, key.as_str(), text.as_str());
}

/// The start time read from the session file; the text read must be a
/// number, and the read yields none.
pub fn get_sess_start(store: &mut CacheStore, id: &str) -> (r: u64)
    requires
        old(store).wf(),
        writable(old(store).dirs(), session_file(id@)),
        raw_session_start(old(store)@, id@) is Some,
    ensures
        final(store).wf(),
        final(store)@ == after_open(old(store)@, target_key(old(store).dirs(), session_file(id@))),
        Some(r as nat) == raw_session_start(old(store)@, id@),
{
    let key = session_key(id);
    let text = crate::cache::read(store, key.as_str());
    let chars = chars_of(text.as_str());
    parse_unsigned_chars(&chars, u64::MAX).unwrap()
}

/// Ends the session: removes the session file and gives the start time it
/// held.
pub fn rm_and_get_sess(store: &mut CacheStore, id: &str) -> (r: u64)
    requires
        old(store).wf(),
        writable(old(store).dirs(), session_file(id@)),
        raw_session_start(old(store)@, id@) is Some,
    ensures
        final(store).wf(),
        Some(r as nat) == raw_session_start(old(store)@, id@),
        final(store)@ == after_open(old(store)@, target_key(old(store).dirs(), session_file(id@))).remove(
            target_key(old(store).dirs(), session_file(id@)),
        ),
{
    let start = get_sess_start(store, id);
    let key = session_key(id);
    store_ops::del(store, key.as_str());
    start
}

} // verus!
