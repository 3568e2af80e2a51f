//! The sign-in desk's own logic: the cache of files it keeps, sessions,
//! users, the remote API requests, and the clock.
use vstd::prelude::*;
use crate::text::{decimal, push_decimal, push_str_chars, string_of};
use crate::util::cache::{after_append, CacheStore};

pub mod cache;
pub mod path;
pub mod pattern;
pub mod remote;
pub mod sess;
pub mod time;
pub mod traits;
pub mod user;

verus! {

/// The line a log entry is written as: `[loc @ time] msg`.
pub open spec fn log_line(loc: Seq<char>, time: u64, msg: Seq<char>) -> Seq<char> {
    seq!['['] + loc + " @ "@ + decimal(time as nat) + "] "@ + msg
}

/// The log file.
pub open spec fn log_file() -> Seq<char> {
    "log"@
}

/// Appends a log entry made at `time` to the log file.
pub fn log_at(store: &mut CacheStore, loc: &str, msg: &str, time: u64)
    requires
        old(store).wf(),
    ensures
        final(store).wf(),
        final(store).dirs() == old(store).dirs(),
        final(store)@ == after_append(old(store)@, log_file(), log_line(loc@, time, msg@)),
{
    let mut out: Vec<char> = Vec::new();
    out.push('[');
    push_str_chars(&mut out, loc);
    push_str_chars(&mut out, " @ ");
    push_decimal(&mut out, time);
    push_str_chars(&mut out, "] ");
    push_str_chars(&mut out, msg);
    assert(out@ =~= log_line(loc@, time, msg@));
    let line = string_of(out.as_slice());
    proof {
        cache::lemma_desk_files(store);
        reveal_strlit("log");
    }
    cache::append(store, "log", line.as_str());
}

/// Appends a log entry made now to the log file.
pub fn log(store: &mut CacheStore, loc: &str, msg: &str)
    requires
        old(store).wf(),
    ensures
        final(store).wf(),
        exists|t: u64| final(store)@ == after_append(old(store)@, log_file(), #[trigger] log_line(loc@, t, msg@)),
{
    let t = time::get_time();
    log_at(store, loc, msg, t);
}

} // verus!
