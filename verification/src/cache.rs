//! The first layout of the cache: session files directly under `sess/`, and
//! a file read that opens the file for writing only.
use vstd::prelude::*;
use crate::util::cache::{self as store_ops, after_open, target_key, writable, CacheStore};

pub mod sess;
pub mod user;

verus! {

/// Reads the named file through a handle opened for writing only (and
/// creating the file when missing). Reading such a handle fails, and the
/// failure is ignored, so the text read is always empty.
fn read(store: &mut CacheStore, fname: &str) -> (r: String)
    requires
        old(store).wf(),
        writable(old(store).dirs(), fname@),
    ensures
        final(store).wf(),
        final(store).dirs() == old(store).dirs(),
        final(store)@ == after_open(old(store)@, target_key(old(store).dirs(), fname@)),
        r@ == Seq::<char>::empty(),
{
    store_ops::touch(store, fname);
    String::new()
}

} // verus!
