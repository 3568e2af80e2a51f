//! What the desk does when someone signs in, signs out or asks for a new
//! user: the decisions behind each dialog, on the cache.
use vstd::prelude::*;
use crate::text::{decimal, plain_line};
use crate::util::cache::{
    self, after_append, after_create, cache_shape, names_file, path_exists, stays_inside, CacheStore,
};
use crate::util::path::resolve;
use crate::util::sess::{
    self, active_file, fields, lemma_start_after_mk_sess, queue_file, session_key, session_line,
    session_start, Session,
};
use crate::util::time;
use crate::util::traits::Cacheable;
use crate::util::user::{
    self, creatability_of, file_lines, first_with_id, found_user, has_user, id_looks_valid,
    keepable_user, lemma_user_line_fields, lemma_user_line_plain, line_has_id, local_file, lookup_readable,
    server_file, user_decodable, user_line, Creatability, User,
};

verus! {

/// The lookup of `id` reads only lines that hold users.
pub open spec fn user_lookup_ok(m: Map<Seq<char>, Seq<u8>>, id: Seq<char>) -> bool {
    &&& lookup_readable(m, server_file(), id)
    &&& !has_user(m, server_file(), id) ==> lookup_readable(m, local_file(), id)
}

/// Whether the lookup of `id` reads only lines that hold users.
pub fn can_look_up(store: &CacheStore, id: &str) -> (r: bool)
    requires
        store.wf(),
    ensures
        r == user_lookup_ok(store@, id@),
{
    proof {
        cache::lemma_desk_files(store);
        reveal_strlit("user/server");
        reveal_strlit("user/local");
    }
    let (server_ok, on_server) = user::scan_user_file(store, "user/server", id);
    if !server_ok {
        return false;
    }
    if on_server {
        return true;
    }
    let (local_ok, _) = user::scan_user_file(store, "user/local", id);
    local_ok
}

/// The session file's name leads to an entry inside the cache directory.
pub open spec fn session_name_ok(d: Set<Seq<char>>, id: Seq<char>) -> bool {
    resolve(d, active_file(id)) is Inside
}

/// What signing out reads of a known user who is signed in: the session
/// file's name stays inside the cache directory, and when the user counts as
/// signed in it leads to a file that holds a start time.
pub open spec fn session_readable(m: Map<Seq<char>, Seq<u8>>, d: Set<Seq<char>>, id: Seq<char>) -> bool {
    &&& stays_inside(d, active_file(id))
    &&& path_exists(m, d, active_file(id)) ==> names_file(m, d, active_file(id)) && session_start(m, d, id) is Some
}

/// Whether signing in the user with that id reads only lines that hold users
/// and, for a known user, can open the session file.
pub fn can_sign_in(store: &CacheStore, id: &str) -> (r: bool)
    requires
        store.wf(),
    ensures
        r == (user_lookup_ok(store@, id@) && (user_known(store@, id@) ==> session_name_ok(store.dirs(), id@))),
{
    if !can_look_up(store, id) {
        return false;
    }
    match user::get_user(store, id) {
        Some(_) => {
            let key = sess::active_key(id);
            cache::leads_inside(store, key.as_str())
        },
        None => true,
    }
}

/// Whether signing out the user with that id reads only lines that hold
/// users and, for a known user who is signed in, a session file (not a
/// directory) that holds a start time.
pub fn can_sign_out(store: &CacheStore, id: &str) -> (r: bool)
    requires
        store.wf(),
    ensures
        r == (user_lookup_ok(store@, id@) && (user_known(store@, id@) ==> session_readable(
            store@,
            store.dirs(),
            id@,
        ))),
{
    if !can_look_up(store, id) {
        return false;
    }
    match user::get_user(store, id) {
        Some(_) => {
            let key = sess::active_key(id);
            if !cache::stays_inside_cache(store, key.as_str()) {
                return false;
            }
            if sess::is_signed_in(store, id) {
                sess::session_start_readable(store, id)
            } else {
                true
            }
        },
        None => true,
    }
}

/// Whether some user has that id.
pub open spec fn user_known(m: Map<Seq<char>, Seq<u8>>, id: Seq<char>) -> bool {
    has_user(m, server_file(), id) || has_user(m, local_file(), id)
}

/// Whether `u` is the user that the lookup of `id` finds.
pub open spec fn is_found_user(m: Map<Seq<char>, Seq<u8>>, id: Seq<char>, u: User) -> bool {
    if has_user(m, server_file(), id) {
        found_user(file_lines(m, server_file()), id, Some(u))
    } else {
        found_user(file_lines(m, local_file()), id, Some(u))
    }
}

/// What signing in came to.
pub enum SignInOutcome {
    /// The user was signed in.
    SignedIn(User),
    /// The user was signed in already.
    AlreadySignedIn(User),
    /// No user has that id.
    NoSuchUser,
}

/// What signing out came to.
pub enum SignOutOutcome {
    /// The user was signed out; the completed session was queued.
    SignedOut(User, Session),
    /// The user was not signed in.
    NotSignedIn(User),
    /// No user has that id.
    NoSuchUser,
}

/// Signs in the user with that id at time `now`, unless no user has the id
/// or the user is signed in already.
pub fn sign_in_at(store: &mut CacheStore, id: &str, now: u64) -> (r: SignInOutcome)
    requires
        old(store).wf(),
        user_lookup_ok(old(store)@, id@),
        user_known(old(store)@, id@) ==> session_name_ok(old(store).dirs(), id@),
    ensures
        final(store).wf(),
        final(store).dirs() == old(store).dirs(),
        !user_known(old(store)@, id@) ==> r is NoSuchUser && final(store)@ == old(store)@,
        user_known(old(store)@, id@) && path_exists(old(store)@, old(store).dirs(), active_file(id@)) ==> {
            &&& r is AlreadySignedIn
            &&& is_found_user(old(store)@, id@, r->AlreadySignedIn_0)
            &&& final(store)@ == old(store)@
        },
        user_known(old(store)@, id@) && !path_exists(old(store)@, old(store).dirs(), active_file(id@)) ==> {
            &&& r is SignedIn
            &&& is_found_user(old(store)@, id@, r->SignedIn_0)
            &&& final(store)@ == after_create(old(store)@, session_key(old(store).dirs(), id@), decimal(now as nat))
        },
{
    match user::get_user(store, id) {
        Some(u) => {
            if sess::is_signed_in(store, id) {
                SignInOutcome::AlreadySignedIn(u)
            } else {
                sess::mk_sess(store, id, now);
                SignInOutcome::SignedIn(u)
            }
        },
        None => SignInOutcome::NoSuchUser,
    }
}

/// Signs in the user with that id now.
pub fn sign_in(store: &mut CacheStore, id: &str) -> (r: SignInOutcome)
    requires
        old(store).wf(),
        user_lookup_ok(old(store)@, id@),
        user_known(old(store)@, id@) ==> session_name_ok(old(store).dirs(), id@),
    ensures
        final(store).wf(),
        final(store).dirs() == old(store).dirs(),
        !user_known(old(store)@, id@) ==> r is NoSuchUser && final(store)@ == old(store)@,
        user_known(old(store)@, id@) && path_exists(old(store)@, old(store).dirs(), active_file(id@)) ==> {
            &&& r is AlreadySignedIn
            &&& is_found_user(old(store)@, id@, r->AlreadySignedIn_0)
            &&& final(store)@ == old(store)@
        },
        user_known(old(store)@, id@) && !path_exists(old(store)@, old(store).dirs(), active_file(id@)) ==> {
            &&& r is SignedIn
            &&& is_found_user(old(store)@, id@, r->SignedIn_0)
            &&& exists|now: u64| final(store)@ == #[trigger] after_create(old(store)@, session_key(old(store).dirs(), id@), decimal(now as nat))
        },
{
    let now = time::get_time();
    sign_in_at(store, id, now)
}

/// Signs out the user with that id at time `now`, unless no user has the id
/// or the user is not signed in: the session file is removed and the
/// completed session, from the start it held to `now`, is queued. Afterwards
/// the user is not signed in, unless the session file is the queue itself.
pub fn sign_out_at(store: &mut CacheStore, id: &str, now: u64) -> (r: SignOutOutcome)
    requires
        old(store).wf(),
        user_lookup_ok(old(store)@, id@),
        user_known(old(store)@, id@) ==> session_readable(old(store)@, old(store).dirs(), id@),
    ensures
        final(store).wf(),
        final(store).dirs() == old(store).dirs(),
        !user_known(old(store)@, id@) ==> r is NoSuchUser && final(store)@ == old(store)@,
        user_known(old(store)@, id@) && !path_exists(old(store)@, old(store).dirs(), active_file(id@)) ==> {
            &&& r is NotSignedIn
            &&& is_found_user(old(store)@, id@, r->NotSignedIn_0)
            &&& final(store)@ == old(store)@
        },
        user_known(old(store)@, id@) && path_exists(old(store)@, old(store).dirs(), active_file(id@)) ==> {
            &&& r is SignedOut
            &&& is_found_user(old(store)@, id@, r->SignedOut_0)
            &&& r->SignedOut_1.id@ == id@
            &&& Some(r->SignedOut_1.start as nat) == session_start(old(store)@, old(store).dirs(), id@)
            &&& r->SignedOut_1.end == now
            &&& final(store)@ == after_append(
                old(store)@.remove(session_key(old(store).dirs(), id@)),
                queue_file(),
                session_line(id@, r->SignedOut_1.start, now),
            )
            &&& session_key(old(store).dirs(), id@) != queue_file() ==> !path_exists(
                final(store)@,
                final(store).dirs(),
                active_file(id@),
            )
        },
{
    match user::get_user(store, id) {
        Some(u) => {
            if sess::is_signed_in(store, id) {
                let start = sess::rm_and_get_sess(store, id);
                let completed = Session { id: id.to_owned(), start, end: now };
                let ghost removed = store@;
                completed.cache(store);
                proof {
                    let k = session_key(store.dirs(), id@);
                    if k != queue_file() {
                        assert(!removed.contains_key(k));
                        assert(!store@.contains_key(k));
                    }
                }
                SignOutOutcome::SignedOut(u, completed)
            } else {
                SignOutOutcome::NotSignedIn(u)
            }
        },
        None => SignOutOutcome::NoSuchUser,
    }
}

/// Signs out the user with that id now.
pub fn sign_out(store: &mut CacheStore, id: &str) -> (r: SignOutOutcome)
    requires
        old(store).wf(),
        user_lookup_ok(old(store)@, id@),
        user_known(old(store)@, id@) ==> session_readable(old(store)@, old(store).dirs(), id@),
    ensures
        final(store).wf(),
        final(store).dirs() == old(store).dirs(),
        !user_known(old(store)@, id@) ==> r is NoSuchUser && final(store)@ == old(store)@,
        user_known(old(store)@, id@) && !path_exists(old(store)@, old(store).dirs(), active_file(id@)) ==> {
            &&& r is NotSignedIn
            &&& is_found_user(old(store)@, id@, r->NotSignedIn_0)
            &&& final(store)@ == old(store)@
        },
        user_known(old(store)@, id@) && path_exists(old(store)@, old(store).dirs(), active_file(id@)) ==> {
            &&& r is SignedOut
            &&& is_found_user(old(store)@, id@, r->SignedOut_0)
            &&& r->SignedOut_1.id@ == id@
            &&& Some(r->SignedOut_1.start as nat) == session_start(old(store)@, old(store).dirs(), id@)
            &&& final(store)@ == after_append(
                old(store)@.remove(session_key(old(store).dirs(), id@)),
                queue_file(),
                session_line(id@, r->SignedOut_1.start, r->SignedOut_1.end),
            )
            &&& session_key(old(store).dirs(), id@) != queue_file() ==> !path_exists(
                final(store)@,
                final(store).dirs(),
                active_file(id@),
            )
        },
{
    let now = time::get_time();
    sign_out_at(store, id, now)
}

/// Asks for a new user with that id and name (level 1), given whether the id
/// looks valid: an unobstructed user is added to the local user file.
pub fn create_user_with(store: &mut CacheStore, id: &str, name: &str, id_valid: bool) -> (r: (User, Creatability))
    requires
        old(store).wf(),
    ensures
        final(store).wf(),
        final(store).dirs() == old(store).dirs(),
        r.0.id@ == id@,
        r.0.name@ == name@,
        r.0.lvl == 1,
        r.1 == creatability_of(id_valid, id@, name@),
        r.1 is Unobstructed ==> final(store)@ == after_append(old(store)@, local_file(), user_line(id@, name@, 1)),
        !(r.1 is Unobstructed) ==> final(store)@ == old(store)@,
{
    let req = User { id: id.to_owned(), name: name.to_owned(), lvl: 1 };
    let c = user::is_creatable_with(&req, id_valid);
    match c {
        Creatability::Unobstructed => {
            req.cache(store);
        },
        _ => {},
    }
    (req, c)
}

/// Asks for a new user with that id and name (level 1), judging the id by
/// the current year.
pub fn create_user(store: &mut CacheStore, id: &str, name: &str) -> (r: (User, Creatability))
    requires
        old(store).wf(),
    ensures
        final(store).wf(),
        final(store).dirs() == old(store).dirs(),
        r.0.id@ == id@,
        r.0.name@ == name@,
        r.0.lvl == 1,
        exists|y: int| -262143 <= y <= 262142 && r.1 == creatability_of(id_looks_valid(y, id@), id@, name@),
        r.1 is Unobstructed ==> final(store)@ == after_append(old(store)@, local_file(), user_line(id@, name@, 1)),
        !(r.1 is Unobstructed) ==> final(store)@ == old(store)@,
{
    let valid = user::validate_id(id);
    create_user_with(store, id, name, valid)
}

/// Signing in leaves the user files alone, when the session file is none of
/// them: the same user is found under the same id afterwards, the user
/// counts as signed in, and the session file reads back as the sign-in time.
/// So signing in again finds the user signed in, and signing out records a
/// session that starts at the sign-in time.
pub proof fn lemma_sign_out_after_sign_in(m: Map<Seq<char>, Seq<u8>>, d: Set<Seq<char>>, id: Seq<char>, t: u64)
    requires
        cache_shape(m, d),
        user_lookup_ok(m, id),
        session_name_ok(d, id),
        !path_exists(m, d, active_file(id)),
        session_key(d, id) != server_file(),
        session_key(d, id) != local_file(),
    ensures
        ({
            let m1 = after_create(m, session_key(d, id), decimal(t as nat));
            &&& user_known(m1, id) == user_known(m, id)
            &&& user_lookup_ok(m1, id)
            &&& forall|u: User| is_found_user(m1, id, u) == is_found_user(m, id, u)
            &&& path_exists(m1, d, active_file(id))
            &&& names_file(m1, d, active_file(id))
            &&& session_start(m1, d, id) == Some(t as nat)
        }),
{
    let k = session_key(d, id);
    let m1 = after_create(m, k, decimal(t as nat));
    assert(m1.contains_key(server_file()) == m.contains_key(server_file()));
    assert(m1.contains_key(local_file()) == m.contains_key(local_file()));
    if m.contains_key(server_file()) {
        assert(m1[server_file()] == m[server_file()]);
        assert(file_lines(m1, server_file()) == file_lines(m, server_file()));
    }
    if m.contains_key(local_file()) {
        assert(m1[local_file()] == m[local_file()]);
        assert(file_lines(m1, local_file()) == file_lines(m, local_file()));
    }
    assert(has_user(m1, server_file(), id) == has_user(m, server_file(), id));
    assert(has_user(m1, local_file(), id) == has_user(m, local_file(), id));
    assert(!m.contains_key(k));
    assert(cache::bytes_or_empty(m, k) =~= Seq::<u8>::empty());
    lemma_start_after_mk_sess(m, d, id, t);
}

/// A user created here (the line `create_user` appends for an unobstructed
/// user) is the user that signing in finds under that id, when the server
/// file is missing and the local file holds, as written, plain user lines of
/// other ids.
pub proof fn lemma_created_user_found(
    m: Map<Seq<char>, Seq<u8>>,
    lines: Seq<Seq<char>>,
    id: Seq<char>,
    name: Seq<char>,
)
    requires
        !m.contains_key(server_file()),
        cache::holds_lines(m, local_file(), lines),
        forall|i: int| 0 <= i < lines.len() ==> plain_line(#[trigger] lines[i]) && user_decodable(lines[i]) && fields(lines[i])[0] != id,
        keepable_user(id, name),
    ensures
        ({
            let m1 = after_append(m, local_file(), user_line(id, name, 1));
            &&& user_lookup_ok(m1, id)
            &&& user_known(m1, id)
            &&& forall|u: User| is_found_user(m1, id, u) <==> (u.id@ == id && u.name@ == name && u.lvl == 1)
        }),
{
    let line = user_line(id, name, 1);
    let m1 = after_append(m, local_file(), line);
    let all = lines.push(line);
    reveal_strlit("user/server");
    reveal_strlit("user/local");
    assert(server_file() != local_file()) by {
        assert(server_file()[5] != local_file()[5]);
    }
    assert(!m1.contains_key(server_file()));
    cache::lemma_append_keeps_lines(m, local_file(), lines, line);
    lemma_user_line_plain(id, name, 1);
    lemma_user_line_fields(id, name, 1);
    assert forall|i: int| 0 <= i < all.len() implies plain_line(#[trigger] all[i]) by {
        if i < lines.len() {
            assert(all[i] == lines[i]);
        }
    }
    cache::lemma_read_lines(m1, local_file(), all);
    let ls = file_lines(m1, local_file());
    assert(ls == all);
    let j = lines.len() as int;
    assert(ls[j] == line);
    assert forall|k: int| 0 <= k < j implies !line_has_id(#[trigger] ls[k], id) by {
        assert(ls[k] == lines[k]);
    }
    assert(line_has_id(ls[j], id));
    assert(first_with_id(ls, id, j));
    assert(has_user(m1, local_file(), id));
    assert(user::readable_until(ls, id)) by {
        assert forall|i: int|
            0 <= i < ls.len() && ls[i].len() > 0 && (forall|k: int| 0 <= k < i ==> !line_has_id(#[trigger] ls[k], id))
            implies user_decodable(#[trigger] ls[i]) by {
            if i < j {
                assert(ls[i] == lines[i]);
            }
        }
    }
    assert forall|u: User| is_found_user(m1, id, u) <==> (u.id@ == id && u.name@ == name && u.lvl == 1) by {
        if is_found_user(m1, id, u) {
            let jj = choose|jj: int| #[trigger] first_with_id(ls, id, jj) && User::decodes_to(ls[jj], u);
            if jj < j {
                assert(ls[jj] == lines[jj]);
            }
            assert(jj == j);
        }
        if u.id@ == id && u.name@ == name && u.lvl == 1 {
            assert(User::decodes_to(ls[j], u));
        }
    }
}

} // verus!
