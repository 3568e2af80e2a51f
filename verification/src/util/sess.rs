//! Sessions: a user is signed in while a file named after the user's id
//! holds the start time; completed sessions wait in a queue file until they
//! are sent to the remote API.
use vstd::prelude::*;
use crate::text::{
    chars_of, decimal, is_space, lemma_nonempty_lines_all, lemma_nonempty_lines_of_empty, lemma_nonempty_lines_step, nonempty_lines, plain_line, lemma_decimal_digits, lemma_decimal_plain, lemma_parse_decimal,
    lemma_split_three, lemma_trim_line, lemma_utf8_round_trip, parse_unsigned,
    parse_unsigned_chars, push_decimal, push_str_chars, split, split_chars, string_of,
};
use crate::util::cache::{
    self, after_clear, after_create, bytes_or_empty, line_bytes, names_file, path_exists, read_text,
    stays_inside, target_key, writable, CacheStore,
};
use crate::util::traits::{ApiPostRequest, Cacheable, Pushable, Queued};

verus! {

/// A completed session of a user: start and end in seconds since the epoch.
pub struct Session {
    pub id: String,
    pub start: u64,
    pub end: u64,
}

/// The line that stands for a session: id, start and end, separated by
/// commas.
pub open spec fn session_line(id: Seq<char>, start: u64, end: u64) -> Seq<char> {
    id + seq![','] + decimal(start as nat) + seq![','] + decimal(end as nat)
}

/// The comma-separated fields of a line.
pub open spec fn fields(line: Seq<char>) -> Seq<Seq<char>> {
    split(line, ',')
}

/// A line can be read back as a session when it has at least three fields
/// and the second and third are numbers.
pub open spec fn session_decodable(line: Seq<char>) -> bool {
    &&& fields(line).len() >= 3
    &&& parse_unsigned(fields(line)[1], u64::MAX as nat) is Some
    &&& parse_unsigned(fields(line)[2], u64::MAX as nat) is Some
}

/// The body that sends a session to the API.
pub open spec fn session_body(id: Seq<char>, start: u64, end: u64) -> Seq<char> {
    "id="@ + id + "&start="@ + decimal(start as nat) + "&end="@ + decimal(end as nat)
}

/// The file that marks a user as signed in.
pub open spec fn active_file(id: Seq<char>) -> Seq<char> {
    "sess/active/"@ + id
}

/// The queue of completed sessions.
pub open spec fn queue_file() -> Seq<char> {
    "sess/queue"@
}

impl Cacheable for Session {
    open spec fn encoding(&self) -> Seq<char> {
        session_line(self.id@, self.start, self.end)
    }

    open spec fn decodable(line: Seq<char>) -> bool {
        session_decodable(line)
    }

    open spec fn decodes_to(line: Seq<char>, value: Session) -> bool {
        &&& value.id@ == fields(line)[0]
        &&& Some(value.start as nat) == parse_unsigned(fields(line)[1], u64::MAX as nat)
        &&& Some(value.end as nat) == parse_unsigned(fields(line)[2], u64::MAX as nat)
    }

    open spec fn cache_file() -> Seq<char> {
        queue_file()
    }

    fn serialize(&self) -> (r: String) {
        let mut out: Vec<char> = Vec::new();
        push_str_chars(&mut out, self.id.as_str());
        out.push(',');
        push_decimal(&mut out, self.start);
        out.push(',');
        push_decimal(&mut out, self.end);
        assert(out@ =~= session_line(self.id@, self.start, self.end));
        string_of(out.as_slice())
    }

    fn deserialize(serialized: &str) -> (r: Session) {
        let chars = chars_of(serialized);
        let data = split_chars(&chars, ',');
        let id = string_of(data[0].as_slice());
        let start = parse_unsigned_chars(&data[1], u64::MAX);
        let end = parse_unsigned_chars(&data[2], u64::MAX);
        Session { id, start: start.unwrap(), end: end.unwrap() }
    }

    fn cache(&self, store: &mut CacheStore) {
        let line = self.serialize();
        let fname = "sess/queue";
        proof {
            cache::lemma_desk_files(store);
            reveal_strlit("sess/queue");
        }
        cache::append(store, fname, line.as_str());
    }
}

impl Pushable for Session {
    open spec fn post_endpoint(&self) -> Seq<char> {
        "/put/entry"@
    }

    open spec fn post_body(&self) -> Seq<char> {
        session_body(self.id@, self.start, self.end)
    }

    fn get_post_req(&self, key: &str) -> (r: ApiPostRequest) {
        let mut body: Vec<char> = Vec::new();
        push_str_chars(&mut body, "id=");
        push_str_chars(&mut body, self.id.as_str());
        push_str_chars(&mut body, "&start=");
        push_decimal(&mut body, self.start);
        push_str_chars(&mut body, "&end=");
        push_decimal(&mut body, self.end);
        assert(body@ =~= session_body(self.id@, self.start, self.end));
        ApiPostRequest {
            endpt: "/put/entry".to_owned(),
            body: string_of(body.as_slice()),
            key: Some(key.to_owned()),
        }
    }
}

/// The name of the file that marks the user as signed in.
pub fn active_key(id: &str) -> (r: String)
    ensures
        r@ == active_file(id@),
{
    let mut out: Vec<char> = Vec::new();
    push_str_chars(&mut out, "sess/active/");
    push_str_chars(&mut out, id);
    string_of(out.as_slice())
}

/// The canonical name of the user's session file.
pub open spec fn session_key(d: Set<Seq<char>>, id: Seq<char>) -> Seq<char> {
    target_key(d, active_file(id))
}

/// The start time that the session file of a signed-in user holds.
pub open spec fn session_start(m: Map<Seq<char>, Seq<u8>>, d: Set<Seq<char>>, id: Seq<char>) -> Option<nat> {
    parse_unsigned(read_text(m, session_key(d, id)), u64::MAX as nat)
}

/// Whether the user is signed in: whether the name of the user's session
/// file leads to a file or a directory.
pub fn is_signed_in(store: &CacheStore, id: &str) -> (r: bool)
    requires
        store.wf(),
        stays_inside(store.dirs(), active_file(id@)),
    ensures
        r == path_exists(store@, store.dirs(), active_file(id@)),
{
    let key = active_key(id);
    cache::file_exists(store, key.as_str())
}

/// Starts a session: writes the start time to the user's session file.
pub fn mk_sess(store: &mut CacheStore, id: &str, start: u64)
    requires
        old(store).wf(),
        writable(old(store).dirs(), active_file(id@)),
    ensures
        final(store).wf(),
        final(store).dirs() == old(store).dirs(),
        final(store)@ == after_create(old(store)@, session_key(old(store).dirs(), id@), decimal(start as nat)),
{
    let key = active_key(id);
    let mut digits: Vec<char> = Vec::new();
    push_decimal(&mut digits, start);
    let text = string_of(digits.as_slice());
    cache::create(store, key.as_str(), text.as_str());
}

/// The start time of the user's session, read from the session file, which
/// must be a file and hold a number.
pub fn get_sess_start(store: &CacheStore, id: &str) -> (r: u64)
    requires
        store.wf(),
        names_file(store@, store.dirs(), active_file(id@)),
        session_start(store@, store.dirs(), id@) is Some,
    ensures
        Some(r as nat) == session_start(store@, store.dirs(), id@),
{
    let key = active_key(id);
    let text = cache::read(store, key.as_str());
    let chars = chars_of(text.as_str());
    parse_unsigned_chars(&chars, u64::MAX).unwrap()
}

/// Ends the user's session: removes the session file and gives the start
/// time it held. Afterwards the user is not signed in.
pub fn rm_and_get_sess(store: &mut CacheStore, id: &str) -> (r: u64)
    requires
        old(store).wf(),
        names_file(old(store)@, old(store).dirs(), active_file(id@)),
        session_start(old(store)@, old(store).dirs(), id@) is Some,
    ensures
        final(store).wf(),
        final(store).dirs() == old(store).dirs(),
        Some(r as nat) == session_start(old(store)@, old(store).dirs(), id@),
        final(store)@ == old(store)@.remove(session_key(old(store).dirs(), id@)),
        !path_exists(final(store)@, final(store).dirs(), active_file(id@)),
{
    let start = get_sess_start(store, id);
    let key = active_key(id);
    proof {
        cache::lemma_shape(store);
        assert(cache::file_key_ok(store.dirs(), session_key(store.dirs(), id@)));
    }
    cache::del(store, key.as_str());
    start
}

/// The lines of the session queue.
pub open spec fn queue_lines(m: Map<Seq<char>, Seq<u8>>) -> Seq<Seq<char>> {
    split(read_text(m, queue_file()), '\n')
}

/// Whether a queued record is the session that `line` stands for.
pub open spec fn queued_session_from(item: Queued, line: Seq<char>) -> bool {
    &&& item is Session
    &&& Session::decodes_to(line, item->Session_0)
}

/// The lines of the session queue that hold text: the records it keeps.
pub open spec fn queued_lines(m: Map<Seq<char>, Seq<u8>>) -> Seq<Seq<char>> {
    nonempty_lines(queue_lines(m))
}

/// Moves the queued sessions into `queue`, one for each line of the queue
/// file that holds text, and then clears the queue file.
pub fn push_queue(queue: &mut Vec<Queued>, store: &mut CacheStore)
    requires
        old(store).wf(),
        old(store)@.contains_key(queue_file()),
        forall|i: int| 0 <= i < queue_lines(old(store)@).len() && queue_lines(old(store)@)[i].len() > 0
            ==> session_decodable(#[trigger] queue_lines(old(store)@)[i]),
    ensures
        final(store).wf(),
        final(store).dirs() == old(store).dirs(),
        final(store)@ == after_clear(old(store)@, queue_file()),
        final(queue)@.len() == old(queue)@.len() + queued_lines(old(store)@).len(),
        forall|i: int| 0 <= i < old(queue)@.len() ==> #[trigger] final(queue)@[i] == old(queue)@[i],
        forall|i: int| 0 <= i < queued_lines(old(store)@).len() ==> {
            queued_session_from(final(queue)@[old(queue)@.len() + i], #[trigger] queued_lines(old(store)@)[i])
        },
{
    let fname = "sess/queue";
    proof {
        cache::lemma_desk_files(store);
        reveal_strlit("sess/queue");
    }
    let text = cache::read(store, fname);
    let chars = chars_of(text.as_str());
    let lines = split_chars(&chars, '\n');
    let ghost lines_spec = queue_lines(store@);
    let ghost start_len = queue@.len();
    let ghost old_queue = queue@;
    let mut i: usize = 0;
    assert(lines_spec.take(0) =~= Seq::<Seq<char>>::empty());
    while i < lines.len()
        invariant
            i <= lines@.len(),
            lines@.len() == lines_spec.len(),
            forall|k: int| 0 <= k < lines@.len() ==> #[trigger] lines@[k]@ == lines_spec[k],
            forall|k: int| 0 <= k < lines_spec.len() && lines_spec[k].len() > 0 ==> session_decodable(#[trigger] lines_spec[k]),
            queue@.len() == start_len + nonempty_lines(lines_spec.take(i as int)).len(),
            forall|k: int| 0 <= k < start_len ==> #[trigger] queue@[k] == old_queue[k],
            forall|k: int| 0 <= k < nonempty_lines(lines_spec.take(i as int)).len() ==> queued_session_from(
                queue@[start_len + k], #[trigger] nonempty_lines(lines_spec.take(i as int))[k]),
        decreases lines@.len() - i,
    {
        proof {
            lemma_nonempty_lines_step(lines_spec, i as int);
        }
        let ghost done = nonempty_lines(lines_spec.take(i as int));
        if lines[i].len() > 0 {
            let line = string_of(lines[i].as_slice());
            let sess = Session::deserialize(line.as_str());
            let ghost prev = queue@;
            queue.push(Queued::Session(sess));
            proof {
                let next = done.push(lines_spec[i as int]);
                assert forall|k: int| 0 <= k < next.len() implies queued_session_from(queue@[start_len + k], #[trigger] next[k]) by {
                    if k < done.len() {
                        assert(next[k] == done[k]);
                        assert(queue@[start_len + k] == prev[start_len + k]);
                    } else {
                        assert(queue@[start_len + k] == Queued::Session(sess));
                        assert(line@ == lines_spec[i as int]);
                    }
                }
                assert forall|k: int| 0 <= k < start_len implies #[trigger] queue@[k] == old_queue[k] by {
                    assert(queue@[k] == prev[k]);
                }
            }
        }
        i = i + 1;
    }
    proof {
        assert(lines_spec.take(lines_spec.len() as int) =~= lines_spec);
        cache::lemma_desk_files(store);
    }
    cache::clear(store, fname);
}

/// A cleared queue holds no sessions: its one line is empty, so `push_queue`
/// can run on it and queues nothing.
pub proof fn lemma_cleared_queue_is_empty(m: Map<Seq<char>, Seq<u8>>)
    ensures
        queue_lines(after_clear(m, queue_file())) == seq![Seq::<char>::empty()],
        queued_lines(after_clear(m, queue_file())) == Seq::<Seq<char>>::empty(),
{
    cache::lemma_cleared_reads_empty(after_clear(m, queue_file()), queue_file());
    lemma_nonempty_lines_of_empty('\n');
}

/// A session written as a line reads back as the same session, when its id
/// holds no comma.
pub proof fn lemma_session_round_trip(s: Session, t: Session)
    requires
        !s.id@.contains(','),
    ensures
        Session::decodable(s.encoding()),
        Session::decodes_to(s.encoding(), t) <==> (t.id@ == s.id@ && t.start == s.start && t.end
            == s.end),
{
    lemma_decimal_plain(s.start as nat, ',');
    lemma_decimal_plain(s.end as nat, ',');
    lemma_split_three(s.id@, decimal(s.start as nat), decimal(s.end as nat), ',');
    lemma_parse_decimal(s.start as nat, u64::MAX as nat);
    lemma_parse_decimal(s.end as nat, u64::MAX as nat);
}

/// Once a session is started for a user who had no session file, or an older
/// one no longer than the new start line, the session file holds the start
/// time and reads back as it.
pub proof fn lemma_start_after_mk_sess(
    m: Map<Seq<char>, Seq<u8>>,
    dirs: Set<Seq<char>>,
    id: Seq<char>,
    start: u64,
)
    requires
        bytes_or_empty(m, session_key(dirs, id)).len() <= line_bytes(decimal(start as nat)).len(),
    ensures
        after_create(m, session_key(dirs, id), decimal(start as nat)).contains_key(session_key(dirs, id)),
        session_start(after_create(m, session_key(dirs, id), decimal(start as nat)), dirs, id) == Some(
            start as nat,
        ),
{
    let d = decimal(start as nat);
    let k = session_key(dirs, id);
    let m1 = after_create(m, k, d);
    assert(m1[k] == line_bytes(d));
    lemma_utf8_round_trip(d.push('\n'));
    lemma_decimal_digits(start as nat);
    assert(!is_space(d[0]));
    assert(d.last() == d[d.len() - 1]);
    assert(!is_space(d.last()));
    lemma_trim_line(d);
    lemma_parse_decimal(start as nat, u64::MAX as nat);
}

/// A session whose line the cache keeps as written: its id holds no comma
/// and no newline and does not start with whitespace.
pub open spec fn queueable(s: Session) -> bool {
    &&& !s.id@.contains(',')
    &&& !s.id@.contains('\n')
    &&& s.id@.len() > 0 ==> !is_space(s.id@[0])
}

/// The line of a queueable session is plain and reads back as the session.
pub proof fn lemma_session_line_plain(s: Session)
    requires
        queueable(s),
    ensures
        plain_line(s.encoding()),
        session_decodable(s.encoding()),
{
    let line = s.encoding();
    let ds = decimal(s.start as nat);
    let de = decimal(s.end as nat);
    lemma_decimal_digits(s.start as nat);
    lemma_decimal_digits(s.end as nat);
    assert(line == s.id@ + seq![','] + ds + seq![','] + de);
    assert(line.last() == de[de.len() - 1]);
    if s.id@.len() > 0 {
        assert(line[0] == s.id@[0]);
    } else {
        assert(line[0] == ',');
    }
    assert(!line.contains('\n')) by {
        lemma_decimal_plain(s.start as nat, '\n');
        lemma_decimal_plain(s.end as nat, '\n');
        if line.contains('\n') {
            let k = choose|k: int| 0 <= k < line.len() && line[k] == '\n';
            if k < s.id@.len() {
                assert(s.id@[k] == '\n');
            } else if k == s.id@.len() {
            } else if k < s.id@.len() + 1 + ds.len() {
                assert(ds[k - s.id@.len() - 1] == '\n');
            } else if k == s.id@.len() + 1 + ds.len() {
            } else {
                assert(de[k - s.id@.len() - 2 - ds.len()] == '\n');
            }
        }
    }
    lemma_session_round_trip(s, s);
}

/// The lines of a list of sessions.
pub open spec fn session_lines(sessions: Seq<Session>) -> Seq<Seq<char>> {
    sessions.map_values(|s: Session| s.encoding())
}

/// Sessions cached one after another (each `cache` appends its line, see
/// `lemma_append_keeps_lines`) are the lines of the queue in the same order,
/// and the queue gives each back as the session it was: `push_queue` can read
/// the queue and queues the same sessions, one for each line.
pub proof fn lemma_queue_returns_cached(m: Map<Seq<char>, Seq<u8>>, sessions: Seq<Session>)
    requires
        m.contains_key(queue_file()),
        cache::holds_lines(m, queue_file(), session_lines(sessions)),
        sessions.len() > 0,
        forall|i: int| 0 <= i < sessions.len() ==> queueable(#[trigger] sessions[i]),
    ensures
        queued_lines(m) == session_lines(sessions),
        forall|i: int| 0 <= i < queue_lines(m).len() ==> session_decodable(#[trigger] queue_lines(m)[i]),
        forall|i: int, t: Session| 0 <= i < sessions.len() ==> (#[trigger] Session::decodes_to(queued_lines(m)[i], t) <==> (
            t.id@ == sessions[i].id@ && t.start == sessions[i].start && t.end == sessions[i].end)),
{
    let ls = session_lines(sessions);
    assert forall|i: int| 0 <= i < ls.len() implies plain_line(#[trigger] ls[i]) by {
        lemma_session_line_plain(sessions[i]);
    }
    cache::lemma_read_lines(m, queue_file(), ls);
    assert forall|i: int| 0 <= i < queue_lines(m).len() implies session_decodable(#[trigger] queue_lines(m)[i]) by {
        lemma_session_line_plain(sessions[i]);
    }
    assert forall|i: int| 0 <= i < ls.len() implies (#[trigger] ls[i]).len() > 0 by {
        lemma_session_line_plain(sessions[i]);
    }
    lemma_nonempty_lines_all(ls);
    assert forall|i: int, t: Session| 0 <= i < sessions.len() implies (#[trigger] Session::decodes_to(queued_lines(m)[i], t) <==> (
        t.id@ == sessions[i].id@ && t.start == sessions[i].start && t.end == sessions[i].end)) by {
        lemma_session_round_trip(sessions[i], t);
    }
}

/// Whether the user's session file, when the user counts as signed in, is a
/// file that holds a start time.
pub fn session_start_readable(store: &CacheStore, id: &str) -> (r: bool)
    requires
        store.wf(),
        stays_inside(store.dirs(), active_file(id@)),
    ensures
        r == (path_exists(store@, store.dirs(), active_file(id@)) ==> names_file(
            store@,
            store.dirs(),
            active_file(id@),
        ) && session_start(store@, store.dirs(), id@) is Some),
{
    let key = active_key(id);
    if !cache::file_exists(store, key.as_str()) {
        return true;
    }
    if !cache::is_file(store, key.as_str()) {
        return false;
    }
    let text = cache::read(store, key.as_str());
    let chars = chars_of(text.as_str());
    parse_unsigned_chars(&chars, u64::MAX).is_some()
}

/// Whether a line can be read back as a session.
pub fn session_line_readable(line: &Vec<char>) -> (r: bool)
    ensures
        r == session_decodable(line@),
{
    let data = split_chars(line, ',');
    data.len() >= 3 && parse_unsigned_chars(&data[1], u64::MAX).is_some()
        && parse_unsigned_chars(&data[2], u64::MAX).is_some()
}

/// Whether the queue file exists and every line of it that holds text holds
/// a session.
pub fn queue_readable(store: &CacheStore) -> (r: bool)
    requires
        store.wf(),
    ensures
        r == (store@.contains_key(queue_file()) && forall|i: int|
            0 <= i < queue_lines(store@).len() && queue_lines(store@)[i].len() > 0 ==> session_decodable(
                #[trigger] queue_lines(store@)[i],
            )),
{
    let fname = "sess/queue";
    proof {
        cache::lemma_desk_files(store);
        reveal_strlit("sess/queue");
    }
    if !store.contains(fname) {
        return false;
    }
    let text = cache::read(store, fname);
    let chars = chars_of(text.as_str());
    let lines = split_chars(&chars, '\n');
    let ghost ls = queue_lines(store@);
    let mut i: usize = 0;
    while i < lines.len()
        invariant
            i <= lines@.len(),
            ls == queue_lines(store@),
            lines@.len() == ls.len(),
            forall|k: int| 0 <= k < lines@.len() ==> #[trigger] lines@[k]@ == ls[k],
            forall|k: int| 0 <= k < i && ls[k].len() > 0 ==> session_decodable(#[trigger] ls[k]),
        decreases lines@.len() - i,
    {
        if lines[i].len() > 0 && !session_line_readable(&lines[i]) {
            assert(!session_decodable(ls[i as int]));
            return false;
        }
        i = i + 1;
    }
    true
}

} // verus!
