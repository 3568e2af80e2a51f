//! Users: the records of who may sign in, kept in a local file until they
//! are sent to the server, and the rule for which ids look valid.
use vstd::prelude::*;
use crate::text::{
    chars_of, decimal, digit_char, has_char, is_space, lemma_digit_char, lemma_decimal_digits, lemma_decimal_plain,
    lemma_nonempty_lines_of_empty, lemma_nonempty_lines_step, nonempty_lines,
    lemma_parse_decimal, lemma_split_three, parse_unsigned, parse_unsigned_chars, plain_line,
    push_decimal, push_str_chars, split, split_chars, string_of,
};
use crate::util::cache::{self, after_clear, names_itself, read_text, CacheStore};
use crate::util::pattern::{compile_pattern, pattern_is_match, regex_compiles, regex_is_match};
use crate::util::sess::fields;
use crate::util::time::current_year;
use crate::util::traits::{ApiPostRequest, Cacheable, Pushable, Queued};

verus! {

/// A user: id, name and privilege level.
pub struct User {
    pub id: String,
    pub name: String,
    pub lvl: u8,
}

/// The line that stands for a user: id, name and level, separated by commas.
pub open spec fn user_line(id: Seq<char>, name: Seq<char>, lvl: u8) -> Seq<char> {
    id + seq![','] + name + seq![','] + decimal(lvl as nat)
}

/// A line can be read back as a user when it has at least three fields and
/// the third is a number that fits a `u8`.
pub open spec fn user_decodable(line: Seq<char>) -> bool {
    &&& fields(line).len() >= 3
    &&& parse_unsigned(fields(line)[2], u8::MAX as nat) is Some
}

/// The body that sends a user to the API.
pub open spec fn user_body(id: Seq<char>, name: Seq<char>, lvl: u8) -> Seq<char> {
    "id="@ + id + "&name="@ + name + "&lvl="@ + decimal(lvl as nat)
}

/// Users created here and not yet sent to the server.
pub open spec fn local_file() -> Seq<char> {
    "user/local"@
}

/// Users known to the server.
pub open spec fn server_file() -> Seq<char> {
    "user/server"@
}

impl Cacheable for User {
    open spec fn encoding(&self) -> Seq<char> {
        user_line(self.id@, self.name@, self.lvl)
    }

    open spec fn decodable(line: Seq<char>) -> bool {
        user_decodable(line)
    }

    open spec fn decodes_to(line: Seq<char>, value: User) -> bool {
        &&& value.id@ == fields(line)[0]
        &&& value.name@ == fields(line)[1]
        &&& Some(value.lvl as nat) == parse_unsigned(fields(line)[2], u8::MAX as nat)
    }

    open spec fn cache_file() -> Seq<char> {
        local_file()
    }

    fn serialize(&self) -> (r: String) {
        let mut out: Vec<char> = Vec::new();
        push_str_chars(&mut out, self.id.as_str());
        out.push(',');
        push_str_chars(&mut out, self.name.as_str());
        out.push(',');
        push_decimal(&mut out, self.lvl as u64);
        assert(out@ =~= user_line(self.id@, self.name@, self.lvl));
        string_of(out.as_slice())
    }

    fn deserialize(serialized: &str) -> (r: User) {
        let chars = chars_of(serialized);
        let data = split_chars(&chars, ',');
        let id = string_of(data[0].as_slice());
        let name = string_of(data[1].as_slice());
        let lvl = parse_unsigned_chars(&data[2], 255);
        User { id, name, lvl: lvl.unwrap() as u8 }
    }

    fn cache(&self, store: &mut CacheStore) {
        let line = self.serialize();
        let fname = "user/local";
        proof {
            cache::lemma_desk_files(store);
            reveal_strlit("user/local");
        }
        cache::append(store, fname, line.as_str());
    }
}

impl Pushable for User {
    open spec fn post_endpoint(&self) -> Seq<char> {
        "/put/user"@
    }

    open spec fn post_body(&self) -> Seq<char> {
        user_body(self.id@, self.name@, self.lvl)
    }

    fn get_post_req(&self, key: &str) -> (r: ApiPostRequest) {
        let mut body: Vec<char> = Vec::new();
        push_str_chars(&mut body, "id=");
        push_str_chars(&mut body, self.id.as_str());
        push_str_chars(&mut body, "&name=");
        push_str_chars(&mut body, self.name.as_str());
        push_str_chars(&mut body, "&lvl=");
        push_decimal(&mut body, self.lvl as u64);
        assert(body@ =~= user_body(self.id@, self.name@, self.lvl));
        ApiPostRequest {
            endpt: "/put/user".to_owned(),
            body: string_of(body.as_slice()),
            key: Some(key.to_owned()),
        }
    }
}

/// Whether a user can be created.
pub enum Creatability {
    /// The user can be created without further checks.
    Unobstructed,
    /// The user can be created, but its id looks unusual, so an administrator
    /// must approve it.
    Privileged,
    /// The user cannot be created.
    Impossible,
}

/// How creatable a requested user is, given whether its id looks valid: a
/// comma in the id or the name makes the user impossible, as its line could
/// not be read back; otherwise an id that looks valid is unobstructed, and
/// any other id needs approval.
pub open spec fn creatability_of(id_valid: bool, id: Seq<char>, name: Seq<char>) -> Creatability {
    if id.contains(',') || name.contains(',') {
        Creatability::Impossible
    } else if id_valid {
        Creatability::Unobstructed
    } else {
        Creatability::Privileged
    }
}

/// How creatable the requested user is, given whether its id looks valid.
pub fn is_creatable_with(req: &User, id_valid: bool) -> (r: Creatability)
    ensures
        r == creatability_of(id_valid, req.id@, req.name@),
{
    if has_char(req.id.as_str(), ',') || has_char(req.name.as_str(), ',') {
        Creatability::Impossible
    } else if id_valid {
        Creatability::Unobstructed
    } else {
        Creatability::Privileged
    }
}

/// Whether the queued record is the user that `line` stands for.
pub open spec fn queued_user_from(item: Queued, line: Seq<char>) -> bool {
    &&& item is User
    &&& User::decodes_to(line, item->User_0)
}

/// The lines of a cache file.
pub open spec fn file_lines(m: Map<Seq<char>, Seq<u8>>, fname: Seq<char>) -> Seq<Seq<char>> {
    split(read_text(m, fname), '\n')
}

/// Whether a line holds text and its id field is `id`.
pub open spec fn line_has_id(line: Seq<char>, id: Seq<char>) -> bool {
    line.len() > 0 && fields(line)[0] == id
}

/// Whether line `j` is the first that holds text and whose id field is `id`.
pub open spec fn first_with_id(lines: Seq<Seq<char>>, id: Seq<char>, j: int) -> bool {
    &&& 0 <= j < lines.len()
    &&& line_has_id(lines[j], id)
    &&& forall|k: int| 0 <= k < j ==> !line_has_id(#[trigger] lines[k], id)
}

/// Every line that the search for `id` reads, the lines that hold text up to
/// and including the first with that id, can be read back as a user.
pub open spec fn readable_until(lines: Seq<Seq<char>>, id: Seq<char>) -> bool {
    forall|j: int|
        0 <= j < lines.len() && lines[j].len() > 0 && (forall|k: int| 0 <= k < j ==> !line_has_id(#[trigger] lines[k], id))
            ==> user_decodable(#[trigger] lines[j])
}

/// The user that the first line with that id stands for, in a file of user
/// lines; `None` when no line has that id.
pub open spec fn found_user(lines: Seq<Seq<char>>, id: Seq<char>, r: Option<User>) -> bool {
    match r {
        Some(u) => exists|j: int| #[trigger] first_with_id(lines, id, j) && User::decodes_to(lines[j], u),
        None => forall|j: int| 0 <= j < lines.len() ==> !line_has_id(#[trigger] lines[j], id),
    }
}

/// The user with that id in the named file of user lines; lines without
/// text are passed over.
pub fn get_user_from_file(store: &CacheStore, id: &str, fname: &str) -> (r: Option<User>)
    requires
        store.wf(),
        names_itself(store.dirs(), fname@),
        store@.contains_key(fname@),
        readable_until(file_lines(store@, fname@), id@),
    ensures
        found_user(file_lines(store@, fname@), id@, r),
{
    let text = cache::read(store, fname);
    let chars = chars_of(text.as_str());
    let lines = split_chars(&chars, '\n');
    let ghost ls = file_lines(store@, fname@);
    let wanted = id.to_owned();
    let mut i: usize = 0;
    while i < lines.len()
        invariant
            i <= lines@.len(),
            ls == file_lines(store@, fname@),
            lines@.len() == ls.len(),
            forall|k: int| 0 <= k < lines@.len() ==> #[trigger] lines@[k]@ == ls[k],
            readable_until(ls, id@),
            wanted@ == id@,
            forall|k: int| 0 <= k < i ==> !line_has_id(#[trigger] ls[k], id@),
        decreases lines@.len() - i,
    {
        if lines[i].len() > 0 {
            let line = string_of(lines[i].as_slice());
            assert(user_decodable(ls[i as int]));
            let user = User::deserialize(line.as_str());
            if user.id == wanted {
                assert(first_with_id(ls, id@, i as int));
                assert(User::decodes_to(ls[i as int], user));
                return Some(user);
            }
        }
        i = i + 1;
    }
    None
}

/// Whether the named file exists and has a line with that id.
pub open spec fn has_user(m: Map<Seq<char>, Seq<u8>>, fname: Seq<char>, id: Seq<char>) -> bool {
    &&& m.contains_key(fname)
    &&& exists|j: int| 0 <= j < file_lines(m, fname).len() && line_has_id(#[trigger] file_lines(m, fname)[j], id)
}

/// The lookup of `id` can read every line it reaches in the named file, when
/// the file exists.
pub open spec fn lookup_readable(m: Map<Seq<char>, Seq<u8>>, fname: Seq<char>, id: Seq<char>) -> bool {
    m.contains_key(fname) ==> readable_until(file_lines(m, fname), id)
}

/// The user with that id: first among the users known to the server, then
/// among those created here.
pub fn get_user(store: &CacheStore, id: &str) -> (r: Option<User>)
    requires
        store.wf(),
        lookup_readable(store@, server_file(), id@),
        !has_user(store@, server_file(), id@) ==> lookup_readable(store@, local_file(), id@),
    ensures
        r is Some <==> has_user(store@, server_file(), id@) || has_user(store@, local_file(), id@),
        has_user(store@, server_file(), id@) ==> found_user(file_lines(store@, server_file()), id@, r),
        !has_user(store@, server_file(), id@) && has_user(store@, local_file(), id@) ==> found_user(
            file_lines(store@, local_file()),
            id@,
            r,
        ),
{
    let server = "user/server";
    proof {
        cache::lemma_desk_files(store);
        reveal_strlit("user/server");
        reveal_strlit("user/local");
    }
    if cache::file_exists(store, server) {
        let found = get_user_from_file(store, id, server);
        if found.is_some() {
            return found;
        }
    }
    let local = "user/local";
    if cache::file_exists(store, local) {
        let found = get_user_from_file(store, id, local);
        if found.is_some() {
            return found;
        }
    }
    None
}

/// The line a user is written back as once read from `line`.
pub open spec fn reencoded_user(line: Seq<char>) -> Seq<char> {
    user_line(fields(line)[0], fields(line)[1], parse_unsigned(fields(line)[2], u8::MAX as nat).unwrap() as u8)
}

/// The bytes that writing back each line of `lines` as a user appends.
pub open spec fn reencoded_bytes(lines: Seq<Seq<char>>) -> Seq<u8>
    decreases lines.len(),
{
    if lines.len() == 0 {
        Seq::empty()
    } else {
        reencoded_bytes(lines.drop_last()) + cache::line_bytes(reencoded_user(lines.last()))
    }
}

/// The lines of the local user file that hold text: the users it keeps.
pub open spec fn local_records(m: Map<Seq<char>, Seq<u8>>) -> Seq<Seq<char>> {
    nonempty_lines(file_lines(m, local_file()))
}

/// The cache after the users of `records` are written back, one line each, at
/// the end of the server's file; with no records nothing is written and the
/// server's file is not created.
pub open spec fn moved_to_server(m: Map<Seq<char>, Seq<u8>>, records: Seq<Seq<char>>) -> Map<
    Seq<char>,
    Seq<u8>,
> {
    if records.len() == 0 {
        m
    } else {
        m.insert(server_file(), cache::bytes_or_empty(m, server_file()) + reencoded_bytes(records))
    }
}

/// Moves the users created here to the server's file and into `queue`, one
/// for each line of the local file that holds text, then clears the local
/// file.
pub fn push_and_move_local(queue: &mut Vec<Queued>, store: &mut CacheStore)
    requires
        old(store).wf(),
        old(store)@.contains_key(local_file()),
        forall|i: int| 0 <= i < file_lines(old(store)@, local_file()).len()
            && file_lines(old(store)@, local_file())[i].len() > 0 ==> user_decodable(
            #[trigger] file_lines(old(store)@, local_file())[i],
        ),
    ensures
        final(store).wf(),
        final(store).dirs() == old(store).dirs(),
        final(store)@ == after_clear(moved_to_server(old(store)@, local_records(old(store)@)), local_file()),
        final(queue)@.len() == old(queue)@.len() + local_records(old(store)@).len(),
        forall|i: int| 0 <= i < old(queue)@.len() ==> #[trigger] final(queue)@[i] == old(queue)@[i],
        forall|i: int| 0 <= i < local_records(old(store)@).len() ==> queued_user_from(
            final(queue)@[old(queue)@.len() + i],
            #[trigger] local_records(old(store)@)[i],
        ),
{
    let local = "user/local";
    let server = "user/server";
    proof {
        cache::lemma_desk_files(store);
        reveal_strlit("user/server");
        reveal_strlit("user/local");
    }
    let ghost dirs = store.dirs();
    let text = cache::read(store, local);
    let chars = chars_of(text.as_str());
    let lines = split_chars(&chars, '\n');
    let ghost m = store@;
    let ghost ls = file_lines(store@, local_file());
    let ghost start_len = queue@.len();
    let ghost old_queue = queue@;
    let mut i: usize = 0;
    assert(ls.take(0) =~= Seq::<Seq<char>>::empty());
    while i < lines.len()
        invariant
            store.wf(),
            store.dirs() == dirs,
            i <= lines@.len(),
            lines@.len() == ls.len(),
            forall|k: int| 0 <= k < lines@.len() ==> #[trigger] lines@[k]@ == ls[k],
            forall|k: int| 0 <= k < ls.len() && ls[k].len() > 0 ==> user_decodable(#[trigger] ls[k]),
            server@ == server_file(),
            local@ == local_file(),
            store@ == moved_to_server(m, nonempty_lines(ls.take(i as int))),
            queue@.len() == start_len + nonempty_lines(ls.take(i as int)).len(),
            forall|k: int| 0 <= k < start_len ==> #[trigger] queue@[k] == old_queue[k],
            forall|k: int| 0 <= k < nonempty_lines(ls.take(i as int)).len() ==> queued_user_from(
                queue@[start_len + k], #[trigger] nonempty_lines(ls.take(i as int))[k]),
        decreases lines@.len() - i,
    {
        proof {
            lemma_nonempty_lines_step(ls, i as int);
        }
        let ghost done = nonempty_lines(ls.take(i as int));
        if lines[i].len() > 0 {
            let line = string_of(lines[i].as_slice());
            let user = User::deserialize(line.as_str());
            let encoded = user.serialize();
            assert(encoded@ == reencoded_user(ls[i as int]));
            let ghost before = store@;
            proof {
                cache::lemma_desk_files(store);
            }
            cache::append(store, server, encoded.as_str());
            let ghost prev = queue@;
            queue.push(Queued::User(user));
            proof {
                let next = done.push(ls[i as int]);
                assert(next.drop_last() =~= done);
                assert(next.last() == ls[i as int]);
                if done.len() == 0 {
                    assert(reencoded_bytes(done) =~= Seq::<u8>::empty());
                }
                assert(cache::bytes_or_empty(before, server_file()) + cache::line_bytes(reencoded_user(ls[i as int]))
                    =~= cache::bytes_or_empty(m, server_file()) + reencoded_bytes(next));
                assert(store@ =~= moved_to_server(m, next));
                assert forall|k: int| 0 <= k < next.len() implies queued_user_from(queue@[start_len + k], #[trigger] next[k]) by {
                    if k < done.len() {
                        assert(next[k] == done[k]);
                        assert(queue@[start_len + k] == prev[start_len + k]);
                    } else {
                        assert(queue@[start_len + k] == Queued::User(user));
                    }
                }
                assert forall|k: int| 0 <= k < start_len implies #[trigger] queue@[k] == old_queue[k] by {
                    assert(queue@[k] == prev[k]);
                }
            }
        }
        i = i + 1;
    }
    proof {
        assert(ls.take(ls.len() as int) =~= ls);
    }
    proof {
        cache::lemma_desk_files(store);
    }
    cache::clear(store, local);
}

/// A cleared local file holds no users: its one line is empty, so moving the
/// local users moves none, and no id is found in it.
pub proof fn lemma_cleared_local_is_empty(m: Map<Seq<char>, Seq<u8>>, id: Seq<char>)
    ensures
        file_lines(after_clear(m, local_file()), local_file()) == seq![Seq::<char>::empty()],
        local_records(after_clear(m, local_file())) == Seq::<Seq<char>>::empty(),
        lookup_readable(after_clear(m, local_file()), local_file(), id),
        !has_user(after_clear(m, local_file()), local_file(), id),
{
    cache::lemma_cleared_reads_empty(after_clear(m, local_file()), local_file());
    lemma_nonempty_lines_of_empty('\n');
}

/// Rust's `/` on integers: the quotient rounded toward zero.
pub open spec fn trunc_div(a: int, b: int) -> int {
    if a >= 0 {
        a / b
    } else {
        -((-a) / b)
    }
}

/// Rust's `%` on integers: the remainder that has the sign of `a`.
pub open spec fn trunc_rem(a: int, b: int) -> int {
    a - b * trunc_div(a, b)
}

/// The decimal text of an integer, with a `-` when it is negative.
pub open spec fn signed_decimal(n: int) -> Seq<char> {
    if n >= 0 {
        decimal(n as nat)
    } else {
        seq!['-'] + decimal((-n) as nat)
    }
}

/// The pattern for the two graduation-year digits of an id: from a year
/// before the current one (seniors in their second semester) to four years
/// after it (freshmen in their first). Within one decade it is one character
/// class; across two it is a group holding an alternation of two, so that
/// the digits that follow it belong to either branch.
pub open spec fn grad_year_pattern(year: int) -> Seq<char> {
    let yy = trunc_rem(year, 100);
    let lo = yy - 1;
    let hi = yy + 4;
    if trunc_div(lo, 10) == trunc_div(hi, 10) {
        signed_decimal(trunc_div(lo, 10)) + seq!['['] + signed_decimal(trunc_rem(lo, 10)) + seq!['-']
            + signed_decimal(trunc_rem(hi, 10)) + seq![']']
    } else {
        "(?:(?:"@ + signed_decimal(trunc_div(lo, 10)) + seq!['['] + signed_decimal(trunc_rem(lo, 10))
            + "-9])|(?:"@ + signed_decimal(trunc_div(hi, 10)) + "[0-"@ + signed_decimal(
            trunc_rem(hi, 10),
        ) + "]))"@
    }
}

/// The pattern an id is matched against in `year`: the graduation-year
/// pattern followed by two groups of three digits.
pub open spec fn id_pattern(year: int) -> Seq<char> {
    grad_year_pattern(year) + "[0-9]{3}"@ + "[0-9]{3}"@
}

/// The text of a graduation-year pattern for one decade: the tens digit `t`
/// followed by the class of ones digits from `a` to `b`.
pub open spec fn one_decade_text(t: nat, a: nat, b: nat) -> Seq<char> {
    seq![digit_char(t), '[', digit_char(a), '-', digit_char(b), ']']
}

/// The text of a graduation-year pattern across two decades: a group holding
/// the alternation of tens digit `t1` with ones digits from `a` to 9, and of
/// tens digit `t2` with ones digits from 0 to `b`.
pub open spec fn two_decade_text(t1: nat, a: nat, t2: nat, b: nat) -> Seq<char> {
    seq![
        '(', '?', ':', '(', '?', ':', digit_char(t1), '[', digit_char(a), '-', '9', ']', ')', '|',
        '(', '?', ':', digit_char(t2), '[', '0', '-', digit_char(b), ']', ')', ')',
    ]
}

/// Whether a graduation-year pattern of either form accepts the two-digit
/// year `n`, as a regular expression reads it: the tens digit must match and
/// the ones digit must lie in the class of that branch.
pub open spec fn accepts_year(p: Seq<char>, n: int) -> bool {
    &&& 0 <= n < 100
    &&& {
        ||| exists|t: nat, a: nat, b: nat|
            t < 10 && a < 10 && b < 10 && p == #[trigger] one_decade_text(t, a, b) && n / 10 == t && a
                <= n % 10 <= b
        ||| exists|t1: nat, a: nat, t2: nat, b: nat|
            t1 < 10 && a < 10 && t2 < 10 && b < 10 && p == #[trigger] two_decade_text(t1, a, t2, b) && (
            (n / 10 == t1 && a <= n % 10) || (n / 10 == t2 && n % 10 <= b))
    }
}

/// The graduation-year pattern of a year accepts exactly the two-digit years
/// from the year before the current one through four years after it (for
/// years whose last two digits lie from 01 to 95, where that window is made
/// of two-digit years).
pub proof fn lemma_grad_year_window(year: int, n: int)
    requires
        0 <= year,
        1 <= year % 100 <= 95,
    ensures
        accepts_year(grad_year_pattern(year), n) <==> (year % 100 - 1 <= n <= year % 100 + 4),
{
    let yy = year % 100;
    assert(trunc_div(year, 100) == year / 100);
    assert(trunc_rem(year, 100) == yy);
    let lo = yy - 1;
    let hi = yy + 4;
    assert(trunc_div(lo, 10) == lo / 10);
    assert(trunc_div(hi, 10) == hi / 10);
    assert(trunc_rem(lo, 10) == lo % 10);
    assert(trunc_rem(hi, 10) == hi % 10);
    let t1 = (lo / 10) as nat;
    let a = (lo % 10) as nat;
    let t2 = (hi / 10) as nat;
    let b = (hi % 10) as nat;
    assert(signed_decimal(lo / 10) == seq![digit_char(t1)]);
    assert(signed_decimal(lo % 10) == seq![digit_char(a)]);
    assert(signed_decimal(hi / 10) == seq![digit_char(t2)]);
    assert(signed_decimal(hi % 10) == seq![digit_char(b)]);
    let p = grad_year_pattern(year);
    lemma_digit_char(t1);
    lemma_digit_char(a);
    lemma_digit_char(t2);
    lemma_digit_char(b);
    if lo / 10 == hi / 10 {
        assert(p =~= one_decade_text(t1, a, b));
        if accepts_year(p, n) {
            if exists|t: nat, a2: nat, b2: nat|
                t < 10 && a2 < 10 && b2 < 10 && p == #[trigger] one_decade_text(t, a2, b2) && n / 10 == t && a2
                    <= n % 10 <= b2 {
                let (t, a2, b2) = choose|t: nat, a2: nat, b2: nat|
                    t < 10 && a2 < 10 && b2 < 10 && p == #[trigger] one_decade_text(t, a2, b2) && n / 10 == t
                        && a2 <= n % 10 <= b2;
                lemma_digit_char(t);
                lemma_digit_char(a2);
                lemma_digit_char(b2);
                assert(p[0] == digit_char(t));
                assert(p[2] == digit_char(a2));
                assert(p[4] == digit_char(b2));
            } else {
                let (u1, c, u2, e) = choose|u1: nat, c: nat, u2: nat, e: nat|
                    u1 < 10 && c < 10 && u2 < 10 && e < 10 && p == #[trigger] two_decade_text(u1, c, u2, e) && (
                    (n / 10 == u1 && c <= n % 10) || (n / 10 == u2 && n % 10 <= e));
                assert(p.len() == 6);
                assert(two_decade_text(u1, c, u2, e).len() == 25);
            }
        }
        if lo <= n <= hi {
            assert(p == one_decade_text(t1, a, b));
        }
    } else {
        reveal_strlit("(?:(?:");
        reveal_strlit("-9])|(?:");
        reveal_strlit("[0-");
        reveal_strlit("]))");
        assert(p =~= two_decade_text(t1, a, t2, b));
        assert(t2 == t1 + 1);
        if accepts_year(p, n) {
            if exists|u1: nat, c: nat, u2: nat, e: nat|
                u1 < 10 && c < 10 && u2 < 10 && e < 10 && p == #[trigger] two_decade_text(u1, c, u2, e) && (
                (n / 10 == u1 && c <= n % 10) || (n / 10 == u2 && n % 10 <= e)) {
                let (u1, c, u2, e) = choose|u1: nat, c: nat, u2: nat, e: nat|
                    u1 < 10 && c < 10 && u2 < 10 && e < 10 && p == #[trigger] two_decade_text(u1, c, u2, e) && (
                    (n / 10 == u1 && c <= n % 10) || (n / 10 == u2 && n % 10 <= e));
                lemma_digit_char(u1);
                lemma_digit_char(c);
                lemma_digit_char(u2);
                lemma_digit_char(e);
                assert(p[6] == digit_char(u1));
                assert(p[8] == digit_char(c));
                assert(p[17] == digit_char(u2));
                assert(p[21] == digit_char(e));
            } else {
                let (t, a2, b2) = choose|t: nat, a2: nat, b2: nat|
                    t < 10 && a2 < 10 && b2 < 10 && p == #[trigger] one_decade_text(t, a2, b2) && n / 10 == t && a2
                        <= n % 10 <= b2;
                assert(p.len() == 25);
                assert(one_decade_text(t, a2, b2).len() == 6);
            }
        }
        if lo <= n <= hi {
            assert(p == two_decade_text(t1, a, t2, b));
        }
    }
}

/// Whether an id looks valid in `year`: the pattern compiles and matches
/// somewhere in the id.
pub open spec fn id_looks_valid(year: int, id: Seq<char>) -> bool {
    regex_compiles(id_pattern(year)) && regex_is_match(id_pattern(year), id)
}

fn push_signed(out: &mut Vec<char>, n: i64)
    requires
        n > i64::MIN,
    ensures
        final(out)@ == old(out)@ + signed_decimal(n as int),
{
    if n >= 0 {
        push_decimal(out, n as u64);
    } else {
        out.push('-');
        push_decimal(out, (-n) as u64);
        assert(final(out)@ =~= old(out)@ + signed_decimal(n as int));
    }
}

fn trunc_div_rem(a: i64, b: i64) -> (r: (i64, i64))
    requires
        0 < b <= 100,
        -0x1_0000_0000 <= a <= 0x1_0000_0000,
    ensures
        r.0 == trunc_div(a as int, b as int),
        r.1 == trunc_rem(a as int, b as int),
{
    if a >= 0 {
        let q = a / b;
        assert(q * b <= a) by (nonlinear_arith)
            requires
                q == a / b,
                a >= 0,
                b > 0,
        ;
        assert(b * q == (b as int) * trunc_div(a as int, b as int));
        (q, a - b * q)
    } else {
        let na = -a;
        let q = na / b;
        assert(q * b <= na) by (nonlinear_arith)
            requires
                q == na / b,
                na >= 0,
                b > 0,
        ;
        assert((b as int) * (-q) == -((b as int) * (q as int))) by (nonlinear_arith);
        (-q, a + b * q)
    }
}

/// The pattern an id is matched against in `year`.
pub fn id_pattern_text(year: i32) -> (r: String)
    ensures
        r@ == id_pattern(year as int),
{
    let (_, yy) = trunc_div_rem(year as i64, 100);
    let lo = yy - 1;
    let hi = yy + 4;
    let (lo_tens, lo_ones) = trunc_div_rem(lo, 10);
    let (hi_tens, hi_ones) = trunc_div_rem(hi, 10);
    let mut out: Vec<char> = Vec::new();
    if lo_tens == hi_tens {
        push_signed(&mut out, lo_tens);
        out.push('[');
        push_signed(&mut out, lo_ones);
        out.push('-');
        push_signed(&mut out, hi_ones);
        out.push(']');
    } else {
        push_str_chars(&mut out, "(?:(?:");
        push_signed(&mut out, lo_tens);
        out.push('[');
        push_signed(&mut out, lo_ones);
        push_str_chars(&mut out, "-9])|(?:");
        push_signed(&mut out, hi_tens);
        push_str_chars(&mut out, "[0-");
        push_signed(&mut out, hi_ones);
        push_str_chars(&mut out, "]))");
    }
    let ghost grad = out@;
    assert(grad =~= grad_year_pattern(year as int));
    push_str_chars(&mut out, "[0-9]{3}");
    push_str_chars(&mut out, "[0-9]{3}");
    assert(out@ =~= id_pattern(year as int));
    string_of(out.as_slice())
}

/// Whether the id looks valid in `year`; `None` when the pattern for that
/// year does not compile.
pub fn validate_id_for_year(id: &str, year: i32) -> (r: Option<bool>)
    ensures
        r is Some <==> regex_compiles(id_pattern(year as int)),
        r matches Some(b) ==> b == regex_is_match(id_pattern(year as int), id@),
{
    let pattern = id_pattern_text(year);
    match compile_pattern(pattern.as_str()) {
        Ok(p) => Some(pattern_is_match(&p, id)),
        Err(_) => None,
    }
}

/// Whether the id looks valid in the current year. A pattern that does not
/// compile makes every id look invalid.
pub fn validate_id(id: &str) -> (r: bool)
    ensures
        exists|y: int| -262143 <= y <= 262142 && r == id_looks_valid(y, id@),
{
    let year = current_year();
    let r = match validate_id_for_year(id, year) {
        Some(b) => b,
        None => false,
    };
    assert(-262143 <= year <= 262142 && r == id_looks_valid(year as int, id@));
    r
}

/// How creatable the requested user is in the current year.
pub fn is_creatable(req: &User) -> (r: Creatability)
    ensures
        exists|y: int| -262143 <= y <= 262142 && r == creatability_of(id_looks_valid(y, req.id@), req.id@, req.name@),
{
    let valid = validate_id(req.id.as_str());
    is_creatable_with(req, valid)
}

/// The fields of a user line are the id, the name and the level, when the
/// id and the name hold no comma.
pub proof fn lemma_user_line_fields(id: Seq<char>, name: Seq<char>, lvl: u8)
    requires
        !id.contains(','),
        !name.contains(','),
    ensures
        fields(user_line(id, name, lvl)) == seq![id, name, decimal(lvl as nat)],
        parse_unsigned(decimal(lvl as nat), u8::MAX as nat) == Some(lvl as nat),
        user_decodable(user_line(id, name, lvl)),
{
    lemma_decimal_plain(lvl as nat, ',');
    lemma_split_three(id, name, decimal(lvl as nat), ',');
    lemma_parse_decimal(lvl as nat, u8::MAX as nat);
}

/// A user written as a line reads back as the same user, when its id and
/// name hold no comma.
pub proof fn lemma_user_round_trip(u: User, t: User)
    requires
        !u.id@.contains(','),
        !u.name@.contains(','),
    ensures
        User::decodable(u.encoding()),
        User::decodes_to(u.encoding(), t) <==> (t.id@ == u.id@ && t.name@ == u.name@ && t.lvl
            == u.lvl),
{
    lemma_user_line_fields(u.id@, u.name@, u.lvl);
}

/// A requested user can be created exactly when its id and name hold no
/// comma, and without approval exactly when, besides, its id looks valid.
pub proof fn lemma_creatability(id_valid: bool, id: Seq<char>, name: Seq<char>)
    ensures
        (creatability_of(id_valid, id, name) is Impossible) <==> (id.contains(',') || name.contains(',')),
        (creatability_of(id_valid, id, name) is Unobstructed) <==> (id_valid && !id.contains(',')
            && !name.contains(',')),
{
}

/// Whether a line can be read back as a user.
pub fn user_line_readable(line: &Vec<char>) -> (r: bool)
    ensures
        r == user_decodable(line@),
{
    let data = split_chars(line, ',');
    data.len() >= 3 && parse_unsigned_chars(&data[2], 255).is_some()
}

/// Whether a line holds text and its id field is `wanted`.
fn line_has_id_exec(line: &Vec<char>, wanted: &String) -> (r: bool)
    ensures
        r == line_has_id(line@, wanted@),
{
    if line.len() == 0 {
        return false;
    }
    let data = split_chars(line, ',');
    proof {
        crate::text::lemma_split_nonempty(line@, ',');
    }
    let first = string_of(data[0].as_slice());
    first == *wanted
}

/// Scans the named file as the lookup of `id` reads it: whether every line
/// the lookup reaches holds a user, and whether some line has that id.
pub fn scan_user_file(store: &CacheStore, fname: &str, id: &str) -> (r: (bool, bool))
    requires
        store.wf(),
        names_itself(store.dirs(), fname@),
    ensures
        r.0 == lookup_readable(store@, fname@, id@),
        r.1 == has_user(store@, fname@, id@),
{
    if !store.contains(fname) {
        return (true, false);
    }
    let text = cache::read(store, fname);
    let chars = chars_of(text.as_str());
    let lines = split_chars(&chars, '\n');
    let ghost ls = file_lines(store@, fname@);
    let wanted = id.to_owned();
    let mut i: usize = 0;
    while i < lines.len()
        invariant
            i <= lines@.len(),
            ls == file_lines(store@, fname@),
            store@.contains_key(fname@),
            lines@.len() == ls.len(),
            forall|k: int| 0 <= k < lines@.len() ==> #[trigger] lines@[k]@ == ls[k],
            wanted@ == id@,
            forall|k: int| 0 <= k < i ==> !line_has_id(#[trigger] ls[k], id@),
            forall|k: int| 0 <= k < i && ls[k].len() > 0 ==> user_decodable(#[trigger] ls[k]),
        decreases lines@.len() - i,
    {
        let matched = line_has_id_exec(&lines[i], &wanted);
        if lines[i].len() > 0 && !user_line_readable(&lines[i]) {
            assert(!readable_until(ls, id@)) by {
                assert(!user_decodable(ls[i as int]));
            }
            if matched {
                return (false, true);
            }
            let later = scan_rest(&lines, i + 1, &wanted, Ghost(ls));
            return (false, later);
        }
        if matched {
            assert(readable_until(ls, id@)) by {
                assert forall|j: int|
                    0 <= j < ls.len() && ls[j].len() > 0 && (forall|k: int| 0 <= k < j ==> !line_has_id(#[trigger] ls[k], id@))
                    implies user_decodable(#[trigger] ls[j]) by {
                    if j > i {
                        assert(line_has_id(ls[i as int], id@));
                    }
                }
            }
            return (true, true);
        }
        i = i + 1;
    }
    (true, false)
}

/// Whether some line from `start` on has the id.
fn scan_rest(lines: &Vec<Vec<char>>, start: usize, wanted: &String, Ghost(ls): Ghost<Seq<Seq<char>>>) -> (r: bool)
    requires
        lines@.len() == ls.len(),
        forall|k: int| 0 <= k < lines@.len() ==> #[trigger] lines@[k]@ == ls[k],
        start <= lines@.len(),
        forall|k: int| 0 <= k < start ==> !line_has_id(#[trigger] ls[k], wanted@),
    ensures
        r == exists|j: int| 0 <= j < ls.len() && line_has_id(#[trigger] ls[j], wanted@),
{
    let mut i: usize = start;
    while i < lines.len()
        invariant
            start <= i <= lines@.len(),
            lines@.len() == ls.len(),
            forall|k: int| 0 <= k < lines@.len() ==> #[trigger] lines@[k]@ == ls[k],
            forall|k: int| 0 <= k < i ==> !line_has_id(#[trigger] ls[k], wanted@),
        decreases lines@.len() - i,
    {
        if line_has_id_exec(&lines[i], wanted) {
            assert(line_has_id(ls[i as int], wanted@));
            return true;
        }
        i = i + 1;
    }
    false
}

/// Whether the local user file exists and every line of it that holds text
/// holds a user.
pub fn local_users_readable(store: &CacheStore) -> (r: bool)
    requires
        store.wf(),
    ensures
        r == (store@.contains_key(local_file()) && forall|i: int|
            0 <= i < file_lines(store@, local_file()).len() && file_lines(store@, local_file())[i].len()
                > 0 ==> user_decodable(#[trigger] file_lines(store@, local_file())[i])),
{
    let fname = "user/local";
    proof {
        cache::lemma_desk_files(store);
        reveal_strlit("user/local");
    }
    if !store.contains(fname) {
        return false;
    }
    let text = cache::read(store, fname);
    let chars = chars_of(text.as_str());
    let lines = split_chars(&chars, '\n');
    let ghost ls = file_lines(store@, local_file());
    let mut i: usize = 0;
    while i < lines.len()
        invariant
            i <= lines@.len(),
            ls == file_lines(store@, local_file()),
            lines@.len() == ls.len(),
            forall|k: int| 0 <= k < lines@.len() ==> #[trigger] lines@[k]@ == ls[k],
            forall|k: int| 0 <= k < i && ls[k].len() > 0 ==> user_decodable(#[trigger] ls[k]),
        decreases lines@.len() - i,
    {
        if lines[i].len() > 0 && !user_line_readable(&lines[i]) {
            assert(!user_decodable(ls[i as int]));
            return false;
        }
        i = i + 1;
    }
    true
}

/// A user whose line the cache keeps as written and reads back field by
/// field: id and name hold no comma and no newline, and the id does not start
/// with whitespace.
pub open spec fn keepable_user(id: Seq<char>, name: Seq<char>) -> bool {
    &&& !id.contains(',')
    &&& !id.contains('\n')
    &&& !name.contains(',')
    &&& !name.contains('\n')
    &&& id.len() > 0 ==> !is_space(id[0])
}

/// The line of a keepable user is plain and can be read back as a user
/// whose id field is the id.
pub proof fn lemma_user_line_plain(id: Seq<char>, name: Seq<char>, lvl: u8)
    requires
        keepable_user(id, name),
    ensures
        plain_line(user_line(id, name, lvl)),
        user_decodable(user_line(id, name, lvl)),
        fields(user_line(id, name, lvl))[0] == id,
{
    let line = user_line(id, name, lvl);
    let d = decimal(lvl as nat);
    lemma_decimal_digits(lvl as nat);
    lemma_user_line_fields(id, name, lvl);
    assert(line == id + seq![','] + name + seq![','] + d);
    assert(line.last() == d[d.len() - 1]);
    if id.len() > 0 {
        assert(line[0] == id[0]);
    } else {
        assert(line[0] == ',');
    }
    assert(!line.contains('\n')) by {
        lemma_decimal_plain(lvl as nat, '\n');
        if line.contains('\n') {
            let k = choose|k: int| 0 <= k < line.len() && line[k] == '\n';
            if k < id.len() {
                assert(id[k] == '\n');
            } else if k == id.len() {
            } else if k < id.len() + 1 + name.len() {
                assert(name[k - id.len() - 1] == '\n');
            } else if k == id.len() + 1 + name.len() {
            } else {
                assert(d[k - id.len() - 2 - name.len()] == '\n');
            }
        }
    }
}

} // verus!
