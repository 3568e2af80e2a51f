//! The cache directory, held as its files (a map from canonical name,
//! relative to the cache directory, to bytes) and its directories, and the
//! file operations that the rest of the library performs on it; each
//! operation resolves the name it is given as `util::path` describes.
use vstd::prelude::*;
use crate::text::{
    chars_of, lemma_encode_concat, lemma_lines_read_back, lemma_utf8_round_trip, lines_text,
    plain_line, push_char, split, string_of, trim, trim_chars, utf8_decode,
};
use vstd::string::StrSliceExecFns;
use crate::text::split_chars;
use crate::util::path::{
    dirs_closed, key_of, lemma_resolve, lemma_second_name, lemma_split_key, lemma_top_name, parent_key,
    plain_component, plain_components, plain_key, resolve, walk, Resolved,
};

verus! {

/// One file of the cache directory.
pub struct CachedFile {
    name: String,
    bytes: Vec<u8>,
}

/// The files and directories of the cache directory, under canonical names
/// (see `util::path`).
pub struct CacheStore {
    files: Vec<CachedFile>,
    dirs: Vec<String>,
    model: Ghost<Map<Seq<char>, Seq<u8>>>,
    dir_model: Ghost<Set<Seq<char>>>,
}

impl View for CacheStore {
    type V = Map<Seq<char>, Seq<u8>>;

    /// The files, from canonical name to bytes.
    closed spec fn view(&self) -> Map<Seq<char>, Seq<u8>> {
        self.model@
    }
}

/// The directories the desk sets up: `sess`, `sess/active` and `user`.
pub open spec fn desk_dirs(d: Set<Seq<char>>) -> bool {
    &&& d.contains("sess"@)
    &&& d.contains("sess/active"@)
    &&& d.contains("user"@)
}

/// The files the desk keeps are not directories.
pub open spec fn desk_files_free(d: Set<Seq<char>>) -> bool {
    &&& !d.contains("log"@)
    &&& !d.contains("passwd"@)
    &&& !d.contains("sess/queue"@)
    &&& !d.contains("user/local"@)
    &&& !d.contains("user/server"@)
}

/// A canonical name at which a file can be: it lies in a directory and is not
/// one.
pub open spec fn file_key_ok(d: Set<Seq<char>>, k: Seq<char>) -> bool {
    &&& plain_key(k)
    &&& d.contains(parent_key(k))
    &&& !d.contains(k)
}

/// The files `m` and directories `d` form a cache directory as a file system
/// holds one, set up for the desk: the directories form a tree, every file
/// lies in a directory and is none, and no file has entries under it.
pub open spec fn cache_shape(m: Map<Seq<char>, Seq<u8>>, d: Set<Seq<char>>) -> bool {
    &&& dirs_closed(d)
    &&& desk_dirs(d)
    &&& desk_files_free(d)
    &&& forall|k: Seq<char>| #[trigger] m.contains_key(k) ==> file_key_ok(d, k)
}

impl CacheStore {
    /// The directories, by canonical name; the empty name is the cache
    /// directory itself.
    pub closed spec fn dirs(&self) -> Set<Seq<char>> {
        self.dir_model@
    }

    /// The files have distinct names, the models hold exactly the files and
    /// directories, and together they have the shape of a cache directory.
    pub closed spec fn wf(&self) -> bool {
        &&& forall|i: int, j: int|
            0 <= i < j < self.files@.len() ==> #[trigger] self.files@[i].name@
                != #[trigger] self.files@[j].name@
        &&& forall|i: int|
            0 <= i < self.files@.len() ==> {
                &&& self.model@.contains_key(#[trigger] self.files@[i].name@)
                &&& self.model@[self.files@[i].name@] == self.files@[i].bytes@
            }
        &&& forall|k: Seq<char>|
            #[trigger] self.model@.contains_key(k) ==> exists|i: int|
                0 <= i < self.files@.len() && self.files@[i].name@ == k
        &&& forall|i: int| 0 <= i < self.dirs@.len() ==> self.dir_model@.contains(#[trigger] self.dirs@[i]@)
        &&& forall|k: Seq<char>|
            #[trigger] self.dir_model@.contains(k) ==> exists|i: int|
                0 <= i < self.dirs@.len() && self.dirs@[i]@ == k
        &&& cache_shape(self.model@, self.dir_model@)
    }

    /// A cache directory as the desk sets it up: no files, and the
    /// directories `sess`, `sess/active` and `user`.
    pub fn new() -> (r: CacheStore)
        ensures
            r.wf(),
            r@ == Map::<Seq<char>, Seq<u8>>::empty(),
            r.dirs() == set![Seq::<char>::empty(), "sess"@, "sess/active"@, "user"@],
    {
        let dirs: Vec<String> = vec![String::new(), "sess".to_owned(), "sess/active".to_owned(), "user".to_owned()];
        let ghost d = set![Seq::<char>::empty(), "sess"@, "sess/active"@, "user"@];
        let r = CacheStore { files: Vec::new(), dirs, model: Ghost(Map::empty()), dir_model: Ghost(d) };
        proof {
            lemma_desk_names();
            assert(r.dirs@[0]@ =~= Seq::<char>::empty());
            assert forall|k: Seq<char>| #[trigger] d.contains(k) implies exists|i: int|
                0 <= i < r.dirs@.len() && r.dirs@[i]@ == k by {
                if k == Seq::<char>::empty() {
                    assert(r.dirs@[0]@ == k);
                } else if k == "sess"@ {
                    assert(r.dirs@[1]@ == k);
                } else if k == "sess/active"@ {
                    assert(r.dirs@[2]@ == k);
                } else {
                    assert(r.dirs@[3]@ == k);
                }
            }
            lemma_top_name(d, "sess"@);
            lemma_top_name(d, "user"@);
            lemma_second_name(d, "sess"@, "active"@);
            assert(seq!["sess"@, "active"@].drop_last() =~= seq!["sess"@]);
            assert(seq!["sess"@].drop_last() =~= Seq::<Seq<char>>::empty());
            assert(seq!["user"@].drop_last() =~= Seq::<Seq<char>>::empty());
            let two = seq!["sess"@, "active"@];
            assert(plain_components(two)) by {
                assert forall|i: int| 0 <= i < 2 implies plain_component(#[trigger] two[i]) by {
                    if i == 0 {
                        assert(two[i] == "sess"@);
                    } else {
                        assert(two[i] == "active"@);
                    }
                }
            }
            let one_s = seq!["sess"@];
            let one_u = seq!["user"@];
            assert(plain_components(one_s)) by {
                assert forall|i: int| 0 <= i < 1 implies plain_component(#[trigger] one_s[i]) by {
                    assert(one_s[i] == "sess"@);
                }
            }
            assert(plain_components(one_u)) by {
                assert forall|i: int| 0 <= i < 1 implies plain_component(#[trigger] one_u[i]) by {
                    assert(one_u[i] == "user"@);
                }
            }
            assert(dirs_closed(d));
            assert(desk_files_free(d));
        }
        r
    }

    fn find(&self, name: &String) -> (r: Option<usize>)
        requires
            self.wf(),
        ensures
            r is None <==> !self@.contains_key(name@),
            r matches Some(i) ==> i < self.files@.len() && self.files@[i as int].name@ == name@,
    {
        let mut i: usize = 0;
        while i < self.files.len()
            invariant
                self.wf(),
                i <= self.files@.len(),
                forall|k: int| 0 <= k < i ==> self.files@[k].name@ != name@,
            decreases self.files@.len() - i,
        {
            if self.files[i].name == *name {
                return Some(i);
            }
            i = i + 1;
        }
        None
    }

    /// Whether a file has that canonical name.
    pub fn contains(&self, name: &str) -> (r: bool)
        requires
            self.wf(),
        ensures
            r == self@.contains_key(name@),
    {
        let key = name.to_owned();
        self.find(&key).is_some()
    }

    /// Whether a directory has that canonical name.
    pub fn has_dir(&self, name: &str) -> (r: bool)
        requires
            self.wf(),
        ensures
            r == self.dirs().contains(name@),
    {
        let key = name.to_owned();
        let mut i: usize = 0;
        while i < self.dirs.len()
            invariant
                self.wf(),
                i <= self.dirs@.len(),
                key@ == name@,
                forall|k: int| 0 <= k < i ==> self.dirs@[k]@ != name@,
            decreases self.dirs@.len() - i,
        {
            if self.dirs[i] == key {
                return true;
            }
            i = i + 1;
        }
        false
    }

    /// The bytes of the file of that canonical name, if there is one.
    pub fn bytes_of(&self, name: &str) -> (r: Option<Vec<u8>>)
        requires
            self.wf(),
        ensures
            r is Some <==> self@.contains_key(name@),
            r matches Some(b) ==> b@ == self@[name@],
    {
        let key = name.to_owned();
        match self.find(&key) {
            Some(i) => Some(self.files[i].bytes.clone()),
            None => None,
        }
    }

    /// Makes the file of that canonical name hold exactly `bytes`; the name
    /// must lie in a directory and not be one.
    pub fn put(&mut self, name: &str, bytes: Vec<u8>)
        requires
            old(self).wf(),
            file_key_ok(old(self).dirs(), name@),
        ensures
            final(self).wf(),
            final(self).dirs() == old(self).dirs(),
            final(self)@ == old(self)@.insert(name@, bytes@),
    {
        let key = name.to_owned();
        let ghost new_model = self.model@.insert(name@, bytes@);
        match self.find(&key) {
            Some(i) => {
                let ghost old_files = self.files@;
                self.files.set(i, CachedFile { name: key, bytes });
                self.model = Ghost(new_model);
                assert forall|k: Seq<char>| #[trigger] self.model@.contains_key(k) implies exists|j: int|
                    0 <= j < self.files@.len() && self.files@[j].name@ == k by {
                    if k != name@ {
                        let j = choose|j: int| 0 <= j < old_files.len() && old_files[j].name@ == k;
                        assert(self.files@[j].name@ == k);
                    } else {
                        assert(self.files@[i as int].name@ == k);
                    }
                }
                assert forall|a: int, b: int|
                    0 <= a < b < self.files@.len() implies #[trigger] self.files@[a].name@
                    != #[trigger] self.files@[b].name@ by {
                    assert(self.files@[a].name@ == old_files[a].name@);
                    assert(self.files@[b].name@ == old_files[b].name@);
                }
                assert forall|a: int| 0 <= a < self.files@.len() implies {
                    &&& self.model@.contains_key(#[trigger] self.files@[a].name@)
                    &&& self.model@[self.files@[a].name@] == self.files@[a].bytes@
                } by {
                    if a != i {
                        assert(self.files@[a] == old_files[a]);
                        assert(old_files[a].name@ != old_files[i as int].name@);
                    }
                }
            },
            None => {
                let ghost old_files = self.files@;
                self.files.push(CachedFile { name: key, bytes });
                self.model = Ghost(new_model);
                assert forall|k: Seq<char>| #[trigger] self.model@.contains_key(k) implies exists|j: int|
                    0 <= j < self.files@.len() && self.files@[j].name@ == k by {
                    if k != name@ {
                        let j = choose|j: int| 0 <= j < old_files.len() && old_files[j].name@ == k;
                        assert(self.files@[j].name@ == k);
                    } else {
                        assert(self.files@[old_files.len() as int].name@ == k);
                    }
                }
                assert forall|a: int, b: int|
                    0 <= a < b < self.files@.len() implies #[trigger] self.files@[a].name@
                    != #[trigger] self.files@[b].name@ by {
                    if b == old_files.len() {
                        assert(old(self).model@.contains_key(old_files[a].name@));
                    } else {
                        assert(self.files@[a] == old_files[a]);
                        assert(self.files@[b] == old_files[b]);
                    }
                }
                assert forall|a: int| 0 <= a < self.files@.len() implies {
                    &&& self.model@.contains_key(#[trigger] self.files@[a].name@)
                    &&& self.model@[self.files@[a].name@] == self.files@[a].bytes@
                } by {
                    if a < old_files.len() {
                        assert(self.files@[a] == old_files[a]);
                        assert(old(self).model@.contains_key(old_files[a].name@));
                    }
                }
            },
        }
        assert forall|k: Seq<char>| #[trigger] self.dir_model@.contains(k) implies exists|i: int|
            0 <= i < self.dirs@.len() && self.dirs@[i]@ == k by {
            let i = choose|i: int| 0 <= i < old(self).dirs@.len() && old(self).dirs@[i]@ == k;
            assert(self.dirs@[i]@ == k);
        }
        assert forall|k: Seq<char>| #[trigger] self.model@.contains_key(k) implies file_key_ok(self.dir_model@, k) by {
            if k != name@ {
                assert(old(self).model@.contains_key(k));
            }
        }
    }

    /// Removes the file of that canonical name, if there is one.
    pub fn remove(&mut self, name: &str)
        requires
            old(self).wf(),
        ensures
            final(self).wf(),
            final(self).dirs() == old(self).dirs(),
            final(self)@ == old(self)@.remove(name@),
    {
        let key = name.to_owned();
        match self.find(&key) {
            Some(i) => {
                let ghost old_files = self.files@;
                self.files.remove(i);
                self.model = Ghost(self.model@.remove(name@));
                assert forall|k: Seq<char>| #[trigger] self.model@.contains_key(k) implies exists|j: int|
                    0 <= j < self.files@.len() && self.files@[j].name@ == k by {
                    let j = choose|j: int| 0 <= j < old_files.len() && old_files[j].name@ == k;
                    if j < i {
                        assert(self.files@[j].name@ == k);
                    } else {
                        assert(j != i);
                        assert(self.files@[j - 1].name@ == k);
                    }
                }
                assert forall|a: int, b: int|
                    0 <= a < b < self.files@.len() implies #[trigger] self.files@[a].name@
                    != #[trigger] self.files@[b].name@ by {
                    let oa = if a < i { a } else { a + 1 };
                    let ob = if b < i { b } else { b + 1 };
                    assert(self.files@[a] == old_files[oa]);
                    assert(self.files@[b] == old_files[ob]);
                }
                assert forall|a: int| 0 <= a < self.files@.len() implies {
                    &&& self.model@.contains_key(#[trigger] self.files@[a].name@)
                    &&& self.model@[self.files@[a].name@] == self.files@[a].bytes@
                } by {
                    let oa = if a < i { a } else { a + 1 };
                    assert(self.files@[a] == old_files[oa]);
                    assert(old_files[oa].name@ != old_files[i as int].name@);
                }
            },
            None => {
                assert(self.model@.remove(name@) =~= self.model@);
            },
        }
        assert forall|k: Seq<char>| #[trigger] self.dir_model@.contains(k) implies exists|i: int|
            0 <= i < self.dirs@.len() && self.dirs@[i]@ == k by {
            let i = choose|i: int| 0 <= i < old(self).dirs@.len() && old(self).dirs@[i]@ == k;
            assert(self.dirs@[i]@ == k);
        }
        assert forall|k: Seq<char>| #[trigger] self.model@.contains_key(k) implies file_key_ok(self.dir_model@, k) by {
            assert(old(self).model@.contains_key(k));
        }
    }

    /// Takes in a directory found in the cache directory, given by its
    /// components, when it lies in a directory already taken in and is neither
    /// a file nor one of the names where the desk keeps its files; says
    /// whether it did.
    pub fn load_dir(&mut self, comps: &Vec<String>) -> (r: bool)
        requires
            old(self).wf(),
        ensures
            final(self).wf(),
            final(self)@ == old(self)@,
            r == (plain_components(string_views(comps@)) && comps@.len() > 0 && old(self).dirs().contains(
                parent_key(key_of(string_views(comps@))),
            ) && !old(self)@.contains_key(key_of(string_views(comps@))) && desk_files_free(
                old(self).dirs().insert(key_of(string_views(comps@))),
            )),
            r ==> final(self).dirs() == old(self).dirs().insert(key_of(string_views(comps@))),
            !r ==> final(self).dirs() == old(self).dirs(),
    {
        let cs = component_chars(comps);
        if cs.len() == 0 || !all_plain(&cs) {
            return false;
        }
        let key = string_of(key_chars(&cs).as_slice());
        proof {
            lemma_split_key(comps_view(cs@));
        }
        let mut up = copy_comps(&cs);
        up.pop();
        proof {
            assert(comps_view(up@) =~= comps_view(cs@).drop_last());
        }
        let parent = string_of(key_chars(&up).as_slice());
        if !self.has_dir(parent.as_str()) || self.contains(key.as_str()) {
            return false;
        }
        let log = "log".to_owned();
        let passwd = "passwd".to_owned();
        let queue = "sess/queue".to_owned();
        let local = "user/local".to_owned();
        let server = "user/server".to_owned();
        if key == log || key == passwd || key == queue || key == local || key == server {
            return false;
        }
        if self.has_dir(key.as_str()) {
            assert(self.dirs().insert(key@) =~= self.dirs());
            return true;
        }
        let ghost d = self.dir_model@.insert(key@);
        let ghost old_dirs = self.dirs@;
        self.dirs.push(key);
        self.dir_model = Ghost(d);
        proof {
            assert forall|i: int| 0 <= i < self.dirs@.len() implies self.dir_model@.contains(#[trigger] self.dirs@[i]@) by {
                if i < old_dirs.len() {
                    assert(self.dirs@[i] == old_dirs[i]);
                }
            }
            assert forall|k: Seq<char>| #[trigger] self.dir_model@.contains(k) implies exists|i: int|
                0 <= i < self.dirs@.len() && self.dirs@[i]@ == k by {
                if k == key@ {
                    assert(self.dirs@[old_dirs.len() as int]@ == k);
                } else {
                    let i = choose|i: int| 0 <= i < old_dirs.len() && old_dirs[i]@ == k;
                    assert(self.dirs@[i] == old_dirs[i]);
                }
            }
            assert forall|k: Seq<char>| #[trigger] self.model@.contains_key(k) implies file_key_ok(d, k) by {
                assert(file_key_ok(old(self).dirs(), k));
            }
            assert forall|k: Seq<char>| #[trigger] d.contains(k) && k.len() > 0 implies plain_key(k) && d.contains(
                parent_key(k),
            ) by {
                if k != key@ {
                    assert(old(self).dirs().contains(k));
                }
            }
            assert(dirs_closed(d));
            assert forall|k: Seq<char>| #[trigger] self.model@.contains_key(k) implies exists|j: int|
                0 <= j < self.files@.len() && self.files@[j].name@ == k by {
                let j = choose|j: int| 0 <= j < old(self).files@.len() && old(self).files@[j].name@ == k;
                assert(self.files@[j].name@ == k);
            }
        }
        true
    }

    /// Takes in a file found in the cache directory, given by its components,
    /// when it lies in a directory already taken in and is not one; says
    /// whether it did.
    pub fn load_file(&mut self, comps: &Vec<String>, bytes: Vec<u8>) -> (r: bool)
        requires
            old(self).wf(),
        ensures
            final(self).wf(),
            final(self).dirs() == old(self).dirs(),
            r == (plain_components(string_views(comps@)) && comps@.len() > 0 && file_key_ok(
                old(self).dirs(),
                key_of(string_views(comps@)),
            )),
            r ==> final(self)@ == old(self)@.insert(key_of(string_views(comps@)), bytes@),
            !r ==> final(self)@ == old(self)@,
    {
        let cs = component_chars(comps);
        if cs.len() == 0 || !all_plain(&cs) {
            return false;
        }
        let key = string_of(key_chars(&cs).as_slice());
        proof {
            lemma_split_key(comps_view(cs@));
        }
        let mut up = copy_comps(&cs);
        up.pop();
        proof {
            assert(comps_view(up@) =~= comps_view(cs@).drop_last());
        }
        let parent = string_of(key_chars(&up).as_slice());
        if !self.has_dir(parent.as_str()) || self.has_dir(key.as_str()) {
            return false;
        }
        self.put(key.as_str(), bytes);
        true
    }

    /// The canonical names of the files in the cache.
    pub fn names(&self) -> (r: Vec<String>)
        requires
            self.wf(),
        ensures
            forall|k: Seq<char>| self@.contains_key(k) <==> exists|i: int|
                0 <= i < r@.len() && #[trigger] r@[i]@ == k,
    {
        let mut r: Vec<String> = Vec::new();
        let mut i: usize = 0;
        while i < self.files.len()
            invariant
                self.wf(),
                i <= self.files@.len(),
                r@.len() == i,
                forall|j: int| 0 <= j < i ==> #[trigger] r@[j]@ == self.files@[j].name@,
            decreases self.files@.len() - i,
        {
            r.push(self.files[i].name.clone());
            i = i + 1;
        }
        assert forall|k: Seq<char>| self@.contains_key(k) <==> exists|i: int|
            0 <= i < r@.len() && #[trigger] r@[i]@ == k by {
            if self@.contains_key(k) {
                let j = choose|j: int| 0 <= j < self.files@.len() && self.files@[j].name@ == k;
                assert(r@[j]@ == k);
            }
            if exists|i: int| 0 <= i < r@.len() && #[trigger] r@[i]@ == k {
                let j = choose|i: int| 0 <= i < r@.len() && #[trigger] r@[i]@ == k;
                assert(self.files@[j].name@ == k);
            }
        }
        r
    }
}

/// A kept cache has the shape of a cache directory.
pub proof fn lemma_shape(s: &CacheStore)
    requires
        s.wf(),
    ensures
        cache_shape(s@, s.dirs()),
{
}

/// The texts of a list of strings.
pub open spec fn string_views(v: Seq<String>) -> Seq<Seq<char>> {
    v.map_values(|c: String| c@)
}

/// The texts of a list of character lists.
pub open spec fn comps_view(v: Seq<Vec<char>>) -> Seq<Seq<char>> {
    v.map_values(|c: Vec<char>| c@)
}

fn component_chars(comps: &Vec<String>) -> (r: Vec<Vec<char>>)
    ensures
        comps_view(r@) == string_views(comps@),
{
    let mut r: Vec<Vec<char>> = Vec::new();
    let mut i: usize = 0;
    while i < comps.len()
        invariant
            i <= comps@.len(),
            r@.len() == i,
            comps_view(r@) == string_views(comps@).take(i as int),
        decreases comps@.len() - i,
    {
        let ghost prev = r@;
        r.push(chars_of(comps[i].as_str()));
        i = i + 1;
        assert forall|k: int| 0 <= k < i implies comps_view(r@)[k] == string_views(comps@).take(i as int)[k] by {
            if k < i - 1 {
                assert(r@[k] == prev[k]);
                assert(comps_view(prev)[k] == string_views(comps@).take(i - 1)[k]);
            }
        }
        assert(comps_view(r@) =~= string_views(comps@).take(i as int));
    }
    assert(string_views(comps@).take(comps@.len() as int) =~= string_views(comps@));
    r
}

fn copy_chars(c: &Vec<char>) -> (r: Vec<char>)
    ensures
        r@ == c@,
{
    let mut r: Vec<char> = Vec::new();
    let mut i: usize = 0;
    while i < c.len()
        invariant
            i <= c@.len(),
            r@ == c@.take(i as int),
        decreases c@.len() - i,
    {
        r.push(c[i]);
        i = i + 1;
        assert(r@ =~= c@.take(i as int));
    }
    assert(c@.take(c@.len() as int) =~= c@);
    r
}

fn copy_comps(cs: &Vec<Vec<char>>) -> (r: Vec<Vec<char>>)
    ensures
        comps_view(r@) == comps_view(cs@),
        r@.len() == cs@.len(),
{
    let mut r: Vec<Vec<char>> = Vec::new();
    let mut i: usize = 0;
    while i < cs.len()
        invariant
            i <= cs@.len(),
            r@.len() == i,
            comps_view(r@) == comps_view(cs@).take(i as int),
        decreases cs@.len() - i,
    {
        r.push(copy_chars(&cs[i]));
        i = i + 1;
        assert(comps_view(r@) =~= comps_view(cs@).take(i as int));
    }
    assert(comps_view(cs@).take(cs@.len() as int) =~= comps_view(cs@));
    r
}

fn is_dot(c: &Vec<char>) -> (r: bool)
    ensures
        r == (c@ == seq!['.']),
{
    let r = c.len() == 1 && c[0] == '.';
    if r {
        assert(c@ =~= seq!['.']);
    }
    r
}

fn is_dot_dot(c: &Vec<char>) -> (r: bool)
    ensures
        r == (c@ == seq!['.', '.']),
{
    let r = c.len() == 2 && c[0] == '.' && c[1] == '.';
    if r {
        assert(c@ =~= seq!['.', '.']);
    }
    r
}

fn is_plain_component(c: &Vec<char>) -> (r: bool)
    ensures
        r == plain_component(c@),
{
    if c.len() == 0 || is_dot(c) || is_dot_dot(c) {
        return false;
    }
    let mut i: usize = 0;
    while i < c.len()
        invariant
            i <= c@.len(),
            forall|k: int| 0 <= k < i ==> c@[k] != '/',
        decreases c@.len() - i,
    {
        if c[i] == '/' {
            assert(c@.contains('/'));
            return false;
        }
        i = i + 1;
    }
    true
}

fn all_plain(cs: &Vec<Vec<char>>) -> (r: bool)
    ensures
        r == plain_components(comps_view(cs@)),
{
    let mut i: usize = 0;
    while i < cs.len()
        invariant
            i <= cs@.len(),
            forall|k: int| 0 <= k < i ==> plain_component(#[trigger] comps_view(cs@)[k]),
        decreases cs@.len() - i,
    {
        if !is_plain_component(&cs[i]) {
            assert(comps_view(cs@)[i as int] == cs@[i as int]@);
            return false;
        }
        i = i + 1;
    }
    true
}

/// The canonical name that components join into.
fn key_chars(cs: &Vec<Vec<char>>) -> (r: Vec<char>)
    ensures
        r@ == key_of(comps_view(cs@)),
{
    let mut r: Vec<char> = Vec::new();
    let mut i: usize = 0;
    assert(comps_view(cs@).take(0) =~= Seq::<Seq<char>>::empty());
    while i < cs.len()
        invariant
            i <= cs@.len(),
            r@ == key_of(comps_view(cs@).take(i as int)),
        decreases cs@.len() - i,
    {
        let ghost before = r@;
        if i > 0 {
            r.push('/');
        }
        let mut piece = copy_chars(&cs[i]);
        r.append(&mut piece);
        proof {
            let t = comps_view(cs@).take(i + 1);
            assert(t.drop_last() =~= comps_view(cs@).take(i as int));
            assert(t.last() == cs@[i as int]@);
            if i == 0 {
                assert(r@ =~= t[0]);
            } else {
                assert(r@ =~= before + seq!['/'] + cs@[i as int]@);
            }
        }
        i = i + 1;
    }
    assert(comps_view(cs@).take(cs@.len() as int) =~= comps_view(cs@));
    r
}

/// What resolving a name found, with the components as lists of characters.
enum Lookup {
    Inside(Vec<Vec<char>>, bool),
    Broken,
    Outside,
}

spec fn lookup_view(l: Lookup) -> Resolved {
    match l {
        Lookup::Inside(cs, named) => Resolved::Inside(comps_view(cs@), named),
        Lookup::Broken => Resolved::Broken,
        Lookup::Outside => Resolved::Outside,
    }
}

/// Resolves a name against the directories of the cache.
fn lookup(store: &CacheStore, name: &str) -> (r: Lookup)
    requires
        store.wf(),
    ensures
        lookup_view(r) == resolve(store.dirs(), name@),
{
    let chars = chars_of(name);
    if chars.len() > 0 && chars[0] == '/' {
        return Lookup::Outside;
    }
    let comps = split_chars(&chars, '/');
    let ghost cs = split(name@, '/');
    let ghost d = store.dirs();
    let mut cur: Vec<Vec<char>> = Vec::new();
    let mut i: usize = 0;
    assert(cs.skip(0) =~= cs);
    assert(comps_view(cur@) =~= Seq::<Seq<char>>::empty());
    while i < comps.len()
        invariant
            store.wf(),
            d == store.dirs(),
            i <= comps@.len(),
            comps@.len() == cs.len(),
            forall|k: int| 0 <= k < comps@.len() ==> #[trigger] comps@[k]@ == cs[k],
            resolve(d, name@) == walk(d, comps_view(cur@), cs.skip(i as int)),
        decreases comps@.len() - i,
    {
        let ghost here = cs.skip(i as int);
        assert(here[0] == cs[i as int]);
        assert(here.drop_first() =~= cs.skip(i + 1));
        let c = &comps[i];
        if c.len() == 0 || is_dot(c) {
        } else if is_dot_dot(c) {
            if cur.len() == 0 {
                return Lookup::Outside;
            }
            let ghost before = cur@;
            cur.pop();
            assert(comps_view(cur@) =~= comps_view(before).drop_last());
        } else if i + 1 == comps.len() {
            let ghost before = cur@;
            cur.push(copy_chars(c));
            assert(comps_view(cur@) =~= comps_view(before).push(cs[i as int]));
            assert(cs.skip(i + 1).len() == 0);
            return Lookup::Inside(cur, true);
        } else {
            let ghost before = cur@;
            let mut next = copy_comps(&cur);
            next.push(copy_chars(c));
            assert(comps_view(next@) =~= comps_view(before).push(cs[i as int]));
            let key = string_of(key_chars(&next).as_slice());
            if store.has_dir(key.as_str()) {
                cur = next;
            } else {
                return Lookup::Broken;
            }
        }
        i = i + 1;
    }
    assert(cs.skip(i as int) =~= Seq::<Seq<char>>::empty());
    Lookup::Inside(cur, false)
}

/// The names the desk keeps its files and directories under are plain
/// components and their joins.
proof fn lemma_desk_names()
    ensures
        plain_component("sess"@),
        plain_component("user"@),
        plain_component("active"@),
        plain_component("queue"@),
        plain_component("local"@),
        plain_component("server"@),
        plain_component("log"@),
        plain_component("passwd"@),
        "sess/active"@ == "sess"@ + seq!['/'] + "active"@,
        "sess/queue"@ == "sess"@ + seq!['/'] + "queue"@,
        "user/local"@ == "user"@ + seq!['/'] + "local"@,
        "user/server"@ == "user"@ + seq!['/'] + "server"@,
        "log"@.len() == 3,
        "passwd"@.len() == 6,
        "sess"@.len() == 4,
        "user"@.len() == 4,
        "sess/queue"@.len() == 10,
        "user/local"@.len() == 10,
        "user/server"@.len() == 11,
        "sess/active"@.len() == 11,
        "user/server"@[0] == 'u',
        "sess/active"@[0] == 's',
{
    reveal_strlit("sess");
    reveal_strlit("user");
    reveal_strlit("active");
    reveal_strlit("queue");
    reveal_strlit("local");
    reveal_strlit("server");
    reveal_strlit("log");
    reveal_strlit("passwd");
    reveal_strlit("sess/active");
    reveal_strlit("sess/queue");
    reveal_strlit("user/local");
    reveal_strlit("user/server");
    assert("sess/active"@ =~= "sess"@ + seq!['/'] + "active"@);
    assert("sess/queue"@ =~= "sess"@ + seq!['/'] + "queue"@);
    assert("user/local"@ =~= "user"@ + seq!['/'] + "local"@);
    assert("user/server"@ =~= "user"@ + seq!['/'] + "server"@);
}

/// The bytes that `writeln!` puts in a file for one line of text: the UTF-8
/// encoding of the text followed by a newline.
pub open spec fn line_bytes(text: Seq<char>) -> Seq<u8> {
    vstd::utf8::encode_utf8(text.push('\n'))
}

/// A file's bytes after `data` is written at its start without truncating
/// it: what lies beyond the written part stays.
pub open spec fn overwrite_start(old: Seq<u8>, data: Seq<u8>) -> Seq<u8> {
    if data.len() >= old.len() {
        data
    } else {
        data + old.skip(data.len() as int)
    }
}

/// The bytes of the named file, or none when there is no such file.
pub open spec fn bytes_or_empty(m: Map<Seq<char>, Seq<u8>>, name: Seq<char>) -> Seq<u8> {
    if m.contains_key(name) {
        m[name]
    } else {
        Seq::empty()
    }
}

/// The cache after a line is appended to the named file, which is created
/// when missing.
pub open spec fn after_append(m: Map<Seq<char>, Seq<u8>>, name: Seq<char>, text: Seq<char>) -> Map<
    Seq<char>,
    Seq<u8>,
> {
    m.insert(name, bytes_or_empty(m, name) + line_bytes(text))
}

/// The cache after a line is written at the start of the named file, which is
/// created when missing and not truncated.
pub open spec fn after_create(m: Map<Seq<char>, Seq<u8>>, name: Seq<char>, text: Seq<char>) -> Map<
    Seq<char>,
    Seq<u8>,
> {
    m.insert(name, overwrite_start(bytes_or_empty(m, name), line_bytes(text)))
}

/// The text a file holds when read whole: nothing when its bytes are not
/// valid UTF-8.
pub open spec fn text_of(bytes: Seq<u8>) -> Seq<char> {
    if vstd::utf8::valid_utf8(bytes) {
        vstd::utf8::decode_utf8(bytes)
    } else {
        Seq::empty()
    }
}

/// The trimmed text of the named file.
pub open spec fn read_text(m: Map<Seq<char>, Seq<u8>>, name: Seq<char>) -> Seq<char> {
    trim(text_of(m[name]))
}

/// The bytes of `text` followed by a newline.
fn line_bytes_of(text: &str) -> (r: Vec<u8>)
    ensures
        r@ == line_bytes(text@),
{
    let mut line = text.to_owned();
    push_char(&mut line, '\n');
    line.as_str().as_bytes_vec()
}

fn overwrite_start_bytes(old: &Vec<u8>, data: Vec<u8>) -> (r: Vec<u8>)
    ensures
        r@ == overwrite_start(old@, data@),
{
    let mut r = data;
    let ghost d = r@;
    let mut i: usize = r.len();
    while i < old.len()
        invariant
            d.len() <= i,
            d.len() <= old@.len() ==> r@ == d + old@.subrange(d.len() as int, i as int),
            d.len() >= old@.len() ==> r@ == d,
            i >= old@.len() ==> (d.len() >= old@.len() || i == old@.len()),
        decreases old@.len() - i,
    {
        r.push(old[i]);
        i = i + 1;
        assert(d + old@.subrange(d.len() as int, i as int) =~= (d + old@.subrange(d.len() as int, i - 1)).push(old@[i - 1]));
    }
    proof {
        if d.len() < old@.len() {
            assert(old@.subrange(d.len() as int, old@.len() as int) =~= old@.skip(d.len() as int));
        }
    }
    r
}

fn bytes_or_empty_of(store: &CacheStore, fname: &str) -> (r: Vec<u8>)
    requires
        store.wf(),
    ensures
        r@ == bytes_or_empty(store@, fname@),
{
    match store.bytes_of(fname) {
        Some(b) => b,
        None => Vec::new(),
    }
}

/// The canonical name a name leads to inside the cache directory (the empty
/// name when it leads nowhere).
pub open spec fn target_key(d: Set<Seq<char>>, name: Seq<char>) -> Seq<char> {
    match resolve(d, name) {
        Resolved::Inside(cs, _) => key_of(cs),
        _ => Seq::empty(),
    }
}

/// Whether a file can be opened for writing under the name: it leads, in the
/// cache directory, to a last component whose directory exists, and that is
/// no directory.
pub open spec fn writable(d: Set<Seq<char>>, name: Seq<char>) -> bool {
    match resolve(d, name) {
        Resolved::Inside(cs, named) => named && !d.contains(key_of(cs)),
        _ => false,
    }
}

/// Whether the name stays inside the cache directory.
pub open spec fn stays_inside(d: Set<Seq<char>>, name: Seq<char>) -> bool {
    !(resolve(d, name) is Outside)
}

/// Whether the name leads to a file or a directory of the cache.
pub open spec fn path_exists(m: Map<Seq<char>, Seq<u8>>, d: Set<Seq<char>>, name: Seq<char>) -> bool {
    match resolve(d, name) {
        Resolved::Inside(cs, named) => !named || m.contains_key(key_of(cs)) || d.contains(key_of(cs)),
        _ => false,
    }
}

/// The files after the file the name leads to is opened for writing: a
/// missing file is created empty.
pub open spec fn after_open(m: Map<Seq<char>, Seq<u8>>, key: Seq<char>) -> Map<Seq<char>, Seq<u8>> {
    if m.contains_key(key) {
        m
    } else {
        m.insert(key, Seq::empty())
    }
}

/// Opens the file the name leads to for writing, creating it empty when
/// missing, and writes nothing.
pub fn touch(store: &mut CacheStore, fname: &str)
    requires
        old(store).wf(),
        writable(old(store).dirs(), fname@),
    ensures
        final(store).wf(),
        final(store).dirs() == old(store).dirs(),
        final(store)@ == after_open(old(store)@, target_key(old(store).dirs(), fname@)),
{
    let key = writable_key(store, fname);
    if !store.contains(key.as_str()) {
        store.put(key.as_str(), Vec::new());
    }
}

/// Whether the name leads to an entry inside the cache directory: it
/// neither leaves the cache directory nor passes through a component that is
/// not a directory.
pub fn leads_inside(store: &CacheStore, fname: &str) -> (r: bool)
    requires
        store.wf(),
    ensures
        r == (resolve(store.dirs(), fname@) is Inside),
{
    match lookup(store, fname) {
        Lookup::Inside(_, _) => true,
        _ => false,
    }
}

/// Whether the name stays inside the cache directory.
pub fn stays_inside_cache(store: &CacheStore, fname: &str) -> (r: bool)
    requires
        store.wf(),
    ensures
        r == stays_inside(store.dirs(), fname@),
{
    match lookup(store, fname) {
        Lookup::Outside => false,
        _ => true,
    }
}

/// Whether the name leads to a file of the cache.
pub open spec fn names_file(m: Map<Seq<char>, Seq<u8>>, d: Set<Seq<char>>, name: Seq<char>) -> bool {
    match resolve(d, name) {
        Resolved::Inside(cs, named) => named && m.contains_key(key_of(cs)),
        _ => false,
    }
}

/// The text that reading the name gives, trimmed: the file's text, or none
/// when the name leads to a directory.
pub open spec fn read_of(m: Map<Seq<char>, Seq<u8>>, d: Set<Seq<char>>, name: Seq<char>) -> Seq<char> {
    if names_file(m, d, name) {
        read_text(m, target_key(d, name))
    } else {
        Seq::empty()
    }
}

/// The files after the file the name leads to is removed; nothing changes
/// when it leads to no file.
pub open spec fn after_del(m: Map<Seq<char>, Seq<u8>>, d: Set<Seq<char>>, name: Seq<char>) -> Map<
    Seq<char>,
    Seq<u8>,
> {
    match resolve(d, name) {
        Resolved::Inside(cs, true) => m.remove(key_of(cs)),
        _ => m,
    }
}

/// The name leads to itself: it is canonical, lies in a directory, and is no
/// directory.
pub open spec fn names_itself(d: Set<Seq<char>>, name: Seq<char>) -> bool {
    &&& resolve(d, name) == Resolved::Inside(split(name, '/'), true)
    &&& key_of(split(name, '/')) == name
    &&& !d.contains(name)
}

/// The names of the files the desk keeps lead to themselves.
pub proof fn lemma_desk_files(s: &CacheStore)
    requires
        s.wf(),
    ensures
        names_itself(s.dirs(), "log"@),
        names_itself(s.dirs(), "passwd"@),
        names_itself(s.dirs(), "sess/queue"@),
        names_itself(s.dirs(), "user/local"@),
        names_itself(s.dirs(), "user/server"@),
{
    let d = s.dirs();
    lemma_desk_names();
    lemma_top_name(d, "log"@);
    lemma_top_name(d, "passwd"@);
    lemma_second_name(d, "sess"@, "queue"@);
    lemma_second_name(d, "user"@, "local"@);
    lemma_second_name(d, "user"@, "server"@);
}

/// The canonical name of the file a writable name leads to.
fn writable_key(store: &CacheStore, fname: &str) -> (r: String)
    requires
        store.wf(),
        writable(store.dirs(), fname@),
    ensures
        r@ == target_key(store.dirs(), fname@),
        file_key_ok(store.dirs(), r@),
{
    proof {
        lemma_resolve(store.dirs(), fname@);
    }
    match lookup(store, fname) {
        Lookup::Inside(cs, _) => {
            proof {
                lemma_split_key(comps_view(cs@));
            }
            string_of(key_chars(&cs).as_slice())
        },
        _ => String::new(),
    }
}

/// Appends `contents` and a newline to the file the name leads to, creating
/// it when missing.
pub fn append(store: &mut CacheStore, fname: &str, contents: &str)
    requires
        old(store).wf(),
        writable(old(store).dirs(), fname@),
    ensures
        final(store).wf(),
        final(store).dirs() == old(store).dirs(),
        final(store)@ == after_append(old(store)@, target_key(old(store).dirs(), fname@), contents@),
{
    let key = writable_key(store, fname);
    let mut bytes = bytes_or_empty_of(store, key.as_str());
    let mut line = line_bytes_of(contents);
    bytes.append(&mut line);
    store.put(key.as_str(), bytes);
}

/// Writes `contents` and a newline at the start of the file the name leads
/// to, creating it when missing; the file is not truncated.
pub fn create(store: &mut CacheStore, fname: &str, contents: &str)
    requires
        old(store).wf(),
        writable(old(store).dirs(), fname@),
    ensures
        final(store).wf(),
        final(store).dirs() == old(store).dirs(),
        final(store)@ == after_create(old(store)@, target_key(old(store).dirs(), fname@), contents@),
{
    let key = writable_key(store, fname);
    let old_bytes = bytes_or_empty_of(store, key.as_str());
    let line = line_bytes_of(contents);
    let bytes = overwrite_start_bytes(&old_bytes, line);
    store.put(key.as_str(), bytes);
}

/// Removes the file the name leads to, if there is one; a name that leads to
/// a directory or nowhere changes nothing.
pub fn del(store: &mut CacheStore, fname: &str)
    requires
        old(store).wf(),
        stays_inside(old(store).dirs(), fname@),
    ensures
        final(store).wf(),
        final(store).dirs() == old(store).dirs(),
        final(store)@ == after_del(old(store)@, old(store).dirs(), fname@),
{
    match lookup(store, fname) {
        Lookup::Inside(cs, true) => {
            let key = string_of(key_chars(&cs).as_slice());
            store.remove(key.as_str());
        },
        _ => {},
    }
}

/// The cache after the named file is cleared: it holds one empty line.
pub open spec fn after_clear(m: Map<Seq<char>, Seq<u8>>, name: Seq<char>) -> Map<Seq<char>, Seq<u8>> {
    m.insert(name, line_bytes(Seq::empty()))
}

/// Clears the file the name leads to, creating it when missing: afterwards
/// it holds one empty line and no text.
pub fn clear(store: &mut CacheStore, fname: &str)
    requires
        old(store).wf(),
        writable(old(store).dirs(), fname@),
    ensures
        final(store).wf(),
        final(store).dirs() == old(store).dirs(),
        final(store)@ == after_clear(old(store)@, target_key(old(store).dirs(), fname@)),
        read_text(final(store)@, target_key(old(store).dirs(), fname@)) == Seq::<char>::empty(),
{
    let key = writable_key(store, fname);
    let empty = "";
    proof {
        reveal_strlit("");
    }
    assert(empty@ =~= Seq::<char>::empty());
    let bytes = line_bytes_of(empty);
    store.put(key.as_str(), bytes);
    proof {
        lemma_cleared_reads_empty(store@, key@);
    }
}

/// A cleared file reads back as no text.
pub proof fn lemma_cleared_reads_empty(m: Map<Seq<char>, Seq<u8>>, name: Seq<char>)
    requires
        m.contains_key(name),
        m[name] == line_bytes(Seq::empty()),
    ensures
        read_text(m, name) == Seq::<char>::empty(),
{
    let nl = Seq::<char>::empty().push('\n');
    lemma_utf8_round_trip(nl);
    assert(crate::text::is_space(nl[0]));
    assert(nl.drop_first() =~= Seq::<char>::empty());
    assert(crate::text::trim_start(nl) == crate::text::trim_start(nl.drop_first()));
}

/// Whether the name leads to a file or a directory of the cache.
pub fn file_exists(store: &CacheStore, fname: &str) -> (r: bool)
    requires
        store.wf(),
        stays_inside(store.dirs(), fname@),
    ensures
        r == path_exists(store@, store.dirs(), fname@),
{
    match lookup(store, fname) {
        Lookup::Inside(cs, true) => {
            let key = string_of(key_chars(&cs).as_slice());
            store.contains(key.as_str()) || store.has_dir(key.as_str())
        },
        Lookup::Inside(_, false) => true,
        _ => false,
    }
}

/// Whether the name leads to a file of the cache.
pub fn is_file(store: &CacheStore, fname: &str) -> (r: bool)
    requires
        store.wf(),
        stays_inside(store.dirs(), fname@),
    ensures
        r == names_file(store@, store.dirs(), fname@),
{
    match lookup(store, fname) {
        Lookup::Inside(cs, true) => {
            let key = string_of(key_chars(&cs).as_slice());
            store.contains(key.as_str())
        },
        _ => false,
    }
}

/// The text of the file the name leads to, without leading and trailing
/// whitespace; a directory reads as no text.
pub fn read(store: &CacheStore, fname: &str) -> (r: String)
    requires
        store.wf(),
        path_exists(store@, store.dirs(), fname@),
    ensures
        r@ == read_of(store@, store.dirs(), fname@),
{
    match lookup(store, fname) {
        Lookup::Inside(cs, true) => {
            let key = string_of(key_chars(&cs).as_slice());
            if !store.contains(key.as_str()) {
                return String::new();
            }
            let bytes = bytes_or_empty_of(store, key.as_str());
            let text = match utf8_decode(bytes.as_slice()) {
                Some(t) => chars_of(t.as_str()),
                None => Vec::new(),
            };
            let trimmed = trim_chars(&text);
            string_of(trimmed.as_slice())
        },
        _ => String::new(),
    }
}

/// The named file holds `lines` as `writeln!` wrote them: each line and a
/// newline, in UTF-8 (no lines: the file is empty or missing).
pub open spec fn holds_lines(m: Map<Seq<char>, Seq<u8>>, fname: Seq<char>, lines: Seq<Seq<char>>) -> bool {
    bytes_or_empty(m, fname) == vstd::utf8::encode_utf8(lines_text(lines))
}

/// Appending a line to a file that holds lines as written makes it hold
/// them followed by the new line.
pub proof fn lemma_append_keeps_lines(
    m: Map<Seq<char>, Seq<u8>>,
    fname: Seq<char>,
    lines: Seq<Seq<char>>,
    line: Seq<char>,
)
    requires
        holds_lines(m, fname, lines),
    ensures
        after_append(m, fname, line).contains_key(fname),
        holds_lines(after_append(m, fname, line), fname, lines.push(line)),
{
    let l2 = lines.push(line);
    assert(l2.drop_last() =~= lines);
    assert(l2.last() == line);
    assert(lines_text(l2) == lines_text(lines) + line.push('\n'));
    lemma_encode_concat(lines_text(lines), line.push('\n'));
}

/// A file that holds plain lines as written reads back, split at newlines,
/// as those lines.
pub proof fn lemma_read_lines(m: Map<Seq<char>, Seq<u8>>, fname: Seq<char>, lines: Seq<Seq<char>>)
    requires
        m.contains_key(fname),
        holds_lines(m, fname, lines),
        lines.len() > 0,
        forall|i: int| 0 <= i < lines.len() ==> plain_line(#[trigger] lines[i]),
    ensures
        split(read_text(m, fname), '\n') == lines,
{
    lemma_utf8_round_trip(lines_text(lines));
    lemma_lines_read_back(lines);
}

} // verus!
