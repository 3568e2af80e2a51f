//! Names in the cache directory, resolved as the file system resolves them:
//! split at slashes, empty components and `.` skipped, `..` going up one
//! directory, and every component but the last required to be a directory.
//! Files and directories are kept under canonical names: plain components
//! joined by slashes, the cache directory itself being the empty name.
use vstd::prelude::*;
use crate::text::{lemma_split_append, lemma_split_no_sep, lemma_split_pieces, split};

verus! {

/// A component as a canonical name holds it: not empty, no slash, and
/// neither `.` nor `..`.
pub open spec fn plain_component(c: Seq<char>) -> bool {
    &&& c.len() > 0
    &&& !c.contains('/')
    &&& c != seq!['.']
    &&& c != seq!['.', '.']
}

/// Whether every component is plain.
pub open spec fn plain_components(cs: Seq<Seq<char>>) -> bool {
    forall|i: int| 0 <= i < cs.len() ==> plain_component(#[trigger] cs[i])
}

/// The canonical name of the entry reached through the components: the
/// components joined by slashes.
pub open spec fn key_of(cs: Seq<Seq<char>>) -> Seq<char>
    decreases cs.len(),
{
    if cs.len() == 0 {
        Seq::empty()
    } else if cs.len() == 1 {
        cs[0]
    } else {
        key_of(cs.drop_last()) + seq!['/'] + cs.last()
    }
}

/// Whether a name is canonical and not the cache directory itself.
pub open spec fn plain_key(k: Seq<char>) -> bool {
    k.len() > 0 && plain_components(split(k, '/'))
}

/// The canonical name of the directory that holds the entry `k`.
pub open spec fn parent_key(k: Seq<char>) -> Seq<char> {
    key_of(split(k, '/').drop_last())
}

/// The directories form a tree: the cache directory is one, and every other
/// has a canonical name and lies in a directory.
pub open spec fn dirs_closed(d: Set<Seq<char>>) -> bool {
    &&& d.contains(Seq::<char>::empty())
    &&& forall|k: Seq<char>| #[trigger] d.contains(k) && k.len() > 0 ==> plain_key(k) && d.contains(parent_key(k))
}

/// What a name leads to.
pub enum Resolved {
    /// An entry inside the cache directory, given by its components. When the
    /// flag is set, the last component was named last and may be a file, a
    /// directory or nothing yet; otherwise the entry is a directory.
    Inside(Seq<Seq<char>>, bool),
    /// A component before the last is not a directory.
    Broken,
    /// The name leaves the cache directory: it starts with a slash, or `..`
    /// goes above the cache directory.
    Outside,
}

/// Walks the components from the directory `cur`.
pub open spec fn walk(d: Set<Seq<char>>, cur: Seq<Seq<char>>, comps: Seq<Seq<char>>) -> Resolved
    decreases comps.len(),
{
    if comps.len() == 0 {
        Resolved::Inside(cur, false)
    } else {
        let c = comps[0];
        let rest = comps.drop_first();
        if c.len() == 0 || c == seq!['.'] {
            walk(d, cur, rest)
        } else if c == seq!['.', '.'] {
            if cur.len() == 0 {
                Resolved::Outside
            } else {
                walk(d, cur.drop_last(), rest)
            }
        } else if rest.len() == 0 {
            Resolved::Inside(cur.push(c), true)
        } else if d.contains(key_of(cur.push(c))) {
            walk(d, cur.push(c), rest)
        } else {
            Resolved::Broken
        }
    }
}

/// What a name, relative to the cache directory, leads to when the cache
/// holds the directories `d`.
pub open spec fn resolve(d: Set<Seq<char>>, name: Seq<char>) -> Resolved {
    if name.len() > 0 && name[0] == '/' {
        Resolved::Outside
    } else {
        walk(d, Seq::empty(), split(name, '/'))
    }
}

/// A resolved entry has plain components; a named last entry lies in a
/// directory, and any other entry is a directory.
pub open spec fn resolved_ok(d: Set<Seq<char>>, r: Resolved) -> bool {
    match r {
        Resolved::Inside(cs, named) => {
            &&& plain_components(cs)
            &&& named ==> cs.len() > 0 && d.contains(key_of(cs.drop_last()))
            &&& !named ==> d.contains(key_of(cs))
        },
        _ => true,
    }
}

/// Plain components joined by slashes split back into themselves.
pub proof fn lemma_split_key(cs: Seq<Seq<char>>)
    requires
        plain_components(cs),
        cs.len() > 0,
    ensures
        split(key_of(cs), '/') == cs,
        key_of(cs).len() > 0,
        plain_key(key_of(cs)),
        parent_key(key_of(cs)) == key_of(cs.drop_last()),
    decreases cs.len(),
{
    if cs.len() == 1 {
        assert(plain_component(cs[0]));
        lemma_split_no_sep(cs[0], '/');
        assert(seq![cs[0]] =~= cs);
    } else {
        let init = cs.drop_last();
        assert(plain_components(init)) by {
            assert forall|i: int| 0 <= i < init.len() implies plain_component(#[trigger] init[i]) by {
                assert(init[i] == cs[i]);
            }
        }
        lemma_split_key(init);
        assert(plain_component(cs[cs.len() - 1]));
        assert(key_of(init) + seq!['/'] + cs.last() =~= key_of(init).push('/') + cs.last());
        lemma_split_append(key_of(init), '/', cs.last());
        assert(init.push(cs.last()) =~= cs);
    }
}

/// Walking from a directory with plain components gives a resolved entry as
/// `resolved_ok` describes it.
pub proof fn lemma_walk(d: Set<Seq<char>>, cur: Seq<Seq<char>>, comps: Seq<Seq<char>>)
    requires
        dirs_closed(d),
        plain_components(cur),
        d.contains(key_of(cur)),
        forall|i: int| 0 <= i < comps.len() ==> !(#[trigger] comps[i]).contains('/'),
    ensures
        resolved_ok(d, walk(d, cur, comps)),
    decreases comps.len(),
{
    if comps.len() > 0 {
        let c = comps[0];
        let rest = comps.drop_first();
        assert forall|i: int| 0 <= i < rest.len() implies !(#[trigger] rest[i]).contains('/') by {
            assert(rest[i] == comps[i + 1]);
        }
        assert(!comps[0].contains('/'));
        if c.len() == 0 || c == seq!['.'] {
            lemma_walk(d, cur, rest);
        } else if c == seq!['.', '.'] {
            if cur.len() > 0 {
                let up = cur.drop_last();
                lemma_split_key(cur);
                assert(plain_components(up)) by {
                    assert forall|i: int| 0 <= i < up.len() implies plain_component(#[trigger] up[i]) by {
                        assert(up[i] == cur[i]);
                    }
                }
                lemma_walk(d, up, rest);
            }
        } else {
            let next = cur.push(c);
            assert(next.drop_last() =~= cur);
            assert(plain_components(next)) by {
                assert forall|i: int| 0 <= i < next.len() implies plain_component(#[trigger] next[i]) by {
                    if i < cur.len() {
                        assert(next[i] == cur[i]);
                    }
                }
            }
            if rest.len() > 0 && d.contains(key_of(next)) {
                lemma_walk(d, next, rest);
            }
        }
    }
}

/// Any name resolves as `resolved_ok` describes.
pub proof fn lemma_resolve(d: Set<Seq<char>>, name: Seq<char>)
    requires
        dirs_closed(d),
    ensures
        resolved_ok(d, resolve(d, name)),
{
    if !(name.len() > 0 && name[0] == '/') {
        lemma_split_pieces(name, '/');
        assert(plain_components(Seq::<Seq<char>>::empty()));
        lemma_walk(d, Seq::empty(), split(name, '/'));
    }
}

/// A plain component names the entry of that name in the cache directory.
pub proof fn lemma_top_name(d: Set<Seq<char>>, a: Seq<char>)
    requires
        plain_component(a),
    ensures
        split(a, '/') == seq![a],
        resolve(d, a) == Resolved::Inside(seq![a], true),
        key_of(seq![a]) == a,
{
    lemma_split_no_sep(a, '/');
    let comps = seq![a];
    assert(comps.drop_first() =~= Seq::<Seq<char>>::empty());
    assert(Seq::<Seq<char>>::empty().push(a) =~= comps);
    assert(a[0] != '/') by {
        assert(a.contains(a[0]) ==> a[0] != '/');
    }
}

/// `a/b`, with `a` a directory of the cache directory, names the entry `b`
/// in it.
pub proof fn lemma_second_name(d: Set<Seq<char>>, a: Seq<char>, b: Seq<char>)
    requires
        plain_component(a),
        plain_component(b),
        d.contains(a),
    ensures
        split(a + seq!['/'] + b, '/') == seq![a, b],
        resolve(d, a + seq!['/'] + b) == Resolved::Inside(seq![a, b], true),
        key_of(seq![a, b]) == a + seq!['/'] + b,
{
    let name = a + seq!['/'] + b;
    assert(name =~= a.push('/') + b);
    lemma_split_append(a, '/', b);
    lemma_split_no_sep(a, '/');
    assert(seq![a].push(b) =~= seq![a, b]);
    let comps = seq![a, b];
    assert(name[0] == a[0]);
    assert(a[0] != '/') by {
        assert(a.contains(a[0]) ==> a[0] != '/');
    }
    let one = Seq::<Seq<char>>::empty().push(a);
    assert(one =~= seq![a]);
    assert(key_of(one) == a);
    assert(comps.drop_first() =~= seq![b]);
    assert(seq![b].drop_first() =~= Seq::<Seq<char>>::empty());
    assert(one.push(b) =~= comps);
    assert(comps.drop_last() =~= one);
    assert(comps[0] == a);
    assert(walk(d, one, seq![b]) == Resolved::Inside(comps, true));
    assert(walk(d, Seq::empty(), comps) == walk(d, one, seq![b]));
}

} // verus!
