//! The entry model: one collected filesystem node, and the path
//! decomposition that ancestor forcing is built on. Paths are segments
//! joined by `/`, kept root-relative; the root's direct children sit at
//! depth 1.
use vstd::prelude::*;

verus! {

/// One filesystem node captured during traversal.
pub struct Entry {
    /// Base name, not the full path.
    pub name: Vec<char>,
    /// Root-relative path; the unique key within one traversal.
    pub path: Vec<char>,
    /// Distance from the traversal root; direct children are at 1.
    pub depth: usize,
    pub is_directory: bool,
    /// 0 for directories or when the size could not be read.
    pub size_bytes: u64,
}

/// The mathematical shape of an `Entry`.
pub struct EntryView {
    pub name: Seq<char>,
    pub path: Seq<char>,
    pub depth: nat,
    pub is_directory: bool,
    pub size_bytes: u64,
}

impl View for Entry {
    type V = EntryView;

    open spec fn view(&self) -> EntryView {
        EntryView {
            name: self.name@,
            path: self.path@,
            depth: self.depth as nat,
            is_directory: self.is_directory,
            size_bytes: self.size_bytes,
        }
    }
}

/// The views of a sequence of entries.
pub open spec fn views_of(entries: Seq<Entry>) -> Seq<EntryView> {
    entries.map_values(|e: Entry| e@)
}

/// Number of `/` characters in a path.
pub open spec fn slash_count(p: Seq<char>) -> nat
    decreases p.len(),
{
    if p.len() == 0 {
        0
    } else {
        slash_count(p.drop_last()) + if p.last() == '/' {
            1nat
        } else {
            0nat
        }
    }
}

/// Depth of the node a path leads to: one more than its slash count.
pub open spec fn depth_of(p: Seq<char>) -> nat {
    slash_count(p) + 1
}

/// Index of the last occurrence of `c`, or -1 when there is none.
pub open spec fn last_index_of(p: Seq<char>, c: char) -> int
    decreases p.len(),
{
    if p.len() == 0 {
        -1
    } else if p.last() == c {
        p.len() - 1
    } else {
        last_index_of(p.drop_last(), c)
    }
}

pub proof fn lemma_last_index_of(p: Seq<char>, c: char)
    ensures
        last_index_of(p, c) < p.len(),
        last_index_of(p, c) >= 0 ==> p[last_index_of(p, c)] == c,
        forall|k: int| last_index_of(p, c) < k < p.len() ==> p[k] != c,
        last_index_of(p, c) == -1 ==> forall|k: int| 0 <= k < p.len() ==> p[k] != c,
        last_index_of(p, c) >= -1,
    decreases p.len(),
{
    if p.len() > 0 {
        lemma_last_index_of(p.drop_last(), c);
        if p.last() != c {
            assert(forall|k: int| 0 <= k < p.len() - 1 ==> p.drop_last()[k] == p[k]);
        }
    }
}

/// The parent path: everything before the last `/`, or nothing when the
/// path is a single segment.
pub open spec fn parent_of(p: Seq<char>) -> Option<Seq<char>> {
    let ls = last_index_of(p, '/');
    if ls < 0 {
        None
    } else {
        Some(p.subrange(0, ls))
    }
}

/// The base name: everything after the last `/`.
pub open spec fn last_seg(p: Seq<char>) -> Seq<char> {
    p.subrange(last_index_of(p, '/') + 1, p.len() as int)
}

/// `a` is a strict ancestor of `p`: a proper prefix cut at a `/`.
pub open spec fn strict_ancestor(a: Seq<char>, p: Seq<char>) -> bool {
    &&& a.len() < p.len()
    &&& p.subrange(0, a.len() as int) == a
    &&& p[a.len() as int] == '/'
}

/// A child's path: the parent path, a separator, and the base name;
/// a root child's path is the bare name.
pub open spec fn join(prefix: Seq<char>, name: Seq<char>) -> Seq<char> {
    if prefix.len() == 0 {
        name
    } else {
        prefix + seq!['/'] + name
    }
}

/// A base name is well formed when it is nonempty and holds no separator.
pub open spec fn wf_name(name: Seq<char>) -> bool {
    name.len() > 0 && forall|i: int| 0 <= i < name.len() ==> name[i] != '/'
}

pub proof fn lemma_slash_count_concat(a: Seq<char>, b: Seq<char>)
    ensures
        slash_count(a + b) == slash_count(a) + slash_count(b),
    decreases b.len(),
{
    if b.len() == 0 {
        assert(a + b =~= a);
    } else {
        lemma_slash_count_concat(a, b.drop_last());
        assert((a + b).drop_last() =~= a + b.drop_last());
        assert((a + b).last() == b.last());
    }
}

pub proof fn lemma_slash_count_zero(a: Seq<char>)
    requires
        forall|i: int| 0 <= i < a.len() ==> a[i] != '/',
    ensures
        slash_count(a) == 0,
    decreases a.len(),
{
    if a.len() > 0 {
        lemma_slash_count_zero(a.drop_last());
    }
}

/// Decomposing a joined path recovers the parent and the name, and the
/// join sits one level below the parent.
pub proof fn lemma_join_parts(prefix: Seq<char>, name: Seq<char>)
    requires
        wf_name(name),
    ensures
        parent_of(join(prefix, name)) == if prefix.len() == 0 {
            None::<Seq<char>>
        } else {
            Some(prefix)
        },
        last_seg(join(prefix, name)) == name,
        depth_of(join(prefix, name)) == if prefix.len() == 0 {
            1nat
        } else {
            depth_of(prefix) + 1
        },
        prefix.len() > 0 ==> strict_ancestor(prefix, join(prefix, name)),
{
    let p = join(prefix, name);
    if prefix.len() == 0 {
        lemma_last_index_of(name, '/');
        assert(last_index_of(name, '/') == -1) by {
            if last_index_of(name, '/') >= 0 {
                assert(name[last_index_of(name, '/')] == '/');
            }
        }
        assert(last_seg(p) =~= name);
        lemma_slash_count_zero(name);
    } else {
        let ls = prefix.len() as int;
        assert(p[ls] == '/');
        assert(last_index_of(p, '/') == ls) by {
            lemma_last_index_of(p, '/');
            if last_index_of(p, '/') > ls {
                assert(name[last_index_of(p, '/') - ls - 1] == '/');
            }
            assert(forall|k: int| ls < k < p.len() ==> p[k] != '/') by {
                assert(forall|k: int| ls < k < p.len() ==> p[k] == name[k - ls - 1]);
            }
        }
        assert(p.subrange(0, ls) =~= prefix);
        assert(last_seg(p) =~= name);
        assert(p =~= prefix + (seq!['/'] + name));
        lemma_slash_count_concat(prefix, seq!['/'] + name);
        lemma_slash_count_concat(seq!['/'], name);
        lemma_slash_count_zero(name);
        assert(slash_count(seq!['/']) == 1) by {
            assert(seq!['/'].drop_last() =~= Seq::<char>::empty());
            assert(slash_count(Seq::<char>::empty()) == 0);
            assert(seq!['/'].last() == '/');
        }
    }
}

/// A path's strict ancestors are its parent and the parent's own strict
/// ancestors; a single segment has none.
pub proof fn lemma_ancestor_step(a: Seq<char>, p: Seq<char>)
    ensures
        parent_of(p) is None ==> !strict_ancestor(a, p),
        parent_of(p) is Some ==> (strict_ancestor(a, p) <==> (a == parent_of(p)->Some_0
            || strict_ancestor(a, parent_of(p)->Some_0))),
{
    lemma_last_index_of(p, '/');
    let ls = last_index_of(p, '/');
    if ls < 0 {
        if strict_ancestor(a, p) {
            assert(p[a.len() as int] == '/');
        }
    } else {
        let q = p.subrange(0, ls);
        if strict_ancestor(a, p) {
            if a.len() < ls {
                assert(q.subrange(0, a.len() as int) =~= p.subrange(0, a.len() as int));
                assert(q[a.len() as int] == p[a.len() as int]);
                assert(strict_ancestor(a, q));
            } else if a.len() == ls {
                assert(a == q);
            } else {
                assert(p[a.len() as int] != '/');
            }
        }
        if a == q {
            assert(strict_ancestor(a, p));
        } else if strict_ancestor(a, q) {
            assert(p.subrange(0, a.len() as int) =~= q.subrange(0, a.len() as int));
            assert(p[a.len() as int] == q[a.len() as int]);
            assert(strict_ancestor(a, p));
        }
    }
}

/// The chain of a path's strict ancestors, nearest last.
pub open spec fn ancestor_chain(p: Seq<char>) -> Seq<Seq<char>>
    decreases p.len(),
    via ancestor_chain_decreases
{
    match parent_of(p) {
        None => Seq::empty(),
        Some(q) => ancestor_chain(q).push(q),
    }
}

#[via_fn]
proof fn ancestor_chain_decreases(p: Seq<char>) {
    lemma_last_index_of(p, '/');
}

/// The ancestor chain lists exactly the strict ancestors, one each, in
/// strictly growing length; there are as many as the path has separators.
pub proof fn lemma_ancestor_chain(p: Seq<char>)
    ensures
        ancestor_chain(p).len() == slash_count(p),
        forall|i: int|
            0 <= i < ancestor_chain(p).len() ==> (#[trigger] ancestor_chain(p)[i]).len() < p.len(),
        forall|i: int, j: int|
            0 <= i < j < ancestor_chain(p).len() ==> ancestor_chain(p)[i].len() < ancestor_chain(
                p,
            )[j].len(),
        forall|a: Seq<char>| ancestor_chain(p).contains(a) <==> strict_ancestor(a, p),
    decreases p.len(),
{
    lemma_last_index_of(p, '/');
    let ls = last_index_of(p, '/');
    if ls < 0 {
        assert(slash_count(p) == 0) by {
            lemma_slash_count_zero(p);
        }
        assert forall|a: Seq<char>| !strict_ancestor(a, p) by {
            lemma_ancestor_step(a, p);
        }
    } else {
        let q = p.subrange(0, ls);
        lemma_ancestor_chain(q);
        assert(slash_count(p) == slash_count(q) + 1) by {
            let rest = p.subrange(ls + 1, p.len() as int);
            assert(p =~= q + seq!['/'] + rest);
            assert(p =~= q + (seq!['/'] + rest));
            lemma_slash_count_concat(q, seq!['/'] + rest);
            lemma_slash_count_concat(seq!['/'], rest);
            assert(slash_count(seq!['/']) == 1) by {
                assert(seq!['/'].drop_last() =~= Seq::<char>::empty());
                assert(slash_count(Seq::<char>::empty()) == 0);
                assert(seq!['/'].last() == '/');
            }
            lemma_slash_count_zero(rest);
        }
        assert forall|a: Seq<char>| ancestor_chain(p).contains(a) <==> strict_ancestor(a, p) by {
            lemma_ancestor_step(a, p);
            if ancestor_chain(p).contains(a) {
                let i = choose|i: int|
                    0 <= i < ancestor_chain(p).len() && ancestor_chain(p)[i] == a;
                if i < ancestor_chain(q).len() {
                    assert(ancestor_chain(q).contains(a));
                }
            }
            if strict_ancestor(a, p) {
                if a == q {
                    assert(ancestor_chain(p)[ancestor_chain(p).len() - 1] == a);
                    assert(ancestor_chain(p).contains(a));
                } else {
                    assert(ancestor_chain(q).contains(a));
                    let i = choose|i: int|
                        0 <= i < ancestor_chain(q).len() && ancestor_chain(q)[i] == a;
                    assert(ancestor_chain(p)[i] == a);
                    assert(ancestor_chain(p).contains(a));
                }
            }
        }
    }
}

/// Every segment along a path is unhidden: its own base name, and every
/// ancestor's, up the whole parent chain.
pub open spec fn clean_path(p: Seq<char>) -> bool
    decreases p.len(),
    via clean_path_decreases
{
    &&& !crate::text::is_hidden_spec(last_seg(p))
    &&& (match parent_of(p) {
        None => true,
        Some(q) => clean_path(q),
    })
}

#[via_fn]
proof fn clean_path_decreases(p: Seq<char>) {
    lemma_last_index_of(p, '/');
}

} // verus!
