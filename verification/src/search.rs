//! The search propagator: the set of directory paths forced visible
//! because they are strict ancestors of an entry whose folded name holds
//! the folded pattern.
use vstd::prelude::*;

use crate::entry::{
    ancestor_chain, depth_of, last_index_of, lemma_ancestor_chain, lemma_ancestor_step,
    lemma_last_index_of, parent_of, strict_ancestor, views_of, Entry, EntryView,
};
use crate::text::{copy_text, name_matches, name_matches_spec};

verus! {

/// A set of paths with set semantics: each path held once.
pub struct PathSet {
    pub items: Vec<Vec<char>>,
}

impl View for PathSet {
    type V = Set<Seq<char>>;

    open spec fn view(&self) -> Set<Seq<char>> {
        Set::new(
            |a: Seq<char>|
                exists|i: int| 0 <= i < self.items@.len() && (#[trigger] self.items@[i])@ == a,
        )
    }
}

impl PathSet {
    /// Each member is held exactly once.
    pub open spec fn no_dups(&self) -> bool {
        forall|i: int, j: int|
            0 <= i < j < self.items@.len() ==> (#[trigger] self.items@[i])@ != (
            #[trigger] self.items@[j])@
    }

    /// The empty set.
    pub fn empty() -> (s: PathSet)
        ensures
            s@ == Set::<Seq<char>>::empty(),
            s.no_dups(),
    {
        let s = PathSet { items: Vec::new() };
        proof {
            assert(s@ =~= Set::<Seq<char>>::empty());
        }
        s
    }

    /// Membership test.
    pub fn member(&self, p: &Vec<char>) -> (r: bool)
        ensures
            r == self@.contains(p@),
    {
        let mut i: usize = 0;
        while i < self.items.len()
            invariant
                i <= self.items.len(),
                forall|k: int| 0 <= k < i ==> (#[trigger] self.items@[k])@ != p@,
            decreases self.items.len() - i,
        {
            if crate::text::text_eq(&self.items[i], p) {
                return true;
            }
            i += 1;
        }
        false
    }

    /// Inserts a path; already-held paths are recorded once.
    pub fn add(&mut self, p: Vec<char>)
        requires
            old(self).no_dups(),
        ensures
            final(self).no_dups(),
            final(self)@ == old(self)@.insert(p@),
    {
        if self.member(&p) {
            proof {
                assert(self@ =~= old(self)@.insert(p@));
            }
            return;
        }
        self.items.push(p);
        proof {
            assert forall|a: Seq<char>| self@.contains(a) <==> old(self)@.insert(p@).contains(
                a,
            ) by {
                if old(self)@.insert(p@).contains(a) {
                    if a == p@ {
                        assert(self.items@[self.items@.len() - 1]@ == a);
                    } else {
                        let i = choose|i: int|
                            0 <= i < old(self).items@.len() && (#[trigger] old(
                                self,
                            ).items@[i])@ == a;
                        assert(self.items@[i]@ == a);
                    }
                }
            }
            assert(self@ =~= old(self)@.insert(p@));
        }
    }
}

/// The parent path, as text, when the path has more than one segment.
pub fn parent_path(p: &Vec<char>) -> (r: Option<Vec<char>>)
    ensures
        match r {
            Some(q) => parent_of(p@) == Some(q@) && q@.len() < p@.len(),
            None => parent_of(p@) is None,
        },
{
    proof {
        lemma_last_index_of(p@, '/');
    }
    let mut i: usize = p.len();
    while i > 0
        invariant
            i <= p.len(),
            forall|k: int| i <= k < p@.len() ==> p@[k] != '/',
        decreases i,
    {
        if p[i - 1] == '/' {
            proof {
                assert(last_index_of(p@, '/') == i - 1) by {
                    lemma_last_index_of(p@, '/');
                }
            }
            let mut q: Vec<char> = Vec::new();
            let mut k: usize = 0;
            while k < i - 1
                invariant
                    k <= i - 1 < p.len(),
                    q@ == p@.take(k as int),
                decreases i - 1 - k,
            {
                q.push(p[k]);
                proof {
                    assert(p@.take(k as int).push(p@[k as int]) =~= p@.take(k + 1));
                }
                k += 1;
            }
            proof {
                assert(q@ =~= p@.subrange(0, i - 1));
            }
            return Some(q);
        }
        i -= 1;
    }
    proof {
        lemma_last_index_of(p@, '/');
        assert(last_index_of(p@, '/') < 0) by {
            if last_index_of(p@, '/') >= 0 {
                assert(p@[last_index_of(p@, '/')] == '/');
            }
        }
    }
    None
}

/// The ancestors forced visible by the matches among the first `k`
/// entries.
pub open spec fn forced_upto(entries: Seq<EntryView>, fpat: Seq<char>, k: int) -> Set<Seq<char>> {
    Set::new(
        |a: Seq<char>|
            exists|j: int|
                0 <= j < k && j < entries.len() && name_matches_spec(
                    (#[trigger] entries[j]).name,
                    fpat,
                ) && strict_ancestor(a, entries[j].path),
    )
}

/// Every strict ancestor of every entry whose folded name holds the
/// folded pattern.
pub open spec fn forced_spec(entries: Seq<EntryView>, fpat: Seq<char>) -> Set<Seq<char>> {
    forced_upto(entries, fpat, entries.len() as int)
}

/// Being an ancestor is transitive.
pub proof fn lemma_ancestor_transitive(a: Seq<char>, b: Seq<char>, c: Seq<char>)
    requires
        strict_ancestor(a, b),
        strict_ancestor(b, c),
    ensures
        strict_ancestor(a, c),
{
    assert(c.subrange(0, a.len() as int) =~= c.subrange(0, b.len() as int).subrange(
        0,
        a.len() as int,
    ));
    assert(c[a.len() as int] == b[a.len() as int]);
}

/// Computes the forced-visible set: walks each matching entry's parent
/// chain upward, recording every ancestor path once.
pub fn forced_ancestors(entries: &Vec<Entry>, folded_pattern: &Vec<char>) -> (s: PathSet)
    ensures
        s.no_dups(),
        s@ == forced_spec(views_of(entries@), folded_pattern@),
{
    let ghost evs = views_of(entries@);
    let mut s = PathSet::empty();
    let mut k: usize = 0;
    proof {
        assert(s@ =~= forced_upto(evs, folded_pattern@, 0));
    }
    while k < entries.len()
        invariant
            k <= entries.len(),
            evs == views_of(entries@),
            evs.len() == entries@.len(),
            s.no_dups(),
            s@ == forced_upto(evs, folded_pattern@, k as int),
        decreases entries.len() - k,
    {
        let ghost base = s@;
        if name_matches(&entries[k].name, folded_pattern) {
            let ghost path0 = entries@[k as int].path@;
            let mut cur = copy_text(&entries[k].path);
            proof {
                assert(evs[k as int].path == path0);
                assert(evs[k as int].name == entries@[k as int].name@);
            }
            loop
                invariant
                    s.no_dups(),
                    cur@ == path0 || strict_ancestor(cur@, path0),
                    forall|a: Seq<char>|
                        s@.contains(a) <==> (base.contains(a) || (strict_ancestor(a, path0)
                            && !strict_ancestor(a, cur@))),
                ensures
                    s.no_dups(),
                    forall|a: Seq<char>|
                        s@.contains(a) <==> (base.contains(a) || strict_ancestor(a, path0)),
                decreases cur@.len(),
            {
                match parent_path(&cur) {
                    Some(q) => {
                        proof {
                            lemma_ancestor_step(q@, cur@);
                            assert(strict_ancestor(q@, cur@));
                            if cur@ != path0 {
                                lemma_ancestor_transitive(q@, cur@, path0);
                            }
                        }
                        let ghost before = s@;
                        let q_copy = copy_text(&q);
                        s.add(q_copy);
                        proof {
                            assert forall|a: Seq<char>|
                                s@.contains(a) <==> (base.contains(a) || (strict_ancestor(a, path0)
                                    && !strict_ancestor(a, q@))) by {
                                lemma_ancestor_step(a, cur@);
                            }
                        }
                        cur = q;
                    },
                    None => {
                        proof {
                            assert forall|a: Seq<char>| !strict_ancestor(a, cur@) by {
                                lemma_ancestor_step(a, cur@);
                            }
                        }
                        break ;
                    },
                }
            }
            proof {
                assert forall|a: Seq<char>|
                    s@.contains(a) <==> forced_upto(evs, folded_pattern@, k + 1).contains(a) by {
                    if s@.contains(a) {
                        if base.contains(a) {
                            let j = choose|j: int|
                                0 <= j < k && j < evs.len() && name_matches_spec(
                                    (#[trigger] evs[j]).name,
                                    folded_pattern@,
                                ) && strict_ancestor(a, evs[j].path);
                            assert(name_matches_spec(evs[j].name, folded_pattern@)
                                && strict_ancestor(a, evs[j].path));
                        } else {
                            assert(name_matches_spec(evs[k as int].name, folded_pattern@)
                                && strict_ancestor(a, evs[k as int].path));
                        }
                    } else {
                        assert(!base.contains(a) && !strict_ancestor(a, path0));
                        if forced_upto(evs, folded_pattern@, k + 1).contains(a) {
                            let j = choose|j: int|
                                0 <= j < k + 1 && j < evs.len() && name_matches_spec(
                                    (#[trigger] evs[j]).name,
                                    folded_pattern@,
                                ) && strict_ancestor(a, evs[j].path);
                            if j < k {
                                assert(base.contains(a));
                            }
                        }
                    }
                }
                assert(s@ =~= forced_upto(evs, folded_pattern@, k + 1));
            }
        } else {
            proof {
                assert forall|a: Seq<char>|
                    s@.contains(a) <==> forced_upto(evs, folded_pattern@, k + 1).contains(a) by {
                    assert(evs[k as int].name == entries@[k as int].name@);
                    if forced_upto(evs, folded_pattern@, k + 1).contains(a) {
                        let j = choose|j: int|
                            0 <= j < k + 1 && j < evs.len() && name_matches_spec(
                                (#[trigger] evs[j]).name,
                                folded_pattern@,
                            ) && strict_ancestor(a, evs[j].path);
                        assert(j < k);
                    }
                }
                assert(s@ =~= forced_upto(evs, folded_pattern@, k + 1));
            }
        }
        k += 1;
    }
    proof {
        assert(s@ =~= forced_spec(evs, folded_pattern@));
    }
    s
}

/// Ancestor forcing reaches the whole parent chain: a matching entry at
/// depth `d` has exactly `d - 1` strict ancestors, pairwise distinct,
/// and every one of them is in the forced-visible set.
pub proof fn law_ancestor_forcing(entries: Seq<EntryView>, fpat: Seq<char>, k: int)
    requires
        0 <= k < entries.len(),
        name_matches_spec(entries[k].name, fpat),
        entries[k].depth == depth_of(entries[k].path),
    ensures
        ancestor_chain(entries[k].path).len() == entries[k].depth - 1,
        forall|i: int, j: int|
            0 <= i < j < ancestor_chain(entries[k].path).len() ==> ancestor_chain(
                entries[k].path,
            )[i] != ancestor_chain(entries[k].path)[j],
        forall|i: int|
            0 <= i < ancestor_chain(entries[k].path).len() ==> forced_spec(entries, fpat).contains(
                #[trigger] ancestor_chain(entries[k].path)[i],
            ),
        forall|a: Seq<char>|
            forced_spec(entries, fpat).contains(a) ==> exists|j: int|
                0 <= j < entries.len() && name_matches_spec((#[trigger] entries[j]).name, fpat)
                    && strict_ancestor(a, entries[j].path),
{
    let p = entries[k].path;
    lemma_ancestor_chain(p);
    assert forall|i: int|
        0 <= i < ancestor_chain(p).len() implies forced_spec(entries, fpat).contains(
        #[trigger] ancestor_chain(p)[i],
    ) by {
        assert(ancestor_chain(p).contains(ancestor_chain(p)[i]));
        assert(strict_ancestor(ancestor_chain(p)[i], p));
        assert(name_matches_spec(entries[k].name, fpat) && strict_ancestor(
            ancestor_chain(p)[i],
            entries[k].path,
        ));
    }
}

/// Propagation is a function of its input alone: two runs over the same
/// entries and pattern yield the same set.
pub proof fn law_propagation_idempotent(
    s1: PathSet,
    s2: PathSet,
    entries: Seq<EntryView>,
    fpat: Seq<char>,
)
    requires
        s1@ == forced_spec(entries, fpat),
        s2@ == forced_spec(entries, fpat),
    ensures
        s1@ == s2@,
{
}

} // verus!
