//! The traversal collector: walks a modelled filesystem forest in
//! depth-first order, respecting the depth bound and the hidden-entry
//! policy, and yields the ordered entry sequence. Hidden directories are
//! pruned whole: their contents are never visited.
use vstd::prelude::*;

use crate::entry::{
    clean_path, depth_of, join, last_seg, lemma_join_parts, views_of, wf_name, Entry, EntryView,
};
use crate::text::{copy_text, extend_text, is_hidden, is_hidden_spec};

verus! {

/// One node of the modelled filesystem: what one traversal step sees.
pub struct Node {
    /// Base name of the node.
    pub name: Vec<char>,
    pub is_directory: bool,
    /// 0 for directories or when the size could not be read.
    pub size_bytes: u64,
    /// Contents, for a directory; files hold none.
    pub children: Vec<Node>,
}

/// A node survives the hidden-entry policy.
pub open spec fn keep_node(n: Node, show_hidden: bool) -> bool {
    show_hidden || !is_hidden_spec(n.name@)
}

/// The entry a kept node contributes.
pub open spec fn entry_view_of(n: Node, path: Seq<char>, d: nat) -> EntryView {
    EntryView {
        name: n.name@,
        path: path,
        depth: d,
        is_directory: n.is_directory,
        size_bytes: n.size_bytes,
    }
}

/// Depth-first collection of a forest whose roots sit at depth `d` under
/// the path `prefix`: each kept node, then its collected subtree, then
/// its later siblings. Callers keep `d <= limit`; a node's contents are
/// visited only while `d < limit`.
pub open spec fn collect_spec(
    nodes: Seq<Node>,
    prefix: Seq<char>,
    d: nat,
    limit: nat,
    show_hidden: bool,
) -> Seq<EntryView>
    decreases nodes,
{
    if nodes.len() == 0 {
        Seq::empty()
    } else {
        let n = nodes[0];
        let here = if !keep_node(n, show_hidden) {
            Seq::empty()
        } else {
            let path = join(prefix, n.name@);
            seq![entry_view_of(n, path, d)] + if d < limit {
                collect_spec(n.children@, path, d + 1, limit, show_hidden)
            } else {
                Seq::empty()
            }
        };
        here + collect_spec(nodes.drop_first(), prefix, d, limit, show_hidden)
    }
}

pub proof fn lemma_collect_empty(prefix: Seq<char>, d: nat, limit: nat, show_hidden: bool)
    ensures
        collect_spec(Seq::<Node>::empty(), prefix, d, limit, show_hidden) == Seq::<
            EntryView,
        >::empty(),
{
}

/// What a single node contributes: nothing when pruned, else its entry
/// followed by its collected subtree.
pub proof fn lemma_collect_single(n: Node, prefix: Seq<char>, d: nat, limit: nat, show_hidden: bool)
    ensures
        collect_spec(seq![n], prefix, d, limit, show_hidden) == if !keep_node(n, show_hidden) {
            Seq::<EntryView>::empty()
        } else {
            seq![entry_view_of(n, join(prefix, n.name@), d)] + if d < limit {
                collect_spec(n.children@, join(prefix, n.name@), d + 1, limit, show_hidden)
            } else {
                Seq::<EntryView>::empty()
            }
        },
{
    assert(seq![n].drop_first() =~= Seq::<Node>::empty());
    lemma_collect_empty(prefix, d, limit, show_hidden);
    assert(collect_spec(seq![n], prefix, d, limit, show_hidden) =~= if !keep_node(
        n,
        show_hidden,
    ) {
        Seq::<EntryView>::empty()
    } else {
        seq![entry_view_of(n, join(prefix, n.name@), d)] + if d < limit {
            collect_spec(n.children@, join(prefix, n.name@), d + 1, limit, show_hidden)
        } else {
            Seq::<EntryView>::empty()
        }
    });
}

/// Collection distributes over splitting the forest.
pub proof fn lemma_collect_concat(
    a: Seq<Node>,
    b: Seq<Node>,
    prefix: Seq<char>,
    d: nat,
    limit: nat,
    show_hidden: bool,
)
    ensures
        collect_spec(a + b, prefix, d, limit, show_hidden) == collect_spec(
            a,
            prefix,
            d,
            limit,
            show_hidden,
        ) + collect_spec(b, prefix, d, limit, show_hidden),
    decreases a,
{
    if a.len() == 0 {
        assert(a + b =~= b);
        assert(collect_spec(a, prefix, d, limit, show_hidden) + collect_spec(
            b,
            prefix,
            d,
            limit,
            show_hidden,
        ) =~= collect_spec(b, prefix, d, limit, show_hidden));
    } else {
        assert((a + b)[0] == a[0]);
        assert((a + b).drop_first() =~= a.drop_first() + b);
        lemma_collect_concat(a.drop_first(), b, prefix, d, limit, show_hidden);
        assert(collect_spec(a + b, prefix, d, limit, show_hidden) =~= collect_spec(
            a,
            prefix,
            d,
            limit,
            show_hidden,
        ) + collect_spec(b, prefix, d, limit, show_hidden));
    }
}

/// Appends the collection of `nodes` to `out`.
fn collect_into(
    nodes: &Vec<Node>,
    prefix: &Vec<char>,
    d: usize,
    limit: usize,
    show_hidden: bool,
    out: &mut Vec<Entry>,
)
    requires
        1 <= d <= limit,
    ensures
        views_of(final(out)@) == views_of(old(out)@) + collect_spec(
            nodes@,
            prefix@,
            d as nat,
            limit as nat,
            show_hidden,
        ),
    decreases nodes@,
{
    let mut i: usize = 0;
    while i < nodes.len()
        invariant
            1 <= d <= limit,
            i <= nodes.len(),
            views_of(out@) == views_of(old(out)@) + collect_spec(
                nodes@.take(i as int),
                prefix@,
                d as nat,
                limit as nat,
                show_hidden,
            ),
        decreases nodes@.len() - i,
    {
        let ghost done = nodes@.take(i as int);
        let ghost before = out@;
        let n = &nodes[i];
        if show_hidden || !is_hidden(&n.name) {
            let mut path: Vec<char> = Vec::new();
            extend_text(&mut path, prefix);
            if path.len() > 0 {
                path.push('/');
            }
            extend_text(&mut path, &n.name);
            proof {
                assert(path@ =~= join(prefix@, n.name@));
            }
            let entry_path = copy_text(&path);
            let e = Entry {
                name: copy_text(&n.name),
                path: entry_path,
                depth: d,
                is_directory: n.is_directory,
                size_bytes: n.size_bytes,
            };
            proof {
                assert(e@ == entry_view_of(nodes@[i as int], join(prefix@, n.name@), d as nat));
            }
            out.push(e);
            proof {
                assert(views_of(out@) =~= views_of(before) + seq![
                    entry_view_of(nodes@[i as int], join(prefix@, n.name@), d as nat),
                ]);
            }
            if d < limit {
                proof {
                    assert(decreases_to!(nodes@ => nodes@[i as int]));
                    assert(decreases_to!(nodes@[i as int] => nodes@[i as int].children));
                    assert(decreases_to!(nodes@[i as int].children => nodes@[i as int].children@));
                }
                let ghost mid = out@;
                collect_into(&n.children, &path, d + 1, limit, show_hidden, out);
                proof {
                    assert(views_of(out@) =~= views_of(mid) + collect_spec(
                        nodes@[i as int].children@,
                        join(prefix@, n.name@),
                        d as nat + 1,
                        limit as nat,
                        show_hidden,
                    ));
                }
            }
        }
        proof {
            assert(nodes@.take(i + 1) =~= done + seq![nodes@[i as int]]);
            lemma_collect_concat(
                done,
                seq![nodes@[i as int]],
                prefix@,
                d as nat,
                limit as nat,
                show_hidden,
            );
            lemma_collect_single(nodes@[i as int], prefix@, d as nat, limit as nat, show_hidden);
            assert(views_of(out@) =~= views_of(old(out)@) + collect_spec(
                nodes@.take(i + 1),
                prefix@,
                d as nat,
                limit as nat,
                show_hidden,
            ));
        }
        i += 1;
    }
    proof {
        assert(nodes@.take(nodes@.len() as int) =~= nodes@);
    }
}

/// Collects every entry of the forest reachable within `limit` levels,
/// in traversal order, applying the hidden-entry policy. The forest's
/// roots are the traversal root's direct children, at depth 1.
pub fn collect_entries(nodes: &Vec<Node>, show_hidden: bool, limit: usize) -> (out: Vec<Entry>)
    requires
        limit >= 1,
    ensures
        views_of(out@) == collect_spec(nodes@, Seq::empty(), 1, limit as nat, show_hidden),
{
    let mut out: Vec<Entry> = Vec::new();
    let prefix: Vec<char> = Vec::new();
    collect_into(nodes, &prefix, 1, limit, show_hidden, &mut out);
    proof {
        assert(views_of(Seq::<Entry>::empty()) =~= Seq::<EntryView>::empty());
        assert(views_of(out@) =~= collect_spec(
            nodes@,
            Seq::empty(),
            1,
            limit as nat,
            show_hidden,
        ));
    }
    out
}

/// The unlimited-depth resolution: a bound of 0 means no bound, and a
/// search with the default single-level bound searches every level.
pub open spec fn resolve_depth_spec(depth: usize, has_pattern: bool) -> usize {
    if depth == 0 || (depth == 1 && has_pattern) {
        usize::MAX
    } else {
        depth
    }
}

/// Resolves the requested depth bound to the one traversal uses.
pub fn resolve_depth(depth: usize, has_pattern: bool) -> (r: usize)
    ensures
        r == resolve_depth_spec(depth, has_pattern),
        r >= 1,
{
    if depth == 0 || (depth == 1 && has_pattern) {
        usize::MAX
    } else {
        depth
    }
}

/// How many levels a forest reaches: 0 when empty, else one more than
/// its deepest child forest.
pub open spec fn height_of(nodes: Seq<Node>) -> nat
    decreases nodes,
{
    if nodes.len() == 0 {
        0
    } else {
        let h0 = 1 + height_of(nodes[0].children@);
        let hr = height_of(nodes.drop_first());
        if h0 > hr {
            h0
        } else {
            hr
        }
    }
}

/// Collection with no depth cutoff at all.
pub open spec fn collect_all(
    nodes: Seq<Node>,
    prefix: Seq<char>,
    d: nat,
    show_hidden: bool,
) -> Seq<EntryView>
    decreases nodes,
{
    if nodes.len() == 0 {
        Seq::empty()
    } else {
        let n = nodes[0];
        let here = if !keep_node(n, show_hidden) {
            Seq::empty()
        } else {
            let path = join(prefix, n.name@);
            seq![entry_view_of(n, path, d)] + collect_all(n.children@, path, d + 1, show_hidden)
        };
        here + collect_all(nodes.drop_first(), prefix, d, show_hidden)
    }
}

/// Depth-bound correctness, bounded half: under a bound, no entry is
/// collected below the roots' level or beyond the bound.
pub proof fn law_depth_bound(nodes: Seq<Node>, prefix: Seq<char>, d: nat, limit: nat, sh: bool)
    requires
        1 <= d <= limit,
    ensures
        forall|i: int|
            0 <= i < collect_spec(nodes, prefix, d, limit, sh).len() ==> d <= (
            #[trigger] collect_spec(nodes, prefix, d, limit, sh)[i]).depth <= limit,
    decreases nodes,
{
    if nodes.len() > 0 {
        let n = nodes[0];
        let path = join(prefix, n.name@);
        let rest = collect_spec(nodes.drop_first(), prefix, d, limit, sh);
        law_depth_bound(nodes.drop_first(), prefix, d, limit, sh);
        if keep_node(n, sh) && d < limit {
            law_depth_bound(n.children@, path, d + 1, limit, sh);
        }
        assert forall|i: int|
            0 <= i < collect_spec(nodes, prefix, d, limit, sh).len() implies d <= (
        #[trigger] collect_spec(nodes, prefix, d, limit, sh)[i]).depth <= limit by {
            let s = collect_spec(nodes, prefix, d, limit, sh);
            if keep_node(n, sh) {
                let sub = if d < limit {
                    collect_spec(n.children@, path, d + 1, limit, sh)
                } else {
                    Seq::<EntryView>::empty()
                };
                let here = seq![entry_view_of(n, path, d)] + sub;
                if i < here.len() {
                    assert(s[i] == here[i]);
                    if i > 0 {
                        assert(here[i] == sub[i - 1]);
                    }
                } else {
                    assert(s[i] == rest[i - here.len()]);
                }
            } else {
                assert(s[i] == rest[i]);
            }
        }
    }
}

/// Depth-bound correctness, unlimited half: a bound past the forest's
/// height cuts nothing, so every reachable entry of every depth is
/// collected.
pub proof fn law_depth_unlimited(nodes: Seq<Node>, prefix: Seq<char>, d: nat, limit: nat, sh: bool)
    requires
        d >= 1,
        limit >= d + height_of(nodes),
    ensures
        collect_spec(nodes, prefix, d, limit, sh) == collect_all(nodes, prefix, d, sh),
    decreases nodes,
{
    if nodes.len() > 0 {
        let n = nodes[0];
        let path = join(prefix, n.name@);
        law_depth_unlimited(nodes.drop_first(), prefix, d, limit, sh);
        law_depth_unlimited(n.children@, path, d + 1, limit, sh);
        assert(collect_spec(nodes, prefix, d, limit, sh) =~= collect_all(nodes, prefix, d, sh));
    }
}

/// Names are well formed all through a forest, files hold no contents,
/// and directories report no size of their own.
pub open spec fn wf_forest(nodes: Seq<Node>) -> bool
    decreases nodes,
{
    if nodes.len() == 0 {
        true
    } else {
        &&& wf_name(nodes[0].name@)
        &&& (!nodes[0].is_directory ==> nodes[0].children@.len() == 0)
        &&& (nodes[0].is_directory ==> nodes[0].size_bytes == 0)
        &&& wf_forest(nodes[0].children@)
        &&& wf_forest(nodes.drop_first())
    }
}

/// Hidden-directory pruning: with hidden entries excluded, every
/// collected entry's path is clean through its whole ancestor chain, so
/// no descendant of a hidden directory ever appears.
pub proof fn law_hidden_pruning(nodes: Seq<Node>, prefix: Seq<char>, d: nat, limit: nat)
    requires
        wf_forest(nodes),
        prefix.len() == 0 || clean_path(prefix),
    ensures
        forall|i: int|
            0 <= i < collect_spec(nodes, prefix, d, limit, false).len() ==> clean_path(
                (#[trigger] collect_spec(nodes, prefix, d, limit, false)[i]).path,
            ),
    decreases nodes,
{
    if nodes.len() > 0 {
        let n = nodes[0];
        let path = join(prefix, n.name@);
        let rest = collect_spec(nodes.drop_first(), prefix, d, limit, false);
        law_hidden_pruning(nodes.drop_first(), prefix, d, limit);
        if keep_node(n, false) {
            lemma_join_parts(prefix, n.name@);
            assert(clean_path(path));
            law_hidden_pruning(n.children@, path, d + 1, limit);
        }
        assert forall|i: int|
            0 <= i < collect_spec(nodes, prefix, d, limit, false).len() implies clean_path(
            (#[trigger] collect_spec(nodes, prefix, d, limit, false)[i]).path,
        ) by {
            let s = collect_spec(nodes, prefix, d, limit, false);
            if keep_node(n, false) {
                let sub = if d < limit {
                    collect_spec(n.children@, path, d + 1, limit, false)
                } else {
                    Seq::<EntryView>::empty()
                };
                let here = seq![entry_view_of(n, path, d)] + sub;
                if i < here.len() {
                    assert(s[i] == here[i]);
                    if i > 0 {
                        assert(here[i] == sub[i - 1]);
                    }
                } else {
                    assert(s[i] == rest[i - here.len()]);
                }
            } else {
                assert(s[i] == rest[i]);
            }
        }
    }
}

/// Each collected entry's depth is exactly its path's segment count, and
/// its name is its path's base name.
pub proof fn lemma_collect_entry_paths(
    nodes: Seq<Node>,
    prefix: Seq<char>,
    d: nat,
    limit: nat,
    sh: bool,
)
    requires
        wf_forest(nodes),
        d >= 1,
        if prefix.len() == 0 {
            d == 1
        } else {
            depth_of(prefix) == d - 1
        },
    ensures
        forall|i: int|
            0 <= i < collect_spec(nodes, prefix, d, limit, sh).len() ==> {
                let ev = #[trigger] collect_spec(nodes, prefix, d, limit, sh)[i];
                ev.depth == depth_of(ev.path) && ev.name == last_seg(ev.path)
            },
    decreases nodes,
{
    if nodes.len() > 0 {
        let n = nodes[0];
        let path = join(prefix, n.name@);
        let rest = collect_spec(nodes.drop_first(), prefix, d, limit, sh);
        lemma_collect_entry_paths(nodes.drop_first(), prefix, d, limit, sh);
        if keep_node(n, sh) {
            lemma_join_parts(prefix, n.name@);
            assert(depth_of(path) == d);
            lemma_collect_entry_paths(n.children@, path, d + 1, limit, sh);
        }
        assert forall|i: int|
            0 <= i < collect_spec(nodes, prefix, d, limit, sh).len() implies {
            let ev = #[trigger] collect_spec(nodes, prefix, d, limit, sh)[i];
            ev.depth == depth_of(ev.path) && ev.name == last_seg(ev.path)
        } by {
            let s = collect_spec(nodes, prefix, d, limit, sh);
            if keep_node(n, sh) {
                let sub = if d < limit {
                    collect_spec(n.children@, path, d + 1, limit, sh)
                } else {
                    Seq::<EntryView>::empty()
                };
                let here = seq![entry_view_of(n, path, d)] + sub;
                if i < here.len() {
                    assert(s[i] == here[i]);
                    if i > 0 {
                        assert(here[i] == sub[i - 1]);
                    }
                } else {
                    assert(s[i] == rest[i - here.len()]);
                }
            } else {
                assert(s[i] == rest[i]);
            }
        }
    }
}

} // verus!
