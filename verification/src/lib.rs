//! A directory-tree visualiser's verified core: collecting entries from a
//! modelled filesystem tree under a depth bound and a hidden-entry policy,
//! propagating search matches to their ancestor directories, and rendering
//! the indented tree lines, plainly or wrapped in colour escapes.
//!
//! Text is carried as `Vec<char>`; the thin unverified shell converts at the
//! boundary and does the filesystem and terminal work.
use vstd::prelude::*;

pub mod collect;
pub mod entry;
pub mod render;
pub mod search;
pub mod text;

use crate::collect::{collect_entries, collect_spec, resolve_depth, resolve_depth_spec, Node};
use crate::render::{output_tree, visible_entries};
use crate::search::{forced_ancestors, forced_spec, PathSet};
use crate::text::{fold_case, lower_of};

verus! {

/// The options one render run is given.
pub struct RenderPolicy {
    /// Show entries whose names mark them hidden.
    pub show_hidden: bool,
    /// Requested depth bound; 0 means unlimited.
    pub max_depth: usize,
    /// Raw search pattern; folded before use.
    pub pattern: Option<Vec<char>>,
    /// Wrap names and sizes in colour escapes.
    pub use_color: bool,
}

/// The folded pattern a policy induces.
pub open spec fn folded_pattern_spec(policy: RenderPolicy) -> Option<Seq<char>> {
    match policy.pattern {
        None => None,
        Some(p) => Some(lower_of(p@)),
    }
}

/// The entries one run collects.
pub open spec fn listing_entries_spec(nodes: Seq<Node>, policy: RenderPolicy) -> Seq<
    entry::EntryView,
> {
    collect_spec(
        nodes,
        Seq::empty(),
        1,
        resolve_depth_spec(policy.max_depth, policy.pattern is Some) as nat,
        policy.show_hidden,
    )
}

/// The forced-visible set one run computes.
pub open spec fn listing_forced_spec(nodes: Seq<Node>, policy: RenderPolicy) -> Set<Seq<char>> {
    match folded_pattern_spec(policy) {
        None => Set::empty(),
        Some(fp) => forced_spec(listing_entries_spec(nodes, policy), fp),
    }
}

/// The visible entries of one run, in traversal order.
pub open spec fn listing_visible_spec(nodes: Seq<Node>, policy: RenderPolicy) -> Seq<
    entry::EntryView,
> {
    visible_entries(
        listing_entries_spec(nodes, policy),
        folded_pattern_spec(policy),
        listing_forced_spec(nodes, policy),
    )
}

/// The whole engine: collects the forest's entries under the resolved
/// depth bound and the hidden policy, folds the pattern, propagates
/// matches to ancestors, and renders the root marker plus one line per
/// visible entry.
pub fn render_listing(nodes: &Vec<Node>, policy: &RenderPolicy) -> (lines: Vec<Vec<char>>)
    ensures
        ({
            let vis = listing_visible_spec(nodes@, *policy);
            &&& lines@.len() == vis.len() + 1
            &&& lines@[0]@ == render::root_marker()
            &&& (!policy.use_color ==> forall|i: int|
                0 <= i < vis.len() ==> (#[trigger] lines@[i + 1])@ == render::line_plain(vis[i]))
            &&& (policy.use_color ==> forall|i: int|
                0 <= i < vis.len() ==> !text::contains_text(
                    (#[trigger] vis[i]).name,
                    render::reset_mark(),
                ) ==> render::color_line_ok(lines@[i + 1]@, vis[i]))
        }),
{
    let has_pattern = policy.pattern.is_some();
    let limit = resolve_depth(policy.max_depth, has_pattern);
    let entries = collect_entries(nodes, policy.show_hidden, limit);
    let folded: Option<Vec<char>> = match &policy.pattern {
        Some(p) => Some(fold_case(p)),
        None => None,
    };
    let forced: PathSet = match &folded {
        Some(f) => forced_ancestors(&entries, f),
        None => PathSet::empty(),
    };
    proof {
        assert(entry::views_of(entries@) == listing_entries_spec(nodes@, *policy));
        assert(render::opt_text_view(folded) == folded_pattern_spec(*policy));
        assert(forced@ == listing_forced_spec(nodes@, *policy));
    }
    output_tree(&entries, &forced, &folded, policy.use_color)
}

/// The resolved bound is never below the roots' level.
pub proof fn lemma_resolved_at_least_one(policy: RenderPolicy)
    ensures
        resolve_depth_spec(policy.max_depth, policy.pattern is Some) >= 1,
{
}

/// Depth-bound correctness for a whole run: no collected entry sits
/// outside depth 1 up to the resolved bound.
pub proof fn law_listing_depth_bound(nodes: Seq<Node>, policy: RenderPolicy)
    ensures
        forall|i: int|
            0 <= i < listing_entries_spec(nodes, policy).len() ==> 1 <= (
            #[trigger] listing_entries_spec(nodes, policy)[i]).depth <= resolve_depth_spec(
                policy.max_depth,
                policy.pattern is Some,
            ),
{
    lemma_resolved_at_least_one(policy);
    collect::law_depth_bound(
        nodes,
        Seq::empty(),
        1,
        resolve_depth_spec(policy.max_depth, policy.pattern is Some) as nat,
        policy.show_hidden,
    );
}

/// Unlimited-depth correctness for a whole run: a bound of 0 collects
/// entries of every depth the forest holds.
pub proof fn law_listing_depth_unlimited(nodes: Seq<Node>, policy: RenderPolicy)
    requires
        policy.max_depth == 0,
        collect::height_of(nodes) < usize::MAX,
    ensures
        listing_entries_spec(nodes, policy) == collect::collect_all(
            nodes,
            Seq::empty(),
            1,
            policy.show_hidden,
        ),
{
    collect::law_depth_unlimited(
        nodes,
        Seq::empty(),
        1,
        usize::MAX as nat,
        policy.show_hidden,
    );
}

/// Hidden-directory pruning for a whole run: with hidden entries
/// excluded, every collected entry's path is clean through its whole
/// ancestor chain, so no descendant of a hidden directory appears.
pub proof fn law_listing_hidden_pruning(nodes: Seq<Node>, policy: RenderPolicy)
    requires
        collect::wf_forest(nodes),
        !policy.show_hidden,
    ensures
        forall|i: int|
            0 <= i < listing_entries_spec(nodes, policy).len() ==> entry::clean_path(
                (#[trigger] listing_entries_spec(nodes, policy)[i]).path,
            ),
{
    collect::law_hidden_pruning(
        nodes,
        Seq::empty(),
        1,
        resolve_depth_spec(policy.max_depth, policy.pattern is Some) as nat,
    );
}

/// Ancestor forcing for a whole run: a matching entry at depth `d` has
/// exactly `d - 1` strict ancestors, pairwise distinct, and every one of
/// them is in the run's forced-visible set.
pub proof fn law_listing_ancestor_forcing(nodes: Seq<Node>, policy: RenderPolicy, k: int)
    requires
        collect::wf_forest(nodes),
        policy.pattern is Some,
        0 <= k < listing_entries_spec(nodes, policy).len(),
        text::name_matches_spec(
            listing_entries_spec(nodes, policy)[k].name,
            lower_of(policy.pattern->Some_0@),
        ),
    ensures
        ({
            let ev = listing_entries_spec(nodes, policy)[k];
            let chain = entry::ancestor_chain(ev.path);
            &&& chain.len() == ev.depth - 1
            &&& (forall|i: int, j: int| 0 <= i < j < chain.len() ==> chain[i] != chain[j])
            &&& (forall|i: int|
                0 <= i < chain.len() ==> listing_forced_spec(nodes, policy).contains(
                    #[trigger] chain[i],
                ))
        }),
{
    collect::lemma_collect_entry_paths(
        nodes,
        Seq::empty(),
        1,
        resolve_depth_spec(policy.max_depth, policy.pattern is Some) as nat,
        policy.show_hidden,
    );
    search::law_ancestor_forcing(
        listing_entries_spec(nodes, policy),
        lower_of(policy.pattern->Some_0@),
        k,
    );
}

/// Line-count correctness for a whole run: the rendered lines, the root
/// marker aside, are exactly as many as the entries the visibility rule
/// admits.
pub proof fn law_listing_line_count(nodes: Seq<Node>, policy: RenderPolicy)
    ensures
        listing_visible_spec(nodes, policy).len() == render::count_visible(
            listing_entries_spec(nodes, policy),
            folded_pattern_spec(policy),
            listing_forced_spec(nodes, policy),
        ),
{
    render::law_rendered_line_count(
        listing_entries_spec(nodes, policy),
        folded_pattern_spec(policy),
        listing_forced_spec(nodes, policy),
    );
}

} // verus!
