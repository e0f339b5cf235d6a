//! The tree renderer: decides per-entry visibility under the search
//! pattern and the forced-visible set, and produces one indented text
//! line per visible entry, after a root marker line. Colour is purely
//! cosmetic: it wraps name and size in escape marks and never changes
//! which lines come out nor their text.
use vstd::prelude::*;

use crate::entry::{views_of, Entry, EntryView};
use crate::search::PathSet;
use crate::text::{contains_text, extend_text, name_matches, name_matches_spec};
use colored::Colorize;

verus! {

/// The continuation glyph written once per level above the parent.
pub open spec fn bar_glyph() -> Seq<char> {
    seq!['|', ' ', ' ']
}

/// The branch glyph written just before a nested entry's name.
pub open spec fn branch_glyph() -> Seq<char> {
    seq!['├', '─', ' ']
}

/// The root marker line anchoring every render.
pub open spec fn root_marker() -> Seq<char> {
    seq!['.']
}

pub open spec fn repeat_text(s: Seq<char>, k: nat) -> Seq<char>
    decreases k,
{
    if k == 0 {
        Seq::empty()
    } else {
        s + repeat_text(s, (k - 1) as nat)
    }
}

pub proof fn lemma_repeat_snoc(s: Seq<char>, k: nat)
    ensures
        repeat_text(s, k) + s == repeat_text(s, k + 1),
    decreases k,
{
    if k == 0 {
        assert(repeat_text(s, 0) + s =~= s);
        assert(repeat_text(s, 1) =~= s + Seq::empty());
        assert(s + Seq::empty() =~= s);
    } else {
        lemma_repeat_snoc(s, (k - 1) as nat);
        assert((s + repeat_text(s, (k - 1) as nat)) + s =~= s + (repeat_text(s, (k - 1) as nat)
            + s));
    }
}

/// The indentation of an entry: nothing at depth 1, else one bar per
/// level between root child and parent, then the branch glyph.
pub open spec fn indent_spec(d: nat) -> Seq<char> {
    if d <= 1 {
        Seq::empty()
    } else {
        repeat_text(bar_glyph(), (d - 2) as nat) + branch_glyph()
    }
}

/// Builds the indentation prefix for a depth.
pub fn indent_of(depth: usize) -> (v: Vec<char>)
    ensures
        v@ == indent_spec(depth as nat),
{
    let mut v: Vec<char> = Vec::new();
    if depth <= 1 {
        return v;
    }
    let mut k: usize = 0;
    proof {
        assert(v@ =~= repeat_text(bar_glyph(), 0));
    }
    while k < depth - 2
        invariant
            depth >= 2,
            k <= depth - 2,
            v@ == repeat_text(bar_glyph(), k as nat),
        decreases depth - 2 - k,
    {
        v.push('|');
        v.push(' ');
        v.push(' ');
        proof {
            lemma_repeat_snoc(bar_glyph(), k as nat);
            assert(v@ =~= repeat_text(bar_glyph(), k as nat) + bar_glyph());
        }
        k += 1;
    }
    v.push('├');
    v.push('─');
    v.push(' ');
    proof {
        assert(v@ =~= repeat_text(bar_glyph(), (depth - 2) as nat) + branch_glyph());
    }
    v
}

/// What `humansize::format_size` labels a byte count as, under decimal
/// scaling: a function of the count alone.
pub uninterp spec fn size_label_of(n: u64) -> Seq<char>;

/// No escape character anywhere in the text.
pub open spec fn no_escape(s: Seq<char>) -> bool {
    forall|i: int| 0 <= i < s.len() ==> s[i] != '\u{1b}'
}

/// Relies on `humansize::format_size` with the `DECIMAL` options: the
/// label depends on the byte count alone, and is built of digits, a dot,
/// a space and unit letters, so it holds no escape character.
#[verifier::external_body]
fn size_label(n: u64) -> (r: Vec<char>)
    ensures
        r@ == size_label_of(n),
        no_escape(r@),
{
    humansize::format_size(n, humansize::DECIMAL).chars().collect()
}

/// The mark colored ends a painted text with.
pub open spec fn reset_mark() -> Seq<char> {
    seq!['\u{1b}', '[', '0', 'm']
}

/// A text wrapped in a foreground-colour escape and the reset mark.
pub open spec fn color_wrap(code: Seq<char>, s: Seq<char>) -> Seq<char> {
    seq!['\u{1b}', '['] + code + seq!['m'] + s + reset_mark()
}

/// Foreground code for directory names.
pub open spec fn blue_code() -> Seq<char> {
    seq!['3', '4']
}

/// Foreground code for file names.
pub open spec fn green_code() -> Seq<char> {
    seq!['3', '2']
}

/// Foreground code for size labels.
pub open spec fn yellow_code() -> Seq<char> {
    seq!['3', '3']
}

/// Relies on colored's `Colorize::blue` and `ColoredString`'s `Display`:
/// the text comes back unchanged (colour off) or wrapped in the blue
/// foreground escape and the reset (colour on). colored rewrites a reset
/// mark inside the text, so nothing is claimed of one that holds it.
#[verifier::external_body]
fn paint_blue(s: &Vec<char>) -> (r: Vec<char>)
    ensures
        !contains_text(s@, reset_mark()) ==> (r@ == s@ || r@ == color_wrap(blue_code(), s@)),
{
    let owned: String = s.iter().collect();
    owned.as_str().blue().to_string().chars().collect()
}

/// Relies on colored's `Colorize::green` and `ColoredString`'s `Display`,
/// as `paint_blue` does on blue.
#[verifier::external_body]
fn paint_green(s: &Vec<char>) -> (r: Vec<char>)
    ensures
        !contains_text(s@, reset_mark()) ==> (r@ == s@ || r@ == color_wrap(green_code(), s@)),
{
    let owned: String = s.iter().collect();
    owned.as_str().green().to_string().chars().collect()
}

/// Relies on colored's `Colorize::yellow` and `ColoredString`'s `Display`,
/// as `paint_blue` does on blue.
#[verifier::external_body]
fn paint_yellow(s: &Vec<char>) -> (r: Vec<char>)
    ensures
        !contains_text(s@, reset_mark()) ==> (r@ == s@ || r@ == color_wrap(yellow_code(), s@)),
{
    let owned: String = s.iter().collect();
    owned.as_str().yellow().to_string().chars().collect()
}

/// A directory line ends with the separator; a file line with the size
/// label in parentheses.
pub open spec fn line_plain(ev: EntryView) -> Seq<char> {
    if ev.is_directory {
        indent_spec(ev.depth) + ev.name + seq!['/']
    } else {
        indent_spec(ev.depth) + ev.name + seq![' ', '('] + size_label_of(ev.size_bytes) + seq![')']
    }
}

/// A possibly painted piece: the text itself, or the text wrapped in the
/// given colour.
pub open spec fn painted(a: Seq<char>, s: Seq<char>, code: Seq<char>) -> bool {
    a == s || a == color_wrap(code, s)
}

/// What a coloured line may be: the plain parts, with name and size each
/// painted or not.
pub open spec fn color_line_ok(l: Seq<char>, ev: EntryView) -> bool {
    if ev.is_directory {
        exists|nm: Seq<char>|
            painted(nm, ev.name, blue_code()) && l == indent_spec(ev.depth) + nm + seq!['/']
    } else {
        exists|nm: Seq<char>, sz: Seq<char>|
            painted(nm, ev.name, green_code()) && painted(sz, size_label_of(ev.size_bytes), yellow_code())
                && l == indent_spec(ev.depth) + nm + seq![' ', '('] + sz + seq![')']
    }
}

/// The view of an optional pattern.
pub open spec fn opt_text_view(p: Option<Vec<char>>) -> Option<Seq<char>> {
    match p {
        None => None,
        Some(v) => Some(v@),
    }
}

/// The visibility rule: everything is visible without a pattern; with
/// one, an entry shows when its folded name holds the folded pattern or
/// its path was forced visible as an ancestor of a match.
pub open spec fn visible_spec(ev: EntryView, pattern: Option<Seq<char>>, forced: Set<Seq<char>>) -> bool {
    match pattern {
        None => true,
        Some(fp) => name_matches_spec(ev.name, fp) || forced.contains(ev.path),
    }
}

/// The visible entries, in collector order.
pub open spec fn visible_entries(
    entries: Seq<EntryView>,
    pattern: Option<Seq<char>>,
    forced: Set<Seq<char>>,
) -> Seq<EntryView>
    decreases entries,
{
    if entries.len() == 0 {
        Seq::empty()
    } else {
        (if visible_spec(entries[0], pattern, forced) {
            seq![entries[0]]
        } else {
            Seq::empty()
        }) + visible_entries(entries.drop_first(), pattern, forced)
    }
}

pub proof fn lemma_visible_concat(
    a: Seq<EntryView>,
    b: Seq<EntryView>,
    pattern: Option<Seq<char>>,
    forced: Set<Seq<char>>,
)
    ensures
        visible_entries(a + b, pattern, forced) == visible_entries(a, pattern, forced)
            + visible_entries(b, pattern, forced),
    decreases a,
{
    if a.len() == 0 {
        assert(a + b =~= b);
        assert(visible_entries(a, pattern, forced) + visible_entries(b, pattern, forced)
            =~= visible_entries(b, pattern, forced));
    } else {
        assert((a + b)[0] == a[0]);
        assert((a + b).drop_first() =~= a.drop_first() + b);
        lemma_visible_concat(a.drop_first(), b, pattern, forced);
        assert(visible_entries(a + b, pattern, forced) =~= visible_entries(a, pattern, forced)
            + visible_entries(b, pattern, forced));
    }
}

pub proof fn lemma_visible_single(ev: EntryView, pattern: Option<Seq<char>>, forced: Set<Seq<char>>)
    ensures
        visible_entries(seq![ev], pattern, forced) == if visible_spec(ev, pattern, forced) {
            seq![ev]
        } else {
            Seq::<EntryView>::empty()
        },
{
    assert(seq![ev].drop_first() =~= Seq::<EntryView>::empty());
    assert(visible_entries(Seq::<EntryView>::empty(), pattern, forced) == Seq::<
        EntryView,
    >::empty());
    assert(visible_entries(seq![ev], pattern, forced) =~= if visible_spec(ev, pattern, forced) {
        seq![ev]
    } else {
        Seq::<EntryView>::empty()
    });
}

/// Renders one entry's line: the indentation, then the name, then the
/// separator suffix for a directory or the size label in parentheses for
/// a file. With colour on, the name and the size label are painted.
pub fn output_line(e: &Entry, use_color: bool) -> (l: Vec<char>)
    ensures
        !use_color ==> l@ == line_plain(e@),
        use_color ==> !contains_text(e@.name, reset_mark()) ==> color_line_ok(l@, e@),
{
    if e.is_directory {
        let name_piece = if use_color {
            paint_blue(&e.name)
        } else {
            crate::text::copy_text(&e.name)
        };
        let mut l = indent_of(e.depth);
        extend_text(&mut l, &name_piece);
        l.push('/');
        proof {
            let ev = e@;
            if !use_color {
                assert(l@ =~= line_plain(ev));
            } else if !contains_text(ev.name, reset_mark()) {
                assert(painted(name_piece@, ev.name, blue_code()));
                assert(l@ =~= indent_spec(ev.depth) + name_piece@ + seq!['/']);
                assert(color_line_ok(l@, ev));
            }
        }
        l
    } else {
        let name_piece = if use_color {
            paint_green(&e.name)
        } else {
            crate::text::copy_text(&e.name)
        };
        let label = size_label(e.size_bytes);
        let size_piece = if use_color {
            paint_yellow(&label)
        } else {
            label
        };
        let mut l = indent_of(e.depth);
        extend_text(&mut l, &name_piece);
        l.push(' ');
        l.push('(');
        extend_text(&mut l, &size_piece);
        l.push(')');
        proof {
            let ev = e@;
            lemma_no_escape_no_reset(size_label_of(ev.size_bytes));
            if !use_color {
                assert(l@ =~= line_plain(ev));
            } else if !contains_text(ev.name, reset_mark()) {
                assert(painted(name_piece@, ev.name, green_code()));
                assert(painted(size_piece@, size_label_of(ev.size_bytes), yellow_code()));
                assert(l@ =~= indent_spec(ev.depth) + name_piece@ + seq![' ', '('] + size_piece@
                    + seq![')']);
                assert(color_line_ok(l@, ev));
            }
        }
        l
    }
}

/// Renders the tree: the root marker line, then one line per visible
/// entry, in order. Without colour each line is exactly its plain text;
/// with colour each line is its plain parts with name and size possibly
/// wrapped, identical otherwise.
pub fn output_tree(
    entries: &Vec<Entry>,
    forced: &PathSet,
    pattern: &Option<Vec<char>>,
    use_color: bool,
) -> (lines: Vec<Vec<char>>)
    ensures
        ({
            let vis = visible_entries(views_of(entries@), opt_text_view(*pattern), forced@);
            &&& lines@.len() == vis.len() + 1
            &&& lines@[0]@ == root_marker()
            &&& (!use_color ==> forall|i: int|
                0 <= i < vis.len() ==> (#[trigger] lines@[i + 1])@ == line_plain(vis[i]))
            &&& (use_color ==> forall|i: int|
                0 <= i < vis.len() ==> !contains_text((#[trigger] vis[i]).name, reset_mark())
                    ==> color_line_ok(lines@[i + 1]@, vis[i]))
        }),
{
    let ghost evs = views_of(entries@);
    let ghost pat = opt_text_view(*pattern);
    let mut lines: Vec<Vec<char>> = Vec::new();
    let mut root: Vec<char> = Vec::new();
    root.push('.');
    proof {
        assert(root@ =~= root_marker());
    }
    lines.push(root);
    let mut k: usize = 0;
    proof {
        assert(visible_entries(evs.take(0), pat, forced@) =~= Seq::<EntryView>::empty());
    }
    while k < entries.len()
        invariant
            k <= entries.len(),
            evs == views_of(entries@),
            evs.len() == entries@.len(),
            pat == opt_text_view(*pattern),
            ({
                let vis = visible_entries(evs.take(k as int), pat, forced@);
                &&& lines@.len() == vis.len() + 1
                &&& lines@[0]@ == root_marker()
                &&& (!use_color ==> forall|i: int|
                    0 <= i < vis.len() ==> (#[trigger] lines@[i + 1])@ == line_plain(vis[i]))
                &&& (use_color ==> forall|i: int|
                    0 <= i < vis.len() ==> !contains_text((#[trigger] vis[i]).name, reset_mark())
                        ==> color_line_ok(lines@[i + 1]@, vis[i]))
            }),
        decreases entries.len() - k,
    {
        let ghost done = evs.take(k as int);
        let e = &entries[k];
        proof {
            assert(evs[k as int] == entries@[k as int]@);
        }
        let show = match pattern {
            None => true,
            Some(fp) => {
                if name_matches(&e.name, fp) {
                    true
                } else {
                    forced.member(&e.path)
                }
            },
        };
        proof {
            assert(show == visible_spec(evs[k as int], pat, forced@));
        }
        if show {
            let line = output_line(e, use_color);
            lines.push(line);
        }
        proof {
            assert(evs.take(k + 1) =~= done + seq![evs[k as int]]);
            lemma_visible_concat(done, seq![evs[k as int]], pat, forced@);
            lemma_visible_single(evs[k as int], pat, forced@);
            let vis = visible_entries(evs.take(k + 1), pat, forced@);
            let old_vis = visible_entries(done, pat, forced@);
            if visible_spec(evs[k as int], pat, forced@) {
                assert(vis =~= old_vis.push(evs[k as int]));
            } else {
                assert(vis =~= old_vis);
            }
        }
        k += 1;
    }
    proof {
        assert(evs.take(evs.len() as int) =~= evs);
    }
    lines
}

/// A text without the escape character holds no reset mark.
pub proof fn lemma_no_escape_no_reset(s: Seq<char>)
    requires
        no_escape(s),
    ensures
        !contains_text(s, reset_mark()),
{
    if contains_text(s, reset_mark()) {
        let i = choose|i: int| crate::text::matches_at(s, reset_mark(), i);
        assert(s.subrange(i, i + 4)[0] == '\u{1b}');
        assert(s[i] == '\u{1b}');
    }
}

/// How many entries the visibility rule admits.
pub open spec fn count_visible(
    entries: Seq<EntryView>,
    pattern: Option<Seq<char>>,
    forced: Set<Seq<char>>,
) -> nat
    decreases entries,
{
    if entries.len() == 0 {
        0
    } else {
        (if visible_spec(entries[0], pattern, forced) {
            1nat
        } else {
            0nat
        }) + count_visible(entries.drop_first(), pattern, forced)
    }
}

/// The rendered lines, the root marker aside, are exactly as many as the
/// entries the visibility rule admits.
pub proof fn law_rendered_line_count(
    entries: Seq<EntryView>,
    pattern: Option<Seq<char>>,
    forced: Set<Seq<char>>,
)
    ensures
        visible_entries(entries, pattern, forced).len() == count_visible(entries, pattern, forced),
    decreases entries,
{
    if entries.len() > 0 {
        law_rendered_line_count(entries.drop_first(), pattern, forced);
    }
}

/// Index of the first `m`, or -1 when there is none.
pub open spec fn first_m(s: Seq<char>) -> int
    decreases s.len(),
{
    if s.len() == 0 {
        -1
    } else if s[0] == 'm' {
        0
    } else if first_m(s.drop_first()) < 0 {
        -1
    } else {
        1 + first_m(s.drop_first())
    }
}

pub proof fn lemma_first_m(s: Seq<char>)
    ensures
        -1 <= first_m(s) < s.len(),
        first_m(s) >= 0 ==> s[first_m(s)] == 'm',
        forall|k: int| 0 <= k < first_m(s) ==> s[k] != 'm',
        first_m(s) == -1 ==> forall|k: int| 0 <= k < s.len() ==> s[k] != 'm',
    decreases s.len(),
{
    if s.len() > 0 && s[0] != 'm' {
        lemma_first_m(s.drop_first());
        assert forall|k: int| 0 <= k < first_m(s) implies s[k] != 'm' by {
            if k > 0 {
                assert(s.drop_first()[k - 1] == s[k]);
            }
        }
        if first_m(s) == -1 {
            assert forall|k: int| 0 <= k < s.len() implies s[k] != 'm' by {
                if k > 0 {
                    assert(s.drop_first()[k - 1] == s[k]);
                }
            }
        }
    }
}

pub proof fn lemma_first_m_at(s: Seq<char>, k: int)
    requires
        0 <= k < s.len(),
        s[k] == 'm',
        forall|i: int| 0 <= i < k ==> s[i] != 'm',
    ensures
        first_m(s) == k,
    decreases s.len(),
{
    if k > 0 {
        assert(forall|i: int| 0 <= i < s.len() - 1 ==> s.drop_first()[i] == s[i + 1]);
        lemma_first_m_at(s.drop_first(), k - 1);
    }
}

/// The text with every colour escape (an escape character up to and
/// including the next `m`) removed.
pub open spec fn strip_colors(s: Seq<char>) -> Seq<char>
    decreases s.len(),
    via strip_colors_decreases
{
    if s.len() == 0 {
        s
    } else if s[0] == '\u{1b}' {
        if first_m(s) < 0 {
            Seq::empty()
        } else {
            strip_colors(s.subrange(first_m(s) + 1, s.len() as int))
        }
    } else {
        seq![s[0]] + strip_colors(s.drop_first())
    }
}

#[via_fn]
proof fn strip_colors_decreases(s: Seq<char>) {
    lemma_first_m(s);
}

/// Stripping leaves an escape-free text alone.
pub proof fn lemma_strip_id(s: Seq<char>)
    requires
        no_escape(s),
    ensures
        strip_colors(s) == s,
    decreases s.len(),
{
    if s.len() > 0 {
        assert(s[0] != '\u{1b}');
        lemma_strip_id(s.drop_first());
        assert(seq![s[0]] + s.drop_first() =~= s);
    }
}

/// Stripping passes an escape-free head through.
pub proof fn lemma_strip_concat(a: Seq<char>, b: Seq<char>)
    requires
        no_escape(a),
    ensures
        strip_colors(a + b) == a + strip_colors(b),
    decreases a.len(),
{
    if a.len() == 0 {
        assert(a + b =~= b);
        assert(a + strip_colors(b) =~= strip_colors(b));
    } else {
        assert((a + b)[0] == a[0]);
        assert((a + b).drop_first() =~= a.drop_first() + b);
        lemma_strip_concat(a.drop_first(), b);
        assert(seq![a[0]] + (a.drop_first() + strip_colors(b)) =~= a + strip_colors(b));
    }
}

/// Stripping removes a leading escape mark whole.
pub proof fn lemma_strip_escape(code: Seq<char>, t: Seq<char>)
    requires
        forall|i: int| 0 <= i < code.len() ==> code[i] != 'm',
    ensures
        strip_colors(seq!['\u{1b}', '['] + code + seq!['m'] + t) == strip_colors(t),
{
    let s = seq!['\u{1b}', '['] + code + seq!['m'] + t;
    assert(s[0] == '\u{1b}');
    assert(s[code.len() as int + 2] == 'm');
    assert(forall|i: int| 0 <= i < code.len() as int + 2 ==> s[i] != 'm') by {
        assert(forall|i: int| 2 <= i < code.len() as int + 2 ==> s[i] == code[i - 2]);
    }
    lemma_first_m_at(s, code.len() as int + 2);
    assert(s.subrange(code.len() as int + 3, s.len() as int) =~= t);
}

/// Stripping a painted piece and its continuation yields the bare text
/// and the stripped continuation.
pub proof fn lemma_strip_painted(a: Seq<char>, s: Seq<char>, code: Seq<char>, t: Seq<char>)
    requires
        painted(a, s, code),
        no_escape(s),
        forall|i: int| 0 <= i < code.len() ==> code[i] != 'm',
    ensures
        strip_colors(a + t) == s + strip_colors(t),
{
    if a == s {
        lemma_strip_concat(s, t);
    } else {
        assert(a + t =~= seq!['\u{1b}', '['] + code + seq!['m'] + (s + (reset_mark() + t)));
        lemma_strip_escape(code, s + (reset_mark() + t));
        lemma_strip_concat(s, reset_mark() + t);
        assert(reset_mark() + t =~= seq!['\u{1b}', '['] + seq!['0'] + seq!['m'] + t);
        lemma_strip_escape(seq!['0'], t);
    }
}

pub proof fn lemma_repeat_no_escape(s: Seq<char>, k: nat)
    requires
        no_escape(s),
    ensures
        no_escape(repeat_text(s, k)),
    decreases k,
{
    if k > 0 {
        lemma_repeat_no_escape(s, (k - 1) as nat);
    }
}

/// The indentation glyphs hold no escape character.
pub proof fn lemma_indent_no_escape(d: nat)
    ensures
        no_escape(indent_spec(d)),
{
    if d > 1 {
        lemma_repeat_no_escape(bar_glyph(), (d - 2) as nat);
    }
}

/// Colour is cosmetic: stripping the escapes from a coloured line gives
/// exactly the plain line, for a name and size label free of escape
/// characters of their own.
pub proof fn law_color_cosmetic(l: Seq<char>, ev: EntryView)
    requires
        color_line_ok(l, ev),
        no_escape(ev.name),
        no_escape(size_label_of(ev.size_bytes)),
    ensures
        strip_colors(l) == line_plain(ev),
{
    lemma_indent_no_escape(ev.depth);
    let ind = indent_spec(ev.depth);
    if ev.is_directory {
        let nm = choose|nm: Seq<char>|
            painted(nm, ev.name, blue_code()) && l == ind + nm + seq!['/'];
        assert(l =~= ind + (nm + seq!['/']));
        lemma_strip_concat(ind, nm + seq!['/']);
        lemma_strip_painted(nm, ev.name, blue_code(), seq!['/']);
        lemma_strip_id(seq!['/']);
        assert(strip_colors(l) =~= line_plain(ev));
    } else {
        let (nm, sz) = choose|nm: Seq<char>, sz: Seq<char>|
            painted(nm, ev.name, green_code()) && painted(
                sz,
                size_label_of(ev.size_bytes),
                yellow_code(),
            ) && l == ind + nm + seq![' ', '('] + sz + seq![')'];
        let tail = seq![' ', '('] + (sz + seq![')']);
        assert(l =~= ind + (nm + tail));
        lemma_strip_concat(ind, nm + tail);
        lemma_strip_painted(nm, ev.name, green_code(), tail);
        lemma_strip_concat(seq![' ', '('], sz + seq![')']);
        lemma_strip_painted(sz, size_label_of(ev.size_bytes), yellow_code(), seq![')']);
        lemma_strip_id(seq![')']);
        assert(strip_colors(l) =~= line_plain(ev));
    }
}

} // verus!
