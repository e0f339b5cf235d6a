use treevis::collect::{collect_entries, resolve_depth, Node};
use treevis::entry::Entry;
use treevis::render::output_line;
use treevis::render::output_tree;
use treevis::search::{forced_ancestors, parent_path, PathSet};
use treevis::text::{is_hidden, name_matches, text_contains};
use treevis::{render_listing, RenderPolicy};

fn t(s: &str) -> Vec<char> {
    s.chars().collect()
}

fn s(v: &Vec<char>) -> String {
    v.iter().collect()
}

fn lines_to_strings(lines: &Vec<Vec<char>>) -> Vec<String> {
    lines.iter().map(|l| l.iter().collect()).collect()
}

fn file(name: &str, size: u64) -> Node {
    Node { name: t(name), is_directory: false, size_bytes: size, children: vec![] }
}

fn dir(name: &str, children: Vec<Node>) -> Node {
    Node { name: t(name), is_directory: true, size_bytes: 0, children }
}

fn strip_escapes(line: &str) -> String {
    let mut out = String::new();
    let mut chars = line.chars();
    while let Some(c) = chars.next() {
        if c == '\u{1b}' {
            for d in chars.by_ref() {
                if d == 'm' {
                    break;
                }
            }
        } else {
            out.push(c);
        }
    }
    out
}

#[test]
fn hidden_names() {
    assert!(is_hidden(&t(".git")));
    assert!(is_hidden(&t(".a")));
    assert!(!is_hidden(&t(".")));
    assert!(!is_hidden(&t("..")));
    assert!(is_hidden(&t("...")));
    assert!(!is_hidden(&t("a.txt")));
    assert!(!is_hidden(&t("")));
}

#[test]
fn substring_containment() {
    assert!(text_contains(&t("hello"), &t("ell")));
    assert!(text_contains(&t("hello"), &t("")));
    assert!(text_contains(&t(""), &t("")));
    assert!(!text_contains(&t("hello"), &t("world")));
    assert!(!text_contains(&t("ab"), &t("abc")));
    assert!(text_contains(&t("aaab"), &t("aab")));
}

#[test]
fn case_insensitive_matching() {
    assert!(name_matches(&t("README.TXT"), &t("readme")));
    assert!(name_matches(&t("MiXeD"), &t("xed")));
    assert!(!name_matches(&t("abc"), &t("abd")));
}

#[test]
fn depth_resolution() {
    assert_eq!(resolve_depth(0, false), usize::MAX);
    assert_eq!(resolve_depth(0, true), usize::MAX);
    assert_eq!(resolve_depth(1, true), usize::MAX);
    assert_eq!(resolve_depth(1, false), 1);
    assert_eq!(resolve_depth(3, true), 3);
    assert_eq!(resolve_depth(5, false), 5);
}

#[test]
fn collect_orders_and_paths() {
    let forest = vec![
        file("a.txt", 4),
        dir("sub", vec![file("b.txt", 7), dir("deep", vec![file("c.txt", 1)])]),
    ];
    let entries = collect_entries(&forest, true, usize::MAX);
    let got: Vec<(String, usize, bool)> =
        entries.iter().map(|e| (s(&e.path), e.depth, e.is_directory)).collect();
    assert_eq!(
        got,
        vec![
            ("a.txt".to_string(), 1, false),
            ("sub".to_string(), 1, true),
            ("sub/b.txt".to_string(), 2, false),
            ("sub/deep".to_string(), 2, true),
            ("sub/deep/c.txt".to_string(), 3, false),
        ]
    );
}

#[test]
fn depth_bound_cuts_below() {
    let forest = vec![dir("sub", vec![file("b.txt", 7), dir("deep", vec![file("c.txt", 1)])])];
    let entries = collect_entries(&forest, true, 2);
    let paths: Vec<String> = entries.iter().map(|e| s(&e.path)).collect();
    assert_eq!(paths, vec!["sub", "sub/b.txt", "sub/deep"]);
    assert!(entries.iter().all(|e| e.depth <= 2));
    let all = collect_entries(&forest, true, usize::MAX);
    assert_eq!(all.len(), 4);
}

#[test]
fn hidden_directory_pruned_whole() {
    let forest = vec![dir(".hidden", vec![file("plain.txt", 3)]), file("seen.txt", 2)];
    let entries = collect_entries(&forest, false, usize::MAX);
    let paths: Vec<String> = entries.iter().map(|e| s(&e.path)).collect();
    assert_eq!(paths, vec!["seen.txt"]);
    let with_hidden = collect_entries(&forest, true, usize::MAX);
    let paths2: Vec<String> = with_hidden.iter().map(|e| s(&e.path)).collect();
    assert_eq!(paths2, vec![".hidden", ".hidden/plain.txt", "seen.txt"]);
}

#[test]
fn forced_set_holds_every_ancestor_once() {
    let forest = vec![dir(
        "one",
        vec![dir("two", vec![dir("three", vec![file("target.txt", 9)])])],
    )];
    let entries = collect_entries(&forest, true, usize::MAX);
    let forced = forced_ancestors(&entries, &t("target"));
    assert!(forced.member(&t("one")));
    assert!(forced.member(&t("one/two")));
    assert!(forced.member(&t("one/two/three")));
    assert!(!forced.member(&t("one/two/three/target.txt")));
    assert_eq!(forced.items.len(), 3);
}

#[test]
fn propagation_same_input_same_set() {
    let forest = vec![dir("sub", vec![file("b.txt", 7)]), file("bee.txt", 1)];
    let entries = collect_entries(&forest, true, usize::MAX);
    let first = forced_ancestors(&entries, &t("b"));
    let second = forced_ancestors(&entries, &t("b"));
    let mut a: Vec<String> = first.items.iter().map(|p| s(p)).collect();
    let mut b: Vec<String> = second.items.iter().map(|p| s(p)).collect();
    a.sort();
    b.sort();
    assert_eq!(a, b);
    assert_eq!(a, vec!["sub"]);
}

#[test]
fn no_pattern_renders_every_entry() {
    let forest = vec![file("a.txt", 4), dir("sub", vec![file("b.txt", 7)])];
    let entries = collect_entries(&forest, true, usize::MAX);
    let forced = PathSet::empty();
    let lines = output_tree(&entries, &forced, &None, false);
    assert_eq!(lines.len(), entries.len() + 1);
    assert_eq!(s(&lines[0]), ".");
}

#[test]
fn size_label_decimal_scaling() {
    let forest = vec![file("big.bin", 1000), file("small.bin", 999)];
    let entries = collect_entries(&forest, true, 1);
    let forced = PathSet::empty();
    let lines = lines_to_strings(&output_tree(&entries, &forced, &None, false));
    assert_eq!(lines, vec![".", "big.bin (1 kB)", "small.bin (999 B)"]);
}

#[test]
fn indentation_by_depth() {
    let forest = vec![dir("a", vec![dir("b", vec![file("c.txt", 1)])])];
    let entries = collect_entries(&forest, true, usize::MAX);
    let forced = PathSet::empty();
    let lines = lines_to_strings(&output_tree(&entries, &forced, &None, false));
    assert_eq!(lines, vec![".", "a/", "├─ b/", "|  ├─ c.txt (1 B)"]);
}

#[test]
fn search_forces_ancestors_and_hides_misses() {
    // A fixture with `a.txt` at depth 1 and `sub/b.txt` at depth 2: the
    // single-level default plus a pattern searches every level, keeps the
    // match and its forced ancestor, and omits the miss.
    let forest = vec![file("a.txt", 4), dir("sub", vec![file("b.txt", 7)])];
    let policy = RenderPolicy {
        show_hidden: false,
        max_depth: 1,
        pattern: Some(t("b")),
        use_color: false,
    };
    let lines = lines_to_strings(&render_listing(&forest, &policy));
    assert_eq!(lines, vec![".", "sub/", "├─ b.txt (7 B)"]);
}

#[test]
fn depth_one_without_search_stays_shallow() {
    let forest = vec![file("a.txt", 4), dir("sub", vec![file("b.txt", 7)])];
    let policy = RenderPolicy { show_hidden: false, max_depth: 1, pattern: None, use_color: false };
    let lines = lines_to_strings(&render_listing(&forest, &policy));
    assert_eq!(lines, vec![".", "a.txt (4 B)", "sub/"]);
}

#[test]
fn empty_root_renders_only_the_marker() {
    let forest: Vec<Node> = vec![];
    for show_hidden in [false, true] {
        for max_depth in [0usize, 1, 5] {
            for pattern in [None, Some(t("x"))] {
                let policy = RenderPolicy {
                    show_hidden,
                    max_depth,
                    pattern: pattern.clone(),
                    use_color: false,
                };
                let lines = lines_to_strings(&render_listing(&forest, &policy));
                assert_eq!(lines, vec!["."]);
            }
        }
    }
}

#[test]
fn uppercase_pattern_folded_before_matching() {
    let forest = vec![file("notes.txt", 4)];
    let policy = RenderPolicy {
        show_hidden: false,
        max_depth: 1,
        pattern: Some(t("NOTES")),
        use_color: false,
    };
    let lines = lines_to_strings(&render_listing(&forest, &policy));
    assert_eq!(lines, vec![".", "notes.txt (4 B)"]);
}

#[test]
fn color_is_cosmetic() {
    let forest = vec![file("a.txt", 4), dir("sub", vec![file("b.txt", 1000)])];
    let policy_plain =
        RenderPolicy { show_hidden: false, max_depth: 0, pattern: None, use_color: false };
    let policy_color =
        RenderPolicy { show_hidden: false, max_depth: 0, pattern: None, use_color: true };

    colored::control::set_override(true);
    let colored_lines = lines_to_strings(&render_listing(&forest, &policy_color));
    colored::control::unset_override();
    let plain_lines = lines_to_strings(&render_listing(&forest, &policy_plain));

    assert_eq!(colored_lines.len(), plain_lines.len());
    let stripped: Vec<String> = colored_lines.iter().map(|l| strip_escapes(l)).collect();
    assert_eq!(stripped, plain_lines);
    // With colour forced on, the name really is wrapped.
    assert!(colored_lines[1].contains('\u{1b}'));
    assert_eq!(colored_lines[1], format!("\u{1b}[32ma.txt\u{1b}[0m (\u{1b}[33m4 B\u{1b}[0m)"));
    assert_eq!(colored_lines[2], format!("\u{1b}[34msub\u{1b}[0m/"));
    assert_eq!(
        colored_lines[3],
        format!("├─ \u{1b}[32mb.txt\u{1b}[0m (\u{1b}[33m1 kB\u{1b}[0m)")
    );
}

#[test]
fn color_disabled_without_override() {
    colored::control::set_override(false);
    let forest = vec![file("a.txt", 4)];
    let policy = RenderPolicy { show_hidden: false, max_depth: 1, pattern: None, use_color: true };
    let lines = lines_to_strings(&render_listing(&forest, &policy));
    colored::control::unset_override();
    assert_eq!(lines, vec![".", "a.txt (4 B)"]);
}

#[test]
fn hidden_file_shown_only_with_flag() {
    let forest = vec![file(".config", 8), file("plain", 8)];
    let hide = RenderPolicy { show_hidden: false, max_depth: 1, pattern: None, use_color: false };
    let show = RenderPolicy { show_hidden: true, max_depth: 1, pattern: None, use_color: false };
    assert_eq!(lines_to_strings(&render_listing(&forest, &hide)), vec![".", "plain (8 B)"]);
    assert_eq!(
        lines_to_strings(&render_listing(&forest, &show)),
        vec![".", ".config (8 B)", "plain (8 B)"]
    );
}

#[test]
fn single_line_shapes() {
    let d = Entry { name: t("sub"), path: t("sub"), depth: 1, is_directory: true, size_bytes: 0 };
    assert_eq!(s(&output_line(&d, false)), "sub/");
    let f = Entry {
        name: t("b.txt"),
        path: t("sub/b.txt"),
        depth: 2,
        is_directory: false,
        size_bytes: 7,
    };
    assert_eq!(s(&output_line(&f, false)), "├─ b.txt (7 B)");
    let deep = Entry {
        name: t("c"),
        path: t("x/y/z/c"),
        depth: 4,
        is_directory: false,
        size_bytes: 0,
    };
    assert_eq!(s(&output_line(&deep, false)), "|  |  ├─ c (0 B)");
}

#[test]
fn parent_chain_decomposition() {
    assert_eq!(parent_path(&t("a/b/c")).map(|q| s(&q)), Some("a/b".to_string()));
    assert_eq!(parent_path(&t("a/b")).map(|q| s(&q)), Some("a".to_string()));
    assert_eq!(parent_path(&t("a")), None);
    assert_eq!(parent_path(&t("")), None);
}

#[test]
fn path_set_holds_members_once() {
    let mut set = PathSet::empty();
    assert!(!set.member(&t("a")));
    set.add(t("a"));
    set.add(t("b/c"));
    set.add(t("a"));
    assert!(set.member(&t("a")));
    assert!(set.member(&t("b/c")));
    assert!(!set.member(&t("b")));
    assert_eq!(set.items.len(), 2);
}
