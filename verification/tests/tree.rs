use cart::tree::Tree;

fn tree(records: &[(&str, &str)]) -> Tree {
    let mut tree = Tree::new();
    for (text, tenant) in records {
        assert!(tree.has_room());
        tree.insert(text, tenant);
    }
    tree
}

fn matches(tree: &Tree, text: &str) -> (Option<String>, usize, usize) {
    let m = tree.prefix_match_with_counts(text);
    (m.tenant, m.matched_char_count, m.input_char_count)
}

fn to(tenant: &str) -> Option<String> {
    Some(tenant.to_string())
}

#[test]
fn an_empty_tree_matches_nothing() {
    let t = tree(&[]);
    assert_eq!(matches(&t, "hello"), (None, 0, 5));
    assert_eq!(matches(&t, ""), (None, 0, 0));
}

#[test]
fn a_recorded_text_matches_as_a_whole() {
    let t = tree(&[("hello world", "a")]);
    assert_eq!(matches(&t, "hello world"), (to("a"), 11, 11));
    assert_eq!(matches(&t, "hello"), (to("a"), 5, 5));
    assert_eq!(matches(&t, "hello worlds"), (to("a"), 11, 12));
    assert_eq!(matches(&t, "help"), (to("a"), 3, 4));
    assert_eq!(matches(&t, "world"), (to("a"), 0, 5));
}

#[test]
fn the_longest_prefix_decides() {
    let t = tree(&[("hello world", "a"), ("hello there", "b"), ("hell", "c")]);
    assert_eq!(matches(&t, "hello world!"), (to("a"), 11, 12));
    assert_eq!(matches(&t, "hello there"), (to("b"), 11, 11));
    // The common prefix was last sent to the third.
    assert_eq!(matches(&t, "hell"), (to("c"), 4, 4));
    assert_eq!(matches(&t, "hello"), (to("b"), 5, 5));
    assert_eq!(matches(&t, "hello x"), (to("b"), 6, 7));
}

#[test]
fn the_latest_recording_wins() {
    let mut t = tree(&[("abc", "a"), ("abc", "b")]);
    assert_eq!(matches(&t, "abc"), (to("b"), 3, 3));
    t.insert("abc", "a");
    assert_eq!(matches(&t, "abc"), (to("a"), 3, 3));
}

#[test]
fn characters_are_counted_not_bytes() {
    let t = tree(&[("grüße 世界", "a")]);
    assert_eq!(matches(&t, "grüße 世"), (to("a"), 7, 7));
    assert_eq!(matches(&t, "grüß Gott"), (to("a"), 4, 9));
}

#[test]
fn eviction_takes_the_oldest_first() {
    let mut t = tree(&[("aaaa", "x"), ("bbbb", "x"), ("cccc", "x"), ("aaaa", "y")]);
    t.evict_tenant_by_size(8);
    // Eight characters fit: the first text goes, for this tenant only.
    assert_eq!(matches(&t, "bbbb").1, 4);
    assert_eq!(matches(&t, "cccc").1, 4);
    assert_eq!(matches(&t, "aaaa"), (to("y"), 4, 4));
    t.evict_tenant_by_size(7);
    assert_eq!(matches(&t, "bbbb").1, 0);
    assert_eq!(matches(&t, "cccc").1, 4);
}

#[test]
fn a_shared_prefix_stays_with_the_newer_text() {
    let mut t = tree(&[("prefix-one", "x"), ("prefix-two", "x")]);
    t.evict_tenant_by_size(10);
    assert_eq!(matches(&t, "prefix-two").1, 10);
    assert_eq!(matches(&t, "prefix-one").1, 7);
}

#[test]
fn tenants_within_the_limit_lose_nothing() {
    let mut t = tree(&[("aaaa", "x"), ("bb", "y")]);
    t.evict_tenant_by_size(4);
    assert_eq!(matches(&t, "aaaa"), (to("x"), 4, 4));
    assert_eq!(matches(&t, "bb"), (to("y"), 2, 2));
}

#[test]
fn a_full_cleanup_leaves_the_empty_prefix() {
    let mut t = tree(&[("", "x"), ("aaaa", "x"), ("", "y")]);
    t.evict_tenant_by_size(0);
    assert_eq!(matches(&t, "aaaa"), (to("y"), 0, 4));
    assert_eq!(matches(&t, ""), (to("y"), 0, 0));
    t.insert("aaaa", "x");
    assert_eq!(matches(&t, "aaaa"), (to("x"), 4, 4));
}

fn nodes(tree: &Tree) -> usize {
    tree.stats().unwrap().node_count
}

#[test]
fn the_limit_is_a_ceiling_on_nodes() {
    let texts = [("a", "x"), ("b", "y"), ("c", "z")];
    let mut t = tree(&texts);
    assert_eq!(nodes(&t), 4);
    t.evict_tenant_by_size(4);
    assert_eq!(nodes(&t), 4);
    // Every tenant has one character, but the oldest edges have to go.
    t.evict_tenant_by_size(3);
    assert_eq!(nodes(&t), 3);
    assert_eq!(matches(&t, "a").1, 0);
    assert_eq!(matches(&t, "b"), (to("y"), 1, 1));
    assert_eq!(matches(&t, "c"), (to("z"), 1, 1));
    t.evict_tenant_by_size(1);
    assert_eq!(nodes(&t), 1);
    t.evict_tenant_by_size(0);
    assert_eq!(nodes(&t), 1);
}

#[test]
fn eviction_may_be_searched_for_first() {
    let texts = [("aaaa", "x"), ("bbbb", "x"), ("cccc", "y"), ("bb", "y"), ("dd", "x")];
    let mut t = tree(&texts);
    // Ten characters of one tenant: the first text goes.
    let cuts = t.eviction_cuts(9);
    assert_eq!(cuts, [1, 0]);
    t.evict_up_to(&cuts);
    let mut whole = tree(&texts);
    whole.evict_tenant_by_size(9);
    for (text, _) in texts {
        assert_eq!(matches(&t, text), matches(&whole, text));
    }
    assert_eq!((nodes(&t), nodes(&whole)), (5, 5));
    assert_eq!(matches(&t, "aaaa").1, 0);
    // Both have six characters left.
    assert_eq!(t.eviction_cuts(6), [0, 0]);
    assert_eq!(t.eviction_cuts(4), [2, 3]);
    // One node is the root: everything up to the last recording goes.
    assert_eq!(tree(&[("a", "x"), ("b", "y")]).eviction_cuts(1), [2, 2]);
    // Tenants without a moment of their own lose nothing.
    t.evict_up_to(&vec![]);
    assert_eq!(nodes(&t), 5);
    t.evict_up_to(&vec![5]);
    assert_eq!(matches(&t, "dd").1, 0);
    assert_eq!(matches(&t, "bbbb"), (to("y"), 2, 4));
}

#[test]
fn a_mark_that_is_too_old_goes_though_its_edge_stays() {
    let mut t = tree(&[("ab", "x"), ("ab", "y"), ("cd", "z")]);
    t.evict_tenant_by_size(2);
    // The root and one edge fit: the one that was recorded last.
    assert_eq!(nodes(&t), 2);
    assert_eq!(matches(&t, "ab").1, 0);
    assert_eq!(matches(&t, "cd"), (to("z"), 2, 2));
}

#[test]
fn a_recording_adds_two_edges_at_most() {
    let mut t = tree(&[]);
    assert_eq!(nodes(&t), 1);
    for (text, after) in [
        ("hello", 2),   // a new edge
        ("hello", 2),   // ends where an edge ends
        ("hel", 3),     // ends inside an edge
        ("hello!", 4),  // goes on where an edge ends
        ("help", 5),    // leaves where an edge ends
        ("heap", 7),    // leaves inside an edge
        ("", 7),        // nothing
    ] {
        t.insert(text, "x");
        assert_eq!(nodes(&t), after, "after {:?}", text);
    }
    t.insert("heap", "y");
    assert_eq!(nodes(&t), 7);
}

#[test]
fn there_are_no_more_nodes_than_characters_and_the_root() {
    let t = tree(&[("abc", "x"), ("abd", "y"), ("ab", "z"), ("q", "x")]);
    let s = t.stats().unwrap();
    let chars: usize = s.tenant_char_counts.iter().map(|(_, n)| n).sum();
    assert_eq!((s.node_count, chars), (5, 9));
}

#[test]
fn tenants_stay_in_the_order_of_their_first_recording() {
    let mut t = tree(&[("a", "y"), ("b", "x"), ("c", "y")]);
    let names = |t: &Tree| -> Vec<String> {
        t.stats().unwrap().tenant_char_counts.into_iter().map(|(name, _)| name).collect()
    };
    assert_eq!(names(&t), ["y", "x"]);
    t.evict_tenant_by_size(0);
    assert_eq!(names(&t), ["y", "x"]);
}

#[test]
fn a_deep_tree_needs_no_deep_stack() {
    let depth = 6000;
    let whole = "a".repeat(depth);
    let mut t = Tree::new();
    // Each text ends inside the first edge, which is cut there.
    for n in (1..=depth).rev() {
        t.insert(&whole[..n], "x");
    }
    let s = t.stats().unwrap();
    assert_eq!((s.node_count, s.max_depth), (depth + 1, depth));
    assert_eq!(s.tenant_char_counts, vec![("x".to_string(), depth)]);
    // The longer a text, the longer ago it was recorded.
    t.evict_tenant_by_size(depth / 2);
    assert_eq!(matches(&t, &whole), (to("x"), depth / 2 - 1, depth));
    assert_eq!(nodes(&t), depth / 2);
    t.insert(&whole, "y");
    assert_eq!(matches(&t, &whole), (to("y"), depth, depth));
    t.evict_tenant_by_size(0);
    assert_eq!(nodes(&t), 1);
}

#[test]
fn stats_count_edges_marks_and_characters() {
    let t = tree(&[("", "a"), ("hello", "a"), ("help", "b")]);
    let s = t.stats().unwrap();
    // The root, the edge "hel", and the edges "lo" and "p" below it.
    assert_eq!(s.node_count, 4);
    assert_eq!(s.max_depth, 2);
    assert_eq!(s.total_tenant_entries, 6);
    assert_eq!(s.tenant_char_counts, vec![("a".to_string(), 5), ("b".to_string(), 4)]);
}

#[test]
fn stats_of_an_empty_tree() {
    let s = tree(&[]).stats().unwrap();
    assert_eq!((s.node_count, s.max_depth, s.total_tenant_entries), (1, 0, 0));
    assert!(s.tenant_char_counts.is_empty());
}

/// A tree that is nothing but a list.
struct Plain {
    records: Vec<(Vec<char>, String)>,
}

impl Plain {
    fn matched(&self, text: &str) -> (Option<String>, usize) {
        let text: Vec<char> = text.chars().collect();
        let mut best = 0;
        for (r, _) in &self.records {
            let common = r.iter().zip(text.iter()).take_while(|(a, b)| a == b).count();
            best = best.max(common);
        }
        let owner = self
            .records
            .iter()
            .rev()
            .find(|(r, _)| r.len() >= best && r[..best] == text[..best])
            .map(|(_, t)| t.clone());
        (owner, best)
    }
}

#[test]
fn agrees_with_a_plain_list() {
    let mut seed: u64 = 12345;
    let mut next = |n: u64| {
        seed = seed.wrapping_mul(6364136223846793005).wrapping_add(1442695040888963407);
        (seed >> 33) % n
    };
    let mut t = Tree::new();
    let mut plain = Plain { records: Vec::new() };
    for _ in 0..400 {
        let len = next(9);
        let text: String = (0..len).map(|_| if next(2) == 0 { 'a' } else { 'b' }).collect();
        let probe = plain.matched(&text);
        assert_eq!(matches(&t, &text), (probe.0, probe.1, text.len()));
        let tenant = format!("w{}", next(3));
        t.insert(&text, &tenant);
        plain.records.push((text.chars().collect(), tenant));
    }
}
