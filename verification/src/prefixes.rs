//! Paths below an edge of the radix tree. Those that a tenant marked are closed
//! under taking prefixes, and there are as many as the edges have characters.
//! Those at which an edge ends are as many as there are edges.

use crate::count::{after_cut, lemma_kept_nothing, marked_after};
use crate::marks::{owner_stamp, pruned};
use crate::node::{lemma_below_child, lemma_below_covered, lemma_ends_child, Node};
use crate::text::is_prefix;
use vstd::prelude::*;
use vstd::relations::injective_on;
use vstd::set_lib::{lemma_int_range, lemma_map_size, lemma_set_disjoint_lens, set_int_range};

verus! {

/// Whoever marks a path marks each of its prefixes at least as recently.
pub(crate) proof fn lemma_below_prefix(node: Node, log: Seq<usize>, path: Seq<char>, id: usize, k: int)
    requires
        node.wf(log),
        node.below(path, id) is Some,
        0 <= k <= path.len(),
    ensures
        node.below(path.take(k), id) is Some,
        node.below(path, id)->0 <= node.below(path.take(k), id)->0,
    decreases node,
{
    let head = path.take(k);
    if k == 0 {
        lemma_below_covered(node, log, path, id);
    } else {
        let i = choose|i: int| node.child_at(path[0], i);
        let c = node.children[i];
        assert(c.wf(log) && node.child_ok(c));
        assert(head[0] == path[0]);
        lemma_below_child(node, i, head, id);
        let n = c.text@.len() as int;
        if path.len() < n {
            assert(c.text@.take(k) =~= c.text@.take(path.len() as int).take(k));
            assert(is_prefix(head, c.text@));
        } else {
            let rest = path.skip(n);
            lemma_below_covered(c, log, rest, id);
            if k < n {
                assert(c.text@.take(k) =~= path.take(n).take(k));
                assert(path.take(n).take(k) =~= head);
                assert(is_prefix(head, c.text@));
            } else {
                assert(head.take(n) =~= path.take(n));
                assert(is_prefix(c.text@, head));
                assert(head.skip(n) =~= rest.take(k - n));
                lemma_below_prefix(c, log, rest, id, k - n);
            }
        }
    }
}

impl Node {
    /// The paths below this edge that `id` marked after `cut`.
    pub open spec fn paths_below(self, id: usize, cut: u64) -> Set<Seq<char>> {
        Set::new(|p: Seq<char>| p.len() > 0 && after_cut(self.below(p, id), cut))
    }

    /// The same for those that begin like one of the first `n` children.
    spec fn paths_first(self, id: usize, cut: u64, n: int) -> Set<Seq<char>> {
        Set::new(
            |p: Seq<char>|
                p.len() > 0 && after_cut(self.below(p, id), cut) && exists|i: int|
                    0 <= i < n && self.child_at(p[0], i),
        )
    }

    /// The paths from the start of this edge on that `id` marked after `cut`.
    spec fn paths_through(self, id: usize, cut: u64) -> Set<Seq<char>> {
        Set::new(|p: Seq<char>| p.len() > 0 && after_cut(self.through(p, id), cut))
    }
}

/// There are as many paths below an edge as the edges below have characters.
pub(crate) proof fn lemma_count_below(node: Node, log: Seq<usize>, id: usize, cut: u64)
    requires
        node.wf(log),
    ensures
        node.paths_below(id, cut).finite(),
        node.paths_below(id, cut).len() == node.kept(id, cut),
    decreases node, node.children@.len() + 1,
{
    let n = node.children@.len();
    lemma_count_first(node, log, id, cut, n);
    assert(node.paths_below(id, cut) =~= node.paths_first(id, cut, n as int)) by {
        assert forall|p: Seq<char>| p.len() > 0 && after_cut(node.below(p, id), cut) implies exists|i: int|
            0 <= i < n && node.child_at(p[0], i) by {
            let i = choose|i: int| node.child_at(p[0], i);
            assert(0 <= i < n && node.child_at(p[0], i));
        }
    }
}

proof fn lemma_count_first(node: Node, log: Seq<usize>, id: usize, cut: u64, n: nat)
    requires
        node.wf(log),
        n <= node.children@.len(),
    ensures
        node.paths_first(id, cut, n as int).finite(),
        node.paths_first(id, cut, n as int).len() == node.kept_first(id, cut, n),
    decreases node, n,
{
    let all = node.paths_first(id, cut, n as int);
    if n == 0 {
        assert(all =~= Set::empty());
    } else {
        let c = node.children[n - 1];
        assert(c.wf(log) && node.child_ok(c));
        lemma_count_first(node, log, id, cut, (n - 1) as nat);
        lemma_count_through(c, log, id, cut);
        let a = node.paths_first(id, cut, n - 1);
        let b = c.paths_through(id, cut);
        assert forall|p: Seq<char>| b.contains(p) implies p[0] == c.text@[0] by {
            if p.len() < c.text@.len() {
                assert(c.text@.take(p.len() as int)[0] == c.text@[0]);
            } else {
                assert(p.take(c.text@.len() as int)[0] == p[0]);
            }
        }
        assert forall|p: Seq<char>| a.contains(p) implies !b.contains(p) by {
            let i = choose|i: int| 0 <= i < n - 1 && node.child_at(p[0], i);
            assert(node.children@[i].text@[0] != node.children@[n - 1].text@[0]);
        }
        assert(all =~= a + b) by {
            assert forall|p: Seq<char>| all.contains(p) == (a.contains(p) || b.contains(p)) by {
                if p.len() > 0 {
                    if node.child_at(p[0], n - 1) {
                        lemma_below_child(node, n - 1, p, id);
                        if b.contains(p) {
                            assert(0 <= n - 1 < n && node.child_at(p[0], n - 1));
                        }
                    }
                    if a.contains(p) {
                        let i = choose|i: int| 0 <= i < n - 1 && node.child_at(p[0], i);
                        assert(0 <= i < n && node.child_at(p[0], i));
                    }
                    if all.contains(p) && !a.contains(p) {
                        let i = choose|i: int| 0 <= i < n && node.child_at(p[0], i);
                        assert(i == n - 1);
                    }
                }
            }
        }
        assert(a.disjoint(b));
        lemma_set_disjoint_lens(a, b);
    }
}

proof fn lemma_count_through(c: Node, log: Seq<usize>, id: usize, cut: u64)
    requires
        c.wf(log),
        c.text@.len() > 0,
    ensures
        c.paths_through(id, cut).finite(),
        c.paths_through(id, cut).len() == c.edge(id, cut) + c.kept(id, cut),
    decreases c, c.children@.len() + 2,
{
    let text = c.text@;
    let n = text.len() as int;
    let all = c.paths_through(id, cut);
    if after_cut(owner_stamp(c.owners@, id), cut) {
        lemma_count_below(c, log, id, cut);
        let below = c.paths_below(id, cut);
        let head = |j: int| text.take(j);
        let inside = set_int_range(1, n + 1).map(head);
        lemma_int_range(1, n + 1);
        assert(injective_on(head, set_int_range(1, n + 1))) by {
            assert forall|x1: int, x2: int|
                set_int_range(1, n + 1).contains(x1) && set_int_range(1, n + 1).contains(x2) && #[trigger] head(x1)
                    == #[trigger] head(x2) implies x1 == x2 by {
                assert(head(x1).len() == x1);
                assert(head(x2).len() == x2);
            }
        }
        lemma_map_size(set_int_range(1, n + 1), inside, head);
        let tail = |p: Seq<char>| text + p;
        let beyond = below.map(tail);
        assert(injective_on(tail, below)) by {
            assert forall|p1: Seq<char>, p2: Seq<char>|
                below.contains(p1) && below.contains(p2) && #[trigger] tail(p1) == #[trigger] tail(p2) implies p1
                    == p2 by {
                assert(tail(p1).skip(n) =~= p1);
                assert(tail(p2).skip(n) =~= p2);
            }
        }
        lemma_map_size(below, beyond, tail);
        assert forall|p: Seq<char>| inside.contains(p) implies !beyond.contains(p) && p.len() <= n by {
            let j = choose|j: int| #[trigger] set_int_range(1, n + 1).contains(j) && head(j) == p;
            assert(p.len() == j);
            if beyond.contains(p) {
                let q = choose|q: Seq<char>| #[trigger] below.contains(q) && tail(q) == p;
                assert(p.len() == n + q.len());
            }
        }
        assert(all =~= inside + beyond) by {
            assert forall|p: Seq<char>| all.contains(p) == (inside.contains(p) || beyond.contains(p)) by {
                lemma_path_in_edge(c, id, cut, p);
                if all.contains(p) {
                    if p.len() <= n {
                        assert(set_int_range(1, n + 1).contains(p.len() as int) && head(p.len() as int) == p);
                    } else {
                        let q = p.skip(n);
                        assert(below.contains(q));
                        assert(tail(q) =~= p);
                    }
                }
                if inside.contains(p) {
                    let j = choose|j: int| #[trigger] set_int_range(1, n + 1).contains(j) && head(j) == p;
                    assert(p.len() == j);
                }
                if beyond.contains(p) {
                    let q = choose|q: Seq<char>| #[trigger] below.contains(q) && tail(q) == p;
                    assert(p.skip(n) =~= q);
                    assert(p.take(n) =~= text);
                }
            }
        }
        assert(inside.disjoint(beyond));
        lemma_set_disjoint_lens(inside, beyond);
    } else {
        lemma_kept_nothing(c, log, id, cut);
        assert(all =~= Set::empty()) by {
            assert forall|p: Seq<char>| !all.contains(p) by {
                if all.contains(p) && p.len() >= n {
                    lemma_below_covered(c, log, p.skip(n), id);
                }
            }
        }
    }
}

/// Where a path that `id` marked after `cut` ends: inside the edge, or below.
proof fn lemma_path_in_edge(c: Node, id: usize, cut: u64, p: Seq<char>)
    requires
        c.text@.len() > 0,
        after_cut(owner_stamp(c.owners@, id), cut),
    ensures
        c.paths_through(id, cut).contains(p) <==> {
            let n = c.text@.len() as int;
            if p.len() <= n {
                p.len() > 0 && c.text@.take(p.len() as int) == p
            } else {
                p.take(n) == c.text@ && c.paths_below(id, cut).contains(p.skip(n))
            }
        },
{
    let n = c.text@.len() as int;
    if p.len() == n {
        assert(p.take(n) =~= p);
        assert(c.text@.take(n) =~= c.text@);
        assert(p.skip(n).len() == 0);
    }
}

// ---------------------------------------------------------------------------
// Edges
// ---------------------------------------------------------------------------

impl Node {
    /// Whether someone marked the end of `path`, which starts where this edge
    /// ends, after `cut`, if what an eviction up to `cuts` takes does not count.
    pub open spec fn held_after(self, path: Seq<char>, cuts: Seq<u64>, cut: u64) -> bool {
        exists|id: usize| after_cut(pruned(#[trigger] self.below(path, id), cuts, id), cut)
    }

    /// The same for a path that starts where this edge starts.
    spec fn through_after(self, path: Seq<char>, cuts: Seq<u64>, cut: u64) -> bool {
        exists|id: usize| after_cut(pruned(#[trigger] self.through(path, id), cuts, id), cut)
    }

    /// The paths to the ends of the edges below this one that someone marked
    /// after `cut`.
    pub open spec fn edge_paths(self, cuts: Seq<u64>, cut: u64) -> Set<Seq<char>> {
        Set::new(|p: Seq<char>| p.len() > 0 && self.ends(p) && self.held_after(p, cuts, cut))
    }

    /// The same for those that begin like one of the first `n` children.
    spec fn edge_paths_first(self, cuts: Seq<u64>, cut: u64, n: int) -> Set<Seq<char>> {
        Set::new(
            |p: Seq<char>|
                p.len() > 0 && self.ends(p) && self.held_after(p, cuts, cut) && exists|i: int|
                    0 <= i < n && self.child_at(p[0], i),
        )
    }

    /// The same from the start of this edge on.
    spec fn edge_paths_through(self, cuts: Seq<u64>, cut: u64) -> Set<Seq<char>> {
        Set::new(|p: Seq<char>| p.len() > 0 && self.ends_through(p) && self.through_after(p, cuts, cut))
    }
}

/// Edges below an edge are as many as the paths to their ends.
pub(crate) proof fn lemma_count_edges(node: Node, log: Seq<usize>, cuts: Seq<u64>, cut: u64)
    requires
        node.wf(log),
    ensures
        node.edge_paths(cuts, cut).finite(),
        node.edge_paths(cuts, cut).len() == node.live(cuts, cut),
    decreases node, node.children@.len() + 1,
{
    let n = node.children@.len();
    lemma_count_edges_first(node, log, cuts, cut, n);
    assert(node.edge_paths(cuts, cut) =~= node.edge_paths_first(cuts, cut, n as int)) by {
        assert forall|p: Seq<char>| p.len() > 0 && node.ends(p) implies exists|i: int|
            0 <= i < n && node.child_at(p[0], i) by {
            let i = choose|i: int| node.child_at(p[0], i);
            assert(0 <= i < n && node.child_at(p[0], i));
        }
    }
}

proof fn lemma_count_edges_first(node: Node, log: Seq<usize>, cuts: Seq<u64>, cut: u64, n: nat)
    requires
        node.wf(log),
        n <= node.children@.len(),
    ensures
        node.edge_paths_first(cuts, cut, n as int).finite(),
        node.edge_paths_first(cuts, cut, n as int).len() == node.live_first(cuts, cut, n),
    decreases node, n,
{
    let all = node.edge_paths_first(cuts, cut, n as int);
    if n == 0 {
        assert(all =~= Set::empty());
    } else {
        let c = node.children[n - 1];
        assert(c.wf(log) && node.child_ok(c));
        lemma_count_edges_first(node, log, cuts, cut, (n - 1) as nat);
        lemma_count_edges_through(c, log, cuts, cut);
        let a = node.edge_paths_first(cuts, cut, n - 1);
        let b = c.edge_paths_through(cuts, cut);
        assert forall|p: Seq<char>| b.contains(p) implies p[0] == c.text@[0] by {
            assert(p.take(c.text@.len() as int)[0] == p[0]);
        }
        assert forall|p: Seq<char>| a.contains(p) implies !b.contains(p) by {
            let i = choose|i: int| 0 <= i < n - 1 && node.child_at(p[0], i);
            assert(node.children@[i].text@[0] != node.children@[n - 1].text@[0]);
        }
        assert(all =~= a + b) by {
            assert forall|p: Seq<char>| all.contains(p) == (a.contains(p) || b.contains(p)) by {
                if p.len() > 0 {
                    if node.child_at(p[0], n - 1) {
                        lemma_ends_child(node, n - 1, p);
                        lemma_held_child(node, n - 1, p, cuts, cut);
                        if b.contains(p) {
                            assert(0 <= n - 1 < n && node.child_at(p[0], n - 1));
                        }
                    }
                    if a.contains(p) {
                        let i = choose|i: int| 0 <= i < n - 1 && node.child_at(p[0], i);
                        assert(0 <= i < n && node.child_at(p[0], i));
                    }
                    if all.contains(p) && !a.contains(p) {
                        let i = choose|i: int| 0 <= i < n && node.child_at(p[0], i);
                        assert(i == n - 1);
                    }
                }
            }
        }
        assert(a.disjoint(b));
        lemma_set_disjoint_lens(a, b);
    }
}

proof fn lemma_held_child(node: Node, i: int, p: Seq<char>, cuts: Seq<u64>, cut: u64)
    requires
        node.distinct_children(),
        p.len() > 0,
        node.child_at(p[0], i),
    ensures
        node.held_after(p, cuts, cut) == node.children[i].through_after(p, cuts, cut),
{
    let c = node.children[i];
    assert forall|id: usize| node.below(p, id) == c.through(p, id) by {
        lemma_below_child(node, i, p, id);
    }
    if node.held_after(p, cuts, cut) {
        let id = choose|id: usize| after_cut(pruned(#[trigger] node.below(p, id), cuts, id), cut);
        assert(after_cut(pruned(c.through(p, id), cuts, id), cut));
    }
    if c.through_after(p, cuts, cut) {
        let id = choose|id: usize| after_cut(pruned(#[trigger] c.through(p, id), cuts, id), cut);
        assert(after_cut(pruned(node.below(p, id), cuts, id), cut));
    }
}

proof fn lemma_count_edges_through(c: Node, log: Seq<usize>, cuts: Seq<u64>, cut: u64)
    requires
        c.wf(log),
        c.text@.len() > 0,
    ensures
        c.edge_paths_through(cuts, cut).finite(),
        c.edge_paths_through(cuts, cut).len() == c.live_edge(cuts, cut) + c.live(cuts, cut),
    decreases c, c.children@.len() + 2,
{
    let text = c.text@;
    let n = text.len() as int;
    let all = c.edge_paths_through(cuts, cut);
    let empty = Seq::<char>::empty();
    assert forall|p: Seq<char>| is_prefix(text, p) implies #[trigger] c.through_after(p, cuts, cut) == c.held_after(
        p.skip(n),
        cuts,
        cut,
    ) by {
        if c.through_after(p, cuts, cut) {
            let id = choose|id: usize| after_cut(pruned(#[trigger] c.through(p, id), cuts, id), cut);
            assert(after_cut(pruned(c.below(p.skip(n), id), cuts, id), cut));
        }
        if c.held_after(p.skip(n), cuts, cut) {
            let id = choose|id: usize| after_cut(pruned(#[trigger] c.below(p.skip(n), id), cuts, id), cut);
            assert(after_cut(pruned(c.through(p, id), cuts, id), cut));
        }
    }
    assert(c.held_after(empty, cuts, cut) == marked_after(c.owners@, cuts, cut)) by {
        assert(forall|id: usize| (#[trigger] c.below(empty, id)) == owner_stamp(c.owners@, id));
        if c.held_after(empty, cuts, cut) {
            let id = choose|id: usize| after_cut(pruned(#[trigger] c.below(empty, id), cuts, id), cut);
            assert(after_cut(pruned(owner_stamp(c.owners@, id), cuts, id), cut));
        }
        if marked_after(c.owners@, cuts, cut) {
            let id = choose|id: usize| after_cut(pruned(#[trigger] owner_stamp(c.owners@, id), cuts, id), cut);
            assert(after_cut(pruned(c.below(empty, id), cuts, id), cut));
        }
    }
    lemma_count_edges(c, log, cuts, cut);
    let below = c.edge_paths(cuts, cut);
    let tail = |p: Seq<char>| text + p;
    let beyond = below.map(tail);
    assert(injective_on(tail, below)) by {
        assert forall|p1: Seq<char>, p2: Seq<char>|
            below.contains(p1) && below.contains(p2) && #[trigger] tail(p1) == #[trigger] tail(p2) implies p1 == p2 by {
            assert(tail(p1).skip(n) =~= p1);
            assert(tail(p2).skip(n) =~= p2);
        }
    }
    lemma_map_size(below, beyond, tail);
    let own = if marked_after(c.owners@, cuts, cut) {
        Set::<Seq<char>>::empty().insert(text)
    } else {
        Set::<Seq<char>>::empty()
    };
    assert forall|p: Seq<char>| beyond.contains(p) implies p.len() > n by {
        let q = choose|q: Seq<char>| #[trigger] below.contains(q) && tail(q) == p;
    }
    assert(all =~= own + beyond) by {
        assert forall|p: Seq<char>| all.contains(p) == (own.contains(p) || beyond.contains(p)) by {
            if is_prefix(text, p) {
                let q = p.skip(n);
                assert(tail(q) =~= p);
                if q.len() == 0 {
                    assert(p =~= text);
                    assert(q =~= empty);
                } else {
                    assert(p != text);
                    if all.contains(p) {
                        assert(below.contains(q));
                    }
                    if beyond.contains(p) {
                        let q2 = choose|q2: Seq<char>| #[trigger] below.contains(q2) && tail(q2) == p;
                        assert(p.skip(n) =~= q2);
                    }
                }
            } else {
                if p == text {
                    assert(p.take(n) =~= text);
                }
                if beyond.contains(p) {
                    let q = choose|q: Seq<char>| #[trigger] below.contains(q) && tail(q) == p;
                    assert(p.take(n) =~= text);
                }
            }
        }
    }
    assert(own.disjoint(beyond));
    lemma_set_disjoint_lens(own, beyond);
}

} // verus!
