//! Recording a text below an edge of the radix tree.

use crate::marks::{
    covered, distinct_owners, in_log, lemma_owner_index, lemma_owner_stamp, lemma_owners_grow, owner_at,
    owner_stamp, owners_ok, set_owner, Owner,
};
use crate::node::{
    lemma_below_child, lemma_ends_child, lemma_prefix_after, lemma_same_below, lemma_same_ends, Node,
};
use crate::text::is_prefix;
use vstd::prelude::*;

verus! {

// ---------------------------------------------------------------------------
// Splitting an edge
// ---------------------------------------------------------------------------

/// What a split edge says of a path is what the whole edge said.
proof fn lemma_split(whole: Node, upper: Node, lower: Node, k: int, path: Seq<char>, id: usize)
    requires
        0 < k < whole.text@.len(),
        whole.distinct_children(),
        upper.text@ == whole.text@.take(k),
        lower.text@ == whole.text@.skip(k),
        upper.owners@ == whole.owners@,
        lower.owners@ == whole.owners@,
        lower.children@ == whole.children@,
        upper.children@ == seq![lower],
    ensures
        upper.through(path, id) == whole.through(path, id),
{
    let t = whole.text@;
    let n = t.len() as int;
    if path.len() < k {
        assert(t.take(k).take(path.len() as int) =~= t.take(path.len() as int));
    } else if is_prefix(upper.text@, path) {
        let rest = path.skip(k);
        if rest.len() == 0 {
            assert(path =~= t.take(k));
            assert(is_prefix(path, t));
        } else {
            assert(upper.children@[0] == lower);
            if rest[0] == lower.text@[0] {
                assert(upper.child_at(rest[0], 0));
                lemma_below_child(upper, 0, rest, id);
                assert(upper.children[0] == lower);
                if rest.len() < lower.text@.len() {
                    lemma_prefix_after(path, t, k);
                } else {
                    lemma_prefix_after(t, path, k);
                    assert(rest.skip(lower.text@.len() as int) =~= path.skip(n));
                    if is_prefix(t, path) {
                        lemma_same_below(whole, lower, path.skip(n), id);
                    }
                }
            } else {
                assert forall|i: int| !upper.child_at(rest[0], i) by {}
                assert(t.take(path.len() as int)[k] == t[k] || path.len() > n);
                if path.len() < n {
                    if is_prefix(path, t) {
                        assert(t.take(path.len() as int)[k] == path[k]);
                    }
                } else if is_prefix(t, path) {
                    assert(path.take(n)[k] == t[k]);
                }
            }
        }
    } else {
        // The path leaves the edge before the split.
        if path.len() < n {
            if is_prefix(path, t) {
                assert(path.take(k) =~= t.take(path.len() as int).take(k));
                assert(t.take(path.len() as int).take(k) =~= t.take(k));
            }
        } else if is_prefix(t, path) {
            assert(path.take(n).take(k) =~= path.take(k));
        }
    }
}

/// A split edge ends where the whole edge ended, and where it was split.
proof fn lemma_split_ends(whole: Node, upper: Node, lower: Node, k: int, path: Seq<char>)
    requires
        0 < k < whole.text@.len(),
        whole.distinct_children(),
        upper.text@ == whole.text@.take(k),
        lower.text@ == whole.text@.skip(k),
        lower.children@ == whole.children@,
        upper.children@ == seq![lower],
    ensures
        upper.ends_through(path) == (whole.ends_through(path) || path == upper.text@),
{
    let t = whole.text@;
    let n = t.len() as int;
    if path == upper.text@ {
        assert(path.take(k) =~= path);
    } else if is_prefix(upper.text@, path) {
        let rest = path.skip(k);
        if rest.len() == 0 {
            assert(path =~= path.take(k));
        } else {
            assert(upper.children@[0] == lower);
            if rest[0] == lower.text@[0] {
                assert(upper.child_at(rest[0], 0));
                lemma_ends_child(upper, 0, rest);
                assert(upper.children[0] == lower);
                lemma_prefix_after(t, path, k);
                if is_prefix(t, path) {
                    assert(rest.skip(lower.text@.len() as int) =~= path.skip(n));
                    lemma_same_ends(whole, lower, path.skip(n));
                }
            } else {
                assert forall|i: int| !upper.child_at(rest[0], i) by {}
                if is_prefix(t, path) {
                    assert(path.take(n)[k] == t[k]);
                }
            }
        }
    } else if is_prefix(t, path) {
        assert(path.take(n).take(k) =~= path.take(k));
    }
}

impl Node {
    /// Splits this edge after `k` characters.
    fn split(&mut self, Ghost(log): Ghost<Seq<usize>>, k: usize)
        requires
            old(self).wf(log),
            old(self).owners@.len() > 0,
            0 < k < old(self).text@.len(),
        ensures
            final(self).wf(log),
            final(self).text@ == old(self).text@.take(k as int),
            final(self).owners@ == old(self).owners@,
            forall|path: Seq<char>, id: usize|
                #[trigger] final(self).through(path, id) == old(self).through(path, id),
            forall|path: Seq<char>|
                #[trigger] final(self).ends_through(path) == (old(self).ends_through(path) || path
                    == final(self).text@),
    {
        let ghost whole = *self;
        let tail = self.text.split_off(k);
        let owners = self.owners.clone();
        let mut kids: Vec<Node> = Vec::new();
        std::mem::swap(&mut kids, &mut self.children);
        let lower = Node { text: tail, owners, children: kids };
        self.children.push(lower);
        proof {
            assert(owners@ =~= whole.owners@);
            assert(self.text@ =~= whole.text@.take(k as int));
            assert(lower.text@ =~= whole.text@.skip(k as int));
            assert(self.children@ =~= seq![lower]);
            assert(lower.wf(log)) by {
                assert forall|i: int| 0 <= i < lower.children@.len() implies (#[trigger] lower.children[i]).wf(log)
                    && lower.child_ok(lower.children[i]) by {
                    assert(lower.children[i] == whole.children[i]);
                }
            }
            assert(self.children[0] == lower);
            assert(self.child_ok(lower));
            assert forall|path: Seq<char>, id: usize| #[trigger]
                self.through(path, id) == whole.through(path, id) by {
                lemma_split(whole, *self, lower, k as int, path, id);
            }
            assert forall|path: Seq<char>| #[trigger]
                self.ends_through(path) == (whole.ends_through(path) || path == self.text@) by {
                lemma_split_ends(whole, *self, lower, k as int, path);
            }
        }
    }
}

// ---------------------------------------------------------------------------
// Recording
// ---------------------------------------------------------------------------

/// A longer log leaves a tree well formed.
proof fn lemma_log_grows(node: Node, log: Seq<usize>, id: usize)
    requires
        node.wf(log),
    ensures
        node.wf(log.push(id)),
    decreases node,
{
    lemma_owners_grow(node.owners@, log, id);
    assert forall|i: int| 0 <= i < node.children@.len() implies (#[trigger] node.children[i]).wf(log.push(id))
        && node.child_ok(node.children[i]) by {
        lemma_log_grows(node.children[i], log, id);
    }
}

/// What recording `rest` for `id` at the moment `now` makes of the mark of `k`
/// at the end of `path`.
pub open spec fn recorded(
    before: Option<u64>,
    rest: Seq<char>,
    id: usize,
    now: u64,
    path: Seq<char>,
    k: usize,
) -> Option<u64> {
    if k == id && is_prefix(path, rest) {
        Some(now)
    } else {
        before
    }
}

/// Recording through a child: what the child says of its part of the path is
/// what the path says.
proof fn lemma_recorded_through(
    before: Node,
    after: Node,
    rest: Seq<char>,
    id: usize,
    now: u64,
    path: Seq<char>,
    k: usize,
)
    requires
        path.len() > 0,
        after.text@.len() > 0,
        before.text@ == after.text@,
        is_prefix(after.text@, rest),
        forall|p: Seq<char>, j: usize|
            #[trigger] after.below(p, j) == recorded(
                before.below(p, j),
                rest.skip(after.text@.len() as int),
                id,
                now,
                p,
                j,
            ),
    ensures
        after.through(path, k) == recorded(before.through(path, k), rest, id, now, path, k),
{
    let t = after.text@;
    let n = t.len() as int;
    let empty = Seq::<char>::empty();
    if path.len() < n {
        assert(after.below(empty, k) == recorded(before.below(empty, k), rest.skip(n), id, now, empty, k));
        assert(rest.skip(n).take(0) =~= empty);
        assert(rest.take(n).take(path.len() as int) =~= rest.take(path.len() as int));
    } else if is_prefix(t, path) {
        lemma_prefix_after(path, rest, n);
        let p = path.skip(n);
        assert(after.below(p, k) == recorded(before.below(p, k), rest.skip(n), id, now, p, k));
    } else if is_prefix(path, rest) {
        assert(path.take(n) =~= rest.take(path.len() as int).take(n));
        assert(rest.take(path.len() as int).take(n) =~= rest.take(n));
    }
}

/// A fresh edge is marked along its whole text and nowhere else.
proof fn lemma_fresh_edge(leaf: Node, rest: Seq<char>, id: usize, now: u64, path: Seq<char>, k: usize)
    requires
        path.len() > 0,
        leaf.text@ == rest,
        leaf.owners@ == seq![Owner { id, stamp: now }],
        leaf.children@.len() == 0,
    ensures
        leaf.through(path, k) == recorded(None, rest, id, now, path, k),
{
    let o = leaf.owners@;
    assert(distinct_owners(o));
    lemma_owner_stamp(o, 0);
    if k != id {
        assert forall|i: int| !owner_at(o, k, i) by {}
    }
    if path.len() >= rest.len() {
        let p = path.skip(rest.len() as int);
        if p.len() > 0 {
            assert forall|i: int| !leaf.child_at(p[0], i) by {}
        } else if is_prefix(rest, path) {
            assert(path =~= rest);
            assert(rest.take(rest.len() as int) =~= rest);
        } else if is_prefix(path, rest) {
            assert(path =~= rest);
            assert(path.take(rest.len() as int) =~= rest);
        }
    }
}

impl Node {
    /// Whether `path` is as far as `rest` leads below this edge.
    pub open spec fn stops(self, rest: Seq<char>, path: Seq<char>) -> bool {
        &&& is_prefix(path, rest)
        &&& path.len() > 0 ==> self.held(path)
        &&& path.len() < rest.len() ==> !self.held(rest.take(path.len() as int + 1))
    }
}

/// What recording `rest` for `id` at the moment `now` makes of an edge: it marks
/// all of `rest`, and an edge ends where `rest` ends and where it left the tree.
pub open spec fn inserts(
    before: Node,
    after: Node,
    log: Seq<usize>,
    rest: Seq<char>,
    id: usize,
    now: u64,
) -> bool {
    &&& after.wf(log)
    &&& after.text@ == before.text@
    &&& after.owners@.len() > 0
    &&& forall|path: Seq<char>, k: usize|
        #[trigger] after.below(path, k) == recorded(before.below(path, k), rest, id, now, path, k)
    &&& forall|path: Seq<char>|
        #[trigger] after.ends(path) == (before.ends(path) || path == rest || before.stops(rest, path))
}

/// `marked` is `before` with a mark of `id` at the moment `now`.
spec fn marks(before: Node, marked: Node, log: Seq<usize>, id: usize, now: u64) -> bool {
    &&& marked.wf(log)
    &&& marked.text@ == before.text@
    &&& marked.children@ == before.children@
    &&& marked.owners@.len() > 0
    &&& forall|k: usize|
        #[trigger] owner_stamp(marked.owners@, k) == if k == id {
            Some(now)
        } else {
            owner_stamp(before.owners@, k)
        }
    &&& forall|path: Seq<char>, k: usize|
        path.len() > 0 ==> #[trigger] marked.below(path, k) == before.below(path, k)
    &&& forall|path: Seq<char>| #[trigger] marked.ends(path) == before.ends(path)
}

proof fn lemma_marks(before: Node, marked: Node, log: Seq<usize>, id: usize, now: u64)
    requires
        before.wf(log),
        now == log.len() + 1,
        marked.text == before.text,
        marked.children == before.children,
        distinct_owners(marked.owners@),
        marked.owners@.len() > 0,
        forall|k: usize|
            #[trigger] owner_stamp(marked.owners@, k) == if k == id {
                Some(now)
            } else {
                owner_stamp(before.owners@, k)
            },
        forall|i: int|
            0 <= i < marked.owners@.len() ==> (#[trigger] marked.owners@[i]) == (Owner { id, stamp: now })
                || before.owners@.contains(marked.owners@[i]),
    ensures
        marks(before, marked, log.push(id), id, now),
{
    let log2 = log.push(id);
    lemma_owners_grow(before.owners@, log, id);
    lemma_log_grows(before, log, id);
    assert(owners_ok(marked.owners@, log2)) by {
        assert forall|i: int| 0 <= i < marked.owners@.len() implies in_log(#[trigger] marked.owners@[i], log2) by {
            if before.owners@.contains(marked.owners@[i]) {
                let j = choose|j: int| 0 <= j < before.owners@.len() && before.owners@[j] == marked.owners@[i];
                assert(in_log(before.owners@[j], log2));
            }
        }
    }
    assert forall|i: int| 0 <= i < marked.children@.len() implies (#[trigger] marked.children[i]).wf(log2)
        && marked.child_ok(marked.children[i]) by {
        let c = before.children[i];
        assert(c.wf(log) && c.wf(log2) && before.child_ok(c));
        lemma_owners_grow(c.owners@, log, id);
    }
    assert(marked.wf(log2));
    assert forall|path: Seq<char>, k: usize| path.len() > 0 implies #[trigger] marked.below(path, k) == before.below(
        path,
        k,
    ) by {
        lemma_same_below(marked, before, path, k);
    }
    assert forall|path: Seq<char>| #[trigger] marked.ends(path) == before.ends(path) by {
        lemma_same_ends(marked, before, path);
    }
}

/// Recording nothing more marks the edge.
proof fn lemma_marked_end(before: Node, marked: Node, log: Seq<usize>, id: usize, now: u64)
    requires
        marks(before, marked, log, id, now),
    ensures
        inserts(before, marked, log, Seq::empty(), id, now),
{
    let rest = Seq::<char>::empty();
    assert forall|path: Seq<char>, k: usize| #[trigger]
        marked.below(path, k) == recorded(before.below(path, k), rest, id, now, path, k) by {
        if path.len() == 0 {
            assert(rest.take(0) =~= path);
        }
    }
}

/// Recording below a fresh edge, seen from its parent.
proof fn lemma_leaf_recorded(
    before: Node,
    marked: Node,
    after: Node,
    leaf: Node,
    log: Seq<usize>,
    rest: Seq<char>,
    id: usize,
    now: u64,
)
    requires
        marks(before, marked, log, id, now),
        rest.len() > 0,
        forall|i: int| !marked.child_at(rest[0], i),
        0 < now <= log.len(),
        log[now - 1] == id,
        leaf.text@ == rest,
        leaf.owners@ == seq![Owner { id, stamp: now }],
        leaf.children@.len() == 0,
        after.text == marked.text,
        after.owners == marked.owners,
        after.children@ == marked.children@.push(leaf),
    ensures
        inserts(before, after, log, rest, id, now),
{
    let c = rest[0];
    let n = marked.children@.len() as int;
    assert(distinct_owners(leaf.owners@));
    assert(owner_stamp(leaf.owners@, id) == Some(now)) by {
        lemma_owner_stamp(leaf.owners@, 0);
    }
    assert(covered(leaf.owners@, after.owners@)) by {
        assert forall|k: usize| (#[trigger] owner_stamp(leaf.owners@, k)) is Some implies owner_stamp(after.owners@, k) is Some
            && owner_stamp(leaf.owners@, k)->0 <= owner_stamp(after.owners@, k)->0 by {
            let j = lemma_owner_index(leaf.owners@, k);
        }
    }
    assert(leaf.wf(log));
    assert(after.distinct_children()) by {
        assert forall|i: int, j: int| 0 <= i < j < after.children@.len() implies #[trigger] after.children@[i].text@[0]
            != #[trigger] after.children@[j].text@[0] by {
            assert(after.children@[i] == marked.children@[i]);
            assert(marked.child_ok(marked.children[i]));
            if j == n {
                assert(!marked.child_at(c, i));
            } else {
                assert(after.children@[j] == marked.children@[j]);
            }
        }
    }
    assert forall|i: int| 0 <= i < after.children@.len() implies (#[trigger] after.children[i]).wf(log) && after.child_ok(
        after.children[i],
    ) by {
        if i < n {
            assert(after.children[i] == marked.children[i]);
            assert(marked.child_ok(marked.children[i]));
        }
    }
    assert forall|path: Seq<char>, k: usize| #[trigger]
        after.below(path, k) == recorded(before.below(path, k), rest, id, now, path, k) by {
        if path.len() == 0 {
            assert(rest.take(0) =~= path);
            assert(before.below(path, k) == owner_stamp(before.owners@, k));
        } else {
            assert(marked.below(path, k) == before.below(path, k));
            if path[0] == c {
                assert(after.child_at(c, n));
                lemma_below_child(after, n, path, k);
                lemma_fresh_edge(leaf, rest, id, now, path, k);
                assert(marked.below(path, k) is None);
            } else {
                if is_prefix(path, rest) {
                    assert(rest.take(path.len() as int)[0] == path[0]);
                }
                lemma_other_children(marked, after, n, path, k);
            }
        }
    }
    assert forall|path: Seq<char>| #[trigger]
        after.ends(path) == (before.ends(path) || path == rest || before.stops(rest, path)) by {
        if path.len() > 0 {
            assert(marked.ends(path) == before.ends(path));
            if path[0] == c {
                assert(after.child_at(c, n));
                lemma_ends_child(after, n, path);
                assert(after.children[n] == leaf);
                assert(!before.held(path)) by {
                    assert forall|k: usize| (#[trigger] before.below(path, k)) is None by {
                        assert(marked.below(path, k) == before.below(path, k));
                    }
                }
                if is_prefix(rest, path) {
                    let p = path.skip(rest.len() as int);
                    if p.len() > 0 {
                        assert forall|i: int| !leaf.child_at(p[0], i) by {}
                    } else {
                        assert(path =~= rest);
                    }
                } else if path == rest {
                    assert(path.take(path.len() as int) =~= path);
                }
            } else {
                if is_prefix(path, rest) {
                    assert(rest.take(path.len() as int)[0] == path[0]);
                }
                lemma_other_children(marked, after, n, path, 0);
            }
        }
    }
}

/// A path that leads through none of the children that changed says what it
/// said.
proof fn lemma_other_children(before: Node, after: Node, i: int, path: Seq<char>, id: usize)
    requires
        path.len() > 0,
        before.distinct_children(),
        after.distinct_children(),
        before.children@.len() <= after.children@.len() <= before.children@.len() + 1,
        0 <= i < after.children@.len(),
        after.children@.len() > before.children@.len() ==> i == before.children@.len(),
        forall|j: int| 0 <= j < before.children@.len() && j != i ==> #[trigger] after.children@[j] == before.children@[j],
        !after.child_at(path[0], i),
        !before.child_at(path[0], i),
    ensures
        after.below(path, id) == before.below(path, id),
        after.ends(path) == before.ends(path),
{
    if exists|j: int| before.child_at(path[0], j) {
        let j = choose|j: int| before.child_at(path[0], j);
        assert(after.children@[j] == before.children@[j]);
        assert(after.child_at(path[0], j));
        lemma_below_child(after, j, path, id);
        lemma_below_child(before, j, path, id);
        lemma_ends_child(after, j, path);
        lemma_ends_child(before, j, path);
        assert(after.children[j] == before.children[j]);
    } else {
        assert forall|j: int| !after.child_at(path[0], j) by {
            if 0 <= j < before.children@.len() && j != i {
                assert(after.children@[j] == before.children@[j]);
                assert(!before.child_at(path[0], j));
            }
        }
    }
}

/// What a child that recording leads through is cut to: as far as it agrees
/// with the text.
spec fn cuts(child: Node, cut: Node, log: Seq<usize>, rest: Seq<char>) -> bool {
    &&& cut.wf(log)
    &&& cut.text@.len() > 0
    &&& is_prefix(cut.text@, child.text@)
    &&& is_prefix(cut.text@, rest)
    &&& cut.owners@ == child.owners@
    &&& forall|path: Seq<char>, k: usize| #[trigger] cut.through(path, k) == child.through(path, k)
    &&& forall|path: Seq<char>|
        #[trigger] cut.ends_through(path) == (child.ends_through(path) || path == cut.text@)
    &&& cut.text@.len() < child.text@.len() && cut.text@.len() < rest.len() ==> rest[cut.text@.len() as int]
        != child.text@[cut.text@.len() as int]
}

/// Recording below one child, seen from its parent.
proof fn lemma_child_recorded(
    before: Node,
    marked: Node,
    after: Node,
    log: Seq<usize>,
    cut: Node,
    grown: Node,
    i: int,
    rest: Seq<char>,
    id: usize,
    now: u64,
)
    requires
        marks(before, marked, log, id, now),
        0 <= i < marked.children@.len(),
        marked.child_at(rest[0], i),
        rest.len() > 0,
        cuts(marked.children@[i], cut, log, rest),
        inserts(cut, grown, log, rest.skip(cut.text@.len() as int), id, now),
        after.text == marked.text,
        after.owners == marked.owners,
        after.children@ == marked.children@.update(i, grown),
    ensures
        inserts(before, after, log, rest, id, now),
{
    let empty = Seq::<char>::empty();
    let n = cut.text@.len() as int;
    let after_rest = rest.skip(n);
    let child = marked.children@[i];
    assert(child.text@.take(n)[0] == child.text@[0]);
    assert(rest.take(n)[0] == rest[0]);
    assert(marked.child_ok(marked.children[i]));
    assert(after.children[i] == grown);
    assert(covered(grown.owners@, after.owners@)) by {
        assert forall|j: usize| (#[trigger] owner_stamp(grown.owners@, j)) is Some implies owner_stamp(after.owners@, j) is Some
            && owner_stamp(grown.owners@, j)->0 <= owner_stamp(after.owners@, j)->0 by {
            assert(grown.below(empty, j) == recorded(cut.below(empty, j), after_rest, id, now, empty, j));
            assert(after_rest.take(0) =~= empty);
            assert(owner_stamp(child.owners@, j) is Some ==> owner_stamp(marked.owners@, j) is Some);
        }
    }
    assert(after.distinct_children()) by {
        assert forall|a: int, b: int| 0 <= a < b < after.children@.len() implies #[trigger] after.children@[a].text@[0]
            != #[trigger] after.children@[b].text@[0] by {
            assert(marked.children@[a].text@[0] != marked.children@[b].text@[0]);
        }
    }
    assert forall|a: int| 0 <= a < after.children@.len() implies (#[trigger] after.children[a]).wf(log) && after.child_ok(
        after.children[a],
    ) by {
        if a != i {
            assert(after.children[a] == marked.children[a]);
            assert(marked.child_ok(marked.children[a]));
        }
    }
    assert forall|path: Seq<char>, j: usize| #[trigger]
        after.below(path, j) == recorded(before.below(path, j), rest, id, now, path, j) by {
        if path.len() == 0 {
            assert(rest.take(0) =~= path);
        } else {
            assert(marked.below(path, j) == before.below(path, j));
            if path[0] == child.text@[0] {
                assert(after.child_at(path[0], i));
                assert(marked.child_at(path[0], i));
                lemma_below_child(after, i, path, j);
                lemma_below_child(marked, i, path, j);
                assert(marked.children[i] == child);
                assert(cut.through(path, j) == child.through(path, j));
                lemma_recorded_through(cut, grown, rest, id, now, path, j);
            } else {
                if is_prefix(path, rest) {
                    assert(rest.take(path.len() as int)[0] == path[0]);
                }
                lemma_other_children(marked, after, i, path, j);
            }
        }
    }
    assert forall|path: Seq<char>| #[trigger]
        after.ends(path) == (before.ends(path) || path == rest || before.stops(rest, path)) by {
        if path.len() > 0 {
            assert(marked.ends(path) == before.ends(path));
            if path[0] == child.text@[0] {
                lemma_child_ends(before, marked, log, cut, grown, i, rest, id, now, path);
                assert(after.child_at(path[0], i));
                lemma_ends_child(after, i, path);
            } else {
                if is_prefix(path, rest) {
                    assert(rest.take(path.len() as int)[0] == path[0]);
                }
                lemma_other_children(marked, after, i, path, 0);
            }
        }
    }
}

/// Where edges end along the child that recording led through.
proof fn lemma_child_ends(
    before: Node,
    marked: Node,
    log: Seq<usize>,
    cut: Node,
    grown: Node,
    i: int,
    rest: Seq<char>,
    id: usize,
    now: u64,
    path: Seq<char>,
)
    requires
        marks(before, marked, log, id, now),
        rest.len() > 0,
        marked.child_at(rest[0], i),
        cuts(marked.children@[i], cut, log, rest),
        inserts(cut, grown, log, rest.skip(cut.text@.len() as int), id, now),
        path.len() > 0,
        path[0] == rest[0],
    ensures
        grown.ends_through(path) == (before.ends(path) || path == rest || before.stops(rest, path)),
{
    let t = cut.text@;
    let n = t.len() as int;
    let child = marked.children@[i];
    let after_rest = rest.skip(n);
    assert(marked.children[i] == child);
    assert(marked.child_ok(marked.children[i]));
    assert(marked.ends(path) == before.ends(path));
    lemma_ends_child(marked, i, path);
    // What is held along the child.
    assert forall|p: Seq<char>| p.len() > 0 && p[0] == rest[0] implies (#[trigger] before.held(p) <==> exists|k: usize|
        (#[trigger] cut.through(p, k)) is Some) by {
        assert forall|k: usize| before.below(p, k) == #[trigger] cut.through(p, k) by {
            assert(marked.below(p, k) == before.below(p, k));
            lemma_below_child(marked, i, p, k);
            assert(cut.through(p, k) == child.through(p, k));
        }
        if before.held(p) {
            let k = choose|k: usize| (#[trigger] before.below(p, k)) is Some;
            assert(cut.through(p, k) is Some);
        }
    }
    assert(owner_stamp(cut.owners@, cut.owners@[0].id) is Some) by {
        lemma_owner_stamp(cut.owners@, 0);
    }
    let someone = cut.owners@[0].id;
    assert(child.text@.take(n)[0] == child.text@[0]);
    assert(rest.take(n)[0] == rest[0]);
    if is_prefix(t, path) {
        let p = path.skip(n);
        assert(path =~= t + p);
        assert(grown.ends(p) == (cut.ends(p) || p == after_rest || cut.stops(after_rest, p)));
        assert(cut.ends_through(path) == (child.ends_through(path) || path == t));
        assert(p == after_rest <==> path == rest) by {
            if p == after_rest {
                assert(rest =~= t + after_rest);
            }
        }
        lemma_prefix_after(path, rest, n);
        // What is held below the child is held along it.
        assert(forall|k: usize| (#[trigger] cut.through(path, k)) == cut.below(p, k));
        if p.len() == 0 {
            assert(path =~= t);
            assert(cut.ends(p));
            assert(cut.through(path, someone) is Some);
            if n < rest.len() {
                let next = rest.take(n + 1);
                assert(next.take(n) =~= rest.take(n));
                assert(next.skip(n) =~= after_rest.take(1));
                assert(forall|k: usize| (#[trigger] cut.through(next, k)) == cut.below(after_rest.take(1), k));
                if n < child.text@.len() {
                    // The edge was cut here: the text leaves it.
                    assert(!before.held(next)) by {
                        assert forall|k: usize| (#[trigger] cut.through(next, k)) is None by {
                            assert(cut.through(next, k) == child.through(next, k));
                            assert(next[n] != child.text@[n]);
                            if next.len() < child.text@.len() {
                                assert(child.text@.take(next.len() as int)[n] == child.text@[n]);
                            } else {
                                assert(next.take(child.text@.len() as int)[n] == next[n]);
                            }
                        }
                    }
                    assert(before.stops(rest, path));
                } else {
                    assert(child.text@ =~= t) by {
                        assert(child.text@.take(n) =~= child.text@);
                    }
                    assert(child.ends_through(path)) by {
                        assert(path.take(n) =~= path);
                    }
                }
            } else {
                assert(path =~= rest);
            }
        } else {
            assert(before.held(path) <==> cut.held(p)) by {
                if before.held(path) {
                    let k = choose|k: usize| (#[trigger] cut.through(path, k)) is Some;
                    assert(cut.below(p, k) is Some);
                }
                if cut.held(p) {
                    let k = choose|k: usize| (#[trigger] cut.below(p, k)) is Some;
                    assert(cut.through(path, k) is Some);
                }
            }
            if p.len() < after_rest.len() {
                let next = rest.take(path.len() as int + 1);
                let q = after_rest.take(p.len() as int + 1);
                assert(next.take(n) =~= rest.take(n));
                assert(next.skip(n) =~= q);
                assert(forall|k: usize| (#[trigger] cut.through(next, k)) == cut.below(q, k));
                assert(before.held(next) <==> cut.held(q)) by {
                    if before.held(next) {
                        let k = choose|k: usize| (#[trigger] cut.through(next, k)) is Some;
                        assert(cut.below(q, k) is Some);
                    }
                    if cut.held(q) {
                        let k = choose|k: usize| (#[trigger] cut.below(q, k)) is Some;
                        assert(cut.through(next, k) is Some);
                    }
                }
            }
        }
    } else {
        // The path ends inside the edge, or leaves it.
        assert(path != rest);
        if is_prefix(child.text@, path) {
            assert(path.take(n) =~= path.take(child.text@.len() as int).take(n));
        }
        if before.stops(rest, path) {
            if path.len() < n {
                let next = rest.take(path.len() as int + 1);
                assert(next =~= t.take(path.len() as int + 1)) by {
                    assert(rest.take(n).take(path.len() as int + 1) =~= next);
                }
                assert(cut.through(next, someone) is Some) by {
                    if next.len() == n {
                        assert(next =~= t);
                        assert(next.take(n) =~= next);
                        assert(next.skip(n).len() == 0);
                    }
                }
                assert(next[0] == rest[0]);
                assert(before.held(next));
            } else {
                assert(path.take(n) =~= rest.take(path.len() as int).take(n));
                assert(rest.take(path.len() as int).take(n) =~= rest.take(n));
            }
        }
    }
}

impl Node {
    /// Records `chars` below this edge.
    pub(crate) fn insert_below(&mut self, Ghost(log): Ghost<Seq<usize>>, chars: &Vec<char>, id: usize, now: u64)
        requires
            old(self).wf(log),
            now == log.len() + 1,
        ensures
            inserts(*old(self), *final(self), log.push(id), chars@, id, now),
    {
        let ghost log2 = log.push(id);
        let ghost start = *self;
        let mut pos: usize = 0;
        let mut cur: &mut Node = self;
        proof {
            assert(chars@.skip(0) =~= chars@);
        }
        loop
            invariant
                start == *old(self),
                log2 == log.push(id),
                now == log.len() + 1,
                pos <= chars@.len(),
                cur.wf(log),
                inserts(*cur, *final(cur), log2, chars@.skip(pos as int), id, now) ==> inserts(
                    start,
                    *after_borrow(self),
                    log2,
                    chars@,
                    id,
                    now,
                ),
            decreases chars@.len() - pos,
        {
            let ghost before = *cur;
            let ghost rest = chars@.skip(pos as int);
            set_owner(&mut cur.owners, id, now);
            let ghost marked = *cur;
            proof {
                lemma_marks(before, marked, log, id, now);
            }
            if pos == chars.len() {
                proof {
                    assert(rest =~= Seq::empty());
                    lemma_marked_end(before, marked, log2, id, now);
                }
                return;
            }
            let c = chars[pos];
            assert forall|j: int| 0 <= j < cur.children@.len() implies (#[trigger] cur.children@[j]).text@.len() > 0 by {
                assert(cur.child_ok(cur.children[j]));
            }
            match cur.find_child(c) {
                None => {
                    let mut text: Vec<char> = Vec::new();
                    let mut i: usize = pos;
                    while i < chars.len()
                        invariant
                            pos <= i <= chars@.len(),
                            text@ == chars@.subrange(pos as int, i as int),
                        decreases chars.len() - i,
                    {
                        text.push(chars[i]);
                        i += 1;
                        assert(text@ =~= chars@.subrange(pos as int, i as int));
                    }
                    let mut owners: Vec<Owner> = Vec::new();
                    owners.push(Owner { id, stamp: now });
                    let leaf = Node { text, owners, children: Vec::new() };
                    proof {
                        assert(leaf.text@ =~= rest);
                        assert(leaf.owners@ =~= seq![Owner { id, stamp: now }]);
                    }
                    cur.children.push(leaf);
                    proof {
                        lemma_leaf_recorded(before, marked, *cur, leaf, log2, rest, id, now);
                    }
                    return;
                },
                Some(i) => {
                    let k = cur.children[i].common_length(chars, pos);
                    let ghost child = cur.children[i as int];
                    proof {
                        assert(child == before.children[i as int]);
                        assert(child.wf(log) && marked.child_ok(child));
                        assert(k >= 1);
                    }
                    if k < cur.children[i].text.len() {
                        cur.children[i].split(Ghost(log), k);
                    }
                    let ghost cut = cur.children[i as int];
                    let ghost split = *cur;
                    proof {
                        assert(cur.children@ =~= marked.children@.update(i as int, cut));
                        assert(rest.skip(k as int) =~= chars@.skip(pos + k));
                        assert(cut.text@ =~= child.text@.take(k as int));
                        lemma_log_grows(cut, log, id);
                        lemma_cut(child, cut, log2, k as int, rest);
                        assert forall|grown: Node, after: Node|
                            #[trigger] inserts(cut, grown, log2, rest.skip(k as int), id, now) && after.text == split.text
                                && after.owners == split.owners && after.children@ == split.children@.update(i as int, grown)
                                implies #[trigger] inserts(before, after, log2, rest, id, now) by {
                            assert(after.children@ =~= marked.children@.update(i as int, grown));
                            lemma_child_recorded(before, marked, after, log2, cut, grown, i as int, rest, id, now);
                        }
                    }
                    cur = &mut cur.children[i];
                    pos = pos + k;
                },
            }
        }
    }
}

/// The first `k` characters of a child, which are as far as it agrees with the
/// text, are what it is cut to.
proof fn lemma_cut(child: Node, cut: Node, log: Seq<usize>, k: int, rest: Seq<char>)
    requires
        cut.wf(log),
        0 < k <= child.text@.len(),
        k <= rest.len(),
        child.text@.take(k) == rest.take(k),
        k < child.text@.len() && k < rest.len() ==> child.text@[k] != rest[k],
        k == child.text@.len() ==> cut == child,
        cut.text@ == child.text@.take(k),
        cut.owners@ == child.owners@,
        forall|path: Seq<char>, j: usize| #[trigger] cut.through(path, j) == child.through(path, j),
        k < child.text@.len() ==> forall|path: Seq<char>|
            #[trigger] cut.ends_through(path) == (child.ends_through(path) || path == cut.text@),
    ensures
        cuts(child, cut, log, rest),
{
    if k == child.text@.len() {
        let t = cut.text@;
        assert(t.take(k) =~= t);
        assert forall|path: Seq<char>| #[trigger]
            cut.ends_through(path) == (child.ends_through(path) || path == cut.text@) by {
            if path == t {
                assert(path.skip(k).len() == 0);
            }
        }
    }
}

} // verus!
