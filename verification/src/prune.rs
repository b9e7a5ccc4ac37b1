//! Evicting marks below an edge of the radix tree, and the edges that nobody
//! marks any more.

use crate::marks::{
    covered, distinct_owners, drop_stale_owners, in_log, lemma_owner_stamp, owner_stamp, owners_ok, pruned, Owner,
};
use crate::node::{
    lemma_below_child, lemma_ends_child, lemma_same_below, lemma_same_ends, lemma_through_covered, Node,
};
use crate::text::is_prefix;
use vstd::prelude::*;

verus! {

/// The marks that are left of `before`.
spec fn owners_thinned(before: Seq<Owner>, after: Seq<Owner>, cuts: Seq<u64>) -> bool {
    &&& distinct_owners(after)
    &&& after.len() > 0
    &&& forall|k: usize| #[trigger] owner_stamp(after, k) == pruned(owner_stamp(before, k), cuts, k)
    &&& forall|i: int| 0 <= i < after.len() ==> before.contains(#[trigger] after[i])
}

/// `after` is `before` without its own marks up to `cuts`; what hangs below is as
/// it was.
spec fn edge_thinned(before: Node, after: Node, cuts: Seq<u64>) -> bool {
    &&& after.text@ == before.text@
    &&& after.children@ == before.children@
    &&& owners_thinned(before.owners@, after.owners@, cuts)
}

/// What evicting up to `cuts` makes of what hangs below an edge.
pub open spec fn below_pruned(before: Node, after: Node, cuts: Seq<u64>) -> bool {
    &&& forall|path: Seq<char>, k: usize|
        path.len() > 0 ==> #[trigger] after.below(path, k) == pruned(before.below(path, k), cuts, k)
    &&& forall|path: Seq<char>|
        path.len() > 0 ==> (#[trigger] after.ends(path) <==> before.ends(path) && after.held(path))
}

/// `after` is `before` without the marks up to `cuts`.
spec fn edge_pruned(before: Node, after: Node, log: Seq<usize>, cuts: Seq<u64>) -> bool {
    &&& after.wf(log)
    &&& after.text@ == before.text@
    &&& after.owners@.len() > 0
    &&& forall|k: usize|
        #[trigger] owner_stamp(after.owners@, k) == pruned(owner_stamp(before.owners@, k), cuts, k)
    &&& below_pruned(before, after, cuts)
}

/// Nobody marks the edge once everyone has been evicted up to `cuts`.
spec fn edge_gone(before: Node, cuts: Seq<u64>) -> bool {
    forall|k: usize| pruned(#[trigger] owner_stamp(before.owners@, k), cuts, k) is None
}

proof fn lemma_pruned_through(
    before: Node,
    after: Node,
    log: Seq<usize>,
    cuts: Seq<u64>,
    path: Seq<char>,
    k: usize,
)
    requires
        edge_pruned(before, after, log, cuts),
        path.len() > 0,
    ensures
        after.through(path, k) == pruned(before.through(path, k), cuts, k),
{
    let n = before.text@.len() as int;
    if path.len() >= n && is_prefix(before.text@, path) {
        let p = path.skip(n);
        if p.len() > 0 {
            assert(after.below(p, k) == pruned(before.below(p, k), cuts, k));
        }
    }
}

proof fn lemma_pruned_ends_through(
    before: Node,
    after: Node,
    log: Seq<usize>,
    cuts: Seq<u64>,
    path: Seq<char>,
)
    requires
        edge_pruned(before, after, log, cuts),
        path.len() > 0,
    ensures
        after.ends_through(path) <==> before.ends_through(path) && exists|k: usize|
            (#[trigger] after.through(path, k)) is Some,
{
    let n = before.text@.len() as int;
    if is_prefix(before.text@, path) {
        let p = path.skip(n);
        assert(forall|k: usize| (#[trigger] after.through(path, k)) == after.below(p, k));
        if p.len() > 0 {
            assert(after.ends(p) <==> before.ends(p) && after.held(p));
            if after.held(p) {
                let k = choose|k: usize| (#[trigger] after.below(p, k)) is Some;
                assert(after.through(path, k) is Some);
            }
            if exists|k: usize| (#[trigger] after.through(path, k)) is Some {
                let k = choose|k: usize| (#[trigger] after.through(path, k)) is Some;
                assert(after.below(p, k) is Some);
            }
        } else {
            lemma_owner_stamp(after.owners@, 0);
            assert(after.through(path, after.owners@[0].id) is Some);
        }
    }
}

proof fn lemma_gone_through(before: Node, log: Seq<usize>, cuts: Seq<u64>, path: Seq<char>, k: usize)
    requires
        before.wf(log),
        edge_gone(before, cuts),
    ensures
        pruned(before.through(path, k), cuts, k) is None,
{
    if before.through(path, k) is Some {
        lemma_through_covered(before, log, path, k);
        assert(pruned(owner_stamp(before.owners@, k), cuts, k) is None);
    }
}

/// Which of the first `n` children are left: the `m`-th of them was the
/// `from[m]`-th.
spec fn left_of(before: Seq<Node>, from: Seq<int>, n: int, cuts: Seq<u64>) -> bool {
    &&& 0 <= n <= before.len()
    &&& forall|m: int| 0 <= m < from.len() ==> 0 <= #[trigger] from[m] < n
    &&& forall|a: int, b: int| 0 <= a < b < from.len() ==> #[trigger] from[a] < #[trigger] from[b]
    &&& forall|j: int| 0 <= j < n ==> from.contains(j) || edge_gone(#[trigger] before[j], cuts)
}

proof fn lemma_left_push(before: Seq<Node>, from: Seq<int>, n: int, cuts: Seq<u64>)
    requires
        left_of(before, from, n, cuts),
        n < before.len(),
    ensures
        left_of(before, from.push(n), n + 1, cuts),
{
    let from2 = from.push(n);
    assert forall|j: int| 0 <= j < n + 1 implies from2.contains(j) || edge_gone(#[trigger] before[j], cuts) by {
        if j == n {
            assert(from2[from.len() as int] == n);
        } else if from.contains(j) {
            let m = choose|m: int| 0 <= m < from.len() && from[m] == j;
            assert(from2[m] == j);
        }
    }
    assert forall|m: int| 0 <= m < from2.len() implies 0 <= #[trigger] from2[m] < n + 1 by {
        if m < from.len() {
            assert(0 <= from[m] < n);
        }
    }
}

/// An edge whose children have been pruned is pruned below.
proof fn lemma_node_pruned(
    before: Node,
    after: Node,
    from: Seq<int>,
    log: Seq<usize>,
    cuts: Seq<u64>,
)
    requires
        before.wf(log),
        after.owners@ == before.owners@,
        left_of(before.children@, from, before.children@.len() as int, cuts),
        from.len() == after.children@.len(),
        forall|m: int|
            0 <= m < from.len() ==> edge_pruned(
                before.children@[#[trigger] from[m]],
                after.children@[m],
                log,
                cuts,
            ),
    ensures
        after.wf(log),
        below_pruned(before, after, cuts),
{
    let b = before.children@;
    let a = after.children@;
    assert(after.distinct_children()) by {
        assert forall|i: int, j: int| 0 <= i < j < a.len() implies #[trigger] a[i].text@[0] != #[trigger] a[j].text@[0] by {
            assert(from[i] < from[j]);
            assert(b[from[i]].text@[0] != b[from[j]].text@[0]);
        }
    }
    assert forall|m: int| 0 <= m < a.len() implies (#[trigger] after.children[m]).wf(log) && after.child_ok(
        after.children[m],
    ) by {
        let j = from[m];
        assert(edge_pruned(b[j], a[m], log, cuts));
        assert(before.child_ok(before.children[j]));
        assert(covered(a[m].owners@, after.owners@)) by {
            assert forall|k: usize| (#[trigger] owner_stamp(a[m].owners@, k)) is Some implies owner_stamp(after.owners@, k) is Some
                && owner_stamp(a[m].owners@, k)->0 <= owner_stamp(after.owners@, k)->0 by {
                assert(owner_stamp(a[m].owners@, k) == pruned(owner_stamp(b[j].owners@, k), cuts, k));
                assert(owner_stamp(b[j].owners@, k) is Some);
            }
        }
    }
    assert forall|path: Seq<char>, k: usize| path.len() > 0 implies #[trigger] after.below(path, k) == pruned(
        before.below(path, k),
        cuts,
        k,
    ) by {
        if exists|m: int| after.child_at(path[0], m) {
            let m = choose|m: int| after.child_at(path[0], m);
            let j = from[m];
            assert(edge_pruned(b[j], a[m], log, cuts));
            assert(before.child_at(path[0], j));
            lemma_below_child(after, m, path, k);
            lemma_below_child(before, j, path, k);
            lemma_pruned_through(b[j], a[m], log, cuts, path, k);
        } else if exists|j: int| before.child_at(path[0], j) {
            let j = choose|j: int| before.child_at(path[0], j);
            lemma_below_child(before, j, path, k);
            assert(before.children[j].wf(log));
            if from.contains(j) {
                let m = choose|m: int| 0 <= m < from.len() && from[m] == j;
                assert(edge_pruned(b[from[m]], a[m], log, cuts));
                assert(after.child_at(path[0], m));
            } else {
                assert(edge_gone(b[j], cuts));
                lemma_gone_through(b[j], log, cuts, path, k);
            }
        }
    }
    assert forall|path: Seq<char>| path.len() > 0 implies (#[trigger] after.ends(path) <==> before.ends(path)
        && after.held(path)) by {
        if exists|m: int| after.child_at(path[0], m) {
            let m = choose|m: int| after.child_at(path[0], m);
            let j = from[m];
            assert(edge_pruned(b[j], a[m], log, cuts));
            assert(before.child_at(path[0], j));
            lemma_ends_child(after, m, path);
            lemma_ends_child(before, j, path);
            lemma_pruned_ends_through(b[j], a[m], log, cuts, path);
            assert forall|k: usize| after.below(path, k) == a[m].through(path, k) by {
                lemma_below_child(after, m, path, k);
            }
            if after.held(path) {
                let k = choose|k: usize| (#[trigger] after.below(path, k)) is Some;
                assert(a[m].through(path, k) is Some);
            }
            if after.ends(path) {
                let k = choose|k: usize| (#[trigger] a[m].through(path, k)) is Some;
                assert(after.below(path, k) is Some);
            }
        } else {
            assert(!after.held(path)) by {
                assert(forall|k: usize| (#[trigger] after.below(path, k)) is None);
            }
        }
    }
}

/// An edge that was pruned below and then lost its own stale marks is pruned.
proof fn lemma_restamped(
    whole: Node,
    thinned: Node,
    after: Node,
    log: Seq<usize>,
    cuts: Seq<u64>,
)
    requires
        whole.wf(log),
        thinned.wf(log),
        thinned.text@ == whole.text@,
        thinned.owners@ == whole.owners@,
        below_pruned(whole, thinned, cuts),
        after.text@ == thinned.text@,
        after.children@ == thinned.children@,
        owners_thinned(whole.owners@, after.owners@, cuts),
    ensures
        edge_pruned(whole, after, log, cuts),
{
    assert(owners_ok(after.owners@, log)) by {
        assert forall|i: int| 0 <= i < after.owners@.len() implies in_log(#[trigger] after.owners@[i], log) by {
            assert(whole.owners@.contains(after.owners@[i]));
            let j = choose|j: int| 0 <= j < whole.owners@.len() && whole.owners@[j] == after.owners@[i];
            assert(in_log(whole.owners@[j], log));
        }
    }
    assert forall|i: int| 0 <= i < after.children@.len() implies (#[trigger] after.children[i]).wf(log) && after.child_ok(
        after.children[i],
    ) by {
        let c = thinned.children[i];
        assert(c.wf(log) && thinned.child_ok(c));
        assert(after.children[i] == c);
        assert(covered(c.owners@, after.owners@)) by {
            assert forall|k: usize| (#[trigger] owner_stamp(c.owners@, k)) is Some implies owner_stamp(after.owners@, k) is Some
                && owner_stamp(c.owners@, k)->0 <= owner_stamp(after.owners@, k)->0 by {
                assert(owner_stamp(thinned.owners@, k) is Some);
                if pruned(owner_stamp(thinned.owners@, k), cuts, k) is None {
                    // The child would have kept a mark that is stale.
                    let p = c.text@;
                    assert(thinned.child_at(p[0], i));
                    lemma_below_child(thinned, i, p, k);
                    assert(p.take(p.len() as int) =~= p);
                    assert(thinned.below(p, k) == owner_stamp(c.owners@, k));
                    assert(thinned.below(p, k) == pruned(whole.below(p, k), cuts, k));
                }
            }
        }
    }
    assert(after.distinct_children()) by {
        assert forall|i: int, j: int| 0 <= i < j < after.children@.len() implies #[trigger] after.children@[i].text@[0]
            != #[trigger] after.children@[j].text@[0] by {
            assert(thinned.children@[i].text@[0] != thinned.children@[j].text@[0]);
        }
    }
    assert(after.wf(log));
    assert forall|path: Seq<char>, k: usize| path.len() > 0 implies #[trigger] after.below(path, k) == thinned.below(
        path,
        k,
    ) by {
        lemma_same_below(after, thinned, path, k);
    }
    assert forall|path: Seq<char>, k: usize| path.len() > 0 implies #[trigger] after.below(path, k) == pruned(
        whole.below(path, k),
        cuts,
        k,
    ) by {
        assert(thinned.below(path, k) == pruned(whole.below(path, k), cuts, k));
    }
    assert forall|path: Seq<char>| path.len() > 0 implies (#[trigger] after.ends(path) <==> whole.ends(path)
        && after.held(path)) by {
        lemma_same_ends(after, thinned, path);
        assert(thinned.ends(path) <==> whole.ends(path) && thinned.held(path));
        if after.held(path) {
            let k = choose|k: usize| (#[trigger] after.below(path, k)) is Some;
            assert(thinned.below(path, k) is Some);
        }
        if thinned.held(path) {
            let k = choose|k: usize| (#[trigger] thinned.below(path, k)) is Some;
            assert(after.below(path, k) is Some);
        }
    }
}

// ---------------------------------------------------------------------------
// The size of what is still to be done
// ---------------------------------------------------------------------------

/// The edges from these ones down.
spec fn nodes_in(nodes: Seq<Node>) -> nat
    decreases nodes.len(),
{
    if nodes.len() == 0 {
        0
    } else {
        nodes_in(nodes.drop_last()) + nodes.last().nodes()
    }
}

proof fn lemma_nodes_push(nodes: Seq<Node>, node: Node)
    ensures
        nodes_in(nodes.push(node)) == nodes_in(nodes) + node.nodes(),
{
    assert(nodes.push(node).drop_last() =~= nodes);
}

proof fn lemma_nodes_append(a: Seq<Node>, b: Seq<Node>)
    ensures
        nodes_in(a + b) == nodes_in(a) + nodes_in(b),
    decreases b.len(),
{
    if b.len() == 0 {
        assert(a + b =~= a);
    } else {
        assert((a + b).drop_last() =~= a + b.drop_last());
        lemma_nodes_append(a, b.drop_last());
    }
}

proof fn lemma_nodes_first(node: Node, n: nat)
    requires
        n <= node.children@.len(),
    ensures
        node.nodes_first(n) == nodes_in(node.children@.take(n as int)),
    decreases n,
{
    if n > 0 {
        lemma_nodes_first(node, (n - 1) as nat);
        let t = node.children@.take(n as int);
        assert(t.drop_last() =~= node.children@.take(n - 1));
        assert(t.last() == node.children[n - 1]);
    }
}

proof fn lemma_nodes_below(node: Node)
    ensures
        node.nodes() == 1 + nodes_in(node.children@),
{
    lemma_nodes_first(node, node.children@.len());
    assert(node.children@.take(node.children@.len() as int) =~= node.children@);
}

/// Takes edges apart, one by one, so that dropping them needs no more stack for
/// a deep tree than for a flat one.
fn dismantle(nodes: Vec<Node>) {
    let mut open: Vec<Node> = nodes;
    loop
        decreases nodes_in(open@),
    {
        match open.pop() {
            Some(node) => {
                let mut node: Node = node;
                proof {
                    lemma_nodes_below(node);
                    lemma_nodes_append(open@, node.children@);
                }
                open.append(&mut node.children);
            },
            None => {
                return;
            },
        }
    }
}

// ---------------------------------------------------------------------------
// Evicting
// ---------------------------------------------------------------------------

/// An edge that is being pruned: its marks and the children that are done, and
/// the children that are still to be pruned, the first one last.
struct Frame {
    node: Node,
    todo: Vec<Node>,
    whole: Ghost<Node>,
    from: Ghost<Seq<int>>,
}

impl Frame {
    /// The frame is that of an edge of which `open` children, one or none, are
    /// being pruned elsewhere. The topmost edge keeps its own marks.
    spec fn ok(self, open: int, top: bool, log: Seq<usize>, cuts: Seq<u64>) -> bool {
        let whole = self.whole@;
        let from = self.from@;
        let done = self.node.children@;
        let todo = self.todo@;
        &&& whole.wf(log)
        &&& self.node.text@ == whole.text@
        &&& if top {
            self.node.owners@ == whole.owners@
        } else {
            owners_thinned(whole.owners@, self.node.owners@, cuts)
        }
        &&& left_of(whole.children@, from, whole.children@.len() as int, cuts)
        &&& from.len() == done.len() + open + todo.len()
        &&& forall|m: int|
            0 <= m < done.len() ==> edge_pruned(whole.children@[from[m]], #[trigger] done[m], log, cuts)
        &&& forall|m: int|
            0 <= m < todo.len() ==> edge_thinned(
                whole.children@[from[from.len() - 1 - m]],
                #[trigger] todo[m],
                cuts,
            )
    }

    /// The child that is being pruned elsewhere.
    spec fn current(self) -> Node {
        self.whole@.children@[self.from@[self.node.children@.len() as int]]
    }
}

/// How much these frames leave to be done.
spec fn work(frames: Seq<Frame>) -> nat
    decreases frames.len(),
{
    if frames.len() == 0 {
        0
    } else {
        work(frames.drop_last()) + 1 + 2 * nodes_in(frames.last().todo@)
    }
}

/// Drops the stale marks of edges, and the edges that nobody marks any more.
fn thin(all: Vec<Node>, Ghost(log): Ghost<Seq<usize>>, cuts: &Vec<u64>) -> (r: (Vec<Node>, Ghost<Seq<int>>))
    requires
        forall|i: int| 0 <= i < all@.len() ==> (#[trigger] all@[i]).wf(log),
    ensures
        left_of(all@, r.1@, all@.len() as int, cuts@),
        r.1@.len() == r.0@.len(),
        forall|m: int| 0 <= m < r.0@.len() ==> edge_thinned(all@[r.1@[m]], #[trigger] r.0@[m], cuts@),
        nodes_in(r.0@) <= nodes_in(all@),
{
    let ghost before = all@;
    let mut left: Vec<Node> = Vec::new();
    let mut gone: Vec<Node> = Vec::new();
    let ghost mut from: Seq<int> = Seq::empty();
    for c in it: all
        invariant
            it.seq() == before,
            forall|i: int| 0 <= i < before.len() ==> (#[trigger] before[i]).wf(log),
            left_of(before, from, it.index() as int, cuts@),
            from.len() == left@.len(),
            forall|m: int| 0 <= m < left@.len() ==> edge_thinned(before[from[m]], #[trigger] left@[m], cuts@),
            nodes_in(left@) <= nodes_in(before.take(it.index() as int)),
    {
        let ghost n = it.index() as int;
        let mut c: Node = c;
        let ghost whole = before[n];
        assert(whole.wf(log));
        drop_stale_owners(&mut c.owners, cuts);
        proof {
            let t = before.take(n + 1);
            assert(t.drop_last() =~= before.take(n));
            lemma_nodes_below(c);
            lemma_nodes_below(whole);
        }
        if c.owners.len() > 0 {
            proof {
                assert(edge_thinned(whole, c, cuts@));
                lemma_left_push(before, from, n, cuts@);
                lemma_nodes_push(left@, c);
                from = from.push(n);
            }
            left.push(c);
        } else {
            proof {
                assert(edge_gone(whole, cuts@)) by {
                    assert forall|k: usize| pruned(#[trigger] owner_stamp(whole.owners@, k), cuts@, k) is None by {
                        assert(owner_stamp(c.owners@, k) is None);
                    }
                }
            }
            gone.push(c);
        }
    }
    dismantle(gone);
    assert(before.take(before.len() as int) =~= before);
    (left, Ghost(from))
}

/// Starts to prune an edge.
fn start(
    node: Node,
    Ghost(whole): Ghost<Node>,
    Ghost(top): Ghost<bool>,
    Ghost(log): Ghost<Seq<usize>>,
    cuts: &Vec<u64>,
) -> (r: Frame)
    requires
        whole.wf(log),
        node.text@ == whole.text@,
        node.children@ == whole.children@,
        if top {
            node.owners@ == whole.owners@
        } else {
            owners_thinned(whole.owners@, node.owners@, cuts@)
        },
    ensures
        r.ok(0, top, log, cuts@),
        r.whole@ == whole,
        nodes_in(r.todo@) < node.nodes(),
{
    proof {
        lemma_nodes_below(node);
    }
    let Node { text, owners, children } = node;
    assert forall|i: int| 0 <= i < children@.len() implies (#[trigger] children@[i]).wf(log) by {
        assert(whole.children[i].wf(log));
    }
    let (left, Ghost(from)) = thin(children, Ghost(log), cuts);
    let ghost kept = left@;
    let mut left: Vec<Node> = left;
    let mut todo: Vec<Node> = Vec::new();
    loop
        invariant
            left@.len() + todo@.len() == kept.len(),
            left@ == kept.take(left@.len() as int),
            forall|m: int| 0 <= m < todo@.len() ==> #[trigger] todo@[m] == kept[kept.len() - 1 - m],
            nodes_in(left@) + nodes_in(todo@) == nodes_in(kept),
        ensures
            left@.len() == 0,
        decreases left@.len(),
    {
        match left.pop() {
            Some(c) => {
                proof {
                    lemma_nodes_push(todo@, c);
                    lemma_nodes_push(left@, c);
                    assert(left@.push(c) =~= kept.take(left@.len() as int + 1));
                }
                todo.push(c);
                assert(left@ =~= kept.take(left@.len() as int));
            },
            None => {
                break;
            },
        }
    }
    let node = Node { text, owners, children: Vec::new() };
    Frame { node, todo, whole: Ghost(whole), from: Ghost(from) }
}

/// An edge all of whose children are done is pruned.
proof fn lemma_finished(frame: Frame, top: bool, log: Seq<usize>, cuts: Seq<u64>)
    requires
        frame.ok(0, top, log, cuts),
        frame.todo@.len() == 0,
    ensures
        top ==> frame.node.wf(log) && below_pruned(frame.whole@, frame.node, cuts),
        !top ==> edge_pruned(frame.whole@, frame.node, log, cuts),
{
    let whole = frame.whole@;
    let thinned = Node { text: frame.node.text, owners: whole.owners, children: frame.node.children };
    assert forall|m: int| 0 <= m < frame.from@.len() implies edge_pruned(
        whole.children@[#[trigger] frame.from@[m]],
        frame.node.children@[m],
        log,
        cuts,
    ) by {
        assert(edge_pruned(whole.children@[frame.from@[m]], frame.node.children@[m], log, cuts));
    }
    if top {
        lemma_node_pruned(whole, frame.node, frame.from@, log, cuts);
    } else {
        lemma_node_pruned(whole, thinned, frame.from@, log, cuts);
        lemma_restamped(whole, thinned, frame.node, log, cuts);
    }
}

impl Node {
    /// Evicts the marks up to `cuts` below this edge, and the edges that nobody
    /// marks any more.
    pub(crate) fn prune(&mut self, Ghost(log): Ghost<Seq<usize>>, cuts: &Vec<u64>)
        requires
            old(self).wf(log),
        ensures
            final(self).wf(log),
            final(self).text@ == old(self).text@,
            final(self).owners@ == old(self).owners@,
            below_pruned(*old(self), *final(self), cuts@),
    {
        let ghost before = *self;
        let mut root = Node { text: Vec::new(), owners: Vec::new(), children: Vec::new() };
        std::mem::swap(self, &mut root);
        let mut above: Vec<Frame> = Vec::new();
        let mut cur: Frame = start(root, Ghost(before), Ghost(true), Ghost(log), cuts);
        loop
            invariant
                before.wf(log),
                before == *old(self),
                cur.ok(0, above@.len() == 0, log, cuts@),
                forall|i: int| 0 <= i < above@.len() ==> (#[trigger] above@[i]).ok(1, i == 0, log, cuts@),
                forall|i: int| 0 < i < above@.len() ==> (#[trigger] above@[i]).whole@ == above@[i - 1].current(),
                above@.len() > 0 ==> cur.whole@ == above@.last().current() && above@[0].whole@ == before,
                above@.len() == 0 ==> cur.whole@ == before,
            decreases work(above@) + 1 + 2 * nodes_in(cur.todo@),
        {
            let ghost last = cur;
            match cur.todo.pop() {
                Some(child) => {
                    let ghost whole = cur.current();
                    proof {
                        let m = last.todo@.len() - 1;
                        assert(edge_thinned(last.whole@.children@[last.from@[last.from@.len() - 1 - m]], last.todo@[m], cuts@));
                        assert(cur.whole@.children[last.from@[last.node.children@.len() as int]].wf(log));
                        lemma_nodes_push(cur.todo@, child);
                        assert(cur.todo@.push(child) =~= last.todo@);
                        assert(above@.push(cur).drop_last() =~= above@);
                    }
                    let next = start(child, Ghost(whole), Ghost(false), Ghost(log), cuts);
                    above.push(cur);
                    cur = next;
                },
                None => {
                    proof {
                        lemma_finished(cur, above@.len() == 0, log, cuts@);
                    }
                    let node = cur.node;
                    match above.pop() {
                        Some(parent) => {
                            let mut parent: Frame = parent;
                            parent.node.children.push(node);
                            cur = parent;
                        },
                        None => {
                            *self = node;
                            return;
                        },
                    }
                },
            }
        }
    }
}

} // verus!
