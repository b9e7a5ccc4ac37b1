//! Counting below an edge of the radix tree: characters, edges, marks.

use crate::marks::{
    distinct_owners, find_owner, in_log, lemma_owner_index, lemma_owner_stamp, owner_stamp, pruned, Owner,
};
use crate::node::Node;
use vstd::prelude::*;

verus! {

// ---------------------------------------------------------------------------
// Edges
// ---------------------------------------------------------------------------

/// Whether one of these marks was set after `cut`, and is left by an eviction up
/// to `cuts`.
pub open spec fn marked_after(owners: Seq<Owner>, cuts: Seq<u64>, cut: u64) -> bool {
    exists|id: usize| after_cut(pruned(#[trigger] owner_stamp(owners, id), cuts, id), cut)
}

/// Whether a mark is more recent than `cut`.
pub open spec fn after_cut(mark: Option<u64>, cut: u64) -> bool {
    mark is Some && mark->0 > cut
}

impl Node {
    /// The edges from this one down.
    pub open spec fn nodes(self) -> nat
        decreases self, self.children@.len() + 1,
    {
        1 + self.nodes_first(self.children@.len())
    }

    pub open spec fn nodes_first(self, n: nat) -> nat
        decreases self, n,
    {
        if n == 0 || n > self.children@.len() {
            0
        } else {
            self.nodes_first((n - 1) as nat) + self.children[n - 1].nodes()
        }
    }

    /// The edges below this one that someone marked after `cut`, if what an
    /// eviction up to `cuts` takes does not count.
    pub open spec fn live(self, cuts: Seq<u64>, cut: u64) -> nat
        decreases self, self.children@.len() + 1,
    {
        self.live_first(cuts, cut, self.children@.len())
    }

    /// The same for the first `n` children only.
    pub open spec fn live_first(self, cuts: Seq<u64>, cut: u64, n: nat) -> nat
        decreases self, n,
    {
        if n == 0 || n > self.children@.len() {
            0
        } else {
            self.live_first(cuts, cut, (n - 1) as nat) + self.children[n - 1].live_edge(cuts, cut)
                + self.children[n - 1].live(cuts, cut)
        }
    }

    /// One, if someone marked this edge after `cut` and `cuts`.
    pub open spec fn live_edge(self, cuts: Seq<u64>, cut: u64) -> nat {
        if marked_after(self.owners@, cuts, cut) {
            1
        } else {
            0
        }
    }
}

/// The edges from these ones down.
pub open spec fn nodes_on(nodes: Seq<&Node>) -> nat
    decreases nodes.len(),
{
    if nodes.len() == 0 {
        0
    } else {
        nodes_on(nodes.drop_last()) + nodes.last().nodes()
    }
}

spec fn live_on(nodes: Seq<&Node>, cuts: Seq<u64>, cut: u64) -> nat
    decreases nodes.len(),
{
    if nodes.len() == 0 {
        0
    } else {
        live_on(nodes.drop_last(), cuts, cut) + nodes.last().live(cuts, cut)
    }
}

/// Nothing is left below an edge that nobody marked after the cut.
pub(crate) proof fn lemma_live_nothing(node: Node, log: Seq<usize>, cuts: Seq<u64>, cut: u64)
    requires
        node.wf(log),
        !marked_after(node.owners@, cuts, cut),
    ensures
        node.live(cuts, cut) == 0,
    decreases node, node.children@.len() + 1,
{
    lemma_live_first_nothing(node, log, cuts, cut, node.children@.len());
}

proof fn lemma_live_first_nothing(node: Node, log: Seq<usize>, cuts: Seq<u64>, cut: u64, n: nat)
    requires
        node.wf(log),
        n <= node.children@.len(),
        !marked_after(node.owners@, cuts, cut),
    ensures
        node.live_first(cuts, cut, n) == 0,
    decreases node, n,
{
    if n > 0 {
        lemma_live_first_nothing(node, log, cuts, cut, (n - 1) as nat);
        let c = node.children[n - 1];
        assert(c.wf(log) && node.child_ok(c));
        if marked_after(c.owners@, cuts, cut) {
            let id = choose|id: usize| after_cut(pruned(#[trigger] owner_stamp(c.owners@, id), cuts, id), cut);
            assert(after_cut(pruned(owner_stamp(node.owners@, id), cuts, id), cut));
        }
        lemma_live_nothing(c, log, cuts, cut);
    }
}

/// Someone marks every edge, so all of them are left at the beginning.
pub(crate) proof fn lemma_nodes_live(node: Node, log: Seq<usize>)
    requires
        node.wf(log),
    ensures
        node.nodes() == 1 + node.live(Seq::empty(), 0),
    decreases node, node.children@.len() + 1,
{
    lemma_nodes_live_first(node, log, node.children@.len());
}

proof fn lemma_nodes_live_first(node: Node, log: Seq<usize>, n: nat)
    requires
        node.wf(log),
        n <= node.children@.len(),
    ensures
        node.nodes_first(n) == node.live_first(Seq::empty(), 0, n),
    decreases node, n,
{
    if n > 0 {
        lemma_nodes_live_first(node, log, (n - 1) as nat);
        let c = node.children[n - 1];
        assert(c.wf(log) && node.child_ok(c));
        lemma_nodes_live(c, log);
        lemma_owner_stamp(c.owners@, 0);
        assert(in_log(c.owners@[0], log));
        assert(after_cut(pruned(owner_stamp(c.owners@, c.owners@[0].id), Seq::empty(), c.owners@[0].id), 0));
    }
}

proof fn lemma_live_first_grows(node: Node, cuts: Seq<u64>, cut: u64, a: nat, b: nat)
    requires
        a <= b <= node.children@.len(),
    ensures
        node.live_first(cuts, cut, a) <= node.live_first(cuts, cut, b),
    decreases b,
{
    if a < b {
        lemma_live_first_grows(node, cuts, cut, a, (b - 1) as nat);
    }
}

fn is_marked_after(owners: &Vec<Owner>, cuts: &Vec<u64>, cut: u64) -> (r: bool)
    requires
        distinct_owners(owners@),
    ensures
        r == marked_after(owners@, cuts@, cut),
{
    let mut i: usize = 0;
    while i < owners.len()
        invariant
            i <= owners@.len(),
            distinct_owners(owners@),
            forall|j: int|
                0 <= j < i ==> !after_cut(
                    pruned(Some((#[trigger] owners@[j]).stamp), cuts@, owners@[j].id),
                    cut,
                ),
        decreases owners.len() - i,
    {
        let o: Owner = owners[i];
        if o.stamp > cut && !(o.id < cuts.len() && o.stamp <= cuts[o.id]) {
            proof {
                lemma_owner_stamp(owners@, i as int);
                assert(after_cut(pruned(owner_stamp(owners@, o.id), cuts@, o.id), cut));
            }
            return true;
        }
        i += 1;
    }
    proof {
        if marked_after(owners@, cuts@, cut) {
            let id = choose|id: usize| after_cut(pruned(#[trigger] owner_stamp(owners@, id), cuts@, id), cut);
            let j = lemma_owner_index(owners@, id);
            assert(!after_cut(pruned(Some(owners@[j].stamp), cuts@, owners@[j].id), cut));
        }
    }
    false
}

impl Node {
    /// Counts the edges below this one that someone marked after `cut`, if what
    /// an eviction up to `cuts` takes does not count.
    pub(crate) fn count_live(&self, Ghost(log): Ghost<Seq<usize>>, cuts: &Vec<u64>, cut: u64) -> (r: Option<usize>)
        requires
            self.wf(log),
        ensures
            r == if_fits(self.live(cuts@, cut)),
    {
        let mut total: usize = 0;
        let mut open: Vec<&Node> = Vec::new();
        open.push(self);
        proof {
            assert(open@.drop_last() =~= Seq::empty());
            assert(live_on(open@.drop_last(), cuts@, cut) == 0);
        }
        loop
            invariant
                forall|j: int| 0 <= j < open@.len() ==> (#[trigger] open@[j]).wf(log),
                total + live_on(open@, cuts@, cut) == self.live(cuts@, cut),
            decreases nodes_on(open@),
        {
            let node: &Node = match open.pop() {
                Some(node) => node,
                None => {
                    return Some(total);
                },
            };
            let mut i: usize = 0;
            let ghost below = nodes_on(open@);
            assert(node.wf(log));
            while i < node.children.len()
                invariant
                    node.wf(log),
                    i <= node.children@.len(),
                    forall|j: int| 0 <= j < open@.len() ==> (#[trigger] open@[j]).wf(log),
                    total + live_on(open@, cuts@, cut) + node.live(cuts@, cut) - node.live_first(cuts@, cut, i as nat)
                        == self.live(cuts@, cut),
                    nodes_on(open@) <= below + node.nodes_first(i as nat),
                decreases node.children.len() - i,
            {
                let child: &Node = &node.children[i];
                assert(child.wf(log));
                proof {
                    lemma_live_first_grows(*node, cuts@, cut, (i + 1) as nat, node.children@.len());
                }
                if is_marked_after(&child.owners, cuts, cut) {
                    if total == usize::MAX {
                        return None;
                    }
                    total += 1;
                    let ghost sofar = open@;
                    open.push(child);
                    assert(open@.drop_last() =~= sofar);
                } else {
                    proof {
                        lemma_live_nothing(*child, log, cuts@, cut);
                    }
                }
                i += 1;
            }
        }
    }
}

// ---------------------------------------------------------------------------
// Characters
// ---------------------------------------------------------------------------

impl Node {
    /// The characters of this edge, if `id` marked it after `cut`.
    pub open spec fn edge(self, id: usize, cut: u64) -> nat {
        if owner_stamp(self.owners@, id) is Some && owner_stamp(self.owners@, id)->0 > cut {
            self.text@.len()
        } else {
            0
        }
    }

    /// The characters below this edge that `id` marked after `cut`.
    pub open spec fn kept(self, id: usize, cut: u64) -> nat
        decreases self, self.children@.len() + 1,
    {
        self.kept_first(id, cut, self.children@.len())
    }

    /// The same for the first `n` children only.
    pub open spec fn kept_first(self, id: usize, cut: u64, n: nat) -> nat
        decreases self, n,
    {
        if n == 0 || n > self.children@.len() {
            0
        } else {
            self.kept_first(id, cut, (n - 1) as nat) + self.children[n - 1].edge(id, cut)
                + self.children[n - 1].kept(id, cut)
        }
    }
}

spec fn kept_on(nodes: Seq<&Node>, id: usize, cut: u64) -> nat
    decreases nodes.len(),
{
    if nodes.len() == 0 {
        0
    } else {
        kept_on(nodes.drop_last(), id, cut) + nodes.last().kept(id, cut)
    }
}

/// The later the cut, the less is kept.
pub(crate) proof fn lemma_kept_falls(node: Node, id: usize, lo: u64, hi: u64)
    requires
        lo <= hi,
    ensures
        node.kept(id, hi) <= node.kept(id, lo),
    decreases node, node.children@.len() + 1,
{
    lemma_kept_first_falls(node, id, lo, hi, node.children@.len());
}

proof fn lemma_kept_first_falls(node: Node, id: usize, lo: u64, hi: u64, n: nat)
    requires
        lo <= hi,
        n <= node.children@.len(),
    ensures
        node.kept_first(id, hi, n) <= node.kept_first(id, lo, n),
    decreases node, n,
{
    if n > 0 {
        lemma_kept_first_falls(node, id, lo, hi, (n - 1) as nat);
        lemma_kept_falls(node.children[n - 1], id, lo, hi);
    }
}

/// Whoever does not mark an edge after the cut keeps nothing below it.
pub(crate) proof fn lemma_kept_nothing(node: Node, log: Seq<usize>, id: usize, cut: u64)
    requires
        node.wf(log),
        owner_stamp(node.owners@, id) is Some ==> owner_stamp(node.owners@, id)->0 <= cut,
    ensures
        node.kept(id, cut) == 0,
    decreases node, node.children@.len() + 1,
{
    lemma_kept_first_nothing(node, log, id, cut, node.children@.len());
}

proof fn lemma_kept_first_nothing(node: Node, log: Seq<usize>, id: usize, cut: u64, n: nat)
    requires
        node.wf(log),
        n <= node.children@.len(),
        owner_stamp(node.owners@, id) is Some ==> owner_stamp(node.owners@, id)->0 <= cut,
    ensures
        node.kept_first(id, cut, n) == 0,
    decreases node, n,
{
    if n > 0 {
        lemma_kept_first_nothing(node, log, id, cut, (n - 1) as nat);
        let c = node.children[n - 1];
        assert(c.wf(log) && node.child_ok(c));
        assert(owner_stamp(c.owners@, id) is Some ==> owner_stamp(c.owners@, id)->0 <= cut);
        lemma_kept_nothing(c, log, id, cut);
    }
}

/// `n` if a machine word can hold it.
pub open spec fn if_fits(n: nat) -> Option<usize> {
    if n <= usize::MAX {
        Some(n as usize)
    } else {
        None
    }
}

proof fn lemma_kept_first_grows(node: Node, id: usize, cut: u64, a: nat, b: nat)
    requires
        a <= b <= node.children@.len(),
    ensures
        node.kept_first(id, cut, a) <= node.kept_first(id, cut, b),
    decreases b,
{
    if a < b {
        lemma_kept_first_grows(node, id, cut, a, (b - 1) as nat);
    }
}

impl Node {
    /// Counts the characters below this edge that `id` marked after `cut`.
    pub(crate) fn count_kept(&self, Ghost(log): Ghost<Seq<usize>>, id: usize, cut: u64) -> (r: Option<usize>)
        requires
            self.wf(log),
        ensures
            r == if_fits(self.kept(id, cut)),
    {
        let mut total: usize = 0;
        let mut open: Vec<&Node> = Vec::new();
        open.push(self);
        proof {
            assert(open@.drop_last() =~= Seq::empty());
            assert(kept_on(open@.drop_last(), id, cut) == 0);
        }
        loop
            invariant
                forall|j: int| 0 <= j < open@.len() ==> (#[trigger] open@[j]).wf(log),
                total + kept_on(open@, id, cut) == self.kept(id, cut),
            decreases nodes_on(open@),
        {
            let node: &Node = match open.pop() {
                Some(node) => node,
                None => {
                    return Some(total);
                },
            };
            let mut i: usize = 0;
            let ghost below = nodes_on(open@);
            assert(node.wf(log));
            while i < node.children.len()
                invariant
                    node.wf(log),
                    i <= node.children@.len(),
                    forall|j: int| 0 <= j < open@.len() ==> (#[trigger] open@[j]).wf(log),
                    total + kept_on(open@, id, cut) + node.kept(id, cut) - node.kept_first(id, cut, i as nat)
                        == self.kept(id, cut),
                    nodes_on(open@) <= below + node.nodes_first(i as nat),
                decreases node.children.len() - i,
            {
                let child: &Node = &node.children[i];
                assert(child.wf(log));
                proof {
                    lemma_kept_first_grows(*node, id, cut, (i + 1) as nat, node.children@.len());
                }
                let marked = match find_owner(&child.owners, id) {
                    Some(stamp) => stamp > cut,
                    None => false,
                };
                if marked {
                    total = match total.checked_add(child.text.len()) {
                        Some(sum) => sum,
                        None => {
                            return None;
                        },
                    };
                    let ghost sofar = open@;
                    open.push(child);
                    assert(open@.drop_last() =~= sofar);
                } else {
                    proof {
                        lemma_kept_nothing(*child, log, id, cut);
                    }
                }
                i += 1;
            }
        }
    }
}

} // verus!
