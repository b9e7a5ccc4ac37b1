//! How large the radix tree is.

use crate::marks::{lemma_owner_index, lemma_owner_stamp, owner_stamp};
use crate::node::{lemma_below_child, lemma_ends_child, Node};
use crate::text::is_prefix;
use crate::tree::Tree;
use vstd::prelude::*;
use vstd::relations::injective_on;
use vstd::set_lib::{lemma_int_range, lemma_map_size, lemma_set_disjoint_lens, set_int_range};

verus! {

/// The size of the radix tree.
#[derive(Debug)]
pub struct TreeStats {
    pub node_count: usize,
    pub total_tenant_entries: usize,
    pub max_depth: usize,
    pub tenant_char_counts: Vec<(String, usize)>,
}

impl Node {
    /// The marks from this edge down.
    pub open spec fn entries(self) -> nat
        decreases self, self.children@.len() + 1,
    {
        self.owners@.len() + self.entries_first(self.children@.len())
    }

    pub open spec fn entries_first(self, n: nat) -> nat
        decreases self, n,
    {
        if n == 0 || n > self.children@.len() {
            0
        } else {
            self.entries_first((n - 1) as nat) + self.children[n - 1].entries()
        }
    }

    /// The edges on the longest way down from this one.
    pub open spec fn depth(self) -> nat
        decreases self, self.children@.len() + 1,
    {
        self.depth_first(self.children@.len())
    }

    pub open spec fn depth_first(self, n: nat) -> nat
        decreases self, n,
    {
        if n == 0 || n > self.children@.len() {
            0
        } else {
            let before = self.depth_first((n - 1) as nat);
            let last = self.children[n - 1].depth() + 1;
            if last > before {
                last
            } else {
                before
            }
        }
    }

    /// Counts the edges and the marks from this edge down, and the longest way;
    /// fails if a machine word cannot hold one of the counts.
    fn measure(&self) -> (r: Option<(usize, usize, usize)>)
        ensures
            r is Some <==> self.nodes() <= usize::MAX && self.entries() <= usize::MAX,
            r matches Some(m) ==> m.0 == self.nodes() && m.1 == self.entries() && m.2 == self.depth(),
    {
        let mut nodes: usize = 0;
        let mut entries: usize = 0;
        let mut depth: usize = 0;
        let mut open: Vec<(&Node, usize)> = Vec::new();
        open.push((self, 0));
        proof {
            assert(open@.drop_last() =~= Seq::empty());
            assert(sizes_on(open@.drop_last()) == (0nat, 0nat, 0nat));
        }
        loop
            invariant
                nodes + sizes_on(open@).0 == self.nodes(),
                entries + sizes_on(open@).1 == self.entries(),
                larger(depth as nat, sizes_on(open@).2) == self.depth(),
                forall|j: int| 0 <= j < open@.len() ==> (#[trigger] open@[j]).1 <= nodes,
            decreases sizes_on(open@).0,
        {
            let (node, at): (&Node, usize) = match open.pop() {
                Some(found) => found,
                None => {
                    return Some((nodes, entries, depth));
                },
            };
            nodes = match nodes.checked_add(1) {
                Some(sum) => sum,
                None => {
                    return None;
                },
            };
            entries = match entries.checked_add(node.owners.len()) {
                Some(sum) => sum,
                None => {
                    return None;
                },
            };
            if at > depth {
                depth = at;
            }
            let ghost others = sizes_on(open@);
            let mut i: usize = 0;
            while i < node.children.len()
                invariant
                    i <= node.children@.len(),
                    at < nodes,
                    at <= depth,
                    sizes_on(open@).0 == others.0 + node.nodes_first(i as nat),
                    sizes_on(open@).1 == others.1 + node.entries_first(i as nat),
                    larger(depth as nat, sizes_on(open@).2) == larger(
                        depth as nat,
                        larger(others.2, at as nat + node.depth_first(i as nat)),
                    ),
                    forall|j: int| 0 <= j < open@.len() ==> (#[trigger] open@[j]).1 <= nodes,
                decreases node.children.len() - i,
            {
                let ghost sofar = open@;
                open.push((&node.children[i], at + 1));
                assert(open@.drop_last() =~= sofar);
                i += 1;
            }
        }
    }
}

spec fn larger(a: nat, b: nat) -> nat {
    if a > b {
        a
    } else {
        b
    }
}

/// The edges and the marks from these edges down, and the longest way to one of
/// them, which lie at given depths themselves.
spec fn sizes_on(open: Seq<(&Node, usize)>) -> (nat, nat, nat)
    decreases open.len(),
{
    if open.len() == 0 {
        (0, 0, 0)
    } else {
        let others = sizes_on(open.drop_last());
        let (node, at) = open.last();
        (others.0 + node.nodes(), others.1 + node.entries(), larger(others.2, at as nat + node.depth()))
    }
}

impl Tree {
    /// How large the tree is: its edges, the marks on them, the longest way
    /// down, and the characters of each tenant. Fails if a machine word cannot
    /// hold one of the counts.
    pub fn stats(&self) -> (r: Option<TreeStats>)
        requires
            self.wf(),
        ensures
            r is Some <==> self.spec_root().nodes() <= usize::MAX && self.spec_root().entries() <= usize::MAX
                && forall|t: Seq<char>| #[trigger] self.char_count(t) <= usize::MAX,
            r matches Some(s) ==> {
                &&& s.node_count == self.spec_root().nodes()
                &&& s.total_tenant_entries == self.spec_root().entries()
                &&& s.max_depth == self.spec_root().depth()
                &&& s.tenant_char_counts@.len() == self.spec_names().len()
                &&& forall|i: int|
                    0 <= i < s.tenant_char_counts@.len() ==> {
                        &&& (#[trigger] s.tenant_char_counts@[i]).0@ == self.spec_names()[i]@
                        &&& s.tenant_char_counts@[i].1 == self.char_count(self.spec_names()[i]@)
                    }
            },
    {
        let mut counts: Vec<(String, usize)> = Vec::new();
        let n: usize = self.tenants();
        let mut i: usize = 0;
        while i < n
            invariant
                self.wf(),
                n == self.spec_names().len(),
                i <= n,
                counts@.len() == i,
                forall|j: int|
                    0 <= j < i ==> {
                        &&& (#[trigger] counts@[j]).0@ == self.spec_names()[j]@
                        &&& counts@[j].1 == self.char_count(self.spec_names()[j]@)
                    },
            decreases n - i,
        {
            let (name, count) = self.tenant_size(i);
            match count {
                Some(count) => counts.push((name, count)),
                None => {
                    return None;
                },
            }
            i += 1;
        }
        proof {
            assert forall|t: Seq<char>| #[trigger] self.char_count(t) <= usize::MAX by {
                if self.char_count(t) > 0 {
                    let j = self.lemma_counted(t);
                    assert(counts@[j].1 == self.char_count(t));
                }
            }
        }
        match self.root().measure() {
            Some((node_count, total_tenant_entries, max_depth)) => Some(
                TreeStats { node_count, total_tenant_entries, max_depth, tenant_char_counts: counts },
            ),
            None => None,
        }
    }
}

// ---------------------------------------------------------------------------
// Laws
// ---------------------------------------------------------------------------

/// The marks on ends of edges, by prefix and by the place of the tenant in the
/// list of tenants.
pub open spec fn marked_ends(tree: Tree) -> Set<(Seq<char>, usize)> {
    Set::new(
        |m: (Seq<char>, usize)|
            tree.ends(m.0) && m.1 < tree.tenant_views().len() && tree.stamp(m.0, tree.tenant_views()[m.1 as int]) is Some,
    )
}

/// The non-empty prefixes of `text` at which edges end.
pub open spec fn stops_on(tree: Tree, text: Seq<char>) -> Set<int> {
    set_int_range(1, text.len() as int + 1).filter(|k: int| tree.ends(text.take(k)))
}

/// The prefixes that a tenant has in a tree, the empty one left out.
pub open spec fn prefixes_of(tree: Tree, tenant: Seq<char>) -> Set<Seq<char>> {
    Set::new(|p: Seq<char>| p.len() > 0 && tree.stamp(p, tenant) is Some)
}

/// The sizes of a tree are what they are called: nodes are where edges end;
/// entries are the marks of tenants there; and the characters of a tenant are its
/// prefixes, since each adds one character to the one before it. The tenants are
/// told in their order.
pub proof fn lemma_sizes(tree: &Tree, r: Option<TreeStats>)
    requires
        tree.wf(),
        call_ensures(Tree::stats, (tree,), r),
    ensures
        r matches Some(s) ==> {
            &&& s.node_count == tree.edge_ends().len()
            &&& s.total_tenant_entries == marked_ends(*tree).len()
            &&& s.tenant_char_counts@.len() == tree.tenant_views().len()
            &&& forall|i: int|
                0 <= i < s.tenant_char_counts@.len() ==> {
                    &&& (#[trigger] s.tenant_char_counts@[i]).0@ == tree.tenant_views()[i]
                    &&& s.tenant_char_counts@[i].1 == prefixes_of(*tree, tree.tenant_views()[i]).len()
                }
        },
        tree.edge_ends().len() <= usize::MAX && marked_ends(*tree).len() <= usize::MAX && (forall|t: Seq<char>|
            #[trigger] prefixes_of(*tree, t).len() <= usize::MAX) ==> r is Some,
{
    tree.lemma_nodes();
    let log = tree.lemma_marks();
    let root = tree.spec_root();
    lemma_marks_counted(root, log);
    assert(marked_ends(*tree) =~= root.marks()) by {
        assert forall|m: (Seq<char>, usize)| marked_ends(*tree).contains(m) == root.marks().contains(m) by {
            assert(tree.ends(m.0) == root.ends(m.0));
            let mark = root.below(m.0, m.1);
        }
    }
    assert forall|t: Seq<char>| #[trigger] prefixes_of(*tree, t).len() == tree.char_count(t) by {
        assert(prefixes_of(*tree, t) =~= tree.prefixes_after(t, 0)) by {
            assert forall|p: Seq<char>| tree.stamp(p, t) is Some implies tree.stamp(p, t)->0 > 0 by {
                tree.lemma_moments(p, t, p, t);
            }
        }
    }
    assert forall|t: Seq<char>| #[trigger] tree.char_count(t) == prefixes_of(*tree, t).len() by {}
}

/// The depth of a tree is the largest number of nodes below the root that lie on
/// the way of one text.
pub proof fn lemma_depth(tree: &Tree, r: Option<TreeStats>, text: Seq<char>)
    requires
        tree.wf(),
        call_ensures(Tree::stats, (tree,), r),
    ensures
        r matches Some(s) ==> {
            &&& stops_on(*tree, text).len() <= s.max_depth
            &&& exists|longest: Seq<char>| (#[trigger] stops_on(*tree, longest)).len() == s.max_depth
        },
{
    let log = tree.lemma_marks();
    let root = tree.spec_root();
    lemma_depth_bound(root, log, text);
    lemma_stops_counted(*tree, root, text);
    let longest = lemma_depth_reached(root, log);
    lemma_stops_counted(*tree, root, longest);
    assert(stops_on(*tree, longest).len() == root.depth());
}

proof fn lemma_stops_counted(tree: Tree, root: Node, text: Seq<char>)
    requires
        forall|p: Seq<char>| #[trigger] tree.ends(p) == root.ends(p),
    ensures
        stops_on(tree, text).finite(),
        stops_on(tree, text).len() == root.ends_on(text),
    decreases text.len(),
{
    let all = stops_on(tree, text);
    let n = text.len() as int;
    lemma_int_range(1, n + 1);
    if n == 0 {
        assert(all =~= Set::empty());
    } else {
        let head = text.drop_last();
        let before = stops_on(tree, head);
        lemma_stops_counted(tree, root, head);
        assert forall|k: int| 1 <= k < n implies #[trigger] head.take(k) == text.take(k) by {
            assert(head.take(k) =~= text.take(k));
        }
        assert(text.take(n) =~= text);
        assert(tree.ends(text) == root.ends(text));
        if root.ends(text) {
            assert(all =~= before.insert(n));
        } else {
            assert(all =~= before);
        }
    }
}

impl Node {
    /// The marks below this edge that stand where edges end, and those on the edge
    /// itself.
    spec fn marks(self) -> Set<(Seq<char>, usize)> {
        Set::new(|m: (Seq<char>, usize)| self.ends(m.0) && self.below(m.0, m.1) is Some)
    }

    /// The same for those below the first `n` children only.
    spec fn marks_first(self, n: int) -> Set<(Seq<char>, usize)> {
        Set::new(
            |m: (Seq<char>, usize)|
                m.0.len() > 0 && self.ends(m.0) && self.below(m.0, m.1) is Some && exists|i: int|
                    0 <= i < n && self.child_at(m.0[0], i),
        )
    }

    /// The same for paths that start where this edge starts.
    spec fn marks_through(self) -> Set<(Seq<char>, usize)> {
        Set::new(|m: (Seq<char>, usize)| self.ends_through(m.0) && self.through(m.0, m.1) is Some)
    }

    /// The non-empty prefixes of `path` at which edges end.
    spec fn ends_on(self, path: Seq<char>) -> nat
        decreases path.len(),
    {
        if path.len() == 0 {
            0
        } else {
            self.ends_on(path.drop_last()) + if self.ends(path) {
                1nat
            } else {
                0nat
            }
        }
    }
}

proof fn lemma_own_marks(node: Node, log: Seq<usize>) -> (own: Set<(Seq<char>, usize)>)
    requires
        node.wf(log),
    ensures
        own.finite(),
        own.len() == node.owners@.len(),
        forall|m: (Seq<char>, usize)|
            #[trigger] own.contains(m) <==> m.0.len() == 0 && owner_stamp(node.owners@, m.1) is Some,
{
    let owners = node.owners@;
    let n = owners.len() as int;
    let mark = |i: int| (Seq::<char>::empty(), owners[i].id);
    let places = set_int_range(0, n);
    lemma_int_range(0, n);
    let own = places.map(mark);
    assert(injective_on(mark, places)) by {
        assert forall|i: int, j: int|
            places.contains(i) && places.contains(j) && #[trigger] mark(i) == #[trigger] mark(j) implies i == j by {
            if i != j {
                assert(owners[i].id != owners[j].id);
            }
        }
    }
    lemma_map_size(places, own, mark);
    assert forall|m: (Seq<char>, usize)|
        #[trigger] own.contains(m) <==> m.0.len() == 0 && owner_stamp(owners, m.1) is Some by {
        if own.contains(m) {
            let i = choose|i: int| #[trigger] places.contains(i) && mark(i) == m;
            lemma_owner_stamp(owners, i);
        }
        if m.0.len() == 0 && owner_stamp(owners, m.1) is Some {
            let i = lemma_owner_index(owners, m.1);
            assert(m.0 =~= Seq::empty());
            assert(places.contains(i) && mark(i) == m);
        }
    }
    own
}

/// Marks are as many as the entries.
proof fn lemma_marks_counted(node: Node, log: Seq<usize>)
    requires
        node.wf(log),
    ensures
        node.marks().finite(),
        node.marks().len() == node.entries(),
    decreases node, node.children@.len() + 1,
{
    let n = node.children@.len();
    lemma_marks_first(node, log, n);
    let own = lemma_own_marks(node, log);
    let rest = node.marks_first(n as int);
    assert(node.marks() =~= own + rest) by {
        assert forall|m: (Seq<char>, usize)| node.marks().contains(m) == (own.contains(m) || rest.contains(m)) by {
            if m.0.len() > 0 && node.ends(m.0) {
                let i = choose|i: int| node.child_at(m.0[0], i);
                assert(0 <= i < n && node.child_at(m.0[0], i));
            }
        }
    }
    assert(own.disjoint(rest));
    lemma_set_disjoint_lens(own, rest);
}

proof fn lemma_marks_first(node: Node, log: Seq<usize>, n: nat)
    requires
        node.wf(log),
        n <= node.children@.len(),
    ensures
        node.marks_first(n as int).finite(),
        node.marks_first(n as int).len() == node.entries_first(n),
    decreases node, n,
{
    let all = node.marks_first(n as int);
    if n == 0 {
        assert(all =~= Set::empty());
    } else {
        let c = node.children[n - 1];
        assert(c.wf(log) && node.child_ok(c));
        lemma_marks_first(node, log, (n - 1) as nat);
        lemma_marks_counted(c, log);
        let a = node.marks_first(n - 1);
        let b = c.marks_through();
        lemma_marks_shifted(c);
        assert forall|m: (Seq<char>, usize)| b.contains(m) implies m.0.len() > 0 && m.0[0] == c.text@[0] by {
            assert(m.0.take(c.text@.len() as int)[0] == m.0[0]);
        }
        assert forall|m: (Seq<char>, usize)| a.contains(m) implies !b.contains(m) by {
            let i = choose|i: int| 0 <= i < n - 1 && node.child_at(m.0[0], i);
            assert(node.children@[i].text@[0] != node.children@[n - 1].text@[0]);
        }
        assert(all =~= a + b) by {
            assert forall|m: (Seq<char>, usize)| all.contains(m) == (a.contains(m) || b.contains(m)) by {
                let p = m.0;
                if p.len() > 0 {
                    if node.child_at(p[0], n - 1) {
                        lemma_ends_child(node, n - 1, p);
                        lemma_below_child(node, n - 1, p, m.1);
                        if b.contains(m) {
                            assert(0 <= n - 1 < n && node.child_at(p[0], n - 1));
                        }
                    }
                    if a.contains(m) {
                        let i = choose|i: int| 0 <= i < n - 1 && node.child_at(p[0], i);
                        assert(0 <= i < n && node.child_at(p[0], i));
                    }
                    if all.contains(m) && !a.contains(m) {
                        let i = choose|i: int| 0 <= i < n && node.child_at(p[0], i);
                        assert(i == n - 1);
                    }
                }
            }
        }
        assert(a.disjoint(b));
        lemma_set_disjoint_lens(a, b);
    }
}

proof fn lemma_marks_shifted(c: Node)
    requires
        c.marks().finite(),
    ensures
        c.marks_through().finite(),
        c.marks_through().len() == c.marks().len(),
{
    let text = c.text@;
    let n = text.len() as int;
    let below = c.marks();
    let shift = |m: (Seq<char>, usize)| (text + m.0, m.1);
    let beyond = below.map(shift);
    assert(injective_on(shift, below)) by {
        assert forall|a: (Seq<char>, usize), b: (Seq<char>, usize)|
            below.contains(a) && below.contains(b) && #[trigger] shift(a) == #[trigger] shift(b) implies a == b by {
            assert((text + a.0).skip(n) =~= a.0);
            assert((text + b.0).skip(n) =~= b.0);
        }
    }
    lemma_map_size(below, beyond, shift);
    assert(c.marks_through() =~= beyond) by {
        assert forall|m: (Seq<char>, usize)| c.marks_through().contains(m) == beyond.contains(m) by {
            if c.marks_through().contains(m) {
                let q = (m.0.skip(n), m.1);
                assert(text + q.0 =~= m.0);
                assert(below.contains(q));
                assert(shift(q) == m);
            }
            if beyond.contains(m) {
                let q = choose|q: (Seq<char>, usize)| #[trigger] below.contains(q) && shift(q) == m;
                assert(m.0.take(n) =~= text);
                assert(m.0.skip(n) =~= q.0);
            }
        }
    }
}

proof fn lemma_ends_on_child(node: Node, i: int, path: Seq<char>)
    requires
        node.distinct_children(),
        path.len() > 0,
        node.child_at(path[0], i),
    ensures
        node.ends_on(path) == if is_prefix(node.children[i].text@, path) {
            1 + node.children[i].ends_on(path.skip(node.children[i].text@.len() as int))
        } else {
            0
        },
    decreases path.len(),
{
    let c = node.children[i];
    let text = c.text@;
    let n = text.len() as int;
    let head = path.drop_last();
    lemma_ends_child(node, i, path);
    if head.len() > 0 {
        assert(head[0] == path[0]);
        lemma_ends_on_child(node, i, head);
    } else {
        assert(node.ends_on(head) == 0);
    }
    if path.len() == n {
        assert(path.take(n) =~= path);
        assert(c.ends_on(path.skip(n)) == 0);
        assert(path.skip(n) =~= Seq::empty());
        assert(!is_prefix(text, head));
    } else if path.len() > n {
        assert(head.take(n) =~= path.take(n));
        assert(path.skip(n).drop_last() =~= head.skip(n));
    }
}

proof fn lemma_ends_on_nothing(node: Node, path: Seq<char>)
    requires
        path.len() > 0 ==> !(exists|i: int| node.child_at(path[0], i)),
    ensures
        node.ends_on(path) == 0,
    decreases path.len(),
{
    if path.len() > 1 {
        assert(path.drop_last()[0] == path[0]);
        lemma_ends_on_nothing(node, path.drop_last());
    } else if path.len() == 1 {
        assert(node.ends_on(path.drop_last()) == 0);
    }
}

proof fn lemma_depth_first(node: Node, n: nat, i: int)
    requires
        0 <= i < n <= node.children@.len(),
    ensures
        node.children[i].depth() + 1 <= node.depth_first(n),
    decreases n,
{
    if i < n - 1 {
        lemma_depth_first(node, (n - 1) as nat, i);
    }
}

proof fn lemma_depth_bound(node: Node, log: Seq<usize>, path: Seq<char>)
    requires
        node.wf(log),
    ensures
        node.ends_on(path) <= node.depth(),
    decreases node,
{
    if path.len() > 0 && exists|i: int| node.child_at(path[0], i) {
        let i = choose|i: int| node.child_at(path[0], i);
        let c = node.children[i];
        assert(c.wf(log));
        lemma_ends_on_child(node, i, path);
        lemma_depth_bound(c, log, path.skip(c.text@.len() as int));
        lemma_depth_first(node, node.children@.len(), i);
    } else {
        lemma_ends_on_nothing(node, path);
    }
}

proof fn lemma_deepest_child(node: Node, n: nat) -> (i: int)
    requires
        n <= node.children@.len(),
        node.depth_first(n) > 0,
    ensures
        0 <= i < n,
        node.depth_first(n) == node.children[i].depth() + 1,
    decreases n,
{
    if node.depth_first(n) == node.children[n - 1].depth() + 1 {
        n - 1
    } else {
        lemma_deepest_child(node, (n - 1) as nat)
    }
}

proof fn lemma_depth_reached(node: Node, log: Seq<usize>) -> (path: Seq<char>)
    requires
        node.wf(log),
    ensures
        node.ends_on(path) == node.depth(),
    decreases node,
{
    if node.depth() == 0 {
        Seq::empty()
    } else {
        let i = lemma_deepest_child(node, node.children@.len());
        let c = node.children[i];
        assert(c.wf(log) && node.child_ok(c));
        let rest = lemma_depth_reached(c, log);
        let path = c.text@ + rest;
        let n = c.text@.len() as int;
        assert(path.take(n) =~= c.text@);
        assert(path.skip(n) =~= rest);
        assert(path[0] == c.text@[0]);
        assert(node.child_at(path[0], i));
        lemma_ends_on_child(node, i, path);
        path
    }
}

} // verus!
