//! Edges of the radix tree: what they say of a path, and matching below an edge.

use crate::marks::{covered, in_log, lemma_owner_index, lemma_owner_stamp, owner_stamp, owners_ok, Owner};
use crate::text::is_prefix;
use vstd::prelude::*;

verus! {

/// An edge of the tree together with what hangs below it.
#[derive(Debug)]
pub struct Node {
    pub text: Vec<char>,
    pub owners: Vec<Owner>,
    pub children: Vec<Node>,
}

impl Node {
    /// Whether the `i`-th child continues with `c`.
    pub open spec fn child_at(self, c: char, i: int) -> bool {
        0 <= i < self.children@.len() && self.children@[i].text@.len() > 0
            && self.children@[i].text@[0] == c
    }

    /// The mark of `id` at the end of `path`, which starts where this edge ends.
    pub open spec fn below(self, path: Seq<char>, id: usize) -> Option<u64>
        decreases self, 0nat,
    {
        if path.len() == 0 {
            owner_stamp(self.owners@, id)
        } else if exists|i: int| self.child_at(path[0], i) {
            let i = choose|i: int| self.child_at(path[0], i);
            self.children[i].through(path, id)
        } else {
            None
        }
    }

    /// The mark of `id` at the end of `path`, which starts where this edge
    /// starts and has at least one character.
    pub open spec fn through(self, path: Seq<char>, id: usize) -> Option<u64>
        decreases self, 1nat,
    {
        if path.len() < self.text@.len() {
            if is_prefix(path, self.text@) {
                owner_stamp(self.owners@, id)
            } else {
                None
            }
        } else if is_prefix(self.text@, path) {
            self.below(path.skip(self.text@.len() as int), id)
        } else {
            None
        }
    }

    /// Whether an edge ends where `path` ends, which starts where this edge ends.
    pub open spec fn ends(self, path: Seq<char>) -> bool
        decreases self, 0nat,
    {
        if path.len() == 0 {
            true
        } else if exists|i: int| self.child_at(path[0], i) {
            let i = choose|i: int| self.child_at(path[0], i);
            self.children[i].ends_through(path)
        } else {
            false
        }
    }

    /// The same for a path that starts where this edge starts.
    pub open spec fn ends_through(self, path: Seq<char>) -> bool
        decreases self, 1nat,
    {
        is_prefix(self.text@, path) && self.ends(path.skip(self.text@.len() as int))
    }

    /// Whether anyone marks the end of `path`, which starts where this edge ends.
    pub open spec fn held(self, path: Seq<char>) -> bool {
        exists|id: usize| (#[trigger] self.below(path, id)) is Some
    }

    /// An edge below this one is not empty, is marked by someone, and only by
    /// tenants that mark this one at least as recently.
    pub open spec fn child_ok(self, c: Node) -> bool {
        &&& c.text@.len() > 0
        &&& c.owners@.len() > 0
        &&& covered(c.owners@, self.owners@)
    }

    /// No two children continue with the same character.
    pub open spec fn distinct_children(self) -> bool {
        forall|i: int, j: int|
            0 <= i < j < self.children@.len() ==> #[trigger] self.children@[i].text@[0]
                != #[trigger] self.children@[j].text@[0]
    }

    /// The shape of the tree from this edge down.
    pub open spec fn wf(self, log: Seq<usize>) -> bool
        decreases self,
    {
        &&& owners_ok(self.owners@, log)
        &&& self.distinct_children()
        &&& forall|i: int|
            0 <= i < self.children@.len() ==> (#[trigger] self.children[i]).wf(log)
                && self.child_ok(self.children[i])
    }
}

/// The child that continues with the first character decides.
pub(crate) proof fn lemma_below_child(node: Node, i: int, path: Seq<char>, id: usize)
    requires
        node.distinct_children(),
        path.len() > 0,
        node.child_at(path[0], i),
    ensures
        node.below(path, id) == node.children[i].through(path, id),
{
    let j = choose|j: int| node.child_at(path[0], j);
    assert(node.child_at(path[0], j));
    if i != j {
        let (a, b) = if i < j { (i, j) } else { (j, i) };
        assert(node.children@[a].text@[0] != node.children@[b].text@[0]);
    }
}

/// The child that continues with the first character decides where edges end.
pub(crate) proof fn lemma_ends_child(node: Node, i: int, path: Seq<char>)
    requires
        node.distinct_children(),
        path.len() > 0,
        node.child_at(path[0], i),
    ensures
        node.ends(path) == node.children[i].ends_through(path),
{
    let j = choose|j: int| node.child_at(path[0], j);
    assert(node.child_at(path[0], j));
    if i != j {
        let (a, b) = if i < j { (i, j) } else { (j, i) };
        assert(node.children@[a].text@[0] != node.children@[b].text@[0]);
    }
}

/// Nodes with the same children agree on what is below them.
pub(crate) proof fn lemma_same_below(a: Node, b: Node, path: Seq<char>, id: usize)
    requires
        path.len() == 0 ==> a.owners@ == b.owners@,
        a.children@ == b.children@,
        a.distinct_children(),
    ensures
        a.below(path, id) == b.below(path, id),
{
    if path.len() > 0 {
        if exists|i: int| a.child_at(path[0], i) {
            let i = choose|i: int| a.child_at(path[0], i);
            assert(b.child_at(path[0], i));
            lemma_below_child(a, i, path, id);
            lemma_below_child(b, i, path, id);
            assert(a.children[i] == b.children[i]);
        } else {
            assert forall|i: int| !b.child_at(path[0], i) by {
                assert(!a.child_at(path[0], i));
            }
        }
    }
}

/// Nodes with the same children agree on where edges end below them.
pub(crate) proof fn lemma_same_ends(a: Node, b: Node, path: Seq<char>)
    requires
        a.children@ == b.children@,
        a.distinct_children(),
    ensures
        a.ends(path) == b.ends(path),
{
    if path.len() > 0 {
        if exists|i: int| a.child_at(path[0], i) {
            let i = choose|i: int| a.child_at(path[0], i);
            assert(b.child_at(path[0], i));
            lemma_ends_child(a, i, path);
            lemma_ends_child(b, i, path);
            assert(a.children[i] == b.children[i]);
        } else {
            assert forall|i: int| !b.child_at(path[0], i) by {
                assert(!a.child_at(path[0], i));
            }
        }
    }
}

/// Marks fade on the way down: whoever marks a path below an edge marks the
/// edge at least as recently.
pub(crate) proof fn lemma_below_covered(node: Node, log: Seq<usize>, path: Seq<char>, id: usize)
    requires
        node.wf(log),
        node.below(path, id) is Some,
    ensures
        owner_stamp(node.owners@, id) is Some,
        node.below(path, id)->0 <= owner_stamp(node.owners@, id)->0,
    decreases node,
{
    if path.len() > 0 {
        let i = choose|i: int| node.child_at(path[0], i);
        let c = node.children[i];
        assert(c.wf(log) && node.child_ok(c));
        if path.len() >= c.text@.len() {
            lemma_below_covered(c, log, path.skip(c.text@.len() as int), id);
        }
        assert(owner_stamp(c.owners@, id) is Some);
    }
}

pub(crate) proof fn lemma_through_covered(node: Node, log: Seq<usize>, path: Seq<char>, id: usize)
    requires
        node.wf(log),
        node.through(path, id) is Some,
    ensures
        owner_stamp(node.owners@, id) is Some,
        node.through(path, id)->0 <= owner_stamp(node.owners@, id)->0,
{
    if path.len() >= node.text@.len() {
        lemma_below_covered(node, log, path.skip(node.text@.len() as int), id);
    }
}

/// Prefixes may be compared from a common point on.
pub(crate) proof fn lemma_prefix_after(a: Seq<char>, b: Seq<char>, k: int)
    requires
        0 <= k <= a.len(),
        k <= b.len(),
        a.take(k) == b.take(k),
    ensures
        is_prefix(a, b) == is_prefix(a.skip(k), b.skip(k)),
{
    if a.len() <= b.len() {
        if is_prefix(a.skip(k), b.skip(k)) {
            assert forall|j: int| 0 <= j < a.len() implies a[j] == b[j] by {
                if j < k {
                    assert(a.take(k)[j] == a[j]);
                    assert(b.take(k)[j] == b[j]);
                } else {
                    let m = a.skip(k).len() as int;
                    assert(b.skip(k).take(m)[j - k] == a.skip(k)[j - k]);
                    assert(b.skip(k)[j - k] == b[j]);
                    assert(a.skip(k)[j - k] == a[j]);
                }
            }
            assert(b.take(a.len() as int) =~= a);
        }
        if is_prefix(a, b) {
            assert(b.skip(k).take((a.len() - k) as int) =~= a.skip(k)) by {
                assert forall|j: int| 0 <= j < a.len() - k implies b.skip(k)[j] == a.skip(k)[j] by {
                    assert(b.take(a.len() as int)[j + k] == a[j + k]);
                }
            }
        }
    }
}

impl Node {
    /// The child that continues with `c`.
    pub(crate) fn find_child(&self, c: char) -> (r: Option<usize>)
        requires
            forall|i: int| 0 <= i < self.children@.len() ==> (#[trigger] self.children@[i]).text@.len() > 0,
        ensures
            match r {
                Some(i) => self.child_at(c, i as int),
                None => forall|i: int| !self.child_at(c, i),
            },
    {
        let mut i: usize = 0;
        while i < self.children.len()
            invariant
                i <= self.children.len(),
                forall|j: int| 0 <= j < self.children@.len() ==> (#[trigger] self.children@[j]).text@.len() > 0,
                forall|j: int| 0 <= j < i ==> !self.child_at(c, j),
            decreases self.children.len() - i,
        {
            if self.children[i].text[0] == c {
                return Some(i);
            }
            i += 1;
        }
        None
    }

    /// How many characters this edge has in common with `chars` from `pos` on.
    pub(crate) fn common_length(&self, chars: &Vec<char>, pos: usize) -> (k: usize)
        requires
            pos <= chars@.len(),
        ensures
            k <= self.text@.len(),
            k <= chars@.len() - pos,
            self.text@.take(k as int) == chars@.skip(pos as int).take(k as int),
            k < self.text@.len() && k < chars@.len() - pos ==> self.text@[k as int] != chars@[pos + k],
    {
        let mut k: usize = 0;
        while k < self.text.len() && k < chars.len() - pos && self.text[k] == chars[pos + k]
            invariant
                pos <= chars@.len(),
                k <= self.text@.len(),
                k <= chars@.len() - pos,
                forall|j: int| 0 <= j < k ==> self.text@[j] == chars@[pos + j],
            ensures
                k <= self.text@.len(),
                k <= chars@.len() - pos,
                forall|j: int| 0 <= j < k ==> self.text@[j] == chars@[pos + j],
                k < self.text@.len() && k < chars@.len() - pos ==> self.text@[k as int] != chars@[pos + k],
            decreases self.text.len() - k,
        {
            k += 1;
        }
        assert(self.text@.take(k as int) =~= chars@.skip(pos as int).take(k as int));
        k
    }
}

// ---------------------------------------------------------------------------
// Matching
// ---------------------------------------------------------------------------

impl Node {
    /// The longest part of `chars` that leads somewhere below this edge: its
    /// length and the edge on which it ends.
    pub(crate) fn longest<'a>(&'a self, Ghost(log): Ghost<Seq<usize>>, chars: &Vec<char>) -> (r: (usize, &'a Node))
        requires
            self.wf(log),
        ensures
            r.0 <= chars@.len(),
            owners_ok(r.1.owners@, log),
            r.0 > 0 ==> r.1.owners@.len() > 0,
            forall|id: usize|
                #[trigger] owner_stamp(r.1.owners@, id) == self.below(chars@.take(r.0 as int), id),
            r.0 < chars@.len() ==> forall|id: usize|
                (#[trigger] self.below(chars@.take(r.0 + 1), id)) is None,
    {
        let mut cur: &Node = self;
        let mut pos: usize = 0;
        assert forall|path: Seq<char>| #[trigger] (chars@.take(0) + path) == path by {
            assert(chars@.take(0) + path =~= path);
        }
        loop
            invariant
                self.wf(log),
                cur.wf(log),
                pos <= chars@.len(),
                pos > 0 ==> cur.owners@.len() > 0,
                forall|path: Seq<char>, id: usize|
                    #[trigger] self.below(chars@.take(pos as int) + path, id) == cur.below(path, id),
            decreases chars@.len() - pos,
        {
            let ghost empty = Seq::<char>::empty();
            let ghost done = chars@.take(pos as int);
            proof {
                assert(done + empty =~= done);
                assert forall|id: usize| #[trigger] owner_stamp(cur.owners@, id) == self.below(done, id) by {
                    assert(self.below(done + empty, id) == cur.below(empty, id));
                }
            }
            if pos == chars.len() {
                return (pos, cur);
            }
            let c = chars[pos];
            assert forall|j: int| 0 <= j < cur.children@.len() implies (#[trigger] cur.children@[j]).text@.len() > 0 by {
                assert(cur.child_ok(cur.children[j]));
            }
            match cur.find_child(c) {
                None => {
                    proof {
                        let next = seq![c];
                        assert(done + next =~= chars@.take(pos + 1));
                        assert forall|id: usize| (#[trigger] self.below(chars@.take(pos + 1), id)) is None by {
                            assert(self.below(done + next, id) == cur.below(next, id));
                        }
                    }
                    return (pos, cur);
                },
                Some(i) => {
                    let child: &Node = &cur.children[i];
                    let ghost rest = chars@.skip(pos as int);
                    assert(cur.child_ok(cur.children[i as int]) && child.wf(log));
                    let k = child.common_length(chars, pos);
                    let ghost t = child.text@;
                    assert(t[0] == chars@[pos as int]);
                    assert(k >= 1);
                    proof {
                        assert forall|path: Seq<char>, id: usize| path.len() > 0 && path[0] == t[0] implies #[trigger] cur.below(path, id)
                            == child.through(path, id) by {
                            lemma_below_child(*cur, i as int, path, id);
                        }
                    }
                    if k == child.text.len() {
                        proof {
                            assert(t.take(k as int) =~= t);
                            assert forall|path: Seq<char>, id: usize| #[trigger]
                                self.below(chars@.take(pos + k) + path, id) == child.below(path, id) by {
                                let whole = t + path;
                                assert(chars@.take(pos + k) + path =~= done + whole) by {
                                    assert(chars@.take(pos + k) =~= done + rest.take(k as int));
                                }
                                assert(self.below(done + whole, id) == cur.below(whole, id));
                                assert(whole[0] == t[0]);
                                assert(whole.take(k as int) =~= t);
                                assert(whole.skip(k as int) =~= path);
                            }
                        }
                        cur = child;
                        pos = pos + k;
                    } else {
                        proof {
                            let part = t.take(k as int);
                            assert(chars@.take(pos + k) =~= done + part) by {
                                assert(chars@.take(pos + k) =~= done + rest.take(k as int));
                            }
                            assert forall|id: usize| #[trigger] owner_stamp(child.owners@, id) == self.below(
                                chars@.take(pos + k),
                                id,
                            ) by {
                                assert(self.below(done + part, id) == cur.below(part, id));
                                assert(part[0] == t[0]);
                            }
                            if pos + k < chars@.len() {
                                let next = part.push(chars@[pos + k]);
                                assert(chars@.take(pos + k + 1) =~= done + next) by {
                                    assert(chars@.take(pos + k + 1) =~= chars@.take(pos + k).push(chars@[pos + k]));
                                }
                                assert forall|id: usize| (#[trigger] self.below(chars@.take(pos + k + 1), id)) is None by {
                                    assert(self.below(done + next, id) == cur.below(next, id));
                                    assert(next[0] == t[0]);
                                    assert(next[k as int] != t[k as int]);
                                    if next.len() < t.len() {
                                        assert(t.take(next.len() as int)[k as int] == t[k as int]);
                                    } else {
                                        assert(next.take(t.len() as int)[k as int] == next[k as int]);
                                    }
                                }
                            }
                        }
                        return (pos + k, child);
                    }
                },
            }
        }
    }
}

/// Someone marks the end of every edge.
pub(crate) proof fn lemma_end_held(node: Node, log: Seq<usize>, path: Seq<char>)
    requires
        node.wf(log),
        path.len() > 0,
        node.ends(path),
    ensures
        node.held(path),
    decreases node,
{
    let i = choose|i: int| node.child_at(path[0], i);
    let c = node.children[i];
    assert(c.wf(log) && node.child_ok(c));
    let rest = path.skip(c.text@.len() as int);
    if rest.len() > 0 {
        lemma_end_held(c, log, rest);
        let id = choose|id: usize| (#[trigger] c.below(rest, id)) is Some;
        lemma_below_child(node, i, path, id);
        assert(node.below(path, id) is Some);
    } else {
        let id = c.owners@[0].id;
        lemma_owner_stamp(c.owners@, 0);
        lemma_below_child(node, i, path, id);
        assert(node.below(path, id) is Some);
    }
}

/// A mark was set by the recording that the log has at its moment.
pub(crate) proof fn lemma_below_logged(node: Node, log: Seq<usize>, path: Seq<char>, id: usize)
    requires
        node.wf(log),
        node.below(path, id) is Some,
    ensures
        0 < node.below(path, id)->0 <= log.len(),
        log[node.below(path, id)->0 - 1] == id,
    decreases node,
{
    if path.len() > 0 {
        let i = choose|i: int| node.child_at(path[0], i);
        let c = node.children[i];
        assert(c.wf(log));
        if path.len() >= c.text@.len() {
            lemma_below_logged(c, log, path.skip(c.text@.len() as int), id);
        } else {
            let k = lemma_owner_index(c.owners@, id);
            assert(in_log(c.owners@[k], log));
        }
    } else {
        let k = lemma_owner_index(node.owners@, id);
        assert(in_log(node.owners@[k], log));
    }
}

} // verus!
