//! The radix tree of prompts: which prefix was last sent to which tenant.
//!
//! Every text that is recorded for a tenant marks all of its prefixes with the
//! tenant and with the moment of the recording. Common prefixes share their
//! edges; an edge carries one mark per tenant, which holds for all prefixes
//! that end inside it. An edge ends where a recorded text ended, and where texts
//! part.

use crate::count::{
    after_cut, if_fits, lemma_kept_falls, lemma_kept_nothing, lemma_live_nothing, lemma_nodes_live,
};
use crate::marks::{
    in_log, lemma_owner_index, lemma_owner_stamp, lemma_owners_grow, newest_owner, owner_stamp, pruned,
};
use crate::node::{lemma_below_covered, lemma_below_logged, lemma_end_held, Node};
use crate::prefixes::{lemma_below_prefix, lemma_count_below, lemma_count_edges};
use crate::record::recorded;
use crate::text::{chars_of, is_prefix, string_views, text_view};
use vstd::prelude::*;
use vstd::set_lib::{lemma_len_subset, lemma_len_union};
use vstd::string::*;

verus! {

/// The radix tree of all tenants.
pub struct Tree {
    names: Vec<String>,
    root: Node,
    clock: u64,
    log: Ghost<Seq<usize>>,
}

/// What the tree knows of a text.
#[derive(Debug)]
pub struct PrefixMatch {
    /// Who was last sent the part that matched; `None` in a tree without tenants.
    pub tenant: Option<String>,
    pub matched_char_count: usize,
    pub input_char_count: usize,
}

/// What the tree knows of a text, as a mathematical value.
pub struct MatchView {
    pub owner: Option<Seq<char>>,
    pub matched: nat,
    pub input: nat,
}

impl View for PrefixMatch {
    type V = MatchView;

    open spec fn view(&self) -> MatchView {
        MatchView {
            owner: text_view(self.tenant),
            matched: self.matched_char_count as nat,
            input: self.input_char_count as nat,
        }
    }
}

impl PrefixMatch {
    /// A text of which nothing is known.
    pub fn unmatched(text: &str) -> (r: Self)
        ensures
            r@ == (MatchView { owner: None, matched: 0, input: text@.len() }),
    {
        PrefixMatch { tenant: None, matched_char_count: 0, input_char_count: text.unicode_len() }
    }
}

/// Whether `edges` edges and the root above them are `max` nodes at most, or
/// there is the root only.
pub open spec fn fits_below_root(edges: nat, max: usize) -> bool {
    edges < max || edges == 0
}

impl Tree {
    /// Every tenant has one number, and the marks agree with the log.
    pub closed spec fn wf(&self) -> bool {
        &&& forall|i: int, j: int|
            0 <= i < self.names@.len() && 0 <= j < self.names@.len() && i != j ==> #[trigger] self.names@[i]@
                != #[trigger] self.names@[j]@
        &&& self.root.wf(self.log@)
        &&& self.clock == self.log@.len() + 1
        &&& forall|i: int| 0 <= i < self.log@.len() ==> (#[trigger] self.log@[i]) < self.names@.len()
    }

    pub closed spec fn has_number(&self, tenant: Seq<char>, i: int) -> bool {
        0 <= i < self.names@.len() && self.names@[i]@ == tenant
    }

    /// Whether a text was ever recorded for `tenant`.
    pub open spec fn known(&self, tenant: Seq<char>) -> bool {
        exists|i: int| self.has_number(tenant, i)
    }

    /// The number of `tenant`.
    pub closed spec fn number(&self, tenant: Seq<char>) -> usize {
        (choose|i: int| self.has_number(tenant, i)) as usize
    }

    /// The moment that the next recording will get.
    pub closed spec fn now(&self) -> u64 {
        self.clock
    }

    /// When a text that begins with `prefix` was last recorded for `tenant`, if
    /// the tree still holds that.
    pub closed spec fn stamp(&self, prefix: Seq<char>, tenant: Seq<char>) -> Option<u64> {
        if self.known(tenant) {
            self.root.below(prefix, self.number(tenant))
        } else {
            None
        }
    }

    /// Whether the tree holds `prefix` for anyone.
    pub open spec fn holds(&self, prefix: Seq<char>) -> bool {
        exists|tenant: Seq<char>| (#[trigger] self.stamp(prefix, tenant)) is Some
    }

    /// Whether `tenant` is the one to whom `prefix` was sent last.
    pub open spec fn last_sent_to(&self, prefix: Seq<char>, tenant: Seq<char>) -> bool {
        &&& self.stamp(prefix, tenant) is Some
        &&& forall|other: Seq<char>|
            other != tenant && (#[trigger] self.stamp(prefix, other)) is Some ==> self.stamp(prefix, other)->0
                < self.stamp(prefix, tenant)->0
    }

    /// The length of the longest prefix of `text` that the tree holds.
    pub open spec fn matched(&self, text: Seq<char>) -> nat {
        choose|n: nat| self.is_matched(text, n)
    }

    /// Whether the tree holds the first `n` characters of `text`, and no more.
    pub open spec fn is_matched(&self, text: Seq<char>, n: nat) -> bool {
        &&& n <= text.len()
        &&& n > 0 ==> self.holds(text.take(n as int))
        &&& n < text.len() ==> !self.holds(text.take(n as int + 1))
    }

    /// To whom `prefix` was sent last, if the tree holds it.
    pub open spec fn owner(&self, prefix: Seq<char>) -> Option<Seq<char>> {
        if self.holds(prefix) {
            Some(choose|tenant: Seq<char>| self.last_sent_to(prefix, tenant))
        } else {
            None
        }
    }

    /// What the tree knows of `text`.
    pub open spec fn spec_match(&self, text: Seq<char>) -> MatchView {
        MatchView {
            owner: self.owner(text.take(self.matched(text) as int)),
            matched: self.matched(text),
            input: text.len(),
        }
    }

    /// The non-empty prefixes that were last recorded for `tenant` after the
    /// moment `cut`.
    pub open spec fn prefixes_after(&self, tenant: Seq<char>, cut: u64) -> Set<Seq<char>> {
        Set::new(
            |prefix: Seq<char>|
                prefix.len() > 0 && self.stamp(prefix, tenant) is Some && self.stamp(prefix, tenant)->0 > cut,
        )
    }

    /// How many characters `tenant` has in the tree, counting those only that
    /// were recorded after the moment `cut`: one for each prefix, since texts
    /// with a common prefix share its characters.
    pub open spec fn kept(&self, tenant: Seq<char>, cut: u64) -> nat {
        self.prefixes_after(tenant, cut).len()
    }

    /// How many characters `tenant` has in the tree.
    pub open spec fn char_count(&self, tenant: Seq<char>) -> nat {
        self.kept(tenant, 0)
    }

    /// Whether an edge ends where `prefix` ends.
    pub closed spec fn ends(&self, prefix: Seq<char>) -> bool {
        self.root.ends(prefix)
    }

    /// The tenants, in the order in which they were first recorded.
    pub open spec fn tenant_views(&self) -> Seq<Seq<char>> {
        string_views(self.spec_names())
    }

    /// Whether this tree is `before` after one more recording: its moment is
    /// the tenant's mark on every prefix of the text, and no other mark changed.
    /// Edges end where they ended, where the text ends, and where it leaves what
    /// was there. A tenant that is new comes last.
    pub open spec fn records(&self, before: &Tree, text: Seq<char>, tenant: Seq<char>) -> bool {
        &&& self.now() == before.now() + 1
        &&& self.tenant_views() == if before.known(tenant) {
            before.tenant_views()
        } else {
            before.tenant_views().push(tenant)
        }
        &&& forall|prefix: Seq<char>|
            #[trigger] self.ends(prefix) == (before.ends(prefix) || prefix == text || prefix == text.take(
                before.matched(text) as int,
            ))
        &&& forall|prefix: Seq<char>, t: Seq<char>|
            #[trigger] self.stamp(prefix, t) == if t == tenant && is_prefix(prefix, text) {
                Some(before.now())
            } else {
                before.stamp(prefix, t)
            }
    }

    /// Whether `cut` is the earliest moment such that what `tenant` marked
    /// after it does not exceed `max` characters.
    pub open spec fn is_cutoff(&self, tenant: Seq<char>, max: usize, cut: u64) -> bool {
        &&& self.kept(tenant, cut) <= max
        &&& cut > 0 ==> self.kept(tenant, (cut - 1) as u64) > max
    }

    /// The earliest moment such that what `tenant` marked after it does not
    /// exceed `max` characters.
    pub open spec fn cutoff(&self, tenant: Seq<char>, max: usize) -> u64 {
        choose|cut: u64| self.is_cutoff(tenant, max, cut)
    }

    proof fn lemma_number(&self, tenant: Seq<char>, i: int)
        requires
            self.wf(),
            self.has_number(tenant, i),
        ensures
            self.known(tenant),
            self.number(tenant) == i,
    {
        let j = choose|j: int| self.has_number(tenant, j);
        assert(self.has_number(tenant, j));
        assert(self.names.len() == self.names@.len());
        if i != j {
            assert(self.names@[i]@ != self.names@[j]@);
        }
    }

    /// An empty tree.
    pub fn new() -> (r: Self)
        ensures
            r.wf(),
            r.now() == 1,
            r.spec_names().len() == 0,
            forall|prefix: Seq<char>, tenant: Seq<char>| (#[trigger] r.stamp(prefix, tenant)) is None,
            forall|prefix: Seq<char>| #[trigger] r.ends(prefix) == (prefix.len() == 0),
    {
        Tree {
            names: Vec::new(),
            root: Node { text: Vec::new(), owners: Vec::new(), children: Vec::new() },
            clock: 1,
            log: Ghost(Seq::empty()),
        }
    }

    /// Whether a further recording still has a moment of its own.
    pub fn has_room(&self) -> (r: bool)
        ensures
            r == (self.now() < u64::MAX),
    {
        self.clock < u64::MAX
    }

    fn find_tenant(&self, tenant: &String) -> (r: Option<usize>)
        ensures
            match r {
                Some(i) => self.has_number(tenant@, i as int),
                None => !self.known(tenant@),
            },
    {
        let mut i: usize = 0;
        while i < self.names.len()
            invariant
                i <= self.names@.len(),
                forall|j: int| 0 <= j < i ==> !self.has_number(tenant@, j),
            decreases self.names.len() - i,
        {
            if self.names[i] == *tenant {
                return Some(i);
            }
            i += 1;
        }
        None
    }

    /// Records that `text` was sent to `tenant`.
    pub fn insert(&mut self, text: &str, tenant: &str)
        requires
            old(self).wf(),
            old(self).now() < u64::MAX,
        ensures
            final(self).wf(),
            final(self).records(old(self), text@, tenant@),
    {
        let ghost before = *self;
        let name = tenant.to_owned();
        let id: usize = match self.find_tenant(&name) {
            Some(i) => i,
            None => {
                let n = self.names.len();
                self.names.push(name);
                n
            },
        };
        let ghost grown = *self;
        proof {
            assert(grown.has_number(tenant@, id as int));
            assert forall|i: int, j: int|
                0 <= i < grown.names@.len() && 0 <= j < grown.names@.len() && i != j implies #[trigger] grown.names@[i]@
                != #[trigger] grown.names@[j]@ by {
                if i == before.names@.len() {
                    assert(before.names@.len() < grown.names@.len());
                    assert(!before.has_number(tenant@, j));
                } else if j == before.names@.len() {
                    assert(!before.has_number(tenant@, i));
                } else {
                    assert(before.names@[i]@ != before.names@[j]@);
                }
            }
        }
        let chars = chars_of(text);
        let now = self.clock;
        let ghost log = self.log@;
        self.root.insert_below(Ghost(log), &chars, id, now);
        self.clock = now + 1;
        self.log = Ghost(log.push(id));
        proof {
            let after = *self;
            assert(after.wf());
            assert(after.tenant_views() =~= if before.known(tenant@) {
                before.tenant_views()
            } else {
                before.tenant_views().push(tenant@)
            });
            assert forall|prefix: Seq<char>| #[trigger]
                after.ends(prefix) == (before.ends(prefix) || prefix == text@ || prefix == text@.take(
                    before.matched(text@) as int,
                )) by {
                before.lemma_stops(text@, prefix);
            }
            assert forall|prefix: Seq<char>, t: Seq<char>| #[trigger]
                after.stamp(prefix, t) == if t == tenant@ && is_prefix(prefix, text@) {
                    Some(now)
                } else {
                    before.stamp(prefix, t)
                } by {
                if after.known(t) {
                    let i = choose|i: int| after.has_number(t, i);
                    after.lemma_number(t, i);
                    assert(after.root.below(prefix, i as usize) == recorded(
                        before.root.below(prefix, i as usize),
                        text@,
                        id,
                        now,
                        prefix,
                        i as usize,
                    ));
                    if t == tenant@ {
                        assert(after.has_number(tenant@, id as int));
                        after.lemma_number(tenant@, id as int);
                    }
                    if i < before.names@.len() {
                        assert(before.has_number(t, i));
                        before.lemma_number(t, i);
                    } else {
                        // A tenant that is new has marked nothing so far.
                        assert(!before.known(t));
                        before.lemma_unknown_number(i as usize, prefix);
                    }
                } else if before.known(t) {
                    let i = choose|i: int| before.has_number(t, i);
                    assert(after.has_number(t, i));
                } else {
                    assert(!after.has_number(tenant@, id as int) || t != tenant@);
                }
            }
        }
    }

    /// A text leads as far as the tree holds it.
    proof fn lemma_stops(&self, text: Seq<char>, prefix: Seq<char>)
        requires
            self.wf(),
        ensures
            self.root.stops(text, prefix) <==> prefix == text.take(self.matched(text) as int),
    {
        self.lemma_matched(text);
        let m = self.matched(text) as int;
        if is_prefix(prefix, text) {
            let n = prefix.len();
            self.lemma_holds(prefix);
            assert(prefix == text.take(n as int));
            if n < text.len() {
                self.lemma_holds(text.take(n as int + 1));
            }
            assert(self.root.stops(text, prefix) <==> self.is_matched(text, n));
            if prefix == text.take(m) {
                assert(n == m);
            }
        } else if prefix == text.take(m) {
            assert(prefix.len() == m);
        }
    }

    /// The tree holds what the edges hold.
    proof fn lemma_holds(&self, prefix: Seq<char>)
        requires
            self.wf(),
        ensures
            self.holds(prefix) == self.root.held(prefix),
    {
        if self.holds(prefix) {
            let t = choose|t: Seq<char>| (#[trigger] self.stamp(prefix, t)) is Some;
            assert(self.root.below(prefix, self.number(t)) is Some);
        }
        if self.root.held(prefix) {
            let id = choose|id: usize| (#[trigger] self.root.below(prefix, id)) is Some;
            let t = self.lemma_named(id, prefix);
            assert(self.stamp(prefix, t) is Some);
        }
    }

    /// Only numbers of tenants occur in marks.
    proof fn lemma_unknown_number(&self, id: usize, path: Seq<char>)
        requires
            self.wf(),
            id >= self.names@.len(),
        ensures
            self.root.below(path, id) is None,
    {
        if self.root.below(path, id) is Some {
            lemma_below_covered(self.root, self.log@, path, id);
            let i = lemma_owner_index(self.root.owners@, id);
            assert(in_log(self.root.owners@[i], self.log@));
        }
    }
}

impl Tree {
    /// Marks speak of tenants: a number that marks something has a name.
    proof fn lemma_named(&self, id: usize, path: Seq<char>) -> (tenant: Seq<char>)
        requires
            self.wf(),
            self.root.below(path, id) is Some,
        ensures
            self.has_number(tenant, id as int),
            self.stamp(path, tenant) == self.root.below(path, id),
    {
        if id >= self.names@.len() {
            self.lemma_unknown_number(id, path);
        }
        let tenant = self.names@[id as int]@;
        self.lemma_number(tenant, id as int);
        tenant
    }

    /// Matches `text` against the tree: how long the longest prefix is that the
    /// tree holds, and to whom it was sent last.
    pub fn prefix_match_with_counts(&self, text: &str) -> (r: PrefixMatch)
        requires
            self.wf(),
        ensures
            r@ == self.spec_match(text@),
            self.is_matched(text@, r.matched_char_count as nat),
            match r.tenant {
                Some(t) => self.last_sent_to(text@.take(r.matched_char_count as int), t@),
                None => !self.holds(text@.take(r.matched_char_count as int)),
            },
    {
        let chars = chars_of(text);
        let (matched, node) = self.root.longest(Ghost(self.log@), &chars);
        let ghost part = text@.take(matched as int);
        proof {
            if matched < text@.len() && self.holds(text@.take(matched + 1)) {
                let t = choose|t: Seq<char>| (#[trigger] self.stamp(text@.take(matched + 1), t)) is Some;
                assert(self.stamp(text@.take(matched + 1), t) is Some);
                assert(self.root.below(chars@.take(matched + 1), self.number(t)) is None);
            }
            if matched > 0 {
                lemma_owner_stamp(node.owners@, 0);
                let id = node.owners@[0].id;
                assert(self.root.below(part, id) is Some);
                let t = self.lemma_named(id, part);
                assert(self.holds(part));
            }
            assert(self.is_matched(text@, matched as nat));
            self.lemma_matched(text@);
        }
        match newest_owner(&node.owners) {
            None => {
                proof {
                    if self.holds(part) {
                        let t = choose|t: Seq<char>| (#[trigger] self.stamp(part, t)) is Some;
                        let id = self.number(t);
                        assert(owner_stamp(node.owners@, id) == self.root.below(part, id));
                        let i = lemma_owner_index(node.owners@, id);
                    }
                }
                PrefixMatch { tenant: None, matched_char_count: matched, input_char_count: chars.len() }
            },
            Some(o) => {
                proof {
                    let i = choose|i: int| 0 <= i < node.owners@.len() && node.owners@[i] == o;
                    lemma_owner_stamp(node.owners@, i);
                    assert(owner_stamp(node.owners@, o.id) == self.root.below(part, o.id));
                    let t = self.lemma_named(o.id, part);
                    assert(t == self.names@[o.id as int]@);
                    assert(self.last_sent_to(part, t)) by {
                        assert forall|other: Seq<char>|
                            other != t && (#[trigger] self.stamp(part, other)) is Some implies self.stamp(part, other)->0
                            < self.stamp(part, t)->0 by {
                            let k = self.number(other);
                            let j0 = choose|j: int| self.has_number(other, j);
                            self.lemma_number(other, j0);
                            assert(owner_stamp(node.owners@, k) == self.root.below(part, k));
                            let j = lemma_owner_index(node.owners@, k);
                            assert(in_log(node.owners@[i], self.log@));
                            assert(in_log(node.owners@[j], self.log@));
                        }
                    }
                    assert(self.holds(part));
                    self.lemma_owner(part);
                }
                PrefixMatch {
                    tenant: Some(self.names[o.id].clone()),
                    matched_char_count: matched,
                    input_char_count: chars.len(),
                }
            },
        }
    }

    /// The characters of a tenant are those on the edges that it marked.
    proof fn lemma_kept(&self, tenant: Seq<char>, cut: u64)
        requires
            self.wf(),
        ensures
            self.prefixes_after(tenant, cut).finite(),
            self.kept(tenant, cut) == if self.known(tenant) {
                self.root.kept(self.number(tenant), cut)
            } else {
                0
            },
    {
        if self.known(tenant) {
            let id = self.number(tenant);
            lemma_count_below(self.root, self.log@, id, cut);
            assert(self.prefixes_after(tenant, cut) =~= self.root.paths_below(id, cut));
        } else {
            assert(self.prefixes_after(tenant, cut) =~= Set::empty());
        }
    }

    proof fn lemma_kept_falls(&self, tenant: Seq<char>, lo: u64, hi: u64)
        requires
            self.wf(),
            lo <= hi,
        ensures
            self.kept(tenant, hi) <= self.kept(tenant, lo),
    {
        self.lemma_kept(tenant, lo);
        self.lemma_kept(tenant, hi);
        if self.known(tenant) {
            lemma_kept_falls(self.root, self.number(tenant), lo, hi);
        }
    }

    /// Nothing is marked after the latest recording.
    proof fn lemma_kept_up_to_now(&self, tenant: Seq<char>)
        requires
            self.wf(),
        ensures
            self.kept(tenant, (self.now() - 1) as u64) == 0,
    {
        self.lemma_kept(tenant, (self.now() - 1) as u64);
        if self.known(tenant) {
            let id = self.number(tenant);
            lemma_owners_grow(self.root.owners@, self.log@, 0);
            lemma_kept_nothing(self.root, self.log@, id, (self.clock - 1) as u64);
        }
    }

    /// There is exactly one cutoff.
    pub proof fn lemma_cutoff(&self, tenant: Seq<char>, max: usize)
        requires
            self.wf(),
        ensures
            self.is_cutoff(tenant, max, self.cutoff(tenant, max)),
            forall|cut: u64| self.is_cutoff(tenant, max, cut) ==> cut == self.cutoff(tenant, max),
    {
        self.lemma_kept_up_to_now(tenant);
        self.lemma_cutoff_below(tenant, max, (self.now() - 1) as u64);
        let a = self.cutoff(tenant, max);
        assert forall|b: u64| self.is_cutoff(tenant, max, b) implies b == a by {
            if b < a {
                self.lemma_kept_falls(tenant, b, (a - 1) as u64);
            } else if a < b {
                self.lemma_kept_falls(tenant, a, (b - 1) as u64);
            }
        }
    }

    proof fn lemma_cutoff_below(&self, tenant: Seq<char>, max: usize, hi: u64)
        requires
            self.wf(),
            self.kept(tenant, hi) <= max,
        ensures
            exists|cut: u64| self.is_cutoff(tenant, max, cut),
        decreases hi,
    {
        if hi == 0 || self.kept(tenant, (hi - 1) as u64) > max {
            assert(self.is_cutoff(tenant, max, hi));
        } else {
            self.lemma_cutoff_below(tenant, max, (hi - 1) as u64);
        }
    }

    fn exceeds(&self, id: usize, cut: u64, max: usize) -> (r: bool)
        requires
            self.wf(),
        ensures
            r == (self.root.kept(id, cut) > max),
    {
        match self.root.count_kept(Ghost(self.log@), id, cut) {
            Some(n) => n > max,
            None => true,
        }
    }

    /// The earliest moment such that what `id` marked after it fits in `max`.
    fn find_cutoff(&self, id: usize, max: usize) -> (cut: u64)
        requires
            self.wf(),
            self.root.kept(id, 0) > max,
        ensures
            0 < cut < self.clock,
            self.root.kept(id, cut) <= max,
            self.root.kept(id, (cut - 1) as u64) > max,
    {
        let mut lo: u64 = 0;
        let mut hi: u64 = self.clock - 1;
        proof {
            lemma_owners_grow(self.root.owners@, self.log@, 0);
            lemma_kept_nothing(self.root, self.log@, id, hi);
        }
        while hi - lo > 1
            invariant
                self.wf(),
                lo < hi < self.clock,
                self.root.kept(id, lo) > max,
                self.root.kept(id, hi) <= max,
            decreases hi - lo,
        {
            let mid: u64 = lo + (hi - lo) / 2;
            if self.exceeds(id, mid, max) {
                lo = mid;
            } else {
                hi = mid;
            }
        }
        hi
    }

    /// Whether someone marked `prefix` after the moment `cut`, within a limit of
    /// `max` characters per tenant.
    pub open spec fn sized_after(&self, max: usize, prefix: Seq<char>, cut: u64) -> bool {
        exists|t: Seq<char>|
            after_cut(#[trigger] self.stamp(prefix, t), cut) && after_cut(
                self.stamp(prefix, t),
                self.cutoff(t, max),
            )
    }

    /// The ends of the edges below the root that someone marked after the moment
    /// `cut`, within a limit of `max` characters per tenant.
    pub open spec fn edges_left(&self, max: usize, cut: u64) -> Set<Seq<char>> {
        Set::new(|prefix: Seq<char>| prefix.len() > 0 && self.ends(prefix) && self.sized_after(max, prefix, cut))
    }

    /// Whether `cut` is the earliest moment such that the root and the edges
    /// marked after it are `max` nodes at most. The root stays in any case.
    pub open spec fn is_ceiling(&self, max: usize, cut: u64) -> bool {
        &&& fits_below_root(self.edges_left(max, cut).len(), max)
        &&& cut > 0 ==> !fits_below_root(self.edges_left(max, (cut - 1) as u64).len(), max)
    }

    /// The earliest moment such that the root and the edges marked after it are
    /// `max` nodes at most.
    pub open spec fn ceiling(&self, max: usize) -> u64 {
        choose|cut: u64| self.is_ceiling(max, cut)
    }

    /// The moment up to which eviction down to `max` takes what `tenant` marked:
    /// no tenant keeps more than `max` characters, and the tree no more than
    /// `max` nodes.
    pub open spec fn eviction_cut(&self, max: usize, tenant: Seq<char>) -> u64 {
        if self.cutoff(tenant, max) > self.ceiling(max) {
            self.cutoff(tenant, max)
        } else {
            self.ceiling(max)
        }
    }

    /// What eviction down to `max` leaves of a mark.
    pub open spec fn evicted(&self, max: usize, prefix: Seq<char>, tenant: Seq<char>) -> Option<u64> {
        let before = self.stamp(prefix, tenant);
        if prefix.len() > 0 && before is Some && before->0 <= self.eviction_cut(max, tenant) {
            None
        } else {
            before
        }
    }

    /// Whether `tenant` is the `i`-th of those for whom there are `cuts`, and
    /// marked `prefix` no later than its one.
    pub open spec fn cut_off(&self, cuts: Seq<u64>, prefix: Seq<char>, tenant: Seq<char>, i: int) -> bool {
        &&& 0 <= i < cuts.len()
        &&& i < self.tenant_views().len()
        &&& self.tenant_views()[i] == tenant
        &&& self.stamp(prefix, tenant) is Some
        &&& self.stamp(prefix, tenant)->0 <= cuts[i]
    }

    /// What eviction up to `cuts`, the moments for the tenants in their order,
    /// leaves of a mark.
    pub open spec fn left_after(&self, cuts: Seq<u64>, prefix: Seq<char>, tenant: Seq<char>) -> Option<u64> {
        if prefix.len() > 0 && exists|i: int| self.cut_off(cuts, prefix, tenant, i) {
            None
        } else {
            self.stamp(prefix, tenant)
        }
    }

    /// Whether this tree is `before` with these marks left: edges that nobody
    /// marks any more are gone, and everything else is as it was.
    pub open spec fn keeps(&self, before: &Tree, left: spec_fn(Seq<char>, Seq<char>) -> Option<u64>) -> bool {
        &&& self.now() == before.now()
        &&& self.spec_names() == before.spec_names()
        &&& forall|prefix: Seq<char>, t: Seq<char>| #[trigger] self.stamp(prefix, t) == left(prefix, t)
        &&& forall|prefix: Seq<char>|
            #[trigger] self.ends(prefix) == (before.ends(prefix) && (prefix.len() == 0 || self.holds(prefix)))
    }

    /// The cutoffs of the tenants by their numbers.
    spec fn has_cutoffs(&self, max: usize, cuts: Seq<u64>) -> bool {
        &&& cuts.len() == self.names@.len()
        &&& forall|i: int| 0 <= i < cuts.len() ==> #[trigger] cuts[i] == self.cutoff(self.names@[i]@, max)
    }

    /// For each tenant the earliest moment such that what it marked after it does
    /// not exceed `max` characters.
    fn cutoffs(&self, max: usize) -> (r: Vec<u64>)
        requires
            self.wf(),
        ensures
            self.has_cutoffs(max, r@),
    {
        let mut cuts: Vec<u64> = Vec::new();
        let mut i: usize = 0;
        while i < self.names.len()
            invariant
                self.wf(),
                i <= self.names@.len(),
                cuts@.len() == i,
                forall|j: int| 0 <= j < i ==> #[trigger] cuts@[j] == self.cutoff(self.names@[j]@, max),
            decreases self.names.len() - i,
        {
            let ghost name = self.names@[i as int]@;
            proof {
                self.lemma_cutoff(name, max);
                assert(self.has_number(name, i as int));
                self.lemma_number(name, i as int);
            }
            let mut cut: u64 = 0;
            if self.exceeds(i, 0, max) {
                cut = self.find_cutoff(i, max);
                proof {
                    self.lemma_kept(name, (cut - 1) as u64);
                }
            }
            proof {
                self.lemma_kept(name, cut);
                assert(self.is_cutoff(name, max, cut));
            }
            cuts.push(cut);
            i += 1;
        }
        cuts
    }

    fn has_too_many(&self, cuts: &Vec<u64>, cut: u64, max: usize) -> (r: bool)
        requires
            self.wf(),
        ensures
            r == !fits_below_root(self.root.live(cuts@, cut), max),
    {
        match self.root.count_live(Ghost(self.log@), cuts, cut) {
            Some(n) => n > 0 && n >= max,
            None => true,
        }
    }

    /// The earliest moment such that the edges marked after it fit.
    fn find_ceiling(&self, cuts: &Vec<u64>, max: usize) -> (cut: u64)
        requires
            self.wf(),
        ensures
            fits_below_root(self.root.live(cuts@, cut), max),
            cut > 0 ==> !fits_below_root(self.root.live(cuts@, (cut - 1) as u64), max),
    {
        if !self.has_too_many(cuts, 0, max) {
            return 0;
        }
        let mut lo: u64 = 0;
        let mut hi: u64 = self.clock - 1;
        proof {
            lemma_owners_grow(self.root.owners@, self.log@, 0);
            lemma_live_nothing(self.root, self.log@, cuts@, hi);
        }
        while hi - lo > 1
            invariant
                self.wf(),
                lo < hi < self.clock,
                !fits_below_root(self.root.live(cuts@, lo), max),
                fits_below_root(self.root.live(cuts@, hi), max),
            decreases hi - lo,
        {
            let mid: u64 = lo + (hi - lo) / 2;
            if self.has_too_many(cuts, mid, max) {
                lo = mid;
            } else {
                hi = mid;
            }
        }
        hi
    }

    /// The edges that someone marked after a moment, counted by their ends.
    proof fn lemma_live(&self, max: usize, cuts: Seq<u64>, cut: u64)
        requires
            self.wf(),
            self.has_cutoffs(max, cuts),
        ensures
            self.edges_left(max, cut).finite(),
            self.edges_left(max, cut).len() == self.root.live(cuts, cut),
    {
        lemma_count_edges(self.root, self.log@, cuts, cut);
        assert(self.edges_left(max, cut) =~= self.root.edge_paths(cuts, cut)) by {
            assert forall|p: Seq<char>| self.edges_left(max, cut).contains(p) == self.root.edge_paths(cuts, cut).contains(p) by {
                if self.sized_after(max, p, cut) {
                    let t = choose|t: Seq<char>|
                        after_cut(#[trigger] self.stamp(p, t), cut) && after_cut(self.stamp(p, t), self.cutoff(t, max));
                    let i = choose|i: int| self.has_number(t, i);
                    self.lemma_number(t, i);
                    assert(cuts[i] == self.cutoff(self.names@[i]@, max));
                    assert(after_cut(pruned(self.root.below(p, i as usize), cuts, i as usize), cut));
                }
                if self.root.held_after(p, cuts, cut) {
                    let id = choose|id: usize| after_cut(pruned(#[trigger] self.root.below(p, id), cuts, id), cut);
                    let t = self.lemma_named(id, p);
                    assert(cuts[id as int] == self.cutoff(self.names@[id as int]@, max));
                    assert(after_cut(self.stamp(p, t), cut) && after_cut(self.stamp(p, t), self.cutoff(t, max)));
                }
            }
        }
    }

    /// The moments, for the tenants in their order, up to which eviction down to
    /// `max` takes what they marked.
    pub fn eviction_cuts(&self, max: usize) -> (r: Vec<u64>)
        requires
            self.wf(),
        ensures
            r@.len() == self.tenant_views().len(),
            forall|i: int| 0 <= i < r@.len() ==> #[trigger] r@[i] == self.eviction_cut(max, self.tenant_views()[i]),
    {
        let mut cuts = self.cutoffs(max);
        let ghost own = cuts@;
        let ceiling = self.find_ceiling(&cuts, max);
        proof {
            self.lemma_live(max, own, ceiling);
            if ceiling > 0 {
                self.lemma_live(max, own, (ceiling - 1) as u64);
            }
            assert(self.is_ceiling(max, ceiling));
            self.lemma_ceiling(max);
        }
        let mut i: usize = 0;
        while i < cuts.len()
            invariant
                self.has_cutoffs(max, own),
                ceiling == self.ceiling(max),
                i <= cuts@.len() == own.len(),
                forall|j: int| i <= j < own.len() ==> cuts@[j] == own[j],
                forall|j: int| 0 <= j < i ==> #[trigger] cuts@[j] == self.eviction_cut(max, self.tenant_views()[j]),
            decreases cuts.len() - i,
        {
            assert(own[i as int] == self.cutoff(self.names@[i as int]@, max));
            if cuts[i] < ceiling {
                cuts.set(i, ceiling);
            }
            i += 1;
        }
        cuts
    }

    /// Evicts up to `cuts`, the moments for the tenants in their order. The empty
    /// prefix stays.
    pub fn evict_up_to(&mut self, cuts: &Vec<u64>)
        requires
            old(self).wf(),
        ensures
            final(self).wf(),
            final(self).keeps(old(self), |prefix: Seq<char>, t: Seq<char>| old(self).left_after(cuts@, prefix, t)),
    {
        let ghost before = *self;
        self.root.prune(Ghost(self.log@), cuts);
        proof {
            let after = *self;
            assert forall|prefix: Seq<char>, t: Seq<char>| #[trigger]
                after.stamp(prefix, t) == before.left_after(cuts@, prefix, t) by {
                if after.known(t) {
                    let k = choose|k: int| after.has_number(t, k);
                    after.lemma_number(t, k);
                    assert(before.has_number(t, k));
                    before.lemma_number(t, k);
                    if prefix.len() == 0 {
                        assert(after.root.below(prefix, k as usize) == owner_stamp(after.root.owners@, k as usize));
                        assert(before.root.below(prefix, k as usize) == owner_stamp(before.root.owners@, k as usize));
                    } else {
                        assert(after.root.below(prefix, k as usize) == pruned(
                            before.root.below(prefix, k as usize),
                            cuts@,
                            k as usize,
                        ));
                        assert(before.tenant_views()[k] == t);
                        if exists|i: int| before.cut_off(cuts@, prefix, t, i) {
                            let i = choose|i: int| before.cut_off(cuts@, prefix, t, i);
                            if i != k {
                                assert(before.names@[i]@ != before.names@[k]@);
                            }
                        } else {
                            assert(!before.cut_off(cuts@, prefix, t, k));
                        }
                    }
                } else if before.known(t) {
                    let k = choose|k: int| before.has_number(t, k);
                    assert(after.has_number(t, k));
                }
            }
            assert forall|prefix: Seq<char>| #[trigger]
                after.ends(prefix) == (before.ends(prefix) && (prefix.len() == 0 || after.holds(prefix))) by {
                after.lemma_holds(prefix);
                if prefix.len() > 0 {
                    assert(after.root.ends(prefix) <==> before.root.ends(prefix) && after.root.held(prefix));
                }
            }
        }
    }

    /// Evicts what was recorded longest ago, until no tenant marks more than
    /// `max` characters and there are no more than `max` nodes. The empty prefix
    /// stays.
    pub fn evict_tenant_by_size(&mut self, max: usize)
        requires
            old(self).wf(),
        ensures
            final(self).wf(),
            final(self).keeps(old(self), |prefix: Seq<char>, t: Seq<char>| old(self).evicted(max, prefix, t)),
            forall|t: Seq<char>| #[trigger] final(self).char_count(t) <= max,
            final(self).spec_root().nodes() <= max || final(self).spec_root().nodes() == 1,
    {
        let cuts = self.eviction_cuts(max);
        let ghost before = *self;
        self.evict_up_to(&cuts);
        proof {
            let after = *self;
            assert forall|prefix: Seq<char>, t: Seq<char>| #[trigger]
                after.stamp(prefix, t) == before.evicted(max, prefix, t) by {
                before.lemma_evicted_up_to(max, cuts@, prefix, t);
            }
            after.lemma_limits(&before, max);
        }
    }

    proof fn lemma_positive(&self, id: usize, path: Seq<char>)
        requires
            self.wf(),
            self.root.below(path, id) is Some,
        ensures
            self.root.below(path, id)->0 > 0,
    {
        lemma_below_logged(self.root, self.log@, path, id);
    }
}

impl Tree {
    /// The edge that all texts start below.
    pub closed spec fn spec_root(&self) -> Node {
        self.root
    }

    /// The tenants, in the order in which they were first recorded.
    pub closed spec fn spec_names(&self) -> Seq<String> {
        self.names@
    }

    /// The list of tenants holds exactly those for whom a text was ever
    /// recorded, each of them once.
    pub proof fn lemma_names(&self, tenant: Seq<char>)
        requires
            self.wf(),
        ensures
            self.known(tenant) <==> exists|i: int|
                0 <= i < self.spec_names().len() && (#[trigger] self.spec_names()[i])@ == tenant,
            forall|i: int, j: int|
                0 <= i < self.spec_names().len() && 0 <= j < self.spec_names().len() && i != j
                    ==> (#[trigger] self.spec_names()[i])@ != (#[trigger] self.spec_names()[j])@,
    {
        if self.known(tenant) {
            let i = choose|i: int| self.has_number(tenant, i);
            assert(self.spec_names()[i]@ == tenant);
        }
        if exists|i: int| 0 <= i < self.spec_names().len() && (#[trigger] self.spec_names()[i])@ == tenant {
            let i = choose|i: int| 0 <= i < self.spec_names().len() && (#[trigger] self.spec_names()[i])@ == tenant;
            assert(self.has_number(tenant, i));
        }
    }

    /// Whoever the tree holds a prefix for is one of its tenants.
    pub proof fn lemma_held_is_known(&self, prefix: Seq<char>, tenant: Seq<char>)
        requires
            self.stamp(prefix, tenant) is Some,
        ensures
            self.known(tenant),
    {
    }

    pub(crate) fn root(&self) -> (r: &Node)
        ensures
            *r == self.spec_root(),
    {
        &self.root
    }

    /// How many tenants there are.
    pub(crate) fn tenants(&self) -> (r: usize)
        ensures
            r == self.spec_names().len(),
    {
        self.names.len()
    }

    /// The `i`-th tenant and its characters, if a machine word can hold them.
    pub(crate) fn tenant_size(&self, i: usize) -> (r: (String, Option<usize>))
        requires
            self.wf(),
            i < self.spec_names().len(),
        ensures
            r.0@ == self.spec_names()[i as int]@,
            r.1 == if_fits(self.char_count(self.spec_names()[i as int]@)),
    {
        proof {
            let name = self.names@[i as int]@;
            assert(self.has_number(name, i as int));
            self.lemma_number(name, i as int);
            self.lemma_kept(name, 0);
        }
        (self.names[i].clone(), self.root.count_kept(Ghost(self.log@), i, 0))
    }

    /// Whoever has characters in the tree is one of its tenants.
    pub(crate) proof fn lemma_counted(&self, tenant: Seq<char>) -> (i: int)
        requires
            self.wf(),
            self.char_count(tenant) > 0,
        ensures
            0 <= i < self.spec_names().len(),
            self.spec_names()[i]@ == tenant,
    {
        self.lemma_kept(tenant, 0);
        choose|i: int| self.has_number(tenant, i)
    }
}

// ---------------------------------------------------------------------------
// Laws
// ---------------------------------------------------------------------------

impl Tree {
    /// Whoever was sent a text was sent each of its prefixes, at least as
    /// recently.
    pub proof fn lemma_prefixes_held(&self, text: Seq<char>, tenant: Seq<char>, k: int)
        requires
            self.wf(),
            self.stamp(text, tenant) is Some,
            0 <= k <= text.len(),
        ensures
            self.stamp(text.take(k), tenant) is Some,
            self.stamp(text, tenant)->0 <= self.stamp(text.take(k), tenant)->0,
    {
        lemma_below_prefix(self.root, self.log@, text, self.number(tenant), k);
    }

    /// Every mark was set by a recording of the past, and no two tenants were
    /// sent anything at the same moment.
    pub proof fn lemma_moments(&self, a: Seq<char>, s: Seq<char>, b: Seq<char>, t: Seq<char>)
        requires
            self.wf(),
            self.stamp(a, s) is Some,
            self.stamp(b, t) is Some,
        ensures
            0 < self.stamp(a, s)->0 < self.now(),
            self.stamp(a, s) == self.stamp(b, t) ==> s == t,
    {
        let i = choose|i: int| self.has_number(s, i);
        let j = choose|j: int| self.has_number(t, j);
        self.lemma_number(s, i);
        self.lemma_number(t, j);
        lemma_below_logged(self.root, self.log@, a, i as usize);
        lemma_below_logged(self.root, self.log@, b, j as usize);
    }

    /// What the tree holds was last sent to exactly one tenant.
    pub proof fn lemma_owner(&self, prefix: Seq<char>)
        requires
            self.wf(),
            self.holds(prefix),
        ensures
            self.owner(prefix) is Some,
            self.last_sent_to(prefix, self.owner(prefix)->0),
            forall|t: Seq<char>| self.last_sent_to(prefix, t) ==> t == self.owner(prefix)->0,
    {
        let first = choose|t: Seq<char>| (#[trigger] self.stamp(prefix, t)) is Some;
        self.lemma_moments(prefix, first, prefix, first);
        self.lemma_latest(prefix, first);
        let owner = self.owner(prefix)->0;
        assert forall|t: Seq<char>| self.last_sent_to(prefix, t) implies t == owner by {
            if t != owner {
                assert(self.stamp(prefix, owner)->0 < self.stamp(prefix, t)->0);
            }
        }
    }

    proof fn lemma_latest(&self, prefix: Seq<char>, tenant: Seq<char>)
        requires
            self.wf(),
            self.stamp(prefix, tenant) is Some,
        ensures
            exists|t: Seq<char>| self.last_sent_to(prefix, t),
        decreases self.now() - self.stamp(prefix, tenant)->0,
    {
        if !self.last_sent_to(prefix, tenant) {
            let other = choose|other: Seq<char>|
                other != tenant && (#[trigger] self.stamp(prefix, other)) is Some && self.stamp(prefix, other)->0
                    >= self.stamp(prefix, tenant)->0;
            self.lemma_moments(prefix, tenant, prefix, other);
            self.lemma_moments(prefix, other, prefix, other);
            self.lemma_latest(prefix, other);
        }
    }

    /// There is one longest prefix that the tree holds: it holds all shorter
    /// ones and no longer one.
    pub proof fn lemma_matched(&self, text: Seq<char>)
        requires
            self.wf(),
        ensures
            self.is_matched(text, self.matched(text)),
            forall|n: nat| self.is_matched(text, n) ==> n == self.matched(text),
            forall|k: int|
                0 < k <= text.len() ==> (#[trigger] self.holds(text.take(k)) <==> k <= self.matched(text)),
    {
        self.lemma_matched_from(text, 0);
        let m = self.matched(text);
        assert forall|k: int| 0 < k <= text.len() implies (#[trigger] self.holds(text.take(k)) <==> k <= m) by {
            if k <= m {
                self.lemma_held_shorter(text, m as int, k);
            } else if self.holds(text.take(k)) {
                self.lemma_held_shorter(text, k, m as int + 1);
            }
        }
        assert forall|n: nat| self.is_matched(text, n) implies n == m by {
            if n < m {
                assert(self.holds(text.take(n as int + 1)));
            } else if m < n {
                assert(self.holds(text.take(n as int)));
            }
        }
    }

    proof fn lemma_held_shorter(&self, text: Seq<char>, n: int, k: int)
        requires
            self.wf(),
            0 <= k <= n <= text.len(),
            self.holds(text.take(n)),
        ensures
            self.holds(text.take(k)),
    {
        let t = choose|t: Seq<char>| (#[trigger] self.stamp(text.take(n), t)) is Some;
        self.lemma_prefixes_held(text.take(n), t, k);
        assert(text.take(n).take(k) =~= text.take(k));
    }

    proof fn lemma_matched_from(&self, text: Seq<char>, n: nat)
        requires
            self.wf(),
            n <= text.len(),
            n > 0 ==> self.holds(text.take(n as int)),
        ensures
            exists|m: nat| self.is_matched(text, m),
        decreases text.len() - n,
    {
        if n == text.len() || !self.holds(text.take(n as int + 1)) {
            assert(self.is_matched(text, n));
        } else {
            self.lemma_matched_from(text, n + 1);
        }
    }

    /// The next similar text follows the recording: what it has in common with
    /// the text that was recorded last is held, and was last sent to the tenant
    /// of that recording.
    pub proof fn lemma_follows(&self, before: &Tree, text: Seq<char>, tenant: Seq<char>, next: Seq<char>, k: int)
        requires
            self.wf(),
            before.wf(),
            self.records(before, text, tenant),
            0 <= k <= text.len(),
            k <= next.len(),
            next.take(k) == text.take(k),
        ensures
            self.last_sent_to(next.take(k), tenant),
            self.owner(next.take(k)) == Some(tenant),
            k <= self.matched(next),
    {
        let p = next.take(k);
        assert(is_prefix(p, text));
        assert(self.stamp(p, tenant) == Some(before.now()));
        assert forall|other: Seq<char>| other != tenant && (#[trigger] self.stamp(p, other)) is Some implies self.stamp(
            p,
            other,
        )->0 < self.stamp(p, tenant)->0 by {
            before.lemma_moments(p, other, p, other);
        }
        assert(self.last_sent_to(p, tenant));
        self.lemma_owner(p);
        self.lemma_matched(next);
        if k > 0 {
            assert(self.holds(next.take(k)));
        }
    }

    /// A text that was just recorded matches as a whole.
    pub proof fn lemma_recorded_matches(&self, before: &Tree, text: Seq<char>, tenant: Seq<char>)
        requires
            self.wf(),
            before.wf(),
            self.records(before, text, tenant),
        ensures
            self.matched(text) == text.len(),
            self.owner(text.take(self.matched(text) as int)) == Some(tenant),
    {
        self.lemma_matched(text);
        self.lemma_follows(before, text, tenant, text, text.len() as int);
    }

    proof fn lemma_edges_left(&self, max: usize, lo: u64, hi: u64)
        requires
            self.wf(),
            lo <= hi,
        ensures
            self.edges_left(max, hi).finite(),
            self.edges_left(max, hi).len() <= self.edges_left(max, lo).len(),
            self.edges_left(max, (self.now() - 1) as u64).len() == 0,
    {
        let a = self.edges_left(max, lo);
        let b = self.edges_left(max, hi);
        self.lemma_nodes();
        lemma_len_subset(a, self.edge_ends());
        assert forall|p: Seq<char>| b.contains(p) implies a.contains(p) by {
            let t = choose|t: Seq<char>|
                after_cut(#[trigger] self.stamp(p, t), hi) && after_cut(self.stamp(p, t), self.cutoff(t, max));
            assert(after_cut(self.stamp(p, t), lo));
        }
        lemma_len_subset(b, a);
        let latest = (self.now() - 1) as u64;
        let none = self.edges_left(max, latest);
        assert(none =~= Set::empty()) by {
            assert forall|p: Seq<char>| !none.contains(p) by {
                if self.sized_after(max, p, latest) {
                    let t = choose|t: Seq<char>|
                        after_cut(#[trigger] self.stamp(p, t), latest) && after_cut(
                            self.stamp(p, t),
                            self.cutoff(t, max),
                        );
                    self.lemma_moments(p, t, p, t);
                }
            }
        }
    }

    proof fn lemma_ceiling_below(&self, max: usize, hi: u64)
        requires
            self.wf(),
            fits_below_root(self.edges_left(max, hi).len(), max),
        ensures
            exists|cut: u64| self.is_ceiling(max, cut),
        decreases hi,
    {
        if hi == 0 || !fits_below_root(self.edges_left(max, (hi - 1) as u64).len(), max) {
            assert(self.is_ceiling(max, hi));
        } else {
            self.lemma_ceiling_below(max, (hi - 1) as u64);
        }
    }

    /// There is exactly one ceiling.
    pub proof fn lemma_ceiling(&self, max: usize)
        requires
            self.wf(),
        ensures
            self.is_ceiling(max, self.ceiling(max)),
            forall|cut: u64| self.is_ceiling(max, cut) ==> cut == self.ceiling(max),
    {
        self.lemma_edges_left(max, 0, 0);
        self.lemma_ceiling_below(max, (self.now() - 1) as u64);
        let a = self.ceiling(max);
        assert forall|b: u64| self.is_ceiling(max, b) implies b == a by {
            if b < a {
                self.lemma_edges_left(max, b, (a - 1) as u64);
            } else if a < b {
                self.lemma_edges_left(max, a, (b - 1) as u64);
            }
        }
    }

    /// Eviction takes what was recorded longest ago, and no more than needed:
    /// what goes is older than what stays of the same tenant, and one moment less
    /// would leave too many characters or too many nodes.
    pub proof fn lemma_evicts_oldest(&self, max: usize, tenant: Seq<char>, p: Seq<char>, q: Seq<char>)
        requires
            self.wf(),
            p.len() > 0,
            q.len() > 0,
            self.stamp(p, tenant) is Some,
            self.evicted(max, p, tenant) is None,
            self.evicted(max, q, tenant) is Some,
        ensures
            self.stamp(p, tenant)->0 < self.stamp(q, tenant)->0,
            ({
                ||| self.cutoff(tenant, max) > 0 && self.kept(tenant, (self.cutoff(tenant, max) - 1) as u64) > max
                ||| self.ceiling(max) > 0 && self.edges_left(max, (self.ceiling(max) - 1) as u64).len() >= max
            }),
    {
        self.lemma_cutoff(tenant, max);
        self.lemma_ceiling(max);
        self.lemma_moments(p, tenant, p, tenant);
    }

    /// What anyone loses to the ceiling on nodes is older than what anyone keeps.
    pub proof fn lemma_ceiling_evicts_oldest(
        &self,
        max: usize,
        s: Seq<char>,
        p: Seq<char>,
        t: Seq<char>,
        q: Seq<char>,
    )
        requires
            p.len() > 0,
            q.len() > 0,
            self.stamp(p, s) is Some,
            self.stamp(p, s)->0 > self.cutoff(s, max),
            self.evicted(max, p, s) is None,
            self.evicted(max, q, t) is Some,
        ensures
            self.stamp(p, s)->0 < self.stamp(q, t)->0,
    {
    }

    /// A tree within the limit loses nothing.
    pub proof fn lemma_within_limit(&self, max: usize, tenant: Seq<char>, prefix: Seq<char>)
        requires
            self.wf(),
            self.char_count(tenant) <= max,
            self.spec_root().nodes() <= max,
        ensures
            self.evicted(max, prefix, tenant) == self.stamp(prefix, tenant),
    {
        self.lemma_cutoff(tenant, max);
        assert(self.is_cutoff(tenant, max, 0));
        self.lemma_ceiling(max);
        self.lemma_nodes();
        let a = self.edges_left(max, 0);
        let ends = self.edge_ends().remove(Seq::empty());
        assert(self.edge_ends().contains(Seq::empty()));
        lemma_len_subset(a, ends);
        assert(self.is_ceiling(max, 0));
        if self.stamp(prefix, tenant) is Some {
            self.lemma_moments(prefix, tenant, prefix, tenant);
        }
    }

    /// Eviction up to the cuts for `max` is eviction down to `max`.
    pub proof fn lemma_evicted_up_to(&self, max: usize, cuts: Seq<u64>, prefix: Seq<char>, tenant: Seq<char>)
        requires
            self.wf(),
            cuts.len() == self.tenant_views().len(),
            forall|i: int|
                0 <= i < cuts.len() ==> #[trigger] cuts[i] == self.eviction_cut(max, self.tenant_views()[i]),
        ensures
            self.left_after(cuts, prefix, tenant) == self.evicted(max, prefix, tenant),
    {
        if self.stamp(prefix, tenant) is Some {
            let k = choose|k: int| self.has_number(tenant, k);
            assert(self.tenant_views()[k] == tenant);
            assert(cuts[k] == self.eviction_cut(max, self.tenant_views()[k]));
            if self.stamp(prefix, tenant)->0 <= cuts[k] {
                assert(self.cut_off(cuts, prefix, tenant, k));
            }
        }
    }

    /// Eviction down to `max` leaves no tenant more than `max` characters, and no
    /// more than `max` nodes, or the root only.
    pub proof fn lemma_limits(&self, before: &Tree, max: usize)
        requires
            self.wf(),
            before.wf(),
            self.keeps(before, |prefix: Seq<char>, t: Seq<char>| before.evicted(max, prefix, t)),
        ensures
            forall|t: Seq<char>| #[trigger] self.char_count(t) <= max,
            self.spec_root().nodes() <= max || self.spec_root().nodes() == 1,
    {
        assert forall|t: Seq<char>| #[trigger] self.char_count(t) <= max by {
            before.lemma_cutoff(t, max);
            before.lemma_kept(t, before.cutoff(t, max));
            let kept = before.prefixes_after(t, before.cutoff(t, max));
            assert forall|p: Seq<char>| self.prefixes_after(t, 0).contains(p) implies kept.contains(p) by {
                assert(self.stamp(p, t) == before.evicted(max, p, t));
            }
            lemma_len_subset(self.prefixes_after(t, 0), kept);
        }
        before.lemma_ceiling(max);
        before.lemma_edges_left(max, before.ceiling(max), before.ceiling(max));
        self.lemma_nodes();
        let left = before.edges_left(max, before.ceiling(max));
        let ends = self.edge_ends().remove(Seq::empty());
        assert forall|p: Seq<char>| ends.contains(p) implies left.contains(p) by {
            if p.len() == 0 {
                assert(p =~= Seq::empty());
            }
            assert(self.ends(p) == (before.ends(p) && (p.len() == 0 || self.holds(p))));
            let t = choose|t: Seq<char>| (#[trigger] self.stamp(p, t)) is Some;
            assert(self.stamp(p, t) == before.evicted(max, p, t));
            assert(after_cut(before.stamp(p, t), before.ceiling(max)));
        }
        lemma_len_subset(ends, left);
        assert(self.edge_ends().contains(Seq::empty()));
    }

    /// Eviction down to nothing leaves the empty prefix only.
    pub proof fn lemma_full_cleanup(&self, tenant: Seq<char>, prefix: Seq<char>)
        requires
            self.wf(),
        ensures
            self.evicted(0, prefix, tenant) == if prefix.len() == 0 {
                self.stamp(prefix, tenant)
            } else {
                None
            },
    {
        self.lemma_cutoff(tenant, 0);
        let cut = self.cutoff(tenant, 0);
        if prefix.len() > 0 && self.evicted(0, prefix, tenant) is Some {
            self.lemma_kept(tenant, cut);
            assert(self.prefixes_after(tenant, cut).contains(prefix));
            vstd::set_lib::lemma_set_empty_equivalency_len(self.prefixes_after(tenant, cut));
        }
    }

    /// The prefixes at which edges end, the empty one among them.
    pub open spec fn edge_ends(&self) -> Set<Seq<char>> {
        Set::new(|prefix: Seq<char>| self.ends(prefix))
    }

    /// There are as many nodes as prefixes at which edges end, and the tree
    /// holds each of these but the empty one.
    pub proof fn lemma_nodes(&self)
        requires
            self.wf(),
        ensures
            self.edge_ends().finite(),
            self.edge_ends().len() == self.spec_root().nodes(),
            forall|prefix: Seq<char>| prefix.len() > 0 && #[trigger] self.ends(prefix) ==> self.holds(prefix),
    {
        let none = Seq::<u64>::empty();
        let below = self.root.edge_paths(none, 0);
        let empty = Seq::<char>::empty();
        lemma_nodes_live(self.root, self.log@);
        lemma_count_edges(self.root, self.log@, none, 0);
        assert forall|p: Seq<char>| p.len() > 0 && #[trigger] self.ends(p) implies self.holds(p) && self.root.held_after(
            p,
            none,
            0,
        ) by {
            lemma_end_held(self.root, self.log@, p);
            self.lemma_holds(p);
            let id = choose|id: usize| (#[trigger] self.root.below(p, id)) is Some;
            self.lemma_positive(id, p);
            assert(after_cut(pruned(self.root.below(p, id), none, id), 0));
        }
        assert(self.edge_ends() =~= below.insert(empty)) by {
            assert forall|p: Seq<char>| self.edge_ends().contains(p) == below.insert(empty).contains(p) by {
                if p.len() == 0 {
                    assert(p =~= empty);
                } else {
                    assert(self.ends(p) == self.root.ends(p));
                }
            }
        }
    }

    /// A recording adds an edge where the text ends, and one where it leaves what
    /// was there, unless edges end there already: two edges at most.
    pub proof fn lemma_edges_added(&self, before: &Tree, text: Seq<char>, tenant: Seq<char>)
        requires
            self.wf(),
            before.wf(),
            self.records(before, text, tenant),
        ensures
            self.spec_root().nodes() == before.spec_root().nodes() + (if before.ends(text) {
                0nat
            } else {
                1
            }) + (if before.ends(text.take(before.matched(text) as int)) || before.matched(text) == text.len() {
                0nat
            } else {
                1
            }),
    {
        self.lemma_nodes();
        before.lemma_nodes();
        before.lemma_matched(text);
        let m = before.matched(text);
        let cut = text.take(m as int);
        let a = before.edge_ends();
        if m == text.len() {
            assert(cut =~= text);
        }
        assert(self.edge_ends() =~= a.insert(text).insert(cut));
    }

    /// Eviction never adds an edge.
    pub proof fn lemma_edges_kept(&self, before: &Tree, left: spec_fn(Seq<char>, Seq<char>) -> Option<u64>)
        requires
            self.wf(),
            before.wf(),
            self.keeps(before, left),
        ensures
            self.spec_root().nodes() <= before.spec_root().nodes(),
    {
        self.lemma_nodes();
        before.lemma_nodes();
        lemma_len_subset(self.edge_ends(), before.edge_ends());
    }

    /// The characters of the first `n` tenants.
    pub open spec fn chars_of_first(&self, n: nat) -> nat
        decreases n,
    {
        if n == 0 {
            0
        } else {
            self.chars_of_first((n - 1) as nat) + self.char_count(self.spec_names()[n - 1]@)
        }
    }

    /// Below the root there are no more nodes than the tenants have characters
    /// together.
    pub proof fn lemma_nodes_bounded(&self)
        requires
            self.wf(),
        ensures
            self.spec_root().nodes() <= 1 + self.chars_of_first(self.spec_names().len()),
    {
        let n = self.spec_names().len();
        let marked = self.marked_by_first(n);
        let ends = self.edge_ends().remove(Seq::empty());
        self.lemma_nodes();
        self.lemma_marked_by_first(n);
        assert forall|p: Seq<char>| ends.contains(p) implies marked.contains(p) by {
            if p.len() == 0 {
                assert(p =~= Seq::empty());
            }
            let t = choose|t: Seq<char>| (#[trigger] self.stamp(p, t)) is Some;
            self.lemma_moments(p, t, p, t);
            let i = choose|i: int| self.has_number(t, i);
            assert(self.prefixes_after(self.spec_names()[i]@, 0).contains(p));
        }
        lemma_len_subset(ends, marked);
        assert(self.edge_ends().contains(Seq::empty()));
    }

    spec fn marked_by_first(&self, n: nat) -> Set<Seq<char>> {
        Set::new(
            |p: Seq<char>|
                exists|i: int| 0 <= i < n && #[trigger] self.prefixes_after(self.spec_names()[i]@, 0).contains(p),
        )
    }

    proof fn lemma_marked_by_first(&self, n: nat)
        requires
            self.wf(),
            n <= self.spec_names().len(),
        ensures
            self.marked_by_first(n).finite(),
            self.marked_by_first(n).len() <= self.chars_of_first(n),
        decreases n,
    {
        let all = self.marked_by_first(n);
        if n == 0 {
            assert(all =~= Set::empty());
        } else {
            let a = self.marked_by_first((n - 1) as nat);
            let name = self.spec_names()[n - 1]@;
            let b = self.prefixes_after(name, 0);
            self.lemma_marked_by_first((n - 1) as nat);
            self.lemma_kept(name, 0);
            assert(all =~= a + b) by {
                assert forall|p: Seq<char>| all.contains(p) == (a.contains(p) || b.contains(p)) by {
                    if all.contains(p) {
                        let i = choose|i: int|
                            0 <= i < n && #[trigger] self.prefixes_after(self.spec_names()[i]@, 0).contains(p);
                        if i < n - 1 {
                            assert(a.contains(p));
                        }
                    }
                    if b.contains(p) {
                        assert(self.prefixes_after(self.spec_names()[n - 1]@, 0).contains(p));
                    }
                    if a.contains(p) {
                        let i = choose|i: int|
                            0 <= i < n - 1 && #[trigger] self.prefixes_after(self.spec_names()[i]@, 0).contains(p);
                        assert(0 <= i < n && self.prefixes_after(self.spec_names()[i]@, 0).contains(p));
                    }
                }
            }
            lemma_len_union(a, b);
        }
    }
}

/// A new tree holds nothing, for nobody.
pub proof fn lemma_new_tree(tree: Tree, text: Seq<char>, tenant: Seq<char>)
    requires
        call_ensures(Tree::new, (), tree),
    ensures
        tree.stamp(text, tenant) is None,
        tree.tenant_views().len() == 0,
        tree.matched(text) == 0,
        tree.ends(text) <==> text.len() == 0,
        tree.now() == 1,
{
    tree.lemma_matched(text);
    if tree.matched(text) > 0 {
        let p = text.take(tree.matched(text) as int);
        let t = choose|t: Seq<char>| (#[trigger] tree.stamp(p, t)) is Some;
        assert(tree.stamp(p, t) is None);
    }
}

/// There is room for as long as moments are left.
pub proof fn lemma_room(tree: &Tree, r: bool)
    requires
        call_ensures(Tree::has_room, (tree,), r),
    ensures
        r <==> tree.now() < u64::MAX,
{
}

/// A recording marks every prefix of its text for its tenant, with a moment that
/// is later than all before it. It changes no mark on another prefix, and none of
/// another tenant.
pub proof fn lemma_inserted(
    tree: &mut Tree,
    text: &str,
    tenant: &str,
    prefix: Seq<char>,
    other: Seq<char>,
    n: int,
)
    requires
        old(tree).wf(),
        call_ensures(Tree::insert, (tree, text, tenant), ()),
    ensures
        0 <= n <= text@.len() ==> final(tree).stamp(text@.take(n), tenant@) == Some(old(tree).now()),
        prefix.len() > text@.len() || text@.take(prefix.len() as int) != prefix ==> final(tree).stamp(
            prefix,
            tenant@,
        ) == old(tree).stamp(prefix, tenant@),
        other != tenant@ ==> final(tree).stamp(prefix, other) == old(tree).stamp(prefix, other),
        old(tree).stamp(prefix, other) is Some ==> old(tree).stamp(prefix, other)->0 < old(tree).now(),
        final(tree).now() == old(tree).now() + 1,
{
    if 0 <= n <= text@.len() {
        assert(is_prefix(text@.take(n), text@));
    }
    if old(tree).stamp(prefix, other) is Some {
        old(tree).lemma_moments(prefix, other, prefix, other);
    }
}

/// Tenants stay where they are; one that is new comes last.
pub proof fn lemma_inserted_names(tree: &mut Tree, text: &str, tenant: &str)
    requires
        old(tree).wf(),
        call_ensures(Tree::insert, (tree, text, tenant), ()),
    ensures
        final(tree).tenant_views().contains(tenant@),
        old(tree).tenant_views().contains(tenant@) ==> final(tree).tenant_views() == old(tree).tenant_views(),
        !old(tree).tenant_views().contains(tenant@) ==> final(tree).tenant_views() == old(tree).tenant_views().push(
            tenant@,
        ),
{
    let before = *old(tree);
    before.lemma_names(tenant@);
    let names = before.tenant_views();
    assert(names.len() == before.spec_names().len());
    if before.known(tenant@) {
        let i = choose|i: int| 0 <= i < before.spec_names().len() && (#[trigger] before.spec_names()[i])@ == tenant@;
        assert(names[i] == tenant@);
    } else {
        if names.contains(tenant@) {
            let i = choose|i: int| 0 <= i < names.len() && names[i] == tenant@;
            assert(before.spec_names()[i]@ == tenant@);
        }
        assert(names.push(tenant@)[names.len() as int] == tenant@);
    }
}

/// Edges end where they ended, where the text ends, and where the text leaves
/// what anyone was sent before, but nowhere else.
pub proof fn lemma_inserted_ends(tree: &mut Tree, text: &str, tenant: &str, prefix: Seq<char>)
    requires
        old(tree).wf(),
        call_ensures(Tree::insert, (tree, text, tenant), ()),
    ensures
        final(tree).ends(prefix) <==> {
            ||| old(tree).ends(prefix)
            ||| prefix == text@
            ||| {
                &&& prefix.len() < text@.len()
                &&& text@.take(prefix.len() as int) == prefix
                &&& prefix.len() > 0 ==> exists|t: Seq<char>| (#[trigger] old(tree).stamp(prefix, t)) is Some
                &&& forall|t: Seq<char>|
                    (#[trigger] old(tree).stamp(text@.take(prefix.len() as int + 1), t)) is None
            }
        },
{
    let before = *old(tree);
    before.lemma_matched(text@);
    let m = before.matched(text@);
    if m == text@.len() {
        assert(text@.take(m as int) =~= text@);
    }
    let cut = text@.take(m as int);
    if prefix == cut && m < text@.len() {
        assert(!before.holds(text@.take(m as int + 1)));
    }
    if prefix.len() < text@.len() && text@.take(prefix.len() as int) == prefix {
        if (prefix.len() > 0 ==> before.holds(prefix)) && !before.holds(text@.take(prefix.len() as int + 1)) {
            assert(before.is_matched(text@, prefix.len()));
        }
    }
}

/// A search finds the longest prefix of the text that anyone was sent, and who
/// was sent it last.
pub proof fn lemma_found(tree: &Tree, text: &str, r: PrefixMatch, t: Seq<char>, k: int)
    requires
        tree.wf(),
        call_ensures(Tree::prefix_match_with_counts, (tree, text), r),
    ensures
        r.input_char_count == text@.len(),
        r.matched_char_count <= text@.len(),
        r.matched_char_count > 0 ==> r.tenant is Some,
        r.matched_char_count < k <= text@.len() ==> tree.stamp(text@.take(k), t) is None,
        r.tenant matches Some(owner) ==> {
            let part = text@.take(r.matched_char_count as int);
            &&& tree.stamp(part, owner@) is Some
            &&& tree.stamp(part, t) is Some && t != owner@ ==> tree.stamp(part, t)->0 < tree.stamp(part, owner@)->0
        },
        r.tenant is None ==> tree.stamp(Seq::empty(), t) is None,
{
    tree.lemma_matched(text@);
    let m = r.matched_char_count as int;
    if m < k <= text@.len() {
        assert(!tree.holds(text@.take(k)));
    }
    if r.tenant is None {
        assert(!tree.holds(text@.take(m)));
        assert(m == 0);
        assert(text@.take(0) =~= Seq::empty());
    }
}

/// Of a text that was not searched for, only the length is known.
pub proof fn lemma_not_searched(text: &str, r: PrefixMatch)
    requires
        call_ensures(PrefixMatch::unmatched, (text,), r),
    ensures
        r.tenant is None,
        r.matched_char_count == 0,
        r.input_char_count == text@.len(),
{
}

/// The prefixes that a tenant was sent at a moment or later.
pub open spec fn sent_since(tree: Tree, tenant: Seq<char>, moment: u64) -> Set<Seq<char>> {
    Set::new(
        |p: Seq<char>| p.len() > 0 && tree.stamp(p, tenant) is Some && tree.stamp(p, tenant)->0 >= moment,
    )
}

/// The ends of edges that anyone was sent at a moment or later.
pub open spec fn ends_since(tree: Tree, moment: u64) -> Set<Seq<char>> {
    Set::new(
        |p: Seq<char>|
            p.len() > 0 && tree.ends(p) && exists|t: Seq<char>|
                (#[trigger] tree.stamp(p, t)) is Some && tree.stamp(p, t)->0 >= moment,
    )
}

/// Eviction takes marks away and changes none. The empty prefix stays. What goes
/// is older than what stays of the same tenant.
pub proof fn lemma_evicted_marks(tree: &mut Tree, max: usize, tenant: Seq<char>, p: Seq<char>, q: Seq<char>)
    requires
        old(tree).wf(),
        call_ensures(Tree::evict_tenant_by_size, (tree, max), ()),
    ensures
        final(tree).stamp(p, tenant) is None || final(tree).stamp(p, tenant) == old(tree).stamp(p, tenant),
        p.len() == 0 ==> final(tree).stamp(p, tenant) == old(tree).stamp(p, tenant),
        p.len() > 0 && q.len() > 0 && old(tree).stamp(p, tenant) is Some && final(tree).stamp(p, tenant) is None
            && final(tree).stamp(q, tenant) is Some ==> old(tree).stamp(p, tenant)->0 < old(tree).stamp(q, tenant)->0,
        final(tree).tenant_views() == old(tree).tenant_views(),
        final(tree).now() == old(tree).now(),
        final(tree).ends(p) <==> old(tree).ends(p) && (p.len() == 0 || exists|t: Seq<char>|
            (#[trigger] final(tree).stamp(p, t)) is Some),
{
}

/// After eviction no tenant has more characters than the limit, and the tree no
/// more nodes, unless the root alone is left.
pub proof fn lemma_evicted_within(tree: &mut Tree, max: usize, tenant: Seq<char>)
    requires
        old(tree).wf(),
        call_ensures(Tree::evict_tenant_by_size, (tree, max), ()),
    ensures
        sent_since(*final(tree), tenant, 0).finite(),
        sent_since(*final(tree), tenant, 0).len() <= max,
        final(tree).edge_ends().finite(),
        final(tree).edge_ends().len() <= max || final(tree).edge_ends() == set![Seq::<char>::empty()],
{
    let after = *final(tree);
    after.lemma_kept(tenant, 0);
    assert(sent_since(after, tenant, 0) =~= after.prefixes_after(tenant, 0)) by {
        assert forall|p: Seq<char>| after.stamp(p, tenant) is Some implies after.stamp(p, tenant)->0 > 0 by {
            after.lemma_moments(p, tenant, p, tenant);
        }
    }
    assert(after.char_count(tenant) <= max);
    after.lemma_nodes();
    let ends = after.edge_ends();
    let empty = Seq::<char>::empty();
    assert(ends.contains(empty)) by {
        assert(old(tree).ends(empty));
    }
    if ends.len() == 1 {
        let rest = ends.remove(empty);
        vstd::set_lib::lemma_set_empty_equivalency_len(rest);
        assert(ends =~= set![empty]);
    }
}

/// Nothing is evicted needlessly: if a mark goes, then what its tenant was sent
/// since then is over the limit, or the nodes that anyone was sent since then are,
/// with the root.
pub proof fn lemma_evicted_of_need(tree: &mut Tree, max: usize, tenant: Seq<char>, p: Seq<char>)
    requires
        old(tree).wf(),
        call_ensures(Tree::evict_tenant_by_size, (tree, max), ()),
        old(tree).stamp(p, tenant) is Some,
        final(tree).stamp(p, tenant) is None,
    ensures
        ({
            let moment = old(tree).stamp(p, tenant)->0;
            ||| sent_since(*old(tree), tenant, moment).len() > max
            ||| ends_since(*old(tree), moment).len() + 1 > max
        }),
{
    let before = *old(tree);
    let moment = before.stamp(p, tenant)->0;
    before.lemma_moments(p, tenant, p, tenant);
    before.lemma_cutoff(tenant, max);
    before.lemma_ceiling(max);
    let earlier = (moment - 1) as u64;
    if moment <= before.cutoff(tenant, max) {
        let cut = before.cutoff(tenant, max);
        before.lemma_kept_falls(tenant, earlier, (cut - 1) as u64);
        assert(sent_since(before, tenant, moment) =~= before.prefixes_after(tenant, earlier));
    } else {
        let cut = before.ceiling(max);
        before.lemma_edges_left(max, earlier, (cut - 1) as u64);
        before.lemma_nodes();
        let left = before.edges_left(max, earlier);
        let all = ends_since(before, moment);
        lemma_len_subset(all, before.edge_ends());
        assert forall|e: Seq<char>| left.contains(e) implies all.contains(e) by {
            let t = choose|t: Seq<char>|
                after_cut(#[trigger] before.stamp(e, t), earlier) && after_cut(
                    before.stamp(e, t),
                    before.cutoff(t, max),
                );
            assert(before.stamp(e, t) is Some && before.stamp(e, t)->0 >= moment);
        }
        lemma_len_subset(left, all);
    }
}

/// Eviction up to given moments, one for each tenant in their order, takes what
/// was marked no later than them. A tenant without a moment loses nothing.
pub proof fn lemma_evicted_to_moments(tree: &mut Tree, cuts: &Vec<u64>, i: int, p: Seq<char>)
    requires
        old(tree).wf(),
        call_ensures(Tree::evict_up_to, (tree, cuts), ()),
        0 <= i < old(tree).tenant_views().len(),
    ensures
        ({
            let name = old(tree).tenant_views()[i];
            let mark = old(tree).stamp(p, name);
            final(tree).stamp(p, name) == if p.len() > 0 && mark is Some && i < cuts@.len() && mark->0 <= cuts@[i] {
                None
            } else {
                mark
            }
        }),
        final(tree).tenant_views() == old(tree).tenant_views(),
        final(tree).ends(p) <==> old(tree).ends(p) && (p.len() == 0 || exists|t: Seq<char>|
            (#[trigger] final(tree).stamp(p, t)) is Some),
{
    let before = *old(tree);
    let name = before.tenant_views()[i];
    before.lemma_names(name);
    if before.stamp(p, name) is Some && i < cuts@.len() && before.stamp(p, name)->0 <= cuts@[i] {
        assert(before.cut_off(cuts@, p, name, i));
    }
    if exists|j: int| before.cut_off(cuts@, p, name, j) {
        let j = choose|j: int| before.cut_off(cuts@, p, name, j);
        assert(before.spec_names()[j]@ == name);
        assert(before.spec_names()[i]@ == name);
        assert(i == j);
    }
}

/// Eviction down to a limit is eviction up to the moments for that limit.
pub proof fn lemma_evicted_either_way(
    tree: &mut Tree,
    again: &mut Tree,
    cuts: Vec<u64>,
    max: usize,
    p: Seq<char>,
    t: Seq<char>,
)
    requires
        old(tree).wf(),
        *old(again) == *old(tree),
        call_ensures(Tree::eviction_cuts, (old(tree), max), cuts),
        call_ensures(Tree::evict_up_to, (tree, &cuts), ()),
        call_ensures(Tree::evict_tenant_by_size, (again, max), ()),
    ensures
        cuts@.len() == old(tree).tenant_views().len(),
        final(tree).stamp(p, t) == final(again).stamp(p, t),
{
    old(tree).lemma_evicted_up_to(max, cuts@, p, t);
}

impl Tree {
    /// The marks by the tenants' places in their list, and the ends of edges, are
    /// those of the edges.
    pub(crate) proof fn lemma_marks(&self) -> (log: Seq<usize>)
        requires
            self.wf(),
        ensures
            self.spec_root().wf(log),
            forall|p: Seq<char>| #[trigger] self.ends(p) == self.spec_root().ends(p),
            forall|p: Seq<char>, id: usize|
                (#[trigger] self.spec_root().below(p, id)) is Some ==> id < self.tenant_views().len(),
            forall|p: Seq<char>, id: usize|
                #![trigger self.spec_root().below(p, id)]
                id < self.tenant_views().len() ==> self.stamp(p, self.tenant_views()[id as int])
                    == self.spec_root().below(p, id),
    {
        assert forall|p: Seq<char>, id: usize| (#[trigger] self.spec_root().below(p, id)) is Some implies id
            < self.tenant_views().len() by {
            if id >= self.names@.len() {
                self.lemma_unknown_number(id, p);
            }
        }
        assert forall|p: Seq<char>, id: usize|
            #![trigger self.spec_root().below(p, id)]
            id < self.tenant_views().len() implies self.stamp(p, self.tenant_views()[id as int])
            == self.spec_root().below(p, id) by {
            let name = self.tenant_views()[id as int];
            assert(self.has_number(name, id as int));
            self.lemma_number(name, id as int);
        }
        self.log@
    }
}

/// What is lost without need of its own tenant's limit is lost to the limit on
/// nodes, and is then older than what anyone keeps.
pub proof fn lemma_evicted_for_nodes(
    tree: &mut Tree,
    max: usize,
    s: Seq<char>,
    p: Seq<char>,
    t: Seq<char>,
    q: Seq<char>,
)
    requires
        old(tree).wf(),
        call_ensures(Tree::evict_tenant_by_size, (tree, max), ()),
        old(tree).stamp(p, s) is Some,
        final(tree).stamp(p, s) is None,
        sent_since(*old(tree), s, old(tree).stamp(p, s)->0).len() <= max,
        q.len() > 0,
        final(tree).stamp(q, t) is Some,
    ensures
        old(tree).stamp(p, s)->0 < old(tree).stamp(q, t)->0,
{
    let before = *old(tree);
    let moment = before.stamp(p, s)->0;
    before.lemma_moments(p, s, p, s);
    before.lemma_cutoff(s, max);
    let earlier = (moment - 1) as u64;
    if moment <= before.cutoff(s, max) {
        before.lemma_kept_falls(s, earlier, (before.cutoff(s, max) - 1) as u64);
        assert(sent_since(before, s, moment) =~= before.prefixes_after(s, earlier));
    }
}

} // verus!
