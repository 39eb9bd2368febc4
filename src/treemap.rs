//! The in-memory mirror of the watched paths: one node per path component,
//! each remembering the modification time last observed for its path.
use vstd::prelude::*;

use crate::metadata::{Snapshot, Timestamp, decide, step};
use crate::node::Node;
use crate::order::{compare_segments, lemma_seg_order, lemma_sorted_unique, seg_lt, strictly_sorted};
use vstd::string::StringExecFns;

verus! {

/// A path as the contracts see it: its components as character sequences.
pub open spec fn path_view(p: Seq<String>) -> Seq<Seq<char>> {
    Seq::new(p.len(), |i: int| p[i]@)
}

/// One node of the mirror. The root of a tree is a node with an empty
/// `full_path` and an empty `node`; it stands for no path and is never stat'ed.
#[derive(Debug)]
pub struct Treemap {
    /// The components of this node's path, from the top.
    pub full_path: Vec<String>,
    /// The last component of this node's path.
    pub node: String,
    /// The nodes one component below, in increasing order of their components.
    pub branches: Vec<Treemap>,
    /// The modification time last observed; `None` while the path is known
    /// to be absent or was never seen.
    pub last_update: Option<Timestamp>,
    /// The watch specifications that contributed this node.
    pub conf_node: Vec<Node>,
}

/// The paths of a sequence of paths, as the contracts see them.
pub open spec fn paths_of(r: Seq<Vec<String>>) -> Seq<Seq<Seq<char>>> {
    Seq::new(r.len(), |i: int| path_view(r[i]@))
}

/// Whether a poll that observes `seen` goes on below node `a`: the root is
/// always passed through, any other node only where its observation is a
/// change (see `step`).
pub open spec fn moves(a: Treemap, seen: Snapshot) -> bool {
    a.is_root() || step(a.last_update, seen.at(a.path())).0
}

/// `b` is what one poll that observes `seen` leaves of `a`: the shape, paths
/// and links stay, each node the poll reaches stores what its observation
/// makes of its old time, and below a node whose observation is no change
/// nothing is touched.
pub open spec fn polled(a: Treemap, b: Treemap, seen: Snapshot) -> bool
    decreases a,
{
    &&& b.full_path == a.full_path
    &&& b.node == a.node
    &&& b.conf_node == a.conf_node
    &&& b.branches@.len() == a.branches@.len()
    &&& if a.is_root() {
        b.last_update == a.last_update
    } else {
        b.last_update == step(a.last_update, seen.at(a.path())).1
    }
    &&& if moves(a, seen) {
        forall|i: int|
            0 <= i < a.branches@.len() ==> polled(#[trigger] a.branches@[i], b.branches@[i], seen)
    } else {
        b.branches == a.branches
    }
}

/// `q` is reported by a poll of `a` that observes `seen`: a leaf whose
/// observation is a change, reached through ancestors whose observations are
/// changes too.
pub open spec fn reports(a: Treemap, seen: Snapshot, q: Seq<Seq<char>>) -> bool
    decreases a,
{
    if moves(a, seen) {
        if a.branches@.len() == 0 {
            !a.is_root() && q == a.path()
        } else {
            exists|i: int|
                0 <= i < a.branches@.len() && reports(#[trigger] a.branches@[i], seen, q)
        }
    } else {
        false
    }
}

/// `q` starts with `prefix`.
pub open spec fn extends(q: Seq<Seq<char>>, prefix: Seq<Seq<char>>) -> bool {
    prefix.len() <= q.len() && q.subrange(0, prefix.len() as int) == prefix
}

/// Every path reported below a node extends that node's path.
pub proof fn lemma_reports_extend(a: Treemap, seen: Snapshot, q: Seq<Seq<char>>)
    requires
        a.wf(),
        reports(a, seen, q),
    ensures
        extends(q, a.path()),
    decreases a,
{
    if a.branches@.len() > 0 {
        let i = choose|i: int|
            0 <= i < a.branches@.len() && reports(#[trigger] a.branches@[i], seen, q);
        lemma_reports_extend(a.branches@[i], seen, q);
        let c = a.branches@[i];
        assert(c.path() == a.path().push(c.node@));
        assert(q.subrange(0, a.path().len() as int) =~= q.subrange(0, c.path().len() as int).subrange(
            0,
            a.path().len() as int,
        ));
        assert(c.path().subrange(0, a.path().len() as int) =~= a.path());
    } else {
        assert(q.subrange(0, a.path().len() as int) =~= q);
    }
}

/// Two sequences without repeats and without common elements join into one
/// without repeats.
pub proof fn lemma_join_distinct(x: Seq<Seq<Seq<char>>>, y: Seq<Seq<Seq<char>>>)
    requires
        x.no_duplicates(),
        y.no_duplicates(),
        forall|q: Seq<Seq<char>>| x.contains(q) ==> !y.contains(q),
    ensures
        (x + y).no_duplicates(),
        forall|q: Seq<Seq<char>>| #[trigger] (x + y).contains(q) <==> (x.contains(q) || y.contains(q)),
{
    let z = x + y;
    assert forall|a: int, b: int| 0 <= a < z.len() && 0 <= b < z.len() && a != b implies z[a] != z[b] by {
        if a < x.len() && b >= x.len() {
            assert(y[b - x.len()] == z[b]);
            assert(x.contains(z[a]));
            assert(y.contains(z[b]));
        } else if b < x.len() && a >= x.len() {
            assert(x.contains(z[b]));
            assert(y[a - x.len()] == z[a]);
            assert(y.contains(z[a]));
        } else if a >= x.len() {
            assert(y[a - x.len()] == z[a]);
            assert(y[b - x.len()] == z[b]);
        }
    }
    assert forall|q: Seq<Seq<char>>| #[trigger] z.contains(q) <==> (x.contains(q) || y.contains(q)) by {
        if z.contains(q) {
            let k = choose|k: int| 0 <= k < z.len() && z[k] == q;
            if k >= x.len() {
                assert(y[k - x.len()] == q);
            }
        }
        if x.contains(q) {
            let k = choose|k: int| 0 <= k < x.len() && x[k] == q;
            assert(z[k] == q);
        }
        if y.contains(q) {
            let k = choose|k: int| 0 <= k < y.len() && y[k] == q;
            assert(z[k + x.len()] == q);
        }
    }
}

impl Treemap {
    pub open spec fn path(&self) -> Seq<Seq<char>> {
        path_view(self.full_path@)
    }

    pub open spec fn is_root(&self) -> bool {
        self.full_path@.len() == 0
    }

    /// Each branch extends this node's path by its own component, the branches
    /// are in increasing order of their components (so no two share one), and
    /// the same holds all the way down.
    pub open spec fn wf(&self) -> bool
        decreases self,
    {
        &&& forall|i: int|
            0 <= i < self.branches@.len() ==> #[trigger] self.branches@[i].path() == self.path().push(
                self.branches@[i].node@,
            )
        &&& forall|i: int, j: int|
            0 <= i < j < self.branches@.len() ==> self.branches@[i].node@ != self.branches@[j].node@
        &&& forall|i: int, j: int|
            0 <= i < j < self.branches@.len() ==> seg_lt(self.branches@[i].node@, self.branches@[j].node@)
        &&& forall|i: int| 0 <= i < self.branches@.len() ==> (#[trigger] self.branches@[i]).wf()
    }

    /// `q` is the path of this node or of a node below it.
    pub open spec fn has_node(&self, q: Seq<Seq<char>>) -> bool
        decreases self,
    {
        q == self.path() || exists|i: int|
            0 <= i < self.branches@.len() && (#[trigger] self.branches@[i]).has_node(q)
    }

    /// `q` is the path of a node without branches in this subtree.
    pub open spec fn has_leaf(&self, q: Seq<Seq<char>>) -> bool
        decreases self,
    {
        if self.branches@.len() == 0 {
            q == self.path()
        } else {
            exists|i: int| 0 <= i < self.branches@.len() && (#[trigger] self.branches@[i]).has_leaf(q)
        }
    }

    /// `q` is the path of a node of this subtree to which specification `x` is
    /// linked.
    pub open spec fn has_link(&self, q: Seq<Seq<char>>, x: Node) -> bool
        decreases self,
    {
        (q == self.path() && self.conf_node@.contains(x)) || exists|i: int|
            0 <= i < self.branches@.len() && (#[trigger] self.branches@[i]).has_link(q, x)
    }

    /// `q` is the path of a node of this subtree whose observed time is `s`.
    pub open spec fn has_stamp(&self, q: Seq<Seq<char>>, s: Option<Timestamp>) -> bool
        decreases self,
    {
        (q == self.path() && s == self.last_update) || exists|i: int|
            0 <= i < self.branches@.len() && (#[trigger] self.branches@[i]).has_stamp(q, s)
    }

    /// The paths of the leaves of this subtree.
    pub open spec fn leaves(&self) -> Set<Seq<Seq<char>>> {
        Set::new(|q: Seq<Seq<char>>| self.has_leaf(q))
    }

    /// A node for component `node` below the path `prev_path`, with the given
    /// branches, no observed time and no watch specification linked.
    pub fn new(node: String, branches: Vec<Treemap>, prev_path: Vec<String>) -> (r: Treemap)
        ensures
            r.full_path@ == prev_path@.push(node),
            r.path() == path_view(prev_path@).push(node@),
            r.node == node,
            r.branches == branches,
            r.last_update.is_none(),
            r.conf_node@.len() == 0,
    {
        let mut full_path = clone_path(&prev_path);
        full_path.push(node.clone());
        assert(path_view(full_path@) =~= path_view(prev_path@).push(node@));
        Treemap { full_path, node, branches, last_update: None, conf_node: Vec::new() }
    }

    /// The root of a tree, above the given top-level nodes.
    pub fn root(branches: Vec<Treemap>) -> (r: Treemap)
        ensures
            r.is_root(),
            r.path() == Seq::<Seq<char>>::empty(),
            r.node@ == Seq::<char>::empty(),
            r.branches == branches,
            r.last_update.is_none(),
            r.conf_node@.len() == 0,
    {
        let r = Treemap {
            full_path: Vec::new(),
            node: String::new(),
            branches,
            last_update: None,
            conf_node: Vec::new(),
        };
        assert(r.path() =~= Seq::<Seq<char>>::empty());
        r
    }

    /// Whether this is the root of a tree.
    pub fn is_root_node(&self) -> (r: bool)
        ensures
            r == self.is_root(),
    {
        self.full_path.len() == 0
    }

    /// Records the observation `now` of this node's path: a strictly newer time
    /// or a first sighting is stored and is a change, a disappearance clears the
    /// stored time and is a change, anything else changes nothing.
    pub fn record(&mut self, now: Option<Timestamp>) -> (changed: bool)
        ensures
            (changed, final(self).last_update) == step(old(self).last_update, now),
            *final(self) == (Treemap { last_update: final(self).last_update, ..*old(self) }),
    {
        let (changed, stored) = decide(self.last_update, now);
        self.last_update = stored;
        changed
    }

    /// Looks up this node's path in `seen` and records what was observed; true
    /// where that is a change (see `record`).
    pub fn poll_point(&mut self, seen: &Snapshot) -> (changed: bool)
        ensures
            (changed, final(self).last_update) == step(old(self).last_update, seen.at(old(self).path())),
            *final(self) == (Treemap { last_update: final(self).last_update, ..*old(self) }),
    {
        let now = seen.lookup(&self.full_path);
        self.record(now)
    }

    /// Polls this subtree against `seen` and returns the paths of the leaves
    /// found changed. A node whose observation is no change is not looked
    /// below; the root is passed through without a lookup. No path is
    /// returned twice.
    pub fn poll_branches(&mut self, seen: &Snapshot) -> (r: Vec<Vec<String>>)
        requires
            old(self).wf(),
        ensures
            final(self).wf(),
            polled(*old(self), *final(self), *seen),
            paths_of(r@).no_duplicates(),
            forall|q: Seq<Seq<char>>| #[trigger] paths_of(r@).contains(q) <==> reports(*old(self), *seen, q),
        decreases *old(self),
    {
        let ghost s0 = *self;
        let root = self.is_root_node();
        let go = if root {
            true
        } else {
            self.poll_point(seen)
        };
        let mut update: Vec<Vec<String>> = Vec::new();
        if !go {
            assert(paths_of(update@) =~= Seq::<Seq<Seq<char>>>::empty());
            return update;
        }
        let ghost s1 = *self;
        let n = self.branches.len();
        if n == 0 {
            if !root {
                update.push(clone_path(&self.full_path));
                assert(paths_of(update@) =~= seq![s0.path()]);
                assert forall|q: Seq<Seq<char>>| #[trigger] paths_of(update@).contains(q) <==> reports(s0, *seen, q) by {
                    if q == s0.path() {
                        assert(paths_of(update@)[0] == q);
                    }
                }
            } else {
                assert(paths_of(update@) =~= Seq::<Seq<Seq<char>>>::empty());
            }
            return update;
        }
        let mut i: usize = 0;
        while i < n
            invariant
                s0 == *old(self),
                s0.wf(),
                moves(s0, *seen),
                s1 == (Treemap { last_update: s1.last_update, ..s0 }),
                self.full_path == s0.full_path,
                self.node == s0.node,
                self.conf_node == s0.conf_node,
                self.last_update == s1.last_update,
                self.branches@.len() == n,
                n == s0.branches@.len(),
                i <= n,
                forall|j: int| i <= j < n ==> #[trigger] self.branches@[j] == s0.branches@[j],
                forall|j: int|
                    0 <= j < i ==> polled(#[trigger] s0.branches@[j], self.branches@[j], *seen)
                        && self.branches@[j].wf(),
                paths_of(update@).no_duplicates(),
                forall|q: Seq<Seq<char>>| #[trigger]
                    paths_of(update@).contains(q) <==> exists|j: int|
                        0 <= j < i && reports(#[trigger] s0.branches@[j], *seen, q),
            decreases n - i,
        {
            let ghost before = update@;
            let ghost c0 = self.branches@[i as int];
            assert(c0.wf());
            assert(decreases_to!(s0 => s0.branches));
            assert(decreases_to!(s0.branches => s0.branches@));
            assert(decreases_to!(s0.branches@ => s0.branches@[i as int]));
            let mut sub = self.branches[i].poll_branches(seen);
            let ghost c1 = self.branches@[i as int];
            let ghost subv = sub@;
            proof {
                assert forall|q: Seq<Seq<char>>| paths_of(before).contains(q) implies !paths_of(subv).contains(q) by {
                    let j = choose|j: int| 0 <= j < i && reports(#[trigger] s0.branches@[j], *seen, q);
                    lemma_reports_extend(s0.branches@[j], *seen, q);
                    if paths_of(subv).contains(q) {
                        lemma_reports_extend(c0, *seen, q);
                        let pl = s0.path().len() as int;
                        assert(s0.branches@[j].path() == s0.path().push(s0.branches@[j].node@));
                        assert(c0.path() == s0.path().push(c0.node@));
                        assert(q[pl] == s0.branches@[j].path()[pl]);
                        assert(q[pl] == c0.path()[pl]);
                    }
                }
                lemma_join_distinct(paths_of(before), paths_of(subv));
            }
            update.append(&mut sub);
            proof {
                assert(paths_of(update@) =~= paths_of(before) + paths_of(subv));
                assert forall|q: Seq<Seq<char>>| #[trigger]
                    paths_of(update@).contains(q) <==> exists|j: int|
                        0 <= j < i + 1 && reports(#[trigger] s0.branches@[j], *seen, q) by {
                    if paths_of(subv).contains(q) {
                        assert(reports(s0.branches@[i as int], *seen, q));
                    }
                    if exists|j: int| 0 <= j < i + 1 && reports(#[trigger] s0.branches@[j], *seen, q) {
                        let j = choose|j: int| 0 <= j < i + 1 && reports(#[trigger] s0.branches@[j], *seen, q);
                        if j < i {
                            assert(paths_of(before).contains(q));
                        }
                    }
                }
            }
            i = i + 1;
        }
        proof {
            assert forall|j: int| 0 <= j < self.branches@.len() implies #[trigger] self.branches@[j].path()
                == self.path().push(self.branches@[j].node@) by {
                assert(s0.branches@[j].path() == s0.path().push(s0.branches@[j].node@));
            }
            assert forall|a: int, b: int| 0 <= a < b < self.branches@.len() implies self.branches@[a].node@
                != self.branches@[b].node@ && seg_lt(self.branches@[a].node@, self.branches@[b].node@) by {
                assert(polled(s0.branches@[a], self.branches@[a], *seen));
                assert(polled(s0.branches@[b], self.branches@[b], *seen));
                assert(seg_lt(s0.branches@[a].node@, s0.branches@[b].node@));
            }
            assert forall|j: int| 0 <= j < self.branches@.len() implies (#[trigger] self.branches@[j]).wf() by {
                assert(polled(s0.branches@[j], self.branches@[j], *seen));
            }
            lemma_wf_intro(*self);
            assert forall|q: Seq<Seq<char>>| #[trigger] paths_of(update@).contains(q) <==> reports(s0, *seen, q) by {
                if paths_of(update@).contains(q) {
                    let j = choose|j: int| 0 <= j < n && reports(#[trigger] s0.branches@[j], *seen, q);
                    assert(reports(s0, *seen, q));
                }
            }
        }
        update
    }

    /// Folds `other`, which stands for the same path, into this node: the two
    /// lists of branches are merged in order, branches with the same component
    /// being merged in turn. The result holds the nodes of both; a node of this
    /// tree keeps its observed time, and a node that only `other` had brings
    /// its own.
    pub fn merge(&mut self, other: Treemap)
        requires
            old(self).wf(),
            other.wf(),
            old(self).path() == other.path(),
        ensures
            final(self).wf(),
            final(self).full_path == old(self).full_path,
            final(self).node == old(self).node,
            final(self).last_update == old(self).last_update,
            final(self).conf_node@ == old(self).conf_node@ + other.conf_node@,
            forall|q: Seq<Seq<char>>|
                #[trigger] final(self).has_node(q) <==> (old(self).has_node(q) || other.has_node(q)),
            forall|q: Seq<Seq<char>>, s: Option<Timestamp>|
                #[trigger] final(self).has_stamp(q, s) <==> (old(self).has_stamp(q, s) || (other.has_stamp(q, s)
                    && !old(self).has_node(q))),
            unlinked(*old(self)) && unlinked(other) ==> unlinked(*final(self)),
            forall|q: Seq<Seq<char>>, x: Node|
                #[trigger] final(self).has_link(q, x) <==> (old(self).has_link(q, x) || other.has_link(q, x)),
        decreases other,
    {
        let ghost s0 = *self;
        let ghost o = other;
        let Treemap { full_path: _, node: _, branches: theirs, last_update: _, conf_node: mut confs } = other;
        self.conf_node.append(&mut confs);
        let mut mine: Vec<Treemap> = Vec::new();
        std::mem::swap(&mut mine, &mut self.branches);
        proof {
            lemma_wf_branches(s0);
            lemma_wf_branches(o);
            assert(decreases_to!(o => o.branches));
        }
        let merged = merge_branches(mine, theirs, Ghost(s0.path()));
        self.branches = merged;
        proof {
            let p = s0.path();
            assert forall|q: Seq<Seq<char>>, x: Node|
                #[trigger] self.has_link(q, x) <==> (s0.has_link(q, x) || o.has_link(q, x)) by {
                assert(self.has_link(q, x) <==> ((q == p && self.conf_node@.contains(x)) || link_in_some(self.branches@, q, x)));
                assert(s0.has_link(q, x) <==> ((q == p && s0.conf_node@.contains(x)) || link_in_some(s0.branches@, q, x)));
                assert(o.has_link(q, x) <==> ((q == p && o.conf_node@.contains(x)) || link_in_some(o.branches@, q, x)));
                if self.conf_node@.contains(x) {
                    let k = choose|k: int| 0 <= k < self.conf_node@.len() && self.conf_node@[k] == x;
                    if k >= s0.conf_node@.len() {
                        assert(o.conf_node@[k - s0.conf_node@.len()] == x);
                    }
                }
                if s0.conf_node@.contains(x) {
                    let k = choose|k: int| 0 <= k < s0.conf_node@.len() && s0.conf_node@[k] == x;
                    assert(self.conf_node@[k] == x);
                }
                if o.conf_node@.contains(x) {
                    let k = choose|k: int| 0 <= k < o.conf_node@.len() && o.conf_node@[k] == x;
                    assert(self.conf_node@[k + s0.conf_node@.len()] == x);
                }
            }
            if unlinked(s0) && unlinked(o) {
                assert(all_unlinked(s0.branches@));
                assert(all_unlinked(o.branches@));
                assert(unlinked(*self));
            }
            lemma_wf_intro(*self);
            assert forall|q: Seq<Seq<char>>| #[trigger] self.has_node(q) <==> (s0.has_node(q) || o.has_node(q)) by {
                assert(self.has_node(q) <==> (q == p || in_some(self.branches@, q)));
                assert(s0.has_node(q) <==> (q == p || in_some(s0.branches@, q)));
                assert(o.has_node(q) <==> (q == p || in_some(o.branches@, q)));
            }
            assert forall|q: Seq<Seq<char>>, s: Option<Timestamp>|
                #[trigger] self.has_stamp(q, s) <==> (s0.has_stamp(q, s) || (o.has_stamp(q, s) && !s0.has_node(q))) by {
                assert(self.has_stamp(q, s) <==> ((q == p && s == s0.last_update) || stamp_in_some(self.branches@, q, s)));
                assert(s0.has_stamp(q, s) <==> ((q == p && s == s0.last_update) || stamp_in_some(s0.branches@, q, s)));
                assert(o.has_stamp(q, s) <==> ((q == p && s == o.last_update) || stamp_in_some(o.branches@, q, s)));
                assert(s0.has_node(q) <==> (q == p || in_some(s0.branches@, q)));
                if stamp_in_some(o.branches@, q, s) {
                    let j = choose|j: int| 0 <= j < o.branches@.len() && (#[trigger] o.branches@[j]).has_stamp(q, s);
                    lemma_stamp_node(o.branches@[j], q, s);
                    lemma_node_extends(o.branches@[j], q);
                    assert(q != p);
                }
            }
        }
    }

    /// Records that the watch specification `conf_node` contributed this node.
    pub fn link_conf_node(&mut self, conf_node: Node) -> (r: &mut Self)
        ensures
            *r == (Treemap { conf_node: r.conf_node, ..*old(self) }),
            r.conf_node@ == old(self).conf_node@.push(conf_node),
            *final(self) == *final(r),
    {
        self.conf_node.push(conf_node);
        self
    }
}

/// `q` is a node of one of `bs`.
pub open spec fn in_some(bs: Seq<Treemap>, q: Seq<Seq<char>>) -> bool {
    exists|i: int| 0 <= i < bs.len() && (#[trigger] bs[i]).has_node(q)
}

/// `q` is a node of one of `bs` to which specification `x` is linked.
pub open spec fn link_in_some(bs: Seq<Treemap>, q: Seq<Seq<char>>, x: Node) -> bool {
    exists|i: int| 0 <= i < bs.len() && (#[trigger] bs[i]).has_link(q, x)
}

/// `q` is a node of one of `bs` with observed time `s`.
pub open spec fn stamp_in_some(bs: Seq<Treemap>, q: Seq<Seq<char>>, s: Option<Timestamp>) -> bool {
    exists|i: int| 0 <= i < bs.len() && (#[trigger] bs[i]).has_stamp(q, s)
}

/// `bs` can be the branches of a node at path `p`: each is well formed and
/// extends `p` by its component, in increasing order of components.
pub open spec fn branches_below(bs: Seq<Treemap>, p: Seq<Seq<char>>) -> bool {
    &&& forall|i: int| 0 <= i < bs.len() ==> (#[trigger] bs[i]).wf() && bs[i].path() == p.push(bs[i].node@)
    &&& forall|i: int, j: int| 0 <= i < j < bs.len() ==> seg_lt(bs[i].node@, bs[j].node@)
}

proof fn lemma_wf_branches(t: Treemap)
    requires
        t.wf(),
    ensures
        branches_below(t.branches@, t.path()),
{
}

pub proof fn lemma_wf_intro(t: Treemap)
    requires
        branches_below(t.branches@, t.path()),
    ensures
        t.wf(),
{
    assert forall|i: int, j: int| 0 <= i < j < t.branches@.len() implies t.branches@[i].node@
        != t.branches@[j].node@ by {
        lemma_seg_order(t.branches@[i].node@, t.branches@[j].node@, t.branches@[j].node@);
    }
}

/// Two subtrees one component below the same path, by different components,
/// share no node.
proof fn lemma_apart(x: Treemap, y: Treemap, p: Seq<Seq<char>>, q: Seq<Seq<char>>)
    requires
        x.wf(),
        y.wf(),
        x.path() == p.push(x.node@),
        y.path() == p.push(y.node@),
        x.node@ != y.node@,
        x.has_node(q),
    ensures
        !y.has_node(q),
{
    lemma_node_extends(x, q);
    if y.has_node(q) {
        lemma_node_extends(y, q);
        lemma_extends_apart(q, p, x.node@, y.node@);
    }
}

/// Adding one subtree to a list adds its links.
proof fn lemma_link_push(bs: Seq<Treemap>, t: Treemap)
    ensures
        forall|q: Seq<Seq<char>>, x: Node| #[trigger] link_in_some(bs.push(t), q, x) <==> (link_in_some(bs, q, x) || t.has_link(q, x)),
{
    let n = bs.len() as int;
    assert forall|q: Seq<Seq<char>>, x: Node| #[trigger] link_in_some(bs.push(t), q, x) <==> (link_in_some(bs, q, x) || t.has_link(q, x)) by {
        if link_in_some(bs.push(t), q, x) {
            let i = choose|i: int| 0 <= i < n + 1 && (#[trigger] bs.push(t)[i]).has_link(q, x);
            if i < n {
                assert(bs[i] == bs.push(t)[i]);
            }
        }
        if link_in_some(bs, q, x) {
            let i = choose|i: int| 0 <= i < n && (#[trigger] bs[i]).has_link(q, x);
            assert(bs.push(t)[i] == bs[i]);
        }
        if t.has_link(q, x) {
            assert(bs.push(t)[n] == t);
        }
    }
}

/// The links of the entries of `bs` from `k - 1` on are those of entry `k - 1`
/// and those of the entries from `k` on.
proof fn lemma_link_front(bs: Seq<Treemap>, k: int)
    ensures
        0 < k <= bs.len() ==> forall|q: Seq<Seq<char>>, x: Node| #[trigger] link_in_some(bs.subrange(k - 1, bs.len() as int), q, x)
            <==> (bs[k - 1].has_link(q, x) || link_in_some(bs.subrange(k, bs.len() as int), q, x)),
{
    if 0 < k <= bs.len() {
        let whole = bs.subrange(k - 1, bs.len() as int);
        let rest = bs.subrange(k, bs.len() as int);
        assert forall|q: Seq<Seq<char>>, x: Node| #[trigger] link_in_some(whole, q, x)
            <==> (bs[k - 1].has_link(q, x) || link_in_some(rest, q, x)) by {
            if link_in_some(whole, q, x) {
                let i = choose|i: int| 0 <= i < whole.len() && (#[trigger] whole[i]).has_link(q, x);
                if i > 0 {
                    assert(rest[i - 1] == whole[i]);
                }
            }
            if link_in_some(rest, q, x) {
                let i = choose|i: int| 0 <= i < rest.len() && (#[trigger] rest[i]).has_link(q, x);
                assert(whole[i + 1] == rest[i]);
            }
            if bs[k - 1].has_link(q, x) {
                assert(whole[0] == bs[k - 1]);
            }
        }
    }
}

/// Adding one subtree to a list adds its nodes and their times.
proof fn lemma_in_some_push(bs: Seq<Treemap>, x: Treemap)
    ensures
        forall|q: Seq<Seq<char>>| #[trigger] in_some(bs.push(x), q) <==> (in_some(bs, q) || x.has_node(q)),
        forall|q: Seq<Seq<char>>, s: Option<Timestamp>|
            #[trigger] stamp_in_some(bs.push(x), q, s) <==> (stamp_in_some(bs, q, s) || x.has_stamp(q, s)),
{
    let n = bs.len() as int;
    assert forall|q: Seq<Seq<char>>| #[trigger] in_some(bs.push(x), q) <==> (in_some(bs, q) || x.has_node(q)) by {
        if in_some(bs.push(x), q) {
            let i = choose|i: int| 0 <= i < n + 1 && (#[trigger] bs.push(x)[i]).has_node(q);
            if i < n {
                assert(bs[i] == bs.push(x)[i]);
            }
        }
        if in_some(bs, q) {
            let i = choose|i: int| 0 <= i < n && (#[trigger] bs[i]).has_node(q);
            assert(bs.push(x)[i] == bs[i]);
        }
        if x.has_node(q) {
            assert(bs.push(x)[n] == x);
        }
    }
    assert forall|q: Seq<Seq<char>>, s: Option<Timestamp>|
        #[trigger] stamp_in_some(bs.push(x), q, s) <==> (stamp_in_some(bs, q, s) || x.has_stamp(q, s)) by {
        if stamp_in_some(bs.push(x), q, s) {
            let i = choose|i: int| 0 <= i < n + 1 && (#[trigger] bs.push(x)[i]).has_stamp(q, s);
            if i < n {
                assert(bs[i] == bs.push(x)[i]);
            }
        }
        if stamp_in_some(bs, q, s) {
            let i = choose|i: int| 0 <= i < n && (#[trigger] bs[i]).has_stamp(q, s);
            assert(bs.push(x)[i] == bs[i]);
        }
        if x.has_stamp(q, s) {
            assert(bs.push(x)[n] == x);
        }
    }
}

/// Merges two ordered lists of branches of a node at path `p` into one, in
/// one pass: a component found in both lists gets the merge of its two
/// subtrees, with `xs` taking precedence for observed times.
#[verifier::spinoff_prover]
#[verifier::rlimit(100)]
fn merge_branches(xs: Vec<Treemap>, ys: Vec<Treemap>, Ghost(p): Ghost<Seq<Seq<char>>>) -> (r: Vec<Treemap>)
    requires
        branches_below(xs@, p),
        branches_below(ys@, p),
    ensures
        branches_below(r@, p),
        forall|q: Seq<Seq<char>>| #[trigger] in_some(r@, q) <==> (in_some(xs@, q) || in_some(ys@, q)),
        forall|q: Seq<Seq<char>>, s: Option<Timestamp>|
            #[trigger] stamp_in_some(r@, q, s) <==> (stamp_in_some(xs@, q, s) || (stamp_in_some(ys@, q, s)
                && !in_some(xs@, q))),
        all_unlinked(xs@) && all_unlinked(ys@) ==> all_unlinked(r@),
        forall|q: Seq<Seq<char>>, x: Node| #[trigger] link_in_some(r@, q, x) <==> (link_in_some(xs@, q, x) || link_in_some(ys@, q, x)),
    decreases ys,
{
    let ghost x0 = xs@;
    let ghost y0 = ys@;
    let ghost ys_param = ys;
    let mut xs = xs;
    let mut ys = ys;
    let mut desc: Vec<Treemap> = Vec::new();
    #[verifier::loop_isolation(false)]
    while xs.len() > 0 || ys.len() > 0
        invariant
            ys_param@ == y0,
            branches_below(x0, p),
            branches_below(y0, p),
            xs@.len() <= x0.len(),
            ys@.len() <= y0.len(),
            xs@ == x0.subrange(0, xs@.len() as int),
            ys@ == y0.subrange(0, ys@.len() as int),
            all_unlinked(x0) && all_unlinked(y0) ==> all_unlinked(desc@),
            forall|q: Seq<Seq<char>>, x: Node| #[trigger] link_in_some(desc@, q, x) <==> (link_in_some(
                x0.subrange(xs@.len() as int, x0.len() as int),
                q,
                x,
            ) || link_in_some(y0.subrange(ys@.len() as int, y0.len() as int), q, x)),
            forall|k: int| 0 <= k < desc@.len() ==> (#[trigger] desc@[k]).wf() && desc@[k].path() == p.push(desc@[k].node@),
            forall|a: int, b: int| 0 <= a < b < desc@.len() ==> seg_lt(desc@[b].node@, desc@[a].node@),
            forall|i: int, k: int| 0 <= i < xs@.len() && 0 <= k < desc@.len() ==> seg_lt(x0[i].node@, desc@[k].node@),
            forall|j: int, k: int| 0 <= j < ys@.len() && 0 <= k < desc@.len() ==> seg_lt(y0[j].node@, desc@[k].node@),
            forall|i: int, j: int| xs@.len() <= i < x0.len() && 0 <= j < ys@.len() ==> seg_lt(y0[j].node@, x0[i].node@),
            forall|i: int, j: int| 0 <= i < xs@.len() && ys@.len() <= j < y0.len() ==> seg_lt(x0[i].node@, y0[j].node@),
            forall|q: Seq<Seq<char>>| #[trigger] in_some(desc@, q) <==> (in_some(x0.subrange(xs@.len() as int, x0.len() as int), q)
                || in_some(y0.subrange(ys@.len() as int, y0.len() as int), q)),
            forall|q: Seq<Seq<char>>, s: Option<Timestamp>| #[trigger] stamp_in_some(desc@, q, s) <==> (stamp_in_some(
                x0.subrange(xs@.len() as int, x0.len() as int),
                q,
                s,
            ) || (stamp_in_some(y0.subrange(ys@.len() as int, y0.len() as int), q, s) && !in_some(x0, q))),
        decreases xs@.len() + ys@.len(),
    {
        let ghost d0 = desc@;
        let ghost nx = xs@.len() as int;
        let ghost ny = ys@.len() as int;
        let order: i8 = if ys.len() == 0 {
            1
        } else if xs.len() == 0 {
            -1
        } else {
            compare_segments(&xs[xs.len() - 1].node, &ys[ys.len() - 1].node)
        };
        if order > 0 {
            let x = xs.pop().unwrap();
            proof {
                assert(x == x0[nx - 1]);
                lemma_in_some_push(d0, x);
                lemma_link_push(d0, x);
                lemma_link_front(x0, nx);
                lemma_link_front(y0, ny);
                assert forall|i: int| 0 <= i < nx - 1 implies seg_lt(x0[i].node@, x.node@) by {}
                assert forall|j: int| 0 <= j < ny implies seg_lt(y0[j].node@, x.node@) by {
                    if j < ny - 1 {
                        lemma_seg_order(y0[j].node@, y0[ny - 1].node@, x.node@);
                    }
                }
                assert forall|i: int, k: int| 0 <= i < nx - 1 && 0 <= k < d0.len() + 1 implies seg_lt(x0[i].node@, d0.push(x)[k].node@) by {
                    if k == d0.len() {
                        assert(d0.push(x)[k] == x);
                    } else {
                        assert(d0.push(x)[k] == d0[k]);
                    }
                }
                assert forall|j: int, k: int| 0 <= j < ny && 0 <= k < d0.len() + 1 implies seg_lt(y0[j].node@, d0.push(x)[k].node@) by {
                    if k == d0.len() {
                        assert(d0.push(x)[k] == x);
                    } else {
                        assert(d0.push(x)[k] == d0[k]);
                    }
                }
                let xr = x0.subrange(nx - 1, x0.len() as int);
                assert(xr =~= seq![x] + x0.subrange(nx, x0.len() as int));
                assert forall|q: Seq<Seq<char>>| #[trigger] in_some(xr, q) <==> (x.has_node(q) || in_some(x0.subrange(nx, x0.len() as int), q)) by {
                    if in_some(xr, q) {
                        let i = choose|i: int| 0 <= i < xr.len() && (#[trigger] xr[i]).has_node(q);
                        if i > 0 {
                            assert(x0.subrange(nx, x0.len() as int)[i - 1] == xr[i]);
                        }
                    }
                    if in_some(x0.subrange(nx, x0.len() as int), q) {
                        let i = choose|i: int| 0 <= i < x0.len() - nx && (#[trigger] x0.subrange(nx, x0.len() as int)[i]).has_node(q);
                        assert(xr[i + 1] == x0.subrange(nx, x0.len() as int)[i]);
                    }
                    if x.has_node(q) {
                        assert(xr[0] == x);
                    }
                }
                assert forall|q: Seq<Seq<char>>, s: Option<Timestamp>| #[trigger] stamp_in_some(xr, q, s) <==> (x.has_stamp(q, s) || stamp_in_some(x0.subrange(nx, x0.len() as int), q, s)) by {
                    if stamp_in_some(xr, q, s) {
                        let i = choose|i: int| 0 <= i < xr.len() && (#[trigger] xr[i]).has_stamp(q, s);
                        if i > 0 {
                            assert(x0.subrange(nx, x0.len() as int)[i - 1] == xr[i]);
                        }
                    }
                    if stamp_in_some(x0.subrange(nx, x0.len() as int), q, s) {
                        let i = choose|i: int| 0 <= i < x0.len() - nx && (#[trigger] x0.subrange(nx, x0.len() as int)[i]).has_stamp(q, s);
                        assert(xr[i + 1] == x0.subrange(nx, x0.len() as int)[i]);
                    }
                    if x.has_stamp(q, s) {
                        assert(xr[0] == x);
                    }
                }
            }
            desc.push(x);
            proof {
                if all_unlinked(x0) && all_unlinked(y0) {
                    assert(unlinked(x0[nx - 1]));
                    assert forall|k: int| 0 <= k < desc@.len() implies unlinked(#[trigger] desc@[k]) by {
                        if k < d0.len() {
                            assert(desc@[k] == d0[k]);
                        }
                    }
                }
                assert forall|q: Seq<Seq<char>>, s: Option<Timestamp>| #[trigger] stamp_in_some(desc@, q, s) <==> (stamp_in_some(
                    x0.subrange(xs@.len() as int, x0.len() as int),
                    q,
                    s,
                ) || (stamp_in_some(y0.subrange(ys@.len() as int, y0.len() as int), q, s) && !in_some(x0, q))) by {
                    
                }
            }
        } else if order < 0 {
            let y = ys.pop().unwrap();
            proof {
                assert(y == y0[ny - 1]);
                lemma_in_some_push(d0, y);
                lemma_link_push(d0, y);
                lemma_link_front(x0, nx);
                lemma_link_front(y0, ny);
                assert forall|j: int| 0 <= j < ny - 1 implies seg_lt(y0[j].node@, y.node@) by {}
                assert forall|i: int| 0 <= i < nx implies seg_lt(x0[i].node@, y.node@) by {
                    if i < nx - 1 {
                        lemma_seg_order(x0[i].node@, x0[nx - 1].node@, y.node@);
                    }
                }
                assert forall|i: int, k: int| 0 <= i < nx && 0 <= k < d0.len() + 1 implies seg_lt(x0[i].node@, d0.push(y)[k].node@) by {
                    if k == d0.len() {
                        assert(d0.push(y)[k] == y);
                    } else {
                        assert(d0.push(y)[k] == d0[k]);
                    }
                }
                assert forall|j: int, k: int| 0 <= j < ny - 1 && 0 <= k < d0.len() + 1 implies seg_lt(y0[j].node@, d0.push(y)[k].node@) by {
                    if k == d0.len() {
                        assert(d0.push(y)[k] == y);
                    } else {
                        assert(d0.push(y)[k] == d0[k]);
                    }
                }
                assert forall|q: Seq<Seq<char>>| y.has_node(q) implies !in_some(x0, q) by {
                    if in_some(x0, q) {
                        let i = choose|i: int| 0 <= i < x0.len() && (#[trigger] x0[i]).has_node(q);
                        if i < nx {
                            lemma_seg_order(x0[i].node@, y.node@, y.node@);
                        } else {
                            lemma_seg_order(y.node@, x0[i].node@, y.node@);
                        }
                        lemma_apart(y, x0[i], p, q);
                    }
                }
                let yr = y0.subrange(ny - 1, y0.len() as int);
                assert forall|q: Seq<Seq<char>>| #[trigger] in_some(yr, q) <==> (y.has_node(q) || in_some(y0.subrange(ny, y0.len() as int), q)) by {
                    if in_some(yr, q) {
                        let i = choose|i: int| 0 <= i < yr.len() && (#[trigger] yr[i]).has_node(q);
                        if i > 0 {
                            assert(y0.subrange(ny, y0.len() as int)[i - 1] == yr[i]);
                        }
                    }
                    if in_some(y0.subrange(ny, y0.len() as int), q) {
                        let i = choose|i: int| 0 <= i < y0.len() - ny && (#[trigger] y0.subrange(ny, y0.len() as int)[i]).has_node(q);
                        assert(yr[i + 1] == y0.subrange(ny, y0.len() as int)[i]);
                    }
                    if y.has_node(q) {
                        assert(yr[0] == y);
                    }
                }
                assert forall|q: Seq<Seq<char>>, s: Option<Timestamp>| #[trigger] stamp_in_some(yr, q, s) <==> (y.has_stamp(q, s) || stamp_in_some(y0.subrange(ny, y0.len() as int), q, s)) by {
                    if stamp_in_some(yr, q, s) {
                        let i = choose|i: int| 0 <= i < yr.len() && (#[trigger] yr[i]).has_stamp(q, s);
                        if i > 0 {
                            assert(y0.subrange(ny, y0.len() as int)[i - 1] == yr[i]);
                        }
                    }
                    if stamp_in_some(y0.subrange(ny, y0.len() as int), q, s) {
                        let i = choose|i: int| 0 <= i < y0.len() - ny && (#[trigger] y0.subrange(ny, y0.len() as int)[i]).has_stamp(q, s);
                        assert(yr[i + 1] == y0.subrange(ny, y0.len() as int)[i]);
                    }
                    if y.has_stamp(q, s) {
                        assert(yr[0] == y);
                        lemma_stamp_node(y, q, s);
                    }
                }
            }
            desc.push(y);
            proof {
                if all_unlinked(x0) && all_unlinked(y0) {
                    assert(unlinked(y0[ny - 1]));
                    assert forall|k: int| 0 <= k < desc@.len() implies unlinked(#[trigger] desc@[k]) by {
                        if k < d0.len() {
                            assert(desc@[k] == d0[k]);
                        }
                    }
                }
                assert forall|q: Seq<Seq<char>>, s: Option<Timestamp>| #[trigger] stamp_in_some(desc@, q, s) <==> (stamp_in_some(
                    x0.subrange(xs@.len() as int, x0.len() as int),
                    q,
                    s,
                ) || (stamp_in_some(y0.subrange(ys@.len() as int, y0.len() as int), q, s) && !in_some(x0, q))) by {
                    if y.has_stamp(q, s) {
                        lemma_stamp_node(y, q, s);
                    }
                }
            }
        } else {
            let mut x = xs.pop().unwrap();
            let y = ys.pop().unwrap();
            let ghost xg = x;
            proof {
                assert(x == x0[nx - 1]);
                assert(y == y0[ny - 1]);
                assert(decreases_to!(ys_param => ys_param@));
                assert(decreases_to!(ys_param@ => ys_param@[ny - 1]));
                assert(y == ys_param@[ny - 1]);
            }
            x.merge(y);
            proof {
                lemma_in_some_push(d0, x);
                lemma_link_push(d0, x);
                lemma_link_front(x0, nx);
                lemma_link_front(y0, ny);
                assert forall|i: int| 0 <= i < nx - 1 implies seg_lt(x0[i].node@, x.node@) by {}
                assert forall|j: int| 0 <= j < ny - 1 implies seg_lt(y0[j].node@, x.node@) by {}
                assert forall|i: int, k: int| 0 <= i < nx - 1 && 0 <= k < d0.len() + 1 implies seg_lt(x0[i].node@, d0.push(x)[k].node@) by {
                    if k == d0.len() {
                        assert(d0.push(x)[k] == x);
                    } else {
                        assert(d0.push(x)[k] == d0[k]);
                    }
                }
                assert forall|j: int, k: int| 0 <= j < ny - 1 && 0 <= k < d0.len() + 1 implies seg_lt(y0[j].node@, d0.push(x)[k].node@) by {
                    if k == d0.len() {
                        assert(d0.push(x)[k] == x);
                    } else {
                        assert(d0.push(x)[k] == d0[k]);
                    }
                }
                assert forall|i: int, j: int| nx - 1 <= i < x0.len() && 0 <= j < ny - 1 implies seg_lt(y0[j].node@, x0[i].node@) by {
                    if i == nx - 1 {
                        assert(seg_lt(y0[j].node@, y.node@));
                    }
                }
                assert forall|i: int, j: int| 0 <= i < nx - 1 && ny - 1 <= j < y0.len() implies seg_lt(x0[i].node@, y0[j].node@) by {
                    if j == ny - 1 {
                        assert(seg_lt(x0[i].node@, xg.node@));
                    }
                }
                assert forall|q: Seq<Seq<char>>| y.has_node(q) implies (in_some(x0, q) <==> xg.has_node(q)) by {
                    if in_some(x0, q) {
                        let i = choose|i: int| 0 <= i < x0.len() && (#[trigger] x0[i]).has_node(q);
                        if i != nx - 1 {
                            if i < nx - 1 {
                                lemma_seg_order(x0[i].node@, y.node@, y.node@);
                            } else {
                                lemma_seg_order(y.node@, x0[i].node@, y.node@);
                            }
                            lemma_apart(y, x0[i], p, q);
                        }
                    }
                    if xg.has_node(q) {
                        assert(x0[nx - 1].has_node(q));
                    }
                }
                assert forall|q: Seq<Seq<char>>, s: Option<Timestamp>| #[trigger] x.has_stamp(q, s) <==> (xg.has_stamp(q, s) || (y.has_stamp(q, s) && !in_some(x0, q))) by {
                    if y.has_stamp(q, s) {
                        lemma_stamp_node(y, q, s);
                    }
                }
                let xr = x0.subrange(nx - 1, x0.len() as int);
                let yr = y0.subrange(ny - 1, y0.len() as int);
                assert forall|q: Seq<Seq<char>>| #[trigger] in_some(xr, q) <==> (xg.has_node(q) || in_some(x0.subrange(nx, x0.len() as int), q)) by {
                    if in_some(xr, q) {
                        let i = choose|i: int| 0 <= i < xr.len() && (#[trigger] xr[i]).has_node(q);
                        if i > 0 {
                            assert(x0.subrange(nx, x0.len() as int)[i - 1] == xr[i]);
                        }
                    }
                    if in_some(x0.subrange(nx, x0.len() as int), q) {
                        let i = choose|i: int| 0 <= i < x0.len() - nx && (#[trigger] x0.subrange(nx, x0.len() as int)[i]).has_node(q);
                        assert(xr[i + 1] == x0.subrange(nx, x0.len() as int)[i]);
                    }
                    if xg.has_node(q) {
                        assert(xr[0] == xg);
                    }
                }
                assert forall|q: Seq<Seq<char>>, s: Option<Timestamp>| #[trigger] stamp_in_some(xr, q, s) <==> (xg.has_stamp(q, s) || stamp_in_some(x0.subrange(nx, x0.len() as int), q, s)) by {
                    if stamp_in_some(xr, q, s) {
                        let i = choose|i: int| 0 <= i < xr.len() && (#[trigger] xr[i]).has_stamp(q, s);
                        if i > 0 {
                            assert(x0.subrange(nx, x0.len() as int)[i - 1] == xr[i]);
                        }
                    }
                    if stamp_in_some(x0.subrange(nx, x0.len() as int), q, s) {
                        let i = choose|i: int| 0 <= i < x0.len() - nx && (#[trigger] x0.subrange(nx, x0.len() as int)[i]).has_stamp(q, s);
                        assert(xr[i + 1] == x0.subrange(nx, x0.len() as int)[i]);
                    }
                    if xg.has_stamp(q, s) {
                        assert(xr[0] == xg);
                    }
                }
                assert forall|q: Seq<Seq<char>>| #[trigger] in_some(yr, q) <==> (y.has_node(q) || in_some(y0.subrange(ny, y0.len() as int), q)) by {
                    if in_some(yr, q) {
                        let i = choose|i: int| 0 <= i < yr.len() && (#[trigger] yr[i]).has_node(q);
                        if i > 0 {
                            assert(y0.subrange(ny, y0.len() as int)[i - 1] == yr[i]);
                        }
                    }
                    if in_some(y0.subrange(ny, y0.len() as int), q) {
                        let i = choose|i: int| 0 <= i < y0.len() - ny && (#[trigger] y0.subrange(ny, y0.len() as int)[i]).has_node(q);
                        assert(yr[i + 1] == y0.subrange(ny, y0.len() as int)[i]);
                    }
                    if y.has_node(q) {
                        assert(yr[0] == y);
                    }
                }
                assert forall|q: Seq<Seq<char>>, s: Option<Timestamp>| #[trigger] stamp_in_some(yr, q, s) <==> (y.has_stamp(q, s) || stamp_in_some(y0.subrange(ny, y0.len() as int), q, s)) by {
                    if stamp_in_some(yr, q, s) {
                        let i = choose|i: int| 0 <= i < yr.len() && (#[trigger] yr[i]).has_stamp(q, s);
                        if i > 0 {
                            assert(y0.subrange(ny, y0.len() as int)[i - 1] == yr[i]);
                        }
                    }
                    if stamp_in_some(y0.subrange(ny, y0.len() as int), q, s) {
                        let i = choose|i: int| 0 <= i < y0.len() - ny && (#[trigger] y0.subrange(ny, y0.len() as int)[i]).has_stamp(q, s);
                        assert(yr[i + 1] == y0.subrange(ny, y0.len() as int)[i]);
                    }
                    if y.has_stamp(q, s) {
                        assert(yr[0] == y);
                        lemma_stamp_node(y, q, s);
                    }
                }
            }
            desc.push(x);
            proof {
                if all_unlinked(x0) && all_unlinked(y0) {
                    assert(unlinked(x0[nx - 1]));
                    assert(unlinked(y0[ny - 1]));
                    assert forall|k: int| 0 <= k < desc@.len() implies unlinked(#[trigger] desc@[k]) by {
                        if k < d0.len() {
                            assert(desc@[k] == d0[k]);
                        }
                    }
                }
                assert forall|q: Seq<Seq<char>>, s: Option<Timestamp>| #[trigger] stamp_in_some(desc@, q, s) <==> (stamp_in_some(
                    x0.subrange(xs@.len() as int, x0.len() as int),
                    q,
                    s,
                ) || (stamp_in_some(y0.subrange(ys@.len() as int, y0.len() as int), q, s) && !in_some(x0, q))) by {
                    if y.has_stamp(q, s) {
                        lemma_stamp_node(y, q, s);
                    }
                }
            }
        }
    }
    proof {
        assert(x0.subrange(0, x0.len() as int) =~= x0);
        assert(y0.subrange(0, y0.len() as int) =~= y0);
    }
    let ghost dv = desc@;
    let mut asc: Vec<Treemap> = Vec::new();
    while desc.len() > 0
        invariant
            desc@.len() <= dv.len(),
            desc@ == dv.subrange(0, desc@.len() as int),
            all_unlinked(x0) && all_unlinked(y0) ==> all_unlinked(dv),
            asc@.len() == dv.len() - desc@.len(),
            forall|k: int| 0 <= k < asc@.len() ==> #[trigger] asc@[k] == dv[dv.len() - 1 - k],
        decreases desc@.len(),
    {
        let d = desc.pop().unwrap();
        asc.push(d);
    }
    proof {
        let n = dv.len() as int;
        if all_unlinked(x0) && all_unlinked(y0) {
            assert forall|k: int| 0 <= k < n implies unlinked(#[trigger] asc@[k]) by {
                assert(asc@[k] == dv[n - 1 - k]);
            }
        }
        assert forall|k: int| 0 <= k < n implies (#[trigger] asc@[k]).wf() && asc@[k].path() == p.push(asc@[k].node@) by {
            assert(asc@[k] == dv[n - 1 - k]);
        }
        assert forall|a: int, b: int| 0 <= a < b < n implies seg_lt(asc@[a].node@, asc@[b].node@) by {
            assert(asc@[a] == dv[n - 1 - a]);
            assert(asc@[b] == dv[n - 1 - b]);
        }
        assert forall|q: Seq<Seq<char>>, x: Node| #[trigger] link_in_some(asc@, q, x) <==> link_in_some(dv, q, x) by {
            if link_in_some(asc@, q, x) {
                let k = choose|k: int| 0 <= k < n && (#[trigger] asc@[k]).has_link(q, x);
                assert(dv[n - 1 - k] == asc@[k]);
            }
            if link_in_some(dv, q, x) {
                let k = choose|k: int| 0 <= k < n && (#[trigger] dv[k]).has_link(q, x);
                assert(asc@[n - 1 - k] == dv[k]);
            }
        }
        assert forall|q: Seq<Seq<char>>| #[trigger] in_some(asc@, q) <==> in_some(dv, q) by {
            if in_some(asc@, q) {
                let k = choose|k: int| 0 <= k < n && (#[trigger] asc@[k]).has_node(q);
                assert(dv[n - 1 - k] == asc@[k]);
            }
            if in_some(dv, q) {
                let k = choose|k: int| 0 <= k < n && (#[trigger] dv[k]).has_node(q);
                assert(asc@[n - 1 - k] == dv[k]);
            }
        }
        assert forall|q: Seq<Seq<char>>, s: Option<Timestamp>| #[trigger] stamp_in_some(asc@, q, s) <==> stamp_in_some(dv, q, s) by {
            if stamp_in_some(asc@, q, s) {
                let k = choose|k: int| 0 <= k < n && (#[trigger] asc@[k]).has_stamp(q, s);
                assert(dv[n - 1 - k] == asc@[k]);
            }
            if stamp_in_some(dv, q, s) {
                let k = choose|k: int| 0 <= k < n && (#[trigger] dv[k]).has_stamp(q, s);
                assert(asc@[n - 1 - k] == dv[k]);
            }
        }
    }
    asc
}

/// A node with an observed time is a node.
proof fn lemma_stamp_node(t: Treemap, q: Seq<Seq<char>>, s: Option<Timestamp>)
    requires
        t.has_stamp(q, s),
    ensures
        t.has_node(q),
    decreases t,
{
    if !(q == t.path() && s == t.last_update) {
        let i = choose|i: int| 0 <= i < t.branches@.len() && (#[trigger] t.branches@[i]).has_stamp(q, s);
        lemma_stamp_node(t.branches@[i], q, s);
    }
}

/// A path cannot extend a path by two different components.
proof fn lemma_extends_apart(q: Seq<Seq<char>>, p: Seq<Seq<char>>, a: Seq<char>, b: Seq<char>)
    requires
        extends(q, p.push(a)),
        extends(q, p.push(b)),
    ensures
        a == b,
{
    assert(q[p.len() as int] == q.subrange(0, p.len() + 1 as int)[p.len() as int]);
    assert(p.push(a)[p.len() as int] == a);
    assert(p.push(b)[p.len() as int] == b);
}

/// Every node of a subtree has a path that extends the subtree's own.
pub proof fn lemma_node_extends(t: Treemap, x: Seq<Seq<char>>)
    requires
        t.wf(),
        t.has_node(x),
    ensures
        extends(x, t.path()),
    decreases t,
{
    if x != t.path() {
        let i = choose|i: int| 0 <= i < t.branches@.len() && (#[trigger] t.branches@[i]).has_node(x);
        let c = t.branches@[i];
        lemma_node_extends(c, x);
        assert(c.path() == t.path().push(c.node@));
        assert(x.subrange(0, t.path().len() as int) =~= x.subrange(0, c.path().len() as int).subrange(
            0,
            t.path().len() as int,
        ));
        assert(c.path().subrange(0, t.path().len() as int) =~= t.path());
    } else {
        assert(x.subrange(0, t.path().len() as int) =~= x);
    }
}

/// In a well-formed tree, a leaf is a node that no node extends by one component.
pub proof fn lemma_leaf_iff(t: Treemap, q: Seq<Seq<char>>)
    requires
        t.wf(),
    ensures
        t.has_leaf(q) <==> (t.has_node(q) && forall|s: Seq<char>| !#[trigger] t.has_node(q.push(s))),
    decreases t,
{
    let n = t.branches@.len();
    if n == 0 {
        if q == t.path() {
            assert forall|s: Seq<char>| !#[trigger] t.has_node(q.push(s)) by {
                assert(q.push(s).len() != t.path().len());
            }
        }
    } else {
        let pl = t.path().len() as int;
        if t.has_leaf(q) {
            let i = choose|i: int| 0 <= i < n && (#[trigger] t.branches@[i]).has_leaf(q);
            let ci = t.branches@[i];
            lemma_leaf_iff(ci, q);
            assert(t.has_node(q));
            lemma_node_extends(ci, q);
            assert(ci.path() == t.path().push(ci.node@));
            assert forall|s: Seq<char>| !#[trigger] t.has_node(q.push(s)) by {
                if t.has_node(q.push(s)) {
                    assert(q.push(s).len() > pl);
                    let j = choose|j: int| 0 <= j < n && (#[trigger] t.branches@[j]).has_node(q.push(s));
                    let cj = t.branches@[j];
                    if j != i {
                        lemma_node_extends(cj, q.push(s));
                        assert(cj.path() == t.path().push(cj.node@));
                        assert(q.push(s)[pl] == cj.path()[pl]);
                        assert(q[pl] == ci.path()[pl]);
                        assert(q.push(s)[pl] == q[pl]);
                    }
                }
            }
        }
        if t.has_node(q) && forall|s: Seq<char>| !#[trigger] t.has_node(q.push(s)) {
            let c0 = t.branches@[0];
            assert(c0.path() == t.path().push(c0.node@));
            if q == t.path() {
                assert(q.push(c0.node@) == c0.path());
                assert(c0.has_node(c0.path()));
                assert(t.branches@[0].has_node(q.push(c0.node@)));
                assert(t.has_node(q.push(c0.node@)));
            }
            let i = choose|i: int| 0 <= i < n && (#[trigger] t.branches@[i]).has_node(q);
            let ci = t.branches@[i];
            assert forall|s: Seq<char>| !#[trigger] ci.has_node(q.push(s)) by {
                if ci.has_node(q.push(s)) {
                    assert(t.has_node(q.push(s)));
                }
            }
            lemma_leaf_iff(ci, q);
            assert(t.has_leaf(q));
        }
    }
}

/// Two well-formed trees with the same nodes have the same leaves.
pub proof fn lemma_leaves_by_nodes(a: Treemap, b: Treemap)
    requires
        a.wf(),
        b.wf(),
        forall|q: Seq<Seq<char>>| #[trigger] a.has_node(q) <==> b.has_node(q),
    ensures
        a.leaves() == b.leaves(),
{
    assert forall|q: Seq<Seq<char>>| #[trigger] a.has_leaf(q) <==> b.has_leaf(q) by {
        lemma_leaf_iff(a, q);
        lemma_leaf_iff(b, q);
        if a.has_leaf(q) {
            assert forall|s: Seq<char>| !#[trigger] b.has_node(q.push(s)) by {
                assert(!a.has_node(q.push(s)));
            }
        }
        if b.has_leaf(q) {
            assert forall|s: Seq<char>| !#[trigger] a.has_node(q.push(s)) by {
                assert(!b.has_node(q.push(s)));
            }
        }
    }
    assert(a.leaves() =~= b.leaves());
}

/// `m` is what `merge` leaves of `a` after folding in `b`.
pub open spec fn merged(a: Treemap, b: Treemap, m: Treemap) -> bool {
    &&& m.wf()
    &&& forall|q: Seq<Seq<char>>| #[trigger] m.has_node(q) <==> (a.has_node(q) || b.has_node(q))
}

/// Merging is commutative in the leaves it leaves: `x` merged with `y` and `y`
/// merged with `x` have the same leaves.
pub proof fn merge_commutes(x: Treemap, y: Treemap, xy: Treemap, yx: Treemap)
    requires
        merged(x, y, xy),
        merged(y, x, yx),
    ensures
        xy.leaves() == yx.leaves(),
{
    lemma_leaves_by_nodes(xy, yx);
}

/// Merging is associative in the leaves it leaves: `(x + y) + z` and
/// `x + (y + z)` have the same leaves.
pub proof fn merge_associates(
    x: Treemap,
    y: Treemap,
    z: Treemap,
    xy: Treemap,
    xy_z: Treemap,
    yz: Treemap,
    x_yz: Treemap,
)
    requires
        merged(x, y, xy),
        merged(xy, z, xy_z),
        merged(y, z, yz),
        merged(x, yz, x_yz),
    ensures
        xy_z.leaves() == x_yz.leaves(),
{
    assert forall|q: Seq<Seq<char>>| #[trigger] xy_z.has_node(q) <==> x_yz.has_node(q) by {
        assert(xy_z.has_node(q) <==> (xy.has_node(q) || z.has_node(q)));
        assert(x_yz.has_node(q) <==> (x.has_node(q) || yz.has_node(q)));
    }
    lemma_leaves_by_nodes(xy_z, x_yz);
}

/// The text of an optional string.
pub open spec fn opt_view(o: Option<String>) -> Option<Seq<char>> {
    match o {
        Some(s) => Some(s@),
        None => None,
    }
}

/// Two watch specifications say the same: the same root, pattern and command.
pub open spec fn same_spec(x: Node, y: Node) -> bool {
    &&& path_view(x.root@) == path_view(y.root@)
    &&& opt_view(x.path_pattern) == opt_view(y.path_pattern)
    &&& opt_view(x.command) == opt_view(y.command)
}

/// `x` says the same as some specification of `ys`.
pub open spec fn spec_among(x: Node, ys: Seq<Node>) -> bool {
    exists|j: int| 0 <= j < ys.len() && same_spec(x, #[trigger] ys[j])
}

/// Each specification of `xs` is also among `ys`.
pub open spec fn specs_within(xs: Seq<Node>, ys: Seq<Node>) -> bool {
    forall|i: int| 0 <= i < xs.len() ==> spec_among(#[trigger] xs[i], ys)
}

/// Each of `bs` is without links.
pub open spec fn all_unlinked(bs: Seq<Treemap>) -> bool {
    forall|i: int| 0 <= i < bs.len() ==> unlinked(#[trigger] bs[i])
}

/// No node of this subtree has a watch specification linked.
pub open spec fn unlinked(t: Treemap) -> bool
    decreases t,
{
    &&& t.conf_node@.len() == 0
    &&& forall|i: int| 0 <= i < t.branches@.len() ==> unlinked(#[trigger] t.branches@[i])
}

/// Two mirrors are alike: the same path, component and observed time, the
/// same linked watch specifications (as sets), and alike branches in the same
/// order.
pub open spec fn alike(a: Treemap, b: Treemap) -> bool
    decreases a,
{
    &&& a.path() == b.path()
    &&& a.node@ == b.node@
    &&& a.last_update == b.last_update
    &&& specs_within(a.conf_node@, b.conf_node@)
    &&& specs_within(b.conf_node@, a.conf_node@)
    &&& a.branches@.len() == b.branches@.len()
    &&& forall|i: int| 0 <= i < a.branches@.len() ==> alike(#[trigger] a.branches@[i], b.branches@[i])
}

/// Two well-formed trees without links at the same path, under the same
/// component, with the same nodes and the same observed times, are alike: the order of branches
/// leaves no room for a difference.
pub proof fn lemma_canonical(a: Treemap, b: Treemap)
    requires
        a.wf(),
        b.wf(),
        unlinked(a),
        unlinked(b),
        a.path() == b.path(),
        a.node@ == b.node@,
        forall|q: Seq<Seq<char>>| #[trigger] a.has_node(q) <==> b.has_node(q),
        forall|q: Seq<Seq<char>>, s: Option<Timestamp>| #[trigger] a.has_stamp(q, s) <==> b.has_stamp(q, s),
    ensures
        alike(a, b),
    decreases a,
{
    let p = a.path();
    let na = a.branches@.len() as int;
    let nb = b.branches@.len() as int;
    assert(a.has_stamp(p, a.last_update));
    assert(b.has_stamp(p, a.last_update));
    if a.last_update != b.last_update {
        let i = choose|i: int| 0 <= i < nb && (#[trigger] b.branches@[i]).has_stamp(p, a.last_update);
        lemma_stamp_node(b.branches@[i], p, a.last_update);
        lemma_node_extends(b.branches@[i], p);
        assert(b.branches@[i].path() == p.push(b.branches@[i].node@));
    }
    let xs = Seq::new(na as nat, |i: int| a.branches@[i].node@);
    let ys = Seq::new(nb as nat, |i: int| b.branches@[i].node@);
    assert(strictly_sorted(xs));
    assert(strictly_sorted(ys));
    assert forall|c: Seq<char>| xs.contains(c) <==> ys.contains(c) by {
        if xs.contains(c) {
            let i = choose|i: int| 0 <= i < na && xs[i] == c;
            let ci = a.branches@[i];
            assert(ci.path() == p.push(c));
            assert(ci.has_node(p.push(c)));
            assert(a.has_node(p.push(c)));
            assert(b.has_node(p.push(c)));
            assert(p.push(c) != p);
            let j = choose|j: int| 0 <= j < nb && (#[trigger] b.branches@[j]).has_node(p.push(c));
            let cj = b.branches@[j];
            assert(cj.path() == p.push(cj.node@));
            lemma_node_extends(cj, p.push(c));
            assert(p.push(c) =~= p.push(c).subrange(0, cj.path().len() as int));
            assert(cj.path()[p.len() as int] == cj.node@);
            assert(ys[j] == c);
        }
        if ys.contains(c) {
            let i = choose|i: int| 0 <= i < nb && ys[i] == c;
            let ci = b.branches@[i];
            assert(ci.path() == p.push(c));
            assert(ci.has_node(p.push(c)));
            assert(b.has_node(p.push(c)));
            assert(a.has_node(p.push(c)));
            assert(p.push(c) != p);
            let j = choose|j: int| 0 <= j < na && (#[trigger] a.branches@[j]).has_node(p.push(c));
            let cj = a.branches@[j];
            assert(cj.path() == p.push(cj.node@));
            lemma_node_extends(cj, p.push(c));
            assert(p.push(c) =~= p.push(c).subrange(0, cj.path().len() as int));
            assert(cj.path()[p.len() as int] == cj.node@);
            assert(xs[j] == c);
        }
    }
    lemma_sorted_unique(xs, ys);
    assert(na == nb);
    assert forall|i: int| 0 <= i < na implies alike(#[trigger] a.branches@[i], b.branches@[i]) by {
        let x = a.branches@[i];
        let y = b.branches@[i];
        assert(xs[i] == ys[i]);
        assert(x.path() == p.push(x.node@));
        assert(y.path() == p.push(y.node@));
        assert forall|q: Seq<Seq<char>>| #[trigger] x.has_node(q) <==> y.has_node(q) by {
            if x.has_node(q) {
                assert(a.has_node(q));
                lemma_node_extends(x, q);
                assert(q != p);
                let j = choose|j: int| 0 <= j < nb && (#[trigger] b.branches@[j]).has_node(q);
                if j != i {
                    assert(b.branches@[j].path() == p.push(b.branches@[j].node@));
                    lemma_apart(b.branches@[j], y, p, q);
                    lemma_node_extends(b.branches@[j], q);
                    lemma_extends_apart(q, p, b.branches@[j].node@, y.node@);
                }
            }
            if y.has_node(q) {
                assert(b.has_node(q));
                assert(a.has_node(q));
                lemma_node_extends(y, q);
                assert(q != p);
                let j = choose|j: int| 0 <= j < na && (#[trigger] a.branches@[j]).has_node(q);
                if j != i {
                    assert(a.branches@[j].path() == p.push(a.branches@[j].node@));
                    lemma_node_extends(a.branches@[j], q);
                    lemma_extends_apart(q, p, a.branches@[j].node@, x.node@);
                }
            }
        }
        assert forall|q: Seq<Seq<char>>, s: Option<Timestamp>| #[trigger] x.has_stamp(q, s) <==> y.has_stamp(q, s) by {
            if x.has_stamp(q, s) {
                assert(a.has_stamp(q, s));
                lemma_stamp_node(x, q, s);
                lemma_node_extends(x, q);
                assert(q != p);
                let j = choose|j: int| 0 <= j < nb && (#[trigger] b.branches@[j]).has_stamp(q, s);
                if j != i {
                    lemma_stamp_node(b.branches@[j], q, s);
                    assert(b.branches@[j].path() == p.push(b.branches@[j].node@));
                    lemma_node_extends(b.branches@[j], q);
                    lemma_extends_apart(q, p, b.branches@[j].node@, y.node@);
                }
            }
            if y.has_stamp(q, s) {
                assert(b.has_stamp(q, s));
                assert(a.has_stamp(q, s));
                lemma_stamp_node(y, q, s);
                lemma_node_extends(y, q);
                assert(q != p);
                let j = choose|j: int| 0 <= j < na && (#[trigger] a.branches@[j]).has_stamp(q, s);
                if j != i {
                    lemma_stamp_node(a.branches@[j], q, s);
                    assert(a.branches@[j].path() == p.push(a.branches@[j].node@));
                    lemma_node_extends(a.branches@[j], q);
                    lemma_extends_apart(q, p, a.branches@[j].node@, x.node@);
                }
            }
        }
        lemma_canonical(x, y);
    }
}

/// Whether two paths are the same.
pub fn same_path(a: &Vec<String>, b: &Vec<String>) -> (r: bool)
    ensures
        r == (path_view(a@) == path_view(b@)),
{
    if a.len() != b.len() {
        assert(path_view(a@).len() != path_view(b@).len());
        return false;
    }
    let mut i: usize = 0;
    while i < a.len()
        invariant
            a@.len() == b@.len(),
            i <= a@.len(),
            forall|k: int| 0 <= k < i ==> a@[k]@ == b@[k]@,
        decreases a@.len() - i,
    {
        if !(a[i] == b[i]) {
            assert(path_view(a@)[i as int] != path_view(b@)[i as int]);
            return false;
        }
        i = i + 1;
    }
    assert(path_view(a@) =~= path_view(b@));
    true
}

/// Whether two optional strings are the same.
fn same_opt(a: &Option<String>, b: &Option<String>) -> (r: bool)
    ensures
        r == (opt_view(*a) == opt_view(*b)),
{
    match a {
        Some(x) => match b {
            Some(y) => *x == *y,
            None => false,
        },
        None => b.is_none(),
    }
}

/// Whether two watch specifications say the same (see `same_spec`).
pub fn same_spec_exec(x: &Node, y: &Node) -> (r: bool)
    ensures
        r == same_spec(*x, *y),
{
    same_path(&x.root, &y.root) && same_opt(&x.path_pattern, &y.path_pattern) && same_opt(&x.command, &y.command)
}

/// Whether each specification of `xs` is also among `ys`.
pub fn specs_within_exec(xs: &Vec<Node>, ys: &Vec<Node>) -> (r: bool)
    ensures
        r == specs_within(xs@, ys@),
{
    let mut i: usize = 0;
    while i < xs.len()
        invariant
            i <= xs@.len(),
            forall|k: int| 0 <= k < i ==> spec_among(#[trigger] xs@[k], ys@),
        decreases xs@.len() - i,
    {
        let mut j: usize = 0;
        let mut found = false;
        while j < ys.len() && !found
            invariant
                i < xs@.len(),
                j <= ys@.len(),
                !found ==> forall|m: int| 0 <= m < j ==> !same_spec(xs@[i as int], #[trigger] ys@[m]),
                found ==> j < ys@.len() && same_spec(xs@[i as int], ys@[j as int]),
            decreases ys@.len() - j + (if found { 0int } else { 1int }),
        {
            if same_spec_exec(&xs[i], &ys[j]) {
                found = true;
            } else {
                j = j + 1;
            }
        }
        if !found {
            assert(!spec_among(xs@[i as int], ys@));
            return false;
        }
        assert(spec_among(xs@[i as int], ys@));
        i = i + 1;
    }
    true
}

/// Whether two mirrors are alike (see `alike`).
pub fn alike_nodes(a: &Treemap, b: &Treemap) -> (r: bool)
    ensures
        r == alike(*a, *b),
    decreases a,
{
    let same_time = match (a.last_update, b.last_update) {
        (Some(x), Some(y)) => x == y,
        (None, None) => true,
        _ => false,
    };
    assert(same_time == (a.last_update == b.last_update));
    if !same_path(&a.full_path, &b.full_path) || !(a.node == b.node) || !same_time || a.branches.len()
        != b.branches.len() || !specs_within_exec(&a.conf_node, &b.conf_node) || !specs_within_exec(
        &b.conf_node,
        &a.conf_node,
    ) {
        return false;
    }
    let n = a.branches.len();
    let mut i: usize = 0;
    while i < n
        invariant
            a.path() == b.path(),
            a.node@ == b.node@,
            specs_within(a.conf_node@, b.conf_node@),
            specs_within(b.conf_node@, a.conf_node@),
            a.last_update == b.last_update,
            n == a.branches@.len(),
            n == b.branches@.len(),
            i <= n,
            forall|k: int| 0 <= k < i ==> alike(#[trigger] a.branches@[k], b.branches@[k]),
        decreases n - i,
    {
        assert(decreases_to!(*a => a.branches));
        assert(decreases_to!(a.branches => a.branches@));
        assert(decreases_to!(a.branches@ => a.branches@[i as int]));
        if !alike_nodes(&a.branches[i], &b.branches[i]) {
            return false;
        }
        i = i + 1;
    }
    true
}

impl PartialEq for Treemap {
    fn eq(&self, other: &Treemap) -> (r: bool) {
        alike_nodes(self, other)
    }
}

impl vstd::std_specs::cmp::PartialEqSpecImpl for Treemap {
    open spec fn obeys_eq_spec() -> bool {
        true
    }

    open spec fn eq_spec(&self, other: &Treemap) -> bool {
        alike(*self, *other)
    }
}

/// The text of a subtree: a line `-<component> ` for its node, then for each
/// branch `| ` followed by the text of that branch.
pub open spec fn rendered(t: Treemap) -> Seq<char>
    decreases t,
{
    seq!['-'] + t.node@ + seq![' ', '\n'] + rendered_all(t.branches@)
}

/// The texts of `bs`, each after `| `, one after the other.
pub open spec fn rendered_all(bs: Seq<Treemap>) -> Seq<char>
    decreases bs,
{
    if bs.len() == 0 {
        seq![]
    } else {
        rendered_all(bs.subrange(0, bs.len() - 1)) + seq!['|', ' '] + rendered(bs[bs.len() - 1])
    }
}

impl Treemap {
    /// This subtree as text, one line per node (see `rendered`).
    pub fn render(&self) -> (r: String)
        ensures
            r@ == rendered(*self),
        decreases self,
    {
        let mut out = String::new();
        proof {
            reveal_strlit("-");
            reveal_strlit(" \n");
        }
        out.append("-");
        out.append(self.node.as_str());
        out.append(" \n");
        assert(out@ =~= seq!['-'] + self.node@ + seq![' ', '\n']);
        let ghost head = out@;
        let n = self.branches.len();
        let mut i: usize = 0;
        assert(rendered_all(self.branches@.subrange(0, 0)) =~= Seq::<char>::empty());
        assert(out@ =~= head + rendered_all(self.branches@.subrange(0, 0)));
        while i < n
            invariant
                n == self.branches@.len(),
                i <= n,
                head == seq!['-'] + self.node@ + seq![' ', '\n'],
                out@ == head + rendered_all(self.branches@.subrange(0, i as int)),
            decreases n - i,
        {
            assert(decreases_to!(self => self.branches));
            assert(decreases_to!(self.branches => self.branches@));
            assert(decreases_to!(self.branches@ => self.branches@[i as int]));
            let ghost before = out@;
            proof {
                reveal_strlit("| ");
            }
            out.append("| ");
            let sub = self.branches[i].render();
            out.append(sub.as_str());
            let ghost bs = self.branches@.subrange(0, i + 1);
            assert(bs.subrange(0, bs.len() - 1) =~= self.branches@.subrange(0, i as int));
            assert(out@ =~= before + seq!['|', ' '] + rendered(self.branches@[i as int]));
            i = i + 1;
        }
        assert(self.branches@.subrange(0, n as int) =~= self.branches@);
        out
    }
}

impl Treemap {
    /// The paths of all nodes of this subtree but the root of a tree: what a
    /// poll may need observed.
    pub fn node_paths(&self) -> (r: Vec<Vec<String>>)
        requires
            self.wf(),
        ensures
            forall|q: Seq<Seq<char>>| #[trigger] paths_of(r@).contains(q) <==> (self.has_node(q) && !(
                self.is_root() && q == self.path())),
        decreases self,
    {
        let mut out: Vec<Vec<String>> = Vec::new();
        if !self.is_root_node() {
            out.push(clone_path(&self.full_path));
        }
        let ghost own = out@;
        assert(paths_of(own).len() <= 1);
        assert(!self.is_root() ==> paths_of(own) =~= seq![self.path()]);
        assert(self.is_root() ==> paths_of(own) =~= Seq::<Seq<Seq<char>>>::empty());
        let n = self.branches.len();
        let mut i: usize = 0;
        while i < n
            invariant
                self.wf(),
                n == self.branches@.len(),
                i <= n,
                !self.is_root() ==> paths_of(own) =~= seq![self.path()],
                self.is_root() ==> paths_of(own) =~= Seq::<Seq<Seq<char>>>::empty(),
                forall|q: Seq<Seq<char>>| #[trigger] paths_of(out@).contains(q) <==> (paths_of(own).contains(q)
                    || exists|j: int| 0 <= j < i && (#[trigger] self.branches@[j]).has_node(q)),
            decreases n - i,
        {
            assert(decreases_to!(self => self.branches));
            assert(decreases_to!(self.branches => self.branches@));
            assert(decreases_to!(self.branches@ => self.branches@[i as int]));
            let ghost before = out@;
            let mut sub = self.branches[i].node_paths();
            let ghost subv = sub@;
            out.append(&mut sub);
            proof {
                let c = self.branches@[i as int];
                assert(c.wf());
                assert(paths_of(out@) =~= paths_of(before) + paths_of(subv));
                assert forall|q: Seq<Seq<char>>| #[trigger] paths_of(out@).contains(q) <==> (paths_of(own).contains(q)
                    || exists|j: int| 0 <= j < i + 1 && (#[trigger] self.branches@[j]).has_node(q)) by {
                    let x = paths_of(before);
                    let y = paths_of(subv);
                    if paths_of(out@).contains(q) {
                        let k = choose|k: int| 0 <= k < x.len() + y.len() && (x + y)[k] == q;
                        if k < x.len() {
                            assert(x.contains(q));
                        } else {
                            assert(y[k - x.len()] == q);
                            assert(y.contains(q));
                            assert(c.has_node(q));
                        }
                    }
                    if exists|j: int| 0 <= j < i + 1 && (#[trigger] self.branches@[j]).has_node(q) {
                        let j = choose|j: int| 0 <= j < i + 1 && (#[trigger] self.branches@[j]).has_node(q);
                        if j < i {
                            assert(x.contains(q));
                        }
                    }
                    if paths_of(own).contains(q) || exists|j: int| 0 <= j < i && (#[trigger] self.branches@[j]).has_node(q) {
                        assert(x.contains(q));
                        let k = choose|k: int| 0 <= k < x.len() && x[k] == q;
                        assert((x + y)[k] == q);
                    }
                    if c.has_node(q) {
                        assert(c.path() == self.path().push(c.node@));
                        assert(c.path().len() == c.full_path@.len());
                        assert(!c.is_root());
                        assert(y.contains(q));
                        let k = choose|k: int| 0 <= k < y.len() && y[k] == q;
                        assert((x + y)[x.len() + k] == q);
                    }
                }
            }
            i = i + 1;
        }
        proof {
            assert forall|q: Seq<Seq<char>>| #[trigger] paths_of(out@).contains(q) <==> (self.has_node(q) && !(
                self.is_root() && q == self.path())) by {
                if paths_of(own).contains(q) {
                    assert(paths_of(own)[0] == q);
                }
                if !self.is_root() && q == self.path() {
                    assert(paths_of(own)[0] == q);
                }
                if self.is_root() && q == self.path() && exists|j: int| 0 <= j < n && (#[trigger] self.branches@[j]).has_node(q) {
                    let j = choose|j: int| 0 <= j < n && (#[trigger] self.branches@[j]).has_node(q);
                    lemma_node_extends(self.branches@[j], q);
                    assert(self.branches@[j].path() == self.path().push(self.branches@[j].node@));
                }
            }
        }
        out
    }
}

/// A copy of a path.
pub fn clone_path(p: &Vec<String>) -> (r: Vec<String>)
    ensures
        r@ == p@,
{
    let mut r: Vec<String> = Vec::new();
    let mut i: usize = 0;
    while i < p.len()
        invariant
            i <= p@.len(),
            r@ == p@.subrange(0, i as int),
        decreases p@.len() - i,
    {
        r.push(p[i].clone());
        i = i + 1;
    }
    assert(r@ =~= p@);
    r
}

} // verus!
