//! Poll strategies: where a tree is cut into units that are polled whole, and
//! how a poll over such a cut is carried out.
use vstd::prelude::*;

use crate::metadata::{Snapshot, step};
use crate::treemap::{Treemap, clone_path, moves, extends, lemma_join_distinct, lemma_reports_extend, paths_of, polled, reports};

pub mod mix;
pub mod notify;
pub mod poll;

verus! {

/// A threshold `num / den` on the number of branches per corridor step; with
/// `den == 0` it is unbounded and never reached.
#[derive(Clone, Copy, Debug, PartialEq, Eq, Structural)]
pub struct Ratio {
    pub num: u64,
    pub den: u64,
}

/// How a tree is cut into poll units.
#[derive(Clone, Copy, Debug, PartialEq, Eq, Structural)]
pub enum Cut {
    /// The whole tree is one unit.
    Whole,
    /// Every leaf is a unit of its own, and every node on the way to one is
    /// observed as well: nothing is pruned.
    Leaves,
    /// A node is a unit where its branches outnumber the ratio times the length
    /// of the corridor that led to it (see `coalesces`), or where it is a leaf.
    Coalesce(Ratio),
}

/// `count / (corridor + 1)` exceeds the ratio.
pub open spec fn coalesces(count: nat, corridor: nat, r: Ratio) -> bool {
    count * (r.den as nat) > (r.num as nat) * (corridor + 1)
}

/// The corridor length one step further along.
pub open spec fn inc_corridor(c: nat) -> nat {
    if c < u64::MAX {
        c + 1
    } else {
        c
    }
}

/// Whether node `t`, reached after a corridor of length `c`, is a unit of the
/// cut. The root of a tree is one only where the whole tree is.
pub open spec fn is_point(t: Treemap, cut: Cut, c: nat) -> bool {
    match cut {
        Cut::Whole => true,
        Cut::Leaves => !t.is_root() && t.branches@.len() == 0,
        Cut::Coalesce(r) => !t.is_root() && (t.branches@.len() == 0 || coalesces(
            t.branches@.len(),
            c,
            r,
        )),
    }
}

/// The corridor length with which the branches of `t` are reached: it grows
/// through a node with one branch and starts over below a fork or the root.
pub open spec fn next_corridor(t: Treemap, c: nat) -> nat {
    if !t.is_root() && t.branches@.len() == 1 {
        inc_corridor(c)
    } else {
        0
    }
}

/// The paths of the units of the cut, in tree order.
pub open spec fn frontier(t: Treemap, cut: Cut, c: nat) -> Seq<Seq<Seq<char>>>
    decreases t,
{
    if is_point(t, cut, c) {
        seq![t.path()]
    } else {
        frontier_of(t.branches@, cut, next_corridor(t, c))
    }
}

/// The units of the cut below each of `bs`, one after the other.
pub open spec fn frontier_of(bs: Seq<Treemap>, cut: Cut, c: nat) -> Seq<Seq<Seq<char>>>
    decreases bs,
{
    if bs.len() == 0 {
        seq![]
    } else {
        frontier_of(bs.subrange(0, bs.len() - 1), cut, c) + frontier(bs[bs.len() - 1], cut, c)
    }
}

/// Whether a poll over `cut` observes node `a` on its way to the units below:
/// only the cut into leaves does, and never at the root.
pub open spec fn observed_on_way(a: Treemap, cut: Cut) -> bool {
    cut == Cut::Leaves && !a.is_root()
}

/// `b` is what a poll over the cut that observes `seen` leaves of `a`: each
/// unit was polled (see `polled`); above the units, a node stores what its
/// observation makes of its old time where the cut observes it on the way
/// (see `observed_on_way`), and nothing changes otherwise.
pub open spec fn cut_polled(a: Treemap, b: Treemap, cut: Cut, c: nat, seen: Snapshot) -> bool
    decreases a,
{
    if is_point(a, cut, c) {
        polled(a, b, seen)
    } else {
        &&& b == (Treemap { branches: b.branches, last_update: b.last_update, ..a })
        &&& b.last_update == if observed_on_way(a, cut) {
            step(a.last_update, seen.at(a.path())).1
        } else {
            a.last_update
        }
        &&& b.branches@.len() == a.branches@.len()
        &&& forall|i: int|
            0 <= i < a.branches@.len() ==> cut_polled(
                #[trigger] a.branches@[i],
                b.branches@[i],
                cut,
                next_corridor(a, c),
                seen,
            )
    }
}

/// `q` is reported by a poll over the cut that took `a` to `b`: some unit
/// reported it.
pub open spec fn cut_reports(a: Treemap, seen: Snapshot, cut: Cut, c: nat, q: Seq<Seq<char>>) -> bool
    decreases a,
{
    if is_point(a, cut, c) {
        reports(a, seen, q)
    } else {
        exists|i: int|
            0 <= i < a.branches@.len() && cut_reports(
                #[trigger] a.branches@[i],
                seen,
                cut,
                next_corridor(a, c),
                q,
            )
    }
}

/// Every path reported over a cut below a node extends that node's path.
pub proof fn lemma_cut_reports_extend(a: Treemap, seen: Snapshot, cut: Cut, c: nat, q: Seq<Seq<char>>)
    requires
        a.wf(),
        cut_reports(a, seen, cut, c, q),
    ensures
        extends(q, a.path()),
    decreases a,
{
    if is_point(a, cut, c) {
        lemma_reports_extend(a, seen, q);
    } else {
        let i = choose|i: int|
            0 <= i < a.branches@.len() && cut_reports(
                #[trigger] a.branches@[i],
                seen,
                cut,
                next_corridor(a, c),
                q,
            );
        let ch = a.branches@[i];
        lemma_cut_reports_extend(ch, seen, cut, next_corridor(a, c), q);
        assert(ch.path() == a.path().push(ch.node@));
        assert(q.subrange(0, a.path().len() as int) =~= q.subrange(0, ch.path().len() as int).subrange(
            0,
            a.path().len() as int,
        ));
        assert(ch.path().subrange(0, a.path().len() as int) =~= a.path());
    }
}

/// Whether `t`, reached after a corridor of length `c`, is a unit of the cut.
pub fn point(t: &Treemap, cut: Cut, c: u64) -> (r: bool)
    ensures
        r == is_point(*t, cut, c as nat),
{
    match cut {
        Cut::Whole => true,
        Cut::Leaves => !t.is_root_node() && t.branches.len() == 0,
        Cut::Coalesce(r) => {
            if t.is_root_node() {
                false
            } else if t.branches.len() == 0 {
                true
            } else {
                let n = t.branches.len() as u128;
                let d = r.den as u128;
                let m = r.num as u128;
                let k = c as u128 + 1;
                assert(n * d <= 0xffff_ffff_ffff_ffffu128 * 0xffff_ffff_ffff_ffffu128) by (nonlinear_arith)
                    requires
                        n <= 0xffff_ffff_ffff_ffffu128,
                        d <= 0xffff_ffff_ffff_ffffu128,
                ;
                assert(m * k <= 0xffff_ffff_ffff_ffffu128 * 0x1_0000_0000_0000_0000u128) by (nonlinear_arith)
                    requires
                        m <= 0xffff_ffff_ffff_ffffu128,
                        k <= 0x1_0000_0000_0000_0000u128,
                ;
                n * d > m * k
            }
        },
    }
}

/// The corridor length with which the branches of `t` are reached.
pub fn corridor_below(t: &Treemap, c: u64) -> (r: u64)
    ensures
        r as nat == next_corridor(*t, c as nat),
{
    if !t.is_root_node() && t.branches.len() == 1 {
        if c < u64::MAX {
            c + 1
        } else {
            c
        }
    } else {
        0
    }
}

impl Treemap {
    /// The paths of the units into which `cut` divides this subtree, reached
    /// after a corridor of length `corridor`. It depends on the shape alone.
    pub fn poll_map(&self, cut: Cut, corridor: u64) -> (r: Vec<Vec<String>>)
        ensures
            paths_of(r@) == frontier(*self, cut, corridor as nat),
        decreases self,
    {
        if point(self, cut, corridor) {
            let mut out: Vec<Vec<String>> = Vec::new();
            out.push(clone_path(&self.full_path));
            assert(paths_of(out@) =~= seq![self.path()]);
            return out;
        }
        let nc = corridor_below(self, corridor);
        let n = self.branches.len();
        let mut out: Vec<Vec<String>> = Vec::new();
        let mut i: usize = 0;
        assert(paths_of(out@) =~= frontier_of(self.branches@.subrange(0, 0), cut, nc as nat));
        while i < n
            invariant
                n == self.branches@.len(),
                i <= n,
                paths_of(out@) == frontier_of(self.branches@.subrange(0, i as int), cut, nc as nat),
            decreases n - i,
        {
            assert(decreases_to!(self => self.branches));
            assert(decreases_to!(self.branches => self.branches@));
            assert(decreases_to!(self.branches@ => self.branches@[i as int]));
            let ghost before = out@;
            let mut sub = self.branches[i].poll_map(cut, nc);
            let ghost subv = sub@;
            out.append(&mut sub);
            let ghost bs = self.branches@.subrange(0, i + 1);
            assert(bs.subrange(0, bs.len() - 1) =~= self.branches@.subrange(0, i as int));
            assert(paths_of(out@) =~= paths_of(before) + paths_of(subv));
            i = i + 1;
        }
        assert(self.branches@.subrange(0, n as int) =~= self.branches@);
        out
    }

    /// Polls each unit into which `cut` divides this subtree (see
    /// `poll_branches`) and returns what they report, each path once.
    pub fn poll_frontier(&mut self, cut: Cut, corridor: u64, seen: &Snapshot) -> (r: Vec<Vec<String>>)
        requires
            old(self).wf(),
        ensures
            final(self).wf(),
            cut_polled(*old(self), *final(self), cut, corridor as nat, *seen),
            paths_of(r@).no_duplicates(),
            forall|q: Seq<Seq<char>>| #[trigger]
                paths_of(r@).contains(q) <==> cut_reports(*old(self), *seen, cut, corridor as nat, q),
        decreases *old(self),
    {
        let ghost s0 = *self;
        if point(self, cut, corridor) {
            return self.poll_branches(seen);
        }
        let on_way = match cut {
            Cut::Leaves => !self.is_root_node(),
            _ => false,
        };
        if on_way {
            let _ = self.poll_point(seen);
        }
        let ghost s1 = *self;
        assert(s1.last_update == if observed_on_way(s0, cut) {
            step(s0.last_update, seen.at(s0.path())).1
        } else {
            s0.last_update
        });
        let nc = corridor_below(self, corridor);
        let n = self.branches.len();
        let mut update: Vec<Vec<String>> = Vec::new();
        let mut i: usize = 0;
        assert(paths_of(update@) =~= Seq::<Seq<Seq<char>>>::empty());
        while i < n
            invariant
                s0 == *old(self),
                s0.wf(),
                !is_point(s0, cut, corridor as nat),
                nc as nat == next_corridor(s0, corridor as nat),
                s1 == (Treemap { last_update: s1.last_update, ..s0 }),
                s1.last_update == if observed_on_way(s0, cut) {
                    step(s0.last_update, seen.at(s0.path())).1
                } else {
                    s0.last_update
                },
                *self == (Treemap { branches: self.branches, ..s1 }),
                self.branches@.len() == n,
                n == s0.branches@.len(),
                i <= n,
                forall|j: int| i <= j < n ==> #[trigger] self.branches@[j] == s0.branches@[j],
                forall|j: int|
                    0 <= j < i ==> cut_polled(#[trigger] s0.branches@[j], self.branches@[j], cut, nc as nat, *seen)
                        && self.branches@[j].wf(),
                paths_of(update@).no_duplicates(),
                forall|q: Seq<Seq<char>>| #[trigger]
                    paths_of(update@).contains(q) <==> exists|j: int|
                        0 <= j < i && cut_reports(#[trigger] s0.branches@[j], *seen, cut, nc as nat, q),
            decreases n - i,
        {
            let ghost before = update@;
            let ghost c0 = self.branches@[i as int];
            assert(c0.wf());
            assert(decreases_to!(s0 => s0.branches));
            assert(decreases_to!(s0.branches => s0.branches@));
            assert(decreases_to!(s0.branches@ => s0.branches@[i as int]));
            let mut sub = self.branches[i].poll_frontier(cut, nc, seen);
            let ghost c1 = self.branches@[i as int];
            let ghost subv = sub@;
            proof {
                assert forall|q: Seq<Seq<char>>| paths_of(before).contains(q) implies !paths_of(subv).contains(q) by {
                    let j = choose|j: int|
                        0 <= j < i && cut_reports(#[trigger] s0.branches@[j], *seen, cut, nc as nat, q);
                    lemma_cut_reports_extend(s0.branches@[j], *seen, cut, nc as nat, q);
                    if paths_of(subv).contains(q) {
                        lemma_cut_reports_extend(c0, *seen, cut, nc as nat, q);
                        let pl = s0.path().len() as int;
                        assert(s0.branches@[j].path() == s0.path().push(s0.branches@[j].node@));
                        assert(c0.path() == s0.path().push(c0.node@));
                        assert(q[pl] == s0.branches@[j].path()[pl]);
                        assert(q[pl] == c0.path()[pl]);
                    }
                }
                lemma_join_distinct(paths_of(before), paths_of(subv));
            }
            update.append(&mut sub);
            proof {
                assert(paths_of(update@) =~= paths_of(before) + paths_of(subv));
                assert forall|q: Seq<Seq<char>>| #[trigger]
                    paths_of(update@).contains(q) <==> exists|j: int|
                        0 <= j < i + 1 && cut_reports(#[trigger] s0.branches@[j], *seen, cut, nc as nat, q) by {
                    if paths_of(subv).contains(q) {
                        assert(cut_reports(s0.branches@[i as int], *seen, cut, nc as nat, q));
                    }
                    if exists|j: int|
                        0 <= j < i + 1 && cut_reports(#[trigger] s0.branches@[j], *seen, cut, nc as nat, q) {
                        let j = choose|j: int|
                            0 <= j < i + 1 && cut_reports(#[trigger] s0.branches@[j], *seen, cut, nc as nat, q);
                        if j < i {
                            assert(paths_of(before).contains(q));
                        }
                    }
                }
            }
            i = i + 1;
        }
        proof {
            assert forall|j: int| 0 <= j < self.branches@.len() implies #[trigger] self.branches@[j].path()
                == self.path().push(self.branches@[j].node@) && self.branches@[j].node == s0.branches@[j].node by {
                assert(s0.branches@[j].path() == s0.path().push(s0.branches@[j].node@));
                assert(cut_polled(s0.branches@[j], self.branches@[j], cut, nc as nat, *seen));
            }
            assert forall|a: int, b: int| 0 <= a < b < self.branches@.len() implies self.branches@[a].node@
                != self.branches@[b].node@ && crate::order::seg_lt(self.branches@[a].node@, self.branches@[b].node@) by {
                assert(self.branches@[a].node == s0.branches@[a].node);
                assert(self.branches@[b].node == s0.branches@[b].node);
                assert(crate::order::seg_lt(s0.branches@[a].node@, s0.branches@[b].node@));
            }
            assert forall|j: int| 0 <= j < self.branches@.len() implies (#[trigger] self.branches@[j]).wf() by {
                assert(cut_polled(s0.branches@[j], self.branches@[j], cut, nc as nat, *seen));
            }
            crate::treemap::lemma_wf_intro(*self);
            assert forall|q: Seq<Seq<char>>| #[trigger]
                paths_of(update@).contains(q) <==> cut_reports(s0, *seen, cut, corridor as nat, q) by {
                if paths_of(update@).contains(q) {
                    let j = choose|j: int|
                        0 <= j < n && cut_reports(#[trigger] s0.branches@[j], *seen, cut, nc as nat, q);
                    assert(cut_reports(s0, *seen, cut, corridor as nat, q));
                }
            }
        }
        update
    }
}

/// `q` is a path that `poll_branches` of `a` looks up against `seen`, as far
/// as `seen` lets the walk go: every node but the root is looked up, and the
/// walk goes below a node only where it is the root or was observed with a
/// change. Below a node not yet observed nothing is consulted yet.
pub open spec fn consults_below(a: Treemap, seen: Snapshot, q: Seq<Seq<char>>) -> bool
    decreases a,
{
    (!a.is_root() && q == a.path()) || ((a.is_root() || seen.knows(a.path())) && moves(a, seen) && exists|i: int|
        0 <= i < a.branches@.len() && consults_below(#[trigger] a.branches@[i], seen, q))
}

/// `q` is a path that a poll of `a` over `cut` looks up against `seen`.
pub open spec fn consults(a: Treemap, cut: Cut, c: nat, seen: Snapshot, q: Seq<Seq<char>>) -> bool
    decreases a,
{
    if is_point(a, cut, c) {
        consults_below(a, seen, q)
    } else {
        (observed_on_way(a, cut) && q == a.path()) || exists|i: int|
            0 <= i < a.branches@.len() && consults(#[trigger] a.branches@[i], cut, next_corridor(a, c), seen, q)
    }
}

impl Treemap {
    /// The paths that `poll_branches` of this subtree looks up against `seen`.
    pub fn lookups_below(&self, seen: &Snapshot) -> (r: Vec<Vec<String>>)
        ensures
            forall|q: Seq<Seq<char>>| #[trigger] paths_of(r@).contains(q) <==> consults_below(*self, *seen, q),
        decreases self,
    {
        let mut out: Vec<Vec<String>> = Vec::new();
        let root = self.is_root_node();
        let go = if root {
            true
        } else {
            out.push(clone_path(&self.full_path));
            let last = self.last_update;
            let now = seen.lookup(&self.full_path);
            seen.knows_path(&self.full_path) && crate::metadata::decide(last, now).0
        };
        let ghost own = out@;
        proof {
            if root {
                assert(paths_of(own) =~= Seq::<Seq<Seq<char>>>::empty());
            } else {
                assert(paths_of(own) =~= seq![self.path()]);
            }
        }
        if !go {
            proof {
                assert forall|q: Seq<Seq<char>>| #[trigger] paths_of(out@).contains(q) <==> consults_below(*self, *seen, q) by {
                    if q == self.path() && !root {
                        assert(paths_of(own)[0] == q);
                    }
                }
            }
            return out;
        }
        let n = self.branches.len();
        let mut i: usize = 0;
        while i < n
            invariant
                n == self.branches@.len(),
                i <= n,
                moves(*self, *seen),
                root || seen.knows(self.path()),
                root == self.is_root(),
                !root ==> paths_of(own) =~= seq![self.path()],
                root ==> paths_of(own) =~= Seq::<Seq<Seq<char>>>::empty(),
                forall|q: Seq<Seq<char>>| #[trigger] paths_of(out@).contains(q) <==> (paths_of(own).contains(q)
                    || exists|j: int| 0 <= j < i && consults_below(#[trigger] self.branches@[j], *seen, q)),
            decreases n - i,
        {
            assert(decreases_to!(self => self.branches));
            assert(decreases_to!(self.branches => self.branches@));
            assert(decreases_to!(self.branches@ => self.branches@[i as int]));
            let ghost before = out@;
            let mut sub = self.branches[i].lookups_below(seen);
            let ghost subv = sub@;
            out.append(&mut sub);
            proof {
                let x = paths_of(before);
                let y = paths_of(subv);
                assert(paths_of(out@) =~= x + y);
                assert forall|q: Seq<Seq<char>>| #[trigger] paths_of(out@).contains(q) <==> (paths_of(own).contains(q)
                    || exists|j: int| 0 <= j < i + 1 && consults_below(#[trigger] self.branches@[j], *seen, q)) by {
                    if paths_of(out@).contains(q) {
                        let k = choose|k: int| 0 <= k < x.len() + y.len() && (x + y)[k] == q;
                        if k < x.len() {
                            assert(x.contains(q));
                        } else {
                            assert(y[k - x.len()] == q);
                            assert(y.contains(q));
                        }
                    }
                    if exists|j: int| 0 <= j < i + 1 && consults_below(#[trigger] self.branches@[j], *seen, q) {
                        let j = choose|j: int| 0 <= j < i + 1 && consults_below(#[trigger] self.branches@[j], *seen, q);
                        if j < i {
                            assert(x.contains(q));
                            let k = choose|k: int| 0 <= k < x.len() && x[k] == q;
                            assert((x + y)[k] == q);
                        } else {
                            assert(y.contains(q));
                            let k = choose|k: int| 0 <= k < y.len() && y[k] == q;
                            assert((x + y)[x.len() + k] == q);
                        }
                    }
                    if paths_of(own).contains(q) {
                        assert(x.contains(q));
                        let k = choose|k: int| 0 <= k < x.len() && x[k] == q;
                        assert((x + y)[k] == q);
                    }
                }
            }
            i = i + 1;
        }
        proof {
            assert forall|q: Seq<Seq<char>>| #[trigger] paths_of(out@).contains(q) <==> consults_below(*self, *seen, q) by {
                if q == self.path() && !root {
                    assert(paths_of(own)[0] == q);
                }
            }
        }
        out
    }

    /// The paths that a poll of this subtree over `cut`, reached after a
    /// corridor of length `corridor`, looks up against `seen`.
    pub fn lookups(&self, cut: Cut, corridor: u64, seen: &Snapshot) -> (r: Vec<Vec<String>>)
        ensures
            forall|q: Seq<Seq<char>>| #[trigger] paths_of(r@).contains(q) <==> consults(*self, cut, corridor as nat, *seen, q),
        decreases self,
    {
        if point(self, cut, corridor) {
            return self.lookups_below(seen);
        }
        let mut out: Vec<Vec<String>> = Vec::new();
        let on_way = match cut {
            Cut::Leaves => !self.is_root_node(),
            _ => false,
        };
        if on_way {
            out.push(clone_path(&self.full_path));
        }
        let ghost own = out@;
        proof {
            if on_way {
                assert(paths_of(own) =~= seq![self.path()]);
            } else {
                assert(paths_of(own) =~= Seq::<Seq<Seq<char>>>::empty());
            }
        }
        let nc = corridor_below(self, corridor);
        let n = self.branches.len();
        let mut i: usize = 0;
        while i < n
            invariant
                n == self.branches@.len(),
                i <= n,
                nc as nat == next_corridor(*self, corridor as nat),
                on_way == observed_on_way(*self, cut),
                on_way ==> paths_of(own) =~= seq![self.path()],
                !on_way ==> paths_of(own) =~= Seq::<Seq<Seq<char>>>::empty(),
                forall|q: Seq<Seq<char>>| #[trigger] paths_of(out@).contains(q) <==> (paths_of(own).contains(q)
                    || exists|j: int| 0 <= j < i && consults(#[trigger] self.branches@[j], cut, nc as nat, *seen, q)),
            decreases n - i,
        {
            assert(decreases_to!(self => self.branches));
            assert(decreases_to!(self.branches => self.branches@));
            assert(decreases_to!(self.branches@ => self.branches@[i as int]));
            let ghost before = out@;
            let mut sub = self.branches[i].lookups(cut, nc, seen);
            let ghost subv = sub@;
            out.append(&mut sub);
            proof {
                let x = paths_of(before);
                let y = paths_of(subv);
                assert(paths_of(out@) =~= x + y);
                assert forall|q: Seq<Seq<char>>| #[trigger] paths_of(out@).contains(q) <==> (paths_of(own).contains(q)
                    || exists|j: int| 0 <= j < i + 1 && consults(#[trigger] self.branches@[j], cut, nc as nat, *seen, q)) by {
                    if paths_of(out@).contains(q) {
                        let k = choose|k: int| 0 <= k < x.len() + y.len() && (x + y)[k] == q;
                        if k < x.len() {
                            assert(x.contains(q));
                        } else {
                            assert(y[k - x.len()] == q);
                            assert(y.contains(q));
                        }
                    }
                    if exists|j: int| 0 <= j < i + 1 && consults(#[trigger] self.branches@[j], cut, nc as nat, *seen, q) {
                        let j = choose|j: int| 0 <= j < i + 1 && consults(#[trigger] self.branches@[j], cut, nc as nat, *seen, q);
                        if j < i {
                            assert(x.contains(q));
                            let k = choose|k: int| 0 <= k < x.len() && x[k] == q;
                            assert((x + y)[k] == q);
                        } else {
                            assert(y.contains(q));
                            let k = choose|k: int| 0 <= k < y.len() && y[k] == q;
                            assert((x + y)[x.len() + k] == q);
                        }
                    }
                    if paths_of(own).contains(q) {
                        assert(x.contains(q));
                        let k = choose|k: int| 0 <= k < x.len() && x[k] == q;
                        assert((x + y)[k] == q);
                    }
                }
            }
            i = i + 1;
        }
        proof {
            assert forall|q: Seq<Seq<char>>| #[trigger] paths_of(out@).contains(q) <==> consults(*self, cut, corridor as nat, *seen, q) by {
                if on_way && q == self.path() {
                    assert(paths_of(own)[0] == q);
                }
            }
        }
        out
    }
}

/// What `poll_branches` consults and reports depends only on the observations
/// of the paths it consults.
pub proof fn lemma_below_depends_on_consulted(a: Treemap, s1: Snapshot, s2: Snapshot, q: Seq<Seq<char>>)
    requires
        forall|p: Seq<Seq<char>>| #[trigger] consults_below(a, s1, p) ==> s1.knows(p) && s1.at(p) == s2.at(p),
    ensures
        reports(a, s1, q) == reports(a, s2, q),
    decreases a,
{
    if !a.is_root() {
        assert(consults_below(a, s1, a.path()));
    }
    assert(moves(a, s1) == moves(a, s2));
    if moves(a, s1) {
        assert forall|i: int| 0 <= i < a.branches@.len() implies reports(#[trigger] a.branches@[i], s1, q)
            == reports(a.branches@[i], s2, q) by {
            assert forall|p: Seq<Seq<char>>| #[trigger] consults_below(a.branches@[i], s1, p) implies s1.knows(p)
                && s1.at(p) == s2.at(p) by {
                assert(consults_below(a, s1, p));
            }
            lemma_below_depends_on_consulted(a.branches@[i], s1, s2, q);
        }
    }
}

/// A poll over any cut reports the same against a snapshot `s1` that has
/// observed every path it consults (nothing is left for `to_observe`) and
/// against any `s2` that agrees with `s1` there, such as a look at the whole
/// filesystem: observing only the paths that `lookups` names is enough.
pub proof fn poll_depends_on_consulted(a: Treemap, cut: Cut, c: nat, s1: Snapshot, s2: Snapshot, q: Seq<Seq<char>>)
    requires
        forall|p: Seq<Seq<char>>| #[trigger] consults(a, cut, c, s1, p) ==> s1.knows(p) && s1.at(p) == s2.at(p),
    ensures
        cut_reports(a, s1, cut, c, q) == cut_reports(a, s2, cut, c, q),
    decreases a,
{
    if is_point(a, cut, c) {
        assert forall|p: Seq<Seq<char>>| #[trigger] consults_below(a, s1, p) implies s1.knows(p) && s1.at(p)
            == s2.at(p) by {
            assert(consults(a, cut, c, s1, p));
        }
        lemma_below_depends_on_consulted(a, s1, s2, q);
    } else {
        let nc = next_corridor(a, c);
        assert forall|i: int| 0 <= i < a.branches@.len() implies cut_reports(#[trigger] a.branches@[i], s1, cut, nc, q)
            == cut_reports(a.branches@[i], s2, cut, nc, q) by {
            assert forall|p: Seq<Seq<char>>| #[trigger] consults(a.branches@[i], cut, nc, s1, p) implies s1.knows(p)
                && s1.at(p) == s2.at(p) by {
                assert(consults(a, cut, c, s1, p));
            }
            poll_depends_on_consulted(a.branches@[i], cut, nc, s1, s2, q);
        }
    }
}

/// What a poll of `files` over `cut` still needs observed: the paths it
/// consults against `seen` that `seen` has not observed. Observing these,
/// adding them to `seen` and asking again until nothing is left gives a
/// snapshot that has observed every path the poll consults, and no other
/// (see `poll_depends_on_consulted`).
pub fn to_observe(files: &Treemap, cut: Cut, seen: &Snapshot) -> (r: Vec<Vec<String>>)
    ensures
        forall|q: Seq<Seq<char>>| #[trigger] paths_of(r@).contains(q) <==> (consults(*files, cut, 0, *seen, q)
            && !seen.knows(q)),
{
    let all = files.lookups(cut, 0, seen);
    let mut out: Vec<Vec<String>> = Vec::new();
    let mut i: usize = 0;
    while i < all.len()
        invariant
            i <= all@.len(),
            forall|q: Seq<Seq<char>>| #[trigger] paths_of(out@).contains(q) <==> ((exists|j: int|
                0 <= j < i && paths_of(all@)[j] == q) && !seen.knows(q)),
        decreases all@.len() - i,
    {
        let ghost before = out@;
        if !seen.knows_path(&all[i]) {
            out.push(clone_path(&all[i]));
            proof {
                assert(paths_of(out@) =~= paths_of(before).push(paths_of(all@)[i as int]));
            }
        }
        proof {
            assert forall|q: Seq<Seq<char>>| #[trigger] paths_of(out@).contains(q) <==> ((exists|j: int|
                0 <= j < i + 1 && paths_of(all@)[j] == q) && !seen.knows(q)) by {
                if paths_of(out@).contains(q) && out@.len() > before.len() {
                    let k = choose|k: int| 0 <= k < out@.len() && paths_of(out@)[k] == q;
                    if k < before.len() {
                        assert(paths_of(before)[k] == q);
                        assert(paths_of(before).contains(q));
                    }
                }
                if paths_of(before).contains(q) {
                    let k = choose|k: int| 0 <= k < before.len() && paths_of(before)[k] == q;
                    assert(paths_of(out@)[k] == q);
                }
                if (exists|j: int| 0 <= j < i + 1 && paths_of(all@)[j] == q) && !seen.knows(q) {
                    let j = choose|j: int| 0 <= j < i + 1 && paths_of(all@)[j] == q;
                    if j == i {
                        assert(paths_of(out@)[out@.len() - 1] == q);
                    }
                }
            }
        }
        i = i + 1;
    }
    proof {
        assert forall|q: Seq<Seq<char>>| #[trigger] paths_of(out@).contains(q) <==> (consults(*files, cut, 0, *seen, q)
            && !seen.knows(q)) by {
            if consults(*files, cut, 0, *seen, q) {
                assert(paths_of(all@).contains(q));
            }
            if exists|j: int| 0 <= j < all@.len() && paths_of(all@)[j] == q {
                let j = choose|j: int| 0 <= j < all@.len() && paths_of(all@)[j] == q;
                assert(paths_of(all@).contains(q));
            }
        }
    }
    out
}

/// What a poll of `a` over `cut` that observes `seen` hands back:
/// `None` where nothing was reported, or else every reported path, each once.
pub open spec fn poll_outcome(a: Treemap, seen: Snapshot, cut: Cut, r: Option<Vec<Vec<String>>>) -> bool {
    match r {
        None => forall|q: Seq<Seq<char>>| !cut_reports(a, seen, cut, 0, q),
        Some(v) => {
            &&& v@.len() > 0
            &&& paths_of(v@).no_duplicates()
            &&& forall|q: Seq<Seq<char>>| #[trigger] paths_of(v@).contains(q) <==> cut_reports(a, seen, cut, 0, q)
        },
    }
}

/// Polls the whole tree `files` over `cut` against `seen`, from its root.
pub fn poll_by(files: &mut Treemap, cut: Cut, seen: &Snapshot) -> (r: Option<Vec<Vec<String>>>)
    requires
        old(files).wf(),
    ensures
        final(files).wf(),
        cut_polled(*old(files), *final(files), cut, 0, *seen),
        poll_outcome(*old(files), *seen, cut, r),
{
    let res = files.poll_frontier(cut, 0, seen);
    if res.len() > 0 {
        Some(res)
    } else {
        assert forall|q: Seq<Seq<char>>| !cut_reports(*old(files), *seen, cut, 0, q) by {
            if cut_reports(*old(files), *seen, cut, 0, q) {
                assert(paths_of(res@).contains(q));
            }
        }
        None
    }
}

/// A poll strategy: the cut it polls a tree by.
pub trait Poll {
    spec fn cut(&self) -> Cut;

    /// Polls `files` against `seen` and returns the changed leaves, or `None`
    /// where none changed.
    fn poll(&self, files: &mut Treemap, seen: &Snapshot) -> (r: Option<Vec<Vec<String>>>)
        requires
            old(files).wf(),
        ensures
            final(files).wf(),
            cut_polled(*old(files), *final(files), self.cut(), 0, *seen),
            poll_outcome(*old(files), *seen, self.cut(), r),
    ;
}

/// `a` and `b` have the same shape: the same paths and components node for
/// node, whatever times they hold.
pub open spec fn same_shape(a: Treemap, b: Treemap) -> bool
    decreases a,
{
    &&& a.full_path == b.full_path
    &&& a.node == b.node
    &&& a.branches@.len() == b.branches@.len()
    &&& forall|i: int| 0 <= i < a.branches@.len() ==> same_shape(#[trigger] a.branches@[i], b.branches@[i])
}

/// Every tree has its own shape.
pub proof fn lemma_same_shape_refl(a: Treemap)
    ensures
        same_shape(a, a),
    decreases a,
{
    assert forall|i: int| 0 <= i < a.branches@.len() implies same_shape(#[trigger] a.branches@[i], a.branches@[i]) by {
        lemma_same_shape_refl(a.branches@[i]);
    }
}

/// A poll changes times only, never the shape.
pub proof fn lemma_polled_same_shape(a: Treemap, b: Treemap, seen: Snapshot)
    requires
        polled(a, b, seen),
    ensures
        same_shape(a, b),
    decreases a,
{
    if moves(a, seen) {
        assert forall|i: int| 0 <= i < a.branches@.len() implies same_shape(#[trigger] a.branches@[i], b.branches@[i]) by {
            lemma_polled_same_shape(a.branches@[i], b.branches@[i], seen);
        }
    } else {
        lemma_same_shape_refl(a);
    }
}

/// A poll over any cut changes times only, never the shape.
pub proof fn lemma_cut_polled_same_shape(a: Treemap, b: Treemap, cut: Cut, c: nat, seen: Snapshot)
    requires
        cut_polled(a, b, cut, c, seen),
    ensures
        same_shape(a, b),
    decreases a,
{
    if is_point(a, cut, c) {
        lemma_polled_same_shape(a, b, seen);
    } else {
        assert forall|i: int| 0 <= i < a.branches@.len() implies same_shape(#[trigger] a.branches@[i], b.branches@[i]) by {
            lemma_cut_polled_same_shape(a.branches@[i], b.branches@[i], cut, next_corridor(a, c), seen);
        }
    }
}

/// The frontier depends on the shape of the tree alone: trees of the same
/// shape, whatever times they hold, are cut at the same nodes.
pub proof fn frontier_depends_on_shape(a: Treemap, b: Treemap, cut: Cut, c: nat)
    requires
        same_shape(a, b),
    ensures
        frontier(a, cut, c) == frontier(b, cut, c),
    decreases a,
{
    if !is_point(a, cut, c) {
        lemma_frontier_of_shape(a.branches@, b.branches@, cut, next_corridor(a, c));
    }
}

proof fn lemma_frontier_of_shape(xs: Seq<Treemap>, ys: Seq<Treemap>, cut: Cut, c: nat)
    requires
        xs.len() == ys.len(),
        forall|i: int| 0 <= i < xs.len() ==> same_shape(#[trigger] xs[i], ys[i]),
    ensures
        frontier_of(xs, cut, c) == frontier_of(ys, cut, c),
    decreases xs,
{
    if xs.len() > 0 {
        let k = xs.len() - 1;
        lemma_frontier_of_shape(xs.subrange(0, k as int), ys.subrange(0, k as int), cut, c);
        frontier_depends_on_shape(xs[k as int], ys[k as int], cut, c);
    }
}

/// A poll leaves the frontier where it was: the tree it leaves is cut at the
/// same nodes as the tree it found.
pub proof fn poll_keeps_frontier(a: Treemap, b: Treemap, cut: Cut, c: nat, seen: Snapshot, cut2: Cut, c2: nat)
    requires
        cut_polled(a, b, cut, c, seen),
    ensures
        frontier(a, cut2, c2) == frontier(b, cut2, c2),
{
    lemma_cut_polled_same_shape(a, b, cut, c, seen);
    frontier_depends_on_shape(a, b, cut2, c2);
}

/// With an unbounded ratio nothing coalesces: the coalesced cut has the units
/// of the cut into leaves, so against the same observations both strategies
/// report exactly the same paths.
pub proof fn unbounded_ratio_is_exhaustive(a: Treemap, r: Ratio, c: nat, seen: Snapshot)
    requires
        r.den == 0,
    ensures
        frontier(a, Cut::Coalesce(r), c) == frontier(a, Cut::Leaves, c),
        forall|q: Seq<Seq<char>>|
            #[trigger] cut_reports(a, seen, Cut::Coalesce(r), c, q) == cut_reports(a, seen, Cut::Leaves, c, q),
    decreases a,
{
    assert(is_point(a, Cut::Coalesce(r), c) == is_point(a, Cut::Leaves, c));
    let nc = next_corridor(a, c);
    if !is_point(a, Cut::Leaves, c) {
        lemma_unbounded_frontier_of(a.branches@, r, nc);
        assert forall|i: int| 0 <= i < a.branches@.len() implies forall|q: Seq<Seq<char>>|
            cut_reports(#[trigger] a.branches@[i], seen, Cut::Coalesce(r), nc, q) == cut_reports(
                a.branches@[i],
                seen,
                Cut::Leaves,
                nc,
                q,
            ) by {
            unbounded_ratio_is_exhaustive(a.branches@[i], r, nc, seen);
        }
        assert forall|q: Seq<Seq<char>>|
            #[trigger] cut_reports(a, seen, Cut::Coalesce(r), c, q) == cut_reports(a, seen, Cut::Leaves, c, q) by {
            if cut_reports(a, seen, Cut::Coalesce(r), c, q) {
                let i = choose|i: int|
                    0 <= i < a.branches@.len() && cut_reports(#[trigger] a.branches@[i], seen, Cut::Coalesce(r), nc, q);
                assert(cut_reports(a.branches@[i], seen, Cut::Leaves, nc, q));
            }
            if cut_reports(a, seen, Cut::Leaves, c, q) {
                let i = choose|i: int|
                    0 <= i < a.branches@.len() && cut_reports(#[trigger] a.branches@[i], seen, Cut::Leaves, nc, q);
                assert(cut_reports(a.branches@[i], seen, Cut::Coalesce(r), nc, q));
            }
        }
    }
}

/// Against the same observations, `Mix` with an unbounded ratio and `Poll`
/// hand back the same result.
pub proof fn unbounded_ratio_same_outcome(a: Treemap, seen: Snapshot, r: Ratio, res: Option<Vec<Vec<String>>>)
    requires
        r.den == 0,
    ensures
        poll_outcome(a, seen, Cut::Coalesce(r), res) == poll_outcome(a, seen, Cut::Leaves, res),
{
    unbounded_ratio_is_exhaustive(a, r, 0, seen);
    let x = Cut::Coalesce(r);
    let y = Cut::Leaves;
    match res {
        None => {
            if poll_outcome(a, seen, x, res) {
                assert forall|q: Seq<Seq<char>>| !cut_reports(a, seen, y, 0, q) by {
                    assert(!cut_reports(a, seen, x, 0, q));
                }
            }
            if poll_outcome(a, seen, y, res) {
                assert forall|q: Seq<Seq<char>>| !cut_reports(a, seen, x, 0, q) by {
                    assert(!cut_reports(a, seen, y, 0, q));
                }
            }
        },
        Some(v) => {
            assert forall|q: Seq<Seq<char>>| cut_reports(a, seen, x, 0, q) == cut_reports(a, seen, y, 0, q) by {}
        },
    }
}

/// After a poll that observed `seen`, a second poll against the same
/// observations reports nothing below a node the first one reached.
pub proof fn lemma_polled_quiet(a: Treemap, b: Treemap, seen: Snapshot, q: Seq<Seq<char>>)
    requires
        polled(a, b, seen),
    ensures
        !reports(b, seen, q),
    decreases a,
{
    crate::metadata::poll_idempotent(a.last_update, seen.at(a.path()));
    crate::metadata::lemma_step_may_follow(a.last_update, seen.at(a.path()));
    assert(b.path() == a.path());
    if a.is_root() {
        if reports(b, seen, q) && b.branches@.len() > 0 {
            let i = choose|i: int| 0 <= i < b.branches@.len() && reports(#[trigger] b.branches@[i], seen, q);
            if moves(a, seen) {
                lemma_polled_quiet(a.branches@[i], b.branches@[i], seen, q);
            }
        }
    }
}

/// Polling twice in a row against the same observations: the second poll,
/// over any cut, reports nothing.
pub proof fn poll_again_reports_nothing(a: Treemap, b: Treemap, cut: Cut, c: nat, seen: Snapshot, q: Seq<Seq<char>>)
    requires
        cut_polled(a, b, cut, c, seen),
    ensures
        !cut_reports(b, seen, cut, c, q),
    decreases a,
{
    lemma_cut_polled_same_shape(a, b, cut, c, seen);
    assert(is_point(a, cut, c) == is_point(b, cut, c));
    assert(next_corridor(a, c) == next_corridor(b, c));
    if is_point(a, cut, c) {
        lemma_polled_quiet(a, b, seen, q);
    } else if cut_reports(b, seen, cut, c, q) {
        let i = choose|i: int|
            0 <= i < b.branches@.len() && cut_reports(#[trigger] b.branches@[i], seen, cut, next_corridor(b, c), q);
        poll_again_reports_nothing(a.branches@[i], b.branches@[i], cut, next_corridor(a, c), seen, q);
    }
}

/// A tree polled once and then polled again over the same cut with nothing
/// touched in between (the same observations) gives `None`, whatever its
/// depth.
pub proof fn untouched_poll_returns_none(
    a: Treemap,
    b: Treemap,
    cut: Cut,
    seen: Snapshot,
    res: Option<Vec<Vec<String>>>,
)
    requires
        cut_polled(a, b, cut, 0, seen),
        poll_outcome(b, seen, cut, res),
    ensures
        res is None,
{
    if res is Some {
        let v = res->0;
        let q = paths_of(v@)[0];
        assert(paths_of(v@).contains(q));
        poll_again_reports_nothing(a, b, cut, 0, seen, q);
    }
}

proof fn lemma_unbounded_frontier_of(xs: Seq<Treemap>, r: Ratio, c: nat)
    requires
        r.den == 0,
    ensures
        frontier_of(xs, Cut::Coalesce(r), c) == frontier_of(xs, Cut::Leaves, c),
    decreases xs,
{
    if xs.len() > 0 {
        let k = xs.len() - 1;
        lemma_unbounded_frontier_of(xs.subrange(0, k as int), r, c);
        lemma_unbounded_frontier(xs[k as int], r, c);
    }
}

proof fn lemma_unbounded_frontier(t: Treemap, r: Ratio, c: nat)
    requires
        r.den == 0,
    ensures
        frontier(t, Cut::Coalesce(r), c) == frontier(t, Cut::Leaves, c),
    decreases t,
{
    if !is_point(t, Cut::Leaves, c) {
        lemma_unbounded_frontier_of(t.branches@, r, next_corridor(t, c));
    }
}

} // verus!
