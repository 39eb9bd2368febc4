//! Watch specifications and how a tree is built from the paths they resolve to.
use vstd::prelude::*;

use crate::metadata::Timestamp;
use crate::treemap::{Treemap, alike, clone_path, lemma_canonical, lemma_leaves_by_nodes, path_view, unlinked};

verus! {

/// One watch specification: a root, an optional glob pattern below it, and an
/// optional command to run on a change.
#[derive(Clone, Debug)]
pub struct Node {
    /// The components of the root path.
    pub root: Vec<String>,
    /// The glob pattern below the root; without one the root itself is watched.
    pub path_pattern: Option<String>,
    /// The command to run when something under this specification changes.
    pub command: Option<String>,
}

/// Why a watch specification gave no tree.
#[derive(Clone, Copy, Debug, PartialEq, Eq, Structural)]
pub enum BuildError {
    /// Nothing to watch: the pattern matched no path that could be resolved.
    EmptyWatchSet,
    /// The glob pattern could not be compiled.
    InvalidPattern,
}

/// The paths among `matches` that resolved, in their order.
pub open spec fn resolved(matches: Seq<Option<Vec<String>>>) -> Seq<Seq<String>>
    decreases matches.len(),
{
    if matches.len() == 0 {
        seq![]
    } else {
        let rest = resolved(matches.subrange(0, matches.len() - 1));
        match matches[matches.len() - 1] {
            Some(p) => rest.push(p@),
            None => rest,
        }
    }
}

/// `q` is a prefix of one of `paths`: it is a node of the tree built from them.
pub open spec fn on_some_path(paths: Seq<Seq<String>>, q: Seq<Seq<char>>) -> bool {
    exists|i: int| 0 <= i < paths.len() && q.is_prefix_of(#[trigger] path_view(paths[i]))
}

/// The same set of paths, in whatever order, has the same prefixes.
proof fn lemma_same_prefixes(pa: Seq<Seq<String>>, pb: Seq<Seq<String>>)
    requires
        pa.to_set() == pb.to_set(),
    ensures
        forall|q: Seq<Seq<char>>| #[trigger] on_some_path(pa, q) <==> on_some_path(pb, q),
{
    assert forall|q: Seq<Seq<char>>| #[trigger] on_some_path(pa, q) <==> on_some_path(pb, q) by {
        if on_some_path(pa, q) {
            let i = choose|i: int| 0 <= i < pa.len() && q.is_prefix_of(#[trigger] path_view(pa[i]));
            assert(pa.to_set().contains(pa[i]));
            assert(pb.contains(pa[i]));
            let j = choose|j: int| 0 <= j < pb.len() && pb[j] == pa[i];
            assert(q.is_prefix_of(path_view(pb[j])));
        }
        if on_some_path(pb, q) {
            let j = choose|j: int| 0 <= j < pb.len() && q.is_prefix_of(#[trigger] path_view(pb[j]));
            assert(pb.to_set().contains(pb[j]));
            assert(pa.contains(pb[j]));
            let i = choose|i: int| 0 <= i < pa.len() && pa[i] == pb[j];
            assert(q.is_prefix_of(path_view(pa[i])));
        }
    }
}

/// Building from the same set of paths, in whatever order and with whatever
/// repeats, gives the same leaves: `a` and `b` are trees whose nodes are the
/// prefixes of `pa` and of `pb` (as `build_tree` returns them).
pub proof fn build_order_irrelevant(a: Treemap, b: Treemap, pa: Seq<Seq<String>>, pb: Seq<Seq<String>>)
    requires
        pa.to_set() == pb.to_set(),
        a.wf(),
        b.wf(),
        forall|q: Seq<Seq<char>>| #[trigger] a.has_node(q) <==> on_some_path(pa, q),
        forall|q: Seq<Seq<char>>| #[trigger] b.has_node(q) <==> on_some_path(pb, q),
    ensures
        a.leaves() == b.leaves(),
{
    lemma_same_prefixes(pa, pb);
    assert forall|q: Seq<Seq<char>>| #[trigger] a.has_node(q) <==> b.has_node(q) by {
        assert(on_some_path(pa, q) <==> on_some_path(pb, q));
    }
    lemma_leaves_by_nodes(a, b);
}

/// Building from the same set of paths, in whatever order and with whatever
/// repeats, gives trees that compare equal: `a` and `b` are what `build_tree`
/// returns for `pa` and for `pb`.
pub proof fn build_order_gives_equal_trees(a: Treemap, b: Treemap, pa: Seq<Seq<String>>, pb: Seq<Seq<String>>)
    requires
        pa.to_set() == pb.to_set(),
        a.wf(),
        b.wf(),
        a.is_root(),
        b.is_root(),
        unlinked(a),
        unlinked(b),
        a.node@ == Seq::<char>::empty(),
        b.node@ == Seq::<char>::empty(),
        forall|q: Seq<Seq<char>>| #[trigger] a.has_node(q) <==> on_some_path(pa, q),
        forall|q: Seq<Seq<char>>| #[trigger] b.has_node(q) <==> on_some_path(pb, q),
        forall|q: Seq<Seq<char>>, s: Option<Timestamp>| #[trigger] a.has_stamp(q, s) <==> (a.has_node(q) && s is None),
        forall|q: Seq<Seq<char>>, s: Option<Timestamp>| #[trigger] b.has_stamp(q, s) <==> (b.has_node(q) && s is None),
    ensures
        alike(a, b),
{
    lemma_same_prefixes(pa, pb);
    assert forall|q: Seq<Seq<char>>| #[trigger] a.has_node(q) <==> b.has_node(q) by {
        assert(on_some_path(pa, q) <==> on_some_path(pb, q));
    }
    assert forall|q: Seq<Seq<char>>, s: Option<Timestamp>| #[trigger] a.has_stamp(q, s) <==> b.has_stamp(q, s) by {
        assert(a.has_node(q) <==> b.has_node(q));
    }
    assert(a.path() =~= b.path());
    lemma_canonical(a, b);
}

/// The first `k` components of `p`.
pub fn path_prefix(p: &Vec<String>, k: usize) -> (r: Vec<String>)
    requires
        k <= p@.len(),
    ensures
        r@ == p@.subrange(0, k as int),
{
    let mut r: Vec<String> = Vec::new();
    let mut i: usize = 0;
    while i < k
        invariant
            k <= p@.len(),
            i <= k,
            r@ == p@.subrange(0, i as int),
        decreases k - i,
    {
        r.push(p[i].clone());
        i = i + 1;
    }
    r
}

impl Node {
    /// The tree of one path: the root, then one node per component, each the
    /// only branch of the one before. Its nodes are exactly the prefixes of the path.
    pub fn build_treemap_inner(segments: &Vec<String>) -> (r: Treemap)
        ensures
            r.wf(),
            r.is_root(),
            r.conf_node@.len() == 0,
            unlinked(r),
            r.node@ == Seq::<char>::empty(),
            forall|q: Seq<Seq<char>>| #[trigger] r.has_node(q) <==> q.is_prefix_of(path_view(segments@)),
            forall|q: Seq<Seq<char>>, s: Option<Timestamp>|
                #[trigger] r.has_stamp(q, s) <==> (r.has_node(q) && s is None),
    {
        let ghost sv = path_view(segments@);
        let n = segments.len();
        let mut top: Vec<Treemap> = Vec::new();
        if n > 0 {
            let mut k: usize = n - 1;
            let mut acc = Treemap::new(segments[k].clone(), Vec::new(), path_prefix(segments, k));
            assert(path_view(segments@.subrange(0, k as int)).push(segments@[k as int]@) =~= sv.subrange(0, k + 1));
            assert forall|q: Seq<Seq<char>>| #[trigger] acc.has_node(q) <==> (k + 1 <= q.len() <= n && q
                == sv.subrange(0, q.len() as int)) by {
                if k + 1 <= q.len() <= n && q == sv.subrange(0, q.len() as int) {
                    assert(q.len() == n);
                }
            }
            assert forall|q: Seq<Seq<char>>, s: Option<Timestamp>|
                #[trigger] acc.has_stamp(q, s) <==> (acc.has_node(q) && s is None) by {}
            while k > 0
                invariant
                    n == segments@.len(),
                    sv == path_view(segments@),
                    k < n,
                    acc.wf(),
                    unlinked(acc),
                    acc.node@ == sv[k as int],
                    acc.path() == sv.subrange(0, k + 1),
                    forall|q: Seq<Seq<char>>| #[trigger] acc.has_node(q) <==> (k + 1 <= q.len() <= n && q
                        == sv.subrange(0, q.len() as int)),
                    forall|q: Seq<Seq<char>>, s: Option<Timestamp>|
                        #[trigger] acc.has_stamp(q, s) <==> (acc.has_node(q) && s is None),
                decreases k,
            {
                k = k - 1;
                let ghost below = acc;
                let mut bs: Vec<Treemap> = Vec::new();
                bs.push(acc);
                acc = Treemap::new(segments[k].clone(), bs, path_prefix(segments, k));
                proof {
                    assert(path_view(segments@.subrange(0, k as int)).push(segments@[k as int]@) =~= sv.subrange(0, k + 1));
                    assert(acc.branches@[0] == below);
                    assert(unlinked(acc));
                    assert(sv.subrange(0, k + 2) =~= sv.subrange(0, k + 1).push(sv[k + 1]));
                    assert forall|q: Seq<Seq<char>>| #[trigger] acc.has_node(q) <==> (k + 1 <= q.len() <= n && q
                        == sv.subrange(0, q.len() as int)) by {
                        if acc.has_node(q) && q != acc.path() {
                            assert(below.has_node(q));
                        }
                        if k + 1 <= q.len() <= n && q == sv.subrange(0, q.len() as int) && q.len() > k + 1 {
                            assert(below.has_node(q));
                            assert(acc.branches@[0].has_node(q));
                        }
                    }
                    assert forall|q: Seq<Seq<char>>, s: Option<Timestamp>|
                        #[trigger] acc.has_stamp(q, s) <==> (acc.has_node(q) && s is None) by {
                        if acc.has_stamp(q, s) && !(q == acc.path() && s == acc.last_update) {
                            assert(below.has_stamp(q, s));
                        }
                        if acc.has_node(q) && s is None && q != acc.path() {
                            assert(below.has_node(q));
                            assert(below.has_stamp(q, s));
                            assert(acc.branches@[0].has_stamp(q, s));
                        }
                    }
                }
            }
            top.push(acc);
        }
        let r = Treemap::root(top);
        proof {
            if n > 0 {
                assert(unlinked(r.branches@[0]));
            }
            assert(unlinked(r));
            if n > 0 {
                assert(r.branches@[0].path() =~= r.path().push(r.branches@[0].node@));
            }
            assert forall|q: Seq<Seq<char>>, s: Option<Timestamp>|
                #[trigger] r.has_stamp(q, s) <==> (r.has_node(q) && s is None) by {
                if r.has_stamp(q, s) && !(q == r.path() && s == r.last_update) {
                    assert(r.branches@[0].has_stamp(q, s));
                }
                if r.has_node(q) && s is None && q != r.path() {
                    assert(r.branches@[0].has_node(q));
                    assert(r.branches@[0].has_stamp(q, s));
                }
            }
            assert forall|q: Seq<Seq<char>>| #[trigger] r.has_node(q) <==> q.is_prefix_of(sv) by {
                if q.is_prefix_of(sv) && q.len() > 0 {
                    assert(r.branches@[0].has_node(q));
                }
                if r.has_node(q) && q != r.path() {
                    assert(r.branches@[0].has_node(q));
                }
                if q.len() == 0 {
                    assert(q =~= r.path());
                    assert(q =~= sv.subrange(0, 0));
                }
            }
        }
        r
    }
    /// Folds the trees of `paths` into one by merging, from the last path to
    /// the first. The nodes of the result are the prefixes of the paths, so the
    /// order of the paths does not matter to its shape. No paths, no tree.
    pub fn build_tree(paths: &Vec<Vec<String>>) -> (r: Result<Treemap, BuildError>)
        ensures
            paths@.len() == 0 <==> r is Err,
            r is Err ==> r == Err::<Treemap, BuildError>(BuildError::EmptyWatchSet),
            r is Ok ==> {
                let t = r->Ok_0;
                &&& t.wf()
                &&& t.is_root()
                &&& t.conf_node@.len() == 0
                &&& unlinked(t)
                &&& t.node@ == Seq::<char>::empty()
                &&& forall|q: Seq<Seq<char>>| #[trigger] t.has_node(q) <==> on_some_path(
                    paths@.map_values(|p: Vec<String>| p@),
                    q,
                )
                &&& forall|q: Seq<Seq<char>>, s: Option<Timestamp>|
                    #[trigger] t.has_stamp(q, s) <==> (t.has_node(q) && s is None)
            },
    {
        let ghost ps = paths@.map_values(|p: Vec<String>| p@);
        let n = paths.len();
        if n == 0 {
            return Err(BuildError::EmptyWatchSet);
        }
        let mut i: usize = n - 1;
        let mut acc = Node::build_treemap_inner(&paths[i]);
        proof {
            assert forall|q: Seq<Seq<char>>| #[trigger] acc.has_node(q) <==> exists|j: int|
                i <= j < n && q.is_prefix_of(#[trigger] path_view(ps[j])) by {
                assert(ps[i as int] == paths@[i as int]@);
            }
        }
        while i > 0
            invariant
                n == paths@.len(),
                ps == paths@.map_values(|p: Vec<String>| p@),
                i < n,
                acc.wf(),
                acc.is_root(),
                acc.conf_node@.len() == 0,
                unlinked(acc),
                acc.node@ == Seq::<char>::empty(),
                forall|q: Seq<Seq<char>>, s: Option<Timestamp>|
                    #[trigger] acc.has_stamp(q, s) <==> (acc.has_node(q) && s is None),
                forall|q: Seq<Seq<char>>| #[trigger] acc.has_node(q) <==> exists|j: int|
                    i <= j < n && q.is_prefix_of(#[trigger] path_view(ps[j])),
            decreases i,
        {
            i = i - 1;
            let ghost before = acc;
            let chain = Node::build_treemap_inner(&paths[i]);
            assert(chain.path() =~= acc.path());
            acc.merge(chain);
            proof {
                assert(ps[i as int] == paths@[i as int]@);
                assert forall|q: Seq<Seq<char>>| #[trigger] acc.has_node(q) <==> exists|j: int|
                    i <= j < n && q.is_prefix_of(#[trigger] path_view(ps[j])) by {
                    if exists|j: int| i <= j < n && q.is_prefix_of(#[trigger] path_view(ps[j])) {
                        let j = choose|j: int| i <= j < n && q.is_prefix_of(#[trigger] path_view(ps[j]));
                        if j > i {
                            assert(before.has_node(q));
                        }
                    }
                }
            }
        }
        proof {
            assert forall|q: Seq<Seq<char>>| #[trigger] acc.has_node(q) <==> on_some_path(ps, q) by {
                if on_some_path(ps, q) {
                    let j = choose|j: int| 0 <= j < ps.len() && q.is_prefix_of(#[trigger] path_view(ps[j]));
                    assert(0 <= j < n && q.is_prefix_of(path_view(ps[j])));
                }
            }
        }
        Ok(acc)
    }

    /// The paths this specification watches, given what its pattern matched
    /// below its root: `Err` where the pattern could not be compiled, else each
    /// match either resolved or `None` where it could not be. Without a pattern
    /// the root alone is watched and `matches` is not read; with one, the
    /// resolved matches are kept in order, and where none is left there is
    /// nothing to watch.
    pub fn build_paths(&self, matches: Result<Vec<Option<Vec<String>>>, ()>) -> (r: Result<
        Vec<Vec<String>>,
        BuildError,
    >)
        ensures
            self.path_pattern is None ==> r is Ok && r->Ok_0@.map_values(|p: Vec<String>| p@) == seq![self.root@],
            self.path_pattern is Some && matches is Err ==> r == Err::<Vec<Vec<String>>, BuildError>(
                BuildError::InvalidPattern,
            ),
            self.path_pattern is Some && matches is Ok ==> {
                &&& (r is Err <==> resolved(matches->Ok_0@).len() == 0)
                &&& r is Err ==> r == Err::<Vec<Vec<String>>, BuildError>(BuildError::EmptyWatchSet)
                &&& r is Ok ==> r->Ok_0@.map_values(|p: Vec<String>| p@) == resolved(matches->Ok_0@)
            },
    {
        let mut out: Vec<Vec<String>> = Vec::new();
        if self.path_pattern.is_none() {
            out.push(clone_path(&self.root));
            assert(out@.map_values(|p: Vec<String>| p@) =~= seq![self.root@]);
            return Ok(out);
        }
        let matches = match matches {
            Ok(m) => m,
            Err(()) => {
                return Err(BuildError::InvalidPattern);
            },
        };
        let ghost ms = matches@;
        let mut rest = matches;
        let mut back: Vec<Vec<String>> = Vec::new();
        while rest.len() > 0
            invariant
                rest@.len() <= ms.len(),
                rest@ == ms.subrange(0, rest@.len() as int),
                resolved(ms) == resolved(rest@) + back@.map_values(|p: Vec<String>| p@).reverse(),
            decreases rest@.len(),
        {
            let ghost before = back@;
            let ghost r0 = rest@;
            let m = rest.pop().unwrap();
            assert(rest@ =~= r0.subrange(0, r0.len() - 1));
            match m {
                Some(p) => {
                    back.push(p);
                    assert(back@.map_values(|p: Vec<String>| p@).reverse() =~= seq![p@] + before.map_values(|p: Vec<String>| p@).reverse());
                    assert(resolved(r0) == resolved(rest@).push(p@));
                    assert(resolved(rest@).push(p@) + before.map_values(|p: Vec<String>| p@).reverse() =~= resolved(rest@) + back@.map_values(|p: Vec<String>| p@).reverse());
                },
                None => {},
            }
        }
        assert(resolved(rest@) =~= Seq::<Seq<String>>::empty());
        let ghost fwd = back@.map_values(|p: Vec<String>| p@).reverse();
        while back.len() > 0
            invariant
                fwd == out@.map_values(|p: Vec<String>| p@) + back@.map_values(|p: Vec<String>| p@).reverse(),
            decreases back@.len(),
        {
            let ghost b0 = back@;
            let ghost o0 = out@;
            let p = back.pop().unwrap();
            out.push(p);
            assert(b0.map_values(|p: Vec<String>| p@).reverse() =~= seq![p@] + back@.map_values(|p: Vec<String>| p@).reverse());
            assert(out@.map_values(|p: Vec<String>| p@) =~= o0.map_values(|p: Vec<String>| p@).push(p@));
            assert(fwd =~= out@.map_values(|p: Vec<String>| p@) + back@.map_values(|p: Vec<String>| p@).reverse());
        }
        assert(out@.map_values(|p: Vec<String>| p@) =~= fwd);
        if out.len() == 0 {
            Err(BuildError::EmptyWatchSet)
        } else {
            Ok(out)
        }
    }

    /// The tree of this specification (see `build_paths` and `build_tree`).
    pub fn build_treemap(&self, matches: Result<Vec<Option<Vec<String>>>, ()>) -> (r: Result<
        Treemap,
        BuildError,
    >)
        ensures
            self.path_pattern is None ==> r is Ok && forall|q: Seq<Seq<char>>| #[trigger] r->Ok_0.has_node(q)
                <==> q.is_prefix_of(path_view(self.root@)),
            self.path_pattern is Some && matches is Err ==> r == Err::<Treemap, BuildError>(
                BuildError::InvalidPattern,
            ),
            self.path_pattern is Some && matches is Ok ==> {
                &&& (r is Err <==> resolved(matches->Ok_0@).len() == 0)
                &&& r is Err ==> r == Err::<Treemap, BuildError>(BuildError::EmptyWatchSet)
                &&& r is Ok ==> forall|q: Seq<Seq<char>>| #[trigger] r->Ok_0.has_node(q)
                    <==> on_some_path(resolved(matches->Ok_0@), q)
            },
            r is Ok ==> r->Ok_0.wf() && r->Ok_0.is_root() && r->Ok_0.conf_node@.len() == 0
                && unlinked(r->Ok_0) && r->Ok_0.node@ == Seq::<char>::empty(),
            r is Ok ==> forall|q: Seq<Seq<char>>, s: Option<Timestamp>|
                #[trigger] r->Ok_0.has_stamp(q, s) <==> (r->Ok_0.has_node(q) && s is None),
    {
        match self.build_paths(matches) {
            Ok(paths) => {
                let r = Node::build_tree(&paths);
                proof {
                    let ps = paths@.map_values(|p: Vec<String>| p@);
                    if self.path_pattern is None {
                        assert forall|q: Seq<Seq<char>>| #[trigger] r->Ok_0.has_node(q)
                            <==> q.is_prefix_of(path_view(self.root@)) by {
                            assert(ps.len() == 1 && ps[0] == self.root@);
                            if q.is_prefix_of(path_view(self.root@)) {
                                assert(q.is_prefix_of(path_view(ps[0])));
                            }
                            if r->Ok_0.has_node(q) {
                                let j = choose|j: int| 0 <= j < ps.len() && q.is_prefix_of(#[trigger] path_view(ps[j]));
                                assert(j == 0);
                            }
                        }
                    }
                }
                r
            },
            Err(e) => Err(e),
        }
    }
}

} // verus!
