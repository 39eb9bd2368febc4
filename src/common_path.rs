//! The deepest path shared by a set of paths.
use vstd::prelude::*;

use crate::node::path_prefix;
use crate::treemap::{paths_of, path_view};

verus! {

/// `q` is a prefix of every path of `ps`.
pub open spec fn common(ps: Seq<Seq<Seq<char>>>, q: Seq<Seq<char>>) -> bool {
    forall|i: int| 0 <= i < ps.len() ==> q.is_prefix_of(#[trigger] ps[i])
}

/// The longest path that is a prefix of all of `files`, or `None` where there
/// are no files or they share no component. The paths are compared component
/// by component as given: normalize them first (resolving `.`, `..` and
/// links) where they may be spelled differently.
pub fn common_path(files: Vec<Vec<String>>) -> (r: Option<Vec<String>>)
    ensures
        r is None <==> (files@.len() == 0 || forall|q: Seq<Seq<char>>|
            common(paths_of(files@), q) ==> q.len() == 0),
        r is Some ==> common(paths_of(files@), path_view(r->0@)),
        r is Some ==> forall|q: Seq<Seq<char>>|
            common(paths_of(files@), q) ==> q.len() <= r->0@.len(),
{
    let ghost ps = paths_of(files@);
    if files.len() == 0 {
        return None;
    }
    let first = &files[0];
    let mut k: usize = 0;
    let mut shared = true;
    while shared && k < first.len()
        invariant
            ps == paths_of(files@),
            files@.len() > 0,
            first == files@[0],
            k <= first@.len(),
            common(ps, path_view(first@).subrange(0, k as int)),
            !shared ==> exists|j: int|
                0 <= j < files@.len() && (files@[j]@.len() <= k || files@[j]@[k as int]@ != first@[k as int]@),
        decreases first@.len() - k + (if shared { 1int } else { 0int }),
    {
        let mut i: usize = 0;
        let mut all = true;
        while all && i < files.len()
            invariant
                files@.len() > 0,
                first == files@[0],
                k < first@.len(),
                i <= files@.len(),
                all ==> forall|j: int|
                    0 <= j < i ==> (#[trigger] files@[j])@.len() > k && files@[j]@[k as int]@ == first@[k as int]@,
                !all ==> exists|j: int|
                    0 <= j < files@.len() && (files@[j]@.len() <= k || files@[j]@[k as int]@ != first@[k as int]@),
            decreases files@.len() - i + (if all { 1int } else { 0int }),
        {
            let f = &files[i];
            if f.len() <= k || !(f[k] == first[k]) {
                all = false;
            } else {
                assert(files@[i as int]@.len() > k && files@[i as int]@[k as int]@ == first@[k as int]@);
                i = i + 1;
            }
        }
        if all {
            proof {
                let q = path_view(first@).subrange(0, k + 1);
                assert forall|j: int| 0 <= j < ps.len() implies q.is_prefix_of(#[trigger] ps[j]) by {
                    assert(path_view(first@).subrange(0, k as int).is_prefix_of(ps[j]));
                    assert(files@[j]@.len() > k && files@[j]@[k as int]@ == first@[k as int]@);
                    assert(ps[j] == path_view(files@[j]@));
                    assert(q =~= ps[j].subrange(0, k + 1));
                }
            }
            k = k + 1;
        } else {
            shared = false;
        }
    }
    if k == 0 {
        proof {
            assert forall|q: Seq<Seq<char>>| common(ps, q) implies q.len() == 0 by {
                if q.len() > 0 {
                    assert(q.is_prefix_of(ps[0]));
                    if shared {
                        assert(first@.len() == 0);
                    } else {
                        let j = choose|j: int|
                            0 <= j < files@.len() && (files@[j]@.len() <= k || files@[j]@[k as int]@ != first@[k as int]@);
                        assert(q.is_prefix_of(ps[j]));
                        assert(ps[j] == path_view(files@[j]@));
                        assert(q[0] == ps[0][0]);
                    }
                }
            }
        }
        return None;
    }
    let r = path_prefix(first, k);
    proof {
        assert(path_view(r@) =~= path_view(first@).subrange(0, k as int));
        assert forall|q: Seq<Seq<char>>| common(ps, q) implies q.len() <= k by {
            if q.len() > k {
                assert(q.is_prefix_of(ps[0]));
                if shared {
                    assert(k == first@.len());
                } else {
                    let j = choose|j: int|
                        0 <= j < files@.len() && (files@[j]@.len() <= k || files@[j]@[k as int]@ != first@[k as int]@);
                    assert(q.is_prefix_of(ps[j]));
                    assert(ps[j] == path_view(files@[j]@));
                    assert(q[k as int] == ps[0][k as int]);
                }
            }
        }
        assert(path_view(first@).subrange(0, k as int).len() > 0);
    }
    Some(r)
}

} // verus!
