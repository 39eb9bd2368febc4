//! Coalesced polling: a node reached through a long corridor and holding many
//! branches is polled as one unit.
use vstd::prelude::*;

use super::{Cut, Poll, Ratio, poll_by};
use crate::metadata::Snapshot;
use crate::treemap::Treemap;

verus! {

/// Cuts the tree where the branches of a node outnumber `branch_depth_ratio`
/// times the length of the corridor that led to it.
#[derive(Clone, Copy, Debug)]
pub struct Mix {
    pub poll_rate_ms: u64,
    pub branch_depth_ratio: Ratio,
}

impl Default for Mix {
    fn default() -> (r: Self)
        ensures
            r.poll_rate_ms == 200,
            r.branch_depth_ratio == (Ratio { num: 4, den: 1 }),
    {
        Mix { poll_rate_ms: 200, branch_depth_ratio: Ratio { num: 4, den: 1 } }
    }
}

impl Poll for Mix {
    open spec fn cut(&self) -> Cut {
        Cut::Coalesce(self.branch_depth_ratio)
    }

    fn poll(&self, files: &mut Treemap, seen: &Snapshot) -> (r: Option<Vec<Vec<String>>>) {
        poll_by(files, Cut::Coalesce(self.branch_depth_ratio), seen)
    }
}

} // verus!
