//! Exhaustive polling: every leaf is a poll unit of its own.
use vstd::prelude::*;

use super::{Cut, Poll as PollTrait, poll_by};
use crate::metadata::Snapshot;
use crate::treemap::Treemap;

verus! {

/// Polls every leaf on every tick.
#[derive(Clone, Copy, Debug)]
pub struct Poll {
    pub poll_rate_ms: u64,
}

impl Default for Poll {
    fn default() -> (r: Self)
        ensures
            r.poll_rate_ms == 500,
    {
        Poll { poll_rate_ms: 500 }
    }
}

impl PollTrait for Poll {
    open spec fn cut(&self) -> Cut {
        Cut::Leaves
    }

    fn poll(&self, files: &mut Treemap, seen: &Snapshot) -> (r: Option<Vec<Vec<String>>>) {
        poll_by(files, Cut::Leaves, seen)
    }
}

} // verus!
