//! Polling from the root only, where an event source would take over.
use vstd::prelude::*;

use super::{Cut, Poll, poll_by};
use crate::metadata::Snapshot;
use crate::treemap::Treemap;

verus! {

/// Treats the whole tree as one poll unit: the cheapest strategy in stats,
/// and the one that relies most on directory times.
#[derive(Clone, Copy, Debug)]
pub struct Notify {
    pub poll_rate_ms: u64,
}

impl Default for Notify {
    fn default() -> (r: Self)
        ensures
            r.poll_rate_ms == 200,
    {
        Notify { poll_rate_ms: 200 }
    }
}

impl Poll for Notify {
    open spec fn cut(&self) -> Cut {
        Cut::Whole
    }

    fn poll(&self, files: &mut Treemap, seen: &Snapshot) -> (r: Option<Vec<Vec<String>>>) {
        poll_by(files, Cut::Whole, seen)
    }
}

} // verus!
