//! The strategy chosen at configuration time.
use vstd::prelude::*;

use crate::metadata::Snapshot;
use crate::modes::mix::Mix;
use crate::modes::notify::Notify;
use crate::modes::poll::Poll;
use crate::modes::{Cut, Poll as PollTrait, cut_polled, poll_outcome};
use crate::treemap::Treemap;

verus! {

/// One of the three poll strategies, all available in every build.
#[derive(Clone, Copy, Debug)]
pub enum Mode {
    Poll(Poll),
    Notify(Notify),
    Mix(Mix),
}

impl Default for Mode {
    fn default() -> (r: Self)
        ensures
            r == Mode::Mix(Mix { poll_rate_ms: 200, branch_depth_ratio: crate::modes::Ratio { num: 4, den: 1 } }),
    {
        Mode::Mix(Mix::default())
    }
}

impl Mode {
    /// The cut the chosen strategy polls by.
    pub open spec fn cut(&self) -> Cut {
        match self {
            Mode::Poll(p) => p.cut(),
            Mode::Notify(n) => n.cut(),
            Mode::Mix(m) => m.cut(),
        }
    }

    /// The cut the chosen strategy polls by.
    pub fn cut_of(&self) -> (r: Cut)
        ensures
            r == self.cut(),
    {
        match self {
            Mode::Poll(_) => Cut::Leaves,
            Mode::Notify(_) => Cut::Whole,
            Mode::Mix(m) => Cut::Coalesce(m.branch_depth_ratio),
        }
    }

    /// Polls `files` against `seen` with the chosen strategy.
    pub fn poll(&self, files: &mut Treemap, seen: &Snapshot) -> (r: Option<Vec<Vec<String>>>)
        requires
            old(files).wf(),
        ensures
            final(files).wf(),
            cut_polled(*old(files), *final(files), self.cut(), 0, *seen),
            poll_outcome(*old(files), *seen, self.cut(), r),
    {
        match self {
            Mode::Poll(p) => p.poll(files, seen),
            Mode::Notify(n) => n.poll(files, seen),
            Mode::Mix(m) => m.poll(files, seen),
        }
    }
}

} // verus!
