//! The filesystem as the poller sees it: whether a path exists and when it
//! was last modified, and the decision that one observation makes.
use vstd::prelude::*;

use crate::treemap::{path_view, same_path};

verus! {

/// A modification time, in nanoseconds from the Unix epoch (negative before it).
pub type Timestamp = i128;

/// What one stat of a path shows: its modification time, or `None` where the
/// path is absent or its metadata could not be read.
pub open spec fn observed(exists: bool, modified: Result<Timestamp, ()>) -> Option<Timestamp> {
    if exists {
        match modified {
            Ok(t) => Some(t),
            Err(_) => None,
        }
    } else {
        None
    }
}

/// The new stored time and the change flag after observing `now` where `last`
/// was stored: a strictly newer time, a first sighting or a disappearance is a
/// change; anything else leaves the stored time as it was.
pub open spec fn step(last: Option<Timestamp>, now: Option<Timestamp>) -> (bool, Option<Timestamp>) {
    match now {
        Some(t) => match last {
            Some(l) => if l < t {
                (true, Some(t))
            } else {
                (false, last)
            },
            None => (true, Some(t)),
        },
        None => match last {
            Some(_) => (true, None),
            None => (false, None),
        },
    }
}

/// `new` is a time that a single observation can leave where `last` was
/// stored: the same, a strictly newer time, a first time, or absence.
pub open spec fn may_follow(last: Option<Timestamp>, new: Option<Timestamp>) -> bool {
    new == last || match new {
        Some(t) => last is None || last->0 < t,
        None => true,
    }
}

/// Every observation leaves a time that may follow the stored one, and reports
/// a change exactly when the stored time moved.
pub proof fn lemma_step_may_follow(last: Option<Timestamp>, now: Option<Timestamp>)
    ensures
        may_follow(last, step(last, now).1),
        step(last, now).0 == (step(last, now).1 != last),
{
}

/// Two observations of the same thing in a row: the second is never a change
/// and leaves the stored time as the first left it.
pub proof fn poll_idempotent(last: Option<Timestamp>, now: Option<Timestamp>)
    ensures
        !step(step(last, now).1, now).0,
        step(step(last, now).1, now).1 == step(last, now).1,
{
}

/// A path seen with a time and then absent is reported changed once, on the
/// first observation of its absence, and unchanged while it stays absent.
pub proof fn deletion_reported_once(last: Option<Timestamp>, t: Timestamp)
    ensures
        step(step(last, Some(t)).1, None) == (true, None::<Timestamp>),
        step(step(step(last, Some(t)).1, None).1, None) == (false, None::<Timestamp>),
{
}

/// Combines the two answers of a stat into one observation; a metadata read
/// that fails on an existing path counts as absence.
pub fn observation(exists: bool, modified: Result<Timestamp, ()>) -> (r: Option<Timestamp>)
    ensures
        r == observed(exists, modified),
{
    if exists {
        match modified {
            Ok(t) => Some(t),
            Err(_) => None,
        }
    } else {
        None
    }
}

/// Decides whether observing `now` after `last` is a change, and what is stored.
pub fn decide(last: Option<Timestamp>, now: Option<Timestamp>) -> (r: (bool, Option<Timestamp>))
    ensures
        r == step(last, now),
{
    match now {
        Some(t) => match last {
            Some(l) => if l < t {
                (true, Some(t))
            } else {
                (false, last)
            },
            None => (true, Some(t)),
        },
        None => match last {
            Some(_) => (true, None),
            None => (false, None),
        },
    }
}

/// What looks at the filesystem found: each path observed, with its
/// modification time, or `None` where it was absent or its metadata could not
/// be read. A path never observed is unknown and counts as absent; where a
/// path was observed twice, the first observation counts.
#[derive(Clone, Debug)]
pub struct Snapshot {
    pub entries: Vec<(Vec<String>, Option<Timestamp>)>,
}

/// The first observation of `q` in `es`, or `None` where there is none.
pub open spec fn lookup_in(es: Seq<(Vec<String>, Option<Timestamp>)>, q: Seq<Seq<char>>) -> Option<
    Option<Timestamp>,
>
    decreases es.len(),
{
    if es.len() == 0 {
        None
    } else if path_view(es[0].0@) == q {
        Some(es[0].1)
    } else {
        lookup_in(es.drop_first(), q)
    }
}

impl Snapshot {
    /// Whether path `q` was observed.
    pub open spec fn knows(&self, q: Seq<Seq<char>>) -> bool {
        lookup_in(self.entries@, q) is Some
    }

    /// The observation of path `q`; `None` where it is absent or unknown.
    pub open spec fn at(&self, q: Seq<Seq<char>>) -> Option<Timestamp> {
        match lookup_in(self.entries@, q) {
            Some(o) => o,
            None => None,
        }
    }

    /// A snapshot that knows nothing.
    pub fn new() -> (r: Snapshot)
        ensures
            forall|q: Seq<Seq<char>>| #[trigger] lookup_in(r.entries@, q) is None,
    {
        Snapshot { entries: Vec::new() }
    }

    /// Records what a stat of `path` showed (see `observation`). A path
    /// observed before keeps its first observation.
    pub fn insert(&mut self, path: Vec<String>, exists: bool, modified: Result<Timestamp, ()>)
        ensures
            forall|q: Seq<Seq<char>>| #[trigger] lookup_in(final(self).entries@, q) == if !old(self).knows(q)
                && q == path_view(path@) {
                Some(observed(exists, modified))
            } else {
                lookup_in(old(self).entries@, q)
            },
    {
        let ghost es = self.entries@;
        let now = observation(exists, modified);
        self.entries.push((path, now));
        proof {
            lemma_lookup_push(es, self.entries@.last());
            assert(self.entries@ == es.push(self.entries@.last()));
        }
    }

    /// The first observation of `path`, or `None` where it was never observed.
    pub fn find(&self, path: &Vec<String>) -> (r: Option<Option<Timestamp>>)
        ensures
            r == lookup_in(self.entries@, path_view(path@)),
    {
        let ghost q = path_view(path@);
        let mut i: usize = 0;
        assert(self.entries@.subrange(0, self.entries@.len() as int) =~= self.entries@);
        while i < self.entries.len()
            invariant
                q == path_view(path@),
                i <= self.entries@.len(),
                lookup_in(self.entries@, q) == lookup_in(self.entries@.subrange(i as int, self.entries@.len() as int), q),
            decreases self.entries@.len() - i,
        {
            let ghost rest = self.entries@.subrange(i as int, self.entries@.len() as int);
            assert(rest[0] == self.entries@[i as int]);
            let entry = &self.entries[i];
            assert(*entry == rest[0]);
            let found = same_path(&entry.0, path);
            assert(found == (path_view(rest[0].0@) == q));
            if found {
                assert(lookup_in(rest, q) == Some(rest[0].1));
                return Some(entry.1);
            }
            assert(rest.drop_first() =~= self.entries@.subrange(i + 1, self.entries@.len() as int));
            assert(lookup_in(rest, q) == lookup_in(rest.drop_first(), q));
            i = i + 1;
        }
        None
    }

    /// The observation of `path`; `None` where it is absent or unknown.
    pub fn lookup(&self, path: &Vec<String>) -> (r: Option<Timestamp>)
        ensures
            r == self.at(path_view(path@)),
    {
        match self.find(path) {
            Some(o) => o,
            None => None,
        }
    }

    /// Whether `path` was observed.
    pub fn knows_path(&self, path: &Vec<String>) -> (r: bool)
        ensures
            r == self.knows(path_view(path@)),
    {
        self.find(path).is_some()
    }
}

/// Adding an entry at the end changes only what was not observed before.
proof fn lemma_lookup_push(es: Seq<(Vec<String>, Option<Timestamp>)>, e: (Vec<String>, Option<Timestamp>))
    ensures
        forall|q: Seq<Seq<char>>| #[trigger] lookup_in(es.push(e), q) == if lookup_in(es, q) is None
            && q == path_view(e.0@) {
            Some(e.1)
        } else {
            lookup_in(es, q)
        },
    decreases es.len(),
{
    if es.len() > 0 {
        lemma_lookup_push(es.drop_first(), e);
        assert(es.push(e).drop_first() =~= es.drop_first().push(e));
        assert forall|q: Seq<Seq<char>>| #[trigger] lookup_in(es.push(e), q) == if lookup_in(es, q) is None
            && q == path_view(e.0@) {
            Some(e.1)
        } else {
            lookup_in(es, q)
        } by {
            assert(es.push(e)[0] == es[0]);
            assert(lookup_in(es.drop_first().push(e), q) == if lookup_in(es.drop_first(), q) is None
                && q == path_view(e.0@) {
                Some(e.1)
            } else {
                lookup_in(es.drop_first(), q)
            });
        }
    } else {
        assert forall|q: Seq<Seq<char>>| #[trigger] lookup_in(es.push(e), q) == if lookup_in(es, q) is None
            && q == path_view(e.0@) {
            Some(e.1)
        } else {
            lookup_in(es, q)
        } by {
            assert(es.push(e)[0] == e);
            assert(es.push(e).drop_first().len() == 0);
            assert(lookup_in(es.push(e).drop_first(), q) is None);
        }
    }
}

} // verus!
