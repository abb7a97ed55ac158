//! The history of runs: snapshots are only ever added, and the one that
//! counts is the newest by its timestamp.

use vstd::prelude::*;
use crate::error::Error;
use crate::lookup::{first_named, is_first, lemma_first_named};
use crate::process::Test;

verus! {

/// The verdicts of one invocation and when they were taken.
#[derive(Clone, Debug)]
pub struct Snapshot {
    pub outputs: Vec<Test>,
    /// Seconds since the Unix epoch.
    pub timestamp: u64,
}

/// What was found where the history is kept.
pub enum Stored {
    /// Nothing is kept there yet.
    Absent,
    /// Something is kept there that is no list of snapshots.
    Malformed,
    /// The snapshots in the order in which they are kept.
    Parsed(Vec<Snapshot>),
}

/// The snapshot at `at` is the newest: none has a later timestamp, and none
/// that is kept after it has the same.
pub open spec fn is_latest(history: Seq<Snapshot>, at: int) -> bool {
    &&& 0 <= at < history.len()
    &&& forall|j: int| 0 <= j < history.len() ==> history[j].timestamp <= history[at].timestamp
    &&& forall|j: int| at < j < history.len() ==> history[j].timestamp < history[at].timestamp
}

/// The newest snapshot of a history, if it holds any.
pub open spec fn latest_of(history: Seq<Snapshot>) -> Option<Snapshot> {
    if exists|at: int| is_latest(history, at) {
        Some(history[choose|at: int| is_latest(history, at)])
    } else {
        None
    }
}

/// Only one place of a history can hold its newest snapshot.
pub proof fn lemma_latest_unique(history: Seq<Snapshot>, at: int)
    requires
        is_latest(history, at),
    ensures
        latest_of(history) == Some(history[at]),
{
    let chosen = choose|c: int| is_latest(history, c);
    if chosen < at {
        assert(history[at].timestamp < history[chosen].timestamp);
    }
    if at < chosen {
        assert(history[chosen].timestamp < history[at].timestamp);
    }
}

/// The place of the newest snapshot among the first `limit`.
proof fn lemma_latest_exists(history: Seq<Snapshot>, limit: int) -> (at: int)
    requires
        0 < limit <= history.len(),
    ensures
        0 <= at < limit,
        forall|j: int| 0 <= j < limit ==> history[j].timestamp <= history[at].timestamp,
        forall|j: int| at < j < limit ==> history[j].timestamp < history[at].timestamp,
    decreases limit,
{
    if limit == 1 {
        0
    } else {
        let before = lemma_latest_exists(history, limit - 1);
        if history[limit - 1].timestamp >= history[before].timestamp {
            limit - 1
        } else {
            before
        }
    }
}

/// A history has a newest snapshot exactly when it is not empty. The newest
/// is one of its snapshots, and no snapshot of the history is newer.
pub proof fn lemma_latest_is_newest(history: Seq<Snapshot>)
    ensures
        latest_of(history) is None <==> history.len() == 0,
        latest_of(history) matches Some(newest) ==> history.contains(newest) && forall|j: int|
            0 <= j < history.len() ==> history[j].timestamp <= newest.timestamp,
{
    if history.len() > 0 {
        let at = lemma_latest_exists(history, history.len() as int);
        assert(is_latest(history, at));
        lemma_latest_unique(history, at);
    }
}

/// Writing a snapshot that is at least as new as all that are kept makes it
/// the newest: it is what `latest` then returns, with the outputs and the
/// timestamp it was written with.
pub proof fn lemma_written_is_latest(history: Seq<Snapshot>, snapshot: Snapshot)
    requires
        forall|j: int| 0 <= j < history.len() ==> history[j].timestamp <= snapshot.timestamp,
    ensures
        latest_of(history.push(snapshot)) == Some(snapshot),
{
    let written = history.push(snapshot);
    assert(is_latest(written, history.len() as int));
    lemma_latest_unique(written, history.len() as int);
}

/// Of two snapshots taken at different times the later one is the newest,
/// whichever of them is kept first.
pub proof fn lemma_latest_of_two(first: Snapshot, second: Snapshot)
    requires
        first.timestamp != second.timestamp,
    ensures
        latest_of(seq![first, second]) == Some(
            if first.timestamp > second.timestamp {
                first
            } else {
                second
            },
        ),
{
    let history = seq![first, second];
    if first.timestamp > second.timestamp {
        assert(is_latest(history, 0));
        lemma_latest_unique(history, 0);
    } else {
        assert(is_latest(history, 1));
        lemma_latest_unique(history, 1);
    }
}

/// Asks `std::time::SystemTime::elapsed` how long ago the Unix epoch was and
/// keeps the whole seconds, or `None` where the clock stands before the
/// epoch. Nothing is claimed of the answer: it is the clock's.
#[verifier::external_body]
fn seconds_since_epoch() -> (seconds: Option<u64>) {
    match std::time::UNIX_EPOCH.elapsed() {
        Ok(elapsed) => Some(elapsed.as_secs()),
        Err(_) => None,
    }
}

impl Snapshot {
    /// The endpoint names of the verdicts, in order.
    pub open spec fn names(self) -> Seq<Seq<char>> {
        Seq::new(self.outputs@.len(), |i: int| self.outputs@[i].config.endpoint_name@)
    }

    /// The verdict on the endpoint called `name`: the first one, should
    /// several carry the name.
    pub open spec fn named(self, name: Seq<char>) -> Option<Test> {
        match first_named(self.names(), name) {
            Some(at) => Some(self.outputs@[at]),
            None => None,
        }
    }

    /// Looks up the verdict on an endpoint by the endpoint's name.
    pub fn find(&self, name: &String) -> (found: Option<&Test>)
        ensures
            match found {
                Some(test) => self.named(name@) == Some(*test),
                None => self.named(name@) is None,
            },
    {
        let mut i: usize = 0;
        while i < self.outputs.len()
            invariant
                i <= self.outputs@.len(),
                forall|j: int| 0 <= j < i ==> self.names()[j] != name@,
            decreases self.outputs@.len() - i,
        {
            if self.outputs[i].config.endpoint_name == *name {
                proof {
                    assert(is_first(self.names(), name@, i as int));
                    lemma_first_named(self.names(), name@);
                }
                return Some(&self.outputs[i]);
            }
            i += 1;
        }
        proof {
            lemma_first_named(self.names(), name@);
        }
        None
    }

    /// The snapshot of `outputs` for a clock reading: taken at that second,
    /// or refused where the clock gave none.
    pub fn stamped(outputs: Vec<Test>, seconds: Option<u64>) -> (snapshot: Result<Snapshot, Error>)
        ensures
            match seconds {
                Some(timestamp) => snapshot == Ok::<Snapshot, Error>(
                    (Snapshot { outputs, timestamp }),
                ),
                None => snapshot == Err::<Snapshot, Error>(Error::Timestamp),
            },
    {
        match seconds {
            Some(timestamp) => Ok(Snapshot { outputs, timestamp }),
            None => Err(Error::Timestamp),
        }
    }

    /// The snapshot of `outputs`, taken now. What the clock says is not
    /// known beforehand; whatever it says, the outputs are kept as they are,
    /// and the only failure is a clock without a time.
    pub fn new(outputs: Vec<Test>) -> (snapshot: Result<Snapshot, Error>)
        ensures
            match snapshot {
                Ok(snapshot) => snapshot.outputs == outputs,
                Err(error) => error == Error::Timestamp,
            },
    {
        Snapshot::stamped(outputs, seconds_since_epoch())
    }

    /// The history that was found: empty where nothing is kept yet, refused
    /// where what is kept cannot be read, else as it is kept.
    pub fn read(stored: Stored) -> (history: Result<Vec<Snapshot>, Error>)
        ensures
            match stored {
                Stored::Absent => history matches Ok(snapshots) && snapshots@.len() == 0,
                Stored::Malformed => history == Err::<Vec<Snapshot>, Error>(
                    Error::MalformedHistory,
                ),
                Stored::Parsed(snapshots) => history == Ok::<Vec<Snapshot>, Error>(snapshots),
            },
    {
        match stored {
            Stored::Absent => Ok(Vec::new()),
            Stored::Malformed => Err(Error::MalformedHistory),
            Stored::Parsed(snapshots) => Ok(snapshots),
        }
    }

    /// Adds this snapshot to a history as its last element. Nothing that the
    /// history held is changed or dropped.
    pub fn write(self, history: &mut Vec<Snapshot>)
        ensures
            final(history)@ == old(history)@.push(self),
    {
        history.push(self);
    }

    /// The newest snapshot of a history: the one with the greatest timestamp,
    /// wherever it is kept, and of several with that timestamp the one kept
    /// last. An empty history has none.
    pub fn latest(history: Vec<Snapshot>) -> (newest: Option<Snapshot>)
        ensures
            newest == latest_of(history@),
            newest is None <==> history@.len() == 0,
    {
        let mut history = history;
        let ghost kept = history@;
        if history.len() == 0 {
            return None;
        }
        let mut best: usize = 0;
        let mut i: usize = 1;
        while i < history.len()
            invariant
                history@ == kept,
                0 <= best < i <= history@.len(),
                forall|j: int| 0 <= j < i ==> history@[j].timestamp <= history@[best as int].timestamp,
                forall|j: int| best < j < i ==> history@[j].timestamp < history@[best as int].timestamp,
            decreases history@.len() - i,
        {
            if history[i].timestamp >= history[best].timestamp {
                best = i;
            }
            i += 1;
        }
        proof {
            assert(is_latest(kept, best as int));
            lemma_latest_unique(kept, best as int);
        }
        Some(history.swap_remove(best))
    }
}

} // verus!
