//! Monitored targets: what a target is, when it is stale, and how a finished
//! fetch changes it.

use crate::parse::ParseError;
use crate::series::{datasets_view, DataSet, DataSetView};
use crate::text::chars_of;
use vstd::prelude::*;

verus! {

/// Nanoseconds in a second. Clock readings are nanoseconds on a clock that
/// never runs backwards; intervals are whole seconds.
pub const NANOS_PER_SEC: u64 = 1_000_000_000;

/// Seconds between two refreshes of a target that names no interval.
pub fn default_interval() -> (secs: u64)
    ensures
        secs == 600,
{
    600
}

/// The terminal program that is used where none is configured.
pub fn default_terminal() -> (name: String)
    ensures
        name@ == "st"@,
{
    "st".to_owned()
}

/// The kind of job behind a target. It selects the parser and the files that
/// a refresh fetches.
#[derive(Clone, Copy, Debug, PartialEq, Eq, Structural)]
pub enum ProjectType {
    Semp,
    Pbqff,
}

/// The kind that a name stands for, if any.
pub open spec fn type_named(name: Seq<char>) -> Option<ProjectType> {
    if name == "semp"@ {
        Some(ProjectType::Semp)
    } else if name == "pbqff"@ {
        Some(ProjectType::Pbqff)
    } else {
        None
    }
}

/// Whether two strings hold the same characters.
pub fn same_text(a: &str, b: &str) -> (same: bool)
    ensures
        same == (a@ == b@),
{
    let x = chars_of(a);
    let y = chars_of(b);
    if x.len() != y.len() {
        return false;
    }
    let mut i: usize = 0;
    while i < x.len()
        invariant
            i <= x@.len(),
            x@.len() == y@.len(),
            x@ == a@,
            y@ == b@,
            forall|k: int| 0 <= k < i ==> x@[k] == y@[k],
        decreases x@.len() - i,
    {
        if x[i] != y[i] {
            return false;
        }
        i += 1;
    }
    assert(x@ =~= y@);
    true
}

impl ProjectType {
    /// The kind named `semp` or `pbqff`; no other name stands for a kind.
    pub fn from_name(name: &str) -> (typ: Option<ProjectType>)
        ensures
            typ == type_named(name@),
    {
        if same_text(name, "semp") {
            Some(ProjectType::Semp)
        } else if same_text(name, "pbqff") {
            Some(ProjectType::Pbqff)
        } else {
            None
        }
    }
}

/// A point in wall-clock time: whole seconds since the start of 1970 in
/// universal time, and the nanoseconds past them.
#[derive(Clone, Copy, Debug, PartialEq, Eq, Structural)]
pub struct Timestamp {
    pub secs: i64,
    pub nanos: u32,
}

impl Default for Timestamp {
    /// The start of 1970.
    fn default() -> (t: Timestamp)
        ensures
            t == (Timestamp { secs: 0, nanos: 0 }),
    {
        Timestamp { secs: 0, nanos: 0 }
    }
}

/// Why a refresh gave no new series.
#[derive(Clone, Copy, Debug, PartialEq, Eq, Structural)]
pub enum FetchError {
    /// The remote copy failed or left no readable file.
    Transport,
    /// The local copy or its modification time could not be read.
    Io,
    /// The text does not follow the format of the target's kind.
    Parse(ParseError),
}

/// What one finished fetch gives: the series, and when the remote file was
/// last modified.
#[derive(Debug)]
pub struct Fetch {
    pub last_modified: Timestamp,
    pub data: Vec<DataSet>,
}

/// What a `Fetch` stands for.
pub struct FetchView {
    pub last_modified: Timestamp,
    pub data: Seq<DataSetView>,
}

impl View for Fetch {
    type V = FetchView;

    open spec fn view(&self) -> FetchView {
        FetchView { last_modified: self.last_modified, data: datasets_view(self.data@) }
    }
}

/// Nanoseconds that passed from clock reading `since` to `now`; none if
/// `now` is the earlier one.
pub open spec fn elapsed(since: u64, now: u64) -> int {
    if now >= since {
        now - since
    } else {
        0
    }
}

/// A monitored job.
#[derive(Debug)]
pub struct Project {
    /// Identifies the target for as long as it is monitored.
    pub id: u64,
    pub name: String,
    pub host: String,
    pub path: String,
    pub typ: ProjectType,
    /// Clock reading at which the last refresh was requested.
    pub last_updated: u64,
    /// Seconds after which the target is refreshed again.
    pub update_interval: u64,
    pub data: Vec<DataSet>,
    /// When the remote file was last modified, as of the last finished fetch.
    pub last_modified: Timestamp,
}

/// The targets and options that a configuration gives.
#[derive(Debug)]
pub struct Config {
    pub projects: Vec<Project>,
    pub terminal: String,
}

impl Project {
    /// Stale at `now`: more time than the interval has passed since the last
    /// request.
    pub open spec fn stale_at(self, now: u64) -> bool {
        elapsed(self.last_updated, now) > self.update_interval * NANOS_PER_SEC
    }

    /// The target once a refresh was requested at `now`. The timestamp never
    /// moves back.
    pub open spec fn requested_at(self, now: u64) -> Project {
        Project {
            last_updated: if now > self.last_updated {
                now
            } else {
                self.last_updated
            },
            ..self
        }
    }

    /// The target once a finished fetch was taken in: series and modification
    /// time are replaced, nothing else changes.
    pub open spec fn updated_with(self, data: Vec<DataSet>, last_modified: Timestamp) -> Project {
        Project { data, last_modified, ..self }
    }

    /// A target that was just requested at `now`, with the default interval,
    /// no series yet, and the start of 1970 as modification time. Its
    /// identifier is zero until a coordinator takes it in.
    pub fn new(name: String, host: String, path: String, typ: ProjectType, now: u64) -> (p:
        Project)
        ensures
            p.id == 0,
            p.name == name,
            p.host == host,
            p.path == path,
            p.typ == typ,
            p.last_updated == now,
            p.update_interval == 600,
            p.data@ == Seq::<DataSet>::empty(),
            p.last_modified == (Timestamp { secs: 0, nanos: 0 }),
    {
        Project {
            id: 0,
            name,
            host,
            path,
            typ,
            last_updated: now,
            update_interval: default_interval(),
            data: Vec::new(),
            last_modified: Timestamp::default(),
        }
    }

    /// Whether the target is stale at `now`.
    pub fn needs_update(&self, now: u64) -> (stale: bool)
        ensures
            stale == self.stale_at(now),
    {
        if now >= self.last_updated {
            let passed: u128 = (now - self.last_updated) as u128;
            let interval: u128 = self.update_interval as u128;
            assert(interval * 1_000_000_000 <= u64::MAX * 1_000_000_000) by (nonlinear_arith)
                requires
                    interval <= u64::MAX,
            ;
            passed > interval * 1_000_000_000
        } else {
            false
        }
    }

    /// Records that a refresh was requested at `now`.
    pub fn mark_requested(&mut self, now: u64)
        ensures
            *final(self) == old(self).requested_at(now),
            final(self).last_updated >= old(self).last_updated,
            final(self).last_updated >= now,
    {
        if now > self.last_updated {
            self.last_updated = now;
        }
    }

    /// Takes in what a fetch gave: a finished fetch replaces the series and
    /// the modification time, a failed one changes nothing. Says which.
    pub fn update(&mut self, fetched: Result<Fetch, FetchError>) -> (r: Result<(), FetchError>)
        ensures
            match fetched {
                Ok(f) => r is Ok && *final(self) == old(self).updated_with(
                    f.data,
                    f.last_modified,
                ),
                Err(e) => r == Err::<(), FetchError>(e) && *final(self) == *old(self),
            },
    {
        match fetched {
            Ok(f) => {
                self.data = f.data;
                self.last_modified = f.last_modified;
                Ok(())
            },
            Err(e) => Err(e),
        }
    }
}

/// After a request at `now`, a target is not stale again until more than its
/// interval has passed: not at any reading up to a full interval later, and
/// so not at `now` itself.
pub proof fn lemma_fresh_within_interval(p: Project, now: u64, later: u64)
    requires
        later <= p.requested_at(now).last_updated + p.update_interval * NANOS_PER_SEC,
    ensures
        !p.requested_at(now).stale_at(later),
        !p.requested_at(now).stale_at(now),
{
    assert(p.update_interval * NANOS_PER_SEC >= 0) by (nonlinear_arith)
        requires
            p.update_interval >= 0,
            NANOS_PER_SEC == 1_000_000_000,
    ;
}

/// A target turns stale only once the clock has passed its last request, so
/// marking a stale target moves its timestamp strictly forward.
pub proof fn lemma_stale_is_later(p: Project, now: u64)
    requires
        p.stale_at(now),
    ensures
        now > p.last_updated,
        p.requested_at(now).last_updated == now,
{
}

} // verus!
