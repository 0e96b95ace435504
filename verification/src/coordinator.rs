//! The coordinator: it owns the targets, asks for a refresh of each stale
//! target once, takes in what the worker sends back, and removes targets only
//! between scans.

use crate::project::{
    default_interval, lemma_fresh_within_interval, lemma_stale_is_later, Config, FetchError,
    Project, ProjectType, Timestamp, NANOS_PER_SEC,
};
use crate::series::DataSet;
use vstd::prelude::*;

verus! {

/// A refresh that the worker is asked for: which target, where to put the
/// fetched files, and the target's host, path and kind as they were when the
/// request was made.
#[derive(Debug)]
pub struct Request {
    pub id: u64,
    pub temp: String,
    pub host: String,
    pub path: String,
    pub typ: ProjectType,
}

/// What the worker sends back for a request that succeeded.
#[derive(Debug)]
pub struct RefreshResult {
    pub id: u64,
    pub data: Vec<DataSet>,
    pub last_modified: Timestamp,
}

/// The request for a refresh of `p`, with `temp` as scratch directory.
pub open spec fn request_of(p: Project, temp: String) -> Request {
    Request { id: p.id, temp, host: p.host, path: p.path, typ: p.typ }
}

/// The identifiers grow along the list, so no two targets share one.
pub open spec fn ids_ascend(ps: Seq<Project>) -> bool {
    forall|i: int, j: int| 0 <= i < j < ps.len() ==> ps[i].id < ps[j].id
}

/// The targets after a scan at `now`: each stale one is marked as requested,
/// the others are as before.
pub open spec fn scanned(ps: Seq<Project>, now: u64) -> Seq<Project> {
    Seq::new(
        ps.len(),
        |k: int|
            if ps[k].stale_at(now) {
                ps[k].requested_at(now)
            } else {
                ps[k]
            },
    )
}

/// The requests that a scan at `now` makes for the first `n` targets: one for
/// each stale target, in the order of the targets.
pub open spec fn due(ps: Seq<Project>, temp: String, now: u64, n: int) -> Seq<Request>
    decreases n,
{
    if n <= 0 {
        Seq::empty()
    } else {
        let before = due(ps, temp, now, n - 1);
        if ps[n - 1].stale_at(now) {
            before.push(request_of(ps[n - 1].requested_at(now), temp))
        } else {
            before
        }
    }
}

/// The targets once a result was taken in: the target that the result names
/// has its series and modification time replaced.
pub open spec fn applied(ps: Seq<Project>, r: RefreshResult) -> Seq<Project> {
    Seq::new(
        ps.len(),
        |k: int|
            if ps[k].id == r.id {
                ps[k].updated_with(r.data, r.last_modified)
            } else {
                ps[k]
            },
    )
}

/// The targets once the outcome of a request was taken in: a result is
/// applied, a failure changes nothing.
pub open spec fn settled_one(ps: Seq<Project>, outcome: Result<RefreshResult, FetchError>) -> Seq<
    Project,
> {
    match outcome {
        Ok(r) => applied(ps, r),
        Err(_) => ps,
    }
}

/// The targets once the first `n` outcomes were taken in, in their order.
pub open spec fn settled(
    ps: Seq<Project>,
    outcomes: Seq<Result<RefreshResult, FetchError>>,
    n: int,
) -> Seq<Project>
    decreases n,
{
    if n <= 0 {
        ps
    } else {
        settled_one(settled(ps, outcomes, n - 1), outcomes[n - 1])
    }
}

/// Whether a target has the identifier `id`.
pub open spec fn has_id(ps: Seq<Project>, id: u64) -> bool {
    exists|k: int| 0 <= k < ps.len() && (#[trigger] ps[k]).id == id
}

/// The targets from index `from` on whose index is not among `doomed`, in
/// their order.
pub open spec fn kept_from(ps: Seq<Project>, doomed: Seq<usize>, from: int) -> Seq<Project>
    decreases ps.len() - from,
{
    if from < 0 || from >= ps.len() {
        Seq::empty()
    } else if doomed.contains(from as usize) {
        kept_from(ps, doomed, from + 1)
    } else {
        seq![ps[from]] + kept_from(ps, doomed, from + 1)
    }
}

/// The targets that stay when those at the indices `doomed` leave.
pub open spec fn survivors(ps: Seq<Project>, doomed: Seq<usize>) -> Seq<Project> {
    kept_from(ps, doomed, 0)
}

/// `secs` is the shortest interval of the targets, or the default interval
/// where there is no target.
pub open spec fn is_min_timeout(ps: Seq<Project>, secs: u64) -> bool {
    &&& ps.len() == 0 ==> secs == 600
    &&& forall|k: int| 0 <= k < ps.len() ==> secs <= (#[trigger] ps[k]).update_interval
    &&& ps.len() > 0 ==> exists|k: int|
        0 <= k < ps.len() && secs == (#[trigger] ps[k]).update_interval
}

/// What one tick asks of its caller: the requests to send to the worker, and
/// the seconds after which the next tick is due at the latest.
#[derive(Debug)]
pub struct Tick {
    pub requests: Vec<Request>,
    pub wake_after: u64,
}

/// The coordinator: the owner of the targets and of the removals that are
/// still to come.
#[derive(Debug)]
pub struct MyApp {
    /// Scratch directory that every request names.
    pub temp: String,
    pub config: Config,
    /// Indices of the targets that leave at the next removal.
    pub to_delete: Vec<usize>,
    /// The identifier that the next new target gets.
    pub next_id: u64,
}

impl MyApp {
    /// The targets, in order.
    pub open spec fn projects(&self) -> Seq<Project> {
        self.config.projects@
    }

    /// Identifiers ascend and lie below the next one to be given out.
    pub open spec fn wf(&self) -> bool {
        &&& ids_ascend(self.projects())
        &&& forall|i: int| 0 <= i < self.projects().len() ==> self.projects()[i].id < self.next_id
    }

    /// A coordinator for the configured targets, which get the identifiers
    /// zero, one and so on in their order.
    pub fn new(temp: String, config: Config) -> (c: MyApp)
        ensures
            c.wf(),
            c.temp == temp,
            c.config.terminal == config.terminal,
            c.to_delete@.len() == 0,
            c.next_id == config.projects@.len(),
            c.projects().len() == config.projects@.len(),
            forall|k: int|
                0 <= k < c.projects().len() ==> #[trigger] c.projects()[k] == (Project {
                    id: k as u64,
                    ..config.projects@[k]
                }),
    {
        let ghost given = config.projects@;
        let ghost terminal = config.terminal;
        let mut config = config;
        let n = config.projects.len();
        let mut i: usize = 0;
        while i < n
            invariant
                i <= n,
                n == given.len(),
                config.terminal == terminal,
                config.projects@.len() == n,
                forall|k: int|
                    0 <= k < i ==> #[trigger] config.projects@[k] == (Project {
                        id: k as u64,
                        ..given[k]
                    }),
                forall|k: int| i <= k < n ==> #[trigger] config.projects@[k] == given[k],
            decreases n - i,
        {
            let p = &mut config.projects[i];
            p.id = i as u64;
            i += 1;
        }
        MyApp { temp, config, to_delete: Vec::new(), next_id: n as u64 }
    }

    /// Whether the coordinator is well formed. Callers that reach into the
    /// fields can test with this what the other methods take for granted.
    pub fn is_valid(&self) -> (ok: bool)
        ensures
            ok == self.wf(),
    {
        let n = self.config.projects.len();
        let mut i: usize = 0;
        while i < n
            invariant
                i <= n,
                n == self.projects().len(),
                forall|a: int, b: int|
                    0 <= a < b < i ==> self.projects()[a].id < self.projects()[b].id,
                forall|k: int| 0 <= k < i ==> self.projects()[k].id < self.next_id,
            decreases n - i,
        {
            if self.config.projects[i].id >= self.next_id {
                return false;
            }
            if i > 0 && self.config.projects[i - 1].id >= self.config.projects[i].id {
                return false;
            }
            i += 1;
        }
        true
    }

    /// Requests a refresh of the target at `idx`, stale or not, and marks it
    /// as requested at `now`. Without such a target nothing happens.
    pub fn request_update(&mut self, idx: usize, now: u64) -> (request: Option<Request>)
        requires
            old(self).wf(),
        ensures
            final(self).wf(),
            final(self).temp == old(self).temp,
            final(self).to_delete == old(self).to_delete,
            final(self).next_id == old(self).next_id,
            final(self).config.terminal == old(self).config.terminal,
            idx >= old(self).projects().len() ==> request is None && final(self).projects() == old(
                self,
            ).projects(),
            idx < old(self).projects().len() ==> final(self).projects() == old(
                self,
            ).projects().update(idx as int, old(self).projects()[idx as int].requested_at(now))
                && request == Some(request_of(final(self).projects()[idx as int], old(self).temp))
                && final(self).projects()[idx as int].last_updated >= old(
                self,
            ).projects()[idx as int].last_updated && final(self).projects()[idx as int].last_updated
                >= now,
    {
        if idx >= self.config.projects.len() {
            return None;
        }
        let p = &mut self.config.projects[idx];
        p.mark_requested(now);
        let request = Request {
            id: p.id,
            temp: self.temp.clone(),
            host: p.host.clone(),
            path: p.path.clone(),
            typ: p.typ,
        };
        Some(request)
    }

    /// Takes a new target in at the end of the list and gives it the next
    /// identifier, which is returned. Nothing happens once the identifiers
    /// have run out.
    pub fn add_project(&mut self, project: Project) -> (id: Option<u64>)
        requires
            old(self).wf(),
        ensures
            final(self).wf(),
            final(self).temp == old(self).temp,
            final(self).to_delete == old(self).to_delete,
            final(self).config.terminal == old(self).config.terminal,
            old(self).next_id == u64::MAX ==> id is None && final(self).projects() == old(
                self,
            ).projects() && final(self).next_id == old(self).next_id,
            old(self).next_id < u64::MAX ==> id == Some(old(self).next_id) && final(self).next_id
                == old(self).next_id + 1 && final(self).projects() == old(self).projects().push(
                Project { id: old(self).next_id, ..project },
            ),
    {
        if self.next_id == u64::MAX {
            return None;
        }
        let id = self.next_id;
        let mut project = project;
        project.id = id;
        self.config.projects.push(project);
        self.next_id = id + 1;
        Some(id)
    }

    /// Asks for a refresh of every target that is stale at `now`, in the
    /// order of the targets, and marks each of them as requested at `now`, so
    /// that no target is stale at `now` afterwards.
    pub fn scan(&mut self, now: u64) -> (requests: Vec<Request>)
        requires
            old(self).wf(),
        ensures
            final(self).wf(),
            final(self).temp == old(self).temp,
            final(self).to_delete == old(self).to_delete,
            final(self).next_id == old(self).next_id,
            final(self).config.terminal == old(self).config.terminal,
            final(self).projects() == scanned(old(self).projects(), now),
            requests@ == due(
                old(self).projects(),
                old(self).temp,
                now,
                old(self).projects().len() as int,
            ),
            forall|k: int|
                0 <= k < final(self).projects().len()
                    ==> !(#[trigger] final(self).projects()[k]).stale_at(now),
            forall|k: int|
                0 <= k < final(self).projects().len()
                    ==> (#[trigger] final(self).projects()[k]).last_updated >= old(
                    self,
                ).projects()[k].last_updated,
    {
        let mut requests: Vec<Request> = Vec::new();
        let n = self.config.projects.len();
        let mut i: usize = 0;
        while i < n
            invariant
                i <= n,
                n == old(self).projects().len(),
                self.projects().len() == n,
                self.wf(),
                self.temp == old(self).temp,
                self.to_delete == old(self).to_delete,
                self.next_id == old(self).next_id,
                self.config.terminal == old(self).config.terminal,
                forall|k: int|
                    0 <= k < i ==> #[trigger] self.projects()[k] == scanned(
                        old(self).projects(),
                        now,
                    )[k],
                forall|k: int|
                    i <= k < n ==> #[trigger] self.projects()[k] == old(self).projects()[k],
                requests@ == due(old(self).projects(), old(self).temp, now, i as int),
            decreases n - i,
        {
            if self.config.projects[i].needs_update(now) {
                match self.request_update(i, now) {
                    Some(request) => {
                        requests.push(request);
                    },
                    None => {},
                }
            }
            i += 1;
        }
        assert(self.projects() =~= scanned(old(self).projects(), now));
        requests
    }

    /// Notes the index `idx` for the next removal. Every index is noted, and
    /// no target changes or moves before the removal; an index that names no
    /// target when the removal comes is passed over there.
    pub fn request_removal(&mut self, idx: usize)
        ensures
            final(self).to_delete@ == old(self).to_delete@.push(idx),
            final(self).config == old(self).config,
            final(self).temp == old(self).temp,
            final(self).next_id == old(self).next_id,
            final(self).wf() == old(self).wf(),
    {
        self.to_delete.push(idx);
    }

    /// The shortest refresh interval of all targets, in seconds, or the
    /// default interval where there is no target.
    pub fn min_timeout(&self) -> (secs: u64)
        ensures
            is_min_timeout(self.projects(), secs),
    {
        if self.config.projects.len() == 0 {
            return default_interval();
        }
        let mut secs: u64 = self.config.projects[0].update_interval;
        let mut i: usize = 1;
        while i < self.config.projects.len()
            invariant
                1 <= i <= self.projects().len(),
                forall|k: int|
                    0 <= k < i ==> secs <= (#[trigger] self.projects()[k]).update_interval,
                exists|k: int|
                    0 <= k < i && secs == (#[trigger] self.projects()[k]).update_interval,
            decreases self.projects().len() - i,
        {
            if self.config.projects[i].update_interval < secs {
                secs = self.config.projects[i].update_interval;
            }
            i += 1;
        }
        secs
    }

    /// Where the first target with the identifier `id` stands in the list.
    pub fn position(&self, id: u64) -> (at: Option<usize>)
        ensures
            match at {
                Some(k) => k < self.projects().len() && self.projects()[k as int].id == id
                    && forall|j: int| 0 <= j < k ==> (#[trigger] self.projects()[j]).id != id,
                None => !has_id(self.projects(), id),
            },
    {
        let mut i: usize = 0;
        while i < self.config.projects.len()
            invariant
                i <= self.projects().len(),
                forall|k: int| 0 <= k < i ==> (#[trigger] self.projects()[k]).id != id,
            decreases self.projects().len() - i,
        {
            if self.config.projects[i].id == id {
                return Some(i);
            }
            i += 1;
        }
        None
    }

    /// Takes in a result: the target that it names gets the new series and
    /// modification time, whatever index it has by now. A result for a target
    /// that has left is dropped. Says whether a target took it.
    pub fn apply(&mut self, result: RefreshResult) -> (taken: bool)
        requires
            old(self).wf(),
        ensures
            final(self).wf(),
            final(self).temp == old(self).temp,
            final(self).to_delete == old(self).to_delete,
            final(self).next_id == old(self).next_id,
            final(self).config.terminal == old(self).config.terminal,
            final(self).projects() == applied(old(self).projects(), result),
            taken == has_id(old(self).projects(), result.id),
    {
        match self.position(result.id) {
            Some(k) => {
                let p = &mut self.config.projects[k];
                p.data = result.data;
                p.last_modified = result.last_modified;
                assert(self.projects() =~= applied(old(self).projects(), result));
                true
            },
            None => {
                assert(self.projects() =~= applied(old(self).projects(), result));
                false
            },
        }
    }

    /// Takes in the outcome of a request. A failure leaves every target as it
    /// was; a result is applied. Says whether a target changed hands.
    pub fn settle(&mut self, outcome: Result<RefreshResult, FetchError>) -> (taken: bool)
        requires
            old(self).wf(),
        ensures
            final(self).wf(),
            final(self).temp == old(self).temp,
            final(self).to_delete == old(self).to_delete,
            final(self).next_id == old(self).next_id,
            final(self).config.terminal == old(self).config.terminal,
            final(self).projects() == settled_one(old(self).projects(), outcome),
            outcome is Err ==> !taken && *final(self) == *old(self),
            outcome is Ok ==> taken == has_id(old(self).projects(), outcome->Ok_0.id),
    {
        match outcome {
            Ok(result) => self.apply(result),
            Err(_) => false,
        }
    }

    /// Whether the target at `idx` is to leave at the next removal.
    pub fn pending(&self, idx: usize) -> (b: bool)
        ensures
            b == self.to_delete@.contains(idx),
    {
        let mut i: usize = 0;
        while i < self.to_delete.len()
            invariant
                i <= self.to_delete@.len(),
                forall|k: int| 0 <= k < i ==> self.to_delete@[k] != idx,
            decreases self.to_delete@.len() - i,
        {
            if self.to_delete[i] == idx {
                return true;
            }
            i += 1;
        }
        false
    }

    /// Removes the targets that were noted for removal, from the highest
    /// index down, so that no removal moves a target that is still to leave.
    /// The targets that stay keep their order.
    pub fn do_removal(&mut self)
        requires
            old(self).wf(),
        ensures
            final(self).wf(),
            final(self).temp == old(self).temp,
            final(self).next_id == old(self).next_id,
            final(self).config.terminal == old(self).config.terminal,
            final(self).to_delete@.len() == 0,
            final(self).projects() == survivors(old(self).projects(), old(self).to_delete@),
    {
        let ghost before = self.projects();
        let ghost doomed = self.to_delete@;
        let mut i: usize = self.config.projects.len();
        assert(before.take(i as int) + kept_from(before, doomed, i as int) =~= before);
        while i > 0
            invariant
                i <= before.len(),
                before == old(self).projects(),
                doomed == old(self).to_delete@,
                self.to_delete@ == doomed,
                self.temp == old(self).temp,
                self.next_id == old(self).next_id,
                self.config.terminal == old(self).config.terminal,
                self.projects() == before.take(i as int) + kept_from(before, doomed, i as int),
                ids_ascend(self.projects()),
                forall|k: int|
                    0 <= k < self.projects().len() ==> (#[trigger] self.projects()[k]).id
                        < self.next_id,
            decreases i,
        {
            i -= 1;
            let ghost current = self.projects();
            if self.pending(i) {
                self.config.projects.remove(i);
                assert(self.projects() =~= before.take(i as int) + kept_from(
                    before,
                    doomed,
                    i as int,
                ));
                assert forall|a: int, b: int|
                    0 <= a < b < self.projects().len() implies self.projects()[a].id
                    < self.projects()[b].id by {
                    let a0 = if a < i { a } else { a + 1 };
                    let b0 = if b < i { b } else { b + 1 };
                    assert(self.projects()[a] == current[a0]);
                    assert(self.projects()[b] == current[b0]);
                }
                assert forall|k: int| 0 <= k < self.projects().len() implies (
                #[trigger] self.projects()[k]).id < self.next_id by {
                    let k0 = if k < i { k } else { k + 1 };
                    assert(self.projects()[k] == current[k0]);
                }
            } else {
                assert(before.take(i + 1) + kept_from(before, doomed, i + 1) =~= before.take(
                    i as int,
                ) + (seq![before[i as int]] + kept_from(before, doomed, i + 1)));
            }
        }
        self.to_delete.clear();
        assert(before.take(0) + kept_from(before, doomed, 0) =~= kept_from(before, doomed, 0));
    }

    /// One tick at clock reading `now`. It asks for a refresh of every stale
    /// target, takes in the outcomes that have arrived, in their order, then
    /// removes the targets noted for removal, and says how long the next tick
    /// may wait: the shortest interval of the targets that are left.
    pub fn update(&mut self, now: u64, arrived: Vec<Result<RefreshResult, FetchError>>) -> (plan:
        Tick)
        requires
            old(self).wf(),
        ensures
            final(self).wf(),
            final(self).temp == old(self).temp,
            final(self).next_id == old(self).next_id,
            final(self).config.terminal == old(self).config.terminal,
            final(self).to_delete@.len() == 0,
            plan.requests@ == due(
                old(self).projects(),
                old(self).temp,
                now,
                old(self).projects().len() as int,
            ),
            final(self).projects() == survivors(
                settled(scanned(old(self).projects(), now), arrived@, arrived@.len() as int),
                old(self).to_delete@,
            ),
            is_min_timeout(final(self).projects(), plan.wake_after),
            forall|k: int|
                0 <= k < final(self).projects().len()
                    ==> !(#[trigger] final(self).projects()[k]).stale_at(now),
    {
        let requests = self.scan(now);
        let ghost marked = self.projects();
        let ghost outcomes = arrived@;
        for outcome in it: arrived
            invariant
                self.wf(),
                self.temp == old(self).temp,
                self.next_id == old(self).next_id,
                self.config.terminal == old(self).config.terminal,
                self.to_delete == old(self).to_delete,
                it.seq() == outcomes,
                self.projects().len() == marked.len(),
                self.projects() == settled(marked, outcomes, it.index() as int),
        {
            self.settle(outcome);
        }
        let ghost taken_in = self.projects();
        proof {
            lemma_settling_keeps_schedule(marked, outcomes, outcomes.len() as int);
        }
        self.do_removal();
        proof {
            lemma_kept_were_there(taken_in, old(self).to_delete@, 0);
        }
        let wake_after = self.min_timeout();
        Tick { requests, wake_after }
    }
}

/// A scan leaves nothing for a second scan at the same clock reading: no
/// target is stale, so no request is made and no target changes.
pub proof fn lemma_rescan_is_idle(ps: Seq<Project>, temp: String, now: u64, n: int)
    requires
        n <= ps.len(),
    ensures
        due(scanned(ps, now), temp, now, n).len() == 0,
        scanned(scanned(ps, now), now) == scanned(ps, now),
    decreases n,
{
    assert forall|k: int| 0 <= k < ps.len() implies !(#[trigger] scanned(ps, now)[k]).stale_at(
        now,
    ) by {
        if ps[k].stale_at(now) {
            lemma_fresh_within_interval(ps[k], now, now);
        }
    }
    if n > 0 {
        lemma_rescan_is_idle(ps, temp, now, n - 1);
    }
    assert(scanned(scanned(ps, now), now) =~= scanned(ps, now));
}

/// A scan makes at most one request for a target, and until the target's
/// interval has passed since `now` no later scan makes another: a target that
/// a scan at `now` has dealt with is not stale at any reading `later` within
/// the interval.
pub proof fn lemma_one_request_per_interval(ps: Seq<Project>, now: u64, later: u64, k: int)
    requires
        0 <= k < ps.len(),
        ps[k].stale_at(now),
        later <= now + ps[k].update_interval * NANOS_PER_SEC,
    ensures
        scanned(ps, now)[k].last_updated == now,
        scanned(ps, now)[k].last_updated > ps[k].last_updated,
        !scanned(ps, now)[k].stale_at(later),
{
    lemma_stale_is_later(ps[k], now);
    lemma_fresh_within_interval(ps[k], now, later);
}

/// A fetch that failed changes no target, whatever the failure was.
pub proof fn lemma_failure_changes_nothing(ps: Seq<Project>, e: FetchError)
    ensures
        settled_one(ps, Err(e)) == ps,
        settled(ps, seq![Err(e)], 1) == ps,
{
    assert(settled(ps, seq![Err::<RefreshResult, FetchError>(e)], 0) == ps);
}

/// Taking outcomes in changes neither the number of targets nor when any of
/// them is stale: identifiers, request times and intervals stay.
pub proof fn lemma_settling_keeps_schedule(
    ps: Seq<Project>,
    outcomes: Seq<Result<RefreshResult, FetchError>>,
    n: int,
)
    ensures
        settled(ps, outcomes, n).len() == ps.len(),
        forall|k: int|
            0 <= k < ps.len() ==> {
                let p = #[trigger] settled(ps, outcomes, n)[k];
                p.id == ps[k].id && p.last_updated == ps[k].last_updated && p.update_interval
                    == ps[k].update_interval
            },
    decreases n,
{
    if n > 0 {
        lemma_settling_keeps_schedule(ps, outcomes, n - 1);
    }
}

/// Every target that is kept was among the targets before.
pub proof fn lemma_kept_were_there(ps: Seq<Project>, doomed: Seq<usize>, from: int)
    requires
        0 <= from <= ps.len(),
    ensures
        forall|j: int|
            0 <= j < kept_from(ps, doomed, from).len() ==> exists|i: int|
                from <= i < ps.len() && ps[i] == #[trigger] kept_from(ps, doomed, from)[j],
    decreases ps.len() - from,
{
    if from < ps.len() {
        lemma_kept_were_there(ps, doomed, from + 1);
        let rest = kept_from(ps, doomed, from + 1);
        assert forall|j: int| 0 <= j < kept_from(ps, doomed, from).len() implies exists|i: int|
            from <= i < ps.len() && ps[i] == #[trigger] kept_from(ps, doomed, from)[j] by {
            if doomed.contains(from as usize) {
                let i = choose|i: int| from + 1 <= i < ps.len() && ps[i] == rest[j];
                assert(from <= i < ps.len() && ps[i] == kept_from(ps, doomed, from)[j]);
            } else if j == 0 {
                assert(from <= from < ps.len() && ps[from] == kept_from(ps, doomed, from)[j]);
            } else {
                assert(kept_from(ps, doomed, from)[j] == rest[j - 1]);
                let i = choose|i: int| from + 1 <= i < ps.len() && ps[i] == rest[j - 1];
                assert(from <= i < ps.len() && ps[i] == kept_from(ps, doomed, from)[j]);
            }
        }
    }
}

/// Number of indices below `n` that are among `doomed`.
pub open spec fn doomed_below(doomed: Seq<usize>, n: int) -> nat
    decreases n,
{
    if n <= 0 {
        0
    } else if doomed.contains((n - 1) as usize) {
        doomed_below(doomed, n - 1) + 1
    } else {
        doomed_below(doomed, n - 1)
    }
}

/// Between two indices there are no more doomed indices than indices.
pub proof fn lemma_doomed_below_grows(doomed: Seq<usize>, n: int, m: int)
    requires
        0 <= n <= m,
    ensures
        doomed_below(doomed, n) <= doomed_below(doomed, m),
        doomed_below(doomed, m) - doomed_below(doomed, n) <= m - n,
    decreases m - n,
{
    if n < m {
        lemma_doomed_below_grows(doomed, n, m - 1);
    }
}

/// The target at index `i` is kept and stands, among the targets kept from
/// `from` on, after as many targets as are kept between `from` and `i`.
pub open spec fn lands(ps: Seq<Project>, doomed: Seq<usize>, from: int, i: int) -> bool {
    let at = (i - from) - (doomed_below(doomed, i) - doomed_below(doomed, from));
    0 <= at < kept_from(ps, doomed, from).len() && kept_from(ps, doomed, from)[at] == ps[i]
}

/// Where the targets from `from` on end up among those that are kept.
pub proof fn lemma_kept_from(ps: Seq<Project>, doomed: Seq<usize>, from: int)
    requires
        0 <= from <= ps.len() <= usize::MAX,
    ensures
        kept_from(ps, doomed, from).len() == (ps.len() - from) - (doomed_below(
            doomed,
            ps.len() as int,
        ) - doomed_below(doomed, from)),
        forall|i: int|
            from <= i < ps.len() && !doomed.contains(i as usize) ==> #[trigger] lands(
                ps,
                doomed,
                from,
                i,
            ),
    decreases ps.len() - from,
{
    if from < ps.len() {
        lemma_kept_from(ps, doomed, from + 1);
        let rest = kept_from(ps, doomed, from + 1);
        assert(doomed_below(doomed, from + 1) == if doomed.contains(from as usize) {
            doomed_below(doomed, from) + 1
        } else {
            doomed_below(doomed, from)
        });
        assert forall|i: int|
            from <= i < ps.len() && !doomed.contains(i as usize) implies #[trigger] lands(
            ps,
            doomed,
            from,
            i,
        ) by {
            lemma_doomed_below_grows(doomed, from, i);
            lemma_doomed_below_grows(doomed, i, ps.len() as int);
            if i > from {
                lemma_doomed_below_grows(doomed, from + 1, i);
                assert(lands(ps, doomed, from + 1, i));
            } else {
                assert(kept_from(ps, doomed, from)[0] == ps[from]);
            }
        }
    }
}

/// Deferred removal. When the targets at the indices `doomed` leave, however
/// the indices are listed, every other target stays: it moves down by the
/// number of leaving targets below it and by no more, so no removal shifts a
/// target out of the way of another removal, and none is skipped.
pub proof fn lemma_removal_keeps_the_rest(ps: Seq<Project>, doomed: Seq<usize>, i: int)
    requires
        ps.len() <= usize::MAX,
        0 <= i < ps.len(),
        !doomed.contains(i as usize),
    ensures
        survivors(ps, doomed).len() == ps.len() - doomed_below(doomed, ps.len() as int),
        0 <= i - doomed_below(doomed, i) < survivors(ps, doomed).len(),
        survivors(ps, doomed)[i - doomed_below(doomed, i)] == ps[i],
{
    lemma_kept_from(ps, doomed, 0);
    assert(lands(ps, doomed, 0, i));
}

/// Where nothing is pending, a removal leaves every target in its place.
pub proof fn lemma_removal_of_nothing(ps: Seq<Project>)
    ensures
        survivors(ps, Seq::<usize>::empty()) == ps,
{
    lemma_kept_all(ps, 0);
}

/// With nothing doomed, every target from `from` on is kept.
pub proof fn lemma_kept_all(ps: Seq<Project>, from: int)
    requires
        0 <= from <= ps.len(),
    ensures
        kept_from(ps, Seq::<usize>::empty(), from) == ps.subrange(from, ps.len() as int),
    decreases ps.len() - from,
{
    if from < ps.len() {
        lemma_kept_all(ps, from + 1);
        assert(seq![ps[from]] + ps.subrange(from + 1, ps.len() as int) =~= ps.subrange(
            from,
            ps.len() as int,
        ));
    } else {
        assert(ps.subrange(from, ps.len() as int) =~= Seq::<Project>::empty());
    }
    if from == 0 {
        assert(ps.subrange(0, ps.len() as int) =~= ps);
    }
}

} // verus!
