//! The worker's step: from a request and what was fetched for it to the
//! outcome that goes back to the coordinator.

use crate::coordinator::{RefreshResult, Request};
use crate::fetch::{digest, digested, RawFetch, RawFetchView};
use crate::project::{FetchError, ProjectType, Timestamp};
use crate::series::{datasets_view, DataSetView};
use vstd::prelude::*;

verus! {

/// What a `RefreshResult` stands for.
pub struct RefreshResultView {
    pub id: u64,
    pub data: Seq<DataSetView>,
    pub last_modified: Timestamp,
}

impl View for RefreshResult {
    type V = RefreshResultView;

    open spec fn view(&self) -> RefreshResultView {
        RefreshResultView {
            id: self.id,
            data: datasets_view(self.data@),
            last_modified: self.last_modified,
        }
    }
}

/// What the outcome of a request stands for.
pub open spec fn outcome_view(r: Result<RefreshResult, FetchError>) -> Result<
    RefreshResultView,
    FetchError,
> {
    match r {
        Ok(result) => Ok(result@),
        Err(e) => Err(e),
    }
}

/// The outcome of a request for the target `id` of kind `typ`, given what the
/// fetch brought: a failed fetch is passed on, fetched text is parsed, and a
/// result carries the identifier of the request.
pub open spec fn served(
    id: u64,
    typ: ProjectType,
    fetched: Result<RawFetchView, FetchError>,
) -> Result<RefreshResultView, FetchError> {
    match fetched {
        Err(e) => Err(e),
        Ok(raw) => match digested(typ, raw) {
            Err(e) => Err(e),
            Ok(f) => Ok(RefreshResultView { id, data: f.data, last_modified: f.last_modified }),
        },
    }
}

/// What the outcome of a fetch stands for.
pub open spec fn raw_view(fetched: Result<RawFetch, FetchError>) -> Result<
    RawFetchView,
    FetchError,
> {
    match fetched {
        Err(e) => Err(e),
        Ok(raw) => Ok(raw@),
    }
}

/// Serves one request: turns what was fetched for it into the outcome for
/// the coordinator. Nothing is kept from one request to the next.
pub fn serve(request: &Request, fetched: Result<RawFetch, FetchError>) -> (outcome: Result<
    RefreshResult,
    FetchError,
>)
    ensures
        outcome_view(outcome) == served(request.id, request.typ, raw_view(fetched)),
{
    match fetched {
        Err(e) => Err(e),
        Ok(raw) => match digest(request.typ, &raw) {
            Err(e) => Err(e),
            Ok(f) => Ok(
                RefreshResult { id: request.id, data: f.data, last_modified: f.last_modified },
            ),
        },
    }
}

/// Each request stands alone. A request whose fetch failed gives that
/// failure and no result, and what a later request gives depends on nothing
/// but that request and what was fetched for it: a failure stops nothing.
pub proof fn lemma_failure_stops_nothing(
    id: u64,
    typ: ProjectType,
    e: FetchError,
    next_id: u64,
    next_typ: ProjectType,
    next_raw: RawFetchView,
)
    ensures
        served(id, typ, Err(e)) == Err::<RefreshResultView, FetchError>(e),
        digested(next_typ, next_raw) is Ok ==> served(next_id, next_typ, Ok(next_raw)) is Ok
            && served(next_id, next_typ, Ok(next_raw))->Ok_0.id == next_id && served(
            next_id,
            next_typ,
            Ok(next_raw),
        )->Ok_0.data == digested(next_typ, next_raw)->Ok_0.data,
{
}

} // verus!
