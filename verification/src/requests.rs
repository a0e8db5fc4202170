//! Requesting pages of new items until enough of them pass a filter.
//!
//! The requests and the filter are outside work; this state machine decides
//! which page to request next, when to filter and when to stop.

use vstd::prelude::*;

verus! {

/// The answer to one page request.
pub enum RequestResponse<I, E> {
    /// The page's items.
    Batch(Vec<I>),
    /// The request failed.
    Failed(E),
    /// The request was aborted before it answered.
    Aborted,
}

/// What to do next.
pub enum RequestStep<I, E> {
    /// Request this page number (counted from 0).
    Request(u32),
    /// Filter these items and hand back the result.
    Filter(Vec<I>),
    /// Stop with this outcome.
    Done(Result<Vec<I>, E>),
}

/// Where the requests stand.
#[derive(Clone, Copy, Debug, PartialEq, Eq, Structural)]
pub enum RequestPhase {
    Requesting,
    Filtering,
    Finished,
}

/// Requests pages of items until at least `min_items` of them pass the
/// filter, a page comes back short or empty, or `max_requests` requests were
/// made.
pub struct MinItemsRequest<I, E> {
    max_requests: u32,
    min_items: usize,
    page_size: usize,
    request: u32,
    items: Vec<I>,
    error: Option<E>,
    batch_size: usize,
    phase: RequestPhase,
}

/// The outcome once the requests stop: the last error if no item is left
/// and some request or filter failed, else the items.
pub open spec fn final_outcome<I, E>(items: Seq<I>, error: Option<E>) -> Option<Result<Seq<I>, E>> {
    if items.len() == 0 && error is Some {
        Some(Err(error.unwrap()))
    } else {
        Some(Ok(items))
    }
}

/// The view of a step: its request number, its items or its outcome.
pub open spec fn step_outcome<I, E>(step: RequestStep<I, E>) -> Option<Result<Seq<I>, E>> {
    match step {
        RequestStep::Done(Ok(v)) => Some(Ok(v@)),
        RequestStep::Done(Err(e)) => Some(Err(e)),
        _ => None,
    }
}

impl<I, E> MinItemsRequest<I, E> {
    /// The number of the page requested last, or to request next.
    pub closed spec fn request(&self) -> u32 {
        self.request
    }

    /// The items gathered so far.
    pub closed spec fn items(&self) -> Seq<I> {
        self.items@
    }

    /// The last error so far.
    pub closed spec fn error(&self) -> Option<E> {
        self.error
    }

    /// The size of the last page.
    pub closed spec fn batch_size(&self) -> usize {
        self.batch_size
    }

    /// Where the requests stand.
    pub closed spec fn phase(&self) -> RequestPhase {
        self.phase
    }

    /// The maximum number of requests.
    pub closed spec fn max_requests(&self) -> u32 {
        self.max_requests
    }

    /// The number of items at which the requests stop.
    pub closed spec fn min_items(&self) -> usize {
        self.min_items
    }

    /// The size of a full page.
    pub closed spec fn page_size(&self) -> usize {
        self.page_size
    }

    /// Requests run below the maximum.
    pub closed spec fn wf(&self) -> bool {
        self.phase != RequestPhase::Finished ==> self.request < self.max_requests
    }

    /// Starts the requests: the first page, unless no request may be made.
    pub fn start(max_requests: u32, min_items: usize, page_size: usize) -> (r: (Self, RequestStep<I, E>))
        ensures
            r.0.wf(),
            r.0.max_requests() == max_requests,
            r.0.min_items() == min_items,
            r.0.page_size() == page_size,
            r.0.items().len() == 0,
            r.0.error() is None,
            max_requests == 0 ==> r.0.phase() == RequestPhase::Finished && step_outcome(r.1) == Some(Ok::<Seq<I>, E>(Seq::empty())),
            max_requests > 0 ==> r.0.phase() == RequestPhase::Requesting && r.0.request() == 0 && r.1 matches RequestStep::Request(0),
    {
        let mut s = MinItemsRequest {
            max_requests,
            min_items,
            page_size,
            request: 0,
            items: Vec::new(),
            error: None,
            batch_size: 0,
            phase: RequestPhase::Requesting,
        };
        if max_requests == 0 {
            s.phase = RequestPhase::Finished;
            let step = RequestStep::Done(Ok(Vec::new()));
            proof {
                assert(step_outcome(step) == Some(Ok::<Seq<I>, E>(Seq::empty())));
            }
            (s, step)
        } else {
            (s, RequestStep::Request(0))
        }
    }

    fn finish(&mut self) -> (r: RequestStep<I, E>)
        ensures
            final(self).phase() == RequestPhase::Finished,
            final(self).wf(),
            final(self).max_requests() == old(self).max_requests(),
            final(self).min_items() == old(self).min_items(),
            final(self).page_size() == old(self).page_size(),
            final(self).request() == old(self).request(),
            step_outcome(r) == final_outcome(old(self).items(), old(self).error()),
    {
        self.phase = RequestPhase::Finished;
        let mut items: Vec<I> = Vec::new();
        std::mem::swap(&mut items, &mut self.items);
        if items.len() == 0 && self.error.is_some() {
            let e = self.error.take().unwrap();
            RequestStep::Done(Err(e))
        } else {
            RequestStep::Done(Ok(items))
        }
    }

    fn advance(&mut self) -> (r: RequestStep<I, E>)
        requires
            old(self).request() < old(self).max_requests(),
        ensures
            final(self).wf(),
            final(self).max_requests() == old(self).max_requests(),
            final(self).min_items() == old(self).min_items(),
            final(self).page_size() == old(self).page_size(),
            old(self).request() + 1 < old(self).max_requests() ==> final(self).phase() == RequestPhase::Requesting
                && final(self).request() == old(self).request() + 1
                && final(self).items() == old(self).items() && final(self).error() == old(self).error()
                && (r matches RequestStep::Request(n) && n == old(self).request() + 1),
            old(self).request() + 1 >= old(self).max_requests() ==> final(self).phase() == RequestPhase::Finished
                && step_outcome(r) == final_outcome(old(self).items(), old(self).error()),
    {
        if self.request + 1 < self.max_requests {
            self.request = self.request + 1;
            self.phase = RequestPhase::Requesting;
            RequestStep::Request(self.request)
        } else {
            self.finish()
        }
    }

    /// Takes the answer to the last page request: an empty page stops the
    /// requests, a page with items is added to the items and sent to the
    /// filter, a failure is kept as the last error and the next page is
    /// requested, as after an aborted request.
    pub fn on_response(&mut self, response: RequestResponse<I, E>) -> (r: RequestStep<I, E>)
        requires
            old(self).wf(),
            old(self).phase() == RequestPhase::Requesting,
        ensures
            final(self).wf(),
            final(self).max_requests() == old(self).max_requests(),
            final(self).min_items() == old(self).min_items(),
            final(self).page_size() == old(self).page_size(),
            match response {
                RequestResponse::Batch(b) => if b@.len() == 0 {
                    final(self).phase() == RequestPhase::Finished
                        && step_outcome(r) == final_outcome(old(self).items(), old(self).error())
                } else {
                    final(self).phase() == RequestPhase::Filtering
                        && final(self).request() == old(self).request()
                        && final(self).batch_size() == b@.len()
                        && final(self).error() == old(self).error()
                        && (r matches RequestStep::Filter(v) && v@ == old(self).items() + b@)
                },
                RequestResponse::Failed(e) => old(self).request() + 1 < old(self).max_requests() ==> (
                    final(self).phase() == RequestPhase::Requesting
                        && final(self).request() == old(self).request() + 1
                        && final(self).error() == Some(e)
                        && final(self).items() == old(self).items()
                        && (r matches RequestStep::Request(n) && n == old(self).request() + 1)),
                RequestResponse::Aborted => old(self).request() + 1 < old(self).max_requests() ==> (
                    final(self).phase() == RequestPhase::Requesting
                        && final(self).request() == old(self).request() + 1
                        && final(self).error() == old(self).error()
                        && final(self).items() == old(self).items()
                        && (r matches RequestStep::Request(n) && n == old(self).request() + 1)),
            },
            response matches RequestResponse::Failed(e) ==> (old(self).request() + 1 >= old(self).max_requests()
                ==> final(self).phase() == RequestPhase::Finished
                    && step_outcome(r) == final_outcome(old(self).items(), Some(e))),
            response matches RequestResponse::Aborted ==> (old(self).request() + 1 >= old(self).max_requests()
                ==> final(self).phase() == RequestPhase::Finished
                    && step_outcome(r) == final_outcome(old(self).items(), old(self).error())),
    {
        match response {
            RequestResponse::Batch(batch) => {
                if batch.len() == 0 {
                    return self.finish();
                }
                self.batch_size = batch.len();
                let mut batch = batch;
                let mut items: Vec<I> = Vec::new();
                std::mem::swap(&mut items, &mut self.items);
                items.append(&mut batch);
                self.phase = RequestPhase::Filtering;
                RequestStep::Filter(items)
            },
            RequestResponse::Failed(e) => {
                self.error = Some(e);
                self.advance()
            },
            RequestResponse::Aborted => self.advance(),
        }
    }

    /// Takes the filtered items: a failed filter leaves no item and is kept
    /// as the last error. The requests stop once there are at least
    /// `min_items` items or the last page was short; else the next page is
    /// requested.
    pub fn on_filtered(&mut self, filtered: Result<Vec<I>, E>) -> (r: RequestStep<I, E>)
        requires
            old(self).wf(),
            old(self).phase() == RequestPhase::Filtering,
        ensures
            final(self).wf(),
            final(self).max_requests() == old(self).max_requests(),
            final(self).min_items() == old(self).min_items(),
            final(self).page_size() == old(self).page_size(),
            ({
                let (items, error) = match filtered {
                    Ok(v) => (v@, old(self).error()),
                    Err(e) => (Seq::<I>::empty(), Some(e)),
                };
                let stop = items.len() >= old(self).min_items() || old(self).batch_size() < old(self).page_size();
                &&& stop || old(self).request() + 1 >= old(self).max_requests() ==> final(self).phase() == RequestPhase::Finished
                    && step_outcome(r) == final_outcome(items, error)
                &&& !stop && old(self).request() + 1 < old(self).max_requests() ==> final(self).phase() == RequestPhase::Requesting
                    && final(self).request() == old(self).request() + 1
                    && final(self).items() == items && final(self).error() == error
                    && (r matches RequestStep::Request(n) && n == old(self).request() + 1)
            }),
    {
        match filtered {
            Ok(v) => {
                self.items = v;
            },
            Err(e) => {
                self.error = Some(e);
                self.items = Vec::new();
            },
        }
        if self.items.len() >= self.min_items || self.batch_size < self.page_size {
            self.finish()
        } else {
            self.advance()
        }
    }
}

/// While the requests run, the page requested last is below the maximum
/// number of requests: no more than `max_requests` pages are requested.
pub proof fn lemma_requests_bounded<I, E>(s: MinItemsRequest<I, E>)
    requires
        s.wf(),
        s.phase() != RequestPhase::Finished,
    ensures
        s.request() < s.max_requests(),
{
}

} // verus!
