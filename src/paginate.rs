use crate::error::LookupError;
use crate::link::{get_last_page, last_page_result};
use crate::release::GitHubReleaseItem;
use reqwest::header::{HeaderMap, HeaderValue};
use vstd::prelude::*;

verus! {

/// The number of releases asked for in each page.
pub const PAGINATION_REQUEST_AMOUNT: usize = 100;

/// What a paginator knows during one query.
pub ghost struct PagerState {
    /// The page to request next.
    pub page: usize,
    /// The last page, once a response has announced it.
    pub last_page: Option<usize>,
    /// The records of the pages received so far, in request order.
    pub records: Seq<GitHubReleaseItem>,
    /// No further page is to be requested.
    pub finished: bool,
}

/// A state that a paginator can be in: pages are counted from 1.
pub open spec fn pager_wf(s: PagerState) -> bool {
    s.page >= 1
}

/// The state before the first request.
pub open spec fn initial_state() -> PagerState {
    PagerState { page: 1, last_page: None, records: Seq::empty(), finished: false }
}

/// A status in the success range.
pub open spec fn is_success(status: u16) -> bool {
    200 <= status < 300
}

/// The error that a status outside the success range stands for.
pub open spec fn status_error_of(status: u16) -> LookupError {
    if status == 404 {
        LookupError::RepositoryNotFound
    } else if status == 401 || status == 403 {
        LookupError::AuthenticationError(status)
    } else {
        LookupError::ErrorHttpResponse(status)
    }
}

/// The state once a response has been probed for the last page: the probe only
/// counts while the last page is still unknown.
pub open spec fn with_last_page(s: PagerState, probe: Option<usize>) -> PagerState {
    if s.last_page is None {
        PagerState { last_page: probe, ..s }
    } else {
        s
    }
}

/// The state once the records of the current page have been received. The query
/// ends when the page just received is the announced last page or beyond it, or at
/// once where no last page was announced; otherwise the next page is the one after.
pub open spec fn with_records(s: PagerState, items: Seq<GitHubReleaseItem>) -> PagerState {
    let finished = match s.last_page {
        Some(last) => s.page >= last,
        None => true,
    };
    PagerState {
        page: if finished {
            s.page
        } else {
            (s.page + 1) as usize
        },
        last_page: s.last_page,
        records: s.records + items,
        finished,
    }
}

/// What a response with status `status` and headers `h` does to the state `s`.
pub open spec fn response_outcome(s: PagerState, status: u16, h: HeaderMap<HeaderValue>) -> Result<
    PagerState,
    LookupError,
> {
    if !is_success(status) {
        Err(status_error_of(status))
    } else if s.last_page is None {
        match last_page_result(h) {
            Ok(probe) => Ok(with_last_page(s, probe)),
            Err(e) => Err(e),
        }
    } else {
        Ok(s)
    }
}

/// The error that a response status stands for, if any.
pub fn status_error(status: u16) -> (r: Option<LookupError>)
    ensures
        r == (if is_success(status) {
            None
        } else {
            Some(status_error_of(status))
        }),
{
    if 200 <= status && status < 300 {
        None
    } else if status == 404 {
        Some(LookupError::RepositoryNotFound)
    } else if status == 401 || status == 403 {
        Some(LookupError::AuthenticationError(status))
    } else {
        Some(LookupError::ErrorHttpResponse(status))
    }
}

/// Walks a paged list of releases: it says which page to request next, takes each
/// response in turn, and collects the records of all pages in request order.
pub struct Paginator {
    page: usize,
    last_page: Option<usize>,
    records: Vec<GitHubReleaseItem>,
    finished: bool,
}

impl View for Paginator {
    type V = PagerState;

    closed spec fn view(&self) -> PagerState {
        PagerState {
            page: self.page,
            last_page: self.last_page,
            records: self.records@,
            finished: self.finished,
        }
    }
}

impl Paginator {
    /// A paginator that has requested nothing yet.
    pub fn new() -> (p: Self)
        ensures
            p@ == initial_state(),
            pager_wf(p@),
    {
        Paginator { page: 1, last_page: None, records: Vec::new(), finished: false }
    }

    /// The page to request next.
    pub fn page(&self) -> (r: usize)
        ensures
            r == self@.page,
    {
        self.page
    }

    /// The last page, once a response has announced it.
    pub fn last_page(&self) -> (r: Option<usize>)
        ensures
            r == self@.last_page,
    {
        self.last_page
    }

    /// Whether no further page is to be requested.
    pub fn is_finished(&self) -> (r: bool)
        ensures
            r == self@.finished,
    {
        self.finished
    }

    /// Takes the status and headers of the response to the current page. A status
    /// outside the success range fails with the error it stands for; a success
    /// determines the last page from the headers while it is unknown.
    pub fn on_response(&mut self, status: u16, headers: &HeaderMap<HeaderValue>) -> (r: Result<
        (),
        LookupError,
    >)
        requires
            pager_wf(old(self)@),
            !old(self)@.finished,
        ensures
            pager_wf(final(self)@),
            !final(self)@.finished,
            match response_outcome(old(self)@, status, *headers) {
                Ok(s) => r == Ok::<(), LookupError>(()) && final(self)@ == s,
                Err(e) => r == Err::<(), LookupError>(e) && final(self)@ == old(self)@,
            },
    {
        match status_error(status) {
            Some(e) => {
                return Err(e);
            },
            None => {},
        }
        if self.last_page.is_none() {
            match get_last_page(headers) {
                Ok(probe) => {
                    self.last_page = probe;
                },
                Err(e) => {
                    return Err(e);
                },
            }
        }
        Ok(())
    }

    /// Takes the records of the current page, and says whether a further page is to
    /// be requested.
    pub fn on_records(&mut self, items: Vec<GitHubReleaseItem>) -> (more: bool)
        requires
            pager_wf(old(self)@),
            !old(self)@.finished,
        ensures
            final(self)@ == with_records(old(self)@, items@),
            pager_wf(final(self)@),
            more == !final(self)@.finished,
    {
        let mut items = items;
        self.records.append(&mut items);
        self.finished = match self.last_page {
            Some(last) => self.page >= last,
            None => true,
        };
        if !self.finished {
            self.page = self.page + 1;
        }
        !self.finished
    }

    /// The records of all pages received, in request order.
    pub fn into_records(self) -> (r: Vec<GitHubReleaseItem>)
        ensures
            r@ == self@.records,
    {
        self.records
    }
}

/// The records of a sequence of pages, concatenated in order.
pub open spec fn flatten(pages: Seq<Seq<GitHubReleaseItem>>) -> Seq<GitHubReleaseItem>
    decreases pages.len(),
{
    if pages.len() == 0 {
        Seq::empty()
    } else {
        flatten(pages.drop_last()) + pages.last()
    }
}

/// The state of a fresh paginator after it has received `k` pages of an upstream
/// whose successful responses all announce `probe` as the last page, page `i + 1`
/// holding `pages[i]`.
pub open spec fn replay(probe: Option<usize>, pages: Seq<Seq<GitHubReleaseItem>>, k: nat) -> PagerState
    decreases k,
{
    if k == 0 {
        initial_state()
    } else {
        with_records(with_last_page(replay(probe, pages, (k - 1) as nat), probe), pages[k - 1])
    }
}

/// How many pages a query requests when its first response announces `probe` as the
/// last page: every page up to the last one, and at least the first.
pub open spec fn pages_requested(probe: Option<usize>) -> nat {
    match probe {
        Some(last) => if last >= 1 {
            last as nat
        } else {
            1
        },
        None => 1,
    }
}

proof fn lemma_replay_state(probe: Option<usize>, pages: Seq<Seq<GitHubReleaseItem>>, k: nat)
    requires
        k <= pages_requested(probe),
        pages.len() >= pages_requested(probe),
    ensures
        k < pages_requested(probe) ==> replay(probe, pages, k).page == k + 1,
        k == pages_requested(probe) ==> replay(probe, pages, k).page == k,
        replay(probe, pages, k).records == flatten(pages.take(k as int)),
        replay(probe, pages, k).finished == (k == pages_requested(probe)),
        k >= 1 ==> replay(probe, pages, k).last_page == probe,
        k == 0 ==> replay(probe, pages, k).last_page is None,
        pager_wf(replay(probe, pages, k)),
    decreases k,
{
    if k == 0 {
        assert(pages.take(0) =~= Seq::<Seq<GitHubReleaseItem>>::empty());
    } else {
        lemma_replay_state(probe, pages, (k - 1) as nat);
        assert(pages.take(k as int).drop_last() =~= pages.take(k - 1));
    }
}

/// Pagination: against an upstream whose successful responses announce `probe` as
/// the last page, a fresh paginator requests the pages 1, 2, 3, ... in order and
/// without a gap, stops after `pages_requested(probe)` of them, and then holds their
/// records concatenated in request order.
pub proof fn lemma_pages_in_order(probe: Option<usize>, pages: Seq<Seq<GitHubReleaseItem>>)
    requires
        pages.len() >= pages_requested(probe),
    ensures
        forall|k: nat|
            k < pages_requested(probe) ==> !(#[trigger] replay(probe, pages, k)).finished
                && replay(probe, pages, k).page == k + 1,
        replay(probe, pages, pages_requested(probe)).finished,
        replay(probe, pages, pages_requested(probe)).records == flatten(
            pages.take(pages_requested(probe) as int),
        ),
{
    assert forall|k: nat| k < pages_requested(probe) implies !(#[trigger] replay(
        probe,
        pages,
        k,
    )).finished && replay(probe, pages, k).page == k + 1 by {
        lemma_replay_state(probe, pages, k);
    }
    lemma_replay_state(probe, pages, pages_requested(probe));
}

/// The answer of an upstream to one page request: the status, the headers, and the
/// records that the body holds.
pub type PageAnswer = (u16, HeaderMap<HeaderValue>, Seq<GitHubReleaseItem>);

/// The outcome of a query driven from state `s` against an upstream that answers page
/// `p` with `answers[p - 1]`, step by step as `on_response` and `on_records` take them:
/// the records of all pages, or the error of the first failing response. `None` where
/// a page is requested that the upstream has no answer for.
pub open spec fn query_outcome(s: PagerState, answers: Seq<PageAnswer>) -> Option<
    Result<Seq<GitHubReleaseItem>, LookupError>,
>
    decreases answers.len() + 1 - s.page,
{
    if s.finished {
        Some(Ok(s.records))
    } else if s.page < 1 || s.page > answers.len() {
        None
    } else {
        let (status, headers, items) = answers[s.page - 1];
        match response_outcome(s, status, headers) {
            Err(e) => Some(Err(e)),
            Ok(t) => {
                let u = with_records(t, items);
                if u.finished {
                    Some(Ok(u.records))
                } else if s.page < u.page {
                    query_outcome(u, answers)
                } else {
                    None
                }
            },
        }
    }
}

/// Idempotence: a query depends on nothing but the answers to the pages it requests.
/// Run again from the same state against an upstream that did not change, whose
/// answers may only go on with pages that the first run never reached, it ends alike:
/// with the same records in the same order, or with the same error.
pub proof fn lemma_query_idempotent(s: PagerState, answers: Seq<PageAnswer>, again: Seq<PageAnswer>)
    requires
        answers.len() <= again.len(),
        again.take(answers.len() as int) == answers,
        query_outcome(s, answers) is Some,
    ensures
        query_outcome(s, again) == query_outcome(s, answers),
    decreases answers.len() + 1 - s.page,
{
    if !s.finished && 1 <= s.page <= answers.len() {
        assert(again[s.page - 1] == again.take(answers.len() as int)[s.page - 1]);
        let (status, headers, items) = answers[s.page - 1];
        match response_outcome(s, status, headers) {
            Err(e) => {},
            Ok(t) => {
                let u = with_records(t, items);
                if !u.finished && s.page < u.page {
                    lemma_query_idempotent(u, answers, again);
                }
            },
        }
    }
}

} // verus!
