//! Dynamic batching of independent generation requests.
//!
//! Requests are submitted one by one and grouped into joint forward-pass
//! batches: a round fires when enough requests are queued or the oldest has
//! waited long enough. Selection is strictly first-in-first-out; a request
//! whose key/value capacity cannot be satisfied this round is deferred back
//! to the queue without losing its place, until a retry limit fails it. Each
//! request ends in exactly one terminal state — completed, failed or
//! cancelled — and its result is handed out exactly once.
//!
//! This is the decision core of the batcher: it is single-threaded and pure
//! bookkeeping. The scheduling loop around it performs the forward passes
//! and reports outcomes through [`DynamicBatcher::complete`],
//! [`DynamicBatcher::fail`] and [`DynamicBatcher::cancel`].

use vstd::prelude::*;

verus! {

/// Batching policy: a round fires at `max_batch_size` queued requests or
/// once the oldest queued request has waited `max_wait_ms`; a request
/// deferred more than `max_retries` times fails with an out-of-memory
/// reason.
#[derive(Clone, Copy, Debug, PartialEq, Eq, Structural)]
pub struct BatchConfig {
    pub max_batch_size: usize,
    pub max_wait_ms: u64,
    pub max_retries: u32,
}

/// A generation request as submitted: input tokens and stop conditions.
pub struct BatchRequest {
    pub tokens: Vec<u32>,
    pub max_tokens: usize,
    pub stop_token: Option<u32>,
}

/// Handle returned by [`DynamicBatcher::submit`]; the caller polls it for
/// the request's one result.
#[derive(Clone, Copy, Debug, PartialEq, Eq, Structural)]
pub struct DynamicBatcherHandle {
    pub id: u64,
}

/// Why a request failed.
#[derive(Clone, Copy, Debug, PartialEq, Eq, Structural)]
pub enum BatchError {
    /// The external forward pass reported an unrecoverable error.
    ModelBackendFailure,
    /// Block allocation kept failing past the retry limit.
    OutOfMemory,
}

/// The one terminal outcome of a request.
#[derive(Clone, Debug, PartialEq, Eq)]
pub enum BatchResult {
    /// Generated tokens.
    Completed(Vec<u32>),
    Failed(BatchError),
    Cancelled,
}

/// Lifecycle of a request inside the batcher.
#[derive(Clone, Copy, Debug, PartialEq, Eq, Structural)]
pub enum RequestState {
    /// Submitted, waiting to be selected.
    Queued,
    /// Selected for the next execution round.
    Scheduled,
    /// Inside a joint forward pass.
    Running,
    Completed,
    Failed,
    Cancelled,
}

/// One tracked request.
struct RequestEntry {
    id: u64,
    tokens: Vec<u32>,
    max_tokens: usize,
    stop_token: Option<u32>,
    submitted_at: u64,
    state: RequestState,
    result: Option<BatchResult>,
    delivered: bool,
    retries: u32,
}

/// Mathematical image of one outcome.
pub enum ResultModel {
    Completed(Seq<u32>),
    Failed(BatchError),
    Cancelled,
}

pub open spec fn result_model(r: BatchResult) -> ResultModel {
    match r {
        BatchResult::Completed(tokens) => ResultModel::Completed(tokens@),
        BatchResult::Failed(e) => ResultModel::Failed(e),
        BatchResult::Cancelled => ResultModel::Cancelled,
    }
}

/// Mathematical image of one tracked request.
pub struct RequestModel {
    pub id: u64,
    pub tokens: Seq<u32>,
    pub max_tokens: usize,
    pub stop_token: Option<u32>,
    pub submitted_at: u64,
    pub state: RequestState,
    pub result: Option<ResultModel>,
    pub delivered: bool,
    pub retries: u32,
}

/// Mathematical image of the batcher. `requests` is in submission order.
pub struct BatcherModel {
    pub config: BatchConfig,
    pub next_id: u64,
    pub requests: Seq<RequestModel>,
}

pub open spec fn is_terminal(s: RequestState) -> bool {
    s is Completed || s is Failed || s is Cancelled
}

/// The result kind a terminal state owes its caller.
pub open spec fn result_matches_state(r: ResultModel, s: RequestState) -> bool {
    match r {
        ResultModel::Completed(_) => s is Completed,
        ResultModel::Failed(_) => s is Failed,
        ResultModel::Cancelled => s is Cancelled,
    }
}

pub open spec fn request_wf(r: RequestModel) -> bool {
    &&& (r.result is Some <==> (is_terminal(r.state) && !r.delivered))
    &&& (r.delivered ==> is_terminal(r.state))
    &&& (match r.result {
        Some(res) => result_matches_state(res, r.state),
        None => true,
    })
}

/// Well-formedness: requests sit in submission order (strictly increasing
/// ids below `next_id`), and each request's result slot agrees with its
/// state: filled exactly while terminal and undelivered.
pub open spec fn inv(m: BatcherModel) -> bool {
    &&& forall|i: int, j: int|
        0 <= i < j < m.requests.len() ==> (#[trigger] m.requests[i].id) < (
        #[trigger] m.requests[j].id)
    &&& forall|i: int| 0 <= i < m.requests.len() ==> (#[trigger] m.requests[i].id) < m.next_id
    &&& forall|i: int| 0 <= i < m.requests.len() ==> request_wf(#[trigger] m.requests[i])
}

pub open spec fn has_id(rs: Seq<RequestModel>, id: u64) -> bool {
    exists|i: int| 0 <= i < rs.len() && rs[i].id == id
}

/// The position of the request with `id` (meaningful only under `has_id`
/// and increasing ids).
pub open spec fn id_index(rs: Seq<RequestModel>, id: u64) -> int {
    choose|i: int| 0 <= i < rs.len() && rs[i].id == id
}

/// A request the orchestrator may still complete or fail.
pub open spec fn is_deliverable(s: RequestState) -> bool {
    s is Scheduled || s is Running
}

/// The ids of the first (oldest) queued requests, at most `k` of them, in
/// submission order.
pub open spec fn first_queued_ids(rs: Seq<RequestModel>, k: int) -> Seq<u64>
    decreases rs.len(),
{
    if rs.len() == 0 || k <= 0 {
        Seq::empty()
    } else if rs.first().state is Queued {
        seq![rs.first().id] + first_queued_ids(rs.drop_first(), k - 1)
    } else {
        first_queued_ids(rs.drop_first(), k)
    }
}

/// The requests after the first at most `k` queued ones move to `Scheduled`.
pub open spec fn schedule_first(rs: Seq<RequestModel>, k: int) -> Seq<RequestModel>
    decreases rs.len(),
{
    if rs.len() == 0 || k <= 0 {
        rs
    } else if rs.first().state is Queued {
        seq![RequestModel { state: RequestState::Scheduled, ..rs.first() }] + schedule_first(
            rs.drop_first(),
            k - 1,
        )
    } else {
        seq![rs.first()] + schedule_first(rs.drop_first(), k)
    }
}

pub open spec fn queued_count(rs: Seq<RequestModel>) -> int
    decreases rs.len(),
{
    if rs.len() == 0 {
        0
    } else {
        (if rs.first().state is Queued {
            1int
        } else {
            0int
        }) + queued_count(rs.drop_first())
    }
}

/// A round is due when the queue has reached the batch size, or some queued
/// request — in particular the oldest — has waited out the window.
pub open spec fn spec_should_flush(m: BatcherModel, now: u64) -> bool {
    ||| queued_count(m.requests) >= m.config.max_batch_size
    ||| exists|i: int|
        0 <= i < m.requests.len() && (#[trigger] m.requests[i]).state is Queued
            && m.requests[i].submitted_at + m.config.max_wait_ms <= now
}

/// The entry [`DynamicBatcher::submit`] appends.
pub open spec fn new_request_model(r: BatchRequest, id: u64, now: u64) -> RequestModel {
    RequestModel {
        id,
        tokens: r.tokens@,
        max_tokens: r.max_tokens,
        stop_token: r.stop_token,
        submitted_at: now,
        state: RequestState::Queued,
        result: None,
        delivered: false,
        retries: 0,
    }
}

/// A terminal transition: the request moves to `to_state` and its result
/// slot is filled. The transitions below apply it only to requests that are
/// not yet terminal, so a result slot is filled at most once.
pub open spec fn finish_request(r: RequestModel, to_state: RequestState, res: ResultModel) -> RequestModel {
    RequestModel { state: to_state, result: Some(res), ..r }
}

/// The effect of [`DynamicBatcher::complete`]: a scheduled or running
/// request becomes `Completed` with its generated tokens; anything else is
/// left alone.
pub open spec fn spec_complete(m: BatcherModel, id: u64, tokens: Seq<u32>) -> BatcherModel {
    if has_id(m.requests, id) && is_deliverable(m.requests[id_index(m.requests, id)].state) {
        let i = id_index(m.requests, id);
        BatcherModel {
            requests: m.requests.update(
                i,
                finish_request(
                    m.requests[i],
                    RequestState::Completed,
                    ResultModel::Completed(tokens),
                ),
            ),
            ..m
        }
    } else {
        m
    }
}

/// The effect of [`DynamicBatcher::fail`].
pub open spec fn spec_fail(m: BatcherModel, id: u64, error: BatchError) -> BatcherModel {
    if has_id(m.requests, id) && is_deliverable(m.requests[id_index(m.requests, id)].state) {
        let i = id_index(m.requests, id);
        BatcherModel {
            requests: m.requests.update(
                i,
                finish_request(m.requests[i], RequestState::Failed, ResultModel::Failed(error)),
            ),
            ..m
        }
    } else {
        m
    }
}

/// The effect of [`DynamicBatcher::cancel`]: a queued, scheduled or running
/// request becomes `Cancelled`; a terminal request is left alone.
pub open spec fn spec_cancel(m: BatcherModel, id: u64) -> BatcherModel {
    if has_id(m.requests, id) && !is_terminal(m.requests[id_index(m.requests, id)].state) {
        let i = id_index(m.requests, id);
        BatcherModel {
            requests: m.requests.update(
                i,
                finish_request(m.requests[i], RequestState::Cancelled, ResultModel::Cancelled),
            ),
            ..m
        }
    } else {
        m
    }
}

/// The effect of [`DynamicBatcher::defer`]: a scheduled request whose
/// capacity could not be satisfied goes back to `Queued`, keeping its place,
/// until the retry limit fails it with `OutOfMemory`.
pub open spec fn spec_defer(m: BatcherModel, id: u64) -> BatcherModel {
    if has_id(m.requests, id) && m.requests[id_index(m.requests, id)].state is Scheduled {
        let i = id_index(m.requests, id);
        let r = m.requests[i];
        let r2 = if r.retries >= m.config.max_retries {
            finish_request(r, RequestState::Failed, ResultModel::Failed(BatchError::OutOfMemory))
        } else {
            RequestModel { state: RequestState::Queued, retries: (r.retries + 1) as u32, ..r }
        };
        BatcherModel { requests: m.requests.update(i, r2), ..m }
    } else {
        m
    }
}

/// The effect of [`DynamicBatcher::mark_running`]: a scheduled request
/// enters the joint forward pass.
pub open spec fn spec_mark_running(m: BatcherModel, id: u64) -> BatcherModel {
    if has_id(m.requests, id) && m.requests[id_index(m.requests, id)].state is Scheduled {
        let i = id_index(m.requests, id);
        BatcherModel {
            requests: m.requests.update(
                i,
                RequestModel { state: RequestState::Running, ..m.requests[i] },
            ),
            ..m
        }
    } else {
        m
    }
}

/// The effect of [`DynamicBatcher::take_result`]: a filled result slot is
/// emptied and marked delivered; everything else is left alone.
pub open spec fn spec_take_result(m: BatcherModel, id: u64) -> BatcherModel {
    if has_id(m.requests, id) && m.requests[id_index(m.requests, id)].result is Some {
        let i = id_index(m.requests, id);
        BatcherModel {
            requests: m.requests.update(
                i,
                RequestModel { result: None, delivered: true, ..m.requests[i] },
            ),
            ..m
        }
    } else {
        m
    }
}

/// Extending a prefix by one request adds its queued-ness to the count.
proof fn lemma_queued_count_take_step(rs: Seq<RequestModel>, i: int)
    requires
        0 <= i < rs.len(),
    ensures
        queued_count(rs.take(i + 1)) == queued_count(rs.take(i)) + (if rs[i].state is Queued {
            1int
        } else {
            0int
        }),
    decreases i,
{
    if i == 0 {
        assert(rs.take(1).first() == rs[0]);
        assert(rs.take(1).drop_first() =~= Seq::<RequestModel>::empty());
        assert(queued_count(rs.take(1).drop_first()) == 0);
        assert(rs.take(0) =~= Seq::<RequestModel>::empty());
        assert(queued_count(rs.take(0)) == 0);
    } else {
        lemma_queued_count_take_step(rs.drop_first(), i - 1);
        assert(rs.take(i + 1).first() == rs.first());
        assert(rs.take(i).first() == rs.first());
        assert(rs.take(i + 1).drop_first() =~= rs.drop_first().take(i));
        assert(rs.take(i).drop_first() =~= rs.drop_first().take(i - 1));
        assert(rs.drop_first()[i - 1] == rs[i]);
        assert(queued_count(rs.take(i + 1)) == (if rs.first().state is Queued {
            1int
        } else {
            0int
        }) + queued_count(rs.drop_first().take(i)));
        assert(queued_count(rs.take(i)) == (if rs.first().state is Queued {
            1int
        } else {
            0int
        }) + queued_count(rs.drop_first().take(i - 1)));
    }
}

/// The ids of all queued requests, in submission order.
pub open spec fn queued_ids(rs: Seq<RequestModel>) -> Seq<u64>
    decreases rs.len(),
{
    if rs.len() == 0 {
        Seq::empty()
    } else if rs.first().state is Queued {
        seq![rs.first().id] + queued_ids(rs.drop_first())
    } else {
        queued_ids(rs.drop_first())
    }
}

/// `k` clipped into `[0, n]`.
pub open spec fn clip(k: int, n: int) -> int {
    if k <= 0 {
        0
    } else if k >= n {
        n
    } else {
        k
    }
}

/// Batcher fairness, selection: with room for `k` requests, a round takes
/// exactly the `k` earliest-submitted queued requests — the first `k` of the
/// queued ids in submission order — and all of them when the queue is
/// smaller.
pub proof fn lemma_poll_takes_earliest(rs: Seq<RequestModel>, k: int)
    ensures
        first_queued_ids(rs, k) == queued_ids(rs).take(clip(k, queued_ids(rs).len() as int)),
    decreases rs.len(),
{
    if rs.len() == 0 {
        assert(queued_ids(rs).take(0) =~= Seq::<u64>::empty());
    } else {
        lemma_poll_takes_earliest(rs.drop_first(), k - 1);
        lemma_poll_takes_earliest(rs.drop_first(), k);
        let q = queued_ids(rs);
        let qd = queued_ids(rs.drop_first());
        if rs.first().state is Queued {
            assert(q == seq![rs.first().id] + qd);
            if k <= 0 {
                assert(q.take(0) =~= Seq::<u64>::empty());
            } else {
                let c = clip(k, q.len() as int);
                assert(c >= 1);
                assert(c - 1 == clip(k - 1, qd.len() as int));
                assert(q.take(c) =~= seq![rs.first().id] + qd.take(c - 1));
            }
        } else {
            assert(q == qd);
        }
    }
}

/// Every queued id is the id of some request.
proof fn lemma_queued_ids_lower_bound(rs: Seq<RequestModel>, lo: u64)
    requires
        forall|i: int| 0 <= i < rs.len() ==> (#[trigger] rs[i].id) > lo,
    ensures
        forall|j: int| 0 <= j < queued_ids(rs).len() ==> (#[trigger] queued_ids(rs)[j]) > lo,
    decreases rs.len(),
{
    if rs.len() > 0 {
        assert(forall|i: int|
            0 <= i < rs.drop_first().len() ==> (#[trigger] rs.drop_first()[i].id) > lo) by {
            assert(forall|i: int|
                0 <= i < rs.drop_first().len() ==> rs.drop_first()[i] == rs[i + 1]);
        }
        lemma_queued_ids_lower_bound(rs.drop_first(), lo);
        let q = queued_ids(rs);
        let qd = queued_ids(rs.drop_first());
        if rs.first().state is Queued {
            assert(q == seq![rs.first().id] + qd);
            assert(q[0] == rs[0].id);
            assert(rs[0].id > lo);
            assert(forall|j: int| 1 <= j < q.len() ==> (#[trigger] q[j]) == qd[j - 1]);
        } else {
            assert(q == qd);
        }
    }
}

/// Batcher fairness, order: queued requests are scheduled in submission
/// order — the selected ids come out strictly increasing.
pub proof fn lemma_poll_schedules_in_submission_order(rs: Seq<RequestModel>)
    requires
        forall|i: int, j: int| 0 <= i < j < rs.len() ==> (#[trigger] rs[i].id) < (#[trigger] rs[j].id),
    ensures
        forall|a: int, b: int|
            0 <= a < b < queued_ids(rs).len() ==> (#[trigger] queued_ids(rs)[a]) < (
            #[trigger] queued_ids(rs)[b]),
    decreases rs.len(),
{
    if rs.len() > 0 {
        assert(forall|i: int, j: int|
            0 <= i < j < rs.drop_first().len() ==> (#[trigger] rs.drop_first()[i].id) < (
            #[trigger] rs.drop_first()[j].id)) by {
            assert(forall|i: int|
                0 <= i < rs.drop_first().len() ==> rs.drop_first()[i] == rs[i + 1]);
        }
        lemma_poll_schedules_in_submission_order(rs.drop_first());
        if rs.first().state is Queued {
            assert(forall|i: int|
                0 <= i < rs.drop_first().len() ==> (#[trigger] rs.drop_first()[i].id)
                    > rs.first().id) by {
                assert(forall|i: int|
                    0 <= i < rs.drop_first().len() ==> rs.drop_first()[i] == rs[i + 1]);
            }
            lemma_queued_ids_lower_bound(rs.drop_first(), rs.first().id);
            let q = queued_ids(rs);
            let qd = queued_ids(rs.drop_first());
            assert(q == seq![rs.first().id] + qd);
            assert(q[0] == rs.first().id);
            assert(forall|b: int| 1 <= b < q.len() ==> (#[trigger] q[b]) == qd[b - 1]);
            assert forall|a: int, b: int| 0 <= a < b < q.len() implies (#[trigger] q[a]) < (
            #[trigger] q[b]) by {
                if a == 0 {
                    assert(q[b] == qd[b - 1]);
                    assert(qd[b - 1] > rs.first().id);
                } else {
                    assert(q[a] == qd[a - 1]);
                    assert(q[b] == qd[b - 1]);
                }
            }
        } else {
            assert(queued_ids(rs) == queued_ids(rs.drop_first()));
        }
    }
}

/// Batcher fairness, deferral: a scheduling round reorders nothing — the
/// requests keep their submission positions, so the unselected remainder
/// retains its order for the next round.
pub proof fn lemma_poll_preserves_queue_order(rs: Seq<RequestModel>, k: int)
    ensures
        schedule_first(rs, k).len() == rs.len(),
        forall|j: int|
            0 <= j < rs.len() ==> (#[trigger] schedule_first(rs, k)[j].id) == rs[j].id
                && schedule_first(rs, k)[j].submitted_at == rs[j].submitted_at,
    decreases rs.len(),
{
    if rs.len() > 0 {
        lemma_poll_preserves_queue_order(rs.drop_first(), k - 1);
        lemma_poll_preserves_queue_order(rs.drop_first(), k);
        if k > 0 {
            let s = schedule_first(rs, k);
            assert(forall|j: int| 1 <= j < rs.len() ==> rs.drop_first()[j - 1] == rs[j]);
            if rs.first().state is Queued {
                assert(s == seq![
                    RequestModel { state: RequestState::Scheduled, ..rs.first() },
                ] + schedule_first(rs.drop_first(), k - 1));
                assert(s[0].id == rs[0].id && s[0].submitted_at == rs[0].submitted_at);
                assert(forall|j: int|
                    1 <= j < rs.len() ==> (#[trigger] s[j]) == schedule_first(
                        rs.drop_first(),
                        k - 1,
                    )[j - 1]);
            } else {
                assert(s == seq![rs.first()] + schedule_first(rs.drop_first(), k));
                assert(s[0].id == rs[0].id && s[0].submitted_at == rs[0].submitted_at);
                assert(forall|j: int|
                    1 <= j < rs.len() ==> (#[trigger] s[j]) == schedule_first(
                        rs.drop_first(),
                        k,
                    )[j - 1]);
            }
        }
    }
}

/// Exactly-once delivery, first half: a terminal request is frozen. No
/// later completion, failure, cancellation or deferral under its handle
/// changes anything, so a handle never receives a second terminal outcome.
pub proof fn lemma_terminal_state_frozen(
    m: BatcherModel,
    id: u64,
    tokens: Seq<u32>,
    error: BatchError,
)
    requires
        inv(m),
        has_id(m.requests, id),
        is_terminal(m.requests[id_index(m.requests, id)].state),
    ensures
        spec_complete(m, id, tokens) == m,
        spec_fail(m, id, error) == m,
        spec_cancel(m, id) == m,
        spec_defer(m, id) == m,
{
}

/// Exactly-once delivery, second half: a result is handed out at most once.
/// Taking a handle's result empties its slot, so taking it again changes
/// nothing and returns nothing.
pub proof fn lemma_result_delivered_once(m: BatcherModel, id: u64)
    requires
        inv(m),
    ensures
        spec_take_result(spec_take_result(m, id), id) == spec_take_result(m, id),
{
    if has_id(m.requests, id) && m.requests[id_index(m.requests, id)].result is Some {
        let i = id_index(m.requests, id);
        let m2 = spec_take_result(m, id);
        assert(forall|j: int|
            0 <= j < m2.requests.len() && j != i ==> (#[trigger] m2.requests[j])
                == m.requests[j]);
        assert(m2.requests[i].id == id);
        lemma_id_index_unique(m2.requests, id, i);
        assert(m2.requests[i].result is None);
    }
}

/// Within an increasing-id request list, the position found by a scan is the
/// position `id_index` denotes.
proof fn lemma_id_index_unique(rs: Seq<RequestModel>, id: u64, i: int)
    requires
        forall|a: int, b: int|
            0 <= a < b < rs.len() ==> (#[trigger] rs[a].id) < (#[trigger] rs[b].id),
        0 <= i < rs.len(),
        rs[i].id == id,
    ensures
        id_index(rs, id) == i,
        has_id(rs, id),
{
    assert(has_id(rs, id));
    let j = id_index(rs, id);
    assert(0 <= j < rs.len() && rs[j].id == id);
    if i < j {
        assert(rs[i].id < rs[j].id);
    } else if j < i {
        assert(rs[j].id < rs[i].id);
    }
}

spec fn request_model(r: RequestEntry) -> RequestModel {
    RequestModel {
        id: r.id,
        tokens: r.tokens@,
        max_tokens: r.max_tokens,
        stop_token: r.stop_token,
        submitted_at: r.submitted_at,
        state: r.state,
        result: match r.result {
            Some(res) => Some(result_model(res)),
            None => None,
        },
        delivered: r.delivered,
        retries: r.retries,
    }
}

/// Groups independently submitted generation requests into joint
/// forward-pass batches, first-in-first-out, and hands each request's one
/// terminal result back to its submitter.
pub struct DynamicBatcher {
    config: BatchConfig,
    next_id: u64,
    requests: Vec<RequestEntry>,
}

impl View for DynamicBatcher {
    type V = BatcherModel;

    closed spec fn view(&self) -> BatcherModel {
        BatcherModel {
            config: self.config,
            next_id: self.next_id,
            requests: self.requests@.map(|i: int, r: RequestEntry| request_model(r)),
        }
    }
}

impl DynamicBatcher {
    pub open spec fn wf(&self) -> bool {
        inv(self@)
    }

    /// An empty batcher with the given policy.
    pub fn new(config: BatchConfig) -> (r: DynamicBatcher)
        ensures
            r.wf(),
            r@.config == config,
            r@.requests == Seq::<RequestModel>::empty(),
            r@.next_id == 0,
    {
        let r = DynamicBatcher { config, next_id: 0, requests: Vec::new() };
        proof {
            assert(r@.requests =~= Seq::<RequestModel>::empty());
        }
        r
    }

    pub fn config(&self) -> (r: &BatchConfig)
        ensures
            *r == self@.config,
    {
        &self.config
    }

    /// Requests waiting to be selected.
    pub fn queue_depth(&self) -> (r: usize)
        requires
            self.wf(),
        ensures
            r as int == queued_count(self@.requests),
    {
        let n = self.requests.len();
        let mut count: usize = 0;
        let mut i: usize = 0;
        while i < n
            invariant
                self.wf(),
                n == self.requests.len(),
                i <= n,
                count <= i,
                count as int == queued_count(self@.requests.take(i as int)),
            decreases n - i,
        {
            proof {
                assert(self@.requests[i as int] == request_model(self.requests@[i as int]));
                lemma_queued_count_take_step(self@.requests, i as int);
            }
            if matches!(self.requests[i].state, RequestState::Queued) {
                count += 1;
            }
            i += 1;
        }
        proof {
            assert(self@.requests.take(n as int) =~= self@.requests);
        }
        count
    }

    /// All requests ever submitted and not yet forgotten.
    pub fn request_count(&self) -> (r: usize)
        ensures
            r == self@.requests.len(),
    {
        self.requests.len()
    }

    /// The id the next submission will get; [`Self::submit`] asks that it
    /// has not reached the numeric limit.
    pub fn next_request_id(&self) -> (r: u64)
        ensures
            r == self@.next_id,
    {
        self.next_id
    }

    /// Enqueues a request and returns the handle its result will be
    /// delivered through. Never blocks the submitter.
    pub fn submit(&mut self, request: BatchRequest, now: u64) -> (h: DynamicBatcherHandle)
        requires
            old(self).wf(),
            old(self)@.next_id < u64::MAX,
        ensures
            final(self).wf(),
            h.id == old(self)@.next_id,
            final(self)@.config == old(self)@.config,
            final(self)@.next_id == old(self)@.next_id + 1,
            final(self)@.requests == old(self)@.requests.push(
                new_request_model(request, h.id, now),
            ),
    {
        let id = self.next_id;
        let ghost m = self@;
        let entry = RequestEntry {
            id,
            tokens: request.tokens,
            max_tokens: request.max_tokens,
            stop_token: request.stop_token,
            submitted_at: now,
            state: RequestState::Queued,
            result: None,
            delivered: false,
            retries: 0,
        };
        self.requests.push(entry);
        self.next_id = self.next_id + 1;
        proof {
            assert(self@.requests =~= m.requests.push(new_request_model(request, id, now)));
            assert(forall|i: int|
                0 <= i < m.requests.len() ==> self@.requests[i] == m.requests[i]);
        }
        DynamicBatcherHandle { id }
    }

    /// Whether the next execution round is due: the queue has reached the
    /// batch size, or the oldest queued request has waited out the window.
    pub fn should_flush(&self, now: u64) -> (r: bool)
        requires
            self.wf(),
        ensures
            r == spec_should_flush(self@, now),
    {
        let depth = self.queue_depth();
        if depth >= self.config.max_batch_size {
            return true;
        }
        let n = self.requests.len();
        let mut i: usize = 0;
        while i < n
            invariant
                self.wf(),
                n == self.requests.len(),
                i <= n,
                forall|j: int|
                    0 <= j < i ==> !((#[trigger] self@.requests[j]).state is Queued
                        && self@.requests[j].submitted_at + self@.config.max_wait_ms <= now),
            decreases n - i,
        {
            proof {
                assert(self@.requests[i as int] == request_model(self.requests@[i as int]));
            }
            let waited = matches!(self.requests[i].state, RequestState::Queued)
                && now >= self.requests[i].submitted_at
                && now - self.requests[i].submitted_at >= self.config.max_wait_ms;
            if waited {
                proof {
                    assert(self@.requests[i as int].state is Queued);
                    assert(self@.requests[i as int].submitted_at + self@.config.max_wait_ms
                        <= now);
                }
                return true;
            }
            i += 1;
        }
        false
    }

    /// Selects up to `max_batch_size` queued requests, oldest first, marks
    /// them `Scheduled` and returns their handles in submission order.
    /// Requests left queued keep their place for the next round.
    pub fn poll_batch(&mut self) -> (r: Vec<DynamicBatcherHandle>)
        requires
            old(self).wf(),
        ensures
            final(self).wf(),
            final(self)@.config == old(self)@.config,
            final(self)@.next_id == old(self)@.next_id,
            final(self)@.requests == schedule_first(
                old(self)@.requests,
                old(self)@.config.max_batch_size as int,
            ),
            r@.map_values(|h: DynamicBatcherHandle| h.id) == first_queued_ids(
                old(self)@.requests,
                old(self)@.config.max_batch_size as int,
            ),
    {
        let ghost m = self@;
        let ghost k = self.config.max_batch_size as int;
        let mut handles: Vec<DynamicBatcherHandle> = Vec::new();
        let mut remaining: usize = self.config.max_batch_size;
        let n = self.requests.len();
        let mut i: usize = 0;
        proof {
            assert(m.requests.skip(0) =~= m.requests);
            assert(self@.requests.take(0) =~= Seq::<RequestModel>::empty());
            assert(handles@.map_values(|h: DynamicBatcherHandle| h.id) =~= Seq::<u64>::empty());
        }
        while i < n && remaining > 0
            invariant
                inv(self@),
                m == old(self)@,
                inv(m),
                k == m.config.max_batch_size,
                self@.config == m.config,
                self@.next_id == m.next_id,
                n == self.requests.len(),
                n == m.requests.len(),
                i <= n,
                remaining <= m.config.max_batch_size,
                handles@.len() == k - remaining,
                self@.requests.len() == n,
                self@.requests.skip(i as int) =~= m.requests.skip(i as int),
                schedule_first(m.requests, k) =~= self@.requests.take(i as int) + schedule_first(
                    m.requests.skip(i as int),
                    remaining as int,
                ),
                first_queued_ids(m.requests, k) =~= handles@.map_values(
                    |h: DynamicBatcherHandle| h.id,
                ) + first_queued_ids(m.requests.skip(i as int), remaining as int),
            decreases n - i,
        {
            proof {
                assert(self@.requests[i as int] == request_model(self.requests@[i as int]));
                assert(m.requests.skip(i as int).first() == m.requests[i as int]);
                assert(m.requests.skip(i as int).drop_first() =~= m.requests.skip(i as int + 1));
                assert(self@.requests[i as int] == m.requests.skip(i as int)[0]);
            }
            let ghost before = self@;
            if matches!(self.requests[i].state, RequestState::Queued) {
                let id = self.requests[i].id;
                self.requests[i].state = RequestState::Scheduled;
                handles.push(DynamicBatcherHandle { id });
                remaining -= 1;
                proof {
                    let sched = RequestModel {
                        state: RequestState::Scheduled,
                        ..m.requests[i as int]
                    };
                    assert(self@.requests =~= before.requests.update(i as int, sched));
                    assert(forall|j: int|
                        0 <= j < n && j != i ==> self@.requests[j] == before.requests[j]);
                    assert(request_wf(self@.requests[i as int]));
                    assert(self@.requests.skip(i as int + 1) =~= m.requests.skip(i as int + 1));
                    assert(self@.requests.take(i as int + 1) =~= before.requests.take(
                        i as int,
                    ).push(sched));
                    assert(schedule_first(m.requests.skip(i as int), remaining as int + 1)
                        =~= seq![sched] + schedule_first(
                        m.requests.skip(i as int + 1),
                        remaining as int,
                    ));
                    assert(schedule_first(m.requests, k) =~= self@.requests.take(i as int + 1)
                        + schedule_first(m.requests.skip(i as int + 1), remaining as int));
                    assert(first_queued_ids(m.requests.skip(i as int), remaining as int + 1)
                        =~= seq![m.requests[i as int].id] + first_queued_ids(
                        m.requests.skip(i as int + 1),
                        remaining as int,
                    ));
                    assert(handles@.map_values(|h: DynamicBatcherHandle| h.id)
                        =~= handles@.take(handles@.len() - 1).map_values(
                        |h: DynamicBatcherHandle| h.id,
                    ).push(id));
                    assert(first_queued_ids(m.requests, k) =~= handles@.map_values(
                        |h: DynamicBatcherHandle| h.id,
                    ) + first_queued_ids(m.requests.skip(i as int + 1), remaining as int));
                }
            } else {
                proof {
                    assert(schedule_first(m.requests.skip(i as int), remaining as int)
                        =~= seq![m.requests[i as int]] + schedule_first(
                        m.requests.skip(i as int + 1),
                        remaining as int,
                    ));
                    assert(self@.requests.take(i as int + 1) =~= self@.requests.take(
                        i as int,
                    ).push(self@.requests[i as int]));
                    assert(schedule_first(m.requests, k) =~= self@.requests.take(i as int + 1)
                        + schedule_first(m.requests.skip(i as int + 1), remaining as int));
                    assert(first_queued_ids(m.requests.skip(i as int), remaining as int)
                        =~= first_queued_ids(m.requests.skip(i as int + 1), remaining as int));
                }
            }
            i += 1;
        }
        proof {
            if remaining == 0 {
                assert(schedule_first(m.requests.skip(i as int), 0) =~= m.requests.skip(i as int));
                assert(first_queued_ids(m.requests.skip(i as int), 0) =~= Seq::<u64>::empty());
                assert(self@.requests =~= self@.requests.take(i as int) + self@.requests.skip(
                    i as int,
                ));
            } else {
                assert(i == n);
                assert(m.requests.skip(n as int) =~= Seq::<RequestModel>::empty());
                assert(schedule_first(m.requests.skip(n as int), remaining as int)
                    =~= Seq::<RequestModel>::empty());
                assert(first_queued_ids(m.requests.skip(n as int), remaining as int)
                    =~= Seq::<u64>::empty());
                assert(self@.requests =~= self@.requests.take(n as int));
            }
            assert(self@.requests =~= schedule_first(m.requests, k));
            assert(handles@.map_values(|h: DynamicBatcherHandle| h.id) =~= first_queued_ids(
                m.requests,
                k,
            ));
        }
        handles
    }

    /// Marks a scheduled request as running in the current round.
    pub fn mark_running(&mut self, handle: DynamicBatcherHandle) -> (r: bool)
        requires
            old(self).wf(),
        ensures
            final(self).wf(),
            final(self)@ == spec_mark_running(old(self)@, handle.id),
            r == (has_id(old(self)@.requests, handle.id) && old(self)@.requests[id_index(
                old(self)@.requests,
                handle.id,
            )].state is Scheduled),
    {
        let n = self.requests.len();
        let mut i: usize = 0;
        while i < n
            invariant
                self.wf(),
                *self == *old(self),
                n == self.requests.len(),
                i <= n,
                forall|j: int| 0 <= j < i ==> (#[trigger] self@.requests[j]).id != handle.id,
            decreases n - i,
        {
            proof {
                assert(self@.requests[i as int] == request_model(self.requests@[i as int]));
            }
            if self.requests[i].id == handle.id {
                proof {
                    lemma_id_index_unique(self@.requests, handle.id, i as int);
                }
                if matches!(self.requests[i].state, RequestState::Scheduled) {
                    let ghost m = self@;
                    self.requests[i].state = RequestState::Running;
                    proof {
                        assert(self@.requests =~= m.requests.update(
                            i as int,
                            RequestModel { state: RequestState::Running, ..m.requests[i as int] },
                        ));
                        assert(forall|j: int|
                            0 <= j < m.requests.len() && j != i ==> self@.requests[j]
                                == m.requests[j]);
                        assert(request_wf(self@.requests[i as int]));
                    }
                    return true;
                } else {
                    return false;
                }
            }
            i += 1;
        }
        proof {
            assert(!has_id(self@.requests, handle.id));
        }
        false
    }

    /// Reports a request completed with its generated tokens. True exactly
    /// when the request was scheduled or running; a terminal request is
    /// never touched again.
    pub fn complete(&mut self, handle: DynamicBatcherHandle, tokens: Vec<u32>) -> (r: bool)
        requires
            old(self).wf(),
        ensures
            final(self).wf(),
            final(self)@ == spec_complete(old(self)@, handle.id, tokens@),
            r == (has_id(old(self)@.requests, handle.id) && is_deliverable(
                old(self)@.requests[id_index(old(self)@.requests, handle.id)].state,
            )),
    {
        let n = self.requests.len();
        let mut i: usize = 0;
        while i < n
            invariant
                self.wf(),
                *self == *old(self),
                n == self.requests.len(),
                i <= n,
                forall|j: int| 0 <= j < i ==> (#[trigger] self@.requests[j]).id != handle.id,
            decreases n - i,
        {
            proof {
                assert(self@.requests[i as int] == request_model(self.requests@[i as int]));
            }
            if self.requests[i].id == handle.id {
                proof {
                    lemma_id_index_unique(self@.requests, handle.id, i as int);
                }
                let deliverable = matches!(
                    self.requests[i].state,
                    RequestState::Scheduled | RequestState::Running
                );
                if deliverable {
                    let ghost m = self@;
                    self.requests[i].state = RequestState::Completed;
                    self.requests[i].result = Some(BatchResult::Completed(tokens));
                    proof {
                        assert(self@.requests =~= m.requests.update(
                            i as int,
                            finish_request(
                                m.requests[i as int],
                                RequestState::Completed,
                                ResultModel::Completed(tokens@),
                            ),
                        ));
                        assert(forall|j: int|
                            0 <= j < m.requests.len() && j != i ==> self@.requests[j]
                                == m.requests[j]);
                        assert(request_wf(self@.requests[i as int]));
                    }
                    return true;
                } else {
                    return false;
                }
            }
            i += 1;
        }
        proof {
            assert(!has_id(self@.requests, handle.id));
        }
        false
    }

    /// Reports a request failed by the model backend. True exactly when the
    /// request was scheduled or running.
    pub fn fail(&mut self, handle: DynamicBatcherHandle, error: BatchError) -> (r: bool)
        requires
            old(self).wf(),
        ensures
            final(self).wf(),
            final(self)@ == spec_fail(old(self)@, handle.id, error),
            r == (has_id(old(self)@.requests, handle.id) && is_deliverable(
                old(self)@.requests[id_index(old(self)@.requests, handle.id)].state,
            )),
    {
        let n = self.requests.len();
        let mut i: usize = 0;
        while i < n
            invariant
                self.wf(),
                *self == *old(self),
                n == self.requests.len(),
                i <= n,
                forall|j: int| 0 <= j < i ==> (#[trigger] self@.requests[j]).id != handle.id,
            decreases n - i,
        {
            proof {
                assert(self@.requests[i as int] == request_model(self.requests@[i as int]));
            }
            if self.requests[i].id == handle.id {
                proof {
                    lemma_id_index_unique(self@.requests, handle.id, i as int);
                }
                let deliverable = matches!(
                    self.requests[i].state,
                    RequestState::Scheduled | RequestState::Running
                );
                if deliverable {
                    let ghost m = self@;
                    self.requests[i].state = RequestState::Failed;
                    self.requests[i].result = Some(BatchResult::Failed(error));
                    proof {
                        assert(self@.requests =~= m.requests.update(
                            i as int,
                            finish_request(
                                m.requests[i as int],
                                RequestState::Failed,
                                ResultModel::Failed(error),
                            ),
                        ));
                        assert(forall|j: int|
                            0 <= j < m.requests.len() && j != i ==> self@.requests[j]
                                == m.requests[j]);
                        assert(request_wf(self@.requests[i as int]));
                    }
                    return true;
                } else {
                    return false;
                }
            }
            i += 1;
        }
        proof {
            assert(!has_id(self@.requests, handle.id));
        }
        false
    }

    /// Withdraws a request: a queued, scheduled or running request becomes
    /// `Cancelled`; one already terminal is left alone. True exactly when
    /// the cancellation took effect.
    pub fn cancel(&mut self, handle: DynamicBatcherHandle) -> (r: bool)
        requires
            old(self).wf(),
        ensures
            final(self).wf(),
            final(self)@ == spec_cancel(old(self)@, handle.id),
            r == (has_id(old(self)@.requests, handle.id) && !is_terminal(
                old(self)@.requests[id_index(old(self)@.requests, handle.id)].state,
            )),
    {
        let n = self.requests.len();
        let mut i: usize = 0;
        while i < n
            invariant
                self.wf(),
                *self == *old(self),
                n == self.requests.len(),
                i <= n,
                forall|j: int| 0 <= j < i ==> (#[trigger] self@.requests[j]).id != handle.id,
            decreases n - i,
        {
            proof {
                assert(self@.requests[i as int] == request_model(self.requests@[i as int]));
            }
            if self.requests[i].id == handle.id {
                proof {
                    lemma_id_index_unique(self@.requests, handle.id, i as int);
                }
                let live = matches!(
                    self.requests[i].state,
                    RequestState::Queued | RequestState::Scheduled | RequestState::Running
                );
                if live {
                    let ghost m = self@;
                    self.requests[i].state = RequestState::Cancelled;
                    self.requests[i].result = Some(BatchResult::Cancelled);
                    proof {
                        assert(self@.requests =~= m.requests.update(
                            i as int,
                            finish_request(
                                m.requests[i as int],
                                RequestState::Cancelled,
                                ResultModel::Cancelled,
                            ),
                        ));
                        assert(forall|j: int|
                            0 <= j < m.requests.len() && j != i ==> self@.requests[j]
                                == m.requests[j]);
                        assert(request_wf(self@.requests[i as int]));
                    }
                    return true;
                } else {
                    return false;
                }
            }
            i += 1;
        }
        proof {
            assert(!has_id(self@.requests, handle.id));
        }
        false
    }

    /// Defers a scheduled request whose key/value capacity could not be
    /// satisfied this round: it goes back to `Queued` keeping its place in
    /// submission order, unless the retry limit is reached, in which case it
    /// fails with an out-of-memory reason.
    pub fn defer(&mut self, handle: DynamicBatcherHandle)
        requires
            old(self).wf(),
        ensures
            final(self).wf(),
            final(self)@ == spec_defer(old(self)@, handle.id),
    {
        let n = self.requests.len();
        let mut i: usize = 0;
        while i < n
            invariant
                self.wf(),
                *self == *old(self),
                n == self.requests.len(),
                i <= n,
                forall|j: int| 0 <= j < i ==> (#[trigger] self@.requests[j]).id != handle.id,
            decreases n - i,
        {
            proof {
                assert(self@.requests[i as int] == request_model(self.requests@[i as int]));
            }
            if self.requests[i].id == handle.id {
                proof {
                    lemma_id_index_unique(self@.requests, handle.id, i as int);
                }
                if matches!(self.requests[i].state, RequestState::Scheduled) {
                    let ghost m = self@;
                    if self.requests[i].retries >= self.config.max_retries {
                        self.requests[i].state = RequestState::Failed;
                        self.requests[i].result = Some(
                            BatchResult::Failed(BatchError::OutOfMemory),
                        );
                        proof {
                            assert(self@.requests =~= m.requests.update(
                                i as int,
                                finish_request(
                                    m.requests[i as int],
                                    RequestState::Failed,
                                    ResultModel::Failed(BatchError::OutOfMemory),
                                ),
                            ));
                            assert(forall|j: int|
                                0 <= j < m.requests.len() && j != i ==> self@.requests[j]
                                    == m.requests[j]);
                            assert(request_wf(self@.requests[i as int]));
                        }
                    } else {
                        let retries = self.requests[i].retries;
                        self.requests[i].state = RequestState::Queued;
                        self.requests[i].retries = retries + 1;
                        proof {
                            assert(self@.requests =~= m.requests.update(
                                i as int,
                                RequestModel {
                                    state: RequestState::Queued,
                                    retries: (m.requests[i as int].retries + 1) as u32,
                                    ..m.requests[i as int]
                                },
                            ));
                            assert(forall|j: int|
                                0 <= j < m.requests.len() && j != i ==> self@.requests[j]
                                    == m.requests[j]);
                            assert(request_wf(self@.requests[i as int]));
                        }
                    }
                }
                return ;
            }
            i += 1;
        }
        proof {
            assert(!has_id(self@.requests, handle.id));
        }
    }

    /// The input tokens of a tracked request.
    pub fn tokens_of(&self, handle: DynamicBatcherHandle) -> (r: Option<&Vec<u32>>)
        requires
            self.wf(),
        ensures
            match r {
                Some(t) => has_id(self@.requests, handle.id) && t@ == self@.requests[id_index(
                    self@.requests,
                    handle.id,
                )].tokens,
                None => !has_id(self@.requests, handle.id),
            },
    {
        let n = self.requests.len();
        let mut i: usize = 0;
        while i < n
            invariant
                self.wf(),
                n == self.requests.len(),
                i <= n,
                forall|j: int| 0 <= j < i ==> (#[trigger] self@.requests[j]).id != handle.id,
            decreases n - i,
        {
            proof {
                assert(self@.requests[i as int] == request_model(self.requests@[i as int]));
            }
            if self.requests[i].id == handle.id {
                proof {
                    lemma_id_index_unique(self@.requests, handle.id, i as int);
                }
                return Some(&self.requests[i].tokens);
            }
            i += 1;
        }
        proof {
            assert(!has_id(self@.requests, handle.id));
        }
        None
    }

    /// Hands out a terminal request's result, exactly once: the first call
    /// after the terminal transition returns it, every later call returns
    /// `None`.
    pub fn take_result(&mut self, handle: DynamicBatcherHandle) -> (r: Option<BatchResult>)
        requires
            old(self).wf(),
        ensures
            final(self).wf(),
            final(self)@ == spec_take_result(old(self)@, handle.id),
            match r {
                Some(res) => {
                    &&& has_id(old(self)@.requests, handle.id)
                    &&& old(self)@.requests[id_index(old(self)@.requests, handle.id)].result
                        == Some(result_model(res))
                    &&& result_matches_state(
                        result_model(res),
                        old(self)@.requests[id_index(old(self)@.requests, handle.id)].state,
                    )
                },
                None => !(has_id(old(self)@.requests, handle.id) && old(self)@.requests[id_index(
                    old(self)@.requests,
                    handle.id,
                )].result is Some),
            },
    {
        let n = self.requests.len();
        let mut i: usize = 0;
        while i < n
            invariant
                self.wf(),
                *self == *old(self),
                n == self.requests.len(),
                i <= n,
                forall|j: int| 0 <= j < i ==> (#[trigger] self@.requests[j]).id != handle.id,
            decreases n - i,
        {
            proof {
                assert(self@.requests[i as int] == request_model(self.requests@[i as int]));
            }
            if self.requests[i].id == handle.id {
                proof {
                    lemma_id_index_unique(self@.requests, handle.id, i as int);
                }
                let ghost m = self@;
                let res = self.requests[i].result.take();
                match res {
                    Some(res) => {
                        self.requests[i].delivered = true;
                        proof {
                            assert(self@.requests =~= m.requests.update(
                                i as int,
                                RequestModel {
                                    result: None,
                                    delivered: true,
                                    ..m.requests[i as int]
                                },
                            ));
                            assert(forall|j: int|
                                0 <= j < m.requests.len() && j != i ==> self@.requests[j]
                                    == m.requests[j]);
                            assert(request_wf(self@.requests[i as int]));
                        }
                        return Some(res);
                    },
                    None => {
                        proof {
                            assert(self@.requests =~= m.requests);
                        }
                        return None;
                    },
                }
            }
            i += 1;
        }
        proof {
            assert(!has_id(self@.requests, handle.id));
        }
        None
    }
}

} // verus!
