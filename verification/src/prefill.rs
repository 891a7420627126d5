//! Prefill admission planning: which pending requests enter the next prefill
//! batch, how much of each prompt runs this tick (possibly chunked), and the
//! flat mappings the device kernels consume.

use vstd::prelude::*;

verus! {

/// Failures of the admission planner.
#[derive(Debug, Clone, PartialEq, Eq)]
pub enum PrefillError {
    /// A request with an empty prompt reached allocation.
    EmptyInput,
    /// The slot table reported room but then failed to allocate.
    TableExhausted,
    /// The collaborating cache returned an error string.
    CacheBackend(String),
}

/// A request waiting for admission. `chunked_req` is present iff the request
/// was partially scheduled in an earlier tick.
#[derive(Debug)]
pub struct PendingReq<H> {
    pub uid: u64,
    pub input_ids: Vec<i32>,
    pub output_len: usize,
    pub chunked_req: Option<ChunkedReqState<H>>,
}

/// What a partially scheduled request keeps across ticks: its cache handle,
/// its table slot, and how many tokens are on device so far.
#[derive(Debug)]
pub struct ChunkedReqState<H> {
    pub cache_handle: H,
    pub table_idx: i32,
    pub cached_len: usize,
}

/// One admitted request of a prefill batch.
#[derive(Debug, Clone)]
pub struct ScheduledReq<H> {
    pub uid: u64,
    pub table_idx: i32,
    pub cached_len: usize,
    pub device_len: usize,
    pub max_device_len: usize,
    pub output_len: usize,
    pub cache_handle: H,
    pub is_chunked: bool,
}

/// `a - b`, floored at zero.
pub open spec fn sat_sub(a: int, b: int) -> int {
    if a >= b {
        a - b
    } else {
        0
    }
}

/// The smaller of two values.
pub open spec fn int_min(a: int, b: int) -> int {
    if a <= b {
        a
    } else {
        b
    }
}

/// Tokens this request still owes after this tick.
pub open spec fn spec_remain_len<H>(r: ScheduledReq<H>) -> int {
    sat_sub(r.max_device_len as int, r.device_len as int)
}

/// Tokens this request actually runs in this tick.
pub open spec fn spec_extend_len<H>(r: ScheduledReq<H>) -> int {
    sat_sub(r.device_len as int, r.cached_len as int)
}

/// Whether the model emits a token for this request on this step.
pub open spec fn spec_can_decode<H>(r: ScheduledReq<H>) -> bool {
    !r.is_chunked && r.output_len > 0
}

/// The shape every scheduled request has at the moment of scheduling.
pub open spec fn sched_wf<H>(r: ScheduledReq<H>) -> bool {
    &&& r.cached_len <= r.device_len <= r.max_device_len
    &&& r.max_device_len == r.device_len + r.output_len
}

impl<H> PendingReq<H> {
    pub fn input_len(&self) -> (n: usize)
        ensures
            n == self.input_ids@.len(),
    {
        self.input_ids.len()
    }
}

impl<H: Clone> Clone for ChunkedReqState<H> {
    fn clone(&self) -> (r: Self)
        ensures
            r.table_idx == self.table_idx,
            r.cached_len == self.cached_len,
    {
        ChunkedReqState {
            cache_handle: self.cache_handle.clone(),
            table_idx: self.table_idx,
            cached_len: self.cached_len,
        }
    }
}

/// The parts of two chunked states that the planner's contracts track: the
/// slot and the on-device length (the cloned handle itself is opaque).
pub open spec fn chunk_like<H>(a: Option<ChunkedReqState<H>>, b: Option<ChunkedReqState<H>>) -> bool {
    match (a, b) {
        (Option::None, Option::None) => true,
        (Option::Some(x), Option::Some(y)) => x.table_idx == y.table_idx && x.cached_len
            == y.cached_len,
        _ => false,
    }
}

/// Two pending requests that agree on everything the planner reads.
pub open spec fn pending_like<H>(a: PendingReq<H>, b: PendingReq<H>) -> bool {
    &&& a.uid == b.uid
    &&& a.input_ids@ == b.input_ids@
    &&& a.output_len == b.output_len
    &&& chunk_like(a.chunked_req, b.chunked_req)
}

impl<H: Clone> Clone for PendingReq<H> {
    fn clone(&self) -> (r: Self)
        ensures
            pending_like(r, *self),
    {
        PendingReq {
            uid: self.uid,
            input_ids: clone_ids(&self.input_ids),
            output_len: self.output_len,
            chunked_req: match &self.chunked_req {
                Option::Some(st) => Option::Some(st.clone()),
                Option::None => Option::None,
            },
        }
    }
}

/// Copies a token-id vector element by element.
fn clone_ids(ids: &Vec<i32>) -> (r: Vec<i32>)
    ensures
        r@ == ids@,
{
    let mut r: Vec<i32> = Vec::new();
    let n = ids.len();
    for i in 0..n
        invariant
            n == ids@.len(),
            r@ == ids@.take(i as int),
    {
        r.push(ids[i]);
        proof {
            assert(r@ =~= ids@.take(i + 1 as int));
        }
    }
    proof {
        assert(ids@.take(n as int) =~= ids@);
    }
    r
}

impl<H> ScheduledReq<H> {
    pub fn remain_len(&self) -> (n: usize)
        ensures
            n == spec_remain_len(*self),
    {
        if self.max_device_len >= self.device_len {
            self.max_device_len - self.device_len
        } else {
            0
        }
    }

    pub fn extend_len(&self) -> (n: usize)
        ensures
            n == spec_extend_len(*self),
    {
        if self.device_len >= self.cached_len {
            self.device_len - self.cached_len
        } else {
            0
        }
    }

    pub fn can_decode(&self) -> (b: bool)
        ensures
            b == spec_can_decode(*self),
    {
        !self.is_chunked && self.output_len > 0
    }
}

/// What the collaborator cache reports for one admission probe.
#[derive(Debug, Clone)]
pub struct CacheMatch<H> {
    pub handle: H,
    pub cached_len: usize,
    pub match_indices: Vec<i32>,
}

/// The refcounted cache interface the planner requires from the serving
/// stack. Implementations decide what is matched and how locking affects the
/// available size; the planner is verified for every possible answer.
pub trait PrefillCache {
    type Handle: Clone;

    fn match_req(&mut self, input_ids_without_last: &[i32]) -> Result<
        CacheMatch<Self::Handle>,
        String,
    >;

    fn lock(&mut self, handle: &Self::Handle) -> Result<(), String>;

    fn unlock(&mut self, handle: &Self::Handle) -> Result<(), String>;

    fn available_size(&self) -> usize;
}

/// The slot pool interface: distinct slot ids while slots remain.
pub trait PrefillTable {
    fn available_size(&self) -> usize;

    fn allocate(&mut self) -> Option<i32>;
}

/// Budget state of one admission pass over the pending queue.
#[derive(Debug, Clone, PartialEq, Eq, Structural)]
pub struct PrefillAdder {
    pub token_budget: usize,
    pub reserved_size: usize,
}

impl PrefillAdder {
    /// Probes cache and table for a not-yet-chunked request: matches the
    /// prompt minus its last token, reserves capacity, locks the handle
    /// (rolling back if locking itself consumed capacity), and allocates a
    /// slot. `Ok(None)` means "no admission this tick", not an error.
    fn try_allocate_one<C: PrefillCache, T: PrefillTable>(
        &mut self,
        cache: &mut C,
        table: &mut T,
        req: &PendingReq<C::Handle>,
    ) -> (r: Result<Option<ChunkedReqState<C::Handle>>, PrefillError>)
        ensures
            *final(self) == *old(self),
            match r {
                Ok(Some(st)) => req.input_ids@.len() > 0 && st.cached_len < req.input_ids@.len(),
                Ok(None) => true,
                Err(e) => e == PrefillError::EmptyInput ==> req.input_ids@.len() == 0,
            },
    {
        if table.available_size() == 0 {
            return Ok(None);
        }

        let input_len = req.input_len();
        if input_len == 0 {
            return Err(PrefillError::EmptyInput);
        }

        let match_input = req.input_ids.split_at(input_len - 1).0;
        let matched = match cache.match_req(match_input) {
            Ok(m) => m,
            Err(msg) => {
                return Err(PrefillError::CacheBackend(msg));
            },
        };
        // The collaborator contract says the match excludes the final token;
        // a longer answer is clamped so the last token always runs.
        let cached_len = if matched.cached_len < input_len - 1 {
            matched.cached_len
        } else {
            input_len - 1
        };

        let extend_len = input_len - cached_len;
        if req.output_len > usize::MAX - extend_len {
            return Ok(None);
        }
        let estimated_len = extend_len + req.output_len;
        if estimated_len > usize::MAX - self.reserved_size
            || estimated_len + self.reserved_size > cache.available_size() {
            return Ok(None);
        }

        if let Err(msg) = cache.lock(&matched.handle) {
            return Err(PrefillError::CacheBackend(msg));
        }
        if estimated_len + self.reserved_size > cache.available_size() {
            if let Err(msg) = cache.unlock(&matched.handle) {
                return Err(PrefillError::CacheBackend(msg));
            }
            return Ok(None);
        }

        let table_idx = match table.allocate() {
            Some(idx) => idx,
            None => {
                return Err(PrefillError::TableExhausted);
            },
        };
        Ok(Some(ChunkedReqState { cache_handle: matched.handle, table_idx, cached_len }))
    }

    /// Commits one allocated request under the current budget: picks the
    /// chunk size, charges the budget, reserves the still-to-do cost, and
    /// emits the scheduled request.
    fn add_one_req<H>(
        &mut self,
        pending_req: &PendingReq<H>,
        allocated: ChunkedReqState<H>,
    ) -> (r: ScheduledReq<H>)
        requires
            allocated.cached_len <= pending_req.input_ids@.len(),
            old(self).reserved_size + pending_req.input_ids@.len() + pending_req.output_len
                <= usize::MAX,
        ensures
            ({
                let remain = sat_sub(pending_req.input_ids@.len() as int, allocated.cached_len as int);
                let chunk = int_min(old(self).token_budget as int, remain);
                &&& r.uid == pending_req.uid
                &&& r.table_idx == allocated.table_idx
                &&& r.cached_len == allocated.cached_len
                &&& r.device_len == allocated.cached_len + chunk
                &&& r.max_device_len == r.device_len + pending_req.output_len
                &&& r.output_len == pending_req.output_len
                &&& r.cache_handle == allocated.cache_handle
                &&& r.is_chunked == (chunk < remain)
                &&& sched_wf(r)
                &&& spec_extend_len(r) == chunk
                &&& final(self).token_budget == old(self).token_budget - chunk
                &&& final(self).reserved_size == old(self).reserved_size + remain
                    + pending_req.output_len
            }),
    {
        let input_len = pending_req.input_len();
        let remain_len = input_len - allocated.cached_len;
        let chunk_size = if self.token_budget <= remain_len {
            self.token_budget
        } else {
            remain_len
        };
        let is_chunked = chunk_size < remain_len;

        self.token_budget = self.token_budget - chunk_size;
        self.reserved_size = self.reserved_size + remain_len + pending_req.output_len;

        let device_len = allocated.cached_len + chunk_size;
        ScheduledReq {
            uid: pending_req.uid,
            table_idx: allocated.table_idx,
            cached_len: allocated.cached_len,
            device_len,
            max_device_len: device_len + pending_req.output_len,
            output_len: pending_req.output_len,
            cache_handle: allocated.cache_handle,
            is_chunked,
        }
    }

    /// Admits one pending request if the budget and the collaborators allow
    /// it. A request that already carries chunked state reuses its handle,
    /// slot and cached length without touching cache or table.
    pub fn try_add_one<C: PrefillCache, T: PrefillTable>(
        &mut self,
        cache: &mut C,
        table: &mut T,
        pending_req: &PendingReq<C::Handle>,
    ) -> (r: Result<Option<ScheduledReq<C::Handle>>, PrefillError>)
        requires
            old(self).reserved_size + pending_req.input_ids@.len() + pending_req.output_len
                <= usize::MAX,
            pending_req.chunked_req matches Some(st) ==> st.cached_len
                <= pending_req.input_ids@.len(),
        ensures
            old(self).token_budget == 0 ==> r matches Ok(None),
            old(self).token_budget > 0 && pending_req.chunked_req is Some ==> r matches Ok(
                Some(_),
            ),
            match r {
                Ok(Some(req)) => {
                    let remain = sat_sub(
                        pending_req.input_ids@.len() as int,
                        req.cached_len as int,
                    );
                    let chunk = int_min(old(self).token_budget as int, remain);
                    &&& old(self).token_budget > 0
                    &&& req.uid == pending_req.uid
                    &&& req.output_len == pending_req.output_len
                    &&& req.cached_len <= pending_req.input_ids@.len()
                    &&& req.device_len == req.cached_len + chunk
                    &&& sched_wf(req)
                    &&& spec_extend_len(req) == chunk
                    &&& req.is_chunked == (req.device_len < pending_req.input_ids@.len())
                    &&& (pending_req.chunked_req matches Some(st) ==> req.cached_len
                        == st.cached_len && req.table_idx == st.table_idx)
                    &&& final(self).token_budget == old(self).token_budget - chunk
                    &&& final(self).reserved_size == old(self).reserved_size + remain
                        + pending_req.output_len
                },
                Ok(None) => *final(self) == *old(self),
                Err(e) => *final(self) == *old(self) && (e == PrefillError::EmptyInput
                    ==> pending_req.input_ids@.len() == 0),
            },
    {
        if self.token_budget == 0 {
            return Ok(None);
        }

        if let Some(chunked) = &pending_req.chunked_req {
            let allocated = chunked.clone();
            let req = self.add_one_req(pending_req, allocated);
            proof {
                let remain = sat_sub(pending_req.input_ids@.len() as int, req.cached_len as int);
                let chunk = int_min(old(self).token_budget as int, remain);
                assert(req.is_chunked == (req.device_len < pending_req.input_ids@.len()));
            }
            return Ok(Some(req));
        }

        match self.try_allocate_one(cache, table, pending_req)? {
            Some(allocated) => {
                let req = self.add_one_req(pending_req, allocated);
                Ok(Some(req))
            },
            None => Ok(None),
        }
    }
}

/// The admitted requests of one tick.
#[derive(Debug)]
pub struct PrefillBatch<H> {
    pub reqs: Vec<ScheduledReq<H>>,
}

/// Sum of `input_len + output_len` over a pending queue; what one admission
/// pass can at most add to its reservation.
pub open spec fn pending_cost<H>(s: Seq<PendingReq<H>>) -> int
    decreases s.len(),
{
    if s.len() == 0 {
        0
    } else {
        s[0].input_ids@.len() + s[0].output_len + pending_cost(s.drop_first())
    }
}

/// Every chunked state in the queue fits inside its own prompt.
pub open spec fn pending_ok<H>(s: Seq<PendingReq<H>>) -> bool {
    forall|i: int|
        0 <= i < s.len() ==> match #[trigger] s[i].chunked_req {
            Option::Some(st) => st.cached_len <= s[i].input_ids@.len(),
            Option::None => true,
        }
}

/// Sum of extend lengths over a batch: the tokens it introduces on device.
pub open spec fn total_extend<H>(s: Seq<ScheduledReq<H>>) -> int
    decreases s.len(),
{
    if s.len() == 0 {
        0
    } else {
        total_extend(s.drop_last()) + spec_extend_len(s.last())
    }
}

/// How many requests of a batch were chunked.
pub open spec fn chunked_count<H>(s: Seq<ScheduledReq<H>>) -> int
    decreases s.len(),
{
    if s.len() == 0 {
        0
    } else {
        chunked_count(s.drop_last()) + if s.last().is_chunked {
            1int
        } else {
            0int
        }
    }
}

/// A re-queued front entry carries the pending request it came from, plus
/// chunked state recording the scheduled chunk's slot and device length.
pub open spec fn requeued_entry_like<H>(
    p: PendingReq<H>,
    from: PendingReq<H>,
    r: ScheduledReq<H>,
) -> bool {
    &&& p.uid == from.uid
    &&& p.input_ids@ == from.input_ids@
    &&& p.output_len == from.output_len
    &&& match p.chunked_req {
        Option::Some(st) => st.cached_len == r.device_len && st.table_idx == r.table_idx,
        Option::None => false,
    }
}

/// `front` is exactly the chunked requests of `reqs`, in admission order,
/// re-queued against the pending entries (`olds`) they were admitted from.
pub open spec fn requeue_matches<H>(
    front: Seq<PendingReq<H>>,
    reqs: Seq<ScheduledReq<H>>,
    olds: Seq<PendingReq<H>>,
) -> bool
    decreases reqs.len(),
{
    if reqs.len() == 0 {
        front.len() == 0
    } else {
        let i = reqs.len() - 1;
        if reqs[i].is_chunked {
            &&& front.len() > 0
            &&& requeue_matches(front.drop_last(), reqs.drop_last(), olds)
            &&& requeued_entry_like(front.last(), olds[i], reqs[i])
        } else {
            requeue_matches(front, reqs.drop_last(), olds)
        }
    }
}

proof fn lemma_pending_cost_nonneg<H>(s: Seq<PendingReq<H>>)
    ensures
        pending_cost(s) >= 0,
    decreases s.len(),
{
    if s.len() > 0 {
        lemma_pending_cost_nonneg(s.drop_first());
    }
}

proof fn lemma_requeue_len<H>(
    front: Seq<PendingReq<H>>,
    reqs: Seq<ScheduledReq<H>>,
    olds: Seq<PendingReq<H>>,
)
    requires
        requeue_matches(front, reqs, olds),
    ensures
        front.len() == chunked_count(reqs),
    decreases reqs.len(),
{
    if reqs.len() > 0 {
        if reqs.last().is_chunked {
            lemma_requeue_len(front.drop_last(), reqs.drop_last(), olds);
        } else {
            lemma_requeue_len(front, reqs.drop_last(), olds);
        }
    }
}

/// The planner: a FIFO pending queue over a collaborating cache and table.
#[derive(Debug)]
pub struct PrefillManager<C, T> where C: PrefillCache, T: PrefillTable {
    pub cache: C,
    pub table: T,
    pub pending: std::collections::VecDeque<PendingReq<C::Handle>>,
}

impl<C, T> PrefillManager<C, T> where C: PrefillCache, T: PrefillTable {
    pub fn new(cache: C, table: T) -> (m: Self)
        ensures
            m.pending@.len() == 0,
    {
        PrefillManager { cache, table, pending: std::collections::VecDeque::new() }
    }

    pub fn add_pending(&mut self, req: PendingReq<C::Handle>)
        ensures
            final(self).pending@ == old(self).pending@.push(req),
            final(self).cache == old(self).cache,
            final(self).table == old(self).table,
    {
        self.pending.push_back(req);
    }

    /// One admission pass. Walks the pending queue in FIFO order under
    /// `prefill_budget`, reserving `decode_inflight_tokens` up front; stops at
    /// the first request that does not fit; consumed entries leave the front
    /// and chunked tails are re-queued at the front in admission order.
    pub fn schedule_next_batch(
        &mut self,
        prefill_budget: usize,
        decode_inflight_tokens: usize,
    ) -> (r: Result<Option<PrefillBatch<C::Handle>>, PrefillError>)
        requires
            decode_inflight_tokens + pending_cost(old(self).pending@) <= usize::MAX,
            pending_ok(old(self).pending@),
        ensures
            old(self).pending@.len() == 0 ==> ((r matches Ok(None)) && *final(self) == *old(self)),
            old(self).pending@.len() > 0 && prefill_budget > 0
                && old(self).pending@[0].chunked_req is Some ==> !(r matches Ok(None)),
            match r {
                Ok(Some(batch)) => {
                    let k = batch.reqs@.len() as int;
                    let c = chunked_count(batch.reqs@);
                    &&& 1 <= k <= old(self).pending@.len()
                    &&& total_extend(batch.reqs@) <= prefill_budget
                    &&& (forall|j: int|
                        0 <= j < k ==> {
                            let rj = #[trigger] batch.reqs@[j];
                            &&& rj.uid == old(self).pending@[j].uid
                            &&& rj.output_len == old(self).pending@[j].output_len
                            &&& sched_wf(rj)
                            &&& rj.cached_len <= old(self).pending@[j].input_ids@.len()
                            &&& rj.is_chunked == (rj.device_len < old(
                                self,
                            ).pending@[j].input_ids@.len())
                        })
                    &&& final(self).pending@.len() == c + old(self).pending@.len() - k
                    &&& requeue_matches(
                        final(self).pending@.take(c),
                        batch.reqs@,
                        old(self).pending@,
                    )
                    &&& final(self).pending@.skip(c) == old(self).pending@.skip(k)
                },
                Ok(None) => final(self).pending@ == old(self).pending@,
                Err(_) => final(self).pending@ == old(self).pending@,
            },
    {
        let ghost pending0 = self.pending@;
        let n = self.pending.len();
        if n == 0 {
            return Ok(None);
        }

        let mut adder = PrefillAdder {
            token_budget: prefill_budget,
            reserved_size: decode_inflight_tokens,
        };
        let mut reqs: Vec<ScheduledReq<C::Handle>> = Vec::new();
        let mut chunked: Vec<PendingReq<C::Handle>> = Vec::new();
        let mut idx: usize = 0;

        proof {
            lemma_pending_cost_nonneg(pending0);
            assert(pending0.skip(0) =~= pending0);
        }

        while idx < n
            invariant
                pending0 == old(self).pending@,
                self.pending@ == pending0,
                n == pending0.len(),
                n >= 1,
                0 <= idx <= n,
                reqs@.len() == idx,
                pending_ok(pending0),
                adder.token_budget == prefill_budget - total_extend(reqs@),
                total_extend(reqs@) >= 0,
                adder.reserved_size + pending_cost(pending0.skip(idx as int)) <= usize::MAX,
                requeue_matches(chunked@, reqs@, pending0),
                forall|j: int|
                    0 <= j < idx ==> {
                        let rj = #[trigger] reqs@[j];
                        &&& rj.uid == pending0[j].uid
                        &&& rj.output_len == pending0[j].output_len
                        &&& sched_wf(rj)
                        &&& rj.cached_len <= pending0[j].input_ids@.len()
                        &&& rj.is_chunked == (rj.device_len < pending0[j].input_ids@.len())
                    },
            ensures
                reqs@.len() >= 1 || !(pending0.len() > 0 && prefill_budget > 0
                    && pending0[0].chunked_req is Some),
            decreases n - idx,
        {
            proof {
                assert(pending0.skip(idx as int).len() > 0);
                assert(pending0.skip(idx as int)[0] == pending0[idx as int]);
                lemma_pending_cost_nonneg(pending0.skip(idx as int).drop_first());
                assert(pending0.skip(idx as int).drop_first() =~= pending0.skip(idx + 1 as int));
            }
            let outcome = adder.try_add_one(&mut self.cache, &mut self.table, &self.pending[idx]);
            match outcome {
                Ok(Some(req)) => {
                    let ghost reqs_before = reqs@;
                    let ghost chunked_before = chunked@;
                    let ghost req_snapshot = req;
                    if req.is_chunked {
                        let mut next_pending = self.pending[idx].clone();
                        next_pending.chunked_req = Some(
                            ChunkedReqState {
                                cache_handle: req.cache_handle.clone(),
                                table_idx: req.table_idx,
                                cached_len: req.device_len,
                            },
                        );
                        chunked.push(next_pending);
                    }
                    reqs.push(req);
                    idx = idx + 1;
                    proof {
                        assert(reqs@.drop_last() =~= reqs_before);
                        if req_snapshot.is_chunked {
                            assert(chunked@.drop_last() =~= chunked_before);
                        }
                    }
                },
                Ok(None) => {
                    proof {
                        // the front chunked entry is always admitted: stopping
                        // before it would contradict the adder's promise
                        if idx == 0 && prefill_budget > 0 && pending0[0].chunked_req is Some {
                            assert(total_extend(reqs@) == 0);
                            assert(false);
                        }
                    }
                    break ;
                },
                Err(e) => {
                    return Err(e);
                },
            }
        }

        if reqs.len() == 0 {
            return Ok(None);
        }

        let consumed = idx;
        let mut j: usize = 0;
        while j < consumed
            invariant
                0 <= j <= consumed <= pending0.len(),
                self.pending@ == pending0.skip(j as int),
            decreases consumed - j,
        {
            let _ = self.pending.pop_front();
            j = j + 1;
            proof {
                assert(pending0.skip(j - 1 as int).drop_first() =~= pending0.skip(j as int));
            }
        }

        let ghost chunked_full = chunked@;
        let ghost tail = pending0.skip(consumed as int);
        while chunked.len() > 0
            invariant
                chunked@ + self.pending@ == chunked_full + tail,
            decreases chunked.len(),
        {
            let ghost chunked_before = chunked@;
            let ghost pending_before = self.pending@;
            if let Some(req) = chunked.pop() {
                self.pending.push_front(req);
                proof {
                    assert(chunked@ + self.pending@ =~= chunked_before + pending_before);
                }
            }
        }
        proof {
            assert(chunked@.len() == 0);
            assert(self.pending@ =~= chunked_full + tail);
            lemma_requeue_len(chunked_full, reqs@, pending0);
            assert(self.pending@.take(chunked_full.len() as int) =~= chunked_full);
            assert(self.pending@.skip(chunked_full.len() as int) =~= tail);
        }

        Ok(Some(PrefillBatch { reqs }))
    }
}

/// Reservation a running batch still holds for in-flight decodes: the sum of
/// `remain_len` over its decodable requests.
pub open spec fn inflight_of<H>(s: Seq<ScheduledReq<H>>) -> int
    decreases s.len(),
{
    if s.len() == 0 {
        0
    } else {
        inflight_of(s.drop_last()) + if spec_can_decode(s.last()) {
            spec_remain_len(s.last())
        } else {
            0
        }
    }
}

/// The token positions one request contributes: `cached_len .. device_len`.
pub open spec fn positions_row<H>(r: ScheduledReq<H>) -> Seq<i32> {
    Seq::new(spec_extend_len(r) as nat, |k: int| (r.cached_len + k) as i32)
}

/// The slot repetitions one request contributes: `table_idx`, once per
/// extended token.
pub open spec fn mapping_row<H>(r: ScheduledReq<H>) -> Seq<i32> {
    Seq::new(spec_extend_len(r) as nat, |k: int| r.table_idx)
}

/// Concatenated position rows of a batch.
pub open spec fn positions_of<H>(s: Seq<ScheduledReq<H>>) -> Seq<i32>
    decreases s.len(),
{
    if s.len() == 0 {
        Seq::empty()
    } else {
        positions_of(s.drop_last()) + positions_row(s.last())
    }
}

/// Concatenated slot rows of a batch.
pub open spec fn mapping_of<H>(s: Seq<ScheduledReq<H>>) -> Seq<i32>
    decreases s.len(),
{
    if s.len() == 0 {
        Seq::empty()
    } else {
        mapping_of(s.drop_last()) + mapping_row(s.last())
    }
}

proof fn lemma_total_extend_nonneg<H>(s: Seq<ScheduledReq<H>>)
    ensures
        total_extend(s) >= 0,
    decreases s.len(),
{
    if s.len() > 0 {
        lemma_total_extend_nonneg(s.drop_last());
    }
}

proof fn lemma_inflight_nonneg<H>(s: Seq<ScheduledReq<H>>)
    ensures
        inflight_of(s) >= 0,
    decreases s.len(),
{
    if s.len() > 0 {
        lemma_inflight_nonneg(s.drop_last());
    }
}

proof fn lemma_total_extend_take_succ<H>(s: Seq<ScheduledReq<H>>, j: int)
    requires
        0 <= j < s.len(),
    ensures
        total_extend(s.take(j + 1)) == total_extend(s.take(j)) + spec_extend_len(s[j]),
{
    assert(s.take(j + 1).drop_last() =~= s.take(j));
}

proof fn lemma_inflight_take_succ<H>(s: Seq<ScheduledReq<H>>, j: int)
    requires
        0 <= j < s.len(),
    ensures
        inflight_of(s.take(j + 1)) == inflight_of(s.take(j)) + if spec_can_decode(s[j]) {
            spec_remain_len(s[j])
        } else {
            0
        },
{
    assert(s.take(j + 1).drop_last() =~= s.take(j));
}

proof fn lemma_total_extend_take_mono<H>(s: Seq<ScheduledReq<H>>, a: int, b: int)
    requires
        0 <= a <= b <= s.len(),
    ensures
        total_extend(s.take(a)) <= total_extend(s.take(b)),
    decreases b - a,
{
    if a < b {
        lemma_total_extend_take_mono(s, a, b - 1);
        lemma_total_extend_take_succ(s, b - 1);
    }
}

proof fn lemma_inflight_take_mono<H>(s: Seq<ScheduledReq<H>>, a: int, b: int)
    requires
        0 <= a <= b <= s.len(),
    ensures
        inflight_of(s.take(a)) <= inflight_of(s.take(b)),
    decreases b - a,
{
    if a < b {
        lemma_inflight_take_mono(s, a, b - 1);
        lemma_inflight_take_succ(s, b - 1);
    }
}

/// The two flat inputs of a batch have one entry per extended token: their
/// lengths both equal the batch's total extend length.
pub proof fn lemma_mapping_lengths<H>(s: Seq<ScheduledReq<H>>)
    ensures
        positions_of(s).len() == total_extend(s),
        mapping_of(s).len() == total_extend(s),
    decreases s.len(),
{
    if s.len() > 0 {
        lemma_mapping_lengths(s.drop_last());
        lemma_total_extend_nonneg(s.drop_last());
    } else {
        lemma_total_extend_nonneg(s);
    }
}

/// Flat index `i` inside request `j`'s extend range reads that request's
/// slot in the input mapping and its next device position in the position
/// vector.
pub proof fn lemma_flat_mapping_covers<H>(s: Seq<ScheduledReq<H>>, j: int, i: int)
    requires
        0 <= j < s.len(),
        total_extend(s.take(j)) <= i < total_extend(s.take(j)) + spec_extend_len(s[j]),
    ensures
        0 <= i < mapping_of(s).len(),
        mapping_of(s)[i] == s[j].table_idx,
        positions_of(s)[i] == (s[j].cached_len + (i - total_extend(s.take(j)))) as i32,
    decreases s.len(),
{
    lemma_mapping_lengths(s);
    lemma_total_extend_nonneg(s.take(j));
    if j == s.len() - 1 {
        assert(s.take(j) =~= s.drop_last());
        lemma_mapping_lengths(s.drop_last());
    } else {
        assert(s.drop_last().take(j) =~= s.take(j));
        assert(s.drop_last()[j] == s[j]);
        lemma_flat_mapping_covers(s.drop_last(), j, i);
        lemma_mapping_lengths(s.drop_last());
        lemma_total_extend_take_succ(s, j);
        lemma_total_extend_take_mono(s, j + 1, s.len() - 1);
        assert(s.take(s.len() - 1) =~= s.drop_last());
    }
}

/// Sum of `remain_len` over the decodable requests of a running batch.
pub fn decode_inflight_tokens<H>(running_reqs: &[ScheduledReq<H>]) -> (n: usize)
    requires
        inflight_of(running_reqs@) <= usize::MAX,
    ensures
        n == inflight_of(running_reqs@),
{
    let mut sum: usize = 0;
    let len = running_reqs.len();
    for i in 0..len
        invariant
            len == running_reqs@.len(),
            inflight_of(running_reqs@) <= usize::MAX,
            sum == inflight_of(running_reqs@.take(i as int)),
    {
        proof {
            lemma_inflight_take_succ(running_reqs@, i as int);
            lemma_inflight_take_mono(running_reqs@, i + 1 as int, len as int);
            assert(running_reqs@.take(len as int) =~= running_reqs@);
            lemma_inflight_nonneg(running_reqs@.take(i as int));
        }
        let req = &running_reqs[i];
        if req.can_decode() {
            sum = sum + req.remain_len();
        }
    }
    proof {
        assert(running_reqs@.take(len as int) =~= running_reqs@);
    }
    sum
}

/// The flat position vector of a (possibly chunked-padded) batch: for each
/// request, `cached_len, cached_len + 1, ..., device_len - 1`.
pub fn make_positions<H>(padded_reqs: &[ScheduledReq<H>]) -> (out: Vec<i32>)
    requires
        forall|i: int| 0 <= i < padded_reqs@.len() ==> (#[trigger] padded_reqs@[i]).device_len
            <= i32::MAX,
    ensures
        out@ == positions_of(padded_reqs@),
{
    let mut out: Vec<i32> = Vec::new();
    let len = padded_reqs.len();
    for i in 0..len
        invariant
            len == padded_reqs@.len(),
            forall|j: int| 0 <= j < padded_reqs@.len() ==> (#[trigger] padded_reqs@[j]).device_len
                <= i32::MAX,
            out@ == positions_of(padded_reqs@.take(i as int)),
    {
        let req = &padded_reqs[i];
        let mut pos = req.cached_len;
        while pos < req.device_len
            invariant
                req == padded_reqs@[i as int],
                req.device_len <= i32::MAX,
                req.cached_len <= pos,
                req.cached_len <= req.device_len ==> pos <= req.device_len,
                req.cached_len > req.device_len ==> pos == req.cached_len,
                out@ == positions_of(padded_reqs@.take(i as int)) + Seq::new(
                    (pos - req.cached_len) as nat,
                    |k: int| (req.cached_len + k) as i32,
                ),
            decreases req.device_len - pos,
        {
            out.push(pos as i32);
            pos = pos + 1;
            proof {
                assert(out@ =~= positions_of(padded_reqs@.take(i as int)) + Seq::new(
                    (pos - req.cached_len) as nat,
                    |k: int| (req.cached_len + k) as i32,
                ));
            }
        }
        proof {
            assert(Seq::new((pos - req.cached_len) as nat, |k: int| (req.cached_len + k) as i32)
                =~= positions_row(padded_reqs@[i as int]));
            assert(padded_reqs@.take(i + 1 as int).drop_last() =~= padded_reqs@.take(i as int));
            assert(out@ =~= positions_of(padded_reqs@.take(i + 1 as int)));
        }
    }
    proof {
        assert(padded_reqs@.take(len as int) =~= padded_reqs@);
    }
    out
}

/// The flat input-to-slot mapping of a batch: each request's `table_idx`
/// repeated once per extended token.
pub fn make_input_mapping<H>(padded_reqs: &[ScheduledReq<H>]) -> (out: Vec<i32>)
    ensures
        out@ == mapping_of(padded_reqs@),
{
    let mut out: Vec<i32> = Vec::new();
    let len = padded_reqs.len();
    for i in 0..len
        invariant
            len == padded_reqs@.len(),
            out@ == mapping_of(padded_reqs@.take(i as int)),
    {
        let req = &padded_reqs[i];
        let extend = req.extend_len();
        let mut k: usize = 0;
        while k < extend
            invariant
                req == padded_reqs@[i as int],
                extend == spec_extend_len(*req),
                0 <= k <= extend,
                out@ == mapping_of(padded_reqs@.take(i as int)) + Seq::new(
                    k as nat,
                    |m: int| req.table_idx,
                ),
            decreases extend - k,
        {
            out.push(req.table_idx);
            k = k + 1;
            proof {
                assert(out@ =~= mapping_of(padded_reqs@.take(i as int)) + Seq::new(
                    k as nat,
                    |m: int| req.table_idx,
                ));
            }
        }
        proof {
            assert(Seq::new(k as nat, |m: int| req.table_idx) =~= mapping_row(
                padded_reqs@[i as int],
            ));
            assert(padded_reqs@.take(i + 1 as int).drop_last() =~= padded_reqs@.take(i as int));
            assert(out@ =~= mapping_of(padded_reqs@.take(i + 1 as int)));
        }
    }
    proof {
        assert(padded_reqs@.take(len as int) =~= padded_reqs@);
    }
    out
}

/// The input mapping together with a copy of the already-built positions.
pub fn make_input_tuple<H>(padded_reqs: &[ScheduledReq<H>], positions: &[i32]) -> (r: (
    Vec<i32>,
    Vec<i32>,
))
    ensures
        r.0@ == mapping_of(padded_reqs@),
        r.1@ == positions@,
{
    let mut copied: Vec<i32> = Vec::new();
    let len = positions.len();
    for i in 0..len
        invariant
            len == positions@.len(),
            copied@ == positions@.take(i as int),
    {
        copied.push(positions[i]);
        proof {
            assert(copied@ =~= positions@.take(i + 1 as int));
        }
    }
    proof {
        assert(positions@.take(len as int) =~= positions@);
    }
    (make_input_mapping(padded_reqs), copied)
}

/// The per-request write-back tuple: each request's slot, and the device
/// position to write a sampled token to, `-1` when the request cannot decode
/// this step.
pub fn make_write_tuple<H>(reqs: &[ScheduledReq<H>]) -> (r: (Vec<i32>, Vec<i32>))
    requires
        forall|i: int| 0 <= i < reqs@.len() && spec_can_decode(#[trigger] reqs@[i])
            ==> reqs@[i].device_len <= i32::MAX,
    ensures
        r.0@.len() == reqs@.len(),
        r.1@.len() == reqs@.len(),
        forall|i: int| 0 <= i < reqs@.len() ==> r.0@[i] == (#[trigger] reqs@[i]).table_idx,
        forall|i: int|
            0 <= i < reqs@.len() ==> r.1@[i] == if spec_can_decode(#[trigger] reqs@[i]) {
                reqs@[i].device_len as i32
            } else {
                -1i32
            },
{
    let mut req_mapping: Vec<i32> = Vec::new();
    let mut write_mapping: Vec<i32> = Vec::new();
    let len = reqs.len();
    for i in 0..len
        invariant
            len == reqs@.len(),
            forall|j: int| 0 <= j < reqs@.len() && spec_can_decode(#[trigger] reqs@[j])
                ==> reqs@[j].device_len <= i32::MAX,
            req_mapping@.len() == i,
            write_mapping@.len() == i,
            forall|j: int| 0 <= j < i ==> req_mapping@[j] == (#[trigger] reqs@[j]).table_idx,
            forall|j: int|
                0 <= j < i ==> write_mapping@[j] == if spec_can_decode(#[trigger] reqs@[j]) {
                    reqs@[j].device_len as i32
                } else {
                    -1i32
                },
    {
        let req = &reqs[i];
        req_mapping.push(req.table_idx);
        if req.can_decode() {
            write_mapping.push(req.device_len as i32);
        } else {
            write_mapping.push(-1);
        }
    }
    (req_mapping, write_mapping)
}

} // verus!
