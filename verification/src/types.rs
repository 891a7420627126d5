//! Token and request primitives shared by the scheduler core.

use vstd::prelude::*;

verus! {

/// One request as the transport layer hands it to the scheduler: an
/// identifier, the prompt token ids, how many leading tokens are already
/// cached, and how many output tokens are still owed.
#[derive(Debug, Clone)]
pub struct Req {
    pub uid: u64,
    pub input_ids: Vec<i32>,
    pub cached_len: usize,
    pub output_len: usize,
}

impl Req {
    pub fn new(uid: u64, input_ids: Vec<i32>, cached_len: usize, output_len: usize) -> (r: Req)
        ensures
            r.uid == uid,
            r.input_ids@ == input_ids@,
            r.cached_len == cached_len,
            r.output_len == output_len,
    {
        Req { uid, input_ids, cached_len, output_len }
    }

    /// Number of prompt tokens materialized on device once this request runs.
    pub fn device_len(&self) -> (n: usize)
        ensures
            n == self.input_ids@.len(),
    {
        self.input_ids.len()
    }

    /// Number of tokens still owed to this request.
    pub fn remain_len(&self) -> (n: usize)
        ensures
            n == self.output_len,
    {
        self.output_len
    }
}

/// Which phase a batch runs: prompt prefill or per-step decode.
#[derive(Debug, Clone, Copy, PartialEq, Eq, Structural)]
pub enum BatchPhase {
    Prefill,
    Decode,
}

/// An ordered group of requests together with the phase they run in.
#[derive(Debug, Clone)]
pub struct Batch {
    pub reqs: Vec<Req>,
    pub phase: BatchPhase,
}

impl Batch {
    pub fn new(reqs: Vec<Req>, phase: BatchPhase) -> (b: Batch)
        ensures
            b.reqs@ == reqs@,
            b.phase == phase,
    {
        Batch { reqs, phase }
    }

    pub fn size(&self) -> (n: usize)
        ensures
            n == self.reqs@.len(),
    {
        self.reqs.len()
    }
}

} // verus!
