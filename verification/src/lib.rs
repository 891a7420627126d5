//! CPU-side scheduling and KV-cache bookkeeping core of an LLM inference
//! server: a radix prefix cache over token-id sequences, a bounded-budget
//! prefill admission planner, the flat batch mappings consumed by device
//! kernels, and the token/detoken text managers around them.

pub mod cache;
pub mod prefill;
pub mod radix;
pub mod scheduler;
pub mod tokenizer;
pub mod types;

pub use cache::{
    CacheError, CacheManager, CachePrefixMatch, NoopCacheManager, PrefixCacheManager, SizeInfo,
};
pub use prefill::{
    decode_inflight_tokens, make_input_mapping, make_input_tuple, make_positions, make_write_tuple,
    CacheMatch, ChunkedReqState, PendingReq, PrefillAdder, PrefillBatch, PrefillCache,
    PrefillError, PrefillManager, PrefillTable, ScheduledReq,
};
pub use radix::{RadixCacheHandle, RadixCacheManager};
pub use scheduler::SchedulerPlan;
pub use tokenizer::{
    find_printable_text, is_chinese_char, slice_from_char_idx, ChatMessage, DetokenizeManager,
    DetokenizeOutput, DetokenizeRequest, PromptInput, TokenizeManager, TokenizeOutput,
    TokenizeRequest, TokenizerBackend, TokenizerError,
};
pub use types::{Batch, BatchPhase, Req};
