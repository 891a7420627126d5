//! Text-layer managers around a pluggable tokenizer backend: batch encoding
//! of prompts and chat messages, and incremental streaming detokenization
//! with replacement-character holdback and word-boundary flushing.

use vstd::prelude::*;

use std::collections::HashMap;
use vstd::string::StrSliceExecFns;
use vstd::string::StringExecFns;

verus! {

/// One chat-template message.
#[derive(Debug, Clone, PartialEq, Eq)]
pub struct ChatMessage {
    pub role: String,
    pub content: String,
}

/// A prompt: either raw text or a list of chat messages to template.
#[derive(Debug, Clone, PartialEq, Eq)]
pub enum PromptInput {
    Text { text: String },
    Messages { messages: Vec<ChatMessage> },
}

/// A tokenization request for one prompt.
#[derive(Debug, Clone, PartialEq, Eq)]
pub struct TokenizeRequest {
    pub uid: u64,
    pub prompt: PromptInput,
}

/// The token ids produced for one request.
#[derive(Debug, Clone, PartialEq, Eq)]
pub struct TokenizeOutput {
    pub uid: u64,
    pub input_ids: Vec<i32>,
}

/// One generated token to fold into a request's output stream.
#[derive(Debug, Clone, Copy, PartialEq, Eq)]
pub struct DetokenizeRequest {
    pub uid: u64,
    pub next_token: i32,
    pub finished: bool,
}

/// The text newly visible for one request after folding in a token.
#[derive(Debug, Clone, PartialEq, Eq)]
pub struct DetokenizeOutput {
    pub uid: u64,
    pub incremental_output: String,
    pub finished: bool,
}

/// Failures of the text layer.
#[derive(Debug, Clone, PartialEq, Eq)]
pub enum TokenizerError {
    /// The backend reported an error string.
    Backend(String),
    /// An encoded token id does not fit in `i32`.
    TokenIdTooLarge(u32),
    /// A generated token id was negative.
    NegativeTokenId(i32),
    /// A batch referred twice to a request already marked finished.
    MissingDecodeState(u64),
}

/// What the text layer requires from a tokenizer. Implementations live with
/// the model; the managers here are verified for every answer that keeps
/// the stated output shapes.
pub trait TokenizerBackend {
    fn encode_one(&self, text: &str) -> Result<Vec<u32>, String>;

    /// Relied upon to return one encoding per input text.
    fn encode_batch(&self, texts: &[&str]) -> (r: Result<Vec<Vec<u32>>, String>)
        ensures
            r matches Ok(encodings) ==> encodings@.len() == texts@.len(),
    ;

    fn apply_chat_template(&self, messages: &[ChatMessage]) -> Result<String, String>;

    /// Relied upon to return one string per input id list.
    fn decode_batch(&self, ids: &[Vec<u32>]) -> (r: Result<Vec<String>, String>)
        ensures
            r matches Ok(texts) ==> texts@.len() == ids@.len(),
    ;

    fn eos_token_id(&self) -> Option<u32>;
}

/// Converts token ids to `i32`, rejecting any id that does not fit.
fn cast_u32_to_i32(ids: Vec<u32>) -> (r: Result<Vec<i32>, TokenizerError>)
    ensures
        match r {
            Ok(v) => {
                &&& v@.len() == ids@.len()
                &&& forall|k: int|
                    0 <= k < ids@.len() ==> (#[trigger] ids@[k]) <= i32::MAX && v@[k]
                        == ids@[k] as i32
            },
            Err(e) => e matches TokenizerError::TokenIdTooLarge(_),
        },
{
    let mut out: Vec<i32> = Vec::new();
    let n = ids.len();
    for i in 0..n
        invariant
            n == ids@.len(),
            out@.len() == i,
            forall|k: int|
                0 <= k < i ==> (#[trigger] ids@[k]) <= i32::MAX && out@[k] == ids@[k] as i32,
    {
        let id = ids[i];
        if id > i32::MAX as u32 {
            return Err(TokenizerError::TokenIdTooLarge(id));
        }
        out.push(id as i32);
    }
    Ok(out)
}

/// Converts a generated token id to `u32`; negative ids are rejected.
fn i32_to_u32(id: i32) -> (r: Result<u32, TokenizerError>)
    ensures
        match r {
            Ok(u) => id >= 0 && u == id as u32,
            Err(e) => id < 0 && e == TokenizerError::NegativeTokenId(id),
        },
{
    if id < 0 {
        return Err(TokenizerError::NegativeTokenId(id));
    }
    Ok(id as u32)
}

/// Batch prompt tokenization over a backend.
pub struct TokenizeManager<B: TokenizerBackend> {
    backend: B,
}

impl<B: TokenizerBackend> TokenizeManager<B> {
    pub fn new(backend: B) -> (m: Self) {
        TokenizeManager { backend }
    }

    /// Encodes every request: plain-text-only batches go through the batch
    /// encoder, mixed batches encode one by one, templating chat messages
    /// first. One output per request, in order, under the request's uid.
    pub fn tokenize(&self, requests: &[TokenizeRequest]) -> (r: Result<
        Vec<TokenizeOutput>,
        TokenizerError,
    >)
        ensures
            requests@.len() == 0 ==> (r matches Ok(outs) && outs@.len() == 0),
            match r {
                Ok(outs) => {
                    &&& outs@.len() == requests@.len()
                    &&& forall|i: int|
                        0 <= i < requests@.len() ==> (#[trigger] outs@[i]).uid == requests@[i].uid
                },
                Err(e) => e matches TokenizerError::Backend(_) || e
                    matches TokenizerError::TokenIdTooLarge(_),
            },
    {
        let n = requests.len();
        if n == 0 {
            return Ok(Vec::new());
        }

        let mut all_text = true;
        for i in 0..n
            invariant
                n == requests@.len(),
        {
            if !(matches!(&requests[i].prompt, PromptInput::Text { .. })) {
                all_text = false;
            }
        }

        if all_text {
            let mut texts: Vec<&str> = Vec::new();
            for i in 0..n
                invariant
                    n == requests@.len(),
            {
                if let PromptInput::Text { text } = &requests[i].prompt {
                    texts.push(text.as_str());
                }
            }

            if texts.len() == n {
                let encoded = match self.backend.encode_batch(texts.as_slice()) {
                    Ok(encoded) => encoded,
                    Err(msg) => {
                        return Err(TokenizerError::Backend(msg));
                    },
                };
                let mut outputs: Vec<TokenizeOutput> = Vec::new();
                let mut i: usize = 0;
                while i < n
                    invariant
                        n == requests@.len(),
                        n == encoded@.len(),
                        i <= n,
                        outputs@.len() == i,
                        forall|k: int|
                            0 <= k < i ==> (#[trigger] outputs@[k]).uid == requests@[k].uid,
                    decreases n - i,
                {
                    let ids = clone_u32s(&encoded[i]);
                    let input_ids = cast_u32_to_i32(ids)?;
                    outputs.push(TokenizeOutput { uid: requests[i].uid, input_ids });
                    i = i + 1;
                }
                return Ok(outputs);
            }
        }

        let mut outputs: Vec<TokenizeOutput> = Vec::new();
        let mut i: usize = 0;
        while i < n
            invariant
                n == requests@.len(),
                i <= n,
                outputs@.len() == i,
                forall|k: int| 0 <= k < i ==> (#[trigger] outputs@[k]).uid == requests@[k].uid,
            decreases n - i,
        {
            let ids = match &requests[i].prompt {
                PromptInput::Text { text } => {
                    match self.backend.encode_one(text.as_str()) {
                        Ok(ids) => ids,
                        Err(msg) => {
                            return Err(TokenizerError::Backend(msg));
                        },
                    }
                },
                PromptInput::Messages { messages } => {
                    let prompt = match self.backend.apply_chat_template(messages.as_slice()) {
                        Ok(p) => p,
                        Err(msg) => {
                            return Err(TokenizerError::Backend(msg));
                        },
                    };
                    match self.backend.encode_one(prompt.as_str()) {
                        Ok(ids) => ids,
                        Err(msg) => {
                            return Err(TokenizerError::Backend(msg));
                        },
                    }
                },
            };
            let input_ids = cast_u32_to_i32(ids)?;
            outputs.push(TokenizeOutput { uid: requests[i].uid, input_ids });
            i = i + 1;
        }
        Ok(outputs)
    }
}

/// Copies a token-id vector.
fn clone_u32s(ids: &Vec<u32>) -> (r: Vec<u32>)
    ensures
        r@ == ids@,
{
    let mut r: Vec<u32> = Vec::new();
    let n = ids.len();
    for i in 0..n
        invariant
            n == ids@.len(),
            r@ == ids@.take(i as int),
    {
        r.push(ids[i]);
        proof {
            assert(r@ =~= ids@.take(i + 1 as int));
        }
    }
    proof {
        assert(ids@.take(n as int) =~= ids@);
    }
    r
}

/// Copies `v[a..b]`.
fn copy_u32_range(v: &Vec<u32>, a: usize, b: usize) -> (r: Vec<u32>)
    requires
        a <= b <= v@.len(),
    ensures
        r@ == v@.subrange(a as int, b as int),
{
    let mut r: Vec<u32> = Vec::new();
    let mut i = a;
    while i < b
        invariant
            a <= i <= b <= v@.len(),
            r@ == v@.subrange(a as int, i as int),
        decreases b - i,
    {
        r.push(v[i]);
        i = i + 1;
        proof {
            assert(r@ =~= v@.subrange(a as int, i as int));
        }
    }
    r
}

/// Whether a code point is a CJK character that may stand alone.
pub open spec fn spec_is_chinese(cp: u32) -> bool {
    ||| 0x4E00 <= cp <= 0x9FFF
    ||| 0x3400 <= cp <= 0x4DBF
    ||| 0x20000 <= cp <= 0x2A6DF
    ||| 0x2A700 <= cp <= 0x2B73F
    ||| 0x2B740 <= cp <= 0x2B81F
    ||| 0x2B820 <= cp <= 0x2CEAF
    ||| 0xF900 <= cp <= 0xFAFF
    ||| 0x2F800 <= cp <= 0x2FA1F
}

pub fn is_chinese_char(cp: u32) -> (r: bool)
    ensures
        r == spec_is_chinese(cp),
{
    (0x4E00 <= cp && cp <= 0x9FFF) || (0x3400 <= cp && cp <= 0x4DBF) || (0x20000 <= cp && cp
        <= 0x2A6DF) || (0x2A700 <= cp && cp <= 0x2B73F) || (0x2B740 <= cp && cp <= 0x2B81F) || (
    0x2B820 <= cp && cp <= 0x2CEAF) || (0xF900 <= cp && cp <= 0xFAFF) || (0x2F800 <= cp && cp
        <= 0x2FA1F)
}

/// Index of the last space in `s`; meaningful only when one exists.
pub open spec fn last_space(s: Seq<char>) -> int
    decreases s.len(),
{
    if s.len() == 0 {
        -1
    } else if s.last() == ' ' {
        s.len() - 1
    } else {
        last_space(s.drop_last())
    }
}

proof fn lemma_last_space_at(s: Seq<char>, k: int)
    requires
        0 <= k < s.len(),
        s[k] == ' ',
        forall|j: int| k < j < s.len() ==> s[j] != ' ',
    ensures
        last_space(s) == k,
    decreases s.len(),
{
    if k == s.len() - 1 {
    } else {
        assert(s.drop_last()[k] == ' ');
        lemma_last_space_at(s.drop_last(), k);
    }
}

proof fn lemma_no_space(s: Seq<char>)
    requires
        forall|j: int| 0 <= j < s.len() ==> s[j] != ' ',
    ensures
        last_space(s) == -1,
    decreases s.len(),
{
    if s.len() > 0 {
        lemma_no_space(s.drop_last());
    }
}

/// What `find_printable_text` keeps of a possibly unfinished chunk: a
/// newline or CJK tail keeps everything, a CJK character before the last
/// keeps all but the last, and otherwise only whole words (up to the last
/// space) are flushed.
pub open spec fn spec_printable(s: Seq<char>) -> Seq<char> {
    if s.len() > 0 && s.last() == '\n' {
        s
    } else if s.len() > 0 && spec_is_chinese(s.last() as u32) {
        s
    } else if s.len() > 1 && spec_is_chinese(s[s.len() - 2] as u32) {
        s.drop_last()
    } else if last_space(s) >= 0 {
        s.take(last_space(s) + 1)
    } else {
        Seq::empty()
    }
}

/// The flushable prefix of an unfinished decoded chunk.
pub fn find_printable_text(text: &str) -> (r: String)
    ensures
        r@ == spec_printable(text@),
{
    let n = text.unicode_len();
    if n > 0 && text.get_char(n - 1) == '\n' {
        return text.to_owned();
    }
    if n > 0 && is_chinese_char(text.get_char(n - 1) as u32) {
        return text.to_owned();
    }
    if n > 1 && is_chinese_char(text.get_char(n - 2) as u32) {
        let kept = text.substring_char(0, n - 1);
        proof {
            assert(text@.subrange(0, n - 1 as int) =~= text@.drop_last());
        }
        return kept.to_owned();
    }

    let mut k = n;
    #[verifier::loop_isolation(false)]
    while k > 0
        invariant
            k <= n,
            forall|j: int| k <= j < n ==> text@[j] != ' ',
        decreases k,
    {
        k = k - 1;
        if text.get_char(k) == ' ' {
            proof {
                lemma_last_space_at(text@, k as int);
            }
            return text.substring_char(0, k + 1).to_owned();
        }
    }
    proof {
        lemma_no_space(text@);
    }
    String::new()
}

/// The suffix of `text` from a character index on; the whole text for
/// index zero and the empty string past the end.
pub fn slice_from_char_idx(text: &str, start_char_idx: usize) -> (r: String)
    ensures
        r@ == if start_char_idx <= text@.len() {
            text@.skip(start_char_idx as int)
        } else {
            Seq::<char>::empty()
        },
{
    let n = text.unicode_len();
    if start_char_idx >= n {
        proof {
            if start_char_idx == n {
                assert(text@.skip(n as int) =~= Seq::<char>::empty());
            }
        }
        let r = String::new();
        return r;
    }
    let tail = text.substring_char(start_char_idx, n);
    proof {
        assert(text@.subrange(start_char_idx as int, n as int) =~= text@.skip(
            start_char_idx as int,
        ));
    }
    tail.to_owned()
}

/// Per-request streaming decode state: all generated ids, the confirmed
/// text, the id offsets of the in-progress window, and how many characters
/// were already sent.
#[derive(Debug, Clone, PartialEq, Eq)]
struct DecodeStatus {
    decoded_ids: Vec<u32>,
    decoded_str: String,
    read_offset: usize,
    surr_offset: usize,
    sent_offset_chars: usize,
}

impl DecodeStatus {
    fn new() -> (s: Self)
        ensures
            s.decoded_ids@.len() == 0,
            s.read_offset == 0,
            s.surr_offset == 0,
    {
        DecodeStatus {
            decoded_ids: Vec::new(),
            decoded_str: String::new(),
            read_offset: 0,
            surr_offset: 0,
            sent_offset_chars: 0,
        }
    }

    /// The offsets always index into the decoded ids, oldest first.
    spec fn wf(self) -> bool {
        self.surr_offset <= self.read_offset <= self.decoded_ids@.len()
    }
}

/// Incremental streaming detokenization over a backend.
pub struct DetokenizeManager<B: TokenizerBackend> {
    backend: B,
    decode_map: HashMap<u64, DecodeStatus>,
    eos_token_id: Option<u32>,
}

impl<B: TokenizerBackend> DetokenizeManager<B> {
    /// Every tracked stream's offsets are in range.
    pub closed spec fn wf(self) -> bool {
        forall|uid: u64|
            self.decode_map@.dom().contains(uid) ==> (#[trigger] self.decode_map@[uid]).wf()
    }

    /// How many unfinished output streams are tracked.
    pub closed spec fn spec_active(self) -> nat {
        self.decode_map@.len()
    }

    /// Whether a stream for this uid is still tracked.
    pub closed spec fn spec_tracks(self, uid: u64) -> bool {
        self.decode_map@.dom().contains(uid)
    }

    pub fn new(backend: B) -> (m: Self)
        ensures
            m.wf(),
            m.spec_active() == 0,
    {
        let eos_token_id = backend.eos_token_id();
        let m = DetokenizeManager { backend, decode_map: HashMap::new(), eos_token_id };
        proof {
            broadcast use vstd::std_specs::hash::group_hash_axioms;

        }
        m
    }

    /// Folds one generated token per request into its stream and returns
    /// the newly visible text: confirmed once it cannot change (no pending
    /// replacement character), otherwise held back to word or CJK
    /// boundaries. A finishing request's state is dropped; a final token
    /// that equals the end-of-sequence id is not decoded.
    pub fn detokenize(&mut self, requests: &[DetokenizeRequest]) -> (r: Result<
        Vec<DetokenizeOutput>,
        TokenizerError,
    >)
        requires
            old(self).wf(),
        ensures
            final(self).wf(),
            requests@.len() == 0 ==> ((r matches Ok(outs) && outs@.len() == 0) && *final(self)
                == *old(self)),
            match r {
                Ok(outs) => {
                    &&& outs@.len() == requests@.len()
                    &&& (forall|i: int|
                        0 <= i < requests@.len() ==> (#[trigger] outs@[i]).uid == requests@[i].uid
                            && outs@[i].finished == requests@[i].finished)
                    &&& (forall|i: int|
                        0 <= i < requests@.len() && (#[trigger] requests@[i]).finished
                            ==> !final(self).spec_tracks(requests@[i].uid))
                },
                Err(e) => e matches TokenizerError::Backend(_) || e
                    matches TokenizerError::NegativeTokenId(_) || e
                    matches TokenizerError::MissingDecodeState(_),
            },
    {
        broadcast use vstd::std_specs::hash::group_hash_axioms;

        let n = requests.len();
        if n == 0 {
            return Ok(Vec::new());
        }

        let mut read_ids: Vec<Vec<u32>> = Vec::new();
        let mut surr_ids: Vec<Vec<u32>> = Vec::new();

        let mut i: usize = 0;
        while i < n
            invariant
                self.wf(),
                n == requests@.len(),
                i <= n,
                read_ids@.len() == i,
                surr_ids@.len() == i,
            decreases n - i,
        {
            let request = &requests[i];
            let mut state = match self.decode_map.remove(&request.uid) {
                Some(state) => state,
                None => DecodeStatus::new(),
            };
            let token = i32_to_u32(request.next_token)?;
            let is_final_eos = request.finished && match self.eos_token_id {
                Some(eos) => eos == token,
                None => false,
            };
            if !is_final_eos {
                state.decoded_ids.push(token);
            }
            read_ids.push(
                copy_u32_range(&state.decoded_ids, state.surr_offset, state.decoded_ids.len()),
            );
            surr_ids.push(copy_u32_range(&state.decoded_ids, state.surr_offset, state.read_offset));
            self.decode_map.insert(request.uid, state);
            i = i + 1;
        }

        let read_texts = match self.backend.decode_batch(read_ids.as_slice()) {
            Ok(texts) => texts,
            Err(msg) => {
                return Err(TokenizerError::Backend(msg));
            },
        };
        let surr_texts = match self.backend.decode_batch(surr_ids.as_slice()) {
            Ok(texts) => texts,
            Err(msg) => {
                return Err(TokenizerError::Backend(msg));
            },
        };

        let mut outputs: Vec<DetokenizeOutput> = Vec::new();
        let mut i: usize = 0;
        while i < n
            invariant
                self.wf(),
                n == requests@.len(),
                n == read_texts@.len(),
                n == surr_texts@.len(),
                i <= n,
                outputs@.len() == i,
                forall|k: int|
                    0 <= k < i ==> (#[trigger] outputs@[k]).uid == requests@[k].uid
                        && outputs@[k].finished == requests@[k].finished,
                forall|k: int|
                    0 <= k < i && (#[trigger] requests@[k]).finished
                        ==> !self.decode_map@.dom().contains(requests@[k].uid),
            decreases n - i,
        {
            let request = &requests[i];
            let mut state = match self.decode_map.remove(&request.uid) {
                Some(state) => state,
                None => {
                    return Err(TokenizerError::MissingDecodeState(request.uid));
                },
            };
            let read_text = &read_texts[i];
            let surr_text = &surr_texts[i];

            let surr_chars = surr_text.as_str().unicode_len();
            let mut new_text = slice_from_char_idx(read_text.as_str(), surr_chars);

            let ends_replacement = {
                let m = new_text.as_str().unicode_len();
                m > 0 && new_text.as_str().get_char(m - 1) == '\u{FFFD}'
            };

            let output_str = if new_text.as_str().unicode_len() > 0 && !ends_replacement {
                let mut output = state.decoded_str.clone();
                output.append(new_text.as_str());
                state.decoded_str = output.clone();
                state.surr_offset = state.read_offset;
                state.read_offset = state.decoded_ids.len();
                output
            } else {
                new_text = find_printable_text(new_text.as_str());
                let mut output = state.decoded_str.clone();
                output.append(new_text.as_str());
                output
            };

            let incremental_output = slice_from_char_idx(
                output_str.as_str(),
                state.sent_offset_chars,
            );
            state.sent_offset_chars = output_str.as_str().unicode_len();
            outputs.push(
                DetokenizeOutput {
                    uid: request.uid,
                    incremental_output,
                    finished: request.finished,
                },
            );

            if !request.finished {
                self.decode_map.insert(request.uid, state);
            }
            i = i + 1;
        }

        Ok(outputs)
    }

    pub fn active_sequences(&self) -> (n: usize)
        ensures
            n == self.spec_active(),
    {
        broadcast use vstd::std_specs::hash::group_hash_axioms;

        self.decode_map.len()
    }
}

} // verus!
