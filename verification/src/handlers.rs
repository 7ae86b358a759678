//! Requests to the inference server: decoding them, answering them, and the
//! generation of an answer in one piece. The run says what to compute next;
//! the caller computes it and reports the result.
use vstd::prelude::*;
use vstd::slice::slice_subrange;
use vstd::string::*;
use vstd::utf8::*;

use crate::chat::{chat_prompt, wrap_chat_template};
use crate::model_weights::{LayerDataVec, TransformerConfig, WeightsData};
use crate::text::extend_bytes;

verus! {

broadcast use vstd::seq_lib::group_seq_properties;

pub const INFER_OP_PING: u64 = 0;

pub const INFER_OP_GENERATE: u64 = 1;

pub const INFER_OP_STATUS: u64 = 2;

pub const INFER_OP_ASK: u64 = 3;

pub const INFER_OP_ASK_ASYNC: u64 = 4;

/// Bytes of the arena.
pub const ARENA_SIZE: u64 = 0x100_0000;

/// Tokens generated per request.
pub const MAX_GEN_TOKENS: usize = 512;

/// Positions that the key-value cache holds.
pub const KV_WINDOW_SIZE: usize = 1024;

/// Bytes of a query.
pub const PROMPT_MAX: usize = 1024;

/// Bytes of a query in the chat format.
pub const TEMPLATE_MAX: usize = 2048;

/// Tokens of a prompt.
pub const PROMPT_TOKENS_MAX: usize = 512;

/// Bytes of a response, and of the memory that it is sent in.
pub const RESPONSE_MAX: usize = 4096;

/// The shell and the compositor, which may read a response.
pub const READER_TASKS: [u32; 2] = [3, 4];

pub const NO_MODEL_TEXT: &'static str =
    "[AI] No model loaded. Pack a GGUF model to enable inference.";

pub const EMPTY_PROMPT_TEXT: &'static str = "[AI] Empty prompt.";

pub const NO_TOKENIZER_TEXT: &'static str = "[AI] Tokenizer init failed.";

pub const NO_WEIGHTS_TEXT: &'static str = "[AI] Failed to build weights for forward pass.";

pub const PREFILL_FAILED_TEXT: &'static str = "[AI] Forward pass failed during prefill.";

pub const EMPTY_RESPONSE_TEXT: &'static str = "[AI] (empty response)";

// ---------------------------------------------------------------------
// Requests
// ---------------------------------------------------------------------

/// A request to the server.
#[derive(Debug, Clone, Copy, PartialEq, Eq, Structural)]
pub enum ServerRequest {
    Ping,
    Status,
    Generate { shmem: u32, len: usize, is_rag: bool },
    AskAsync { query_shmem: u32, query_len: usize, ring_shmem: u32 },
    Unknown,
}

/// The 16 bits of a word that start at bit `16 * k`.
pub open spec fn part16(w: u64, k: int) -> int {
    if k == 0 {
        w as int % 0x1_0000
    } else if k == 1 {
        w as int / 0x1_0000 % 0x1_0000
    } else if k == 2 {
        w as int / 0x1_0000_0000 % 0x1_0000
    } else {
        w as int / 0x1_0000_0000_0000
    }
}

/// The request in a message word: the operation in the low part; then a handle
/// and a length of 32 bits, or a handle, a length and a second handle of 16
/// bits each.
pub open spec fn request_of(payload: u64) -> ServerRequest {
    let op = part16(payload, 0);
    if op == INFER_OP_PING {
        ServerRequest::Ping
    } else if op == INFER_OP_STATUS {
        ServerRequest::Status
    } else if op == INFER_OP_GENERATE || op == INFER_OP_ASK {
        ServerRequest::Generate {
            shmem: part16(payload, 1) as u32,
            len: (payload as int / 0x1_0000_0000) as usize,
            is_rag: op == INFER_OP_ASK,
        }
    } else if op == INFER_OP_ASK_ASYNC {
        ServerRequest::AskAsync {
            query_shmem: part16(payload, 1) as u32,
            query_len: part16(payload, 2) as usize,
            ring_shmem: part16(payload, 3) as u32,
        }
    } else {
        ServerRequest::Unknown
    }
}

pub fn decode_request(payload: u64) -> (r: ServerRequest)
    ensures
        r == request_of(payload),
{
    let op: u64 = payload % 0x1_0000;
    let handle: u32 = (payload / 0x1_0000 % 0x1_0000) as u32;
    if op == INFER_OP_PING {
        ServerRequest::Ping
    } else if op == INFER_OP_STATUS {
        ServerRequest::Status
    } else if op == INFER_OP_GENERATE || op == INFER_OP_ASK {
        ServerRequest::Generate {
            shmem: handle,
            len: (payload / 0x1_0000_0000) as usize,
            is_rag: op == INFER_OP_ASK,
        }
    } else if op == INFER_OP_ASK_ASYNC {
        ServerRequest::AskAsync {
            query_shmem: handle,
            query_len: (payload / 0x1_0000_0000 % 0x1_0000) as usize,
            ring_shmem: (payload / 0x1_0000_0000_0000) as u32,
        }
    } else {
        ServerRequest::Unknown
    }
}

/// The answer to a request that is answered at once.
pub fn instant_reply(request: ServerRequest, has_model: bool) -> (r: Option<(u64, u64)>)
    ensures
        r == (match request {
            ServerRequest::Ping => Some((
                if has_model {
                    1u64
                } else {
                    0u64
                },
                0u64,
            )),
            ServerRequest::Status => Some((
                if has_model {
                    1u64
                } else {
                    0u64
                },
                ARENA_SIZE,
            )),
            ServerRequest::Unknown => Some((u64::MAX, 0u64)),
            _ => None,
        }),
{
    let model: u64 = if has_model {
        1
    } else {
        0
    };
    match request {
        ServerRequest::Ping => Some((model, 0)),
        ServerRequest::Status => Some((model, ARENA_SIZE)),
        ServerRequest::Unknown => Some((u64::MAX, 0)),
        _ => None,
    }
}

/// The word of a request for a stream.
pub open spec fn async_word(query_shmem: u16, query_len: u16, ring_shmem: u16) -> int {
    INFER_OP_ASK_ASYNC + 0x1_0000 * query_shmem + 0x1_0000_0000 * query_len + 0x1_0000_0000_0000
        * ring_shmem
}

/// A packed request for a stream is decoded as what was packed.
pub proof fn async_requests_read_back(query_shmem: u16, query_len: u16, ring_shmem: u16)
    ensures
        async_word(query_shmem, query_len, ring_shmem) <= u64::MAX,
        request_of(async_word(query_shmem, query_len, ring_shmem) as u64)
            == (ServerRequest::AskAsync {
            query_shmem: query_shmem as u32,
            query_len: query_len as usize,
            ring_shmem: ring_shmem as u32,
        }),
{
    let w = async_word(query_shmem, query_len, ring_shmem);
    let a = query_shmem as int;
    let b = query_len as int;
    let c = ring_shmem as int;
    assert(w / 0x1_0000 == a + 0x1_0000 * (b + 0x1_0000 * c) && w % 0x1_0000 == 4);
    assert(w / 0x1_0000_0000 == b + 0x1_0000 * c);
    assert(w / 0x1_0000_0000_0000 == c);
    assert((b + 0x1_0000 * c) % 0x1_0000 == b);
    assert((a + 0x1_0000 * (b + 0x1_0000 * c)) % 0x1_0000 == a);
    assert(w as u64 == w);
}

// ---------------------------------------------------------------------
// Responses
// ---------------------------------------------------------------------

/// How a text is sent.
#[derive(Debug, Clone, Copy, PartialEq, Eq, Structural)]
pub enum TextReply {
    /// Copy so many bytes, let the readers in, and reply with the word.
    Deliver { len: usize, word: u64 },
    /// Give the memory back and reply with zero.
    Withdraw { handle: u32 },
    /// Reply with zero.
    Refuse,
}

/// How a text of `len` bytes is sent, given the memory that was created for it
/// and whether it could be mapped. The word holds the length and the handle.
pub fn send_text_response(len: usize, created: Option<u32>, mapped: bool) -> (r: TextReply)
    ensures
        r == (match created {
            None => TextReply::Refuse,
            Some(handle) => if mapped {
                let kept = if len <= RESPONSE_MAX {
                    len
                } else {
                    RESPONSE_MAX
                };
                TextReply::Deliver {
                    len: kept,
                    word: (kept * 0x1_0000_0000 + handle) as u64,
                }
            } else {
                TextReply::Withdraw { handle }
            },
        }),
{
    match created {
        None => TextReply::Refuse,
        Some(handle) => {
            if !mapped {
                return TextReply::Withdraw { handle };
            }
            let kept: usize = if len <= RESPONSE_MAX {
                len
            } else {
                RESPONSE_MAX
            };
            TextReply::Deliver { len: kept, word: kept as u64 * 0x1_0000_0000 + handle as u64 }
        },
    }
}

/// The receiver of a delivered text reads back its length and its handle.
pub proof fn delivered_words_read_back(len: usize, handle: u32)
    requires
        len <= RESPONSE_MAX,
    ensures
        (len * 0x1_0000_0000 + handle) as u64 / 0x1_0000_0000 == len,
        (len * 0x1_0000_0000 + handle) as u64 % 0x1_0000_0000 == handle,
{
}

// ---------------------------------------------------------------------
// The engine
// ---------------------------------------------------------------------

/// Tokens at which generation stops. `u32::MAX` stands for a chat token that
/// the vocabulary does not have.
#[derive(Debug, Clone, Copy, PartialEq, Eq, Structural)]
pub struct StopTokens {
    pub eos_id: u32,
    pub im_end_id: u32,
    pub im_start_id: u32,
}

impl StopTokens {
    pub open spec fn stop(self, token: u32) -> bool {
        ||| token == self.eos_id
        ||| self.im_end_id != u32::MAX && token == self.im_end_id
        ||| self.im_start_id != u32::MAX && token == self.im_start_id
    }

    pub fn is_stop(&self, token: u32) -> (r: bool)
        ensures
            r == self.stop(token),
    {
        token == self.eos_id || (self.im_end_id != u32::MAX && token == self.im_end_id) || (
        self.im_start_id != u32::MAX && token == self.im_start_id)
    }
}

/// What the server keeps of a loaded model.
pub struct InferenceEngine {
    pub config: TransformerConfig,
    pub weights_data: WeightsData,
    pub layer_data: LayerDataVec,
    pub stops: StopTokens,
    /// Whether a stream is being generated.
    pub is_generating: bool,
}

/// A query as far as it is taken over.
pub open spec fn query_of(input: Option<&[u8]>) -> Seq<u8> {
    match input {
        Some(s) => if s@.len() <= PROMPT_MAX {
            s@
        } else {
            s@.subrange(0, PROMPT_MAX as int)
        },
        None => Seq::empty(),
    }
}

/// Whether a request names a query at all.
pub fn wants_query(shmem: u32, len: usize) -> (r: bool)
    ensures
        r == (shmem > 0 && len > 0),
{
    shmem > 0 && len > 0
}

/// The start of the query that is taken over; nothing where it could not be
/// read.
pub fn take_query(input: Option<&[u8]>) -> (r: Vec<u8>)
    ensures
        r@ == query_of(input),
        r@.len() <= PROMPT_MAX,
{
    let mut out: Vec<u8> = Vec::new();
    match input {
        Some(s) => {
            if s.len() <= PROMPT_MAX {
                extend_bytes(&mut out, s);
            } else {
                extend_bytes(&mut out, slice_subrange(s, 0, PROMPT_MAX));
            }
            assert(out@ =~= query_of(input));
        },
        None => {},
    }
    out
}

/// What is tokenized for a query: the query in the chat format, and the bare
/// query where that would be too long.
pub open spec fn prompt_of(query: Seq<u8>) -> Seq<u8> {
    if chat_prompt(query).len() <= TEMPLATE_MAX {
        chat_prompt(query)
    } else {
        query
    }
}

pub fn wrap_query(query: &[u8]) -> (r: Vec<u8>)
    ensures
        r@ == prompt_of(query@),
{
    let mut buf: Vec<u8> = vec![0u8; 2048];
    let ghost before = buf@;
    let n: usize = wrap_chat_template(query, buf.as_mut_slice());
    let mut out: Vec<u8> = Vec::new();
    assert(chat_prompt(query@).len() > 0) by {
        reveal_strlit("<|im_start|>user\n");
        is_ascii_chars_encode_utf8("<|im_start|>user\n"@);
    }
    if n > 0 {
        extend_bytes(&mut out, slice_subrange(buf.as_slice(), 0, n));
        assert(out@ =~= chat_prompt(query@));
    } else {
        extend_bytes(&mut out, query);
        assert(out@ =~= query@);
    }
    out
}

/// What a request for an answer leads to.
pub enum RequestStart {
    /// Answer with a text.
    Answer(&'static str),
    /// Tokenize a prompt and start a run.
    Tokenize(Vec<u8>),
}

/// Takes a request for an answer: without a model or a query it is answered
/// with a text that says so.
pub fn handle_inference_request(has_engine: bool, input: Option<&[u8]>) -> (r: RequestStart)
    ensures
        match r {
            RequestStart::Answer(t) => {
                ||| !has_engine && t@ == NO_MODEL_TEXT@
                ||| has_engine && query_of(input).len() == 0 && t@ == EMPTY_PROMPT_TEXT@
            },
            RequestStart::Tokenize(p) => has_engine && query_of(input).len() > 0 && p@ == prompt_of(
                query_of(input),
            ),
        },
{
    if !has_engine {
        return RequestStart::Answer(NO_MODEL_TEXT);
    }
    let query = take_query(input);
    if query.len() == 0 {
        return RequestStart::Answer(EMPTY_PROMPT_TEXT);
    }
    RequestStart::Tokenize(wrap_query(query.as_slice()))
}

// ---------------------------------------------------------------------
// An answer in one piece
// ---------------------------------------------------------------------

/// What came of a forward pass.
#[derive(Debug, Clone, Copy, PartialEq, Eq, Structural)]
pub enum ForwardResult {
    /// The weights could not be set up.
    NoWeights,
    /// The pass failed.
    NoLogits,
    /// The token sampled from the logits; any one where none was to be sampled.
    Token(u32),
}

/// What to do next for an answer.
#[derive(Debug, Clone, Copy, PartialEq, Eq, Structural)]
pub enum AnswerStep {
    /// Run a token of the prompt through the model. A token is sampled at the
    /// last one.
    Prefill { token: u32, pos: usize, sample: bool },
    /// Run the last token through the model and sample the next.
    Forward { token: u32, pos: usize },
    /// Decode a token.
    Decode { token: u32 },
    /// Send the response.
    Respond,
    /// Answer that the weights could not be set up.
    FailWeights,
    /// Answer that the prompt could not be run.
    FailPrefill,
}

#[derive(Debug, Clone, Copy, PartialEq, Eq, Structural)]
pub enum AnswerPhase {
    Prefilling,
    Forwarding,
    Decoding,
    Over,
}

/// An answer under way.
pub struct AnswerRun {
    pub prompt: Vec<u32>,
    pub stops: StopTokens,
    pub prefilled: usize,
    pub generated: Vec<u32>,
    pub response: Vec<u8>,
    pub phase: AnswerPhase,
}

/// What an answer is, as far as its steps depend on it.
pub struct AnswerView {
    pub prompt: Seq<u32>,
    pub stops: StopTokens,
    pub prefilled: int,
    pub generated: Seq<u32>,
    pub response: Seq<u8>,
    pub phase: AnswerPhase,
}

impl View for AnswerRun {
    type V = AnswerView;

    open spec fn view(&self) -> AnswerView {
        AnswerView {
            prompt: self.prompt@,
            stops: self.stops,
            prefilled: self.prefilled as int,
            generated: self.generated@,
            response: self.response@,
            phase: self.phase,
        }
    }
}

impl AnswerView {
    pub open spec fn wf(self) -> bool {
        &&& self.prompt.len() <= PROMPT_TOKENS_MAX
        &&& 0 <= self.prefilled <= self.prompt.len()
        &&& self.generated.len() <= MAX_GEN_TOKENS
        &&& self.response.len() < RESPONSE_MAX
        &&& forall|i: int|
            0 <= i < self.generated.len() ==> !self.stops.stop(#[trigger] self.generated[i])
        &&& self.phase is Prefilling ==> self.prefilled < self.prompt.len()
            && self.generated.len() == 0
        &&& self.phase is Forwarding ==> 0 < self.generated.len() < MAX_GEN_TOKENS
            && self.prompt.len() + self.generated.len() < KV_WINDOW_SIZE
        &&& self.phase is Decoding ==> self.generated.len() > 0
    }

    pub open spec fn over(self) -> AnswerView {
        AnswerView { phase: AnswerPhase::Over, ..self }
    }

    /// With the next token sampled: at a stop token the answer is complete,
    /// any other is kept and decoded.
    pub open spec fn sampled(self, token: u32) -> (AnswerView, AnswerStep) {
        if self.stops.stop(token) {
            (self.over(), AnswerStep::Respond)
        } else {
            (
                AnswerView {
                    generated: self.generated.push(token),
                    phase: AnswerPhase::Decoding,
                    ..self
                },
                AnswerStep::Decode { token },
            )
        }
    }

    /// On to the next token, unless there are enough or the cache is full.
    pub open spec fn continued(self) -> (AnswerView, AnswerStep) {
        let k = self.generated.len();
        if k >= MAX_GEN_TOKENS || self.prompt.len() + k >= KV_WINDOW_SIZE {
            (self.over(), AnswerStep::Respond)
        } else {
            (
                AnswerView { phase: AnswerPhase::Forwarding, ..self },
                AnswerStep::Forward {
                    token: self.generated.last(),
                    pos: (self.prompt.len() + k - 1) as usize,
                },
            )
        }
    }

    pub open spec fn prefill_step(self) -> AnswerStep {
        AnswerStep::Prefill {
            token: self.prompt[self.prefilled],
            pos: self.prefilled as usize,
            sample: self.prefilled + 1 == self.prompt.len(),
        }
    }

    /// After a token of the prompt was run.
    pub open spec fn after_prefill(self, result: ForwardResult) -> (AnswerView, AnswerStep) {
        match result {
            ForwardResult::NoWeights => (self.over(), AnswerStep::FailWeights),
            ForwardResult::NoLogits => (self.over(), AnswerStep::FailPrefill),
            ForwardResult::Token(t) => {
                let next = AnswerView { prefilled: self.prefilled + 1, ..self };
                if next.prefilled == next.prompt.len() {
                    next.sampled(t)
                } else {
                    (next, next.prefill_step())
                }
            },
        }
    }

    /// After the last token was run: without a result the answer is complete.
    pub open spec fn after_forward(self, result: ForwardResult) -> (AnswerView, AnswerStep) {
        match result {
            ForwardResult::Token(t) => self.sampled(t),
            _ => (self.over(), AnswerStep::Respond),
        }
    }

    /// After a token was decoded: its text is added where the response has
    /// room for it.
    pub open spec fn after_decode(self, text: Seq<u8>) -> (AnswerView, AnswerStep) {
        let next = if self.response.len() + text.len() < RESPONSE_MAX {
            AnswerView { response: self.response + text, ..self }
        } else {
            self
        };
        next.continued()
    }
}

impl AnswerRun {
    /// Starts an answer to a prompt. Without any token the first one is taken
    /// to be zero.
    pub fn start(prompt: Vec<u32>, stops: StopTokens) -> (r: (AnswerRun, AnswerStep))
        requires
            prompt@.len() <= PROMPT_TOKENS_MAX,
        ensures
            r.0@.wf(),
            ({
                let fresh = AnswerView {
                    prompt: prompt@,
                    stops,
                    prefilled: 0,
                    generated: Seq::empty(),
                    response: Seq::empty(),
                    phase: AnswerPhase::Prefilling,
                };
                (r.0@, r.1) == if prompt@.len() > 0 {
                    (fresh, fresh.prefill_step())
                } else {
                    fresh.sampled(0)
                }
            }),
    {
        let n: usize = prompt.len();
        let mut run = AnswerRun {
            prompt,
            stops,
            prefilled: 0,
            generated: Vec::new(),
            response: Vec::new(),
            phase: AnswerPhase::Prefilling,
        };
        if n > 0 {
            let step = AnswerStep::Prefill { token: run.prompt[0], pos: 0, sample: n == 1 };
            (run, step)
        } else {
            let step = run.take(0);
            (run, step)
        }
    }

    fn take(&mut self, token: u32) -> (r: AnswerStep)
        requires
            old(self)@.prompt.len() <= PROMPT_TOKENS_MAX,
            0 <= old(self)@.prefilled <= old(self)@.prompt.len(),
            old(self)@.generated.len() < MAX_GEN_TOKENS,
            old(self)@.response.len() < RESPONSE_MAX,
            forall|i: int|
                0 <= i < old(self)@.generated.len() ==> !old(self)@.stops.stop(
                    #[trigger] old(self)@.generated[i],
                ),
        ensures
            final(self)@.wf(),
            (final(self)@, r) == old(self)@.sampled(token),
    {
        if self.stops.is_stop(token) {
            self.phase = AnswerPhase::Over;
            AnswerStep::Respond
        } else {
            self.generated.push(token);
            self.phase = AnswerPhase::Decoding;
            AnswerStep::Decode { token }
        }
    }

    /// Reports on a token of the prompt.
    pub fn on_prefill(&mut self, result: ForwardResult) -> (r: AnswerStep)
        requires
            old(self)@.wf(),
            old(self).phase is Prefilling,
        ensures
            final(self)@.wf(),
            (final(self)@, r) == old(self)@.after_prefill(result),
    {
        match result {
            ForwardResult::NoWeights => {
                self.phase = AnswerPhase::Over;
                AnswerStep::FailWeights
            },
            ForwardResult::NoLogits => {
                self.phase = AnswerPhase::Over;
                AnswerStep::FailPrefill
            },
            ForwardResult::Token(t) => {
                self.prefilled = self.prefilled + 1;
                if self.prefilled == self.prompt.len() {
                    self.take(t)
                } else {
                    AnswerStep::Prefill {
                        token: self.prompt[self.prefilled],
                        pos: self.prefilled,
                        sample: self.prefilled + 1 == self.prompt.len(),
                    }
                }
            },
        }
    }

    /// Reports on the last token.
    pub fn on_forward(&mut self, result: ForwardResult) -> (r: AnswerStep)
        requires
            old(self)@.wf(),
            old(self).phase is Forwarding,
        ensures
            final(self)@.wf(),
            (final(self)@, r) == old(self)@.after_forward(result),
    {
        match result {
            ForwardResult::Token(t) => self.take(t),
            _ => {
                self.phase = AnswerPhase::Over;
                AnswerStep::Respond
            },
        }
    }

    /// Hands over the text of a token.
    pub fn on_decoded(&mut self, text: &[u8]) -> (r: AnswerStep)
        requires
            old(self)@.wf(),
            old(self).phase is Decoding,
        ensures
            final(self)@.wf(),
            (final(self)@, r) == old(self)@.after_decode(text@),
    {
        if text.len() < RESPONSE_MAX - self.response.len() {
            extend_bytes(&mut self.response, text);
        }
        let k: usize = self.generated.len();
        let total: usize = self.prompt.len();
        if k >= MAX_GEN_TOKENS || total + k >= KV_WINDOW_SIZE {
            self.phase = AnswerPhase::Over;
            AnswerStep::Respond
        } else {
            self.phase = AnswerPhase::Forwarding;
            AnswerStep::Forward { token: self.generated[k - 1], pos: total + k - 1 }
        }
    }

    /// The text to answer with once the run is over.
    pub fn reply(&self) -> (r: Vec<u8>)
        ensures
            r@ == if self@.response.len() > 0 {
                self@.response
            } else {
                encode_utf8(EMPTY_RESPONSE_TEXT@)
            },
    {
        let mut out: Vec<u8> = Vec::new();
        if self.response.len() > 0 {
            extend_bytes(&mut out, self.response.as_slice());
            assert(out@ =~= self@.response);
        } else {
            extend_bytes(&mut out, EMPTY_RESPONSE_TEXT.as_bytes());
            assert(out@ =~= encode_utf8(EMPTY_RESPONSE_TEXT@));
        }
        out
    }
}

/// Whatever is reported, no position outside the key-value cache is asked for.
pub proof fn answers_stay_in_the_cache(run: AnswerView, result: ForwardResult, text: Seq<u8>)
    requires
        run.wf(),
    ensures
        run.phase is Prefilling ==> (run.after_prefill(result).1 matches AnswerStep::Prefill {
            pos,
            ..
        } ==> pos < KV_WINDOW_SIZE),
        run.phase is Decoding ==> (run.after_decode(text).1 matches AnswerStep::Forward { pos, .. }
            ==> pos < KV_WINDOW_SIZE),
{
}

/// Every report brings an answer closer to its end.
pub open spec fn answer_rank(run: AnswerView) -> int {
    let left = 2 * (MAX_GEN_TOKENS - run.generated.len()) + (run.prompt.len() - run.prefilled);
    match run.phase {
        AnswerPhase::Over => 0,
        AnswerPhase::Decoding => left + 2,
        _ => left + 1,
    }
}

/// An answer comes to an end: each report makes its rank smaller, and at zero
/// it is over.
pub proof fn answers_end(run: AnswerView, result: ForwardResult, text: Seq<u8>)
    requires
        run.wf(),
    ensures
        run.phase is Prefilling ==> 0 <= answer_rank(run.after_prefill(result).0) < answer_rank(run),
        run.phase is Forwarding ==> 0 <= answer_rank(run.after_forward(result).0) < answer_rank(run),
        run.phase is Decoding ==> 0 <= answer_rank(run.after_decode(text).0) < answer_rank(run),
{
}

// ---------------------------------------------------------------------
// What requests and answers mean
// ---------------------------------------------------------------------

/// A message word is read by its parts: the operation in the lowest 16 bits, a
/// handle in the next, and the rest as a length, or as a length and a handle.
pub proof fn requests_read_back(op: u16, handle: u16, len: u32)
    ensures
        ({
            let w = (op + 0x1_0000 * handle + 0x1_0000_0000 * len) as u64;
            &&& op == 0 ==> request_of(w) == ServerRequest::Ping
            &&& op == 2 ==> request_of(w) == ServerRequest::Status
            &&& op == 1 ==> request_of(w) == (ServerRequest::Generate {
                shmem: handle as u32,
                len: len as usize,
                is_rag: false,
            })
            &&& op == 3 ==> request_of(w) == (ServerRequest::Generate {
                shmem: handle as u32,
                len: len as usize,
                is_rag: true,
            })
            &&& op > 4 ==> request_of(w) == ServerRequest::Unknown
        }),
{
    let w = (op + 0x1_0000 * handle + 0x1_0000_0000 * len) as u64;
    assert(w as int % 0x1_0000 == op);
    assert(w as int / 0x1_0000 % 0x1_0000 == handle);
    assert(w as int / 0x1_0000_0000 == len);
}

/// The tokens at which generation stops: the end of the text, and the two chat
/// tokens where the vocabulary has them.
pub proof fn generation_stops_at(s: StopTokens, token: u32)
    ensures
        s.stop(token) <==> token == s.eos_id || (token != u32::MAX && (token == s.im_end_id || token
            == s.im_start_id)),
{
}

/// A query is taken over up to 1024 bytes, and tokenized in the chat format
/// where that has no more than 2048.
pub proof fn queries_are_wrapped(s: &[u8], query: Seq<u8>)
    ensures
        s@.len() <= 1024 ==> query_of(Some(s)) == s@,
        s@.len() > 1024 ==> query_of(Some(s)) == s@.subrange(0, 1024),
        query_of(None).len() == 0,
        chat_prompt(query).len() <= 2048 ==> prompt_of(query) == chat_prompt(query),
        chat_prompt(query).len() > 2048 ==> prompt_of(query) == query,
{
}

/// The prompt is run token by token, each at its place, and the first token of
/// the answer is sampled behind the last one.
pub proof fn prompts_are_run_in_order(run: AnswerView, t: u32)
    requires
        run.wf(),
        run.phase is Prefilling,
    ensures
        ({
            let (next, step) = run.after_prefill(ForwardResult::Token(t));
            let k = run.prefilled + 1;
            &&& k < run.prompt.len() ==> step == (AnswerStep::Prefill {
                token: run.prompt[k],
                pos: k as usize,
                sample: k + 1 == run.prompt.len(),
            }) && next.prefilled == k && next.generated == run.generated && next.response
                == run.response && next.phase is Prefilling
            &&& k == run.prompt.len() && run.stops.stop(t) ==> step == AnswerStep::Respond
                && next.phase is Over && next.response == run.response
            &&& k == run.prompt.len() && !run.stops.stop(t) ==> step == (AnswerStep::Decode {
                token: t,
            }) && next.generated == run.generated.push(t) && next.phase is Decoding
        }),
{
}

/// While an answer goes on, its last token is run right behind what was run
/// before, and the token that is sampled is kept and decoded, unless it stops
/// the answer.
pub proof fn answers_go_on(run: AnswerView, t: u32, text: Seq<u8>)
    requires
        run.wf(),
    ensures
        run.phase is Forwarding && run.stops.stop(t) ==> run.after_forward(ForwardResult::Token(t)).1
            == AnswerStep::Respond && run.after_forward(ForwardResult::Token(t)).0.response
            == run.response,
        run.phase is Forwarding && !run.stops.stop(t) ==> run.after_forward(
            ForwardResult::Token(t),
        ).1 == (AnswerStep::Decode { token: t }) && run.after_forward(
            ForwardResult::Token(t),
        ).0.generated == run.generated.push(t),
        run.phase is Forwarding ==> run.after_forward(ForwardResult::NoLogits).1
            == AnswerStep::Respond,
        run.phase is Decoding && run.generated.len() < 512 && run.prompt.len() + run.generated.len()
            < 1024 ==> run.after_decode(text).1 == (AnswerStep::Forward {
            token: run.generated[run.generated.len() - 1],
            pos: (run.prompt.len() + run.generated.len() - 1) as usize,
        }),
        run.phase is Decoding && (run.generated.len() == 512 || run.prompt.len()
            + run.generated.len() >= 1024) ==> run.after_decode(text).1 == AnswerStep::Respond,
        run.phase is Decoding && run.response.len() + text.len() < 4096 ==> run.after_decode(
            text,
        ).0.response == run.response + text,
        run.phase is Decoding && run.response.len() + text.len() >= 4096 ==> run.after_decode(
            text,
        ).0.response == run.response,
{
}

/// A prompt that cannot be run is answered with the reason.
pub proof fn failed_prompts_are_answered(run: AnswerView)
    ensures
        run.after_prefill(ForwardResult::NoWeights).1 == AnswerStep::FailWeights,
        run.after_prefill(ForwardResult::NoLogits).1 == AnswerStep::FailPrefill,
        run.after_prefill(ForwardResult::NoWeights).0.phase is Over,
        run.after_prefill(ForwardResult::NoLogits).0.phase is Over,
{
}

} // verus!
