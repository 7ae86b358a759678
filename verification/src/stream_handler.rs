//! The generation of an answer as a stream, with tools in between. The run
//! says what to compute next; the caller computes it and reports the result.
use vstd::prelude::*;
use vstd::slice::slice_subrange;
use vstd::string::*;
use vstd::utf8::*;

use crate::handlers::{
    prompt_of, query_of, take_query, wrap_query, InferenceEngine, StopTokens, KV_WINDOW_SIZE,
    MAX_GEN_TOKENS, PROMPT_TOKENS_MAX,
};
use crate::stream::{
    sieve_passes_text, held, passed, RingView, TextSieve, TokenRing, RING_DATA_MAX, STATUS_DONE,
    STATUS_ERROR, TOOL_IDLE, TOOL_PAUSED, TOOL_READY,
};
use crate::text::{bytes_eq, extend_bytes};

verus! {

broadcast use vstd::seq_lib::group_seq_properties;

/// Tokens of the prompt that are run together.
pub const PREFILL_BATCH: usize = 8;

/// Bytes of a decoded token.
pub const TOKEN_BYTES_MAX: usize = 64;

/// Tokens of a tool's result.
pub const RESULT_TOKENS_MAX: usize = 256;

/// How often a tool is waited for.
pub const TOOL_WAIT_MAX: u32 = 500_000;

/// What closes a call of a tool.
pub const TOOL_CLOSE_TAG: &'static str = "<|/tool|>";

/// Bytes of the closing tag.
pub const TAG_LEN: usize = 9;

/// What a stream ends with when the cache is full.
pub const CONTEXT_LIMIT_TEXT: &'static str = "\n[Context Limit Reached]";

/// Takes a request for a stream and returns the reply: zero, and the engine
/// generates from now on; or `u64::MAX` where there is no model or the engine
/// generates already.
pub fn handle_async_inference(engine: &mut Option<InferenceEngine>) -> (r: u64)
    ensures
        match *old(engine) {
            Some(e) => if e.is_generating {
                r == u64::MAX && *final(engine) == *old(engine)
            } else {
                r == 0 && *final(engine) == Some(InferenceEngine { is_generating: true, ..e })
            },
            None => r == u64::MAX && *final(engine) == *old(engine),
        },
{
    match engine {
        Some(e) => {
            if e.is_generating {
                return u64::MAX;
            }
            e.is_generating = true;
            0
        },
        None => u64::MAX,
    }
}

impl InferenceEngine {
    /// The stream is over.
    pub fn release(&mut self)
        ensures
            *final(self) == (InferenceEngine { is_generating: false, ..*old(self) }),
    {
        self.is_generating = false;
    }
}

/// The prompt of a stream; `None` where there is no query to answer.
pub fn stream_prompt(input: Option<&[u8]>) -> (r: Option<Vec<u8>>)
    ensures
        r is Some <==> query_of(input).len() > 0,
        r matches Some(p) ==> p@ == prompt_of(query_of(input)),
{
    let query = take_query(input);
    if query.len() == 0 {
        return None;
    }
    Some(wrap_query(query.as_slice()))
}

/// What to do next for a stream.
#[derive(Debug, Clone, Copy, PartialEq, Eq, Structural)]
pub enum StreamStep {
    /// Run tokens of the prompt together.
    PrefillBatch { from: usize, to: usize },
    /// Run the prompt's last token and sample.
    PrefillLast { token: u32, pos: usize },
    /// Run the last token and sample the next.
    Forward { token: u32, pos: usize },
    /// Decode a token.
    Decode { token: u32 },
    /// Wait until the compositor has run the tool.
    WaitForTool,
    /// Tokenize the tool's result in the buffer.
    EncodeResult { at: usize, len: usize },
    /// Run the result's tokens but the last one together.
    InjectBatch { count: usize, pos: usize },
    /// Run the result's last token and sample the next.
    InjectLast { token: u32, pos: usize },
    /// The stream is complete.
    Done,
    /// The stream failed.
    Failed,
}

#[derive(Debug, Clone, Copy, PartialEq, Eq, Structural)]
pub enum StreamPhase {
    Batching,
    LastToken,
    Forwarding,
    Decoding,
    Waiting,
    Encoding,
    Injecting,
    InjectingLast,
    Over,
}

/// A stream under way.
pub struct StreamRun {
    pub prompt: Vec<u32>,
    pub stops: StopTokens,
    /// Tokens of the prompt that were run.
    pub fed: usize,
    pub generated: Vec<u32>,
    /// Position of the next token in the cache.
    pub pos: usize,
    pub sieve: TextSieve,
    /// The last bytes that were decoded since a tool was called.
    pub tail: Vec<u8>,
    /// Bytes of the tool's result that are taken over.
    pub result_len: usize,
    pub result_tokens: Vec<u32>,
    pub phase: StreamPhase,
}

/// What a stream is, as far as its steps depend on it.
pub struct StreamView {
    pub prompt: Seq<u32>,
    pub stops: StopTokens,
    pub fed: int,
    pub generated: Seq<u32>,
    pub pos: int,
    pub held: Seq<u8>,
    pub tail: Seq<u8>,
    pub result_len: int,
    pub result_tokens: Seq<u32>,
    pub phase: StreamPhase,
}

impl View for StreamRun {
    type V = StreamView;

    open spec fn view(&self) -> StreamView {
        StreamView {
            prompt: self.prompt@,
            stops: self.stops,
            fed: self.fed as int,
            generated: self.generated@,
            pos: self.pos as int,
            held: self.sieve.held@,
            tail: self.tail@,
            result_len: self.result_len as int,
            result_tokens: self.result_tokens@,
            phase: self.phase,
        }
    }
}

/// The bytes of the closing tag.
pub open spec fn close_tag() -> Seq<u8> {
    encode_utf8(TOOL_CLOSE_TAG@)
}

pub open spec fn context_limit() -> Seq<u8> {
    encode_utf8(CONTEXT_LIMIT_TEXT@)
}

/// As many of the last bytes as the closing tag has.
pub open spec fn last_bytes(s: Seq<u8>) -> Seq<u8> {
    if s.len() <= TAG_LEN {
        s
    } else {
        s.subrange(s.len() - TAG_LEN, s.len() as int)
    }
}

pub open spec fn lesser(a: int, b: int) -> int {
    if a <= b {
        a
    } else {
        b
    }
}

impl StreamView {
    pub open spec fn wf(self) -> bool {
        &&& 0 < self.prompt.len() <= PROMPT_TOKENS_MAX
        &&& 0 <= self.fed < self.prompt.len()
        &&& self.generated.len() <= MAX_GEN_TOKENS
        &&& 0 < self.pos
        &&& self.held.len() < 4
        &&& self.tail.len() <= TAG_LEN
        &&& 0 <= self.result_len <= RING_DATA_MAX
        &&& self.result_tokens.len() <= RESULT_TOKENS_MAX
        &&& forall|i: int|
            0 <= i < self.generated.len() ==> !self.stops.stop(#[trigger] self.generated[i])
        &&& match self.phase {
            StreamPhase::Batching => self.fed + 1 < self.prompt.len() && self.generated.len() == 0
                && self.pos == self.prompt.len(),
            StreamPhase::LastToken => self.fed + 1 == self.prompt.len() && self.generated.len()
                == 0 && self.pos == self.prompt.len(),
            StreamPhase::Over => true,
            StreamPhase::Forwarding => 0 < self.generated.len() < MAX_GEN_TOKENS && self.pos
                < KV_WINDOW_SIZE,
            StreamPhase::Injecting => self.generated.len() > 0 && self.pos < KV_WINDOW_SIZE
                && self.result_tokens.len() > 1,
            StreamPhase::InjectingLast => self.generated.len() > 0 && self.pos < KV_WINDOW_SIZE
                + RESULT_TOKENS_MAX && self.result_tokens.len() > 0,
            _ => self.generated.len() > 0 && self.pos < KV_WINDOW_SIZE,
        }
    }

    /// The stream is complete.
    pub open spec fn finished(self, g: RingView) -> (StreamView, RingView, StreamStep) {
        (
            StreamView { phase: StreamPhase::Over, ..self },
            RingView { status: STATUS_DONE, ..g },
            StreamStep::Done,
        )
    }

    /// The stream failed.
    pub open spec fn failed(self, g: RingView) -> (StreamView, RingView, StreamStep) {
        (
            StreamView { phase: StreamPhase::Over, ..self },
            RingView { status: STATUS_ERROR, ..g },
            StreamStep::Failed,
        )
    }

    /// With the next token sampled: at a stop token the stream is complete,
    /// any other is kept and decoded.
    pub open spec fn sampled(self, g: RingView, token: u32) -> (StreamView, RingView, StreamStep) {
        if self.stops.stop(token) {
            self.finished(g)
        } else {
            (
                StreamView {
                    generated: self.generated.push(token),
                    phase: StreamPhase::Decoding,
                    ..self
                },
                g,
                StreamStep::Decode { token },
            )
        }
    }

    /// Whether another token can be generated.
    pub open spec fn goes_on(self) -> bool {
        self.generated.len() < MAX_GEN_TOKENS && self.pos < KV_WINDOW_SIZE
    }

    /// On to the next token, unless there are enough. A full cache is said in
    /// the stream, where there is room for it.
    pub open spec fn continued(self, g: RingView) -> (StreamView, RingView, StreamStep) {
        if self.generated.len() >= MAX_GEN_TOKENS {
            self.finished(g)
        } else if self.pos >= KV_WINDOW_SIZE {
            self.finished(g.with(context_limit()))
        } else {
            (
                StreamView { phase: StreamPhase::Forwarding, ..self },
                g,
                StreamStep::Forward {
                    token: self.generated.last(),
                    pos: (self.pos - 1) as usize,
                },
            )
        }
    }

    /// The next tokens of the prompt to run: all but the last one in batches.
    pub open spec fn prefill_step(self) -> StreamStep {
        if self.fed + 1 < self.prompt.len() {
            StreamStep::PrefillBatch {
                from: self.fed as usize,
                to: lesser(self.fed + PREFILL_BATCH, self.prompt.len() - 1) as usize,
            }
        } else {
            StreamStep::PrefillLast { token: self.prompt.last(), pos: self.fed as usize }
        }
    }

    /// With the prompt run up to `fed`.
    pub open spec fn prefilled(self, fed: int) -> StreamView {
        StreamView {
            fed,
            phase: if fed + 1 < self.prompt.len() {
                StreamPhase::Batching
            } else {
                StreamPhase::LastToken
            },
            ..self
        }
    }

    /// After a batch of the prompt.
    pub open spec fn after_batch(self, g: RingView, run: bool) -> (
        StreamView,
        RingView,
        StreamStep,
    ) {
        if !run {
            self.failed(g)
        } else {
            let next = self.prefilled(lesser(self.fed + PREFILL_BATCH, self.prompt.len() - 1));
            (next, g, next.prefill_step())
        }
    }

    /// After the prompt's last token: the first token to generate.
    pub open spec fn after_last(self, g: RingView, token: Option<u32>) -> (
        StreamView,
        RingView,
        StreamStep,
    ) {
        match token {
            None => self.failed(g),
            Some(t) => self.sampled(g, t),
        }
    }

    /// After the last token was run: without a result the stream is complete.
    pub open spec fn after_forward(self, g: RingView, token: Option<u32>) -> (
        StreamView,
        RingView,
        StreamStep,
    ) {
        match token {
            None => self.finished(g),
            Some(t) => self.sampled(g, t),
        }
    }

    /// After a token was decoded: the characters that are whole go into the
    /// stream. Without room the stream is complete. At the end of a tool call
    /// the stream pauses.
    pub open spec fn after_decode(self, g: RingView, bytes: Seq<u8>) -> (
        StreamView,
        RingView,
        StreamStep,
    ) {
        let text = passed(self.held + bytes);
        let sieved = StreamView { held: held(self.held + bytes), ..self };
        let next = StreamView { tail: last_bytes(self.tail + bytes), ..sieved };
        if bytes.len() == 0 {
            StreamView { pos: self.pos + 1, ..self }.continued(g)
        } else if text.len() > 0 && !g.has_room(text.len()) {
            sieved.finished(g)
        } else if next.tail == close_tag() {
            (
                StreamView { phase: StreamPhase::Waiting, ..next },
                RingView { tool_state: TOOL_PAUSED, ..g.with(text) },
                StreamStep::WaitForTool,
            )
        } else {
            StreamView { pos: next.pos + 1, ..next }.continued(g.with(text))
        }
    }

    /// Bytes of the tool's result that the buffer has.
    pub open spec fn result_room(self, g: RingView) -> int {
        lesser(g.tool_result_len as int, RING_DATA_MAX - g.text.len())
    }

    /// On from a tool call: the tag is looked for anew.
    pub open spec fn resumed(self, g: RingView) -> (StreamView, RingView, StreamStep) {
        StreamView { tail: Seq::empty(), ..self }.continued(RingView { tool_state: TOOL_IDLE, ..g })
    }

    /// After the wait for a tool: its result is tokenized, if there is one.
    pub open spec fn after_tool(self, g: RingView, ready: bool) -> (
        StreamView,
        RingView,
        StreamStep,
    ) {
        if !ready || self.result_room(g) == 0 {
            self.resumed(g)
        } else {
            (
                StreamView {
                    result_len: self.result_room(g),
                    phase: StreamPhase::Encoding,
                    ..self
                },
                g,
                StreamStep::EncodeResult {
                    at: g.text.len() as usize,
                    len: self.result_room(g) as usize,
                },
            )
        }
    }

    pub open spec fn inject_last(self, g: RingView) -> (StreamView, RingView, StreamStep) {
        (
            StreamView { phase: StreamPhase::InjectingLast, ..self },
            g,
            StreamStep::InjectLast { token: self.result_tokens.last(), pos: self.pos as usize },
        )
    }

    /// With the result's tokens. `g` is the buffer, `taken` the buffer with the
    /// result taken over.
    pub open spec fn after_encode(self, g: RingView, taken: RingView, tokens: Seq<u32>) -> (
        StreamView,
        RingView,
        StreamStep,
    ) {
        let next = StreamView { result_tokens: tokens, ..self };
        if tokens.len() == 0 {
            next.resumed(taken)
        } else if tokens.len() > 1 {
            (
                StreamView { phase: StreamPhase::Injecting, ..next },
                g,
                StreamStep::InjectBatch {
                    count: (tokens.len() - 1) as usize,
                    pos: self.pos as usize,
                },
            )
        } else {
            next.inject_last(g)
        }
    }

    /// After the result's tokens but the last one: they take up positions if
    /// the weights could be set up.
    pub open spec fn after_inject(self, g: RingView, run: bool) -> (
        StreamView,
        RingView,
        StreamStep,
    ) {
        StreamView {
            pos: if run {
                self.pos + self.result_tokens.len() - 1
            } else {
                self.pos
            },
            ..self
        }.inject_last(g)
    }

    /// After the result's last token: the token that was sampled behind it comes
    /// next. Without one the last generated token is run again.
    pub open spec fn after_inject_last(self, taken: RingView, token: Option<u32>) -> (
        StreamView,
        RingView,
        StreamStep,
    ) {
        match token {
            None => self.resumed(taken),
            Some(t) => {
                let next = StreamView { pos: self.pos + 1, tail: Seq::empty(), ..self };
                let idle = RingView { tool_state: TOOL_IDLE, ..taken };
                if next.goes_on() {
                    next.sampled(idle, t)
                } else {
                    next.continued(idle)
                }
            },
        }
    }
}

/// The buffer with the tool's result in the text.
pub open spec fn with_result(ring: TokenRing, len: int) -> RingView {
    RingView {
        text: ring.text() + ring.data@.subrange(ring.write_idx as int, ring.write_idx + len),
        ..ring@
    }
}

/// What came of looking at a tool.
#[derive(Debug, Clone, Copy, PartialEq, Eq, Structural)]
pub enum ToolPoll {
    Ready,
    Again,
    TimedOut,
}

/// Whether the tool's result is there, after having waited `waited` times.
pub fn poll_tool(tool_state: u32, waited: u32) -> (r: ToolPoll)
    ensures
        r == (if tool_state == TOOL_READY {
            ToolPoll::Ready
        } else if waited >= TOOL_WAIT_MAX {
            ToolPoll::TimedOut
        } else {
            ToolPoll::Again
        }),
{
    if tool_state == TOOL_READY {
        ToolPoll::Ready
    } else if waited >= TOOL_WAIT_MAX {
        ToolPoll::TimedOut
    } else {
        ToolPoll::Again
    }
}

impl StreamRun {
    fn finish(&mut self, ring: &mut TokenRing) -> (r: StreamStep)
        requires
            old(ring).wf(),
        ensures
            final(ring).wf(),
            (final(self)@, final(ring)@, r) == old(self)@.finished(old(ring)@),
    {
        self.phase = StreamPhase::Over;
        ring.status = STATUS_DONE;
        StreamStep::Done
    }

    fn fail(&mut self, ring: &mut TokenRing) -> (r: StreamStep)
        requires
            old(ring).wf(),
        ensures
            final(ring).wf(),
            (final(self)@, final(ring)@, r) == old(self)@.failed(old(ring)@),
    {
        self.phase = StreamPhase::Over;
        ring.status = STATUS_ERROR;
        StreamStep::Failed
    }

    fn take(&mut self, ring: &mut TokenRing, token: u32) -> (r: StreamStep)
        requires
            old(ring).wf(),
            old(self)@.wf(),
            old(self)@.generated.len() < MAX_GEN_TOKENS,
            old(self)@.pos < KV_WINDOW_SIZE,
        ensures
            final(ring).wf(),
            final(self)@.wf(),
            (final(self)@, final(ring)@, r) == old(self)@.sampled(old(ring)@, token),
    {
        if self.stops.is_stop(token) {
            self.finish(ring)
        } else {
            self.generated.push(token);
            self.phase = StreamPhase::Decoding;
            StreamStep::Decode { token }
        }
    }

    fn go_on(&mut self, ring: &mut TokenRing) -> (r: StreamStep)
        requires
            old(ring).wf(),
            (StreamView { phase: StreamPhase::Over, ..old(self)@ }).wf(),
            old(self)@.generated.len() > 0,
        ensures
            final(ring).wf(),
            final(self)@.wf(),
            (final(self)@, final(ring)@, r) == old(self)@.continued(old(ring)@),
    {
        let k: usize = self.generated.len();
        if k >= MAX_GEN_TOKENS {
            self.finish(ring)
        } else if self.pos >= KV_WINDOW_SIZE {
            ring.append(CONTEXT_LIMIT_TEXT.as_bytes());
            self.finish(ring)
        } else {
            self.phase = StreamPhase::Forwarding;
            StreamStep::Forward { token: self.generated[k - 1], pos: self.pos - 1 }
        }
    }

    fn prefill(&self) -> (r: StreamStep)
        requires
            self@.wf(),
            self.phase is Batching || self.phase is LastToken,
        ensures
            r == self@.prefill_step(),
    {
        let last: usize = self.prompt.len() - 1;
        if self.fed < last {
            let to: usize = if self.fed + PREFILL_BATCH <= last {
                self.fed + PREFILL_BATCH
            } else {
                last
            };
            StreamStep::PrefillBatch { from: self.fed, to }
        } else {
            StreamStep::PrefillLast { token: self.prompt[last], pos: self.fed }
        }
    }

    /// Starts a stream for a prompt.
    pub fn start(prompt: Vec<u32>, stops: StopTokens) -> (r: (StreamRun, StreamStep))
        requires
            0 < prompt@.len() <= PROMPT_TOKENS_MAX,
        ensures
            r.0@.wf(),
            r.0@ == (StreamView {
                prompt: prompt@,
                stops,
                fed: 0,
                generated: Seq::empty(),
                pos: prompt@.len() as int,
                held: Seq::empty(),
                tail: Seq::empty(),
                result_len: 0,
                result_tokens: Seq::empty(),
                phase: StreamPhase::Batching,
            }).prefilled(0),
            r.1 == r.0@.prefill_step(),
    {
        let n: usize = prompt.len();
        let run = StreamRun {
            prompt,
            stops,
            fed: 0,
            generated: Vec::new(),
            pos: n,
            sieve: TextSieve::new(),
            tail: Vec::new(),
            result_len: 0,
            result_tokens: Vec::new(),
            phase: if n > 1 {
                StreamPhase::Batching
            } else {
                StreamPhase::LastToken
            },
        };
        let step = run.prefill();
        (run, step)
    }

    /// Reports on a batch of the prompt.
    pub fn on_batch(&mut self, ring: &mut TokenRing, run: bool) -> (r: StreamStep)
        requires
            old(ring).wf(),
            old(self)@.wf(),
            old(self).phase is Batching,
        ensures
            final(ring).wf(),
            final(self)@.wf(),
            (final(self)@, final(ring)@, r) == old(self)@.after_batch(old(ring)@, run),
    {
        if !run {
            return self.fail(ring);
        }
        let last: usize = self.prompt.len() - 1;
        self.fed = if self.fed + PREFILL_BATCH <= last {
            self.fed + PREFILL_BATCH
        } else {
            last
        };
        if self.fed == last {
            self.phase = StreamPhase::LastToken;
        }
        self.prefill()
    }

    /// Reports on the prompt's last token.
    pub fn on_last(&mut self, ring: &mut TokenRing, token: Option<u32>) -> (r: StreamStep)
        requires
            old(ring).wf(),
            old(self)@.wf(),
            old(self).phase is LastToken,
        ensures
            final(ring).wf(),
            final(self)@.wf(),
            (final(self)@, final(ring)@, r) == old(self)@.after_last(old(ring)@, token),
    {
        match token {
            None => self.fail(ring),
            Some(t) => self.take(ring, t),
        }
    }

    /// Reports on the last token.
    pub fn on_forward(&mut self, ring: &mut TokenRing, token: Option<u32>) -> (r: StreamStep)
        requires
            old(ring).wf(),
            old(self)@.wf(),
            old(self).phase is Forwarding,
        ensures
            final(ring).wf(),
            final(self)@.wf(),
            (final(self)@, final(ring)@, r) == old(self)@.after_forward(old(ring)@, token),
    {
        match token {
            None => self.finish(ring),
            Some(t) => self.take(ring, t),
        }
    }

    fn keep_tail(&mut self, bytes: &[u8])
        requires
            old(self)@.tail.len() <= TAG_LEN,
            bytes@.len() <= TOKEN_BYTES_MAX,
        ensures
            final(self)@ == (StreamView { tail: last_bytes(old(self)@.tail + bytes@), ..old(self)@
            }),
    {
        let mut all: Vec<u8> = Vec::new();
        extend_bytes(&mut all, self.tail.as_slice());
        extend_bytes(&mut all, bytes);
        assert(all@ =~= self.tail@ + bytes@);
        if all.len() <= TAG_LEN {
            self.tail = all;
        } else {
            let mut kept: Vec<u8> = Vec::new();
            extend_bytes(&mut kept, slice_subrange(all.as_slice(), all.len() - TAG_LEN, all.len()));
            assert(kept@ =~= last_bytes(all@));
            self.tail = kept;
        }
    }

    /// Hands over the bytes of a token.
    pub fn on_decoded(&mut self, ring: &mut TokenRing, bytes: &[u8]) -> (r: StreamStep)
        requires
            old(ring).wf(),
            old(self)@.wf(),
            old(self).phase is Decoding,
            bytes@.len() <= TOKEN_BYTES_MAX,
        ensures
            final(ring).wf(),
            final(self)@.wf(),
            (final(self)@, final(ring)@, r) == old(self)@.after_decode(old(ring)@, bytes@),
    {
        if bytes.len() == 0 {
            self.pos = self.pos + 1;
            return self.go_on(ring);
        }
        let text = self.sieve.take_in(bytes);
        if text.len() > 0 {
            let written: bool = ring.append(text.as_slice());
            if !written {
                return self.finish(ring);
            }
        } else {
            assert(ring@.with(text@) == ring@) by {
                assert(ring@.text + text@ =~= ring@.text);
            }
        }
        self.keep_tail(bytes);
        if bytes_eq(self.tail.as_slice(), TOOL_CLOSE_TAG.as_bytes()) {
            ring.tool_state = TOOL_PAUSED;
            self.phase = StreamPhase::Waiting;
            return StreamStep::WaitForTool;
        }
        self.pos = self.pos + 1;
        self.go_on(ring)
    }

    fn resume(&mut self, ring: &mut TokenRing) -> (r: StreamStep)
        requires
            old(ring).wf(),
            (StreamView { phase: StreamPhase::Over, ..old(self)@ }).wf(),
            old(self)@.generated.len() > 0,
        ensures
            final(ring).wf(),
            final(self)@.wf(),
            (final(self)@, final(ring)@, r) == old(self)@.resumed(old(ring)@),
    {
        ring.tool_state = TOOL_IDLE;
        self.tail = Vec::new();
        self.go_on(ring)
    }

    /// Reports that a tool has run, or that it was not waited for any longer.
    pub fn on_tool(&mut self, ring: &mut TokenRing, ready: bool) -> (r: StreamStep)
        requires
            old(ring).wf(),
            old(self)@.wf(),
            old(self).phase is Waiting,
        ensures
            final(ring).wf(),
            final(self)@.wf(),
            (final(self)@, final(ring)@, r) == old(self)@.after_tool(old(ring)@, ready),
    {
        if !ready {
            return self.resume(ring);
        }
        let at: usize = ring.write_idx as usize;
        let free: usize = RING_DATA_MAX - at;
        let len: usize = if ring.tool_result_len as usize <= free {
            ring.tool_result_len as usize
        } else {
            free
        };
        if len == 0 {
            return self.resume(ring);
        }
        self.result_len = len;
        self.phase = StreamPhase::Encoding;
        StreamStep::EncodeResult { at, len }
    }

    fn take_over(&mut self, ring: &mut TokenRing) -> (r: StreamStep)
        requires
            old(ring).wf(),
            old(ring).write_idx + old(self)@.result_len <= RING_DATA_MAX,
            (StreamView { phase: StreamPhase::Over, ..old(self)@ }).wf(),
            old(self)@.generated.len() > 0,
        ensures
            final(ring).wf(),
            final(self)@.wf(),
            (final(self)@, final(ring)@, r) == old(self)@.resumed(
                with_result(*old(ring), old(self)@.result_len),
            ),
    {
        ring.take_result(self.result_len);
        self.resume(ring)
    }

    fn last_result_token(&mut self) -> (r: StreamStep)
        requires
            0 < old(self)@.result_tokens.len(),
        ensures
            final(self)@ == (StreamView { phase: StreamPhase::InjectingLast, ..old(self)@ }),
            r == (StreamStep::InjectLast {
                token: old(self)@.result_tokens.last(),
                pos: old(self)@.pos as usize,
            }),
    {
        self.phase = StreamPhase::InjectingLast;
        StreamStep::InjectLast {
            token: self.result_tokens[self.result_tokens.len() - 1],
            pos: self.pos,
        }
    }

    /// Hands over the tokens of the tool's result.
    pub fn on_result_tokens(&mut self, ring: &mut TokenRing, tokens: Vec<u32>) -> (r: StreamStep)
        requires
            old(ring).wf(),
            old(self)@.wf(),
            old(self).phase is Encoding,
            old(ring).write_idx + old(self)@.result_len <= RING_DATA_MAX,
            tokens@.len() <= RESULT_TOKENS_MAX,
        ensures
            final(ring).wf(),
            final(self)@.wf(),
            (final(self)@, final(ring)@, r) == old(self)@.after_encode(
                old(ring)@,
                with_result(*old(ring), old(self)@.result_len),
                tokens@,
            ),
    {
        let n: usize = tokens.len();
        self.result_tokens = tokens;
        if n == 0 {
            self.take_over(ring)
        } else if n > 1 {
            self.phase = StreamPhase::Injecting;
            StreamStep::InjectBatch { count: n - 1, pos: self.pos }
        } else {
            self.last_result_token()
        }
    }

    /// Reports whether the result's tokens but the last one were run.
    pub fn on_injected(&mut self, ring: &mut TokenRing, run: bool) -> (r: StreamStep)
        requires
            old(ring).wf(),
            old(self)@.wf(),
            old(self).phase is Injecting,
        ensures
            *final(ring) == *old(ring),
            final(self)@.wf(),
            (final(self)@, final(ring)@, r) == old(self)@.after_inject(old(ring)@, run),
    {
        if run {
            self.pos = self.pos + (self.result_tokens.len() - 1);
        }
        self.last_result_token()
    }

    /// Reports on the result's last token: the token sampled behind it, if it was
    /// run.
    pub fn on_injected_last(&mut self, ring: &mut TokenRing, token: Option<u32>) -> (r: StreamStep)
        requires
            old(ring).wf(),
            old(self)@.wf(),
            old(self).phase is InjectingLast,
            old(ring).write_idx + old(self)@.result_len <= RING_DATA_MAX,
        ensures
            final(ring).wf(),
            final(self)@.wf(),
            (final(self)@, final(ring)@, r) == old(self)@.after_inject_last(
                with_result(*old(ring), old(self)@.result_len),
                token,
            ),
    {
        match token {
            None => self.take_over(ring),
            Some(t) => {
                self.pos = self.pos + 1;
                if self.generated.len() < MAX_GEN_TOKENS && self.pos < KV_WINDOW_SIZE {
                    ring.take_result(self.result_len);
                    ring.tool_state = TOOL_IDLE;
                    self.tail = Vec::new();
                    self.take(ring, t)
                } else {
                    self.take_over(ring)
                }
            },
        }
    }
}

/// Whatever the model generates, a stream of valid UTF-8 stays one.
pub proof fn streams_hold_text(run: StreamView, g: RingView, bytes: Seq<u8>)
    requires
        valid_utf8(g.text),
    ensures
        valid_utf8(run.after_decode(g, bytes).1.text),
{
    sieve_passes_text(run.held + bytes);
    let text = passed(run.held + bytes);
    valid_utf8_concat(g.text, text);
    encode_utf8_valid_utf8(CONTEXT_LIMIT_TEXT@);
    valid_utf8_concat(g.text, context_limit());
    valid_utf8_concat(g.text + text, context_limit());
}

/// What stands in a stream stays: a token only adds to it.
pub proof fn streams_only_grow(run: StreamView, g: RingView, bytes: Seq<u8>)
    ensures
        g.text.is_prefix_of(run.after_decode(g, bytes).1.text),
{
    let after = run.after_decode(g, bytes).1.text;
    assert(g.text =~= after.subrange(0, g.text.len() as int));
}

/// How far a stream is from its end.
pub open spec fn stream_rank(run: StreamView) -> int {
    let left = 6 * (MAX_GEN_TOKENS - run.generated.len());
    match run.phase {
        StreamPhase::Over => 0,
        StreamPhase::Batching => left + 2 + run.prompt.len() - run.fed,
        StreamPhase::LastToken => left + 2,
        StreamPhase::Forwarding => left + 1,
        StreamPhase::InjectingLast => left + 2,
        StreamPhase::Injecting => left + 3,
        StreamPhase::Encoding => left + 4,
        StreamPhase::Waiting => left + 5,
        StreamPhase::Decoding => left + 6,
    }
}

/// A stream comes to an end: each report brings it closer, and at zero it is
/// over.
pub proof fn streams_end(
    run: StreamView,
    g: RingView,
    taken: RingView,
    ok: bool,
    token: Option<u32>,
    bytes: Seq<u8>,
    tokens: Seq<u32>,
)
    requires
        run.wf(),
    ensures
        stream_rank(run) >= 0,
        run.phase is Batching ==> stream_rank(run.after_batch(g, ok).0) < stream_rank(run),
        run.phase is LastToken ==> stream_rank(run.after_last(g, token).0) < stream_rank(run),
        run.phase is Forwarding ==> stream_rank(run.after_forward(g, token).0) < stream_rank(run),
        run.phase is Decoding ==> stream_rank(run.after_decode(g, bytes).0) < stream_rank(run),
        run.phase is Waiting ==> stream_rank(run.after_tool(g, ok).0) < stream_rank(run),
        run.phase is Encoding ==> stream_rank(run.after_encode(g, taken, tokens).0) < stream_rank(
            run,
        ),
        run.phase is Injecting ==> stream_rank(run.after_inject(g, ok).0) < stream_rank(run),
        run.phase is InjectingLast ==> stream_rank(run.after_inject_last(taken, token).0)
            < stream_rank(run),
{
}

/// What a tool returned steers what comes next: the token that was sampled
/// behind its result is the next one of the stream, and nothing is run between.
pub proof fn result_steers_the_stream(run: StreamView, taken: RingView, token: u32)
    requires
        run.wf(),
        run.phase is InjectingLast,
        run.generated.len() < MAX_GEN_TOKENS,
        run.pos + 1 < KV_WINDOW_SIZE,
        !run.stops.stop(token),
    ensures
        ({
            let (next, ring, step) = run.after_inject_last(taken, Some(token));
            &&& step == StreamStep::Decode { token }
            &&& next.generated == run.generated.push(token)
            &&& next.pos == run.pos + 1
            &&& ring.tool_state == TOOL_IDLE
            &&& ring.text == taken.text
        }),
{
}

/// A stream that ends at a token is complete and its status says so; one that
/// ends because the prompt could not be run has failed and its status says so.
pub proof fn ended_streams_say_so(run: StreamView, g: RingView, bytes: Seq<u8>, token: Option<u32>)
    requires
        run.wf(),
        !(run.phase is Over),
    ensures
        ({
            let (next, ring, step) = run.after_decode(g, bytes);
            next.phase is Over ==> step is Done && ring.status == STATUS_DONE
        }),
        ({
            let (next, ring, step) = run.after_last(g, token);
            next.phase is Over ==> if token is None {
                step is Failed && ring.status == STATUS_ERROR
            } else {
                step is Done && ring.status == STATUS_DONE
            }
        }),
{
}

/// A stream pauses for a tool right behind the closing tag, and only there,
/// however the tag is cut into tokens. `seen` are the bytes since the last call,
/// of which the run remembers the end, and `bytes` are those of the next token;
/// what passes of them has room.
pub proof fn closing_tag_pauses(run: StreamView, g: RingView, seen: Seq<u8>, bytes: Seq<u8>)
    requires
        run.tail == last_bytes(seen),
        bytes.len() > 0,
        passed(run.held + bytes).len() == 0 || g.has_room(passed(run.held + bytes).len()),
    ensures
        ({
            let (next, ring, step) = run.after_decode(g, bytes);
            &&& step is WaitForTool <==> close_tag().is_suffix_of(seen + bytes)
            &&& next.tail == last_bytes(seen + bytes)
            &&& step is WaitForTool ==> ring.tool_state == TOOL_PAUSED && ring.text == g.text
                + passed(run.held + bytes)
        }),
{
    reveal_strlit("<|/tool|>");
    is_ascii_chars_encode_utf8(TOOL_CLOSE_TAG@);
    let tag = close_tag();
    let all = seen + bytes;
    assert(tag.len() == 9);
    assert(last_bytes(run.tail + bytes) =~= last_bytes(all));
    if all.len() >= 9 {
        assert(last_bytes(all) =~= all.subrange(all.len() - 9, all.len() as int));
        if tag.is_suffix_of(all) {
            assert(all.subrange(all.len() - 9, all.len() as int) =~= tag);
        }
    }
    assert(passed(run.held + bytes).len() == 0 ==> g.text + passed(run.held + bytes) =~= g.text);
}

// ---------------------------------------------------------------------
// What each step of a stream does
// ---------------------------------------------------------------------

/// The prompt is run in batches of eight up to its last token, without a gap,
/// and the last token by itself; a batch that fails ends the stream.
pub proof fn prompts_are_run_in_batches(run: StreamView, g: RingView)
    requires
        run.wf(),
        run.phase is Batching,
    ensures
        ({
            let (next, ring, step) = run.after_batch(g, true);
            let k = if run.fed + 8 < run.prompt.len() {
                run.fed + 8
            } else {
                run.prompt.len() - 1
            };
            &&& next.fed == k
            &&& ring == g
            &&& next.generated == run.generated
            &&& k + 1 == run.prompt.len() ==> step == (StreamStep::PrefillLast {
                token: run.prompt[k],
                pos: k as usize,
            })
            &&& k + 1 < run.prompt.len() ==> step == (StreamStep::PrefillBatch {
                from: k as usize,
                to: (if k + 8 < run.prompt.len() {
                    k + 8
                } else {
                    run.prompt.len() - 1
                }) as usize,
            })
        }),
        run.after_batch(g, false).2 == StreamStep::Failed,
        run.after_batch(g, false).1.status == 2,
{
}

/// A sampled token is kept and decoded, unless it stops the stream; then the
/// stream is complete and its text stays.
pub proof fn sampled_tokens_are_kept(run: StreamView, g: RingView, t: u32)
    ensures
        ({
            let (next, ring, step) = run.after_forward(g, Some(t));
            &&& run.stops.stop(t) ==> step == StreamStep::Done && ring.status == 1 && ring.text
                == g.text && next.phase is Over && next.generated == run.generated
            &&& !run.stops.stop(t) ==> step == (StreamStep::Decode { token: t }) && ring == g
                && next.generated == run.generated.push(t) && next.pos == run.pos
        }),
        run.after_last(g, Some(t)) == run.after_forward(g, Some(t)),
        run.after_last(g, None).2 == StreamStep::Failed,
        run.after_last(g, None).1.status == 2,
        run.after_last(g, None).1.text == g.text,
{
}

/// The text of a token goes into the stream where there is room for it, and the
/// token is run right behind what was run before; no room ends the stream. At
/// 512 tokens it is complete, and at a full cache it says so.
pub proof fn decoded_text_goes_into_the_stream(run: StreamView, g: RingView, bytes: Seq<u8>)
    requires
        run.wf(),
        run.phase is Decoding,
        bytes.len() > 0,
        last_bytes(run.tail + bytes) != close_tag(),
    ensures
        ({
            let (next, ring, step) = run.after_decode(g, bytes);
            let text = passed(run.held + bytes);
            let room = g.text.len() + text.len() < 16_368;
            let with = g.text + text;
            &&& text.len() > 0 && !room ==> step == StreamStep::Done && ring.text == g.text
                && ring.status == 1
            &&& room && run.generated.len() < 512 && run.pos + 1 < 1024 ==> step == (
            StreamStep::Forward {
                token: run.generated[run.generated.len() - 1],
                pos: run.pos as usize,
            }) && ring.text == with && ring.status == g.status && next.pos == run.pos + 1
                && next.generated == run.generated
            &&& room && run.generated.len() == 512 ==> step == StreamStep::Done && ring.text == with
                && ring.status == 1
            &&& room && run.generated.len() < 512 && run.pos + 1 >= 1024 ==> step
                == StreamStep::Done && ring.status == 1 && ring.text == if with.len()
                + context_limit().len() < 16_368 {
                with + context_limit()
            } else {
                with
            }
        }),
{
    assert(passed(run.held + bytes).len() == 0 ==> g.text + passed(run.held + bytes) =~= g.text);
}

/// A tool that is ready with a result has it tokenized, as far as the buffer
/// has it; without a result the stream goes on from its last token.
pub proof fn tools_hand_over_their_result(run: StreamView, g: RingView)
    requires
        run.wf(),
        run.phase is Waiting,
        g.text.len() <= 16_368,
    ensures
        ({
            let room = 16_368 - g.text.len();
            let len = if g.tool_result_len <= room {
                g.tool_result_len as int
            } else {
                room
            };
            &&& len > 0 ==> run.after_tool(g, true).2 == (StreamStep::EncodeResult {
                at: g.text.len() as usize,
                len: len as usize,
            }) && run.after_tool(g, true).1 == g
            &&& len == 0 ==> run.after_tool(g, true) == run.after_tool(g, false)
        }),
        run.generated.len() < 512 ==> run.after_tool(g, false).2 == (StreamStep::Forward {
            token: run.generated[run.generated.len() - 1],
            pos: (run.pos - 1) as usize,
        }) && run.after_tool(g, false).1.tool_state == 0 && run.after_tool(g, false).1.text == g.text
            && run.after_tool(g, false).0.tail.len() == 0,
{
}

/// The tokens of a result are run behind what was run before: all but the last
/// as a batch, and then the last right behind them.
pub proof fn results_are_run_in_order(
    run: StreamView,
    g: RingView,
    taken: RingView,
    tokens: Seq<u32>,
)
    requires
        run.wf(),
        run.phase is Encoding,
        0 < tokens.len() <= 256,
    ensures
        ({
            let (next, ring, step) = run.after_encode(g, taken, tokens);
            let (last, held, end) = next.after_inject(g, true);
            &&& ring == g
            &&& tokens.len() == 1 ==> step == (StreamStep::InjectLast {
                token: tokens[0],
                pos: run.pos as usize,
            })
            &&& tokens.len() > 1 ==> step == (StreamStep::InjectBatch {
                count: (tokens.len() - 1) as usize,
                pos: run.pos as usize,
            }) && end == (StreamStep::InjectLast {
                token: tokens[tokens.len() - 1],
                pos: (run.pos + tokens.len() - 1) as usize,
            }) && last.pos == run.pos + tokens.len() - 1 && held == g
        }),
{
}

/// The tag that calls a tool, in bytes, and what says that the cache is full.
pub proof fn stream_texts()
    ensures
        close_tag() == seq![60u8, 124, 47, 116, 111, 111, 108, 124, 62],
        context_limit() == encode_utf8("\n[Context Limit Reached]"@),
{
    reveal_strlit("<|/tool|>");
    is_ascii_chars_encode_utf8(TOOL_CLOSE_TAG@);
    assert(close_tag() =~= seq![60u8, 124, 47, 116, 111, 111, 108, 124, 62]);
}

} // verus!
