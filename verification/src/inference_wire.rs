//! Requests to the inference service: the header in the shared page, the checks
//! on it, and the choice of a backend.
use vstd::prelude::*;
use vstd::string::*;
use vstd::utf8::*;

use crate::bytes::{le16, le32, le32_bytes, push_le16, push_le32, read_le16, read_le32};
use crate::text::text_of;

verus! {

broadcast use vstd::seq_lib::group_seq_properties;

pub const WIRE_MAGIC: u32 = 0x464E_4946;

pub const WIRE_VERSION: u16 = 1;

/// Bytes of the shared page.
pub const WIRE_PAGE: usize = 4096;

/// Bytes of the header.
pub const WIRE_SIZE: usize = 92;

/// Bytes of the model name.
pub const MODEL_LEN: usize = 64;

/// Outcome of a request.
#[derive(Debug, Clone, Copy, PartialEq, Eq, Structural)]
pub enum InferenceStatus {
    Success,
    /// The backend cannot handle the request.
    NotImplemented,
    /// The proxy did not answer or refused.
    ProxyFailed,
    BufferTooSmall,
    /// The page is not mapped or the header is malformed.
    BadRequest,
}

/// The number of a status in the header.
pub open spec fn status_code(s: InferenceStatus) -> u16 {
    match s {
        InferenceStatus::Success => 0,
        InferenceStatus::NotImplemented => 1,
        InferenceStatus::ProxyFailed => 2,
        InferenceStatus::BufferTooSmall => 3,
        InferenceStatus::BadRequest => 4,
    }
}

impl InferenceStatus {
    pub fn code(self) -> (r: u16)
        ensures
            r == status_code(self),
    {
        match self {
            InferenceStatus::Success => 0,
            InferenceStatus::NotImplemented => 1,
            InferenceStatus::ProxyFailed => 2,
            InferenceStatus::BufferTooSmall => 3,
            InferenceStatus::BadRequest => 4,
        }
    }
}

/// Different outcomes have different numbers.
pub proof fn status_codes_differ(a: InferenceStatus, b: InferenceStatus)
    ensures
        status_code(a) == status_code(b) ==> a == b,
{
}

/// The outcome of a request and how many bytes were produced.
#[derive(Debug, Clone, Copy, PartialEq, Eq, Structural)]
pub struct Outcome {
    pub status: InferenceStatus,
    pub output_len: u32,
}

/// The header at the beginning of the page. The caller fills in all but
/// `status` and `output_len`.
pub struct InferenceWire {
    pub magic: u32,
    pub version: u16,
    pub status: u16,
    pub output_len: u32,
    pub prompt_len: u32,
    pub result_max: u32,
    pub prompt_off: u32,
    pub result_off: u32,
    pub model: Vec<u8>,
}

/// The header of a page.
pub fn read_wire(page: &[u8; 4096]) -> (w: InferenceWire)
    ensures
        w.magic == le32(page@, 0),
        w.version == le16(page@, 4),
        w.status == le16(page@, 6),
        w.output_len == le32(page@, 8),
        w.prompt_len == le32(page@, 12),
        w.result_max == le32(page@, 16),
        w.prompt_off == le32(page@, 20),
        w.result_off == le32(page@, 24),
        w.model@ == page@.subrange(28, 92),
{
    let p = page.as_slice();
    let mut model: Vec<u8> = Vec::new();
    crate::text::extend_bytes(&mut model, &p[28..92]);
    assert(model@ =~= page@.subrange(28, 92));
    InferenceWire {
        magic: read_le32(p, 0),
        version: read_le16(p, 4),
        status: read_le16(p, 6),
        output_len: read_le32(p, 8),
        prompt_len: read_le32(p, 12),
        result_max: read_le32(p, 16),
        prompt_off: read_le32(p, 20),
        result_off: read_le32(p, 24),
        model,
    }
}

impl InferenceWire {
    /// The magic and the version are known, and prompt and result lie in the
    /// page, behind the header and one behind the other.
    pub open spec fn acceptable(self) -> bool {
        &&& self.magic == WIRE_MAGIC
        &&& self.version == WIRE_VERSION
        &&& WIRE_SIZE <= self.prompt_off
        &&& self.prompt_off + self.prompt_len <= self.result_off
        &&& self.prompt_off + self.prompt_len <= WIRE_PAGE
        &&& self.result_off + self.result_max <= WIRE_PAGE
    }

    pub fn is_acceptable(&self) -> (r: bool)
        ensures
            r == self.acceptable(),
    {
        if self.magic != WIRE_MAGIC || self.version != WIRE_VERSION {
            return false;
        }
        let prompt_end: u32 = self.prompt_off.saturating_add(self.prompt_len);
        let result_end: u32 = self.result_off.saturating_add(self.result_max);
        !(prompt_end as usize > WIRE_PAGE || result_end as usize > WIRE_PAGE || (
        self.prompt_off as usize) < WIRE_SIZE || self.result_off < prompt_end)
    }
}

/// In an accepted request header, prompt and result do not overlap.
pub proof fn accepted_regions_are_disjoint(w: InferenceWire)
    requires
        w.acceptable(),
    ensures
        WIRE_SIZE <= w.prompt_off,
        w.prompt_off + w.prompt_len <= w.result_off,
        w.result_off + w.result_max <= WIRE_PAGE,
{
}

/// The end of a name that is filled up with zero bytes.
pub open spec fn name_end(s: Seq<u8>, i: int) -> int
    decreases s.len() - i,
{
    if i >= s.len() || s[i] == 0 {
        i
    } else {
        name_end(s, i + 1)
    }
}

/// The model name, empty where it is not UTF-8.
pub open spec fn model_name(s: Seq<u8>) -> Seq<char> {
    let name = s.subrange(0, name_end(s, 0));
    if valid_utf8(name) {
        decode_utf8(name)
    } else {
        ""@
    }
}

pub fn model_str(buf: &[u8]) -> (r: String)
    ensures
        r@ == model_name(buf@),
{
    let mut end: usize = 0;
    while end < buf.len() && buf[end] != 0
        invariant
            end <= buf.len(),
            name_end(buf@, 0) == name_end(buf@, end as int),
        decreases buf.len() - end,
    {
        end = end + 1;
    }
    match text_of(buf, 0, end) {
        Some(t) => t,
        None => "".to_owned(),
    }
}

/// The local backend: it handles nothing yet.
pub fn local_backend_run() -> (r: Outcome)
    ensures
        r == (Outcome { status: InferenceStatus::NotImplemented, output_len: 0 }),
{
    Outcome { status: InferenceStatus::NotImplemented, output_len: 0 }
}

/// What a request leads to.
pub enum RequestStep {
    /// The request is answered without a backend.
    Answer { outcome: Outcome },
    /// Ask the proxy. The reply goes to `result_off` and has room for
    /// `result_max` bytes.
    AskProxy { model: String, prompt: String, result_off: u32, result_max: u32 },
}

pub open spec fn is_bad_request(r: RequestStep) -> bool {
    r matches RequestStep::Answer { outcome } && outcome == (Outcome {
        status: InferenceStatus::BadRequest,
        output_len: 0,
    })
}

/// What a request page leads to: a malformed one is refused, any other goes to
/// the proxy. A prompt must be UTF-8.
pub open spec fn page_leads_to(page: Seq<u8>, r: RequestStep) -> bool {
    let off = le32(page, 20);
    let len = le32(page, 12);
    let ok = {
        &&& le32(page, 0) == WIRE_MAGIC
        &&& le16(page, 4) == WIRE_VERSION
        &&& WIRE_SIZE <= off
        &&& off + len <= le32(page, 24)
        &&& off + len <= WIRE_PAGE
        &&& le32(page, 24) + le32(page, 16) <= WIRE_PAGE
    };
    if !ok || !valid_utf8(page.subrange(off, off + len)) {
        is_bad_request(r)
    } else {
        r matches RequestStep::AskProxy { model, prompt, result_off, result_max } && model@
            == model_name(page.subrange(28, 92)) && prompt@ == decode_utf8(
            page.subrange(off, off + len),
        ) && result_off == le32(page, 24) && result_max == le32(page, 16)
    }
}

/// Checks a request and chooses the backend: the local one does not handle it,
/// so the proxy does.
pub fn handle_mapped(page: &[u8; 4096]) -> (r: RequestStep)
    ensures
        page_leads_to(page@, r),
{
    let wire = read_wire(page);
    let refused = Outcome { status: InferenceStatus::BadRequest, output_len: 0 };
    if !wire.is_acceptable() {
        return RequestStep::Answer { outcome: refused };
    }
    let local = local_backend_run();
    if local.status == InferenceStatus::Success {
        return RequestStep::Answer { outcome: local };
    }
    let from: usize = wire.prompt_off as usize;
    let to: usize = from + wire.prompt_len as usize;
    match text_of(page.as_slice(), from, to) {
        Some(prompt) => RequestStep::AskProxy {
            model: model_str(wire.model.as_slice()),
            prompt,
            result_off: wire.result_off,
            result_max: wire.result_max,
        },
        None => RequestStep::Answer { outcome: refused },
    }
}

/// Takes a request whose page was mapped, or could not be.
pub fn dispatch(page: Option<&[u8; 4096]>) -> (r: RequestStep)
    ensures
        match page {
            Some(p) => page_leads_to(p@, r),
            None => is_bad_request(r),
        },
{
    match page {
        Some(p) => handle_mapped(p),
        None => RequestStep::Answer {
            outcome: Outcome { status: InferenceStatus::BadRequest, output_len: 0 },
        },
    }
}

/// The outcome for a reply of the proxy: its status and how many bytes it
/// produced. No reply is a failure.
pub fn proxy_outcome(reply: Option<(u32, u64)>) -> (r: Outcome)
    ensures
        r == (match reply {
            Some((status, len)) => Outcome {
                status: if status == 0 {
                    InferenceStatus::Success
                } else {
                    InferenceStatus::ProxyFailed
                },
                output_len: (len % 0x1_0000_0000) as u32,
            },
            None => Outcome { status: InferenceStatus::ProxyFailed, output_len: 0 },
        }),
{
    match reply {
        Some((status, len)) => Outcome {
            status: if status == 0 {
                InferenceStatus::Success
            } else {
                InferenceStatus::ProxyFailed
            },
            output_len: (len % 0x1_0000_0000) as u32,
        },
        None => Outcome { status: InferenceStatus::ProxyFailed, output_len: 0 },
    }
}

/// Where the outcome stands in the page.
pub const STATUS_OFFSET: usize = 6;

/// The bytes that go into the page at the status: status and output length.
pub fn outcome_bytes(outcome: Outcome) -> (r: Vec<u8>)
    ensures
        r@ == crate::bytes::le16_bytes(status_code(outcome.status)) + le32_bytes(
            outcome.output_len,
        ),
        r@.len() == 6,
{
    let mut out: Vec<u8> = Vec::new();
    push_le16(&mut out, outcome.status.code());
    push_le32(&mut out, outcome.output_len);
    assert(out@ =~= crate::bytes::le16_bytes(status_code(outcome.status)) + le32_bytes(
        outcome.output_len,
    ));
    out
}

/// A written outcome is read back from the header, and nothing else in the page
/// changes with it.
pub proof fn outcome_reads_back(page: Seq<u8>, outcome: Outcome)
    requires
        page.len() == WIRE_PAGE,
    ensures
        ({
            let bytes = crate::bytes::le16_bytes(status_code(outcome.status)) + le32_bytes(
                outcome.output_len,
            );
            let after = page.subrange(0, 6) + bytes + page.subrange(12, page.len() as int);
            &&& after.len() == page.len()
            &&& le16(after, 6) == status_code(outcome.status)
            &&& le32(after, 8) == outcome.output_len
            &&& le32(after, 0) == le32(page, 0)
            &&& le16(after, 4) == le16(page, 4)
            &&& after.subrange(12, page.len() as int) == page.subrange(12, page.len() as int)
        }),
{
    let bytes = crate::bytes::le16_bytes(status_code(outcome.status)) + le32_bytes(
        outcome.output_len,
    );
    let after = page.subrange(0, 6) + bytes + page.subrange(12, page.len() as int);
    assert(after.subrange(8, 12) =~= le32_bytes(outcome.output_len));
    crate::bytes::le32_round_trip(after, 8, outcome.output_len);
    assert(after[6] == bytes[0] && after[7] == bytes[1]);
    assert(after.subrange(12, page.len() as int) =~= page.subrange(12, page.len() as int));
}

/// The page and the flags of a request message: its lower and upper half.
pub fn handle_request(payload: u64) -> (r: (u32, u32))
    ensures
        r.0 == payload % 0x1_0000_0000,
        r.1 == payload / 0x1_0000_0000,
{
    ((payload % 0x1_0000_0000) as u32, (payload / 0x1_0000_0000) as u32)
}

/// A name ends at its first zero byte, or with the field.
pub proof fn names_end_at_a_zero(name: Seq<char>, rest: Seq<u8>)
    requires
        !encode_utf8(name).contains(0),
        rest.len() == 0 || rest[0] == 0,
    ensures
        model_name(encode_utf8(name) + rest) == name,
{
    let b = encode_utf8(name);
    let s = b + rest;
    assert forall|k: int| 0 <= k < b.len() implies #[trigger] s[k] != 0 by {
        assert(b.contains(b[k]));
    }
    lemma_name_end(s, 0, b.len() as int);
    assert(s.subrange(0, b.len() as int) =~= b);
    encode_utf8_valid_utf8(name);
    encode_utf8_decode_utf8(name);
}

proof fn lemma_name_end(s: Seq<u8>, i: int, e: int)
    requires
        0 <= i <= e <= s.len(),
        forall|k: int| i <= k < e ==> #[trigger] s[k] != 0,
        e == s.len() || s[e] == 0,
    ensures
        name_end(s, i) == e,
    decreases e - i,
{
    if i < e {
        assert(s[i] != 0);
        lemma_name_end(s, i + 1, e);
    }
}

/// A request is handed on exactly where its header is known, prompt and result
/// lie one behind the other in the page behind the 92 bytes of header, and the
/// prompt is UTF-8; then with its model, its prompt and the place for the
/// result. Any other is refused.
pub proof fn requests_are_handed_on(page: Seq<u8>, r: RequestStep)
    requires
        page.len() == 4096,
        page_leads_to(page, r),
    ensures
        ({
            let off = le32(page, 20);
            let len = le32(page, 12);
            let at = le32(page, 24);
            let good = page[0] == 0x46 && page[1] == 0x49 && page[2] == 0x4E && page[3] == 0x46
                && le16(page, 4) == 1 && 92 <= off && off + len <= at && at + le32(page, 16) <= 4096
                && valid_utf8(page.subrange(off, off + len));
            if good {
                r matches RequestStep::AskProxy { model, prompt, result_off, result_max } && model@
                    == model_name(page.subrange(28, 92)) && prompt@ == decode_utf8(
                    page.subrange(off, off + len),
                ) && result_off == at && result_max == le32(page, 16)
            } else {
                r matches RequestStep::Answer { outcome } && outcome.status
                    == InferenceStatus::BadRequest && outcome.output_len == 0
            }
        }),
{
}

/// The outcomes by their numbers.
pub proof fn outcomes_have_numbers()
    ensures
        status_code(InferenceStatus::Success) == 0,
        status_code(InferenceStatus::NotImplemented) == 1,
        status_code(InferenceStatus::ProxyFailed) == 2,
        status_code(InferenceStatus::BufferTooSmall) == 3,
        status_code(InferenceStatus::BadRequest) == 4,
{
}

} // verus!
