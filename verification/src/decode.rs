//! The decode loop of the local model, and the fragments it sends to the shell.
use vstd::prelude::*;
use vstd::string::*;
use vstd::utf8::*;

use crate::bytes::{le64, le64_bytes, le64_bytes_back, read_le64};
use crate::text::{clip, clip_fits, clipped, extend_bytes};

verus! {

broadcast use vstd::seq_lib::group_seq_properties;

/// Tokens in one run after the first.
pub const MAX_DECODE: usize = 256;

/// End of a message.
pub const IM_END: u32 = 151645;

/// End of the text.
pub const END_OF_TEXT: u32 = 151643;

/// First token that the model is known to give for the greeting.
pub const EXPECTED_FIRST: u32 = 151667;

/// The greeting in the format of a chat.
pub const GREETING: &'static str =
    "<|im_start|>user\nHvem er du?<|im_end|>\n<|im_start|>assistant\n";

/// Bytes of one fragment.
pub const CHUNK_MAX: usize = 6;

pub open spec fn stops(token: u32) -> bool {
    token == IM_END || token == END_OF_TEXT
}

/// A run of the decode loop: the tokens so far.
pub struct DecodeRun {
    pub sampled: Vec<u32>,
}

impl DecodeRun {
    /// There is a first token, all but the last go on, and the limit holds.
    pub open spec fn wf(self) -> bool {
        &&& 1 <= self.sampled@.len() <= MAX_DECODE + 1
        &&& forall|i: int| 0 <= i < self.sampled@.len() - 1 ==> !stops(#[trigger] self.sampled@[i])
    }

    pub fn new(first: u32) -> (r: Self)
        ensures
            r.wf(),
            r.sampled@ == seq![first],
    {
        let mut sampled: Vec<u32> = Vec::new();
        sampled.push(first);
        DecodeRun { sampled }
    }

    /// The token to go on with; `None` where the run is over.
    pub fn next_input(&self) -> (r: Option<u32>)
        requires
            self.wf(),
        ensures
            r == (if self.sampled@.len() <= MAX_DECODE && !stops(self.sampled@.last()) {
                Some(self.sampled@.last())
            } else {
                None
            }),
    {
        if self.sampled.len() > MAX_DECODE {
            return None;
        }
        let last: u32 = self.sampled[self.sampled.len() - 1];
        if last == IM_END || last == END_OF_TEXT {
            return None;
        }
        Some(last)
    }

    /// Takes over a sampled token.
    pub fn push(&mut self, token: u32)
        requires
            old(self).wf(),
            old(self).sampled@.len() <= MAX_DECODE,
            !stops(old(self).sampled@.last()),
        ensures
            final(self).wf(),
            final(self).sampled@ == old(self).sampled@.push(token),
    {
        let ghost before = self.sampled@;
        self.sampled.push(token);
        assert forall|i: int| 0 <= i < self.sampled@.len() - 1 implies !stops(
            #[trigger] self.sampled@[i],
        ) by {
            assert(self.sampled@[i] == before[i]);
        }
    }
}

/// The eight bytes of a fragment message: the operation, the length, and the
/// fragment filled up with zeros.
pub open spec fn chunk_bytes(op: u8, text: Seq<char>) -> Seq<u8> {
    let body = encode_utf8(clip(text, CHUNK_MAX as int));
    seq![op, body.len() as u8] + body + Seq::new((6 - body.len()) as nat, |i: int| 0u8)
}

/// The message for a fragment: as many whole characters as fit into six bytes.
pub fn pack_chunk(op: u8, fragment: &str) -> (r: u64)
    ensures
        r == le64(chunk_bytes(op, fragment@), 0),
{
    let kept = clipped(fragment, CHUNK_MAX);
    let body = kept.as_str().as_bytes();
    proof {
        clip_fits(fragment@, CHUNK_MAX as int);
    }
    let mut out: Vec<u8> = Vec::new();
    out.push(op);
    out.push(body.len() as u8);
    extend_bytes(&mut out, body);
    let ghost head = out@;
    let mut pad: usize = body.len();
    while pad < CHUNK_MAX
        invariant
            body@.len() <= pad <= CHUNK_MAX,
            out@ == head + Seq::new((pad - body@.len()) as nat, |i: int| 0u8),
        decreases CHUNK_MAX - pad,
    {
        out.push(0);
        pad = pad + 1;
        assert(out@ =~= head + Seq::new((pad - body@.len()) as nat, |i: int| 0u8));
    }
    assert(out@ =~= chunk_bytes(op, fragment@));
    read_le64(out.as_slice(), 0)
}

/// The receiver reads back the operation and the fragment.
pub proof fn chunks_unpack(op: u8, text: Seq<char>)
    ensures
        ({
            let v = le64(chunk_bytes(op, text), 0) as u64;
            &&& le64_bytes(v)[0] == op
            &&& le64_bytes(v).subrange(2, 2 + le64_bytes(v)[1]) == encode_utf8(
                clip(text, CHUNK_MAX as int),
            )
        }),
{
    clip_fits(text, CHUNK_MAX as int);
    let s = chunk_bytes(op, text);
    le64_bytes_back(s, 0);
    assert(s.subrange(0, 8) =~= s);
    let body = encode_utf8(clip(text, CHUNK_MAX as int));
    assert(s.subrange(2, 2 + body.len() as int) =~= body);
}

/// The tokens that end a run, and no others do.
pub proof fn runs_stop_at(token: u32)
    ensures
        stops(token) <==> token == 151_645 || token == 151_643,
{
}

/// What stands in a message: the operation, the number of bytes, the fragment,
/// and zeros up to eight bytes.
pub proof fn chunks_are_laid_out(op: u8, text: Seq<char>)
    requires
        encode_utf8(text).len() <= 6,
    ensures
        chunk_bytes(op, text).len() == 8,
        chunk_bytes(op, text)[0] == op,
        chunk_bytes(op, text)[1] == encode_utf8(text).len(),
        chunk_bytes(op, text).subrange(2, 2 + encode_utf8(text).len() as int) == encode_utf8(text),
        forall|i: int|
            2 + encode_utf8(text).len() <= i < 8 ==> #[trigger] chunk_bytes(op, text)[i] == 0,
{
    crate::text::clip_keeps(text, 6);
    let b = encode_utf8(text);
    assert(chunk_bytes(op, text).subrange(2, 2 + b.len() as int) =~= b);
}

} // verus!
