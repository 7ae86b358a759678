//! The chat format that the model is prompted in.
use vstd::prelude::*;
use vstd::string::*;
use vstd::utf8::*;

use crate::text::bytes_eq;

verus! {

broadcast use vstd::seq_lib::group_seq_properties;

/// The system message. A line ends before `<|im_end|>`, so that the tokenizer
/// does not merge the last character of the text with the `<`.
pub const SYSTEM_MESSAGE: &'static str =
    "<|im_start|>system\nYou are Folkering, a helpful AI on Folkering OS (bare-metal Rust, WASM apps).\nKeep <think> brief. Give direct answers.\nTools: <|tool|>read FILENAME<|/tool|>, <|tool|>write FILENAME CONTENT<|/tool|>, <|tool|>ask_gemini PROMPT<|/tool|>.\nUse ask_gemini for coding tasks. Apps must target WASM (no_std Rust or C compiled to .wasm).\n<|im_end|>\n";

/// What stands before the query.
pub const USER_PREFIX: &'static str = "<|im_start|>user\n";

/// What stands behind the query.
pub const USER_SUFFIX: &'static str = "\n<|im_end|>\n<|im_start|>assistant\n";

/// A query in the chat format.
pub open spec fn chat_prompt(query: Seq<u8>) -> Seq<u8> {
    encode_utf8(SYSTEM_MESSAGE@) + encode_utf8(USER_PREFIX@) + query + encode_utf8(USER_SUFFIX@)
}

/// Writes `src` into `output` from `at` on.
fn put(output: &mut [u8], at: usize, src: &[u8])
    requires
        at + src@.len() <= old(output)@.len(),
    ensures
        final(output)@ == old(output)@.subrange(0, at as int) + src@ + old(output)@.subrange(
            at + src@.len(),
            old(output)@.len() as int,
        ),
{
    let ghost before = output@;
    let room: usize = output.len();
    let mut i: usize = 0;
    while i < src.len()
        invariant
            i <= src.len(),
            room == before.len(),
            at + src@.len() <= before.len(),
            output@.len() == before.len(),
            output@ == before.subrange(0, at as int) + src@.subrange(0, i as int)
                + before.subrange(at + i, before.len() as int),
        decreases src.len() - i,
    {
        output[at + i] = src[i];
        i = i + 1;
        assert(output@ =~= before.subrange(0, at as int) + src@.subrange(0, i as int)
            + before.subrange(at + i, before.len() as int));
    }
    assert(output@ =~= before.subrange(0, at as int) + src@ + before.subrange(
        at + src@.len(),
        before.len() as int,
    ));
}

/// Writes the query in the chat format to the start of `output` and returns
/// the number of bytes written; zero where they do not fit.
pub fn wrap_chat_template(query: &[u8], output: &mut [u8]) -> (r: usize)
    ensures
        chat_prompt(query@).len() > old(output)@.len() ==> r == 0 && final(output)@ == old(output)@,
        chat_prompt(query@).len() <= old(output)@.len() ==> r == chat_prompt(query@).len()
            && final(output)@ == chat_prompt(query@) + old(output)@.subrange(
            r as int,
            old(output)@.len() as int,
        ),
{
    let sys = SYSTEM_MESSAGE.as_bytes();
    let pre = USER_PREFIX.as_bytes();
    let suf = USER_SUFFIX.as_bytes();
    let ghost before = output@;
    let room: usize = output.len();
    let total = sys.len() as u128 + pre.len() as u128 + query.len() as u128 + suf.len() as u128;
    assert(total == chat_prompt(query@).len());
    if total > room as u128 {
        return 0;
    }
    let mut pos: usize = 0;
    put(output, pos, sys);
    pos = pos + sys.len();
    put(output, pos, pre);
    pos = pos + pre.len();
    put(output, pos, query);
    pos = pos + query.len();
    put(output, pos, suf);
    pos = pos + suf.len();
    assert(output@ =~= chat_prompt(query@) + before.subrange(pos as int, before.len() as int));
    pos
}

/// The query stands in its wrapping unchanged.
pub proof fn wrapping_keeps_the_query(query: Seq<u8>)
    ensures
        ({
            let at = (encode_utf8(SYSTEM_MESSAGE@) + encode_utf8(USER_PREFIX@)).len() as int;
            chat_prompt(query).subrange(at, at + query.len()) == query
        }),
{
    let at = (encode_utf8(SYSTEM_MESSAGE@) + encode_utf8(USER_PREFIX@)).len() as int;
    assert(chat_prompt(query).subrange(at, at + query.len()) =~= query);
}

/// The first token from `id` on whose bytes are `needle`.
pub open spec fn token_from(vocab: Seq<Vec<u8>>, needle: Seq<u8>, id: int) -> Option<int>
    decreases vocab.len() - id,
{
    if id >= vocab.len() {
        None
    } else if vocab[id]@ == needle {
        Some(id)
    } else {
        token_from(vocab, needle, id + 1)
    }
}

/// The token whose bytes are `needle`, the first of several; `u32::MAX` where
/// the vocabulary has none.
pub fn find_token_id(vocab: &[Vec<u8>], needle: &[u8]) -> (r: u32)
    requires
        vocab@.len() <= u32::MAX,
    ensures
        r == (match token_from(vocab@, needle@, 0) {
            Some(id) => id,
            None => u32::MAX as int,
        }),
{
    let mut id: usize = 0;
    while id < vocab.len()
        invariant
            id <= vocab.len() <= u32::MAX,
            token_from(vocab@, needle@, 0) == token_from(vocab@, needle@, id as int),
        decreases vocab.len() - id,
    {
        if bytes_eq(vocab[id].as_slice(), needle) {
            return id as u32;
        }
        id = id + 1;
    }
    u32::MAX
}

/// A token that is found has the bytes, and no earlier one has.
pub proof fn found_token_is_first(vocab: Seq<Vec<u8>>, needle: Seq<u8>, id: int)
    requires
        0 <= id,
    ensures
        match token_from(vocab, needle, id) {
            Some(k) => id <= k < vocab.len() && vocab[k]@ == needle && forall|j: int|
                id <= j < k ==> (#[trigger] vocab[j])@ != needle,
            None => forall|j: int| id <= j < vocab.len() ==> (#[trigger] vocab[j])@ != needle,
        },
    decreases vocab.len() - id,
{
    if id < vocab.len() && vocab[id]@ != needle {
        found_token_is_first(vocab, needle, id + 1);
    }
}

/// A query in the chat format: a message of the system, then the query as that
/// of the user, then the opening of the answer. The system's message ends like
/// that of the user.
#[verifier::rlimit(40)]
pub proof fn chats_have_their_parts(query: Seq<u8>)
    ensures
        encode_utf8("<|im_start|>system\n"@).is_prefix_of(chat_prompt(query)),
        (encode_utf8("\n<|im_end|>\n"@) + encode_utf8("<|im_start|>user\n"@) + query + encode_utf8(
            "\n<|im_end|>\n<|im_start|>assistant\n"@,
        )).is_suffix_of(chat_prompt(query)),
{
    let sys = SYSTEM_MESSAGE@;
    let head = "<|im_start|>system\n"@;
    let tail = "\n<|im_end|>\n"@;
    let n = sys.len() as int;
    reveal_strlit(
        "<|im_start|>system\nYou are Folkering, a helpful AI on Folkering OS (bare-metal Rust, WASM apps).\nKeep <think> brief. Give direct answers.\nTools: <|tool|>read FILENAME<|/tool|>, <|tool|>write FILENAME CONTENT<|/tool|>, <|tool|>ask_gemini PROMPT<|/tool|>.\nUse ask_gemini for coding tasks. Apps must target WASM (no_std Rust or C compiled to .wasm).\n<|im_end|>\n",
    );
    reveal_strlit("<|im_start|>system\n");
    reveal_strlit("\n<|im_end|>\n");
    is_ascii_chars_encode_utf8(sys);
    is_ascii_chars_encode_utf8(head);
    is_ascii_chars_encode_utf8(tail);
    let e = encode_utf8(sys);
    let p = chat_prompt(query);
    let a = encode_utf8(head);
    let z = encode_utf8(tail);
    assert(sys.subrange(0, head.len() as int) =~= head);
    assert(sys.subrange(n - tail.len(), n) =~= tail);
    assert forall|i: int| 0 <= i < a.len() implies a[i] == e[i] by {
        assert(sys.subrange(0, head.len() as int)[i] == sys[i]);
    }
    assert forall|i: int| 0 <= i < z.len() implies z[i] == e[n - tail.len() + i] by {
        assert(sys.subrange(n - tail.len(), n)[i] == sys[n - tail.len() + i]);
    }
    assert(p.subrange(0, a.len() as int) =~= a);
    let u = encode_utf8("<|im_start|>user\n"@);
    let v = encode_utf8("\n<|im_end|>\n<|im_start|>assistant\n"@);
    let end = z + u + query + v;
    assert(e.subrange(e.len() - z.len(), e.len() as int) =~= z);
    assert(p.subrange(p.len() - end.len(), p.len() as int) =~= end);
}

} // verus!
