//! Boot checks of the inference service: which tensors and token sequences the
//! test files must hold. Sums over the tensors are left to the caller.
use vstd::prelude::*;
use vstd::string::*;
use vstd::utf8::*;

use crate::bytes::{le16_bytes, le32_bytes, le64_bytes, push_le16, push_le32, push_le64};
use crate::forward::ModelConfig;
use crate::nucleus::{finite, is_finite};
use crate::tensor::embedding_lookup;
use crate::text::{extend_bytes, str_eq};
use crate::tokenizer::{shown_text, text_bytes, Tokenizer};
use crate::topk::{argmax, greedy};
use crate::weights::{fnv1a_64, fnv_from, named, FbinView, MAGIC, VERSION};

verus! {

broadcast use vstd::seq_lib::group_seq_properties;

// ---------------------------------------------------------------------
// The embedded file
// ---------------------------------------------------------------------

/// Where the data of the embedded file begins.
pub const TEST_DATA_AT: u64 = 4096;

/// The bit patterns of 1 to 16.
pub const ONE_TO_SIXTEEN: [u32; 16] = [
    0x3F80_0000, 0x4000_0000, 0x4040_0000, 0x4080_0000, 0x40A0_0000, 0x40C0_0000, 0x40E0_0000,
    0x4100_0000, 0x4110_0000, 0x4120_0000, 0x4130_0000, 0x4140_0000, 0x4150_0000, 0x4160_0000,
    0x4170_0000, 0x4180_0000,
];

/// The bit patterns of a quarter, a half, three quarters and one.
pub const QUARTERS: [u32; 4] = [0x3E80_0000, 0x3F00_0000, 0x3F40_0000, 0x3F80_0000];

/// The metadata of an `F32` tensor.
pub open spec fn meta_bytes(name: Seq<char>, shape: Seq<u32>, at: u64, len: u64) -> Seq<u8> {
    le16_bytes(encode_utf8(name).len() as u16) + encode_utf8(name) + seq![0u8, shape.len() as u8]
        + words(shape) + le64_bytes(at) + le64_bytes(len)
}

/// Words as bytes.
pub open spec fn words(s: Seq<u32>) -> Seq<u8>
    decreases s.len(),
{
    if s.len() == 0 {
        Seq::empty()
    } else {
        words(s.drop_last()) + le32_bytes(s.last())
    }
}

/// The header and the metadata of the embedded file: a four by four table and
/// a vector of four.
pub open spec fn test_head() -> Seq<u8> {
    le32_bytes(MAGIC) + le16_bytes(VERSION) + le16_bytes(2) + le64_bytes(73) + meta_bytes(
        "embed_test"@,
        seq![4u32, 4u32],
        TEST_DATA_AT,
        64,
    ) + meta_bytes("weight_test"@, seq![4u32], (TEST_DATA_AT + 64) as u64, 16)
}

/// The embedded file.
pub open spec fn test_file() -> Seq<u8> {
    test_head() + Seq::new((TEST_DATA_AT - test_head().len()) as nat, |i: int| 0u8) + words(
        ONE_TO_SIXTEEN@,
    ) + words(QUARTERS@)
}

fn push_words(out: &mut Vec<u8>, s: &[u32])
    ensures
        final(out)@ == old(out)@ + words(s@),
{
    let ghost before = out@;
    let mut i: usize = 0;
    assert(s@.subrange(0, 0) =~= Seq::<u32>::empty());
    assert(before + words(s@.subrange(0, 0)) =~= before);
    while i < s.len()
        invariant
            i <= s.len(),
            out@ == before + words(s@.subrange(0, i as int)),
        decreases s.len() - i,
    {
        push_le32(out, s[i]);
        i = i + 1;
        proof {
            assert(s@.subrange(0, i as int).drop_last() =~= s@.subrange(0, i - 1));
            assert(out@ =~= before + words(s@.subrange(0, i as int)));
        }
    }
    assert(s@.subrange(0, i as int) =~= s@);
}

fn push_meta(out: &mut Vec<u8>, name: &str, shape: &[u32], at: u64, len: u64)
    requires
        encode_utf8(name@).len() < 0x1_0000,
        shape@.len() < 256,
    ensures
        final(out)@ == old(out)@ + meta_bytes(name@, shape@, at, len),
{
    let ghost before = out@;
    let b = name.as_bytes();
    push_le16(out, b.len() as u16);
    extend_bytes(out, b);
    out.push(0);
    out.push(shape.len() as u8);
    push_words(out, shape);
    push_le64(out, at);
    push_le64(out, len);
    assert(out@ =~= before + meta_bytes(name@, shape@, at, len));
}

/// The embedded file: small enough to be checked by hand, and in the format
/// that `FbinView::parse` reads.
pub fn test_fbin() -> (r: Vec<u8>)
    ensures
        r@ == test_file(),
        r@.len() == 4176,
{
    proof {
        reveal_strlit("embed_test");
        reveal_strlit("weight_test");
        is_ascii_chars_encode_utf8("embed_test"@);
        is_ascii_chars_encode_utf8("weight_test"@);
        assert("embed_test"@.len() == 10 && "weight_test"@.len() == 11);
        assert(is_ascii_chars("embed_test"@) && is_ascii_chars("weight_test"@));
        lemma_words_len(seq![4u32, 4u32]);
        lemma_words_len(seq![4u32]);
        lemma_words_len(ONE_TO_SIXTEEN@);
        lemma_words_len(QUARTERS@);
    }
    let mut out: Vec<u8> = Vec::new();
    push_le32(&mut out, MAGIC);
    push_le16(&mut out, VERSION);
    push_le16(&mut out, 2);
    push_le64(&mut out, 73);
    let square: [u32; 2] = [4, 4];
    let four: [u32; 1] = [4];
    assert(square@ =~= seq![4u32, 4u32]);
    assert(four@ =~= seq![4u32]);
    push_meta(&mut out, "embed_test", square.as_slice(), TEST_DATA_AT, 64);
    push_meta(&mut out, "weight_test", four.as_slice(), TEST_DATA_AT + 64, 16);
    assert(out@ =~= test_head());
    let ghost head = out@;
    assert(head.len() == 89);
    let mut n: u64 = 89;
    while n < TEST_DATA_AT
        invariant
            89 <= n <= TEST_DATA_AT,
            out@ == head + Seq::new((n - 89) as nat, |i: int| 0u8),
        decreases TEST_DATA_AT - n,
    {
        out.push(0);
        n = n + 1;
        assert(out@ =~= head + Seq::new((n - 89) as nat, |i: int| 0u8));
    }
    push_words(&mut out, ONE_TO_SIXTEEN.as_slice());
    push_words(&mut out, QUARTERS.as_slice());
    out
}

proof fn lemma_words_len(s: Seq<u32>)
    ensures
        words(s).len() == 4 * s.len(),
    decreases s.len(),
{
    if s.len() > 0 {
        lemma_words_len(s.drop_last());
    }
}

// ---------------------------------------------------------------------
// Tensors
// ---------------------------------------------------------------------

/// Whether two shapes are the same.
fn same_shape(a: &Vec<u32>, b: &[u32]) -> (r: bool)
    ensures
        r == (a@ == b@),
{
    if a.len() != b.len() {
        return false;
    }
    let mut i: usize = 0;
    while i < a.len()
        invariant
            i <= a.len() == b.len(),
            forall|k: int| 0 <= k < i ==> a@[k] == b@[k],
        decreases a.len() - i,
    {
        if a[i] != b[i] {
            return false;
        }
        i = i + 1;
    }
    assert(a@ =~= b@);
    true
}

/// Whether the tensor with that name has that shape.
pub open spec fn has_shape(view: &FbinView, name: Seq<char>, shape: Seq<u32>) -> bool {
    named(view.tensors@, name, 0) matches Some(i) && view.tensors@[i].shape@ == shape
}

/// Whether a tensor is there with that shape.
pub fn expect_shape(view: &FbinView, name: &str, shape: &[u32]) -> (r: bool)
    ensures
        r == has_shape(view, name@, shape@),
{
    match view.find(name) {
        Some(t) => same_shape(&t.shape, shape),
        None => false,
    }
}

/// The layout of the one-layer test model: hidden size 64, four heads of 16
/// with two key-value heads, 128 inner, 256 tokens, 32 positions.
pub open spec fn model_layout(view: &FbinView) -> bool {
    &&& has_shape(view, "embed"@, seq![256u32, 64u32])
    &&& has_shape(view, "final_norm"@, seq![64u32])
    &&& has_shape(view, "rope_cos"@, seq![32u32, 8u32])
    &&& has_shape(view, "rope_sin"@, seq![32u32, 8u32])
    &&& has_shape(view, "layer.0.attn_norm"@, seq![64u32])
    &&& has_shape(view, "layer.0.ffn_norm"@, seq![64u32])
    &&& has_shape(view, "layer.0.q"@, seq![64u32, 64u32])
    &&& has_shape(view, "layer.0.k"@, seq![32u32, 64u32])
    &&& has_shape(view, "layer.0.v"@, seq![32u32, 64u32])
    &&& has_shape(view, "layer.0.o"@, seq![64u32, 64u32])
    &&& has_shape(view, "layer.0.q_bias"@, seq![64u32])
    &&& has_shape(view, "layer.0.k_bias"@, seq![32u32])
    &&& has_shape(view, "layer.0.v_bias"@, seq![32u32])
    &&& has_shape(view, "layer.0.gate"@, seq![128u32, 64u32])
    &&& has_shape(view, "layer.0.up"@, seq![128u32, 64u32])
    &&& has_shape(view, "layer.0.down"@, seq![64u32, 128u32])
}

fn expect_one(view: &FbinView, name: &str, n: u32) -> (r: bool)
    ensures
        r == has_shape(view, name@, seq![n]),
{
    let shape: [u32; 1] = [n];
    assert(shape@ =~= seq![n]);
    expect_shape(view, name, shape.as_slice())
}

fn expect_two(view: &FbinView, name: &str, a: u32, b: u32) -> (r: bool)
    ensures
        r == has_shape(view, name@, seq![a, b]),
{
    let shape: [u32; 2] = [a, b];
    assert(shape@ =~= seq![a, b]);
    expect_shape(view, name, shape.as_slice())
}

/// Whether a file has the layout of the test model.
pub fn run_d313_self_test(view: &FbinView) -> (r: bool)
    ensures
        r == model_layout(view),
{
    expect_two(view, "embed", 256, 64) && expect_one(view, "final_norm", 64) && expect_two(
        view,
        "rope_cos",
        32,
        8,
    ) && expect_two(view, "rope_sin", 32, 8) && expect_one(view, "layer.0.attn_norm", 64)
        && expect_one(view, "layer.0.ffn_norm", 64) && expect_two(view, "layer.0.q", 64, 64)
        && expect_two(view, "layer.0.k", 32, 64) && expect_two(view, "layer.0.v", 32, 64)
        && expect_two(view, "layer.0.o", 64, 64) && expect_one(view, "layer.0.q_bias", 64)
        && expect_one(view, "layer.0.k_bias", 32) && expect_one(view, "layer.0.v_bias", 32)
        && expect_two(view, "layer.0.gate", 128, 64) && expect_two(view, "layer.0.up", 128, 64)
        && expect_two(view, "layer.0.down", 64, 128)
}

/// What the check of the embedded file yields: both tensors and their hashes.
pub struct FbinProbe {
    pub embed: Vec<u32>,
    pub weight: Vec<u32>,
    pub embed_hash: u64,
    pub weight_hash: u64,
}

/// Whether a file holds exactly the two test tensors in their shapes.
pub open spec fn probe_ok(view: &FbinView) -> bool {
    &&& view.tensors@.len() == 2
    &&& has_shape(view, "embed_test"@, seq![4u32, 4u32])
    &&& view.f32_of("embed_test"@) is Some
    &&& has_shape(view, "weight_test"@, seq![4u32])
    &&& view.f32_of("weight_test"@) is Some
}

/// The raw bytes of a tensor.
pub open spec fn raw_of(view: &FbinView, name: Seq<char>) -> Seq<u8> {
    let t = view.tensors@[named(view.tensors@, name, 0).unwrap()];
    view.file().subrange(t.data_offset as int, t.data_offset + t.data_len)
}

/// Checks the embedded file.
pub fn run_fbin_self_test(view: &FbinView) -> (r: Option<FbinProbe>)
    requires
        view.wf(),
    ensures
        match r {
            Some(p) => {
                &&& probe_ok(view)
                &&& view.f32_of("embed_test"@) == Some(p.embed@)
                &&& view.f32_of("weight_test"@) == Some(p.weight@)
                &&& p.embed_hash == fnv_from(0xCBF2_9CE4_8422_2325, raw_of(view, "embed_test"@))
                &&& p.weight_hash == fnv_from(0xCBF2_9CE4_8422_2325, raw_of(view, "weight_test"@))
            },
            None => !probe_ok(view),
        },
{
    if view.tensors.len() != 2 {
        return None;
    }
    if !expect_two(view, "embed_test", 4, 4) {
        return None;
    }
    let embed = match view.read_named("embed_test") {
        Some(v) => v,
        None => {
            return None;
        },
    };
    if !expect_one(view, "weight_test", 4) {
        return None;
    }
    let weight = match view.read_named("weight_test") {
        Some(v) => v,
        None => {
            return None;
        },
    };
    match (view.find("embed_test"), view.find("weight_test")) {
        (Some(e), Some(w)) => Some(
            FbinProbe {
                embed,
                weight,
                embed_hash: fnv1a_64(view.data_for(e)),
                weight_hash: fnv1a_64(view.data_for(w)),
            },
        ),
        _ => None,
    }
}

/// The second row of the test table and the test vector, where the row holds 5
/// to 8.
pub fn run_d32_self_test(view: &FbinView) -> (r: Option<(Vec<u32>, Vec<u32>)>)
    requires
        view.wf(),
    ensures
        ({
            let e = view.f32_of("embed_test"@);
            let w = view.f32_of("weight_test"@);
            let row = ONE_TO_SIXTEEN@.subrange(4, 8);
            match r {
                Some((a, b)) => e is Some && w == Some(b@) && e.unwrap().len() == 16
                    && e.unwrap().subrange(4, 8) == row && a@ == row,
                None => e is None || w is None || e.unwrap().len() != 16 || e.unwrap().subrange(
                    4,
                    8,
                ) != row,
            }
        }),
{
    let embed = match view.read_named("embed_test") {
        Some(v) => v,
        None => {
            return None;
        },
    };
    let weight = match view.read_named("weight_test") {
        Some(v) => v,
        None => {
            return None;
        },
    };
    let row = match embedding_lookup(embed.as_slice(), 4, 4, 1) {
        Some(v) => v,
        None => {
            return None;
        },
    };
    let want: [u32; 4] = [0x40A0_0000, 0x40C0_0000, 0x40E0_0000, 0x4100_0000];
    assert(want@ =~= ONE_TO_SIXTEEN@.subrange(4, 8));
    if !same_shape(&row, want.as_slice()) {
        return None;
    }
    Some((row, weight))
}

/// The elements of several tensors, in the order of their names.
pub open spec fn all_values(view: &FbinView, names: Seq<Seq<char>>) -> Option<Seq<Seq<u32>>>
    decreases names.len(),
{
    if names.len() == 0 {
        Some(Seq::empty())
    } else {
        match (all_values(view, names.drop_last()), view.f32_of(names.last())) {
            (Some(rest), Some(v)) => Some(rest.push(v)),
            _ => None,
        }
    }
}

/// The contents of vectors.
pub open spec fn contents(s: Seq<Vec<u32>>) -> Seq<Seq<u32>> {
    Seq::new(s.len(), |i: int| s[i]@)
}

proof fn lemma_missing(view: &FbinView, names: Seq<Seq<char>>, k: int)
    requires
        0 <= k <= names.len(),
        all_values(view, names.subrange(0, k)) is None,
    ensures
        all_values(view, names) is None,
    decreases names.len() - k,
{
    if k < names.len() {
        assert(names.subrange(0, k + 1).drop_last() =~= names.subrange(0, k));
        lemma_missing(view, names, k + 1);
    } else {
        assert(names.subrange(0, k) =~= names);
    }
}

/// Reads several tensors; `None` where one is missing or is no `F32` tensor.
pub fn read_all(view: &FbinView, names: &[&str]) -> (r: Option<Vec<Vec<u32>>>)
    requires
        view.wf(),
    ensures
        match r {
            Some(v) => all_values(view, crate::dream::texts(names@)) == Some(contents(v@)),
            None => all_values(view, crate::dream::texts(names@)) is None,
        },
{
    let ghost ns = crate::dream::texts(names@);
    let mut out: Vec<Vec<u32>> = Vec::new();
    let mut i: usize = 0;
    proof {
        assert(ns.subrange(0, 0) =~= Seq::<Seq<char>>::empty());
        assert(contents(out@) =~= Seq::<Seq<u32>>::empty());
    }
    while i < names.len()
        invariant
            i <= names.len(),
            view.wf(),
            ns == crate::dream::texts(names@),
            all_values(view, ns.subrange(0, i as int)) == Some(contents(out@)),
        decreases names.len() - i,
    {
        let ghost before = contents(out@);
        proof {
            assert(ns.subrange(0, i + 1).drop_last() =~= ns.subrange(0, i as int));
            assert(ns.subrange(0, i + 1).last() == names@[i as int]@);
        }
        match view.read_named(names[i]) {
            Some(v) => {
                let ghost vals = v@;
                out.push(v);
                assert(contents(out@) =~= before.push(vals));
            },
            None => {
                proof {
                    lemma_missing(view, ns, i + 1);
                }
                return None;
            },
        }
        i = i + 1;
    }
    assert(ns.subrange(0, i as int) =~= ns);
    Some(out)
}

/// The tensors of the feed-forward test.
pub const FFN_NAMES: [&'static str; 4] = ["ffn_input", "gate_proj", "up_proj", "down_proj"];

/// The tensors of the attention test.
pub const ATTN_NAMES: [&'static str; 7] = [
    "attn_input",
    "wq",
    "wk",
    "wv",
    "wo",
    "rope_cos",
    "rope_sin",
];

/// Tensors in the combined test file.
pub const COMBINED_TENSORS: usize = 12;

/// The tensors of the feed-forward test.
pub fn run_d33_self_test(view: &FbinView) -> (r: Option<Vec<Vec<u32>>>)
    requires
        view.wf(),
    ensures
        match r {
            Some(v) => all_values(view, crate::dream::texts(FFN_NAMES@)) == Some(contents(v@)),
            None => all_values(view, crate::dream::texts(FFN_NAMES@)) is None,
        },
{
    read_all(view, FFN_NAMES.as_slice())
}

/// The tensors of the attention test.
pub fn run_d34_self_test(view: &FbinView) -> (r: Option<Vec<Vec<u32>>>)
    requires
        view.wf(),
    ensures
        match r {
            Some(v) => all_values(view, crate::dream::texts(ATTN_NAMES@)) == Some(contents(v@)),
            None => all_values(view, crate::dream::texts(ATTN_NAMES@)) is None,
        },
{
    read_all(view, ATTN_NAMES.as_slice())
}

/// What the combined test file yields.
pub struct CombinedProbe {
    pub marker: Vec<u32>,
    pub ffn: Vec<Vec<u32>>,
    pub attn: Vec<Vec<u32>>,
}

/// Whether the combined test file is complete.
pub open spec fn combined_ok(view: &FbinView) -> bool {
    &&& view.tensors@.len() == COMBINED_TENSORS
    &&& (view.f32_of("vfs_marker"@) matches Some(m) && m.len() == 4)
    &&& all_values(view, crate::dream::texts(FFN_NAMES@)) is Some
    &&& all_values(view, crate::dream::texts(ATTN_NAMES@)) is Some
}

/// Checks the combined test file: its tensor count, its marker, and the tensors
/// of both tests.
pub fn run_d312_vfs_self_test(view: &FbinView) -> (r: Option<CombinedProbe>)
    requires
        view.wf(),
    ensures
        match r {
            Some(p) => {
                &&& combined_ok(view)
                &&& view.f32_of("vfs_marker"@) == Some(p.marker@)
                &&& all_values(view, crate::dream::texts(FFN_NAMES@)) == Some(contents(p.ffn@))
                &&& all_values(view, crate::dream::texts(ATTN_NAMES@)) == Some(contents(p.attn@))
            },
            None => !combined_ok(view),
        },
{
    if view.tensors.len() != COMBINED_TENSORS {
        return None;
    }
    let marker = match view.read_named("vfs_marker") {
        Some(v) => v,
        None => {
            return None;
        },
    };
    if marker.len() != 4 {
        return None;
    }
    let ffn = match run_d33_self_test(view) {
        Some(v) => v,
        None => {
            return None;
        },
    };
    let attn = match run_d34_self_test(view) {
        Some(v) => v,
        None => {
            return None;
        },
    };
    Some(CombinedProbe { marker, ffn, attn })
}

// ---------------------------------------------------------------------
// Tokens and logits
// ---------------------------------------------------------------------

/// Whether a text is encoded as those tokens, and back where asked for.
pub open spec fn encodes(tok: &Tokenizer, text: Seq<char>, ids: Seq<u32>, back: bool) -> bool {
    &&& tok.model().tokens_from(encode_utf8(text), 0) == ids
    &&& back ==> shown_text(text_bytes(tok.model().text_of_tokens(ids))) == text
}

fn check_encoding(tok: &Tokenizer, text: &str, ids: &[u32], back: bool) -> (r: bool)
    ensures
        r == encodes(tok, text@, ids@, back),
{
    let got = tok.encode(text);
    if !same_shape(&got, ids) {
        return false;
    }
    if back {
        let again = tok.decode_seq(got.as_slice());
        str_eq(again.as_str(), text)
    } else {
        true
    }
}

/// Checks the small test tokenizer.
pub fn run_d31_tokenizer_self_test(tok: &Tokenizer) -> (r: bool)
    ensures
        r == (encodes(tok, "Hi"@, seq![258u32], true) && encodes(
            tok,
            "Hell"@,
            seq![256u32, 257u32],
            true,
        ) && encodes(tok, "X"@, seq![88u32], true)),
{
    let a: [u32; 1] = [258];
    let b: [u32; 2] = [256, 257];
    let c: [u32; 1] = [88];
    assert(a@ =~= seq![258u32]);
    assert(b@ =~= seq![256u32, 257u32]);
    assert(c@ =~= seq![88u32]);
    check_encoding(tok, "Hi", a.as_slice(), true) && check_encoding(
        tok,
        "Hell",
        b.as_slice(),
        true,
    ) && check_encoding(tok, "X", c.as_slice(), true)
}

/// Tokens of two words of English.
pub const HELLO_TOKENS: [u32; 2] = [9707, 1879];

/// Tokens of a Norwegian question.
pub const QUESTION_TOKENS: [u32; 6] = [39, 85, 336, 2714, 3845, 30];

/// Tokens of the question as a chat.
pub const CHAT_TOKENS: [u32; 14] = [
    151644, 872, 198, 39, 85, 336, 2714, 3845, 30, 151645, 198, 151644, 77091, 198,
];

/// Checks the tokenizer of the real model.
pub fn run_d31b_qwen_tokenizer_self_test(tok: &Tokenizer) -> (r: bool)
    ensures
        r == (encodes(tok, "Hello world"@, HELLO_TOKENS@, true) && encodes(
            tok,
            "Hvem er du?"@,
            QUESTION_TOKENS@,
            true,
        ) && encodes(tok, crate::decode::GREETING@, CHAT_TOKENS@, false)),
{
    check_encoding(tok, "Hello world", HELLO_TOKENS.as_slice(), true) && check_encoding(
        tok,
        "Hvem er du?",
        QUESTION_TOKENS.as_slice(),
        true,
    ) && check_encoding(tok, crate::decode::GREETING, CHAT_TOKENS.as_slice(), false)
}

// ---------------------------------------------------------------------
// Forward passes
// ---------------------------------------------------------------------

/// Whether all bit patterns are neither infinite nor no number.
pub open spec fn all_finite(s: Seq<u32>) -> bool {
    forall|i: int| 0 <= i < s.len() ==> is_finite(#[trigger] s[i])
}

/// The one-layer test model.
pub open spec fn test_model() -> ModelConfig {
    ModelConfig {
        n_layers: 1,
        hidden_dim: 64,
        n_heads: 4,
        n_kv_heads: 2,
        head_dim: 16,
        intermediate: 128,
        vocab: 256,
        max_pos: 32,
        eps_bits: 0x3727_C5AC,
    }
}

pub fn test_config() -> (r: ModelConfig)
    ensures
        r == test_model(),
{
    ModelConfig {
        n_layers: 1,
        hidden_dim: 64,
        n_heads: 4,
        n_kv_heads: 2,
        head_dim: 16,
        intermediate: 128,
        vocab: 256,
        max_pos: 32,
        eps_bits: 0x3727_C5AC,
    }
}

/// The tokens that the test model is run on.
pub const TEST_PROMPT: [u32; 3] = [1, 2, 3];

/// The token that the test model gives for them.
pub const TEST_TOKEN: u32 = 3;

fn is_all_finite(s: &[u32]) -> (r: bool)
    ensures
        r == all_finite(s@),
{
    let mut i: usize = 0;
    while i < s.len()
        invariant
            i <= s.len(),
            forall|k: int| 0 <= k < i ==> is_finite(#[trigger] s@[k]),
        decreases s.len() - i,
    {
        if !finite(s[i]) {
            assert(!is_finite(s@[i as int]));
            return false;
        }
        i = i + 1;
    }
    true
}

/// Whether the greedy choice over the logits is the token of the test model.
pub open spec fn gives_test_token(s: Seq<u32>) -> bool {
    s.len() > 0 && greedy(s, s.len() as int) == TEST_TOKEN
}

fn chooses_test_token(s: &[u32]) -> (r: bool)
    requires
        s@.len() <= 0x1_0000_0000,
    ensures
        r == gives_test_token(s@),
{
    match argmax(s) {
        Some(t) => t == TEST_TOKEN,
        None => false,
    }
}

/// Judges the test prompt in one piece: a logit for each token, all of them
/// finite, the right token the highest. `close` tells whether its logit is as
/// high as it should be.
pub fn run_d35_self_test(logits: Option<&[u32]>, close: bool) -> (r: bool)
    requires
        logits matches Some(s) ==> s@.len() <= 0x1_0000_0000,
    ensures
        r == (logits matches Some(s) && s@.len() == test_model().vocab && all_finite(s@)
            && gives_test_token(s@) && close),
{
    match logits {
        Some(s) => s.len() == 256 && is_all_finite(s) && chooses_test_token(s) && close,
        None => false,
    }
}

/// Judges the test prompt on the quantized test model.
pub fn run_d31q_q8_self_test(logits: Option<&[u32]>, close: bool) -> (r: bool)
    requires
        logits matches Some(s) ==> s@.len() <= 0x1_0000_0000,
    ensures
        r == (logits matches Some(s) && all_finite(s@) && gives_test_token(s@) && close),
{
    match logits {
        Some(s) => is_all_finite(s) && chooses_test_token(s) && close,
        None => false,
    }
}

/// What follows in the test of the key-value cache.
#[derive(Debug, Clone, Copy, PartialEq, Eq, Structural)]
pub enum CacheTestStep {
    /// Run this token.
    Feed { token: u32 },
    /// Judge the logits of the last token.
    Judge,
    Fail,
}

/// What follows when `fed` tokens of the test prompt were run one by one.
/// `ran` tells whether the last one was, and `seq_len` how many positions the
/// cache holds.
pub fn run_d4_kv_cache_self_test(fed: usize, ran: bool, seq_len: usize) -> (r: CacheTestStep)
    requires
        fed <= 3,
    ensures
        r == (if fed > 0 && (!ran || seq_len != fed) {
            CacheTestStep::Fail
        } else if fed < 3 {
            CacheTestStep::Feed { token: TEST_PROMPT@[fed as int] }
        } else {
            CacheTestStep::Judge
        }),
{
    if fed > 0 && (!ran || seq_len != fed) {
        return CacheTestStep::Fail;
    }
    if fed < 3 {
        CacheTestStep::Feed { token: TEST_PROMPT[fed] }
    } else {
        CacheTestStep::Judge
    }
}

/// Judges the logits behind the last token of the test of the cache.
pub fn judge_cache_test(logits: &[u32], close: bool) -> (r: bool)
    requires
        logits@.len() <= 0x1_0000_0000,
    ensures
        r == (gives_test_token(logits@) && close),
{
    chooses_test_token(logits) && close
}

} // verus!
