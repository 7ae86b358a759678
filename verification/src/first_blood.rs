//! The first question to the local model: what it takes, and what the shell
//! gets to see.
use vstd::prelude::*;
use vstd::string::*;
use vstd::utf8::*;

use crate::bytes::le64;
use crate::decode::{
    chunk_bytes, pack_chunk, stops, DecodeRun, EXPECTED_FIRST, GREETING, MAX_DECODE,
};
use crate::forward::{geometry_ok, CacheShape, ModelConfig};
use crate::tokenizer::{model_of, shown_text, text_bytes, TokModel, Tokenizer, TokenizerError};
use crate::topk::{argmax, greedy};
use crate::weights::{file_records, records_of, FbinView, LoadError, TensorRecord};

verus! {

broadcast use vstd::seq_lib::group_seq_properties;

/// The model that is asked.
pub open spec fn qwen() -> ModelConfig {
    ModelConfig {
        n_layers: 28,
        hidden_dim: 1024,
        n_heads: 16,
        n_kv_heads: 8,
        head_dim: 128,
        intermediate: 3072,
        vocab: 151936,
        max_pos: 512,
        eps_bits: 0x3586_37BD,
    }
}

pub fn qwen_config() -> (r: ModelConfig)
    ensures
        r == qwen(),
{
    ModelConfig {
        n_layers: 28,
        hidden_dim: 1024,
        n_heads: 16,
        n_kv_heads: 8,
        head_dim: 128,
        intermediate: 3072,
        vocab: 151936,
        max_pos: 512,
        eps_bits: 0x3586_37BD,
    }
}

/// What the question takes: the model, its tokenizer and the tokens of the
/// question.
pub struct FirstBlood<'a> {
    pub view: FbinView<'a>,
    pub tok: Tokenizer,
    pub prompt: Vec<u32>,
}

/// Whether two files hold a model and a tokenizer.
pub open spec fn can_ask(model: Option<&[u8]>, tokens: Option<&[u8]>) -> bool {
    &&& model matches Some(m) && file_records(m@) is Ok
    &&& tokens matches Some(t) && model_of(t@) is Ok
}

/// Sets the question up from the model file and the tokenizer file; `None`
/// where one is missing or malformed.
pub fn run_d37_first_blood<'a>(model: Option<&'a [u8]>, tokens: Option<&[u8]>) -> (r: Option<
    FirstBlood<'a>,
>)
    ensures
        r is Some <==> can_ask(model, tokens),
        r matches Some(f) ==> {
            &&& file_records(model.unwrap()@) == Ok::<Seq<TensorRecord>, LoadError>(
                records_of(f.view.tensors@),
            )
            &&& f.view.file() == model.unwrap()@
            &&& f.view.wf()
            &&& model_of(tokens.unwrap()@) == Ok::<TokModel, TokenizerError>(f.tok.model())
            &&& f.prompt@ == f.tok.model().tokens_from(encode_utf8(GREETING@), 0)
        },
{
    let view = match model {
        Some(m) => match FbinView::parse(m) {
            Ok(v) => v,
            Err(_) => return None,
        },
        None => return None,
    };
    let tok = match tokens {
        Some(t) => match Tokenizer::parse(t) {
            Ok(k) => k,
            Err(_) => return None,
        },
        None => return None,
    };
    let prompt = tok.encode(GREETING);
    Some(FirstBlood { view, tok, prompt })
}

/// The run from the logits behind the prompt: its first token is the highest.
/// The flag tells whether it is the one that the model is known to give.
/// `None` without logits.
pub fn first_token(logits: Option<&[u32]>) -> (r: Option<(DecodeRun, bool)>)
    requires
        logits matches Some(s) ==> s@.len() <= 0x1_0000_0000,
    ensures
        r is Some <==> (logits matches Some(s) && s@.len() > 0),
        r matches Some((run, known)) ==> {
            let t = greedy(logits.unwrap()@, logits.unwrap()@.len() as int) as u32;
            &&& run.wf()
            &&& run.sampled@ == seq![t]
            &&& known == (t == EXPECTED_FIRST)
        },
{
    match logits {
        Some(s) => match argmax(s) {
            Some(t) => Some((DecodeRun::new(t), t == EXPECTED_FIRST)),
            None => None,
        },
        None => None,
    }
}

/// The text of one token.
pub open spec fn fragment_of(m: TokModel, token: u32) -> Seq<char> {
    shown_text(text_bytes(m.text_of_tokens(seq![token])))
}

impl DecodeRun {
    /// Whether the run goes on.
    pub open spec fn goes_on(self) -> bool {
        self.sampled@.len() <= MAX_DECODE && !stops(self.sampled@.last())
    }

    /// Takes over a sampled token and returns the message with its text for
    /// the shell.
    pub fn on_sampled(&mut self, tok: &Tokenizer, op: u8, token: u32) -> (r: u64)
        requires
            old(self).wf(),
            old(self).goes_on(),
        ensures
            final(self).wf(),
            final(self).sampled@ == old(self).sampled@.push(token),
            r == le64(chunk_bytes(op, fragment_of(tok.model(), token)), 0),
    {
        let one: [u32; 1] = [token];
        let fragment = tok.decode_seq(one.as_slice());
        assert(one@ =~= seq![token]);
        self.push(token);
        pack_chunk(op, fragment.as_str())
    }

    /// Everything that the model said.
    pub fn response(&self, tok: &Tokenizer) -> (r: String)
        ensures
            r@ == shown_text(text_bytes(tok.model().text_of_tokens(self.sampled@))),
    {
        tok.decode_seq(self.sampled.as_slice())
    }
}

/// As long as a run goes on, the cache has room for its last token, whatever
/// was sampled; the prompt leaves room for the longest run.
pub proof fn runs_fit_the_cache(prompt: nat, run: DecodeRun)
    requires
        prompt + MAX_DECODE <= qwen().max_pos,
        run.wf(),
        run.goes_on(),
    ensures
        geometry_ok(
            qwen(),
            CacheShape {
                seq_len: (prompt + run.sampled@.len() - 1) as usize,
                ..CacheShape::empty(qwen())
            },
            1,
        ),
{
}

/// A run goes on up to 256 tokens behind the first, unless its last token ends
/// it.
pub proof fn runs_go_on(run: DecodeRun)
    requires
        run.wf(),
    ensures
        run.goes_on() <==> run.sampled@.len() <= 256 && run.sampled@.last() != 151_645
            && run.sampled@.last() != 151_643,
{
}

} // verus!
