//! The weights of a parsed model: which tensor serves which purpose. A tensor
//! is given by where its bytes stand in the model's data; numbers with a
//! fraction are IEEE 754 bit patterns.
use vstd::prelude::*;
use vstd::slice::slice_subrange;
use vstd::string::*;

use crate::bytes::{le32, read_le32};
use crate::text::{dec_chars, push_dec, str_eq};

verus! {

broadcast use vstd::seq_lib::group_seq_properties;

/// Layers that a model's weights are kept of.
pub const MAX_LAYERS: usize = 64;

/// The format of a tensor's numbers, as far as the weights depend on it.
#[derive(Debug, Clone, Copy, PartialEq, Eq, Structural)]
pub enum GgufDtype {
    Q8_0,
    Q6K,
    Q4_1,
    Other,
}

/// The format that a weight is multiplied in.
#[allow(non_camel_case_types)]
#[derive(Debug, Clone, Copy, PartialEq, Eq, Structural)]
pub enum OutputQuant {
    Q4_0,
    Q4_1,
    Q8_0,
    Q6_K,
}

/// Where a tensor's bytes stand.
#[derive(Debug, Clone, Copy, PartialEq, Eq, Structural)]
pub struct TensorSpan {
    pub offset: usize,
    pub len: usize,
}

/// A tensor of the model.
pub struct TensorEntry {
    pub name: String,
    pub dtype: GgufDtype,
    pub data: TensorSpan,
}

/// What the model says of itself.
#[derive(Debug, Clone, Copy)]
pub struct GgufMeta {
    pub n_layers: u32,
    pub n_heads: u32,
    pub n_kv_heads: u32,
    pub embedding_dim: u32,
    pub head_dim: u32,
    pub intermediate_size: u32,
    pub vocab_size: u32,
    pub context_length: u32,
    pub rope_base: u32,
    pub rms_norm_eps: u32,
}

/// A parsed model.
pub struct GgufModel {
    pub metadata: GgufMeta,
    pub tensors: Vec<TensorEntry>,
}

/// The shape of the transformer.
#[derive(Debug, Clone, Copy, PartialEq, Eq, Structural)]
pub struct TransformerConfig {
    pub n_layers: usize,
    pub n_heads: usize,
    pub n_kv_heads: usize,
    pub embed_dim: usize,
    pub head_dim: usize,
    pub intermediate_size: usize,
    pub vocab_size: usize,
    pub max_seq_len: usize,
    pub rope_base: u32,
    pub rms_norm_eps: u32,
}

/// The weights outside the layers.
#[derive(Debug, Clone, Copy, PartialEq, Eq, Structural)]
pub struct WeightsData {
    pub token_embed: TensorSpan,
    pub final_norm: TensorSpan,
    pub output_weight: TensorSpan,
    pub output_quant: OutputQuant,
}

/// The weights of a layer. A norm that the model does without is empty.
#[derive(Debug, Clone, Copy, PartialEq, Eq, Structural)]
pub struct LayerData {
    pub attn_norm: TensorSpan,
    pub wq: TensorSpan,
    pub wk: TensorSpan,
    pub wv: TensorSpan,
    pub q_norm: TensorSpan,
    pub k_norm: TensorSpan,
    pub wo: TensorSpan,
    pub ffn_norm: TensorSpan,
    pub w_gate: TensorSpan,
    pub w_up: TensorSpan,
    pub w_down: TensorSpan,
    pub w_down_quant: OutputQuant,
}

/// The weights of the layers, of a limited number of them.
pub struct LayerDataVec {
    pub layers: Vec<LayerData>,
}

impl LayerDataVec {
    pub open spec fn wf(self) -> bool {
        self.layers@.len() <= MAX_LAYERS
    }

    pub fn new() -> (r: Self)
        ensures
            r.wf(),
            r.layers@ == Seq::<LayerData>::empty(),
    {
        LayerDataVec { layers: Vec::new() }
    }

    /// Adds a layer. Where the limit is reached, nothing is added.
    pub fn push(&mut self, data: LayerData) -> (r: bool)
        requires
            old(self).wf(),
        ensures
            final(self).wf(),
            r == (old(self).layers@.len() < MAX_LAYERS),
            final(self).layers@ == (if r {
                old(self).layers@.push(data)
            } else {
                old(self).layers@
            }),
    {
        if self.layers.len() >= MAX_LAYERS {
            return false;
        }
        self.layers.push(data);
        true
    }

    pub fn get(&self, idx: usize) -> (r: &LayerData)
        requires
            idx < self.layers@.len(),
        ensures
            *r == self.layers@[idx as int],
    {
        &self.layers[idx]
    }
}

// ---------------------------------------------------------------------
// Tensors by name
// ---------------------------------------------------------------------

/// The first tensor from `i` on that has the name.
pub open spec fn tensor_from(tensors: Seq<TensorEntry>, name: Seq<char>, i: int) -> Option<int>
    decreases tensors.len() - i,
{
    if i >= tensors.len() {
        None
    } else if tensors[i].name@ == name {
        Some(i)
    } else {
        tensor_from(tensors, name, i + 1)
    }
}

/// A tensor that is found has the name, and no earlier one has it.
pub proof fn found_tensor_is_first(tensors: Seq<TensorEntry>, name: Seq<char>, i: int)
    requires
        0 <= i,
    ensures
        match tensor_from(tensors, name, i) {
            Some(k) => i <= k < tensors.len() && tensors[k].name@ == name && forall|j: int|
                i <= j < k ==> (#[trigger] tensors[j]).name@ != name,
            None => forall|j: int| i <= j < tensors.len() ==> (#[trigger] tensors[j]).name@ != name,
        },
    decreases tensors.len() - i,
{
    if i < tensors.len() && tensors[i].name@ != name {
        found_tensor_is_first(tensors, name, i + 1);
    }
}

/// The name of a layer's tensor, such as `blk.5.attn_q.weight`.
pub open spec fn layer_tensor(layer: nat, suffix: Seq<char>) -> Seq<char> {
    "blk."@ + dec_chars(layer) + suffix
}

pub fn tensor_name(layer: u32, suffix: &str) -> (r: String)
    ensures
        r@ == layer_tensor(layer as nat, suffix@),
{
    let mut s = String::new();
    s.push_str("blk.");
    push_dec(&mut s, layer as u64);
    s.push_str(suffix);
    assert(s@ =~= layer_tensor(layer as nat, suffix@));
    s
}

pub open spec fn config_of(m: GgufMeta) -> TransformerConfig {
    TransformerConfig {
        n_layers: m.n_layers as usize,
        n_heads: m.n_heads as usize,
        n_kv_heads: m.n_kv_heads as usize,
        embed_dim: m.embedding_dim as usize,
        head_dim: m.head_dim as usize,
        intermediate_size: m.intermediate_size as usize,
        vocab_size: m.vocab_size as usize,
        max_seq_len: m.context_length as usize,
        rope_base: m.rope_base,
        rms_norm_eps: m.rms_norm_eps,
    }
}

/// The format of the output weights.
pub open spec fn output_quant_of(d: GgufDtype) -> OutputQuant {
    match d {
        GgufDtype::Q8_0 => OutputQuant::Q8_0,
        GgufDtype::Q6K => OutputQuant::Q6_K,
        _ => OutputQuant::Q4_0,
    }
}

/// The format of a layer's down projection.
pub open spec fn down_quant_of(d: GgufDtype) -> OutputQuant {
    match d {
        GgufDtype::Q4_1 => OutputQuant::Q4_1,
        GgufDtype::Q8_0 => OutputQuant::Q8_0,
        _ => OutputQuant::Q4_0,
    }
}

pub open spec fn no_span() -> TensorSpan {
    TensorSpan { offset: 0, len: 0 }
}

impl GgufModel {
    /// Where a tensor stands and what format it has.
    pub open spec fn named(self, name: Seq<char>) -> Option<(TensorSpan, GgufDtype)> {
        match tensor_from(self.tensors@, name, 0) {
            Some(k) => Some((self.tensors@[k].data, self.tensors@[k].dtype)),
            None => None,
        }
    }

    /// Whether the model has a tensor.
    pub open spec fn has(self, name: Seq<char>) -> bool {
        tensor_from(self.tensors@, name, 0) is Some
    }

    /// Where a tensor stands; nowhere where the model does without it.
    pub open spec fn span(self, name: Seq<char>) -> TensorSpan {
        match self.named(name) {
            Some((s, d)) => s,
            None => no_span(),
        }
    }

    pub fn tensor(&self, name: &str) -> (r: Option<(TensorSpan, GgufDtype)>)
        ensures
            r == self.named(name@),
    {
        let mut i: usize = 0;
        while i < self.tensors.len()
            invariant
                i <= self.tensors@.len(),
                tensor_from(self.tensors@, name@, 0) == tensor_from(
                    self.tensors@,
                    name@,
                    i as int,
                ),
            decreases self.tensors@.len() - i,
        {
            if str_eq(self.tensors[i].name.as_str(), name) {
                return Some((self.tensors[i].data, self.tensors[i].dtype));
            }
            i = i + 1;
        }
        None
    }

    fn layer_part(&self, layer: u32, suffix: &str) -> (r: Option<(TensorSpan, GgufDtype)>)
        ensures
            r == self.named(layer_tensor(layer as nat, suffix@)),
    {
        let name = tensor_name(layer, suffix);
        self.tensor(name.as_str())
    }

    /// Whether the model has every tensor that a layer needs.
    pub open spec fn has_layer(self, i: nat) -> bool {
        &&& self.has(layer_tensor(i, ".attn_norm.weight"@))
        &&& self.has(layer_tensor(i, ".attn_q.weight"@))
        &&& self.has(layer_tensor(i, ".attn_k.weight"@))
        &&& self.has(layer_tensor(i, ".attn_v.weight"@))
        &&& self.has(layer_tensor(i, ".attn_output.weight"@))
        &&& self.has(layer_tensor(i, ".ffn_norm.weight"@))
        &&& self.has(layer_tensor(i, ".ffn_gate.weight"@))
        &&& self.has(layer_tensor(i, ".ffn_up.weight"@))
        &&& self.has(layer_tensor(i, ".ffn_down.weight"@))
    }

    /// The weights of a layer.
    pub open spec fn layer_data(self, i: nat) -> LayerData {
        LayerData {
            attn_norm: self.span(layer_tensor(i, ".attn_norm.weight"@)),
            wq: self.span(layer_tensor(i, ".attn_q.weight"@)),
            wk: self.span(layer_tensor(i, ".attn_k.weight"@)),
            wv: self.span(layer_tensor(i, ".attn_v.weight"@)),
            q_norm: self.span(layer_tensor(i, ".attn_q_norm.weight"@)),
            k_norm: self.span(layer_tensor(i, ".attn_k_norm.weight"@)),
            wo: self.span(layer_tensor(i, ".attn_output.weight"@)),
            ffn_norm: self.span(layer_tensor(i, ".ffn_norm.weight"@)),
            w_gate: self.span(layer_tensor(i, ".ffn_gate.weight"@)),
            w_up: self.span(layer_tensor(i, ".ffn_up.weight"@)),
            w_down: self.span(layer_tensor(i, ".ffn_down.weight"@)),
            w_down_quant: down_quant_of(
                self.named(layer_tensor(i, ".ffn_down.weight"@))->Some_0.1,
            ),
        }
    }

    fn find_layer(&self, i: u32) -> (r: Option<LayerData>)
        ensures
            r is Some <==> self.has_layer(i as nat),
            r matches Some(l) ==> l == self.layer_data(i as nat),
    {
        let attn_norm = self.layer_part(i, ".attn_norm.weight")?;
        let wq = self.layer_part(i, ".attn_q.weight")?;
        let wk = self.layer_part(i, ".attn_k.weight")?;
        let wv = self.layer_part(i, ".attn_v.weight")?;
        let q_norm = self.layer_part(i, ".attn_q_norm.weight");
        let k_norm = self.layer_part(i, ".attn_k_norm.weight");
        let wo = self.layer_part(i, ".attn_output.weight")?;
        let ffn_norm = self.layer_part(i, ".ffn_norm.weight")?;
        let w_gate = self.layer_part(i, ".ffn_gate.weight")?;
        let w_up = self.layer_part(i, ".ffn_up.weight")?;
        let w_down = self.layer_part(i, ".ffn_down.weight")?;
        let w_down_quant = match w_down.1 {
            GgufDtype::Q4_1 => OutputQuant::Q4_1,
            GgufDtype::Q8_0 => OutputQuant::Q8_0,
            _ => OutputQuant::Q4_0,
        };
        Some(
            LayerData {
                attn_norm: attn_norm.0,
                wq: wq.0,
                wk: wk.0,
                wv: wv.0,
                q_norm: span_or_none(q_norm),
                k_norm: span_or_none(k_norm),
                wo: wo.0,
                ffn_norm: ffn_norm.0,
                w_gate: w_gate.0,
                w_up: w_up.0,
                w_down: w_down.0,
                w_down_quant,
            },
        )
    }

    /// Whether the model has every tensor that it is run with.
    pub open spec fn is_complete(self) -> bool {
        &&& self.has("token_embd.weight"@)
        &&& self.has("output_norm.weight"@)
        &&& forall|i: nat| i < self.metadata.n_layers ==> #[trigger] self.has_layer(i)
    }

    /// The weights outside the layers. A model without output weights uses the
    /// token embeddings for them.
    pub open spec fn outer_weights(self) -> WeightsData {
        let token_embed = self.named("token_embd.weight"@)->Some_0;
        let output = match self.named("output.weight"@) {
            Some(o) => o,
            None => token_embed,
        };
        WeightsData {
            token_embed: token_embed.0,
            final_norm: self.span("output_norm.weight"@),
            output_weight: output.0,
            output_quant: output_quant_of(output.1),
        }
    }
}

fn span_or_none(t: Option<(TensorSpan, GgufDtype)>) -> (r: TensorSpan)
    ensures
        r == (match t {
            Some((s, d)) => s,
            None => no_span(),
        }),
{
    match t {
        Some((s, d)) => s,
        None => TensorSpan { offset: 0, len: 0 },
    }
}

/// The shape and the weights of a model; `None` where a tensor is missing. Of
/// a model with more layers than the limit, the first ones are kept.
pub fn build_model_weights(model: &GgufModel) -> (r: Option<
    (TransformerConfig, WeightsData, LayerDataVec),
>)
    ensures
        r is Some <==> model.is_complete(),
        r matches Some((c, w, l)) ==> {
            &&& c == config_of(model.metadata)
            &&& w == model.outer_weights()
            &&& l.wf()
            &&& l.layers@.len() == if model.metadata.n_layers <= MAX_LAYERS {
                model.metadata.n_layers as int
            } else {
                MAX_LAYERS as int
            }
            &&& forall|i: int|
                0 <= i < l.layers@.len() ==> #[trigger] l.layers@[i] == model.layer_data(i as nat)
        },
{
    let m = model.metadata;
    let config = TransformerConfig {
        n_layers: m.n_layers as usize,
        n_heads: m.n_heads as usize,
        n_kv_heads: m.n_kv_heads as usize,
        embed_dim: m.embedding_dim as usize,
        head_dim: m.head_dim as usize,
        intermediate_size: m.intermediate_size as usize,
        vocab_size: m.vocab_size as usize,
        max_seq_len: m.context_length as usize,
        rope_base: m.rope_base,
        rms_norm_eps: m.rms_norm_eps,
    };
    let token_embed = model.tensor("token_embd.weight")?;
    let final_norm = model.tensor("output_norm.weight")?;
    let output = match model.tensor("output.weight") {
        Some(o) => o,
        None => token_embed,
    };
    let output_quant = match output.1 {
        GgufDtype::Q8_0 => OutputQuant::Q8_0,
        GgufDtype::Q6K => OutputQuant::Q6_K,
        _ => OutputQuant::Q4_0,
    };
    let weights = WeightsData {
        token_embed: token_embed.0,
        final_norm: final_norm.0,
        output_weight: output.0,
        output_quant,
    };
    assert(weights == model.outer_weights());
    let mut layers = LayerDataVec::new();
    let mut i: u32 = 0;
    while i < m.n_layers
        invariant
            i <= m.n_layers,
            m == model.metadata,
            layers.wf(),
            layers.layers@.len() == if i <= MAX_LAYERS {
                i as int
            } else {
                MAX_LAYERS as int
            },
            forall|k: int|
                0 <= k < layers.layers@.len() ==> #[trigger] layers.layers@[k] == model.layer_data(
                    k as nat,
                ),
            forall|k: nat| k < i ==> #[trigger] model.has_layer(k),
        decreases m.n_layers - i,
    {
        match model.find_layer(i) {
            Some(l) => {
                layers.push(l);
            },
            None => {
                assert(!model.has_layer(i as nat));
                return None;
            },
        }
        i = i + 1;
    }
    Some((config, weights, layers))
}

// ---------------------------------------------------------------------
// Weights of a forward pass
// ---------------------------------------------------------------------

/// The numbers in little-endian bytes.
pub open spec fn f32_words(s: Seq<u8>) -> Seq<u32> {
    Seq::new(s.len() / 4, |i: int| le32(s, 4 * i) as u32)
}

/// The numbers in bytes; bytes of an incomplete one at the end are left out.
pub fn bytes_as_f32(data: &[u8]) -> (r: Vec<u32>)
    ensures
        r@ == f32_words(data@),
{
    let mut out: Vec<u32> = Vec::new();
    let n: usize = data.len() / 4;
    assert(data@.len() == data.len());
    let mut i: usize = 0;
    while i < n
        invariant
            i <= n,
            n == data@.len() / 4,
            data@.len() <= usize::MAX,
            out@ == f32_words(data@).subrange(0, i as int),
        decreases n - i,
    {
        out.push(read_le32(data, 4 * i));
        i = i + 1;
        assert(out@ =~= f32_words(data@).subrange(0, i as int));
    }
    assert(out@ =~= f32_words(data@));
    out
}

/// The weights of a layer as the forward pass takes them: the norms as
/// numbers, the matrices where they stand.
pub struct LayerWeights {
    pub attn_norm: Vec<u32>,
    pub q_norm: Vec<u32>,
    pub k_norm: Vec<u32>,
    pub ffn_norm: Vec<u32>,
    pub matrices: LayerData,
}

pub struct ModelWeights {
    pub final_norm: Vec<u32>,
    pub layers: Vec<LayerWeights>,
    pub matrices: WeightsData,
}

impl TensorSpan {
    pub open spec fn inside(self, len: int) -> bool {
        self.offset + self.len <= len
    }

    /// The numbers of a tensor.
    pub open spec fn words(self, data: Seq<u8>) -> Seq<u32> {
        f32_words(data.subrange(self.offset as int, self.offset + self.len))
    }
}

impl LayerData {
    /// The norms stand in the model's data.
    pub open spec fn norms_inside(self, len: int) -> bool {
        &&& self.attn_norm.inside(len)
        &&& self.q_norm.inside(len)
        &&& self.k_norm.inside(len)
        &&& self.ffn_norm.inside(len)
    }
}

impl LayerWeights {
    /// The weights are those of a layer.
    pub open spec fn belong_to(self, l: LayerData, data: Seq<u8>) -> bool {
        &&& self.attn_norm@ == l.attn_norm.words(data)
        &&& self.q_norm@ == l.q_norm.words(data)
        &&& self.k_norm@ == l.k_norm.words(data)
        &&& self.ffn_norm@ == l.ffn_norm.words(data)
        &&& self.matrices == l
    }
}

fn words_of(data: &[u8], span: TensorSpan) -> (r: Vec<u32>)
    requires
        span.inside(data@.len() as int),
    ensures
        r@ == span.words(data@),
{
    assert(data@.len() == data.len());
    bytes_as_f32(slice_subrange(data, span.offset, span.offset + span.len))
}

/// The weights of a forward pass through the first `n_layers` layers.
pub fn build_weights_for_forward(
    data: &[u8],
    weights: &WeightsData,
    layers: &LayerDataVec,
    n_layers: usize,
) -> (r: ModelWeights)
    requires
        n_layers <= layers.layers@.len(),
        weights.final_norm.inside(data@.len() as int),
        forall|i: int|
            0 <= i < n_layers ==> (#[trigger] layers.layers@[i]).norms_inside(data@.len() as int),
    ensures
        r.final_norm@ == weights.final_norm.words(data@),
        r.matrices == *weights,
        r.layers@.len() == n_layers,
        forall|i: int|
            0 <= i < n_layers ==> (#[trigger] r.layers@[i]).belong_to(layers.layers@[i], data@),
{
    let mut out: Vec<LayerWeights> = Vec::new();
    let mut i: usize = 0;
    while i < n_layers
        invariant
            i <= n_layers <= layers.layers@.len(),
            out@.len() == i,
            forall|k: int|
                0 <= k < n_layers ==> (#[trigger] layers.layers@[k]).norms_inside(
                    data@.len() as int,
                ),
            forall|k: int|
                0 <= k < i ==> (#[trigger] out@[k]).belong_to(layers.layers@[k], data@),
        decreases n_layers - i,
    {
        let l: LayerData = *layers.get(i);
        assert(layers.layers@[i as int].norms_inside(data@.len() as int));
        out.push(
            LayerWeights {
                attn_norm: words_of(data, l.attn_norm),
                q_norm: words_of(data, l.q_norm),
                k_norm: words_of(data, l.k_norm),
                ffn_norm: words_of(data, l.ffn_norm),
                matrices: l,
            },
        );
        i = i + 1;
    }
    ModelWeights {
        final_norm: words_of(data, weights.final_norm),
        layers: out,
        matrices: *weights,
    }
}

/// A model that does without a norm of the queries or the keys has no numbers
/// there.
pub proof fn absent_norms_are_empty(model: GgufModel, i: nat, data: Seq<u8>)
    ensures
        !model.has(layer_tensor(i, ".attn_q_norm.weight"@)) ==> model.layer_data(i).q_norm.words(
            data,
        ).len() == 0,
        !model.has(layer_tensor(i, ".attn_k_norm.weight"@)) ==> model.layer_data(i).k_norm.words(
            data,
        ).len() == 0,
{
    assert(data.subrange(0, 0) =~= Seq::<u8>::empty());
}

/// The names of a layer's tensors in a model.
pub proof fn blocks_have_names(layer: nat, suffix: Seq<char>)
    ensures
        layer_tensor(layer, suffix) == "blk."@ + dec_chars(layer) + suffix,
{
}

/// The formats of output weights and of down projections.
pub proof fn formats_are_known(d: GgufDtype)
    ensures
        d is Q8_0 ==> output_quant_of(d) == OutputQuant::Q8_0 && down_quant_of(d)
            == OutputQuant::Q8_0,
        d is Q6K ==> output_quant_of(d) == OutputQuant::Q6_K,
        d is Q4_1 ==> down_quant_of(d) == OutputQuant::Q4_1,
        !(d is Q8_0) && !(d is Q6K) ==> output_quant_of(d) == OutputQuant::Q4_0,
        !(d is Q8_0) && !(d is Q4_1) ==> down_quant_of(d) == OutputQuant::Q4_0,
{
}

/// A model without output weights uses its token embeddings for them.
pub proof fn embeddings_are_tied(m: GgufModel)
    requires
        m.has("token_embd.weight"@),
    ensures
        !m.has("output.weight"@) ==> m.outer_weights().output_weight == m.outer_weights().token_embed,
        m.has("output.weight"@) ==> m.outer_weights().output_weight == m.span("output.weight"@),
        m.outer_weights().token_embed == m.span("token_embd.weight"@),
        m.outer_weights().final_norm == m.span("output_norm.weight"@),
{
}

/// Numbers are read four bytes each, the lowest first, and what is left over at
/// the end is left out.
pub proof fn numbers_are_read(s: Seq<u8>, i: int)
    requires
        0 <= i,
        4 * i + 4 <= s.len(),
    ensures
        f32_words(s).len() == s.len() / 4,
        f32_words(s)[i] == s[4 * i] + 256 * s[4 * i + 1] + 65_536 * s[4 * i + 2] + 16_777_216 * s[4
            * i + 3],
{
}

} // verus!
