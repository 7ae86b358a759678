//! What a forward pass needs before any arithmetic: the names of the tensors,
//! the checks on the shapes, and the tensors themselves as bit patterns.
use vstd::prelude::*;
use vstd::string::*;

use crate::text::{dec_chars, push_dec};
use crate::weights::{named, DType, FbinView, TensorMeta};

verus! {

broadcast use vstd::seq_lib::group_seq_properties;

/// Shape of a model. `eps_bits` is the bit pattern of the normalisation
/// epsilon.
pub struct ModelConfig {
    pub n_layers: usize,
    pub hidden_dim: usize,
    pub n_heads: usize,
    pub n_kv_heads: usize,
    pub head_dim: usize,
    pub intermediate: usize,
    pub vocab: usize,
    pub max_pos: usize,
    pub eps_bits: u32,
}

/// Shape of a key-value cache and how many positions it holds.
pub struct CacheShape {
    pub layers: usize,
    pub n_kv_heads: usize,
    pub head_dim: usize,
    pub max_pos: usize,
    pub seq_len: usize,
}

impl CacheShape {
    /// The empty cache of a model.
    pub open spec fn empty(cfg: ModelConfig) -> CacheShape {
        CacheShape {
            layers: cfg.n_layers,
            n_kv_heads: cfg.n_kv_heads,
            head_dim: cfg.head_dim,
            max_pos: cfg.max_pos,
            seq_len: 0,
        }
    }

    pub fn new(cfg: &ModelConfig) -> (r: Self)
        ensures
            r == Self::empty(*cfg),
    {
        CacheShape {
            layers: cfg.n_layers,
            n_kv_heads: cfg.n_kv_heads,
            head_dim: cfg.head_dim,
            max_pos: cfg.max_pos,
            seq_len: 0,
        }
    }
}

/// The common beginning of the tensor names of a layer.
pub open spec fn prefix_of_layer(li: int) -> Seq<char> {
    "layer."@ + dec_chars(li as nat)
}

/// The name of a tensor of a layer.
pub open spec fn layer_name(li: int, name: Seq<char>) -> Seq<char> {
    prefix_of_layer(li) + "."@ + name
}

pub fn layer_prefix(li: usize) -> (r: String)
    ensures
        r@ == prefix_of_layer(li as int),
{
    let mut s = "layer.".to_owned();
    push_usize(&mut s, li);
    s
}

pub fn join(prefix: &str, name: &str) -> (r: String)
    ensures
        r@ == prefix@ + "."@ + name@,
{
    let mut s = prefix.to_owned();
    s.push_str(".");
    s.push_str(name);
    s
}

pub fn push_usize(s: &mut String, n: usize)
    ensures
        final(s)@ == old(s)@ + dec_chars(n as nat),
{
    push_dec(s, n as u64);
}

/// A weight tensor: decoded elements, or blocks that are decoded on use.
pub enum LoadedWeight<'a> {
    F32(Vec<u32>),
    Q8(&'a [u8]),
}

/// The content of a weight tensor.
pub enum WeightData {
    F32(Seq<u32>),
    Q8(Seq<u8>),
}

impl<'a> LoadedWeight<'a> {
    pub open spec fn data(self) -> WeightData {
        match self {
            LoadedWeight::F32(v) => WeightData::F32(v@),
            LoadedWeight::Q8(b) => WeightData::Q8(b@),
        }
    }
}

/// The weight tensor with that name. Four-bit blocks are not supported.
pub open spec fn weight_of(view: &FbinView, name: Seq<char>) -> Option<WeightData> {
    match named(view.tensors@, name, 0) {
        Some(i) => {
            let t = view.tensors@[i];
            match t.dtype {
                DType::F32 => match view.f32_of(name) {
                    Some(v) => Some(WeightData::F32(v)),
                    None => None,
                },
                DType::Q8 => Some(
                    WeightData::Q8(
                        view.file().subrange(
                            t.data_offset as int,
                            t.data_offset + t.data_len,
                        ),
                    ),
                ),
                DType::Q4 => None,
            }
        },
        None => None,
    }
}

/// Whether a loaded tensor is the wanted one.
pub open spec fn is_weight(r: Option<LoadedWeight>, want: Option<WeightData>) -> bool {
    match r {
        Some(w) => want == Some(w.data()),
        None => want is None,
    }
}

pub fn load_weight<'a>(view: &'a FbinView, name: &str) -> (r: Option<LoadedWeight<'a>>)
    requires
        view.wf(),
    ensures
        is_weight(r, weight_of(view, name@)),
{
    let meta: &TensorMeta = match view.find(name) {
        Some(t) => t,
        None => {
            return None;
        },
    };
    match meta.dtype {
        DType::F32 => match view.read_f32(meta) {
            Some(v) => Some(LoadedWeight::F32(v)),
            None => None,
        },
        DType::Q8 => Some(LoadedWeight::Q8(view.data_for(meta))),
        DType::Q4 => None,
    }
}

/// Whether the cache fits the model and has room for the new positions.
pub open spec fn geometry_ok(cfg: ModelConfig, cache: CacheShape, new_seq: int) -> bool {
    &&& new_seq > 0
    &&& cfg.head_dim > 0
    &&& cfg.head_dim % 2 == 0
    &&& cache.layers == cfg.n_layers
    &&& cache.n_kv_heads == cfg.n_kv_heads
    &&& cache.head_dim == cfg.head_dim
    &&& cache.max_pos <= cfg.max_pos
    &&& cache.seq_len + new_seq <= cache.max_pos
}

/// The part of a rotation table that covers the new positions.
pub open spec fn rope_part(table: Seq<u32>, pairs: int, from: int, new_seq: int) -> Option<
    Seq<u32>,
> {
    if table.len() < (from + new_seq) * pairs {
        None
    } else {
        Some(table.subrange(from * pairs, (from + new_seq) * pairs))
    }
}

/// What a forward pass works with before the first layer.
pub struct ForwardPlan<'a> {
    pub pos_offset: usize,
    pub embed: LoadedWeight<'a>,
    pub final_norm: Vec<u32>,
    pub rope_cos: Vec<u32>,
    pub rope_sin: Vec<u32>,
}

/// The rows of a table for positions `from .. from + count`.
fn slice_rope(table: &Vec<u32>, pairs: usize, from: usize, count: usize) -> (r: Option<Vec<u32>>)
    requires
        from + count <= usize::MAX,
    ensures
        match r {
            Some(v) => rope_part(table@, pairs as int, from as int, count as int) == Some(v@),
            None => rope_part(table@, pairs as int, from as int, count as int) is None,
        },
{
    let sum: u128 = from as u128 + count as u128;
    proof {
        assert(sum * pairs <= u128::MAX) by (nonlinear_arith)
            requires
                sum <= 0xFFFF_FFFF_FFFF_FFFF,
                pairs <= 0xFFFF_FFFF_FFFF_FFFF,
        ;
        assert(from * pairs <= (from + count) * pairs) by (nonlinear_arith)
            requires
                0 <= count,
                0 <= pairs,
        ;
        assert(0 <= from * pairs) by (nonlinear_arith);
    }
    let end_wide: u128 = sum * (pairs as u128);
    if end_wide > table.len() as u128 {
        return None;
    }
    let end: usize = end_wide as usize;
    assert(end == (from + count) * pairs);
    let start: usize = from * pairs;
    let mut out: Vec<u32> = Vec::new();
    let mut i: usize = start;
    while i < end
        invariant
            start <= i <= end <= table.len(),
            out@ == table@.subrange(start as int, i as int),
        decreases end - i,
    {
        out.push(table[i]);
        i = i + 1;
        assert(table@.subrange(start as int, i as int) =~= table@.subrange(
            start as int,
            i - 1,
        ).push(table@[i - 1]));
    }
    Some(out)
}

/// Whether all tensors for the beginning of a forward pass are there.
pub open spec fn plan_exists(
    view: &FbinView,
    cfg: ModelConfig,
    cache: CacheShape,
    new_seq: int,
) -> bool {
    let pairs = cfg.head_dim as int / 2;
    &&& geometry_ok(cfg, cache, new_seq)
    &&& weight_of(view, "embed"@) is Some
    &&& view.f32_of("final_norm"@) is Some
    &&& (view.f32_of("rope_cos"@) matches Some(t) && rope_part(
        t,
        pairs,
        cache.seq_len as int,
        new_seq,
    ) is Some)
    &&& (view.f32_of("rope_sin"@) matches Some(t) && rope_part(
        t,
        pairs,
        cache.seq_len as int,
        new_seq,
    ) is Some)
}

/// Prepares a forward pass over `new_seq` tokens: checks the shapes and loads
/// the shared tensors.
pub fn plan_forward<'a>(
    view: &'a FbinView,
    cfg: &ModelConfig,
    cache: &CacheShape,
    new_seq: usize,
) -> (r: Option<ForwardPlan<'a>>)
    requires
        view.wf(),
    ensures
        match r {
            Some(p) => {
                let pairs = cfg.head_dim as int / 2;
                let from = cache.seq_len as int;
                &&& plan_exists(view, *cfg, *cache, new_seq as int)
                &&& p.pos_offset == cache.seq_len
                &&& weight_of(view, "embed"@) == Some(p.embed.data())
                &&& view.f32_of("final_norm"@) == Some(p.final_norm@)
                &&& rope_part(view.f32_of("rope_cos"@).unwrap(), pairs, from, new_seq as int)
                    == Some(p.rope_cos@)
                &&& rope_part(view.f32_of("rope_sin"@).unwrap(), pairs, from, new_seq as int)
                    == Some(p.rope_sin@)
            },
            None => !plan_exists(view, *cfg, *cache, new_seq as int),
        },
{
    if new_seq == 0 {
        return None;
    }
    if cfg.head_dim == 0 || cfg.head_dim % 2 != 0 {
        return None;
    }
    let pairs: usize = cfg.head_dim / 2;
    if cache.layers != cfg.n_layers {
        return None;
    }
    if cache.n_kv_heads != cfg.n_kv_heads {
        return None;
    }
    if cache.head_dim != cfg.head_dim {
        return None;
    }
    if cache.max_pos > cfg.max_pos {
        return None;
    }
    if cache.seq_len > cache.max_pos || new_seq > cache.max_pos - cache.seq_len {
        return None;
    }
    let embed = match load_weight(view, "embed") {
        Some(w) => w,
        None => {
            return None;
        },
    };
    let final_norm = match view.read_named("final_norm") {
        Some(v) => v,
        None => {
            return None;
        },
    };
    let cos = match view.read_named("rope_cos") {
        Some(v) => v,
        None => {
            return None;
        },
    };
    let sin = match view.read_named("rope_sin") {
        Some(v) => v,
        None => {
            return None;
        },
    };
    let rope_cos = match slice_rope(&cos, pairs, cache.seq_len, new_seq) {
        Some(v) => v,
        None => {
            return None;
        },
    };
    let rope_sin = match slice_rope(&sin, pairs, cache.seq_len, new_seq) {
        Some(v) => v,
        None => {
            return None;
        },
    };
    Some(ForwardPlan { pos_offset: cache.seq_len, embed, final_norm, rope_cos, rope_sin })
}

/// The tensors of one layer. Biases and head norms are optional.
pub struct LayerWeights<'a> {
    pub attn_norm: Vec<u32>,
    pub q: LoadedWeight<'a>,
    pub k: LoadedWeight<'a>,
    pub v: LoadedWeight<'a>,
    pub o: LoadedWeight<'a>,
    pub q_bias: Option<Vec<u32>>,
    pub k_bias: Option<Vec<u32>>,
    pub v_bias: Option<Vec<u32>>,
    pub q_norm: Option<Vec<u32>>,
    pub k_norm: Option<Vec<u32>>,
    pub ffn_norm: Vec<u32>,
    pub gate: LoadedWeight<'a>,
    pub up: LoadedWeight<'a>,
    pub down: LoadedWeight<'a>,
}

/// Whether the tensors that a layer cannot do without are there.
pub open spec fn layer_exists(view: &FbinView, li: int) -> bool {
    &&& view.f32_of(layer_name(li, "attn_norm"@)) is Some
    &&& weight_of(view, layer_name(li, "q"@)) is Some
    &&& weight_of(view, layer_name(li, "k"@)) is Some
    &&& weight_of(view, layer_name(li, "v"@)) is Some
    &&& weight_of(view, layer_name(li, "o"@)) is Some
    &&& view.f32_of(layer_name(li, "ffn_norm"@)) is Some
    &&& weight_of(view, layer_name(li, "gate"@)) is Some
    &&& weight_of(view, layer_name(li, "up"@)) is Some
    &&& weight_of(view, layer_name(li, "down"@)) is Some
}

/// Whether optional values are the wanted ones.
pub open spec fn is_values(r: Option<Vec<u32>>, want: Option<Seq<u32>>) -> bool {
    match r {
        Some(v) => want == Some(v@),
        None => want is None,
    }
}

fn layer_weight<'a>(view: &'a FbinView, li: usize, name: &str) -> (r: Option<LoadedWeight<'a>>)
    requires
        view.wf(),
    ensures
        is_weight(r, weight_of(view, layer_name(li as int, name@))),
{
    let prefix = layer_prefix(li);
    let full = join(prefix.as_str(), name);
    load_weight(view, full.as_str())
}

fn layer_values(view: &FbinView, li: usize, name: &str) -> (r: Option<Vec<u32>>)
    requires
        view.wf(),
    ensures
        is_values(r, view.f32_of(layer_name(li as int, name@))),
{
    let prefix = layer_prefix(li);
    let full = join(prefix.as_str(), name);
    view.read_named(full.as_str())
}

/// Loads the tensors of a layer.
pub fn load_layer<'a>(view: &'a FbinView, li: usize) -> (r: Option<LayerWeights<'a>>)
    requires
        view.wf(),
    ensures
        match r {
            Some(w) => {
                let i = li as int;
                &&& layer_exists(view, i)
                &&& view.f32_of(layer_name(i, "attn_norm"@)) == Some(w.attn_norm@)
                &&& weight_of(view, layer_name(i, "q"@)) == Some(w.q.data())
                &&& weight_of(view, layer_name(i, "k"@)) == Some(w.k.data())
                &&& weight_of(view, layer_name(i, "v"@)) == Some(w.v.data())
                &&& weight_of(view, layer_name(i, "o"@)) == Some(w.o.data())
                &&& is_values(w.q_bias, view.f32_of(layer_name(i, "q_bias"@)))
                &&& is_values(w.k_bias, view.f32_of(layer_name(i, "k_bias"@)))
                &&& is_values(w.v_bias, view.f32_of(layer_name(i, "v_bias"@)))
                &&& is_values(w.q_norm, view.f32_of(layer_name(i, "q_norm"@)))
                &&& is_values(w.k_norm, view.f32_of(layer_name(i, "k_norm"@)))
                &&& view.f32_of(layer_name(i, "ffn_norm"@)) == Some(w.ffn_norm@)
                &&& weight_of(view, layer_name(i, "gate"@)) == Some(w.gate.data())
                &&& weight_of(view, layer_name(i, "up"@)) == Some(w.up.data())
                &&& weight_of(view, layer_name(i, "down"@)) == Some(w.down.data())
            },
            None => !layer_exists(view, li as int),
        },
{
    let attn_norm = match layer_values(view, li, "attn_norm") {
        Some(v) => v,
        None => {
            return None;
        },
    };
    let q = match layer_weight(view, li, "q") {
        Some(v) => v,
        None => {
            return None;
        },
    };
    let k = match layer_weight(view, li, "k") {
        Some(v) => v,
        None => {
            return None;
        },
    };
    let v = match layer_weight(view, li, "v") {
        Some(v) => v,
        None => {
            return None;
        },
    };
    let o = match layer_weight(view, li, "o") {
        Some(v) => v,
        None => {
            return None;
        },
    };
    let q_bias = layer_values(view, li, "q_bias");
    let k_bias = layer_values(view, li, "k_bias");
    let v_bias = layer_values(view, li, "v_bias");
    let q_norm = layer_values(view, li, "q_norm");
    let k_norm = layer_values(view, li, "k_norm");
    let ffn_norm = match layer_values(view, li, "ffn_norm") {
        Some(v) => v,
        None => {
            return None;
        },
    };
    let gate = match layer_weight(view, li, "gate") {
        Some(v) => v,
        None => {
            return None;
        },
    };
    let up = match layer_weight(view, li, "up") {
        Some(v) => v,
        None => {
            return None;
        },
    };
    let down = match layer_weight(view, li, "down") {
        Some(v) => v,
        None => {
            return None;
        },
    };
    Some(
        LayerWeights {
            attn_norm,
            q,
            k,
            v,
            o,
            q_bias,
            k_bias,
            v_bias,
            q_norm,
            k_norm,
            ffn_norm,
            gate,
            up,
            down,
        },
    )
}

impl CacheShape {
    /// Counts the new positions once every layer has succeeded.
    pub fn commit(&mut self, new_seq: usize)
        requires
            old(self).seq_len + new_seq <= old(self).max_pos,
        ensures
            *final(self) == (CacheShape {
                seq_len: (old(self).seq_len + new_seq) as usize,
                ..*old(self)
            }),
    {
        self.seq_len = self.seq_len + new_seq;
    }
}

/// Feeding tokens in two parts reads the same rows of a rotation table as
/// feeding them at once.
pub proof fn rope_parts_join(table: Seq<u32>, pairs: int, from: int, a: int, b: int)
    requires
        0 <= pairs,
        0 <= from,
        0 <= a,
        0 <= b,
        rope_part(table, pairs, from, a + b) is Some,
    ensures
        rope_part(table, pairs, from, a) is Some,
        rope_part(table, pairs, from + a, b) is Some,
        rope_part(table, pairs, from, a + b).unwrap() == rope_part(table, pairs, from, a).unwrap()
            + rope_part(table, pairs, from + a, b).unwrap(),
{
    assert(0 <= from * pairs <= (from + a) * pairs && (from + a) * pairs <= (from + a + b) * pairs)
        by (nonlinear_arith)
        requires
            0 <= pairs,
            0 <= from,
            0 <= a,
            0 <= b,
    ;
    assert(from + (a + b) == from + a + b);
    assert(rope_part(table, pairs, from, a + b).unwrap() =~= rope_part(
        table,
        pairs,
        from,
        a,
    ).unwrap() + rope_part(table, pairs, from + a, b).unwrap());
}

/// Shape checks hold of two calls one after the other exactly when they hold of
/// one call with all the tokens.
pub proof fn geometry_splits(cfg: ModelConfig, cache: CacheShape, a: int, b: int)
    requires
        a > 0,
        b > 0,
    ensures
        geometry_ok(cfg, cache, a + b) <==> (geometry_ok(cfg, cache, a) && cache.seq_len + a
            <= usize::MAX && geometry_ok(
            cfg,
            CacheShape { seq_len: (cache.seq_len + a) as usize, ..cache },
            b,
        )),
{
}

/// The names of a layer's tensors.
pub proof fn layers_have_names(li: nat, name: Seq<char>)
    ensures
        layer_name(li as int, name) == "layer."@ + dec_chars(li) + "."@ + name,
        prefix_of_layer(li as int) == "layer."@ + dec_chars(li),
{
}

/// A call is refused without tokens, with an odd or empty head, with a cache of
/// another shape, or with more tokens than the cache has room for; and for no
/// other reason of shape.
pub proof fn calls_fit_the_cache(cfg: ModelConfig, cache: CacheShape, n: int)
    ensures
        n <= 0 || cfg.head_dim == 0 || cfg.head_dim % 2 == 1 || cache.layers != cfg.n_layers
            || cache.n_kv_heads != cfg.n_kv_heads || cache.head_dim != cfg.head_dim || cache.max_pos
            > cfg.max_pos || cache.seq_len + n > cache.max_pos ==> !geometry_ok(cfg, cache, n),
        0 < n <= cfg.max_pos && cfg.head_dim > 0 && cfg.head_dim % 2 == 0 ==> geometry_ok(
            cfg,
            CacheShape::empty(cfg),
            n,
        ),
        geometry_ok(cfg, cache, n) ==> cache.seq_len + n <= cfg.max_pos,
{
}

/// The rows of a rotation table for the new positions: as many as there are new
/// tokens, each with its pairs, from the row of the first position on.
pub proof fn rotation_rows(table: Seq<u32>, pairs: int, from: int, n: int, i: int, j: int)
    requires
        0 <= from,
        0 <= i < n,
        0 <= j < pairs,
        (from + n) * pairs <= table.len(),
    ensures
        rope_part(table, pairs, from, n) matches Some(t) && t.len() == n * pairs && t[i * pairs + j]
            == table[(from + i) * pairs + j],
{
    assert((from + n) * pairs == from * pairs + n * pairs) by (nonlinear_arith);
    assert((from + i) * pairs == from * pairs + i * pairs) by (nonlinear_arith);
    assert(0 <= from * pairs) by (nonlinear_arith)
        requires
            0 <= from,
            0 <= pairs,
    ;
    assert(0 <= i * pairs && i * pairs + pairs <= n * pairs) by (nonlinear_arith)
        requires
            0 <= i < n,
            0 <= pairs,
    ;
}

/// A weight: an `F32` tensor as its numbers, an eight-bit one as its bytes, and
/// a four-bit one not at all.
pub proof fn weights_by_type(view: &FbinView, name: Seq<char>, i: int)
    requires
        0 <= i < view.tensors@.len(),
        view.tensors@[i]@.name == name,
        forall|j: int| 0 <= j < i ==> (#[trigger] view.tensors@[j])@.name != name,
    ensures
        ({
            let t = view.tensors@[i];
            &&& t.dtype == DType::F32 ==> weight_of(view, name) == (match view.f32_of(name) {
                Some(v) => Some(WeightData::F32(v)),
                None => None,
            })
            &&& t.dtype == DType::Q8 ==> weight_of(view, name) == Some(
                WeightData::Q8(
                    view.file().subrange(t.data_offset as int, t.data_offset + t.data_len),
                ),
            )
            &&& t.dtype == DType::Q4 ==> weight_of(view, name) is None
        }),
{
    crate::weights::named_is_first(view.tensors@, name, 0);
    let k = named(view.tensors@, name, 0)->0;
    assert(named(view.tensors@, name, 0) is Some);
    assert(k == i) by {
        if k > i {
            assert(view.tensors@[i]@.name != name);
        }
    }
}

} // verus!
