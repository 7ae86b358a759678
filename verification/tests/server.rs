use folkering::chat::{find_token_id, wrap_chat_template, SYSTEM_MESSAGE};
use folkering::config::{
    read_control_sector, SamplingConfig, DEFAULT_REP_PENALTY, DEFAULT_TEMPERATURE, DEFAULT_TOP_P,
};
use folkering::debug_dump::{
    attention_floats, debug_dump_hidden, debug_dump_logits, debug_dump_tensor, tensor_stats,
    write_health_sector, DumpLog, HealthMonitor,
};
use folkering::gguf_loader::{
    gguf_error_str, load_model_from_disk, GgufError, LoadError, LoadStep,
};
use folkering::handlers::{
    decode_request, handle_inference_request, instant_reply, send_text_response, take_query,
    wants_query, wrap_query, AnswerRun, AnswerStep, ForwardResult, InferenceEngine, RequestStart,
    ServerRequest, StopTokens, TextReply, ARENA_SIZE,
};
use folkering::model_weights::{
    build_model_weights, build_weights_for_forward, bytes_as_f32, tensor_name, GgufDtype, GgufMeta,
    GgufModel, LayerData, LayerDataVec, OutputQuant, TensorEntry, TensorSpan, TransformerConfig,
    WeightsData,
};
use folkering::nucleus::{nucleus, penalised, sanitize_logit};
use folkering::stream::{valid_utf8_prefix_len, TextSieve, TokenRing, RING_DATA_MAX};
use folkering::stream_handler::{
    handle_async_inference, poll_tool, stream_prompt, StreamRun, StreamStep, ToolPoll,
};

fn bits(v: &[f32]) -> Vec<u32> {
    v.iter().map(|x| x.to_bits()).collect()
}

fn ring() -> TokenRing {
    TokenRing {
        write_idx: 0,
        status: 0,
        tool_state: 0,
        tool_result_len: 0,
        data: vec![0; RING_DATA_MAX],
    }
}

fn text(r: &TokenRing) -> &[u8] {
    &r.data[..r.write_idx as usize]
}

const STOPS: StopTokens = StopTokens { eos_id: 2, im_end_id: 7, im_start_id: u32::MAX };

fn span(offset: usize, len: usize) -> TensorSpan {
    TensorSpan { offset, len }
}

fn layer_data() -> LayerData {
    LayerData {
        attn_norm: span(0, 8),
        wq: span(8, 1),
        wk: span(9, 1),
        wv: span(10, 1),
        q_norm: span(0, 0),
        k_norm: span(0, 0),
        wo: span(11, 1),
        ffn_norm: span(4, 4),
        w_gate: span(12, 1),
        w_up: span(13, 1),
        w_down: span(14, 1),
        w_down_quant: OutputQuant::Q4_0,
    }
}

fn engine(is_generating: bool) -> InferenceEngine {
    InferenceEngine {
        config: TransformerConfig {
            n_layers: 1,
            n_heads: 1,
            n_kv_heads: 1,
            embed_dim: 1,
            head_dim: 1,
            intermediate_size: 1,
            vocab_size: 1,
            max_seq_len: 1,
            rope_base: 0,
            rms_norm_eps: 0,
        },
        weights_data: WeightsData {
            token_embed: span(0, 1),
            final_norm: span(0, 4),
            output_weight: span(0, 1),
            output_quant: OutputQuant::Q4_0,
        },
        layer_data: LayerDataVec::new(),
        stops: STOPS,
        is_generating,
    }
}

#[test]
fn chat_template_surrounds_the_query() {
    let mut out = vec![9u8; 2048];
    let n = wrap_chat_template(b"hi", &mut out);
    let s = core::str::from_utf8(&out[..n]).unwrap();
    assert!(s.starts_with(SYSTEM_MESSAGE));
    assert!(s.ends_with("<|im_start|>user\nhi\n<|im_end|>\n<|im_start|>assistant\n"));
    assert_eq!(n, SYSTEM_MESSAGE.len() + 17 + 2 + 34);
    assert_eq!(out[n], 9);
}

#[test]
fn chat_template_needs_room() {
    let mut out = vec![9u8; 100];
    assert_eq!(wrap_chat_template(b"hi", &mut out), 0);
    assert!(out.iter().all(|b| *b == 9));
}

#[test]
fn token_is_found_by_its_bytes() {
    let vocab = vec![b"a".to_vec(), b"<|im_end|>".to_vec(), b"a".to_vec()];
    assert_eq!(find_token_id(&vocab, b"<|im_end|>"), 1);
    assert_eq!(find_token_id(&vocab, b"a"), 0);
    assert_eq!(find_token_id(&vocab, b"b"), u32::MAX);
}

#[test]
fn sampling_defaults_are_the_documented_numbers() {
    let d = SamplingConfig::defaults();
    assert_eq!(f32::from_bits(d.temperature), 0.8);
    assert_eq!(f32::from_bits(d.top_p), 0.9);
    assert_eq!(f32::from_bits(d.rep_penalty), 1.15);
    assert_eq!(f32::from_bits(d.drift_threshold), 0.001);
    assert_eq!(d.top_k, 0);
    assert_eq!(d.rep_window, 32);
    assert_eq!(d.dump_layer, 0);
    assert_eq!(d.telemetry_mode, 0);
}

#[test]
fn control_sector_overrides_what_it_sets() {
    let mut s = vec![0u8; 512];
    s[0..4].copy_from_slice(b"FCTL");
    s[8..12].copy_from_slice(&29u32.to_le_bytes());
    s[16..20].copy_from_slice(&0.5f32.to_le_bytes());
    s[24..28].copy_from_slice(&40u32.to_le_bytes());
    s[32..36].copy_from_slice(&64u32.to_le_bytes());
    s[44..48].copy_from_slice(&2u32.to_le_bytes());
    let c = read_control_sector(Some(&s));
    assert_eq!(c.dump_layer, 29);
    assert_eq!(f32::from_bits(c.temperature), 0.5);
    assert_eq!(c.top_p, DEFAULT_TOP_P);
    assert_eq!(c.top_k, 40);
    assert_eq!(c.rep_penalty, DEFAULT_REP_PENALTY);
    assert_eq!(c.rep_window, 64);
    assert_eq!(c.telemetry_mode, 2);
}

#[test]
fn control_sector_refuses_what_makes_no_sense() {
    let mut s = vec![0u8; 512];
    s[0..4].copy_from_slice(b"FCTL");
    s[8..12].copy_from_slice(&30u32.to_le_bytes());
    s[16..20].copy_from_slice(&(-1.0f32).to_le_bytes());
    s[20..24].copy_from_slice(&f32::NAN.to_le_bytes());
    let c = read_control_sector(Some(&s));
    assert_eq!(c.dump_layer, 0);
    assert_eq!(c.temperature, DEFAULT_TEMPERATURE);
    assert_eq!(c.top_p, DEFAULT_TOP_P);
    assert_eq!(c.rep_window, 32);
    s[0] = b'X';
    s[24] = 9;
    assert_eq!(read_control_sector(Some(&s)).top_k, 0);
    assert_eq!(read_control_sector(None).top_k, 0);
}

#[test]
fn nucleus_limit_and_penalty_window() {
    let mut c = SamplingConfig::defaults();
    assert_eq!(c.nucleus_limit(), 128);
    c.top_k = 40;
    assert_eq!(c.nucleus_limit(), 40);
    c.top_k = 1000;
    assert_eq!(c.nucleus_limit(), 128);
    assert_eq!(c.penalty_window(10), 10);
    assert_eq!(c.penalty_window(100), 32);
}

#[test]
fn logits_are_put_in_range() {
    let f = |x: f32| f32::from_bits(sanitize_logit(x.to_bits()));
    assert_eq!(f(f32::NAN), -100.0);
    assert_eq!(f(f32::INFINITY), -100.0);
    assert_eq!(f(f32::NEG_INFINITY), -100.0);
    assert_eq!(f(250.0), 100.0);
    assert_eq!(f(-250.0), -100.0);
    assert_eq!(f(3.25), 3.25);
    assert_eq!(f(-99.5), -99.5);
}

#[test]
fn penalised_tokens_are_the_last_known_ones() {
    let mut c = SamplingConfig::defaults();
    c.rep_window = 3;
    assert_eq!(penalised(&[1, 2, 9, 2], &c, 5), vec![2, 2]);
    c.rep_penalty = 1.0f32.to_bits();
    assert_eq!(penalised(&[1, 2, 9, 2], &c, 5), Vec::<u32>::new());
}

#[test]
fn nucleus_takes_the_most_probable_first() {
    let p = bits(&[0.1, 0.4, 0.0, 0.4, 0.1]);
    assert_eq!(nucleus(&p, 3), vec![1, 3, 0]);
    assert_eq!(nucleus(&p, 128), vec![1, 3, 0, 4]);
    assert_eq!(nucleus(&bits(&[0.0, -1.0]), 4), Vec::<u32>::new());
}

#[test]
fn tensor_statistics() {
    let st = tensor_stats(&bits(&[2.0, -3.5, 8.0, 8.0]));
    assert_eq!(f32::from_bits(st.min_val), -3.5);
    assert_eq!(f32::from_bits(st.max_val), 8.0);
    assert_eq!(st.argmax_idx, 2);
}

#[test]
fn tensor_dump_layout() {
    let mut log = DumpLog { seq: 4 };
    let data: Vec<u32> = (0..130).map(|i| (i as f32).to_bits()).collect();
    let w = debug_dump_tensor(&mut log, "attn", &data, 13, 10, 7.0f32.to_bits());
    assert_eq!(log.seq, 5);
    assert_eq!(w.len(), 3);
    assert_eq!(w[0].sector, 1);
    assert_eq!(w[1].sector, 2);
    assert_eq!(w[2].sector, 3);
    let h = &w[0].data;
    assert_eq!(h.len(), 512);
    assert_eq!(&h[0..4], b"TDMP");
    assert_eq!(&h[4..8], &5u32.to_le_bytes());
    assert_eq!(&h[8..12], &130u32.to_le_bytes());
    assert_eq!(&h[12..16], &130u32.to_le_bytes());
    assert_eq!(&h[16..20], &13u32.to_le_bytes());
    assert_eq!(&h[20..24], &10u32.to_le_bytes());
    assert_eq!(&h[24..28], &129u32.to_le_bytes());
    assert_eq!(&h[28..32], &[0; 4]);
    assert_eq!(&h[32..36], &0.0f32.to_le_bytes());
    assert_eq!(&h[36..40], &129.0f32.to_le_bytes());
    assert_eq!(&h[40..44], &7.0f32.to_le_bytes());
    assert_eq!(&h[44..48], &129.0f32.to_le_bytes());
    assert_eq!(&h[48..53], b"attn\0");
    assert_eq!(&h[112..116], &0.0f32.to_le_bytes());
    assert_eq!(&h[508..512], &99.0f32.to_le_bytes());
    assert_eq!(&w[1].data[508..512], &127.0f32.to_le_bytes());
    assert_eq!(&w[2].data[0..4], &128.0f32.to_le_bytes());
    assert_eq!(&w[2].data[4..8], &129.0f32.to_le_bytes());
    assert!(w[2].data[8..].iter().all(|b| *b == 0));
}

#[test]
fn tensor_dump_is_cut_at_the_mailbox() {
    let mut log = DumpLog { seq: 0 };
    let data = vec![0u32; 40_000];
    let w = debug_dump_logits(&mut log, &data, "logits", 0);
    assert_eq!(w.len(), 257);
    assert_eq!(w[256].sector, 257);
    assert_eq!(&w[0].data[12..16], &32768u32.to_le_bytes());
    assert_eq!(debug_dump_hidden(&mut log, &[], "empty", 0).len(), 0);
    assert_eq!(log.seq, 1);
}

#[test]
fn long_names_are_cut() {
    let mut log = DumpLog { seq: 0 };
    let name = "n".repeat(80);
    let w = debug_dump_hidden(&mut log, &[1], &name, 0);
    assert_eq!(w[0].data[110], b'n');
    assert_eq!(w[0].data[111], 0);
}

#[test]
fn attention_fits_into_a_dump() {
    assert_eq!(attention_floats(9, 60), Some(32400));
    assert_eq!(attention_floats(9, 61), None);
    assert_eq!(attention_floats(u32::MAX, 512), None);
}

#[test]
fn health_sector_layout() {
    let w = write_health_sector(3, 77, 1, 2, 4, 5, 6);
    assert_eq!(w.sector, 259);
    assert_eq!(w.data.len(), 512);
    assert_eq!(&w.data[0..4], b"HLTH");
    assert_eq!(&w.data[4..8], &3u32.to_le_bytes());
    assert_eq!(&w.data[8..12], &77u32.to_le_bytes());
    assert_eq!(&w.data[28..32], &6u32.to_le_bytes());
    assert_eq!(w.data[32], 0);
}

#[test]
fn health_keeps_the_lowest_distance() {
    let mut c = SamplingConfig::defaults();
    c.telemetry_mode = 1;
    let mut h = HealthMonitor::new();
    assert!(h.summary(&c).is_none());
    assert!(h.observe(&c, 1, 5, 0.5f32.to_bits()).is_none());
    let w = h.observe(&c, 2, 6, 0.0005f32.to_bits()).unwrap();
    assert_eq!(&w.data[12..16], &0.0005f32.to_le_bytes());
    assert!(h.observe(&c, 3, 7, 0.25f32.to_bits()).is_none());
    assert_eq!(h.min_mse_step, 2);
    let s = h.summary(&c).unwrap();
    assert_eq!(&s.data[4..8], &3u32.to_le_bytes());
    assert_eq!(&s.data[12..16], &0.0005f32.to_le_bytes());
    c.telemetry_mode = 2;
    assert!(h.observe(&c, 4, 7, 0.25f32.to_bits()).is_some());
    c.telemetry_mode = 0;
    assert!(h.summary(&c).is_none());
}

#[test]
fn gguf_errors_have_names() {
    assert_eq!(gguf_error_str(GgufError::InvalidMagic), "invalid magic");
    assert_eq!(gguf_error_str(GgufError::UnsupportedVersion(9)), "unsupported version");
    assert_eq!(gguf_error_str(GgufError::TruncatedData), "truncated data");
    assert_eq!(gguf_error_str(GgufError::InvalidMetadata), "invalid metadata");
    assert_eq!(gguf_error_str(GgufError::InvalidTensor), "invalid tensor");
}

fn disk_header(sector: u64, size: u64) -> Vec<u8> {
    let mut h = vec![0u8; 512];
    h[0..8].copy_from_slice(b"FOLKDISK");
    h[64..72].copy_from_slice(&sector.to_le_bytes());
    h[72..80].copy_from_slice(&size.to_le_bytes());
    h
}

#[test]
fn known_model_is_mapped_and_read_whole() {
    let (mut load, step) = load_model_from_disk(2048);
    assert_eq!(step, LoadStep::ReadSector(0));
    let size = 0x100_0000 + 70_000;
    let step = load.on_sector(Some(&disk_header(5000, size)));
    assert_eq!(step, LoadStep::MapRegion { addr: 0x1_0000_0000, size: 0x100_0000 });
    let step = load.on_mapped(true);
    assert_eq!(step, LoadStep::MapRegion { addr: 0x1_0100_0000, size: 73_728 });
    let mut step = load.on_mapped(true);
    assert_eq!(step, LoadStep::ReadBurst { sector: 5000, offset: 0, count: 128 });
    let mut bursts = 0;
    while let LoadStep::ReadBurst { sector, offset, count } = step {
        assert_eq!(sector, 5000 + bursts * 128);
        assert_eq!(offset, bursts * 65536);
        bursts += 1;
        step = load.on_burst(Some(&vec![0u8; count as usize * 512]));
    }
    assert_eq!(bursts, 258);
    assert_eq!(step, LoadStep::Loaded { size });
}

#[test]
fn unknown_model_is_searched_and_read_up_to_zeros() {
    let (mut load, _) = load_model_from_disk(2048);
    assert_eq!(load.on_sector(Some(&vec![0u8; 512])), LoadStep::ReadSector(2048));
    assert_eq!(load.on_sector(None), LoadStep::ReadSector(2049));
    let mut s = vec![0u8; 512];
    s[0..4].copy_from_slice(b"GGUF");
    let mut step = load.on_sector(Some(&s));
    let mut chunks = 0;
    while let LoadStep::MapRegion { size, .. } = step {
        assert_eq!(size, 0x100_0000);
        chunks += 1;
        step = load.on_mapped(true);
    }
    assert_eq!(chunks, 256);
    assert_eq!(step, LoadStep::ReadBurst { sector: 2049, offset: 0, count: 128 });
    assert_eq!(
        load.on_burst(Some(&vec![1u8; 65536])),
        LoadStep::ReadBurst { sector: 2177, offset: 65536, count: 128 }
    );
    assert_eq!(load.on_burst(Some(&vec![0u8; 65536])), LoadStep::Loaded { size: 131072 - 512 });
}

#[test]
fn loads_fail_with_their_reason() {
    let (mut a, _) = load_model_from_disk(2048);
    assert_eq!(a.on_sector(None), LoadStep::Failed(LoadError::NoHeader));
    assert_eq!(LoadError::NoHeader.as_str(), "cannot read sector 0");

    let (mut b, _) = load_model_from_disk(2048);
    let mut step = b.on_sector(Some(&vec![0u8; 512]));
    let mut n = 0;
    while let LoadStep::ReadSector(_) = step {
        n += 1;
        step = b.on_sector(None);
    }
    assert_eq!(n, 64);
    assert_eq!(step, LoadStep::Failed(LoadError::NoModel));
    assert_eq!(LoadError::NoModel.as_str(), "no GGUF magic found");

    let (mut c, _) = load_model_from_disk(2048);
    c.on_sector(Some(&disk_header(9, 4096)));
    assert_eq!(c.on_mapped(false), LoadStep::Failed(LoadError::NoMemory));
    assert_eq!(LoadError::NoMemory.as_str(), "mmap failed");

    let (mut d, _) = load_model_from_disk(2048);
    d.on_sector(Some(&disk_header(9, 4096)));
    d.on_mapped(true);
    assert_eq!(d.on_burst(None), LoadStep::Failed(LoadError::NoData));
    assert_eq!(LoadError::NoData.as_str(), "no data read");

    let (mut e, _) = load_model_from_disk(2048);
    assert_eq!(
        e.on_sector(Some(&disk_header(9, 0x1_0000_0001))),
        LoadStep::Failed(LoadError::TooLarge)
    );
    assert_eq!(LoadError::TooLarge.as_str(), "model too large");
}

fn entry(name: &str, dtype: GgufDtype, at: usize) -> TensorEntry {
    TensorEntry { name: name.to_string(), dtype, data: span(at, 4) }
}

fn model(layers: u32, with_output: bool) -> GgufModel {
    let mut tensors = vec![
        entry("token_embd.weight", GgufDtype::Q8_0, 100),
        entry("output_norm.weight", GgufDtype::Other, 104),
    ];
    if with_output {
        tensors.push(entry("output.weight", GgufDtype::Q6K, 108));
    }
    for i in 0..layers {
        for (k, part) in [
            "attn_norm", "attn_q", "attn_k", "attn_v", "attn_output", "ffn_norm", "ffn_gate",
            "ffn_up", "ffn_down",
        ]
        .iter()
        .enumerate()
        {
            let name = format!("blk.{}.{}.weight", i, part);
            tensors.push(entry(&name, GgufDtype::Q4_1, 1000 * (i as usize + 1) + k));
        }
    }
    GgufModel {
        metadata: GgufMeta {
            n_layers: layers,
            n_heads: 9,
            n_kv_heads: 3,
            embedding_dim: 576,
            head_dim: 64,
            intermediate_size: 1536,
            vocab_size: 49152,
            context_length: 2048,
            rope_base: 1,
            rms_norm_eps: 2,
        },
        tensors,
    }
}

#[test]
fn layer_tensors_have_decimal_names() {
    assert_eq!(tensor_name(5, ".attn_q.weight"), "blk.5.attn_q.weight");
    assert_eq!(tensor_name(27, ".ffn_up.weight"), "blk.27.ffn_up.weight");
    assert_eq!(tensor_name(105, ".x"), "blk.105.x");
}

#[test]
fn weights_are_found_by_name() {
    let (c, w, l) = build_model_weights(&model(2, true)).unwrap();
    assert_eq!(c.n_layers, 2);
    assert_eq!(c.embed_dim, 576);
    assert_eq!(c.max_seq_len, 2048);
    assert_eq!(w.token_embed, span(100, 4));
    assert_eq!(w.final_norm, span(104, 4));
    assert_eq!(w.output_weight, span(108, 4));
    assert_eq!(w.output_quant, OutputQuant::Q6_K);
    assert_eq!(l.layers.len(), 2);
    assert_eq!(l.get(1).wq, span(2001, 4));
    assert_eq!(l.get(1).w_down, span(2008, 4));
    assert_eq!(l.get(1).w_down_quant, OutputQuant::Q4_1);
    assert_eq!(l.get(0).q_norm, span(0, 0));
}

#[test]
fn output_weights_may_be_tied() {
    let (_, w, _) = build_model_weights(&model(1, false)).unwrap();
    assert_eq!(w.output_weight, w.token_embed);
    assert_eq!(w.output_quant, OutputQuant::Q8_0);
}

#[test]
fn missing_tensors_refuse_the_model() {
    let mut m = model(2, true);
    m.tensors.retain(|t| t.name != "blk.1.ffn_up.weight");
    assert!(build_model_weights(&m).is_none());
    let mut m = model(1, true);
    m.tensors.retain(|t| t.name != "output_norm.weight");
    assert!(build_model_weights(&m).is_none());
}

#[test]
fn layers_beyond_the_limit_are_dropped() {
    let (c, _, l) = build_model_weights(&model(66, true)).unwrap();
    assert_eq!(c.n_layers, 66);
    assert_eq!(l.layers.len(), 64);
    let mut l = l;
    assert!(!l.push(layer_data()));
}

#[test]
fn forward_weights_decode_the_norms() {
    let mut data = Vec::new();
    for x in [1.5f32, -2.0, 0.25] {
        data.extend_from_slice(&x.to_le_bytes());
    }
    data.extend_from_slice(&[1, 2, 3]);
    assert_eq!(bytes_as_f32(&data), bits(&[1.5, -2.0, 0.25]));
    let mut l = LayerDataVec::new();
    assert!(l.push(layer_data()));
    let w = WeightsData {
        token_embed: span(0, 1),
        final_norm: span(8, 4),
        output_weight: span(0, 1),
        output_quant: OutputQuant::Q4_0,
    };
    let f = build_weights_for_forward(&data, &w, &l, 1);
    assert_eq!(f.final_norm, bits(&[0.25]));
    assert_eq!(f.layers[0].attn_norm, bits(&[1.5, -2.0]));
    assert_eq!(f.layers[0].ffn_norm, bits(&[-2.0]));
    assert!(f.layers[0].q_norm.is_empty());
}

#[test]
fn requests_are_unpacked() {
    assert_eq!(decode_request(0), ServerRequest::Ping);
    assert_eq!(decode_request(2), ServerRequest::Status);
    assert_eq!(
        decode_request(3 | 9 << 16 | 500 << 32),
        ServerRequest::Generate { shmem: 9, len: 500, is_rag: true }
    );
    assert_eq!(
        decode_request(1 | 9 << 16 | 500 << 32),
        ServerRequest::Generate { shmem: 9, len: 500, is_rag: false }
    );
    assert_eq!(
        decode_request(4 | 9 << 16 | 500 << 32 | 11 << 48),
        ServerRequest::AskAsync { query_shmem: 9, query_len: 500, ring_shmem: 11 }
    );
    assert_eq!(decode_request(5), ServerRequest::Unknown);
}

#[test]
fn some_requests_are_answered_at_once() {
    assert_eq!(instant_reply(ServerRequest::Ping, true), Some((1, 0)));
    assert_eq!(instant_reply(ServerRequest::Ping, false), Some((0, 0)));
    assert_eq!(instant_reply(ServerRequest::Status, true), Some((1, ARENA_SIZE)));
    assert_eq!(instant_reply(ServerRequest::Unknown, true), Some((u64::MAX, 0)));
    let g = ServerRequest::Generate { shmem: 1, len: 1, is_rag: false };
    assert_eq!(instant_reply(g, true), None);
}

#[test]
fn texts_are_sent_in_shared_memory() {
    assert_eq!(
        send_text_response(10, Some(6), true),
        TextReply::Deliver { len: 10, word: 10 << 32 | 6 }
    );
    assert_eq!(
        send_text_response(9000, Some(6), true),
        TextReply::Deliver { len: 4096, word: 4096 << 32 | 6 }
    );
    assert_eq!(send_text_response(10, Some(6), false), TextReply::Withdraw { handle: 6 });
    assert_eq!(send_text_response(10, None, true), TextReply::Refuse);
}

#[test]
fn queries_are_cut_and_wrapped() {
    assert!(wants_query(1, 1));
    assert!(!wants_query(0, 1));
    assert!(!wants_query(1, 0));
    assert_eq!(take_query(Some(&vec![b'q'; 2000])).len(), 1024);
    assert_eq!(take_query(None).len(), 0);
    assert!(wrap_query(b"who").ends_with(b"user\nwho\n<|im_end|>\n<|im_start|>assistant\n"));
}

#[test]
fn requests_without_model_or_query_are_answered() {
    match handle_inference_request(false, Some(b"hi")) {
        RequestStart::Answer(t) => {
            assert_eq!(t, "[AI] No model loaded. Pack a GGUF model to enable inference.")
        }
        RequestStart::Tokenize(_) => panic!("no model"),
    }
    match handle_inference_request(true, None) {
        RequestStart::Answer(t) => assert_eq!(t, "[AI] Empty prompt."),
        RequestStart::Tokenize(_) => panic!("no query"),
    }
    match handle_inference_request(true, Some(b"hi")) {
        RequestStart::Answer(_) => panic!("a query"),
        RequestStart::Tokenize(p) => assert_eq!(p, wrap_query(b"hi")),
    }
}

#[test]
fn answer_runs_prompt_and_generates() {
    let (mut run, step) = AnswerRun::start(vec![10, 11], STOPS);
    assert_eq!(step, AnswerStep::Prefill { token: 10, pos: 0, sample: false });
    let step = run.on_prefill(ForwardResult::Token(0));
    assert_eq!(step, AnswerStep::Prefill { token: 11, pos: 1, sample: true });
    let step = run.on_prefill(ForwardResult::Token(20));
    assert_eq!(step, AnswerStep::Decode { token: 20 });
    let step = run.on_decoded(b"He");
    assert_eq!(step, AnswerStep::Forward { token: 20, pos: 2 });
    assert_eq!(run.on_forward(ForwardResult::Token(21)), AnswerStep::Decode { token: 21 });
    assert_eq!(run.on_decoded(b"y"), AnswerStep::Forward { token: 21, pos: 3 });
    assert_eq!(run.on_forward(ForwardResult::Token(7)), AnswerStep::Respond);
    assert_eq!(run.reply(), b"Hey");
}

#[test]
fn answer_fails_in_the_prompt_only() {
    let (mut a, _) = AnswerRun::start(vec![10], STOPS);
    assert_eq!(a.on_prefill(ForwardResult::NoWeights), AnswerStep::FailWeights);
    let (mut b, _) = AnswerRun::start(vec![10], STOPS);
    assert_eq!(b.on_prefill(ForwardResult::NoLogits), AnswerStep::FailPrefill);
    let (mut c, _) = AnswerRun::start(vec![10], STOPS);
    c.on_prefill(ForwardResult::Token(5));
    c.on_decoded(b"x");
    assert_eq!(c.on_forward(ForwardResult::NoLogits), AnswerStep::Respond);
    assert_eq!(c.reply(), b"x");
    let (mut d, _) = AnswerRun::start(vec![10], STOPS);
    assert_eq!(d.on_prefill(ForwardResult::Token(2)), AnswerStep::Respond);
    assert_eq!(d.reply(), b"[AI] (empty response)");
}

#[test]
fn answer_is_bounded() {
    let (mut run, mut step) = AnswerRun::start(vec![1; 512], STOPS);
    let mut forwards = 0;
    loop {
        step = match step {
            AnswerStep::Prefill { .. } => run.on_prefill(ForwardResult::Token(9)),
            AnswerStep::Forward { pos, .. } => {
                assert!(pos < 1024);
                forwards += 1;
                run.on_forward(ForwardResult::Token(9))
            }
            AnswerStep::Decode { .. } => run.on_decoded(&[b'a'; 64]),
            _ => break,
        };
    }
    assert_eq!(step, AnswerStep::Respond);
    assert_eq!(forwards, 511);
    assert_eq!(run.generated.len(), 512);
    assert_eq!(run.response.len(), 63 * 64);
}

#[test]
fn empty_prompt_starts_at_token_zero() {
    let (_, step) = AnswerRun::start(vec![], STOPS);
    assert_eq!(step, AnswerStep::Decode { token: 0 });
}

#[test]
fn longest_valid_prefix() {
    assert_eq!(valid_utf8_prefix_len("hé".as_bytes()), 3);
    assert_eq!(valid_utf8_prefix_len(&[b'h', 0xC3]), 1);
    assert_eq!(valid_utf8_prefix_len(&[0xFF, b'a']), 0);
    assert_eq!(valid_utf8_prefix_len(&[]), 0);
}

#[test]
fn cut_characters_come_out_whole() {
    let mut s = TextSieve::new();
    assert_eq!(s.take_in(&[b'a', 0xE2, 0x82]), b"a");
    assert_eq!(s.take_in(&[0xAC, b'b']), "€b".as_bytes());
    assert!(s.held.is_empty());
    assert_eq!(s.take_in(&[0xFF]), b"");
    assert_eq!(s.take_in(b"xyz"), b"xyz");
}

#[test]
fn single_bytes_come_out_whole() {
    let text = "aå€🦀b";
    let mut s = TextSieve::new();
    let mut out = Vec::new();
    for b in text.bytes() {
        out.extend(s.take_in(&[b]));
    }
    assert_eq!(out, text.as_bytes());
    assert!(s.held.is_empty());
}

#[test]
fn ring_refuses_what_does_not_fit() {
    let mut r = ring();
    assert!(r.append(&vec![b'a'; RING_DATA_MAX - 1]));
    assert!(!r.append(b"b"));
    assert_eq!(r.write_idx as usize, RING_DATA_MAX - 1);
    r.restart();
    assert_eq!(r.write_idx, 0);
}

#[test]
fn busy_engines_refuse_streams() {
    let mut none: Option<InferenceEngine> = None;
    assert_eq!(handle_async_inference(&mut none), u64::MAX);
    let mut busy = Some(engine(true));
    assert_eq!(handle_async_inference(&mut busy), u64::MAX);
    let mut idle = Some(engine(false));
    assert_eq!(handle_async_inference(&mut idle), 0);
    assert_eq!(handle_async_inference(&mut idle), u64::MAX);
    idle.as_mut().unwrap().release();
    assert_eq!(handle_async_inference(&mut idle), 0);
}

#[test]
fn streams_need_a_query() {
    assert!(stream_prompt(None).is_none());
    assert!(stream_prompt(Some(b"")).is_none());
    assert_eq!(stream_prompt(Some(b"q")).unwrap(), wrap_query(b"q"));
}

#[test]
fn stream_prefills_in_batches() {
    let mut r = ring();
    let (mut run, step) = StreamRun::start((0..18).collect(), STOPS);
    assert_eq!(step, StreamStep::PrefillBatch { from: 0, to: 8 });
    assert_eq!(run.on_batch(&mut r, true), StreamStep::PrefillBatch { from: 8, to: 16 });
    assert_eq!(run.on_batch(&mut r, true), StreamStep::PrefillBatch { from: 16, to: 17 });
    assert_eq!(run.on_batch(&mut r, true), StreamStep::PrefillLast { token: 17, pos: 17 });
    assert_eq!(run.on_last(&mut r, Some(30)), StreamStep::Decode { token: 30 });
    assert_eq!(run.on_decoded(&mut r, b"Hi"), StreamStep::Forward { token: 30, pos: 18 });
    assert_eq!(text(&r), b"Hi");
    assert_eq!(run.on_forward(&mut r, Some(2)), StreamStep::Done);
    assert_eq!(r.status, 1);
}

#[test]
fn stream_failures_are_seen_in_the_ring() {
    let mut r = ring();
    let (mut run, step) = StreamRun::start(vec![4], STOPS);
    assert_eq!(step, StreamStep::PrefillLast { token: 4, pos: 0 });
    assert_eq!(run.on_last(&mut r, None), StreamStep::Failed);
    assert_eq!(r.status, 2);
    let mut r = ring();
    let (mut run, _) = StreamRun::start(vec![4, 5], STOPS);
    assert_eq!(run.on_batch(&mut r, false), StreamStep::Failed);
    assert_eq!(r.status, 2);
}

fn at_tool() -> (StreamRun, TokenRing) {
    let mut r = ring();
    let (mut run, _) = StreamRun::start(vec![4], STOPS);
    run.on_last(&mut r, Some(9));
    run.on_decoded(&mut r, b"<|tool|>ls<|/to");
    run.on_forward(&mut r, Some(10));
    let step = run.on_decoded(&mut r, b"ol|>");
    assert_eq!(step, StreamStep::WaitForTool);
    assert_eq!(r.tool_state, 1);
    (run, r)
}

#[test]
fn tool_result_is_injected() {
    let (mut run, mut r) = at_tool();
    let at = r.write_idx as usize;
    r.data[at..at + 5].copy_from_slice(b"a.txt");
    r.tool_result_len = 5;
    r.tool_state = 2;
    assert_eq!(poll_tool(r.tool_state, 3), ToolPoll::Ready);
    assert_eq!(run.on_tool(&mut r, true), StreamStep::EncodeResult { at, len: 5 });
    let step = run.on_result_tokens(&mut r, vec![50, 51, 52]);
    assert_eq!(step, StreamStep::InjectBatch { count: 2, pos: 2 });
    assert_eq!(run.on_injected(&mut r, true), StreamStep::InjectLast { token: 52, pos: 4 });
    let step = run.on_injected_last(&mut r, Some(60));
    assert_eq!(step, StreamStep::Decode { token: 60 });
    assert!(text(&r).ends_with(b"<|/tool|>a.txt"));
    assert_eq!(r.tool_state, 0);
    assert_eq!(run.generated, vec![9, 10, 60]);
    assert_eq!(run.on_decoded(&mut r, b"!"), StreamStep::Forward { token: 60, pos: 5 });
}

#[test]
fn failed_injection_goes_on_from_the_last_token() {
    let (mut run, mut r) = at_tool();
    r.tool_result_len = 3;
    r.tool_state = 2;
    run.on_tool(&mut r, true);
    let step = run.on_result_tokens(&mut r, vec![50]);
    assert_eq!(step, StreamStep::InjectLast { token: 50, pos: 2 });
    assert_eq!(run.on_injected_last(&mut r, None), StreamStep::Forward { token: 10, pos: 1 });
    assert_eq!(r.tool_state, 0);
}

#[test]
fn tool_without_result_is_passed_over() {
    let (mut run, mut r) = at_tool();
    assert_eq!(poll_tool(1, 499_999), ToolPoll::Again);
    assert_eq!(poll_tool(1, 500_000), ToolPoll::TimedOut);
    assert_eq!(run.on_tool(&mut r, false), StreamStep::Forward { token: 10, pos: 1 });
    assert_eq!(r.tool_state, 0);
    let (mut run, mut r) = at_tool();
    assert_eq!(run.on_tool(&mut r, true), StreamStep::Forward { token: 10, pos: 1 });
    let (mut run, mut r) = at_tool();
    r.tool_result_len = 2;
    run.on_tool(&mut r, true);
    let before = r.write_idx;
    assert_eq!(run.on_result_tokens(&mut r, vec![]), StreamStep::Forward { token: 10, pos: 1 });
    assert_eq!(r.write_idx, before + 2);
}

#[test]
fn stream_says_that_the_cache_is_full() {
    let mut r = ring();
    let (mut run, mut step) = StreamRun::start(vec![1; 512], STOPS);
    let mut n = 0;
    loop {
        step = match step {
            StreamStep::PrefillBatch { .. } => run.on_batch(&mut r, true),
            StreamStep::PrefillLast { .. } => run.on_last(&mut r, Some(9)),
            StreamStep::Forward { pos, .. } => {
                assert!(pos < 1024);
                run.on_forward(&mut r, Some(9))
            }
            StreamStep::Decode { .. } => {
                n += 1;
                if n == 3 {
                    run.pos += 10;
                }
                run.on_decoded(&mut r, b"a")
            }
            _ => break,
        };
    }
    assert_eq!(step, StreamStep::Done);
    assert!(text(&r).ends_with(b"a\n[Context Limit Reached]"));
}

#[test]
fn stream_stops_when_the_ring_is_full() {
    let mut r = ring();
    r.write_idx = (RING_DATA_MAX - 3) as u32;
    let (mut run, _) = StreamRun::start(vec![1], STOPS);
    run.on_last(&mut r, Some(9));
    assert_eq!(run.on_decoded(&mut r, b"ab"), StreamStep::Forward { token: 9, pos: 1 });
    run.on_forward(&mut r, Some(9));
    assert_eq!(run.on_decoded(&mut r, b"c"), StreamStep::Done);
    assert_eq!(r.write_idx as usize, RING_DATA_MAX - 1);
}

#[test]
fn stream_holds_back_parts_of_characters() {
    let mut r = ring();
    let (mut run, _) = StreamRun::start(vec![1], STOPS);
    run.on_last(&mut r, Some(9));
    run.on_decoded(&mut r, &[0xF0, 0x9F]);
    assert_eq!(text(&r), b"");
    run.on_forward(&mut r, Some(9));
    run.on_decoded(&mut r, &[0x9A, 0x80]);
    assert_eq!(text(&r), "🚀".as_bytes());
}
