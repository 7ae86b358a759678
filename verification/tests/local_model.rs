use folkering::decode::{
    pack_chunk, DecodeRun, END_OF_TEXT, EXPECTED_FIRST, GREETING, IM_END, MAX_DECODE,
};
use folkering::first_blood::{first_token, qwen_config, run_d37_first_blood};
use folkering::forward::{
    join, layer_prefix, load_layer, load_weight, plan_forward, CacheShape, LoadedWeight,
    ModelConfig,
};
use folkering::inference_wire::{
    dispatch, handle_mapped, handle_request, local_backend_run, model_str, outcome_bytes,
    proxy_outcome, read_wire, InferenceStatus, Outcome, RequestStep, WIRE_MAGIC,
};
use folkering::prng::Xoshiro256pp;
use folkering::selftest::{
    judge_cache_test, read_all, run_d312_vfs_self_test, run_d313_self_test,
    run_d31_tokenizer_self_test, run_d31q_q8_self_test, run_d32_self_test, run_d33_self_test,
    run_d34_self_test, run_d35_self_test, run_d4_kv_cache_self_test, run_fbin_self_test,
    test_config, test_fbin, CacheTestStep, ATTN_NAMES, FFN_NAMES, ONE_TO_SIXTEEN, QUARTERS,
};
use folkering::tensor::{embedding_lookup, Tensor2};
use folkering::tokenizer::{build_byte_to_char_table, Tokenizer, TokenizerError};
use folkering::topk::{argmax, nan, sample_greedy, top_k};
use folkering::vfs::{
    read_file, read_file_mapped, StoreFault, VfsError, VfsReply, VfsSource, VfsStep,
};
use folkering::weights::{fnv1a_64, DType, FbinView, LoadError};

fn bits(v: &[f32]) -> Vec<u32> {
    v.iter().map(|x| x.to_bits()).collect()
}

// Tensor files

fn fbin(tensors: &[(&str, u8, &[u32], &[u8])]) -> Vec<u8> {
    let mut meta_len = 0;
    for (name, _, shape, _) in tensors {
        meta_len += 2 + name.len() + 2 + 4 * shape.len() + 16;
    }
    let mut at = 16 + meta_len;
    let mut b = b"FBN1\x01\x00".to_vec();
    b.extend_from_slice(&(tensors.len() as u16).to_le_bytes());
    b.extend_from_slice(&(meta_len as u64).to_le_bytes());
    for (name, ty, shape, data) in tensors {
        b.extend_from_slice(&(name.len() as u16).to_le_bytes());
        b.extend_from_slice(name.as_bytes());
        b.push(*ty);
        b.push(shape.len() as u8);
        for d in *shape {
            b.extend_from_slice(&d.to_le_bytes());
        }
        b.extend_from_slice(&(at as u64).to_le_bytes());
        b.extend_from_slice(&(data.len() as u64).to_le_bytes());
        at += data.len();
    }
    for (_, _, _, data) in tensors {
        b.extend_from_slice(data);
    }
    b
}

fn le_bytes(v: &[f32]) -> Vec<u8> {
    v.iter().flat_map(|x| x.to_le_bytes()).collect()
}

#[test]
fn tensors_are_found_and_read() {
    let a = le_bytes(&[1.0, -2.0, 3.5, 0.25, 5.0, 6.0]);
    let file = fbin(&[("a", 0, &[2, 3], &a), ("b", 1, &[4], &[9, 8, 7, 6]), ("a", 0, &[], &[0; 4])]);
    let v = FbinView::parse(&file).unwrap();
    assert_eq!(v.tensors.len(), 3);
    let t = v.find("a").unwrap();
    assert_eq!(t.shape, vec![2, 3]);
    assert_eq!(v.data_for(t), &a[..]);
    assert_eq!(v.read_f32(t), Some(bits(&[1.0, -2.0, 3.5, 0.25, 5.0, 6.0])));
    assert_eq!(v.read_named("b"), None);
    assert_eq!(v.read_f32(&v.tensors[2]), Some(vec![0]));
    assert!(v.find("c").is_none());
    assert_eq!((DType::F32.elem_size(), DType::Q8.elem_size()), (4, 1));
    assert_eq!(DType::from_u8(2), Some(DType::Q4));
}

#[test]
fn wrong_sizes_are_not_read() {
    let file = fbin(&[("a", 0, &[3], &[0; 8]), ("z", 0, &[0, u32::MAX, u32::MAX], &[])]);
    let v = FbinView::parse(&file).unwrap();
    assert_eq!(v.read_named("a"), None);
    assert_eq!(v.read_named("z"), Some(vec![]));
}

#[test]
fn malformed_tensor_files_are_refused() {
    let good = fbin(&[("a", 0, &[1], &[0; 4])]);
    assert!(matches!(
        FbinView::parse(&good[..10]).err(),
        Some(LoadError::Truncated { needed: 16, got: 10 })
    ));
    assert!(matches!(
        FbinView::parse(&good[..20]).err(),
        Some(LoadError::Truncated { needed: 41, got: 20 })
    ));
    let mut b = good.clone();
    b[0] = b'X';
    assert!(matches!(FbinView::parse(&b).err(), Some(LoadError::BadMagic)));
    let mut b = good.clone();
    b[4] = 9;
    assert!(matches!(FbinView::parse(&b).err(), Some(LoadError::BadVersion(9))));
    let mut b = good.clone();
    b[18] = 0xFF;
    assert!(matches!(FbinView::parse(&b).err(), Some(LoadError::NameNotUtf8)));
    let mut b = good.clone();
    b[19] = 7;
    assert!(matches!(FbinView::parse(&b).err(), Some(LoadError::InvalidDType(7))));
    assert!(matches!(
        FbinView::parse(&good[..good.len() - 1]).err(),
        Some(LoadError::DataOutOfRange { tensor: 0 })
    ));
    let mut b = good.clone();
    b[6] = 2;
    assert!(matches!(FbinView::parse(&b).err(), Some(LoadError::Truncated { .. })));
}

#[test]
fn hash_has_the_published_values() {
    assert_eq!(fnv1a_64(b""), 0xcbf29ce484222325);
    assert_eq!(fnv1a_64(b"a"), 0xaf63dc4c8601ec8c);
    assert_eq!(fnv1a_64(b"foobar"), 0x85944171f73967e8);
}

#[test]
fn embedded_file_passes_its_test() {
    let file = test_fbin();
    let v = FbinView::parse(&file).unwrap();
    let p = run_fbin_self_test(&v).unwrap();
    let want: Vec<f32> = (1..=16).map(|n| n as f32).collect();
    assert_eq!(p.embed, bits(&want));
    assert_eq!(p.weight, bits(&[0.25, 0.5, 0.75, 1.0]));
    assert_eq!(p.embed, ONE_TO_SIXTEEN);
    assert_eq!(p.embed_hash, fnv1a_64(&le_bytes(&want)));
    let (row, w) = run_d32_self_test(&v).unwrap();
    assert_eq!(row, bits(&[5.0, 6.0, 7.0, 8.0]));
    assert_eq!(w, QUARTERS);
    let other = fbin(&[("embed_test", 0, &[4, 4], &[0; 64])]);
    let v = FbinView::parse(&other).unwrap();
    assert!(run_fbin_self_test(&v).is_none());
    assert!(run_d32_self_test(&v).is_none());
}

#[test]
fn combined_file_needs_all_tensors() {
    let one = le_bytes(&[1.0]);
    let marker = le_bytes(&[1.0, 2.0, 3.0, 4.0]);
    let mut list: Vec<(&str, u8, &[u32], &[u8])> = vec![("vfs_marker", 0, &[4], &marker)];
    for n in FFN_NAMES.iter().chain(ATTN_NAMES.iter()) {
        list.push((n, 0, &[1], &one));
    }
    let file = fbin(&list);
    let v = FbinView::parse(&file).unwrap();
    let p = run_d312_vfs_self_test(&v).unwrap();
    assert_eq!(p.marker, bits(&[1.0, 2.0, 3.0, 4.0]));
    assert_eq!((p.ffn.len(), p.attn.len()), (4, 7));
    assert_eq!(run_d33_self_test(&v).unwrap().len(), 4);
    assert_eq!(run_d34_self_test(&v).unwrap().len(), 7);
    assert_eq!(read_all(&v, &["wq", "nothing"]), None);
    assert!(!run_d313_self_test(&v));
    list.pop();
    let file = fbin(&list);
    let v = FbinView::parse(&file).unwrap();
    assert!(run_d312_vfs_self_test(&v).is_none());
    assert!(run_d34_self_test(&v).is_none());
}

#[test]
fn model_layout_is_checked() {
    let shapes: [(&str, &[u32]); 16] = [
        ("embed", &[256, 64]),
        ("final_norm", &[64]),
        ("rope_cos", &[32, 8]),
        ("rope_sin", &[32, 8]),
        ("layer.0.attn_norm", &[64]),
        ("layer.0.ffn_norm", &[64]),
        ("layer.0.q", &[64, 64]),
        ("layer.0.k", &[32, 64]),
        ("layer.0.v", &[32, 64]),
        ("layer.0.o", &[64, 64]),
        ("layer.0.q_bias", &[64]),
        ("layer.0.k_bias", &[32]),
        ("layer.0.v_bias", &[32]),
        ("layer.0.gate", &[128, 64]),
        ("layer.0.up", &[128, 64]),
        ("layer.0.down", &[64, 128]),
    ];
    let list: Vec<(&str, u8, &[u32], &[u8])> =
        shapes.iter().map(|(n, s)| (*n, 0, *s, &[][..])).collect();
    let file = fbin(&list);
    assert!(run_d313_self_test(&FbinView::parse(&file).unwrap()));
    let file = fbin(&list[1..]);
    assert!(!run_d313_self_test(&FbinView::parse(&file).unwrap()));
}

// Forward pass

fn small_config() -> (ModelConfig, CacheShape) {
    (
        ModelConfig {
            n_layers: 1,
            hidden_dim: 2,
            n_heads: 1,
            n_kv_heads: 1,
            head_dim: 2,
            intermediate: 2,
            vocab: 2,
            max_pos: 4,
            eps_bits: 0,
        },
        CacheShape { layers: 1, n_kv_heads: 1, head_dim: 2, max_pos: 4, seq_len: 1 },
    )
}

#[test]
fn plans_slice_the_tables() {
    let four = le_bytes(&[1.0, 2.0, 3.0, 4.0]);
    let two = le_bytes(&[1.0, 2.0]);
    let file = fbin(&[
        ("embed", 1, &[2, 2], &[1, 2, 3]),
        ("final_norm", 0, &[2], &two),
        ("rope_cos", 0, &[4, 1], &four),
        ("rope_sin", 0, &[4, 1], &four),
    ]);
    let v = FbinView::parse(&file).unwrap();
    let (cfg, mut cache) = small_config();
    let p = plan_forward(&v, &cfg, &cache, 2).unwrap();
    assert_eq!(p.pos_offset, 1);
    assert_eq!(p.rope_cos, bits(&[2.0, 3.0]));
    assert_eq!(p.final_norm, bits(&[1.0, 2.0]));
    match p.embed {
        LoadedWeight::Q8(b) => assert_eq!(b, &[1, 2, 3]),
        LoadedWeight::F32(_) => panic!("quantized"),
    }
    assert!(plan_forward(&v, &cfg, &cache, 0).is_none());
    assert!(plan_forward(&v, &cfg, &cache, 4).is_none());
    cache.commit(3);
    assert_eq!(cache.seq_len, 4);
    assert!(plan_forward(&v, &cfg, &cache, 1).is_none());
    cache.seq_len = 0;
    cache.layers = 2;
    assert!(plan_forward(&v, &cfg, &cache, 1).is_none());
    let (cfg, cache) = small_config();
    let file = fbin(&[("embed", 2, &[1], &[1])]);
    let v = FbinView::parse(&file).unwrap();
    assert!(load_weight(&v, "embed").is_none());
    assert!(plan_forward(&v, &cfg, &cache, 1).is_none());
}

#[test]
fn layers_need_their_tensors() {
    assert_eq!(layer_prefix(12), "layer.12");
    assert_eq!(join("layer.12", "q"), "layer.12.q");
    let one = le_bytes(&[1.0]);
    let names = ["attn_norm", "q", "k", "v", "o", "ffn_norm", "gate", "up", "down", "k_norm"];
    let full: Vec<String> = names.iter().map(|n| join(&layer_prefix(3), n)).collect();
    let list: Vec<(&str, u8, &[u32], &[u8])> =
        full.iter().map(|n| (n.as_str(), 0, &[1u32][..], &one[..])).collect();
    let file = fbin(&list);
    let v = FbinView::parse(&file).unwrap();
    let w = load_layer(&v, 3).unwrap();
    assert_eq!(w.attn_norm, bits(&[1.0]));
    assert!(w.q_norm.is_none() && w.q_bias.is_none());
    assert_eq!(w.k_norm, Some(bits(&[1.0])));
    assert!(load_layer(&v, 2).is_none());
    let file = fbin(&list[..8]);
    assert!(load_layer(&FbinView::parse(&file).unwrap(), 3).is_none());
}

#[test]
fn tensors_are_row_major() {
    let mut t = Tensor2::from_rows(&[&[1, 2, 3], &[4, 5, 6]]);
    assert_eq!((t.rows(), t.cols(), t.get(1, 0)), (2, 3, 4));
    t.set(1, 0, 40);
    assert_eq!(t.data, vec![1, 2, 3, 40, 5, 6]);
    assert_eq!(Tensor2::zeros(2, 2).data, vec![0; 4]);
    assert_eq!(Tensor2::from_flat(1, 2, vec![7, 8]).get(0, 1), 8);
    let table = [10, 11, 20, 21, 30, 31];
    assert_eq!(embedding_lookup(&table, 3, 2, 1), Some(vec![20, 21]));
    assert_eq!(embedding_lookup(&table, 3, 2, 3), None);
    assert_eq!(embedding_lookup(&table, 2, 2, 0), None);
}

// Tokenizer

fn tokb(tokens: &[String], merges: &[(u32, u32, u32)], specials: &[u32]) -> Vec<u8> {
    let mut b = b"TOK1\x02\x00\x00\x00".to_vec();
    for n in [tokens.len(), merges.len(), specials.len(), 0] {
        b.extend_from_slice(&(n as u32).to_le_bytes());
    }
    let mut at = 0u32;
    b.extend_from_slice(&at.to_le_bytes());
    for t in tokens {
        at += t.len() as u32;
        b.extend_from_slice(&at.to_le_bytes());
    }
    for t in tokens {
        b.extend_from_slice(t.as_bytes());
    }
    for (l, r, x) in merges {
        for n in [l, r, x] {
            b.extend_from_slice(&n.to_le_bytes());
        }
    }
    for id in specials {
        b.extend_from_slice(&id.to_le_bytes());
    }
    b
}

fn byte_tokens() -> Vec<String> {
    build_byte_to_char_table()
        .iter()
        .map(|cp| char::from_u32(*cp).unwrap().to_string())
        .collect()
}

fn small_tokenizer() -> Vec<u8> {
    let mut t = byte_tokens();
    t.push("He".to_string());
    t.push("ll".to_string());
    t.push("Hi".to_string());
    t.push("<|a|>".to_string());
    t.push("<|a|>b".to_string());
    tokb(
        &t,
        &[(72, 101, 256), (108, 108, 257), (72, 105, 258)],
        &[259, 260, 9999],
    )
}

#[test]
fn byte_map_has_its_known_values() {
    let t = build_byte_to_char_table();
    assert_eq!(t[b'!' as usize], 0x21);
    assert_eq!(t[b' ' as usize], 0x120);
    assert_eq!(t[b'\n' as usize], 0x10A);
    assert_eq!(t[0xAD], 0x143);
    assert_eq!(t[0xFF], 0xFF);
    let mut sorted = t.clone();
    sorted.sort();
    sorted.dedup();
    assert_eq!(sorted.len(), 256);
}

#[test]
fn texts_are_merged_and_come_back() {
    let tok = Tokenizer::parse(&small_tokenizer()).unwrap();
    assert_eq!((tok.vocab_size(), tok.merges_count(), tok.special_count()), (261, 3, 2));
    assert!(run_d31_tokenizer_self_test(&tok));
    assert_eq!(tok.encode("Hell"), vec![256, 257]);
    assert_eq!(tok.encode("lll"), vec![257, 108]);
    assert_eq!(tok.encode(""), Vec::<u32>::new());
    assert_eq!(tok.encode("Hi<|a|>He"), vec![258, 259, 256]);
    assert_eq!(tok.encode("<|a|>b"), vec![260]);
    assert_eq!(tok.encode("å").len(), 2);
    let mut parts = tok.encode("Hell H");
    parts.push(259);
    parts.extend(tok.encode("i<|a|>He"));
    assert_eq!(tok.encode("Hell H<|a|>i<|a|>He"), parts);
    for text in ["Hell hello\n", "æøå 中 <|a|>b<|a|>", "\u{0}\u{7f}"] {
        assert_eq!(tok.decode_seq(&tok.encode(text)), text);
    }
    assert_eq!(tok.decode(258), Some("Hi"));
    assert_eq!(tok.decode(b' ' as u32), Some("\u{120}"));
    assert_eq!(tok.decode(999), None);
}

#[test]
fn cut_characters_are_replaced() {
    let tok = Tokenizer::parse(&small_tokenizer()).unwrap();
    assert_eq!(tok.decode_seq(&[72, 0xC3]), "H\u{FFFD}");
    assert_eq!(tok.decode_seq(&[0xC3, 0xA5]), "å");
    assert_eq!(tok.decode_seq(&[72, 9999, 105]), "Hi");
}

#[test]
fn lower_merges_come_first() {
    let mut t = byte_tokens();
    t.push("ab".to_string());
    t.push("bc".to_string());
    let file = tokb(&t, &[(98, 99, 257), (97, 98, 256)], &[]);
    let tok = Tokenizer::parse(&file).unwrap();
    assert_eq!(tok.encode("abc"), vec![97, 257]);
    assert_eq!(tok.encode("abab"), vec![256, 256]);
}

#[test]
fn merging_ends_without_a_pair() {
    let mut t = byte_tokens();
    t.push("ab".to_string());
    t.push("abab".to_string());
    let merges = [(256, 256, 257), (97, 98, 256)];
    let tok = Tokenizer::parse(&tokb(&t, &merges, &[])).unwrap();
    assert_eq!(tok.encode("ababab"), vec![257, 256]);
    for text in ["ababab", "aabbab", "bababa", "abababab"] {
        let ids = tok.encode(text);
        assert!(ids.len() <= text.len());
        for w in ids.windows(2) {
            assert!(merges.iter().all(|m| (m.0, m.1) != (w[0], w[1])));
        }
    }
}

#[test]
fn malformed_tokenizers_are_refused() {
    let good = small_tokenizer();
    assert!(matches!(
        Tokenizer::parse(&good[..8]).err(),
        Some(TokenizerError::Truncated { needed: 16, got: 8 })
    ));
    assert!(matches!(
        Tokenizer::parse(&good[..20]).err(),
        Some(TokenizerError::Truncated { needed: 24, got: 20 })
    ));
    let mut b = good.clone();
    b[3] = b'9';
    assert!(matches!(Tokenizer::parse(&b).err(), Some(TokenizerError::BadMagic)));
    let mut b = good.clone();
    b[4] = 3;
    assert!(matches!(Tokenizer::parse(&b).err(), Some(TokenizerError::BadVersion(3))));
    let mut b = good.clone();
    for k in 8..12 {
        b[k] = 0;
    }
    assert!(matches!(Tokenizer::parse(&b).err(), Some(TokenizerError::Empty)));
    assert!(matches!(
        Tokenizer::parse(&good[..good.len() - 1]).err(),
        Some(TokenizerError::Truncated { .. })
    ));
    let mut b = good.clone();
    b[28] = 0xFF;
    assert!(matches!(Tokenizer::parse(&b).err(), Some(TokenizerError::Truncated { .. })));
    let mut t = byte_tokens();
    t[5] = "x".to_string();
    assert!(matches!(
        Tokenizer::parse(&tokb(&t, &[], &[])).err(),
        Some(TokenizerError::MissingByteChar(5))
    ));
    let mut b = tokb(&byte_tokens(), &[], &[]);
    let last = b.len() - 1;
    b[last] = 0xFF;
    assert!(matches!(Tokenizer::parse(&b).err(), Some(TokenizerError::NameNotUtf8)));
}

#[test]
fn first_version_has_no_specials() {
    let v2 = tokb(&byte_tokens(), &[], &[]);
    let mut v1 = v2[..16].to_vec();
    v1[4] = 1;
    v1.extend_from_slice(&v2[24..]);
    let tok = Tokenizer::parse(&v1).unwrap();
    assert_eq!((tok.vocab_size(), tok.special_count()), (256, 0));
    assert_eq!(tok.encode("Hi"), vec![72, 105]);
}

// Sampling

#[test]
fn generator_has_known_outputs() {
    let mut g = Xoshiro256pp { s: [1, 2, 3, 4] };
    assert_eq!(g.next_u64(), 41943041);
    let mut g = Xoshiro256pp::from_seed_u64(42);
    assert_eq!(
        g.state(),
        [0xbdd732262feb6e95, 0x28efe333b266f103, 0x47526757130f9f52, 0x581ce1ff0e4ae394]
    );
    assert_eq!(g.next_u64(), 0xd0764d4f4476689f);
    assert_eq!(g.next_u64(), 0x519e4174576f3791);
    assert_eq!(g.next_u24(), (0xfbe07cfb0c24ed8cu64 >> 40) as u32);
}

#[test]
fn highest_logits() {
    let l = bits(&[1.0, -3.0, f32::NAN, 7.5, 7.5, f32::NEG_INFINITY]);
    assert_eq!(argmax(&l), Some(3));
    assert_eq!(sample_greedy(&l), 3);
    assert_eq!(argmax(&[]), None);
    let top = top_k(&l, 3);
    assert_eq!(top.iter().map(|e| e.0).collect::<Vec<u32>>(), bits(&[7.5, 7.5, 1.0]));
    assert_eq!(top_k(&l, 9).len(), 5);
    assert!(top_k(&l, 0).is_empty());
    assert_eq!(sample_greedy(&bits(&[f32::NEG_INFINITY; 3])), 0);
    assert!(nan(f32::NAN.to_bits()) && !nan(f32::INFINITY.to_bits()));
    assert_eq!(argmax(&bits(&[-0.0, 0.0])), Some(0));
}

// Decoding

#[test]
fn runs_end_at_stop_tokens() {
    let mut r = DecodeRun::new(5);
    assert_eq!(r.next_input(), Some(5));
    r.push(6);
    r.push(IM_END);
    assert_eq!(r.next_input(), None);
    assert_eq!(r.sampled, vec![5, 6, IM_END]);
    assert_eq!(DecodeRun::new(END_OF_TEXT).next_input(), None);
    let mut r = DecodeRun::new(1);
    for _ in 0..MAX_DECODE {
        assert!(r.next_input().is_some());
        r.push(1);
    }
    assert_eq!(r.next_input(), None);
}

#[test]
fn first_question_is_set_up_and_run() {
    let cfg = qwen_config();
    assert_eq!((cfg.n_layers, cfg.vocab, cfg.max_pos), (28, 151936, 512));
    assert_eq!(f32::from_bits(cfg.eps_bits), 1e-6);
    let model = fbin(&[("embed", 0, &[1], &[0; 4])]);
    let tokens = small_tokenizer();
    assert!(run_d37_first_blood(None, Some(&tokens)).is_none());
    assert!(run_d37_first_blood(Some(&model), None).is_none());
    assert!(run_d37_first_blood(Some(&model), Some(&model)).is_none());
    assert!(run_d37_first_blood(Some(&tokens), Some(&tokens)).is_none());
    let f = run_d37_first_blood(Some(&model), Some(&tokens)).unwrap();
    assert!(f.view.find("embed").is_some());
    assert_eq!(f.tok.decode_seq(&f.prompt), GREETING);
    assert!(first_token(None).is_none());
    assert!(first_token(Some(&[])).is_none());
    let (mut run, known) = first_token(Some(&bits(&[0.0, 3.0, 2.0]))).unwrap();
    assert_eq!((run.sampled.clone(), known), (vec![1], false));
    let mut logits = vec![0u32; EXPECTED_FIRST as usize + 1];
    logits[EXPECTED_FIRST as usize] = 1f32.to_bits();
    assert!(first_token(Some(&logits)).unwrap().1);
    assert_eq!(run.on_sampled(&f.tok, 7, 258), pack_chunk(7, "Hi"));
    assert_eq!(run.response(&f.tok), "\u{1}Hi");
}

#[test]
fn forward_passes_are_judged() {
    let cfg = test_config();
    assert_eq!((cfg.vocab, cfg.head_dim), (256, 16));
    assert_eq!(f32::from_bits(cfg.eps_bits), 1e-5);
    let mut v = vec![0.0f32; 256];
    v[3] = 1.147;
    let good = bits(&v);
    assert!(run_d35_self_test(Some(&good), true));
    assert!(!run_d35_self_test(Some(&good), false));
    assert!(!run_d35_self_test(None, true));
    assert!(!run_d35_self_test(Some(&good[..255]), true));
    assert!(run_d31q_q8_self_test(Some(&good[..255]), true));
    assert!(judge_cache_test(&good, true));
    assert!(!judge_cache_test(&[], true));
    v[9] = f32::NEG_INFINITY;
    assert!(!run_d35_self_test(Some(&bits(&v)), true));
    assert!(!run_d31q_q8_self_test(Some(&bits(&v)), true));
    assert!(judge_cache_test(&bits(&v), true));
    v[9] = 5.0;
    assert!(!run_d31q_q8_self_test(Some(&bits(&v)), true));
    assert_eq!(run_d4_kv_cache_self_test(0, false, 0), CacheTestStep::Feed { token: 1 });
    assert_eq!(run_d4_kv_cache_self_test(1, true, 1), CacheTestStep::Feed { token: 2 });
    assert_eq!(run_d4_kv_cache_self_test(2, true, 1), CacheTestStep::Fail);
    assert_eq!(run_d4_kv_cache_self_test(2, false, 2), CacheTestStep::Fail);
    assert_eq!(run_d4_kv_cache_self_test(3, true, 3), CacheTestStep::Judge);
}

#[test]
fn fragments_are_packed() {
    assert_eq!(
        pack_chunk(0xA5, "hei").to_le_bytes(),
        [0xA5, 3, b'h', b'e', b'i', 0, 0, 0]
    );
    let p = pack_chunk(1, "abcdeåf").to_le_bytes();
    assert_eq!(p, [1, 5, b'a', b'b', b'c', b'd', b'e', 0]);
}

// Requests

fn page(prompt: &[u8]) -> [u8; 4096] {
    let mut p = [0u8; 4096];
    p[0..4].copy_from_slice(&WIRE_MAGIC.to_le_bytes());
    p[4] = 1;
    p[12..16].copy_from_slice(&(prompt.len() as u32).to_le_bytes());
    p[16..20].copy_from_slice(&1000u32.to_le_bytes());
    p[20..24].copy_from_slice(&92u32.to_le_bytes());
    p[24..28].copy_from_slice(&2000u32.to_le_bytes());
    p[28..32].copy_from_slice(b"qwen");
    p[92..92 + prompt.len()].copy_from_slice(prompt);
    p
}

const BAD: Outcome = Outcome { status: InferenceStatus::BadRequest, output_len: 0 };

fn is_bad(r: RequestStep) -> bool {
    matches!(r, RequestStep::Answer { outcome } if outcome == BAD)
}

#[test]
fn requests_go_to_the_proxy() {
    match handle_mapped(&page("hvem?".as_bytes())) {
        RequestStep::AskProxy { model, prompt, result_off, result_max } => {
            assert_eq!((model.as_str(), prompt.as_str()), ("qwen", "hvem?"));
            assert_eq!((result_off, result_max), (2000, 1000));
        }
        RequestStep::Answer { .. } => panic!("proxy"),
    }
    let w = read_wire(&page(b"abc"));
    assert_eq!((w.magic, w.version, w.prompt_len, w.prompt_off), (WIRE_MAGIC, 1, 3, 92));
    assert!(w.is_acceptable());
    assert_eq!(local_backend_run().status, InferenceStatus::NotImplemented);
    assert_eq!(handle_request(0x0000_0007_0000_0009), (9, 7));
}

#[test]
fn malformed_requests_are_refused() {
    assert!(is_bad(dispatch(None)));
    assert!(!is_bad(dispatch(Some(&page(b"x")))));
    assert!(is_bad(handle_mapped(&page(&[0xFF]))));
    for (at, v) in [(0, 1u32), (4, 2), (12, 5000), (16, 4000), (20, 91), (24, 93), (24, u32::MAX)] {
        let mut p = page(b"xyz");
        p[at..at + 4].copy_from_slice(&v.to_le_bytes());
        assert!(is_bad(dispatch(Some(&p))), "offset {}", at);
    }
}

#[test]
fn outcomes_are_written() {
    assert_eq!(
        proxy_outcome(Some((0, 0x1_0000_0005))),
        Outcome { status: InferenceStatus::Success, output_len: 5 }
    );
    assert_eq!(
        proxy_outcome(Some((3, 7))),
        Outcome { status: InferenceStatus::ProxyFailed, output_len: 7 }
    );
    assert_eq!(
        proxy_outcome(None),
        Outcome { status: InferenceStatus::ProxyFailed, output_len: 0 }
    );
    let out = Outcome { status: InferenceStatus::BufferTooSmall, output_len: 258 };
    assert_eq!(outcome_bytes(out), [3, 0, 2, 1, 0, 0]);
    let mut p = page(b"x");
    p[6..12].copy_from_slice(&outcome_bytes(out));
    let w = read_wire(&p);
    assert_eq!((w.status, w.output_len), (out.status.code(), 258));
}

#[test]
fn model_names_end_at_zero() {
    assert_eq!(model_str(b"abc\0def"), "abc");
    assert_eq!(model_str(b"abc"), "abc");
    assert_eq!(model_str(&[0xFF, 0]), "");
}

// File sources

#[test]
fn files_are_looked_for_in_order() {
    assert_eq!(
        read_file(VfsSource::Store, VfsReply::NotFound),
        VfsStep::Ask { source: VfsSource::ModelDisk }
    );
    assert_eq!(
        read_file(VfsSource::ModelDisk, VfsReply::NotFound),
        VfsStep::Ask { source: VfsSource::Ramdisk }
    );
    assert_eq!(
        read_file(VfsSource::Ramdisk, VfsReply::NotFound),
        VfsStep::Fail { error: VfsError::NotFound }
    );
    assert_eq!(
        read_file(VfsSource::Store, VfsReply::Failed { fault: StoreFault::Other { code: 4 } }),
        VfsStep::Fail { error: VfsError::Store { fault: StoreFault::Other { code: 4 } } }
    );
    assert_eq!(read_file(VfsSource::Store, VfsReply::Found { size: 9 }), VfsStep::MapRegion);
    assert_eq!(
        read_file(VfsSource::ModelDisk, VfsReply::Found { size: 0 }),
        VfsStep::DropAndFail { error: VfsError::Store { fault: StoreFault::IpcFailed } }
    );
    assert_eq!(
        read_file(VfsSource::Ramdisk, VfsReply::Found { size: 1 << 40 }),
        VfsStep::Take { len: 4194304 }
    );
    assert_eq!(
        read_file_mapped(VfsSource::ModelDisk, VfsReply::NotFound),
        VfsStep::Fail { error: VfsError::NotFound }
    );
    assert_eq!(
        read_file_mapped(VfsSource::Store, VfsReply::NotFound),
        VfsStep::Ask { source: VfsSource::ModelDisk }
    );
    assert_eq!(read_file_mapped(VfsSource::Store, VfsReply::Found { size: 1 }), VfsStep::MapRegion);
}
