use folkering::prng::Xoshiro256pp;
use folkering::topk::{sample_greedy, top_k};

fn bits(v: &[f32]) -> Vec<u32> {
    v.iter().map(|x| x.to_bits()).collect()
}

#[test]
fn xoshiro_distinct_seeds_diverge() {
    let mut a = Xoshiro256pp::from_seed_u64(1);
    let mut b = Xoshiro256pp::from_seed_u64(2);
    assert_ne!(a.next_u64(), b.next_u64());
}

#[test]
fn next_f32_in_range() {
    let mut r = Xoshiro256pp::from_seed_u64(42);
    for _ in 0..10_000 {
        let v = r.next_u24() as f32 / (1u32 << 24) as f32;
        assert!(v >= 0.0 && v < 1.0, "out of range: {}", v);
    }
}

#[test]
fn top_k_returns_largest() {
    let logits = bits(&[1.0, 5.0, 2.0, 8.0, 3.0, 7.0, 4.0, 6.0]);
    let r = top_k(&logits, 3);
    assert_eq!(r.len(), 3);
    assert_eq!(f32::from_bits(r[0].0), 8.0);
    assert_eq!(f32::from_bits(r[1].0), 7.0);
    assert_eq!(f32::from_bits(r[2].0), 6.0);
}

#[test]
fn sample_t0_is_argmax() {
    let logits = bits(&[1.0, 5.0, 2.0, 8.0, 3.0]);
    assert_eq!(sample_greedy(&logits), 3);
}
