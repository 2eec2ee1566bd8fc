use candle_core::{DType, Device, Tensor};
use rust_llm_inference::backward_pass::shift_for_causal_lm;
use rust_llm_inference::generator::{chat_context, chat_prompt, push_reply, push_user_turn, Decoder};
use rust_llm_inference::kv_cache::KvCache;
use rust_llm_inference::model::causal_mask_visibility;
use rust_llm_inference::sampler::ranked_token_ids;

fn zeros(seq: usize, dev: &Device) -> Tensor {
    Tensor::zeros((1usize, 8usize, seq, 128usize), DType::F32, dev).unwrap()
}

#[test]
fn empty_cache_returns_none() {
    let cache = KvCache::new(4);
    assert!(cache.get(0).is_none());
    assert_eq!(cache.seq_len(), 0);
}

#[test]
fn update_and_get_roundtrip() {
    let dev = Device::Cpu;
    let mut cache = KvCache::new(2);
    let k = zeros(3, &dev);
    let v = zeros(3, &dev);
    cache.update(0, k, v).unwrap();

    let (ck, cv) = cache.get(0).unwrap();
    assert_eq!(ck.dims(), &[1, 8, 3, 128]);
    assert_eq!(cv.dims(), &[1, 8, 3, 128]);
}

#[test]
fn seq_len_reflects_cached_tokens() {
    let dev = Device::Cpu;
    let mut cache = KvCache::new(2);
    cache.update(0, zeros(5, &dev), zeros(5, &dev)).unwrap();
    assert_eq!(cache.seq_len(), 5);
}

#[test]
fn clear_removes_all_layers() {
    let dev = Device::Cpu;
    let mut cache = KvCache::new(2);
    cache.update(0, zeros(1, &dev), zeros(1, &dev)).unwrap();
    cache.update(1, zeros(1, &dev), zeros(1, &dev)).unwrap();
    cache.clear();
    assert!(cache.get(0).is_none());
    assert!(cache.get(1).is_none());
    assert_eq!(cache.seq_len(), 0);
}

#[test]
fn seq_len_reads_first_cached_layer() {
    let dev = Device::Cpu;
    let mut cache = KvCache::new(3);
    cache.update(2, zeros(7, &dev), zeros(7, &dev)).unwrap();
    assert_eq!(cache.seq_len(), 7);
    cache.update(1, zeros(2, &dev), zeros(2, &dev)).unwrap();
    assert_eq!(cache.seq_len(), 2);
    assert!(cache.get(3).is_none());
    let flat = Tensor::zeros((4usize,), DType::F32, &dev).unwrap();
    let mut short = KvCache::new(1);
    short.update(0, flat.clone(), flat).unwrap();
    assert_eq!(short.seq_len(), 0);
}

#[test]
fn causal_mask_shape_no_offset() {
    let mask = causal_mask_visibility(4, 0);
    assert_eq!(mask.len(), 4 * 4);
}

#[test]
fn causal_mask_shape_with_offset() {
    let mask = causal_mask_visibility(1, 4);
    assert_eq!(mask.len(), 1 * 5);
}

#[test]
fn causal_mask_values_lower_triangular() {
    let flat = causal_mask_visibility(4, 0);
    assert!(flat[0]);
    assert!(!flat[1]);
    assert!(flat[3 * 4 + 3]);
    assert!(!flat[2 * 4 + 3]);
}

#[test]
fn causal_mask_with_offset_all_visible() {
    let flat = causal_mask_visibility(1, 3);
    assert!(flat.iter().all(|&v| v), "all positions should be visible");
}

#[test]
fn causal_mask_with_offset_rows() {
    let flat = causal_mask_visibility(2, 1);
    assert_eq!(flat, vec![true, true, false, true, true, true]);
    assert!(causal_mask_visibility(0, 3).is_empty());
}

#[test]
fn chat_prompt_uses_default_system_prompt() {
    let p = chat_prompt("Hi?", None);
    assert_eq!(
        p,
        "<|begin_of_text|><|start_header_id|>system<|end_header_id|>\nYou are a helpful assistant.<|eot_id|><|start_header_id|>user<|end_header_id|>\nHi?<|eot_id|><|start_header_id|>assistant<|end_header_id|>\n"
    );
    let p = chat_prompt("Q", Some("Be brief."));
    assert!(p.contains("system<|end_header_id|>\nBe brief.<|eot_id|>"));
    assert!(p.ends_with("user<|end_header_id|>\nQ<|eot_id|><|start_header_id|>assistant<|end_header_id|>\n"));
}

#[test]
fn decoder_stops_at_end_of_sequence() {
    let mut d = Decoder::new(10, Some(2));
    assert!(d.step(5));
    assert!(d.step(7));
    assert!(!d.step(2));
    assert!(d.finished());
    assert!(!d.step(9));
    assert_eq!(d.generated(), &vec![5, 7]);
    assert_eq!(d.eos(), 2);
}

#[test]
fn decoder_stops_after_budget() {
    let mut d = Decoder::new(2, None);
    assert_eq!(d.eos(), 128001);
    assert!(d.step(1));
    assert!(d.step(1));
    assert!(!d.step(3));
    assert_eq!(d.generated(), &vec![1, 1]);
    let mut z = Decoder::new(0, None);
    assert!(!z.step(4));
    assert!(z.generated().is_empty());
}

#[test]
fn ranked_tokens_largest_first() {
    let logits: Vec<f32> = vec![0.5, 2.0, -1.0, 2.0, 0.0];
    let bits: Vec<u32> = logits.iter().map(|x| x.to_bits()).collect();
    assert_eq!(ranked_token_ids(&bits, 3), vec![1, 3, 0]);
    assert_eq!(ranked_token_ids(&bits, usize::MAX), vec![1, 3, 0, 4, 2]);
}

#[test]
fn shift_trims_one_position() {
    let dev = Device::Cpu;
    let logits = Tensor::randn(0f32, 1f32, (1usize, 6usize, 32usize), &dev).unwrap();
    let labels = Tensor::zeros((1usize, 6usize), DType::U32, &dev).unwrap();
    let (sl, tl) = shift_for_causal_lm(&logits, &labels).unwrap();
    assert_eq!(sl.dims(), &[1, 5, 32]);
    assert_eq!(tl.dims(), &[1, 5]);
}

#[test]
fn shift_pairs_logits_with_next_labels() {
    let dev = Device::Cpu;
    let logits = Tensor::arange(0f32, 12f32, &dev).unwrap().reshape((1usize, 4usize, 3usize)).unwrap();
    let labels = Tensor::new(&[[10u32, 11, 12, 13]], &dev).unwrap();
    let (sl, tl) = shift_for_causal_lm(&logits, &labels).unwrap();
    assert_eq!(sl.layout().start_offset(), logits.layout().start_offset());
    assert_eq!(sl.stride(), logits.stride());
    assert_eq!(tl.layout().start_offset(), labels.layout().start_offset() + labels.stride()[1]);
    assert_eq!(tl.stride(), labels.stride());
    let sl: Vec<Vec<Vec<f32>>> = sl.to_vec3().unwrap();
    assert_eq!(sl[0][0], vec![0.0, 1.0, 2.0]);
    assert_eq!(sl[0][2], vec![6.0, 7.0, 8.0]);
    let tl: Vec<Vec<u32>> = tl.to_vec2().unwrap();
    assert_eq!(tl, vec![vec![11, 12, 13]]);
}

#[test]
fn multi_turn_chat_context() {
    let mut ctx = chat_context("Be brief.");
    assert_eq!(ctx, "<|begin_of_text|><|start_header_id|>system<|end_header_id|>\nBe brief.<|eot_id|>");
    push_user_turn(&mut ctx, "Hi");
    push_reply(&mut ctx, "Hello!");
    push_user_turn(&mut ctx, "Bye");
    assert_eq!(
        ctx,
        "<|begin_of_text|><|start_header_id|>system<|end_header_id|>\nBe brief.<|eot_id|>\
<|start_header_id|>user<|end_header_id|>\nHi<|eot_id|><|start_header_id|>assistant<|end_header_id|>\n\
Hello!<|eot_id|>\
<|start_header_id|>user<|end_header_id|>\nBye<|eot_id|><|start_header_id|>assistant<|end_header_id|>\n"
    );
    let mut one = chat_context("S");
    push_user_turn(&mut one, "U");
    assert_eq!(one, chat_prompt("U", Some("S")));
}

#[test]
fn shift_rejects_empty_or_short_sequences() {
    let dev = Device::Cpu;
    let empty = Tensor::zeros((1usize, 0usize, 4usize), DType::F32, &dev).unwrap();
    let labels = Tensor::zeros((1usize, 0usize), DType::U32, &dev).unwrap();
    assert!(shift_for_causal_lm(&empty, &labels).is_err());
    let logits = Tensor::zeros((1usize, 3usize, 4usize), DType::F32, &dev).unwrap();
    let short = Tensor::zeros((1usize, 2usize), DType::U32, &dev).unwrap();
    assert!(shift_for_causal_lm(&logits, &short).is_err());
    let flat = Tensor::zeros((3usize,), DType::F32, &dev).unwrap();
    assert!(shift_for_causal_lm(&flat, &short).is_err());
    let one = Tensor::zeros((2usize, 1usize, 4usize), DType::F32, &dev).unwrap();
    let one_label = Tensor::zeros((2usize, 1usize), DType::U32, &dev).unwrap();
    let (a, b) = shift_for_causal_lm(&one, &one_label).unwrap();
    assert_eq!(a.dims(), &[2, 0, 4]);
    assert_eq!(b.dims(), &[2, 0]);
}
