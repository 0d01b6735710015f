use capabilities::model_table::{decode_token_bytes, parse_model_layout};

fn push_f32(b: &mut Vec<u8>, n: usize, val: f32) {
    for _ in 0..n {
        b.extend_from_slice(&val.to_le_bytes());
    }
}

fn push_f32_pattern(b: &mut Vec<u8>, n: usize) {
    for i in 0..n {
        let v = 0.01 * ((i % 7) as f32 - 3.0);
        b.extend_from_slice(&v.to_le_bytes());
    }
}

fn push_quant(b: &mut Vec<u8>, rows: usize, cols: usize) {
    b.extend_from_slice(&0.02f32.to_le_bytes());
    for i in 0..rows * cols {
        b.push(((i % 5) as i32 - 2) as i8 as u8);
    }
}

fn fixture_bin() -> Vec<u8> {
    let n_mels = 4usize;
    let n_mel_bins = 5usize;
    let n_audio_ctx = 1500usize;
    let n_audio_state = 8usize;
    let n_audio_head = 2usize;
    let n_audio_layer = 1usize;
    let base_vocab = 6usize;
    let n_vocab = base_vocab + 6;
    let n_text_ctx = 16usize;
    let n_text_state = 8usize;
    let n_text_head = 2usize;
    let n_text_layer = 1usize;

    let sot = base_vocab as u32;
    let eot = base_vocab as u32 + 1;
    let lang_en = base_vocab as u32 + 2;
    let task_transcribe = base_vocab as u32 + 3;
    let no_timestamps = base_vocab as u32 + 4;

    let mut b: Vec<u8> = Vec::new();
    b.extend_from_slice(b"WHSP1");
    for v in [
        1u32,
        n_mels as u32,
        n_mel_bins as u32,
        n_audio_ctx as u32,
        n_audio_state as u32,
        n_audio_head as u32,
        n_audio_layer as u32,
        n_vocab as u32,
        base_vocab as u32,
        n_text_ctx as u32,
        n_text_state as u32,
        n_text_head as u32,
        n_text_layer as u32,
        0,
    ] {
        b.extend_from_slice(&v.to_le_bytes());
    }
    for v in [sot, eot, lang_en, task_transcribe, no_timestamps] {
        b.extend_from_slice(&v.to_le_bytes());
    }

    push_f32_pattern(&mut b, n_mels * n_mel_bins);
    push_f32_pattern(&mut b, n_audio_state * n_mels * 3);
    push_f32(&mut b, n_audio_state, 0.0);
    push_f32_pattern(&mut b, n_audio_state * n_audio_state * 3);
    push_f32(&mut b, n_audio_state, 0.0);

    for _ in 0..n_audio_layer {
        push_quant(&mut b, n_audio_state, n_audio_state);
        push_quant(&mut b, n_audio_state, n_audio_state);
        push_quant(&mut b, n_audio_state, n_audio_state);
        push_quant(&mut b, n_audio_state, n_audio_state);
        push_quant(&mut b, n_audio_state, n_audio_state * 4);
        push_quant(&mut b, n_audio_state * 4, n_audio_state);
        push_f32(&mut b, n_audio_state, 0.0);
        push_f32(&mut b, n_audio_state, 0.0);
        push_f32(&mut b, n_audio_state, 0.0);
        push_f32(&mut b, n_audio_state, 1.0);
        push_f32(&mut b, n_audio_state, 0.0);
        push_f32(&mut b, n_audio_state * 4, 0.0);
        push_f32(&mut b, n_audio_state, 0.0);
        push_f32(&mut b, n_audio_state, 1.0);
        push_f32(&mut b, n_audio_state, 0.0);
    }
    push_f32(&mut b, n_audio_state, 1.0);
    push_f32(&mut b, n_audio_state, 0.0);

    push_quant(&mut b, n_vocab, n_text_state);
    push_f32_pattern(&mut b, n_text_ctx * n_text_state);

    for _ in 0..n_text_layer {
        for _ in 0..4 {
            push_quant(&mut b, n_text_state, n_text_state);
        }
        for _ in 0..4 {
            push_quant(&mut b, n_text_state, n_text_state);
        }
        push_quant(&mut b, n_text_state, n_text_state * 4);
        push_quant(&mut b, n_text_state * 4, n_text_state);
        for _ in 0..10 {
            push_f32(&mut b, n_text_state, 0.0);
        }
        push_f32(&mut b, n_text_state * 4, 0.0);
        push_f32(&mut b, n_text_state, 0.0);
        push_f32(&mut b, n_text_state, 1.0);
        push_f32(&mut b, n_text_state, 0.0);
    }
    push_f32(&mut b, n_text_state, 1.0);
    push_f32(&mut b, n_text_state, 0.0);

    b.extend(std::iter::repeat(1u8).take(base_vocab));
    for c in 0..base_vocab {
        b.push(b'a' + c as u8);
    }
    b
}

#[test]
fn parses_fixture_header_and_dims() {
    let bin = fixture_bin();
    let m = parse_model_layout(&bin).expect("fixture should parse");
    assert_eq!(m.dims[1], 4);
    assert_eq!(m.dims[3], 1500);
    assert_eq!(m.dims[4], 8);
    assert_eq!(m.dims[6], 1);
    assert_eq!(m.dims[12], 1);
    assert_eq!(m.dims[8], 6);
    assert_eq!(m.tokens[1], 7);
}

#[test]
fn malformed_table_returns_none_not_panic() {
    assert!(parse_model_layout(&[]).is_none());
    assert!(parse_model_layout(b"nope").is_none());
    assert!(parse_model_layout(b"WHSP1").is_none());
}

#[test]
fn model_table_places_every_tensor_in_order() {
    let bin = fixture_bin();
    let m = parse_model_layout(&bin).unwrap();
    // 5 front tensors, 15 per encoder layer, 4 middle, 24 per decoder layer, 2 final.
    assert_eq!(m.tensors.len(), 5 + 15 + 4 + 24 + 2);
    assert_eq!(m.tensors[0], (81, 4 * 4 * 5));
    // the first quantized matrix of the encoder: a scale and 8 * 8 entries
    assert_eq!(m.tensors[5].1, 4 + 64);
    let mut at = 81usize;
    for &(off, size) in &m.tensors {
        assert_eq!(off, at);
        at += size;
    }
    assert_eq!(m.vocab_lens, (at, 6));
    assert_eq!(m.vocab_bytes, (at + 6, 6));
    assert_eq!(at + 12, bin.len());
}

#[test]
fn model_table_truncated_anywhere_has_no_layout() {
    let bin = fixture_bin();
    for cut in [81usize, 100, bin.len() / 2, bin.len() - 7, bin.len() - 1] {
        assert!(parse_model_layout(&bin[..cut]).is_none());
    }
    let mut wrong = bin.clone();
    wrong[4] = b'2';
    assert!(parse_model_layout(&wrong).is_none());
}

#[test]
fn decode_token_bytes_concatenates_correctly() {
    let bin = fixture_bin();
    let m = parse_model_layout(&bin).unwrap();
    let mut out = Vec::new();
    decode_token_bytes(&bin, &m, 0, &mut out);
    decode_token_bytes(&bin, &m, 2, &mut out);
    assert_eq!(out, vec![b'a', b'c']);
}

#[test]
fn decode_token_bytes_ignores_special_ids() {
    let bin = fixture_bin();
    let m = parse_model_layout(&bin).unwrap();
    let mut out = Vec::new();
    decode_token_bytes(&bin, &m, m.tokens[0], &mut out);
    assert!(out.is_empty());
}
