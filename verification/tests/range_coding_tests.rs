use sevenz_codecs::error::Error;
use sevenz_codecs::range_coding::{RangeDecoder, RangeEncoder, K_BOT_VALUE, K_TOP_VALUE};

#[test]
fn decoder_reads_code_big_endian() {
    let d = RangeDecoder::new(vec![0x01, 0x02, 0x03, 0x04, 0x05]).ok().unwrap();
    assert_eq!(d.code, 0x0102_0304);
    assert_eq!(d.range, 0xFFFF_FFFF);
    assert_eq!(d.low, 0);
    assert_eq!(d.pos, 4);
}

#[test]
fn decoder_rejects_short_input() {
    assert!(matches!(RangeDecoder::new(vec![1, 2, 3]), Err(Error::IoError(_))));
    assert!(matches!(RangeDecoder::new(Vec::new()), Err(Error::IoError(_))));
}

#[test]
fn decoder_rejects_all_ones() {
    assert!(matches!(
        RangeDecoder::new(vec![0xFF, 0xFF, 0xFF, 0xFF, 0x00]),
        Err(Error::RangeDecoderInitialization)
    ));
}

#[test]
fn decoder_read_byte_past_end_fails() {
    let mut d = RangeDecoder::new(vec![0, 0, 0, 1, 9]).ok().unwrap();
    assert_eq!(d.read_byte().ok(), Some(9));
    assert!(d.read_byte().is_err());
    assert_eq!(d.pos, 5);
    assert_eq!(d.next_byte(), 0);
}

#[test]
fn encoder_encode_exact() {
    let mut e = RangeEncoder::new(Vec::new());
    e.encode(3, 2, 10);
    let r = 0xFFFF_FFFFu32 / 10;
    assert_eq!(e.range, r * 2);
    assert_eq!(e.low, 3 * r);
    assert!(e.output.is_empty());
}

#[test]
fn encoder_narrow_wraps_and_zero_total() {
    let mut e = RangeEncoder::new(Vec::new());
    e.low = 0xFFFF_FF00;
    e.range = 0x1000;
    e.narrow(1, 3, 4);
    assert_eq!(e.range, 0x400 * 3);
    assert_eq!(e.low, 0xFFFF_FF00u32.wrapping_add(0x400));
    e.narrow(1, 1, 0);
    assert_eq!(e.range, 0);
}

#[test]
fn encoder_flush_writes_low_big_endian() {
    let mut e = RangeEncoder::new(vec![7]);
    e.low = 0xA1B2_C3D4;
    assert!(e.flush().is_ok());
    assert_eq!(e.output, vec![7, 0xA1, 0xB2, 0xC3, 0xD4]);
    assert_eq!(e.low, 0);
}

#[test]
fn encoder_normalize_shifts_agreeing_top_bytes() {
    let mut e = RangeEncoder::new(Vec::new());
    e.low = 0x1234_5678;
    e.range = 0x100;
    e.normalize();
    assert_eq!(e.output, vec![0x12, 0x34]);
    assert_eq!(e.low, 0x5678_0000);
    assert_eq!(e.range, 0x0100_0000);
}

#[test]
fn encoder_normalize_cuts_small_range() {
    let mut e = RangeEncoder::new(Vec::new());
    e.low = 0x00FF_FF00;
    e.range = 0x200;
    e.normalize();
    assert_eq!(e.output, vec![0x00]);
    assert_eq!(e.low, 0xFFFF_0000);
    assert_eq!(e.range, 0x1_0000);
    assert!(e.range >= K_BOT_VALUE);
}

#[test]
fn encoder_normalize_leaves_wide_interval() {
    let mut e = RangeEncoder::new(Vec::new());
    e.normalize();
    assert!(e.output.is_empty());
    assert_eq!(e.range, 0xFFFF_FFFF);
    assert!(K_TOP_VALUE == 1 << 24);
}

#[test]
fn decoder_normalize_follows_encoder() {
    let mut d = RangeDecoder::new(vec![0, 0, 0, 0, 0xAA, 0xBB, 0xCC]).ok().unwrap();
    d.low = 0x1234_5678;
    d.range = 0x100;
    d.code = 0x0000_0011;
    d.normalize();
    assert_eq!(d.low, 0x5678_0000);
    assert_eq!(d.range, 0x0100_0000);
    assert_eq!(d.code, 0x0011_AABB);
    assert_eq!(d.pos, 6);
}

#[test]
fn decoder_normalize_reads_zeros_past_end() {
    let mut d = RangeDecoder::new(vec![0, 0, 0, 0, 0xAA]).ok().unwrap();
    d.low = 0x1234_5678;
    d.range = 0x100;
    d.code = 0x0000_0011;
    d.normalize();
    assert_eq!(d.code, 0x0011_AA00);
    assert_eq!(d.pos, 5);
}

#[test]
fn decoder_decode_moves_code_with_low() {
    let mut d = RangeDecoder::new(vec![0, 0, 0x10, 0, 0]).ok().unwrap();
    d.range = 0x100;
    d.decode(3, 5);
    assert_eq!(d.low, 0x300);
    assert_eq!(d.code, 0x1000 - 0x300);
    assert_eq!(d.range, 0x500);
}

#[test]
fn decode_recovers_encoded_subrange() {
    // the offset 0x150 lies in [1 * 0x100, 3 * 0x100): the threshold is 1
    let range: u32 = 0x1000;
    let total: u32 = 16;
    let r = range / total;
    let code: u32 = 0x150;
    assert_eq!(code / r, 1);
    let mut d = RangeDecoder::new(vec![0, 0, 0x01, 0x50]).ok().unwrap();
    d.range = r;
    d.decode(1, 2);
    assert!(d.code < d.range);
}

fn coding_steps(n: usize, seed: u32) -> Vec<(u32, u32, u32)> {
    let mut x = seed;
    let mut steps = Vec::new();
    for _ in 0..n {
        x = x.wrapping_mul(1103515245).wrapping_add(12345);
        let total = 2 + (x >> 16) % 500;
        x = x.wrapping_mul(1103515245).wrapping_add(12345);
        let start = (x >> 16) % total;
        x = x.wrapping_mul(1103515245).wrapping_add(12345);
        let size = 1 + (x >> 16) % (total - start);
        steps.push((start, size, total));
    }
    steps
}

#[test]
fn range_coder_roundtrip_finds_every_step() {
    for seed in 1..20u32 {
        let steps = coding_steps(300, seed);
        let mut e = RangeEncoder::new(Vec::new());
        for &(start, size, total) in &steps {
            assert!(total <= e.range);
            e.narrow(start, size, total);
            e.normalize();
        }
        assert!(e.flush().is_ok());
        let bytes = e.output.clone();
        let mut d = RangeDecoder::new(bytes).ok().unwrap();
        for &(start, size, total) in &steps {
            d.range /= total;
            let threshold = d.code / d.range;
            assert!(start <= threshold && threshold < start + size);
            d.decode(start, size);
            d.normalize();
        }
    }
}
