use sevenz_codecs::decoder_8::Ppmd8Decoder;
use sevenz_codecs::encoder_8::Ppmd8Encoder;
use sevenz_codecs::error::{Error, RestoreMethod};

const ORDER: u32 = 8;
const MEM_SIZE: u32 = 262144;
const RESTORE_METHOD: RestoreMethod = RestoreMethod::Restart;

fn encode(data: &[u8], order: u32, mem: u32, rm: RestoreMethod) -> Vec<u8> {
    let mut encoder = Ppmd8Encoder::new(order, mem, rm).ok().unwrap();
    assert_eq!(encoder.write(data), data.len());
    encoder.flush();
    encoder.take_output()
}

fn decode(data: Vec<u8>, len: usize, order: u32, mem: u32, rm: RestoreMethod) -> Vec<u8> {
    let mut decoder = Ppmd8Decoder::new(data, order, mem, rm).ok().unwrap();
    decoder.read(len).ok().unwrap()
}

#[test]
fn ppmd8encoder_init_drop() {
    let encoder = Ppmd8Encoder::new(ORDER, MEM_SIZE, RESTORE_METHOD);
    assert!(encoder.is_ok());
}

#[test]
fn ppmd8encoder_encode_decode() {
    let test_data = "Lorem ipsum dolor sit amet. ";

    let writer = encode(test_data.as_bytes(), ORDER, MEM_SIZE, RESTORE_METHOD);

    let decoded = decode(writer, test_data.len(), ORDER, MEM_SIZE, RESTORE_METHOD);

    assert_eq!(decoded.as_slice(), test_data.as_bytes());

    let decoded_data = String::from_utf8(decoded).unwrap();

    assert_eq!(decoded_data, test_data);
}

fn pseudo_random(n: usize, seed: u32) -> Vec<u8> {
    let mut x: u32 = seed;
    let mut v = Vec::with_capacity(n);
    for _ in 0..n {
        x = x.wrapping_mul(1103515245).wrapping_add(12345);
        v.push((x >> 16) as u8);
    }
    v
}

fn text_like(n: usize) -> Vec<u8> {
    let words = ["the ", "quick ", "brown ", "fox ", "jumps ", "over ", "lazy ", "dog ", "\n", "PPMd ", "model "];
    let mut v = Vec::new();
    let mut x: u32 = 7;
    while v.len() < n {
        x = x.wrapping_mul(1103515245).wrapping_add(12345);
        v.extend_from_slice(words[((x >> 16) as usize) % words.len()].as_bytes());
    }
    v.truncate(n);
    v
}

fn roundtrip(data: &[u8], order: u32, mem: u32, rm: RestoreMethod) {
    let enc = encode(data, order, mem, rm);
    let dec = decode(enc, data.len(), order, mem, rm);
    assert_eq!(dec, data);
}

#[test]
fn roundtrip_text_orders() {
    let data = text_like(20000);
    for order in [2u32, 4, 6, 8, 16] {
        roundtrip(&data, order, MEM_SIZE, RestoreMethod::Restart);
    }
}

#[test]
fn roundtrip_random_bytes() {
    let data = pseudo_random(20000, 1);
    roundtrip(&data, 6, MEM_SIZE, RestoreMethod::Restart);
}

#[test]
fn roundtrip_small_memory_restart() {
    let mut data = text_like(30000);
    data.extend(pseudo_random(30000, 5));
    roundtrip(&data, 8, 1 << 14, RestoreMethod::Restart);
}

#[test]
fn roundtrip_small_memory_cut_off() {
    let mut data = text_like(30000);
    data.extend(pseudo_random(30000, 9));
    data.extend(text_like(30000));
    roundtrip(&data, 8, 1 << 14, RestoreMethod::CutOff);
}

#[test]
fn text_compresses() {
    let data = text_like(20000);
    let enc = encode(&data, 6, MEM_SIZE, RestoreMethod::Restart);
    assert!(enc.len() < data.len() / 2);
}

#[test]
fn encoder_rejects_bad_order() {
    assert!(matches!(Ppmd8Encoder::new(1, MEM_SIZE, RESTORE_METHOD), Err(Error::InvalidParameter)));
    assert!(matches!(Ppmd8Encoder::new(17, MEM_SIZE, RESTORE_METHOD), Err(Error::InvalidParameter)));
    assert!(Ppmd8Encoder::new(2, MEM_SIZE, RESTORE_METHOD).is_ok());
    assert!(Ppmd8Encoder::new(16, MEM_SIZE, RESTORE_METHOD).is_ok());
}

#[test]
fn decoder_rejects_bad_input() {
    assert!(matches!(
        Ppmd8Decoder::new(vec![1, 2, 3], ORDER, MEM_SIZE, RESTORE_METHOD),
        Err(Error::IoError(_))
    ));
    assert!(matches!(
        Ppmd8Decoder::new(vec![0xFF, 0xFF, 0xFF, 0xFF, 0], ORDER, MEM_SIZE, RESTORE_METHOD),
        Err(Error::RangeDecoderInitialization)
    ));
    assert!(matches!(
        Ppmd8Decoder::new(vec![0, 0, 0, 0], 0, MEM_SIZE, RESTORE_METHOD),
        Err(Error::InvalidParameter)
    ));
}

#[test]
fn empty_input_flushes_four_bytes() {
    let enc = encode(&[], ORDER, MEM_SIZE, RESTORE_METHOD);
    assert_eq!(enc, vec![0, 0, 0, 0]);
}

#[test]
fn decoder_reports_invalid_data() {
    let mut errors = 0;
    for seed in 1..200u32 {
        let mut input = pseudo_random(64, seed);
        input[0] = 0;
        let mut decoder = Ppmd8Decoder::new(input, 2, 1 << 16, RESTORE_METHOD).ok().unwrap();
        match decoder.read(100_000) {
            Err(Error::InternalError(msg)) => {
                assert_eq!(msg, "Invalid PPMd8 data");
                errors += 1;
            }
            Err(_) => panic!("only InternalError is reported"),
            Ok(v) => assert!(v.len() <= 100_000),
        }
    }
    assert!(errors > 0);
}

#[test]
fn fresh_encoder_first_symbol_one() {
    assert_eq!(encode(&[1], 6, 1 << 20, RestoreMethod::Restart), vec![0x00, 0xFF, 0x00, 0xFF]);
}

#[test]
fn fresh_encoder_first_symbol_zero() {
    assert_eq!(encode(&[0], 6, 1 << 20, RestoreMethod::Restart), vec![0, 0, 0, 0, 0]);
}

#[test]
fn fresh_encoder_first_symbol_last() {
    // 255 * 0x00FF00FF = 0xFE01_FE01, nothing shifted out before the flush.
    assert_eq!(encode(&[255], 6, 1 << 20, RestoreMethod::Restart), vec![0xFE, 0x01, 0xFE, 0x01]);
}

#[test]
fn fresh_decoder_first_symbol() {
    let cases: [([u8; 4], i32); 4] = [
        ([0x00, 0xFF, 0x00, 0xFF], 1),
        ([0xFF, 0x00, 0x00, 0x00], 255),
        ([0x00, 0x00, 0x00, 0x00], 0),
        ([0xFF, 0x00, 0xFF, 0x00], -1),
    ];
    for (bytes, expected) in cases.iter() {
        let mut input = bytes.to_vec();
        input.extend_from_slice(&[0, 0, 0, 0]);
        let mut decoder = Ppmd8Decoder::new(input, 6, 1 << 20, RestoreMethod::Restart).ok().unwrap();
        assert_eq!(decoder.decode_symbol(), *expected);
    }
}

#[test]
fn first_symbol_roundtrip_every_byte() {
    for x in 0..=255u8 {
        let bytes = encode(&[x], 6, 1 << 20, RestoreMethod::Restart);
        let mut decoder = Ppmd8Decoder::new(bytes, 6, 1 << 20, RestoreMethod::Restart).ok().unwrap();
        assert_eq!(decoder.decode_symbol(), x as i32);
    }
}


#[test]
fn error_messages() {
    assert_eq!(Error::InvalidParameter.message(), "Wrong PPMd parameter");
    assert_eq!(Error::RangeDecoderInitialization.message(), "Could not initialize the range decoder");
    assert_eq!(Error::InternalError("Failed to allocate memory").message(), "Internal error: Failed to allocate memory");
    let io = Error::IoError(std::io::Error::from(std::io::ErrorKind::UnexpectedEof));
    let text = std::io::Error::from(std::io::ErrorKind::UnexpectedEof).to_string();
    assert_eq!(io.message(), format!("Io error: {text}"));
}
