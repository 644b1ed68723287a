use sevenz_codecs::brotli_frame::{
    classify_header, frame_header_accepted, HeaderError, InnerReader, ReadPlan, StreamKind,
    BROTLI_MAGIC, BROTLI_ZSTDMT_MAGIC, ZSTDMT_SKIPPABLE_SIZE,
};

fn zstdmt_header(skippable: u32, compressed: u32, magic: u16) -> Vec<u8> {
    let mut h = Vec::new();
    h.extend_from_slice(&BROTLI_ZSTDMT_MAGIC.to_le_bytes());
    h.extend_from_slice(&skippable.to_le_bytes());
    h.extend_from_slice(&compressed.to_le_bytes());
    h.extend_from_slice(&magic.to_le_bytes());
    h.extend_from_slice(&0x0010u16.to_le_bytes());
    h
}

#[test]
fn header_too_short() {
    assert!(matches!(classify_header(&[]), Err(HeaderError::TooShort)));
    assert!(matches!(classify_header(&[0x50, 0x2A, 0x4D]), Err(HeaderError::TooShort)));
    assert_eq!(HeaderError::TooShort.message(), "Input too short");
}

#[test]
fn header_standard_stream() {
    assert!(matches!(classify_header(&[0x0B, 0x02, 0x80, 0x68, 0x65]), Ok(StreamKind::Standard)));
}

#[test]
fn header_zstdmt_magic_without_full_header_is_standard() {
    let h = zstdmt_header(8, 100, BROTLI_MAGIC);
    assert!(matches!(classify_header(&h[..15]), Ok(StreamKind::Standard)));
    assert!(matches!(classify_header(&h[..4]), Ok(StreamKind::Standard)));
}

#[test]
fn header_zstdmt_stream() {
    let h = zstdmt_header(ZSTDMT_SKIPPABLE_SIZE, 0x0001_2345, BROTLI_MAGIC);
    match classify_header(&h) {
        Ok(StreamKind::Zstdmt { compressed_size }) => assert_eq!(compressed_size, 0x0001_2345),
        _ => panic!("expected a zstdmt stream"),
    }
}

#[test]
fn header_zstdmt_bad_skippable_size() {
    let h = zstdmt_header(9, 100, BROTLI_MAGIC);
    assert!(matches!(classify_header(&h), Err(HeaderError::InvalidSkippableSize)));
    assert_eq!(
        HeaderError::InvalidSkippableSize.message(),
        "Invalid zstdmt brotli skippable size"
    );
}

#[test]
fn header_zstdmt_bad_brotli_magic() {
    let h = zstdmt_header(8, 100, 0x4252);
    assert!(matches!(classify_header(&h), Err(HeaderError::InvalidBrotliMagic)));
    assert_eq!(HeaderError::InvalidBrotliMagic.message(), "Invalid zstdmt brotli magic");
}

#[test]
fn standard_reader_replays_header_then_reads() {
    let mut r: InnerReader<()> = InnerReader::new_standard((), vec![1, 2, 3, 4, 5]);
    match r.plan_read(3) {
        ReadPlan::Header(v) => assert_eq!(v, vec![1, 2, 3]),
        _ => panic!("expected header bytes"),
    }
    match r.plan_read(10) {
        ReadPlan::Header(v) => assert_eq!(v, vec![4, 5]),
        _ => panic!("expected header bytes"),
    }
    assert!(matches!(r.plan_read(10), ReadPlan::Reader(10)));
    assert!(matches!(r.plan_read(4), ReadPlan::Reader(4)));
    r.record_read(4);
    assert!(matches!(r.plan_read(2), ReadPlan::Reader(2)));
}

#[test]
fn standard_reader_empty_read_switches_to_reader() {
    let mut r: InnerReader<()> = InnerReader::new_standard((), vec![1, 2]);
    assert!(matches!(r.plan_read(0), ReadPlan::Reader(0)));
    assert!(matches!(r.plan_read(5), ReadPlan::Reader(5)));
}

#[test]
fn zstdmt_reader_walks_frames() {
    let mut r: InnerReader<()> = InnerReader::new_zstdmt((), 5);
    assert!(matches!(r.plan_read(3), ReadPlan::Reader(3)));
    r.record_read(3);
    assert!(matches!(r.plan_read(10), ReadPlan::Reader(2)));
    r.record_read(2);
    assert!(matches!(r.plan_read(10), ReadPlan::FrameHeader));
    r.start_frame(4);
    assert!(matches!(r.plan_read(10), ReadPlan::Reader(4)));
    r.record_read(1);
    assert!(matches!(r.plan_read(10), ReadPlan::Reader(3)));
}

#[test]
fn zstdmt_reader_empty_frame_ends() {
    let mut r: InnerReader<()> = InnerReader::new_zstdmt((), 0);
    assert!(matches!(r.plan_read(10), ReadPlan::End));
    assert!(matches!(r.plan_read(10), ReadPlan::FrameHeader));
}

#[test]
fn zstdmt_reader_zero_length_read() {
    let mut r: InnerReader<()> = InnerReader::new_zstdmt((), 5);
    assert!(matches!(r.plan_read(0), ReadPlan::Reader(0)));
    r.record_read(0);
    assert!(matches!(r.plan_read(1), ReadPlan::Reader(1)));
}

#[test]
fn frame_header_checks() {
    assert!(frame_header_accepted(BROTLI_ZSTDMT_MAGIC, 8, BROTLI_MAGIC));
    assert!(!frame_header_accepted(0x184D_2A51, 8, BROTLI_MAGIC));
    assert!(!frame_header_accepted(BROTLI_ZSTDMT_MAGIC, 7, BROTLI_MAGIC));
    assert!(!frame_header_accepted(BROTLI_ZSTDMT_MAGIC, 8, 0x5243));
}

#[test]
fn standard_reader_hands_on_header_once_in_order() {
    let header = vec![9u8, 8, 7, 6, 5, 4, 3];
    for lens in [vec![1usize; 10], vec![2, 3, 1, 5, 4], vec![16, 1], vec![3, 3, 3, 3]] {
        let mut r: InnerReader<()> = InnerReader::new_standard((), header.clone());
        let mut served = Vec::new();
        let mut went_to_reader = false;
        for len in lens {
            match r.plan_read(len) {
                ReadPlan::Header(v) => {
                    assert!(!went_to_reader);
                    assert!(v.len() <= len);
                    served.extend_from_slice(&v);
                }
                ReadPlan::Reader(k) => {
                    assert_eq!(k, len);
                    went_to_reader = true;
                }
                _ => panic!("a plain stream plans only header or reader reads"),
            }
        }
        assert_eq!(&served[..], &header[..served.len()]);
        if went_to_reader {
            assert_eq!(served, header);
        }
    }
}
