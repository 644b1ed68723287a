use sevenz_codecs::le_bytes::{read_le_u16, read_le_u32};
use sevenz_codecs::lzma::{
    buffer_write, check_res, clamp_dict_size, lzma2_get_memory_usage, lzma_dest_capacity,
    lzma_stream_bytes, props_byte, res_to_error, Lzma2Options, LzmaErrorKind, LzmaOptions,
    DICT_SIZE_MAX, DICT_SIZE_MIN, SZ_ERROR_ARCHIVE, SZ_ERROR_CRC, SZ_ERROR_DATA, SZ_ERROR_FAIL,
    SZ_ERROR_INPUT_EOF, SZ_ERROR_MEM, SZ_ERROR_NO_ARCHIVE, SZ_ERROR_OUTPUT_EOF, SZ_ERROR_PARAM,
    SZ_ERROR_PROGRESS, SZ_ERROR_READ, SZ_ERROR_THREAD, SZ_ERROR_UNSUPPORTED, SZ_ERROR_WRITE,
    SZ_OK,
};
use sevenz_codecs::error::RestoreMethod;

#[test]
fn memory_usage_formula() {
    assert_eq!(lzma2_get_memory_usage(1 << 20), 1572);
    assert_eq!(lzma2_get_memory_usage(0), 36);
    assert_eq!(lzma2_get_memory_usage(u32::MAX), 6291491);
    assert_eq!(lzma2_get_memory_usage(64 << 20), 98340);
}

#[test]
fn dict_size_is_clamped() {
    assert_eq!(clamp_dict_size(100), DICT_SIZE_MIN);
    assert_eq!(clamp_dict_size(u32::MAX), DICT_SIZE_MAX);
    assert_eq!(clamp_dict_size(1 << 20), 1 << 20);
    let mut o = LzmaOptions::with_preset(6);
    o.set_dict_size(1);
    assert_eq!(o.dict_size, 4096);
    assert_eq!(o.level, 6);
}

#[test]
fn presets_cap_at_nine() {
    assert_eq!(LzmaOptions::with_preset(12).level, 9);
    assert_eq!(LzmaOptions::with_preset(0).level, 0);
    let o = Lzma2Options::with_preset(7);
    assert_eq!(o.lzma.level, 7);
    assert_eq!(o.block_size, 0);
    assert_eq!(o.num_total_threads, -1);
    assert_eq!(o.lzma_options().level, 7);
}

#[test]
fn lzma2_setters() {
    let mut o = Lzma2Options::with_preset(5);
    o.set_chunk_size(Some(1 << 21));
    assert_eq!(o.block_size, 1 << 21);
    o.set_chunk_size(None);
    assert_eq!(o.block_size, 0);
    o.set_num_threads(4);
    assert_eq!(o.num_total_threads, 4);
    o.set_dict_size(0xFFFF_FFFF);
    assert_eq!(o.lzma.dict_size, DICT_SIZE_MAX);
}

#[test]
fn props_byte_formula() {
    assert_eq!(props_byte(3, 0, 2), 93);
    assert_eq!(props_byte(0, 0, 0), 0);
    assert_eq!(props_byte(-1, -5, -2), 0);
    assert_eq!(props_byte(8, 4, 4), 224);
}

#[test]
fn status_codes_map_to_errors() {
    assert!(check_res(SZ_OK).is_ok());
    let cases = [
        (SZ_ERROR_DATA, LzmaErrorKind::InvalidData, "LZMA: data error"),
        (SZ_ERROR_MEM, LzmaErrorKind::OutOfMemory, "LZMA: out of memory"),
        (SZ_ERROR_CRC, LzmaErrorKind::InvalidData, "LZMA: CRC error"),
        (SZ_ERROR_UNSUPPORTED, LzmaErrorKind::Unsupported, "LZMA: unsupported"),
        (SZ_ERROR_PARAM, LzmaErrorKind::InvalidInput, "LZMA: invalid parameter"),
        (SZ_ERROR_INPUT_EOF, LzmaErrorKind::UnexpectedEof, "LZMA: unexpected end of input"),
        (SZ_ERROR_OUTPUT_EOF, LzmaErrorKind::WriteZero, "LZMA: output buffer not large enough"),
        (SZ_ERROR_READ, LzmaErrorKind::Other, "LZMA: read error"),
        (SZ_ERROR_WRITE, LzmaErrorKind::Other, "LZMA: write error"),
        (SZ_ERROR_PROGRESS, LzmaErrorKind::Other, "LZMA: progress error"),
        (SZ_ERROR_FAIL, LzmaErrorKind::Other, "LZMA: operation failed"),
        (SZ_ERROR_THREAD, LzmaErrorKind::Other, "LZMA: thread error"),
        (SZ_ERROR_ARCHIVE, LzmaErrorKind::InvalidData, "LZMA: archive error"),
        (SZ_ERROR_NO_ARCHIVE, LzmaErrorKind::InvalidData, "LZMA: not an archive"),
        (13, LzmaErrorKind::Other, "LZMA: unknown error"),
        (-1, LzmaErrorKind::Other, "LZMA: unknown error"),
    ];
    for (res, kind, msg) in cases {
        let e = res_to_error(res);
        assert_eq!(e.kind, kind);
        assert_eq!(e.message, msg);
        match check_res(res) {
            Err(e) => {
                assert_eq!(e.kind, kind);
                assert_eq!(e.message, msg);
            }
            Ok(()) => panic!("status {} must fail", res),
        }
    }
}

#[test]
fn buffer_write_appends() {
    let mut b = vec![1u8];
    assert_eq!(buffer_write(&mut b, &[2, 3]), 2);
    assert_eq!(buffer_write(&mut b, &[]), 0);
    assert_eq!(b, vec![1, 2, 3]);
}

#[test]
fn dest_capacity_formula() {
    assert_eq!(lzma_dest_capacity(800), 1924);
    assert_eq!(lzma_dest_capacity(0), 1024);
}

#[test]
fn stream_bytes_layout() {
    let props = [0x5D, 0x00, 0x00, 0x01, 0x00];
    let dest = [0xAA, 0xBB];
    let with = lzma_stream_bytes(&props, 0x0102, &dest, true);
    assert_eq!(
        with,
        vec![0x5D, 0, 0, 1, 0, 0x02, 0x01, 0, 0, 0, 0, 0, 0, 0xAA, 0xBB]
    );
    let without = lzma_stream_bytes(&props, 0x0102, &dest, false);
    assert_eq!(without, vec![0xAA, 0xBB]);
}

#[test]
fn little_endian_readers() {
    assert_eq!(read_le_u32(&[0x50, 0x2A, 0x4D, 0x18, 0xFF]), 0x184D_2A50);
    assert_eq!(read_le_u16(&[0x42, 0x52]), 0x5242);
}

#[test]
fn restore_method_codes() {
    assert_eq!(RestoreMethod::Restart.code(), 0);
    assert_eq!(RestoreMethod::CutOff.code(), 1);
}
