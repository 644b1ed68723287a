//! The computations around the LZMA and LZMA2 encoders of LZMA-SDK: encoder
//! properties as plain values, the properties byte, the decoder's memory
//! estimate, the meaning of the SDK's status codes, and the layout of the
//! bytes an LZMA writer emits.

use vstd::prelude::*;

verus! {

/// The smallest dictionary size accepted (4 KiB).
pub const DICT_SIZE_MIN: u32 = 0x1000;

/// The largest dictionary size accepted (~4 GiB).
pub const DICT_SIZE_MAX: u32 = 0xFFFF_FFF0;

/// Estimate of the LZMA2 decoder's memory use in KiB for a dictionary size:
/// `(dict + dict / 2 + 36 KiB) / 1024`.
pub fn lzma2_get_memory_usage(dict_size: u32) -> (r: u64)
    ensures
        r == (dict_size + dict_size / 2 + 36 * 1024) / 1024,
{
    let dict: u64 = dict_size as u64;
    (dict + dict / 2 + 36 * 1024) / 1024
}

/// `v` limited to `DICT_SIZE_MIN..=DICT_SIZE_MAX`.
pub open spec fn spec_clamp_dict_size(v: u32) -> u32 {
    if v < DICT_SIZE_MIN {
        DICT_SIZE_MIN
    } else if v > DICT_SIZE_MAX {
        DICT_SIZE_MAX
    } else {
        v
    }
}

/// Clamping keeps a size inside 4 KiB..=0xFFFF_FFF0 as it is, raises a smaller one
/// to 4 KiB and lowers a larger one to 0xFFFF_FFF0; its result is always in that range.
pub proof fn law_clamp_dict_size(v: u32)
    ensures
        4096 <= spec_clamp_dict_size(v) <= 0xFFFF_FFF0,
        4096 <= v <= 0xFFFF_FFF0 ==> spec_clamp_dict_size(v) == v,
        v < 4096 ==> spec_clamp_dict_size(v) == 4096,
        v > 0xFFFF_FFF0 ==> spec_clamp_dict_size(v) == 0xFFFF_FFF0,
{
}

/// `v` limited to `DICT_SIZE_MIN..=DICT_SIZE_MAX`.
pub fn clamp_dict_size(v: u32) -> (r: u32)
    ensures
        r == spec_clamp_dict_size(v),
        4096 <= r <= 0xFFFF_FFF0,
        4096 <= v <= 0xFFFF_FFF0 ==> r == v,
        v < 4096 ==> r == 4096,
        v > 0xFFFF_FFF0 ==> r == 0xFFFF_FFF0,
{
    if v < DICT_SIZE_MIN {
        DICT_SIZE_MIN
    } else if v > DICT_SIZE_MAX {
        DICT_SIZE_MAX
    } else {
        v
    }
}

/// LZMA encoder properties that the library sets; every other property keeps the
/// value that LZMA-SDK's `LzmaEncProps_Init` gives it. A `dict_size` of 0 leaves the
/// dictionary size to the compression level.
#[derive(Copy, Clone)]
pub struct LzmaOptions {
    pub level: i32,
    pub dict_size: u32,
}

impl LzmaOptions {
    /// The properties of compression level `level`, capped at 9.
    pub fn with_preset(level: u32) -> (r: Self)
        ensures
            r.level == (if level < 9 { level } else { 9 }),
            r.dict_size == 0,
    {
        let l: u32 = if level < 9 { level } else { 9 };
        LzmaOptions { level: l as i32, dict_size: 0 }
    }

    /// Sets the dictionary size, limited to `DICT_SIZE_MIN..=DICT_SIZE_MAX`.
    pub fn set_dict_size(&mut self, dict_size: u32)
        ensures
            final(self).dict_size == spec_clamp_dict_size(dict_size),
            4096 <= dict_size <= 0xFFFF_FFF0 ==> final(self).dict_size == dict_size,
            final(self).level == old(self).level,
    {
        self.dict_size = clamp_dict_size(dict_size);
    }
}

/// LZMA2 encoder properties that the library sets; every other property keeps the
/// value that LZMA-SDK's `Lzma2EncProps_Init` gives it.
#[derive(Copy, Clone)]
pub struct Lzma2Options {
    pub lzma: LzmaOptions,
    pub block_size: u64,
    pub num_total_threads: i32,
}

impl Lzma2Options {
    /// The properties of compression level `level`, capped at 9, with the block size
    /// and the thread count left to the encoder (0 and -1).
    pub fn with_preset(level: u32) -> (r: Self)
        ensures
            r.lzma.level == (if level < 9 { level } else { 9 }),
            r.lzma.dict_size == 0,
            r.block_size == 0,
            r.num_total_threads == -1,
    {
        Lzma2Options { lzma: LzmaOptions::with_preset(level), block_size: 0, num_total_threads: -1 }
    }

    /// The LZMA properties inside these LZMA2 properties.
    pub fn lzma_options(&self) -> (r: LzmaOptions)
        ensures
            r == self.lzma,
    {
        self.lzma
    }

    /// Sets the dictionary size, limited to `DICT_SIZE_MIN..=DICT_SIZE_MAX`.
    pub fn set_dict_size(&mut self, dict_size: u32)
        ensures
            final(self).lzma.dict_size == spec_clamp_dict_size(dict_size),
            4096 <= dict_size <= 0xFFFF_FFF0 ==> final(self).lzma.dict_size == dict_size,
            final(self).lzma.level == old(self).lzma.level,
            final(self).block_size == old(self).block_size,
            final(self).num_total_threads == old(self).num_total_threads,
    {
        self.lzma.dict_size = clamp_dict_size(dict_size);
    }

    /// Sets the chunk (block) size; `None` gives 0, which lets the encoder choose.
    pub fn set_chunk_size(&mut self, chunk_size: Option<u64>)
        ensures
            final(self).block_size == (match chunk_size {
                Some(size) => size,
                None => 0,
            }),
            final(self).lzma == old(self).lzma,
            final(self).num_total_threads == old(self).num_total_threads,
    {
        match chunk_size {
            Some(size) => self.block_size = size,
            None => self.block_size = 0,
        }
    }

    /// Sets the total number of encoder threads.
    pub fn set_num_threads(&mut self, threads: i32)
        ensures
            final(self).num_total_threads == threads,
            final(self).lzma == old(self).lzma,
            final(self).block_size == old(self).block_size,
    {
        self.num_total_threads = threads;
    }
}

/// A property taken as a byte, as `x.max(0) as u8` does.
pub open spec fn prop_byte(x: i32) -> u8 {
    if x < 0 { 0 } else { x as u8 }
}

/// The LZMA properties byte `(pb * 5 + lp) * 9 + lc` of normalised properties.
pub open spec fn spec_props_byte(lc: i32, lp: i32, pb: i32) -> int {
    (prop_byte(pb) * 5 + prop_byte(lp)) * 9 + prop_byte(lc)
}

/// The LZMA properties byte `(pb * 5 + lp) * 9 + lc` of normalised properties, each
/// negative property counting as 0; the byte arithmetic must not overflow.
pub fn props_byte(lc: i32, lp: i32, pb: i32) -> (r: u8)
    requires
        spec_props_byte(lc, lp, pb) <= 255,
    ensures
        r == spec_props_byte(lc, lp, pb),
{
    let lc8: u8 = if lc < 0 { 0 } else { lc as u8 };
    let lp8: u8 = if lp < 0 { 0 } else { lp as u8 };
    let pb8: u8 = if pb < 0 { 0 } else { pb as u8 };
    (pb8 * 5 + lp8) * 9 + lc8
}

/// LZMA-SDK's status codes.
pub const SZ_OK: i32 = 0;
pub const SZ_ERROR_DATA: i32 = 1;
pub const SZ_ERROR_MEM: i32 = 2;
pub const SZ_ERROR_CRC: i32 = 3;
pub const SZ_ERROR_UNSUPPORTED: i32 = 4;
pub const SZ_ERROR_PARAM: i32 = 5;
pub const SZ_ERROR_INPUT_EOF: i32 = 6;
pub const SZ_ERROR_OUTPUT_EOF: i32 = 7;
pub const SZ_ERROR_READ: i32 = 8;
pub const SZ_ERROR_WRITE: i32 = 9;
pub const SZ_ERROR_PROGRESS: i32 = 10;
pub const SZ_ERROR_FAIL: i32 = 11;
pub const SZ_ERROR_THREAD: i32 = 12;
pub const SZ_ERROR_ARCHIVE: i32 = 16;
pub const SZ_ERROR_NO_ARCHIVE: i32 = 17;

/// The kind of I/O error that an LZMA-SDK status stands for.
#[derive(Copy, Clone, Debug, PartialEq, Eq, Structural)]
pub enum LzmaErrorKind {
    InvalidData,
    OutOfMemory,
    Unsupported,
    InvalidInput,
    UnexpectedEof,
    WriteZero,
    Other,
}

/// An LZMA-SDK failure: the I/O error kind and message it is reported with.
#[derive(Copy, Clone)]
pub struct LzmaError {
    pub kind: LzmaErrorKind,
    pub message: &'static str,
}

/// The error kind that status `res` is reported with.
pub open spec fn spec_error_kind(res: i32) -> LzmaErrorKind {
    if res == SZ_ERROR_DATA || res == SZ_ERROR_CRC || res == SZ_ERROR_ARCHIVE || res
        == SZ_ERROR_NO_ARCHIVE {
        LzmaErrorKind::InvalidData
    } else if res == SZ_ERROR_MEM {
        LzmaErrorKind::OutOfMemory
    } else if res == SZ_ERROR_UNSUPPORTED {
        LzmaErrorKind::Unsupported
    } else if res == SZ_ERROR_PARAM {
        LzmaErrorKind::InvalidInput
    } else if res == SZ_ERROR_INPUT_EOF {
        LzmaErrorKind::UnexpectedEof
    } else if res == SZ_ERROR_OUTPUT_EOF {
        LzmaErrorKind::WriteZero
    } else {
        LzmaErrorKind::Other
    }
}

/// The message that status `res` is reported with.
pub open spec fn spec_error_message(res: i32) -> Seq<char> {
    if res == SZ_ERROR_DATA {
        "LZMA: data error"@
    } else if res == SZ_ERROR_MEM {
        "LZMA: out of memory"@
    } else if res == SZ_ERROR_CRC {
        "LZMA: CRC error"@
    } else if res == SZ_ERROR_UNSUPPORTED {
        "LZMA: unsupported"@
    } else if res == SZ_ERROR_PARAM {
        "LZMA: invalid parameter"@
    } else if res == SZ_ERROR_INPUT_EOF {
        "LZMA: unexpected end of input"@
    } else if res == SZ_ERROR_OUTPUT_EOF {
        "LZMA: output buffer not large enough"@
    } else if res == SZ_ERROR_READ {
        "LZMA: read error"@
    } else if res == SZ_ERROR_WRITE {
        "LZMA: write error"@
    } else if res == SZ_ERROR_PROGRESS {
        "LZMA: progress error"@
    } else if res == SZ_ERROR_FAIL {
        "LZMA: operation failed"@
    } else if res == SZ_ERROR_THREAD {
        "LZMA: thread error"@
    } else if res == SZ_ERROR_ARCHIVE {
        "LZMA: archive error"@
    } else if res == SZ_ERROR_NO_ARCHIVE {
        "LZMA: not an archive"@
    } else {
        "LZMA: unknown error"@
    }
}

/// The error that an LZMA-SDK status other than `SZ_OK` is reported as.
pub fn res_to_error(res: i32) -> (r: LzmaError)
    ensures
        r.kind == spec_error_kind(res),
        r.message@ == spec_error_message(res),
{
    if res == SZ_ERROR_DATA {
        LzmaError { kind: LzmaErrorKind::InvalidData, message: "LZMA: data error" }
    } else if res == SZ_ERROR_MEM {
        LzmaError { kind: LzmaErrorKind::OutOfMemory, message: "LZMA: out of memory" }
    } else if res == SZ_ERROR_CRC {
        LzmaError { kind: LzmaErrorKind::InvalidData, message: "LZMA: CRC error" }
    } else if res == SZ_ERROR_UNSUPPORTED {
        LzmaError { kind: LzmaErrorKind::Unsupported, message: "LZMA: unsupported" }
    } else if res == SZ_ERROR_PARAM {
        LzmaError { kind: LzmaErrorKind::InvalidInput, message: "LZMA: invalid parameter" }
    } else if res == SZ_ERROR_INPUT_EOF {
        LzmaError { kind: LzmaErrorKind::UnexpectedEof, message: "LZMA: unexpected end of input" }
    } else if res == SZ_ERROR_OUTPUT_EOF {
        LzmaError { kind: LzmaErrorKind::WriteZero, message: "LZMA: output buffer not large enough" }
    } else if res == SZ_ERROR_READ {
        LzmaError { kind: LzmaErrorKind::Other, message: "LZMA: read error" }
    } else if res == SZ_ERROR_WRITE {
        LzmaError { kind: LzmaErrorKind::Other, message: "LZMA: write error" }
    } else if res == SZ_ERROR_PROGRESS {
        LzmaError { kind: LzmaErrorKind::Other, message: "LZMA: progress error" }
    } else if res == SZ_ERROR_FAIL {
        LzmaError { kind: LzmaErrorKind::Other, message: "LZMA: operation failed" }
    } else if res == SZ_ERROR_THREAD {
        LzmaError { kind: LzmaErrorKind::Other, message: "LZMA: thread error" }
    } else if res == SZ_ERROR_ARCHIVE {
        LzmaError { kind: LzmaErrorKind::InvalidData, message: "LZMA: archive error" }
    } else if res == SZ_ERROR_NO_ARCHIVE {
        LzmaError { kind: LzmaErrorKind::InvalidData, message: "LZMA: not an archive" }
    } else {
        LzmaError { kind: LzmaErrorKind::Other, message: "LZMA: unknown error" }
    }
}

/// `Ok` for `SZ_OK`, otherwise the error that the status is reported as.
pub fn check_res(res: i32) -> (r: Result<(), LzmaError>)
    ensures
        res == SZ_OK <==> r is Ok,
        r matches Err(e) ==> e.kind == spec_error_kind(res) && e.message@ == spec_error_message(res),
{
    if res == SZ_OK {
        return Ok(());
    }
    Err(res_to_error(res))
}

/// Appends `buf` to the pending input of a buffering writer; gives how many bytes
/// were taken, which is all of them.
pub fn buffer_write(buffer: &mut Vec<u8>, buf: &[u8]) -> (r: usize)
    ensures
        r == buf@.len(),
        final(buffer)@ == old(buffer)@ + buf@,
{
    if buf.len() == 0 {
        proof {
            assert(old(buffer)@ + buf@ =~= old(buffer)@);
        }
        return 0;
    }
    let mut i: usize = 0;
    while i < buf.len()
        invariant
            i <= buf@.len(),
            buffer@ == old(buffer)@ + buf@.subrange(0, i as int),
        decreases buf@.len() - i,
    {
        buffer.push(buf[i]);
        proof {
            assert(buffer@ =~= old(buffer)@ + buf@.subrange(0, i + 1));
        }
        i = i + 1;
    }
    proof {
        assert(buf@.subrange(0, buf@.len() as int) =~= buf@);
    }
    buf.len()
}

/// The output room that LZMA encoding of `src_len` bytes is given:
/// `src_len + src_len / 8 + 1024`.
pub fn lzma_dest_capacity(src_len: usize) -> (r: usize)
    requires
        src_len + src_len / 8 + 1024 <= usize::MAX,
    ensures
        r == src_len + src_len / 8 + 1024,
{
    src_len + src_len / 8 + 1024
}

/// The eight little-endian bytes of `x`.
pub open spec fn spec_u64_le(x: u64) -> Seq<u8> {
    Seq::new(8, |i: int| ((x as int / pow256(i)) % 256) as u8)
}

/// `256^i`.
pub open spec fn pow256(i: int) -> int
    decreases i,
{
    if i <= 0 {
        1
    } else {
        256 * pow256(i - 1)
    }
}

/// The bytes an LZMA writer emits: with a header, the encoded properties and the
/// uncompressed size as a little-endian `u64` come first; then the encoded data.
pub fn lzma_stream_bytes(props: &[u8], src_len: u64, dest: &[u8], write_header: bool) -> (r: Vec<
    u8,
>)
    ensures
        write_header ==> r@ == props@ + spec_u64_le(src_len) + dest@,
        !write_header ==> r@ == dest@,
{
    let mut out: Vec<u8> = Vec::new();
    if write_header {
        buffer_write(&mut out, props);
        let mut x: u64 = src_len;
        let mut i: usize = 0;
        while i < 8
            invariant
                i <= 8,
                out@ == props@ + spec_u64_le(src_len).subrange(0, i as int),
                x as int == src_len as int / pow256(i as int),
            decreases 8 - i,
        {
            proof {
                assert(pow256(i as int + 1) == 256 * pow256(i as int));
                assert(pow256(i as int) > 0) by {
                    lemma_pow256_pos(i as int);
                }
                vstd::arithmetic::div_mod::lemma_div_denominator(src_len as int, pow256(i as int), 256);
            }
            out.push((x % 256) as u8);
            proof {
                assert(out@ =~= props@ + spec_u64_le(src_len).subrange(0, i + 1));
            }
            x = x / 256;
            i = i + 1;
        }
        proof {
            assert(spec_u64_le(src_len).subrange(0, 8) =~= spec_u64_le(src_len));
        }
    }
    buffer_write(&mut out, dest);
    out
}

proof fn lemma_pow256_pos(i: int)
    ensures
        pow256(i) > 0,
    decreases i,
{
    if i > 0 {
        lemma_pow256_pos(i - 1);
    }
}

} // verus!
