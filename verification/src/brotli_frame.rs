//! The framing around Brotli streams: a plain Brotli stream, or the zstdmt
//! variant in which each Brotli frame sits behind a 16-byte skippable-frame
//! header (magic, skippable size 8, compressed size, "BR", size hint).

use vstd::prelude::*;
use crate::le_bytes::{read_le_u16, read_le_u32, spec_le_u16, spec_le_u32};

verus! {

/// The magic number of a zstdmt skippable frame that carries Brotli data.
pub const BROTLI_ZSTDMT_MAGIC: u32 = 0x184D_2A50;

/// "BR" in little-endian.
pub const BROTLI_MAGIC: u16 = 0x5242;

/// The skippable size that a zstdmt Brotli frame header announces.
pub const ZSTDMT_SKIPPABLE_SIZE: u32 = 8;

/// What the first bytes of an input announce.
pub enum StreamKind {
    /// A zstdmt Brotli stream whose first frame holds `compressed_size` bytes.
    Zstdmt { compressed_size: u32 },
    /// A plain Brotli stream; the header bytes read belong to it.
    Standard,
}

/// Why the first bytes of an input were refused.
pub enum HeaderError {
    /// Fewer than four bytes could be read ("Input too short").
    TooShort,
    /// A zstdmt header announces a skippable size other than 8
    /// ("Invalid zstdmt brotli skippable size").
    InvalidSkippableSize,
    /// A zstdmt header lacks the "BR" magic ("Invalid zstdmt brotli magic").
    InvalidBrotliMagic,
}

impl HeaderError {
    /// The message the decoder reports for this error.
    pub fn message(&self) -> (r: &'static str)
        ensures
            *self is TooShort ==> r@ == "Input too short"@,
            *self is InvalidSkippableSize ==> r@ == "Invalid zstdmt brotli skippable size"@,
            *self is InvalidBrotliMagic ==> r@ == "Invalid zstdmt brotli magic"@,
    {
        match self {
            HeaderError::TooShort => "Input too short",
            HeaderError::InvalidSkippableSize => "Invalid zstdmt brotli skippable size",
            HeaderError::InvalidBrotliMagic => "Invalid zstdmt brotli magic",
        }
    }
}

/// Classifies an input by the up to 16 bytes read from its start (`header`):
/// fewer than four is an error; a zstdmt magic with all 16 bytes present makes a
/// zstdmt stream, whose skippable size and "BR" magic are then checked; anything
/// else is a plain stream.
pub fn classify_header(header: &[u8]) -> (r: Result<StreamKind, HeaderError>)
    requires
        header@.len() <= 16,
    ensures
        header@.len() < 4 ==> (r matches Err(HeaderError::TooShort)),
        header@.len() >= 4 && !(spec_le_u32(header@) == BROTLI_ZSTDMT_MAGIC && header@.len() == 16)
            ==> (r matches Ok(StreamKind::Standard)),
        header@.len() == 16 && spec_le_u32(header@) == BROTLI_ZSTDMT_MAGIC ==> {
            let skippable = spec_le_u32(header@.subrange(4, 16));
            let compressed = spec_le_u32(header@.subrange(8, 16));
            let brotli_magic = spec_le_u16(header@.subrange(12, 16));
            &&& skippable != ZSTDMT_SKIPPABLE_SIZE ==> (r matches Err(
                HeaderError::InvalidSkippableSize,
            ))
            &&& skippable == ZSTDMT_SKIPPABLE_SIZE && brotli_magic != BROTLI_MAGIC ==> (r matches Err(
                HeaderError::InvalidBrotliMagic,
            ))
            &&& skippable == ZSTDMT_SKIPPABLE_SIZE && brotli_magic == BROTLI_MAGIC ==> (r matches Ok(
                StreamKind::Zstdmt { compressed_size },
            ) && compressed_size == compressed)
        },
{
    if header.len() < 4 {
        return Err(HeaderError::TooShort);
    }
    let zstdmt_magic: u32 = read_le_u32(header);
    if zstdmt_magic == BROTLI_ZSTDMT_MAGIC && header.len() >= 16 {
        let skippable_size: u32 = read_le_u32(vstd::slice::slice_subrange(header, 4, header.len()));
        if skippable_size != ZSTDMT_SKIPPABLE_SIZE {
            return Err(HeaderError::InvalidSkippableSize);
        }
        let compressed_size: u32 = read_le_u32(vstd::slice::slice_subrange(header, 8, header.len()));
        let brotli_magic: u16 = read_le_u16(vstd::slice::slice_subrange(header, 12, header.len()));
        if brotli_magic != BROTLI_MAGIC {
            return Err(HeaderError::InvalidBrotliMagic);
        }
        Ok(StreamKind::Zstdmt { compressed_size })
    } else {
        Ok(StreamKind::Standard)
    }
}

/// Where the next bytes handed to the Brotli decompressor come from.
pub enum ReadPlan {
    /// These bytes, replayed from the header already read.
    Header(Vec<u8>),
    /// Up to this many bytes straight from the underlying reader.
    Reader(usize),
    /// The next zstdmt frame header has to be read first.
    FrameHeader,
    /// Nothing more: end of the data.
    End,
}

/// The reader that feeds the Brotli decompressor: it replays the header bytes of
/// a plain stream before the rest of it, or passes the payload of zstdmt frames
/// on, frame by frame.
pub enum InnerReader<R> {
    Standard { reader: R, header: Vec<u8>, header_pos: usize, header_first: bool },
    Zstdmt { reader: R, remaining_in_frame: u32, frame_finished: bool },
}

impl<R> InnerReader<R> {
    /// Whether this reader follows a zstdmt stream.
    pub open spec fn is_zstdmt(&self) -> bool {
        self is Zstdmt
    }

    /// The header bytes a plain stream replays.
    pub open spec fn header_bytes(&self) -> Seq<u8> {
        match self {
            InnerReader::Standard { header, .. } => header@,
            InnerReader::Zstdmt { .. } => Seq::empty(),
        }
    }

    /// How many header bytes a plain stream has replayed.
    pub open spec fn header_used(&self) -> int {
        match self {
            InnerReader::Standard { header_pos, .. } => *header_pos as int,
            InnerReader::Zstdmt { .. } => 0,
        }
    }

    /// Whether a plain stream still serves from its header.
    pub open spec fn in_header(&self) -> bool {
        match self {
            InnerReader::Standard { header_first, .. } => *header_first,
            InnerReader::Zstdmt { .. } => false,
        }
    }

    /// The bytes left in the current zstdmt frame.
    pub open spec fn remaining(&self) -> u32 {
        match self {
            InnerReader::Standard { .. } => 0,
            InnerReader::Zstdmt { remaining_in_frame, .. } => *remaining_in_frame,
        }
    }

    /// Whether the current zstdmt frame is done.
    pub open spec fn finished(&self) -> bool {
        match self {
            InnerReader::Standard { .. } => false,
            InnerReader::Zstdmt { frame_finished, .. } => *frame_finished,
        }
    }

    /// The underlying reader.
    pub open spec fn underlying(&self) -> R {
        match self {
            InnerReader::Standard { reader, .. } => *reader,
            InnerReader::Zstdmt { reader, .. } => *reader,
        }
    }

    /// This reader with `reader` in place of its underlying reader.
    pub open spec fn with_underlying(self, reader: R) -> Self {
        match self {
            InnerReader::Standard { header, header_pos, header_first, .. } => InnerReader::Standard {
                reader,
                header,
                header_pos,
                header_first,
            },
            InnerReader::Zstdmt { remaining_in_frame, frame_finished, .. } => InnerReader::Zstdmt {
                reader,
                remaining_in_frame,
                frame_finished,
            },
        }
    }

    /// A reader of a plain stream whose first bytes `header` were already read.
    pub fn new_standard(reader: R, header: Vec<u8>) -> (r: Self)
        ensures
            !r.is_zstdmt(),
            r.header_bytes() == header@,
            r.header_used() == 0,
            r.in_header(),
            r.underlying() == reader,
    {
        InnerReader::Standard { reader, header, header_pos: 0, header_first: true }
    }

    /// A reader of a zstdmt stream inside a frame with `remaining_in_frame` bytes left.
    pub fn new_zstdmt(reader: R, remaining_in_frame: u32) -> (r: Self)
        ensures
            r.is_zstdmt(),
            r.remaining() == remaining_in_frame,
            !r.finished(),
            r.underlying() == reader,
    {
        InnerReader::Zstdmt { reader, remaining_in_frame, frame_finished: false }
    }

    /// The underlying reader.
    pub fn reader_mut(&mut self) -> (r: &mut R)
        ensures
            *r == old(self).underlying(),
            *final(self) == old(self).with_underlying(*final(r)),
            final(self).is_zstdmt() == old(self).is_zstdmt(),
            final(self).header_bytes() == old(self).header_bytes(),
            final(self).header_used() == old(self).header_used(),
            final(self).in_header() == old(self).in_header(),
            final(self).remaining() == old(self).remaining(),
            final(self).finished() == old(self).finished(),
    {
        match self {
            InnerReader::Standard { reader, .. } => reader,
            InnerReader::Zstdmt { reader, .. } => reader,
        }
    }

    /// Decides where a read of up to `buf_len` bytes is served from. A plain stream
    /// replays its header bytes first; the first read that gets none of them (the
    /// header is used up, or `buf_len` is 0) switches it to the reader for good. A zstdmt stream asks for the next frame header when its frame is
    /// done, reads up to what is left in the frame, and marks the frame done when
    /// nothing is left.
    pub fn plan_read(&mut self, buf_len: usize) -> (r: ReadPlan)
        requires
            !old(self).is_zstdmt() ==> old(self).header_used() <= old(self).header_bytes().len(),
        ensures
            final(self).is_zstdmt() == old(self).is_zstdmt(),
            !old(self).is_zstdmt() ==> {
                let (pos, in_header, out) = standard_read(
                    old(self).header_bytes(),
                    old(self).header_used(),
                    old(self).in_header(),
                    buf_len as int,
                );
                &&& final(self).header_bytes() == old(self).header_bytes()
                &&& final(self).header_used() <= final(self).header_bytes().len()
                &&& final(self).header_used() == pos
                &&& final(self).in_header() == in_header
                &&& out matches Some(bytes) ==> (r matches ReadPlan::Header(v) && v@ == bytes)
                &&& out is None ==> (r matches ReadPlan::Reader(k) && k == buf_len)
            },
            old(self).is_zstdmt() ==> {
                let rem = old(self).remaining();
                let n: u32 = if (buf_len as u32) < rem { buf_len as u32 } else { rem };
                &&& final(self).remaining() == rem
                &&& old(self).finished() ==> (r matches ReadPlan::FrameHeader) && final(self).finished()
                &&& !old(self).finished() && rem > 0 ==> (r matches ReadPlan::Reader(k) && k == n)
                    && !final(self).finished()
                &&& !old(self).finished() && rem == 0 ==> (r matches ReadPlan::End) && final(self).finished()
            },
    {
        match self {
            InnerReader::Standard { header, header_pos, header_first, .. } => {
                if *header_first {
                    let rest: usize = if *header_pos < header.len() {
                        header.len() - *header_pos
                    } else {
                        0
                    };
                    let n: usize = if buf_len < rest { buf_len } else { rest };
                    if n == 0 {
                        *header_first = false;
                        return ReadPlan::Reader(buf_len);
                    }
                    let pos: usize = *header_pos;
                    let hlen: usize = header.len();
                    let mut out: Vec<u8> = Vec::new();
                    let mut i: usize = 0;
                    while i < n
                        invariant
                            i <= n,
                            pos + n <= hlen,
                            hlen == header@.len(),
                            out@ == header@.subrange(pos as int, pos + i),
                        decreases n - i,
                    {
                        out.push(header[pos + i]);
                        proof {
                            assert(out@ =~= header@.subrange(pos as int, pos + i + 1));
                        }
                        i = i + 1;
                    }
                    *header_pos = *header_pos + n;
                    ReadPlan::Header(out)
                } else {
                    ReadPlan::Reader(buf_len)
                }
            },
            InnerReader::Zstdmt { remaining_in_frame, frame_finished, .. } => {
                if *frame_finished {
                    return ReadPlan::FrameHeader;
                }
                if *remaining_in_frame > 0 {
                    let len32: u32 = buf_len as u32;
                    let to_read: u32 = if len32 < *remaining_in_frame {
                        len32
                    } else {
                        *remaining_in_frame
                    };
                    ReadPlan::Reader(to_read as usize)
                } else {
                    *frame_finished = true;
                    ReadPlan::End
                }
            },
        }
    }

    /// Records that the underlying reader gave `n` bytes of a zstdmt frame: they come
    /// off what is left, and the frame is done when nothing is left. A plain stream
    /// records nothing.
    pub fn record_read(&mut self, n: usize)
        requires
            old(self).is_zstdmt() ==> n <= old(self).remaining(),
        ensures
            old(self).is_zstdmt() ==> final(self).is_zstdmt() && final(self).remaining() == old(
                self,
            ).remaining() - n && (final(self).finished() <==> final(self).remaining() == 0),
            !old(self).is_zstdmt() ==> *final(self) == *old(self),
    {
        match self {
            InnerReader::Zstdmt { remaining_in_frame, frame_finished, .. } => {
                *remaining_in_frame = *remaining_in_frame - n as u32;
                *frame_finished = *remaining_in_frame == 0;
            },
            _ => {},
        }
    }

    /// Starts the next zstdmt frame, of `compressed_size` bytes, once its header was
    /// read and accepted.
    pub fn start_frame(&mut self, compressed_size: u32)
        ensures
            old(self).is_zstdmt() ==> final(self).is_zstdmt() && final(self).remaining()
                == compressed_size && !final(self).finished(),
            !old(self).is_zstdmt() ==> *final(self) == *old(self),
    {
        match self {
            InnerReader::Zstdmt { remaining_in_frame, frame_finished, .. } => {
                *remaining_in_frame = compressed_size;
                *frame_finished = false;
            },
            _ => {},
        }
    }
}

/// One read of a plain stream, as `plan_read` does it, on the header, the number of
/// header bytes replayed so far and whether the header still serves: the new count,
/// whether it still serves, and the header bytes handed on (`None` when the read goes
/// to the underlying reader).
pub open spec fn standard_read(header: Seq<u8>, pos: int, in_header: bool, buf_len: int) -> (
    int,
    bool,
    Option<Seq<u8>>,
) {
    let rest = header.len() - pos;
    let n = if buf_len < rest {
        buf_len
    } else {
        rest
    };
    if in_header && n > 0 {
        (pos + n, true, Some(header.subrange(pos, pos + n)))
    } else {
        (pos, false, None)
    }
}

/// A run of reads of the lengths `lens` on a plain stream: the header bytes handed on,
/// in order, and whether any read went to the underlying reader.
pub open spec fn standard_run(header: Seq<u8>, pos: int, in_header: bool, lens: Seq<int>) -> (
    Seq<u8>,
    bool,
)
    decreases lens.len(),
{
    if lens.len() == 0 {
        (Seq::empty(), false)
    } else {
        let (p, h, out) = standard_read(header, pos, in_header, lens[0]);
        let (rest, reader) = standard_run(header, p, h, lens.drop_first());
        match out {
            Some(bytes) => (bytes + rest, reader),
            None => (rest, true),
        }
    }
}

proof fn lemma_standard_run(header: Seq<u8>, pos: int, in_header: bool, lens: Seq<int>)
    requires
        0 <= pos <= header.len(),
        !in_header ==> pos == header.len(),
        forall|i: int| 0 <= i < lens.len() ==> lens[i] > 0,
    ensures
        pos + standard_run(header, pos, in_header, lens).0.len() <= header.len(),
        standard_run(header, pos, in_header, lens).0 == header.subrange(
            pos,
            pos + standard_run(header, pos, in_header, lens).0.len(),
        ),
        standard_run(header, pos, in_header, lens).1 ==> pos + standard_run(
            header,
            pos,
            in_header,
            lens,
        ).0.len() == header.len(),
    decreases lens.len(),
{
    if lens.len() > 0 {
        let (p, h, out) = standard_read(header, pos, in_header, lens[0]);
        let tail = lens.drop_first();
        assert forall|i: int| 0 <= i < tail.len() implies tail[i] > 0 by {
            assert(tail[i] == lens[i + 1]);
        }
        lemma_standard_run(header, p, h, tail);
        let (rest, reader) = standard_run(header, p, h, tail);
        match out {
            Some(bytes) => {
                assert(pos < p <= header.len());
                assert(bytes == header.subrange(pos, p));
                assert(bytes + rest =~= header.subrange(pos, p + rest.len()));
            },
            None => {},
        }
    }
}

/// A plain stream read with buffers that are never empty hands on every header byte
/// exactly once and in order, before anything from the underlying reader: the header
/// bytes handed on are always the header's first bytes, and all of them once a read
/// has gone to the reader.
pub proof fn law_header_replayed_once(header: Seq<u8>, lens: Seq<int>)
    requires
        forall|i: int| 0 <= i < lens.len() ==> lens[i] > 0,
    ensures
        standard_run(header, 0, true, lens).0 == header.subrange(
            0,
            standard_run(header, 0, true, lens).0.len() as int,
        ),
        standard_run(header, 0, true, lens).1 ==> standard_run(header, 0, true, lens).0 == header,
{
    lemma_standard_run(header, 0, true, lens);
    if standard_run(header, 0, true, lens).1 {
        assert(header.subrange(0, header.len() as int) =~= header);
    }
}

/// Whether a zstdmt frame header's fields announce a Brotli frame: the magic,
/// a skippable size of 8 and the "BR" magic. A frame header that fails any of these
/// ends the data.
pub fn frame_header_accepted(magic: u32, skippable_size: u32, brotli_magic: u16) -> (r: bool)
    ensures
        r == (magic == BROTLI_ZSTDMT_MAGIC && skippable_size == ZSTDMT_SKIPPABLE_SIZE && brotli_magic
            == BROTLI_MAGIC),
{
    magic == BROTLI_ZSTDMT_MAGIC && skippable_size == ZSTDMT_SKIPPABLE_SIZE && brotli_magic
        == BROTLI_MAGIC
}

} // verus!
