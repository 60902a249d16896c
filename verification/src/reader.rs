//! Opening `.egorec` v2 recordings for export: the header checks, the
//! footer, the index table and where trailing H.264 data begins. Decoding
//! the frames is left to the caller.
use vstd::prelude::*;
use crate::byte_order::{le16, le32, le64};
use crate::format::{has_magic_prefix, magic_prefix, FileFooter, FileHeader, FrameBlockHeader, IndexEntry, FOOTER_MAGIC,
    FRAME_MAGIC};
use crate::text::{push_decimal, push_signed_decimal, signed_decimal, decimal, text};

verus! {

/// Failures of the depth codec.
#[derive(Debug)]
pub enum ZdepthError {
    DecompressFailed(i32),
    CompressFailed(i32),
    NullDecompressor,
    NullCompressor,
}

/// The text a depth codec failure is reported with.
pub open spec fn zdepth_text(e: ZdepthError) -> Seq<char> {
    match e {
        ZdepthError::DecompressFailed(c) => "zdepth decompression failed (code "@ + signed_decimal(c as int) + ")"@,
        ZdepthError::CompressFailed(c) => "zdepth compression failed (code "@ + signed_decimal(c as int) + ")"@,
        ZdepthError::NullDecompressor => "null decompressor"@,
        ZdepthError::NullCompressor => "null compressor"@,
    }
}

impl ZdepthError {
    /// The text the failure is reported with.
    pub fn message(&self) -> (m: String)
        ensures
            m@ == zdepth_text(*self),
    {
        match self {
            ZdepthError::DecompressFailed(c) => {
                let mut m = text("zdepth decompression failed (code ");
                push_signed_decimal(&mut m, *c as i64);
                m.append(")");
                m
            },
            ZdepthError::CompressFailed(c) => {
                let mut m = text("zdepth compression failed (code ");
                push_signed_decimal(&mut m, *c as i64);
                m.append(")");
                m
            },
            ZdepthError::NullDecompressor => text("null decompressor"),
            ZdepthError::NullCompressor => text("null compressor"),
        }
    }
}

/// Failures of reading a recording. I/O and H.264 decoder failures carry
/// the text of the underlying error.
#[derive(Debug)]
pub enum EgorecError {
    Io(String),
    BadMagic,
    UnsupportedVersion,
    BadFrameMagic(u64),
    BadFooter,
    H264(String),
    Zdepth(ZdepthError),
}

/// What a reading failure stands for.
pub enum EgorecErrorView {
    Io(Seq<char>),
    BadMagic,
    UnsupportedVersion,
    BadFrameMagic(u64),
    BadFooter,
    H264(Seq<char>),
    Zdepth(ZdepthError),
}

impl View for EgorecError {
    type V = EgorecErrorView;

    open spec fn view(&self) -> EgorecErrorView {
        match self {
            EgorecError::Io(m) => EgorecErrorView::Io(m@),
            EgorecError::BadMagic => EgorecErrorView::BadMagic,
            EgorecError::UnsupportedVersion => EgorecErrorView::UnsupportedVersion,
            EgorecError::BadFrameMagic(n) => EgorecErrorView::BadFrameMagic(*n),
            EgorecError::BadFooter => EgorecErrorView::BadFooter,
            EgorecError::H264(m) => EgorecErrorView::H264(m@),
            EgorecError::Zdepth(z) => EgorecErrorView::Zdepth(*z),
        }
    }
}

/// The text a reading failure is reported with.
pub open spec fn egorec_error_text(e: EgorecErrorView) -> Seq<char> {
    match e {
        EgorecErrorView::Io(m) => "I/O error: "@ + m,
        EgorecErrorView::BadMagic => "invalid .egorec file: bad magic bytes"@,
        EgorecErrorView::UnsupportedVersion => "V1 .egorec files are not supported by export tools"@,
        EgorecErrorView::BadFrameMagic(n) => "invalid frame magic at frame "@ + decimal(n as nat),
        EgorecErrorView::BadFooter => "failed to read footer"@,
        EgorecErrorView::H264(m) => "H.264 decoder error: "@ + m,
        EgorecErrorView::Zdepth(z) => "zdepth error: "@ + zdepth_text(z),
    }
}

impl EgorecError {
    /// The text the failure is reported with.
    pub fn message(&self) -> (m: String)
        ensures
            m@ == egorec_error_text(self@),
    {
        match self {
            EgorecError::Io(inner) => {
                let mut m = text("I/O error: ");
                m.append(inner.as_str());
                m
            },
            EgorecError::BadMagic => text("invalid .egorec file: bad magic bytes"),
            EgorecError::UnsupportedVersion => text("V1 .egorec files are not supported by export tools"),
            EgorecError::BadFrameMagic(n) => {
                let mut m = text("invalid frame magic at frame ");
                push_decimal(&mut m, *n);
                m
            },
            EgorecError::BadFooter => text("failed to read footer"),
            EgorecError::H264(inner) => {
                let mut m = text("H.264 decoder error: ");
                m.append(inner.as_str());
                m
            },
            EgorecError::Zdepth(z) => {
                let mut m = text("zdepth error: ");
                let inner = z.message();
                m.append(inner.as_str());
                m
            },
        }
    }
}

/// The layout of an opened recording: its header, its footer when the
/// footer magic is intact, the index table, where trailing H.264 data (after
/// the last indexed frame) begins, and the footer's frame count and duration.
pub struct RecordingLayout {
    pub header: FileHeader,
    pub footer: Option<FileFooter>,
    pub index: Vec<IndexEntry>,
    pub trailing_data_offset: u64,
    pub total_frames: u64,
    pub total_duration_us: u64,
}

/// The footer's magic is intact.
pub open spec fn has_footer(d: Seq<u8>) -> bool {
    d.len() >= 36 && le32(d, d.len() - 4) == FOOTER_MAGIC
}

/// Offset of the index table, from the footer.
pub open spec fn index_offset(d: Seq<u8>) -> int {
    le64(d, d.len() - 32)
}

/// Number of index entries: the footer's count, none without a footer.
pub open spec fn index_count(d: Seq<u8>) -> int {
    if has_footer(d) { le32(d, d.len() - 24) } else { 0 }
}

/// The file offset held by the last index entry.
pub open spec fn last_indexed_offset(d: Seq<u8>) -> int {
    le64(d, index_offset(d) + 24 * (index_count(d) - 1) + 8)
}

/// The text of a read that ran out of data.
pub open spec fn eof_text() -> Seq<char> {
    "failed to fill whole buffer"@
}

/// The failure opening a recording reports, if any.
pub open spec fn open_error(d: Seq<u8>) -> Option<EgorecErrorView> {
    if d.len() < 472 {
        Some(EgorecErrorView::Io(eof_text()))
    } else if d.subrange(0, 6) != magic_prefix() {
        Some(EgorecErrorView::BadMagic)
    } else if d[6] != 2 {
        Some(EgorecErrorView::UnsupportedVersion)
    } else if index_count(d) > 0 && index_offset(d) + 24 * index_count(d) > d.len() {
        Some(EgorecErrorView::Io(eof_text()))
    } else if index_count(d) > 0 && last_indexed_offset(d) + 36 > d.len() {
        Some(EgorecErrorView::Io(eof_text()))
    } else {
        None
    }
}

/// Where trailing H.264 data begins: after the last indexed frame's block
/// when its magic is intact, otherwise at the index table (or, without a
/// footer, at the end of the file).
pub open spec fn trailing_offset(d: Seq<u8>) -> int {
    if index_count(d) > 0 {
        let last = last_indexed_offset(d);
        if le32(d, last) == FRAME_MAGIC {
            last + le32(d, last + 4)
        } else {
            index_offset(d)
        }
    } else if has_footer(d) {
        index_offset(d)
    } else {
        d.len() as int
    }
}

/// `layout` is what opening the recording `d` gives.
pub open spec fn layout_of(layout: RecordingLayout, d: Seq<u8>) -> bool {
    &&& layout.header.read_at(d, 0)
    &&& match layout.footer {
        Some(f) => has_footer(d) && f.read_at(d, d.len() - 36),
        None => !has_footer(d),
    }
    &&& layout.index@.len() == index_count(d)
    &&& forall|i: int| 0 <= i < layout.index@.len() ==> (#[trigger] layout.index@[i]).read_at(d,
        index_offset(d) + 24 * i)
    &&& layout.trailing_data_offset == trailing_offset(d)
    &&& layout.total_frames == if has_footer(d) { le64(d, d.len() - 20) } else { 0 }
    &&& layout.total_duration_us == if has_footer(d) { le64(d, d.len() - 12) } else { 0 }
}

impl RecordingLayout {
    /// Opens a recording: checks the header magic and version, reads the
    /// footer and, when the footer is intact, the index table, and finds
    /// where trailing H.264 data begins.
    pub fn open(data: &[u8]) -> (r: Result<RecordingLayout, EgorecError>)
        requires
            data@.len() < 0x1_0000_0000_0000,
        ensures
            match r {
                Ok(layout) => open_error(data@) is None && layout_of(layout, data@),
                Err(e) => open_error(data@) == Some(e@),
            },
    {
        let ghost d = data@;
        let header = match FileHeader::read_from(data, 0) {
            Some(h) => h,
            None => {
                return Err(EgorecError::Io(text("failed to fill whole buffer")));
            },
        };
        if !has_magic_prefix(data) {
            return Err(EgorecError::BadMagic);
        }
        if header.magic[6] != 0x02 {
            return Err(EgorecError::UnsupportedVersion);
        }
        let len = data.len();
        let footer_read = match FileFooter::read_from(data, len - 36) {
            Some(f) => f,
            None => {
                return Err(EgorecError::Io(text("failed to fill whole buffer")));
            },
        };
        let footer = if footer_read.footer_magic == FOOTER_MAGIC { Some(footer_read) } else { None };
        let mut index: Vec<IndexEntry> = Vec::new();
        let mut count: u32 = 0;
        let mut io: u64 = 0;
        match &footer {
            Some(f) => {
                count = f.index_entry_count;
                io = f.index_offset;
            },
            None => {},
        }
        if count > 0 {
            if io > len as u64 || (len as u64) - io < 24 * (count as u64) {
                return Err(EgorecError::Io(text("failed to fill whole buffer")));
            }
            let mut i: u32 = 0;
            while i < count
                invariant
                    d == data@,
                    len == d.len(),
                    i <= count,
                    count == index_count(d),
                    io == index_offset(d),
                    io + 24 * count <= len,
                    index@.len() == i,
                    forall|j: int| 0 <= j < i ==> (#[trigger] index@[j]).read_at(d, io + 24 * j),
                decreases count - i,
            {
                let pos = (io + 24 * (i as u64)) as usize;
                let entry = match IndexEntry::read_from(data, pos) {
                    Some(e) => e,
                    None => {
                        return Err(EgorecError::Io(text("failed to fill whole buffer")));
                    },
                };
                index.push(entry);
                i = i + 1;
            }
        }
        let trailing_data_offset = if index.len() > 0 {
            let last_offset = index[index.len() - 1].file_offset;
            if last_offset > len as u64 || (len as u64) - last_offset < 36 {
                return Err(EgorecError::Io(text("failed to fill whole buffer")));
            }
            let fbh = match FrameBlockHeader::read_from(data, last_offset as usize) {
                Some(b) => b,
                None => {
                    return Err(EgorecError::Io(text("failed to fill whole buffer")));
                },
            };
            if fbh.magic == FRAME_MAGIC {
                last_offset + fbh.block_size as u64
            } else {
                io
            }
        } else {
            match &footer {
                Some(f) => f.index_offset,
                None => len as u64,
            }
        };
        let total_frames = match &footer {
            Some(f) => f.total_frames,
            None => 0,
        };
        let total_duration_us = match &footer {
            Some(f) => f.total_duration_us,
            None => 0,
        };
        Ok(RecordingLayout { header, footer, index, trailing_data_offset, total_frames, total_duration_us })
    }
}


// ---------------------------------------------------------------------------
// The frame loop: which block comes next and what to do with it. Decoding
// the H.264 and depth payloads is the caller's, which reports whether the
// H.264 decoder holds a decoded picture.

/// Where a frame loop over a recording stands: the next frame's number in
/// the loop, the reading position (used when the index has no entry for
/// the frame), and whether the data after the last frame has been flushed
/// to the decoder.
#[derive(Clone, Copy, PartialEq, Eq, Structural, Debug)]
pub struct FrameCursor {
    pub current_frame: u64,
    pub position: u64,
    pub trailing_flushed: bool,
}

impl FrameCursor {
    /// A loop at the first frame, reading from the end of the header.
    pub fn start() -> (c: FrameCursor)
        ensures
            c == (FrameCursor { current_frame: 0, position: 472, trailing_flushed: false }),
    {
        FrameCursor { current_frame: 0, position: 472, trailing_flushed: false }
    }
}

/// The next step of a frame loop.
pub enum FrameAction {
    /// A frame block. When `pop_queued`, the decoder's queued picture is
    /// this frame's RGB, and the H.264 payload is fed only when
    /// `feed_rgb`; otherwise the payload is fed and the picture it yields
    /// (or a black one) is the frame's RGB. The depth payload (when not
    /// empty) is decompressed, a failure giving zero depth.
    Frame {
        rgb_start: u64,
        rgb_len: u32,
        depth_start: u64,
        depth_len: u32,
        pop_queued: bool,
        feed_rgb: bool,
        timestamp_us: u64,
        frame_number: u64,
    },
    /// Past the last frame: feed the data between the last frame and the
    /// index (start, length) to the decoder, if any, then flush it when
    /// `flush_decoder`.
    Flush { trailing: Option<(u64, u64)>, flush_decoder: bool },
    /// Past the last frame: a picture left in the decoder, as frame
    /// `frame_number` with zero depth and no timestamp.
    Queued { frame_number: u64 },
    /// No more frames.
    End,
    /// Reading failed.
    Fail(EgorecError),
}

/// What a step stands for.
pub enum FrameActionView {
    Frame {
        rgb_start: u64,
        rgb_len: u32,
        depth_start: u64,
        depth_len: u32,
        pop_queued: bool,
        feed_rgb: bool,
        timestamp_us: u64,
        frame_number: u64,
    },
    Flush { trailing: Option<(u64, u64)>, flush_decoder: bool },
    Queued { frame_number: u64 },
    End,
    Fail(EgorecErrorView),
}

impl View for FrameAction {
    type V = FrameActionView;

    open spec fn view(&self) -> FrameActionView {
        match self {
            FrameAction::Frame {
                rgb_start,
                rgb_len,
                depth_start,
                depth_len,
                pop_queued,
                feed_rgb,
                timestamp_us,
                frame_number,
            } => FrameActionView::Frame {
                rgb_start: *rgb_start,
                rgb_len: *rgb_len,
                depth_start: *depth_start,
                depth_len: *depth_len,
                pop_queued: *pop_queued,
                feed_rgb: *feed_rgb,
                timestamp_us: *timestamp_us,
                frame_number: *frame_number,
            },
            FrameAction::Flush { trailing, flush_decoder } => FrameActionView::Flush {
                trailing: *trailing,
                flush_decoder: *flush_decoder,
            },
            FrameAction::Queued { frame_number } => FrameActionView::Queued { frame_number: *frame_number },
            FrameAction::End => FrameActionView::End,
            FrameAction::Fail(e) => FrameActionView::Fail(e@),
        }
    }
}

/// The next step of the frame loop over the recording `d` opened as `l`,
/// from cursor `c`, when the decoder `has_picture`; and the cursor after
/// it (unchanged by a failure). A frame block is found through the index
/// while it has an entry for the frame, else at the reading position; the
/// position then moves past the block's header, payloads and IMU samples.
pub open spec fn next_action_spec(l: RecordingLayout, d: Seq<u8>, c: FrameCursor, has_picture: bool) -> (
    FrameCursor,
    FrameActionView,
) {
    if c.current_frame >= l.total_frames {
        if !c.trailing_flushed {
            let rgb = l.header.rgb_codec != 0;
            let done = FrameCursor { trailing_flushed: true, ..c };
            match l.footer {
                Some(f) => if rgb && l.trailing_data_offset < f.index_offset {
                    if f.index_offset > d.len() {
                        (c, FrameActionView::Fail(EgorecErrorView::Io(eof_text())))
                    } else {
                        (done, FrameActionView::Flush {
                            trailing: Some((l.trailing_data_offset, (f.index_offset - l.trailing_data_offset) as u64)),
                            flush_decoder: true,
                        })
                    }
                } else {
                    (done, FrameActionView::Flush { trailing: None, flush_decoder: rgb })
                },
                None => (done, FrameActionView::Flush { trailing: None, flush_decoder: rgb }),
            }
        } else if has_picture {
            (FrameCursor { current_frame: (c.current_frame + 1) as u64, ..c }, FrameActionView::Queued {
                frame_number: c.current_frame,
            })
        } else {
            (c, FrameActionView::End)
        }
    } else {
        let pos = if c.current_frame < l.index@.len() {
            l.index@[c.current_frame as int].file_offset as int
        } else {
            c.position as int
        };
        if pos + 36 > d.len() {
            (c, FrameActionView::Fail(EgorecErrorView::Io(eof_text())))
        } else if le32(d, pos) != FRAME_MAGIC {
            (c, FrameActionView::Fail(EgorecErrorView::BadFrameMagic(c.current_frame)))
        } else {
            let rgb = le32(d, pos + 24);
            let depth = le32(d, pos + 28);
            if pos + 36 + rgb + depth > d.len() {
                (c, FrameActionView::Fail(EgorecErrorView::Io(eof_text())))
            } else {
                (FrameCursor {
                    current_frame: (c.current_frame + 1) as u64,
                    position: (pos + 36 + rgb + depth + le16(d, pos + 32) * 32) as u64,
                    trailing_flushed: c.trailing_flushed,
                }, FrameActionView::Frame {
                    rgb_start: (pos + 36) as u64,
                    rgb_len: rgb as u32,
                    depth_start: (pos + 36 + rgb) as u64,
                    depth_len: depth as u32,
                    pop_queued: has_picture,
                    feed_rgb: !has_picture || rgb > 0,
                    timestamp_us: le64(d, pos + 8) as u64,
                    frame_number: le64(d, pos + 16) as u64,
                })
            }
        }
    }
}

impl RecordingLayout {
    /// The next step of the frame loop over `data`, which this layout was
    /// opened from, given whether the H.264 decoder holds a decoded
    /// picture; the cursor moves past what the step reads.
    pub fn next_action(&self, data: &[u8], cursor: &mut FrameCursor, has_picture: bool) -> (a: FrameAction)
        requires
            data@.len() < 0x1_0000_0000_0000,
            layout_of(*self, data@),
            old(cursor).current_frame < u64::MAX,
            self.header.rgb_codec != 0 && self.footer is Some ==> self.footer->0.index_offset
                - self.trailing_data_offset <= 0x7FFF_FFFF_FFFF_FFFF,
        ensures
            (*final(cursor), a@) == next_action_spec(*self, data@, *old(cursor), has_picture),
    {
        let len = data.len() as u64;
        if cursor.current_frame >= self.total_frames {
            if !cursor.trailing_flushed {
                let rgb = self.header.rgb_codec != 0;
                let mut trailing: Option<(u64, u64)> = None;
                match &self.footer {
                    Some(f) => {
                        if rgb && self.trailing_data_offset < f.index_offset {
                            if f.index_offset > len {
                                return FrameAction::Fail(EgorecError::Io(text("failed to fill whole buffer")));
                            }
                            trailing = Some((self.trailing_data_offset, f.index_offset - self.trailing_data_offset));
                        }
                    },
                    None => {},
                }
                cursor.trailing_flushed = true;
                return FrameAction::Flush { trailing, flush_decoder: rgb };
            }
            if has_picture {
                let n = cursor.current_frame;
                cursor.current_frame = n + 1;
                return FrameAction::Queued { frame_number: n };
            }
            return FrameAction::End;
        }
        let pos: u64 = if cursor.current_frame < self.index.len() as u64 {
            self.index[cursor.current_frame as usize].file_offset
        } else {
            cursor.position
        };
        if pos > len || len - pos < 36 {
            return FrameAction::Fail(EgorecError::Io(text("failed to fill whole buffer")));
        }
        let p = pos as usize;
        let header = match FrameBlockHeader::read_from(data, p) {
            Some(h) => h,
            None => {
                return FrameAction::Fail(EgorecError::Io(text("failed to fill whole buffer")));
            },
        };
        if header.magic != FRAME_MAGIC {
            return FrameAction::Fail(EgorecError::BadFrameMagic(cursor.current_frame));
        }
        let rgb = header.rgb_compressed_size;
        let depth = header.depth_compressed_size;
        if len - pos - 36 < rgb as u64 + depth as u64 {
            return FrameAction::Fail(EgorecError::Io(text("failed to fill whole buffer")));
        }
        let n = cursor.current_frame;
        cursor.current_frame = n + 1;
        cursor.position = pos + 36 + rgb as u64 + depth as u64 + header.imu_sample_count as u64 * 32;
        FrameAction::Frame {
            rgb_start: pos + 36,
            rgb_len: rgb,
            depth_start: pos + 36 + rgb as u64,
            depth_len: depth,
            pop_queued: has_picture,
            feed_rgb: !has_picture || rgb > 0,
            timestamp_us: header.timestamp_us,
            frame_number: header.frame_number,
        }
    }
}

} // verus!
