//! Writing `.egorec` v2 recordings: the header, frame blocks written one by
//! one or copied as a span from another recording, then the index table and
//! the footer. The bytes are built in memory; storing them is the caller's.
use vstd::prelude::*;
use crate::byte_order::{group_le_bytes_len, le32, le64, push_all};
use crate::convert::{footer_pos, frame_walk, recording_error, recording_walk, rgb_payload, WalkEnd};
use crate::format::{file_magic, lemma_file_footer_roundtrip, lemma_file_header_roundtrip,
    lemma_frame_block_header_roundtrip, FileFooter, FileHeader, FrameBlockHeader, IndexEntry, FOOTER_MAGIC,
    FRAME_MAGIC, INDEX_MAGIC};
use crate::format::{lemma_index_entry_roundtrip, magic_prefix};
use crate::byte_order::le16;
use crate::reader::{index_offset, layout_of, next_action_spec, FrameActionView, FrameCursor, RecordingLayout};
use crate::proxy::{proxy_stream_spec, remux_walk, span_bytes, ProxyError, RemuxEnd};
use crate::scanner::{frame_info_at, indexed_walk, scan_frames_spec, sequential_walk, HeaderWalkEnd, ScanErrorView};
use crate::scanner::{entry_errors, entry_offset, footer_errors, header_errors, index_errors, validation_spec,
    FrameInfo};

verus! {

broadcast use group_le_bytes_len;

/// What a writer holds: the bytes written so far, the index entries of the
/// frames, the frame count, and the first and last frame timestamps.
pub struct WriterView {
    pub bytes: Seq<u8>,
    pub index: Seq<IndexEntry>,
    pub frame_count: u64,
    pub first_ts: Option<u64>,
    pub last_ts: Option<u64>,
}

/// The header of the block a frame with these fields is written as. The
/// sizes are stored modulo 2^32.
pub open spec fn frame_block_header(timestamp_us: u64, frame_number: u64, is_keyframe: bool, rgb_len: nat,
    depth_len: nat) -> FrameBlockHeader {
    FrameBlockHeader {
        magic: FRAME_MAGIC,
        block_size: (36 + rgb_len + depth_len) as u32,
        timestamp_us,
        frame_number,
        rgb_compressed_size: rgb_len as u32,
        depth_compressed_size: depth_len as u32,
        imu_sample_count: 0,
        flags: if is_keyframe { 1 } else { 0 },
    }
}

/// The index table: each entry's 24 bytes, in order.
pub open spec fn index_bytes(entries: Seq<IndexEntry>) -> Seq<u8>
    decreases entries.len(),
{
    if entries.len() == 0 {
        Seq::empty()
    } else {
        index_bytes(entries.drop_last()) + entries.last().spec_bytes()
    }
}

impl WriterView {
    /// After writing one frame: its block appended, an index entry pointing
    /// at it.
    pub open spec fn after_frame(self, timestamp_us: u64, frame_number: u64, is_keyframe: bool,
        rgb: Seq<u8>, depth: Seq<u8>) -> WriterView {
        WriterView {
            bytes: self.bytes + frame_block_header(timestamp_us, frame_number, is_keyframe, rgb.len(),
                depth.len()).spec_bytes() + rgb + depth,
            index: self.index.push(IndexEntry {
                timestamp_us,
                file_offset: self.bytes.len() as u64,
                frame_number,
            }),
            frame_count: (self.frame_count + 1) as u64,
            first_ts: if self.first_ts is None { Some(timestamp_us) } else { self.first_ts },
            last_ts: Some(timestamp_us),
        }
    }

    /// After recording the index entries of copied frames whose blocks now
    /// start at `dest_base` (offsets kept relative to the first one).
    pub open spec fn after_entries(self, infos: Seq<FrameInfo>, dest_base: int) -> WriterView
        decreases infos.len(),
    {
        if infos.len() == 0 {
            self
        } else {
            let w = self.after_entries(infos.drop_last(), dest_base);
            let fi = infos.last();
            WriterView {
                bytes: w.bytes,
                index: w.index.push(IndexEntry {
                    timestamp_us: fi.timestamp_us,
                    file_offset: (dest_base + fi.file_offset - infos[0].file_offset) as u64,
                    frame_number: fi.frame_number,
                }),
                frame_count: (w.frame_count + 1) as u64,
                first_ts: if w.first_ts is None { Some(fi.timestamp_us) } else { w.first_ts },
                last_ts: Some(fi.timestamp_us),
            }
        }
    }

    /// After copying the span of a source recording that holds the given
    /// frames: from the first one's offset to the end of the last one's block.
    pub open spec fn after_span(self, source: Seq<u8>, infos: Seq<FrameInfo>) -> WriterView {
        if infos.len() == 0 {
            self
        } else {
            let start = infos[0].file_offset as int;
            let end = infos.last().file_offset + infos.last().block_size;
            let w = self.after_entries(infos, self.bytes.len() as int);
            WriterView { bytes: w.bytes + source.subrange(start, end), ..w }
        }
    }

    /// Duration from the first to the last frame timestamp (0 when the last
    /// precedes the first, or without frames).
    pub open spec fn duration_us(self) -> u64 {
        match (self.first_ts, self.last_ts) {
            (Some(first), Some(last)) => if last >= first { (last - first) as u64 } else { 0 },
            _ => 0,
        }
    }

    /// The footer written after the index table.
    pub open spec fn footer(self) -> FileFooter {
        FileFooter {
            index_magic: INDEX_MAGIC,
            index_offset: self.bytes.len() as u64,
            index_entry_count: self.index.len() as u32,
            total_frames: self.frame_count,
            total_duration_us: self.duration_us(),
            footer_magic: FOOTER_MAGIC,
        }
    }

    /// The finished file: the bytes so far, the index table, the footer.
    pub open spec fn finalized(self) -> Seq<u8> {
        self.bytes + index_bytes(self.index) + self.footer().spec_bytes()
    }
}

/// A writer that has written only the header.
pub open spec fn writer_created(header: FileHeader) -> WriterView {
    WriterView {
        bytes: header.spec_bytes(),
        index: Seq::empty(),
        frame_count: 0,
        first_ts: None,
        last_ts: None,
    }
}

/// Writer for new `.egorec` recordings, held in memory.
pub struct EgorecWriter {
    out: Vec<u8>,
    index: Vec<IndexEntry>,
    frame_count: u64,
    first_ts: Option<u64>,
    last_ts: Option<u64>,
}

impl View for EgorecWriter {
    type V = WriterView;

    closed spec fn view(&self) -> WriterView {
        WriterView {
            bytes: self.out@,
            index: self.index@,
            frame_count: self.frame_count,
            first_ts: self.first_ts,
            last_ts: self.last_ts,
        }
    }
}

impl EgorecWriter {
    /// Starts a recording with the given file header.
    pub fn create(header: &FileHeader) -> (w: Self)
        requires
            header.wf(),
        ensures
            w@ == writer_created(*header),
    {
        let mut out: Vec<u8> = Vec::new();
        Self::write_header(&mut out, header);
        EgorecWriter { out, index: Vec::new(), frame_count: 0, first_ts: None, last_ts: None }
    }

    fn write_header(out: &mut Vec<u8>, header: &FileHeader)
        requires
            header.wf(),
        ensures
            final(out)@ == old(out)@ + header.spec_bytes(),
    {
        header.write_to(out);
    }

    /// Appends a frame block with pre-compressed RGB and depth data, and an
    /// index entry pointing at it.
    pub fn write_frame(
        &mut self,
        timestamp_us: u64,
        frame_number: u64,
        is_keyframe: bool,
        rgb_data: &[u8],
        depth_data: &[u8],
    )
        requires
            36 + rgb_data@.len() + depth_data@.len() <= usize::MAX,
            old(self)@.frame_count < u64::MAX,
        ensures
            final(self)@ == old(self)@.after_frame(timestamp_us, frame_number, is_keyframe, rgb_data@,
                depth_data@),
    {
        let block_size = (36 + rgb_data.len() + depth_data.len()) as u32;
        let flags: u16 = if is_keyframe { 1 } else { 0 };
        let offset = self.out.len() as u64;
        let header = FrameBlockHeader {
            magic: FRAME_MAGIC,
            block_size,
            timestamp_us,
            frame_number,
            rgb_compressed_size: rgb_data.len() as u32,
            depth_compressed_size: depth_data.len() as u32,
            imu_sample_count: 0,
            flags,
        };
        header.write_to(&mut self.out);
        push_all(&mut self.out, rgb_data);
        push_all(&mut self.out, depth_data);
        self.index.push(IndexEntry { timestamp_us, file_offset: offset, frame_number });
        if self.first_ts.is_none() {
            self.first_ts = Some(timestamp_us);
        }
        self.last_ts = Some(timestamp_us);
        self.frame_count = self.frame_count + 1;
        proof {
            assert(self.out@ =~= old(self)@.after_frame(timestamp_us, frame_number, is_keyframe, rgb_data@,
                depth_data@).bytes);
        }
    }

    /// Copies the blocks of a contiguous span of frames from a source
    /// recording, recording index entries for them at their new offsets.
    pub fn copy_span(&mut self, source: &[u8], frame_infos: &[FrameInfo])
        requires
            frame_infos@.len() > 0 ==> {
                &&& forall|j: int| 0 <= j < frame_infos@.len() ==> frame_infos@[0].file_offset
                    <= #[trigger] frame_infos@[j].file_offset
                &&& forall|j: int| 0 <= j < frame_infos@.len() ==> old(self)@.bytes.len()
                    + (#[trigger] frame_infos@[j].file_offset - frame_infos@[0].file_offset) <= u64::MAX
                &&& frame_infos@[0].file_offset <= frame_infos@.last().file_offset
                    + frame_infos@.last().block_size <= source@.len()
            },
            old(self)@.frame_count + frame_infos@.len() <= u64::MAX,
        ensures
            final(self)@ == old(self)@.after_span(source@, frame_infos@),
    {
        if frame_infos.len() == 0 {
            return;
        }
        let ghost infos = frame_infos@;
        let source_start = frame_infos[0].file_offset;
        let last = frame_infos[frame_infos.len() - 1];
        let source_len = source.len();
        assert(last == infos.last());
        assert(last.file_offset + last.block_size <= source_len);
        let source_end = last.file_offset + last.block_size as u64;
        let dest_base = self.out.len() as u64;
        let mut k: usize = 0;
        assert(infos.subrange(0, 0) =~= Seq::<FrameInfo>::empty());
        while k < frame_infos.len()
            invariant
                infos == frame_infos@,
                infos.len() > 0,
                k <= infos.len(),
                source_start == infos[0].file_offset,
                forall|j: int| 0 <= j < infos.len() ==> source_start <= #[trigger] infos[j].file_offset,
                forall|j: int| 0 <= j < infos.len() ==> dest_base + (#[trigger] infos[j].file_offset
                    - source_start) <= u64::MAX,
                infos[0].file_offset <= source_end <= source@.len(),
                source_end == infos.last().file_offset + infos.last().block_size,
                dest_base == old(self)@.bytes.len(),
                old(self)@.frame_count + infos.len() <= u64::MAX,
                self@ == old(self)@.after_entries(infos.subrange(0, k as int), dest_base as int),
                self@.frame_count == old(self)@.frame_count + k,
            decreases infos.len() - k,
        {
            let fi = frame_infos[k];
            let ghost pre = infos.subrange(0, k as int);
            let ghost next = infos.subrange(0, k + 1);
            assert(next.drop_last() =~= pre);
            assert(next[0] == infos[0]);
            assert(dest_base + (infos[k as int].file_offset - source_start) <= u64::MAX);
            let dest_offset = dest_base + (fi.file_offset - source_start);
            self.index.push(IndexEntry { timestamp_us: fi.timestamp_us, file_offset: dest_offset, frame_number: fi.frame_number });
            if self.first_ts.is_none() {
                self.first_ts = Some(fi.timestamp_us);
            }
            self.last_ts = Some(fi.timestamp_us);
            self.frame_count = self.frame_count + 1;
            k += 1;
        }
        assert(infos.subrange(0, infos.len() as int) =~= infos);
        let ghost entries_view = self@;
        assert(source_end <= source@.len());
        let mut i = source_start as usize;
        let end = source_end as usize;
        assert(self@.bytes =~= entries_view.bytes + source@.subrange(source_start as int, i as int));
        while i < end
            invariant
                source_start <= i <= end == source_end <= source@.len(),
                self@.index == entries_view.index,
                self@.frame_count == entries_view.frame_count,
                self@.first_ts == entries_view.first_ts,
                self@.last_ts == entries_view.last_ts,
                self@.bytes == entries_view.bytes + source@.subrange(source_start as int, i as int),
            decreases end - i,
        {
            self.out.push(source[i]);
            i += 1;
            assert(self@.bytes =~= entries_view.bytes + source@.subrange(source_start as int, i as int));
        }
    }

    /// Appends the index table and the footer, and returns the finished file.
    pub fn finalize(self) -> (file: Vec<u8>)
        ensures
            file@ == self@.finalized(),
    {
        let ghost v = self@;
        let mut out = self.out;
        let index_offset = out.len() as u64;
        let mut k: usize = 0;
        while k < self.index.len()
            invariant
                k <= self.index@.len(),
                v == self@,
                out@ == v.bytes + index_bytes(v.index.subrange(0, k as int)),
            decreases self.index@.len() - k,
        {
            let entry = &self.index[k];
            proof {
                assert(v.index.subrange(0, k + 1).drop_last() =~= v.index.subrange(0, k as int));
            }
            entry.write_to(&mut out);
            k += 1;
        }
        assert(v.index.subrange(0, v.index.len() as int) =~= v.index);
        let duration_us = match (self.first_ts, self.last_ts) {
            (Some(first), Some(last)) => if last >= first { last - first } else { 0 },
            _ => 0,
        };
        let footer = FileFooter {
            index_magic: INDEX_MAGIC,
            index_offset,
            index_entry_count: self.index.len() as u32,
            total_frames: self.frame_count,
            total_duration_us: duration_us,
            footer_magic: FOOTER_MAGIC,
        };
        footer.write_to(&mut out);
        out
    }
}

// ---------------------------------------------------------------------------
// What is written reads back.

/// A frame handed to `write_frame`.
pub struct FrameData {
    pub timestamp_us: u64,
    pub frame_number: u64,
    pub is_keyframe: bool,
    pub rgb: Seq<u8>,
    pub depth: Seq<u8>,
}

/// The writer after writing each frame in turn.
pub open spec fn write_frames(w: WriterView, frames: Seq<FrameData>) -> WriterView
    decreases frames.len(),
{
    if frames.len() == 0 {
        w
    } else {
        let f = frames.last();
        write_frames(w, frames.drop_last()).after_frame(f.timestamp_us, f.frame_number, f.is_keyframe,
            f.rgb, f.depth)
    }
}

/// The block a frame is written as.
pub open spec fn block_of(f: FrameData) -> Seq<u8> {
    frame_block_header(f.timestamp_us, f.frame_number, f.is_keyframe, f.rgb.len(), f.depth.len()).spec_bytes()
        + f.rgb + f.depth
}

/// The blocks of the frames, in order.
pub open spec fn blocks_of(frames: Seq<FrameData>) -> Seq<u8>
    decreases frames.len(),
{
    if frames.len() == 0 {
        Seq::empty()
    } else {
        blocks_of(frames.drop_last()) + block_of(frames.last())
    }
}

/// The frame's block size fits the 32-bit field.
pub open spec fn block_fits(f: FrameData) -> bool {
    36 + f.rgb.len() + f.depth.len() <= u32::MAX
}

/// Where the RGB payload of each frame lies (start, length) when the blocks
/// are written from `base` on.
pub open spec fn rgb_positions(base: int, frames: Seq<FrameData>) -> Seq<(int, int)> {
    Seq::new(frames.len(), |j: int| (base + blocks_of(frames.take(j)).len() + 36, frames[j].rgb.len() as int))
}

proof fn lemma_write_frames(w: WriterView, frames: Seq<FrameData>)
    ensures
        write_frames(w, frames).bytes == w.bytes + blocks_of(frames),
    decreases frames.len(),
{
    if frames.len() > 0 {
        lemma_write_frames(w, frames.drop_last());
        let f = frames.last();
        let v = write_frames(w, frames.drop_last());
        assert(v.after_frame(f.timestamp_us, f.frame_number, f.is_keyframe, f.rgb, f.depth).bytes
            =~= w.bytes + blocks_of(frames));
    }
}

proof fn lemma_write_frames_count(w: WriterView, frames: Seq<FrameData>)
    requires
        w.frame_count + frames.len() <= u64::MAX,
    ensures
        write_frames(w, frames).frame_count == w.frame_count + frames.len(),
    decreases frames.len(),
{
    if frames.len() > 0 {
        lemma_write_frames_count(w, frames.drop_last());
    }
}

proof fn lemma_block_len(f: FrameData)
    ensures
        block_of(f).len() == 36 + f.rgb.len() + f.depth.len(),
{
}

proof fn lemma_blocks_prefix(frames: Seq<FrameData>, i: int)
    requires
        0 <= i <= frames.len(),
    ensures
        blocks_of(frames.take(i)).len() <= blocks_of(frames).len(),
        blocks_of(frames).subrange(0, blocks_of(frames.take(i)).len() as int) == blocks_of(frames.take(i)),
    decreases frames.len(),
{
    if i == frames.len() {
        assert(frames.take(i) =~= frames);
    } else {
        let p = frames.drop_last();
        lemma_blocks_prefix(p, i);
        assert(p.take(i) =~= frames.take(i));
        let bp = blocks_of(p);
        assert(blocks_of(frames).subrange(0, bp.len() as int) =~= bp);
        assert(blocks_of(frames).subrange(0, blocks_of(frames.take(i)).len() as int)
            =~= bp.subrange(0, blocks_of(frames.take(i)).len() as int));
    }
}

proof fn lemma_blocks_step(frames: Seq<FrameData>, i: int)
    requires
        0 <= i < frames.len(),
    ensures
        blocks_of(frames.take(i + 1)) == blocks_of(frames.take(i)) + block_of(frames[i]),
{
    assert(frames.take(i + 1).drop_last() =~= frames.take(i));
}

proof fn lemma_walk_blocks(d: Seq<u8>, base: int, frames: Seq<FrameData>, i: int)
    requires
        0 <= base,
        0 <= i <= frames.len(),
        base + blocks_of(frames).len() <= d.len(),
        d.subrange(base, base + blocks_of(frames).len()) == blocks_of(frames),
        forall|j: int| 0 <= j < frames.len() ==> block_fits(#[trigger] frames[j]),
    ensures
        frame_walk(d, base + blocks_of(frames.take(i)).len(), base + blocks_of(frames).len()) == (
            rgb_positions(base, frames).subrange(i, frames.len() as int),
            WalkEnd::Done,
        ),
    decreases frames.len() - i,
{
    let n = frames.len() as int;
    let total = blocks_of(frames).len() as int;
    let end = base + total;
    let li = blocks_of(frames.take(i)).len() as int;
    let off = base + li;
    if i == n {
        assert(frames.take(i) =~= frames);
        assert(rgb_positions(base, frames).subrange(i, n) =~= Seq::<(int, int)>::empty());
    } else {
        let f = frames[i];
        assert(block_fits(f));
        lemma_blocks_step(frames, i);
        lemma_blocks_prefix(frames, i + 1);
        lemma_block_len(f);
        let li1 = blocks_of(frames.take(i + 1)).len() as int;
        let bl = blocks_of(frames);
        let blk = block_of(f);
        assert(bl.subrange(0, li1) == blocks_of(frames.take(i)) + blk);
        assert(d.subrange(off, off + blk.len()) =~= blk) by {
            assert forall|k: int| 0 <= k < blk.len() implies d.subrange(off, off + blk.len())[k] == blk[k] by {
                assert(d.subrange(base, end)[li + k] == bl[li + k]);
                assert(bl.subrange(0, li1)[li + k] == (blocks_of(frames.take(i)) + blk)[li + k]);
            }
        }
        let h = frame_block_header(f.timestamp_us, f.frame_number, f.is_keyframe, f.rgb.len(), f.depth.len());
        let hb = h.spec_bytes();
        let pre = d.subrange(0, off);
        let post = d.subrange(off + 36, d.len() as int);
        assert(d.subrange(off, off + 36) =~= hb) by {
            assert forall|k: int| 0 <= k < 36 implies d.subrange(off, off + 36)[k] == hb[k] by {
                assert(d.subrange(off, off + blk.len())[k] == blk[k]);
            }
        }
        assert(d =~= pre + hb + post);
        lemma_frame_block_header_roundtrip(h, pre, post);
        assert(h.read_at(d, off));
        lemma_walk_blocks(d, base, frames, i + 1);
        let rest = frame_walk(d, off + h.block_size, end);
        assert(off + h.block_size == base + li1);
        assert(rgb_positions(base, frames).subrange(i, n) =~= seq![(off + 36, f.rgb.len() as int)]
            + rgb_positions(base, frames).subrange(i + 1, n));
    }
}

proof fn lemma_rgb_payloads(d: Seq<u8>, base: int, frames: Seq<FrameData>)
    requires
        0 <= base,
        base + blocks_of(frames).len() <= d.len(),
        d.subrange(base, base + blocks_of(frames).len()) == blocks_of(frames),
    ensures
        forall|j: int| 0 <= j < frames.len() ==> rgb_payload(d, #[trigger] rgb_positions(base, frames)[j])
            == frames[j].rgb,
{
    assert forall|j: int| 0 <= j < frames.len() implies rgb_payload(d, #[trigger] rgb_positions(base, frames)[j])
        == frames[j].rgb by {
        let f = frames[j];
        lemma_blocks_step(frames, j);
        lemma_blocks_prefix(frames, j + 1);
        lemma_block_len(f);
        let lj = blocks_of(frames.take(j)).len() as int;
        let lj1 = blocks_of(frames.take(j + 1)).len() as int;
        let bl = blocks_of(frames);
        let blk = block_of(f);
        let start = base + lj + 36;
        assert(bl.subrange(0, lj1) == blocks_of(frames.take(j)) + blk);
        assert(rgb_payload(d, rgb_positions(base, frames)[j]) =~= f.rgb) by {
            assert forall|k: int| 0 <= k < f.rgb.len() implies d.subrange(start, start + f.rgb.len())[k] == f.rgb[k] by {
                assert(d.subrange(base, base + bl.len())[lj + 36 + k] == bl[lj + 36 + k]);
                assert(bl.subrange(0, lj1)[lj + 36 + k] == (blocks_of(frames.take(j)) + blk)[lj + 36 + k]);
                assert(blk[36 + k] == f.rgb[k]);
            }
        }
    }
}

/// A recording written by the writer (H.264 header, at least one frame,
/// block sizes that fit their 32-bit field) reads back: the conversion
/// finds no error, its walk over the frame blocks visits exactly the frames
/// written, in order, and each frame's RGB payload is the data written.
pub proof fn lemma_written_recording_reads_back(header: FileHeader, frames: Seq<FrameData>)
    requires
        header.wf(),
        header.magic@ == file_magic(),
        header.header_size == 472,
        header.rgb_codec == 2,
        0 < frames.len() <= u64::MAX,
        forall|j: int| 0 <= j < frames.len() ==> block_fits(#[trigger] frames[j]),
        472 + blocks_of(frames).len() <= u64::MAX,
    ensures
        ({
            let d = write_frames(writer_created(header), frames).finalized();
            &&& recording_error(d) is None
            &&& recording_walk(d) == (rgb_positions(472, frames), WalkEnd::Done)
            &&& forall|j: int| 0 <= j < frames.len() ==> rgb_payload(d, #[trigger] rgb_positions(472, frames)[j])
                == frames[j].rgb
        }),
{
    let w0 = writer_created(header);
    let w = write_frames(w0, frames);
    let d = w.finalized();
    let hb = header.spec_bytes();
    let blocks = blocks_of(frames);
    lemma_file_header_roundtrip(header, Seq::empty(), blocks + index_bytes(w.index) + w.footer().spec_bytes());
    lemma_write_frames(w0, frames);
    lemma_write_frames_count(w0, frames);
    assert(d =~= Seq::<u8>::empty() + hb + (blocks + index_bytes(w.index) + w.footer().spec_bytes()));
    let f0 = frames[0];
    lemma_blocks_prefix(frames, 1);
    lemma_blocks_step(frames, 0);
    lemma_block_len(f0);
    assert(frames.take(0) =~= Seq::<FrameData>::empty());
    let footer = w.footer();
    let pre = w.bytes + index_bytes(w.index);
    assert(d =~= pre + footer.spec_bytes() + Seq::<u8>::empty());
    lemma_file_footer_roundtrip(footer, pre, Seq::empty());
    assert(footer_pos(d) == pre.len());
    assert(d.subrange(472, 472 + blocks.len() as int) =~= blocks);
    lemma_walk_blocks(d, 472, frames, 0);
    assert(rgb_positions(472, frames).subrange(0, frames.len() as int) =~= rgb_positions(472, frames));
    lemma_rgb_payloads(d, 472, frames);
    assert(d.subrange(0, 8) == header.magic@);
    let fp = footer_pos(d);
    assert(d.len() >= 508);
    assert(le64(d, fp + 16) == frames.len());
}

proof fn lemma_index_bytes(entries: Seq<IndexEntry>, i: int)
    requires
        0 <= i < entries.len(),
    ensures
        index_bytes(entries).len() == 24 * entries.len(),
        index_bytes(entries).subrange(24 * i, 24 * i + 24) == entries[i].spec_bytes(),
    decreases entries.len(),
{
    let p = entries.drop_last();
    lemma_index_bytes_len(p);
    lemma_index_bytes_len(entries);
    let bp = index_bytes(p);
    let e = entries.last();
    assert(e.spec_bytes().len() == 24);
    if i < entries.len() - 1 {
        lemma_index_bytes(p, i);
        assert(index_bytes(entries).subrange(24 * i, 24 * i + 24) =~= bp.subrange(24 * i, 24 * i + 24));
    } else {
        assert(index_bytes(entries).subrange(24 * i, 24 * i + 24) =~= e.spec_bytes());
    }
}

proof fn lemma_index_bytes_len(entries: Seq<IndexEntry>)
    ensures
        index_bytes(entries).len() == 24 * entries.len(),
    decreases entries.len(),
{
    if entries.len() > 0 {
        lemma_index_bytes_len(entries.drop_last());
    }
}

proof fn lemma_written_index(w: WriterView, frames: Seq<FrameData>, i: int)
    requires
        0 <= i < frames.len(),
        w.bytes.len() + blocks_of(frames).len() <= u64::MAX,
    ensures
        write_frames(w, frames).index.len() == w.index.len() + frames.len(),
        write_frames(w, frames).index[w.index.len() + i].file_offset == w.bytes.len() + blocks_of(frames.take(i)).len(),
        write_frames(w, frames).index[w.index.len() + i].timestamp_us == frames[i].timestamp_us,
    decreases frames.len(),
{
    let p = frames.drop_last();
    lemma_write_frames(w, p);
    lemma_blocks_prefix(frames, frames.len() - 1);
    assert(frames.take(frames.len() - 1) =~= p);
    if i < frames.len() - 1 {
        lemma_blocks_prefix(p, i);
        assert(p.take(i) =~= frames.take(i));
        lemma_written_index(w, p, i);
    } else if p.len() > 0 {
        lemma_written_index(w, p, 0);
    }
    if p.len() == 0 {
        assert(write_frames(w, p) == w);
    }
}

proof fn lemma_written_index_len(w: WriterView, frames: Seq<FrameData>)
    ensures
        write_frames(w, frames).index.len() == w.index.len() + frames.len(),
    decreases frames.len(),
{
    if frames.len() > 0 {
        lemma_written_index_len(w, frames.drop_last());
    }
}

/// A recording written by the writer with at least one frame passes the
/// structural checks: no errors, an intact footer, and an index with an
/// entry per frame.
pub proof fn lemma_written_recording_validates(header: FileHeader, frames: Seq<FrameData>)
    requires
        header.wf(),
        header.magic@ == file_magic(),
        0 < frames.len() <= u32::MAX,
        forall|j: int| 0 <= j < frames.len() ==> block_fits(#[trigger] frames[j]),
        472 + blocks_of(frames).len() <= u64::MAX,
    ensures
        ({
            let v = validation_spec(write_frames(writer_created(header), frames).finalized());
            &&& v.valid
            &&& v.errors.len() == 0
            &&& v.has_footer
            &&& v.has_index
            &&& v.index_entries == frames.len()
            &&& v.total_frames == frames.len()
        }),
{
    let w0 = writer_created(header);
    let w = write_frames(w0, frames);
    let d = w.finalized();
    let hb = header.spec_bytes();
    let blocks = blocks_of(frames);
    let n = frames.len() as int;
    lemma_file_header_roundtrip(header, Seq::empty(), blocks + index_bytes(w.index) + w.footer().spec_bytes());
    lemma_write_frames(w0, frames);
    lemma_write_frames_count(w0, frames);
    lemma_written_index_len(w0, frames);
    lemma_index_bytes_len(w.index);
    assert(d =~= Seq::<u8>::empty() + hb + (blocks + index_bytes(w.index) + w.footer().spec_bytes()));
    let footer = w.footer();
    let pre = w.bytes + index_bytes(w.index);
    assert(d =~= pre + footer.spec_bytes() + Seq::<u8>::empty());
    lemma_file_footer_roundtrip(footer, pre, Seq::empty());
    let fp = d.len() - 36;
    let io = 472 + blocks.len() as int;
    assert(le64(d, fp + 4) == io);
    assert(le32(d, fp + 12) == n);
    // Header: magic and version.
    assert(d.subrange(0, 8) == file_magic());
    assert(d.subrange(0, 6) =~= magic_prefix()) by {
        assert(d.subrange(0, 6) =~= d.subrange(0, 8).subrange(0, 6));
    }
    assert(d[6] == d.subrange(0, 8)[6]);
    assert(header_errors(d) =~= Seq::<Seq<char>>::empty());
    assert(footer_errors(d) =~= Seq::<Seq<char>>::empty());
    // Index entries: offsets strictly increasing and past the header.
    assert forall|i: int| 0 <= i < n implies entry_offset(d, io, i) == 472 + blocks_of(frames.take(i)).len() by {
        lemma_written_index(w0, frames, i);
        lemma_index_bytes(w.index, i);
        let e = w.index[i];
        let ipre = w.bytes + index_bytes(w.index).subrange(0, 24 * i);
        let ipost = index_bytes(w.index).subrange(24 * i + 24, index_bytes(w.index).len() as int) + footer.spec_bytes();
        assert(d =~= ipre + e.spec_bytes() + ipost);
        lemma_index_entry_roundtrip(e, ipre, ipost);
    }
    assert forall|i: int| 0 <= i < n implies #[trigger] entry_errors(d, io, i) =~= Seq::<Seq<char>>::empty() by {
        lemma_blocks_prefix(frames, i);
        if i > 0 {
            lemma_blocks_step(frames, i - 1);
            lemma_block_len(frames[i - 1]);
            assert(entry_offset(d, io, i - 1) == 472 + blocks_of(frames.take(i - 1)).len());
        }
    }
    assert forall|k: nat| k <= n implies #[trigger] index_errors(d, io, k) =~= Seq::<Seq<char>>::empty() by {
        lemma_index_errors_empty(d, io, k, n);
    }
    assert(index_errors(d, io, n as nat) =~= Seq::<Seq<char>>::empty());
    // First frame block's magic.
    let f0 = frames[0];
    lemma_blocks_prefix(frames, 1);
    lemma_blocks_step(frames, 0);
    lemma_block_len(f0);
    assert(frames.take(0) =~= Seq::<FrameData>::empty());
    let h0 = frame_block_header(f0.timestamp_us, f0.frame_number, f0.is_keyframe, f0.rgb.len(), f0.depth.len());
    let bpost = d.subrange(508, d.len() as int);
    assert(d.subrange(472, 508) =~= h0.spec_bytes()) by {
        assert forall|k: int| 0 <= k < 36 implies d.subrange(472, 508)[k] == h0.spec_bytes()[k] by {
            assert(d[472 + k] == blocks[k]);
            assert(blocks.subrange(0, block_of(f0).len() as int)[k] == block_of(f0)[k]);
        }
    }
    assert(d =~= d.subrange(0, 472) + h0.spec_bytes() + bpost);
    lemma_frame_block_header_roundtrip(h0, d.subrange(0, 472), bpost);
    assert(le32(d, 472) == FRAME_MAGIC);
}

proof fn lemma_index_errors_empty(d: Seq<u8>, io: int, k: nat, n: int)
    requires
        k <= n,
        forall|i: int| 0 <= i < n ==> #[trigger] entry_errors(d, io, i) =~= Seq::<Seq<char>>::empty(),
    ensures
        index_errors(d, io, k) =~= Seq::<Seq<char>>::empty(),
    decreases k,
{
    if k > 0 {
        lemma_index_errors_empty(d, io, (k - 1) as nat, n);
        assert(entry_errors(d, io, k - 1) =~= Seq::<Seq<char>>::empty());
    }
}


// ---------------------------------------------------------------------------
// What is written remuxes to the RGB data written.

/// The RGB payloads of the frames, one after the other.
pub open spec fn rgb_stream(frames: Seq<FrameData>) -> Seq<u8>
    decreases frames.len(),
{
    if frames.len() == 0 {
        Seq::empty()
    } else {
        rgb_stream(frames.drop_last()) + frames.last().rgb
    }
}

proof fn lemma_remux_blocks(d: Seq<u8>, base: int, frames: Seq<FrameData>, i: int)
    requires
        0 <= base,
        0 <= i <= frames.len(),
        base + blocks_of(frames).len() <= d.len(),
        d.subrange(base, base + blocks_of(frames).len()) == blocks_of(frames),
        forall|j: int| 0 <= j < frames.len() ==> block_fits(#[trigger] frames[j]),
    ensures
        remux_walk(d, base + blocks_of(frames.take(i)).len(), base + blocks_of(frames.take(i)).len(),
            (frames.len() - i) as nat) == (rgb_positions(base, frames).subrange(i, frames.len() as int),
            RemuxEnd::Done, base + blocks_of(frames).len()),
    decreases frames.len() - i,
{
    let n = frames.len() as int;
    let total = blocks_of(frames).len() as int;
    let end = base + total;
    let li = blocks_of(frames.take(i)).len() as int;
    let off = base + li;
    if i == n {
        assert(frames.take(i) =~= frames);
        assert(rgb_positions(base, frames).subrange(i, n) =~= Seq::<(int, int)>::empty());
    } else {
        let f = frames[i];
        assert(block_fits(f));
        lemma_blocks_step(frames, i);
        lemma_blocks_prefix(frames, i + 1);
        lemma_block_len(f);
        let li1 = blocks_of(frames.take(i + 1)).len() as int;
        let bl = blocks_of(frames);
        let blk = block_of(f);
        assert(bl.subrange(0, li1) == blocks_of(frames.take(i)) + blk);
        assert(d.subrange(off, off + blk.len()) =~= blk) by {
            assert forall|k: int| 0 <= k < blk.len() implies d.subrange(off, off + blk.len())[k] == blk[k] by {
                assert(d.subrange(base, end)[li + k] == bl[li + k]);
                assert(bl.subrange(0, li1)[li + k] == (blocks_of(frames.take(i)) + blk)[li + k]);
            }
        }
        let h = frame_block_header(f.timestamp_us, f.frame_number, f.is_keyframe, f.rgb.len(), f.depth.len());
        let hb = h.spec_bytes();
        let pre = d.subrange(0, off);
        let post = d.subrange(off + 36, d.len() as int);
        assert(d.subrange(off, off + 36) =~= hb) by {
            assert forall|k: int| 0 <= k < 36 implies d.subrange(off, off + 36)[k] == hb[k] by {
                assert(d.subrange(off, off + blk.len())[k] == blk[k]);
            }
        }
        assert(d =~= pre + hb + post);
        lemma_frame_block_header_roundtrip(h, pre, post);
        assert(h.read_at(d, off));
        assert(le32(d, off) == FRAME_MAGIC);
        assert(le16(d, off + 32) == 0);
        lemma_remux_blocks(d, base, frames, i + 1);
        assert(off + 36 + le32(d, off + 24) + le32(d, off + 28) + le16(d, off + 32) * 32 == base + li1);
        assert(off + le32(d, off + 4) == base + li1);
        assert(rgb_positions(base, frames).subrange(i, n) =~= seq![(off + 36, f.rgb.len() as int)]
            + rgb_positions(base, frames).subrange(i + 1, n));
    }
}

proof fn lemma_span_bytes_rgb(d: Seq<u8>, base: int, frames: Seq<FrameData>, k: int)
    requires
        0 <= base,
        0 <= k <= frames.len(),
        base + blocks_of(frames).len() <= d.len(),
        d.subrange(base, base + blocks_of(frames).len()) == blocks_of(frames),
    ensures
        span_bytes(d, rgb_positions(base, frames).take(k)) == rgb_stream(frames.take(k)),
    decreases k,
{
    if k == 0 {
        assert(rgb_positions(base, frames).take(0) =~= Seq::<(int, int)>::empty());
        assert(frames.take(0) =~= Seq::<FrameData>::empty());
    } else {
        lemma_span_bytes_rgb(d, base, frames, k - 1);
        lemma_rgb_payloads(d, base, frames);
        let ps = rgb_positions(base, frames);
        assert(ps.take(k).drop_last() =~= ps.take(k - 1));
        assert(frames.take(k).drop_last() =~= frames.take(k - 1));
        assert(rgb_payload(d, ps[k - 1]) == frames[k - 1].rgb);
    }
}

/// A recording written by the writer (H.264 header, block sizes that fit
/// their 32-bit field) remuxes to the RGB payloads written, in order, with
/// nothing before the index left over.
pub proof fn lemma_written_recording_proxies(header: FileHeader, frames: Seq<FrameData>)
    requires
        header.wf(),
        header.magic@ == file_magic(),
        header.rgb_codec == 2,
        frames.len() <= u64::MAX,
        forall|j: int| 0 <= j < frames.len() ==> block_fits(#[trigger] frames[j]),
        472 + blocks_of(frames).len() <= u64::MAX,
    ensures
        proxy_stream_spec(write_frames(writer_created(header), frames).finalized()) == Ok::<Seq<u8>, ProxyError>(
            rgb_stream(frames)),
{
    let w0 = writer_created(header);
    let w = write_frames(w0, frames);
    let d = w.finalized();
    let hb = header.spec_bytes();
    let blocks = blocks_of(frames);
    let n = frames.len() as int;
    lemma_file_header_roundtrip(header, Seq::empty(), blocks + index_bytes(w.index) + w.footer().spec_bytes());
    lemma_write_frames(w0, frames);
    lemma_write_frames_count(w0, frames);
    assert(d =~= Seq::<u8>::empty() + hb + (blocks + index_bytes(w.index) + w.footer().spec_bytes()));
    let footer = w.footer();
    let pre = w.bytes + index_bytes(w.index);
    assert(d =~= pre + footer.spec_bytes() + Seq::<u8>::empty());
    lemma_file_footer_roundtrip(footer, pre, Seq::empty());
    assert(d.subrange(0, 8) == file_magic());
    assert(d.subrange(0, 6) =~= magic_prefix()) by {
        assert(d.subrange(0, 6) =~= d.subrange(0, 8).subrange(0, 6));
    }
    assert(d[6] == d.subrange(0, 8)[6]);
    assert(d.subrange(472, 472 + blocks.len() as int) =~= blocks);
    assert(frames.take(0) =~= Seq::<FrameData>::empty());
    lemma_remux_blocks(d, 472, frames, 0);
    lemma_span_bytes_rgb(d, 472, frames, n);
    assert(rgb_positions(472, frames).subrange(0, n) =~= rgb_positions(472, frames));
    assert(rgb_positions(472, frames).take(n) =~= rgb_positions(472, frames));
    assert(frames.take(n) =~= frames);
    assert(le64(d, d.len() - 20) == n);
    assert(le64(d, d.len() - 32) == 472 + blocks.len());
}


// ---------------------------------------------------------------------------
// What a scan reads of a written recording.

/// The frame headers of a recording written from `frames`: each frame's
/// fields, at the offset its block was written at.
pub open spec fn written_frame_infos(frames: Seq<FrameData>) -> Seq<FrameInfo> {
    Seq::new(
        frames.len(),
        |i: int|
            FrameInfo {
                frame_number: frames[i].frame_number,
                timestamp_us: frames[i].timestamp_us,
                rgb_compressed_size: frames[i].rgb.len() as u32,
                depth_compressed_size: frames[i].depth.len() as u32,
                file_offset: (472 + blocks_of(frames.take(i)).len()) as u64,
                block_size: (36 + frames[i].rgb.len() + frames[i].depth.len()) as u32,
                is_expected_keyframe: frames[i].frame_number % 30 == 0,
            },
    )
}

proof fn lemma_block_header_at(d: Seq<u8>, base: int, frames: Seq<FrameData>, i: int)
    requires
        0 <= base,
        0 <= i < frames.len(),
        base + blocks_of(frames).len() <= d.len(),
        d.subrange(base, base + blocks_of(frames).len()) == blocks_of(frames),
    ensures
        frame_block_header(frames[i].timestamp_us, frames[i].frame_number, frames[i].is_keyframe,
            frames[i].rgb.len(), frames[i].depth.len()).read_at(d, base + blocks_of(frames.take(i)).len()),
        blocks_of(frames.take(i + 1)).len() == blocks_of(frames.take(i)).len() + 36 + frames[i].rgb.len()
            + frames[i].depth.len(),
        blocks_of(frames.take(i + 1)).len() <= blocks_of(frames).len(),
{
    let total = blocks_of(frames).len() as int;
    let end = base + total;
    let li = blocks_of(frames.take(i)).len() as int;
    let off = base + li;
    let f = frames[i];
    lemma_blocks_step(frames, i);
    lemma_blocks_prefix(frames, i + 1);
    lemma_block_len(f);
    let li1 = blocks_of(frames.take(i + 1)).len() as int;
    let bl = blocks_of(frames);
    let blk = block_of(f);
    assert(bl.subrange(0, li1) == blocks_of(frames.take(i)) + blk);
    let h = frame_block_header(f.timestamp_us, f.frame_number, f.is_keyframe, f.rgb.len(), f.depth.len());
    let hb = h.spec_bytes();
    assert(d.subrange(off, off + 36) =~= hb) by {
        assert forall|k: int| 0 <= k < 36 implies d.subrange(off, off + 36)[k] == hb[k] by {
            assert(d.subrange(base, end)[li + k] == bl[li + k]);
            assert(bl.subrange(0, li1)[li + k] == (blocks_of(frames.take(i)) + blk)[li + k]);
        }
    }
    let pre = d.subrange(0, off);
    let post = d.subrange(off + 36, d.len() as int);
    assert(d =~= pre + hb + post);
    lemma_frame_block_header_roundtrip(h, pre, post);
}

proof fn lemma_indexed_written(d: Seq<u8>, io: int, frames: Seq<FrameData>, i: int)
    requires
        0 <= i <= frames.len(),
        472 + blocks_of(frames).len() <= d.len(),
        472 + blocks_of(frames).len() <= u64::MAX,
        d.subrange(472, 472 + blocks_of(frames).len() as int) == blocks_of(frames),
        forall|m: int| 0 <= m < frames.len() ==> #[trigger] entry_offset(d, io, m) == 472 + blocks_of(
            frames.take(m)).len(),
        forall|m: int| 0 <= m < frames.len() ==> block_fits(#[trigger] frames[m]),
    ensures
        indexed_walk(d, io, i, frames.len() as int) == (written_frame_infos(frames).subrange(i,
            frames.len() as int), HeaderWalkEnd::Done, frames.len() as int),
    decreases frames.len() - i,
{
    let n = frames.len() as int;
    if i == n {
        assert(written_frame_infos(frames).subrange(i, n) =~= Seq::<FrameInfo>::empty());
    } else {
        let f = frames[i];
        assert(block_fits(f));
        lemma_block_header_at(d, 472, frames, i);
        let off = entry_offset(d, io, i);
        assert(off == 472 + blocks_of(frames.take(i)).len());
        lemma_indexed_written(d, io, frames, i + 1);
        assert(frame_info_at(d, off) == written_frame_infos(frames)[i]);
        assert(written_frame_infos(frames).subrange(i, n) =~= seq![written_frame_infos(frames)[i]]
            + written_frame_infos(frames).subrange(i + 1, n));
    }
}

/// A recording written by the writer (at most 2^32 - 1 frames, block sizes
/// that fit their 32-bit field) scans back to the frames written: each with
/// its number, timestamp, sizes and the offset its block was written at.
pub proof fn lemma_written_recording_scans(header: FileHeader, frames: Seq<FrameData>)
    requires
        header.wf(),
        header.magic@ == file_magic(),
        frames.len() <= u32::MAX,
        forall|j: int| 0 <= j < frames.len() ==> block_fits(#[trigger] frames[j]),
        472 + blocks_of(frames).len() <= u64::MAX,
    ensures
        scan_frames_spec(write_frames(writer_created(header), frames).finalized()) == Ok::<
            Seq<FrameInfo>,
            ScanErrorView,
        >(written_frame_infos(frames)),
{
    let w0 = writer_created(header);
    let w = write_frames(w0, frames);
    let d = w.finalized();
    let hb = header.spec_bytes();
    let blocks = blocks_of(frames);
    let n = frames.len() as int;
    lemma_file_header_roundtrip(header, Seq::empty(), blocks + index_bytes(w.index) + w.footer().spec_bytes());
    lemma_write_frames(w0, frames);
    lemma_write_frames_count(w0, frames);
    lemma_written_index_len(w0, frames);
    lemma_index_bytes_len(w.index);
    assert(d =~= Seq::<u8>::empty() + hb + (blocks + index_bytes(w.index) + w.footer().spec_bytes()));
    let footer = w.footer();
    let pre = w.bytes + index_bytes(w.index);
    assert(d =~= pre + footer.spec_bytes() + Seq::<u8>::empty());
    lemma_file_footer_roundtrip(footer, pre, Seq::empty());
    let fp = d.len() - 36;
    let io = 472 + blocks.len() as int;
    assert(le64(d, fp + 4) == io);
    assert(le32(d, fp + 12) == n);
    assert(d.subrange(0, 8) == file_magic());
    assert(d.subrange(0, 6) =~= magic_prefix()) by {
        assert(d.subrange(0, 6) =~= d.subrange(0, 8).subrange(0, 6));
    }
    assert(d[6] == d.subrange(0, 8)[6]);
    assert(d.subrange(472, 472 + blocks.len() as int) =~= blocks);
    if n == 0 {
        assert(written_frame_infos(frames) =~= Seq::<FrameInfo>::empty());
        assert(le64(d, fp + 16) == 0);
    } else {
        assert forall|i: int| 0 <= i < n implies #[trigger] entry_offset(d, io, i) == 472 + blocks_of(
            frames.take(i)).len() by {
            lemma_written_index(w0, frames, i);
            lemma_index_bytes(w.index, i);
            let e = w.index[i];
            let ipre = w.bytes + index_bytes(w.index).subrange(0, 24 * i);
            let ipost = index_bytes(w.index).subrange(24 * i + 24, index_bytes(w.index).len() as int)
                + footer.spec_bytes();
            assert(d =~= ipre + e.spec_bytes() + ipost);
            lemma_index_entry_roundtrip(e, ipre, ipost);
        }
        lemma_indexed_written(d, io, frames, 0);
        assert(written_frame_infos(frames).subrange(0, n) =~= written_frame_infos(frames));
    }
}


// ---------------------------------------------------------------------------
// Copying a span of a written recording is writing those frames afresh.

proof fn lemma_blocks_split(frames: Seq<FrameData>, j: int, k: int)
    requires
        0 <= j <= k <= frames.len(),
    ensures
        blocks_of(frames.take(k)) == blocks_of(frames.take(j)) + blocks_of(frames.subrange(j, k)),
    decreases k - j,
{
    if k == j {
        assert(frames.subrange(j, k) =~= Seq::<FrameData>::empty());
        assert(blocks_of(frames.take(j)) + blocks_of(frames.subrange(j, k)) =~= blocks_of(frames.take(j)));
    } else {
        lemma_blocks_split(frames, j, k - 1);
        lemma_blocks_step(frames, k - 1);
        assert(frames.subrange(j, k).drop_last() =~= frames.subrange(j, k - 1));
        assert(blocks_of(frames.take(k)) =~= blocks_of(frames.take(j)) + blocks_of(frames.subrange(j, k)));
    }
}

proof fn lemma_entries_rewrite(header: FileHeader, frames: Seq<FrameData>, j: int, k: int, m: int)
    requires
        header.wf(),
        0 <= j < k <= frames.len(),
        0 <= m <= k - j,
        472 + blocks_of(frames).len() <= u64::MAX,
    ensures
        ({
            let w0 = writer_created(header);
            let v = write_frames(w0, frames.subrange(j, k).take(m));
            w0.after_entries(written_frame_infos(frames).subrange(j, k).take(m), 472) == WriterView {
                bytes: w0.bytes,
                ..v
            }
        }),
    decreases m,
{
    let w0 = writer_created(header);
    let infos = written_frame_infos(frames).subrange(j, k);
    let g = frames.subrange(j, k);
    lemma_file_header_roundtrip(header, Seq::empty(), Seq::empty());
    if m == 0 {
        assert(infos.take(0) =~= Seq::<FrameInfo>::empty());
        assert(g.take(0) =~= Seq::<FrameData>::empty());
    } else {
        lemma_entries_rewrite(header, frames, j, k, m - 1);
        assert(infos.take(m).drop_last() =~= infos.take(m - 1));
        assert(g.take(m).drop_last() =~= g.take(m - 1));
        let vp = write_frames(w0, g.take(m - 1));
        lemma_write_frames(w0, g.take(m - 1));
        lemma_blocks_split(frames, j, j + m - 1);
        assert(g.take(m - 1) =~= frames.subrange(j, j + m - 1));
        lemma_blocks_prefix(frames, j + m - 1);
        lemma_blocks_prefix(frames, j);
        let fi = infos.take(m).last();
        assert(fi == written_frame_infos(frames)[j + m - 1]);
        assert(infos.take(m)[0] == written_frame_infos(frames)[j]);
        assert(fi.file_offset == 472 + blocks_of(frames.take(j + m - 1)).len());
        assert(infos.take(m)[0].file_offset == 472 + blocks_of(frames.take(j)).len());
        assert(vp.bytes.len() == 472 + blocks_of(g.take(m - 1)).len());
        assert(g.take(m).last() == frames[j + m - 1]);
    }
}

/// Copying the blocks of frames `j..k` of a recording written from
/// `frames` (block sizes that fit their 32-bit field) into a new recording,
/// with the frame headers the recording holds for them, gives the same
/// writer as writing those frames afresh under the new header; and those
/// frame headers meet what a span copy needs: offsets from the first one
/// on, the last block within the recording.
pub proof fn lemma_span_copy_rewrites(source_header: FileHeader, header: FileHeader, frames: Seq<FrameData>,
    j: int, k: int)
    requires
        source_header.wf(),
        header.wf(),
        0 <= j < k <= frames.len(),
        forall|i: int| 0 <= i < frames.len() ==> block_fits(#[trigger] frames[i]),
        472 + blocks_of(frames).len() <= u64::MAX,
    ensures
        ({
            let d = write_frames(writer_created(source_header), frames).finalized();
            let infos = written_frame_infos(frames).subrange(j, k);
            &&& writer_created(header).after_span(d, infos) == write_frames(writer_created(header),
                frames.subrange(j, k))
            &&& forall|i: int| 0 <= i < infos.len() ==> infos[0].file_offset <= #[trigger] infos[i].file_offset
            &&& infos.last().file_offset + infos.last().block_size <= d.len()
        }),
{
    let ws0 = writer_created(source_header);
    let ws = write_frames(ws0, frames);
    let d = ws.finalized();
    let blocks = blocks_of(frames);
    let w0 = writer_created(header);
    let infos = written_frame_infos(frames).subrange(j, k);
    let g = frames.subrange(j, k);
    let n = k - j;
    lemma_file_header_roundtrip(source_header, Seq::empty(), Seq::empty());
    lemma_file_header_roundtrip(header, Seq::empty(), Seq::empty());
    lemma_write_frames(ws0, frames);
    lemma_write_frames(w0, g);
    assert(d.subrange(472, 472 + blocks.len() as int) =~= blocks);
    lemma_entries_rewrite(header, frames, j, k, n);
    assert(infos.take(n) =~= infos);
    assert(g.take(n) =~= g);
    lemma_blocks_split(frames, j, k);
    lemma_blocks_prefix(frames, k);
    lemma_blocks_prefix(frames, j);
    lemma_blocks_step(frames, k - 1);
    lemma_blocks_prefix(frames, k - 1);
    lemma_block_len(frames[k - 1]);
    assert(block_fits(frames[k - 1]));
    let lj = blocks_of(frames.take(j)).len() as int;
    let lk = blocks_of(frames.take(k)).len() as int;
    assert(infos[0].file_offset == 472 + lj);
    assert(infos.last() == written_frame_infos(frames)[k - 1]);
    assert(infos.last().file_offset + infos.last().block_size == 472 + lk);
    let gb = blocks_of(g);
    assert(d.subrange(472 + lj, 472 + lk) =~= gb) by {
        assert forall|t: int| 0 <= t < gb.len() implies d.subrange(472 + lj, 472 + lk)[t] == gb[t] by {
            assert(d.subrange(472, 472 + blocks.len() as int)[lj + t] == blocks[lj + t]);
            assert(blocks.subrange(0, lk)[lj + t] == blocks_of(frames.take(k))[lj + t]);
        }
    }
    let w = w0.after_entries(infos, 472);
    assert(w0.after_span(d, infos).bytes =~= write_frames(w0, g).bytes);
    assert forall|i: int| 0 <= i < infos.len() implies infos[0].file_offset <= #[trigger] infos[i].file_offset by {
        lemma_blocks_prefix(frames.take(j + i), j);
        assert(frames.take(j + i).take(j) =~= frames.take(j));
        lemma_blocks_prefix(frames, j + i);
    }
}


// ---------------------------------------------------------------------------
// The frame loop over a written recording.

proof fn lemma_written_footer_and_entries(header: FileHeader, frames: Seq<FrameData>)
    requires
        header.wf(),
        header.magic@ == file_magic(),
        frames.len() <= u32::MAX,
        forall|j: int| 0 <= j < frames.len() ==> block_fits(#[trigger] frames[j]),
        472 + blocks_of(frames).len() <= u64::MAX,
    ensures
        ({
            let d = write_frames(writer_created(header), frames).finalized();
            let io = 472 + blocks_of(frames).len() as int;
            &&& d.len() == io + 24 * frames.len() + 36
            &&& d.subrange(472, io) == blocks_of(frames)
            &&& le32(d, d.len() - 4) == FOOTER_MAGIC
            &&& le64(d, d.len() - 32) == io
            &&& le32(d, d.len() - 24) == frames.len()
            &&& le64(d, d.len() - 20) == frames.len()
            &&& header.read_at(d, 0)
            &&& forall|i: int| 0 <= i < frames.len() ==> #[trigger] entry_offset(d, io, i) == 472 + blocks_of(
                frames.take(i)).len()
        }),
{
    let w0 = writer_created(header);
    let w = write_frames(w0, frames);
    let d = w.finalized();
    let hb = header.spec_bytes();
    let blocks = blocks_of(frames);
    let n = frames.len() as int;
    let io = 472 + blocks.len() as int;
    lemma_file_header_roundtrip(header, Seq::empty(), blocks + index_bytes(w.index) + w.footer().spec_bytes());
    lemma_write_frames(w0, frames);
    lemma_write_frames_count(w0, frames);
    lemma_written_index_len(w0, frames);
    lemma_index_bytes_len(w.index);
    assert(d =~= Seq::<u8>::empty() + hb + (blocks + index_bytes(w.index) + w.footer().spec_bytes()));
    let footer = w.footer();
    let pre = w.bytes + index_bytes(w.index);
    assert(d =~= pre + footer.spec_bytes() + Seq::<u8>::empty());
    lemma_file_footer_roundtrip(footer, pre, Seq::empty());
    assert(d.subrange(472, io) =~= blocks);
    assert forall|i: int| 0 <= i < n implies #[trigger] entry_offset(d, io, i) == 472 + blocks_of(
        frames.take(i)).len() by {
        lemma_written_index(w0, frames, i);
        lemma_index_bytes(w.index, i);
        let e = w.index[i];
        let ipre = w.bytes + index_bytes(w.index).subrange(0, 24 * i);
        let ipost = index_bytes(w.index).subrange(24 * i + 24, index_bytes(w.index).len() as int)
            + footer.spec_bytes();
        assert(d =~= ipre + e.spec_bytes() + ipost);
        lemma_index_entry_roundtrip(e, ipre, ipost);
    }
}

/// The frame loop over a recording written by the writer (at most 2^32 - 1
/// frames, block sizes that fit their 32-bit field), opened as `l`, visits
/// the frames written, in order: at frame `i` of the loop it reads frame
/// `i`'s block where it was written, with that frame's RGB and depth
/// payloads, timestamp and number, and moves on to the next block; after
/// the last frame it flushes the decoder (when the recording has RGB) with
/// no data left before the index.
pub proof fn lemma_written_recording_frame_loop(header: FileHeader, frames: Seq<FrameData>, l: RecordingLayout,
    i: int, has_picture: bool)
    requires
        header.wf(),
        header.magic@ == file_magic(),
        frames.len() <= u32::MAX,
        forall|j: int| 0 <= j < frames.len() ==> block_fits(#[trigger] frames[j]),
        472 + blocks_of(frames).len() <= u64::MAX,
        layout_of(l, write_frames(writer_created(header), frames).finalized()),
        0 <= i <= frames.len(),
    ensures
        ({
            let d = write_frames(writer_created(header), frames).finalized();
            let at = 472 + blocks_of(frames.take(i)).len();
            let c = FrameCursor { current_frame: i as u64, position: at as u64, trailing_flushed: false };
            if i < frames.len() {
                let f = frames[i];
                next_action_spec(l, d, c, has_picture) == (FrameCursor {
                    current_frame: (i + 1) as u64,
                    position: (472 + blocks_of(frames.take(i + 1)).len()) as u64,
                    trailing_flushed: false,
                }, FrameActionView::Frame {
                    rgb_start: (at + 36) as u64,
                    rgb_len: f.rgb.len() as u32,
                    depth_start: (at + 36 + f.rgb.len()) as u64,
                    depth_len: f.depth.len() as u32,
                    pop_queued: has_picture,
                    feed_rgb: !has_picture || f.rgb.len() > 0,
                    timestamp_us: f.timestamp_us,
                    frame_number: f.frame_number,
                })
            } else {
                next_action_spec(l, d, c, has_picture) == (FrameCursor { trailing_flushed: true, ..c },
                    FrameActionView::Flush { trailing: None, flush_decoder: header.rgb_codec != 0 })
            }
        }),
{
    let w0 = writer_created(header);
    let d = write_frames(w0, frames).finalized();
    let blocks = blocks_of(frames);
    let n = frames.len() as int;
    let io = 472 + blocks.len() as int;
    lemma_written_footer_and_entries(header, frames);
    lemma_blocks_prefix(frames, i);
    assert(index_offset(d) == io);
    assert(l.index@.len() == n);
    assert(l.total_frames == n);
    assert(l.header.rgb_codec == header.rgb_codec);
    if i < n {
        let f = frames[i];
        assert(block_fits(f));
        lemma_block_header_at(d, 472, frames, i);
        assert(l.index@[i].read_at(d, io + 24 * i));
        assert(l.index@[i].file_offset == entry_offset(d, io, i));
    } else {
        assert(l.footer is Some);
        if n > 0 {
            lemma_block_header_at(d, 472, frames, n - 1);
            assert(frames.take(n) =~= frames);
            assert(l.index@[n - 1].read_at(d, io + 24 * (n - 1)));
            assert(entry_offset(d, io, n - 1) == 472 + blocks_of(frames.take(n - 1)).len());
        }
        assert(l.trailing_data_offset == io);
    }
}

// ---------------------------------------------------------------------------
// The recorded duration.

proof fn lemma_write_frames_timestamps(w: WriterView, frames: Seq<FrameData>)
    requires
        frames.len() > 0,
    ensures
        write_frames(w, frames).first_ts == (if w.first_ts is None {
            Some(frames[0].timestamp_us)
        } else {
            w.first_ts
        }),
        write_frames(w, frames).last_ts == Some(frames.last().timestamp_us),
    decreases frames.len(),
{
    if frames.len() > 1 {
        lemma_write_frames_timestamps(w, frames.drop_last());
        assert(frames.drop_last()[0] == frames[0]);
    } else {
        assert(write_frames(w, frames.drop_last()) == w);
    }
}

/// The footer of a finished recording records as its duration the last
/// written frame's timestamp minus the first one's, whatever the number of
/// frames (0 when the last is earlier than the first, or without frames).
pub proof fn lemma_finalized_duration(header: FileHeader, frames: Seq<FrameData>)
    ensures
        ({
            let d = write_frames(writer_created(header), frames).finalized();
            &&& d.len() >= 36
            &&& le64(d, d.len() - 12) == if frames.len() == 0 {
                0
            } else if frames.last().timestamp_us >= frames[0].timestamp_us {
                frames.last().timestamp_us - frames[0].timestamp_us
            } else {
                0
            }
        }),
{
    let w0 = writer_created(header);
    let w = write_frames(w0, frames);
    let d = w.finalized();
    let footer = w.footer();
    let pre = w.bytes + index_bytes(w.index);
    assert(d =~= pre + footer.spec_bytes() + Seq::<u8>::empty());
    lemma_file_footer_roundtrip(footer, pre, Seq::empty());
    assert(footer.spec_bytes().len() == 36);
    if frames.len() > 0 {
        lemma_write_frames_timestamps(w0, frames);
    } else {
        assert(w == w0);
    }
}

proof fn lemma_after_entries_timestamps(w: WriterView, infos: Seq<FrameInfo>, dest_base: int)
    requires
        infos.len() > 0,
    ensures
        w.after_entries(infos, dest_base).first_ts == (if w.first_ts is None {
            Some(infos[0].timestamp_us)
        } else {
            w.first_ts
        }),
        w.after_entries(infos, dest_base).last_ts == Some(infos.last().timestamp_us),
    decreases infos.len(),
{
    if infos.len() > 1 {
        lemma_after_entries_timestamps(w, infos.drop_last(), dest_base);
        assert(infos.drop_last()[0] == infos[0]);
    } else {
        assert(w.after_entries(infos.drop_last(), dest_base) == w);
    }
}

/// After a span of frames is copied, the finished recording's footer
/// records as duration the last copied frame's timestamp minus the first
/// timestamp the writer holds (that of its first frame, or of the first
/// copied frame when it had none), or 0 when the last is the earlier.
pub proof fn lemma_span_duration(w: WriterView, source: Seq<u8>, infos: Seq<FrameInfo>)
    requires
        infos.len() > 0,
    ensures
        ({
            let d = w.after_span(source, infos).finalized();
            let first = if w.first_ts is None { infos[0].timestamp_us } else { w.first_ts->0 };
            let last = infos.last().timestamp_us;
            &&& d.len() >= 36
            &&& le64(d, d.len() - 12) == if last >= first { last - first } else { 0 }
        }),
{
    let v = w.after_span(source, infos);
    let d = v.finalized();
    let footer = v.footer();
    let pre = v.bytes + index_bytes(v.index);
    assert(d =~= pre + footer.spec_bytes() + Seq::<u8>::empty());
    lemma_file_footer_roundtrip(footer, pre, Seq::empty());
    assert(footer.spec_bytes().len() == 36);
    lemma_after_entries_timestamps(w, infos, w.bytes.len() as int);
}

} // verus!
