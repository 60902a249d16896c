//! The `.egorec` v2 container: file header, frame blocks, index table and
//! footer. All multi-byte values are little-endian. Fields that hold IEEE-754
//! `f32` values on disk are carried here as their 32-bit patterns.
use vstd::prelude::*;
use vstd::utf8::{encode_utf8, valid_utf8};
use crate::byte_order::{le16, le16_bytes, le32, le32_bytes, le64, le64_bytes, lemma_le16_roundtrip,
    lemma_le32_roundtrip, lemma_le64_roundtrip, lemma_le_window, push_all, push_le16, push_le32, push_le64,
    read_le16, read_le32, read_le64, group_le_bytes_len};

verus! {

broadcast use group_le_bytes_len;

/// First six magic bytes: ASCII "EGOREC".
pub open spec fn magic_prefix() -> Seq<u8> {
    seq![0x45u8, 0x47, 0x4F, 0x52, 0x45, 0x43]
}

/// The 8-byte file magic: "EGOREC" followed by version 2.0.
pub open spec fn file_magic() -> Seq<u8> {
    magic_prefix() + seq![0x02u8, 0x00]
}

/// Frame block boundary marker: 'FRME'.
pub const FRAME_MAGIC: u32 = 0x46524D45;
/// Index table start marker: 'INDX'.
pub const INDEX_MAGIC: u32 = 0x58444E49;
/// Footer marker: 'DONE'.
pub const FOOTER_MAGIC: u32 = 0x454E4F44;
/// Serialized size of the file header.
pub const FILE_HEADER_SIZE: usize = 472;
/// Size of one IMU sample on disk.
pub const IMU_SAMPLE_SIZE: usize = 32;

/// Whether the data starts with the six-byte magic prefix.
pub fn has_magic_prefix(data: &[u8]) -> (b: bool)
    requires
        data@.len() >= 6,
    ensures
        b == (data@.subrange(0, 6) == magic_prefix()),
{
    let ghost d = data@;
    let b = data[0] == 0x45 && data[1] == 0x47 && data[2] == 0x4F && data[3] == 0x52 && data[4] == 0x45
        && data[5] == 0x43;
    proof {
        let p = d.subrange(0, 6);
        if p == magic_prefix() {
            assert(p[0] == d[0] && p[1] == d[1] && p[2] == d[2] && p[3] == d[3] && p[4] == d[4] && p[5] == d[5]);
        }
        if b {
            assert(p =~= magic_prefix());
        }
    }
    b
}

/// Returns the 8-byte file magic.
pub fn file_magic_bytes() -> (m: Vec<u8>)
    ensures
        m@ == file_magic(),
{
    let m: Vec<u8> = vec![0x45, 0x47, 0x4F, 0x52, 0x45, 0x43, 0x02, 0x00];
    assert(m@ =~= file_magic());
    m
}

/// File header at byte offset 0: camera calibration, session metadata and
/// compression settings.
pub struct FileHeader {
    pub magic: Vec<u8>,
    pub header_size: u32,
    pub flags: u32,
    pub serial_number: Vec<u8>,
    pub depth_scale: u32,
    pub depth_width: u32,
    pub depth_height: u32,
    pub depth_fx: u32,
    pub depth_fy: u32,
    pub depth_ppx: u32,
    pub depth_ppy: u32,
    pub depth_distortion_model: u32,
    pub depth_distortion_coeffs: Vec<u32>,
    pub color_width: u32,
    pub color_height: u32,
    pub color_fx: u32,
    pub color_fy: u32,
    pub color_ppx: u32,
    pub color_ppy: u32,
    pub color_distortion_model: u32,
    pub color_distortion_coeffs: Vec<u32>,
    pub extrinsic_rotation: Vec<u32>,
    pub extrinsic_translation: Vec<u32>,
    pub session_name: Vec<u8>,
    pub start_timestamp_us: u64,
    pub usb_type: Vec<u8>,
    pub rgb_codec: u8,
    pub depth_codec: u8,
    pub rgb_quality: u8,
    pub zstd_level: u8,
    pub reserved: Vec<u8>,
}

/// Little-endian encoding of each value, concatenated.
pub open spec fn le32_list(values: Seq<u32>) -> Seq<u8>
    decreases values.len(),
{
    if values.len() == 0 {
        Seq::empty()
    } else {
        le32_list(values.drop_last()) + le32_bytes(values.last() as int)
    }
}


/// The `values.len()` little-endian words of `d` at `pos` are `values`.
pub open spec fn le32_list_at(values: Seq<u32>, d: Seq<u8>, pos: int) -> bool {
    forall|i: int| 0 <= i < values.len() ==> #[trigger] values[i] == le32(d, pos + 4 * i)
}

fn read_bytes(data: &[u8], pos: usize, n: usize) -> (r: Vec<u8>)
    requires
        pos + n <= data.len(),
    ensures
        r@ == data@.subrange(pos as int, pos + n),
{
    let mut r: Vec<u8> = Vec::new();
    let mut i: usize = 0;
    while i < n
        invariant
            i <= n,
            pos + n <= data.len(),
            r@ == data@.subrange(pos as int, pos + i),
        decreases n - i,
    {
        r.push(data[pos + i]);
        i += 1;
        assert(r@ =~= data@.subrange(pos as int, pos + i));
    }
    r
}

fn read_le32_list(data: &[u8], pos: usize, n: usize) -> (r: Vec<u32>)
    requires
        pos + 4 * n <= data.len(),
    ensures
        r@.len() == n,
        le32_list_at(r@, data@, pos as int),
{
    let mut r: Vec<u32> = Vec::new();
    let mut i: usize = 0;
    while i < n
        invariant
            i <= n,
            pos + 4 * n <= data.len(),
            r@.len() == i,
            le32_list_at(r@, data@, pos as int),
        decreases n - i,
    {
        r.push(read_le32(data, pos + 4 * i));
        i += 1;
    }
    r
}

fn push_le32_list(out: &mut Vec<u8>, values: &[u32])
    ensures
        final(out)@ == old(out)@ + le32_list(values@),
{
    let mut i: usize = 0;
    while i < values.len()
        invariant
            i <= values@.len(),
            out@ == old(out)@ + le32_list(values@.subrange(0, i as int)),
        decreases values@.len() - i,
    {
        push_le32(out, values[i]);
        i += 1;
        assert(values@.subrange(0, i as int).drop_last() =~= values@.subrange(0, i - 1));
        assert(out@ =~= old(out)@ + le32_list(values@.subrange(0, i as int)));
    }
    assert(values@.subrange(0, i as int) =~= values@);
}

impl FileHeader {
    /// The fixed-size fields have their on-disk lengths.
    pub open spec fn wf(&self) -> bool {
        &&& self.magic@.len() == 8
        &&& self.serial_number@.len() == 32
        &&& self.depth_distortion_coeffs@.len() == 5
        &&& self.color_distortion_coeffs@.len() == 5
        &&& self.extrinsic_rotation@.len() == 9
        &&& self.extrinsic_translation@.len() == 3
        &&& self.session_name@.len() == 128
        &&& self.usb_type@.len() == 8
        &&& self.reserved@.len() == 128
    }

    /// The 472 bytes that encode this header.
    pub open spec fn spec_bytes(&self) -> Seq<u8> {
        self.identity_bytes() + self.depth_bytes() + self.color_bytes() + self.session_bytes()
    }

    /// Magic, sizes, flags and serial number (48 bytes).
    pub open spec fn identity_bytes(&self) -> Seq<u8> {
        self.magic@ + le32_bytes(self.header_size as int) + le32_bytes(self.flags as int)
            + self.serial_number@
    }

    /// Depth stream calibration (52 bytes).
    pub open spec fn depth_bytes(&self) -> Seq<u8> {
        le32_bytes(self.depth_scale as int)
            + le32_bytes(self.depth_width as int) + le32_bytes(self.depth_height as int)
            + le32_bytes(self.depth_fx as int) + le32_bytes(self.depth_fy as int)
            + le32_bytes(self.depth_ppx as int) + le32_bytes(self.depth_ppy as int)
            + le32_bytes(self.depth_distortion_model as int) + le32_list(self.depth_distortion_coeffs@)
    }

    /// Color stream calibration and extrinsics (96 bytes).
    pub open spec fn color_bytes(&self) -> Seq<u8> {
        le32_bytes(self.color_width as int) + le32_bytes(self.color_height as int)
            + le32_bytes(self.color_fx as int) + le32_bytes(self.color_fy as int)
            + le32_bytes(self.color_ppx as int) + le32_bytes(self.color_ppy as int)
            + le32_bytes(self.color_distortion_model as int) + le32_list(self.color_distortion_coeffs@)
            + le32_list(self.extrinsic_rotation@) + le32_list(self.extrinsic_translation@)
    }

    /// Session metadata, codec settings and the reserved tail (276 bytes).
    pub open spec fn session_bytes(&self) -> Seq<u8> {
        self.session_name@ + le64_bytes(self.start_timestamp_us as int) + self.usb_type@
            + seq![self.rgb_codec, self.depth_codec, self.rgb_quality, self.zstd_level]
            + self.reserved@
    }

    /// `self` holds the fields stored in the 472 bytes of `d` at `pos`.
    pub open spec fn read_at(&self, d: Seq<u8>, pos: int) -> bool {
        &&& 0 <= pos
        &&& pos + 472 <= d.len()
        &&& self.wf()
        &&& self.magic@ == d.subrange(pos, pos + 8)
        &&& self.header_size == le32(d, pos + 8)
        &&& self.flags == le32(d, pos + 12)
        &&& self.serial_number@ == d.subrange(pos + 16, pos + 48)
        &&& self.depth_scale == le32(d, pos + 48)
        &&& self.depth_width == le32(d, pos + 52)
        &&& self.depth_height == le32(d, pos + 56)
        &&& self.depth_fx == le32(d, pos + 60)
        &&& self.depth_fy == le32(d, pos + 64)
        &&& self.depth_ppx == le32(d, pos + 68)
        &&& self.depth_ppy == le32(d, pos + 72)
        &&& self.depth_distortion_model == le32(d, pos + 76)
        &&& le32_list_at(self.depth_distortion_coeffs@, d, pos + 80)
        &&& self.color_width == le32(d, pos + 100)
        &&& self.color_height == le32(d, pos + 104)
        &&& self.color_fx == le32(d, pos + 108)
        &&& self.color_fy == le32(d, pos + 112)
        &&& self.color_ppx == le32(d, pos + 116)
        &&& self.color_ppy == le32(d, pos + 120)
        &&& self.color_distortion_model == le32(d, pos + 124)
        &&& le32_list_at(self.color_distortion_coeffs@, d, pos + 128)
        &&& le32_list_at(self.extrinsic_rotation@, d, pos + 148)
        &&& le32_list_at(self.extrinsic_translation@, d, pos + 184)
        &&& self.session_name@ == d.subrange(pos + 196, pos + 324)
        &&& self.start_timestamp_us == le64(d, pos + 324)
        &&& self.usb_type@ == d.subrange(pos + 332, pos + 340)
        &&& self.rgb_codec == d[pos + 340]
        &&& self.depth_codec == d[pos + 341]
        &&& self.rgb_quality == d[pos + 342]
        &&& self.zstd_level == d[pos + 343]
        &&& self.reserved@ == d.subrange(pos + 344, pos + 472)
    }

    /// Reads the file header at `pos`; `None` when fewer than 472 bytes remain.
    pub fn read_from(data: &[u8], pos: usize) -> (r: Option<Self>)
        ensures
            match r {
                Some(h) => h.read_at(data@, pos as int),
                None => data@.len() < pos + 472,
            },
    {
        if pos > data.len() || data.len() - pos < 472 {
            return None;
        }
        Some(FileHeader {
            magic: read_bytes(data, pos, 8),
            header_size: read_le32(data, pos + 8),
            flags: read_le32(data, pos + 12),
            serial_number: read_bytes(data, pos + 16, 32),
            depth_scale: read_le32(data, pos + 48),
            depth_width: read_le32(data, pos + 52),
            depth_height: read_le32(data, pos + 56),
            depth_fx: read_le32(data, pos + 60),
            depth_fy: read_le32(data, pos + 64),
            depth_ppx: read_le32(data, pos + 68),
            depth_ppy: read_le32(data, pos + 72),
            depth_distortion_model: read_le32(data, pos + 76),
            depth_distortion_coeffs: read_le32_list(data, pos + 80, 5),
            color_width: read_le32(data, pos + 100),
            color_height: read_le32(data, pos + 104),
            color_fx: read_le32(data, pos + 108),
            color_fy: read_le32(data, pos + 112),
            color_ppx: read_le32(data, pos + 116),
            color_ppy: read_le32(data, pos + 120),
            color_distortion_model: read_le32(data, pos + 124),
            color_distortion_coeffs: read_le32_list(data, pos + 128, 5),
            extrinsic_rotation: read_le32_list(data, pos + 148, 9),
            extrinsic_translation: read_le32_list(data, pos + 184, 3),
            session_name: read_bytes(data, pos + 196, 128),
            start_timestamp_us: read_le64(data, pos + 324),
            usb_type: read_bytes(data, pos + 332, 8),
            rgb_codec: data[pos + 340],
            depth_codec: data[pos + 341],
            rgb_quality: data[pos + 342],
            zstd_level: data[pos + 343],
            reserved: read_bytes(data, pos + 344, 128),
        })
    }

    /// Appends the 472-byte encoding.
    pub fn write_to(&self, out: &mut Vec<u8>)
        requires
            self.wf(),
        ensures
            final(out)@ == old(out)@ + self.spec_bytes(),
    {
        self.write_identity(out);
        self.write_depth(out);
        self.write_color(out);
        self.write_session(out);
        assert(out@ =~= old(out)@ + self.spec_bytes());
    }

    fn write_identity(&self, out: &mut Vec<u8>)
        ensures
            final(out)@ == old(out)@ + self.identity_bytes(),
    {
        push_all(out, self.magic.as_slice());
        push_le32(out, self.header_size);
        push_le32(out, self.flags);
        push_all(out, self.serial_number.as_slice());
        assert(out@ =~= old(out)@ + self.identity_bytes());
    }

    fn write_depth(&self, out: &mut Vec<u8>)
        ensures
            final(out)@ == old(out)@ + self.depth_bytes(),
    {
        push_le32(out, self.depth_scale);
        push_le32(out, self.depth_width);
        push_le32(out, self.depth_height);
        push_le32(out, self.depth_fx);
        push_le32(out, self.depth_fy);
        push_le32(out, self.depth_ppx);
        push_le32(out, self.depth_ppy);
        push_le32(out, self.depth_distortion_model);
        push_le32_list(out, self.depth_distortion_coeffs.as_slice());
        assert(out@ =~= old(out)@ + self.depth_bytes());
    }

    fn write_color(&self, out: &mut Vec<u8>)
        ensures
            final(out)@ == old(out)@ + self.color_bytes(),
    {
        push_le32(out, self.color_width);
        push_le32(out, self.color_height);
        push_le32(out, self.color_fx);
        push_le32(out, self.color_fy);
        push_le32(out, self.color_ppx);
        push_le32(out, self.color_ppy);
        push_le32(out, self.color_distortion_model);
        push_le32_list(out, self.color_distortion_coeffs.as_slice());
        push_le32_list(out, self.extrinsic_rotation.as_slice());
        push_le32_list(out, self.extrinsic_translation.as_slice());
        assert(out@ =~= old(out)@ + self.color_bytes());
    }

    fn write_session(&self, out: &mut Vec<u8>)
        ensures
            final(out)@ == old(out)@ + self.session_bytes(),
    {
        push_all(out, self.session_name.as_slice());
        push_le64(out, self.start_timestamp_us);
        push_all(out, self.usb_type.as_slice());
        out.push(self.rgb_codec);
        out.push(self.depth_codec);
        out.push(self.rgb_quality);
        out.push(self.zstd_level);
        push_all(out, self.reserved.as_slice());
        assert(out@ =~= old(out)@ + self.session_bytes());
    }

    /// The IMU flag (bit 0 of `flags`) is set.
    pub fn has_imu(&self) -> (r: bool)
        ensures
            r == (self.flags % 2 == 1),
    {
        self.flags % 2 == 1
    }
}

/// Frame block header (36 bytes).
pub struct FrameBlockHeader {
    pub magic: u32,
    pub block_size: u32,
    pub timestamp_us: u64,
    pub frame_number: u64,
    pub rgb_compressed_size: u32,
    pub depth_compressed_size: u32,
    pub imu_sample_count: u16,
    pub flags: u16,
}

/// Index entry (24 bytes).
pub struct IndexEntry {
    pub timestamp_us: u64,
    pub file_offset: u64,
    pub frame_number: u64,
}

/// File footer (36 bytes).
pub struct FileFooter {
    pub index_magic: u32,
    pub index_offset: u64,
    pub index_entry_count: u32,
    pub total_frames: u64,
    pub total_duration_us: u64,
    pub footer_magic: u32,
}

impl FrameBlockHeader {
    pub const SIZE: usize = 36;

    /// The 36 bytes that encode this block header.
    pub open spec fn spec_bytes(&self) -> Seq<u8> {
        le32_bytes(self.magic as int) + le32_bytes(self.block_size as int)
            + le64_bytes(self.timestamp_us as int) + le64_bytes(self.frame_number as int)
            + le32_bytes(self.rgb_compressed_size as int) + le32_bytes(self.depth_compressed_size as int)
            + le16_bytes(self.imu_sample_count as int) + le16_bytes(self.flags as int)
    }

    /// `self` holds the fields stored in the 36 bytes of `d` at `pos`.
    pub open spec fn read_at(&self, d: Seq<u8>, pos: int) -> bool {
        &&& pos + 36 <= d.len()
        &&& self.magic == le32(d, pos)
        &&& self.block_size == le32(d, pos + 4)
        &&& self.timestamp_us == le64(d, pos + 8)
        &&& self.frame_number == le64(d, pos + 16)
        &&& self.rgb_compressed_size == le32(d, pos + 24)
        &&& self.depth_compressed_size == le32(d, pos + 28)
        &&& self.imu_sample_count == le16(d, pos + 32)
        &&& self.flags == le16(d, pos + 34)
    }

    /// Reads the block header at `pos`; `None` when fewer than 36 bytes remain.
    pub fn read_from(data: &[u8], pos: usize) -> (r: Option<Self>)
        ensures
            match r {
                Some(h) => h.read_at(data@, pos as int),
                None => data@.len() < pos + 36,
            },
    {
        if pos > data.len() || data.len() - pos < 36 {
            return None;
        }
        Some(FrameBlockHeader {
            magic: read_le32(data, pos),
            block_size: read_le32(data, pos + 4),
            timestamp_us: read_le64(data, pos + 8),
            frame_number: read_le64(data, pos + 16),
            rgb_compressed_size: read_le32(data, pos + 24),
            depth_compressed_size: read_le32(data, pos + 28),
            imu_sample_count: read_le16(data, pos + 32),
            flags: read_le16(data, pos + 34),
        })
    }

    /// Appends the 36-byte encoding.
    pub fn write_to(&self, out: &mut Vec<u8>)
        ensures
            final(out)@ == old(out)@ + self.spec_bytes(),
    {
        push_le32(out, self.magic);
        push_le32(out, self.block_size);
        push_le64(out, self.timestamp_us);
        push_le64(out, self.frame_number);
        push_le32(out, self.rgb_compressed_size);
        push_le32(out, self.depth_compressed_size);
        push_le16(out, self.imu_sample_count);
        push_le16(out, self.flags);
        assert(out@ =~= old(out)@ + self.spec_bytes());
    }
}

impl IndexEntry {
    pub const SIZE: usize = 24;

    /// The 24 bytes that encode this entry.
    pub open spec fn spec_bytes(&self) -> Seq<u8> {
        le64_bytes(self.timestamp_us as int) + le64_bytes(self.file_offset as int)
            + le64_bytes(self.frame_number as int)
    }

    /// `self` holds the fields stored in the 24 bytes of `d` at `pos`.
    pub open spec fn read_at(&self, d: Seq<u8>, pos: int) -> bool {
        &&& pos + 24 <= d.len()
        &&& self.timestamp_us == le64(d, pos)
        &&& self.file_offset == le64(d, pos + 8)
        &&& self.frame_number == le64(d, pos + 16)
    }

    /// Reads the index entry at `pos`; `None` when fewer than 24 bytes remain.
    pub fn read_from(data: &[u8], pos: usize) -> (r: Option<Self>)
        ensures
            match r {
                Some(e) => e.read_at(data@, pos as int),
                None => data@.len() < pos + 24,
            },
    {
        if pos > data.len() || data.len() - pos < 24 {
            return None;
        }
        Some(IndexEntry {
            timestamp_us: read_le64(data, pos),
            file_offset: read_le64(data, pos + 8),
            frame_number: read_le64(data, pos + 16),
        })
    }

    /// Appends the 24-byte encoding.
    pub fn write_to(&self, out: &mut Vec<u8>)
        ensures
            final(out)@ == old(out)@ + self.spec_bytes(),
    {
        push_le64(out, self.timestamp_us);
        push_le64(out, self.file_offset);
        push_le64(out, self.frame_number);
        assert(out@ =~= old(out)@ + self.spec_bytes());
    }
}

impl FileFooter {
    pub const SIZE: usize = 36;

    /// The 36 bytes that encode this footer.
    pub open spec fn spec_bytes(&self) -> Seq<u8> {
        le32_bytes(self.index_magic as int) + le64_bytes(self.index_offset as int)
            + le32_bytes(self.index_entry_count as int) + le64_bytes(self.total_frames as int)
            + le64_bytes(self.total_duration_us as int) + le32_bytes(self.footer_magic as int)
    }

    /// `self` holds the fields stored in the 36 bytes of `d` at `pos`.
    pub open spec fn read_at(&self, d: Seq<u8>, pos: int) -> bool {
        &&& pos + 36 <= d.len()
        &&& self.index_magic == le32(d, pos)
        &&& self.index_offset == le64(d, pos + 4)
        &&& self.index_entry_count == le32(d, pos + 12)
        &&& self.total_frames == le64(d, pos + 16)
        &&& self.total_duration_us == le64(d, pos + 24)
        &&& self.footer_magic == le32(d, pos + 32)
    }

    /// Reads the footer at `pos`; `None` when fewer than 36 bytes remain.
    pub fn read_from(data: &[u8], pos: usize) -> (r: Option<Self>)
        ensures
            match r {
                Some(f) => f.read_at(data@, pos as int),
                None => data@.len() < pos + 36,
            },
    {
        if pos > data.len() || data.len() - pos < 36 {
            return None;
        }
        Some(FileFooter {
            index_magic: read_le32(data, pos),
            index_offset: read_le64(data, pos + 4),
            index_entry_count: read_le32(data, pos + 12),
            total_frames: read_le64(data, pos + 16),
            total_duration_us: read_le64(data, pos + 24),
            footer_magic: read_le32(data, pos + 32),
        })
    }

    /// Appends the 36-byte encoding.
    pub fn write_to(&self, out: &mut Vec<u8>)
        ensures
            final(out)@ == old(out)@ + self.spec_bytes(),
    {
        push_le32(out, self.index_magic);
        push_le64(out, self.index_offset);
        push_le32(out, self.index_entry_count);
        push_le64(out, self.total_frames);
        push_le64(out, self.total_duration_us);
        push_le32(out, self.footer_magic);
        assert(out@ =~= old(out)@ + self.spec_bytes());
    }
}


// ---------------------------------------------------------------------------
// What is written reads back unchanged.

proof fn lemma_field_reads_back(d: Seq<u8>, w: Seq<u8>, p: int)
    requires
        0 <= p,
        p + w.len() <= d.len(),
        d.subrange(p, p + w.len()) =~= w,
    ensures
        w.len() == 2 ==> le16(d, p) == le16(w, 0),
        w.len() == 4 ==> le32(d, p) == le32(w, 0),
        w.len() == 8 ==> le64(d, p) == le64(w, 0),
{
    lemma_le_window(d, w, p, 0);
}

proof fn lemma_frame_block_header_reads_back(h: FrameBlockHeader)
    ensures
        h.read_at(h.spec_bytes(), 0),
        h.spec_bytes().len() == 36,
{
    let a = le32_bytes(h.magic as int);
    let b = le32_bytes(h.block_size as int);
    let c = le64_bytes(h.timestamp_us as int);
    let e = le64_bytes(h.frame_number as int);
    let f = le32_bytes(h.rgb_compressed_size as int);
    let g = le32_bytes(h.depth_compressed_size as int);
    let i = le16_bytes(h.imu_sample_count as int);
    let j = le16_bytes(h.flags as int);
    let s = h.spec_bytes();
    lemma_le32_roundtrip(h.magic as int);
    lemma_le32_roundtrip(h.block_size as int);
    lemma_le64_roundtrip(h.timestamp_us as int);
    lemma_le64_roundtrip(h.frame_number as int);
    lemma_le32_roundtrip(h.rgb_compressed_size as int);
    lemma_le32_roundtrip(h.depth_compressed_size as int);
    lemma_le16_roundtrip(h.imu_sample_count as int);
    lemma_le16_roundtrip(h.flags as int);
    lemma_field_reads_back(s, a, 0);
    lemma_field_reads_back(s, b, 4);
    lemma_field_reads_back(s, c, 8);
    lemma_field_reads_back(s, e, 16);
    lemma_field_reads_back(s, f, 24);
    lemma_field_reads_back(s, g, 28);
    lemma_field_reads_back(s, i, 32);
    lemma_field_reads_back(s, j, 34);
}

/// A frame block header written anywhere in a byte stream reads back as the
/// same header.
pub proof fn lemma_frame_block_header_roundtrip(h: FrameBlockHeader, pre: Seq<u8>, post: Seq<u8>)
    ensures
        h.read_at(pre + h.spec_bytes() + post, pre.len() as int),
{
    lemma_frame_block_header_reads_back(h);
    let w = h.spec_bytes();
    let d = pre + w + post;
    let p = pre.len() as int;
    assert(d.subrange(p, p + 36) =~= w);
    lemma_le_window(d, w, p, 0);
    lemma_le_window(d, w, p, 4);
    lemma_le_window(d, w, p, 8);
    lemma_le_window(d, w, p, 16);
    lemma_le_window(d, w, p, 24);
    lemma_le_window(d, w, p, 28);
    lemma_le_window(d, w, p, 32);
    lemma_le_window(d, w, p, 34);
}

proof fn lemma_index_entry_reads_back(e: IndexEntry)
    ensures
        e.read_at(e.spec_bytes(), 0),
        e.spec_bytes().len() == 24,
{
    let s = e.spec_bytes();
    lemma_le64_roundtrip(e.timestamp_us as int);
    lemma_le64_roundtrip(e.file_offset as int);
    lemma_le64_roundtrip(e.frame_number as int);
    lemma_field_reads_back(s, le64_bytes(e.timestamp_us as int), 0);
    lemma_field_reads_back(s, le64_bytes(e.file_offset as int), 8);
    lemma_field_reads_back(s, le64_bytes(e.frame_number as int), 16);
}

/// An index entry written anywhere in a byte stream reads back as the same entry.
pub proof fn lemma_index_entry_roundtrip(e: IndexEntry, pre: Seq<u8>, post: Seq<u8>)
    ensures
        e.read_at(pre + e.spec_bytes() + post, pre.len() as int),
{
    lemma_index_entry_reads_back(e);
    let w = e.spec_bytes();
    let d = pre + w + post;
    let p = pre.len() as int;
    assert(d.subrange(p, p + 24) =~= w);
    lemma_le_window(d, w, p, 0);
    lemma_le_window(d, w, p, 8);
    lemma_le_window(d, w, p, 16);
}

proof fn lemma_file_footer_reads_back(f: FileFooter)
    ensures
        f.read_at(f.spec_bytes(), 0),
        f.spec_bytes().len() == 36,
{
    let s = f.spec_bytes();
    lemma_le32_roundtrip(f.index_magic as int);
    lemma_le64_roundtrip(f.index_offset as int);
    lemma_le32_roundtrip(f.index_entry_count as int);
    lemma_le64_roundtrip(f.total_frames as int);
    lemma_le64_roundtrip(f.total_duration_us as int);
    lemma_le32_roundtrip(f.footer_magic as int);
    lemma_field_reads_back(s, le32_bytes(f.index_magic as int), 0);
    lemma_field_reads_back(s, le64_bytes(f.index_offset as int), 4);
    lemma_field_reads_back(s, le32_bytes(f.index_entry_count as int), 12);
    lemma_field_reads_back(s, le64_bytes(f.total_frames as int), 16);
    lemma_field_reads_back(s, le64_bytes(f.total_duration_us as int), 24);
    lemma_field_reads_back(s, le32_bytes(f.footer_magic as int), 32);
}

/// A footer written anywhere in a byte stream reads back as the same footer.
pub proof fn lemma_file_footer_roundtrip(f: FileFooter, pre: Seq<u8>, post: Seq<u8>)
    ensures
        f.read_at(pre + f.spec_bytes() + post, pre.len() as int),
{
    lemma_file_footer_reads_back(f);
    let w = f.spec_bytes();
    let d = pre + w + post;
    let p = pre.len() as int;
    assert(d.subrange(p, p + 36) =~= w);
    lemma_le_window(d, w, p, 0);
    lemma_le_window(d, w, p, 4);
    lemma_le_window(d, w, p, 12);
    lemma_le_window(d, w, p, 16);
    lemma_le_window(d, w, p, 24);
    lemma_le_window(d, w, p, 32);
}


proof fn lemma_le32_list_reads_back(values: Seq<u32>)
    ensures
        le32_list(values).len() == 4 * values.len(),
        le32_list_at(values, le32_list(values), 0),
    decreases values.len(),
{
    if values.len() > 0 {
        let init = values.drop_last();
        lemma_le32_list_reads_back(init);
        let s = le32_list(values);
        let a = le32_list(init);
        let b = le32_bytes(values.last() as int);
        lemma_le32_roundtrip(values.last() as int);
        assert(s.subrange(0, a.len() as int) =~= a);
        assert(s.subrange(a.len() as int, s.len() as int) =~= b);
        assert forall|i: int| 0 <= i < values.len() implies #[trigger] values[i] == le32(s, 0 + 4 * i) by {
            if i < init.len() {
                lemma_le_window(s, a, 0, 4 * i);
                assert(values[i] == init[i]);
            } else {
                lemma_le_window(s, b, a.len() as int, 0);
            }
        }
    }
}

proof fn lemma_list_window(values: Seq<u32>, d: Seq<u8>, w: Seq<u8>, p: int, k: int)
    requires
        0 <= p,
        0 <= k,
        k + 4 * values.len() <= w.len(),
        p + w.len() <= d.len(),
        d.subrange(p, p + w.len()) == w,
        le32_list_at(values, w, k),
    ensures
        le32_list_at(values, d, p + k),
{
    assert forall|i: int| 0 <= i < values.len() implies #[trigger] values[i] == le32(d, p + k + 4 * i) by {
        lemma_le_window(d, w, p, k + 4 * i);
    }
}

proof fn lemma_header_parts_read_back(h: FileHeader)
    requires
        h.wf(),
    ensures
        h.identity_bytes().len() == 48,
        h.depth_bytes().len() == 52,
        h.color_bytes().len() == 96,
        h.session_bytes().len() == 276,
        h.identity_bytes().subrange(0, 8) == h.magic@,
        le32(h.identity_bytes(), 8) == h.header_size,
        le32(h.identity_bytes(), 12) == h.flags,
        h.identity_bytes().subrange(16, 48) == h.serial_number@,
        le32(h.depth_bytes(), 0) == h.depth_scale,
        le32(h.depth_bytes(), 4) == h.depth_width,
        le32(h.depth_bytes(), 8) == h.depth_height,
        le32(h.depth_bytes(), 12) == h.depth_fx,
        le32(h.depth_bytes(), 16) == h.depth_fy,
        le32(h.depth_bytes(), 20) == h.depth_ppx,
        le32(h.depth_bytes(), 24) == h.depth_ppy,
        le32(h.depth_bytes(), 28) == h.depth_distortion_model,
        le32_list_at(h.depth_distortion_coeffs@, h.depth_bytes(), 32),
        le32(h.color_bytes(), 0) == h.color_width,
        le32(h.color_bytes(), 4) == h.color_height,
        le32(h.color_bytes(), 8) == h.color_fx,
        le32(h.color_bytes(), 12) == h.color_fy,
        le32(h.color_bytes(), 16) == h.color_ppx,
        le32(h.color_bytes(), 20) == h.color_ppy,
        le32(h.color_bytes(), 24) == h.color_distortion_model,
        le32_list_at(h.color_distortion_coeffs@, h.color_bytes(), 28),
        le32_list_at(h.extrinsic_rotation@, h.color_bytes(), 48),
        le32_list_at(h.extrinsic_translation@, h.color_bytes(), 84),
        h.session_bytes().subrange(0, 128) == h.session_name@,
        le64(h.session_bytes(), 128) == h.start_timestamp_us,
        h.session_bytes().subrange(136, 144) == h.usb_type@,
        h.session_bytes()[144] == h.rgb_codec,
        h.session_bytes()[145] == h.depth_codec,
        h.session_bytes()[146] == h.rgb_quality,
        h.session_bytes()[147] == h.zstd_level,
        h.session_bytes().subrange(148, 276) == h.reserved@,
{
    let id = h.identity_bytes();
    lemma_le32_roundtrip(h.header_size as int);
    lemma_le32_roundtrip(h.flags as int);
    assert(id.subrange(0, 8) =~= h.magic@);
    assert(id.subrange(16, 48) =~= h.serial_number@);
    lemma_field_reads_back(id, le32_bytes(h.header_size as int), 8);
    lemma_field_reads_back(id, le32_bytes(h.flags as int), 12);

    let dp = h.depth_bytes();
    lemma_le32_roundtrip(h.depth_scale as int);
    lemma_le32_roundtrip(h.depth_width as int);
    lemma_le32_roundtrip(h.depth_height as int);
    lemma_le32_roundtrip(h.depth_fx as int);
    lemma_le32_roundtrip(h.depth_fy as int);
    lemma_le32_roundtrip(h.depth_ppx as int);
    lemma_le32_roundtrip(h.depth_ppy as int);
    lemma_le32_roundtrip(h.depth_distortion_model as int);
    lemma_le32_list_reads_back(h.depth_distortion_coeffs@);
    lemma_field_reads_back(dp, le32_bytes(h.depth_scale as int), 0);
    lemma_field_reads_back(dp, le32_bytes(h.depth_width as int), 4);
    lemma_field_reads_back(dp, le32_bytes(h.depth_height as int), 8);
    lemma_field_reads_back(dp, le32_bytes(h.depth_fx as int), 12);
    lemma_field_reads_back(dp, le32_bytes(h.depth_fy as int), 16);
    lemma_field_reads_back(dp, le32_bytes(h.depth_ppx as int), 20);
    lemma_field_reads_back(dp, le32_bytes(h.depth_ppy as int), 24);
    lemma_field_reads_back(dp, le32_bytes(h.depth_distortion_model as int), 28);
    let dl = le32_list(h.depth_distortion_coeffs@);
    assert(dp.subrange(32, 52) =~= dl);
    lemma_list_window(h.depth_distortion_coeffs@, dp, dl, 32, 0);

    let cb = h.color_bytes();
    lemma_le32_roundtrip(h.color_width as int);
    lemma_le32_roundtrip(h.color_height as int);
    lemma_le32_roundtrip(h.color_fx as int);
    lemma_le32_roundtrip(h.color_fy as int);
    lemma_le32_roundtrip(h.color_ppx as int);
    lemma_le32_roundtrip(h.color_ppy as int);
    lemma_le32_roundtrip(h.color_distortion_model as int);
    lemma_le32_list_reads_back(h.color_distortion_coeffs@);
    lemma_le32_list_reads_back(h.extrinsic_rotation@);
    lemma_le32_list_reads_back(h.extrinsic_translation@);
    lemma_field_reads_back(cb, le32_bytes(h.color_width as int), 0);
    lemma_field_reads_back(cb, le32_bytes(h.color_height as int), 4);
    lemma_field_reads_back(cb, le32_bytes(h.color_fx as int), 8);
    lemma_field_reads_back(cb, le32_bytes(h.color_fy as int), 12);
    lemma_field_reads_back(cb, le32_bytes(h.color_ppx as int), 16);
    lemma_field_reads_back(cb, le32_bytes(h.color_ppy as int), 20);
    lemma_field_reads_back(cb, le32_bytes(h.color_distortion_model as int), 24);
    let cl = le32_list(h.color_distortion_coeffs@);
    let rl = le32_list(h.extrinsic_rotation@);
    let tl = le32_list(h.extrinsic_translation@);
    assert(cb.subrange(28, 48) =~= cl);
    assert(cb.subrange(48, 84) =~= rl);
    assert(cb.subrange(84, 96) =~= tl);
    lemma_list_window(h.color_distortion_coeffs@, cb, cl, 28, 0);
    lemma_list_window(h.extrinsic_rotation@, cb, rl, 48, 0);
    lemma_list_window(h.extrinsic_translation@, cb, tl, 84, 0);

    let sb = h.session_bytes();
    lemma_le64_roundtrip(h.start_timestamp_us as int);
    assert(sb.subrange(0, 128) =~= h.session_name@);
    lemma_field_reads_back(sb, le64_bytes(h.start_timestamp_us as int), 128);
    assert(sb.subrange(136, 144) =~= h.usb_type@);
    assert(sb.subrange(148, 276) =~= h.reserved@);
}

/// A well-formed file header written anywhere in a byte stream reads back as
/// the same header.
pub proof fn lemma_file_header_roundtrip(h: FileHeader, pre: Seq<u8>, post: Seq<u8>)
    requires
        h.wf(),
    ensures
        h.read_at(pre + h.spec_bytes() + post, pre.len() as int),
        h.spec_bytes().len() == 472,
{
    lemma_header_parts_read_back(h);
    let d = pre + h.spec_bytes() + post;
    let p = pre.len() as int;
    let id = h.identity_bytes();
    let dp = h.depth_bytes();
    let cb = h.color_bytes();
    let sb = h.session_bytes();
    assert(d.subrange(p, p + 48) =~= id);
    assert(d.subrange(p + 48, p + 100) =~= dp);
    assert(d.subrange(p + 100, p + 196) =~= cb);
    assert(d.subrange(p + 196, p + 472) =~= sb);
    assert(d.subrange(p, p + 8) =~= h.magic@);
    lemma_le_window(d, id, p, 8);
    lemma_le_window(d, id, p, 12);
    assert(d.subrange(p + 16, p + 48) =~= h.serial_number@);
    lemma_le_window(d, dp, p + 48, 0);
    lemma_le_window(d, dp, p + 48, 4);
    lemma_le_window(d, dp, p + 48, 8);
    lemma_le_window(d, dp, p + 48, 12);
    lemma_le_window(d, dp, p + 48, 16);
    lemma_le_window(d, dp, p + 48, 20);
    lemma_le_window(d, dp, p + 48, 24);
    lemma_le_window(d, dp, p + 48, 28);
    lemma_list_window(h.depth_distortion_coeffs@, d, dp, p + 48, 32);
    lemma_le_window(d, cb, p + 100, 0);
    lemma_le_window(d, cb, p + 100, 4);
    lemma_le_window(d, cb, p + 100, 8);
    lemma_le_window(d, cb, p + 100, 12);
    lemma_le_window(d, cb, p + 100, 16);
    lemma_le_window(d, cb, p + 100, 20);
    lemma_le_window(d, cb, p + 100, 24);
    lemma_list_window(h.color_distortion_coeffs@, d, cb, p + 100, 28);
    lemma_list_window(h.extrinsic_rotation@, d, cb, p + 100, 48);
    lemma_list_window(h.extrinsic_translation@, d, cb, p + 100, 84);
    assert(d.subrange(p + 196, p + 324) =~= h.session_name@);
    lemma_le_window(d, sb, p + 196, 128);
    assert(d.subrange(p + 332, p + 340) =~= h.usb_type@);
    assert(d[p + 340] == sb[144]);
    assert(d[p + 341] == sb[145]);
    assert(d[p + 342] == sb[146]);
    assert(d[p + 343] == sb[147]);
    assert(d.subrange(p + 344, p + 472) =~= h.reserved@);
}

// ---------------------------------------------------------------------------
// Text fields.

/// The bytes before the first NUL (all of them when there is none).
pub open spec fn before_nul(b: Seq<u8>) -> Seq<u8>
    decreases b.len(),
{
    if b.len() == 0 {
        Seq::empty()
    } else if b[0] == 0 {
        Seq::empty()
    } else {
        seq![b[0]] + before_nul(b.drop_first())
    }
}

/// The text of a NUL-terminated UTF-8 field: the characters its bytes up
/// to the first NUL encode, or nothing when those bytes are not UTF-8.
pub open spec fn field_text(b: Seq<u8>, text: Seq<char>) -> bool {
    if valid_utf8(before_nul(b)) {
        encode_utf8(text) == before_nul(b)
    } else {
        text.len() == 0
    }
}

/// Calls `std::str::from_utf8`, which succeeds exactly when the bytes are
/// valid UTF-8, and then returns a string whose encoding is those bytes.
#[verifier::external_body]
fn str_from_utf8(v: &[u8]) -> (r: Option<&str>)
    ensures
        r is Some <==> valid_utf8(v@),
        r matches Some(s) ==> encode_utf8(s@) == v@,
{
    std::str::from_utf8(v).ok()
}

fn nul_terminated_text(b: &Vec<u8>) -> (t: String)
    ensures
        field_text(b@, t@),
{
    let mut prefix: Vec<u8> = Vec::new();
    let mut i: usize = 0;
    assert(b@.subrange(0, b@.len() as int) =~= b@);
    while i < b.len() && b[i] != 0
        invariant
            i <= b@.len(),
            before_nul(b@) == prefix@ + before_nul(b@.subrange(i as int, b@.len() as int)),
        decreases b@.len() - i,
    {
        let ghost rest = b@.subrange(i as int, b@.len() as int);
        assert(rest.drop_first() =~= b@.subrange(i + 1, b@.len() as int));
        let ghost before = prefix@;
        prefix.push(b[i]);
        assert(prefix@ + before_nul(b@.subrange(i + 1, b@.len() as int)) =~= before + before_nul(rest)) by {
            assert(before_nul(rest) == seq![rest[0]] + before_nul(rest.drop_first()));
        }
        i += 1;
    }
    proof {
        let rest = b@.subrange(i as int, b@.len() as int);
        assert(before_nul(rest) =~= Seq::<u8>::empty());
        assert(before_nul(b@) =~= prefix@);
    }
    match str_from_utf8(prefix.as_slice()) {
        Some(s) => String::from_str(s),
        None => String::new(),
    }
}

impl FileHeader {
    /// The session name: the field's text up to its first NUL.
    pub fn session_name_str(&self) -> (s: String)
        ensures
            field_text(self.session_name@, s@),
    {
        nul_terminated_text(&self.session_name)
    }

    /// The camera serial number: the field's text up to its first NUL.
    pub fn serial_number_str(&self) -> (s: String)
        ensures
            field_text(self.serial_number@, s@),
    {
        nul_terminated_text(&self.serial_number)
    }

    /// The USB connection type: the field's text up to its first NUL.
    pub fn usb_type_str(&self) -> (s: String)
        ensures
            field_text(self.usb_type@, s@),
    {
        nul_terminated_text(&self.usb_type)
    }
}

} // verus!
