//! Structural checks and activity segmentation of `.egorec` recordings: the
//! integer parts of the scanner. Frame-size statistics stay with the caller;
//! what reaches this module is the per-frame activity mask.
use vstd::prelude::*;
use crate::byte_order::{le32, le64, read_le32, read_le64};
use crate::format::{has_magic_prefix, magic_prefix, FileFooter, FrameBlockHeader, IndexEntry, FOOTER_MAGIC, FRAME_MAGIC,
    INDEX_MAGIC};
use crate::text::{decimal, push_decimal, text};

verus! {

/// Per-frame facts kept from a scan of the frame block headers.
#[derive(Clone, Copy, Debug)]
pub struct FrameInfo {
    pub frame_number: u64,
    pub timestamp_us: u64,
    pub rgb_compressed_size: u32,
    pub depth_compressed_size: u32,
    pub file_offset: u64,
    pub block_size: u32,
    pub is_expected_keyframe: bool,
}

/// Prune/keep verdict of an episode's activity analysis.
#[derive(Clone, Copy, PartialEq, Eq, Structural, Debug)]
pub enum Verdict {
    Keep,
    PruneConfident,
    PruneSuggested,
    Review,
}

impl Verdict {
    /// The label the verdict is displayed with.
    pub fn as_str(&self) -> (s: &'static str)
        ensures
            s@ == match *self {
                Verdict::Keep => "KEEP"@,
                Verdict::PruneConfident => "PRUNE_CONFIDENT"@,
                Verdict::PruneSuggested => "PRUNE_SUGGESTED"@,
                Verdict::Review => "REVIEW"@,
            },
    {
        match self {
            Verdict::Keep => "KEEP",
            Verdict::PruneConfident => "PRUNE_CONFIDENT",
            Verdict::PruneSuggested => "PRUNE_SUGGESTED",
            Verdict::Review => "REVIEW",
        }
    }
}

// ---------------------------------------------------------------------------
// Bursts of activity.

/// Length of the run of `true` at the end of `m`.
pub open spec fn trailing_run(m: Seq<bool>) -> nat
    decreases m.len(),
{
    if m.len() == 0 {
        0
    } else if m.last() {
        trailing_run(m.drop_last()) + 1
    } else {
        0
    }
}

/// Bursts closed by a `false` in `m`: each `false` closes the run of `true`
/// before it (possibly empty), which counts when it has at least `min_len`
/// entries.
pub open spec fn closed_bursts(m: Seq<bool>, min_len: nat) -> nat
    decreases m.len(),
{
    if m.len() == 0 {
        0
    } else if m.last() {
        closed_bursts(m.drop_last(), min_len)
    } else {
        closed_bursts(m.drop_last(), min_len) + if trailing_run(m.drop_last()) >= min_len {
            1nat
        } else {
            0nat
        }
    }
}

/// The bursts of `m`: those closed by a `false`, and the final run when it
/// is long enough.
pub open spec fn burst_count(m: Seq<bool>, min_len: nat) -> nat {
    closed_bursts(m, min_len) + if trailing_run(m) >= min_len {
        1nat
    } else {
        0nat
    }
}

proof fn lemma_bursts_bounded(m: Seq<bool>, min_len: nat)
    ensures
        trailing_run(m) <= m.len(),
        closed_bursts(m, min_len) <= m.len(),
    decreases m.len(),
{
    if m.len() > 0 {
        lemma_bursts_bounded(m.drop_last(), min_len);
    }
}

/// Structural checks and activity counts over recordings.
pub struct EgorecScanner;

impl EgorecScanner {

/// Counts the runs of active frames with at least `min_len` frames (with
/// `min_len == 0`, every inactive frame also closes an empty run).
pub fn count_bursts(mask: &[bool], min_len: u32) -> (bursts: u32)
    requires
        mask@.len() < u32::MAX,
    ensures
        bursts == burst_count(mask@, min_len as nat),
{
    let mut bursts: u32 = 0;
    let mut run: u32 = 0;
    let mut i: usize = 0;
    while i < mask.len()
        invariant
            i <= mask@.len() < u32::MAX,
            run == trailing_run(mask@.subrange(0, i as int)),
            bursts == closed_bursts(mask@.subrange(0, i as int), min_len as nat),
        decreases mask@.len() - i,
    {
        let ghost pre = mask@.subrange(0, i as int);
        let ghost next = mask@.subrange(0, i + 1);
        assert(next.drop_last() =~= pre);
        proof {
            lemma_bursts_bounded(pre, min_len as nat);
        }
        if mask[i] {
            run = run + 1;
        } else {
            if run >= min_len {
                bursts = bursts + 1;
            }
            run = 0;
        }
        i += 1;
    }
    assert(mask@.subrange(0, mask@.len() as int) =~= mask@);
    proof {
        lemma_bursts_bounded(mask@, min_len as nat);
    }
    if run >= min_len {
        bursts = bursts + 1;
    }
    bursts
}

}

// ---------------------------------------------------------------------------
// Splice segments.

/// A span of frames `[start_frame, end_frame)` proposed as one segment.
pub struct SegmentProposal {
    pub start_frame: usize,
    pub end_frame: usize,
    pub active_frames: usize,
    pub total_frames: usize,
}

/// The maximal runs of `true` in `m`, as `[start, end)` pairs in order.
pub open spec fn active_runs(m: Seq<bool>) -> Seq<(int, int)>
    decreases m.len(),
{
    if m.len() == 0 {
        Seq::empty()
    } else {
        let r = active_runs(m.drop_last());
        let i = m.len() - 1;
        if !m[i] {
            r
        } else if i > 0 && m[i - 1] {
            r.update(r.len() - 1, (r.last().0, m.len() as int))
        } else {
            r.push((i, m.len() as int))
        }
    }
}

/// Joins each range to the one before it when the gap between them is
/// shorter than `min_gap`.
pub open spec fn merge_gaps(r: Seq<(int, int)>, min_gap: int) -> Seq<(int, int)>
    decreases r.len(),
{
    if r.len() <= 1 {
        r
    } else {
        let m = merge_gaps(r.drop_last(), min_gap);
        let x = r.last();
        if x.0 - m.last().1 < min_gap {
            m.update(m.len() - 1, (m.last().0, x.1))
        } else {
            m.push(x)
        }
    }
}

/// The ranges that span at least `min_len` frames.
pub open spec fn keep_long(r: Seq<(int, int)>, min_len: int) -> Seq<(int, int)>
    decreases r.len(),
{
    if r.len() == 0 {
        Seq::empty()
    } else {
        let k = keep_long(r.drop_last(), min_len);
        if r.last().1 - r.last().0 >= min_len {
            k.push(r.last())
        } else {
            k
        }
    }
}

/// A range widened by `pad` frames on each side (within `[0, n)`), its start
/// rounded down and its end rounded up to the keyframe grid (the end capped
/// at `n`).
pub open spec fn pad_and_snap(x: (int, int), pad: int, n: int) -> (int, int) {
    let padded_start = if x.0 >= pad { x.0 - pad } else { 0 };
    let padded_end = if x.1 + pad < n { x.1 + pad } else { n };
    let snapped_end = (padded_end + 29) / 30 * 30;
    (padded_start / 30 * 30, if snapped_end < n { snapped_end } else { n })
}

pub open spec fn pad_and_snap_all(r: Seq<(int, int)>, pad: int, n: int) -> Seq<(int, int)> {
    Seq::new(r.len(), |j: int| pad_and_snap(r[j], pad, n))
}

/// Joins each range to the one before it when it starts at or before that
/// one's end.
pub open spec fn merge_overlaps(r: Seq<(int, int)>) -> Seq<(int, int)>
    decreases r.len(),
{
    if r.len() <= 1 {
        r
    } else {
        let m = merge_overlaps(r.drop_last());
        let x = r.last();
        if x.0 <= m.last().1 {
            m.update(m.len() - 1, (m.last().0, x.1))
        } else {
            m.push(x)
        }
    }
}

/// The segments proposed for an activity mask: its active runs, joined
/// across gaps shorter than `min_gap`, without those shorter than
/// `min_duration`, padded and snapped to the keyframe grid, and joined
/// where they then overlap.
pub open spec fn segments_spec(m: Seq<bool>, min_gap: int, min_duration: int, pad: int) -> Seq<(int, int)> {
    let r = active_runs(m);
    if r.len() == 0 {
        Seq::empty()
    } else {
        merge_overlaps(pad_and_snap_all(keep_long(merge_gaps(r, min_gap), min_duration), pad, m.len() as int))
    }
}

/// Number of `true` entries.
pub open spec fn count_true(m: Seq<bool>) -> nat
    decreases m.len(),
{
    if m.len() == 0 {
        0
    } else {
        count_true(m.drop_last()) + if m.last() {
            1nat
        } else {
            0nat
        }
    }
}

/// `p` proposes the segment `seg` of mask `m`: its bounds, its frame count
/// and the number of active frames in it.
pub open spec fn proposes(p: SegmentProposal, m: Seq<bool>, seg: (int, int)) -> bool {
    &&& p.start_frame == seg.0
    &&& p.end_frame == seg.1
    &&& p.total_frames == seg.1 - seg.0
    &&& p.active_frames == count_true(m.subrange(seg.0, seg.1))
}

/// Ranges inside `[0, n)`, each non-empty, in order with a gap between
/// consecutive ones.
pub open spec fn separated(r: Seq<(int, int)>, n: int) -> bool {
    &&& forall|j: int| 0 <= j < r.len() ==> 0 <= (#[trigger] r[j]).0 < r[j].1 <= n
    &&& forall|j: int, k: int| #![trigger r[j], r[k]] 0 <= j < k < r.len() ==> r[j].1 < r[k].0
}

/// Ranges inside `[0, n)`, each non-empty, with starts and ends
/// non-decreasing.
pub open spec fn ordered(r: Seq<(int, int)>, n: int) -> bool {
    &&& forall|j: int| 0 <= j < r.len() ==> 0 <= (#[trigger] r[j]).0 < r[j].1 <= n
    &&& forall|j: int, k: int| #![trigger r[j], r[k]] 0 <= j < k < r.len() ==> r[j].0 <= r[k].0 && r[j].1 <= r[k].1
}

pub open spec fn int_pairs(v: Seq<(usize, usize)>) -> Seq<(int, int)> {
    Seq::new(v.len(), |j: int| (v[j].0 as int, v[j].1 as int))
}

proof fn lemma_active_runs_separated(m: Seq<bool>)
    ensures
        separated(active_runs(m), m.len() as int),
        m.len() > 0 && m.last() ==> active_runs(m).len() > 0 && active_runs(m).last().1 == m.len(),
        active_runs(m).len() > 0 ==> active_runs(m).last().1 <= m.len(),
        !(m.len() > 0 && m.last()) ==> forall|j: int| 0 <= j < active_runs(m).len() ==> (#[trigger] active_runs(m)[j]).1 < m.len(),
    decreases m.len(),
{
    if m.len() > 0 {
        lemma_active_runs_separated(m.drop_last());
        let p = m.drop_last();
        let r = active_runs(p);
        let i = m.len() - 1;
        if i > 0 {
            assert(p.last() == m[i - 1]);
        }
    }
}

proof fn lemma_merge_gaps(r: Seq<(int, int)>, min_gap: int, n: int)
    requires
        separated(r, n),
        r.len() > 0,
    ensures
        separated(merge_gaps(r, min_gap), n),
        merge_gaps(r, min_gap).len() > 0,
        merge_gaps(r, min_gap).last().1 == r.last().1,
    decreases r.len(),
{
    if r.len() > 1 {
        let p = r.drop_last();
        assert(separated(p, n));
        lemma_merge_gaps(p, min_gap, n);
        assert(r[r.len() - 2] == p.last());
    }
}

proof fn lemma_keep_long(r: Seq<(int, int)>, min_len: int, n: int)
    requires
        separated(r, n),
    ensures
        separated(keep_long(r, min_len), n),
        forall|j: int| 0 <= j < keep_long(r, min_len).len() ==> (#[trigger] keep_long(r, min_len)[j]).1 - keep_long(r, min_len)[j].0 >= min_len,
        keep_long(r, min_len).len() > 0 ==> keep_long(r, min_len).last().1 <= r.last().1,
    decreases r.len(),
{
    if r.len() > 0 {
        let p = r.drop_last();
        assert(separated(p, n));
        lemma_keep_long(p, min_len, n);
        if p.len() > 0 {
            assert(r[r.len() - 2] == p.last());
        }
    }
}

proof fn lemma_pad_and_snap(x: (int, int), pad: int, n: int)
    requires
        0 <= x.0 < x.1 <= n,
        0 <= pad,
    ensures
        0 <= pad_and_snap(x, pad, n).0 <= x.0,
        x.1 <= pad_and_snap(x, pad, n).1 <= n,
        pad_and_snap(x, pad, n).0 % 30 == 0,
        pad_and_snap(x, pad, n).1 % 30 == 0 || pad_and_snap(x, pad, n).1 == n,
        pad_and_snap(x, pad, n).0 <= widened(x, pad, n).0,
        widened(x, pad, n).1 <= pad_and_snap(x, pad, n).1,
{
    let padded_start = if x.0 >= pad { x.0 - pad } else { 0 };
    let padded_end = if x.1 + pad < n { x.1 + pad } else { n };
    assert(padded_start / 30 * 30 <= padded_start) by (nonlinear_arith)
        requires padded_start >= 0;
    assert(padded_start / 30 * 30 >= 0) by (nonlinear_arith)
        requires padded_start >= 0;
    assert((padded_end + 29) / 30 * 30 >= padded_end) by (nonlinear_arith)
        requires padded_end >= 0;
    assert((padded_start / 30 * 30) % 30 == 0) by (nonlinear_arith)
        requires padded_start >= 0;
    assert(((padded_end + 29) / 30 * 30) % 30 == 0) by (nonlinear_arith)
        requires padded_end >= 0;
}

proof fn lemma_snap_monotone(a: int, b: int)
    requires
        0 <= a <= b,
    ensures
        a / 30 * 30 <= b / 30 * 30,
        (a + 29) / 30 * 30 <= (b + 29) / 30 * 30,
{
    assert(a / 30 <= b / 30) by (nonlinear_arith)
        requires 0 <= a <= b;
    assert((a + 29) / 30 <= (b + 29) / 30) by (nonlinear_arith)
        requires 0 <= a <= b;
    assert(a / 30 * 30 <= b / 30 * 30) by (nonlinear_arith)
        requires a / 30 <= b / 30;
    assert((a + 29) / 30 * 30 <= (b + 29) / 30 * 30) by (nonlinear_arith)
        requires (a + 29) / 30 <= (b + 29) / 30;
}

proof fn lemma_pad_and_snap_all(r: Seq<(int, int)>, pad: int, n: int)
    requires
        separated(r, n),
        0 <= pad,
    ensures
        ordered(pad_and_snap_all(r, pad, n), n),
        forall|j: int| 0 <= j < r.len() ==> {
            let y = #[trigger] pad_and_snap_all(r, pad, n)[j];
            &&& y.0 <= r[j].0
            &&& r[j].1 <= y.1
            &&& y.0 % 30 == 0
            &&& (y.1 % 30 == 0 || y.1 == n)
        },
{
    let s = pad_and_snap_all(r, pad, n);
    assert forall|j: int| 0 <= j < r.len() implies {
        let y = #[trigger] s[j];
        &&& 0 <= y.0 < y.1 <= n
        &&& y.0 <= r[j].0
        &&& r[j].1 <= y.1
        &&& y.0 % 30 == 0
        &&& (y.1 % 30 == 0 || y.1 == n)
    } by {
        lemma_pad_and_snap(r[j], pad, n);
    }
    assert forall|j: int, k: int| #![trigger s[j], s[k]] 0 <= j < k < s.len() implies s[j].0 <= s[k].0
        && s[j].1 <= s[k].1 by {
        let x = r[j];
        let z = r[k];
        assert(x.1 < z.0);
        let xs = if x.0 >= pad { x.0 - pad } else { 0 };
        let zs = if z.0 >= pad { z.0 - pad } else { 0 };
        let xe = if x.1 + pad < n { x.1 + pad } else { n };
        let ze = if z.1 + pad < n { z.1 + pad } else { n };
        lemma_snap_monotone(xs, zs);
        lemma_snap_monotone(xe, ze);
    }
}

proof fn lemma_merge_overlaps(r: Seq<(int, int)>, n: int)
    requires
        ordered(r, n),
        forall|j: int| 0 <= j < r.len() ==> (#[trigger] r[j]).0 % 30 == 0 && (r[j].1 % 30 == 0 || r[j].1 == n),
    ensures
        separated(merge_overlaps(r), n),
        forall|j: int| 0 <= j < merge_overlaps(r).len() ==> (#[trigger] merge_overlaps(r)[j]).0 % 30 == 0
            && (merge_overlaps(r)[j].1 % 30 == 0 || merge_overlaps(r)[j].1 == n),
        r.len() > 0 ==> merge_overlaps(r).len() > 0 && merge_overlaps(r).last().1 == r.last().1,
        r.len() > 0 ==> merge_overlaps(r)[0].0 == r[0].0,
    decreases r.len(),
{
    if r.len() > 1 {
        let p = r.drop_last();
        assert(ordered(p, n));
        lemma_merge_overlaps(p, n);
        assert(r[r.len() - 2] == p.last());
        assert(p[0] == r[0]);
    }
}

/// `x` lies inside one of the ranges of `r`.
pub open spec fn covered_by(x: (int, int), r: Seq<(int, int)>) -> bool {
    exists|k: int| 0 <= k < r.len() && (#[trigger] r[k]).0 <= x.0 && x.1 <= r[k].1
}

proof fn lemma_merge_gaps_covers(r: Seq<(int, int)>, min_gap: int, n: int)
    requires
        separated(r, n),
        r.len() > 0,
    ensures
        forall|j: int| 0 <= j < r.len() ==> covered_by(#[trigger] r[j], merge_gaps(r, min_gap)),
    decreases r.len(),
{
    let res = merge_gaps(r, min_gap);
    if r.len() == 1 {
        assert forall|j: int| 0 <= j < r.len() implies covered_by(#[trigger] r[j], res) by {
            assert(res[0] == r[j]);
        }
    } else {
        let p = r.drop_last();
        assert(separated(p, n));
        lemma_merge_gaps_covers(p, min_gap, n);
        lemma_merge_gaps(p, min_gap, n);
        let m = merge_gaps(p, min_gap);
        let x = r.last();
        assert(r[r.len() - 2] == p.last());
        assert forall|j: int| 0 <= j < r.len() implies covered_by(#[trigger] r[j], res) by {
            if j < r.len() - 1 {
                assert(p[j] == r[j]);
                assert(covered_by(p[j], m));
                let k = choose|k: int| 0 <= k < m.len() && (#[trigger] m[k]).0 <= p[j].0 && p[j].1 <= m[k].1;
                assert(res[k].0 <= r[j].0 && r[j].1 <= res[k].1);
            } else {
                let k = res.len() - 1;
                assert(res[k].0 <= r[j].0 && r[j].1 <= res[k].1);
            }
        }
    }
}

proof fn lemma_keep_long_keeps(r: Seq<(int, int)>, min_len: int)
    ensures
        forall|j: int| 0 <= j < r.len() && r[j].1 - r[j].0 >= min_len ==> covered_by(
            #[trigger] r[j],
            keep_long(r, min_len),
        ),
    decreases r.len(),
{
    if r.len() > 0 {
        let p = r.drop_last();
        lemma_keep_long_keeps(p, min_len);
        let res = keep_long(r, min_len);
        let k0 = keep_long(p, min_len);
        assert forall|j: int| 0 <= j < r.len() && r[j].1 - r[j].0 >= min_len implies covered_by(
            #[trigger] r[j],
            res,
        ) by {
            if j < r.len() - 1 {
                assert(p[j] == r[j]);
                assert(covered_by(p[j], k0));
                let k = choose|k: int| 0 <= k < k0.len() && (#[trigger] k0[k]).0 <= p[j].0 && p[j].1 <= k0[k].1;
                assert(res[k] == k0[k]);
            } else {
                assert(res[res.len() - 1] == r[j]);
            }
        }
    }
}

proof fn lemma_merge_overlaps_covers(r: Seq<(int, int)>, n: int)
    requires
        ordered(r, n),
    ensures
        forall|j: int| 0 <= j < r.len() ==> covered_by(#[trigger] r[j], merge_overlaps(r)),
        r.len() > 0 ==> merge_overlaps(r).len() > 0 && merge_overlaps(r).last().0 <= r.last().0
            && merge_overlaps(r).last().1 == r.last().1,
    decreases r.len(),
{
    let res = merge_overlaps(r);
    if r.len() == 1 {
        assert(res[0] == r[0]);
    } else if r.len() > 1 {
        let p = r.drop_last();
        assert(ordered(p, n));
        lemma_merge_overlaps_covers(p, n);
        let m = merge_overlaps(p);
        let x = r.last();
        assert(r[r.len() - 2] == p.last());
        assert(p.last().0 <= x.0 && p.last().1 <= x.1);
        assert forall|j: int| 0 <= j < r.len() implies covered_by(#[trigger] r[j], res) by {
            if j < r.len() - 1 {
                assert(p[j] == r[j]);
                assert(covered_by(p[j], m));
                let k = choose|k: int| 0 <= k < m.len() && (#[trigger] m[k]).0 <= p[j].0 && p[j].1 <= m[k].1;
                assert(res[k].0 <= r[j].0 && r[j].1 <= res[k].1);
            } else {
                let k = res.len() - 1;
                assert(res[k].0 <= r[j].0 && r[j].1 <= res[k].1);
            }
        }
    }
}

/// `x` widened by `pad` frames on each side, within `[0, n)`.
pub open spec fn widened(x: (int, int), pad: int, n: int) -> (int, int) {
    (if x.0 >= pad { x.0 - pad } else { 0 }, if x.1 + pad < n { x.1 + pad } else { n })
}

/// Every run of active frames at least `min_duration` frames long lies,
/// together with `pad` frames before it and `pad` frames after it (as far
/// as the recording reaches on either side), inside one proposed segment.
#[verifier::spinoff_prover]
#[verifier::rlimit(40)]
pub proof fn lemma_segments_pad_long_runs(m: Seq<bool>, min_gap: nat, min_duration: nat, pad: nat)
    ensures
        forall|j: int| 0 <= j < active_runs(m).len() && active_runs(m)[j].1 - active_runs(m)[j].0
            >= min_duration ==> covered_by(
            widened(#[trigger] active_runs(m)[j], pad as int, m.len() as int),
            segments_spec(m, min_gap as int, min_duration as int, pad as int),
        ),
{
    let n = m.len() as int;
    let p = pad as int;
    let runs = active_runs(m);
    lemma_active_runs_separated(m);
    if runs.len() > 0 {
        let g = merge_gaps(runs, min_gap as int);
        lemma_merge_gaps(runs, min_gap as int, n);
        lemma_merge_gaps_covers(runs, min_gap as int, n);
        let k = keep_long(g, min_duration as int);
        lemma_keep_long(g, min_duration as int, n);
        lemma_keep_long_keeps(g, min_duration as int);
        let sn = pad_and_snap_all(k, p, n);
        lemma_pad_and_snap_all(k, p, n);
        lemma_merge_overlaps(sn, n);
        lemma_merge_overlaps_covers(sn, n);
        let out = merge_overlaps(sn);
        assert forall|j: int| 0 <= j < runs.len() && runs[j].1 - runs[j].0 >= min_duration implies covered_by(
            widened(#[trigger] runs[j], p, n),
            out,
        ) by {
            let x = runs[j];
            assert(covered_by(x, g));
            let a = choose|a: int| 0 <= a < g.len() && (#[trigger] g[a]).0 <= x.0 && x.1 <= g[a].1;
            assert(covered_by(g[a], k));
            let b = choose|b: int| 0 <= b < k.len() && (#[trigger] k[b]).0 <= g[a].0 && g[a].1 <= k[b].1;
            assert(0 <= k[b].0 < k[b].1 <= n);
            lemma_pad_and_snap(k[b], p, n);
            assert(sn[b] == pad_and_snap(k[b], p, n));
            assert(sn[b].0 <= widened(x, p, n).0 && widened(x, p, n).1 <= sn[b].1);
            assert(covered_by(sn[b], out));
            let c = choose|c: int| 0 <= c < out.len() && (#[trigger] out[c]).0 <= sn[b].0 && sn[b].1 <= out[c].1;
            assert(out[c].0 <= widened(x, p, n).0 && widened(x, p, n).1 <= out[c].1);
        }
    }
}

/// The proposed segments lie inside the recording, each starts on the
/// keyframe grid and ends on it or at the last frame, and consecutive ones
/// are separated by a gap. Every run of active frames at least
/// `min_duration` frames long lies inside one of them.
#[verifier::spinoff_prover]
#[verifier::rlimit(40)]
pub proof fn lemma_segments_cover_long_runs(m: Seq<bool>, min_gap: nat, min_duration: nat, pad: nat)
    ensures
        separated(segments_spec(m, min_gap as int, min_duration as int, pad as int), m.len() as int),
        forall|j: int| 0 <= j < segments_spec(m, min_gap as int, min_duration as int, pad as int).len()
            ==> {
            let s = #[trigger] segments_spec(m, min_gap as int, min_duration as int, pad as int)[j];
            &&& s.0 % 30 == 0
            &&& (s.1 % 30 == 0 || s.1 == m.len())
        },
        forall|j: int| 0 <= j < active_runs(m).len() && active_runs(m)[j].1 - active_runs(m)[j].0
            >= min_duration ==> covered_by(
            #[trigger] active_runs(m)[j],
            segments_spec(m, min_gap as int, min_duration as int, pad as int),
        ),
{
    let n = m.len() as int;
    let runs = active_runs(m);
    lemma_active_runs_separated(m);
    if runs.len() > 0 {
        let g = merge_gaps(runs, min_gap as int);
        lemma_merge_gaps(runs, min_gap as int, n);
        lemma_merge_gaps_covers(runs, min_gap as int, n);
        let k = keep_long(g, min_duration as int);
        lemma_keep_long(g, min_duration as int, n);
        lemma_keep_long_keeps(g, min_duration as int);
        let sn = pad_and_snap_all(k, pad as int, n);
        lemma_pad_and_snap_all(k, pad as int, n);
        lemma_merge_overlaps(sn, n);
        lemma_merge_overlaps_covers(sn, n);
        let out = merge_overlaps(sn);
        assert forall|j: int| 0 <= j < runs.len() && runs[j].1 - runs[j].0 >= min_duration implies covered_by(
            #[trigger] runs[j],
            out,
        ) by {
            let x = runs[j];
            assert(covered_by(x, g));
            let a = choose|a: int| 0 <= a < g.len() && (#[trigger] g[a]).0 <= x.0 && x.1 <= g[a].1;
            assert(covered_by(g[a], k));
            let b = choose|b: int| 0 <= b < k.len() && (#[trigger] k[b]).0 <= g[a].0 && g[a].1 <= k[b].1;
            assert(sn[b].0 <= k[b].0 && k[b].1 <= sn[b].1);
            assert(covered_by(sn[b], out));
            let c = choose|c: int| 0 <= c < out.len() && (#[trigger] out[c]).0 <= sn[b].0 && sn[b].1 <= out[c].1;
            assert(out[c].0 <= x.0 && x.1 <= out[c].1);
        }
    }
}

/// Number of ranges spanning at least `min_len` frames.
pub open spec fn count_long(r: Seq<(int, int)>, min_len: int) -> nat
    decreases r.len(),
{
    if r.len() == 0 {
        0
    } else {
        count_long(r.drop_last(), min_len) + if r.last().1 - r.last().0 >= min_len {
            1nat
        } else {
            0nat
        }
    }
}

proof fn lemma_bursts_runs(m: Seq<bool>, min_len: nat)
    requires
        min_len >= 1,
    ensures
        m.len() > 0 && m.last() ==> {
            &&& active_runs(m).len() > 0
            &&& trailing_run(m) == active_runs(m).last().1 - active_runs(m).last().0
            &&& closed_bursts(m, min_len) == count_long(active_runs(m).drop_last(), min_len as int)
        },
        !(m.len() > 0 && m.last()) ==> {
            &&& trailing_run(m) == 0
            &&& closed_bursts(m, min_len) == count_long(active_runs(m), min_len as int)
        },
    decreases m.len(),
{
    if m.len() > 0 {
        let p = m.drop_last();
        lemma_bursts_runs(p, min_len);
        lemma_active_runs_separated(p);
        let i = m.len() - 1;
        if i > 0 {
            assert(p.last() == m[i - 1]);
        }
        let rp = active_runs(p);
        let rm = active_runs(m);
        if m.last() {
            if i > 0 && m[i - 1] {
                assert(rm.drop_last() =~= rp.drop_last());
            } else {
                assert(rm.drop_last() =~= rp);
            }
        } else if i > 0 && m[i - 1] {
            assert(rp.drop_last().push(rp.last()) =~= rp);
        }
    }
}

/// With a minimum length of at least one frame, the bursts counted are the
/// runs of active frames at least that long.
pub proof fn lemma_burst_count_is_long_runs(m: Seq<bool>, min_len: nat)
    requires
        min_len >= 1,
    ensures
        burst_count(m, min_len) == count_long(active_runs(m), min_len as int),
{
    lemma_bursts_runs(m, min_len);
    let r = active_runs(m);
    if m.len() > 0 && m.last() {
        assert(r.drop_last().push(r.last()) =~= r);
    }
}

fn active_ranges(mask: &[bool]) -> (ranges: Vec<(usize, usize)>)
    ensures
        int_pairs(ranges@) == active_runs(mask@),
{
    let n = mask.len();
    let mut ranges: Vec<(usize, usize)> = Vec::new();
    let mut in_run = false;
    let mut run_start: usize = 0;
    let mut i: usize = 0;
    while i < n
        invariant
            i <= n == mask@.len(),
            in_run == (i > 0 && mask@[i - 1]),
            in_run ==> run_start < i,
            active_runs(mask@.subrange(0, i as int)) == if in_run {
                int_pairs(ranges@).push((run_start as int, i as int))
            } else {
                int_pairs(ranges@)
            },
        decreases n - i,
    {
        let ghost pre = mask@.subrange(0, i as int);
        let ghost next = mask@.subrange(0, i + 1);
        assert(next.drop_last() =~= pre);
        if i > 0 {
            assert(next[i - 1] == mask@[i - 1]);
        }
        if mask[i] {
            if !in_run {
                run_start = i;
                in_run = true;
            }
            proof {
                assert(int_pairs(ranges@).push((run_start as int, i + 1)) =~= active_runs(next));
            }
        } else if in_run {
            ranges.push((run_start, i));
            in_run = false;
            proof {
                assert(int_pairs(ranges@) =~= active_runs(pre));
            }
        }
        i += 1;
    }
    assert(mask@.subrange(0, n as int) =~= mask@);
    if in_run {
        ranges.push((run_start, n));
        assert(int_pairs(ranges@) =~= active_runs(mask@));
    }
    ranges
}

fn merge_short_gaps(ranges: &Vec<(usize, usize)>, min_gap: usize, Ghost(n): Ghost<int>) -> (merged: Vec<(usize, usize)>)
    requires
        separated(int_pairs(ranges@), n),
        ranges@.len() > 0,
    ensures
        int_pairs(merged@) == merge_gaps(int_pairs(ranges@), min_gap as int),
{
    let ghost r = int_pairs(ranges@);
    let mut merged: Vec<(usize, usize)> = Vec::new();
    merged.push(ranges[0]);
    assert(int_pairs(merged@) =~= merge_gaps(r.subrange(0, 1), min_gap as int));
    let mut k: usize = 1;
    while k < ranges.len()
        invariant
            1 <= k <= ranges@.len(),
            r == int_pairs(ranges@),
            separated(r, n),
            int_pairs(merged@) == merge_gaps(r.subrange(0, k as int), min_gap as int),
        decreases ranges@.len() - k,
    {
        let ghost pre = r.subrange(0, k as int);
        let ghost next = r.subrange(0, k + 1);
        assert(next.drop_last() =~= pre);
        proof {
            assert(separated(pre, n));
            lemma_merge_gaps(pre, min_gap as int, n);
            assert(r[k - 1] == pre.last());
            assert(r[k - 1].1 < r[k as int].0);
        }
        let (start, end) = ranges[k];
        let last = merged[merged.len() - 1];
        if start - last.1 < min_gap {
            let m = merged.len() - 1;
            merged.set(m, (last.0, end));
        } else {
            merged.push((start, end));
        }
        proof {
            assert(int_pairs(merged@) =~= merge_gaps(next, min_gap as int));
        }
        k += 1;
    }
    assert(r.subrange(0, ranges@.len() as int) =~= r);
    merged
}

fn keep_long_ranges(ranges: &Vec<(usize, usize)>, min_duration: usize, Ghost(n): Ghost<int>) -> (kept: Vec<(usize, usize)>)
    requires
        separated(int_pairs(ranges@), n),
    ensures
        int_pairs(kept@) == keep_long(int_pairs(ranges@), min_duration as int),
{
    let ghost r = int_pairs(ranges@);
    let mut kept: Vec<(usize, usize)> = Vec::new();
    let mut k: usize = 0;
    assert(int_pairs(kept@) =~= keep_long(r.subrange(0, 0), min_duration as int));
    while k < ranges.len()
        invariant
            k <= ranges@.len(),
            r == int_pairs(ranges@),
            separated(r, n),
            int_pairs(kept@) == keep_long(r.subrange(0, k as int), min_duration as int),
        decreases ranges@.len() - k,
    {
        let ghost next = r.subrange(0, k + 1);
        assert(next.drop_last() =~= r.subrange(0, k as int));
        let (s, e) = ranges[k];
        assert(r[k as int].0 < r[k as int].1);
        if e - s >= min_duration {
            kept.push((s, e));
        }
        proof {
            assert(int_pairs(kept@) =~= keep_long(next, min_duration as int));
        }
        k += 1;
    }
    assert(r.subrange(0, ranges@.len() as int) =~= r);
    kept
}

fn snap_ranges(ranges: &Vec<(usize, usize)>, pad: usize, n: usize) -> (snapped: Vec<(usize, usize)>)
    requires
        separated(int_pairs(ranges@), n as int),
        n + pad <= usize::MAX,
        n + 29 <= usize::MAX,
    ensures
        int_pairs(snapped@) == pad_and_snap_all(int_pairs(ranges@), pad as int, n as int),
{
    let ghost r = int_pairs(ranges@);
    let mut snapped: Vec<(usize, usize)> = Vec::new();
    let mut k: usize = 0;
    while k < ranges.len()
        invariant
            k <= ranges@.len(),
            r == int_pairs(ranges@),
            separated(r, n as int),
            n + pad <= usize::MAX,
            n + 29 <= usize::MAX,
            int_pairs(snapped@) == pad_and_snap_all(r, pad as int, n as int).subrange(0, k as int),
        decreases ranges@.len() - k,
    {
        let (s, e) = ranges[k];
        assert(r[k as int].1 <= n);
        let padded_start = if s >= pad { s - pad } else { 0 };
        let padded_end = if e + pad < n { e + pad } else { n };
        let snapped_start = padded_start / 30 * 30;
        let snapped_end = (padded_end + 29) / 30 * 30;
        let snapped_end = if snapped_end < n { snapped_end } else { n };
        assert((snapped_start as int, snapped_end as int) == pad_and_snap(r[k as int], pad as int, n as int));
        let ghost old_pairs = int_pairs(snapped@);
        snapped.push((snapped_start, snapped_end));
        proof {
            let all = pad_and_snap_all(r, pad as int, n as int);
            assert(int_pairs(snapped@) =~= old_pairs.push((snapped_start as int, snapped_end as int)));
            assert(all.subrange(0, k + 1) =~= all.subrange(0, k as int).push(all[k as int]));
            assert(int_pairs(snapped@) =~= all.subrange(0, k + 1));
        }
        k += 1;
    }
    assert(pad_and_snap_all(r, pad as int, n as int).subrange(0, ranges@.len() as int)
        =~= pad_and_snap_all(r, pad as int, n as int));
    snapped
}

fn merge_overlapping(ranges: &Vec<(usize, usize)>, Ghost(n): Ghost<int>) -> (merged: Vec<(usize, usize)>)
    requires
        ordered(int_pairs(ranges@), n),
    ensures
        int_pairs(merged@) == merge_overlaps(int_pairs(ranges@)),
{
    let ghost r = int_pairs(ranges@);
    let mut merged: Vec<(usize, usize)> = Vec::new();
    if ranges.len() == 0 {
        assert(int_pairs(merged@) =~= merge_overlaps(r));
        return merged;
    }
    merged.push(ranges[0]);
    assert(int_pairs(merged@) =~= merge_overlaps(r.subrange(0, 1)));
    let mut k: usize = 1;
    while k < ranges.len()
        invariant
            1 <= k <= ranges@.len(),
            r == int_pairs(ranges@),
            merged@.len() > 0,
            int_pairs(merged@) == merge_overlaps(r.subrange(0, k as int)),
        decreases ranges@.len() - k,
    {
        let ghost next = r.subrange(0, k + 1);
        assert(next.drop_last() =~= r.subrange(0, k as int));
        let (s, e) = ranges[k];
        let last = merged[merged.len() - 1];
        if s <= last.1 {
            let m = merged.len() - 1;
            merged.set(m, (last.0, e));
        } else {
            merged.push((s, e));
        }
        proof {
            assert(int_pairs(merged@) =~= merge_overlaps(next));
        }
        k += 1;
    }
    assert(r.subrange(0, ranges@.len() as int) =~= r);
    merged
}

fn count_active(mask: &[bool], start: usize, end: usize) -> (count: usize)
    requires
        start <= end <= mask@.len(),
    ensures
        count == count_true(mask@.subrange(start as int, end as int)),
{
    let mut count: usize = 0;
    let mut j = start;
    while j < end
        invariant
            start <= j <= end <= mask@.len(),
            count == count_true(mask@.subrange(start as int, j as int)),
            count <= j - start,
        decreases end - j,
    {
        assert(mask@.subrange(start as int, j + 1).drop_last() =~= mask@.subrange(start as int, j as int));
        if mask[j] {
            count += 1;
        }
        j += 1;
    }
    count
}

/// Proposes splice segments from a per-frame activity mask: runs of active
/// frames joined across gaps shorter than `min_gap_frames`, those shorter
/// than `min_duration_frames` dropped, each padded by `pad_frames` and
/// snapped to the 30-frame keyframe grid, overlapping ones joined.
pub fn compute_segments(
    active_mask: &[bool],
    min_gap_frames: usize,
    min_duration_frames: usize,
    pad_frames: usize,
) -> (segments: Vec<SegmentProposal>)
    requires
        active_mask@.len() + pad_frames <= usize::MAX,
        active_mask@.len() + 29 <= usize::MAX,
    ensures
        segments@.len() == segments_spec(active_mask@, min_gap_frames as int, min_duration_frames as int,
            pad_frames as int).len(),
        forall|j: int| 0 <= j < segments@.len() ==> proposes(#[trigger] segments@[j], active_mask@,
            segments_spec(active_mask@, min_gap_frames as int, min_duration_frames as int,
            pad_frames as int)[j]),
{
    let n = active_mask.len();
    let ghost m = active_mask@;
    let ghost spec = segments_spec(m, min_gap_frames as int, min_duration_frames as int, pad_frames as int);
    let mut segments: Vec<SegmentProposal> = Vec::new();
    let ranges = active_ranges(active_mask);
    proof {
        lemma_active_runs_separated(m);
    }
    if ranges.len() == 0 {
        return segments;
    }
    let merged = merge_short_gaps(&ranges, min_gap_frames, Ghost(n as int));
    proof {
        lemma_merge_gaps(int_pairs(ranges@), min_gap_frames as int, n as int);
    }
    let kept = keep_long_ranges(&merged, min_duration_frames, Ghost(n as int));
    proof {
        lemma_keep_long(int_pairs(merged@), min_duration_frames as int, n as int);
    }
    let snapped = snap_ranges(&kept, pad_frames, n);
    proof {
        lemma_pad_and_snap_all(int_pairs(kept@), pad_frames as int, n as int);
    }
    let joined = merge_overlapping(&snapped, Ghost(n as int));
    proof {
        lemma_merge_overlaps(int_pairs(snapped@), n as int);
        assert(int_pairs(joined@) == spec);
    }
    let mut k: usize = 0;
    while k < joined.len()
        invariant
            k <= joined@.len(),
            int_pairs(joined@) == spec,
            separated(spec, n as int),
            m == active_mask@,
            n == m.len(),
            segments@.len() == k,
            forall|j: int| 0 <= j < k ==> proposes(#[trigger] segments@[j], m, spec[j]),
        decreases joined@.len() - k,
    {
        let (s, e) = joined[k];
        assert(spec[k as int] == (s as int, e as int));
        let active = count_active(active_mask, s, e);
        segments.push(SegmentProposal { start_frame: s, end_frame: e, active_frames: active, total_frames: e - s });
        k += 1;
    }
    segments
}

// ---------------------------------------------------------------------------
// Structural validation.

/// Outcome of the structural checks of a recording.
pub struct ValidationResult {
    pub valid: bool,
    pub errors: Vec<String>,
    pub warnings: Vec<String>,
    pub total_frames: u64,
    pub duration_us: u64,
    pub has_footer: bool,
    pub has_index: bool,
    pub index_entries: u32,
}

/// What a validation outcome holds.
pub struct ValidationView {
    pub valid: bool,
    pub errors: Seq<Seq<char>>,
    pub warnings: Seq<Seq<char>>,
    pub total_frames: u64,
    pub duration_us: u64,
    pub has_footer: bool,
    pub has_index: bool,
    pub index_entries: u32,
}

pub open spec fn strings_view(v: Seq<String>) -> Seq<Seq<char>> {
    Seq::new(v.len(), |i: int| v[i]@)
}

impl View for ValidationResult {
    type V = ValidationView;

    open spec fn view(&self) -> ValidationView {
        ValidationView {
            valid: self.valid,
            errors: strings_view(self.errors@),
            warnings: strings_view(self.warnings@),
            total_frames: self.total_frames,
            duration_us: self.duration_us,
            has_footer: self.has_footer,
            has_index: self.has_index,
            index_entries: self.index_entries,
        }
    }
}

/// The file offset held by entry `i` of the index table at `io`.
pub open spec fn entry_offset(d: Seq<u8>, io: int, i: int) -> int {
    le64(d, io + 24 * i + 8)
}

/// The timestamp held by entry `i` of the index table at `io`.
pub open spec fn entry_timestamp(d: Seq<u8>, io: int, i: int) -> int {
    le64(d, io + 24 * i)
}

/// Errors about index entry `i`: an offset not above the previous entry's,
/// an offset inside the file header.
pub open spec fn entry_errors(d: Seq<u8>, io: int, i: int) -> Seq<Seq<char>> {
    (if i > 0 && entry_offset(d, io, i) <= entry_offset(d, io, i - 1) {
        seq!["index entry "@ + decimal(i as nat) + ": non-increasing offset"@]
    } else {
        Seq::empty()
    }) + (if entry_offset(d, io, i) < 472 {
        seq!["index entry "@ + decimal(i as nat) + ": offset before file header"@]
    } else {
        Seq::empty()
    })
}

/// Warnings about index entry `i`: a timestamp below the previous entry's.
pub open spec fn entry_warnings(d: Seq<u8>, io: int, i: int) -> Seq<Seq<char>> {
    if i > 0 && entry_timestamp(d, io, i) < entry_timestamp(d, io, i - 1) {
        seq!["index entry "@ + decimal(i as nat) + ": non-monotonic timestamp"@]
    } else {
        Seq::empty()
    }
}

/// Errors about the first `count` index entries, in order.
pub open spec fn index_errors(d: Seq<u8>, io: int, count: nat) -> Seq<Seq<char>>
    decreases count,
{
    if count == 0 {
        Seq::empty()
    } else {
        index_errors(d, io, (count - 1) as nat) + entry_errors(d, io, count - 1)
    }
}

/// Warnings about the first `count` index entries, in order.
pub open spec fn index_warnings(d: Seq<u8>, io: int, count: nat) -> Seq<Seq<char>>
    decreases count,
{
    if count == 0 {
        Seq::empty()
    } else {
        index_warnings(d, io, (count - 1) as nat) + entry_warnings(d, io, count - 1)
    }
}

/// Errors about the file header: magic and version.
pub open spec fn header_errors(d: Seq<u8>) -> Seq<Seq<char>> {
    (if d.subrange(0, 6) != magic_prefix() {
        seq!["bad magic bytes"@]
    } else {
        Seq::empty()
    }) + (if d[6] != 2 {
        seq!["unsupported version: "@ + decimal(d[6] as nat)]
    } else {
        Seq::empty()
    })
}

/// Errors about the footer's view of the index: magic, offset and extent.
pub open spec fn footer_errors(d: Seq<u8>) -> Seq<Seq<char>> {
    let fp = d.len() - 36;
    let io = le64(d, fp + 4);
    (if le32(d, fp) != INDEX_MAGIC {
        seq!["bad index magic in footer"@]
    } else {
        Seq::empty()
    }) + (if io < 472 {
        seq!["index_offset "@ + decimal(io as nat) + " before end of file header"@]
    } else {
        Seq::empty()
    }) + (if io + 24 * le32(d, fp + 12) > fp {
        seq!["index table overlaps footer"@]
    } else {
        Seq::empty()
    })
}

/// The footer's index extent is computable in 64 bits: for a recording
/// with an intact footer, the index offset plus 24 bytes per entry stays
/// within `u64::MAX`.
pub open spec fn validate_fits(d: Seq<u8>) -> bool {
    d.len() >= 508 && le32(d, d.len() - 4) == FOOTER_MAGIC ==> le64(d, d.len() - 32) + 24 * le32(d, d.len()
        - 24) <= u64::MAX
}

/// The structural checks of a recording: header magic and version, the
/// footer, the index table it points to, and the first frame block's magic.
pub open spec fn validation_spec(d: Seq<u8>) -> ValidationView {
    if d.len() < 472 {
        ValidationView {
            valid: false,
            errors: seq!["cannot read file header: failed to fill whole buffer"@],
            warnings: Seq::empty(),
            total_frames: 0,
            duration_us: 0,
            has_footer: false,
            has_index: false,
            index_entries: 0,
        }
    } else if d.len() < 508 {
        ValidationView {
            valid: false,
            errors: header_errors(d).push("file too small for header + footer"@),
            warnings: Seq::empty(),
            total_frames: 0,
            duration_us: 0,
            has_footer: false,
            has_index: false,
            index_entries: 0,
        }
    } else if le32(d, d.len() - 36 + 32) != FOOTER_MAGIC {
        ValidationView {
            valid: header_errors(d).len() == 0,
            errors: header_errors(d),
            warnings: seq!["no valid footer \u{2014} file may be truncated"@],
            total_frames: 0,
            duration_us: 0,
            has_footer: false,
            has_index: false,
            index_entries: 0,
        }
    } else {
        let fp = d.len() - 36;
        let io = le64(d, fp + 4);
        let count = le32(d, fp + 12);
        let total = le64(d, fp + 16);
        let e2 = header_errors(d) + footer_errors(d);
        let has_index = count > 0 && e2.len() == 0;
        let e3 = if has_index { e2 + index_errors(d, io, count as nat) } else { e2 };
        let w = if has_index {
            index_warnings(d, io, count as nat) + if total != count {
                seq!["frame count mismatch: footer says "@ + decimal(total as nat) + " frames but "@
                    + decimal(count as nat) + " index entries"@]
            } else {
                Seq::empty()
            }
        } else {
            Seq::empty()
        };
        let errors = e3 + if le32(d, 472) != FRAME_MAGIC {
            seq!["first frame block has bad magic"@]
        } else {
            Seq::empty()
        };
        ValidationView {
            valid: errors.len() == 0,
            errors,
            warnings: w,
            total_frames: total as u64,
            duration_us: le64(d, fp + 24) as u64,
            has_footer: true,
            has_index,
            index_entries: count as u32,
        }
    }
}

fn push_text(v: &mut Vec<String>, msg: &str)
    ensures
        strings_view(final(v)@) == strings_view(old(v)@).push(msg@),
{
    v.push(text(msg));
    assert(strings_view(v@) =~= strings_view(old(v)@).push(msg@));
}

fn push_string(v: &mut Vec<String>, msg: String)
    ensures
        strings_view(final(v)@) == strings_view(old(v)@).push(msg@),
{
    v.push(msg);
    assert(strings_view(v@) =~= strings_view(old(v)@).push(msg@));
}

/// `index entry I: WHAT`.
fn entry_message(i: u32, what: &str) -> (m: String)
    ensures
        m@ == "index entry "@ + decimal(i as nat) + what@,
{
    let mut m = text("index entry ");
    push_decimal(&mut m, i as u64);
    m.append(what);
    m
}

impl EgorecScanner {

/// Checks the structure of a recording: the header magic and version, the
/// footer, the index table (entry offsets increasing and past the header,
/// timestamps non-decreasing, entry count matching the frame count) and the
/// first frame block's magic.
#[verifier::rlimit(60)]
pub fn validate(data: &[u8]) -> (r: ValidationResult)
    requires
        validate_fits(data@),
    ensures
        r@ == validation_spec(data@),
{
    let ghost d = data@;
    let mut errors: Vec<String> = Vec::new();
    let mut warnings: Vec<String> = Vec::new();
    if data.len() < 472 {
        push_text(&mut errors, "cannot read file header: failed to fill whole buffer");
        assert(strings_view(errors@) =~= validation_spec(d).errors);
        assert(strings_view(warnings@) =~= validation_spec(d).warnings);
        return ValidationResult {
            valid: false,
            errors,
            warnings,
            total_frames: 0,
            duration_us: 0,
            has_footer: false,
            has_index: false,
            index_entries: 0,
        };
    }
    if !has_magic_prefix(data) {
        push_text(&mut errors, "bad magic bytes");
    }
    if data[6] != 0x02 {
        let mut m = text("unsupported version: ");
        push_decimal(&mut m, data[6] as u64);
        push_string(&mut errors, m);
    }
    assert(strings_view(errors@) =~= header_errors(d));
    let mut total_frames: u64 = 0;
    let mut duration_us: u64 = 0;
    let mut has_index = false;
    let mut index_entries: u32 = 0;
    let has_footer;
    if data.len() < 508 {
        push_text(&mut errors, "file too small for header + footer");
        has_footer = false;
    } else {
        let footer_start = data.len() - 36;
        let footer = match FileFooter::read_from(data, footer_start) {
            Some(f) => f,
            None => {
                return ValidationResult {
                    valid: false,
                    errors,
                    warnings,
                    total_frames,
                    duration_us,
                    has_footer: false,
                    has_index,
                    index_entries,
                };
            },
        };
        if footer.footer_magic == FOOTER_MAGIC {
            has_footer = true;
            total_frames = footer.total_frames;
            duration_us = footer.total_duration_us;
            index_entries = footer.index_entry_count;
            if footer.index_magic != INDEX_MAGIC {
                push_text(&mut errors, "bad index magic in footer");
            }
            if footer.index_offset < 472 {
                let mut m = text("index_offset ");
                push_decimal(&mut m, footer.index_offset);
                m.append(" before end of file header");
                push_string(&mut errors, m);
            }
            let expected_index_size: u64 = footer.index_entry_count as u64 * 24;
            let overlaps = footer.index_offset > footer_start as u64
                || footer_start as u64 - footer.index_offset < expected_index_size;
            if overlaps {
                push_text(&mut errors, "index table overlaps footer");
            }
            let ghost e2 = strings_view(errors@);
            assert(e2 =~= header_errors(d) + footer_errors(d));
            if footer.index_entry_count > 0 && errors.len() == 0 {
                has_index = true;
                let io = footer.index_offset;
                let count = footer.index_entry_count;
                let mut prev_ts: u64 = 0;
                let mut prev_offset: u64 = 0;
                let mut i: u32 = 0;
                assert(strings_view(errors@) =~= e2 + index_errors(d, io as int, 0));
                assert(strings_view(warnings@) =~= index_warnings(d, io as int, 0));
                while i < count
                    invariant
                        d == data@,
                        i <= count,
                        io + 24 * count <= footer_start,
                        footer_start == d.len() - 36,
                        i > 0 ==> prev_offset == entry_offset(d, io as int, i - 1),
                        i > 0 ==> prev_ts == entry_timestamp(d, io as int, i - 1),
                        strings_view(errors@) == e2 + index_errors(d, io as int, i as nat),
                        strings_view(warnings@) == index_warnings(d, io as int, i as nat),
                    decreases count - i,
                {
                    let pos = (io + 24 * (i as u64)) as usize;
                    let entry = IndexEntry {
                        timestamp_us: read_le64(data, pos),
                        file_offset: read_le64(data, pos + 8),
                        frame_number: read_le64(data, pos + 16),
                    };
                    let ghost e_before = strings_view(errors@);
                    let ghost w_before = strings_view(warnings@);
                    if i > 0 {
                        if entry.file_offset <= prev_offset {
                            push_string(&mut errors, entry_message(i, ": non-increasing offset"));
                        }
                        if entry.timestamp_us < prev_ts {
                            push_string(&mut warnings, entry_message(i, ": non-monotonic timestamp"));
                        }
                    }
                    if entry.file_offset < 472 {
                        push_string(&mut errors, entry_message(i, ": offset before file header"));
                    }
                    proof {
                        assert(strings_view(errors@) =~= e_before + entry_errors(d, io as int, i as int));
                        assert(strings_view(warnings@) =~= w_before + entry_warnings(d, io as int, i as int));
                        assert(e2 + index_errors(d, io as int, (i + 1) as nat) =~= e_before + entry_errors(d, io as int, i as int));
                    }
                    prev_ts = entry.timestamp_us;
                    prev_offset = entry.file_offset;
                    i = i + 1;
                }
                assert(i == count);
                assert(strings_view(errors@) == e2 + index_errors(d, io as int, count as nat));
                if footer.total_frames != footer.index_entry_count as u64 {
                    let mut m = text("frame count mismatch: footer says ");
                    push_decimal(&mut m, footer.total_frames);
                    m.append(" frames but ");
                    push_decimal(&mut m, footer.index_entry_count as u64);
                    m.append(" index entries");
                    push_string(&mut warnings, m);
                }
            }
            let ghost e3 = strings_view(errors@);
            let ghost w3 = strings_view(warnings@);
            assert(e3 == if has_index { e2 + index_errors(d, le64(d, footer_start + 4), le32(d, footer_start + 12) as nat) } else { e2 });
            match FrameBlockHeader::read_from(data, 472) {
                Some(fbh) => {
                    if fbh.magic != FRAME_MAGIC {
                        push_text(&mut errors, "first frame block has bad magic");
                    }
                },
                None => {},
            }
        } else {
            has_footer = false;
            push_text(&mut warnings, "no valid footer \u{2014} file may be truncated");
        }
    }
    let valid = errors.len() == 0;
    let r = ValidationResult {
        valid,
        errors,
        warnings,
        total_frames,
        duration_us,
        has_footer,
        has_index,
        index_entries,
    };
    proof {
        let v = validation_spec(d);
        assert(r@.errors =~= v.errors);
        assert(r@.warnings =~= v.warnings);
    }
    r
}

}

// ---------------------------------------------------------------------------
// Frame headers.

/// Failures of a scan. I/O failures carry the text of the underlying error.
#[derive(Debug)]
pub enum ScanError {
    Io(String),
    Format(String),
}

/// What a scan failure stands for.
pub enum ScanErrorView {
    Io(Seq<char>),
    Format(Seq<char>),
}

impl View for ScanError {
    type V = ScanErrorView;

    open spec fn view(&self) -> ScanErrorView {
        match self {
            ScanError::Io(m) => ScanErrorView::Io(m@),
            ScanError::Format(m) => ScanErrorView::Format(m@),
        }
    }
}

impl ScanError {
    /// The text the failure is reported with.
    pub fn message(&self) -> (m: String)
        ensures
            m@ == match self@ {
                ScanErrorView::Io(x) => "I/O error: "@ + x,
                ScanErrorView::Format(x) => "invalid .egorec file: "@ + x,
            },
    {
        match self {
            ScanError::Io(x) => {
                let mut m = text("I/O error: ");
                m.append(x.as_str());
                m
            },
            ScanError::Format(x) => {
                let mut m = text("invalid .egorec file: ");
                m.append(x.as_str());
                m
            },
        }
    }
}

/// The per-frame facts of the block header at `offset`. Frames whose number
/// is a multiple of 30 are expected keyframes.
pub open spec fn frame_info_at(d: Seq<u8>, offset: int) -> FrameInfo {
    FrameInfo {
        frame_number: le64(d, offset + 16) as u64,
        timestamp_us: le64(d, offset + 8) as u64,
        rgb_compressed_size: le32(d, offset + 24) as u32,
        depth_compressed_size: le32(d, offset + 28) as u32,
        file_offset: offset as u64,
        block_size: le32(d, offset + 4) as u32,
        is_expected_keyframe: le64(d, offset + 16) % 30 == 0,
    }
}

/// How a walk over frame block headers ended.
pub enum HeaderWalkEnd {
    Done,
    Truncated,
    BadMagic,
}

/// Walks `count` frame block headers one after the other from `offset`,
/// each block's size leading to the next.
pub open spec fn sequential_walk(d: Seq<u8>, offset: int, count: nat) -> (Seq<FrameInfo>, HeaderWalkEnd)
    decreases count,
{
    if count == 0 {
        (Seq::empty(), HeaderWalkEnd::Done)
    } else if offset + 36 > d.len() {
        (Seq::empty(), HeaderWalkEnd::Truncated)
    } else if le32(d, offset) != FRAME_MAGIC {
        (Seq::empty(), HeaderWalkEnd::BadMagic)
    } else {
        let rest = sequential_walk(d, offset + le32(d, offset + 4), (count - 1) as nat);
        (seq![frame_info_at(d, offset)] + rest.0, rest.1)
    }
}

/// Reads the frame block headers the index entries `i..count` of the table
/// at `io` point at; how the walk ended, with the entry it stopped at.
pub open spec fn indexed_walk(d: Seq<u8>, io: int, i: int, count: int) -> (Seq<FrameInfo>, HeaderWalkEnd, int)
    decreases count - i,
{
    if i >= count {
        (Seq::empty(), HeaderWalkEnd::Done, i)
    } else {
        let off = entry_offset(d, io, i);
        if off + 36 > d.len() {
            (Seq::empty(), HeaderWalkEnd::Truncated, i)
        } else if le32(d, off) != FRAME_MAGIC {
            (Seq::empty(), HeaderWalkEnd::BadMagic, i)
        } else {
            let rest = indexed_walk(d, io, i + 1, count);
            (seq![frame_info_at(d, off)] + rest.0, rest.1, rest.2)
        }
    }
}

/// The frame headers of a recording: those the index points at, or, without
/// index entries, the footer's frame count of blocks from the end of the
/// header; or the failure the scan reports.
pub open spec fn scan_frames_spec(d: Seq<u8>) -> Result<Seq<FrameInfo>, ScanErrorView> {
    let fp = d.len() - 36;
    let io = le64(d, fp + 4);
    let count = le32(d, fp + 12);
    if d.len() < 472 {
        Err(ScanErrorView::Format("cannot read header: failed to fill whole buffer"@))
    } else if d.subrange(0, 6) != magic_prefix() || d[6] != 2 {
        Err(ScanErrorView::Format("bad magic or version"@))
    } else if le32(d, fp + 32) != FOOTER_MAGIC {
        Err(ScanErrorView::Format("missing footer magic"@))
    } else if count > 0 && io + 24 * count > d.len() {
        Err(ScanErrorView::Io("failed to fill whole buffer"@))
    } else if count == 0 {
        let w = sequential_walk(d, 472, le64(d, fp + 16) as nat);
        match w.1 {
            HeaderWalkEnd::Done => Ok(w.0),
            HeaderWalkEnd::Truncated => Err(ScanErrorView::Io("failed to fill whole buffer"@)),
            HeaderWalkEnd::BadMagic => Err(ScanErrorView::Format("bad frame magic in sequential scan"@)),
        }
    } else {
        let w = indexed_walk(d, io, 0, count);
        match w.1 {
            HeaderWalkEnd::Done => Ok(w.0),
            HeaderWalkEnd::Truncated => Err(ScanErrorView::Io("failed to fill whole buffer"@)),
            HeaderWalkEnd::BadMagic => Err(ScanErrorView::Format("bad frame magic at index "@ + decimal(w.2 as nat))),
        }
    }
}

/// The frame headers of a recording with the footer's totals.
pub struct FrameScan {
    pub total_frames: u64,
    pub duration_us: u64,
    pub start_timestamp_us: u64,
    pub frame_infos: Vec<FrameInfo>,
}

fn read_frame_info(data: &[u8], offset: usize) -> (fi: FrameInfo)
    requires
        offset + 36 <= data@.len(),
    ensures
        fi == frame_info_at(data@, offset as int),
        fi.block_size == le32(data@, offset + 4),
{
    let n = data.len();
    assert(offset + 36 <= n);
    let frame_number = read_le64(data, offset + 16);
    FrameInfo {
        frame_number,
        timestamp_us: read_le64(data, offset + 8),
        rgb_compressed_size: read_le32(data, offset + 24),
        depth_compressed_size: read_le32(data, offset + 28),
        file_offset: offset as u64,
        block_size: read_le32(data, offset + 4),
        is_expected_keyframe: frame_number % 30 == 0,
    }
}

impl EgorecScanner {

/// Reads the frame block headers of a recording without touching the
/// compressed data: through the index when it has entries, else block by
/// block from the end of the header for the footer's frame count.
#[verifier::rlimit(40)]
pub fn scan_frames(data: &[u8]) -> (r: Result<FrameScan, ScanError>)
    requires
        data@.len() < 0x1_0000_0000_0000,
    ensures
        match r {
            Ok(scan) => scan_frames_spec(data@) == Ok::<Seq<FrameInfo>, ScanErrorView>(scan.frame_infos@)
                && scan.total_frames == le64(data@, data@.len() - 20)
                && scan.duration_us == le64(data@, data@.len() - 12)
                && scan.start_timestamp_us == le64(data@, 324),
            Err(e) => scan_frames_spec(data@) == Err::<Seq<FrameInfo>, ScanErrorView>(e@),
        },
{
    let ghost d = data@;
    if data.len() < 472 {
        return Err(ScanError::Format(text("cannot read header: failed to fill whole buffer")));
    }
    let good_magic = has_magic_prefix(data);
    if !good_magic || data[6] != 0x02 {
        return Err(ScanError::Format(text("bad magic or version")));
    }
    let len = data.len();
    let fp = len - 36;
    if read_le32(data, fp + 32) != FOOTER_MAGIC {
        return Err(ScanError::Format(text("missing footer magic")));
    }
    let io = read_le64(data, fp + 4);
    let count = read_le32(data, fp + 12);
    let total_frames = read_le64(data, fp + 16);
    let duration_us = read_le64(data, fp + 24);
    let start_timestamp_us = read_le64(data, 324);
    let mut infos: Vec<FrameInfo> = Vec::new();
    if count > 0 {
        if io > len as u64 || (len as u64) - io < 24 * (count as u64) {
            return Err(ScanError::Io(text("failed to fill whole buffer")));
        }
        let mut i: u32 = 0;
        assert(infos@ + indexed_walk(d, io as int, 0, count as int).0 =~= indexed_walk(d, io as int, 0, count as int).0);
        while i < count
            invariant
                d == data@,
                len == d.len(),
                d.len() < 0x1_0000_0000_0000,
                472 <= d.len(),
                d.subrange(0, 6) == magic_prefix(),
                d[6] == 2,
                fp == len - 36,
                le32(d, fp + 32) == FOOTER_MAGIC,
                0 < count,
                io == le64(d, fp + 4),
                count == le32(d, fp + 12),
                i <= count,
                io + 24 * count <= len,
                indexed_walk(d, io as int, 0, count as int) == ({
                    let w = indexed_walk(d, io as int, i as int, count as int);
                    (infos@ + w.0, w.1, w.2)
                }),
            decreases count - i,
        {
            let pos = (io + 24 * (i as u64)) as usize;
            let off = read_le64(data, pos + 8);
            assert(off == entry_offset(d, io as int, i as int));
            if off > len as u64 || (len as u64) - off < 36 {
                proof {
                    assert(indexed_walk(d, io as int, i as int, count as int).1 == HeaderWalkEnd::Truncated);
                }
                return Err(ScanError::Io(text("failed to fill whole buffer")));
            }
            if read_le32(data, off as usize) != FRAME_MAGIC {
                let mut m = text("bad frame magic at index ");
                push_decimal(&mut m, i as u64);
                proof {
                    let w = indexed_walk(d, io as int, i as int, count as int);
                    assert(w.1 == HeaderWalkEnd::BadMagic && w.2 == i);
                }
                return Err(ScanError::Format(m));
            }
            let fi = read_frame_info(data, off as usize);
            let ghost before = infos@;
            infos.push(fi);
            proof {
                let w = indexed_walk(d, io as int, i as int, count as int);
                let wn = indexed_walk(d, io as int, i + 1, count as int);
                assert(w == (seq![frame_info_at(d, off as int)] + wn.0, wn.1, wn.2));
                assert(infos@ + wn.0 =~= before + w.0);
            }
            i = i + 1;
        }
        assert(infos@ + Seq::<FrameInfo>::empty() =~= infos@);
    } else {
        let mut offset: u64 = 472;
        let mut k: u64 = 0;
        assert(infos@ + sequential_walk(d, 472, total_frames as nat).0 =~= sequential_walk(d, 472, total_frames as nat).0);
        while k < total_frames
            invariant
                d == data@,
                len == d.len(),
                d.len() < 0x1_0000_0000_0000,
                472 <= d.len(),
                d.subrange(0, 6) == magic_prefix(),
                d[6] == 2,
                fp == len - 36,
                le32(d, fp + 32) == FOOTER_MAGIC,
                count == le32(d, fp + 12),
                count == 0,
                total_frames == le64(d, fp + 16),
                k <= total_frames,
                offset <= len + 0xFFFF_FFFF,
                sequential_walk(d, 472, total_frames as nat) == ({
                    let w = sequential_walk(d, offset as int, (total_frames - k) as nat);
                    (infos@ + w.0, w.1)
                }),
            decreases total_frames - k,
        {
            if offset > len as u64 || (len as u64) - offset < 36 {
                proof {
                    assert(sequential_walk(d, offset as int, (total_frames - k) as nat).1 == HeaderWalkEnd::Truncated);
                }
                return Err(ScanError::Io(text("failed to fill whole buffer")));
            }
            if read_le32(data, offset as usize) != FRAME_MAGIC {
                proof {
                    assert(sequential_walk(d, offset as int, (total_frames - k) as nat).1 == HeaderWalkEnd::BadMagic);
                }
                return Err(ScanError::Format(text("bad frame magic in sequential scan")));
            }
            assert(le32(d, offset as int) == FRAME_MAGIC);
            let fi = read_frame_info(data, offset as usize);
            let ghost before = infos@;
            infos.push(fi);
            proof {
                let w = sequential_walk(d, offset as int, (total_frames - k) as nat);
                let wn = sequential_walk(d, offset + fi.block_size, (total_frames - k - 1) as nat);
                assert(w == (seq![frame_info_at(d, offset as int)] + wn.0, wn.1));
                assert(infos@ + wn.0 =~= before + w.0);
            }
            offset = offset + fi.block_size as u64;
            k = k + 1;
        }
        assert(infos@ + Seq::<FrameInfo>::empty() =~= infos@);
    }
    Ok(FrameScan { total_frames, duration_us, start_timestamp_us, frame_infos: infos })
}

}


// ---------------------------------------------------------------------------
// Analysis windows.

/// How many windows `n` frames have at the given stride: one per stride
/// step before `n`.
pub open spec fn window_count(n: nat, stride: nat) -> nat {
    ((n + stride - 1) / (stride as int)) as nat
}

/// The analysis windows of `n` frames: window `k` starts at `k * stride` and
/// ends `length` frames later, cut at `n`; there is one for each start
/// before `n`.
pub open spec fn windows_spec(n: nat, length: nat, stride: nat) -> Seq<(u64, u64)> {
    Seq::new(
        window_count(n, stride),
        |k: int| ((k * stride) as u64, (if k * stride + length < n { k * stride + length } else { n as int }) as u64),
    )
}

proof fn lemma_window_count(i: int, stride: int, n: int)
    by (nonlinear_arith)
    requires
        stride > 0,
        i >= 0,
        n >= 0,
    ensures
        (i * stride < n) <==> (i < (n + stride - 1) / stride),
{
}

/// The frame ranges `[start, end)` of the analysis windows over `n`
/// frames: from frame 0, every `stride` frames while before `n`, each
/// `length` frames long and cut at `n`.
pub fn window_bounds(n: u64, length: u64, stride: u64) -> (w: Vec<(u64, u64)>)
    requires
        stride > 0,
        n > 0 ==> n - 1 + length <= u64::MAX,
        n > 0 ==> n - 1 + stride <= u64::MAX,
    ensures
        w@ == windows_spec(n as nat, length as nat, stride as nat),
{
    let mut w: Vec<(u64, u64)> = Vec::new();
    let mut start: u64 = 0;
    let ghost mut i: int = 0;
    proof {
        lemma_window_count(0, stride as int, n as int);
    }
    while start < n
        invariant
            stride > 0,
            n > 0 ==> n - 1 + length <= u64::MAX,
            n > 0 ==> n - 1 + stride <= u64::MAX,
            i >= 0,
            start == i * stride,
            i <= window_count(n as nat, stride as nat),
            (start < n) <==> (i < window_count(n as nat, stride as nat)),
            w@ == windows_spec(n as nat, length as nat, stride as nat).take(i),
        decreases window_count(n as nat, stride as nat) - i,
    {
        let end = if start + length < n { start + length } else { n };
        w.push((start, end));
        proof {
            assert(w@ =~= windows_spec(n as nat, length as nat, stride as nat).take(i + 1));
            i = i + 1;
            assert((i - 1) * stride + stride == i * stride) by (nonlinear_arith);
            lemma_window_count(i, stride as int, n as int);
        }
        start = start + stride;
    }
    assert(w@ =~= windows_spec(n as nat, length as nat, stride as nat));
    w
}


// ---------------------------------------------------------------------------
// Activity masks and P-frame counts.

/// The fused activity mask: a frame is active when its depth is, or when its
/// RGB is and the window is not moving with the camera.
pub open spec fn fused_mask_spec(depth: Seq<bool>, rgb: Seq<bool>, ego_motion: bool) -> Seq<bool> {
    Seq::new(depth.len(), |i: int| depth[i] || (rgb[i] && !ego_motion))
}

/// The fused activity mask of frames whose depth and RGB activity are given.
pub fn fused_mask(depth: &[bool], rgb: &[bool], ego_motion: bool) -> (m: Vec<bool>)
    requires
        depth@.len() <= rgb@.len(),
    ensures
        m@ == fused_mask_spec(depth@, rgb@, ego_motion),
{
    let mut m: Vec<bool> = Vec::new();
    let mut i: usize = 0;
    while i < depth.len()
        invariant
            i <= depth@.len() <= rgb@.len(),
            m@ == fused_mask_spec(depth@, rgb@, ego_motion).take(i as int),
        decreases depth@.len() - i,
    {
        m.push(depth[i] || (rgb[i] && !ego_motion));
        i += 1;
        assert(m@ =~= fused_mask_spec(depth@, rgb@, ego_motion).take(i as int));
    }
    assert(m@ =~= fused_mask_spec(depth@, rgb@, ego_motion));
    m
}

/// How many of the frames are P-frames (not expected keyframes) marked in
/// `mask` at their position.
pub open spec fn active_p_count(infos: Seq<FrameInfo>, mask: Seq<bool>) -> nat
    decreases infos.len(),
{
    if infos.len() == 0 {
        0
    } else {
        active_p_count(infos.drop_last(), mask) + if !infos.last().is_expected_keyframe && mask[infos.len() - 1] {
            1nat
        } else {
            0nat
        }
    }
}

/// How many of the frames are P-frames (not expected keyframes).
pub open spec fn p_frame_count(infos: Seq<FrameInfo>) -> nat
    decreases infos.len(),
{
    if infos.len() == 0 {
        0
    } else {
        p_frame_count(infos.drop_last()) + if !infos.last().is_expected_keyframe { 1nat } else { 0nat }
    }
}

/// Counts the P-frames, and those of them marked in `mask`.
pub fn count_p_frames(infos: &[FrameInfo], mask: &[bool]) -> (r: (u32, u32))
    requires
        infos@.len() <= mask@.len(),
        infos@.len() <= u32::MAX,
    ensures
        r.0 == p_frame_count(infos@),
        r.1 == active_p_count(infos@, mask@),
{
    let mut total: u32 = 0;
    let mut active: u32 = 0;
    let mut i: usize = 0;
    while i < infos.len()
        invariant
            i <= infos@.len() <= mask@.len(),
            infos@.len() <= u32::MAX,
            total == p_frame_count(infos@.take(i as int)),
            active == active_p_count(infos@.take(i as int), mask@),
            active <= total <= i,
        decreases infos@.len() - i,
    {
        proof {
            assert(infos@.take(i + 1).drop_last() =~= infos@.take(i as int));
        }
        if !infos[i].is_expected_keyframe {
            total = total + 1;
            if mask[i] {
                active = active + 1;
            }
        }
        i += 1;
    }
    assert(infos@.take(i as int) =~= infos@);
    (total, active)
}

// ---------------------------------------------------------------------------
// What a passed validation says of the index.

proof fn lemma_no_index_errors(d: Seq<u8>, io: int, count: nat)
    requires
        index_errors(d, io, count).len() == 0,
    ensures
        forall|i: int| 0 < i < count ==> entry_offset(d, io, i - 1) < #[trigger] entry_offset(d, io, i),
        forall|i: int| 0 <= i < count ==> 472 <= #[trigger] entry_offset(d, io, i),
    decreases count,
{
    if count > 0 {
        let k = count - 1;
        assert(index_errors(d, io, count) == index_errors(d, io, k as nat) + entry_errors(d, io, k));
        lemma_no_index_errors(d, io, k as nat);
        assert(entry_errors(d, io, k).len() == 0);
    }
}

/// Validation passes a recording with an intact footer and index only if
/// the index entry offsets are strictly increasing and each lies past the
/// file header; so an index entry that points at or before the entry
/// before it makes the recording invalid.
pub proof fn lemma_valid_index_offsets_increase(d: Seq<u8>)
    ensures
        ({
            let v = validation_spec(d);
            let io = le64(d, d.len() - 32);
            v.valid && v.has_index ==> {
                &&& d.len() >= 508
                &&& forall|i: int| 0 < i < v.index_entries ==> entry_offset(d, io, i - 1)
                    < #[trigger] entry_offset(d, io, i)
                &&& forall|i: int| 0 <= i < v.index_entries ==> 472 <= #[trigger] entry_offset(d, io, i)
            }
        }),
{
    let v = validation_spec(d);
    if v.valid && v.has_index {
        let fp = d.len() - 36;
        let io = le64(d, fp + 4);
        let count = le32(d, fp + 12);
        assert(fp + 4 == d.len() - 32);
        let e2 = header_errors(d) + footer_errors(d);
        let ie = index_errors(d, io, count as nat);
        assert(count > 0 && e2.len() == 0);
        let tail: Seq<Seq<char>> = if le32(d, 472) != FRAME_MAGIC {
            seq!["first frame block has bad magic"@]
        } else {
            Seq::empty()
        };
        assert(v.errors == e2 + ie + tail);
        assert(ie.len() == 0);
        lemma_no_index_errors(d, io, count as nat);
        assert(0 <= count < 0x1_0000_0000) by {
            reveal(crate::byte_order::le32);
            reveal(crate::byte_order::le16);
        }
        assert(v.index_entries == count);
    }
}

} // verus!
