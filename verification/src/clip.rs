//! Choosing the frames of a clip: the span of frames whose timestamps fall
//! in a window given as offsets from the recording's start.
use vstd::prelude::*;
use crate::text::text;

verus! {

/// Index of the first timestamp satisfying the bound (`at_least`: at least
/// `t`; otherwise: above `t`), if any.
pub open spec fn first_reaching(ts: Seq<u64>, t: int, at_least: bool) -> Option<int>
    decreases ts.len(),
{
    if ts.len() == 0 {
        None
    } else if (at_least && ts[0] >= t) || (!at_least && ts[0] > t) {
        Some(0)
    } else {
        match first_reaching(ts.drop_first(), t, at_least) {
            Some(k) => Some(k + 1),
            None => None,
        }
    }
}

/// `base + offset`, capped at `u64::MAX`.
pub open spec fn saturating_sum(base: u64, offset: u64) -> int {
    if base + offset > u64::MAX { u64::MAX as int } else { base + offset }
}

/// The frame span `[start, end)` of a window `[start_offset_us,
/// end_offset_us]` after the recording's start: from the first frame at or
/// after the window's start to the first frame after its end (or the last
/// frame). Errors when there are no frames, the start lies after the last
/// frame, or the span is empty.
pub open spec fn frame_range_spec(ts: Seq<u64>, base: u64, start_offset_us: u64, end_offset_us: u64) -> Result<
    (int, int),
    Seq<char>,
> {
    if ts.len() == 0 {
        Err("recording has no frames"@)
    } else {
        match first_reaching(ts, saturating_sum(base, start_offset_us), true) {
            None => Err("requested start is beyond the end of the recording"@),
            Some(s) => {
                let e = match first_reaching(ts, saturating_sum(base, end_offset_us), false) {
                    Some(e) => e,
                    None => ts.len() as int,
                };
                if e <= s {
                    Err("requested range resolves to an empty frame span"@)
                } else {
                    Ok((s, e))
                }
            },
        }
    }
}

/// The bound a timestamp is tested against.
pub open spec fn reaches(x: u64, t: int, at_least: bool) -> bool {
    (at_least && x >= t) || (!at_least && x > t)
}

proof fn lemma_first_reaching(ts: Seq<u64>, t: int, at_least: bool)
    ensures
        match first_reaching(ts, t, at_least) {
            Some(k) => 0 <= k < ts.len() && reaches(ts[k], t, at_least) && forall|j: int|
                0 <= j < k ==> !reaches(#[trigger] ts[j], t, at_least),
            None => forall|j: int| 0 <= j < ts.len() ==> !reaches(#[trigger] ts[j], t, at_least),
        },
    decreases ts.len(),
{
    if ts.len() > 0 {
        let rest = ts.drop_first();
        lemma_first_reaching(rest, t, at_least);
        if !reaches(ts[0], t, at_least) {
            match first_reaching(rest, t, at_least) {
                Some(k) => {
                    assert forall|j: int| 0 <= j < k + 1 implies !reaches(#[trigger] ts[j], t, at_least) by {
                        if j > 0 {
                            assert(ts[j] == rest[j - 1]);
                        }
                    }
                },
                None => {
                    assert forall|j: int| 0 <= j < ts.len() implies !reaches(#[trigger] ts[j], t, at_least) by {
                        if j > 0 {
                            assert(ts[j] == rest[j - 1]);
                        }
                    }
                },
            }
        }
    }
}

/// With timestamps in non-decreasing order, a clip's span holds exactly the
/// frames whose timestamps lie in the window: those before it are earlier
/// than the window's start, those in it lie within the window, those after
/// it are later than the window's end.
pub proof fn lemma_clip_span_in_window(ts: Seq<u64>, base: u64, start_offset_us: u64, end_offset_us: u64)
    requires
        forall|i: int, j: int| 0 <= i <= j < ts.len() ==> ts[i] <= ts[j],
    ensures
        frame_range_spec(ts, base, start_offset_us, end_offset_us) matches Ok((s, e)) ==> {
            &&& 0 <= s < e <= ts.len()
            &&& forall|i: int| 0 <= i < s ==> (#[trigger] ts[i]) < saturating_sum(base, start_offset_us)
            &&& forall|i: int| s <= i < e ==> saturating_sum(base, start_offset_us) <= (#[trigger] ts[i])
                <= saturating_sum(base, end_offset_us)
            &&& forall|i: int| e <= i < ts.len() ==> (#[trigger] ts[i]) > saturating_sum(base, end_offset_us)
        },
{
    let st = saturating_sum(base, start_offset_us);
    let en = saturating_sum(base, end_offset_us);
    lemma_first_reaching(ts, st, true);
    lemma_first_reaching(ts, en, false);
    if let Ok((s, e)) = frame_range_spec(ts, base, start_offset_us, end_offset_us) {
        assert forall|i: int| s <= i < e implies st <= (#[trigger] ts[i]) <= en by {
            assert(ts[s] <= ts[i]);
        }
        if e < ts.len() {
            assert forall|i: int| e <= i < ts.len() implies (#[trigger] ts[i]) > en by {
                assert(ts[e] <= ts[i]);
            }
        }
    }
}

fn position(ts: &[u64], t: u64, at_least: bool) -> (r: Option<usize>)
    ensures
        match first_reaching(ts@, t as int, at_least) {
            Some(k) => r is Some && r->0 == k,
            None => r is None,
        },
{
    proof {
        lemma_first_reaching(ts@, t as int, at_least);
    }
    let mut i: usize = 0;
    assert(ts@.subrange(0, ts@.len() as int) =~= ts@);
    while i < ts.len()
        invariant
            i <= ts@.len(),
            first_reaching(ts@, t as int, at_least) == match first_reaching(
                ts@.subrange(i as int, ts@.len() as int),
                t as int,
                at_least,
            ) {
                Some(k) => Some(k + i),
                None => None::<int>,
            },
        decreases ts@.len() - i,
    {
        let ghost rest = ts@.subrange(i as int, ts@.len() as int);
        assert(rest.drop_first() =~= ts@.subrange(i + 1, ts@.len() as int));
        if (at_least && ts[i] >= t) || (!at_least && ts[i] > t) {
            return Some(i);
        }
        i += 1;
    }
    None
}

/// The frame span of a clip window given in microseconds after the
/// recording's start timestamp.
pub fn frame_range_from_timestamps(
    timestamps: &[u64],
    base_timestamp_us: u64,
    start_offset_us: u64,
    end_offset_us: u64,
) -> (r: Result<(usize, usize), String>)
    ensures
        match frame_range_spec(timestamps@, base_timestamp_us, start_offset_us, end_offset_us) {
            Ok((s, e)) => r matches Ok((a, b)) && a == s && b == e,
            Err(m) => r matches Err(x) && x@ == m,
        },
{
    if timestamps.len() == 0 {
        return Err(text("recording has no frames"));
    }
    let start_timestamp_us = base_timestamp_us.saturating_add(start_offset_us);
    let end_timestamp_us = base_timestamp_us.saturating_add(end_offset_us);
    let start_idx = match position(timestamps, start_timestamp_us, true) {
        Some(i) => i,
        None => {
            return Err(text("requested start is beyond the end of the recording"));
        },
    };
    let end_idx = match position(timestamps, end_timestamp_us, false) {
        Some(i) => i,
        None => timestamps.len(),
    };
    if end_idx <= start_idx {
        return Err(text("requested range resolves to an empty frame span"));
    }
    Ok((start_idx, end_idx))
}

} // verus!
