//! Annex-B H.264 NAL unit parser and AVCC converter.
use vstd::prelude::*;
use crate::byte_order::{be32_bytes, push_be32, push_all};

verus! {

/// One NAL unit: its type (low five bits of the first byte) and its payload
/// without the start code.
pub struct NalUnit {
    pub nal_type: u8,
    pub data: Vec<u8>,
}

/// A three-byte start code `00 00 01` begins at `i`.
pub open spec fn is_start_code3(d: Seq<u8>, i: int) -> bool {
    &&& 0 <= i
    &&& i + 2 < d.len()
    &&& d[i] == 0
    &&& d[i + 1] == 0
    &&& d[i + 2] == 1
}

/// The first position at or after `i` where a three-byte start code begins.
pub open spec fn first_start_code3(d: Seq<u8>, i: int) -> Option<int>
    decreases d.len() - i,
{
    if i < 0 || i + 2 >= d.len() {
        None
    } else if is_start_code3(d, i) {
        Some(i)
    } else {
        first_start_code3(d, i + 1)
    }
}

/// The start code found from `pos`: its position and length. A `00` byte
/// just before a three-byte start code makes it a four-byte one.
pub open spec fn start_code_at(d: Seq<u8>, pos: int) -> Option<(int, int)> {
    if d.len() < pos + 3 {
        None
    } else {
        match first_start_code3(d, pos) {
            Some(i) => if i > 0 && d[i - 1] == 0 {
                Some((i - 1, 4))
            } else {
                Some((i, 3))
            },
            None => None,
        }
    }
}

/// The payloads of the NAL units whose data begins at `start`.
pub open spec fn nal_payloads_from(d: Seq<u8>, start: int) -> Seq<Seq<u8>>
    decreases d.len() - start,
{
    if start < 0 || start > d.len() {
        Seq::empty()
    } else {
        match start_code_at(d, start) {
            Some((p, l)) => {
                let here = if start < p <= d.len() {
                    seq![d.subrange(start, p)]
                } else {
                    Seq::empty()
                };
                if start < p + l <= d.len() {
                    here + nal_payloads_from(d, p + l)
                } else {
                    here
                }
            },
            None => if start < d.len() {
                seq![d.subrange(start, d.len() as int)]
            } else {
                Seq::empty()
            },
        }
    }
}

/// The NAL payloads of an Annex-B byte stream: the non-empty runs of bytes
/// between consecutive start codes, and from the last start code to the end.
/// Bytes before the first start code are not part of any unit.
pub open spec fn annex_b_payloads(d: Seq<u8>) -> Seq<Seq<u8>> {
    if d.len() == 0 {
        Seq::empty()
    } else {
        match start_code_at(d, 0) {
            Some((p, l)) => nal_payloads_from(d, p + l),
            None => Seq::empty(),
        }
    }
}

/// The NAL type carried in the first byte of a payload.
pub open spec fn nal_type_of(payload: Seq<u8>) -> u8 {
    payload[0] & 0x1F
}

/// `nals` holds exactly the given payloads, each with its type.
pub open spec fn nals_match(nals: Seq<NalUnit>, payloads: Seq<Seq<u8>>) -> bool {
    &&& nals.len() == payloads.len()
    &&& forall|k: int|
        0 <= k < nals.len() ==> {
            &&& (#[trigger] nals[k]).data@ == payloads[k]
            &&& payloads[k].len() > 0
            &&& nals[k].nal_type == nal_type_of(payloads[k])
        }
}

proof fn lemma_first_start_code3(d: Seq<u8>, i: int)
    requires
        0 <= i,
    ensures
        match first_start_code3(d, i) {
            Some(j) => i <= j && is_start_code3(d, j) && forall|k: int|
                i <= k < j ==> !is_start_code3(d, k),
            None => forall|k: int| i <= k ==> !is_start_code3(d, k),
        },
    decreases d.len() - i,
{
    if i < 0 || i + 2 >= d.len() {
    } else if is_start_code3(d, i) {
    } else {
        lemma_first_start_code3(d, i + 1);
    }
}

fn find_start_code(data: &[u8], pos: usize) -> (r: Option<(usize, usize)>)
    requires
        pos <= data.len(),
    ensures
        match r {
            Some((p, l)) => start_code_at(data@, pos as int) == Some((p as int, l as int)),
            None => start_code_at(data@, pos as int) is None,
        },
{
    if data.len() - pos < 3 {
        return None;
    }
    let mut i = pos;
    while i < data.len() - 2
        invariant
            pos <= i,
            pos + 3 <= data.len(),
            first_start_code3(data@, pos as int) == first_start_code3(data@, i as int),
        decreases data.len() - i,
    {
        if data[i] == 0x00 && data[i + 1] == 0x00 {
            if data[i + 2] == 0x01 {
                if i > 0 && data[i - 1] == 0x00 {
                    return Some((i - 1, 4));
                }
                return Some((i, 3));
            }
            if data[i + 2] == 0x00 {
                i += 1;
                continue;
            }
        }
        i += 1;
    }
    None
}

/// Splits an Annex-B byte stream into its NAL units.
pub fn parse_annex_b(data: &[u8]) -> (nals: Vec<NalUnit>)
    ensures
        nals_match(nals@, annex_b_payloads(data@)),
{
    let mut nals: Vec<NalUnit> = Vec::new();
    if data.len() == 0 {
        return nals;
    }
    let first = find_start_code(data, 0);
    let (first_sc_pos, first_sc_len) = match first {
        Some(x) => x,
        None => {
            return nals;
        },
    };
    proof {
        lemma_first_start_code3(data@, 0);
    }
    let mut nal_data_start = first_sc_pos + first_sc_len;
    loop
        invariant_except_break
            annex_b_payloads(data@) == annex_b_payloads(data@).subrange(0, nals@.len() as int)
                + nal_payloads_from(data@, nal_data_start as int),
        invariant
            nal_data_start <= data.len(),
            nals_match(nals@ , annex_b_payloads(data@).subrange(0, nals@.len() as int)),
            nals@.len() <= annex_b_payloads(data@).len(),
        ensures
            nals_match(nals@, annex_b_payloads(data@)),
        decreases data.len() - nal_data_start,
    {
        let ghost old_nals = nals@;
        let ghost start = nal_data_start as int;
        let found = find_start_code(data, nal_data_start);
        let nal_data_end;
        let next_start;
        match found {
            Some((sc_pos, sc_len)) => {
                proof {
                    lemma_first_start_code3(data@, start);
                }
                nal_data_end = sc_pos;
                next_start = Some(sc_pos + sc_len);
            },
            None => {
                nal_data_end = data.len();
                next_start = None;
            },
        }
        if nal_data_start < nal_data_end {
            let mut bytes: Vec<u8> = Vec::new();
            let mut k = nal_data_start;
            while k < nal_data_end
                invariant
                    nal_data_start <= k <= nal_data_end <= data.len(),
                    bytes@ == data@.subrange(nal_data_start as int, k as int),
                decreases nal_data_end - k,
            {
                bytes.push(data[k]);
                k += 1;
                assert(bytes@ =~= data@.subrange(nal_data_start as int, k as int));
            }
            let nal_type = bytes[0] & 0x1F;
            nals.push(NalUnit { nal_type, data: bytes });
        }
        proof {
            let all = annex_b_payloads(data@);
            let here = if start < nal_data_end as int {
                seq![data@.subrange(start, nal_data_end as int)]
            } else {
                Seq::empty()
            };
            match next_start {
                Some(ns) => {
                    assert(nal_payloads_from(data@, start) == here + nal_payloads_from(data@, ns as int));
                },
                None => {
                    assert(nal_payloads_from(data@, start) == here);
                },
            }
            let done = all.subrange(0, nals@.len() as int);
            assert(done =~= all.subrange(0, old_nals.len() as int) + here);
            if let Some(ns) = next_start {
                assert(all =~= done + nal_payloads_from(data@, ns as int));
            }
            assert forall|k: int| 0 <= k < nals@.len() implies {
                &&& (#[trigger] nals@[k]).data@ == done[k]
                &&& done[k].len() > 0
                &&& nals@[k].nal_type == nal_type_of(done[k])
            } by {
                if k < old_nals.len() {
                    assert(nals@[k] == old_nals[k]);
                    assert(done[k] == all.subrange(0, old_nals.len() as int)[k]);
                } else {
                    assert(done[k] == here[0]);
                }
            }
            assert(nals_match(nals@, done));
        }
        match next_start {
            Some(ns) => nal_data_start = ns,
            None => {
                proof {
                    assert(annex_b_payloads(data@).subrange(0, nals@.len() as int) =~= annex_b_payloads(data@));
                }
                assert(nals_match(nals@, annex_b_payloads(data@)));
                break;
            },
        }
    }
    nals
}


/// The payloads held by `nals`, in order.
pub open spec fn nal_data(nals: Seq<NalUnit>) -> Seq<Seq<u8>> {
    Seq::new(nals.len(), |k: int| nals[k].data@)
}

/// AVCC framing: each payload preceded by its length as a big-endian `u32`
/// (lengths are truncated to 32 bits).
pub open spec fn avcc_bytes(payloads: Seq<Seq<u8>>) -> Seq<u8>
    decreases payloads.len(),
{
    if payloads.len() == 0 {
        Seq::empty()
    } else {
        avcc_bytes(payloads.drop_last()) + be32_bytes((payloads.last().len() as u32) as int)
            + payloads.last()
    }
}

/// The type of each unit.
pub open spec fn nal_types(nals: Seq<NalUnit>) -> Seq<u8> {
    Seq::new(nals.len(), |k: int| nals[k].nal_type)
}

/// The NAL type of each payload.
pub open spec fn payload_types(payloads: Seq<Seq<u8>>) -> Seq<u8> {
    Seq::new(payloads.len(), |k: int| nal_type_of(payloads[k]))
}

/// Index of the first type equal to `t`, if any.
pub open spec fn first_of_type(types: Seq<u8>, t: u8) -> Option<int>
    decreases types.len(),
{
    if types.len() == 0 {
        None
    } else if types[0] == t {
        Some(0)
    } else {
        match first_of_type(types.drop_first(), t) {
            Some(k) => Some(k + 1),
            None => None,
        }
    }
}

/// Some type is an IDR slice (5) or a sequence parameter set (7).
pub open spec fn has_key_type(types: Seq<u8>) -> bool {
    exists|k: int| 0 <= k < types.len() && (types[k] == 5 || types[k] == 7)
}

pub proof fn lemma_first_of_type(types: Seq<u8>, t: u8)
    ensures
        match first_of_type(types, t) {
            Some(k) => 0 <= k < types.len() && types[k] == t && forall|j: int|
                0 <= j < k ==> types[j] != t,
            None => forall|j: int| 0 <= j < types.len() ==> types[j] != t,
        },
    decreases types.len(),
{
    if types.len() > 0 && types[0] != t {
        lemma_first_of_type(types.drop_first(), t);
        match first_of_type(types.drop_first(), t) {
            Some(k) => {
                assert forall|j: int| 0 <= j < k + 1 implies types[j] != t by {
                    if j > 0 {
                        assert(types[j] == types.drop_first()[j - 1]);
                    }
                }
            },
            None => {
                assert forall|j: int| 0 <= j < types.len() implies types[j] != t by {
                    if j > 0 {
                        assert(types[j] == types.drop_first()[j - 1]);
                    }
                }
            },
        }
    }
}

/// Units parsed from a stream carry the payloads and types of the stream.
pub proof fn lemma_nals_match(nals: Seq<NalUnit>, payloads: Seq<Seq<u8>>)
    requires
        nals_match(nals, payloads),
    ensures
        nal_types(nals) == payload_types(payloads),
        nal_data(nals) == payloads,
{
    assert(nal_types(nals) =~= payload_types(payloads));
    assert(nal_data(nals) =~= payloads);
}

/// Concatenates the units in AVCC form: each payload preceded by its length.
pub fn nals_to_avcc(nals: &[NalUnit]) -> (out: Vec<u8>)
    ensures
        out@ == avcc_bytes(nal_data(nals@)),
{
    let mut out: Vec<u8> = Vec::new();
    let mut i: usize = 0;
    while i < nals.len()
        invariant
            i <= nals@.len(),
            out@ == avcc_bytes(nal_data(nals@).subrange(0, i as int)),
        decreases nals@.len() - i,
    {
        let nal = &nals[i];
        push_be32(&mut out, #[verifier::truncate] (nal.data.len() as u32));
        push_all(&mut out, nal.data.as_slice());
        proof {
            let pre = nal_data(nals@).subrange(0, i + 1);
            assert(pre.drop_last() =~= nal_data(nals@).subrange(0, i as int));
            assert(pre.last() == nals@[i as int].data@);
        }
        i += 1;
    }
    assert(nal_data(nals@).subrange(0, i as int) =~= nal_data(nals@));
    out
}

fn find_type(nals: &[NalUnit], t: u8) -> (r: Option<usize>)
    ensures
        match r {
            Some(k) => first_of_type(nal_types(nals@), t) == Some(k as int),
            None => first_of_type(nal_types(nals@), t) is None,
        },
{
    let ghost types = nal_types(nals@);
    proof {
        lemma_first_of_type(types, t);
    }
    let mut i: usize = 0;
    while i < nals.len()
        invariant
            i <= nals@.len(),
            types == nal_types(nals@),
            forall|j: int| 0 <= j < i ==> types[j] != t,
            match first_of_type(types, t) {
                Some(k) => 0 <= k < types.len() && types[k] == t && forall|j: int|
                    0 <= j < k ==> types[j] != t,
                None => forall|j: int| 0 <= j < types.len() ==> types[j] != t,
            },
        decreases nals@.len() - i,
    {
        if nals[i].nal_type == t {
            assert(types[i as int] == t);
            return Some(i);
        }
        i += 1;
    }
    None
}

fn copy_bytes(v: &Vec<u8>) -> (r: Vec<u8>)
    ensures
        r@ == v@,
{
    let mut r: Vec<u8> = Vec::new();
    push_all(&mut r, v.as_slice());
    r
}

/// The payloads of the first SPS (type 7) and the first PPS (type 8), when
/// both are present.
pub fn extract_sps_pps(nals: &[NalUnit]) -> (r: Option<(Vec<u8>, Vec<u8>)>)
    ensures
        match r {
            Some((sps, pps)) => {
                &&& first_of_type(nal_types(nals@), 7) matches Some(i) && sps@ == nal_data(nals@)[i]
                &&& first_of_type(nal_types(nals@), 8) matches Some(j) && pps@ == nal_data(nals@)[j]
            },
            None => first_of_type(nal_types(nals@), 7) is None
                || first_of_type(nal_types(nals@), 8) is None,
        },
{
    proof {
        lemma_first_of_type(nal_types(nals@), 7);
        lemma_first_of_type(nal_types(nals@), 8);
    }
    let sps = find_type(nals, 7);
    let i = match sps {
        Some(i) => i,
        None => {
            return None;
        },
    };
    let pps = find_type(nals, 8);
    let j = match pps {
        Some(j) => j,
        None => {
            return None;
        },
    };
    Some((copy_bytes(&nals[i].data), copy_bytes(&nals[j].data)))
}

/// A unit of type 5 (IDR slice) or 7 (SPS) makes the access unit a keyframe.
pub fn is_keyframe(nals: &[NalUnit]) -> (r: bool)
    ensures
        r == has_key_type(nal_types(nals@)),
{
    let ghost types = nal_types(nals@);
    let mut i: usize = 0;
    while i < nals.len()
        invariant
            i <= nals@.len(),
            types == nal_types(nals@),
            forall|j: int| 0 <= j < i ==> !(types[j] == 5 || types[j] == 7),
        decreases nals@.len() - i,
    {
        if nals[i].nal_type == 5 || nals[i].nal_type == 7 {
            assert(types[i as int] == 5 || types[i as int] == 7);
            return true;
        }
        i += 1;
    }
    false
}


proof fn lemma_avcc_concat_len(a: Seq<Seq<u8>>, b: Seq<Seq<u8>>)
    ensures
        avcc_bytes(a + b).len() == avcc_bytes(a).len() + avcc_bytes(b).len(),
    decreases b.len(),
{
    if b.len() == 0 {
        assert(a + b =~= a);
    } else {
        lemma_avcc_concat_len(a, b.drop_last());
        assert((a + b).drop_last() =~= a + b.drop_last());
        assert((a + b).last() == b.last());
    }
}

proof fn lemma_avcc_one_len(x: Seq<u8>)
    ensures
        avcc_bytes(seq![x]).len() == 4 + x.len(),
{
    assert(seq![x].drop_last() =~= Seq::<Seq<u8>>::empty());
    assert(avcc_bytes(Seq::<Seq<u8>>::empty()).len() == 0);
    assert(be32_bytes((x.len() as u32) as int).len() == 4);
}

proof fn lemma_payloads_from_bound(d: Seq<u8>, start: int)
    requires
        0 <= start <= d.len(),
    ensures
        avcc_bytes(nal_payloads_from(d, start)).len() <= 5 * (d.len() - start),
    decreases d.len() - start,
{
    match start_code_at(d, start) {
        Some((p, l)) => {
            let here = if start < p <= d.len() {
                seq![d.subrange(start, p)]
            } else {
                Seq::empty()
            };
            if start < p <= d.len() {
                lemma_avcc_one_len(d.subrange(start, p));
            } else {
                assert(avcc_bytes(here).len() == 0);
            }
            if start < p + l <= d.len() {
                lemma_payloads_from_bound(d, p + l);
                lemma_avcc_concat_len(here, nal_payloads_from(d, p + l));
            }
        },
        None => {
            if start < d.len() {
                lemma_avcc_one_len(d.subrange(start, d.len() as int));
            }
        },
    }
}

/// The AVCC form of a stream is at most five times as long as the stream.
pub proof fn lemma_avcc_len_bound(d: Seq<u8>)
    ensures
        avcc_bytes(annex_b_payloads(d)).len() <= 5 * d.len(),
{
    if d.len() > 0 {
        lemma_first_start_code3(d, 0);
        match start_code_at(d, 0) {
            Some((p, l)) => {
                lemma_payloads_from_bound(d, p + l);
            },
            None => {},
        }
    }
}


// ---------------------------------------------------------------------------
// Joining payloads with start codes and parsing them back.

/// A four-byte start code.
pub open spec fn start_code4() -> Seq<u8> {
    seq![0u8, 0, 0, 1]
}

/// The payloads, each preceded by a four-byte start code.
pub open spec fn annex_b_join(ds: Seq<Seq<u8>>) -> Seq<u8>
    decreases ds.len(),
{
    if ds.len() == 0 {
        Seq::empty()
    } else {
        annex_b_join(ds.drop_last()) + start_code4() + ds.last()
    }
}

/// A payload that survives start-code framing: not empty, not ending in a
/// zero byte, and holding no two zero bytes in a row.
pub open spec fn framable(p: Seq<u8>) -> bool {
    &&& p.len() > 0
    &&& p.last() != 0
    &&& forall|i: int| 0 <= i < p.len() - 1 ==> !(#[trigger] p[i] == 0 && p[i + 1] == 0)
}

proof fn lemma_join_split(ds: Seq<Seq<u8>>, k: int)
    requires
        0 <= k <= ds.len(),
    ensures
        annex_b_join(ds) == annex_b_join(ds.take(k)) + annex_b_join(ds.skip(k)),
    decreases ds.len(),
{
    if k == ds.len() {
        assert(ds.take(k) =~= ds);
        assert(ds.skip(k) =~= Seq::<Seq<u8>>::empty());
        assert(annex_b_join(ds) + Seq::<u8>::empty() =~= annex_b_join(ds));
    } else {
        let dl = ds.drop_last();
        lemma_join_split(dl, k);
        assert(dl.take(k) =~= ds.take(k));
        assert(ds.skip(k).drop_last() =~= dl.skip(k));
        assert(ds.skip(k).last() == ds.last());
        assert(annex_b_join(ds) =~= annex_b_join(ds.take(k)) + annex_b_join(ds.skip(k)));
    }
}

proof fn lemma_join_at(ds: Seq<Seq<u8>>, k: int)
    requires
        0 <= k < ds.len(),
    ensures
        ({
            let a = annex_b_join(ds.take(k)).len() as int;
            let m = ds[k].len() as int;
            let d = annex_b_join(ds);
            &&& annex_b_join(ds.take(k + 1)).len() == a + 4 + m
            &&& d.len() >= a + 4 + m
            &&& d.subrange(a, a + 4) == start_code4()
            &&& d.subrange(a + 4, a + 4 + m) == ds[k]
            &&& k + 1 == ds.len() ==> d.len() == a + 4 + m
            &&& k + 1 < ds.len() ==> d.len() >= a + 8 + m && d.subrange(a + 4 + m, a + 8 + m) == start_code4()
        }),
{
    let a = annex_b_join(ds.take(k)).len() as int;
    let m = ds[k].len() as int;
    let d = annex_b_join(ds);
    lemma_join_split(ds, k + 1);
    assert(ds.take(k + 1).drop_last() =~= ds.take(k));
    let pre = annex_b_join(ds.take(k + 1));
    assert(pre == annex_b_join(ds.take(k)) + start_code4() + ds[k]);
    let post = annex_b_join(ds.skip(k + 1));
    assert(d == pre + post);
    assert(d.subrange(a, a + 4) =~= start_code4());
    assert(d.subrange(a + 4, a + 4 + m) =~= ds[k]);
    if k + 1 == ds.len() {
        assert(ds.skip(k + 1) =~= Seq::<Seq<u8>>::empty());
    } else {
        let rest = ds.skip(k + 1);
        lemma_join_split(rest, 1);
        assert(rest.take(1).drop_last() =~= Seq::<Seq<u8>>::empty());
        assert(annex_b_join(Seq::<Seq<u8>>::empty()) == Seq::<u8>::empty());
        assert(rest.take(1).last() == rest[0]);
        assert(annex_b_join(rest.take(1)) =~= Seq::<u8>::empty() + start_code4() + rest[0]);
        assert(annex_b_join(rest.take(1)) =~= start_code4() + rest[0]);
        assert(d.subrange(a + 4 + m, a + 8 + m) =~= start_code4());
    }
}

proof fn lemma_no_start_code_in(d: Seq<u8>, start: int, p: Seq<u8>)
    requires
        0 <= start,
        start + p.len() <= d.len(),
        d.subrange(start, start + p.len()) == p,
        framable(p),
    ensures
        forall|i: int| start <= i && i + 2 < d.len() && i < start + p.len() ==> !is_start_code3(d, i),
{
    let q = start + p.len();
    assert forall|i: int| start <= i && i + 2 < d.len() && i < q implies !is_start_code3(d, i) by {
        assert(d[i] == p[i - start]) by {
            assert(d.subrange(start, q)[i - start] == d[i]);
        }
        if i + 1 < q {
            assert(d[i + 1] == p[i + 1 - start]) by {
                assert(d.subrange(start, q)[i + 1 - start] == d[i + 1]);
            }
            assert(!(p[i - start] == 0 && p[i - start + 1] == 0));
        } else {
            assert(p[i - start] == p.last());
        }
    }
}

proof fn lemma_code_at(d: Seq<u8>, start: int, q: int)
    requires
        0 <= start <= q,
        q + 4 <= d.len(),
        d.subrange(q, q + 4) == start_code4(),
        forall|i: int| start <= i && i + 2 < d.len() && i < q ==> !is_start_code3(d, i),
    ensures
        start_code_at(d, start) == Some((q, 4int)),
{
    assert(d[q] == 0 && d[q + 1] == 0 && d[q + 2] == 0 && d[q + 3] == 1) by {
        assert(d.subrange(q, q + 4)[0] == d[q]);
        assert(d.subrange(q, q + 4)[1] == d[q + 1]);
        assert(d.subrange(q, q + 4)[2] == d[q + 2]);
        assert(d.subrange(q, q + 4)[3] == d[q + 3]);
    }
    lemma_first_start_code3(d, start);
    assert(!is_start_code3(d, q));
    assert(is_start_code3(d, q + 1));
    assert(first_start_code3(d, start) == Some(q + 1));
}

proof fn lemma_no_code_from(d: Seq<u8>, start: int)
    requires
        0 <= start,
        forall|i: int| start <= i && i + 2 < d.len() ==> !is_start_code3(d, i),
    ensures
        start_code_at(d, start) is None,
{
    lemma_first_start_code3(d, start);
}

proof fn lemma_payloads_from_join(ds: Seq<Seq<u8>>, k: int)
    requires
        0 <= k < ds.len(),
        forall|j: int| 0 <= j < ds.len() ==> framable(#[trigger] ds[j]),
    ensures
        nal_payloads_from(annex_b_join(ds), annex_b_join(ds.take(k)).len() + 4int) == ds.skip(k),
    decreases ds.len() - k,
{
    let d = annex_b_join(ds);
    let a = annex_b_join(ds.take(k)).len() as int;
    let p = ds[k];
    let m = p.len() as int;
    let start = a + 4;
    let q = start + m;
    lemma_join_at(ds, k);
    assert(framable(p));
    lemma_no_start_code_in(d, start, p);
    if k + 1 < ds.len() {
        lemma_code_at(d, start, q);
        lemma_payloads_from_join(ds, k + 1);
        assert(ds.skip(k) =~= seq![p] + ds.skip(k + 1));
        assert(nal_payloads_from(d, start) == seq![d.subrange(start, q)] + nal_payloads_from(d, q + 4));
    } else {
        lemma_no_code_from(d, start);
        assert(ds.skip(k) =~= seq![p]);
        assert(nal_payloads_from(d, start) == seq![d.subrange(start, q)]);
    }
}

/// Joining NAL payloads with four-byte start codes and parsing the stream
/// gives the payloads back, when each is framable (not empty, not ending in
/// a zero byte, with no two zero bytes in a row). With `parse_annex_b`'s
/// contract, the units parsed from such a stream are these payloads with
/// their types, and their AVCC form is `avcc_bytes(ds)`.
#[verifier::spinoff_prover]
pub proof fn lemma_annex_b_roundtrip(ds: Seq<Seq<u8>>)
    requires
        forall|j: int| 0 <= j < ds.len() ==> framable(#[trigger] ds[j]),
    ensures
        annex_b_payloads(annex_b_join(ds)) == ds,
{
    let d = annex_b_join(ds);
    if ds.len() > 0 {
        lemma_join_at(ds, 0);
        assert(ds.take(0) =~= Seq::<Seq<u8>>::empty());
        assert(d[0] == 0 && d[1] == 0 && d[2] == 0 && d[3] == 1) by {
            assert(d.subrange(0, 4)[0] == d[0]);
            assert(d.subrange(0, 4)[1] == d[1]);
            assert(d.subrange(0, 4)[2] == d[2]);
            assert(d.subrange(0, 4)[3] == d[3]);
        }
        lemma_first_start_code3(d, 0);
        assert(!is_start_code3(d, 0));
        assert(is_start_code3(d, 1));
        assert(first_start_code3(d, 0) == Some(1int));
        lemma_payloads_from_join(ds, 0);
        assert(ds.skip(0) =~= ds);
    } else {
        assert(d =~= Seq::<u8>::empty());
    }
}

} // verus!
