//! TFRecord output: hand-rolled protobuf serialization of `tf.train.Example`
//! and length-prefixed records with masked CRC32C checksums.
//!
//! Proto wire format: a tag is the varint `field_number << 3 | wire_type`
//! (wire type 0 = varint, 2 = length-delimited).
//! `Example { Features features = 1; }`,
//! `Features { map<string, Feature> feature = 1; }` (entries: key = 1, value = 2),
//! `Feature { oneof { BytesList = 1; FloatList = 2; Int64List = 3; } }`,
//! lists hold `repeated ... value = 1` (floats and int64s packed).
use vstd::prelude::*;
use vstd::utf8::encode_utf8;
use crate::byte_order::{le32, le32_bytes, lemma_le32_roundtrip, le64, le64_bytes, lemma_le64_roundtrip, lemma_le_window,
    group_le_bytes_len, push_all, push_le32, push_le64};

verus! {

broadcast use group_le_bytes_len;

/// A TensorFlow feature value. Float values are carried as their IEEE-754
/// bit patterns.
pub enum Feature {
    Bytes(Vec<Vec<u8>>),
    Float(Vec<u32>),
    Int64(Vec<i64>),
}

/// Base-128 varint: seven bits per byte, least significant group first, the
/// high bit set on every byte but the last.
pub open spec fn varint(v: nat) -> Seq<u8>
    decreases v,
{
    if v < 128 {
        seq![v as u8]
    } else {
        seq![(v % 128 + 128) as u8] + varint(v / 128)
    }
}

/// A field tag.
pub open spec fn tag(field_number: nat, wire_type: nat) -> Seq<u8> {
    varint(field_number * 8 + wire_type)
}

/// A length-delimited value: its length as a varint, then its bytes.
pub open spec fn len_delimited(data: Seq<u8>) -> Seq<u8> {
    varint(data.len()) + data
}

/// `repeated bytes value = 1;`
pub open spec fn bytes_list(values: Seq<Seq<u8>>) -> Seq<u8>
    decreases values.len(),
{
    if values.len() == 0 {
        Seq::empty()
    } else {
        bytes_list(values.drop_last()) + tag(1, 2) + len_delimited(values.last())
    }
}

/// Little-endian bytes of each 32-bit pattern, concatenated.
pub open spec fn float_bytes(bits: Seq<u32>) -> Seq<u8>
    decreases bits.len(),
{
    if bits.len() == 0 {
        Seq::empty()
    } else {
        float_bytes(bits.drop_last()) + le32_bytes(bits.last() as int)
    }
}

/// Packed `repeated float value = 1;` (nothing for an empty list); the byte
/// count is taken modulo 2^64.
pub open spec fn float_list(bits: Seq<u32>) -> Seq<u8> {
    if bits.len() == 0 {
        Seq::empty()
    } else {
        tag(1, 2) + varint((4 * bits.len()) % 0x1_0000_0000_0000_0000) + float_bytes(bits)
    }
}

/// The 64-bit two's-complement pattern of an `i64`.
pub open spec fn as_unsigned(v: i64) -> nat {
    if v >= 0 { v as nat } else { (v + 0x1_0000_0000_0000_0000) as nat }
}

/// The varints of each value, concatenated.
pub open spec fn varint_list(values: Seq<i64>) -> Seq<u8>
    decreases values.len(),
{
    if values.len() == 0 {
        Seq::empty()
    } else {
        varint_list(values.drop_last()) + varint(as_unsigned(values.last()))
    }
}

/// Packed `repeated int64 value = 1;` (nothing for an empty list).
pub open spec fn int64_list(values: Seq<i64>) -> Seq<u8> {
    if values.len() == 0 {
        Seq::empty()
    } else {
        tag(1, 2) + len_delimited(varint_list(values))
    }
}

/// What a feature stands for.
pub enum FeatureView {
    Bytes(Seq<Seq<u8>>),
    Float(Seq<u32>),
    Int64(Seq<i64>),
}

impl View for Feature {
    type V = FeatureView;

    open spec fn view(&self) -> FeatureView {
        match self {
            Feature::Bytes(vs) => FeatureView::Bytes(Seq::new(vs@.len(), |i: int| vs@[i]@)),
            Feature::Float(bits) => FeatureView::Float(bits@),
            Feature::Int64(vals) => FeatureView::Int64(vals@),
        }
    }
}

/// An encoded `Feature` message.
pub open spec fn feature_bytes(f: FeatureView) -> Seq<u8> {
    match f {
        FeatureView::Bytes(vs) => tag(1, 2) + len_delimited(bytes_list(vs)),
        FeatureView::Float(bits) => tag(2, 2) + len_delimited(float_list(bits)),
        FeatureView::Int64(vals) => tag(3, 2) + len_delimited(int64_list(vals)),
    }
}

/// An encoded map entry: key = 1 (UTF-8 string), value = 2 (`Feature`).
pub open spec fn map_entry_bytes(key: Seq<char>, f: FeatureView) -> Seq<u8> {
    tag(1, 2) + len_delimited(encode_utf8(key)) + tag(2, 2) + len_delimited(feature_bytes(f))
}

/// An encoded `Features` message holding the entries in order.
pub open spec fn features_bytes(entries: Seq<(Seq<char>, FeatureView)>) -> Seq<u8>
    decreases entries.len(),
{
    if entries.len() == 0 {
        Seq::empty()
    } else {
        features_bytes(entries.drop_last()) + tag(1, 2)
            + len_delimited(map_entry_bytes(entries.last().0, entries.last().1))
    }
}

/// An encoded `Example` message.
pub open spec fn example_bytes(entries: Seq<(Seq<char>, FeatureView)>) -> Seq<u8> {
    tag(1, 2) + len_delimited(features_bytes(entries))
}

/// The views of a list of feature entries.
pub open spec fn entry_views(entries: Seq<(String, Feature)>) -> Seq<(Seq<char>, FeatureView)> {
    Seq::new(entries.len(), |i: int| (entries[i].0@, entries[i].1@))
}

fn write_varint(out: &mut Vec<u8>, value: u64)
    ensures
        final(out)@ == old(out)@ + varint(value as nat),
{
    let mut value = value;
    let ghost v0 = value;
    let ghost mut emitted: Seq<u8> = Seq::empty();
    loop
        invariant_except_break
            emitted + varint(value as nat) == varint(v0 as nat),
        invariant
            out@ == old(out)@ + emitted,
        ensures
            emitted == varint(v0 as nat),
        decreases value,
    {
        let mut byte = (value % 128) as u8;
        let ghost prev = value;
        value = value / 128;
        if value != 0 {
            byte = byte + 128;
        }
        out.push(byte);
        proof {
            if prev < 128 {
                assert(varint(prev as nat) =~= seq![byte]);
            } else {
                assert(varint(prev as nat) =~= seq![byte] + varint(value as nat));
                assert(emitted + varint(prev as nat) =~= emitted.push(byte) + varint(value as nat));
            }
            emitted = emitted.push(byte);
        }
        if value == 0 {
            assert(emitted =~= varint(v0 as nat));
            break;
        }
    }
}

fn write_tag(out: &mut Vec<u8>, field_number: u32, wire_type: u32)
    requires
        field_number < 0x2000_0000,
        wire_type < 8,
    ensures
        final(out)@ == old(out)@ + tag(field_number as nat, wire_type as nat),
{
    write_varint(out, (field_number * 8 + wire_type) as u64);
}

fn write_len_delimited(out: &mut Vec<u8>, data: &[u8])
    ensures
        final(out)@ == old(out)@ + len_delimited(data@),
{
    write_varint(out, data.len() as u64);
    push_all(out, data);
    assert(out@ =~= old(out)@ + len_delimited(data@));
}

fn encode_bytes_list(values: &Vec<Vec<u8>>) -> (out: Vec<u8>)
    ensures
        out@ == bytes_list(Seq::new(values@.len(), |i: int| values@[i]@)),
{
    let ghost vs = Seq::new(values@.len(), |i: int| values@[i]@);
    let mut out: Vec<u8> = Vec::new();
    let mut i: usize = 0;
    while i < values.len()
        invariant
            i <= values@.len(),
            vs == Seq::new(values@.len(), |i: int| values@[i]@),
            out@ == bytes_list(vs.subrange(0, i as int)),
        decreases values@.len() - i,
    {
        write_tag(&mut out, 1, 2);
        write_len_delimited(&mut out, values[i].as_slice());
        i += 1;
        proof {
            assert(vs.subrange(0, i as int).drop_last() =~= vs.subrange(0, i - 1));
            assert(out@ =~= bytes_list(vs.subrange(0, i as int)));
        }
    }
    assert(vs.subrange(0, i as int) =~= vs);
    out
}

fn encode_float_list(bits: &Vec<u32>) -> (out: Vec<u8>)
    ensures
        out@ == float_list(bits@),
{
    let mut out: Vec<u8> = Vec::new();
    if bits.len() == 0 {
        return out;
    }
    write_tag(&mut out, 1, 2);
    write_varint(&mut out, ((bits.len() as u128 * 4) % 0x1_0000_0000_0000_0000) as u64);
    let ghost head = out@;
    let mut i: usize = 0;
    while i < bits.len()
        invariant
            i <= bits@.len(),
            out@ == head + float_bytes(bits@.subrange(0, i as int)),
        decreases bits@.len() - i,
    {
        push_le32(&mut out, bits[i]);
        i += 1;
        proof {
            assert(bits@.subrange(0, i as int).drop_last() =~= bits@.subrange(0, i - 1));
            assert(out@ =~= head + float_bytes(bits@.subrange(0, i as int)));
        }
    }
    assert(bits@.subrange(0, i as int) =~= bits@);
    out
}

fn unsigned_of(v: i64) -> (u: u64)
    ensures
        u == as_unsigned(v),
{
    if v >= 0 {
        v as u64
    } else {
        let w: i128 = v as i128 + 0x1_0000_0000_0000_0000;
        w as u64
    }
}

fn encode_int64_list(values: &Vec<i64>) -> (out: Vec<u8>)
    ensures
        out@ == int64_list(values@),
{
    let mut out: Vec<u8> = Vec::new();
    if values.len() == 0 {
        return out;
    }
    write_tag(&mut out, 1, 2);
    let mut data: Vec<u8> = Vec::new();
    let mut i: usize = 0;
    while i < values.len()
        invariant
            i <= values@.len(),
            data@ == varint_list(values@.subrange(0, i as int)),
        decreases values@.len() - i,
    {
        write_varint(&mut data, unsigned_of(values[i]));
        i += 1;
        proof {
            assert(values@.subrange(0, i as int).drop_last() =~= values@.subrange(0, i - 1));
        }
    }
    assert(values@.subrange(0, i as int) =~= values@);
    write_len_delimited(&mut out, data.as_slice());
    out
}

fn encode_feature(feature: &Feature) -> (out: Vec<u8>)
    ensures
        out@ == feature_bytes(feature@),
{
    let mut out: Vec<u8> = Vec::new();
    match feature {
        Feature::Bytes(values) => {
            let list = encode_bytes_list(values);
            write_tag(&mut out, 1, 2);
            write_len_delimited(&mut out, list.as_slice());
        },
        Feature::Float(values) => {
            let list = encode_float_list(values);
            write_tag(&mut out, 2, 2);
            write_len_delimited(&mut out, list.as_slice());
        },
        Feature::Int64(values) => {
            let list = encode_int64_list(values);
            write_tag(&mut out, 3, 2);
            write_len_delimited(&mut out, list.as_slice());
        },
    }
    out
}

fn encode_map_entry(key: &String, value: &Feature) -> (out: Vec<u8>)
    ensures
        out@ == map_entry_bytes(key@, value@),
{
    let mut out: Vec<u8> = Vec::new();
    write_tag(&mut out, 1, 2);
    let key_bytes = key.as_str().as_bytes();
    write_len_delimited(&mut out, key_bytes);
    let feature = encode_feature(value);
    write_tag(&mut out, 2, 2);
    write_len_delimited(&mut out, feature.as_slice());
    assert(out@ =~= map_entry_bytes(key@, value@));
    out
}

fn encode_features(features: &Vec<(String, Feature)>) -> (out: Vec<u8>)
    ensures
        out@ == features_bytes(entry_views(features@)),
{
    let ghost es = entry_views(features@);
    let mut out: Vec<u8> = Vec::new();
    let mut i: usize = 0;
    while i < features.len()
        invariant
            i <= features@.len(),
            es == entry_views(features@),
            out@ == features_bytes(es.subrange(0, i as int)),
        decreases features@.len() - i,
    {
        let entry = encode_map_entry(&features[i].0, &features[i].1);
        write_tag(&mut out, 1, 2);
        write_len_delimited(&mut out, entry.as_slice());
        i += 1;
        proof {
            assert(es.subrange(0, i as int).drop_last() =~= es.subrange(0, i - 1));
            assert(out@ =~= features_bytes(es.subrange(0, i as int)));
        }
    }
    assert(es.subrange(0, i as int) =~= es);
    out
}

/// The entries' keys are distinct, as the keys of a map are.
pub open spec fn keys_distinct(entries: Seq<(Seq<char>, FeatureView)>) -> bool {
    forall|i: int, j: int| 0 <= i < j < entries.len() ==> entries[i].0 != entries[j].0
}

/// Encodes a `tf.train.Example` whose features are the given map entries
/// (distinct keys, as in a map), in the given order.
pub fn encode_example(features: &Vec<(String, Feature)>) -> (out: Vec<u8>)
    requires
        keys_distinct(entry_views(features@)),
    ensures
        out@ == example_bytes(entry_views(features@)),
{
    let features_bytes = encode_features(features);
    let mut out: Vec<u8> = Vec::new();
    write_tag(&mut out, 1, 2);
    write_len_delimited(&mut out, features_bytes.as_slice());
    out
}

// ---------------------------------------------------------------------------
// Records.

/// One bit step of the reflected CRC-32C register (polynomial 0x82F63B78).
pub open spec fn crc32c_bit(c: u32) -> u32 {
    if c & 1 == 1 {
        (c >> 1) ^ 0x82F6_3B78
    } else {
        c >> 1
    }
}

/// The register after taking in one byte: the byte xored into the low
/// bits, then eight bit steps.
pub open spec fn crc32c_byte(c: u32, b: u8) -> u32 {
    let c0 = c ^ (b as u32);
    crc32c_bit(crc32c_bit(crc32c_bit(crc32c_bit(crc32c_bit(crc32c_bit(crc32c_bit(crc32c_bit(c0))))))))
}

/// The register after taking in the bytes, starting from all ones.
pub open spec fn crc32c_register(data: Seq<u8>) -> u32
    decreases data.len(),
{
    if data.len() == 0 {
        0xFFFF_FFFF
    } else {
        crc32c_byte(crc32c_register(data.drop_last()), data.last())
    }
}

/// CRC-32C (Castagnoli) of the bytes: the register, inverted.
pub open spec fn crc32c_of(data: Seq<u8>) -> u32 {
    crc32c_register(data) ^ 0xFFFF_FFFF
}

/// Calls `crc32c::crc32c`, which computes the CRC-32C checksum of `data`
/// (reflected polynomial 0x82F63B78, initial value and final xor
/// 0xFFFFFFFF, by table or by the CPU's instruction alike); the contract
/// states that checksum bit by bit.
#[verifier::external_body]
fn crc32c(data: &[u8]) -> (crc: u32)
    ensures
        crc == crc32c_of(data@),
{
    crc32c::crc32c(data)
}

/// TFRecord masking: rotate the CRC right by 15 bits, then add 0xa282ead8
/// (modulo 2^32).
pub open spec fn mask_crc(crc: u32) -> u32 {
    ((crc / 32768 + (crc % 32768) * 131072 + 0xa282_ead8) % 0x1_0000_0000) as u32
}

/// The masked CRC32C of `data`.
pub fn masked_crc32c(data: &[u8]) -> (m: u32)
    ensures
        m == mask_crc(crc32c_of(data@)),
{
    let crc = crc32c(data);
    let rotated: u64 = (crc / 32768) as u64 + ((crc % 32768) as u64) * 131072;
    ((rotated + 0xa282_ead8) % 0x1_0000_0000) as u32
}

/// One TFRecord: length (u64 LE), masked CRC of the length bytes (u32 LE),
/// the data, masked CRC of the data (u32 LE).
pub open spec fn record_bytes(data: Seq<u8>) -> Seq<u8> {
    let len_bytes = le64_bytes(data.len() as int);
    len_bytes + le32_bytes(mask_crc(crc32c_of(len_bytes)) as int) + data
        + le32_bytes(mask_crc(crc32c_of(data)) as int)
}

/// Appends one TFRecord holding `data`.
pub fn write_record(writer: &mut Vec<u8>, data: &[u8])
    ensures
        final(writer)@ == old(writer)@ + record_bytes(data@),
{
    let mut len_bytes: Vec<u8> = Vec::new();
    push_le64(&mut len_bytes, data.len() as u64);
    push_all(writer, len_bytes.as_slice());
    push_le32(writer, masked_crc32c(len_bytes.as_slice()));
    push_all(writer, data);
    push_le32(writer, masked_crc32c(data));
    assert(len_bytes@ =~= le64_bytes(data@.len() as int));
    assert(writer@ =~= old(writer)@ + record_bytes(data@));
}


// ---------------------------------------------------------------------------
// What a reader recovers.

/// The value of a little-endian base-128 byte sequence (high bits ignored).
pub open spec fn varint_value(s: Seq<u8>) -> nat
    decreases s.len(),
{
    if s.len() == 0 {
        0
    } else {
        (s[0] % 128) as nat + 128 * varint_value(s.drop_first())
    }
}

/// A varint is self-delimiting and decodes to the value it encodes: every
/// byte but the last has its high bit set, the last does not, and the low
/// seven bits of the bytes spell the value.
pub proof fn lemma_varint_roundtrip(v: nat)
    ensures
        varint(v).len() >= 1,
        varint(v).last() < 128,
        forall|i: int| 0 <= i < varint(v).len() - 1 ==> varint(v)[i] >= 128,
        varint_value(varint(v)) == v,
    decreases v,
{
    if v < 128 {
        assert(varint(v).drop_first() =~= Seq::<u8>::empty());
        assert(varint_value(Seq::<u8>::empty()) == 0);
    } else {
        lemma_varint_roundtrip(v / 128);
        let s = varint(v);
        let rest = varint(v / 128);
        assert(s.drop_first() =~= rest);
        assert(s.last() == rest.last());
        assert(s[0] == (v % 128 + 128) as u8);
        assert(((v % 128 + 128) as u8) % 128 == v % 128);
        assert(v == 128 * (v / 128) + v % 128);
        assert forall|i: int| 0 <= i < s.len() - 1 implies s[i] >= 128 by {
            if i > 0 {
                assert(s[i] == rest[i - 1]);
            }
        }
    }
}

/// A record starts with the data length, and the data follows the length
/// and its checksum, 16 bytes of framing in all.
pub proof fn lemma_record_layout(data: Seq<u8>)
    requires
        data.len() < 0x1_0000_0000_0000_0000,
    ensures
        record_bytes(data).len() == data.len() + 16,
        le64(record_bytes(data), 0) == data.len(),
        record_bytes(data).subrange(12, 12 + data.len() as int) == data,
{
    let r = record_bytes(data);
    let lb = le64_bytes(data.len() as int);
    lemma_le64_roundtrip(data.len() as int);
    assert(r.subrange(0, 8) =~= lb);
    lemma_le_window(r, lb, 0, 0);
    assert(r.subrange(12, 12 + data.len() as int) =~= data);
}

/// The packed body of a float list is four bytes per value, and the
/// little-endian word at byte `4 * i` is value `i`.
proof fn lemma_float_bytes_decode(bits: Seq<u32>)
    ensures
        float_bytes(bits).len() == 4 * bits.len(),
        forall|i: int| 0 <= i < bits.len() ==> #[trigger] le32(float_bytes(bits), 4 * i) == bits[i],
    decreases bits.len(),
{
    if bits.len() > 0 {
        let init = bits.drop_last();
        lemma_float_bytes_decode(init);
        let s = float_bytes(bits);
        let a = float_bytes(init);
        let b = le32_bytes(bits.last() as int);
        lemma_le32_roundtrip(bits.last() as int);
        assert(s.subrange(0, a.len() as int) =~= a);
        assert(s.subrange(a.len() as int, s.len() as int) =~= b);
        assert forall|i: int| 0 <= i < bits.len() implies #[trigger] le32(s, 4 * i) == bits[i] by {
            if i < init.len() {
                lemma_le_window(s, a, 0, 4 * i);
                assert(bits[i] == init[i]);
            } else {
                lemma_le_window(s, b, a.len() as int, 0);
            }
        }
    }
}

/// Decoding an encoded float list gives back its values in order: the
/// field tag (field 1, length-delimited) and the byte count `4 * n` come
/// first, then `n` little-endian words, word `i` being value `i`, up to the
/// end of the list.
pub proof fn lemma_float_list_decodes(bits: Seq<u32>)
    requires
        0 < bits.len(),
        4 * bits.len() < 0x1_0000_0000_0000_0000,
    ensures
        ({
            let p = float_list(bits);
            let h = p.len() - 4 * bits.len();
            &&& 0 <= h
            &&& p.subrange(0, h) == tag(1, 2) + varint(4 * bits.len())
            &&& forall|i: int| 0 <= i < bits.len() ==> #[trigger] le32(p, h + 4 * i) == bits[i]
        }),
{
    let p = float_list(bits);
    let pre = tag(1, 2) + varint(4 * bits.len());
    let body = float_bytes(bits);
    lemma_float_bytes_decode(bits);
    assert(p =~= pre + body);
    let h = pre.len() as int;
    assert(p.subrange(0, h) =~= pre);
    assert(p.subrange(h, p.len() as int) =~= body);
    assert forall|i: int| 0 <= i < bits.len() implies #[trigger] le32(p, h + 4 * i) == bits[i] by {
        lemma_le_window(p, body, h, 4 * i);
        assert(le32(body, 4 * i) == bits[i]);
    }
}

/// The packed float list body is the values' four-byte little-endian
/// encodings, one after another in the values' order.
pub proof fn lemma_float_bytes_in_order(bits: Seq<u32>)
    ensures
        float_bytes(bits) == Seq::new(bits.len(), |j: int| le32_bytes(bits[j] as int)).flatten(),
    decreases bits.len(),
{
    let pieces = Seq::new(bits.len(), |j: int| le32_bytes(bits[j] as int));
    if bits.len() > 0 {
        lemma_float_bytes_in_order(bits.drop_last());
        let prev = Seq::new(bits.drop_last().len(), |j: int| le32_bytes(bits.drop_last()[j] as int));
        assert(pieces.drop_last() =~= prev);
        prev.lemma_flatten_and_flatten_alt_are_equivalent();
    }
    pieces.lemma_flatten_and_flatten_alt_are_equivalent();
}

/// The packed int64 list body is the values' varints (of their 64-bit
/// two's-complement patterns), one after another in the values' order.
pub proof fn lemma_varint_list_in_order(values: Seq<i64>)
    ensures
        varint_list(values) == Seq::new(values.len(), |j: int| varint(as_unsigned(values[j]))).flatten(),
    decreases values.len(),
{
    let pieces = Seq::new(values.len(), |j: int| varint(as_unsigned(values[j])));
    if values.len() > 0 {
        lemma_varint_list_in_order(values.drop_last());
        let prev = Seq::new(values.drop_last().len(), |j: int| varint(as_unsigned(values.drop_last()[j])));
        assert(pieces.drop_last() =~= prev);
        prev.lemma_flatten_and_flatten_alt_are_equivalent();
    }
    pieces.lemma_flatten_and_flatten_alt_are_equivalent();
}

/// A bytes list is one field-1 length-delimited value per item, one after
/// another in the items' order.
pub proof fn lemma_bytes_list_in_order(values: Seq<Seq<u8>>)
    ensures
        bytes_list(values) == Seq::new(values.len(), |j: int| tag(1, 2) + len_delimited(values[j])).flatten(),
    decreases values.len(),
{
    let pieces = Seq::new(values.len(), |j: int| tag(1, 2) + len_delimited(values[j]));
    if values.len() > 0 {
        lemma_bytes_list_in_order(values.drop_last());
        let prev = Seq::new(values.drop_last().len(), |j: int| tag(1, 2) + len_delimited(values.drop_last()[j]));
        assert(pieces.drop_last() =~= prev);
        prev.lemma_flatten_and_flatten_alt_are_equivalent();
    }
    pieces.lemma_flatten_and_flatten_alt_are_equivalent();
}

/// An encoded `Features` message is one field-1 length-delimited map entry
/// per feature, one after another in the features' order.
pub proof fn lemma_features_in_order(entries: Seq<(Seq<char>, FeatureView)>)
    ensures
        features_bytes(entries) == Seq::new(entries.len(), |j: int| tag(1, 2)
            + len_delimited(map_entry_bytes(entries[j].0, entries[j].1))).flatten(),
    decreases entries.len(),
{
    let pieces = Seq::new(entries.len(), |j: int| tag(1, 2)
        + len_delimited(map_entry_bytes(entries[j].0, entries[j].1)));
    if entries.len() > 0 {
        lemma_features_in_order(entries.drop_last());
        let prev = Seq::new(entries.drop_last().len(), |j: int| tag(1, 2)
            + len_delimited(map_entry_bytes(entries.drop_last()[j].0, entries.drop_last()[j].1)));
        assert(pieces.drop_last() =~= prev);
        prev.lemma_flatten_and_flatten_alt_are_equivalent();
    }
    pieces.lemma_flatten_and_flatten_alt_are_equivalent();
}

} // verus!
