//! Decisions of the curation pipeline: stable identifiers for episodes and
//! intervals, the status an episode is given, and the records the stages
//! report.
use vstd::prelude::*;
use std::collections::HashMap;
use vstd::utf8::encode_utf8;
use crate::scanner::Verdict;
use crate::text::{decimal, push_decimal, push_signed_decimal, signed_decimal};

verus! {

// ---------------------------------------------------------------------------
// Hashing.

/// The SHA-1 digest of the bytes, as the `sha1` crate computes it.
pub uninterp spec fn sha1_of(data: Seq<u8>) -> Seq<u8>;

/// Calls `<sha1::Sha1 as Digest>::digest`, the SHA-1 digest of `data`. The
/// contract claims that the digest is a function of the bytes alone and is
/// 20 bytes long (the output size of `Sha1Core` is `U20`).
#[verifier::external_body]
fn sha1_digest(data: &[u8]) -> (digest: Vec<u8>)
    ensures
        digest@ == sha1_of(data@),
        digest@.len() == 20,
{
    <sha1::Sha1 as sha1::Digest>::digest(data).to_vec()
}

/// Lower-case hexadecimal digit of a value below 16.
pub open spec fn hex_lower_digit(v: int) -> char {
    if v < 10 {
        ((48 + v) as u8) as char
    } else {
        ((87 + v) as u8) as char
    }
}

/// Two lower-case hexadecimal digits per byte, high nibble first.
pub open spec fn hex_lower(data: Seq<u8>) -> Seq<char>
    decreases data.len(),
{
    if data.len() == 0 {
        Seq::empty()
    } else {
        hex_lower(data.drop_last()) + seq![
            hex_lower_digit(data.last() as int / 16),
            hex_lower_digit(data.last() as int % 16),
        ]
    }
}

/// Calls `hex::encode`, which maps each byte to two characters of
/// `0123456789abcdef` (high nibble first); the contract states exactly that.
#[verifier::external_body]
fn hex_encode(data: &[u8]) -> (s: String)
    ensures
        s@ == hex_lower(data@),
{
    hex::encode(data)
}

pub proof fn lemma_hex_lower_len(data: Seq<u8>)
    ensures
        hex_lower(data).len() == 2 * data.len(),
    decreases data.len(),
{
    if data.len() > 0 {
        lemma_hex_lower_len(data.drop_last());
    }
}

/// The first `length` hexadecimal digits of the SHA-1 digest of `input`.
pub open spec fn stable_hash_spec(input: Seq<char>, length: nat) -> Seq<char> {
    hex_lower(sha1_of(encode_utf8(input))).subrange(0, length as int)
}

/// The first `length` lower-case hexadecimal digits of the SHA-1 digest of
/// the UTF-8 bytes of `input`.
pub fn stable_hash(input: &str, length: usize) -> (h: String)
    requires
        length <= 40,
    ensures
        h@ == stable_hash_spec(input@, length as nat),
{
    let digest = sha1_digest(input.as_bytes());
    let hex = hex_encode(digest.as_slice());
    proof {
        lemma_hex_lower_len(digest@);
    }
    String::from_str(hex.as_str().substring_char(0, length))
}

/// The identifier of the episode recorded under `source_key`.
pub open spec fn episode_id_spec(source_key: Seq<char>) -> Seq<char> {
    "ep_"@ + stable_hash_spec(source_key, 16)
}

/// `ep_` followed by 16 hexadecimal digits of the key's SHA-1 digest.
pub fn episode_id(source_key: &str) -> (id: String)
    ensures
        id@ == episode_id_spec(source_key@),
{
    let mut id = String::from_str("ep_");
    let h = stable_hash(source_key, 16);
    id.append(h.as_str());
    id
}

/// The text an interval's identifier is hashed from.
pub open spec fn interval_key(source_key: Seq<char>, start_ms: int, end_ms: int) -> Seq<char> {
    source_key + "::"@ + signed_decimal(start_ms) + "::"@ + signed_decimal(end_ms)
}

/// The identifier of an interval of an episode.
pub open spec fn interval_id_spec(source_key: Seq<char>, start_ms: int, end_ms: int) -> Seq<char> {
    "int_"@ + stable_hash_spec(interval_key(source_key, start_ms, end_ms), 12)
}

/// `int_` followed by 12 hexadecimal digits of the SHA-1 digest of
/// `KEY::START_MS::END_MS` (the interval's bounds in whole milliseconds).
pub fn interval_id(source_key: &str, start_ms: i64, end_ms: i64) -> (id: String)
    ensures
        id@ == interval_id_spec(source_key@, start_ms as int, end_ms as int),
{
    let mut input = String::from_str(source_key);
    input.append("::");
    push_signed_decimal(&mut input, start_ms);
    input.append("::");
    push_signed_decimal(&mut input, end_ms);
    let mut id = String::from_str("int_");
    let h = stable_hash(input.as_str(), 12);
    id.append(h.as_str());
    id
}

// ---------------------------------------------------------------------------
// Episode status.

/// The status an episode gets: `invalid` when validation failed or the
/// footer is missing; `reject` when it is shorter than the minimum; then
/// `invalid` when it has no activity verdict; else `keep` for a keep
/// verdict, `reject` for a confident prune, `review` for the rest.
pub open spec fn episode_status_spec(validate_ok: bool, has_footer: bool, too_short: bool,
    verdict: Option<Verdict>) -> Seq<char> {
    if !validate_ok || !has_footer {
        "invalid"@
    } else if too_short {
        "reject"@
    } else {
        match verdict {
            None => "invalid"@,
            Some(Verdict::Keep) => "keep"@,
            Some(Verdict::PruneConfident) => "reject"@,
            Some(_) => "review"@,
        }
    }
}

/// The status of an episode from its validation, whether its duration is
/// below the rejection threshold, and the verdict of its analysis if it
/// was analysed.
pub fn determine_episode_status(
    validate_ok: bool,
    has_footer: bool,
    too_short: bool,
    verdict: Option<Verdict>,
) -> (status: &'static str)
    ensures
        status@ == episode_status_spec(validate_ok, has_footer, too_short, verdict),
{
    if !validate_ok || !has_footer {
        return "invalid";
    }
    if too_short {
        return "reject";
    }
    match verdict {
        None => "invalid",
        Some(Verdict::Keep) => "keep",
        Some(Verdict::PruneConfident) => "reject",
        Some(_) => "review",
    }
}

// ---------------------------------------------------------------------------
// Stage records.

/// `workspace.json`: where a curation workspace reads its sources, and when
/// each stage last ran.
pub struct WorkspaceConfig {
    pub version: Option<String>,
    pub workspace: Option<String>,
    pub source_prefix: Option<String>,
    pub publish_prefix: Option<String>,
    pub qc_binary: Option<String>,
    pub python_binary: Option<String>,
    pub config_path: Option<String>,
    pub stage_timestamps: HashMap<String, String>,
}

/// Progress of a pipeline stage: file `current` of `total`.
pub struct PipelineProgress {
    pub stage: String,
    pub current: usize,
    pub total: usize,
    pub file: String,
}

/// Outcome of a pipeline stage, with a count per category.
pub struct PipelineResult {
    pub stage: String,
    pub success: bool,
    pub message: String,
    pub counts: HashMap<String, usize>,
}


/// The message a QC run reports: the episode count and the count of each
/// status.
pub open spec fn qc_message_text(episodes: u64, keep: u64, review: u64, reject: u64, invalid: u64) -> Seq<char> {
    "Wrote "@ + decimal(episodes as nat) + " episodes (keep="@ + decimal(keep as nat) + ", review="@
        + decimal(review as nat) + ", reject="@ + decimal(reject as nat) + ", invalid="@ + decimal(
        invalid as nat) + ")"@
}

/// The message a QC run reports for its episode and status counts.
pub fn qc_message(episodes: u64, keep: u64, review: u64, reject: u64, invalid: u64) -> (m: String)
    ensures
        m@ == qc_message_text(episodes, keep, review, reject, invalid),
{
    let mut m = String::from_str("Wrote ");
    push_decimal(&mut m, episodes);
    m.append(" episodes (keep=");
    push_decimal(&mut m, keep);
    m.append(", review=");
    push_decimal(&mut m, review);
    m.append(", reject=");
    push_decimal(&mut m, reject);
    m.append(", invalid=");
    push_decimal(&mut m, invalid);
    m.append(")");
    m
}

} // verus!
