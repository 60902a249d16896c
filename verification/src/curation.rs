//! The curation workspace as the viewer drives it: the command line of the
//! external curation tool, and where each kind of curation data is kept.
use vstd::prelude::*;
use crate::recent::{is_white_space, is_white_space_char};
use crate::text::{str_eq, text};

verus! {

/// What the viewer knows of the curation root and the active workspace.
pub struct CurationWorkspaceInfo {
    pub root: Option<String>,
    pub active_workspace: Option<String>,
    pub active_name: Option<String>,
    pub has_workspace: bool,
}

/// A workspace found under the curation root.
pub struct WorkspaceSummary {
    pub name: String,
    pub path: String,
    pub source_prefix: Option<String>,
    pub episode_count: usize,
    pub completed_stages: Vec<String>,
    pub has_intervals: bool,
    pub has_labels: bool,
    pub has_buckets: bool,
}

/// The stages that are handed the `ego-qc` binary.
pub open spec fn stage_uses_ego_qc(stage: Seq<char>) -> bool {
    stage == "qc"@ || stage == "intervals"@ || stage == "proxies"@ || stage == "segments"@
}

pub open spec fn opt_view(o: Option<&str>) -> Option<Seq<char>> {
    match o {
        Some(s) => Some(s@),
        None => None,
    }
}

/// `python -m ego_curate --workspace WS STAGE`, then `--ego-qc QC` for the
/// stages that run it, then `--source-prefix P` and `--publish-prefix P`
/// when given.
pub open spec fn curate_args(workspace: Seq<char>, stage: Seq<char>, qc_binary: Seq<char>,
    source_prefix: Option<Seq<char>>, publish_prefix: Option<Seq<char>>) -> Seq<Seq<char>> {
    seq!["-m"@, "ego_curate"@, "--workspace"@, workspace, stage]
        + (if stage_uses_ego_qc(stage) { seq!["--ego-qc"@, qc_binary] } else { Seq::empty() })
        + (match source_prefix {
        Some(p) => seq!["--source-prefix"@, p],
        None => Seq::empty(),
    }) + (match publish_prefix {
        Some(p) => seq!["--publish-prefix"@, p],
        None => Seq::empty(),
    })
}

pub open spec fn strings_of(v: Seq<String>) -> Seq<Seq<char>> {
    Seq::new(v.len(), |i: int| v[i]@)
}

fn push_arg(args: &mut Vec<String>, a: &str)
    ensures
        strings_of(final(args)@) == strings_of(old(args)@).push(a@),
{
    args.push(text(a));
    assert(strings_of(args@) =~= strings_of(old(args)@).push(a@));
}

/// The argument list of a `python -m ego_curate` run of `stage` on the
/// workspace at `workspace`.
pub fn build_ego_curate_args(
    workspace: &str,
    stage: &str,
    qc_binary: &str,
    source_prefix: Option<&str>,
    publish_prefix: Option<&str>,
) -> (args: Vec<String>)
    ensures
        strings_of(args@) == curate_args(workspace@, stage@, qc_binary@, opt_view(source_prefix),
            opt_view(publish_prefix)),
{
    let mut args: Vec<String> = Vec::new();
    push_arg(&mut args, "-m");
    push_arg(&mut args, "ego_curate");
    push_arg(&mut args, "--workspace");
    push_arg(&mut args, workspace);
    push_arg(&mut args, stage);
    let ghost base = strings_of(args@);
    let uses_qc = str_eq(stage, "qc") || str_eq(stage, "intervals") || str_eq(stage, "proxies")
        || str_eq(stage, "segments");
    if uses_qc {
        push_arg(&mut args, "--ego-qc");
        push_arg(&mut args, qc_binary);
    }
    let ghost with_qc = strings_of(args@);
    match source_prefix {
        Some(prefix) => {
            push_arg(&mut args, "--source-prefix");
            push_arg(&mut args, prefix);
        },
        None => {},
    }
    let ghost with_source = strings_of(args@);
    match publish_prefix {
        Some(prefix) => {
            push_arg(&mut args, "--publish-prefix");
            push_arg(&mut args, prefix);
        },
        None => {},
    }
    proof {
        let v = curate_args(workspace@, stage@, qc_binary@, opt_view(source_prefix), opt_view(publish_prefix));
        assert(base =~= seq!["-m"@, "ego_curate"@, "--workspace"@, workspace@, stage@]);
        assert(strings_of(args@) =~= v);
    }
    args
}

/// The file, relative to the workspace, that holds each kind of curation
/// data.
pub open spec fn curation_file(data_type: Seq<char>) -> Option<Seq<char>> {
    if data_type == "episodes"@ {
        Some("curation/v1/episodes.jsonl"@)
    } else if data_type == "intervals"@ {
        Some("curation/v1/intervals.jsonl"@)
    } else if data_type == "labels"@ {
        Some("curation/v1/labels.jsonl"@)
    } else if data_type == "buckets"@ {
        Some("curation/v1/bucket_map.json"@)
    } else if data_type == "review_queue"@ {
        Some("curation/v1/review_queue.jsonl"@)
    } else if data_type == "overrides"@ {
        Some("curation/v1/review_overrides.json"@)
    } else if data_type == "segments"@ {
        Some("curation/v1/segments.jsonl"@)
    } else if data_type == "workspace"@ {
        Some("curation/v1/workspace.json"@)
    } else {
        None
    }
}

/// The path, relative to the workspace, of the file holding `data_type`;
/// an error naming the type when it is unknown.
pub fn resolve_curation_file(data_type: &str) -> (r: Result<String, String>)
    ensures
        match curation_file(data_type@) {
            Some(f) => r matches Ok(p) && p@ == f,
            None => r matches Err(e) && e@ == "Unknown curation data type: "@ + data_type@,
        },
{
    if str_eq(data_type, "episodes") {
        Ok(text("curation/v1/episodes.jsonl"))
    } else if str_eq(data_type, "intervals") {
        Ok(text("curation/v1/intervals.jsonl"))
    } else if str_eq(data_type, "labels") {
        Ok(text("curation/v1/labels.jsonl"))
    } else if str_eq(data_type, "buckets") {
        Ok(text("curation/v1/bucket_map.json"))
    } else if str_eq(data_type, "review_queue") {
        Ok(text("curation/v1/review_queue.jsonl"))
    } else if str_eq(data_type, "overrides") {
        Ok(text("curation/v1/review_overrides.json"))
    } else if str_eq(data_type, "segments") {
        Ok(text("curation/v1/segments.jsonl"))
    } else if str_eq(data_type, "workspace") {
        Ok(text("curation/v1/workspace.json"))
    } else {
        let mut e = text("Unknown curation data type: ");
        e.append(data_type);
        Err(e)
    }
}


/// The lines of `text[i..]` that hold something besides white space, where
/// the line running at `i` already does when `seen`; lines end at `'\n'`.
pub open spec fn content_lines_from(text: Seq<char>, i: int, seen: bool) -> nat
    decreases text.len() - i,
{
    if i >= text.len() {
        if seen { 1 } else { 0 }
    } else if text[i] == '\n' {
        (if seen { 1nat } else { 0nat }) + content_lines_from(text, i + 1, false)
    } else {
        content_lines_from(text, i + 1, seen || !is_white_space(text[i]))
    }
}

proof fn lemma_content_lines_bound(text: Seq<char>, i: int, seen: bool)
    requires
        0 <= i <= text.len(),
    ensures
        content_lines_from(text, i, seen) <= text.len() - i + 1,
        !seen ==> content_lines_from(text, i, seen) <= text.len() - i,
    decreases text.len() - i,
{
    if i < text.len() {
        if text[i] == '\n' {
            lemma_content_lines_bound(text, i + 1, false);
        } else {
            lemma_content_lines_bound(text, i + 1, seen || !is_white_space(text[i]));
        }
    }
}

/// The number of records of a JSON-lines file's contents: its lines that
/// are not empty or all white space.
pub fn count_jsonl_lines(contents: &str) -> (n: usize)
    ensures
        n == content_lines_from(contents@, 0, false),
{
    let len = contents.unicode_len();
    let mut count: usize = 0;
    let mut seen = false;
    let mut i: usize = 0;
    proof {
        lemma_content_lines_bound(contents@, 0, false);
    }
    while i < len
        invariant
            i <= len == contents@.len(),
            count + content_lines_from(contents@, i as int, seen) == content_lines_from(contents@, 0, false),
            content_lines_from(contents@, 0, false) <= len,
        decreases len - i,
    {
        let c = contents.get_char(i);
        if c == '\n' {
            if seen {
                count = count + 1;
            }
            seen = false;
        } else if !is_white_space_char(c) {
            seen = true;
        }
        i += 1;
    }
    if seen {
        count = count + 1;
    }
    count
}

} // verus!
