//! Verified core of a release-announcement pipeline: scan a semi-structured
//! document for announcement blocks (a version caption paired with a download
//! link), normalize the French-language caption date into ISO-8601 form,
//! assemble release records, and serve them through a TTL cache model.
//!
//! Fetching the document and transporting the result are left to callers;
//! this crate holds the extraction, normalization, assembly, caching and
//! output-encoding logic, all verified.
pub mod cache;
pub mod errors;
pub mod extract;
pub mod jsonout;
pub mod normalize;
pub mod record;
pub mod text;

use crate::errors::PipelineError;
use crate::extract::AnnouncementBlock;
use crate::extract::extract_blocks;
use crate::extract::lemma_scan_links_nonempty;
use crate::extract::scan_captions;
use crate::extract::scan_links;
use crate::jsonout::json_array;
use crate::jsonout::json_record;
use crate::jsonout::record_json;
use crate::jsonout::records_json;
use crate::normalize::normalize_spec;
use crate::normalize::parse_version_info;
use crate::record::RecordModel;
use crate::record::ReleaseRecord;
use crate::record::recs_view;
use crate::record::wf_record;
use vstd::prelude::*;

verus! {

/// The views of a sequence of strings.
pub open spec fn views_of(v: Seq<String>) -> Seq<Seq<char>> {
    Seq::new(v.len(), |k: int| v[k]@)
}

/// Which records the assembler emits: every matched block, in document
/// order, or only the last one.
#[derive(Clone, Copy, Debug, PartialEq, Eq, Structural)]
pub enum SelectionPolicy {
    All,
    Latest,
}

/// How the pipeline behaves: strict or lenient month handling, and the
/// selection policy.
#[derive(Clone, Copy, Debug, PartialEq, Eq, Structural)]
pub struct PipelineConfig {
    pub strict_months: bool,
    pub policy: SelectionPolicy,
}

/// Normalize the blocks from `i` on, in order; the first failure aborts.
pub open spec fn normalize_all(
    caps: Seq<Seq<char>>,
    links: Seq<Seq<char>>,
    strict: bool,
    i: int,
) -> Result<Seq<RecordModel>, PipelineError>
    decreases caps.len() - i,
{
    if i < 0 || i >= caps.len() {
        Ok(Seq::empty())
    } else {
        match normalize_spec(caps[i], links[i], strict) {
            Err(e) => Err(e),
            Ok(rec) => match normalize_all(caps, links, strict, i + 1) {
                Err(e) => Err(e),
                Ok(rest) => Ok(seq![rec] + rest),
            },
        }
    }
}

/// What the pipeline yields on a document: the scans must agree on the
/// count, and every block must normalize; otherwise the first failure.
pub open spec fn pipeline_spec(doc: Seq<char>, strict: bool) -> Result<
    Seq<RecordModel>,
    PipelineError,
> {
    let caps = scan_captions(doc, 0);
    let links = scan_links(doc, 0);
    if links.len() != caps.len() {
        Err(PipelineError::Mismatch { links: links.len() as usize, captions: caps.len() as usize })
    } else {
        normalize_all(caps, links, strict, 0)
    }
}

/// The pipeline's JSON output under a configuration: an array of records
/// under the `All` policy; the last record alone under `Latest`, where an
/// empty result is a structure failure.
pub open spec fn get_info_spec(doc: Seq<char>, cfg: PipelineConfig) -> Result<
    Seq<char>,
    PipelineError,
> {
    match pipeline_spec(doc, cfg.strict_months) {
        Err(e) => Err(e),
        Ok(rs) => match cfg.policy {
            SelectionPolicy::All => Ok(json_array(rs)),
            SelectionPolicy::Latest => if rs.len() == 0 {
                Err(PipelineError::Parse)
            } else {
                Ok(json_record(rs.last()))
            },
        },
    }
}

/// A successful normalization pass yields exactly one record per block,
/// the record of block `k` standing at position `k`.
pub proof fn lemma_normalize_all_counts(
    caps: Seq<Seq<char>>,
    links: Seq<Seq<char>>,
    strict: bool,
    i: int,
)
    requires
        0 <= i <= caps.len(),
    ensures
        normalize_all(caps, links, strict, i) matches Ok(rs) ==> rs.len() == caps.len() - i
            && forall|k: int|
            i <= k < caps.len() ==> normalize_spec(caps[k], links[k], strict) == Ok::<
                RecordModel,
                PipelineError,
            >(#[trigger] rs[k - i]),
    decreases caps.len() - i,
{
    if i < caps.len() {
        lemma_normalize_all_counts(caps, links, strict, i + 1);
        match normalize_all(caps, links, strict, i) {
            Ok(rs) => {
                let rest = match normalize_all(caps, links, strict, i + 1) {
                    Ok(r) => r,
                    Err(_) => Seq::empty(),
                };
                assert forall|k: int| i <= k < caps.len() implies normalize_spec(
                    caps[k],
                    links[k],
                    strict,
                ) == Ok::<RecordModel, PipelineError>(#[trigger] rs[k - i]) by {
                    if k > i {
                        assert(rs[k - i] == rest[k - (i + 1)]);
                    }
                }
            },
            Err(_) => {},
        }
    }
}

/// For a document in which the scans find N announcement blocks, a
/// successful pipeline run yields exactly N records, in document order:
/// the record at position k is the normalization of block k.
pub proof fn lemma_one_record_per_block(doc: Seq<char>, strict: bool)
    ensures
        pipeline_spec(doc, strict) matches Ok(rs) ==> rs.len() == scan_captions(doc, 0).len()
            && forall|k: int|
            0 <= k < scan_captions(doc, 0).len() ==> normalize_spec(
                scan_captions(doc, 0)[k],
                scan_links(doc, 0)[k],
                strict,
            ) == Ok::<RecordModel, PipelineError>(#[trigger] rs[k]),
{
    let caps = scan_captions(doc, 0);
    let links = scan_links(doc, 0);
    lemma_normalize_all_counts(caps, links, strict, 0);
    match pipeline_spec(doc, strict) {
        Ok(rs) => {
            assert(normalize_all(caps, links, strict, 0) == Ok::<Seq<RecordModel>, PipelineError>(
                rs,
            ));
            assert forall|k: int| 0 <= k < caps.len() implies normalize_spec(
                caps[k],
                links[k],
                strict,
            ) == Ok::<RecordModel, PipelineError>(#[trigger] rs[k]) by {
                assert(normalize_spec(caps[k], links[k], strict) == Ok::<
                    RecordModel,
                    PipelineError,
                >(rs[k - 0]));
            }
        },
        Err(_) => {},
    }
}

fn normalize_blocks(
    blocks: &Vec<AnnouncementBlock>,
    i: usize,
    strict: bool,
    Ghost(caps): Ghost<Seq<Seq<char>>>,
    Ghost(links): Ghost<Seq<Seq<char>>>,
) -> (r: Result<Vec<ReleaseRecord>, PipelineError>)
    requires
        caps.len() == blocks@.len(),
        links.len() == blocks@.len(),
        forall|k: int|
            0 <= k < blocks@.len() ==> (#[trigger] blocks@[k]).caption@ == caps[k]
                && blocks@[k].url@ == links[k],
        forall|k: int| 0 <= k < links.len() ==> (#[trigger] links[k]).len() > 0,
        i <= blocks@.len(),
    ensures
        match r {
            Ok(v) => normalize_all(caps, links, strict, i as int) == Ok::<Seq<RecordModel>, PipelineError>(recs_view(v@)) && forall|
                t: int,
            | 0 <= t < v@.len() ==> wf_record((#[trigger] v@[t])@),
            Err(e) => normalize_all(caps, links, strict, i as int) == Err::<Seq<RecordModel>, PipelineError>(e),
        },
    decreases blocks@.len() - i,
{
    if i >= blocks.len() {
        let v: Vec<ReleaseRecord> = Vec::new();
        proof {
            assert(recs_view(v@) =~= Seq::<RecordModel>::empty());
        }
        return Ok(v);
    }
    let rec = match parse_version_info(blocks[i].caption.as_str(), blocks[i].url.as_str(), strict) {
        Ok(rc) => rc,
        Err(e) => {
            return Err(e);
        },
    };
    match normalize_blocks(blocks, i + 1, strict, Ghost(caps), Ghost(links)) {
        Err(e) => Err(e),
        Ok(mut rest) => {
            let ghost rv = rest@;
            rest.insert(0, rec);
            proof {
                assert(recs_view(rest@) =~= seq![rec@] + recs_view(rv));
            }
            Ok(rest)
        },
    }
}

/// Run extraction and normalization on a raw document: all release records
/// in document order, or the pipeline's first failure.
pub fn run_pipeline(html: &str, strict: bool) -> (r: Result<Vec<ReleaseRecord>, PipelineError>)
    ensures
        match r {
            Ok(v) => pipeline_spec(html@, strict) == Ok::<Seq<RecordModel>, PipelineError>(recs_view(v@)) && forall|t: int|
                0 <= t < v@.len() ==> wf_record((#[trigger] v@[t])@),
            Err(e) => pipeline_spec(html@, strict) == Err::<Seq<RecordModel>, PipelineError>(e),
        },
{
    let blocks = match extract_blocks(html) {
        Ok(b) => b,
        Err(e) => {
            return Err(e);
        },
    };
    proof {
        lemma_scan_links_nonempty(html@, 0);
    }
    normalize_blocks(
        &blocks,
        0,
        strict,
        Ghost(scan_captions(html@, 0)),
        Ghost(scan_links(html@, 0)),
    )
}

/// The whole computation on a fetched document: extract, normalize,
/// assemble per policy, and render as JSON.
pub fn get_info(html: &str, cfg: PipelineConfig) -> (r: Result<String, PipelineError>)
    ensures
        match r {
            Ok(s) => get_info_spec(html@, cfg) == Ok::<Seq<char>, PipelineError>(s@),
            Err(e) => get_info_spec(html@, cfg) == Err::<Seq<char>, PipelineError>(e),
        },
{
    let recs = match run_pipeline(html, cfg.strict_months) {
        Ok(v) => v,
        Err(e) => {
            return Err(e);
        },
    };
    match cfg.policy {
        SelectionPolicy::All => Ok(records_json(&recs)),
        SelectionPolicy::Latest => {
            if recs.len() == 0 {
                Err(PipelineError::Parse)
            } else {
                let out = record_json(&recs[recs.len() - 1]);
                proof {
                    assert(recs_view(recs@).last() == recs@[recs@.len() - 1]@);
                }
                Ok(out)
            }
        },
    }
}

} // verus!
