//! The deterministic index advisor: proposes single-field indexes for
//! equality paths that repeated, selective collection scans would benefit
//! from. It is advisory only and never changes the catalog.
use vstd::prelude::*;

use crate::analysis::{IndexCandidateStats, WorkloadReport};
use crate::catalog::{dotted, join_field, IndexDefinition};
use crate::error::{NovaError, Result};
use crate::telemetry::strings_view;

verus! {

/// The whole, in basis points.
pub const BASIS_POINTS: u64 = 10_000;

/// Evidence thresholds used by the deterministic index advisor.
#[derive(Debug, Clone, Copy, PartialEq, Eq)]
pub struct AdvisorConfig {
    pub min_successful_executions: u64,
    pub min_collection_scans: u64,
    pub min_collection_scan_examined: u64,
    pub max_return_ratio_basis_points: u16,
}

impl Default for AdvisorConfig {
    fn default() -> (r: Self)
        ensures
            r.min_successful_executions == 3,
            r.min_collection_scans == 3,
            r.min_collection_scan_examined == 100,
            r.max_return_ratio_basis_points == 2_500,
    {
        AdvisorConfig {
            min_successful_executions: 3,
            min_collection_scans: 3,
            min_collection_scan_examined: 100,
            max_return_ratio_basis_points: 2_500,
        }
    }
}

/// Exact, inspectable evidence supporting an index recommendation.
#[derive(Debug, Clone, Copy, PartialEq, Eq)]
pub struct RecommendationEvidence {
    pub successful_executions: u64,
    pub collection_scans: u64,
    pub index_scans: u64,
    pub collection_scan_examined: u64,
    pub collection_scan_returned: u64,
    pub collection_scan_elapsed_micros: u64,
    pub return_ratio_basis_points: u16,
}

/// Advisory-only proposal for a single-field index.
#[derive(Debug, Clone, PartialEq, Eq)]
pub struct IndexRecommendation {
    pub collection: String,
    pub path: String,
    pub evidence: RecommendationEvidence,
}

impl View for IndexRecommendation {
    type V = (Seq<char>, Seq<char>, RecommendationEvidence);

    open spec fn view(&self) -> (Seq<char>, Seq<char>, RecommendationEvidence) {
        (self.collection@, self.path@, self.evidence)
    }
}

/// The views of a list of recommendations.
pub open spec fn recommendations_view(v: Seq<IndexRecommendation>) -> Seq<
    (Seq<char>, Seq<char>, RecommendationEvidence),
> {
    v.map_values(|r: IndexRecommendation| r@)
}

/// The share of examined documents that were returned, in basis points,
/// capped at the whole; no examined documents count as the whole.
pub open spec fn ratio(returned: u64, examined: u64) -> u16 {
    if examined == 0 {
        10_000
    } else {
        let r = (returned as int) * 10_000 / (examined as int);
        if r > 10_000 {
            10_000
        } else {
            r as u16
        }
    }
}

/// Every count threshold is positive and the ratio is at most the whole.
pub open spec fn config_valid(c: AdvisorConfig) -> bool {
    &&& c.min_successful_executions > 0
    &&& c.min_collection_scans > 0
    &&& c.min_collection_scan_examined > 0
    &&& c.max_return_ratio_basis_points <= 10_000
}

/// Some existing index covers this collection and dotted path.
pub open spec fn already_indexed(
    existing: Seq<IndexDefinition>,
    collection: Seq<char>,
    path: Seq<char>,
) -> bool {
    exists|i: int|
        0 <= i < existing.len() && #[trigger] existing[i].collection@ == collection && dotted(
            strings_view(existing[i].field@),
        ) == path
}

/// A candidate deserves a recommendation.
pub open spec fn qualifies(
    c: IndexCandidateStats,
    existing: Seq<IndexDefinition>,
    config: AdvisorConfig,
) -> bool {
    &&& !already_indexed(existing, c.collection@, c.path@)
    &&& c.successful_executions >= config.min_successful_executions
    &&& c.collection_scans >= config.min_collection_scans
    &&& c.collection_scan_examined >= config.min_collection_scan_examined
    &&& ratio(c.collection_scan_returned, c.collection_scan_examined)
        <= config.max_return_ratio_basis_points
}

/// The evidence a candidate's statistics give.
pub open spec fn evidence_of(c: IndexCandidateStats) -> RecommendationEvidence {
    RecommendationEvidence {
        successful_executions: c.successful_executions,
        collection_scans: c.collection_scans,
        index_scans: c.index_scans,
        collection_scan_examined: c.collection_scan_examined,
        collection_scan_returned: c.collection_scan_returned,
        collection_scan_elapsed_micros: c.collection_scan_elapsed_micros,
        return_ratio_basis_points: ratio(c.collection_scan_returned, c.collection_scan_examined),
    }
}

/// The recommendations for the qualifying candidates, in candidate order.
pub open spec fn recommendations_for(
    cands: Seq<IndexCandidateStats>,
    existing: Seq<IndexDefinition>,
    config: AdvisorConfig,
) -> Seq<(Seq<char>, Seq<char>, RecommendationEvidence)>
    decreases cands.len(),
{
    if cands.len() == 0 {
        Seq::empty()
    } else {
        let prev = recommendations_for(cands.drop_last(), existing, config);
        let c = cands.last();
        if qualifies(c, existing, config) {
            prev.push((c.collection@, c.path@, evidence_of(c)))
        } else {
            prev
        }
    }
}

/// Checks the advisor thresholds.
pub fn validate_config(config: AdvisorConfig) -> (r: Result<()>)
    ensures
        r is Ok <==> config_valid(config),
        r matches Err(e) ==> e is InvalidArgument,
{
    if config.min_successful_executions == 0 || config.min_collection_scans == 0
        || config.min_collection_scan_examined == 0 {
        return Err(
            NovaError::InvalidArgument(
                "advisor count thresholds must be greater than zero".to_owned(),
            ),
        );
    }
    if config.max_return_ratio_basis_points as u64 > BASIS_POINTS {
        return Err(
            NovaError::InvalidArgument(
                "advisor return ratio must not exceed 10000 basis points".to_owned(),
            ),
        );
    }
    Ok(())
}

/// The return ratio in basis points, as [`ratio`] states it.
pub fn ratio_basis_points(returned: u64, examined: u64) -> (r: u16)
    ensures
        r == ratio(returned, examined),
{
    if examined == 0 {
        return 10_000;
    }
    let scaled: u128 = returned as u128 * 10_000;
    let r = scaled / examined as u128;
    if r > 10_000 {
        10_000
    } else {
        r as u16
    }
}

/// The collection and dotted path of every existing index.
fn existing_pairs(existing: &[IndexDefinition]) -> (r: Vec<(String, String)>)
    ensures
        r@.len() == existing@.len(),
        forall|i: int|
            0 <= i < r@.len() ==> #[trigger] r@[i].0@ == existing@[i].collection@ && r@[i].1@
                == dotted(strings_view(existing@[i].field@)),
{
    let mut out: Vec<(String, String)> = Vec::new();
    let mut i: usize = 0;
    while i < existing.len()
        invariant
            i <= existing@.len(),
            out@.len() == i,
            forall|j: int|
                0 <= j < i ==> #[trigger] out@[j].0@ == existing@[j].collection@ && out@[j].1@
                    == dotted(strings_view(existing@[j].field@)),
        decreases existing.len() - i,
    {
        let d = &existing[i];
        out.push((d.collection.clone(), join_field(&d.field)));
        i = i + 1;
    }
    out
}

/// Whether some existing index covers the candidate.
fn is_indexed(pairs: &Vec<(String, String)>, existing: &[IndexDefinition], c: &IndexCandidateStats) -> (r: bool)
    requires
        pairs@.len() == existing@.len(),
        forall|i: int|
            0 <= i < pairs@.len() ==> #[trigger] pairs@[i].0@ == existing@[i].collection@ && pairs@[i].1@
                == dotted(strings_view(existing@[i].field@)),
    ensures
        r == already_indexed(existing@, c.collection@, c.path@),
{
    let mut i: usize = 0;
    while i < pairs.len()
        invariant
            i <= pairs@.len(),
            pairs@.len() == existing@.len(),
            forall|j: int|
                0 <= j < pairs@.len() ==> #[trigger] pairs@[j].0@ == existing@[j].collection@
                    && pairs@[j].1@ == dotted(strings_view(existing@[j].field@)),
            forall|j: int|
                0 <= j < i ==> !(#[trigger] existing@[j].collection@ == c.collection@ && dotted(
                    strings_view(existing@[j].field@),
                ) == c.path@),
        decreases pairs.len() - i,
    {
        if pairs[i].0 == c.collection && pairs[i].1 == c.path {
            assert(pairs@[i as int].0@ == existing@[i as int].collection@);
            return true;
        }
        assert(pairs@[i as int].0@ == existing@[i as int].collection@);
        i = i + 1;
    }
    false
}

/// Produces deterministic, evidence-based single-field index proposals.
///
/// Only equality paths usable by the planner are considered, in the order of
/// the report's candidates. Existing collection/path pairs are excluded. The
/// function never changes the catalog. A threshold of zero, or a return ratio
/// above the whole, is an `InvalidArgument` error.
pub fn recommend_indexes(
    report: &WorkloadReport,
    existing_indexes: &[IndexDefinition],
    config: AdvisorConfig,
) -> (r: Result<Vec<IndexRecommendation>>)
    ensures
        r is Ok <==> config_valid(config),
        r matches Err(e) ==> e is InvalidArgument,
        r matches Ok(v) ==> recommendations_view(v@) == recommendations_for(
            report.index_candidates@,
            existing_indexes@,
            config,
        ),
{
    match validate_config(config) {
        Ok(()) => {},
        Err(e) => {
            return Err(e);
        },
    }
    let pairs = existing_pairs(existing_indexes);
    let ghost cands = report.index_candidates@;
    let mut recommendations: Vec<IndexRecommendation> = Vec::new();
    let mut i: usize = 0;
    while i < report.index_candidates.len()
        invariant
            i <= cands.len(),
            cands == report.index_candidates@,
            pairs@.len() == existing_indexes@.len(),
            forall|j: int|
                0 <= j < pairs@.len() ==> #[trigger] pairs@[j].0@ == existing_indexes@[j].collection@
                    && pairs@[j].1@ == dotted(strings_view(existing_indexes@[j].field@)),
            recommendations_view(recommendations@) == recommendations_for(
                cands.take(i as int),
                existing_indexes@,
                config,
            ),
        decreases cands.len() - i,
    {
        let c = &report.index_candidates[i];
        proof {
            assert(cands.take(i as int + 1).drop_last() =~= cands.take(i as int));
            assert(cands.take(i as int + 1).last() == *c);
        }
        let indexed = is_indexed(&pairs, existing_indexes, c);
        if !indexed && c.successful_executions >= config.min_successful_executions
            && c.collection_scans >= config.min_collection_scans
            && c.collection_scan_examined >= config.min_collection_scan_examined {
            let ratio = ratio_basis_points(c.collection_scan_returned, c.collection_scan_examined);
            if ratio <= config.max_return_ratio_basis_points {
                let ghost prev = recommendations@;
                recommendations.push(
                    IndexRecommendation {
                        collection: c.collection.clone(),
                        path: c.path.clone(),
                        evidence: RecommendationEvidence {
                            successful_executions: c.successful_executions,
                            collection_scans: c.collection_scans,
                            index_scans: c.index_scans,
                            collection_scan_examined: c.collection_scan_examined,
                            collection_scan_returned: c.collection_scan_returned,
                            collection_scan_elapsed_micros: c.collection_scan_elapsed_micros,
                            return_ratio_basis_points: ratio,
                        },
                    },
                );
                assert(recommendations_view(recommendations@) =~= recommendations_view(prev).push(
                    recommendations@.last()@,
                ));
            }
        }
        i = i + 1;
    }
    assert(cands.take(i as int) =~= cands);
    Ok(recommendations)
}

} // verus!
