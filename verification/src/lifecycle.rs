//! The recommendation lifecycle: an in-memory, deterministic record of which
//! index proposals were accepted, dismissed, applied and evaluated.
//!
//! Transitions: proposed → accepted → applied → evaluated, and
//! proposed → dismissed. Every other transition is refused and leaves the
//! lifecycle unchanged.
use vstd::prelude::*;

use crate::advisor::{IndexRecommendation, RecommendationEvidence};
use crate::analysis::{IndexCandidateStats, WorkloadReport, key_order, lemma_key_order, lemma_key_order_trans};
use crate::error::{error_detail, NovaError, Result};
use crate::text::{decimal, push_decimal, push_str};

verus! {

/// Where a recommendation stands.
#[derive(Debug, Clone, Copy, PartialEq, Eq, Structural)]
pub enum RecommendationStatus {
    Proposed,
    Accepted,
    Dismissed,
    Applied,
    Evaluated,
}

/// The threshold an evaluation needs.
#[derive(Debug, Clone, Copy, PartialEq, Eq)]
pub struct EvaluationConfig {
    pub min_index_scans: u64,
}

impl Default for EvaluationConfig {
    fn default() -> (r: Self)
        ensures
            r.min_index_scans == 3,
    {
        EvaluationConfig { min_index_scans: 3 }
    }
}

/// The measured effect of an applied index.
#[derive(Debug, Clone, Copy, PartialEq, Eq)]
pub struct ImpactEvaluation {
    pub baseline_collection_scans: u64,
    pub observed_index_scans: u64,
    pub baseline_average_examined: u64,
    pub observed_average_examined: u64,
    pub baseline_average_elapsed_micros: u64,
    pub observed_average_elapsed_micros: u64,
    pub examined_reduction_basis_points: i32,
    pub elapsed_reduction_basis_points: i32,
}

/// One recommendation and its decision history.
#[derive(Debug, Clone, PartialEq, Eq)]
pub struct RecommendationRecord {
    pub recommendation: IndexRecommendation,
    pub status: RecommendationStatus,
    pub evaluation: Option<ImpactEvaluation>,
}

/// The abstract value of a record.
pub struct RecordView {
    pub collection: Seq<char>,
    pub path: Seq<char>,
    pub evidence: RecommendationEvidence,
    pub status: RecommendationStatus,
    pub evaluation: Option<ImpactEvaluation>,
}

impl View for RecommendationRecord {
    type V = RecordView;

    open spec fn view(&self) -> RecordView {
        RecordView {
            collection: self.recommendation.collection@,
            path: self.recommendation.path@,
            evidence: self.recommendation.evidence,
            status: self.status,
            evaluation: self.evaluation,
        }
    }
}

/// The order of records: by collection, then by path.
pub open spec fn record_order(a: RecordView, b: RecordView) -> int {
    key_order((Some(a.collection), a.path), (Some(b.collection), b.path))
}

/// Records in strictly increasing key order (so no key occurs twice).
pub open spec fn records_sorted(s: Seq<RecordView>) -> bool {
    forall|i: int, j: int| 0 <= i < j < s.len() ==> record_order(#[trigger] s[i], #[trigger] s[j]) < 0
}

/// The views of a list of records.
pub open spec fn records_view(v: Seq<RecommendationRecord>) -> Seq<RecordView> {
    v.map_values(|r: RecommendationRecord| r@)
}

/// The record of a fresh proposal.
pub open spec fn proposed(r: IndexRecommendation) -> RecordView {
    RecordView {
        collection: r.collection@,
        path: r.path@,
        evidence: r.evidence,
        status: RecommendationStatus::Proposed,
        evaluation: None,
    }
}

/// Two recommendations of the list share a collection and path.
pub open spec fn has_duplicate(v: Seq<IndexRecommendation>) -> bool {
    exists|i: int, j: int|
        0 <= i < j < v.len() && #[trigger] v[i].collection@ == #[trigger] v[j].collection@
            && v[i].path@ == v[j].path@
}

/// The record at `i` is the one for this collection and path.
pub open spec fn keyed(s: Seq<RecordView>, i: int, collection: Seq<char>, path: Seq<char>) -> bool {
    0 <= i < s.len() && s[i].collection == collection && s[i].path == path
}

/// Some record is for this collection and path.
pub open spec fn has_record(s: Seq<RecordView>, collection: Seq<char>, path: Seq<char>) -> bool {
    exists|i: int| #[trigger] keyed(s, i, collection, path)
}

/// A record with a new status.
pub open spec fn with_status(r: RecordView, status: RecommendationStatus) -> RecordView {
    RecordView { status, ..r }
}

/// The text of a status.
pub open spec fn status_text(s: RecommendationStatus) -> Seq<char> {
    match s {
        RecommendationStatus::Proposed => "proposed"@,
        RecommendationStatus::Accepted => "accepted"@,
        RecommendationStatus::Dismissed => "dismissed"@,
        RecommendationStatus::Applied => "applied"@,
        RecommendationStatus::Evaluated => "evaluated"@,
    }
}

/// The message of a refused transition.
pub open spec fn transition_message(current: RecommendationStatus, next: Seq<char>) -> Seq<char> {
    "cannot mark "@ + status_text(current) + " recommendation as "@ + next
}

/// `total / count`, or zero when there is nothing to average.
pub open spec fn average_of(total: u64, count: u64) -> u64 {
    if count == 0 {
        0
    } else {
        total / count
    }
}

/// `a / b` rounded toward zero, for positive `b`.
pub open spec fn div_toward_zero(a: int, b: int) -> int {
    if a >= 0 {
        a / b
    } else {
        -((-a) / b)
    }
}

/// `v` clamped to the range of `i32`.
pub open spec fn clamp_i32(v: int) -> i32 {
    if v > i32::MAX {
        i32::MAX
    } else if v < i32::MIN {
        i32::MIN
    } else {
        v as i32
    }
}

/// How much lower `observed` is than `baseline`, in basis points of the
/// baseline (negative for a regression); zero for a zero baseline.
pub open spec fn reduction(baseline: u64, observed: u64) -> i32 {
    if baseline == 0 {
        0
    } else {
        clamp_i32(div_toward_zero((baseline - observed) * 10_000, baseline as int))
    }
}

/// The evaluation of a baseline against the candidate of a later window.
pub open spec fn evaluation_of(e: RecommendationEvidence, c: IndexCandidateStats) -> ImpactEvaluation {
    let be = average_of(e.collection_scan_examined, e.collection_scans);
    let bt = average_of(e.collection_scan_elapsed_micros, e.collection_scans);
    let oe = average_of(c.index_scan_examined, c.index_scans);
    let ot = average_of(c.index_scan_elapsed_micros, c.index_scans);
    ImpactEvaluation {
        baseline_collection_scans: e.collection_scans,
        observed_index_scans: c.index_scans,
        baseline_average_examined: be,
        observed_average_examined: oe,
        baseline_average_elapsed_micros: bt,
        observed_average_elapsed_micros: ot,
        examined_reduction_basis_points: reduction(be, oe),
        elapsed_reduction_basis_points: reduction(bt, ot),
    }
}

/// The candidate at `i` is the first one for this collection and path.
pub open spec fn first_candidate(
    cands: Seq<IndexCandidateStats>,
    i: int,
    collection: Seq<char>,
    path: Seq<char>,
) -> bool {
    &&& 0 <= i < cands.len()
    &&& cands[i].collection@ == collection && cands[i].path@ == path
    &&& forall|j: int|
        0 <= j < i ==> !(#[trigger] cands[j].collection@ == collection && cands[j].path@ == path)
}

/// Some candidate is for this collection and path.
pub open spec fn has_candidate(cands: Seq<IndexCandidateStats>, collection: Seq<char>, path: Seq<char>) -> bool {
    exists|i: int| 0 <= i < cands.len() && #[trigger] cands[i].collection@ == collection && cands[i].path@ == path
}

/// `total / count`, or zero when there is nothing to average.
pub fn average(total: u64, count: u64) -> (r: u64)
    ensures
        r == average_of(total, count),
{
    if count == 0 {
        0
    } else {
        total / count
    }
}

/// The reduction from `baseline` to `observed` in basis points.
pub fn reduction_basis_points(baseline: u64, observed: u64) -> (r: i32)
    ensures
        r == reduction(baseline, observed),
{
    if baseline == 0 {
        return 0;
    }
    let magnitude: u128 = if observed <= baseline {
        (baseline - observed) as u128 * 10_000 / baseline as u128
    } else {
        (observed - baseline) as u128 * 10_000 / baseline as u128
    };
    if observed <= baseline {
        if magnitude > 2_147_483_647 {
            i32::MAX
        } else {
            magnitude as i32
        }
    } else {
        if magnitude > 2_147_483_648 {
            i32::MIN
        } else if magnitude == 2_147_483_648 {
            i32::MIN
        } else {
            -(magnitude as i32)
        }
    }
}

/// The name of a status.
pub fn status_name(status: RecommendationStatus) -> (r: &'static str)
    ensures
        r@ == status_text(status),
{
    match status {
        RecommendationStatus::Proposed => "proposed",
        RecommendationStatus::Accepted => "accepted",
        RecommendationStatus::Dismissed => "dismissed",
        RecommendationStatus::Applied => "applied",
        RecommendationStatus::Evaluated => "evaluated",
    }
}

/// The error for a transition that the current status does not allow.
fn invalid_transition(current: RecommendationStatus, next: &str) -> (e: NovaError)
    ensures
        e is InvalidState,
        error_detail(e) == transition_message(current, next@),
{
    let mut message = String::new();
    push_str(&mut message, "cannot mark ");
    push_str(&mut message, status_name(current));
    push_str(&mut message, " recommendation as ");
    push_str(&mut message, next);
    NovaError::InvalidState(message)
}

/// `collection.path`, as the lifecycle's messages name a recommendation.
fn dotted_name(prefix: &str, collection: &str, path: &str) -> (r: String)
    ensures
        r@ == prefix@ + collection@ + "."@ + path@,
{
    let mut s = String::new();
    push_str(&mut s, prefix);
    push_str(&mut s, collection);
    push_str(&mut s, ".");
    push_str(&mut s, path);
    s
}

/// In-memory, deterministic recommendation decision and evaluation history.
#[derive(Debug)]
pub struct RecommendationLifecycle {
    records: Vec<RecommendationRecord>,
}

impl View for RecommendationLifecycle {
    type V = Seq<RecordView>;

    closed spec fn view(&self) -> Seq<RecordView> {
        records_view(self.records@)
    }
}

/// The outcome of a transition from `expected` to `next` on the record for
/// `collection` and `path`: the record moves on, or nothing changes and the
/// error says why.
pub open spec fn transition_result(
    old: Seq<RecordView>,
    new: Seq<RecordView>,
    collection: Seq<char>,
    path: Seq<char>,
    expected: RecommendationStatus,
    next: RecommendationStatus,
    r: Result<()>,
) -> bool {
    &&& r is Ok <==> exists|i: int| #[trigger] keyed(old, i, collection, path) && old[i].status == expected
    &&& r is Ok ==> exists|i: int|
        #[trigger] keyed(old, i, collection, path) && old[i].status == expected && new == old.update(
            i,
            with_status(old[i], next),
        )
    &&& r matches Err(e) ==> new == old && (if has_record(old, collection, path) {
        exists|i: int|
            #[trigger] keyed(old, i, collection, path) && old[i].status != expected && e is InvalidState
                && error_detail(e) == transition_message(old[i].status, status_text(next))
    } else {
        e is NotFound && error_detail(e) == "recommendation for "@ + collection + "."@ + path
    })
}

proof fn lemma_keyed_unique(s: Seq<RecordView>, i: int, j: int, collection: Seq<char>, path: Seq<char>)
    requires
        records_sorted(s),
        keyed(s, i, collection, path),
        keyed(s, j, collection, path),
    ensures
        i == j,
{
    if i < j {
        lemma_key_order((Some(s[i].collection), s[i].path), (Some(s[j].collection), s[j].path));
        assert(record_order(s[i], s[j]) < 0);
    } else if j < i {
        lemma_key_order((Some(s[j].collection), s[j].path), (Some(s[i].collection), s[i].path));
        assert(record_order(s[j], s[i]) < 0);
    }
}

fn compare_records(a: &RecommendationRecord, b: &RecommendationRecord) -> (r: i8)
    ensures
        r as int == record_order(a@, b@),
{
    let c = crate::text::compare_str(
        a.recommendation.collection.as_str(),
        b.recommendation.collection.as_str(),
    );
    if c != 0 {
        c
    } else {
        crate::text::compare_str(a.recommendation.path.as_str(), b.recommendation.path.as_str())
    }
}

/// Adds a record to a strictly sorted list, unless a record with its key is
/// already there (then the list is unchanged and `false` comes back).
fn insert_record(records: &mut Vec<RecommendationRecord>, rec: RecommendationRecord) -> (added: bool)
    requires
        records_sorted(records_view(old(records)@)),
    ensures
        records_sorted(records_view(final(records)@)),
        added == !has_record(records_view(old(records)@), rec@.collection, rec@.path),
        added ==> final(records)@.len() == old(records)@.len() + 1 && forall|x: RecordView|
            records_view(final(records)@).contains(x) <==> (records_view(old(records)@).contains(x)
                || x == rec@),
        !added ==> final(records)@ == old(records)@,
{
    let ghost old_s = records_view(records@);
    let ghost rv = rec@;
    let mut i: usize = 0;
    while i < records.len() && compare_records(&records[i], &rec) < 0
        invariant
            i <= records@.len(),
            records_view(records@) == old_s,
            rv == rec@,
            forall|j: int| 0 <= j < i ==> record_order(#[trigger] old_s[j], rv) < 0,
        decreases records@.len() - i,
    {
        i = i + 1;
    }
    proof {
        assert forall|j: int| 0 <= j < i implies !#[trigger] keyed(old_s, j, rv.collection, rv.path) by {
            lemma_key_order((Some(old_s[j].collection), old_s[j].path), (Some(rv.collection), rv.path));
        }
        if i < old_s.len() {
            lemma_key_order((Some(old_s[i as int].collection), old_s[i as int].path), (Some(rv.collection), rv.path));
            assert forall|j: int| i < j < old_s.len() implies !#[trigger] keyed(old_s, j, rv.collection, rv.path) by {
                assert(record_order(old_s[i as int], old_s[j]) < 0);
                lemma_key_order((Some(old_s[j].collection), old_s[j].path), (Some(rv.collection), rv.path));
                if record_order(old_s[i as int], rv) > 0 {
                    lemma_key_order((Some(old_s[i as int].collection), old_s[i as int].path), (Some(old_s[j].collection), old_s[j].path));
                    lemma_key_order_trans((Some(rv.collection), rv.path), (Some(old_s[i as int].collection), old_s[i as int].path), (Some(old_s[j].collection), old_s[j].path));
                }
            }
        }
    }
    if i < records.len() && compare_records(&records[i], &rec) == 0 {
        proof {
            assert(keyed(old_s, i as int, rv.collection, rv.path));
        }
        return false;
    }
    proof {
        if i < old_s.len() {
            assert(!keyed(old_s, i as int, rv.collection, rv.path));
        }
        assert(!has_record(old_s, rv.collection, rv.path));
    }
    records.insert(i, rec);
    proof {
        let ns = records_view(records@);
        assert(ns =~= old_s.insert(i as int, rv));
        assert forall|a: int, b: int| 0 <= a < b < ns.len() implies record_order(#[trigger] ns[a], #[trigger] ns[b]) < 0 by {
            let ka = (Some(ns[a].collection), ns[a].path);
            let kb = (Some(ns[b].collection), ns[b].path);
            let kv = (Some(rv.collection), rv.path);
            if b < i {
            } else if b == i {
            } else if a < i {
                let km = (Some(old_s[i as int].collection), old_s[i as int].path);
                if b - 1 > i {
                    assert(record_order(old_s[i as int], old_s[b - 1]) < 0);
                    lemma_key_order_trans(kv, km, kb);
                }
                lemma_key_order_trans(ka, kv, kb);
            } else if a == i {
                if b - 1 > i {
                    let km = (Some(old_s[i as int].collection), old_s[i as int].path);
                    assert(record_order(old_s[i as int], old_s[b - 1]) < 0);
                    lemma_key_order_trans(kv, km, kb);
                }
            } else {
                assert(record_order(old_s[a - 1], old_s[b - 1]) < 0);
            }
        }
        assert forall|x: RecordView| ns.contains(x) <==> (old_s.contains(x) || x == rv) by {
            if ns.contains(x) {
                let k = choose|k: int| 0 <= k < ns.len() && ns[k] == x;
                if k < i {
                    assert(old_s[k] == x);
                } else if k > i {
                    assert(old_s[k - 1] == x);
                }
            }
            if old_s.contains(x) {
                let k = choose|k: int| 0 <= k < old_s.len() && old_s[k] == x;
                if k < i {
                    assert(ns[k] == x);
                } else {
                    assert(ns[k + 1] == x);
                }
            }
            if x == rv {
                assert(ns[i as int] == x);
            }
        }
    }
    true
}

/// The outcome of evaluating the record for `collection` and `path` against
/// the candidates of a later workload window.
pub open spec fn evaluation_result(
    old: Seq<RecordView>,
    new: Seq<RecordView>,
    collection: Seq<char>,
    path: Seq<char>,
    cands: Seq<IndexCandidateStats>,
    config: EvaluationConfig,
    r: Result<ImpactEvaluation>,
) -> bool {
    &&& r is Ok <==> {
        &&& config.min_index_scans > 0
        &&& exists|i: int| #[trigger] keyed(old, i, collection, path) && old[i].status == RecommendationStatus::Applied
        &&& exists|k: int|
            #[trigger] first_candidate(cands, k, collection, path) && cands[k].index_scans
                >= config.min_index_scans
    }
    &&& r matches Ok(ev) ==> exists|i: int, k: int|
        #[trigger] keyed(old, i, collection, path) && #[trigger] first_candidate(cands, k, collection, path)
            && ev == evaluation_of(old[i].evidence, cands[k]) && new == old.update(
            i,
            RecordView { status: RecommendationStatus::Evaluated, evaluation: Some(ev), ..old[i] },
        )
    &&& r matches Err(e) ==> new == old && if config.min_index_scans == 0 {
        e is InvalidArgument
    } else if !has_record(old, collection, path) {
        e is NotFound && error_detail(e) == "recommendation for "@ + collection + "."@ + path
    } else if exists|i: int| #[trigger] keyed(old, i, collection, path) && old[i].status != RecommendationStatus::Applied {
        exists|i: int|
            #[trigger] keyed(old, i, collection, path) && e is InvalidState && error_detail(e)
                == transition_message(old[i].status, "evaluated"@)
    } else if !has_candidate(cands, collection, path) {
        e is NotFound && error_detail(e) == "post-application telemetry for "@ + collection + "."@ + path
    } else {
        exists|k: int|
            #[trigger] first_candidate(cands, k, collection, path) && e is InvalidState && error_detail(e)
                == "need at least "@ + decimal(config.min_index_scans as nat) + " index scans, observed "@
                + decimal(cands[k].index_scans as nat)
    }
}

/// The first candidate for this collection and path.
fn find_candidate(cands: &Vec<IndexCandidateStats>, collection: &str, path: &str) -> (r: Option<usize>)
    ensures
        match r {
            Some(k) => first_candidate(cands@, k as int, collection@, path@),
            None => !has_candidate(cands@, collection@, path@),
        },
{
    let mut i: usize = 0;
    while i < cands.len()
        invariant
            i <= cands@.len(),
            forall|j: int|
                0 <= j < i ==> !(#[trigger] cands@[j].collection@ == collection@ && cands@[j].path@ == path@),
        decreases cands.len() - i,
    {
        let c = &cands[i];
        if crate::text::str_eq(c.collection.as_str(), collection) && crate::text::str_eq(c.path.as_str(), path) {
            return Some(i);
        }
        i = i + 1;
    }
    None
}

impl RecommendationLifecycle {
    #[verifier::type_invariant]
    spec fn sorted_records(self) -> bool {
        records_sorted(records_view(self.records@))
    }

    /// Creates proposed records, rejecting duplicate collection/path pairs
    /// with an `InvalidArgument` error.
    pub fn from_recommendations(recommendations: Vec<IndexRecommendation>) -> (r: Result<Self>)
        ensures
            r is Ok <==> !has_duplicate(recommendations@),
            r matches Err(e) ==> e is InvalidArgument && error_detail(e)
                == "duplicate index recommendation"@,
            r matches Ok(l) ==> {
                &&& records_sorted(l@)
                &&& l@.len() == recommendations@.len()
                &&& forall|x: RecordView|
                    l@.contains(x) <==> exists|i: int|
                        0 <= i < recommendations@.len() && x == proposed(#[trigger] recommendations@[i])
            },
    {
        let ghost orig = recommendations@;
        let n = recommendations.len();
        let mut rest = recommendations;
        let mut records: Vec<RecommendationRecord> = Vec::new();
        let mut i: usize = 0;
        let mut duplicate = false;
        while !duplicate && rest.len() > 0
            invariant
                i + rest@.len() == orig.len(),
                orig.len() == n,
                rest@ == orig.skip(i as int),
                duplicate ==> has_duplicate(orig),
                !duplicate ==> {
                    &&& records_sorted(records_view(records@))
                    &&& records@.len() == i
                    &&& !has_duplicate(orig.take(i as int))
                    &&& forall|x: RecordView|
                        records_view(records@).contains(x) <==> exists|k: int|
                            0 <= k < i && x == proposed(#[trigger] orig[k])
                },
            decreases rest@.len(),
        {
            let recommendation = rest.remove(0);
            assert(recommendation == orig[i as int]);
            let rec = RecommendationRecord {
                recommendation,
                status: RecommendationStatus::Proposed,
                evaluation: None,
            };
            let ghost before = records_view(records@);
            if !insert_record(&mut records, rec) {
                proof {
                    let j = choose|j: int| #[trigger] keyed(before, j, orig[i as int].collection@, orig[i as int].path@);
                    assert(before.contains(before[j]));
                    let k = choose|k: int| 0 <= k < i && before[j] == proposed(#[trigger] orig[k]);
                    assert(orig[k].collection@ == orig[i as int].collection@);
                    assert(orig[k].path@ == orig[i as int].path@);
                    assert(has_duplicate(orig));
                }
                duplicate = true;
            } else {
                proof {
                    let t = orig.take(i as int + 1);
                    assert forall|a: int, b: int| 0 <= a < b < t.len() implies !(#[trigger] t[a].collection@ == #[trigger] t[b].collection@ && t[a].path@ == t[b].path@) by {
                        if b == i {
                            if t[a].collection@ == t[b].collection@ && t[a].path@ == t[b].path@ {
                                assert(before.contains(proposed(orig[a])));
                                let j = choose|j: int| 0 <= j < before.len() && before[j] == proposed(orig[a]);
                                assert(keyed(before, j, orig[i as int].collection@, orig[i as int].path@));
                            }
                        } else {
                            assert(orig.take(i as int)[a] == t[a]);
                            assert(orig.take(i as int)[b] == t[b]);
                        }
                    }
                    assert forall|x: RecordView| records_view(records@).contains(x) <==> exists|k: int|
                            0 <= k < i + 1 && x == proposed(#[trigger] orig[k]) by {
                        if x == proposed(orig[i as int]) {
                        }
                    }
                }
            }
            i = i + 1;
        }
        if duplicate {
            return Err(NovaError::InvalidArgument("duplicate index recommendation".to_owned()));
        }
        proof {
            assert(orig.take(i as int) =~= orig);
        }
        Ok(RecommendationLifecycle { records })
    }

    /// Every record, in increasing collection/path order.
    pub fn records(&self) -> (r: Vec<&RecommendationRecord>)
        ensures
            records_sorted(self@),
            r@.len() == self@.len(),
            forall|i: int| 0 <= i < r@.len() ==> (#[trigger] r@[i])@ == self@[i],
    {
        proof {
            use_type_invariant(self);
        }
        let mut out: Vec<&RecommendationRecord> = Vec::new();
        let mut i: usize = 0;
        while i < self.records.len()
            invariant
                i <= self.records@.len(),
                out@.len() == i,
                forall|j: int| 0 <= j < i ==> (#[trigger] out@[j])@ == records_view(self.records@)[j],
            decreases self.records.len() - i,
        {
            out.push(&self.records[i]);
            i = i + 1;
        }
        out
    }

    fn find(&self, collection: &str, path: &str) -> (r: Option<usize>)
        ensures
            records_sorted(self@),
            match r {
                Some(i) => keyed(self@, i as int, collection@, path@),
                None => !has_record(self@, collection@, path@),
            },
    {
        proof {
            use_type_invariant(self);
        }
        let mut i: usize = 0;
        while i < self.records.len()
            invariant
                i <= self.records@.len(),
                records_sorted(records_view(self.records@)),
                forall|j: int| 0 <= j < i ==> !#[trigger] keyed(records_view(self.records@), j, collection@, path@),
            decreases self.records.len() - i,
        {
            let r = &self.records[i];
            if crate::text::str_eq(r.recommendation.collection.as_str(), collection)
                && crate::text::str_eq(r.recommendation.path.as_str(), path) {
                return Some(i);
            }
            i = i + 1;
        }
        None
    }

    /// Replaces the status (and evaluation) of the record at `i`.
    fn set_record(&mut self, i: usize, status: RecommendationStatus, evaluation: Option<ImpactEvaluation>)
        requires
            i < old(self)@.len(),
        ensures
            final(self)@ == old(self)@.update(
                i as int,
                RecordView { status, evaluation, ..old(self)@[i as int] },
            ),
            records_sorted(final(self)@),
    {
        proof {
            use_type_invariant(&*self);
        }
        let ghost old_s = self@;
        let mut records: Vec<RecommendationRecord> = Vec::new();
        std::mem::swap(&mut records, &mut self.records);
        let rec = records.remove(i);
        let updated = RecommendationRecord { recommendation: rec.recommendation, status, evaluation };
        records.insert(i, updated);
        proof {
            let ns = records_view(records@);
            assert(ns =~= old_s.update(i as int, RecordView { status, evaluation, ..old_s[i as int] }));
            assert forall|a: int, b: int| 0 <= a < b < ns.len() implies record_order(#[trigger] ns[a], #[trigger] ns[b]) < 0 by {
                assert(record_order(old_s[a], old_s[b]) < 0);
            }
        }
        self.records = records;
    }

    fn transition(
        &mut self,
        collection: &str,
        path: &str,
        expected: RecommendationStatus,
        next: RecommendationStatus,
    ) -> (r: Result<()>)
        ensures
            records_sorted(final(self)@),
            transition_result(old(self)@, final(self)@, collection@, path@, expected, next, r),
    {
        match self.find(collection, path) {
            None => {
                Err(NovaError::NotFound(dotted_name("recommendation for ", collection, path)))
            },
            Some(i) => {
                let current = self.records[i].status;
                proof {
                    assert forall|j: int| #[trigger] keyed(self@, j, collection@, path@) implies j == i by {
                        lemma_keyed_unique(self@, i as int, j, collection@, path@);
                    }
                }
                if current != expected {
                    return Err(invalid_transition(current, status_name(next)));
                }
                self.set_record(i, next, self.records[i].evaluation);
                Ok(())
            },
        }
    }

    /// Accepts a proposed recommendation.
    pub fn accept(&mut self, collection: &str, path: &str) -> (r: Result<()>)
        ensures
            records_sorted(final(self)@),
            transition_result(
                old(self)@,
                final(self)@,
                collection@,
                path@,
                RecommendationStatus::Proposed,
                RecommendationStatus::Accepted,
                r,
            ),
    {
        self.transition(collection, path, RecommendationStatus::Proposed, RecommendationStatus::Accepted)
    }

    /// Dismisses a proposed recommendation; dismissal is final.
    pub fn dismiss(&mut self, collection: &str, path: &str) -> (r: Result<()>)
        ensures
            records_sorted(final(self)@),
            transition_result(
                old(self)@,
                final(self)@,
                collection@,
                path@,
                RecommendationStatus::Proposed,
                RecommendationStatus::Dismissed,
                r,
            ),
    {
        self.transition(collection, path, RecommendationStatus::Proposed, RecommendationStatus::Dismissed)
    }

    /// Marks an accepted recommendation as externally applied. The index
    /// catalog is not touched.
    pub fn mark_applied(&mut self, collection: &str, path: &str) -> (r: Result<()>)
        ensures
            records_sorted(final(self)@),
            transition_result(
                old(self)@,
                final(self)@,
                collection@,
                path@,
                RecommendationStatus::Accepted,
                RecommendationStatus::Applied,
                r,
            ),
    {
        self.transition(collection, path, RecommendationStatus::Accepted, RecommendationStatus::Applied)
    }

    /// Evaluates an applied recommendation against a later workload window:
    /// the baseline averages of its evidence against the averages of the
    /// window's index scans. On success the record becomes evaluated and keeps
    /// the evaluation; on any error nothing changes.
    pub fn evaluate(
        &mut self,
        collection: &str,
        path: &str,
        report: &WorkloadReport,
        config: EvaluationConfig,
    ) -> (r: Result<ImpactEvaluation>)
        ensures
            records_sorted(final(self)@),
            evaluation_result(
                old(self)@,
                final(self)@,
                collection@,
                path@,
                report.index_candidates@,
                config,
                r,
            ),
    {
        proof {
            use_type_invariant(&*self);
        }
        if config.min_index_scans == 0 {
            return Err(
                NovaError::InvalidArgument(
                    "evaluation observation threshold must be greater than zero".to_owned(),
                ),
            );
        }
        let i = match self.find(collection, path) {
            None => {
                return Err(NovaError::NotFound(dotted_name("recommendation for ", collection, path)));
            },
            Some(i) => i,
        };
        proof {
            assert forall|j: int| #[trigger] keyed(self@, j, collection@, path@) implies j == i by {
                lemma_keyed_unique(self@, i as int, j, collection@, path@);
            }
        }
        let status = self.records[i].status;
        if status != RecommendationStatus::Applied {
            return Err(invalid_transition(status, "evaluated"));
        }
        let k = match find_candidate(&report.index_candidates, collection, path) {
            None => {
                return Err(
                    NovaError::NotFound(
                        dotted_name("post-application telemetry for ", collection, path),
                    ),
                );
            },
            Some(k) => k,
        };
        let ghost cands = report.index_candidates@;
        proof {
            assert forall|j: int| #[trigger] first_candidate(cands, j, collection@, path@) implies j == k by {
                if j < k {
                    assert(!(cands[j].collection@ == collection@ && cands[j].path@ == path@));
                } else if j > k {
                    assert(!(cands[k as int].collection@ == collection@ && cands[k as int].path@ == path@));
                }
            }
        }
        let candidate = &report.index_candidates[k];
        if candidate.index_scans < config.min_index_scans {
            let mut message = String::new();
            push_str(&mut message, "need at least ");
            push_decimal(&mut message, config.min_index_scans as u128);
            push_str(&mut message, " index scans, observed ");
            push_decimal(&mut message, candidate.index_scans as u128);
            return Err(NovaError::InvalidState(message));
        }
        let evidence = self.records[i].recommendation.evidence;
        let baseline_scans = evidence.collection_scans;
        let baseline_examined = average(evidence.collection_scan_examined, baseline_scans);
        let baseline_elapsed = average(evidence.collection_scan_elapsed_micros, baseline_scans);
        let observed_examined = average(candidate.index_scan_examined, candidate.index_scans);
        let observed_elapsed = average(candidate.index_scan_elapsed_micros, candidate.index_scans);
        let evaluation = ImpactEvaluation {
            baseline_collection_scans: baseline_scans,
            observed_index_scans: candidate.index_scans,
            baseline_average_examined: baseline_examined,
            observed_average_examined: observed_examined,
            baseline_average_elapsed_micros: baseline_elapsed,
            observed_average_elapsed_micros: observed_elapsed,
            examined_reduction_basis_points: reduction_basis_points(baseline_examined, observed_examined),
            elapsed_reduction_basis_points: reduction_basis_points(baseline_elapsed, observed_elapsed),
        };
        self.set_record(i, RecommendationStatus::Evaluated, Some(evaluation));
        Ok(evaluation)
    }
}

} // verus!
