use std::sync::Mutex;

use novadb::advisor::{
    ratio_basis_points, recommend_indexes, validate_config, AdvisorConfig, IndexRecommendation,
    RecommendationEvidence,
};
use novadb::analysis::{analyze_workload, WorkloadReport};
use novadb::assistant::{
    explain_recommendation, grounded_prompt, suggested_novaql, valid_identifier, AssistantLimits,
    ExplanationProvider,
};
use novadb::catalog::{join_field, IndexDefinition};
use novadb::error::{NovaError, Result};
use novadb::lifecycle::{
    average, reduction_basis_points, status_name, EvaluationConfig, RecommendationLifecycle,
    RecommendationStatus,
};
use novadb::telemetry::{InMemoryTelemetry, TelemetryAccess, TelemetryEvent, TelemetrySink};

fn event(
    fingerprint: &str,
    collection: Option<&str>,
    paths: &[&str],
    access: TelemetryAccess,
    succeeded: bool,
) -> TelemetryEvent {
    TelemetryEvent {
        fingerprint: fingerprint.to_owned(),
        collection: collection.map(str::to_owned),
        predicate_paths: paths.iter().map(ToString::to_string).collect(),
        index_candidate_paths: paths.iter().map(ToString::to_string).collect(),
        access,
        examined: 100,
        returned: 10,
        elapsed_micros: 25,
        succeeded,
    }
}

#[test]
fn sink_preserves_order_and_can_be_cleared() {
    let mut sink = InMemoryTelemetry::new();
    sink.record(TelemetryEvent {
        fingerprint: "get:students|filter".to_owned(),
        collection: Some("students".to_owned()),
        predicate_paths: vec!["branch".to_owned()],
        index_candidate_paths: vec![],
        access: TelemetryAccess::CollectionScan,
        examined: 10,
        returned: 2,
        elapsed_micros: 5,
        succeeded: true,
    });
    assert_eq!(sink.snapshot().unwrap().len(), 1);
    sink.clear().unwrap();
    assert!(sink.snapshot().unwrap().is_empty());
}

#[test]
fn aggregates_and_sorts_workload_dimensions() {
    let events = vec![
        event(
            "get:students|filter",
            Some("students"),
            &["name", "address.state"],
            TelemetryAccess::CollectionScan,
            true,
        ),
        event(
            "get:students|filter",
            Some("students"),
            &["name"],
            TelemetryAccess::IndexScan {
                index: "by_name".to_owned(),
            },
            true,
        ),
    ];

    let report = analyze_workload(&events);
    assert_eq!((report.total_events, report.successful_events), (2, 2));
    assert_eq!((report.collection_scans, report.index_scans), (1, 1));
    assert_eq!((report.total_examined, report.total_returned), (200, 20));
    assert_eq!(report.fingerprints.len(), 1);
    assert_eq!(report.fingerprints[0].successful_executions, 2);
    assert_eq!(report.predicate_paths.len(), 2);
    assert_eq!(report.predicate_paths[0].path, "address.state");
    assert_eq!(report.predicate_paths[1].path, "name");
    assert_eq!(report.predicate_paths[1].index_scans, 1);
    assert_eq!(report.index_candidates.len(), 2);
}

#[test]
fn failures_are_counted_but_excluded_from_success_metrics() {
    let events = vec![event(
        "get:students|filter",
        Some("students"),
        &["score", "score"],
        TelemetryAccess::CollectionScan,
        false,
    )];

    let report = analyze_workload(&events);
    assert_eq!((report.successful_events, report.failed_events), (0, 1));
    assert_eq!((report.total_examined, report.total_elapsed_micros), (0, 0));
    assert_eq!(report.fingerprints[0].failed_executions, 1);
    assert_eq!(report.predicate_paths.len(), 1);
    assert_eq!(report.predicate_paths[0].failed_executions, 1);
    assert_eq!(report.predicate_paths[0].collection_scans, 0);
}

#[test]
fn empty_and_large_snapshots_are_total() {
    assert_eq!(analyze_workload(&[]), WorkloadReport::default());
    let mut first = event(
        "get:a|filter",
        Some("a"),
        &["x"],
        TelemetryAccess::CollectionScan,
        true,
    );
    first.elapsed_micros = u64::MAX;
    let second = first.clone();
    let report = analyze_workload(&[first, second]);
    assert_eq!(report.total_elapsed_micros, u64::MAX);
    assert_eq!(report.fingerprints[0].total_elapsed_micros, u64::MAX);
}

#[test]
fn events_without_collection_group_by_shape_only() {
    let events = vec![
        event("ping", None, &["x"], TelemetryAccess::Command, true),
        event("get:b|filter", Some("b"), &[], TelemetryAccess::CollectionScan, true),
    ];
    let report = analyze_workload(&events);
    assert_eq!(report.command_executions, 1);
    assert_eq!(report.fingerprints.len(), 2);
    assert_eq!(report.fingerprints[0].collection, None);
    assert_eq!(report.fingerprints[1].collection.as_deref(), Some("b"));
    assert!(report.predicate_paths.is_empty());
    assert!(report.index_candidates.is_empty());
}

fn observations(path: &str, returned: usize, count: usize) -> Vec<TelemetryEvent> {
    (0..count)
        .map(|_| TelemetryEvent {
            fingerprint: "get:students|filter".to_owned(),
            collection: Some("students".to_owned()),
            predicate_paths: vec![path.to_owned()],
            index_candidate_paths: vec![path.to_owned()],
            access: TelemetryAccess::CollectionScan,
            examined: 100,
            returned,
            elapsed_micros: 50,
            succeeded: true,
        })
        .collect()
}

#[test]
fn recommends_selective_repeated_collection_scans_with_evidence() {
    let report = analyze_workload(&observations("branch", 10, 3));
    let recommendations = recommend_indexes(&report, &[], AdvisorConfig::default()).unwrap();
    assert_eq!(recommendations.len(), 1);
    let recommendation = &recommendations[0];
    assert_eq!(recommendation.collection, "students");
    assert_eq!(recommendation.path, "branch");
    assert_eq!(recommendation.evidence.collection_scans, 3);
    assert_eq!(recommendation.evidence.collection_scan_examined, 300);
    assert_eq!(recommendation.evidence.return_ratio_basis_points, 1_000);
}

#[test]
fn skips_existing_sparse_and_unselective_candidates() {
    let mut events = observations("branch", 10, 3);
    events.extend(observations("name", 5, 2));
    events.extend(observations("active", 90, 3));
    let report = analyze_workload(&events);
    let existing = [IndexDefinition {
        name: "by_branch".to_owned(),
        collection: "students".to_owned(),
        field: vec!["branch".to_owned()],
    }];
    assert!(
        recommend_indexes(&report, &existing, AdvisorConfig::default())
            .unwrap()
            .is_empty()
    );
}

#[test]
fn rejects_invalid_thresholds() {
    let config = AdvisorConfig {
        min_collection_scans: 0,
        ..AdvisorConfig::default()
    };
    assert!(matches!(
        recommend_indexes(&WorkloadReport::default(), &[], config),
        Err(NovaError::InvalidArgument(_))
    ));
    let config = AdvisorConfig {
        max_return_ratio_basis_points: 10_001,
        ..AdvisorConfig::default()
    };
    assert!(recommend_indexes(&WorkloadReport::default(), &[], config).is_err());
}

#[test]
fn ratio_is_capped_and_handles_zero_examined() {
    assert_eq!(ratio_basis_points(10, 100), 1_000);
    assert_eq!(ratio_basis_points(5, 0), 10_000);
    assert_eq!(ratio_basis_points(500, 100), 10_000);
    assert_eq!(ratio_basis_points(1, 3), 3_333);
    assert!(validate_config(AdvisorConfig::default()).is_ok());
}

#[test]
fn nested_field_paths_join_with_dots() {
    let field = vec!["address".to_owned(), "state".to_owned()];
    assert_eq!(join_field(&field), "address.state");
    assert_eq!(join_field(&vec![]), "");
}

fn recommendation(path: &str) -> IndexRecommendation {
    IndexRecommendation {
        collection: "students".to_owned(),
        path: path.to_owned(),
        evidence: RecommendationEvidence {
            successful_executions: 3,
            collection_scans: 3,
            index_scans: 0,
            collection_scan_examined: 300,
            collection_scan_returned: 30,
            collection_scan_elapsed_micros: 600,
            return_ratio_basis_points: 1_000,
        },
    }
}

fn indexed_events(count: usize) -> Vec<TelemetryEvent> {
    (0..count)
        .map(|_| TelemetryEvent {
            fingerprint: "get:students|filter".to_owned(),
            collection: Some("students".to_owned()),
            predicate_paths: vec!["branch".to_owned()],
            index_candidate_paths: vec!["branch".to_owned()],
            access: TelemetryAccess::IndexScan {
                index: "by_branch".to_owned(),
            },
            examined: 10,
            returned: 10,
            elapsed_micros: 50,
            succeeded: true,
        })
        .collect()
}

#[test]
fn lifecycle_requires_explicit_valid_transitions() {
    let mut lifecycle =
        RecommendationLifecycle::from_recommendations(vec![recommendation("branch")]).unwrap();
    assert_eq!(
        lifecycle.records()[0].status,
        RecommendationStatus::Proposed
    );
    assert!(lifecycle.mark_applied("students", "branch").is_err());
    lifecycle.accept("students", "branch").unwrap();
    lifecycle.mark_applied("students", "branch").unwrap();
    assert_eq!(lifecycle.records()[0].status, RecommendationStatus::Applied);
    assert!(lifecycle.accept("students", "missing").is_err());
}

#[test]
fn dismissal_is_terminal_and_duplicates_are_rejected() {
    let proposal = recommendation("branch");
    assert!(
        RecommendationLifecycle::from_recommendations(vec![proposal.clone(), proposal])
            .is_err()
    );
    let mut lifecycle =
        RecommendationLifecycle::from_recommendations(vec![recommendation("branch")]).unwrap();
    lifecycle.dismiss("students", "branch").unwrap();
    assert!(lifecycle.accept("students", "branch").is_err());
}

#[test]
fn evaluation_compares_baseline_with_indexed_window() {
    let mut lifecycle =
        RecommendationLifecycle::from_recommendations(vec![recommendation("branch")]).unwrap();
    lifecycle.accept("students", "branch").unwrap();
    lifecycle.mark_applied("students", "branch").unwrap();
    let report = analyze_workload(&indexed_events(3));
    let evaluation = lifecycle
        .evaluate("students", "branch", &report, EvaluationConfig::default())
        .unwrap();
    assert_eq!(
        (
            evaluation.baseline_average_examined,
            evaluation.observed_average_examined
        ),
        (100, 10)
    );
    assert_eq!(evaluation.examined_reduction_basis_points, 9_000);
    assert_eq!(evaluation.elapsed_reduction_basis_points, 7_500);
    assert_eq!(
        lifecycle.records()[0].status,
        RecommendationStatus::Evaluated
    );
    assert_eq!(lifecycle.records()[0].evaluation, Some(evaluation));
}

#[test]
fn evaluation_requires_enough_post_application_evidence() {
    let mut lifecycle =
        RecommendationLifecycle::from_recommendations(vec![recommendation("branch")]).unwrap();
    lifecycle.accept("students", "branch").unwrap();
    lifecycle.mark_applied("students", "branch").unwrap();
    let report = analyze_workload(&indexed_events(1));
    assert!(matches!(
        lifecycle.evaluate("students", "branch", &report, EvaluationConfig::default()),
        Err(NovaError::InvalidState(_))
    ));
    assert_eq!(lifecycle.records()[0].status, RecommendationStatus::Applied);
}

#[test]
fn impact_math_reports_regressions_and_handles_zero_baselines() {
    assert_eq!(reduction_basis_points(100, 200), -10_000);
    assert_eq!(reduction_basis_points(0, 10), 0);
}

#[test]
fn reduction_clamps_and_rounds_toward_zero() {
    assert_eq!(reduction_basis_points(3, 2), 3_333);
    assert_eq!(reduction_basis_points(3, 4), -3_333);
    assert_eq!(reduction_basis_points(1, u64::MAX), i32::MIN);
    assert_eq!(average(7, 2), 3);
    assert_eq!(average(7, 0), 0);
}

#[test]
fn refused_transitions_name_both_states() {
    let mut lifecycle =
        RecommendationLifecycle::from_recommendations(vec![recommendation("b"), recommendation("a")])
            .unwrap();
    assert_eq!(lifecycle.records()[0].recommendation.path, "a");
    assert_eq!(lifecycle.records()[1].recommendation.path, "b");
    match lifecycle.mark_applied("students", "a") {
        Err(NovaError::InvalidState(message)) => {
            assert_eq!(message, "cannot mark proposed recommendation as applied")
        }
        other => panic!("unexpected {other:?}"),
    }
    match lifecycle.accept("students", "zzz") {
        Err(NovaError::NotFound(message)) => assert_eq!(message, "recommendation for students.zzz"),
        other => panic!("unexpected {other:?}"),
    }
    assert_eq!(status_name(RecommendationStatus::Dismissed), "dismissed");
    assert!(matches!(
        lifecycle.evaluate("students", "a", &WorkloadReport::default(), EvaluationConfig { min_index_scans: 0 }),
        Err(NovaError::InvalidArgument(_))
    ));
}

#[test]
fn evaluation_without_post_application_telemetry_is_not_found() {
    let mut lifecycle =
        RecommendationLifecycle::from_recommendations(vec![recommendation("branch")]).unwrap();
    lifecycle.accept("students", "branch").unwrap();
    lifecycle.mark_applied("students", "branch").unwrap();
    assert!(matches!(
        lifecycle.evaluate("students", "branch", &WorkloadReport::default(), EvaluationConfig::default()),
        Err(NovaError::NotFound(_))
    ));
}

fn assistant_recommendation() -> IndexRecommendation {
    IndexRecommendation {
        collection: "students".to_owned(),
        path: "address.state".to_owned(),
        evidence: RecommendationEvidence {
            successful_executions: 3,
            collection_scans: 3,
            index_scans: 0,
            collection_scan_examined: 300,
            collection_scan_returned: 30,
            collection_scan_elapsed_micros: 600,
            return_ratio_basis_points: 1_000,
        },
    }
}

#[derive(Default)]
struct RecordingProvider {
    prompts: Mutex<Vec<String>>,
    output: String,
}

impl ExplanationProvider for RecordingProvider {
    fn explain(&self, prompt: &str) -> Result<String> {
        self.prompts.lock().unwrap().push(prompt.to_owned());
        Ok(self.output.clone())
    }
}

#[test]
fn deterministic_mode_needs_no_provider() {
    let explanation = explain_recommendation(
        &assistant_recommendation(),
        None,
        None,
        AssistantLimits::default(),
    )
    .unwrap();
    assert!(explanation.deterministic_summary.contains("300"));
    assert_eq!(
        explanation.suggested_novaql,
        "create index nie_students_address_state on students (address.state)"
    );
    assert_eq!(explanation.optional_narrative, None);
}

#[test]
fn provider_receives_grounded_aggregates_and_output_is_display_only() {
    let provider = RecordingProvider {
        prompts: Mutex::new(Vec::new()),
        output: "This field is selective; review the proposed index.".to_owned(),
    };
    let explanation = explain_recommendation(
        &assistant_recommendation(),
        None,
        Some(&provider),
        AssistantLimits::default(),
    )
    .unwrap();
    assert_eq!(
        explanation.optional_narrative.as_deref(),
        Some("This field is selective; review the proposed index.")
    );
    let prompts = provider.prompts.lock().unwrap();
    assert_eq!(prompts.len(), 1);
    assert!(prompts[0].contains("Collection scans: 3"));
    assert!(prompts[0].contains("Do not invent performance claims"));
}

#[test]
fn invalid_context_and_unbounded_outputs_are_rejected() {
    let mut invalid = assistant_recommendation();
    invalid.path = "address.state; drop collection students".to_owned();
    assert!(explain_recommendation(&invalid, None, None, AssistantLimits::default()).is_err());

    let provider = RecordingProvider {
        prompts: Mutex::new(Vec::new()),
        output: "too long".to_owned(),
    };
    assert!(explain_recommendation(
        &assistant_recommendation(),
        None,
        Some(&provider),
        AssistantLimits {
            max_schema_bytes: 1_024,
            max_output_bytes: 3,
        }
    )
    .is_err());
}

#[test]
fn summary_and_prompt_text_are_exact() {
    let rec = assistant_recommendation();
    let explanation =
        explain_recommendation(&rec, None, None, AssistantLimits::default()).unwrap();
    assert_eq!(
        explanation.deterministic_summary,
        "3 collection scans examined 300 documents and returned 30 for students.address.state (1000 basis points)."
    );
    let prompt = grounded_prompt(&rec, None, &suggested_novaql(&rec));
    assert!(prompt.ends_with(
        "Suggested NovaQL: create index nie_students_address_state on students (address.state). No post-application evaluation is available."
    ));
    let mut mixed = rec.clone();
    mixed.collection = "Students2".to_owned();
    assert_eq!(
        suggested_novaql(&mixed),
        "create index nie_students2_address_state on Students2 (address.state)"
    );
}

#[test]
fn blank_provider_output_and_bad_identifiers_are_rejected() {
    let provider = RecordingProvider {
        prompts: Mutex::new(Vec::new()),
        output: " \n\t ".to_owned(),
    };
    assert!(matches!(
        explain_recommendation(
            &assistant_recommendation(),
            None,
            Some(&provider),
            AssistantLimits::default()
        ),
        Err(NovaError::InvalidArgument(_))
    ));
    assert!(valid_identifier("snake_case_9"));
    assert!(!valid_identifier(""));
    assert!(!valid_identifier("a-b"));
    let mut dotted = assistant_recommendation();
    dotted.path = "a..b".to_owned();
    assert!(explain_recommendation(&dotted, None, None, AssistantLimits::default()).is_err());
    assert!(explain_recommendation(
        &assistant_recommendation(),
        None,
        None,
        AssistantLimits {
            max_schema_bytes: 0,
            max_output_bytes: 1
        }
    )
    .is_err());
}
