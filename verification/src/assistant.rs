//! The recommendation assistant: a grounded, deterministic explanation of an
//! index recommendation, with optional display-only prose from an injected
//! provider. Provider output is bounded and never parsed or executed.
use vstd::prelude::*;

use crate::advisor::IndexRecommendation;
use crate::error::{NovaError, Result};
use crate::lifecycle::ImpactEvaluation;
use crate::text::{
    chars_of, decimal, is_alphanumeric, is_whitespace, push_char, push_decimal, push_str,
    unicode_alphanumeric, unicode_whitespace, utf8_bytes,
};

verus! {

/// Runtime limits for the optional explanation provider boundary.
#[derive(Debug, Clone, Copy, PartialEq, Eq)]
pub struct AssistantLimits {
    pub max_schema_bytes: usize,
    pub max_output_bytes: usize,
}

impl Default for AssistantLimits {
    fn default() -> (r: Self)
        ensures
            r.max_schema_bytes == 1_024,
            r.max_output_bytes == 4_096,
    {
        AssistantLimits { max_schema_bytes: 1_024, max_output_bytes: 4_096 }
    }
}

/// Injected optional language-model or other narrative provider.
pub trait ExplanationProvider {
    /// Returns display-only prose for a grounded prompt; provider failures
    /// are returned as typed errors.
    fn explain(&self, prompt: &str) -> Result<String>;
}

/// Grounded output whose optional narrative is never executable.
#[derive(Debug, Clone, PartialEq, Eq)]
pub struct AssistantExplanation {
    pub deterministic_summary: String,
    pub suggested_novaql: String,
    pub optional_narrative: Option<String>,
}

/// Both limits are positive.
pub open spec fn limits_valid(limits: AssistantLimits) -> bool {
    limits.max_schema_bytes > 0 && limits.max_output_bytes > 0
}

/// A schema identifier: non-empty, made of `_` and alphanumeric characters.
pub open spec fn identifier_ok(s: Seq<char>) -> bool {
    s.len() > 0 && forall|i: int| 0 <= i < s.len() ==> #[trigger] s[i] == '_' || unicode_alphanumeric(s[i])
}

/// A dotted path whose every `.`-separated segment is an identifier.
pub open spec fn dotted_path_ok(s: Seq<char>) -> bool {
    &&& s.len() > 0
    &&& s[0] != '.'
    &&& s.last() != '.'
    &&& forall|i: int| 0 <= i < s.len() - 1 && #[trigger] s[i] == '.' ==> s[i + 1] != '.'
    &&& forall|i: int| 0 <= i < s.len() ==> #[trigger] s[i] == '.' || s[i] == '_' || unicode_alphanumeric(s[i])
}

/// The UTF-8 size of the schema context, saturated at `usize::MAX`.
pub open spec fn schema_bytes(r: IndexRecommendation) -> int {
    let n = (utf8_bytes(r.collection@).len() as usize) + (utf8_bytes(r.path@).len() as usize);
    if n > usize::MAX {
        usize::MAX as int
    } else {
        n
    }
}

/// The recommendation's schema context fits and names only identifiers.
pub open spec fn schema_ok(r: IndexRecommendation, max_bytes: usize) -> bool {
    &&& schema_bytes(r) <= max_bytes
    &&& identifier_ok(r.collection@)
    &&& dotted_path_ok(r.path@)
}

/// The deterministic summary of a recommendation and its evaluation.
pub open spec fn summary_text(r: IndexRecommendation, e: Option<ImpactEvaluation>) -> Seq<char> {
    let ev = r.evidence;
    let base = decimal(ev.collection_scans as nat) + " collection scans examined "@ + decimal(
        ev.collection_scan_examined as nat,
    ) + " documents and returned "@ + decimal(ev.collection_scan_returned as nat) + " for "@
        + r.collection@ + "."@ + r.path@ + " ("@ + decimal(ev.return_ratio_basis_points as nat)
        + " basis points)."@;
    match e {
        None => base,
        Some(x) => base + " After indexing, "@ + decimal(x.observed_index_scans as nat)
            + " observations changed average examined documents from "@ + decimal(
            x.baseline_average_examined as nat,
        ) + " to "@ + decimal(x.observed_average_examined as nat)
            + " and average elapsed time from "@ + decimal(x.baseline_average_elapsed_micros as nat)
            + " to "@ + decimal(x.observed_average_elapsed_micros as nat) + " microseconds."@,
    }
}

/// ASCII letters and digits.
pub open spec fn ascii_alphanumeric(c: char) -> bool {
    ('0' <= c && c <= '9') || ('a' <= c && c <= 'z') || ('A' <= c && c <= 'Z')
}

/// The character of an index name: lower-cased ASCII letters and digits,
/// `_` for anything else.
pub open spec fn name_char(c: char) -> char {
    if 'A' <= c && c <= 'Z' {
        ((c as u32) + 32) as char
    } else if ascii_alphanumeric(c) {
        c
    } else {
        '_'
    }
}

/// The suggested statement that would create the recommended index.
pub open spec fn novaql_text(r: IndexRecommendation) -> Seq<char> {
    "create index nie_"@ + (r.collection@ + seq!['_'] + r.path@).map_values(|c: char| name_char(c))
        + " on "@ + r.collection@ + " ("@ + r.path@ + ")"@
}

/// The evaluation facts of a grounded prompt.
pub open spec fn evaluation_facts(e: Option<ImpactEvaluation>) -> Seq<char> {
    match e {
        None => "No post-application evaluation is available."@,
        Some(x) => "Post-index observations: "@ + decimal(x.observed_index_scans as nat)
            + "; average examined: "@ + decimal(x.baseline_average_examined as nat) + " -> "@
            + decimal(x.observed_average_examined as nat) + "; average elapsed microseconds: "@
            + decimal(x.baseline_average_elapsed_micros as nat) + " -> "@ + decimal(
            x.observed_average_elapsed_micros as nat,
        ) + "."@,
    }
}

/// The prompt a provider receives: schema names and aggregates only.
pub open spec fn prompt_text(r: IndexRecommendation, e: Option<ImpactEvaluation>, novaql: Seq<char>) -> Seq<char> {
    let ev = r.evidence;
    "Explain this advisory NovaDB index recommendation using only the supplied facts. Do not invent performance claims and do not issue instructions to execute automatically. Collection: "@
        + r.collection@ + ". Path: "@ + r.path@ + ". Collection scans: "@ + decimal(
        ev.collection_scans as nat,
    ) + ". Examined: "@ + decimal(ev.collection_scan_examined as nat) + ". Returned: "@ + decimal(
        ev.collection_scan_returned as nat,
    ) + ". Return ratio basis points: "@ + decimal(ev.return_ratio_basis_points as nat)
        + ". Suggested NovaQL: "@ + novaql + ". "@ + evaluation_facts(e)
}

/// Provider output that is kept: not blank and within the byte limit.
pub open spec fn narrative_ok(s: Seq<char>, max_bytes: usize) -> bool {
    &&& exists|i: int| 0 <= i < s.len() && !unicode_whitespace(#[trigger] s[i])
    &&& (utf8_bytes(s).len() as usize) <= max_bytes
}

/// Checks that both limits are positive.
pub fn validate_limits(limits: AssistantLimits) -> (r: Result<()>)
    ensures
        r is Ok <==> limits_valid(limits),
        r matches Err(e) ==> e is InvalidArgument,
{
    if limits.max_schema_bytes == 0 || limits.max_output_bytes == 0 {
        return Err(NovaError::InvalidArgument("assistant limits must be greater than zero".to_owned()));
    }
    Ok(())
}

/// Whether `value` is a schema identifier.
pub fn valid_identifier(value: &str) -> (r: bool)
    ensures
        r == identifier_ok(value@),
{
    let chars = chars_of(value);
    if chars.len() == 0 {
        return false;
    }
    let mut i: usize = 0;
    while i < chars.len()
        invariant
            i <= chars@.len(),
            chars@ == value@,
            forall|j: int| 0 <= j < i ==> #[trigger] chars@[j] == '_' || unicode_alphanumeric(chars@[j]),
        decreases chars.len() - i,
    {
        let c = chars[i];
        if !(c == '_' || is_alphanumeric(c)) {
            return false;
        }
        i = i + 1;
    }
    true
}

/// Whether every `.`-separated segment of `path` is a schema identifier.
fn valid_dotted_path(path: &str) -> (r: bool)
    ensures
        r == dotted_path_ok(path@),
{
    let chars = chars_of(path);
    let n = chars.len();
    if n == 0 || chars[0] == '.' || chars[n - 1] == '.' {
        return false;
    }
    let mut i: usize = 0;
    while i < n
        invariant
            i <= n,
            n == chars@.len(),
            chars@ == path@,
            forall|j: int| 0 <= j < i && j < n - 1 && #[trigger] chars@[j] == '.' ==> chars@[j + 1] != '.',
            forall|j: int| 0 <= j < i ==> #[trigger] chars@[j] == '.' || chars@[j] == '_' || unicode_alphanumeric(chars@[j]),
        decreases n - i,
    {
        let c = chars[i];
        if c == '.' {
            if i + 1 < n && chars[i + 1] == '.' {
                return false;
            }
        } else if !(c == '_' || is_alphanumeric(c)) {
            return false;
        }
        i = i + 1;
    }
    true
}

/// Checks the size and the identifiers of a recommendation's schema context.
pub fn validate_schema(recommendation: &IndexRecommendation, max_bytes: usize) -> (r: Result<()>)
    ensures
        r is Ok <==> schema_ok(*recommendation, max_bytes),
        r matches Err(e) ==> e is InvalidArgument,
{
    let bytes = recommendation.collection.as_str().len().saturating_add(recommendation.path.as_str().len());
    if bytes > max_bytes {
        let mut message = String::new();
        push_str(&mut message, "assistant schema context exceeds ");
        push_decimal(&mut message, max_bytes as u128);
        push_str(&mut message, " bytes");
        return Err(NovaError::InvalidArgument(message));
    }
    if !valid_identifier(recommendation.collection.as_str()) || !valid_dotted_path(recommendation.path.as_str()) {
        return Err(NovaError::InvalidArgument("assistant recommendation contains an invalid schema identifier".to_owned()));
    }
    Ok(())
}

/// The deterministic summary of a recommendation and, when there is one, of
/// its evaluation.
pub fn deterministic_summary(recommendation: &IndexRecommendation, evaluation: Option<&ImpactEvaluation>) -> (r: String)
    ensures
        r@ == summary_text(*recommendation, match evaluation {
            Some(x) => Some(*x),
            None => None,
        }),
{
    let ev = recommendation.evidence;
    let mut out = String::new();
    push_decimal(&mut out, ev.collection_scans as u128);
    push_str(&mut out, " collection scans examined ");
    push_decimal(&mut out, ev.collection_scan_examined as u128);
    push_str(&mut out, " documents and returned ");
    push_decimal(&mut out, ev.collection_scan_returned as u128);
    push_str(&mut out, " for ");
    push_str(&mut out, recommendation.collection.as_str());
    push_str(&mut out, ".");
    push_str(&mut out, recommendation.path.as_str());
    push_str(&mut out, " (");
    push_decimal(&mut out, ev.return_ratio_basis_points as u128);
    push_str(&mut out, " basis points).");
    if let Some(x) = evaluation {
        push_str(&mut out, " After indexing, ");
        push_decimal(&mut out, x.observed_index_scans as u128);
        push_str(&mut out, " observations changed average examined documents from ");
        push_decimal(&mut out, x.baseline_average_examined as u128);
        push_str(&mut out, " to ");
        push_decimal(&mut out, x.observed_average_examined as u128);
        push_str(&mut out, " and average elapsed time from ");
        push_decimal(&mut out, x.baseline_average_elapsed_micros as u128);
        push_str(&mut out, " to ");
        push_decimal(&mut out, x.observed_average_elapsed_micros as u128);
        push_str(&mut out, " microseconds.");
    }
    out
}

/// The character of an index name.
fn index_name_char(c: char) -> (r: char)
    ensures
        r == name_char(c),
{
    if 'A' <= c && c <= 'Z' {
        let lower: u8 = (c as u8) + 32;
        lower as char
    } else if ('0' <= c && c <= '9') || ('a' <= c && c <= 'z') {
        c
    } else {
        '_'
    }
}

/// The suggested statement that creates the recommended index, named
/// `nie_` and the lower-cased collection and path.
pub fn suggested_novaql(recommendation: &IndexRecommendation) -> (r: String)
    ensures
        r@ == novaql_text(*recommendation),
{
    let mut source: Vec<char> = chars_of(recommendation.collection.as_str());
    source.push('_');
    let mut tail = chars_of(recommendation.path.as_str());
    source.append(&mut tail);
    let ghost src = recommendation.collection@ + seq!['_'] + recommendation.path@;
    assert(source@ =~= src);
    let mut out = String::new();
    push_str(&mut out, "create index nie_");
    let ghost head = out@;
    let mut i: usize = 0;
    while i < source.len()
        invariant
            i <= source@.len(),
            source@ == src,
            out@ == head + src.take(i as int).map_values(|c: char| name_char(c)),
        decreases source.len() - i,
    {
        push_char(&mut out, index_name_char(source[i]));
        proof {
            assert(src.take(i as int + 1).map_values(|c: char| name_char(c)) =~= src.take(i as int).map_values(|c: char| name_char(c)).push(name_char(src[i as int])));
        }
        i = i + 1;
    }
    assert(src.take(i as int) =~= src);
    push_str(&mut out, " on ");
    push_str(&mut out, recommendation.collection.as_str());
    push_str(&mut out, " (");
    push_str(&mut out, recommendation.path.as_str());
    push_str(&mut out, ")");
    out
}

/// The prompt a provider receives.
pub fn grounded_prompt(
    recommendation: &IndexRecommendation,
    evaluation: Option<&ImpactEvaluation>,
    suggested_novaql: &str,
) -> (r: String)
    ensures
        r@ == prompt_text(*recommendation, match evaluation {
            Some(x) => Some(*x),
            None => None,
        }, suggested_novaql@),
{
    let ev = recommendation.evidence;
    let mut out = String::new();
    push_str(&mut out, "Explain this advisory NovaDB index recommendation using only the supplied facts. Do not invent performance claims and do not issue instructions to execute automatically. Collection: ");
    push_str(&mut out, recommendation.collection.as_str());
    push_str(&mut out, ". Path: ");
    push_str(&mut out, recommendation.path.as_str());
    push_str(&mut out, ". Collection scans: ");
    push_decimal(&mut out, ev.collection_scans as u128);
    push_str(&mut out, ". Examined: ");
    push_decimal(&mut out, ev.collection_scan_examined as u128);
    push_str(&mut out, ". Returned: ");
    push_decimal(&mut out, ev.collection_scan_returned as u128);
    push_str(&mut out, ". Return ratio basis points: ");
    push_decimal(&mut out, ev.return_ratio_basis_points as u128);
    push_str(&mut out, ". Suggested NovaQL: ");
    push_str(&mut out, suggested_novaql);
    push_str(&mut out, ". ");
    match evaluation {
        None => {
            push_str(&mut out, "No post-application evaluation is available.");
        },
        Some(x) => {
            push_str(&mut out, "Post-index observations: ");
            push_decimal(&mut out, x.observed_index_scans as u128);
            push_str(&mut out, "; average examined: ");
            push_decimal(&mut out, x.baseline_average_examined as u128);
            push_str(&mut out, " -> ");
            push_decimal(&mut out, x.observed_average_examined as u128);
            push_str(&mut out, "; average elapsed microseconds: ");
            push_decimal(&mut out, x.baseline_average_elapsed_micros as u128);
            push_str(&mut out, " -> ");
            push_decimal(&mut out, x.observed_average_elapsed_micros as u128);
            push_str(&mut out, ".");
        },
    }
    out
}

/// Keeps a provider's answer as display-only prose when it is not blank and
/// fits the output limit; a provider error passes through unchanged.
pub fn accept_narrative(output: Result<String>, limits: AssistantLimits) -> (r: Result<String>)
    ensures
        match output {
            Err(_) => r == output,
            Ok(s) => {
                &&& r is Ok <==> narrative_ok(s@, limits.max_output_bytes)
                &&& r matches Ok(t) ==> t@ == s@
                &&& r matches Err(e) ==> e is InvalidArgument
            },
        },
{
    let s = match output {
        Err(e) => {
            return Err(e);
        },
        Ok(s) => s,
    };
    let chars = chars_of(s.as_str());
    let mut blank = true;
    let mut i: usize = 0;
    while i < chars.len()
        invariant
            i <= chars@.len(),
            chars@ == s@,
            blank <==> forall|j: int| 0 <= j < i ==> unicode_whitespace(#[trigger] chars@[j]),
        decreases chars.len() - i,
    {
        if !is_whitespace(chars[i]) {
            blank = false;
        }
        i = i + 1;
    }
    if blank {
        return Err(NovaError::InvalidArgument("assistant output cannot be empty".to_owned()));
    }
    if s.as_str().len() > limits.max_output_bytes {
        let mut message = String::new();
        push_str(&mut message, "assistant output exceeds ");
        push_decimal(&mut message, limits.max_output_bytes as u128);
        push_str(&mut message, " bytes");
        return Err(NovaError::InvalidArgument(message));
    }
    Ok(s)
}

/// Builds a grounded recommendation explanation, optionally adding provider
/// prose.
///
/// The provider receives schema names and aggregate evidence only (the text
/// of [`grounded_prompt`]). Its output is kept as display-only text when
/// [`accept_narrative`] keeps it. Invalid limits and unsafe schema names are
/// `InvalidArgument` errors, found before any provider is asked.
pub fn explain_recommendation(
    recommendation: &IndexRecommendation,
    evaluation: Option<&ImpactEvaluation>,
    provider: Option<&dyn ExplanationProvider>,
    limits: AssistantLimits,
) -> (r: Result<AssistantExplanation>)
    ensures
        !limits_valid(limits) ==> (r matches Err(e) && e is InvalidArgument),
        limits_valid(limits) && !schema_ok(*recommendation, limits.max_schema_bytes) ==> (r matches Err(e)
            && e is InvalidArgument),
        limits_valid(limits) && schema_ok(*recommendation, limits.max_schema_bytes) && provider is None
            ==> r is Ok,
        r matches Ok(x) ==> {
            &&& limits_valid(limits)
            &&& schema_ok(*recommendation, limits.max_schema_bytes)
            &&& x.deterministic_summary@ == summary_text(*recommendation, match evaluation {
                Some(e) => Some(*e),
                None => None,
            })
            &&& x.suggested_novaql@ == novaql_text(*recommendation)
            &&& provider is None ==> x.optional_narrative is None
            &&& provider is Some ==> (x.optional_narrative matches Some(n) && narrative_ok(n@, limits.max_output_bytes))
        },
{
    match validate_limits(limits) {
        Ok(()) => {},
        Err(e) => {
            return Err(e);
        },
    }
    match validate_schema(recommendation, limits.max_schema_bytes) {
        Ok(()) => {},
        Err(e) => {
            return Err(e);
        },
    }
    let deterministic_summary = deterministic_summary(recommendation, evaluation);
    let suggested_novaql = suggested_novaql(recommendation);
    let optional_narrative = match provider {
        Some(p) => {
            let prompt = grounded_prompt(recommendation, evaluation, suggested_novaql.as_str());
            let output = p.explain(prompt.as_str());
            match accept_narrative(output, limits) {
                Ok(s) => Some(s),
                Err(e) => {
                    return Err(e);
                },
            }
        },
        None => None,
    };
    Ok(AssistantExplanation { deterministic_summary, suggested_novaql, optional_narrative })
}

} // verus!
