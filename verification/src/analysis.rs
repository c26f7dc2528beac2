//! Deterministic workload analysis: aggregates a telemetry snapshot into
//! global totals and per-shape, per-path and per-candidate evidence.
use vstd::prelude::*;

use crate::telemetry::{
    events_view, opt_view, strings_view, AccessView, EventView, TelemetryAccess, TelemetryEvent,
};
use crate::text::{compare_str, str_eq, lemma_seq_order_antisym, lemma_seq_order_trans, lemma_str_order_zero, str_order, utf8_bytes};

verus! {

/// Deterministic aggregate of a telemetry snapshot.
#[derive(Debug, Clone, Default, PartialEq, Eq)]
pub struct WorkloadReport {
    pub total_events: u64,
    pub successful_events: u64,
    pub failed_events: u64,
    pub command_executions: u64,
    pub collection_scans: u64,
    pub index_scans: u64,
    pub total_examined: u64,
    pub total_returned: u64,
    pub total_elapsed_micros: u64,
    pub fingerprints: Vec<FingerprintStats>,
    pub predicate_paths: Vec<PredicatePathStats>,
    pub index_candidates: Vec<IndexCandidateStats>,
}

/// Aggregate for one collection and literal-free query shape.
#[derive(Debug, Clone, Default, PartialEq, Eq)]
pub struct FingerprintStats {
    pub collection: Option<String>,
    pub fingerprint: String,
    pub successful_executions: u64,
    pub failed_executions: u64,
    pub collection_scans: u64,
    pub index_scans: u64,
    pub total_examined: u64,
    pub total_returned: u64,
    pub total_elapsed_micros: u64,
}

/// Aggregate for one predicate path within a collection.
///
/// Successful metrics are copied to every distinct predicate path observed in
/// an event; they describe per-path evidence and must not be summed across
/// paths.
#[derive(Debug, Clone, Default, PartialEq, Eq)]
pub struct PredicatePathStats {
    pub collection: String,
    pub path: String,
    pub successful_executions: u64,
    pub failed_executions: u64,
    pub collection_scans: u64,
    pub index_scans: u64,
    pub total_examined: u64,
    pub total_returned: u64,
    pub total_elapsed_micros: u64,
}

/// Aggregate for one planner-usable equality path within a collection.
#[derive(Debug, Clone, Default, PartialEq, Eq)]
pub struct IndexCandidateStats {
    pub collection: String,
    pub path: String,
    pub successful_executions: u64,
    pub failed_executions: u64,
    pub collection_scans: u64,
    pub index_scans: u64,
    pub collection_scan_examined: u64,
    pub collection_scan_returned: u64,
    pub collection_scan_elapsed_micros: u64,
    pub index_scan_examined: u64,
    pub index_scan_elapsed_micros: u64,
}

/// `n` saturated at `u64::MAX`.
pub open spec fn sat(n: int) -> u64 {
    if n >= u64::MAX {
        u64::MAX
    } else {
        n as u64
    }
}

/// The events a figure is taken over.
pub enum Group {
    /// Every event.
    All,
    /// Events of one collection (or none) and query shape.
    Shape(Option<String>, String),
    /// Events on a collection that mention a predicate path.
    Path(String, String),
    /// Events on a collection that mention a planner-usable equality path.
    Candidate(String, String),
}

/// The abstract value of a [`Group`].
pub enum GroupView {
    All,
    Shape(Option<Seq<char>>, Seq<char>),
    Path(Seq<char>, Seq<char>),
    Candidate(Seq<char>, Seq<char>),
}

impl View for Group {
    type V = GroupView;

    open spec fn view(&self) -> GroupView {
        match self {
            Group::All => GroupView::All,
            Group::Shape(c, f) => GroupView::Shape(opt_view(*c), f@),
            Group::Path(c, p) => GroupView::Path(c@, p@),
            Group::Candidate(c, p) => GroupView::Candidate(c@, p@),
        }
    }
}

/// Which events of a group a figure counts.
#[derive(Clone, Copy)]
pub enum Filter {
    Any,
    Succeeded,
    Failed,
    Command,
    CollectionScan,
    IndexScan,
    SucceededCollectionScan,
    SucceededIndexScan,
}

/// What a figure adds up for each counted event.
#[derive(Clone, Copy)]
pub enum Metric {
    One,
    Examined,
    Returned,
    Elapsed,
}

/// Whether an event belongs to a group.
pub open spec fn in_group(e: EventView, g: GroupView) -> bool {
    match g {
        GroupView::All => true,
        GroupView::Shape(c, f) => e.collection == c && e.fingerprint == f,
        GroupView::Path(c, p) => e.collection == Some(c) && e.predicate_paths.contains(p),
        GroupView::Candidate(c, p) => e.collection == Some(c) && e.index_candidate_paths.contains(p),
    }
}

/// Whether an event passes a filter.
pub open spec fn passes(e: EventView, f: Filter) -> bool {
    match f {
        Filter::Any => true,
        Filter::Succeeded => e.succeeded,
        Filter::Failed => !e.succeeded,
        Filter::Command => e.access is Command,
        Filter::CollectionScan => e.access is CollectionScan,
        Filter::IndexScan => e.access is IndexScan,
        Filter::SucceededCollectionScan => e.succeeded && e.access is CollectionScan,
        Filter::SucceededIndexScan => e.succeeded && e.access is IndexScan,
    }
}

/// The amount an event contributes to a metric.
pub open spec fn amount(e: EventView, m: Metric) -> nat {
    match m {
        Metric::One => 1,
        Metric::Examined => e.examined as nat,
        Metric::Returned => e.returned as nat,
        Metric::Elapsed => e.elapsed_micros as nat,
    }
}

/// The exact (unsaturated) sum of `m` over the events of `g` that pass `f`.
pub open spec fn figure(s: Seq<EventView>, g: GroupView, f: Filter, m: Metric) -> nat
    decreases s.len(),
{
    if s.len() == 0 {
        0
    } else {
        figure(s.drop_last(), g, f, m) + if in_group(s.last(), g) && passes(s.last(), f) {
            amount(s.last(), m)
        } else {
            0nat
        }
    }
}

/// A grouping key: an optional collection and a name.
pub type KeyView = (Option<Seq<char>>, Seq<char>);

/// Order of optional names: absent first, then by UTF-8 bytes.
pub open spec fn opt_order(a: Option<Seq<char>>, b: Option<Seq<char>>) -> int {
    match (a, b) {
        (None, None) => 0,
        (None, Some(_)) => -1,
        (Some(_), None) => 1,
        (Some(x), Some(y)) => str_order(x, y),
    }
}

/// Order of grouping keys: by collection, then by name.
pub open spec fn key_order(a: KeyView, b: KeyView) -> int {
    let c = opt_order(a.0, b.0);
    if c != 0 {
        c
    } else {
        str_order(a.1, b.1)
    }
}

pub proof fn lemma_key_order(a: KeyView, b: KeyView)
    ensures
        key_order(a, b) == -key_order(b, a),
        -1 <= key_order(a, b) <= 1,
        (key_order(a, b) == 0) == (a == b),
{
    match (a.0, b.0) {
        (Some(x), Some(y)) => {
            lemma_seq_order_antisym(utf8_bytes(x), utf8_bytes(y));
            lemma_str_order_zero(x, y);
        },
        _ => {},
    }
    lemma_seq_order_antisym(utf8_bytes(a.1), utf8_bytes(b.1));
    lemma_str_order_zero(a.1, b.1);
}

pub proof fn lemma_key_order_trans(a: KeyView, b: KeyView, c: KeyView)
    requires
        key_order(a, b) < 0,
        key_order(b, c) < 0,
    ensures
        key_order(a, c) < 0,
{
    lemma_key_order(a, b);
    lemma_key_order(b, c);
    lemma_key_order(a, c);
    match (a.0, b.0, c.0) {
        (Some(x), Some(y), Some(z)) => {
            lemma_seq_order_antisym(utf8_bytes(x), utf8_bytes(y));
            lemma_seq_order_antisym(utf8_bytes(y), utf8_bytes(z));
            lemma_str_order_zero(x, y);
            lemma_str_order_zero(y, z);
            if opt_order(a.0, b.0) < 0 && opt_order(b.0, c.0) < 0 {
                lemma_seq_order_trans(utf8_bytes(x), utf8_bytes(y), utf8_bytes(z));
            }
        },
        _ => {},
    }
    if a.0 == b.0 && b.0 == c.0 {
        lemma_seq_order_trans(utf8_bytes(a.1), utf8_bytes(b.1), utf8_bytes(c.1));
    }
}

/// Keys in strictly increasing order.
pub open spec fn keys_sorted(keys: Seq<KeyView>) -> bool {
    forall|i: int, j: int| 0 <= i < j < keys.len() ==> key_order(keys[i], keys[j]) < 0
}

/// The view of a concrete key.
pub open spec fn key_view(k: (Option<String>, String)) -> KeyView {
    (opt_view(k.0), k.1@)
}

/// The views of concrete keys.
pub open spec fn keys_view(v: Seq<(Option<String>, String)>) -> Seq<KeyView> {
    v.map_values(|k: (Option<String>, String)| key_view(k))
}

fn compare_opt(a: &Option<String>, b: &Option<String>) -> (r: i8)
    ensures
        r as int == opt_order(opt_view(*a), opt_view(*b)),
{
    match (a, b) {
        (None, None) => 0,
        (None, Some(_)) => -1,
        (Some(_), None) => 1,
        (Some(x), Some(y)) => compare_str(x.as_str(), y.as_str()),
    }
}

fn compare_key(a: &(Option<String>, String), b: &(Option<String>, String)) -> (r: i8)
    ensures
        r as int == key_order(key_view(*a), key_view(*b)),
{
    let c = compare_opt(&a.0, &b.0);
    if c != 0 {
        c
    } else {
        compare_str(a.1.as_str(), b.1.as_str())
    }
}

fn clone_key(k: &(Option<String>, String)) -> (r: (Option<String>, String))
    ensures
        key_view(r) == key_view(*k),
{
    let c = match &k.0 {
        Some(s) => Some(s.clone()),
        None => None,
    };
    (c, k.1.clone())
}

/// Adds `key` to a strictly sorted key list unless it is already there.
fn insert_key(keys: &mut Vec<(Option<String>, String)>, key: (Option<String>, String))
    requires
        keys_sorted(keys_view(old(keys)@)),
    ensures
        keys_sorted(keys_view(final(keys)@)),
        forall|k: KeyView|
            keys_view(final(keys)@).contains(k) <==> (keys_view(old(keys)@).contains(k) || k
                == key_view(key)),
{
    let ghost kv = key_view(key);
    let ghost old_keys = keys_view(keys@);
    let mut i: usize = 0;
    while i < keys.len() && compare_key(&keys[i], &key) < 0
        invariant
            i <= keys@.len(),
            keys_view(keys@) == old_keys,
            kv == key_view(key),
            forall|j: int| 0 <= j < i ==> key_order(#[trigger] old_keys[j], kv) < 0,
        decreases keys@.len() - i,
    {
        i = i + 1;
    }
    if i < keys.len() && compare_key(&keys[i], &key) == 0 {
        proof {
            lemma_key_order(old_keys[i as int], kv);
            assert(old_keys[i as int] == kv);
        }
        return;
    }
    proof {
        if i < keys@.len() {
            lemma_key_order(old_keys[i as int], kv);
        }
    }
    keys.insert(i, key);
    proof {
        let nk = keys_view(keys@);
        assert(nk =~= old_keys.insert(i as int, kv));
        assert forall|a: int, b: int| 0 <= a < b < nk.len() implies key_order(nk[a], nk[b]) < 0 by {
            if b < i {
            } else if b == i {
            } else if a < i {
                if a + 1 < i + 1 && b - 1 >= i {
                    assert(key_order(kv, old_keys[b - 1]) < 0) by {
                        if b - 1 > i {
                            lemma_key_order_trans(kv, old_keys[i as int], old_keys[b - 1]);
                        }
                    }
                    lemma_key_order_trans(old_keys[a], kv, old_keys[b - 1]);
                }
            } else if a == i {
                if b - 1 > i {
                    lemma_key_order_trans(kv, old_keys[i as int], old_keys[b - 1]);
                }
            } else {
            }
        }
        assert forall|k: KeyView| nk.contains(k) <==> (old_keys.contains(k) || k == kv) by {
            if nk.contains(k) {
                let x = choose|x: int| 0 <= x < nk.len() && nk[x] == k;
                if x < i {
                    assert(old_keys[x] == k);
                } else if x > i {
                    assert(old_keys[x - 1] == k);
                }
            }
            if old_keys.contains(k) {
                let x = choose|x: int| 0 <= x < old_keys.len() && old_keys[x] == k;
                if x < i {
                    assert(nk[x] == k);
                } else {
                    assert(nk[x + 1] == k);
                }
            }
            if k == kv {
                assert(nk[i as int] == k);
            }
        }
    }
}

/// Whether `v` holds a string equal to `p`.
fn contains_str(v: &Vec<String>, p: &String) -> (r: bool)
    ensures
        r == strings_view(v@).contains(p@),
{
    let ghost sv = strings_view(v@);
    let mut i: usize = 0;
    while i < v.len()
        invariant
            i <= v@.len(),
            sv == strings_view(v@),
            forall|j: int| 0 <= j < i ==> sv[j] != p@,
        decreases v.len() - i,
    {
        if str_eq(v[i].as_str(), p.as_str()) {
            assert(sv[i as int] == p@);
            return true;
        }
        i = i + 1;
    }
    proof {
        if sv.contains(p@) {
            let j = choose|j: int| 0 <= j < sv.len() && sv[j] == p@;
            assert(sv[j] != p@);
        }
    }
    false
}

/// Whether two optional strings are equal.
fn opt_eq(a: &Option<String>, b: &Option<String>) -> (r: bool)
    ensures
        r == (opt_view(*a) == opt_view(*b)),
{
    match (a, b) {
        (None, None) => true,
        (Some(x), Some(y)) => str_eq(x.as_str(), y.as_str()),
        _ => false,
    }
}

/// A copy of an optional string.
fn clone_opt(a: &Option<String>) -> (r: Option<String>)
    ensures
        opt_view(r) == opt_view(*a),
{
    match a {
        Some(s) => Some(s.clone()),
        None => None,
    }
}

fn event_in_group(e: &TelemetryEvent, g: &Group) -> (r: bool)
    ensures
        r == in_group(e@, g@),
{
    match g {
        Group::All => true,
        Group::Shape(c, f) => opt_eq(&e.collection, c) && str_eq(e.fingerprint.as_str(), f.as_str()),
        Group::Path(c, p) => match &e.collection {
            Some(ec) => str_eq(ec.as_str(), c.as_str()) && contains_str(&e.predicate_paths, p),
            None => false,
        },
        Group::Candidate(c, p) => match &e.collection {
            Some(ec) => str_eq(ec.as_str(), c.as_str()) && contains_str(&e.index_candidate_paths, p),
            None => false,
        },
    }
}

fn event_passes(e: &TelemetryEvent, f: Filter) -> (r: bool)
    ensures
        r == passes(e@, f),
{
    let scan = match &e.access {
        TelemetryAccess::CollectionScan => true,
        _ => false,
    };
    let indexed = match &e.access {
        TelemetryAccess::IndexScan { .. } => true,
        _ => false,
    };
    let command = match &e.access {
        TelemetryAccess::Command => true,
        _ => false,
    };
    match f {
        Filter::Any => true,
        Filter::Succeeded => e.succeeded,
        Filter::Failed => !e.succeeded,
        Filter::Command => command,
        Filter::CollectionScan => scan,
        Filter::IndexScan => indexed,
        Filter::SucceededCollectionScan => e.succeeded && scan,
        Filter::SucceededIndexScan => e.succeeded && indexed,
    }
}

fn event_amount(e: &TelemetryEvent, m: Metric) -> (r: u64)
    ensures
        r == amount(e@, m),
{
    match m {
        Metric::One => 1,
        Metric::Examined => e.examined as u64,
        Metric::Returned => e.returned as u64,
        Metric::Elapsed => e.elapsed_micros,
    }
}

/// The figure of `m` over the events of `g` that pass `f`, saturated at
/// `u64::MAX`.
fn tally(events: &[TelemetryEvent], g: &Group, f: Filter, m: Metric) -> (r: u64)
    ensures
        r == sat(figure(events_view(events@), g@, f, m) as int),
{
    let ghost s = events_view(events@);
    let mut acc: u64 = 0;
    let mut i: usize = 0;
    while i < events.len()
        invariant
            i <= events@.len(),
            s == events_view(events@),
            acc == sat(figure(s.take(i as int), g@, f, m) as int),
        decreases events.len() - i,
    {
        let e = &events[i];
        proof {
            assert(s.take(i as int + 1).drop_last() =~= s.take(i as int));
            assert(s.take(i as int + 1).last() == e@);
        }
        if event_in_group(e, g) && event_passes(e, f) {
            let a = event_amount(e, m);
            acc = acc.saturating_add(a);
        }
        i = i + 1;
    }
    assert(s.take(i as int) =~= s);
    acc
}

/// The three groupings of a workload report.
#[derive(Clone, Copy)]
pub enum KeyKind {
    Shape,
    Path,
    Candidate,
}

/// Whether an event yields the grouping key `k` of kind `kind`: its
/// collection and shape, or its collection and one of its paths.
pub open spec fn event_has_key(e: EventView, kind: KeyKind, k: KeyView) -> bool {
    match kind {
        KeyKind::Shape => k == (e.collection, e.fingerprint),
        KeyKind::Path => e.collection is Some && k.0 == e.collection && e.predicate_paths.contains(k.1),
        KeyKind::Candidate => e.collection is Some && k.0 == e.collection
            && e.index_candidate_paths.contains(k.1),
    }
}

/// Whether some event yields the key `k`.
pub open spec fn has_key(s: Seq<EventView>, kind: KeyKind, k: KeyView) -> bool {
    exists|i: int| 0 <= i < s.len() && #[trigger] event_has_key(s[i], kind, k)
}

proof fn lemma_has_key_step(s: Seq<EventView>, i: int, kind: KeyKind, k: KeyView)
    requires
        0 <= i < s.len(),
    ensures
        has_key(s.take(i + 1), kind, k) == (has_key(s.take(i), kind, k) || event_has_key(
            s[i],
            kind,
            k,
        )),
{
    let t = s.take(i + 1);
    let u = s.take(i);
    if has_key(t, kind, k) {
        let x = choose|x: int| 0 <= x < t.len() && #[trigger] event_has_key(t[x], kind, k);
        if x < i {
            assert(u[x] == t[x]);
        }
    }
    if has_key(u, kind, k) {
        let x = choose|x: int| 0 <= x < u.len() && #[trigger] event_has_key(u[x], kind, k);
        assert(t[x] == u[x]);
    }
    if event_has_key(s[i], kind, k) {
        assert(t[i] == s[i]);
    }
}

/// The distinct grouping keys of kind `kind`, in increasing order.
fn collect_keys(events: &[TelemetryEvent], kind: KeyKind) -> (keys: Vec<(Option<String>, String)>)
    ensures
        keys_sorted(keys_view(keys@)),
        forall|k: KeyView| keys_view(keys@).contains(k) <==> has_key(events_view(events@), kind, k),
{
    let ghost s = events_view(events@);
    let mut keys: Vec<(Option<String>, String)> = Vec::new();
    let mut i: usize = 0;
    while i < events.len()
        invariant
            i <= events@.len(),
            s == events_view(events@),
            keys_sorted(keys_view(keys@)),
            forall|k: KeyView| keys_view(keys@).contains(k) <==> has_key(s.take(i as int), kind, k),
        decreases events.len() - i,
    {
        let e = &events[i];
        let ghost before = keys_view(keys@);
        match kind {
            KeyKind::Shape => {
                insert_key(&mut keys, (clone_opt(&e.collection), e.fingerprint.clone()));
                assert(forall|k: KeyView|
                    keys_view(keys@).contains(k) <==> (before.contains(k) || event_has_key(e@, kind, k)));
            },
            _ => {
                if let Some(c) = &e.collection {
                    let paths = match kind {
                        KeyKind::Path => &e.predicate_paths,
                        _ => &e.index_candidate_paths,
                    };
                    let ghost pv = strings_view(paths@);
                    assert(pv == (match kind {
                        KeyKind::Path => e@.predicate_paths,
                        _ => e@.index_candidate_paths,
                    }));
                    let mut j: usize = 0;
                    while j < paths.len()
                        invariant
                            j <= paths@.len(),
                            pv == strings_view(paths@),
                            keys_sorted(keys_view(keys@)),
                            forall|k: KeyView|
                                keys_view(keys@).contains(k) <==> (before.contains(k) || (k.0 == Some(
                                    c@,
                                ) && pv.take(j as int).contains(k.1))),
                        decreases paths.len() - j,
                    {
                        insert_key(&mut keys, (Some(c.clone()), paths[j].clone()));
                        proof {
                            assert forall|k: KeyView| (k.0 == Some(c@) && pv.take(j as int + 1).contains(k.1))
                                == ((k.0 == Some(c@) && pv.take(j as int).contains(k.1)) || k == (
                                Some(c@),
                                pv[j as int],
                            )) by {
                                let t = pv.take(j as int + 1);
                                let u = pv.take(j as int);
                                if t.contains(k.1) {
                                    let x = choose|x: int| 0 <= x < t.len() && t[x] == k.1;
                                    if x < j {
                                        assert(u[x] == t[x]);
                                    }
                                }
                                if u.contains(k.1) {
                                    let x = choose|x: int| 0 <= x < u.len() && u[x] == k.1;
                                    assert(t[x] == u[x]);
                                }
                                if k.1 == pv[j as int] {
                                    assert(t[j as int] == pv[j as int]);
                                }
                            }
                        }
                        j = j + 1;
                    }
                    assert(j == paths@.len());
                    assert(forall|k: KeyView| #[trigger] keys_view(keys@).contains(k) <==> (before.contains(k) || (k.0 == Some(
                                    c@,
                                ) && pv.take(j as int).contains(k.1))));
                    assert(pv.take(j as int) =~= pv);
                    assert(e@.collection == Some(c@));
                    assert forall|k: KeyView| (k.0 == Some(c@) && pv.contains(k.1)) == event_has_key(e@, kind, k) by {
                        match kind {
                            KeyKind::Path => {},
                            _ => {},
                        }
                    }
                    assert forall|k: KeyView|
                        keys_view(keys@).contains(k) <==> (before.contains(k) || event_has_key(e@, kind, k)) by {
                        assert(keys_view(keys@).contains(k) <==> (before.contains(k) || (k.0 == Some(c@) && pv.take(j as int).contains(k.1))));
                        assert((k.0 == Some(c@) && pv.contains(k.1)) == event_has_key(e@, kind, k));
                    }
                }
            },
        }
        assert forall|k: KeyView|
            keys_view(keys@).contains(k) <==> has_key(s.take(i as int + 1), kind, k) by {
            assert(keys_view(keys@).contains(k) <==> (before.contains(k) || event_has_key(e@, kind, k)));
            assert(before.contains(k) <==> has_key(s.take(i as int), kind, k));
            lemma_has_key_step(s, i as int, kind, k);
        }
        i = i + 1;
    }
    assert(s.take(i as int) =~= s);
    keys
}

/// A figure of `s`, saturated at `u64::MAX` as the report stores it.
pub open spec fn stored(s: Seq<EventView>, g: GroupView, f: Filter, m: Metric) -> u64 {
    sat(figure(s, g, f, m) as int)
}

/// The statistics of one query shape hold the figures of its events.
pub open spec fn shape_stats_hold(st: FingerprintStats, s: Seq<EventView>) -> bool {
    let g = GroupView::Shape(opt_view(st.collection), st.fingerprint@);
    &&& st.successful_executions == stored(s, g, Filter::Succeeded, Metric::One)
    &&& st.failed_executions == stored(s, g, Filter::Failed, Metric::One)
    &&& st.collection_scans == stored(s, g, Filter::SucceededCollectionScan, Metric::One)
    &&& st.index_scans == stored(s, g, Filter::SucceededIndexScan, Metric::One)
    &&& st.total_examined == stored(s, g, Filter::Succeeded, Metric::Examined)
    &&& st.total_returned == stored(s, g, Filter::Succeeded, Metric::Returned)
    &&& st.total_elapsed_micros == stored(s, g, Filter::Succeeded, Metric::Elapsed)
}

/// The statistics of one predicate path hold the figures of the events that
/// mention it.
pub open spec fn path_stats_hold(st: PredicatePathStats, s: Seq<EventView>) -> bool {
    let g = GroupView::Path(st.collection@, st.path@);
    &&& st.successful_executions == stored(s, g, Filter::Succeeded, Metric::One)
    &&& st.failed_executions == stored(s, g, Filter::Failed, Metric::One)
    &&& st.collection_scans == stored(s, g, Filter::SucceededCollectionScan, Metric::One)
    &&& st.index_scans == stored(s, g, Filter::SucceededIndexScan, Metric::One)
    &&& st.total_examined == stored(s, g, Filter::Succeeded, Metric::Examined)
    &&& st.total_returned == stored(s, g, Filter::Succeeded, Metric::Returned)
    &&& st.total_elapsed_micros == stored(s, g, Filter::Succeeded, Metric::Elapsed)
}

/// The statistics of one index candidate hold the figures of the events that
/// mention it, split by access kind.
pub open spec fn candidate_stats_hold(st: IndexCandidateStats, s: Seq<EventView>) -> bool {
    let g = GroupView::Candidate(st.collection@, st.path@);
    &&& st.successful_executions == stored(s, g, Filter::Succeeded, Metric::One)
    &&& st.failed_executions == stored(s, g, Filter::Failed, Metric::One)
    &&& st.collection_scans == stored(s, g, Filter::SucceededCollectionScan, Metric::One)
    &&& st.index_scans == stored(s, g, Filter::SucceededIndexScan, Metric::One)
    &&& st.collection_scan_examined == stored(
        s,
        g,
        Filter::SucceededCollectionScan,
        Metric::Examined,
    )
    &&& st.collection_scan_returned == stored(
        s,
        g,
        Filter::SucceededCollectionScan,
        Metric::Returned,
    )
    &&& st.collection_scan_elapsed_micros == stored(
        s,
        g,
        Filter::SucceededCollectionScan,
        Metric::Elapsed,
    )
    &&& st.index_scan_examined == stored(s, g, Filter::SucceededIndexScan, Metric::Examined)
    &&& st.index_scan_elapsed_micros == stored(s, g, Filter::SucceededIndexScan, Metric::Elapsed)
}

/// The grouping keys of a list of shape statistics.
pub open spec fn shape_keys(v: Seq<FingerprintStats>) -> Seq<KeyView> {
    v.map_values(|st: FingerprintStats| (opt_view(st.collection), st.fingerprint@))
}

/// The grouping keys of a list of path statistics.
pub open spec fn path_keys(v: Seq<PredicatePathStats>) -> Seq<KeyView> {
    v.map_values(|st: PredicatePathStats| (Some(st.collection@), st.path@))
}

/// The grouping keys of a list of candidate statistics.
pub open spec fn candidate_keys(v: Seq<IndexCandidateStats>) -> Seq<KeyView> {
    v.map_values(|st: IndexCandidateStats| (Some(st.collection@), st.path@))
}

/// A key list is exactly the keys of kind `kind` that the events yield, in
/// increasing order.
pub open spec fn lists_keys(keys: Seq<KeyView>, s: Seq<EventView>, kind: KeyKind) -> bool {
    &&& keys_sorted(keys)
    &&& forall|k: KeyView| #[trigger] keys.contains(k) <==> has_key(s, kind, k)
}

/// `r` is the workload report of the events `s`.
pub open spec fn is_report_of(r: WorkloadReport, s: Seq<EventView>) -> bool {
    &&& r.total_events == stored(s, GroupView::All, Filter::Any, Metric::One)
    &&& r.successful_events == stored(s, GroupView::All, Filter::Succeeded, Metric::One)
    &&& r.failed_events == stored(s, GroupView::All, Filter::Failed, Metric::One)
    &&& r.command_executions == stored(s, GroupView::All, Filter::Command, Metric::One)
    &&& r.collection_scans == stored(s, GroupView::All, Filter::CollectionScan, Metric::One)
    &&& r.index_scans == stored(s, GroupView::All, Filter::IndexScan, Metric::One)
    &&& r.total_examined == stored(s, GroupView::All, Filter::Succeeded, Metric::Examined)
    &&& r.total_returned == stored(s, GroupView::All, Filter::Succeeded, Metric::Returned)
    &&& r.total_elapsed_micros == stored(s, GroupView::All, Filter::Succeeded, Metric::Elapsed)
    &&& lists_keys(shape_keys(r.fingerprints@), s, KeyKind::Shape)
    &&& forall|i: int| 0 <= i < r.fingerprints@.len() ==> shape_stats_hold(#[trigger] r.fingerprints@[i], s)
    &&& lists_keys(path_keys(r.predicate_paths@), s, KeyKind::Path)
    &&& forall|i: int| 0 <= i < r.predicate_paths@.len() ==> path_stats_hold(#[trigger] r.predicate_paths@[i], s)
    &&& lists_keys(candidate_keys(r.index_candidates@), s, KeyKind::Candidate)
    &&& forall|i: int|
        0 <= i < r.index_candidates@.len() ==> candidate_stats_hold(#[trigger] r.index_candidates@[i], s)
}

fn shape_stats(events: &[TelemetryEvent], key: &(Option<String>, String)) -> (st: FingerprintStats)
    ensures
        shape_stats_hold(st, events_view(events@)),
        (opt_view(st.collection), st.fingerprint@) == key_view(*key),
{
    let g = Group::Shape(clone_opt(&key.0), key.1.clone());
    FingerprintStats {
        collection: clone_opt(&key.0),
        fingerprint: key.1.clone(),
        successful_executions: tally(events, &g, Filter::Succeeded, Metric::One),
        failed_executions: tally(events, &g, Filter::Failed, Metric::One),
        collection_scans: tally(events, &g, Filter::SucceededCollectionScan, Metric::One),
        index_scans: tally(events, &g, Filter::SucceededIndexScan, Metric::One),
        total_examined: tally(events, &g, Filter::Succeeded, Metric::Examined),
        total_returned: tally(events, &g, Filter::Succeeded, Metric::Returned),
        total_elapsed_micros: tally(events, &g, Filter::Succeeded, Metric::Elapsed),
    }
}

fn path_stats(events: &[TelemetryEvent], collection: &String, path: &String) -> (st: PredicatePathStats)
    ensures
        path_stats_hold(st, events_view(events@)),
        st.collection@ == collection@,
        st.path@ == path@,
{
    let g = Group::Path(collection.clone(), path.clone());
    PredicatePathStats {
        collection: collection.clone(),
        path: path.clone(),
        successful_executions: tally(events, &g, Filter::Succeeded, Metric::One),
        failed_executions: tally(events, &g, Filter::Failed, Metric::One),
        collection_scans: tally(events, &g, Filter::SucceededCollectionScan, Metric::One),
        index_scans: tally(events, &g, Filter::SucceededIndexScan, Metric::One),
        total_examined: tally(events, &g, Filter::Succeeded, Metric::Examined),
        total_returned: tally(events, &g, Filter::Succeeded, Metric::Returned),
        total_elapsed_micros: tally(events, &g, Filter::Succeeded, Metric::Elapsed),
    }
}

fn candidate_stats(events: &[TelemetryEvent], collection: &String, path: &String) -> (st:
    IndexCandidateStats)
    ensures
        candidate_stats_hold(st, events_view(events@)),
        st.collection@ == collection@,
        st.path@ == path@,
{
    let g = Group::Candidate(collection.clone(), path.clone());
    IndexCandidateStats {
        collection: collection.clone(),
        path: path.clone(),
        successful_executions: tally(events, &g, Filter::Succeeded, Metric::One),
        failed_executions: tally(events, &g, Filter::Failed, Metric::One),
        collection_scans: tally(events, &g, Filter::SucceededCollectionScan, Metric::One),
        index_scans: tally(events, &g, Filter::SucceededIndexScan, Metric::One),
        collection_scan_examined: tally(events, &g, Filter::SucceededCollectionScan, Metric::Examined),
        collection_scan_returned: tally(events, &g, Filter::SucceededCollectionScan, Metric::Returned),
        collection_scan_elapsed_micros: tally(
            events,
            &g,
            Filter::SucceededCollectionScan,
            Metric::Elapsed,
        ),
        index_scan_examined: tally(events, &g, Filter::SucceededIndexScan, Metric::Examined),
        index_scan_elapsed_micros: tally(events, &g, Filter::SucceededIndexScan, Metric::Elapsed),
    }
}

/// Aggregates a stable telemetry snapshot into deterministic workload
/// evidence: global totals, and one entry per query shape, per predicate path
/// and per index candidate, each list in increasing key order. Every sum
/// saturates at `u64::MAX`; failed events count as failures only.
pub fn analyze_workload(events: &[TelemetryEvent]) -> (r: WorkloadReport)
    ensures
        is_report_of(r, events_view(events@)),
{
    let ghost s = events_view(events@);
    let all = Group::All;

    let shape_list = collect_keys(events, KeyKind::Shape);
    let mut fingerprints: Vec<FingerprintStats> = Vec::new();
    let mut j: usize = 0;
    while j < shape_list.len()
        invariant
            j <= shape_list@.len(),
            s == events_view(events@),
            fingerprints@.len() == j,
            forall|t: int| 0 <= t < j ==> shape_stats_hold(#[trigger] fingerprints@[t], s),
            forall|t: int| 0 <= t < j ==> #[trigger] shape_keys(fingerprints@)[t] == keys_view(shape_list@)[t],
        decreases shape_list.len() - j,
    {
        let st = shape_stats(events, &shape_list[j]);
        let ghost prev = fingerprints@;
        fingerprints.push(st);
        proof {
            assert forall|t: int| 0 <= t < j + 1 implies #[trigger] shape_keys(fingerprints@)[t]
                == keys_view(shape_list@)[t] && shape_stats_hold(fingerprints@[t], s) by {
                if t < j {
                    assert(fingerprints@[t] == prev[t]);
                    assert(shape_keys(prev)[t] == keys_view(shape_list@)[t]);
                }
            }
        }
        j = j + 1;
    }
    assert(shape_keys(fingerprints@) =~= keys_view(shape_list@));

    let path_list = collect_keys(events, KeyKind::Path);
    let mut predicate_paths: Vec<PredicatePathStats> = Vec::new();
    let mut j: usize = 0;
    while j < path_list.len()
        invariant
            j <= path_list@.len(),
            s == events_view(events@),
            predicate_paths@.len() == j,
            forall|k: KeyView| keys_view(path_list@).contains(k) <==> has_key(s, KeyKind::Path, k),
            forall|t: int| 0 <= t < j ==> path_stats_hold(#[trigger] predicate_paths@[t], s),
            forall|t: int| 0 <= t < j ==> #[trigger] path_keys(predicate_paths@)[t] == keys_view(path_list@)[t],
        decreases path_list.len() - j,
    {
        let key = &path_list[j];
        proof {
            assert(keys_view(path_list@).contains(keys_view(path_list@)[j as int]));
        }
        match &key.0 {
            Some(c) => {
                let st = path_stats(events, c, &key.1);
                let ghost prev = predicate_paths@;
                predicate_paths.push(st);
                proof {
                    assert forall|t: int| 0 <= t < j + 1 implies #[trigger] path_keys(predicate_paths@)[t]
                        == keys_view(path_list@)[t] && path_stats_hold(predicate_paths@[t], s) by {
                        if t < j {
                            assert(predicate_paths@[t] == prev[t]);
                            assert(path_keys(prev)[t] == keys_view(path_list@)[t]);
                        }
                    }
                }
            },
            None => {
                proof {
                    let kv = keys_view(path_list@)[j as int];
                    assert(has_key(s, KeyKind::Path, kv));
                    let i = choose|i: int| 0 <= i < s.len() && #[trigger] event_has_key(s[i], KeyKind::Path, kv);
                    assert(kv.0 is Some);
                }
            },
        }
        j = j + 1;
    }
    assert(path_keys(predicate_paths@) =~= keys_view(path_list@));

    let candidate_list = collect_keys(events, KeyKind::Candidate);
    let mut index_candidates: Vec<IndexCandidateStats> = Vec::new();
    let mut j: usize = 0;
    while j < candidate_list.len()
        invariant
            j <= candidate_list@.len(),
            s == events_view(events@),
            index_candidates@.len() == j,
            forall|k: KeyView| keys_view(candidate_list@).contains(k) <==> has_key(s, KeyKind::Candidate, k),
            forall|t: int| 0 <= t < j ==> candidate_stats_hold(#[trigger] index_candidates@[t], s),
            forall|t: int| 0 <= t < j ==> #[trigger] candidate_keys(index_candidates@)[t] == keys_view(candidate_list@)[t],
        decreases candidate_list.len() - j,
    {
        let key = &candidate_list[j];
        proof {
            assert(keys_view(candidate_list@).contains(keys_view(candidate_list@)[j as int]));
        }
        match &key.0 {
            Some(c) => {
                let st = candidate_stats(events, c, &key.1);
                let ghost prev = index_candidates@;
                index_candidates.push(st);
                proof {
                    assert forall|t: int| 0 <= t < j + 1 implies #[trigger] candidate_keys(index_candidates@)[t]
                        == keys_view(candidate_list@)[t] && candidate_stats_hold(index_candidates@[t], s) by {
                        if t < j {
                            assert(index_candidates@[t] == prev[t]);
                            assert(candidate_keys(prev)[t] == keys_view(candidate_list@)[t]);
                        }
                    }
                }
            },
            None => {
                proof {
                    let kv = keys_view(candidate_list@)[j as int];
                    assert(has_key(s, KeyKind::Candidate, kv));
                    let i = choose|i: int| 0 <= i < s.len() && #[trigger] event_has_key(s[i], KeyKind::Candidate, kv);
                    assert(kv.0 is Some);
                }
            },
        }
        j = j + 1;
    }
    assert(candidate_keys(index_candidates@) =~= keys_view(candidate_list@));

    WorkloadReport {
        total_events: tally(events, &all, Filter::Any, Metric::One),
        successful_events: tally(events, &all, Filter::Succeeded, Metric::One),
        failed_events: tally(events, &all, Filter::Failed, Metric::One),
        command_executions: tally(events, &all, Filter::Command, Metric::One),
        collection_scans: tally(events, &all, Filter::CollectionScan, Metric::One),
        index_scans: tally(events, &all, Filter::IndexScan, Metric::One),
        total_examined: tally(events, &all, Filter::Succeeded, Metric::Examined),
        total_returned: tally(events, &all, Filter::Succeeded, Metric::Returned),
        total_elapsed_micros: tally(events, &all, Filter::Succeeded, Metric::Elapsed),
        fingerprints,
        predicate_paths,
        index_candidates,
    }
}

/// Every event is counted once as succeeded or failed, and once by its
/// access kind; none is counted beyond the number of events.
proof fn lemma_event_counts(s: Seq<EventView>)
    ensures
        figure(s, GroupView::All, Filter::Any, Metric::One) == s.len(),
        figure(s, GroupView::All, Filter::Succeeded, Metric::One) + figure(s, GroupView::All, Filter::Failed, Metric::One)
            == s.len(),
        figure(s, GroupView::All, Filter::Command, Metric::One) + figure(s, GroupView::All, Filter::CollectionScan, Metric::One)
            + figure(s, GroupView::All, Filter::IndexScan, Metric::One) == s.len(),
    decreases s.len(),
{
    if s.len() > 0 {
        lemma_event_counts(s.drop_last());
    }
}

/// The report's totals agree: every event is either successful or failed,
/// and is a command, a collection scan or an index scan. (Counts saturate
/// at `u64::MAX`, so this holds for fewer events than that.)
pub proof fn law_report_totals_agree(r: WorkloadReport, s: Seq<EventView>)
    requires
        is_report_of(r, s),
        s.len() < u64::MAX,
    ensures
        r.total_events == s.len(),
        r.total_events == r.successful_events + r.failed_events,
        r.total_events == r.command_executions + r.collection_scans + r.index_scans,
{
    lemma_event_counts(s);
}

proof fn lemma_scans_within_successes(s: Seq<EventView>, g: GroupView, m: Metric)
    ensures
        figure(s, g, Filter::SucceededIndexScan, m) + figure(s, g, Filter::SucceededCollectionScan, m) <= figure(
            s,
            g,
            Filter::Succeeded,
            m,
        ),
        figure(s, g, Filter::SucceededIndexScan, m) <= figure(s, g, Filter::IndexScan, m),
        figure(s, g, Filter::SucceededCollectionScan, m) <= figure(s, g, Filter::CollectionScan, m),
    decreases s.len(),
{
    if s.len() > 0 {
        lemma_scans_within_successes(s.drop_last(), g, m);
    }
}

/// Only successful executions count as scans in a group: for every query
/// shape, predicate path and index candidate of a report, its index scans
/// and collection scans together are at most its successful executions
/// (a failed execution counts only as a failure). Counts saturate at
/// `u64::MAX`, so this is stated for fewer events than that.
pub proof fn law_group_scans_are_successes(r: WorkloadReport, s: Seq<EventView>)
    requires
        is_report_of(r, s),
        s.len() < u64::MAX,
    ensures
        forall|i: int|
            0 <= i < r.fingerprints@.len() ==> #[trigger] r.fingerprints@[i].index_scans + r.fingerprints@[i].collection_scans
                <= r.fingerprints@[i].successful_executions,
        forall|i: int|
            0 <= i < r.predicate_paths@.len() ==> #[trigger] r.predicate_paths@[i].index_scans
                + r.predicate_paths@[i].collection_scans <= r.predicate_paths@[i].successful_executions,
        forall|i: int|
            0 <= i < r.index_candidates@.len() ==> #[trigger] r.index_candidates@[i].index_scans
                + r.index_candidates@[i].collection_scans <= r.index_candidates@[i].successful_executions,
{
    assert forall|i: int| 0 <= i < r.fingerprints@.len() implies #[trigger] r.fingerprints@[i].index_scans
        + r.fingerprints@[i].collection_scans <= r.fingerprints@[i].successful_executions by {
        let st = r.fingerprints@[i];
        assert(shape_stats_hold(st, s));
        let g = GroupView::Shape(opt_view(st.collection), st.fingerprint@);
        lemma_scans_within_successes(s, g, Metric::One);
        lemma_figure_count_bound(s, g, Filter::Succeeded);
    }
    assert forall|i: int| 0 <= i < r.predicate_paths@.len() implies #[trigger] r.predicate_paths@[i].index_scans
        + r.predicate_paths@[i].collection_scans <= r.predicate_paths@[i].successful_executions by {
        let st = r.predicate_paths@[i];
        assert(path_stats_hold(st, s));
        let g = GroupView::Path(st.collection@, st.path@);
        lemma_scans_within_successes(s, g, Metric::One);
        lemma_figure_count_bound(s, g, Filter::Succeeded);
    }
    assert forall|i: int| 0 <= i < r.index_candidates@.len() implies #[trigger] r.index_candidates@[i].index_scans
        + r.index_candidates@[i].collection_scans <= r.index_candidates@[i].successful_executions by {
        let st = r.index_candidates@[i];
        assert(candidate_stats_hold(st, s));
        let g = GroupView::Candidate(st.collection@, st.path@);
        lemma_scans_within_successes(s, g, Metric::One);
        lemma_figure_count_bound(s, g, Filter::Succeeded);
    }
}

proof fn lemma_figure_count_bound(s: Seq<EventView>, g: GroupView, f: Filter)
    ensures
        figure(s, g, f, Metric::One) <= s.len(),
    decreases s.len(),
{
    if s.len() > 0 {
        lemma_figure_count_bound(s.drop_last(), g, f);
    }
}

} // verus!
