//! Nova Intelligence Engine telemetry: observational query events and an
//! in-memory sink. Analytics never participate in correctness.
use vstd::prelude::*;

use crate::error::Result;

verus! {

/// How a query reached its documents.
#[derive(Debug, PartialEq, Eq)]
pub enum TelemetryAccess {
    Command,
    CollectionScan,
    IndexScan { index: String },
}

/// One observed query execution.
#[derive(Debug, PartialEq, Eq)]
pub struct TelemetryEvent {
    pub fingerprint: String,
    pub collection: Option<String>,
    pub predicate_paths: Vec<String>,
    pub index_candidate_paths: Vec<String>,
    pub access: TelemetryAccess,
    pub examined: usize,
    pub returned: usize,
    pub elapsed_micros: u64,
    pub succeeded: bool,
}

/// The abstract value of an access kind.
pub enum AccessView {
    Command,
    CollectionScan,
    IndexScan(Seq<char>),
}

impl View for TelemetryAccess {
    type V = AccessView;

    open spec fn view(&self) -> AccessView {
        match self {
            TelemetryAccess::Command => AccessView::Command,
            TelemetryAccess::CollectionScan => AccessView::CollectionScan,
            TelemetryAccess::IndexScan { index } => AccessView::IndexScan(index@),
        }
    }
}

/// The abstract value of a list of strings.
pub open spec fn strings_view(v: Seq<String>) -> Seq<Seq<char>> {
    v.map_values(|s: String| s@)
}

/// The abstract value of an optional string.
pub open spec fn opt_view(o: Option<String>) -> Option<Seq<char>> {
    match o {
        Some(s) => Some(s@),
        None => None,
    }
}

/// The abstract value of an event.
pub struct EventView {
    pub fingerprint: Seq<char>,
    pub collection: Option<Seq<char>>,
    pub predicate_paths: Seq<Seq<char>>,
    pub index_candidate_paths: Seq<Seq<char>>,
    pub access: AccessView,
    pub examined: usize,
    pub returned: usize,
    pub elapsed_micros: u64,
    pub succeeded: bool,
}

impl View for TelemetryEvent {
    type V = EventView;

    open spec fn view(&self) -> EventView {
        EventView {
            fingerprint: self.fingerprint@,
            collection: opt_view(self.collection),
            predicate_paths: strings_view(self.predicate_paths@),
            index_candidate_paths: strings_view(self.index_candidate_paths@),
            access: self.access@,
            examined: self.examined,
            returned: self.returned,
            elapsed_micros: self.elapsed_micros,
            succeeded: self.succeeded,
        }
    }
}

/// The abstract value of a list of events.
pub open spec fn events_view(v: Seq<TelemetryEvent>) -> Seq<EventView> {
    v.map_values(|e: TelemetryEvent| e@)
}

impl Clone for TelemetryAccess {
    fn clone(&self) -> (r: Self)
        ensures
            r@ == self@,
    {
        match self {
            TelemetryAccess::Command => TelemetryAccess::Command,
            TelemetryAccess::CollectionScan => TelemetryAccess::CollectionScan,
            TelemetryAccess::IndexScan { index } => TelemetryAccess::IndexScan { index: index.clone() },
        }
    }
}

/// Copies a list of strings.
pub fn clone_strings(v: &Vec<String>) -> (r: Vec<String>)
    ensures
        strings_view(r@) == strings_view(v@),
{
    let mut out: Vec<String> = Vec::new();
    let mut i: usize = 0;
    while i < v.len()
        invariant
            i <= v.len(),
            out@.len() == i,
            strings_view(out@) == strings_view(v@.take(i as int)),
        decreases v.len() - i,
    {
        let ghost prev = out@;
        out.push(v[i].clone());
        proof {
            assert forall|k: int| 0 <= k < i + 1 implies #[trigger] out@[k]@ == v@[k]@ by {
                if k < i {
                    assert(out@[k] == prev[k]);
                    assert(strings_view(prev)[k] == strings_view(v@.take(i as int))[k]);
                }
            }
        }
        i = i + 1;
        assert(strings_view(out@) =~= strings_view(v@.take(i as int)));
    }
    assert(v@.take(i as int) =~= v@);
    out
}

impl Clone for TelemetryEvent {
    fn clone(&self) -> (r: Self)
        ensures
            r@ == self@,
    {
        let collection = match &self.collection {
            Some(c) => Some(c.clone()),
            None => None,
        };
        TelemetryEvent {
            fingerprint: self.fingerprint.clone(),
            collection,
            predicate_paths: clone_strings(&self.predicate_paths),
            index_candidate_paths: clone_strings(&self.index_candidate_paths),
            access: self.access.clone(),
            examined: self.examined,
            returned: self.returned,
            elapsed_micros: self.elapsed_micros,
            succeeded: self.succeeded,
        }
    }
}

/// Copies a list of events.
pub fn clone_events(v: &Vec<TelemetryEvent>) -> (r: Vec<TelemetryEvent>)
    ensures
        events_view(r@) == events_view(v@),
{
    let mut out: Vec<TelemetryEvent> = Vec::new();
    let mut i: usize = 0;
    while i < v.len()
        invariant
            i <= v.len(),
            out@.len() == i,
            events_view(out@) == events_view(v@.take(i as int)),
        decreases v.len() - i,
    {
        let ghost prev = out@;
        out.push(v[i].clone());
        proof {
            assert forall|k: int| 0 <= k < i + 1 implies #[trigger] out@[k]@ == v@[k]@ by {
                if k < i {
                    assert(out@[k] == prev[k]);
                    assert(events_view(prev)[k] == events_view(v@.take(i as int))[k]);
                }
            }
        }
        i = i + 1;
        assert(events_view(out@) =~= events_view(v@.take(i as int)));
    }
    assert(v@.take(i as int) =~= v@);
    out
}

/// A destination for telemetry events.
pub trait TelemetrySink {
    /// Records an event without affecting query execution.
    fn record(&mut self, event: TelemetryEvent);
}

/// A sink that keeps every event in arrival order.
#[derive(Debug)]
pub struct InMemoryTelemetry {
    events: Vec<TelemetryEvent>,
}

impl View for InMemoryTelemetry {
    type V = Seq<EventView>;

    closed spec fn view(&self) -> Seq<EventView> {
        events_view(self.events@)
    }
}

impl InMemoryTelemetry {
    /// An empty sink.
    pub fn new() -> (r: Self)
        ensures
            r@ == Seq::<EventView>::empty(),
    {
        let r = InMemoryTelemetry { events: Vec::new() };
        assert(r@ =~= Seq::<EventView>::empty());
        r
    }

    /// Returns a stable snapshot of every recorded event, oldest first.
    pub fn snapshot(&self) -> (r: Result<Vec<TelemetryEvent>>)
        ensures
            r matches Ok(events) && events_view(events@) == self@,
    {
        Ok(clone_events(&self.events))
    }

    /// Removes all observations.
    pub fn clear(&mut self) -> (r: Result<()>)
        ensures
            r is Ok,
            final(self)@ == Seq::<EventView>::empty(),
    {
        self.events.clear();
        assert(self@ =~= Seq::<EventView>::empty());
        Ok(())
    }
}

impl TelemetrySink for InMemoryTelemetry {
    fn record(&mut self, event: TelemetryEvent)
        ensures
            final(self)@ == old(self)@.push(event@),
    {
        self.events.push(event);
        assert(self@ =~= old(self)@.push(event@));
    }
}

} // verus!
