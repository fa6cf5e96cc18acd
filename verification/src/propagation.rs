//! What a text-map propagator writes, as plain key/value pairs.

use opentelemetry::trace::TraceContextExt;
use vstd::prelude::*;

verus! {

#[verifier::external_type_specification]
#[verifier::external_body]
pub struct ExContext(opentelemetry::Context);

/// The text of each pair of a field list.
pub open spec fn pairs(fields: Seq<(String, String)>) -> Seq<(Seq<char>, Seq<char>)> {
    Seq::new(fields.len(), |i: int| (fields[i].0@, fields[i].1@))
}

/// The text of each string of a list.
pub open spec fn texts(items: Seq<&str>) -> Seq<Seq<char>> {
    Seq::new(items.len(), |i: int| items[i]@)
}

/// The text of an optional string.
pub open spec fn text(item: Option<&str>) -> Option<Seq<char>> {
    match item {
        Some(s) => Some(s@),
        None => None,
    }
}

/// An injector that keeps every pair it is handed, in the order of the calls.
pub struct FieldRecorder {
    pub fields: Vec<(String, String)>,
}

impl FieldRecorder {
    pub fn new() -> (recorder: FieldRecorder)
        ensures
            recorder.fields@ == Seq::<(String, String)>::empty(),
    {
        FieldRecorder { fields: Vec::new() }
    }

    /// Appends one pair; nothing that was recorded before changes.
    pub fn record(&mut self, key: &str, value: String)
        ensures
            final(self).fields@.len() == old(self).fields@.len() + 1,
            pairs(final(self).fields@) == pairs(old(self).fields@).push((key@, value@)),
    {
        let ghost before = self.fields@;
        self.fields.push((key.to_owned(), value));
        proof {
            assert(pairs(self.fields@) =~= pairs(before).push((key@, value@)));
        }
    }
}

impl opentelemetry::propagation::Injector for FieldRecorder {
    /// Appends the pair, as `record` does.
    fn set(&mut self, key: &str, value: String)
        ensures
            final(self).fields@.len() == old(self).fields@.len() + 1,
            pairs(final(self).fields@) == pairs(old(self).fields@).push((key@, value@)),
    {
        self.record(key, value);
    }
}

/// Calls `opentelemetry::global::get_text_map_propagator` and, on the
/// propagator it yields, `inject_context` with the recorder as carrier. Which
/// propagator is installed is process state, so nothing is claimed of what
/// the recorder holds afterwards.
#[verifier::external_body]
fn inject_into(ctx: &opentelemetry::Context, recorder: &mut FieldRecorder) {
    opentelemetry::global::get_text_map_propagator(|p| p.inject_context(ctx, recorder));
}

/// The pairs that the installed propagator writes for a context, in the
/// order in which it writes them.
pub(crate) fn propagated_fields(ctx: &opentelemetry::Context) -> (fields: Vec<(String, String)>) {
    let mut recorder = FieldRecorder::new();
    inject_into(ctx, &mut recorder);
    recorder.fields
}

/// Calls `opentelemetry::Context::current`: the context that is active on
/// this thread. Nothing is claimed of it.
#[verifier::external_body]
pub(crate) fn current_context() -> (ctx: opentelemetry::Context) {
    opentelemetry::Context::current()
}

/// The identity of a span as plain values: what a link to it carries.
pub struct SpanLink {
    pub trace_id: u128,
    pub span_id: u64,
    pub sampled: bool,
    pub remote: bool,
    pub trace_state: String,
}

impl SpanLink {
    /// A span is identified where neither of its ids is zero.
    pub open spec fn is_valid(self) -> bool {
        self.trace_id != 0 && self.span_id != 0
    }

    /// The link itself where it identifies a span, and none where it does
    /// not.
    pub fn checked(self) -> (link: Option<SpanLink>)
        ensures
            link == (if self.is_valid() {
                Some(self)
            } else {
                None
            }),
    {
        if self.trace_id != 0 && self.span_id != 0 {
            Some(self)
        } else {
            None
        }
    }
}

/// Calls `TraceContextExt::span` and `SpanRef::span_context` on a context and
/// hands out the ids, the sampling flag, the remote flag and the trace state
/// header of the span context found there. The context is opaque, so nothing
/// is claimed of the values.
#[verifier::external_body]
pub(crate) fn span_of(ctx: &opentelemetry::Context) -> (span: SpanLink) {
    let span = ctx.span();
    let found = span.span_context();
    SpanLink {
        trace_id: u128::from_be_bytes(found.trace_id().to_bytes()),
        span_id: u64::from_be_bytes(found.span_id().to_bytes()),
        sampled: found.is_sampled(),
        remote: found.is_remote(),
        trace_state: found.trace_state().header(),
    }
}

} // verus!
