//! The rules of the telemetry pipeline: in which order it is started and shut
//! down, which identity its exports carry, and which sinks a log record
//! reaches.

use crate::propagation::{current_context, span_of};
use vstd::prelude::*;
use vstd::string::StringExecFns;

verus! {

/// One of the three pipelines that export over the network.
#[derive(Clone, Copy, Debug, PartialEq, Eq, Structural)]
pub enum Pipeline {
    Logs,
    Traces,
    Metrics,
}

/// The order in which the pipelines are shut down. Logs go first.
pub open spec fn shutdown_order() -> Seq<Pipeline> {
    seq![Pipeline::Logs, Pipeline::Traces, Pipeline::Metrics]
}

impl Pipeline {
    /// The word by which a diagnostic names the pipeline.
    pub open spec fn label_text(self) -> Seq<char> {
        match self {
            Pipeline::Logs => "logger"@,
            Pipeline::Traces => "tracer"@,
            Pipeline::Metrics => "meter"@,
        }
    }

    pub fn label(&self) -> (label: &'static str)
        ensures
            label@ == self.label_text(),
    {
        match self {
            Pipeline::Logs => "logger",
            Pipeline::Traces => "tracer",
            Pipeline::Metrics => "meter",
        }
    }

    /// The line that reports a failed shutdown of the pipeline.
    pub open spec fn diagnostic_text(self, error: Seq<char>) -> Seq<char> {
        "Error during "@ + self.label_text() + " shutdown: "@ + error
    }

    pub fn diagnostic(&self, error: &str) -> (line: String)
        ensures
            line@ == self.diagnostic_text(error@),
    {
        "Error during ".to_owned().concat(self.label()).concat(" shutdown: ").concat(error)
    }

    /// The seconds between two exports of a periodic reader; only metrics
    /// are read periodically.
    pub fn export_interval(&self) -> (seconds: Option<u64>)
        ensures
            seconds == (if *self == Pipeline::Metrics {
                Some(20u64)
            } else {
                None
            }),
    {
        match self {
            Pipeline::Metrics => Some(20),
            _ => None,
        }
    }
}

/// Owns the pipelines of the process. Shutting it down yields the steps to
/// run once; after that it yields none.
pub struct Handle {
    shut_down: bool,
}

impl Handle {
    /// Whether the handle was shut down.
    pub closed spec fn was_shut_down(self) -> bool {
        self.shut_down
    }

    /// The steps that a shutdown has to run.
    pub open spec fn pending(self) -> Seq<Pipeline> {
        if self.was_shut_down() {
            Seq::empty()
        } else {
            shutdown_order()
        }
    }

    /// The handle after a shutdown.
    pub closed spec fn closed(self) -> Handle {
        Handle { shut_down: true }
    }

    pub fn new() -> (handle: Handle)
        ensures
            !handle.was_shut_down(),
    {
        Handle { shut_down: false }
    }

    pub fn is_shut_down(&self) -> (done: bool)
        ensures
            done == self.was_shut_down(),
    {
        self.shut_down
    }

    /// Hands out the pipelines to shut down, in order, and marks the handle
    /// as shut down. Each step is to be run whether or not an earlier one
    /// failed.
    pub fn shutdown(&mut self) -> (steps: Vec<Pipeline>)
        ensures
            steps@ == old(self).pending(),
            *final(self) == old(self).closed(),
            final(self).was_shut_down(),
    {
        let mut steps: Vec<Pipeline> = Vec::new();
        if !self.shut_down {
            steps.push(Pipeline::Logs);
            steps.push(Pipeline::Traces);
            steps.push(Pipeline::Metrics);
            self.shut_down = true;
        }
        assert(steps@ =~= old(self).pending());
        steps
    }
}

/// The lines that report the failed steps of a shutdown, in the order of the
/// steps. `outcomes` holds for each step that was run its pipeline and, where
/// it failed, the error as text.
pub fn shutdown_diagnostics(outcomes: &Vec<(Pipeline, Option<String>)>) -> (lines: Vec<String>)
    ensures
        diagnostics_text(lines@) == reported(outcomes@),
{
    let mut lines: Vec<String> = Vec::new();
    let mut i: usize = 0;
    proof {
        assert(outcomes@.take(0) =~= Seq::<(Pipeline, Option<String>)>::empty());
        assert(diagnostics_text(lines@) =~= reported(outcomes@.take(0)));
    }
    while i < outcomes.len()
        invariant
            0 <= i <= outcomes.len(),
            diagnostics_text(lines@) == reported(outcomes@.take(i as int)),
        decreases outcomes.len() - i,
    {
        let ghost before = lines@;
        proof {
            assert(outcomes@.take(i + 1).drop_last() =~= outcomes@.take(i as int));
            assert(outcomes@.take(i + 1).last() == outcomes@[i as int]);
        }
        match &outcomes[i].1 {
            Some(error) => {
                let line = outcomes[i].0.diagnostic(error.as_str());
                lines.push(line);
                proof {
                    assert(diagnostics_text(lines@) =~= diagnostics_text(before).push(line@));
                }
            },
            None => {},
        }
        i = i + 1;
    }
    proof {
        assert(outcomes@.take(i as int) =~= outcomes@);
    }
    lines
}

/// The text of each line of a list.
pub open spec fn diagnostics_text(lines: Seq<String>) -> Seq<Seq<char>> {
    Seq::new(lines.len(), |i: int| lines[i]@)
}

/// One line for each failed step, in order; a step that succeeded leaves
/// none.
pub open spec fn reported(outcomes: Seq<(Pipeline, Option<String>)>) -> Seq<Seq<char>>
    decreases outcomes.len(),
{
    if outcomes.len() == 0 {
        Seq::empty()
    } else {
        match outcomes.last().1 {
            Some(error) => reported(outcomes.drop_last()).push(
                outcomes.last().0.diagnostic_text(error@),
            ),
            None => reported(outcomes.drop_last()),
        }
    }
}

/// Shutting down twice is shutting down once: the second shutdown finds no
/// step to run and leaves the handle as the first left it.
pub proof fn lemma_shutdown_is_idempotent(handle: Handle)
    ensures
        handle.closed().was_shut_down(),
        handle.closed().pending() == Seq::<Pipeline>::empty(),
        handle.closed().closed() == handle.closed(),
        handle.pending() + handle.closed().pending() == handle.pending(),
{
    assert(handle.pending() + Seq::<Pipeline>::empty() =~= handle.pending());
}

/// An attribute of the identity that every export carries.
#[derive(Clone, Copy, Debug, PartialEq, Eq, Structural)]
pub enum Attribute {
    ServiceName,
    ServiceVersion,
    ServiceInstanceId,
}

/// The identity of the process: made once at start-up, shared by the three
/// pipelines.
pub struct Resource {
    pub name: String,
    pub version: String,
    pub instance: String,
}

impl Resource {
    pub fn new(name: &str, version: &str, instance: &str) -> (resource: Resource)
        ensures
            resource.name@ == name@,
            resource.version@ == version@,
            resource.instance@ == instance@,
    {
        Resource { name: name.to_owned(), version: version.to_owned(), instance: instance.to_owned() }
    }

    /// The attributes as the pipelines attach them: name, version, instance.
    pub open spec fn attributes_text(self) -> Seq<(Attribute, Seq<char>)> {
        seq![
            (Attribute::ServiceName, self.name@),
            (Attribute::ServiceVersion, self.version@),
            (Attribute::ServiceInstanceId, self.instance@),
        ]
    }

    pub fn attributes(&self) -> (attributes: Vec<(Attribute, String)>)
        ensures
            attributes@.len() == 3,
            forall|i: int|
                0 <= i < 3 ==> (#[trigger] attributes@[i]).0 == self.attributes_text()[i].0
                    && attributes@[i].1@ == self.attributes_text()[i].1,
    {
        let mut attributes: Vec<(Attribute, String)> = Vec::new();
        attributes.push((Attribute::ServiceName, self.name.clone()));
        attributes.push((Attribute::ServiceVersion, self.version.clone()));
        attributes.push((Attribute::ServiceInstanceId, self.instance.clone()));
        attributes
    }
}

/// A step of the start-up, in the order in which the steps run.
#[derive(Clone, Copy, Debug, PartialEq, Eq, Structural)]
pub enum Stage {
    ErrorTracker,
    LogPipeline,
    TracePipeline,
    MetricPipeline,
    FanOutLogger,
    Install,
}

/// The order of the start-up.
pub open spec fn startup_order() -> Seq<Stage> {
    seq![
        Stage::ErrorTracker,
        Stage::LogPipeline,
        Stage::TracePipeline,
        Stage::MetricPipeline,
        Stage::FanOutLogger,
        Stage::Install,
    ]
}

/// Where a start-up stands: a step is due, or all are done, or one failed.
#[derive(Clone, Copy, Debug, PartialEq, Eq, Structural)]
pub enum Startup {
    Due(Stage),
    Ready,
    Aborted(Stage),
}

impl Stage {
    /// The step that follows this one, if any.
    pub open spec fn following(self) -> Option<Stage> {
        match self {
            Stage::ErrorTracker => Some(Stage::LogPipeline),
            Stage::LogPipeline => Some(Stage::TracePipeline),
            Stage::TracePipeline => Some(Stage::MetricPipeline),
            Stage::MetricPipeline => Some(Stage::FanOutLogger),
            Stage::FanOutLogger => Some(Stage::Install),
            Stage::Install => None,
        }
    }
}

impl Startup {
    /// The state after the step that was due ended, well or not. A start-up
    /// that is ready or aborted stays so.
    pub open spec fn after(self, succeeded: bool) -> Startup {
        match self {
            Startup::Due(stage) => if !succeeded {
                Startup::Aborted(stage)
            } else {
                match stage.following() {
                    Some(next) => Startup::Due(next),
                    None => Startup::Ready,
                }
            },
            Startup::Ready => Startup::Ready,
            Startup::Aborted(stage) => Startup::Aborted(stage),
        }
    }

    /// The state after a run of steps ended as `outcomes` tells.
    pub open spec fn after_all(self, outcomes: Seq<bool>) -> Startup
        decreases outcomes.len(),
    {
        if outcomes.len() == 0 {
            self
        } else {
            self.after_all(outcomes.drop_last()).after(outcomes.last())
        }
    }

    pub fn begin() -> (start: Startup)
        ensures
            start == Startup::Due(Stage::ErrorTracker),
    {
        Startup::Due(Stage::ErrorTracker)
    }

    /// Takes the outcome of the step that was due and says what is due next.
    pub fn advance(self, succeeded: bool) -> (next: Startup)
        ensures
            next == self.after(succeeded),
    {
        match self {
            Startup::Due(stage) => {
                if !succeeded {
                    Startup::Aborted(stage)
                } else {
                    match stage {
                        Stage::ErrorTracker => Startup::Due(Stage::LogPipeline),
                        Stage::LogPipeline => Startup::Due(Stage::TracePipeline),
                        Stage::TracePipeline => Startup::Due(Stage::MetricPipeline),
                        Stage::MetricPipeline => Startup::Due(Stage::FanOutLogger),
                        Stage::FanOutLogger => Startup::Due(Stage::Install),
                        Stage::Install => Startup::Ready,
                    }
                }
            },
            Startup::Ready => Startup::Ready,
            Startup::Aborted(stage) => Startup::Aborted(stage),
        }
    }
}

/// A start-up whose steps all succeed runs them in order and ends ready.
pub proof fn lemma_startup_runs_in_order(done: int)
    requires
        0 <= done <= 6,
    ensures
        Startup::Due(Stage::ErrorTracker).after_all(Seq::new(done as nat, |i: int| true)) == (if done
            < 6 {
            Startup::Due(startup_order()[done])
        } else {
            Startup::Ready
        }),
    decreases done,
{
    let outcomes = Seq::new(done as nat, |i: int| true);
    if done > 0 {
        lemma_startup_runs_in_order(done - 1);
        assert(outcomes.drop_last() =~= Seq::new((done - 1) as nat, |i: int| true));
        assert(outcomes.last());
    }
}

/// The first step that fails aborts the start-up and is the one reported:
/// no later step changes that.
pub proof fn lemma_first_failure_aborts(state: Startup, stage: Stage, later: Seq<bool>)
    requires
        state == Startup::Due(stage),
    ensures
        state.after(false).after_all(later) == Startup::Aborted(stage),
    decreases later.len(),
{
    if later.len() > 0 {
        lemma_first_failure_aborts(state, stage, later.drop_last());
    }
}

/// Whether a text is taken as the address of the error tracker.
pub uninterp spec fn dsn_accepted(dsn: Seq<char>) -> bool;

/// Calls `sentry::IntoDsn::into_dsn` on the text and tells whether it gave
/// no error. The empty text is taken: it stands for no error tracker.
#[verifier::external_body]
fn dsn_parses(dsn: &str) -> (ok: bool)
    ensures
        ok == dsn_accepted(dsn@),
        dsn@.len() == 0 ==> ok,
{
    sentry::IntoDsn::into_dsn(dsn).is_ok()
}

/// The state of the start-up once the error tracker's address was looked
/// at: the log pipeline is due where the address is taken, and the start-up
/// is aborted at its first stage where it is not.
pub fn error_tracker_stage(dsn: &str) -> (state: Startup)
    ensures
        state == Startup::Due(Stage::ErrorTracker).after(dsn_accepted(dsn@)),
        dsn@.len() == 0 ==> state == Startup::Due(Stage::LogPipeline),
{
    Startup::begin().advance(dsn_parses(dsn))
}

/// A sink of the fan-out logger.
#[derive(Clone, Copy, Debug, PartialEq, Eq, Structural)]
pub enum Sink {
    Console,
    ErrorTracker,
    Exporter,
}

/// The sinks in the order in which a record is handed to them.
pub open spec fn sinks() -> Seq<Sink> {
    seq![Sink::Console, Sink::ErrorTracker, Sink::Exporter]
}

impl Sink {
    /// The sink that gets a record after this one.
    pub open spec fn following(self) -> Option<Sink> {
        match self {
            Sink::Console => Some(Sink::ErrorTracker),
            Sink::ErrorTracker => Some(Sink::Exporter),
            Sink::Exporter => None,
        }
    }

    /// Whether a flush reaches the sink. The error tracker is not flushed.
    pub open spec fn is_flushed(self) -> bool {
        self != Sink::ErrorTracker
    }

    pub fn first() -> (sink: Sink)
        ensures
            sink == sinks()[0],
    {
        Sink::Console
    }

    /// The sink to hand the record to next. Whether this sink took the
    /// record does not matter.
    pub fn next(self, accepted: bool) -> (next: Option<Sink>)
        ensures
            next == self.following(),
    {
        match self {
            Sink::Console => Some(Sink::ErrorTracker),
            Sink::ErrorTracker => Some(Sink::Exporter),
            Sink::Exporter => None,
        }
    }

    pub fn flushed(self) -> (flushed: bool)
        ensures
            flushed == self.is_flushed(),
    {
        match self {
            Sink::ErrorTracker => false,
            _ => true,
        }
    }
}

/// The sinks that one record is handed to, starting at `from`, where
/// `accepted` tells of each sink in turn whether it took the record.
pub open spec fn offered(from: Option<Sink>, accepted: Seq<bool>) -> Seq<Sink>
    decreases accepted.len(),
{
    match from {
        Some(sink) => if accepted.len() == 0 {
            Seq::empty()
        } else {
            seq![sink] + offered(sink.following(), accepted.drop_first())
        },
        None => Seq::empty(),
    }
}

/// A record reaches every sink, in order, whichever of them fail to take it.
pub proof fn lemma_every_sink_is_offered(accepted: Seq<bool>)
    requires
        accepted.len() == 3,
    ensures
        offered(Some(Sink::Console), accepted) == sinks(),
{
    let second = accepted.drop_first();
    let third = second.drop_first();
    assert(second.len() == 2);
    assert(third.len() == 1);
    assert(offered(Some(Sink::Exporter), third) =~= seq![Sink::Exporter]) by {
        assert(offered(None, third.drop_first()) =~= Seq::<Sink>::empty());
    }
    assert(offered(Some(Sink::ErrorTracker), second) =~= seq![Sink::ErrorTracker, Sink::Exporter]);
    assert(offered(Some(Sink::Console), accepted) =~= sinks());
}

/// Whether a record is worth building: it is as soon as one sink wants it.
pub fn enabled(console: bool, tracker: bool, exporter: bool) -> (any: bool)
    ensures
        any == (console || tracker || exporter),
{
    console || tracker || exporter
}

/// A digit of lower-case hexadecimal.
pub open spec fn is_lower_hex(c: char) -> bool {
    ('0' <= c && c <= '9') || ('a' <= c && c <= 'f')
}

/// The shape in which a trace id is written: 32 digits of lower-case
/// hexadecimal.
pub open spec fn is_trace_id_text(id: Seq<char>) -> bool {
    id.len() == 32 && forall|i: int| 0 <= i < 32 ==> is_lower_hex(#[trigger] id[i])
}

/// The digit of lower-case hexadecimal that stands for a number below 16.
pub open spec fn hex_digit(d: nat) -> char {
    if d == 0 {
        '0'
    } else if d == 1 {
        '1'
    } else if d == 2 {
        '2'
    } else if d == 3 {
        '3'
    } else if d == 4 {
        '4'
    } else if d == 5 {
        '5'
    } else if d == 6 {
        '6'
    } else if d == 7 {
        '7'
    } else if d == 8 {
        '8'
    } else if d == 9 {
        '9'
    } else if d == 10 {
        'a'
    } else if d == 11 {
        'b'
    } else if d == 12 {
        'c'
    } else if d == 13 {
        'd'
    } else if d == 14 {
        'e'
    } else {
        'f'
    }
}

/// The last `count` digits of a number in hexadecimal, the most significant
/// first, with zeros in front where the number is short.
pub open spec fn hex_digits(value: nat, count: nat) -> Seq<char>
    decreases count,
{
    if count == 0 {
        Seq::empty()
    } else {
        hex_digits(value / 16, (count - 1) as nat).push(hex_digit(value % 16))
    }
}

/// A trace id as it is written: all of its 32 digits.
pub open spec fn hex32(trace_id: u128) -> Seq<char> {
    hex_digits(trace_id as nat, 32)
}

/// Digits of hexadecimal are as many as were asked for, and each is one.
pub proof fn lemma_hex_digits_have_their_shape(value: nat, count: nat)
    ensures
        hex_digits(value, count).len() == count,
        forall|i: int| 0 <= i < count ==> is_lower_hex(#[trigger] hex_digits(value, count)[i]),
    decreases count,
{
    if count > 0 {
        lemma_hex_digits_have_their_shape(value / 16, (count - 1) as nat);
        assert(is_lower_hex(hex_digit(value % 16)));
    }
}

/// Makes an `opentelemetry::trace::TraceId` of the number and renders it
/// with `to_string`, which writes it as 32 digits of lower-case hexadecimal,
/// padded with zeros.
#[verifier::external_body]
fn render_trace_id(trace_id: u128) -> (id: String)
    ensures
        id@ == hex32(trace_id),
{
    opentelemetry::trace::TraceId::from(trace_id).to_string()
}

/// The tag that marks an event as belonging to a trace: under the key
/// `otel-trace-id`, the trace id as 32 digits of lower-case hexadecimal.
pub fn trace_tag_for(trace_id: u128) -> (tag: (String, String))
    ensures
        tag.0@ == "otel-trace-id"@,
        tag.1@ == hex32(trace_id),
        is_trace_id_text(tag.1@),
{
    proof {
        lemma_hex_digits_have_their_shape(trace_id as nat, 32);
    }
    ("otel-trace-id".to_owned(), render_trace_id(trace_id))
}

/// The tag that every event sent to the error tracker carries: the tag for
/// the id of the trace that is active on this thread, which is zero where
/// none is.
pub fn trace_tag() -> (tag: (String, String))
    ensures
        tag.0@ == "otel-trace-id"@,
        exists|trace_id: u128| tag.1@ == #[trigger] hex32(trace_id),
        is_trace_id_text(tag.1@),
{
    let context = current_context();
    let active = span_of(&context);
    trace_tag_for(active.trace_id)
}

} // verus!
