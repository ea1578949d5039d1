//! Taking samples in as they are decoded: the producer's steps, and the
//! consumer's choice of what to keep and when to stop.

use vstd::prelude::*;
use crate::decode::decode_location;
use crate::decode::history_decodes;
use crate::decode::history_failure;
use crate::decode::lemma_no_failure_anywhere;
use crate::decode::location_decodes;
use crate::decode::location_failure;
use crate::decode::RawLocation;
use crate::error::DecodeError;
use crate::error::IngestError;
use crate::location::Location;
use crate::sorting::reversed;
use crate::timestamp::Moment;
use crate::timestamp::Timestamp;

verus! {

/// How a run of the producer ended.
#[derive(Debug, Clone, Copy, PartialEq, Eq, Structural)]
pub enum Completion {
    /// Every record of the document was decoded and handed over.
    EndOfStream,
    /// The consumer went away; the rest of the document was not read. This
    /// is a regular way to end, not a failure.
    ChannelDisconnected,
    /// A record could not be decoded; what was handed over before stands.
    Failed(IngestError),
}

/// What the producer does next.
#[derive(Debug)]
pub enum ProducerStep {
    /// Hand this sample over, then come back with the next record.
    Send(Location),
    /// Stop reading.
    Finish(Completion),
}

impl Completion {
    /// Whether the run ended in a failure.
    pub fn is_failure(&self) -> (r: bool)
        ensures
            r == (*self is Failed),
    {
        match self {
            Completion::Failed(_) => true,
            _ => false,
        }
    }
}

/// What the producer found next in the list of records.
#[derive(Debug)]
pub enum ProducerEvent {
    /// One more record, with these fields.
    Record(RawLocation),
    /// The end of the list.
    EndOfList,
    /// Something that is no record: the list breaks off, or the text is not
    /// well formed.
    Malformed,
}

/// Decides whether the producer can start. The document must hold the list
/// of records under its key, and what stands there must be a list; else the
/// run ends at once with the failure.
pub fn producer_start(key_found: bool, list_opened: bool) -> (r: Option<Completion>)
    ensures
        !key_found ==> r == Some(
            Completion::Failed(IngestError::Decode(DecodeError::MissingField)),
        ),
        key_found && !list_opened ==> r == Some(
            Completion::Failed(IngestError::Decode(DecodeError::WrongShape)),
        ),
        key_found && list_opened ==> r is None,
{
    if !key_found {
        Some(Completion::Failed(IngestError::Decode(DecodeError::MissingField)))
    } else if !list_opened {
        Some(Completion::Failed(IngestError::Decode(DecodeError::WrongShape)))
    } else {
        None
    }
}

/// How the step on this event ends the run, if it does: the end of the
/// list ends it regularly, a break in the document or a record that cannot
/// be read ends it with the failure. `None` where the step sends a sample.
pub open spec fn step_end(event: ProducerEvent) -> Option<Completion> {
    match event {
        ProducerEvent::EndOfList => Some(Completion::EndOfStream),
        ProducerEvent::Malformed => Some(
            Completion::Failed(IngestError::Decode(DecodeError::WrongShape)),
        ),
        ProducerEvent::Record(raw) => match location_failure(raw) {
            Some(e) => Some(Completion::Failed(e)),
            None => None,
        },
    }
}

/// How a hand-over ends the run, if it does: a sample that could not be
/// delivered ends it, regularly.
pub open spec fn send_end(delivered: bool) -> Option<Completion> {
    if delivered {
        None
    } else {
        Some(Completion::ChannelDisconnected)
    }
}

/// Decides the producer's step from what it found next in the list: a
/// record that can be read is sent; one that cannot, or a break in the
/// document, ends the run with the failure; the end of the list ends it
/// regularly.
pub fn producer_step(event: ProducerEvent) -> (r: ProducerStep)
    ensures
        match step_end(event) {
            Some(completion) => r matches ProducerStep::Finish(c) && c == completion,
            None => r matches ProducerStep::Send(sample) && event matches ProducerEvent::Record(raw)
                && location_decodes(raw, sample),
        },
{
    match event {
        ProducerEvent::EndOfList => ProducerStep::Finish(Completion::EndOfStream),
        ProducerEvent::Malformed => ProducerStep::Finish(
            Completion::Failed(IngestError::Decode(DecodeError::WrongShape)),
        ),
        ProducerEvent::Record(raw) => match decode_location(&raw) {
            Ok(sample) => ProducerStep::Send(sample),
            Err(e) => ProducerStep::Finish(Completion::Failed(e)),
        },
    }
}

/// Decides whether the producer goes on after a hand-over: it stops, with a
/// regular completion, as soon as a sample could not be delivered.
pub fn after_send(delivered: bool) -> (r: Option<Completion>)
    ensures
        r == send_end(delivered),
{
    if delivered {
        None
    } else {
        Some(Completion::ChannelDisconnected)
    }
}

/// The run of the producer from the event at `at` on, where every event
/// before it led to a hand-over that succeeded: the number of hand-overs
/// tried in the whole run, and how the run completes. `delivered` says of
/// each hand-over whether it succeeds. A run that is still going when the
/// events are used up has no completion.
pub open spec fn run_from(events: Seq<ProducerEvent>, delivered: Seq<bool>, at: int) -> (
    int,
    Option<Completion>,
)
    decreases events.len() - at,
{
    if at < 0 || at >= events.len() {
        (at, None)
    } else {
        match step_end(events[at]) {
            Some(completion) => (at, Some(completion)),
            None => match send_end(at < delivered.len() && delivered[at]) {
                Some(completion) => (at + 1, Some(completion)),
                None => run_from(events, delivered, at + 1),
            },
        }
    }
}

/// The whole run of the producer over the events.
pub open spec fn run(events: Seq<ProducerEvent>, delivered: Seq<bool>) -> (int, Option<Completion>) {
    run_from(events, delivered, 0)
}

/// The samples handed over in a run and the answers they got: each sample
/// is what the record at its place stands for, and each answer is what the
/// hand-over gave for it.
pub open spec fn is_handed_over<F: Fn(Location) -> bool>(
    deliver: F,
    events: Seq<ProducerEvent>,
    sent: Seq<Location>,
    delivered: Seq<bool>,
) -> bool {
    &&& sent.len() == delivered.len()
    &&& sent.len() <= events.len()
    &&& forall|i: int|
        0 <= i < sent.len() ==> {
            &&& events[i] matches ProducerEvent::Record(raw) && location_decodes(
                raw,
                #[trigger] sent[i],
            )
            &&& call_ensures(deliver, (sent[i],), delivered[i])
        }
}

/// `tried` hand-overs and this completion are what a run of the producer
/// over the events comes to, for some samples handed over in the order of
/// the events and the answers they got.
pub open spec fn is_run_of<F: Fn(Location) -> bool>(
    deliver: F,
    events: Seq<ProducerEvent>,
    tried: int,
    completion: Option<Completion>,
) -> bool {
    exists|sent: Seq<Location>, delivered: Seq<bool>| #[trigger]
        is_handed_over(deliver, events, sent, delivered) && sent.len() == tried && run(
            events,
            delivered,
        ) == (tried, completion)
}

/// A run that has come to the event at `at`, every hand-over before it
/// having succeeded, goes on from there.
pub proof fn lemma_run_goes_on(
    events: Seq<ProducerEvent>,
    delivered: Seq<bool>,
    from: int,
    at: int,
)
    requires
        0 <= from <= at <= events.len(),
        at <= delivered.len(),
        forall|i: int| 0 <= i < at ==> step_end(#[trigger] events[i]) is None,
        forall|i: int| 0 <= i < at ==> #[trigger] delivered[i],
    ensures
        run_from(events, delivered, from) == run_from(events, delivered, at),
    decreases at - from,
{
    if from < at {
        assert(step_end(events[from]) is None);
        assert(delivered[from]);
        lemma_run_goes_on(events, delivered, from + 1, at);
    }
}

/// Runs the producer over events that were read beforehand: hands the
/// sample of each record to `deliver`, in order, until an event ends the
/// run or a hand-over fails. Returns the number of hand-overs tried and how
/// the run completed; `None` where the events were used up before the run
/// was over.
pub fn produce<F: Fn(Location) -> bool>(events: Vec<ProducerEvent>, deliver: F) -> (r: (
    usize,
    Option<Completion>,
))
    requires
        forall|sample: Location| call_requires(deliver, (sample,)),
    ensures
        is_run_of(deliver, events@, r.0 as int, r.1),
{
    let count: usize = events.len();
    let mut stack: Vec<ProducerEvent> = reversed(events);
    let ghost mut sent: Seq<Location> = Seq::empty();
    let ghost mut delivered: Seq<bool> = Seq::empty();
    let mut i: usize = 0;
    while i < count
        invariant
            0 <= i <= count,
            count == events@.len(),
            stack@.len() == count - i,
            forall|p: int| 0 <= p < stack@.len() ==> stack@[p] == events@[count - 1 - p],
            forall|sample: Location| call_requires(deliver, (sample,)),
            sent.len() == i,
            is_handed_over(deliver, events@, sent, delivered),
            forall|j: int| 0 <= j < i ==> step_end(#[trigger] events@[j]) is None,
            forall|j: int| 0 <= j < i ==> delivered[j],
        decreases count - i,
    {
        let next = stack.pop();
        let event: ProducerEvent = match next {
            Some(event) => event,
            None => ProducerEvent::Malformed,
        };
        assert(event == events@[i as int]);
        match producer_step(event) {
            ProducerStep::Finish(completion) => {
                proof {
                    lemma_run_goes_on(events@, delivered, 0, i as int);
                    assert(run(events@, delivered) == (i as int, Some(completion)));
                }
                return (i, Some(completion));
            },
            ProducerStep::Send(sample) => {
                let ghost handed = sample;
                let ghost before_sent = sent;
                let ghost before_delivered = delivered;
                let answer: bool = deliver(sample);
                proof {
                    sent = before_sent.push(handed);
                    delivered = before_delivered.push(answer);
                    assert forall|j: int| 0 <= j < sent.len() implies {
                        &&& events@[j] matches ProducerEvent::Record(raw) && location_decodes(
                            raw,
                            #[trigger] sent[j],
                        )
                        &&& call_ensures(deliver, (sent[j],), delivered[j])
                    } by {
                        if j < i {
                            assert(sent[j] == before_sent[j]);
                            assert(delivered[j] == before_delivered[j]);
                        }
                    }
                    assert(is_handed_over(deliver, events@, sent, delivered));
                }
                match after_send(answer) {
                    Some(completion) => {
                        proof {
                            assert forall|j: int| 0 <= j < i implies #[trigger] delivered[j] by {
                                assert(before_delivered[j]);
                            }
                            lemma_run_goes_on(events@, delivered, 0, i as int);
                            assert(run(events@, delivered) == (i + 1, Some(completion)));
                        }
                        return (i + 1, Some(completion));
                    },
                    None => {
                        proof {
                            assert forall|j: int| 0 <= j < i + 1 implies delivered[j] by {
                                if j < i {
                                    assert(before_delivered[j]);
                                }
                            }
                        }
                    },
                }
            },
        }
        i = i + 1;
    }
    proof {
        lemma_run_goes_on(events@, delivered, 0, count as int);
        assert(run(events@, delivered) == (count as int, None::<Completion>));
    }
    (count, None)
}

/// What the producer finds in a document with these records: each record
/// in turn, then the end of the list.
pub open spec fn document_events(raws: Seq<RawLocation>) -> Seq<ProducerEvent> {
    Seq::new(
        raws.len() + 1,
        |i: int|
            if i < raws.len() {
                ProducerEvent::Record(raws[i])
            } else {
                ProducerEvent::EndOfList
            },
    )
}

/// Over a document whose records can all be read, with a consumer that
/// stays, the producer hands over once for each record, in the order of the
/// document, and completes with the end of the stream.
pub proof fn lemma_streaming_round_trip(raws: Seq<RawLocation>, delivered: Seq<bool>)
    requires
        history_failure(raws) is None,
        delivered.len() >= raws.len(),
        forall|i: int| 0 <= i < raws.len() ==> delivered[i],
    ensures
        run(document_events(raws), delivered) == (
            raws.len() as int,
            Some(Completion::EndOfStream),
        ),
        forall|i: int|
            0 <= i < raws.len() ==> step_end(#[trigger] document_events(raws)[i]) is None,
{
    let events = document_events(raws);
    let outcomes = Seq::new(raws.len(), |i: int| location_failure(raws[i]));
    assert forall|i: int| 0 <= i < raws.len() implies step_end(#[trigger] events[i]) is None by {
        lemma_no_failure_anywhere(outcomes, i);
        assert(outcomes[i] == location_failure(raws[i]));
    }
    lemma_run_to_the_end(events, delivered, raws.len() as int, 0);
}

/// Whatever run the producer makes over a document whose records can all
/// be read, with a consumer that takes every sample: it hands over exactly
/// once for each record and completes with the end of the stream.
pub proof fn lemma_run_over_document<F: Fn(Location) -> bool>(
    deliver: F,
    raws: Seq<RawLocation>,
    tried: int,
    completion: Option<Completion>,
)
    requires
        history_failure(raws) is None,
        forall|sample: Location, answer: bool|
            call_ensures(deliver, (sample,), answer) ==> answer,
        is_run_of(deliver, document_events(raws), tried, completion),
    ensures
        tried == raws.len(),
        completion == Some(Completion::EndOfStream),
{
    let events = document_events(raws);
    let (sent, delivered) = choose|sent: Seq<Location>, delivered: Seq<bool>| #[trigger]
        is_handed_over(deliver, events, sent, delivered) && sent.len() == tried && run(
            events,
            delivered,
        ) == (tried, completion);
    lemma_streaming_round_trip(raws, Seq::new(raws.len(), |i: int| true));
    assert forall|i: int| 0 <= i < tried implies #[trigger] delivered[i] by {
        assert(call_ensures(deliver, (sent[i],), delivered[i]));
    }
    if tried > raws.len() {
        // a sample would stand for the end of the list, which is no record
        let end = raws.len() as int;
        let beyond = sent[end];
        assert(events[end] is Record);
        assert(events[end] == ProducerEvent::EndOfList);
    } else {
        assert forall|i: int| 0 <= i < tried implies step_end(#[trigger] events[i]) is None by {
            assert(step_end(document_events(raws)[i]) is None);
        }
        lemma_run_goes_on(events, delivered, 0, tried);
        if tried < raws.len() {
            assert(step_end(document_events(raws)[tried]) is None);
        }
    }
}

/// A run whose events up to `end` all lead to hand-overs that succeed, and
/// whose event at `end` is the end of the list, tries `end` hand-overs and
/// completes with the end of the stream.
proof fn lemma_run_to_the_end(
    events: Seq<ProducerEvent>,
    delivered: Seq<bool>,
    end: int,
    at: int,
)
    requires
        0 <= at <= end < events.len(),
        end <= delivered.len(),
        events[end] == ProducerEvent::EndOfList,
        forall|i: int| 0 <= i < end ==> step_end(#[trigger] events[i]) is None,
        forall|i: int| 0 <= i < end ==> delivered[i],
    ensures
        run_from(events, delivered, at) == (end, Some(Completion::EndOfStream)),
    decreases end - at,
{
    if at < end {
        assert(step_end(events[at]) is None);
        assert(delivered[at]);
        lemma_run_to_the_end(events, delivered, end, at + 1);
    }
}

/// The span of wall-clock time the consumer keeps samples from: from
/// `start` on, and before `end`. Each instant is read at its own offset. A
/// bound that is `None` is no bound.
#[derive(Debug, Clone, Copy)]
pub struct Window {
    /// The first wall-clock time kept.
    pub start: Option<Timestamp>,
    /// The first wall-clock time no longer kept.
    pub end: Option<Timestamp>,
}

impl Window {
    /// Whether the span holds the instant.
    pub open spec fn admits(self, t: Moment) -> bool {
        &&& self.start matches Some(start) ==> !t.local_precedes(start@)
        &&& self.end matches Some(end) ==> t.local_precedes(end@)
    }

    /// Whether the span holds the instant.
    pub fn contains(&self, t: &Timestamp) -> (r: bool)
        ensures
            r == self.admits(t@),
    {
        let late_enough: bool = match &self.start {
            Some(start) => !t.is_locally_before(start),
            None => true,
        };
        let early_enough: bool = match &self.end {
            Some(end) => t.is_locally_before(end),
            None => true,
        };
        late_enough && early_enough
    }
}

/// Whether the consumer goes on listening.
#[derive(Debug, Clone, Copy, PartialEq, Eq, Structural)]
pub enum Progress {
    /// Offer the next sample.
    Continue,
    /// The cap is reached: stop listening.
    Stop,
}

/// The cap is reached: something is kept, and as much as the cap asks for.
pub open spec fn is_full(limit: Option<usize>, kept: Seq<Location>) -> bool {
    limit matches Some(n) && kept.len() > 0 && kept.len() >= n
}

/// What the consumer keeps of the samples offered in this order: those in
/// the window, until the cap is reached. The cap is looked at after a sample
/// is kept, so one sample is kept even under a cap of nothing.
pub open spec fn collected(window: Window, limit: Option<usize>, samples: Seq<Location>) -> Seq<
    Location,
>
    decreases samples.len(),
{
    if samples.len() == 0 {
        Seq::empty()
    } else {
        let before = collected(window, limit, samples.drop_last());
        if !is_full(limit, before) && window.admits(samples.last().timestamp@) {
            before.push(samples.last())
        } else {
            before
        }
    }
}

/// With no bounds and no cap, everything offered is kept, in order.
pub proof fn lemma_unfiltered_keeps_all(samples: Seq<Location>)
    ensures
        collected(Window { start: None, end: None }, None, samples) == samples,
    decreases samples.len(),
{
    if samples.len() > 0 {
        lemma_unfiltered_keeps_all(samples.drop_last());
        assert(samples.drop_last().push(samples.last()) =~= samples);
    }
}

/// Decoding a document and taking everything in gives one sample for each
/// record of the document.
pub proof fn lemma_round_trip_keeps_count(raws: Seq<RawLocation>, samples: Seq<Location>)
    requires
        history_decodes(raws, samples),
    ensures
        collected(Window { start: None, end: None }, None, samples).len() == raws.len(),
{
    lemma_unfiltered_keeps_all(samples);
}

/// Once the cap is reached, nothing offered later is kept.
pub proof fn lemma_full_stays(window: Window, limit: Option<usize>, samples: Seq<Location>, n: int)
    requires
        0 <= n <= samples.len(),
        is_full(limit, collected(window, limit, samples.take(n))),
    ensures
        collected(window, limit, samples) == collected(window, limit, samples.take(n)),
    decreases samples.len() - n,
{
    if n < samples.len() {
        assert(samples.take(n + 1).drop_last() =~= samples.take(n));
        lemma_full_stays(window, limit, samples, n + 1);
    } else {
        assert(samples.take(n) =~= samples);
    }
}

/// The consumer's side of ingestion: what it keeps, and how many samples
/// it was offered.
#[derive(Debug)]
pub struct Collector {
    /// The span of time samples are kept from.
    pub window: Window,
    /// The number of samples at which to stop, if any.
    pub limit: Option<usize>,
    /// The samples kept so far, in the order they were offered.
    pub locations: Vec<Location>,
    /// How many samples were offered so far; stays at the greatest number
    /// it can hold.
    pub parsed: u64,
}

impl Collector {
    /// A consumer that has seen nothing yet.
    pub fn new(window: Window, limit: Option<usize>) -> (r: Collector)
        ensures
            r.window == window,
            r.limit == limit,
            r.locations@.len() == 0,
            r.parsed == 0,
    {
        Collector { window, limit, locations: Vec::new(), parsed: 0 }
    }

    /// Takes one sample in: counts it, keeps it if the window holds its
    /// instant, and says to stop once a sample was kept and the cap is
    /// reached.
    pub fn offer(&mut self, sample: Location) -> (r: Progress)
        ensures
            final(self).window == old(self).window,
            final(self).limit == old(self).limit,
            final(self).parsed == if old(self).parsed < u64::MAX {
                old(self).parsed + 1
            } else {
                u64::MAX as int
            },
            final(self).locations@ == if old(self).window.admits(sample.timestamp@) {
                old(self).locations@.push(sample)
            } else {
                old(self).locations@
            },
            r == Progress::Stop <==> (old(self).window.admits(sample.timestamp@) && is_full(
                old(self).limit,
                final(self).locations@,
            )),
    {
        if self.parsed < u64::MAX {
            self.parsed = self.parsed + 1;
        }
        if !self.window.contains(&sample.timestamp) {
            return Progress::Continue;
        }
        self.locations.push(sample);
        match self.limit {
            Some(n) => {
                if self.locations.len() >= n {
                    Progress::Stop
                } else {
                    Progress::Continue
                }
            },
            None => Progress::Continue,
        }
    }

    /// Hands over what was kept.
    pub fn into_locations(self) -> (r: Vec<Location>)
        ensures
            r@ == self.locations@,
    {
        self.locations
    }
}

/// Offers the samples in order to a fresh consumer, until it says to stop,
/// and returns what it kept.
pub fn collect(window: Window, limit: Option<usize>, samples: Vec<Location>) -> (r: Vec<Location>)
    ensures
        r@ == collected(window, limit, samples@),
{
    let count: usize = samples.len();
    let mut stack: Vec<Location> = reversed(samples);
    let mut collector: Collector = Collector::new(window, limit);
    let mut i: usize = 0;
    assert(collector.locations@ =~= collected(window, limit, samples@.take(0)));
    while i < count
        invariant
            0 <= i <= count,
            count == samples@.len(),
            stack@.len() == count - i,
            forall|p: int| 0 <= p < stack@.len() ==> stack@[p] == samples@[count - 1 - p],
            collector.window == window,
            collector.limit == limit,
            collector.locations@ == collected(window, limit, samples@.take(i as int)),
            !is_full(limit, collector.locations@),
        decreases count - i,
    {
        let next = stack.pop();
        match next {
            Some(sample) => {
                proof {
                    assert(samples@.take(i + 1).drop_last() =~= samples@.take(i as int));
                    assert(samples@.take(i + 1).last() == sample);
                }
                match collector.offer(sample) {
                    Progress::Stop => {
                        proof {
                            lemma_full_stays(window, limit, samples@, i + 1);
                        }
                        return collector.into_locations();
                    },
                    Progress::Continue => {},
                }
            },
            None => {},
        }
        i = i + 1;
    }
    assert(samples@.take(count as int) =~= samples@);
    collector.into_locations()
}

} // verus!
