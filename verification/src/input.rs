use vstd::prelude::*;
use std::collections::VecDeque;
use std::rc::Rc;
use crate::record::{expand, record_valid, sample_at, values_view, Record, RecordView};
use crate::sample::{sample_valid, views, Sample, SampleView};
use crate::source::{DecodeError, Decoder, ReadError, Reader};

verus! {

/// One thing that the source did.
pub enum Event {
    /// It handed out a chunk that decoded into a record.
    Decoded(RecordView),
    /// It handed out a chunk that the decoder refused.
    Malformed(Seq<u8>, DecodeError),
    /// It failed to hand out a chunk.
    Failed(ReadError),
    /// It reported its end.
    Ended,
}

/// Whether an event is the last that a source can give: its end, or a
/// failure of its reader.
pub open spec fn is_final(event: Event) -> bool {
    event is Failed || event is Ended
}

/// Nothing follows the end of a source or a failure of its reader.
pub open spec fn final_is_last(events: Seq<Event>) -> bool {
    forall|i: int| 0 <= i < events.len() && is_final(#[trigger] events[i]) ==> i == events.len() - 1
}

/// Whether a source with these events behind it is pulled no more: it has
/// ended or failed, or it has given as many events as an input can count.
pub open spec fn exhausted(events: Seq<Event>) -> bool {
    (events.len() > 0 && is_final(events.last())) || events.len() >= u64::MAX
}

/// The samples that one event gives: those of its record, and none for a
/// failure.
pub open spec fn event_samples(event: Event) -> Seq<SampleView> {
    match event {
        Event::Decoded(record) => expand(record),
        _ => Seq::empty(),
    }
}

/// The samples that a run of events gives: those of each decoded record, in
/// the order of the records.
pub open spec fn samples_of(events: Seq<Event>) -> Seq<SampleView>
    decreases events.len(),
{
    if events.len() == 0 {
        Seq::empty()
    } else {
        samples_of(events.drop_last()) + event_samples(events.last())
    }
}

/// The failures among a run of events, in their order: the chunks that the
/// decoder refused and the failure of the reader.
pub open spec fn failures_of(events: Seq<Event>) -> Seq<Event>
    decreases events.len(),
{
    if events.len() == 0 {
        Seq::empty()
    } else if events.last() is Malformed || events.last() is Failed {
        failures_of(events.drop_last()).push(events.last())
    } else {
        failures_of(events.drop_last())
    }
}

/// One more event adds its samples at the end.
pub proof fn lemma_samples_of_push(events: Seq<Event>, event: Event)
    ensures
        samples_of(events.push(event)) == samples_of(events) + event_samples(event),
{
    assert(events.push(event).drop_last() =~= events);
}

/// A longer run of events gives the samples of the shorter one, then more.
pub proof fn lemma_samples_of_prefix(shorter: Seq<Event>, longer: Seq<Event>)
    requires
        shorter.is_prefix_of(longer),
    ensures
        samples_of(shorter).is_prefix_of(samples_of(longer)),
    decreases longer.len(),
{
    if shorter.len() == longer.len() {
        assert(shorter =~= longer);
    } else {
        assert(shorter.is_prefix_of(longer.drop_last()));
        lemma_samples_of_prefix(shorter, longer.drop_last());
    }
}

/// Every record among the events is valid.
pub open spec fn records_valid(events: Seq<Event>) -> bool {
    forall|i: int|
        0 <= i < events.len() ==> match #[trigger] events[i] {
            Event::Decoded(record) => record_valid(record),
            _ => true,
        }
}

/// Valid records give valid samples: each names its metric and has a value
/// that can change sign.
pub proof fn lemma_samples_valid(events: Seq<Event>, i: int)
    requires
        records_valid(events),
        0 <= i < samples_of(events).len(),
    ensures
        sample_valid(samples_of(events)[i]),
    decreases events.len(),
{
    let earlier = samples_of(events.drop_last());
    if i < earlier.len() {
        let shorter = events.drop_last();
        assert forall|k: int| 0 <= k < shorter.len() implies match #[trigger] shorter[k] {
            Event::Decoded(record) => record_valid(record),
            _ => true,
        } by {
            assert(shorter[k] == events[k]);
        }
        lemma_samples_valid(shorter, i);
    } else {
        assert(events[events.len() - 1] == events.last());
        match events.last() {
            Event::Decoded(record) => {
                let at = i - earlier.len();
                assert(samples_of(events)[i] == sample_at(record, at));
                assert(record.values[at].0.len() > 0);
            },
            _ => {},
        }
    }
}

/// The records among a run of events, in their order.
pub open spec fn records_of(events: Seq<Event>) -> Seq<RecordView>
    decreases events.len(),
{
    if events.len() == 0 {
        Seq::empty()
    } else {
        match events.last() {
            Event::Decoded(record) => records_of(events.drop_last()).push(record),
            _ => records_of(events.drop_last()),
        }
    }
}

/// The samples that a sequence of records gives: those of each record, in
/// the order of the records.
pub open spec fn expand_all(records: Seq<RecordView>) -> Seq<SampleView>
    decreases records.len(),
{
    if records.len() == 0 {
        Seq::empty()
    } else {
        expand_all(records.drop_last()) + expand(records.last())
    }
}

/// The samples of a run of events are the full expansion of the records
/// that were decoded, in their order; a failure adds nothing and takes
/// nothing away.
pub proof fn lemma_samples_of_records(events: Seq<Event>)
    ensures
        samples_of(events) == expand_all(records_of(events)),
    decreases events.len(),
{
    if events.len() > 0 {
        lemma_samples_of_records(events.drop_last());
        let earlier = records_of(events.drop_last());
        match events.last() {
            Event::Decoded(record) => {
                assert(earlier.push(record).drop_last() =~= earlier);
            },
            _ => {
                assert(samples_of(events) =~= samples_of(events.drop_last()));
            },
        }
    }
}

/// A chunk that fails to decode is isolated: the samples of the run are
/// those of the run without that chunk, in the same order.
pub proof fn lemma_failure_isolated(events: Seq<Event>, k: int)
    requires
        0 <= k < events.len(),
        !(events[k] is Decoded),
    ensures
        samples_of(events) == samples_of(events.remove(k)),
        records_of(events) == records_of(events.remove(k)),
    decreases events.len(),
{
    if k == events.len() - 1 {
        assert(events.remove(k) =~= events.drop_last());
        assert(samples_of(events) =~= samples_of(events.drop_last()));
    } else {
        lemma_failure_isolated(events.drop_last(), k);
        assert(events.remove(k).drop_last() =~= events.drop_last().remove(k));
        assert(events.remove(k).last() == events.last());
    }
}

/// A failure that the input met while it pulled from its source, kept for
/// the caller to report.
#[derive(Debug)]
pub enum Diagnostic {
    /// The reader failed; the input reads no further.
    ReadFailed(ReadError),
    /// The decoder refused the chunk, which was skipped.
    DecodeFailed(DecodeError, Vec<u8>),
}

impl Diagnostic {
    /// The event that the diagnostic reports.
    pub open spec fn event(self) -> Event {
        match self {
            Diagnostic::ReadFailed(error) => Event::Failed(error),
            Diagnostic::DecodeFailed(error, chunk) => Event::Malformed(chunk@, error),
        }
    }
}

/// The events that a list of diagnostics reports.
pub open spec fn reported(diagnostics: Seq<Diagnostic>) -> Seq<Event> {
    Seq::new(diagnostics.len(), |i: int| diagnostics[i].event())
}

/// Where a cursor stands in the run of samples that its input has produced.
pub struct Track {
    /// Whether the input still feeds the cursor.
    pub live: bool,
    /// The number of samples produced before the cursor was made.
    pub origin: nat,
    /// The number of samples produced before the one that the cursor reads
    /// next.
    pub position: nat,
}

/// The handle of one independent reader of an input. It is made by
/// [`Input::cursor`] and belongs to that input.
#[derive(Debug)]
pub struct Cursor {
    slot: usize,
}

struct Slot {
    live: bool,
    buffer: VecDeque<Rc<Sample>>,
    origin: Ghost<nat>,
    position: Ghost<nat>,
}

/// The buffer of a live slot holds the produced samples from the slot's
/// position on; a slot that is not live holds nothing.
spec fn slot_coherent(slot: Slot, produced: Seq<SampleView>) -> bool {
    if slot.live {
        &&& slot.origin@ <= slot.position@ <= produced.len()
        &&& views(slot.buffer@) == produced.skip(slot.position@ as int)
    } else {
        slot.buffer@.len() == 0
    }
}

spec fn slots_coherent(slots: Seq<Slot>, produced: Seq<SampleView>) -> bool {
    forall|i: int| 0 <= i < slots.len() ==> slot_coherent(#[trigger] slots[i], produced)
}

spec fn same_tracks(before: Seq<Slot>, after: Seq<Slot>) -> bool {
    &&& before.len() == after.len()
    &&& forall|i: int|
        0 <= i < before.len() ==> {
            &&& (#[trigger] after[i]).live == before[i].live
            &&& after[i].origin@ == before[i].origin@
            &&& after[i].position@ == before[i].position@
        }
}

/// Hands `sample` to every live slot.
fn fan_out(slots: &mut Vec<Slot>, sample: &Rc<Sample>, Ghost(produced): Ghost<Seq<SampleView>>)
    requires
        slots_coherent(old(slots)@, produced),
    ensures
        slots_coherent(final(slots)@, produced.push(sample@)),
        same_tracks(old(slots)@, final(slots)@),
{
    let mut i: usize = 0;
    while i < slots.len()
        invariant
            i <= slots.len(),
            same_tracks(old(slots)@, slots@),
            forall|j: int| 0 <= j < i ==> slot_coherent(#[trigger] slots[j], produced.push(sample@)),
            forall|j: int| i <= j < slots.len() ==> slot_coherent(#[trigger] slots[j], produced),
        decreases slots.len() - i,
    {
        let ghost before = slots@;
        if slots[i].live {
            slots[i].buffer.push_back(sample.clone());
            proof {
                let slot = slots[i as int];
                assert(slot_coherent(before[i as int], produced));
                assert(slot.buffer@ == before[i as int].buffer@.push(*sample));
                assert(slot.position@ == before[i as int].position@);
                assert(views(slot.buffer@) =~= views(before[i as int].buffer@).push(sample@));
                let at = slot.position@ as int;
                assert(produced.skip(at).push(sample@) =~= produced.push(sample@).skip(at));
            }
        }
        proof {
            assert forall|j: int| 0 <= j < slots.len() && j != i implies slots[j] == before[j] by {}
        }
        i = i + 1;
    }
}

/// Hands the samples of `record` to every live slot, in the record's order.
fn deliver(slots: &mut Vec<Slot>, record: &Record, Ghost(produced): Ghost<Seq<SampleView>>)
    requires
        slots_coherent(old(slots)@, produced),
    ensures
        slots_coherent(final(slots)@, produced + expand(record@)),
        same_tracks(old(slots)@, final(slots)@),
{
    let values = record.values();
    let mut k: usize = 0;
    assert(produced + expand(record@).take(0) =~= produced);
    while k < values.len()
        invariant
            k <= values.len(),
            values_view(values@) == record@.values,
            record_valid(record@),
            same_tracks(old(slots)@, slots@),
            slots_coherent(slots@, produced + expand(record@).take(k as int)),
        decreases values.len() - k,
    {
        assert(record@.values[k as int] == (values[k as int].0@, values[k as int].1 as int));
        let sample = Rc::new(
            Sample::new(values[k].0.clone(), values[k].1, record.timestamp(), record.labels().clone()),
        );
        assert(sample@ == sample_at(record@, k as int));
        let ghost so_far = produced + expand(record@).take(k as int);
        fan_out(slots, &sample, Ghost(so_far));
        assert(so_far.push(sample@) =~= produced + expand(record@).take(k + 1));
        k = k + 1;
    }
    assert(expand(record@).take(k as int) =~= expand(record@));
}

/// The one consumer of a record source, which replicates every sample to any
/// number of cursors. Each cursor sees every sample produced since it was
/// made, once and in the order of production, at its own pace.
pub struct Input<R: Reader, D: Decoder> {
    reader: R,
    decoder: D,
    slots: Vec<Slot>,
    halted: bool,
    pulls: u64,
    diagnostics: Vec<Diagnostic>,
    history: Ghost<Seq<Event>>,
}

impl<R: Reader, D: Decoder> Input<R, D> {
    /// Everything that the source has done so far, in order.
    pub closed spec fn history(&self) -> Seq<Event> {
        self.history@
    }

    /// Whether the input has stopped pulling from its source for good.
    pub open spec fn halted(&self) -> bool {
        exhausted(self.history())
    }

    /// Where `cursor` stands.
    pub closed spec fn track(&self, cursor: &Cursor) -> Track {
        if cursor.slot < self.slots.len() && self.slots[cursor.slot as int].live {
            Track {
                live: true,
                origin: self.slots[cursor.slot as int].origin@,
                position: self.slots[cursor.slot as int].position@,
            }
        } else {
            Track { live: false, origin: 0, position: 0 }
        }
    }

    /// The internal consistency of the input: every live cursor's backlog is
    /// what has been produced and not yet read by it, the diagnostics report
    /// the failures of the history, every record of the history is valid, and
    /// nothing follows the end or the failure of the source.
    pub closed spec fn wf(&self) -> bool {
        &&& slots_coherent(self.slots@, samples_of(self.history@))
        &&& reported(self.diagnostics@) == failures_of(self.history@)
        &&& records_valid(self.history@)
        &&& final_is_last(self.history@)
        &&& self.halted == exhausted(self.history@)
        &&& self.pulls == self.history@.len()
    }

    /// All samples produced so far, in order of production.
    pub open spec fn produced(&self) -> Seq<SampleView> {
        samples_of(self.history())
    }

    /// Whether the input feeds `cursor`.
    pub open spec fn is_live(&self, cursor: &Cursor) -> bool {
        self.track(cursor).live
    }

    /// The samples that `cursor` has read.
    pub open spec fn consumed(&self, cursor: &Cursor) -> Seq<SampleView> {
        self.produced().subrange(
            self.track(cursor).origin as int,
            self.track(cursor).position as int,
        )
    }

    /// The samples that wait for `cursor`, oldest first.
    pub open spec fn backlog(&self, cursor: &Cursor) -> Seq<SampleView> {
        self.produced().skip(self.track(cursor).position as int)
    }

    /// No cursor but `cursor` differs between `self` and `before`.
    pub open spec fn same_cursors_but(&self, before: &Self, cursor: &Cursor) -> bool {
        forall|other: Cursor| other != *cursor ==> #[trigger] self.track(&other) == before.track(&other)
    }

    /// No cursor differs between `self` and `before`.
    pub open spec fn same_cursors(&self, before: &Self) -> bool {
        forall|other: Cursor| #[trigger] self.track(&other) == before.track(&other)
    }

    /// How an input relates to an earlier state of itself from which only
    /// `cursor` has pulled: the cursor is live and has not moved back, no
    /// other cursor has changed, the history has only grown, and it has
    /// grown only if the source was pulled to its end in between.
    pub open spec fn pulled_from(&self, before: &Self, cursor: &Cursor) -> bool {
        &&& self.wf()
        &&& self.is_live(cursor)
        &&& self.same_cursors_but(before, cursor)
        &&& before.history().is_prefix_of(self.history())
        &&& before.halted() ==> self.halted()
        &&& self.halted() == before.halted() ==> self.history() == before.history()
        &&& self.track(cursor).origin == before.track(cursor).origin
        &&& before.track(cursor).position <= self.track(cursor).position
    }

    /// Pulls through one cursor chain.
    pub proof fn lemma_pulled_from_chain(&self, middle: &Self, before: &Self, cursor: &Cursor)
        requires
            middle.pulled_from(before, cursor),
            self.pulled_from(middle, cursor),
        ensures
            self.pulled_from(before, cursor),
    {
        assert forall|other: Cursor| other != *cursor implies
            #[trigger] self.track(&other) == before.track(&other)
        by {
            assert(middle.track(&other) == before.track(&other));
        }
    }

    /// A pull through one cursor leaves every other cursor where it stood:
    /// what the other has read is unchanged, and what waited for it still
    /// waits, with anything newly produced behind it.
    pub proof fn lemma_pull_spares_others(&self, before: &Self, cursor: &Cursor, other: &Cursor)
        requires
            before.wf(),
            before.is_live(other),
            self.pulled_from(before, cursor),
            *other != *cursor,
        ensures
            self.is_live(other),
            self.consumed(other) == before.consumed(other),
            before.backlog(other).is_prefix_of(self.backlog(other)),
    {
        before.lemma_track_bounds(other);
        lemma_samples_of_prefix(before.history(), self.history());
        assert(self.track(other) == before.track(other));
        assert(self.consumed(other) =~= before.consumed(other));
    }

    /// What a cursor has read and what waits for it are together all that
    /// was produced since the cursor was made: it sees each of those samples
    /// once, in the order of production, and none produced before.
    pub proof fn lemma_cursor_sees_since_origin(&self, cursor: &Cursor)
        requires
            self.wf(),
            self.is_live(cursor),
        ensures
            self.consumed(cursor) + self.backlog(cursor) == self.produced().skip(
                self.track(cursor).origin as int,
            ),
    {
        self.lemma_track_bounds(cursor);
        assert(self.consumed(cursor) + self.backlog(cursor) =~= self.produced().skip(
            self.track(cursor).origin as int,
        ));
    }

    /// A cursor made before anything was produced sees the full expansion of
    /// all decoded records, in their order, however the reads of the cursors
    /// interleave. Once nothing waits for it, it has read all of it.
    pub proof fn lemma_fan_out_complete(&self, cursor: &Cursor)
        requires
            self.wf(),
            self.is_live(cursor),
            self.track(cursor).origin == 0,
        ensures
            self.consumed(cursor) + self.backlog(cursor) == expand_all(records_of(self.history())),
            self.backlog(cursor).len() == 0 ==> self.consumed(cursor) == expand_all(
                records_of(self.history()),
            ),
    {
        self.lemma_cursor_sees_since_origin(cursor);
        lemma_samples_of_records(self.history());
        assert(self.produced().skip(0) =~= self.produced());
        if self.backlog(cursor).len() == 0 {
            assert(self.consumed(cursor) + self.backlog(cursor) =~= self.consumed(cursor));
        }
    }

    /// Every sample ever produced names its metric, and has a value that can
    /// change sign.
    pub proof fn lemma_produced_valid(&self, i: int)
        requires
            self.wf(),
            0 <= i < self.produced().len(),
        ensures
            sample_valid(self.produced()[i]),
    {
        lemma_samples_valid(self.history(), i);
    }

    /// The end of the source and a failure of its reader are final: either
    /// is the last event of the history, and the input has halted. No input
    /// takes more events than it can count.
    pub proof fn lemma_final_is_last(&self, i: int)
        requires
            self.wf(),
            0 <= i < self.history().len(),
            is_final(self.history()[i]),
        ensures
            self.halted(),
            i == self.history().len() - 1,
            self.history().len() <= u64::MAX,
    {
    }

    /// A cursor that the input does not feed stands nowhere.
    pub proof fn lemma_idle_track(&self, cursor: &Cursor)
        requires
            !self.is_live(cursor),
        ensures
            self.track(cursor) == (Track { live: false, origin: 0, position: 0 }),
    {
    }

    /// A live cursor stands between its origin and the end of what has been
    /// produced.
    pub proof fn lemma_track_bounds(&self, cursor: &Cursor)
        requires
            self.wf(),
            self.is_live(cursor),
        ensures
            self.track(cursor).origin <= self.track(cursor).position <= self.produced().len(),
    {
        assert(slot_coherent(self.slots@[cursor.slot as int], samples_of(self.history@)));
    }

    /// An input over `reader` and `decoder` that has pulled nothing and
    /// feeds no cursor.
    pub fn new(reader: R, decoder: D) -> (input: Self)
        ensures
            input.wf(),
            input.history() == Seq::<Event>::empty(),
            !input.halted(),
            forall|cursor: Cursor| !input.is_live(&cursor),
    {
        let input = Input {
            reader,
            decoder,
            slots: Vec::new(),
            halted: false,
            pulls: 0,
            diagnostics: Vec::new(),
            history: Ghost(Seq::empty()),
        };
        assert(reported(input.diagnostics@) =~= failures_of(input.history@));
        input
    }

    /// A new cursor, which will see every sample produced from now on and
    /// none produced before.
    pub fn cursor(&mut self) -> (cursor: Cursor)
        requires
            old(self).wf(),
        ensures
            final(self).wf(),
            final(self).history() == old(self).history(),
            !old(self).is_live(&cursor),
            final(self).track(&cursor) == (Track {
                live: true,
                origin: old(self).produced().len(),
                position: old(self).produced().len(),
            }),
            final(self).same_cursors_but(old(self), &cursor),
    {
        let ghost produced = samples_of(self.history@);
        let slot = Slot {
            live: true,
            buffer: VecDeque::new(),
            origin: Ghost(produced.len()),
            position: Ghost(produced.len()),
        };
        assert(views(slot.buffer@) =~= produced.skip(produced.len() as int));
        let cursor = Cursor { slot: self.slots.len() };
        self.slots.push(slot);
        assert forall|other: Cursor| other != cursor implies
            #[trigger] self.track(&other) == old(self).track(&other)
        by {
            if other.slot < old(self).slots.len() {
                assert(self.slots[other.slot as int] == old(self).slots[other.slot as int]);
            }
        }
        assert forall|i: int| 0 <= i < self.slots.len() implies
            slot_coherent(#[trigger] self.slots[i], produced)
        by {
            if i < old(self).slots.len() {
                assert(self.slots[i] == old(self).slots[i]);
            }
        }
        cursor
    }

    /// Gives up `cursor`: the input feeds it no more and drops its backlog.
    pub fn release(&mut self, cursor: Cursor)
        requires
            old(self).wf(),
        ensures
            final(self).wf(),
            final(self).history() == old(self).history(),
            !final(self).is_live(&cursor),
            final(self).same_cursors_but(old(self), &cursor),
    {
        let ghost produced = samples_of(self.history@);
        if cursor.slot < self.slots.len() {
            self.slots[cursor.slot].live = false;
            self.slots[cursor.slot].buffer.clear();
            assert forall|i: int| 0 <= i < self.slots.len() implies
                slot_coherent(#[trigger] self.slots[i], produced)
            by {
                if i != cursor.slot {
                    assert(self.slots[i] == old(self).slots[i]);
                }
            }
            assert forall|other: Cursor| other != cursor implies
                #[trigger] self.track(&other) == old(self).track(&other)
            by {
                if other.slot < self.slots.len() {
                    assert(self.slots[other.slot as int] == old(self).slots[other.slot as int]);
                }
            }
        }
    }

    /// The failures met so far, oldest first: one for each failure in the
    /// history.
    pub fn diagnostics(&self) -> (diagnostics: &Vec<Diagnostic>)
        requires
            self.wf(),
        ensures
            reported(diagnostics@) == failures_of(self.history()),
    {
        &self.diagnostics
    }

    /// Whether the input feeds `cursor`.
    pub fn feeds(&self, cursor: &Cursor) -> (live: bool)
        ensures
            live == self.is_live(cursor),
    {
        cursor.slot < self.slots.len() && self.slots[cursor.slot].live
    }

    /// Takes in what the reader answered to one pull. A failure is recorded
    /// and ends the pulling for good, as does the end of the stream; a chunk
    /// changes nothing yet. Returns whether a chunk came.
    fn note_read(&mut self, outcome: Result<usize, ReadError>) -> (chunk_came: bool)
        requires
            old(self).wf(),
            !old(self).halted(),
        ensures
            final(self).wf(),
            final(self).same_cursors(old(self)),
            chunk_came <==> (outcome matches Ok(n) && n > 0),
            final(self).history() == match outcome {
                Err(error) => old(self).history().push(Event::Failed(error)),
                Ok(n) => if n == 0 {
                    old(self).history().push(Event::Ended)
                } else {
                    old(self).history()
                },
            },
    {
        match outcome {
            Err(error) => {
                self.halted = true;
                self.pulls = self.pulls + 1;
                self.diagnostics.push(Diagnostic::ReadFailed(error));
                proof {
                    let event = Event::Failed(error);
                    lemma_samples_of_push(self.history@, event);
                    assert(samples_of(self.history@) + event_samples(event) =~= samples_of(self.history@));
                    assert(self.history@.push(event).drop_last() =~= self.history@);
                    assert(reported(self.diagnostics@) =~= reported(old(self).diagnostics@).push(event));
                    self.history@ = self.history@.push(event);
                }
                false
            },
            Ok(n) => {
                if n == 0 {
                    self.halted = true;
                    self.pulls = self.pulls + 1;
                    proof {
                        let event = Event::Ended;
                        lemma_samples_of_push(self.history@, event);
                        assert(samples_of(self.history@) + event_samples(event) =~= samples_of(self.history@));
                        assert(self.history@.push(event).drop_last() =~= self.history@);
                        self.history@ = self.history@.push(event);
                    }
                }
                n > 0
            },
        }
    }

    /// Takes in what the decoder answered to one chunk. The samples of a
    /// record go to every live cursor; a refused chunk is recorded and
    /// skipped.
    fn note_decode(&mut self, chunk: Vec<u8>, outcome: Result<Record, DecodeError>)
        requires
            old(self).wf(),
            !old(self).halted(),
        ensures
            final(self).wf(),
            final(self).same_cursors(old(self)),
            final(self).history() == old(self).history().push(
                match outcome {
                    Ok(record) => Event::Decoded(record@),
                    Err(error) => Event::Malformed(chunk@, error),
                },
            ),
    {
        self.pulls = self.pulls + 1;
        if self.pulls == u64::MAX {
            self.halted = true;
        }
        match outcome {
            Ok(record) => {
                deliver(&mut self.slots, &record, Ghost(samples_of(self.history@)));
                proof {
                    use_type_invariant(&record);
                    let event = Event::Decoded(record@);
                    lemma_samples_of_push(self.history@, event);
                    assert(self.history@.push(event).drop_last() =~= self.history@);
                    self.history@ = self.history@.push(event);
                }
            },
            Err(error) => {
                self.diagnostics.push(Diagnostic::DecodeFailed(error, chunk));
                proof {
                    let event = Event::Malformed(chunk@, error);
                    lemma_samples_of_push(self.history@, event);
                    assert(samples_of(self.history@) + event_samples(event) =~= samples_of(self.history@));
                    assert(self.history@.push(event).drop_last() =~= self.history@);
                    assert(reported(self.diagnostics@) =~= reported(old(self).diagnostics@).push(event));
                    self.history@ = self.history@.push(event);
                }
            },
        }
    }

    /// Pulls from the source until it ends or fails, and hands the samples of
    /// every decoded record to every live cursor. A refused chunk is skipped.
    /// Once the source has ended or failed it is never pulled again; neither
    /// is a source that has given as many events as the input can count.
    fn refill_cursors(&mut self)
        requires
            old(self).wf(),
        ensures
            final(self).wf(),
            final(self).halted(),
            final(self).same_cursors(old(self)),
            old(self).history().is_prefix_of(final(self).history()),
            old(self).halted() ==> final(self).history() == old(self).history(),
    {
        while !self.halted
            invariant
                self.wf(),
                self.same_cursors(old(self)),
                old(self).history().is_prefix_of(self.history()),
                old(self).halted() ==> self.history() == old(self).history(),
            decreases u64::MAX - self.pulls,
        {
            let ghost head = *self;
            let mut chunk: Vec<u8> = Vec::new();
            let read = self.reader.read(&mut chunk);
            let ghost pulled = *self;
            let chunk_came = self.note_read(read);
            let ghost noted = *self;
            if chunk_came {
                let decoded = self.decoder.decode(&chunk);
                self.note_decode(chunk, decoded);
            }
            proof {
                assert forall|other: Cursor| #[trigger] self.track(&other) == old(self).track(&other) by {
                    assert(noted.track(&other) == pulled.track(&other));
                    assert(pulled.track(&other) == head.track(&other));
                }
            }
        }
    }
}

impl Cursor {
    /// The oldest sample that waits for the cursor. Where none waits, the
    /// input first pulls its source dry, which feeds every live cursor;
    /// `None` then means that the source is exhausted.
    pub fn read<R: Reader, D: Decoder>(&self, input: &mut Input<R, D>) -> (sample: Option<Rc<Sample>>)
        requires
            old(input).wf(),
            old(input).is_live(self),
        ensures
            final(input).pulled_from(old(input), self),
            old(input).backlog(self).len() > 0 ==> final(input).history() == old(input).history(),
            old(input).backlog(self).len() == 0 ==> final(input).halted(),
            match sample {
                Some(s) => {
                    &&& old(input).track(self).position < final(input).produced().len()
                    &&& s@ == final(input).produced()[old(input).track(self).position as int]
                    &&& final(input).track(self).position == old(input).track(self).position + 1
                    &&& final(input).consumed(self) == old(input).consumed(self).push(s@)
                },
                None => {
                    &&& final(input).halted()
                    &&& final(input).track(self).position == old(input).track(self).position
                    &&& final(input).track(self).position == final(input).produced().len()
                    &&& final(input).consumed(self) == old(input).consumed(self)
                },
            },
    {
        proof {
            old(input).lemma_track_bounds(self);
        }
        assert(slot_coherent(input.slots@[self.slot as int], samples_of(input.history@)));
        if input.slots[self.slot].buffer.len() == 0 {
            input.refill_cursors();
            assert(input.track(self) == old(input).track(self));
        }
        let ghost middle = *input;
        let ghost produced = samples_of(input.history@);
        assert(slot_coherent(input.slots@[self.slot as int], produced));
        let ghost position = input.slots[self.slot as int].position@;
        let ghost waiting = input.slots[self.slot as int].buffer@;
        assert(views(waiting) == produced.skip(position as int));
        let sample = input.slots[self.slot].buffer.pop_front();
        if sample.is_some() {
            input.slots[self.slot].position = Ghost((position + 1) as nat);
            proof {
                assert(views(waiting)[0] == waiting[0]@);
                assert(input.slots[self.slot as int].buffer@ == waiting.subrange(1, waiting.len() as int));
                assert(views(waiting.subrange(1, waiting.len() as int)) =~= views(waiting).skip(1));
                assert(produced.skip(position as int).skip(1) =~= produced.skip(position as int + 1));
            }
        }
        proof {
            assert forall|i: int| 0 <= i < input.slots.len() implies
                slot_coherent(#[trigger] input.slots[i], produced)
            by {
                if i != self.slot {
                    assert(input.slots[i] == middle.slots[i]);
                    assert(slot_coherent(middle.slots[i], produced));
                }
            }
            assert forall|other: Cursor| other != *self implies
                #[trigger] input.track(&other) == old(input).track(&other)
            by {
                assert(middle.track(&other) == old(input).track(&other));
                if other.slot < input.slots.len() {
                    assert(input.slots[other.slot as int] == middle.slots[other.slot as int]);
                }
            }
        }
        proof {
            lemma_samples_of_prefix(old(input).history(), input.history());
            let origin = old(input).track(self).origin as int;
            let at = old(input).track(self).position as int;
            assert(old(input).consumed(self) =~= input.produced().subrange(origin, at));
            if sample is Some {
                assert(input.consumed(self) =~= old(input).consumed(self).push(input.produced()[at]));
            }
        }
        sample
    }
}

} // verus!
