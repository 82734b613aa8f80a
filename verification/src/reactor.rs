//! The reactor's decisions: where a connection goes once an accept, a read or
//! a write has returned, and which of the three readiness queues takes it.
//!
//! A connection is accepted, read from, written to and closed, in that order.
//! The caller performs each of these on the socket and reports what came of
//! it; the functions here say what happens to the record.

use crate::buffer::{from_slice, truncated, Buffer};
use crate::kernel::{EventIdentity, Interest};
use crate::queue::{
    delivered, first_match, is_pending, lemma_first_match_some, lemma_poll_conserves, remaining,
    Directory, Queue,
};
use crate::record::{Event, EventView, GeneralEvent, ListenerEvent, ListenerView};
use vstd::prelude::*;
use vstd::seq_lib::lemma_multiset_commutative;

verus! {

/// Where a connection stands.
#[derive(Clone, Copy, Debug, PartialEq, Eq, Structural)]
pub enum Stage {
    /// Pending at the listening socket.
    Accepting,
    /// Its record waits in the reading queue for the request.
    Reading,
    /// Its record waits in the writing queue with the response.
    Writing,
    /// The socket is closed and the record dropped.
    Closed,
}

impl EventView {
    /// The stage of the connection that such a record stands for.
    pub open spec fn stage(self) -> Stage {
        match self.interest {
            Interest::Read => Stage::Reading,
            Interest::Write => Stage::Writing,
        }
    }
}

/// What an attempt to accept a connection came to.
pub enum AcceptOutcome {
    /// A connection was accepted; its socket has this descriptor.
    Accepted(i32),
    /// No connection was pending after all.
    WouldBlock,
    /// The attempt failed for another reason.
    Failed,
}

/// What one attempt to read from a connection came to.
pub enum ReadOutcome {
    /// The read returned these bytes; none, where the peer has closed its
    /// sending side.
    Received(Vec<u8>),
    /// No data was there after all.
    WouldBlock,
    /// The connection is broken.
    Failed,
}

/// What one attempt to write to a connection came to.
pub enum WriteOutcome {
    /// The peer took this many of the bytes offered.
    Written(usize),
    /// The socket took nothing without blocking.
    WouldBlock,
    /// The connection is broken.
    Failed,
}

/// What follows an attempt to accept.
pub struct AcceptStep {
    /// The record of the new connection, to be placed in the reading queue.
    pub connection: Option<Event>,
    /// The listener's record, to be placed in the incoming queue again.
    pub listener: ListenerEvent,
}

/// What follows an attempt to read.
pub enum ReadStep {
    /// Place the record in the reading queue again.
    Requeue(Event),
    /// The record holds the request: obtain the response to it, turn the
    /// record into a write record with `respond`, and place that.
    Respond(Event),
    /// Close the socket with this descriptor; its record is gone.
    Close(i32),
}

/// What follows an attempt to write.
pub enum WriteStep {
    /// Place the record in the writing queue again.
    Requeue(Event),
    /// The whole response has left: close the socket with this descriptor.
    Done(i32),
    /// The connection is broken: close the socket with this descriptor.
    Close(i32),
}

/// An `AcceptStep` as contracts see it.
pub struct AcceptStepView {
    pub connection: Option<EventView>,
    pub listener: ListenerView,
}

/// A `ReadStep` as contracts see it.
pub enum ReadStepView {
    Requeue(EventView),
    Respond(EventView),
    Close(i32),
}

/// A `WriteStep` as contracts see it.
pub enum WriteStepView {
    Requeue(EventView),
    Done(i32),
    Close(i32),
}

impl View for AcceptStep {
    type V = AcceptStepView;

    open spec fn view(&self) -> AcceptStepView {
        AcceptStepView {
            connection: match self.connection {
                Some(event) => Some(event@),
                None => None,
            },
            listener: self.listener@,
        }
    }
}

impl View for ReadStep {
    type V = ReadStepView;

    open spec fn view(&self) -> ReadStepView {
        match *self {
            ReadStep::Requeue(event) => ReadStepView::Requeue(event@),
            ReadStep::Respond(event) => ReadStepView::Respond(event@),
            ReadStep::Close(stream) => ReadStepView::Close(stream),
        }
    }
}

impl View for WriteStep {
    type V = WriteStepView;

    open spec fn view(&self) -> WriteStepView {
        match *self {
            WriteStep::Requeue(event) => WriteStepView::Requeue(event@),
            WriteStep::Done(stream) => WriteStepView::Done(stream),
            WriteStep::Close(stream) => WriteStepView::Close(stream),
        }
    }
}

/// The record of a connection that was just accepted on descriptor `stream`:
/// it waits to be read, and its buffer is empty.
pub open spec fn accepted_record(stream: i32) -> EventView {
    EventView { stream, interest: Interest::Read, tag: 0, data: Seq::empty(), written: 0 }
}

/// What follows an attempt to accept on `listener`. The listener goes back
/// to the incoming queue whatever came of the attempt, and only an accepted
/// connection yields a record.
pub open spec fn accept_step_spec(listener: ListenerView, outcome: AcceptOutcome) -> AcceptStepView {
    AcceptStepView {
        connection: match outcome {
            AcceptOutcome::Accepted(stream) => Some(accepted_record(stream)),
            AcceptOutcome::WouldBlock => None,
            AcceptOutcome::Failed => None,
        },
        listener,
    }
}

/// What follows an attempt to read for `record`. A read that would block
/// leaves the record as it is, to wait again. A failed read ends the
/// connection. A read that returned, with however few bytes, puts them in the
/// record's buffer, cut to its capacity, for the response to be made from.
pub open spec fn read_step_spec(record: EventView, outcome: ReadOutcome) -> ReadStepView {
    match outcome {
        ReadOutcome::WouldBlock => ReadStepView::Requeue(record),
        ReadOutcome::Failed => ReadStepView::Close(record.stream),
        ReadOutcome::Received(bytes) => ReadStepView::Respond(
            EventView { data: truncated(bytes@), written: 0, ..record },
        ),
    }
}

/// The write record for the connection of `record`, with `response` as the
/// bytes to send, cut to the capacity of a buffer.
pub open spec fn respond_spec(record: EventView, response: Seq<u8>) -> EventView {
    EventView {
        stream: record.stream,
        interest: Interest::Write,
        tag: 0,
        data: truncated(response),
        written: 0,
    }
}

/// What follows an attempt to write for `record`. A write that would block
/// leaves the record as it is, to wait again. A failed write ends the
/// connection. A write that took bytes ends it too once nothing is left to
/// send; while something is left, the record waits again with the count of
/// what was taken added to `written`.
pub open spec fn write_step_spec(record: EventView, outcome: WriteOutcome) -> WriteStepView {
    match outcome {
        WriteOutcome::WouldBlock => WriteStepView::Requeue(record),
        WriteOutcome::Failed => WriteStepView::Close(record.stream),
        WriteOutcome::Written(count) => if record.written + count >= record.data.len() {
            WriteStepView::Done(record.stream)
        } else {
            WriteStepView::Requeue(
                EventView { written: (record.written + count) as nat, ..record },
            )
        },
    }
}

/// Decides what follows an attempt to accept on `listener`.
pub fn accept_step(listener: ListenerEvent, outcome: AcceptOutcome) -> (step: AcceptStep)
    ensures
        step@ == accept_step_spec(listener@, outcome),
        step.listener == listener,
{
    let connection: Option<Event> = match outcome {
        AcceptOutcome::Accepted(stream) => Some(Event::new_read(stream, Buffer::new())),
        AcceptOutcome::WouldBlock => None,
        AcceptOutcome::Failed => None,
    };
    AcceptStep { connection, listener }
}

/// Decides what follows an attempt to read for `record`.
pub fn read_step(record: Event, outcome: ReadOutcome) -> (step: ReadStep)
    ensures
        step@ == read_step_spec(record@, outcome),
        outcome is WouldBlock ==> step == ReadStep::Requeue(record),
{
    match outcome {
        ReadOutcome::WouldBlock => ReadStep::Requeue(record),
        ReadOutcome::Failed => ReadStep::Close(record.stream()),
        ReadOutcome::Received(bytes) => {
            let data: Buffer = from_slice(bytes.as_slice());
            ReadStep::Respond(record.with_data(data))
        },
    }
}

/// Turns the record of a connection whose request was read into the record
/// that sends `response` to it.
pub fn respond(record: Event, response: &[u8]) -> (event: Event)
    ensures
        event@ == respond_spec(record@, response@),
        event@.wf(),
{
    Event::new_write(record.stream(), from_slice(response))
}

/// Decides what follows an attempt to write for `record`.
pub fn write_step(record: Event, outcome: WriteOutcome) -> (step: WriteStep)
    ensures
        step@ == write_step_spec(record@, outcome),
        outcome is WouldBlock ==> step == WriteStep::Requeue(record),
{
    match outcome {
        WriteOutcome::WouldBlock => WriteStep::Requeue(record),
        WriteOutcome::Failed => WriteStep::Close(record.stream()),
        WriteOutcome::Written(count) => {
            let written: usize = record.written();
            let len: usize = record.data().len();
            if count >= len - written {
                WriteStep::Done(record.stream())
            } else {
                WriteStep::Requeue(record.advanced(count))
            }
        },
    }
}

/// The three readiness queues between which the connections move: listeners
/// wait in `incoming`, connections to read from in `reading`, connections to
/// write to in `writing`.
pub struct Reactor {
    pub incoming: Queue<ListenerEvent>,
    pub reading: Queue<Event>,
    pub writing: Queue<Event>,
}

impl Reactor {
    /// Whether only the waiting records differ between `self` and `other`.
    pub open spec fn same_kernel_queues(&self, other: &Reactor) -> bool {
        &&& self.incoming.same_kernel_queue(&other.incoming)
        &&& self.reading.same_kernel_queue(&other.reading)
        &&& self.writing.same_kernel_queue(&other.writing)
    }

    /// Builds the reactor around three kernel queues, given what the kernel
    /// answered to the three requests to create them. Where a request
    /// failed there is no reactor, and the reason of the first failure is
    /// handed on.
    pub fn new(
        dir: Directory,
        incoming: Result<i32, String>,
        reading: Result<i32, String>,
        writing: Result<i32, String>,
    ) -> (res: Result<Reactor, String>)
        ensures
            match (incoming, reading, writing) {
                (Ok(accept_fd), Ok(read_fd), Ok(write_fd)) => {
                    &&& res matches Ok(reactor)
                    &&& reactor.incoming.is_new(dir, accept_fd)
                    &&& reactor.reading.is_new(dir, read_fd)
                    &&& reactor.writing.is_new(dir, write_fd)
                },
                (Err(reason), _, _) => res == Err::<Reactor, String>(reason),
                (Ok(_), Err(reason), _) => res == Err::<Reactor, String>(reason),
                (Ok(_), Ok(_), Err(reason)) => res == Err::<Reactor, String>(reason),
            },
    {
        let incoming: Queue<ListenerEvent> = match Queue::new(dir.clone(), incoming) {
            Ok(queue) => queue,
            Err(reason) => {
                return Err(reason);
            },
        };
        let reading: Queue<Event> = match Queue::new(dir.clone(), reading) {
            Ok(queue) => queue,
            Err(reason) => {
                return Err(reason);
            },
        };
        let writing: Queue<Event> = match Queue::new(dir, writing) {
            Ok(queue) => queue,
            Err(reason) => {
                return Err(reason);
            },
        };
        Ok(Reactor { incoming, reading, writing })
    }

    /// Descriptor of the kernel queue in which a connection record with
    /// this interest is to be registered.
    pub fn kernel_queue(&self, interest: Interest) -> (fd: i32)
        ensures
            fd == match interest {
                Interest::Read => self.reading.fd,
                Interest::Write => self.writing.fd,
            },
    {
        match interest {
            Interest::Read => self.reading.fd,
            Interest::Write => self.writing.fd,
        }
    }

    /// Takes `listener` into the incoming queue, given what the kernel
    /// answered to its registration there.
    pub fn listen(&mut self, listener: ListenerEvent, registered: Result<(), String>) -> (res:
        Result<(), String>)
        ensures
            final(self).same_kernel_queues(old(self)),
            final(self).reading.events@ == old(self).reading.events@,
            final(self).writing.events@ == old(self).writing.events@,
            match registered {
                Ok(_) => res is Ok && final(self).incoming.events@ == old(
                    self,
                ).incoming.events@.push(listener),
                Err(reason) => res == Err::<(), String>(reason) && final(self).incoming.events@
                    == old(self).incoming.events@,
            },
    {
        self.incoming.add(listener, registered)
    }

    /// Takes the connection record `record` into the queue of its stage,
    /// given what the kernel answered to its registration there: a record
    /// that waits to be read joins the reading queue, one that waits to be
    /// written the writing queue, and the other queues stay as they are.
    pub fn place(&mut self, record: Event, registered: Result<(), String>) -> (res: Result<
        (),
        String,
    >)
        ensures
            final(self).same_kernel_queues(old(self)),
            final(self).incoming.events@ == old(self).incoming.events@,
            match registered {
                Ok(_) => {
                    &&& res is Ok
                    &&& final(self).reading.events@ == placed(
                        old(self).reading.events@,
                        record,
                        Stage::Reading,
                    )
                    &&& final(self).writing.events@ == placed(
                        old(self).writing.events@,
                        record,
                        Stage::Writing,
                    )
                },
                Err(reason) => {
                    &&& res == Err::<(), String>(reason)
                    &&& final(self).reading.events@ == old(self).reading.events@
                    &&& final(self).writing.events@ == old(self).writing.events@
                },
            },
    {
        match record.get_kevent().interest {
            Interest::Read => self.reading.add(record, registered),
            Interest::Write => self.writing.add(record, registered),
        }
    }
}

/// The queue of the stage `stage` after `record` was placed: the record is
/// its newest entry where that is the stage of the record, and the queue is
/// unchanged where it is not.
pub open spec fn placed(pending: Seq<Event>, record: Event, stage: Stage) -> Seq<Event> {
    if record@.stage() == stage {
        pending.push(record)
    } else {
        pending
    }
}

/// The stages in the order in which a connection passes through them.
pub open spec fn stage_rank(stage: Stage) -> nat {
    match stage {
        Stage::Accepting => 0,
        Stage::Reading => 1,
        Stage::Writing => 2,
        Stage::Closed => 3,
    }
}

/// The stage of a connection once what follows a read was carried out.
pub open spec fn stage_after_read(step: ReadStepView) -> Stage {
    match step {
        ReadStepView::Requeue(record) => record.stage(),
        ReadStepView::Respond(record) => respond_spec(record, Seq::empty()).stage(),
        ReadStepView::Close(_) => Stage::Closed,
    }
}

/// The stage of a connection once what follows a write was carried out.
pub open spec fn stage_after_write(step: WriteStepView) -> Stage {
    match step {
        WriteStepView::Requeue(record) => record.stage(),
        WriteStepView::Done(_) => Stage::Closed,
        WriteStepView::Close(_) => Stage::Closed,
    }
}

/// A connection passes through its stages in order. An accepted connection
/// starts in the reading stage. From there a read that would block keeps it
/// reading, a read that returned moves it to the writing stage, whatever the
/// response, and a failed read closes it. From the writing stage a write
/// that would block, or that left bytes unsent, keeps it writing, and a
/// write that sent the rest, or failed, closes it. No step leads back.
pub proof fn lemma_stages_in_order(
    listener: ListenerView,
    accepted: AcceptOutcome,
    record: EventView,
    read: ReadOutcome,
    response: Seq<u8>,
    write: WriteOutcome,
)
    ensures
        accept_step_spec(listener, accepted).connection matches Some(connection)
            ==> connection.stage() == Stage::Reading,
        read_step_spec(record, read) matches ReadStepView::Respond(request) ==> respond_spec(
            request,
            response,
        ).stage() == Stage::Writing,
        record.stage() == Stage::Reading ==> stage_after_read(read_step_spec(record, read))
            == match read {
            ReadOutcome::WouldBlock => Stage::Reading,
            ReadOutcome::Received(_) => Stage::Writing,
            ReadOutcome::Failed => Stage::Closed,
        },
        record.stage() == Stage::Writing ==> stage_after_write(write_step_spec(record, write))
            == match write {
            WriteOutcome::WouldBlock => Stage::Writing,
            WriteOutcome::Written(count) => if record.written + count < record.data.len() {
                Stage::Writing
            } else {
                Stage::Closed
            },
            WriteOutcome::Failed => Stage::Closed,
        },
        stage_rank(record.stage()) <= stage_rank(stage_after_read(read_step_spec(record, read))),
        stage_rank(record.stage()) <= stage_rank(
            stage_after_write(write_step_spec(record, write)),
        ),
{
}

/// A connection keeps its socket through every step: the record that goes
/// on holds the descriptor of the record that came in, and a step that ends
/// the connection names that descriptor as the one to close.
pub proof fn lemma_steps_keep_the_socket(
    record: EventView,
    read: ReadOutcome,
    response: Seq<u8>,
    write: WriteOutcome,
)
    ensures
        match read_step_spec(record, read) {
            ReadStepView::Requeue(next) => next.stream == record.stream,
            ReadStepView::Respond(next) => next.stream == record.stream && respond_spec(
                next,
                response,
            ).stream == record.stream,
            ReadStepView::Close(stream) => stream == record.stream,
        },
        match write_step_spec(record, write) {
            WriteStepView::Requeue(next) => next.stream == record.stream,
            WriteStepView::Done(stream) => stream == record.stream,
            WriteStepView::Close(stream) => stream == record.stream,
        },
{
}

/// Every step leaves a record as records are: where no more of the data of
/// `record` is written than there is, and the data fits a buffer, the same
/// holds of the record that goes on.
pub proof fn lemma_steps_keep_records_sound(
    record: EventView,
    read: ReadOutcome,
    response: Seq<u8>,
    write: WriteOutcome,
)
    requires
        record.wf(),
    ensures
        read_step_spec(record, read) matches ReadStepView::Requeue(next) ==> next.wf(),
        read_step_spec(record, read) matches ReadStepView::Respond(next) ==> next.wf()
            && respond_spec(next, response).wf(),
        write_step_spec(record, write) matches WriteStepView::Requeue(next) ==> next.wf(),
{
}

/// How many of `records` hold the socket with descriptor `stream`.
pub open spec fn holders(records: Seq<Event>, stream: i32) -> nat
    decreases records.len(),
{
    if records.len() == 0 {
        0
    } else {
        holders(records.drop_last(), stream) + if records.last()@.stream == stream {
            1nat
        } else {
            0nat
        }
    }
}

/// Whether every connection is in one place only: no socket is held by more
/// than one record among those that wait in the reading queue, those that
/// a poll has handed out and that are not placed again yet, and those
/// that wait in the writing queue.
pub open spec fn each_in_one_stage(
    reading: Seq<Event>,
    in_hand: Seq<Event>,
    writing: Seq<Event>,
) -> bool {
    forall|stream: i32|
        #[trigger] holders(reading, stream) + holders(in_hand, stream) + holders(writing, stream)
            <= 1
}

proof fn lemma_holders_push(records: Seq<Event>, record: Event, stream: i32)
    ensures
        holders(records.push(record), stream) == holders(records, stream) + if record@.stream
            == stream {
            1nat
        } else {
            0nat
        },
{
    assert(records.push(record).drop_last() == records);
}

proof fn lemma_holders_remove(records: Seq<Event>, i: int, stream: i32)
    requires
        0 <= i < records.len(),
    ensures
        holders(records.remove(i), stream) + (if records[i]@.stream == stream {
            1nat
        } else {
            0nat
        }) == holders(records, stream),
    decreases records.len(),
{
    if i == records.len() - 1 {
        assert(records.remove(i) == records.drop_last());
    } else {
        lemma_holders_remove(records.drop_last(), i, stream);
        assert(records.remove(i).drop_last() == records.drop_last().remove(i));
        assert(records.remove(i).last() == records.last());
    }
}

proof fn lemma_holders_concat(left: Seq<Event>, right: Seq<Event>, stream: i32)
    ensures
        holders(left + right, stream) == holders(left, stream) + holders(right, stream),
    decreases right.len(),
{
    if right.len() == 0 {
        assert(left + right == left);
    } else {
        lemma_holders_concat(left, right.drop_last(), stream);
        assert((left + right).drop_last() == left + right.drop_last());
        assert((left + right).last() == right.last());
    }
}

proof fn lemma_holders_poll(pending: Seq<Event>, ready: Seq<EventIdentity>, stream: i32)
    ensures
        holders(remaining(pending, ready), stream) + holders(delivered(pending, ready), stream)
            == holders(pending, stream),
    decreases ready.len(),
{
    if ready.len() > 0 {
        lemma_holders_poll(pending, ready.drop_last(), stream);
        let before = remaining(pending, ready.drop_last());
        let earlier = delivered(pending, ready.drop_last());
        if is_pending(before, ready.last()) {
            lemma_first_match_some(before, ready.last());
            let i = first_match(before, ready.last())->0;
            lemma_holders_remove(before, i, stream);
            lemma_holders_push(earlier, before[i], stream);
        }
    }
}

/// A poll of the reading queue, or of the writing queue, keeps every
/// connection in one place only: the records that it hands out leave the
/// queue as they come into the caller's hands.
pub proof fn lemma_poll_keeps_one_stage(
    reading: Seq<Event>,
    in_hand: Seq<Event>,
    writing: Seq<Event>,
    ready: Seq<EventIdentity>,
)
    requires
        each_in_one_stage(reading, in_hand, writing),
    ensures
        each_in_one_stage(
            remaining(reading, ready),
            in_hand + delivered(reading, ready),
            writing,
        ),
        each_in_one_stage(
            reading,
            in_hand + delivered(writing, ready),
            remaining(writing, ready),
        ),
{
    assert forall|stream: i32|
        #[trigger] holders(remaining(reading, ready), stream) + holders(
            in_hand + delivered(reading, ready),
            stream,
        ) + holders(writing, stream) <= 1 by {
        lemma_holders_poll(reading, ready, stream);
        lemma_holders_concat(in_hand, delivered(reading, ready), stream);
        assert(holders(reading, stream) + holders(in_hand, stream) + holders(writing, stream)
            <= 1);
    }
    assert forall|stream: i32|
        #[trigger] holders(reading, stream) + holders(
            in_hand + delivered(writing, ready),
            stream,
        ) + holders(remaining(writing, ready), stream) <= 1 by {
        lemma_holders_poll(writing, ready, stream);
        lemma_holders_concat(in_hand, delivered(writing, ready), stream);
        assert(holders(reading, stream) + holders(in_hand, stream) + holders(writing, stream)
            <= 1);
    }
}

/// Carrying out a step keeps every connection in one place only. The record
/// `in_hand[k]` leaves the caller's hands, and `next`, a record for the same
/// socket, may take its place in the reading queue or in the writing queue,
/// or in neither where the connection ends.
pub proof fn lemma_step_keeps_one_stage(
    reading: Seq<Event>,
    in_hand: Seq<Event>,
    writing: Seq<Event>,
    k: int,
    next: Event,
)
    requires
        each_in_one_stage(reading, in_hand, writing),
        0 <= k < in_hand.len(),
        next@.stream == in_hand[k]@.stream,
    ensures
        each_in_one_stage(reading.push(next), in_hand.remove(k), writing),
        each_in_one_stage(reading, in_hand.remove(k), writing.push(next)),
        each_in_one_stage(reading, in_hand.remove(k), writing),
{
    assert forall|stream: i32|
        #[trigger] holders(reading.push(next), stream) + holders(in_hand.remove(k), stream)
            + holders(writing, stream) <= 1 by {
        lemma_holders_push(reading, next, stream);
        lemma_holders_remove(in_hand, k, stream);
        assert(holders(reading, stream) + holders(in_hand, stream) + holders(writing, stream)
            <= 1);
    }
    assert forall|stream: i32|
        #[trigger] holders(reading, stream) + holders(in_hand.remove(k), stream) + holders(
            writing.push(next),
            stream,
        ) <= 1 by {
        lemma_holders_push(writing, next, stream);
        lemma_holders_remove(in_hand, k, stream);
        assert(holders(reading, stream) + holders(in_hand, stream) + holders(writing, stream)
            <= 1);
    }
    assert forall|stream: i32|
        #[trigger] holders(reading, stream) + holders(in_hand.remove(k), stream) + holders(
            writing,
            stream,
        ) <= 1 by {
        lemma_holders_remove(in_hand, k, stream);
        assert(holders(reading, stream) + holders(in_hand, stream) + holders(writing, stream)
            <= 1);
    }
}

/// Taking in an accepted connection keeps every connection in one place
/// only, where its socket is new: held by no record so far.
pub proof fn lemma_accept_keeps_one_stage(
    reading: Seq<Event>,
    in_hand: Seq<Event>,
    writing: Seq<Event>,
    connection: Event,
)
    requires
        each_in_one_stage(reading, in_hand, writing),
        holders(reading, connection@.stream) + holders(in_hand, connection@.stream) + holders(
            writing,
            connection@.stream,
        ) == 0,
    ensures
        each_in_one_stage(reading.push(connection), in_hand, writing),
{
    assert forall|stream: i32|
        #[trigger] holders(reading.push(connection), stream) + holders(in_hand, stream)
            + holders(writing, stream) <= 1 by {
        lemma_holders_push(reading, connection, stream);
        assert(holders(reading, stream) + holders(in_hand, stream) + holders(writing, stream)
            <= 1);
    }
}

/// The incoming queue after a number of rounds of accepting. In one round
/// the queue is polled with a set of notifications, an accept is attempted
/// on every listener handed out, and every such listener is placed in the
/// queue again, as `accept_step` asks for whatever the attempt came to.
pub open spec fn after_accept_rounds(
    incoming: Seq<ListenerEvent>,
    rounds: Seq<Seq<EventIdentity>>,
) -> Seq<ListenerEvent>
    decreases rounds.len(),
{
    if rounds.len() == 0 {
        incoming
    } else {
        let before = after_accept_rounds(incoming, rounds.drop_last());
        remaining(before, rounds.last()) + delivered(before, rounds.last())
    }
}

/// Accepting never exhausts the incoming queue. After any number of rounds,
/// whatever the kernel reported in each and whatever came of each attempt to
/// accept, the queue holds the listeners that it held at first, each as
/// often: as many as before, and a listener that waited then waits now.
pub proof fn lemma_listeners_stay(incoming: Seq<ListenerEvent>, rounds: Seq<Seq<EventIdentity>>)
    ensures
        after_accept_rounds(incoming, rounds).to_multiset() == incoming.to_multiset(),
        after_accept_rounds(incoming, rounds).len() == incoming.len(),
        forall|i: int|
            0 <= i < incoming.len() ==> after_accept_rounds(incoming, rounds).contains(
                #[trigger] incoming[i],
            ),
    decreases rounds.len(),
{
    let after = after_accept_rounds(incoming, rounds);
    if rounds.len() > 0 {
        lemma_listeners_stay(incoming, rounds.drop_last());
        let before = after_accept_rounds(incoming, rounds.drop_last());
        lemma_poll_conserves(before, rounds.last());
        lemma_multiset_commutative(
            remaining(before, rounds.last()),
            delivered(before, rounds.last()),
        );
    }
    after.to_multiset_ensures();
    incoming.to_multiset_ensures();
    assert forall|i: int| 0 <= i < incoming.len() implies after.contains(
        #[trigger] incoming[i],
    ) by {
        assert(incoming.contains(incoming[i]));
        assert(incoming.to_multiset().count(incoming[i]) > 0);
        assert(after.to_multiset().count(incoming[i]) > 0);
    }
}

/// A read or a write that would block loses no connection: the step hands
/// the record back unchanged, and placing it, once the kernel has taken its
/// registration, makes it the newest entry of the queue that it came from,
/// the reading queue for a read and the writing queue for a write.
pub proof fn lemma_would_block_requeues(record: Event, pending: Seq<Event>)
    ensures
        read_step_spec(record@, ReadOutcome::WouldBlock) == ReadStepView::Requeue(record@),
        write_step_spec(record@, WriteOutcome::WouldBlock) == WriteStepView::Requeue(record@),
        placed(pending, record, record@.stage()) == pending.push(record),
        placed(pending, record, record@.stage()).contains(record),
        record@.stage() == Stage::Reading ==> placed(pending, record, Stage::Writing) == pending,
        record@.stage() == Stage::Writing ==> placed(pending, record, Stage::Reading) == pending,
{
    assert(pending.push(record)[pending.len() as int] == record);
}

} // verus!
