//! What a channel answers to any series of requests: what a bounded queue would answer.

use crate::channel::{empty_channel, law_new_channel_is_empty};
use crate::chunk::{law_plan_by_the_numbers, lemma_plan_fits, planned};
use crate::delivery::{
    cells, drops_for, law_drop_oldest_makes_room, law_full_channel_keeps_its_messages,
    law_oversized_message_is_refused, law_recv_is_first_in_first_out, law_recv_of_nothing,
    law_send_appends, lemma_message_frames, lemma_same_layout, message_cells, slots_needed,
    slots_taken, Message,
};
use crate::error::{ChannelError, DslineError};
use crate::frame::frame_bytes;
use crate::persistent::{free_header, slots_of};
use crate::persistent_channel::{law_created_channel_is_empty, unread_channel};
use crate::queue::{Outcome, QueueView};
use crate::recovery::{law_handle_catches_up, law_refresh_keeps_messages, seq_distance};
use crate::sharing::{
    law_consumer_finds_nothing, law_consumer_receives_in_order, law_full_channel_stays_linked,
    law_handle_is_linked_to_itself, law_newcomer_takes_a_place,
    law_sent_message_reaches_the_consumer, linked, shares,
};
use crate::slot::SlotView;
use crate::spsc::{
    law_ring_backpressure, law_ring_recv_is_first_in_first_out, law_ring_send_appends, plain_frame,
    seq_after, seq_back, Backpressure, RingView, SendEvent, SendStep, SpscConfig,
};
use vstd::prelude::*;

verus! {

/// What can be asked of a channel.
pub enum Request {
    Send(Seq<u8>),
    Receive,
    Close,
}

/// What a channel answers.
pub enum Reply {
    /// The message was taken, or why not.
    Sent(Result<(), DslineError>),
    /// The sequence number and the bytes of a message, or why there is none.
    Received(Result<(u64, Seq<u8>), DslineError>),
    /// The bytes of a message, or why there is none.
    Payload(Result<Seq<u8>, DslineError>),
    /// Nothing can be told yet.
    Pending,
    Closed,
}

/// A bounded queue of messages: those waiting, oldest first, and the number of the first one.
pub struct Fifo {
    pub waiting: Seq<Seq<u8>>,
    pub first: u64,
    pub closed: bool,
}

/// How many slots a message of a length takes: one where it fits in one, and otherwise as many as
/// it fills with parts that leave 42 bytes of each slot.
pub open spec fn slot_count(config: SpscConfig, len: nat) -> int {
    if len <= config.slot_size {
        1
    } else {
        (len + (config.slot_size - 42) - 1) / (config.slot_size - 42)
    }
}

/// How many slots a list of messages takes.
pub open spec fn slot_total(config: SpscConfig, waiting: Seq<Seq<u8>>) -> int
    decreases waiting.len(),
{
    if waiting.len() == 0 {
        0
    } else {
        slot_count(config, waiting[0].len()) + slot_total(config, waiting.skip(1))
    }
}

/// Why a message of a length can never be taken, if it cannot.
pub open spec fn size_error(config: SpscConfig, len: nat) -> Option<ChannelError> {
    let part = config.slot_size - 42;
    let most = config.capacity * part;
    if len <= config.slot_size {
        None
    } else if part <= 0 {
        Some(ChannelError::MessageTooLarge { len: len as usize, slot_size: config.slot_size })
    } else if len + part - 1 > usize::MAX || most > usize::MAX {
        Some(ChannelError::InvalidConfig("message size overflow"))
    } else if len > most {
        Some(
            ChannelError::MessageTooLarge {
                len: len as usize,
                slot_size: if most > config.slot_size {
                    most as usize
                } else {
                    config.slot_size
                },
            },
        )
    } else {
        None
    }
}

impl Fifo {
    /// The queue without its oldest messages, as many as it takes to free some slots.
    pub open spec fn with_room(self, config: SpscConfig, needed: int) -> Fifo
        decreases self.waiting.len(),
    {
        if self.waiting.len() == 0 || slot_total(config, self.waiting) + needed <= config.capacity {
            self
        } else {
            Fifo {
                waiting: self.waiting.skip(1),
                first: if self.first == u64::MAX {
                    0
                } else {
                    (self.first + 1) as u64
                },
                ..self
            }.with_room(config, needed)
        }
    }

    /// What the queue answers to a request, and what it is afterwards.
    pub open spec fn answered(self, config: SpscConfig, request: Request) -> (Fifo, Reply) {
        match request {
            Request::Close => (Fifo { closed: true, ..self }, Reply::Closed),
            Request::Receive => if self.waiting.len() == 0 {
                let error = if self.closed {
                    ChannelError::Closed
                } else {
                    ChannelError::BufferEmpty
                };
                (self, Reply::Received(Err(DslineError::Channel(error))))
            } else {
                (
                    Fifo {
                        waiting: self.waiting.skip(1),
                        first: if self.first == u64::MAX {
                            0
                        } else {
                            (self.first + 1) as u64
                        },
                        ..self
                    },
                    Reply::Received(Ok((self.first, self.waiting[0]))),
                )
            },
            Request::Send(payload) => {
                let needed = slot_count(config, payload.len());
                let fits = slot_total(config, self.waiting) + needed <= config.capacity;
                if self.closed {
                    (self, Reply::Sent(Err(DslineError::Channel(ChannelError::Closed))))
                } else if size_error(config, payload.len()) is Some {
                    (
                        self,
                        Reply::Sent(
                            Err(DslineError::Channel(size_error(config, payload.len())->0)),
                        ),
                    )
                } else if fits {
                    (Fifo { waiting: self.waiting.push(payload), ..self }, Reply::Sent(Ok(())))
                } else {
                    match config.backpressure {
                        Backpressure::Raise | Backpressure::Block => (
                            self,
                            Reply::Sent(Err(DslineError::Channel(ChannelError::BufferFull))),
                        ),
                        Backpressure::DropNewest => (self, Reply::Sent(Ok(()))),
                        Backpressure::DropOldest => {
                            let left = self.with_room(config, needed);
                            (
                                Fifo { waiting: left.waiting.push(payload), ..left },
                                Reply::Sent(Ok(())),
                            )
                        },
                    }
                }
            },
        }
    }

    /// What the queue answers to a series of requests.
    pub open spec fn replies(self, config: SpscConfig, requests: Seq<Request>) -> Seq<Reply>
        decreases requests.len(),
    {
        if requests.len() == 0 {
            seq![]
        } else {
            let (after, reply) = self.answered(config, requests[0]);
            seq![reply] + after.replies(config, requests.skip(1))
        }
    }
}

/// A queue without messages.
pub open spec fn empty_fifo() -> Fifo {
    Fifo { waiting: seq![], first: 0, closed: false }
}

/// What receiving answered.
pub open spec fn received_reply(outcome: Outcome) -> Reply {
    match outcome {
        Outcome::Message { seq, payload } => Reply::Received(Ok((seq, payload))),
        Outcome::Failed(e) => Reply::Received(Err(e)),
        Outcome::Waiting => Reply::Pending,
    }
}

impl QueueView {
    /// What a channel of one process answers to a request, and what it is afterwards.
    pub open spec fn answered(self, request: Request) -> (QueueView, Reply) {
        match request {
            Request::Close => (QueueView { closed: true, ..self }, Reply::Closed),
            Request::Receive => (self.received().0, received_reply(self.received().1)),
            Request::Send(payload) => (self.sent(payload).0, Reply::Sent(self.sent(payload).1)),
        }
    }

    /// What a channel of one process answers to a series of requests.
    pub open spec fn replies(self, requests: Seq<Request>) -> Seq<Reply>
        decreases requests.len(),
    {
        if requests.len() == 0 {
            seq![]
        } else {
            let (after, reply) = self.answered(requests[0]);
            seq![reply] + after.replies(requests.skip(1))
        }
    }

    /// What a channel over shared slots answers to a request, and what it is afterwards.
    pub open spec fn shared_answered(self, request: Request) -> (QueueView, Reply) {
        match request {
            Request::Close => (QueueView { closed: true, ..self }, Reply::Closed),
            Request::Receive => (
                self.shared_received().0,
                received_reply(self.shared_received().1),
            ),
            Request::Send(payload) => (
                self.shared_sent(payload).0,
                Reply::Sent(self.shared_sent(payload).1),
            ),
        }
    }

    /// What a channel over shared slots answers to a series of requests.
    pub open spec fn shared_replies(self, requests: Seq<Request>) -> Seq<Reply>
        decreases requests.len(),
    {
        if requests.len() == 0 {
            seq![]
        } else {
            let (after, reply) = self.shared_answered(requests[0]);
            seq![reply] + after.shared_replies(requests.skip(1))
        }
    }
}

/// The messages that wait in a queue, with their numbers.
spec fn numbered(fifo: Fifo) -> Seq<Message> {
    Seq::new(
        fifo.waiting.len(),
        |i: int|
            Message {
                seq: ((fifo.first + i) % 0x1_0000_0000_0000_0000) as u64,
                payload: fifo.waiting[i],
            },
    )
}

/// Whether a channel holds what waits in a queue.
spec fn carries(queue: QueueView, config: SpscConfig, fifo: Fifo) -> bool {
    &&& queue.config == config
    &&& queue.holds(numbered(fifo))
    &&& queue.expected_seq == fifo.first
    &&& queue.closed == fifo.closed
}

/// The plan for a message goes by the numbers of the configuration.
proof fn lemma_plan(config: SpscConfig, len: nat)
    requires
        config.problem() is None,
    ensures
        size_error(config, len) is None ==> planned(config, len) is Ok && planned(
            config,
            len,
        )->Ok_0.needed_slots == slot_count(config, len),
        size_error(config, len) matches Some(e) ==> planned(config, len) is Err && planned(
            config,
            len,
        )->Err_0 == e,
{
    law_plan_by_the_numbers(config, len);
    if config.slot_size < len && config.slot_size <= 42 {
        assert(config.slot_size - 42 <= 0);
    }
}

/// The slots in use are those that the waiting messages take.
proof fn lemma_slots(config: SpscConfig, messages: Seq<Message>, waiting: Seq<Seq<u8>>)
    requires
        config.problem() is None,
        messages.len() == waiting.len(),
        forall|i: int|
            0 <= i < messages.len() ==> (#[trigger] messages[i]).payload == waiting[i] && planned(
                config,
                messages[i].payload.len(),
            ) is Ok,
    ensures
        slots_taken(config, messages) == slot_total(config, waiting),
    decreases messages.len(),
{
    if messages.len() > 0 {
        let first = messages[0];
        lemma_plan(config, first.payload.len());
        lemma_message_frames(config, first.seq, first.payload);
        assert(message_cells(config, first).len() == slot_count(config, waiting[0].len()));
        assert forall|i: int| 0 <= i < messages.skip(1).len() implies (#[trigger] messages.skip(
            1,
        )[i]).payload == waiting.skip(1)[i] && planned(
            config,
            messages.skip(1)[i].payload.len(),
        ) is Ok by {
            assert(messages.skip(1)[i] == messages[i + 1]);
        }
        lemma_slots(config, messages.skip(1), waiting.skip(1));
    }
}

/// Making room drops the same messages from both.
proof fn lemma_drops(config: SpscConfig, fifo: Fifo, needed: nat)
    requires
        config.problem() is None,
        forall|i: int|
            0 <= i < fifo.waiting.len() ==> planned(config, (#[trigger] fifo.waiting[i]).len())
                is Ok,
    ensures
        ({
            let count = drops_for(config, numbered(fifo), needed);
            let left = fifo.with_room(config, needed as int);
            &&& count <= fifo.waiting.len()
            &&& left.waiting == fifo.waiting.skip(count as int)
            &&& left.first == ((fifo.first + count) % 0x1_0000_0000_0000_0000) as u64
            &&& left.closed == fifo.closed
        }),
    decreases fifo.waiting.len(),
{
    let all = numbered(fifo);
    assert forall|i: int| 0 <= i < all.len() implies (#[trigger] all[i]).payload == fifo.waiting[i]
        && planned(config, all[i].payload.len()) is Ok by {
        assert(planned(config, fifo.waiting[i].len()) is Ok);
    }
    lemma_slots(config, all, fifo.waiting);
    if fifo.waiting.len() > 0 && slot_total(config, fifo.waiting) + needed > config.capacity {
        let next = Fifo {
            waiting: fifo.waiting.skip(1),
            first: if fifo.first == u64::MAX {
                0
            } else {
                (fifo.first + 1) as u64
            },
            ..fifo
        };
        assert(numbered(next) =~= all.skip(1));
        assert forall|i: int| 0 <= i < next.waiting.len() implies planned(
            config,
            (#[trigger] next.waiting[i]).len(),
        ) is Ok by {
            assert(next.waiting[i] == fifo.waiting[i + 1]);
        }
        lemma_drops(config, next, needed);
        let count = drops_for(config, all.skip(1), needed);
        assert(fifo.waiting.skip(1).skip(count as int) =~= fifo.waiting.skip((1 + count) as int));
    } else {
        assert(fifo.waiting.skip(0) =~= fifo.waiting);
    }
}

/// Closing leaves what is held.
proof fn lemma_closing(queue: QueueView, messages: Seq<Message>)
    requires
        queue.holds(messages),
    ensures
        (QueueView { closed: true, ..queue }).holds(messages),
{
    let closed = QueueView { closed: true, ..queue };
    lemma_same_layout(queue, closed, cells(queue.config, messages));
}

/// Sending does the same to both.
proof fn lemma_send(queue: QueueView, config: SpscConfig, fifo: Fifo, payload: Seq<u8>)
    requires
        carries(queue, config, fifo),
    ensures
        ({
            let (after, reply) = queue.answered(Request::Send(payload));
            let (left, answer) = fifo.answered(config, Request::Send(payload));
            &&& reply == answer
            &&& carries(after, config, left)
        }),
{
    let all = numbered(fifo);
    lemma_plan(config, payload.len());
    lemma_slots(config, all, fifo.waiting);
    if !queue.closed {
        if size_error(config, payload.len()) is Some {
            law_oversized_message_is_refused(queue, payload);
        } else if slot_total(config, fifo.waiting) + slot_count(config, payload.len())
            <= config.capacity {
            law_send_appends(queue, all, payload);
            let left = Fifo { waiting: fifo.waiting.push(payload), ..fifo };
            assert(numbered(left) =~= all.push(Message { seq: queue.next_seq, payload }));
        } else {
            law_full_channel_keeps_its_messages(queue, all, payload);
            if config.backpressure is DropOldest {
                assert forall|i: int| 0 <= i < fifo.waiting.len() implies planned(
                    config,
                    (#[trigger] fifo.waiting[i]).len(),
                ) is Ok by {
                    assert(all[i].payload == fifo.waiting[i]);
                }
                let needed = slots_needed(config, payload);
                lemma_drops(config, fifo, needed);
                law_drop_oldest_makes_room(queue, all, payload);
                let count = drops_for(config, all, needed);
                let room = fifo.with_room(config, needed as int);
                let left = Fifo { waiting: room.waiting.push(payload), ..room };
                assert(numbered(left) =~= all.skip(count as int).push(
                    Message { seq: queue.next_seq, payload },
                ));
            }
        }
    }
}

/// Receiving does the same to both.
proof fn lemma_receive(queue: QueueView, config: SpscConfig, fifo: Fifo)
    requires
        carries(queue, config, fifo),
    ensures
        ({
            let (after, reply) = queue.answered(Request::Receive);
            let (left, answer) = fifo.answered(config, Request::Receive);
            &&& reply == answer
            &&& carries(after, config, left)
        }),
{
    let all = numbered(fifo);
    if fifo.waiting.len() == 0 {
        assert(all =~= seq![]);
        law_recv_of_nothing(queue);
    } else {
        law_recv_is_first_in_first_out(queue, all);
        let left = fifo.answered(config, Request::Receive).0;
        assert(numbered(left) =~= all.skip(1));
    }
}

/// Any series of requests is answered alike by both.
proof fn lemma_replies(queue: QueueView, config: SpscConfig, fifo: Fifo, requests: Seq<Request>)
    requires
        carries(queue, config, fifo),
    ensures
        queue.replies(requests) == fifo.replies(config, requests),
    decreases requests.len(),
{
    if requests.len() > 0 {
        match requests[0] {
            Request::Send(payload) => {
                lemma_send(queue, config, fifo, payload);
            },
            Request::Receive => {
                lemma_receive(queue, config, fifo);
            },
            Request::Close => {
                lemma_closing(queue, numbered(fifo));
                assert(numbered(Fifo { closed: true, ..fifo }) =~= numbered(fifo));
            },
        }
        lemma_replies(
            queue.answered(requests[0]).0,
            config,
            fifo.answered(config, requests[0]).0,
            requests.skip(1),
        );
    }
}

/// To any series of requests a new channel answers what a bounded queue answers: messages come out
/// unchanged and in the order in which they were taken, with consecutive numbers from zero on;
/// those that do not fit are dealt with as configured; a closed channel takes no more and hands out
/// what it holds.
pub proof fn law_channel_is_a_bounded_queue(
    config: SpscConfig,
    contents: Seq<Seq<u8>>,
    requests: Seq<Request>,
)
    requires
        config.capacity > 0,
        config.slot_size > 0,
        config.slot_size + 50 <= usize::MAX,
        forall|i: int|
            0 <= i < config.capacity ==> (#[trigger] contents[i]).len() >= config.slot_size + 50,
    ensures
        empty_channel(config, contents).replies(requests) == empty_fifo().replies(
            config,
            requests,
        ),
{
    law_new_channel_is_empty(config, contents);
    assert(numbered(empty_fifo()) =~= seq![]);
    lemma_replies(empty_channel(config, contents), config, empty_fifo(), requests);
}

/// A message that is no longer than a slot, or no longer than all slots can carry in parts that
/// leave 42 bytes of each, is taken by a new channel, takes as many slots as it fills, and comes
/// out unchanged.
pub proof fn law_sent_bytes_are_received(
    config: SpscConfig,
    contents: Seq<Seq<u8>>,
    payload: Seq<u8>,
)
    requires
        config.capacity > 0,
        config.slot_size > 0,
        config.slot_size + 50 <= usize::MAX,
        forall|i: int|
            0 <= i < config.capacity ==> (#[trigger] contents[i]).len() >= config.slot_size + 50,
        payload.len() <= config.slot_size || {
            &&& config.slot_size > 42
            &&& payload.len() <= config.capacity * (config.slot_size - 42)
            &&& config.capacity * (config.slot_size - 42) <= usize::MAX
            &&& payload.len() + (config.slot_size - 42) <= usize::MAX
        },
    ensures
        ({
            let (after, r) = empty_channel(config, contents).sent(payload);
            &&& r == Ok::<(), DslineError>(())
            &&& payload.len() <= config.slot_size ==> after.len == 1
            &&& payload.len() > config.slot_size ==> (after.len - 1) * (config.slot_size - 42)
                < payload.len() <= after.len * (config.slot_size - 42)
            &&& after.received().1 == (Outcome::Message { seq: 0, payload })
            &&& after.received().0.len == 0
        }),
{
    let queue = empty_channel(config, contents);
    let none = Seq::<Message>::empty();
    let after = queue.sent(payload).0;
    law_new_channel_is_empty(config, contents);
    law_plan_by_the_numbers(config, payload.len());
    assert(cells(config, none).len() == 0);
    law_send_appends(queue, none, payload);
    let all = none.push(Message { seq: 0, payload });
    law_recv_is_first_in_first_out(after, all);
    lemma_message_frames(config, 0, payload);
    assert(all.skip(1) =~= none);
    assert(cells(config, all).len() == message_cells(config, all[0]).len() + cells(
        config,
        all.skip(1),
    ).len());
}

/// Over shared slots, too, any series of requests is answered alike by both.
proof fn lemma_shared_replies(
    queue: QueueView,
    config: SpscConfig,
    fifo: Fifo,
    requests: Seq<Request>,
)
    requires
        carries(queue, config, fifo),
        config.capacity < 0x8000_0000_0000_0000,
    ensures
        queue.shared_replies(requests) == fifo.replies(config, requests),
    decreases requests.len(),
{
    if requests.len() > 0 {
        let found = queue.refreshed();
        law_refresh_keeps_messages(queue, numbered(fifo));
        assert(carries(found, config, fifo));
        match requests[0] {
            Request::Send(payload) => {
                lemma_send(queue, config, fifo, payload);
                lemma_send(found, config, fifo, payload);
            },
            Request::Receive => {
                lemma_receive(found, config, fifo);
            },
            Request::Close => {
                lemma_closing(queue, numbered(fifo));
                assert(numbered(Fifo { closed: true, ..fifo }) =~= numbered(fifo));
            },
        }
        lemma_shared_replies(
            queue.shared_answered(requests[0]).0,
            config,
            fifo.answered(config, requests[0]).0,
            requests.skip(1),
        );
    }
}

/// To any series of requests a new channel over shared slots, used alone, answers what a bounded
/// queue answers.
pub proof fn law_shared_channel_is_a_bounded_queue(
    config: SpscConfig,
    contents: Seq<Seq<u8>>,
    requests: Seq<Request>,
)
    requires
        0 < config.capacity < 0x8000_0000_0000_0000,
        config.slot_size > 0,
        config.slot_size + 50 < 0x1_0000_0000,
        contents.len() == config.capacity,
        forall|i: int|
            0 <= i < config.capacity ==> (#[trigger] contents[i]).len() >= config.slot_size + 50
                + 13,
    ensures
        unread_channel(
            config,
            slots_of(contents).map_values(|slot: SlotView| free_header(slot)),
        ).shared_replies(requests) == empty_fifo().replies(config, requests),
{
    let slots = slots_of(contents).map_values(|slot: SlotView| free_header(slot));
    law_created_channel_is_empty(config, contents);
    assert(numbered(empty_fifo()) =~= seq![]);
    lemma_shared_replies(unread_channel(config, slots), config, empty_fifo(), requests);
}

/// What a producer and a consumer on the same slots answer to a series of requests: the producer is
/// asked to send, the consumer to receive.
pub open spec fn pair_replies(
    producer: QueueView,
    consumer: QueueView,
    requests: Seq<Request>,
) -> Seq<Reply>
    decreases requests.len(),
{
    if requests.len() == 0 {
        seq![]
    } else {
        match requests[0] {
            Request::Send(payload) => {
                let (after, r) = producer.shared_sent(payload);
                seq![Reply::Sent(r)] + pair_replies(
                    after,
                    consumer.over(after.slots),
                    requests.skip(1),
                )
            },
            Request::Receive => {
                let (after, outcome) = consumer.shared_received();
                seq![received_reply(outcome)] + pair_replies(
                    producer.over(after.slots),
                    after,
                    requests.skip(1),
                )
            },
            Request::Close => seq![Reply::Closed] + pair_replies(
                producer,
                consumer,
                requests.skip(1),
            ),
        }
    }
}

/// There are no more messages than slots that they take.
proof fn lemma_slot_total(config: SpscConfig, waiting: Seq<Seq<u8>>)
    requires
        config.problem() is None,
        forall|i: int|
            0 <= i < waiting.len() ==> planned(config, (#[trigger] waiting[i]).len()) is Ok,
    ensures
        waiting.len() <= slot_total(config, waiting),
    decreases waiting.len(),
{
    if waiting.len() > 0 {
        lemma_plan(config, waiting[0].len());
        lemma_plan_fits(config, waiting[0].len());
        assert forall|i: int| 0 <= i < waiting.skip(1).len() implies planned(
            config,
            (#[trigger] waiting.skip(1)[i]).len(),
        ) is Ok by {
            assert(waiting.skip(1)[i] == waiting[i + 1]);
        }
        lemma_slot_total(config, waiting.skip(1));
    }
}

/// Whether a producer and a consumer share what waits in a queue.
spec fn pairs(producer: QueueView, consumer: QueueView, config: SpscConfig, fifo: Fifo) -> bool {
    &&& linked(producer, consumer, numbered(fifo))
    &&& producer.config == config
    &&& consumer.config == config
    &&& config.capacity < 0x7fff_ffff_ffff_ffff
    &&& !(config.backpressure is DropOldest)
    &&& producer.next_seq == ((fifo.first + fifo.waiting.len()) % 0x1_0000_0000_0000_0000) as u64
    &&& seq_distance(consumer.next_seq, producer.next_seq) <= fifo.waiting.len()
    &&& !producer.closed
    &&& !consumer.closed
    &&& !fifo.closed
}

/// One number more is one farther from where a consumer stands.
proof fn lemma_distance(consumer: u64, first: u64, len: nat)
    requires
        len < 0x7fff_ffff_ffff_ffff,
        seq_distance(consumer, ((first + len) % 0x1_0000_0000_0000_0000) as u64) <= len,
    ensures
        seq_after(((first + len) % 0x1_0000_0000_0000_0000) as u64) == ((first + (len + 1))
            % 0x1_0000_0000_0000_0000) as u64,
        seq_distance(consumer, ((first + (len + 1)) % 0x1_0000_0000_0000_0000) as u64) <= len + 1,
{
}

/// The first number more and one message less give the same next number.
proof fn lemma_next(first: u64, len: nat)
    requires
        len > 0,
    ensures
        ((first + len) % 0x1_0000_0000_0000_0000) as u64 == ((if first == u64::MAX {
            0int
        } else {
            first + 1
        } + (len - 1)) % 0x1_0000_0000_0000_0000) as u64,
{
}

/// No number is any distance from itself.
proof fn lemma_no_distance(seq: u64)
    ensures
        seq_distance(seq, seq) == 0,
{
}

/// The messages behind the first one keep their numbers.
proof fn lemma_numbered_rest(fifo: Fifo, left: Fifo)
    requires
        fifo.waiting.len() > 0,
        left.waiting == fifo.waiting.skip(1),
        left.first == if fifo.first == u64::MAX {
            0
        } else {
            (fifo.first + 1) as u64
        },
    ensures
        numbered(left) == numbered(fifo).skip(1),
{
    assert(numbered(left) =~= numbered(fifo).skip(1));
}

/// What a producer and a consumer share is what the queue holds, and can be held.
proof fn lemma_paired(
    producer: QueueView,
    consumer: QueueView,
    config: SpscConfig,
    fifo: Fifo,
) -> (queue: QueueView)
    requires
        pairs(producer, consumer, config, fifo),
    ensures
        shares(queue, producer, consumer, numbered(fifo)),
        config.problem() is None,
        slots_taken(config, numbered(fifo)) == slot_total(config, fifo.waiting),
        fifo.waiting.len() <= slot_total(config, fifo.waiting) <= config.capacity,
{
    let all = numbered(fifo);
    let queue = choose|queue: QueueView| shares(queue, producer, consumer, all);
    assert forall|i: int| 0 <= i < fifo.waiting.len() implies planned(
        config,
        (#[trigger] fifo.waiting[i]).len(),
    ) is Ok by {
        assert(all[i].payload == fifo.waiting[i]);
    }
    lemma_slots(config, all, fifo.waiting);
    lemma_slot_total(config, fifo.waiting);
    queue
}

/// A producer answers what the queue answers.
proof fn lemma_pair_send(
    producer: QueueView,
    consumer: QueueView,
    config: SpscConfig,
    fifo: Fifo,
    payload: Seq<u8>,
)
    requires
        pairs(producer, consumer, config, fifo),
    ensures
        ({
            let (after, r) = producer.shared_sent(payload);
            let (left, answer) = fifo.answered(config, Request::Send(payload));
            &&& answer == Reply::Sent(r)
            &&& pairs(after, consumer.over(after.slots), config, left)
        }),
{
    let all = numbered(fifo);
    let queue = lemma_paired(producer, consumer, config, fifo);
    let left = fifo.answered(config, Request::Send(payload)).0;
    let after = producer.shared_sent(payload).0;
    lemma_plan(config, payload.len());
    if size_error(config, payload.len()) is Some {
        law_handle_catches_up(producer, queue, all);
        law_oversized_message_is_refused(producer.refreshed(), payload);
        assert(shares(after, after, consumer, all));
        assert(consumer.over(after.slots) == consumer);
    } else if slot_total(config, fifo.waiting) + slot_count(config, payload.len())
        <= config.capacity {
        lemma_plan_fits(config, payload.len());
        lemma_distance(consumer.next_seq, fifo.first, fifo.waiting.len());
        law_sent_message_reaches_the_consumer(producer, consumer, all, payload);
        assert(numbered(left) =~= all.push(Message { seq: producer.next_seq, payload }));
    } else {
        law_full_channel_stays_linked(producer, consumer, all, payload);
        assert(consumer.over(after.slots) == consumer);
    }
}

/// A consumer answers what the queue answers.
proof fn lemma_pair_receive(
    producer: QueueView,
    consumer: QueueView,
    config: SpscConfig,
    fifo: Fifo,
)
    requires
        pairs(producer, consumer, config, fifo),
    ensures
        ({
            let (after, outcome) = consumer.shared_received();
            let (left, answer) = fifo.answered(config, Request::Receive);
            &&& answer == received_reply(outcome)
            &&& pairs(producer.over(after.slots), after, config, left)
        }),
{
    let all = numbered(fifo);
    let queue = lemma_paired(producer, consumer, config, fifo);
    let left = fifo.answered(config, Request::Receive).0;
    let after = consumer.shared_received().0;
    if fifo.waiting.len() == 0 {
        assert(all =~= seq![]);
        law_consumer_finds_nothing(producer, consumer);
        assert(producer.over(after.slots) == producer);
    } else {
        lemma_next(fifo.first, fifo.waiting.len());
        lemma_numbered_rest(fifo, left);
        lemma_no_distance(producer.next_seq);
        law_consumer_receives_in_order(producer, consumer, all);
    }
}

/// A producer and a consumer answer what the queue answers that both carry.
proof fn lemma_pair_replies(
    producer: QueueView,
    consumer: QueueView,
    config: SpscConfig,
    fifo: Fifo,
    requests: Seq<Request>,
)
    requires
        pairs(producer, consumer, config, fifo),
        forall|i: int| 0 <= i < requests.len() ==> !((#[trigger] requests[i]) is Close),
    ensures
        pair_replies(producer, consumer, requests) == fifo.replies(config, requests),
    decreases requests.len(),
{
    if requests.len() > 0 {
        let rest = requests.skip(1);
        assert forall|i: int| 0 <= i < rest.len() implies !((#[trigger] rest[i]) is Close) by {
            assert(rest[i] == requests[i + 1]);
        }
        assert(!(requests[0] is Close));
        let left = fifo.answered(config, requests[0]).0;
        match requests[0] {
            Request::Send(payload) => {
                lemma_pair_send(producer, consumer, config, fifo, payload);
                let after = producer.shared_sent(payload).0;
                lemma_pair_replies(after, consumer.over(after.slots), config, left, rest);
            },
            Request::Receive => {
                lemma_pair_receive(producer, consumer, config, fifo);
                let after = consumer.shared_received().0;
                lemma_pair_replies(producer.over(after.slots), after, config, left, rest);
            },
            Request::Close => {},
        }
    }
}

/// A producer and a consumer on the same new slots, in one process or in two, answer what one
/// bounded queue would: what the one sends, the other receives, unchanged and in order, in any
/// interleaving of their calls.
pub proof fn law_two_handles_are_one_bounded_queue(
    config: SpscConfig,
    contents: Seq<Seq<u8>>,
    requests: Seq<Request>,
)
    requires
        0 < config.capacity < 0x7fff_ffff_ffff_ffff,
        config.slot_size > 0,
        config.slot_size + 50 < 0x1_0000_0000,
        !(config.backpressure is DropOldest),
        contents.len() == config.capacity,
        forall|i: int|
            0 <= i < config.capacity ==> (#[trigger] contents[i]).len() >= config.slot_size + 50
                + 13,
        forall|i: int| 0 <= i < requests.len() ==> !((#[trigger] requests[i]) is Close),
    ensures
        ({
            let producer = unread_channel(
                config,
                slots_of(contents).map_values(|slot: SlotView| free_header(slot)),
            );
            let consumer = unread_channel(config, producer.slots).refreshed();
            pair_replies(producer, consumer, requests) == empty_fifo().replies(config, requests)
        }),
{
    let producer = unread_channel(
        config,
        slots_of(contents).map_values(|slot: SlotView| free_header(slot)),
    );
    law_created_channel_is_empty(config, contents);
    law_handle_is_linked_to_itself(producer, seq![]);
    law_newcomer_takes_a_place(producer, producer, seq![]);
    assert(producer.forgotten() == producer);
    law_handle_catches_up(producer, producer, seq![]);
    assert(numbered(empty_fifo()) =~= seq![]);
    lemma_pair_replies(producer, producer.refreshed(), config, empty_fifo(), requests);
}

impl Fifo {
    /// What a ring of whole messages answers to a request, and what it is afterwards: each message
    /// takes one place, and none is longer than a slot.
    pub open spec fn ring_answered(self, config: SpscConfig, request: Request) -> (Fifo, Reply) {
        match request {
            Request::Close => (Fifo { closed: true, ..self }, Reply::Closed),
            Request::Receive => if self.waiting.len() == 0 {
                let error = if self.closed {
                    ChannelError::Closed
                } else {
                    ChannelError::BufferEmpty
                };
                (self, Reply::Payload(Err(DslineError::Channel(error))))
            } else {
                (
                    Fifo { waiting: self.waiting.skip(1), ..self },
                    Reply::Payload(Ok(self.waiting[0])),
                )
            },
            Request::Send(payload) => if self.closed {
                (self, Reply::Sent(Err(DslineError::Channel(ChannelError::Closed))))
            } else if payload.len() > config.slot_size {
                let error = ChannelError::MessageTooLarge {
                    len: payload.len() as usize,
                    slot_size: config.slot_size,
                };
                (self, Reply::Sent(Err(DslineError::Channel(error))))
            } else if self.waiting.len() < config.capacity {
                (Fifo { waiting: self.waiting.push(payload), ..self }, Reply::Sent(Ok(())))
            } else {
                match config.backpressure {
                    Backpressure::Raise | Backpressure::Block => (
                        self,
                        Reply::Sent(Err(DslineError::Channel(ChannelError::BufferFull))),
                    ),
                    Backpressure::DropNewest => (self, Reply::Sent(Ok(()))),
                    Backpressure::DropOldest => (
                        Fifo { waiting: self.waiting.skip(1).push(payload), ..self },
                        Reply::Sent(Ok(())),
                    ),
                }
            },
        }
    }

    /// What a ring of whole messages answers to a series of requests.
    pub open spec fn ring_replies(self, config: SpscConfig, requests: Seq<Request>) -> Seq<Reply>
        decreases requests.len(),
    {
        if requests.len() == 0 {
            seq![]
        } else {
            let (after, reply) = self.ring_answered(config, requests[0]);
            seq![reply] + after.ring_replies(config, requests.skip(1))
        }
    }
}

impl RingView {
    /// What a ring answers to a request, and what it is afterwards.
    pub open spec fn answered(self, request: Request) -> (RingView, Reply) {
        match request {
            Request::Close => (RingView { closed: true, ..self }, Reply::Closed),
            Request::Receive => (self.received().0, Reply::Payload(self.received().1)),
            Request::Send(payload) => (self.sent(payload).0, Reply::Sent(self.sent(payload).1)),
        }
    }

    /// What a ring answers to a series of requests.
    pub open spec fn replies(self, requests: Seq<Request>) -> Seq<Reply>
        decreases requests.len(),
    {
        if requests.len() == 0 {
            seq![]
        } else {
            let (after, reply) = self.answered(requests[0]);
            seq![reply] + after.replies(requests.skip(1))
        }
    }
}

/// A ring answers what the queue answers whose messages it holds.
proof fn lemma_ring_replies(ring: RingView, fifo: Fifo, requests: Seq<Request>)
    requires
        ring.holds(fifo.waiting),
        ring.config.capacity > 0,
        fifo.waiting.len() <= ring.config.capacity,
        ring.closed == fifo.closed,
    ensures
        ring.replies(requests) == fifo.ring_replies(ring.config, requests),
    decreases requests.len(),
{
    if requests.len() > 0 {
        let after = ring.answered(requests[0]).0;
        match requests[0] {
            Request::Send(payload) => {
                if !ring.closed && payload.len() <= ring.config.slot_size {
                    if fifo.waiting.len() < ring.config.capacity {
                        law_ring_send_appends(ring, fifo.waiting, payload);
                    } else {
                        law_ring_backpressure(ring, fifo.waiting, payload);
                    }
                }
            },
            Request::Receive => {
                if fifo.waiting.len() > 0 {
                    law_ring_recv_is_first_in_first_out(ring, fifo.waiting);
                }
            },
            Request::Close => {
                assert forall|i: int| 0 <= i < fifo.waiting.len() implies #[trigger] after.frames[i]
                    == frame_bytes(
                    plain_frame(
                        seq_back(after.next_seq, fifo.waiting.len() - i),
                        fifo.waiting[i],
                    ),
                ) by {
                    assert(after.frames[i] == ring.frames[i]);
                }
                assert(after.holds(fifo.waiting));
            },
        }
        lemma_ring_replies(
            after,
            fifo.ring_answered(ring.config, requests[0]).0,
            requests.skip(1),
        );
    }
}

/// To any series of requests a new ring answers what a bounded queue of whole messages answers.
pub proof fn law_ring_is_a_bounded_queue(config: SpscConfig, requests: Seq<Request>)
    requires
        config.capacity > 0,
        config.slot_size > 0,
    ensures
        (RingView { config, frames: seq![], next_seq: 0, closed: false }).replies(requests)
            == empty_fifo().ring_replies(config, requests),
{
    lemma_ring_replies(
        RingView { config, frames: seq![], next_seq: 0, closed: false },
        empty_fifo(),
        requests,
    );
}

/// A sender waits exactly where it may, the message can be taken at all, and there is no room for
/// it now. Only under the policy to wait, with a timeout, it may.
pub proof fn law_sender_waits_for_room(queue: QueueView, payload: Seq<u8>, event: SendEvent)
    requires
        queue.config.capacity > 0,
        queue.config.slot_size > 0,
    ensures
        queue.send_stepped(payload, event).1 is Wait <==> {
            &&& event != SendEvent::TimedOut
            &&& !queue.closed
            &&& queue.config.backpressure is Block
            &&& queue.config.timeout is Some
            &&& size_error(queue.config, payload.len()) is None
            &&& queue.len + slot_count(queue.config, payload.len()) > queue.config.capacity
        },
{
    lemma_plan(queue.config, payload.len());
}

/// Over shared slots the slots are looked at before that is decided, and while nobody takes a
/// message the sender goes on waiting, until the time is up.
pub proof fn law_shared_sender_waits_for_room(
    queue: QueueView,
    fifo: Seq<Seq<u8>>,
    messages: Seq<Message>,
    payload: Seq<u8>,
    event: SendEvent,
)
    requires
        queue.holds(messages),
        queue.config.capacity < 0x8000_0000_0000_0000,
        fifo.len() == messages.len(),
        forall|i: int| 0 <= i < messages.len() ==> (#[trigger] messages[i]).payload == fifo[i],
    ensures
        queue.shared_send_stepped(payload, event).1 is Wait <==> {
            &&& event != SendEvent::TimedOut
            &&& !queue.closed
            &&& queue.config.backpressure is Block
            &&& queue.config.timeout is Some
            &&& size_error(queue.config, payload.len()) is None
            &&& slot_total(queue.config, fifo) + slot_count(queue.config, payload.len())
                > queue.config.capacity
        },
        queue.shared_send_stepped(payload, event).1 is Wait ==> queue.shared_send_stepped(
            payload,
            event,
        ).0.holds(messages),
        event == SendEvent::TimedOut ==> queue.shared_send_stepped(payload, event) == (
            queue,
            SendStep::Done(
                Err::<(), DslineError>(DslineError::Channel(ChannelError::BufferFull)),
            ),
        ),
{
    law_refresh_keeps_messages(queue, messages);
    lemma_slots(queue.config, messages, fifo);
    lemma_plan(queue.config, payload.len());
}

/// What becomes of a message is decided before any slot is touched exactly where the channel is
/// closed, the message can never be taken, or there is no room and none is made.
pub proof fn law_decided_without_the_slots(queue: QueueView, payload: Seq<u8>)
    requires
        queue.config.capacity > 0,
        queue.config.slot_size > 0,
    ensures
        queue.is_decided(payload) <==> {
            ||| queue.closed
            ||| size_error(queue.config, payload.len()) is Some
            ||| queue.len + slot_count(queue.config, payload.len()) > queue.config.capacity && !(
            queue.config.backpressure is DropOldest)
        },
{
    lemma_plan(queue.config, payload.len());
}

/// As many slots are in use as the messages held take.
pub proof fn law_slots_in_use_are_those_of_the_messages(
    queue: QueueView,
    messages: Seq<Message>,
    waiting: Seq<Seq<u8>>,
)
    requires
        queue.holds(messages),
        waiting.len() == messages.len(),
        forall|i: int| 0 <= i < messages.len() ==> (#[trigger] messages[i]).payload == waiting[i],
    ensures
        queue.len == slot_total(queue.config, waiting),
{
    lemma_slots(queue.config, messages, waiting);
}

} // verus!
