//! Two handles on the same slots: one sends, the other receives, each call running to its end
//! before the next one starts.

use crate::chunk::planned;
use crate::delivery::{
    cells, drops_for, law_drop_oldest_makes_room, law_recv_is_first_in_first_out,
    law_recv_of_nothing, law_send_appends, lemma_message_frames, message_cells,
    slots_needed, slots_taken, Message,
};
use crate::error::{ChannelError, DslineError};
use crate::queue::{Outcome, QueueView};
use crate::recovery::{can_catch_up, law_handle_catches_up, seq_distance};
use crate::slot::SlotView;
use crate::spsc::{seq_after, Backpressure};
use vstd::prelude::*;

verus! {

impl QueueView {
    /// The handle when somebody else has changed the slots.
    pub open spec fn over(self, slots: Seq<SlotView>) -> QueueView {
        QueueView { slots, ..self }
    }
}

/// Whether `queue` is what a producer and a consumer share: it holds the messages, its next
/// number is the producer's, both can find the messages, and a consumer that knows of messages
/// knows where the first one is.
pub open spec fn shares(
    queue: QueueView,
    producer: QueueView,
    consumer: QueueView,
    messages: Seq<Message>,
) -> bool {
    &&& queue.holds(messages)
    &&& queue.config.capacity < 0x8000_0000_0000_0000
    &&& queue.next_seq == producer.next_seq
    &&& can_catch_up(producer, queue)
    &&& can_catch_up(consumer, queue)
    &&& consumer.len > 0 ==> messages.len() > 0 && consumer.tail == queue.tail
}

/// Whether a producer and a consumer share a channel that holds these messages.
pub open spec fn linked(
    producer: QueueView,
    consumer: QueueView,
    messages: Seq<Message>,
) -> bool {
    exists|queue: QueueView| #[trigger] shares(queue, producer, consumer, messages)
}

/// What one handle alone holds is shared with a copy of it.
pub proof fn law_handle_is_linked_to_itself(queue: QueueView, messages: Seq<Message>)
    requires
        queue.holds(messages),
        queue.config.capacity < 0x8000_0000_0000_0000,
    ensures
        linked(queue, queue, messages),
{
    if queue.len > 0 {
        assert(cells(queue.config, messages).len() > 0);
    }
    assert(shares(queue, queue, queue, messages));
}

/// A newcomer can take the consumer's place at any time, and the producer's place while there are
/// messages, as long as the next sequence number is in the lower half of the range.
pub proof fn law_newcomer_takes_a_place(
    producer: QueueView,
    consumer: QueueView,
    messages: Seq<Message>,
)
    requires
        linked(producer, consumer, messages),
        producer.next_seq < 0x8000_0000_0000_0000,
    ensures
        linked(producer, producer.forgotten().refreshed(), messages),
        messages.len() > 0 ==> linked(
            producer.forgotten().refreshed(),
            consumer,
            messages,
        ),
{
    let queue = choose|queue: QueueView| shares(queue, producer, consumer, messages);
    let newcomer = producer.forgotten().refreshed();
    law_handle_catches_up(producer.forgotten(), queue, messages);
    if newcomer.len > 0 {
        assert(cells(queue.config, messages).len() > 0);
    }
    assert(shares(queue, producer, newcomer, messages));
    if messages.len() > 0 {
        assert(shares(queue, newcomer, consumer, messages));
    }
}

/// What the producer sends stands behind all messages that the consumer has not received. The
/// consumer must not have fallen behind by half the range of sequence numbers.
pub proof fn law_sent_message_reaches_the_consumer(
    producer: QueueView,
    consumer: QueueView,
    messages: Seq<Message>,
    payload: Seq<u8>,
)
    requires
        linked(producer, consumer, messages),
        seq_distance(consumer.next_seq, producer.next_seq) + 1 < 0x8000_0000_0000_0000,
        !producer.closed,
        planned(producer.config, payload.len()) is Ok,
        slots_taken(producer.config, messages) + slots_needed(producer.config, payload)
            <= producer.config.capacity,
    ensures
        ({
            let (after, r) = producer.shared_sent(payload);
            &&& r == Ok::<(), DslineError>(())
            &&& linked(
                after,
                consumer.over(after.slots),
                messages.push(Message { seq: producer.next_seq, payload }),
            )
            &&& after.config == producer.config
            &&& after.closed == producer.closed
            &&& after.next_seq == seq_after(producer.next_seq)
        }),
{
    let queue = choose|queue: QueueView| shares(queue, producer, consumer, messages);
    law_handle_catches_up(producer, queue, messages);
    let found = producer.refreshed();
    law_send_appends(found, messages, payload);
    let after = producer.shared_sent(payload).0;
    assert(shares(
        after,
        after,
        consumer.over(after.slots),
        messages.push(Message { seq: producer.next_seq, payload }),
    ));
}

/// A message that does not fit now is refused or discarded as configured, and nothing changes
/// between the two.
pub proof fn law_full_channel_stays_linked(
    producer: QueueView,
    consumer: QueueView,
    messages: Seq<Message>,
    payload: Seq<u8>,
)
    requires
        linked(producer, consumer, messages),
        !producer.closed,
        planned(producer.config, payload.len()) is Ok,
        slots_taken(producer.config, messages) + slots_needed(producer.config, payload)
            > producer.config.capacity,
        !(producer.config.backpressure is DropOldest),
    ensures
        ({
            let (after, r) = producer.shared_sent(payload);
            &&& r == match producer.config.backpressure {
                Backpressure::DropNewest => Ok::<(), DslineError>(()),
                _ => Err::<(), DslineError>(DslineError::Channel(ChannelError::BufferFull)),
            }
            &&& after.slots == producer.slots
            &&& linked(after, consumer, messages)
            &&& after.config == producer.config
            &&& after.closed == producer.closed
            &&& after.next_seq == producer.next_seq
        }),
{
    let queue = choose|queue: QueueView| shares(queue, producer, consumer, messages);
    law_handle_catches_up(producer, queue, messages);
    let found = producer.refreshed();
    let after = producer.shared_sent(payload).0;
    assert(after == found);
    assert(shares(after, after, consumer, messages));
}

/// Where room is made for a message, the oldest ones go, as many as it takes. A consumer that knows
/// of no messages finds those that are left.
///
/// Of a consumer that knows of messages this is not so: it takes the first one to be where it was.
/// With two slots, both in use and known to the consumer, a third message goes where the first one
/// was, and the consumer receives it before the second.
pub proof fn law_dropped_messages_leave_the_rest_linked(
    producer: QueueView,
    consumer: QueueView,
    messages: Seq<Message>,
    payload: Seq<u8>,
)
    requires
        linked(producer, consumer, messages),
        seq_distance(consumer.next_seq, producer.next_seq) + 1 < 0x8000_0000_0000_0000,
        consumer.len == 0,
        !producer.closed,
        planned(producer.config, payload.len()) is Ok,
        producer.config.backpressure is DropOldest,
    ensures
        ({
            let (after, r) = producer.shared_sent(payload);
            let count = drops_for(
                producer.config,
                messages,
                slots_needed(producer.config, payload),
            );
            &&& r == Ok::<(), DslineError>(())
            &&& linked(
                after,
                consumer.over(after.slots),
                messages.skip(count as int).push(Message { seq: producer.next_seq, payload }),
            )
            &&& after.config == producer.config
            &&& after.closed == producer.closed
            &&& after.next_seq == seq_after(producer.next_seq)
        }),
{
    let queue = choose|queue: QueueView| shares(queue, producer, consumer, messages);
    law_handle_catches_up(producer, queue, messages);
    law_drop_oldest_makes_room(producer.refreshed(), messages, payload);
    let after = producer.shared_sent(payload).0;
    let count = drops_for(producer.config, messages, slots_needed(producer.config, payload));
    assert(shares(
        after,
        after,
        consumer.over(after.slots),
        messages.skip(count as int).push(Message { seq: producer.next_seq, payload }),
    ));
}

/// The consumer receives the messages in the order in which the producer sent them, unchanged.
pub proof fn law_consumer_receives_in_order(
    producer: QueueView,
    consumer: QueueView,
    messages: Seq<Message>,
)
    requires
        linked(producer, consumer, messages),
        messages.len() > 0,
    ensures
        ({
            let (after, outcome) = consumer.shared_received();
            &&& outcome == (Outcome::Message {
                seq: messages[0].seq,
                payload: messages[0].payload,
            })
            &&& linked(producer.over(after.slots), after, messages.skip(1))
            &&& after.config == consumer.config
            &&& after.closed == consumer.closed
            &&& after.next_seq == producer.next_seq
            &&& after.last_seq == Some(messages[0].seq)
        }),
{
    let queue = choose|queue: QueueView| shares(queue, producer, consumer, messages);
    law_handle_catches_up(consumer, queue, messages);
    law_recv_is_first_in_first_out(consumer.refreshed(), messages);
    let after = consumer.shared_received().0;
    lemma_message_frames(queue.config, messages[0].seq, messages[0].payload);
    assert(message_cells(queue.config, messages[0]).len() > 0);
    if after.len > 0 {
        assert(cells(queue.config, messages.skip(1)).len() > 0);
    }
    assert(shares(after, producer.over(after.slots), after, messages.skip(1)));
}

/// Where there are no messages, the consumer is told so, and nothing changes between the two.
pub proof fn law_consumer_finds_nothing(producer: QueueView, consumer: QueueView)
    requires
        linked(producer, consumer, seq![]),
    ensures
        ({
            let (after, outcome) = consumer.shared_received();
            &&& outcome == Outcome::Failed(
                DslineError::Channel(
                    if consumer.closed {
                        ChannelError::Closed
                    } else {
                        ChannelError::BufferEmpty
                    },
                ),
            )
            &&& after.slots == consumer.slots
            &&& linked(producer, after, seq![])
            &&& after.config == consumer.config
            &&& after.closed == consumer.closed
            &&& after.next_seq == consumer.next_seq
            &&& after.last_seq == consumer.last_seq
        }),
{
    let queue = choose|queue: QueueView| shares(queue, producer, consumer, seq![]);
    law_handle_catches_up(consumer, queue, seq![]);
    law_recv_of_nothing(consumer.refreshed());
    let after = consumer.shared_received().0;
    assert(shares(queue, producer, after, seq![]));
}

} // verus!
