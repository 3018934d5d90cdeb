//! What a front end decides: which names it takes and how it reports an error.

use crate::error::{ChannelError, DslineError};
use crate::text::chars_of;
use vstd::prelude::*;

verus! {

/// Whether a character beyond ASCII is white space, as `char::is_whitespace` tells it.
pub uninterp spec fn unicode_whitespace(c: char) -> bool;

/// `char::is_whitespace`: of the ASCII characters the space and those from tab to carriage return
/// are white space. Which others are, the Unicode tables say; their answer is named and not
/// stated.
pub assume_specification[ char::is_whitespace ](c: char) -> (b: bool)
    ensures
        b == if (c as u32) < 128 {
            c == ' ' || '\t' <= c <= '\r'
        } else {
            unicode_whitespace(c)
        },
;

/// Whether a character is white space.
pub open spec fn is_white(c: char) -> bool {
    if (c as u32) < 128 {
        c == ' ' || '\t' <= c <= '\r'
    } else {
        unicode_whitespace(c)
    }
}

/// Whether a name says nothing: it is empty or white space throughout.
pub fn is_blank_name(name: &str) -> (blank: bool)
    ensures
        blank == forall|i: int| 0 <= i < name@.len() ==> is_white(#[trigger] name@[i]),
{
    let chars = chars_of(name);
    let mut i: usize = 0;
    while i < chars.len()
        invariant
            i <= chars@.len(),
            chars@ == name@,
            forall|j: int| 0 <= j < i ==> is_white(#[trigger] name@[j]),
        decreases chars@.len() - i,
    {
        if !chars[i].is_whitespace() {
            assert(!is_white(name@[i as int]));
            return false;
        }
        i += 1;
    }
    true
}

/// The kinds of error that a front end tells apart.
#[derive(Debug, Clone, Copy, PartialEq, Eq, Structural)]
pub enum ErrorClass {
    ChannelClosed,
    BufferFull,
    BufferEmpty,
    MessageTooLarge,
    CorruptedMessage,
    /// A value that was given is not possible.
    InvalidValue,
    /// Any other error of a channel.
    Channel,
    /// Any other error.
    Other,
}

/// The kind of an error.
pub open spec fn class_of(error: DslineError) -> ErrorClass {
    match error {
        DslineError::Channel(ChannelError::Closed) => ErrorClass::ChannelClosed,
        DslineError::Channel(ChannelError::BufferFull) => ErrorClass::BufferFull,
        DslineError::Channel(ChannelError::BufferEmpty) => ErrorClass::BufferEmpty,
        DslineError::Channel(ChannelError::MessageTooLarge { .. }) => ErrorClass::MessageTooLarge,
        DslineError::Channel(ChannelError::CorruptedMessage) => ErrorClass::CorruptedMessage,
        DslineError::Channel(ChannelError::InvalidConfig(_)) => ErrorClass::InvalidValue,
        DslineError::Channel(_) => ErrorClass::Channel,
        DslineError::Protocol(_) => ErrorClass::Other,
        DslineError::Transport(_) => ErrorClass::Other,
    }
}

/// Tells the kind of an error.
pub fn error_class(error: &DslineError) -> (class: ErrorClass)
    ensures
        class == class_of(*error),
{
    match error {
        DslineError::Channel(ChannelError::Closed) => ErrorClass::ChannelClosed,
        DslineError::Channel(ChannelError::BufferFull) => ErrorClass::BufferFull,
        DslineError::Channel(ChannelError::BufferEmpty) => ErrorClass::BufferEmpty,
        DslineError::Channel(ChannelError::MessageTooLarge { .. }) => ErrorClass::MessageTooLarge,
        DslineError::Channel(ChannelError::CorruptedMessage) => ErrorClass::CorruptedMessage,
        DslineError::Channel(ChannelError::InvalidConfig(_)) => ErrorClass::InvalidValue,
        DslineError::Channel(_) => ErrorClass::Channel,
        DslineError::Protocol(_) => ErrorClass::Other,
        DslineError::Transport(_) => ErrorClass::Other,
    }
}

/// Each kind of error that has a name of its own is told by it, what was given wrong is an invalid
/// value, and only errors of a channel count as such.
pub proof fn law_errors_are_told_apart(error: DslineError)
    ensures
        class_of(error) == ErrorClass::ChannelClosed <==> error == DslineError::Channel(
            ChannelError::Closed,
        ),
        class_of(error) == ErrorClass::BufferFull <==> error == DslineError::Channel(
            ChannelError::BufferFull,
        ),
        class_of(error) == ErrorClass::BufferEmpty <==> error == DslineError::Channel(
            ChannelError::BufferEmpty,
        ),
        class_of(error) == ErrorClass::CorruptedMessage <==> error == DslineError::Channel(
            ChannelError::CorruptedMessage,
        ),
        class_of(error) == ErrorClass::MessageTooLarge <==> (error matches DslineError::Channel(e)
            && e is MessageTooLarge),
        class_of(error) == ErrorClass::InvalidValue <==> (error matches DslineError::Channel(e)
            && e is InvalidConfig),
        class_of(error) == ErrorClass::Channel <==> (error matches DslineError::Channel(e) && (
        e is StorageIo || e is SequenceMismatch)),
        class_of(error) == ErrorClass::Other <==> !(error is Channel),
{
}

} // verus!
