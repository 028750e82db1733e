//! Bit flags in the event store's `flags` column.

use vstd::prelude::*;

verus! {

/// The event is an inbound P2P message.
pub const INBOUND: u8 = 1;

/// The event's direction is meaningful (i.e. it is a P2P message at all).
pub const HAS_DIRECTION: u8 = 2;

/// Whether the flags say which way a message went.
pub open spec fn directed(flags: u8) -> bool {
    flags & HAS_DIRECTION != 0
}

/// Whether the flags say the message came in.
pub open spec fn inward(flags: u8) -> bool {
    flags & INBOUND != 0
}

/// The flags of a P2P message: that it has a direction, and which.
pub open spec fn message_flags(inbound: bool) -> u8 {
    if inbound {
        3
    } else {
        2
    }
}

/// The flags of a P2P message.
pub fn of_message(inbound: bool) -> (flags: u8)
    ensures
        flags == message_flags(inbound),
        directed(flags),
        inward(flags) == inbound,
{
    assert(2u8 & 2u8 != 0 && 2u8 & 1u8 == 0 && 3u8 & 2u8 != 0 && 3u8 & 1u8 != 0) by (bit_vector);
    if inbound {
        3
    } else {
        2
    }
}

/// An event with no flags says nothing about direction.
pub proof fn law_no_flags_no_direction()
    ensures
        !directed(0),
{
    assert(0u8 & 2u8 == 0) by (bit_vector);
}

/// The flags of a message say that it went some way, and which: two bits of them, and what
/// is in the others does not come into it.
pub proof fn law_flags_say_which_way_a_message_went(flags: u8, inbound: bool)
    ensures
        directed(message_flags(inbound)),
        inward(message_flags(inbound)) == inbound,
        directed(flags) <==> flags & 2 != 0,
        inward(flags) <==> flags & 1 != 0,
{
    assert(2u8 & 2u8 != 0 && 2u8 & 1u8 == 0 && 3u8 & 2u8 != 0 && 3u8 & 1u8 != 0) by (bit_vector);
}

} // verus!
