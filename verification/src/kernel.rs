//! Plain values exchanged with the kernel's readiness facility.

use vstd::prelude::*;

verus! {

/// The condition on a descriptor that a registration asks the kernel to watch.
#[derive(Clone, Copy, Debug, PartialEq, Eq, Structural)]
pub enum Interest {
    /// Data, or a pending connection, can be taken from the descriptor.
    Read,
    /// The descriptor accepts data.
    Write,
}

/// The key by which the kernel reports readiness: what was registered comes
/// back unchanged in the notification, and that is how a notification finds
/// the record that asked for it.
#[derive(Clone, Copy, Debug, PartialEq, Eq, Structural)]
pub struct EventIdentity {
    /// Number of the watched descriptor.
    pub descriptor: i32,
    /// The watched condition.
    pub interest: Interest,
    /// Opaque value that the kernel hands back untouched.
    pub tag: u64,
}

impl EventIdentity {
    /// Identity of a read registration on `descriptor`.
    pub fn read(descriptor: i32) -> (id: EventIdentity)
        ensures
            id == (EventIdentity { descriptor, interest: Interest::Read, tag: 0 }),
    {
        EventIdentity { descriptor, interest: Interest::Read, tag: 0 }
    }

    /// Identity of a write registration on `descriptor`.
    pub fn write(descriptor: i32) -> (id: EventIdentity)
        ensures
            id == (EventIdentity { descriptor, interest: Interest::Write, tag: 0 }),
    {
        EventIdentity { descriptor, interest: Interest::Write, tag: 0 }
    }

    /// Whether two identities name the same registration.
    pub fn matches(&self, other: &EventIdentity) -> (same: bool)
        ensures
            same == (*self == *other),
    {
        self.descriptor == other.descriptor && self.interest == other.interest && self.tag
            == other.tag
    }
}

/// How long one wait on a kernel queue may last.
#[derive(Clone, Copy, Debug, PartialEq, Eq, Structural)]
pub struct Timespec {
    pub tv_sec: i64,
    pub tv_nsec: i64,
}

impl Timespec {
    /// The zero timeout: a wait returns at once with whatever is ready.
    pub fn zero() -> (t: Timespec)
        ensures
            t == (Timespec { tv_sec: 0, tv_nsec: 0 }),
    {
        Timespec { tv_sec: 0, tv_nsec: 0 }
    }
}

} // verus!
