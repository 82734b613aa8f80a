//! The records that wait in a readiness queue: a listening socket, or one
//! connection in its read or its write stage.

use crate::buffer::{unsent, Buffer, CAPACITY};
use crate::kernel::{EventIdentity, Interest};
use vstd::prelude::*;

verus! {

/// What a readiness queue needs of a record.
pub trait GeneralEvent {
    /// The registration that this record stands for.
    spec fn identity(&self) -> EventIdentity;

    /// Number of the descriptor that the record owns.
    fn get_ident(&self) -> (descriptor: i32)
        ensures
            descriptor == self.identity().descriptor,
    ;

    /// The registration to submit to the kernel for this record.
    fn get_kevent(&self) -> (kevent: EventIdentity)
        ensures
            kevent == self.identity(),
    ;
}

/// A connection record as contracts see it.
pub struct EventView {
    /// Descriptor of the connected socket.
    pub stream: i32,
    /// `Read` while the request is awaited, `Write` while the response leaves.
    pub interest: Interest,
    /// Tag of the registration.
    pub tag: u64,
    /// Data bytes of the buffer.
    pub data: Seq<u8>,
    /// How many of the data bytes the peer has taken already.
    pub written: nat,
}

impl EventView {
    /// The registration that belongs to such a record.
    pub open spec fn identity(self) -> EventIdentity {
        EventIdentity { descriptor: self.stream, interest: self.interest, tag: self.tag }
    }

    /// What every record satisfies: the data fits a buffer, and no more of
    /// it is written than there is.
    pub open spec fn wf(self) -> bool {
        self.written <= self.data.len() <= CAPACITY
    }

    /// The data bytes that the peer has not taken yet.
    pub open spec fn unsent(self) -> Seq<u8> {
        unsent(self.data, self.written)
    }
}

/// One connection in one stage: the socket's descriptor, the buffer of that
/// stage, and the registration under which the record waits.
pub struct Event {
    data: Buffer,
    stream: i32,
    kevent: EventIdentity,
    written: usize,
}

impl View for Event {
    type V = EventView;

    closed spec fn view(&self) -> EventView {
        EventView {
            stream: self.stream,
            interest: self.kevent.interest,
            tag: self.kevent.tag,
            data: self.data@,
            written: self.written as nat,
        }
    }
}

impl Event {
    #[verifier::type_invariant]
    closed spec fn well_formed(&self) -> bool {
        &&& self.kevent.descriptor == self.stream
        &&& self.written <= self.data@.len()
        &&& self.data@.len() <= CAPACITY
    }

    /// A record that waits for `stream` to become readable.
    pub fn new_read(stream: i32, data: Buffer) -> (event: Event)
        ensures
            event@ == (EventView {
                stream,
                interest: Interest::Read,
                tag: 0,
                data: data@,
                written: 0,
            }),
            event@.wf(),
    {
        let _: usize = data.len();
        Event { data, stream, kevent: EventIdentity::read(stream), written: 0 }
    }

    /// A record that waits for `stream` to become writable, with the bytes
    /// to send in `data`.
    pub fn new_write(stream: i32, data: Buffer) -> (event: Event)
        ensures
            event@ == (EventView {
                stream,
                interest: Interest::Write,
                tag: 0,
                data: data@,
                written: 0,
            }),
            event@.wf(),
    {
        let _: usize = data.len();
        Event { data, stream, kevent: EventIdentity::write(stream), written: 0 }
    }

    /// Descriptor of the connected socket.
    pub fn stream(&self) -> (stream: i32)
        ensures
            stream == self@.stream,
    {
        self.stream
    }

    /// The buffer of this stage.
    pub fn data(&self) -> (data: &Buffer)
        ensures
            data@ == self@.data,
    {
        &self.data
    }

    /// How many data bytes the peer has taken.
    pub fn written(&self) -> (written: usize)
        ensures
            written == self@.written,
            self@.wf(),
    {
        proof {
            use_type_invariant(self);
        }
        self.written
    }

    /// The data bytes that are still to be written.
    pub fn unsent(&self) -> (bytes: &[u8])
        ensures
            bytes@ == self@.unsent(),
    {
        self.data.data_from(self.written)
    }

    /// The same record after the peer has taken `count` more bytes; the
    /// count stops at the end of the data.
    pub fn advanced(self, count: usize) -> (event: Event)
        ensures
            event@ == (EventView {
                written: if self@.written + count <= self@.data.len() {
                    (self@.written + count) as nat
                } else {
                    self@.data.len()
                },
                ..self@
            }),
            event@.wf(),
    {
        proof {
            use_type_invariant(&self);
        }
        let len: usize = self.data.len();
        let written: usize = if count <= len - self.written {
            self.written + count
        } else {
            len
        };
        Event { data: self.data, stream: self.stream, kevent: self.kevent, written }
    }

    /// The same record with `data` as its buffer, nothing of it written.
    pub fn with_data(self, data: Buffer) -> (event: Event)
        ensures
            event@ == (EventView { data: data@, written: 0, ..self@ }),
            event@.wf(),
    {
        proof {
            use_type_invariant(&self);
        }
        let _: usize = data.len();
        Event { data, stream: self.stream, kevent: self.kevent, written: 0 }
    }
}

impl GeneralEvent for Event {
    open spec fn identity(&self) -> EventIdentity {
        self@.identity()
    }

    fn get_ident(&self) -> (descriptor: i32) {
        self.stream
    }

    fn get_kevent(&self) -> (kevent: EventIdentity) {
        proof {
            use_type_invariant(self);
        }
        self.kevent
    }
}

/// A listener record as contracts see it.
pub struct ListenerView {
    /// Descriptor of the listening socket.
    pub listener: i32,
    /// Tag of the registration.
    pub tag: u64,
    /// Data bytes of the buffer.
    pub data: Seq<u8>,
}

impl ListenerView {
    /// The registration that belongs to such a record: a listener waits
    /// for readability, which for it means a connection to accept.
    pub open spec fn identity(self) -> EventIdentity {
        EventIdentity { descriptor: self.listener, interest: Interest::Read, tag: self.tag }
    }
}

/// The listening socket's descriptor with its buffer and its registration.
pub struct ListenerEvent {
    data: Buffer,
    listener: i32,
    kevent: EventIdentity,
}

impl View for ListenerEvent {
    type V = ListenerView;

    closed spec fn view(&self) -> ListenerView {
        ListenerView { listener: self.listener, tag: self.kevent.tag, data: self.data@ }
    }
}

impl ListenerEvent {
    #[verifier::type_invariant]
    closed spec fn well_formed(&self) -> bool {
        &&& self.kevent.descriptor == self.listener
        &&& self.kevent.interest == Interest::Read
    }

    /// A record that waits for a connection to arrive at `listener`.
    pub fn new(listener: i32, data: Buffer) -> (event: ListenerEvent)
        ensures
            event@ == (ListenerView { listener, tag: 0, data: data@ }),
    {
        ListenerEvent { data, listener, kevent: EventIdentity::read(listener) }
    }

    /// Descriptor of the listening socket.
    pub fn listener(&self) -> (listener: i32)
        ensures
            listener == self@.listener,
    {
        self.listener
    }

    /// The record's buffer.
    pub fn data(&self) -> (data: &Buffer)
        ensures
            data@ == self@.data,
    {
        &self.data
    }
}

impl GeneralEvent for ListenerEvent {
    open spec fn identity(&self) -> EventIdentity {
        self@.identity()
    }

    fn get_ident(&self) -> (descriptor: i32) {
        self.listener
    }

    fn get_kevent(&self) -> (kevent: EventIdentity) {
        proof {
            use_type_invariant(self);
        }
        self.kevent
    }
}

} // verus!
