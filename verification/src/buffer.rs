//! The fixed-capacity byte buffer that every record carries.

use vstd::array::array_as_slice;
use vstd::prelude::*;
use vstd::slice::slice_subrange;

verus! {

/// Number of bytes that a buffer holds.
pub const CAPACITY: usize = 2048;

/// The first `CAPACITY` bytes of `bytes`: what of a byte sequence fits a buffer.
pub open spec fn truncated(bytes: Seq<u8>) -> Seq<u8> {
    if bytes.len() <= CAPACITY {
        bytes
    } else {
        bytes.take(CAPACITY as int)
    }
}

/// `content` followed by zero bytes up to `CAPACITY`: the storage of a buffer
/// that holds `content`.
pub open spec fn padded(content: Seq<u8>) -> Seq<u8> {
    Seq::new(
        CAPACITY as nat,
        |i: int|
            if i < content.len() {
                content[i]
            } else {
                0u8
            },
    )
}

/// What of `content` lies at position `from` and behind it.
pub open spec fn unsent(content: Seq<u8>, from: nat) -> Seq<u8> {
    if from < content.len() {
        content.skip(from as int)
    } else {
        Seq::empty()
    }
}

/// `CAPACITY` bytes of storage together with the number of them that are data.
/// The storage behind the data is zero.
pub struct Buffer {
    bytes: [u8; 2048],
    len: usize,
}

impl View for Buffer {
    type V = Seq<u8>;

    /// The data bytes, without the padding.
    closed spec fn view(&self) -> Seq<u8> {
        self.bytes@.take(self.len as int)
    }
}

impl Buffer {
    #[verifier::type_invariant]
    closed spec fn well_formed(&self) -> bool {
        &&& self.len <= CAPACITY
        &&& forall|i: int| self.len <= i < CAPACITY ==> self.bytes[i] == 0u8
    }

    /// The whole storage: the data, then the zero padding.
    pub closed spec fn storage(&self) -> Seq<u8> {
        self.bytes@
    }

    /// A buffer without data.
    pub fn new() -> (buffer: Buffer)
        ensures
            buffer@ == Seq::<u8>::empty(),
            buffer.storage() == padded(Seq::<u8>::empty()),
    {
        let buffer = Buffer { bytes: [0u8; 2048], len: 0 };
        assert(buffer.storage() =~= padded(Seq::<u8>::empty()));
        buffer
    }

    /// Number of data bytes.
    pub fn len(&self) -> (n: usize)
        ensures
            n == self@.len(),
            n <= CAPACITY,
    {
        proof {
            use_type_invariant(self);
        }
        self.len
    }

    /// The data bytes.
    pub fn data(&self) -> (bytes: &[u8])
        ensures
            bytes@ == self@,
    {
        proof {
            use_type_invariant(self);
        }
        slice_subrange(array_as_slice(&self.bytes), 0, self.len)
    }

    /// The data bytes from position `from` on, and none where `from` lies
    /// behind the data.
    pub fn data_from(&self, from: usize) -> (bytes: &[u8])
        ensures
            bytes@ == unsent(self@, from as nat),
    {
        proof {
            use_type_invariant(self);
        }
        let start: usize = if from < self.len {
            from
        } else {
            self.len
        };
        let bytes = slice_subrange(array_as_slice(&self.bytes), start, self.len);
        assert(bytes@ =~= unsent(self@, from as nat));
        bytes
    }

    /// The whole storage, padding included, as the request handler takes it.
    pub fn as_array(&self) -> (bytes: &[u8; 2048])
        ensures
            bytes@ == self.storage(),
            bytes@ == padded(self@),
    {
        proof {
            use_type_invariant(self);
            assert(self.bytes@ =~= padded(self@));
        }
        &self.bytes
    }
}

/// Whether `bytes` is longer than a buffer, so that packing it loses its tail.
pub fn exceeds_capacity(bytes: &[u8]) -> (over: bool)
    ensures
        over == (bytes@.len() > CAPACITY),
{
    bytes.len() > CAPACITY
}

/// Packs `bytes` into a buffer: the data is `bytes` cut to `CAPACITY`, and
/// zero bytes fill the rest of the storage.
pub fn from_slice(bytes: &[u8]) -> (buffer: Buffer)
    ensures
        buffer@ == truncated(bytes@),
        buffer.storage() == padded(truncated(bytes@)),
{
    let mut result: [u8; 2048] = [0u8; 2048];
    let len: usize = if bytes.len() > CAPACITY {
        CAPACITY
    } else {
        bytes.len()
    };
    let mut i: usize = 0;
    while i < len
        invariant
            i <= len,
            len <= CAPACITY,
            len <= bytes@.len(),
            forall|j: int| 0 <= j < i ==> result[j] == bytes@[j],
            forall|j: int| i <= j < CAPACITY ==> result[j] == 0u8,
        decreases len - i,
    {
        result[i] = bytes[i];
        i = i + 1;
    }
    let buffer = Buffer { bytes: result, len };
    proof {
        assert(buffer@ =~= truncated(bytes@));
        assert(buffer.storage() =~= padded(truncated(bytes@)));
    }
    buffer
}

} // verus!
