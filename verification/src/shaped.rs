use vstd::prelude::*;

use crate::reader::{can_read, bytes_at, MemReader};

verus! {

/// A fixed-shape value: one whose byte pattern is always valid, decoded from
/// a fixed number of little-endian bytes. These are the element types that
/// the typed views can read directly out of the target process.
pub trait Shaped: Sized {
    /// The number of bytes one value occupies in target memory.
    spec fn width_spec() -> nat;

    /// The value encoded by `b`, for `b` of length `width_spec()`.
    spec fn decode_spec(b: Seq<u8>) -> Self;

    /// The number of bytes one value occupies in target memory.
    fn width() -> (n: usize)
        ensures
            n as nat == Self::width_spec(),
    ;

    /// Decodes one value from its bytes.
    fn decode(b: &Vec<u8>) -> (r: Self)
        requires
            b@.len() == Self::width_spec(),
        ensures
            r == Self::decode_spec(b@),
    ;
}

/// The value of two little-endian bytes.
pub open spec fn le16(b: Seq<u8>) -> u16
    recommends
        b.len() == 2,
{
    (b[0] + b[1] * 0x100) as u16
}

/// The value of four little-endian bytes.
pub open spec fn le32(b: Seq<u8>) -> u32
    recommends
        b.len() == 4,
{
    (b[0] + b[1] * 0x100 + b[2] * 0x10000 + b[3] * 0x1000000) as u32
}

/// The value of eight little-endian bytes.
pub open spec fn le64(b: Seq<u8>) -> u64
    recommends
        b.len() == 8,
{
    (b[0] + b[1] * 0x100 + b[2] * 0x10000 + b[3] * 0x1000000 + b[4] * 0x100000000
        + b[5] * 0x10000000000 + b[6] * 0x1000000000000 + b[7] * 0x100000000000000) as u64
}

impl Shaped for u8 {
    open spec fn width_spec() -> nat {
        1
    }

    open spec fn decode_spec(b: Seq<u8>) -> u8 {
        b[0]
    }

    fn width() -> usize {
        1
    }

    fn decode(b: &Vec<u8>) -> u8 {
        b[0]
    }
}

impl Shaped for u16 {
    open spec fn width_spec() -> nat {
        2
    }

    open spec fn decode_spec(b: Seq<u8>) -> u16 {
        le16(b)
    }

    fn width() -> usize {
        2
    }

    fn decode(b: &Vec<u8>) -> (r: u16) {
        let r = b[0] as u16 + b[1] as u16 * 0x100;
        assert(r == le16(b@));
        r
    }
}

impl Shaped for u32 {
    open spec fn width_spec() -> nat {
        4
    }

    open spec fn decode_spec(b: Seq<u8>) -> u32 {
        le32(b)
    }

    fn width() -> usize {
        4
    }

    fn decode(b: &Vec<u8>) -> (r: u32) {
        let r = b[0] as u32 + b[1] as u32 * 0x100 + b[2] as u32 * 0x10000
            + b[3] as u32 * 0x1000000;
        assert(r == le32(b@));
        r
    }
}

impl Shaped for u64 {
    open spec fn width_spec() -> nat {
        8
    }

    open spec fn decode_spec(b: Seq<u8>) -> u64 {
        le64(b)
    }

    fn width() -> usize {
        8
    }

    fn decode(b: &Vec<u8>) -> (r: u64) {
        let r = b[0] as u64 + b[1] as u64 * 0x100 + b[2] as u64 * 0x10000
            + b[3] as u64 * 0x1000000 + b[4] as u64 * 0x100000000 + b[5] as u64 * 0x10000000000
            + b[6] as u64 * 0x1000000000000 + b[7] as u64 * 0x100000000000000;
        assert(r == le64(b@));
        r
    }
}

/// The zero-width placeholder: the value type of a set's entries.
impl Shaped for () {
    open spec fn width_spec() -> nat {
        0
    }

    open spec fn decode_spec(b: Seq<u8>) -> () {
        ()
    }

    fn width() -> usize {
        0
    }

    fn decode(b: &Vec<u8>) -> () {
        ()
    }
}

/// The value read at `addr`, if the span of `T::width_spec()` bytes there is
/// readable.
pub open spec fn value_at<T: Shaped, R: MemReader>(reader: R, addr: u64) -> Option<T> {
    if can_read(reader, addr, T::width_spec()) {
        Some(T::decode_spec(bytes_at(reader, addr, T::width_spec())))
    } else {
        None
    }
}

/// Reads one fixed-shape value at `addr`.
pub fn read_value<T: Shaped, R: MemReader>(reader: &R, addr: u64) -> (r: Option<T>)
    ensures
        r == value_at::<T, R>(*reader, addr),
{
    let w = T::width();
    match reader.read_bytes(addr, w) {
        Some(b) => Some(T::decode(&b)),
        None => None,
    }
}

} // verus!
