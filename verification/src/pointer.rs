use vstd::prelude::*;

use core::marker::PhantomData;
use crate::reader::MemReader;
use crate::shaped::{le64, value_at, read_value, Shaped};

verus! {

/// A self-describing view: a type that reconstructs itself (reading whatever
/// header metadata it needs) from a reader and the address of its runtime
/// structure. Every resolution failure collapses to absence.
pub trait Resolve<R: MemReader>: Sized {
    /// The view that resolution at `addr` produces, if it produces one.
    spec fn resolved_spec(reader: R, addr: u64) -> Option<Self>;

    /// Resolves the view at `addr`.
    fn resolve(reader: R, addr: u64) -> (r: Option<Self>)
        ensures
            r == Self::resolved_spec(reader, addr),
    ;
}

/// An external stateful producer of values of type `T` from an instance
/// address: the alternate resolution path of [`Pointer::resolve_with`].
pub trait Binding<T>: Sized {
    /// The value the binding produces for an instance at `addr`.
    spec fn read_spec(self, addr: u64) -> Option<T>;

    /// Produces the value for the instance at `addr`, or reports absence.
    fn read(self, addr: u64) -> (r: Option<T>)
        ensures
            r == self.read_spec(addr),
    ;
}

/// An absolute address in the target process, tagged with the type it is
/// expected to point at. Address `0` is the universal null sentinel: every
/// resolution or read form yields absence for it. The tag selects which
/// resolution routine a caller invokes; no behaviour depends on it otherwise.
#[derive(Debug)]
pub struct Pointer<T> {
    pub address: u64,
    pub _t: PhantomData<T>,
}

impl<T> Clone for Pointer<T> {
    fn clone(&self) -> (r: Self)
        ensures
            r == *self,
    {
        Pointer { address: self.address, _t: PhantomData }
    }
}

impl<T> Copy for Pointer<T> {

}

impl<T> Pointer<T> {
    /// A pointer to the given absolute address.
    pub fn new(address: u64) -> (r: Self)
        ensures
            r.address == address,
    {
        Pointer { address, _t: PhantomData }
    }

    /// The raw address.
    pub fn address_value(self) -> (r: u64)
        ensures
            r == self.address,
    {
        self.address
    }

    /// Resolves the pointee through an external binding, null-checked.
    pub fn resolve_with<B: Binding<T>>(self, binding: B) -> (r: Option<T>)
        ensures
            r == (if self.address == 0 {
                None::<T>
            } else {
                binding.read_spec(self.address)
            }),
    {
        self.resolve_as_with(binding)
    }

    /// Resolves a value of any type `U` through an external binding for the
    /// instance this pointer addresses, null-checked.
    pub fn resolve_as_with<U, B: Binding<U>>(self, binding: B) -> (r: Option<U>)
        ensures
            r == (if self.address == 0 {
                None::<U>
            } else {
                binding.read_spec(self.address)
            }),
    {
        if self.address == 0 {
            None
        } else {
            binding.read(self.address)
        }
    }

    /// Reads the raw 8-byte value stored at the pointer's own address: one
    /// more level of dereference, for pointer fields that hold an address
    /// (such as singleton-held instance addresses). Not null-checked.
    pub fn deref<R: MemReader>(self, reader: R) -> (r: Option<u64>)
        ensures
            r == value_at::<u64, R>(reader, self.address),
    {
        read_value(&reader, self.address)
    }

    /// Resolves the self-describing pointee, null-checked: `None` for the
    /// null address, without consulting the reader.
    pub fn resolve<R: MemReader>(self, reader: R) -> (r: Option<T>) where T: Resolve<R>
        ensures
            r == (if self.address == 0 {
                None::<T>
            } else {
                T::resolved_spec(reader, self.address)
            }),
    {
        if self.address == 0 {
            None
        } else {
            T::resolve(reader, self.address)
        }
    }

    /// Reads the fixed-shape pointee, null-checked: `None` for the null
    /// address, without consulting the reader.
    pub fn read<R: MemReader>(self, reader: R) -> (r: Option<T>) where T: Shaped
        ensures
            r == (if self.address == 0 {
                None::<T>
            } else {
                value_at::<T, R>(reader, self.address)
            }),
    {
        if self.address == 0 {
            None
        } else {
            read_value(&reader, self.address)
        }
    }
}

/// A pointer is itself a fixed-shape value: eight little-endian bytes holding
/// its address.
impl<T> Shaped for Pointer<T> {
    open spec fn width_spec() -> nat {
        8
    }

    open spec fn decode_spec(b: Seq<u8>) -> Pointer<T> {
        Pointer { address: le64(b), _t: PhantomData }
    }

    fn width() -> usize {
        8
    }

    fn decode(b: &Vec<u8>) -> (r: Pointer<T>) {
        Pointer { address: u64::decode(b), _t: PhantomData }
    }
}

} // verus!
