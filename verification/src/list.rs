use vstd::prelude::*;

use core::marker::PhantomData;
use crate::reader::MemReader;
use crate::shaped::{read_value, value_at, Shaped};
use crate::pointer::Resolve;
use crate::array::{lemma_array_get_matches_iter, Array, ArrayIter};

verus! {

/// Header offset of a list's backing-array pointer.
pub const LIST_ITEMS_OFFSET: u64 = 0x10;

/// Header offset of a list's logical size.
pub const LIST_SIZE_OFFSET: u64 = 0x18;

/// A dynamically sized list of the target runtime: its header address, the
/// backing [`Array`] (over-allocated storage, resolved by following the
/// header's pointer field) and the logical `size`. Only the first `size`
/// entries are live; the over-allocated tail is never surfaced.
#[derive(Debug)]
pub struct List<T> {
    pub addr: u64,
    pub items: Array<T>,
    pub size: u32,
}

impl<T> Clone for List<T> {
    fn clone(&self) -> (r: Self)
        ensures
            r == *self,
    {
        List { addr: self.addr, items: self.items, size: self.size }
    }
}

impl<T> Copy for List<T> {

}

impl<T> List<T> {
    /// The logical element count the header held at resolution time.
    pub fn size(&self) -> (r: u32)
        ensures
            r == self.size,
    {
        self.size
    }
}

impl<T: Shaped> List<T> {
    /// The number of elements iteration surfaces: the logical size, clamped
    /// by what the backing array can hold.
    pub open spec fn live_count(self) -> u32 {
        if self.size < self.items.size {
            self.size
        } else {
            self.items.size
        }
    }

    /// The backing array restricted to the live elements.
    pub open spec fn live_view(self) -> Array<T> {
        Array { addr: self.items.addr, size: self.live_count(), _t: PhantomData }
    }

    /// The sequence iteration yields.
    pub open spec fn elems<R: MemReader>(self, reader: R) -> Seq<T> {
        self.live_view().elems(reader)
    }

    /// A lazy walk over the live elements: the backing array's walk, clamped
    /// to the logical size.
    pub fn iter<R: MemReader>(self, reader: R) -> (r: ArrayIter<T, R>)
        ensures
            r.reader == reader,
            ({
                let start = self.items.addr + crate::array::ARRAY_DATA_OFFSET;
                let stop = start + self.live_count() * T::width_spec();
                if stop <= u64::MAX {
                    r.pos == start && r.end == stop
                } else {
                    r.pos == r.end
                }
            }),
    {
        let n = if self.size < self.items.size {
            self.size
        } else {
            self.items.size
        };
        let live = Array::<T> { addr: self.items.addr, size: n, _t: PhantomData };
        live.iter(reader)
    }

    /// A direct read of element `index`, clamped to the logical size: indices
    /// at or past `size` yield absence rather than uninitialized backing
    /// capacity.
    pub fn get<R: MemReader>(self, reader: R, index: usize) -> (r: Option<T>)
        ensures
            r == (if index < self.size {
                self.items.elem_at(reader, index as int)
            } else {
                None::<T>
            }),
    {
        if (index as u64) < (self.size as u64) {
            self.items.get(reader, index)
        } else {
            None
        }
    }

    /// Collects the elements the iterator yields.
    pub fn to_vec<R: MemReader>(self, reader: R) -> (r: Vec<T>)
        ensures
            r@ == self.elems(reader),
    {
        let n = if self.size < self.items.size {
            self.size
        } else {
            self.items.size
        };
        let live = Array::<T> { addr: self.items.addr, size: n, _t: PhantomData };
        live.to_vec(reader)
    }
}

/// A list resolves by reading its logical size and its backing-array pointer
/// from the header, then resolving the backing array; any failed nested read
/// makes the whole view absent.
impl<T, R: MemReader> Resolve<R> for List<T> {
    open spec fn resolved_spec(reader: R, addr: u64) -> Option<List<T>> {
        if addr + LIST_SIZE_OFFSET <= u64::MAX && addr + LIST_ITEMS_OFFSET <= u64::MAX {
            match value_at::<u32, R>(reader, (addr + LIST_SIZE_OFFSET) as u64) {
                Option::None => None,
                Option::Some(size) => match value_at::<u64, R>(
                    reader,
                    (addr + LIST_ITEMS_OFFSET) as u64,
                ) {
                    Option::None => None,
                    Option::Some(items_addr) => match Array::<T>::resolved_spec(
                        reader,
                        items_addr,
                    ) {
                        Option::None => None,
                        Option::Some(items) => Some(List { addr, items, size }),
                    },
                },
            }
        } else {
            None
        }
    }

    fn resolve(reader: R, addr: u64) -> (r: Option<List<T>>) {
        let size_addr = match addr.checked_add(LIST_SIZE_OFFSET) {
            Some(x) => x,
            None => {
                return None;
            },
        };
        let items_ptr_addr = match addr.checked_add(LIST_ITEMS_OFFSET) {
            Some(x) => x,
            None => {
                return None;
            },
        };
        let size = match read_value::<u32, R>(&reader, size_addr) {
            Some(x) => x,
            None => {
                return None;
            },
        };
        let items_addr = match read_value::<u64, R>(&reader, items_ptr_addr) {
            Some(x) => x,
            None => {
                return None;
            },
        };
        match Array::<T>::resolve(reader, items_addr) {
            Some(items) => Some(List { addr, items, size }),
            None => None,
        }
    }
}

/// Law: with a readable backing array of capacity at least the logical size,
/// iteration yields exactly `size` elements, however much larger the
/// over-allocated backing capacity is.
pub proof fn lemma_list_iter_hides_capacity<T: Shaped, R: MemReader>(list: List<T>, reader: R)
    requires
        T::width_spec() > 0,
        list.size <= list.items.size,
        list.live_view().all_elems_readable(reader),
    ensures
        list.elems(reader).len() == list.size as int,
        forall|i: int|
            0 <= i < list.size ==> list.items.elem_at(reader, i) == Some(list.elems(reader)[i]),
{
    lemma_array_get_matches_iter::<T, R>(list.live_view(), reader);
    assert(list.live_view().size == list.size);
    assert forall|i: int| 0 <= i < list.size implies list.items.elem_at(reader, i) == Some(
        list.elems(reader)[i],
    ) by {
        assert(list.live_view().elem_addr(i) == list.items.elem_addr(i));
        assert(list.live_view().elem_at(reader, i) == list.items.elem_at(reader, i));
    }
}

} // verus!
