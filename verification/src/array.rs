use vstd::prelude::*;

use core::marker::PhantomData;
use crate::reader::{bytes_at, can_read, MemReader};
use crate::shaped::{read_value, value_at, Shaped};
use crate::pointer::Resolve;

verus! {

/// Header offset of an array's element count.
pub const ARRAY_SIZE_OFFSET: u64 = 0x18;

/// Header offset of an array's first element.
pub const ARRAY_DATA_OFFSET: u64 = 0x20;

/// A fixed array of the target runtime: the address of its header plus the
/// element count, read once from the header at resolution time and immutable
/// in the view thereafter. Element `i` lives at
/// `addr + ARRAY_DATA_OFFSET + i * width`; bounds are defined by `size` and
/// the caller is trusted to stay within them.
#[derive(Debug)]
pub struct Array<T> {
    pub addr: u64,
    pub size: u32,
    pub _t: PhantomData<T>,
}

impl<T> Clone for Array<T> {
    fn clone(&self) -> (r: Self)
        ensures
            r == *self,
    {
        Array { addr: self.addr, size: self.size, _t: PhantomData }
    }
}

impl<T> Copy for Array<T> {

}

impl<T> Array<T> {
    /// The element count the header held at resolution time.
    pub fn size(&self) -> (r: u32)
        ensures
            r == self.size,
    {
        self.size
    }
}

/// The sequence a bounded element walk yields: starting at `pos`, up to
/// `count` fixed-shape values at consecutive addresses, cut short at the
/// first one that cannot be read.
pub open spec fn iter_seq<T: Shaped, R: MemReader>(reader: R, pos: u64, count: nat) -> Seq<T>
    decreases count,
{
    if count == 0 {
        Seq::empty()
    } else {
        match value_at::<T, R>(reader, pos) {
            Option::None => Seq::empty(),
            Option::Some(v) => seq![v] + iter_seq::<T, R>(
                reader,
                (pos + T::width_spec()) as u64,
                (count - 1) as nat,
            ),
        }
    }
}

/// The address `i` strides of `w` bytes past `pos`, truncated to the address
/// space; meaningful only where it does not overflow.
pub open spec fn stride_addr(pos: u64, i: int, w: nat) -> u64 {
    (pos + i * w) as u64
}

impl<T: Shaped> Array<T> {
    /// The address element `i` occupies, as an unbounded integer.
    pub open spec fn elem_addr(self, i: int) -> int {
        self.addr + ARRAY_DATA_OFFSET + i * T::width_spec()
    }

    /// The value a direct read of element `i` produces.
    pub open spec fn elem_at<R: MemReader>(self, reader: R, i: int) -> Option<T> {
        if 0 <= i && self.elem_addr(i) <= u64::MAX {
            value_at::<T, R>(reader, self.elem_addr(i) as u64)
        } else {
            None
        }
    }

    /// Whether the whole element span is readable.
    pub open spec fn all_elems_readable<R: MemReader>(self, reader: R) -> bool {
        &&& self.addr + ARRAY_DATA_OFFSET + self.size * T::width_spec() <= u64::MAX
        &&& forall|i: int|
            0 <= i < self.size ==> can_read(
                reader,
                #[trigger] self.elem_addr(i) as u64,
                T::width_spec(),
            )
    }

    /// The sequence iteration yields: up to `size` elements in address order,
    /// cut short at the first unreadable one.
    pub open spec fn elems<R: MemReader>(self, reader: R) -> Seq<T> {
        let start = self.addr + ARRAY_DATA_OFFSET;
        let stop = start + self.size * T::width_spec();
        if T::width_spec() == 0 || stop > u64::MAX {
            Seq::empty()
        } else {
            iter_seq::<T, R>(reader, start as u64, self.size as nat)
        }
    }

    /// A direct computed-offset read of element `index`, with no bounds check
    /// against `size`: staying within bounds is the caller's responsibility.
    pub fn get<R: MemReader>(self, reader: R, index: usize) -> (r: Option<T>)
        ensures
            r == self.elem_at(reader, index as int),
    {
        let w = T::width();
        let scaled = match (index as u64).checked_mul(w as u64) {
            Some(x) => x,
            None => {
                return None;
            },
        };
        let off = match ARRAY_DATA_OFFSET.checked_add(scaled) {
            Some(x) => x,
            None => {
                return None;
            },
        };
        let a = match self.addr.checked_add(off) {
            Some(x) => x,
            None => {
                return None;
            },
        };
        read_value(&reader, a)
    }

    /// A lazy, finite, non-restartable walk over the `size` elements.
    pub fn iter<R: MemReader>(self, reader: R) -> (r: ArrayIter<T, R>)
        ensures
            r.reader == reader,
            ({
                let start = self.addr + ARRAY_DATA_OFFSET;
                let stop = start + self.size * T::width_spec();
                if stop <= u64::MAX {
                    r.pos == start && r.end == stop
                } else {
                    r.pos == r.end
                }
            }),
    {
        let w = T::width();
        let span = match (self.size as u64).checked_mul(w as u64) {
            Some(x) => x,
            None => {
                return ArrayIter { pos: 0, end: 0, reader, _t: PhantomData };
            },
        };
        let start = match self.addr.checked_add(ARRAY_DATA_OFFSET) {
            Some(x) => x,
            None => {
                return ArrayIter { pos: 0, end: 0, reader, _t: PhantomData };
            },
        };
        let end = match start.checked_add(span) {
            Some(x) => x,
            None => {
                return ArrayIter { pos: 0, end: 0, reader, _t: PhantomData };
            },
        };
        ArrayIter { pos: start, end, reader, _t: PhantomData }
    }

    /// Collects the elements the iterator yields.
    pub fn to_vec<R: MemReader>(self, reader: R) -> (r: Vec<T>)
        ensures
            r@ == self.elems(reader),
    {
        let w = T::width();
        let mut it = self.iter(reader);
        let mut out: Vec<T> = Vec::new();
        if w == 0 {
            return out;
        }
        let ghost start = self.addr + ARRAY_DATA_OFFSET;
        let ghost stop = start + self.size * T::width_spec();
        if it.pos >= it.end {
            // The span overflows the address space only when `size > 0`, and
            // then no element is yielded; with `size == 0` the walk is empty.
            assert(self.elems(reader) =~= Seq::<T>::empty()) by {
                if stop <= u64::MAX && self.size > 0 {
                    assert(self.size * T::width_spec() > 0) by (nonlinear_arith)
                        requires
                            self.size > 0,
                            T::width_spec() > 0,
                    ;
                }
            }
            return out;
        }
        assert(self.size * T::width_spec() >= 0);
        assert(it.pos == start && it.end == stop && stop <= u64::MAX);
        assert(0 * T::width_spec() == 0) by (nonlinear_arith);
        let mut remaining: u32 = self.size;
        assert(out@ + iter_seq::<T, R>(reader, it.pos, remaining as nat) =~= self.elems(reader));
        while remaining > 0
            invariant
                T::width_spec() > 0,
                stop == start + self.size * T::width_spec() <= u64::MAX,
                it.end == stop,
                it.reader == reader,
                it.pos == start + (self.size - remaining) * T::width_spec(),
                remaining <= self.size,
                out@ + iter_seq::<T, R>(reader, it.pos, remaining as nat) == self.elems(reader),
            decreases remaining,
        {
            let ghost k = self.size - remaining;
            proof {
                assert(0 <= k * T::width_spec() && (k + 1) * T::width_spec() == k * T::width_spec()
                    + T::width_spec() <= self.size * T::width_spec()) by (nonlinear_arith)
                    requires
                        T::width_spec() > 0,
                        0 <= k < self.size,
                ;
            }
            assert(it.pos < it.end);
            let ghost prev = it.pos;
            match it.next() {
                Some(v) => {
                    proof {
                        assert(iter_seq::<T, R>(reader, prev, remaining as nat) == seq![v]
                            + iter_seq::<T, R>(reader, it.pos, (remaining - 1) as nat));
                        assert((out@ + seq![v]) + iter_seq::<T, R>(
                            reader,
                            it.pos,
                            (remaining - 1) as nat,
                        ) =~= out@ + (seq![v] + iter_seq::<T, R>(
                            reader,
                            it.pos,
                            (remaining - 1) as nat,
                        )));
                    }
                    out.push(v);
                },
                None => {
                    assert(iter_seq::<T, R>(reader, it.pos, remaining as nat)
                        =~= Seq::<T>::empty());
                    assert(out@ =~= self.elems(reader));
                    return out;
                },
            }
            remaining = remaining - 1;
        }
        assert(out@ =~= self.elems(reader));
        out
    }
}

/// Collects the walk of `count` elements from `start`: used by the views
/// whose element region is not an array header of its own.
pub(crate) fn read_prefix<T: Shaped, R: MemReader>(reader: R, start: u64, count: u32) -> (r: Vec<
    T,
>)
    requires
        T::width_spec() > 0,
        start + count * T::width_spec() <= u64::MAX,
    ensures
        r@ == iter_seq::<T, R>(reader, start, count as nat),
{
    let ghost w = T::width_spec();
    let mut pos: u64 = start;
    let mut out: Vec<T> = Vec::new();
    let mut remaining: u32 = count;
    assert(0 * w == 0) by (nonlinear_arith);
    while remaining > 0
        invariant
            T::width_spec() == w > 0,
            start + count * w <= u64::MAX,
            pos == start + (count - remaining) * w,
            remaining <= count,
            out@ + iter_seq::<T, R>(reader, pos, remaining as nat) == iter_seq::<T, R>(
                reader,
                start,
                count as nat,
            ),
        decreases remaining,
    {
        let ghost k = count - remaining;
        proof {
            assert(0 <= k * w && (k + 1) * w == k * w + w && (k + 1) * w <= count * w) by (
            nonlinear_arith)
                requires
                    w > 0,
                    0 <= k < count,
            ;
        }
        let ghost prev = pos;
        let v = match read_value::<T, R>(&reader, pos) {
            Some(v) => {
                let wexec = T::width();
                pos = pos + wexec as u64;
                v
            },
            None => {
                assert(iter_seq::<T, R>(reader, pos, remaining as nat) =~= Seq::<T>::empty());
                assert(out@ =~= iter_seq::<T, R>(reader, start, count as nat));
                return out;
            },
        };
        proof {
            assert(iter_seq::<T, R>(reader, prev, remaining as nat) == seq![v] + iter_seq::<T, R>(
                reader,
                pos,
                (remaining - 1) as nat,
            ));
            assert((out@ + seq![v]) + iter_seq::<T, R>(reader, pos, (remaining - 1) as nat)
                =~= out@ + (seq![v] + iter_seq::<T, R>(reader, pos, (remaining - 1) as nat)));
        }
        out.push(v);
        remaining = remaining - 1;
    }
    assert(out@ =~= iter_seq::<T, R>(reader, start, count as nat));
    out
}

/// An array resolves by reading its element count from the header; the
/// address of a failed header read resolves to absence.
impl<T, R: MemReader> Resolve<R> for Array<T> {
    open spec fn resolved_spec(reader: R, addr: u64) -> Option<Array<T>> {
        if addr + ARRAY_SIZE_OFFSET <= u64::MAX {
            match value_at::<u32, R>(reader, (addr + ARRAY_SIZE_OFFSET) as u64) {
                Option::Some(size) => Some(Array { addr, size, _t: PhantomData }),
                Option::None => None,
            }
        } else {
            None
        }
    }

    fn resolve(reader: R, addr: u64) -> (r: Option<Array<T>>) {
        let a = match addr.checked_add(ARRAY_SIZE_OFFSET) {
            Some(x) => x,
            None => {
                return None;
            },
        };
        match read_value::<u32, R>(&reader, a) {
            Some(size) => Some(Array { addr, size, _t: PhantomData }),
            None => None,
        }
    }
}

/// The lazy element walk of an [`Array`]: a cursor between `pos` and `end`,
/// owning the reader it consults. Exhaustion and a failed read both end the
/// walk with absence; a failed read does not advance the cursor.
pub struct ArrayIter<T, R> {
    pub pos: u64,
    pub end: u64,
    pub reader: R,
    pub _t: PhantomData<T>,
}

impl<T: Shaped, R: MemReader> ArrayIter<T, R> {
    /// The next element, or absence when the walk is exhausted or the next
    /// element cannot be read.
    pub fn next(&mut self) -> (r: Option<T>)
        ensures
            old(self).pos >= old(self).end ==> r is None && *final (self) == *old(self),
            old(self).pos < old(self).end ==> match value_at::<T, R>(
                old(self).reader,
                old(self).pos,
            ) {
                Option::Some(v) => r == Some(v) && final (self).pos == old(self).pos
                    + T::width_spec() && final (self).end == old(self).end && final (self).reader
                    == old(self).reader,
                Option::None => r is None && *final (self) == *old(self),
            },
    {
        if self.pos >= self.end {
            return None;
        }
        let w = T::width();
        match read_value::<T, R>(&self.reader, self.pos) {
            Some(v) => {
                self.pos = self.pos + w as u64;
                Some(v)
            },
            None => None,
        }
    }
}

/// Walking a fully readable span yields every element: the walk of `count`
/// elements from `pos` has exactly `count` items, the `i`-th decoded from the
/// bytes at `pos + i * width`.
pub proof fn lemma_iter_seq_readable<T: Shaped, R: MemReader>(reader: R, pos: u64, count: nat)
    requires
        pos + count * T::width_spec() <= u64::MAX,
        forall|i: int|
            0 <= i < count ==> can_read(
                reader,
                #[trigger] stride_addr(pos, i, T::width_spec()),
                T::width_spec(),
            ),
    ensures
        iter_seq::<T, R>(reader, pos, count).len() == count,
        forall|i: int|
            0 <= i < count ==> iter_seq::<T, R>(reader, pos, count)[i] == T::decode_spec(
                bytes_at(reader, #[trigger] stride_addr(pos, i, T::width_spec()), T::width_spec()),
            ),
    decreases count,
{
    let w = T::width_spec();
    if count > 0 {
        assert(0 * w == 0 && count * w >= w && (count - 1) * w == count * w - w) by (
        nonlinear_arith)
            requires
                count >= 1,
        ;
        assert(stride_addr(pos, 0, w) == pos);
        assert(can_read(reader, pos, w));
        let next = (pos + w) as u64;
        assert forall|i: int| 0 <= i < count - 1 implies can_read(
            reader,
            #[trigger] stride_addr(next, i, w),
            w,
        ) by {
            assert((i + 1) * w == i * w + w) by (nonlinear_arith);
            assert(0 <= i + 1 < count);
            assert(can_read(reader, stride_addr(pos, i + 1, w), w));
            assert(stride_addr(next, i, w) == stride_addr(pos, i + 1, w));
        }
        lemma_iter_seq_readable::<T, R>(reader, next, (count - 1) as nat);
        let s = iter_seq::<T, R>(reader, pos, count);
        let rest = iter_seq::<T, R>(reader, next, (count - 1) as nat);
        assert(s == seq![T::decode_spec(bytes_at(reader, pos, w))] + rest);
        assert forall|i: int|
            0 <= i < count implies s[i] == T::decode_spec(
            bytes_at(reader, #[trigger] stride_addr(pos, i, w), w),
        ) by {
            if i > 0 {
                assert(s[i] == rest[i - 1]);
                assert(rest[i - 1] == T::decode_spec(
                    bytes_at(reader, stride_addr(next, i - 1, w), w),
                ));
                assert((i - 1) * w + w == i * w) by (nonlinear_arith);
                assert(stride_addr(next, i - 1, w) == stride_addr(pos, i, w));
            } else {
                assert(0 * w == 0) by (nonlinear_arith);
                assert(stride_addr(pos, 0, w) == pos);
            }
        }
    }
}

/// Law: over a fully readable element span, iteration yields exactly `size`
/// items in address order, and the direct read of index `i` succeeds and is
/// the `i`-th item of iteration.
pub proof fn lemma_array_get_matches_iter<T: Shaped, R: MemReader>(arr: Array<T>, reader: R)
    requires
        T::width_spec() > 0,
        arr.all_elems_readable(reader),
    ensures
        arr.elems(reader).len() == arr.size as int,
        forall|i: int| 0 <= i < arr.size ==> arr.elem_at(reader, i) == Some(arr.elems(reader)[i]),
{
    let w = T::width_spec();
    let start = (arr.addr + ARRAY_DATA_OFFSET) as u64;
    assert forall|i: int| 0 <= i < arr.size implies can_read(
        reader,
        #[trigger] stride_addr(start, i, w),
        w,
    ) by {
        assert(0 <= i * w && (i + 1) * w <= (arr.size as int) * w) by (nonlinear_arith)
            requires
                0 <= i < arr.size as int,
                w > 0,
        ;
        assert(can_read(reader, (arr.elem_addr(i)) as u64, w));
        assert(stride_addr(start, i, w) == (arr.elem_addr(i)) as u64);
    }
    lemma_iter_seq_readable::<T, R>(reader, start, arr.size as nat);
    assert(arr.elems(reader) == iter_seq::<T, R>(reader, start, arr.size as nat));
    assert forall|i: int| 0 <= i < arr.size implies arr.elem_at(reader, i) == Some(
        arr.elems(reader)[i],
    ) by {
        assert(0 <= i * w && (i + 1) * w == i * w + w && (i + 1) * w <= (arr.size as int) * w) by (
        nonlinear_arith)
            requires
                0 <= i < arr.size as int,
                w > 0,
        ;
        assert(arr.elem_addr(i) <= u64::MAX);
        assert(can_read(reader, (arr.elem_addr(i)) as u64, w));
        assert(stride_addr(start, i, w) == (arr.elem_addr(i)) as u64);
        assert(arr.elems(reader)[i] == T::decode_spec(
            bytes_at(reader, stride_addr(start, i, w), w),
        ));
        assert(arr.elem_at(reader, i) == value_at::<T, R>(reader, stride_addr(start, i, w)));
    }
}

} // verus!
