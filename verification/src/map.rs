use vstd::prelude::*;

use crate::reader::{can_read, MemReader};
use crate::shaped::{le32, read_value, value_at, Shaped};
use crate::pointer::Resolve;
use crate::array::{iter_seq, stride_addr, Array, ARRAY_DATA_OFFSET};

verus! {

/// Header offset of a map's bucket-array pointer.
pub const MAP_ENTRIES_OFFSET: u64 = 0x18;

/// Header offset of a map's logical size.
pub const MAP_SIZE_OFFSET: u64 = 0x20;

/// A raw hash-bucket record: a hash code, an intrusive bucket-chain link,
/// a key and a value. A record with both `hash` and `next` zero is a
/// tombstone: a removed or never-occupied slot, skipped during iteration.
#[derive(Clone, Copy, Debug)]
pub struct Entry<K, V> {
    pub hash: u32,
    pub next: u32,
    pub key: K,
    pub value: V,
}

impl<K, V> Entry<K, V> {
    /// A removed or never-occupied slot.
    pub open spec fn is_tombstone(self) -> bool {
        self.hash == 0 && self.next == 0
    }
}

/// `len` bytes of `b` starting at `from`, zero-padded where `b` ends.
pub open spec fn pad_bytes(b: Seq<u8>, from: int, len: nat) -> Seq<u8> {
    Seq::new(len, |i: int| if 0 <= from + i < b.len() {
        b[from + i]
    } else {
        0
    })
}

/// A copy of `len` bytes of `b` starting at `from`, zero-padded at the end.
fn subvec_padded(b: &Vec<u8>, from: usize, len: usize) -> (r: Vec<u8>)
    ensures
        r@ == pad_bytes(b@, from as int, len as nat),
{
    let n = b.len();
    let mut out: Vec<u8> = Vec::new();
    let mut i: usize = 0;
    while i < len
        invariant
            i <= len,
            n == b@.len(),
            out@.len() == i,
            forall|j: int|
                0 <= j < i ==> out@[j] == (if 0 <= from + j < b@.len() {
                    b@[from + j]
                } else {
                    0u8
                }),
        decreases len - i,
    {
        let byte = if let Some(j) = from.checked_add(i) {
            if j < n {
                b[j]
            } else {
                0
            }
        } else {
            0
        };
        out.push(byte);
        i += 1;
    }
    assert(out@ =~= pad_bytes(b@, from as int, len as nat));
    out
}

/// An entry record is a fixed-shape value: hash, chain link, key bytes, then
/// value bytes. The value's byte width is accounted for even when the value
/// is the zero-width placeholder.
impl<K: Shaped, V: Shaped> Shaped for Entry<K, V> {
    open spec fn width_spec() -> nat {
        8usize.wrapping_add(K::width_spec() as usize).wrapping_add(V::width_spec() as usize) as nat
    }

    open spec fn decode_spec(b: Seq<u8>) -> Entry<K, V> {
        Entry {
            hash: le32(pad_bytes(b, 0, 4)),
            next: le32(pad_bytes(b, 4, 4)),
            key: K::decode_spec(pad_bytes(b, 8, K::width_spec())),
            value: V::decode_spec(pad_bytes(b, 8 + K::width_spec() as int, V::width_spec())),
        }
    }

    fn width() -> (n: usize) {
        let kw = K::width();
        let vw = V::width();
        proof {
            assert(kw == K::width_spec() as usize);
            assert(vw == V::width_spec() as usize);
        }
        8usize.wrapping_add(kw).wrapping_add(vw)
    }

    fn decode(b: &Vec<u8>) -> (r: Entry<K, V>) {
        let hash_bytes = subvec_padded(b, 0, 4);
        let hash = u32::decode(&hash_bytes);
        let next_bytes = subvec_padded(b, 4, 4);
        let next = u32::decode(&next_bytes);
        let kw = K::width();
        let key_bytes = subvec_padded(b, 8, kw);
        let key = K::decode(&key_bytes);
        let vw = V::width();
        let vfrom = match 8usize.checked_add(kw) {
            Some(x) => x,
            None => usize::MAX,
        };
        let value_bytes = subvec_padded(b, vfrom, vw);
        proof {
            assert(value_bytes@ =~= pad_bytes(b@, 8 + K::width_spec() as int, V::width_spec()));
        }
        let value = V::decode(&value_bytes);
        Entry { hash, next, key, value }
    }
}

/// The pairs iteration yields, walking up to `count` entry records from
/// `pos`: tombstones are dropped, at most `budget` surviving records are
/// projected to their key and value, and an unreadable record ends the walk.
pub open spec fn live_seq<K: Shaped, V: Shaped, R: MemReader>(
    reader: R,
    pos: u64,
    count: nat,
    budget: nat,
) -> Seq<(K, V)>
    decreases count,
{
    if count == 0 || budget == 0 {
        Seq::empty()
    } else {
        match value_at::<Entry<K, V>, R>(reader, pos) {
            Option::None => Seq::empty(),
            Option::Some(e) => {
                let rest_pos = (pos + Entry::<K, V>::width_spec()) as u64;
                if e.is_tombstone() {
                    live_seq::<K, V, R>(reader, rest_pos, (count - 1) as nat, budget)
                } else {
                    seq![(e.key, e.value)] + live_seq::<K, V, R>(
                        reader,
                        rest_pos,
                        (count - 1) as nat,
                        (budget - 1) as nat,
                    )
                }
            },
        }
    }
}

/// The live projection of a decoded bucket array: tombstones dropped, every
/// other record projected to its key and value, in bucket order.
pub open spec fn live_entries<K, V>(s: Seq<Entry<K, V>>) -> Seq<(K, V)>
    decreases s.len(),
{
    if s.len() == 0 {
        Seq::empty()
    } else if s[0].is_tombstone() {
        live_entries(s.skip(1))
    } else {
        seq![(s[0].key, s[0].value)] + live_entries(s.skip(1))
    }
}

/// The first `n` items of `s`, or all of `s` where it is shorter.
pub open spec fn take_at_most<A>(s: Seq<A>, n: nat) -> Seq<A> {
    if n >= s.len() {
        s
    } else {
        s.subrange(0, n as int)
    }
}

/// A hash-based map of the target runtime: its header address, the bucket
/// array (over-allocated storage holding live records and tombstones) and
/// the logical `size`: the count of live records, not the bucket-array
/// length.
#[derive(Debug)]
pub struct CSMap<K, V> {
    pub addr: u64,
    pub entries: Array<Entry<K, V>>,
    pub size: u32,
}

impl<K, V> Clone for CSMap<K, V> {
    fn clone(&self) -> (r: Self)
        ensures
            r == *self,
    {
        CSMap { addr: self.addr, entries: self.entries, size: self.size }
    }
}

impl<K, V> Copy for CSMap<K, V> {

}

impl<K, V> CSMap<K, V> {
    /// The live-record count the header held at resolution time.
    pub fn size(&self) -> (r: u32)
        ensures
            r == self.size,
    {
        self.size
    }
}

impl<K: Shaped, V: Shaped> CSMap<K, V> {
    /// The pairs iteration yields.
    pub open spec fn pairs<R: MemReader>(self, reader: R) -> Seq<(K, V)> {
        let w = Entry::<K, V>::width_spec();
        let start = self.entries.addr + ARRAY_DATA_OFFSET;
        let stop = start + self.entries.size * w;
        if w == 0 || stop > u64::MAX {
            Seq::empty()
        } else {
            live_seq::<K, V, R>(reader, start as u64, self.entries.size as nat, self.size as nat)
        }
    }

    /// Walks the bucket array, drops tombstones and yields at most `size`
    /// surviving pairs in bucket order. An unreadable record ends the walk.
    pub fn iter<R: MemReader>(self, reader: R) -> (r: Vec<(K, V)>)
        ensures
            r@ == self.pairs(reader),
    {
        let w = Entry::<K, V>::width();
        let ghost ws = Entry::<K, V>::width_spec();
        let mut out: Vec<(K, V)> = Vec::new();
        if w == 0 {
            return out;
        }
        let mut it = self.entries.iter(reader);
        let ghost start = self.entries.addr + ARRAY_DATA_OFFSET;
        let ghost stop = start + self.entries.size * ws;
        if it.pos >= it.end {
            assert(self.pairs(reader) =~= Seq::<(K, V)>::empty()) by {
                if stop <= u64::MAX && self.entries.size > 0 && self.size > 0 {
                    assert(self.entries.size * ws > 0) by (nonlinear_arith)
                        requires
                            self.entries.size > 0,
                            ws > 0,
                    ;
                }
            }
            return out;
        }
        assert(it.pos == start && it.end == stop && stop <= u64::MAX);
        assert(0 * ws == 0) by (nonlinear_arith);
        let mut remaining: u32 = self.entries.size;
        let mut budget: u32 = self.size;
        assert(out@ + live_seq::<K, V, R>(reader, it.pos, remaining as nat, budget as nat)
            =~= self.pairs(reader));
        while remaining > 0 && budget > 0
            invariant
                Entry::<K, V>::width_spec() == ws > 0,
                stop == start + self.entries.size * ws <= u64::MAX,
                it.end == stop,
                it.reader == reader,
                it.pos == start + (self.entries.size - remaining) * ws,
                remaining <= self.entries.size,
                out@ + live_seq::<K, V, R>(reader, it.pos, remaining as nat, budget as nat)
                    == self.pairs(reader),
            decreases remaining,
        {
            let ghost k = self.entries.size - remaining;
            proof {
                assert(0 <= k * ws && (k + 1) * ws == k * ws + ws && (k + 1) * ws
                    <= self.entries.size * ws) by (nonlinear_arith)
                    requires
                        ws > 0,
                        0 <= k < self.entries.size,
                ;
            }
            assert(it.pos < it.end);
            let ghost prev = it.pos;
            match it.next() {
                Some(e) => {
                    if e.hash == 0 && e.next == 0 {
                        proof {
                            assert(live_seq::<K, V, R>(reader, prev, remaining as nat,
                                budget as nat) == live_seq::<K, V, R>(
                                reader,
                                it.pos,
                                (remaining - 1) as nat,
                                budget as nat,
                            ));
                        }
                    } else {
                        let ghost p = (e.key, e.value);
                        proof {
                            assert(live_seq::<K, V, R>(reader, prev, remaining as nat,
                                budget as nat) == seq![p] + live_seq::<K, V, R>(
                                reader,
                                it.pos,
                                (remaining - 1) as nat,
                                (budget - 1) as nat,
                            ));
                            assert((out@ + seq![p]) + live_seq::<K, V, R>(
                                reader,
                                it.pos,
                                (remaining - 1) as nat,
                                (budget - 1) as nat,
                            ) =~= out@ + (seq![p] + live_seq::<K, V, R>(
                                reader,
                                it.pos,
                                (remaining - 1) as nat,
                                (budget - 1) as nat,
                            )));
                        }
                        out.push((e.key, e.value));
                        budget = budget - 1;
                    }
                },
                None => {
                    assert(live_seq::<K, V, R>(reader, it.pos, remaining as nat, budget as nat)
                        =~= Seq::<(K, V)>::empty());
                    assert(out@ =~= self.pairs(reader));
                    return out;
                },
            }
            remaining = remaining - 1;
        }
        assert(live_seq::<K, V, R>(reader, it.pos, remaining as nat, budget as nat) =~= Seq::<(
            K,
            V,
        )>::empty());
        assert(out@ =~= self.pairs(reader));
        out
    }
}

/// A map resolves by reading its logical size and its bucket-array pointer
/// from the header, then resolving the bucket array; either failing makes
/// the whole map absent.
impl<K: Shaped, V: Shaped, R: MemReader> Resolve<R> for CSMap<K, V> {
    open spec fn resolved_spec(reader: R, addr: u64) -> Option<CSMap<K, V>> {
        if addr + MAP_SIZE_OFFSET <= u64::MAX && addr + MAP_ENTRIES_OFFSET <= u64::MAX {
            match value_at::<u32, R>(reader, (addr + MAP_SIZE_OFFSET) as u64) {
                Option::None => None,
                Option::Some(size) => match value_at::<u64, R>(
                    reader,
                    (addr + MAP_ENTRIES_OFFSET) as u64,
                ) {
                    Option::None => None,
                    Option::Some(entries_addr) => match Array::<Entry<K, V>>::resolved_spec(
                        reader,
                        entries_addr,
                    ) {
                        Option::None => None,
                        Option::Some(entries) => Some(CSMap { addr, entries, size }),
                    },
                },
            }
        } else {
            None
        }
    }

    fn resolve(reader: R, addr: u64) -> (r: Option<CSMap<K, V>>) {
        let size_addr = match addr.checked_add(MAP_SIZE_OFFSET) {
            Some(x) => x,
            None => {
                return None;
            },
        };
        let entries_ptr_addr = match addr.checked_add(MAP_ENTRIES_OFFSET) {
            Some(x) => x,
            None => {
                return None;
            },
        };
        let size = match read_value::<u32, R>(&reader, size_addr) {
            Some(x) => x,
            None => {
                return None;
            },
        };
        let entries_addr = match read_value::<u64, R>(&reader, entries_ptr_addr) {
            Some(x) => x,
            None => {
                return None;
            },
        };
        match Array::<Entry<K, V>>::resolve(reader, entries_addr) {
            Some(entries) => Some(CSMap { addr, entries, size }),
            None => None,
        }
    }
}

/// A hash-based set of the target runtime: a map whose value type is the
/// zero-width placeholder; identical layout and iteration, projected to
/// keys.
#[derive(Debug)]
pub struct CSSet<T> {
    pub map: CSMap<T, ()>,
}

impl<T> Clone for CSSet<T> {
    fn clone(&self) -> (r: Self)
        ensures
            r == *self,
    {
        CSSet { map: self.map }
    }
}

impl<T> Copy for CSSet<T> {

}

impl<T> CSSet<T> {
    /// The live-record count the header held at resolution time.
    pub fn size(&self) -> (r: u32)
        ensures
            r == self.map.size,
    {
        self.map.size
    }
}

/// The keys of a pair sequence, in order.
pub open spec fn keys_of<T>(s: Seq<(T, ())>) -> Seq<T> {
    Seq::new(s.len(), |i: int| s[i].0)
}

impl<T: Shaped> CSSet<T> {
    /// The members iteration yields.
    pub open spec fn members<R: MemReader>(self, reader: R) -> Seq<T> {
        keys_of(self.map.pairs(reader))
    }

    /// The map's walk projected to keys only.
    pub fn iter<R: MemReader>(self, reader: R) -> (r: Vec<T>)
        ensures
            r@ == self.members(reader),
    {
        let mut pairs = self.map.iter(reader);
        let ghost orig = pairs@;
        let mut out: Vec<T> = Vec::new();
        while pairs.len() > 0
            invariant
                out@.len() + pairs@.len() == orig.len(),
                pairs@ == orig.skip(out@.len() as int),
                forall|j: int| 0 <= j < out@.len() ==> out@[j] == orig[j].0,
            decreases pairs@.len(),
        {
            let pair = pairs.remove(0);
            assert(orig.skip(out@.len() as int).skip(1) =~= orig.skip(out@.len() as int + 1));
            assert(pair == orig[out@.len() as int]);
            out.push(pair.0);
        }
        assert(out@ =~= keys_of(orig));
        out
    }
}

/// A set resolves exactly as the map it wraps.
impl<T: Shaped, R: MemReader> Resolve<R> for CSSet<T> {
    open spec fn resolved_spec(reader: R, addr: u64) -> Option<CSSet<T>> {
        match CSMap::<T, ()>::resolved_spec(reader, addr) {
            Option::Some(map) => Some(CSSet { map }),
            Option::None => None,
        }
    }

    fn resolve(reader: R, addr: u64) -> (r: Option<CSSet<T>>) {
        match CSMap::<T, ()>::resolve(reader, addr) {
            Some(map) => Some(CSSet { map }),
            None => None,
        }
    }
}

/// The walk with a budget equals the unbudgeted live projection cut to the
/// budget: dropped tombstones never count against it.
proof fn lemma_live_seq_takes<K: Shaped, V: Shaped, R: MemReader>(
    reader: R,
    pos: u64,
    count: nat,
    budget: nat,
)
    requires
        Entry::<K, V>::width_spec() > 0,
        pos + count * Entry::<K, V>::width_spec() <= u64::MAX,
        forall|i: int|
            0 <= i < count ==> can_read(
                reader,
                #[trigger] stride_addr(pos, i, Entry::<K, V>::width_spec()),
                Entry::<K, V>::width_spec(),
            ),
    ensures
        live_seq::<K, V, R>(reader, pos, count, budget) == take_at_most(
            live_entries(iter_seq::<Entry<K, V>, R>(reader, pos, count)),
            budget,
        ),
    decreases count,
{
    let w = Entry::<K, V>::width_spec();
    let s = iter_seq::<Entry<K, V>, R>(reader, pos, count);
    if count == 0 {
        assert(take_at_most(live_entries(s), budget) =~= Seq::<(K, V)>::empty());
    } else {
        assert(count * w >= w && (count - 1) * w == count * w - w) by (nonlinear_arith)
            requires
                count >= 1,
        ;
        assert(stride_addr(pos, 0, w) == pos);
        assert(can_read(reader, pos, w));
        let e = value_at::<Entry<K, V>, R>(reader, pos)->0;
        let next = (pos + w) as u64;
        let rest = iter_seq::<Entry<K, V>, R>(reader, next, (count - 1) as nat);
        assert(s == seq![e] + rest);
        assert(s.skip(1) =~= rest);
        assert forall|i: int| 0 <= i < count - 1 implies can_read(
            reader,
            #[trigger] stride_addr(next, i, w),
            w,
        ) by {
            assert((i + 1) * w == i * w + w) by (nonlinear_arith);
            assert(0 <= i + 1 < count);
            assert(can_read(reader, stride_addr(pos, i + 1, w), w));
            assert(stride_addr(next, i, w) == stride_addr(pos, i + 1, w));
        }
        if budget == 0 {
            assert(take_at_most(live_entries(s), 0) =~= Seq::<(K, V)>::empty());
        } else if e.is_tombstone() {
            lemma_live_seq_takes::<K, V, R>(reader, next, (count - 1) as nat, budget);
            assert(live_entries(s) == live_entries(rest));
        } else {
            lemma_live_seq_takes::<K, V, R>(reader, next, (count - 1) as nat, (budget - 1) as nat);
            let p = (e.key, e.value);
            let lr = live_entries(rest);
            assert(live_entries(s) == seq![p] + lr);
            if budget - 1 >= lr.len() {
                assert(take_at_most(seq![p] + lr, budget) =~= seq![p] + take_at_most(
                    lr,
                    (budget - 1) as nat,
                ));
            } else {
                assert(take_at_most(seq![p] + lr, budget) =~= seq![p] + take_at_most(
                    lr,
                    (budget - 1) as nat,
                ));
            }
            assert(live_seq::<K, V, R>(reader, pos, count, budget) == seq![p] + live_seq::<
                K,
                V,
                R,
            >(reader, next, (count - 1) as nat, (budget - 1) as nat));
        }
    }
}

/// Law: over a fully readable bucket array, iteration yields exactly the
/// live records, projected to key and value in bucket order, and never more
/// than the header's `size`, however many further live-looking records the
/// over-allocated bucket array holds.
pub proof fn lemma_map_iter_live<K: Shaped, V: Shaped, R: MemReader>(m: CSMap<K, V>, reader: R)
    requires
        Entry::<K, V>::width_spec() > 0,
        m.entries.all_elems_readable(reader),
    ensures
        m.pairs(reader) == take_at_most(
            live_entries(m.entries.elems(reader)),
            m.size as nat,
        ),
        m.pairs(reader).len() <= m.size,
{
    let w = Entry::<K, V>::width_spec();
    let start = (m.entries.addr + ARRAY_DATA_OFFSET) as u64;
    assert forall|i: int| 0 <= i < m.entries.size implies can_read(
        reader,
        #[trigger] stride_addr(start, i, w),
        w,
    ) by {
        assert(0 <= i * w && (i + 1) * w == i * w + w && (i + 1) * w <= (m.entries.size as int)
            * w) by (nonlinear_arith)
            requires
                0 <= i < m.entries.size as int,
                w > 0,
        ;
        assert(can_read(reader, (m.entries.elem_addr(i)) as u64, w));
        assert(stride_addr(start, i, w) == (m.entries.elem_addr(i)) as u64);
    }
    lemma_live_seq_takes::<K, V, R>(reader, start, m.entries.size as nat, m.size as nat);
    assert(m.entries.elems(reader) == iter_seq::<Entry<K, V>, R>(
        reader,
        start,
        m.entries.size as nat,
    ));
    let live = live_entries(m.entries.elems(reader));
    assert(take_at_most(live, m.size as nat).len() <= m.size as nat);
}

} // verus!
