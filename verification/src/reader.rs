use vstd::prelude::*;

verus! {

/// The memory-read capability: read raw bytes at an absolute address of the
/// target process, fallibly. Absence (an unmapped address, a protection
/// fault, a truncated read) is the only failure signal; a read never panics,
/// whatever garbage address it is handed.
///
/// An implementor describes a fixed snapshot of readable memory through the
/// two spec functions; `read_bytes` must agree with them.
pub trait MemReader: Sized {
    /// Whether `n` bytes starting at `addr` can be read.
    spec fn readable(&self, addr: u64, n: usize) -> bool;

    /// The byte visible at `addr`, where readable.
    spec fn byte_at(&self, addr: u64) -> u8;

    /// Reads exactly `n` bytes starting at `addr`, or reports absence.
    fn read_bytes(&self, addr: u64, n: usize) -> (r: Option<Vec<u8>>)
        ensures
            r is Some <==> (self.readable(addr, n) && addr + n <= u64::MAX),
            r is Some ==> r->0@ == Seq::new(n as nat, |i: int| self.byte_at((addr + i) as u64)),
    ;
}

/// The `n` bytes a reader shows starting at `addr`.
pub open spec fn bytes_at<R: MemReader>(reader: R, addr: u64, n: nat) -> Seq<u8> {
    Seq::new(n, |i: int| reader.byte_at((addr + i) as u64))
}

/// Whether a read of `n` bytes at `addr` succeeds: the span is readable and
/// stays within the address space.
pub open spec fn can_read<R: MemReader>(reader: R, addr: u64, n: nat) -> bool {
    &&& n <= usize::MAX
    &&& reader.readable(addr, n as usize)
    &&& addr + n <= u64::MAX
}

/// What `read_bytes` returns, as a sequence.
pub open spec fn read_span<R: MemReader>(reader: R, addr: u64, n: nat) -> Option<Seq<u8>> {
    if can_read(reader, addr, n) {
        Some(bytes_at(reader, addr, n))
    } else {
        None
    }
}

/// A reader also reads through a shared reference.
impl<'a, R: MemReader> MemReader for &'a R {
    open spec fn readable(&self, addr: u64, n: usize) -> bool {
        (**self).readable(addr, n)
    }

    open spec fn byte_at(&self, addr: u64) -> u8 {
        (**self).byte_at(addr)
    }

    fn read_bytes(&self, addr: u64, n: usize) -> (r: Option<Vec<u8>>) {
        (**self).read_bytes(addr, n)
    }
}

/// A reader over an owned snapshot of one contiguous span of the target's
/// address space, starting at `base`. Reads inside the snapshot succeed and
/// return its bytes; everything outside is absent.
pub struct SnapshotReader {
    pub base: u64,
    pub bytes: Vec<u8>,
}

impl MemReader for SnapshotReader {
    open spec fn readable(&self, addr: u64, n: usize) -> bool {
        &&& self.base <= addr
        &&& addr - self.base + n <= self.bytes@.len()
    }

    open spec fn byte_at(&self, addr: u64) -> u8 {
        if self.base <= addr && addr - self.base < self.bytes@.len() {
            self.bytes@[addr - self.base]
        } else {
            0
        }
    }

    fn read_bytes(&self, addr: u64, n: usize) -> (r: Option<Vec<u8>>) {
        if addr < self.base {
            return None;
        }
        let off = addr - self.base;
        if off > self.bytes.len() as u64 {
            return None;
        }
        let off = off as usize;
        if n > self.bytes.len() - off {
            return None;
        }
        if n as u64 > u64::MAX - addr {
            return None;
        }
        let len = self.bytes.len();
        let mut out: Vec<u8> = Vec::new();
        let mut i: usize = 0;
        while i < n
            invariant
                i <= n,
                addr + n <= u64::MAX,
                self.base <= addr,
                off == addr - self.base,
                len == self.bytes@.len(),
                off + n <= len,
                out@.len() == i,
                forall|j: int| 0 <= j < i ==> out@[j] == self.byte_at((addr + j) as u64),
            decreases n - i,
        {
            out.push(self.bytes[off + i]);
            i += 1;
        }
        assert(out@ =~= Seq::new(n as nat, |i: int| self.byte_at((addr + i) as u64)));
        Some(out)
    }
}

} // verus!
