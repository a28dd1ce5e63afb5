use std::cell::Cell;

use csharp_mem::{
    Array, CSMap, CSSet, CSString, List, MemReader, Pointer, Resolve, Shaped, SnapshotReader,
};

fn put_u16(b: &mut Vec<u8>, off: usize, v: u16) {
    b[off..off + 2].copy_from_slice(&v.to_le_bytes());
}

fn put_u32(b: &mut Vec<u8>, off: usize, v: u32) {
    b[off..off + 4].copy_from_slice(&v.to_le_bytes());
}

fn put_u64(b: &mut Vec<u8>, off: usize, v: u64) {
    b[off..off + 8].copy_from_slice(&v.to_le_bytes());
}

/// A reader that counts its invocations and never finds anything.
struct CountingReader {
    count: Cell<u32>,
}

impl MemReader for CountingReader {
    fn readable(&self, _addr: u64, _n: usize) -> bool {
        unreachable!()
    }

    fn byte_at(&self, _addr: u64) -> u8 {
        unreachable!()
    }

    fn read_bytes(&self, _addr: u64, _n: usize) -> Option<Vec<u8>> {
        self.count.set(self.count.get() + 1);
        None
    }
}

#[test]
fn null_pointer_never_invokes_the_reader() {
    let reader = CountingReader { count: Cell::new(0) };
    let p: Pointer<u32> = Pointer::new(0);
    assert_eq!(p.read(&reader), None);
    let q: Pointer<Array<u32>> = Pointer::new(0);
    assert!(q.resolve(&reader).is_none());
    assert_eq!(reader.count.get(), 0);
}

#[test]
fn pointer_read_decodes_the_bytes_at_its_address() {
    let mut bytes = vec![0u8; 16];
    put_u32(&mut bytes, 0, 0x12345678);
    put_u64(&mut bytes, 8, 0xABCD);
    let reader = SnapshotReader { base: 0x1000, bytes };
    let p: Pointer<u32> = Pointer::new(0x1000);
    assert_eq!(p.read(&reader), Some(0x12345678));
    let q: Pointer<u64> = Pointer::new(0x1008);
    assert_eq!(q.read(&reader), Some(0xABCD));
    let outside: Pointer<u32> = Pointer::new(0x2000);
    assert_eq!(outside.read(&reader), None);
}

#[test]
fn pointer_deref_reads_a_raw_quadword() {
    let mut bytes = vec![0u8; 8];
    put_u64(&mut bytes, 0, 0xDEAD_BEEF);
    let reader = SnapshotReader { base: 0x40, bytes };
    let p: Pointer<CSString> = Pointer::new(0x40);
    assert_eq!(p.deref(&reader), Some(0xDEAD_BEEF));
}

/// An image holding an array header at `addr` with the given u32 elements
/// and the given header count.
fn array_image(base: u64, count: u32, elems: &[u32]) -> SnapshotReader {
    let mut bytes = vec![0u8; 0x20 + elems.len() * 4];
    put_u32(&mut bytes, 0x18, count);
    for (i, v) in elems.iter().enumerate() {
        put_u32(&mut bytes, 0x20 + i * 4, *v);
    }
    SnapshotReader { base, bytes }
}

#[test]
fn array_iter_yields_each_element_in_address_order() {
    let reader = array_image(0x100, 3, &[10, 20, 30]);
    let arr = Array::<u32>::resolve(&reader, 0x100).expect("array header");
    assert_eq!(arr.size(), 3);
    let mut it = arr.iter(&reader);
    assert_eq!(it.next(), Some(10));
    assert_eq!(it.next(), Some(20));
    assert_eq!(it.next(), Some(30));
    assert_eq!(it.next(), None);
    assert_eq!(arr.to_vec(&reader), vec![10, 20, 30]);
}

#[test]
fn array_get_matches_iteration() {
    let reader = array_image(0x100, 4, &[7, 8, 9, 11]);
    let arr = Array::<u32>::resolve(&reader, 0x100).expect("array header");
    let all = arr.to_vec(&reader);
    for (i, v) in all.iter().enumerate() {
        assert_eq!(arr.get(&reader, i), Some(*v));
    }
    // Out of the mapped span: absent, not a panic.
    assert_eq!(arr.get(&reader, 100), None);
}

#[test]
fn array_resolution_is_absent_outside_the_snapshot() {
    let reader = array_image(0x100, 1, &[1]);
    assert!(Array::<u32>::resolve(&reader, 0x9000).is_none());
}

#[test]
fn list_iter_hides_the_overallocated_tail() {
    // Backing array of capacity 5 at 0x200, logical size 2.
    let mut bytes = vec![0u8; 0x200];
    put_u32(&mut bytes, 0x118, 5);
    for (i, v) in [41u32, 42, 43, 44, 45].iter().enumerate() {
        put_u32(&mut bytes, 0x120 + i * 4, *v);
    }
    // List header at 0x40: backing pointer at +0x10, size at +0x18.
    put_u64(&mut bytes, 0x50, 0x200);
    put_u32(&mut bytes, 0x58, 2);
    let reader = SnapshotReader { base: 0x100, bytes };
    let list = List::<u32>::resolve(&reader, 0x140).expect("list header");
    assert_eq!(list.size(), 2);
    assert_eq!(list.to_vec(&reader), vec![41, 42]);
    let mut it = list.iter(&reader);
    assert_eq!(it.next(), Some(41));
    assert_eq!(it.next(), Some(42));
    assert_eq!(it.next(), None);
    // get clamps to the logical size.
    assert_eq!(list.get(&reader, 1), Some(42));
    assert_eq!(list.get(&reader, 2), None);
    assert_eq!(list.get(&reader, 4), None);
}

/// Writes an `Entry<u32, u32>` record: hash, next, key, value.
fn put_entry(b: &mut Vec<u8>, off: usize, hash: u32, next: u32, key: u32, value: u32) {
    put_u32(b, off, hash);
    put_u32(b, off + 4, next);
    put_u32(b, off + 8, key);
    put_u32(b, off + 12, value);
}

#[test]
fn map_iter_skips_tombstones_and_stops_at_the_logical_size() {
    let mut bytes = vec![0u8; 0x300];
    // Bucket array at 0x1200 (offset 0x200): capacity 4, entry width 16.
    put_u32(&mut bytes, 0x218, 4);
    put_entry(&mut bytes, 0x220, 9, 0, 1, 100);
    put_entry(&mut bytes, 0x230, 0, 0, 0, 0); // tombstone
    put_entry(&mut bytes, 0x240, 5, 0, 2, 200);
    put_entry(&mut bytes, 0x250, 7, 0, 3, 300); // live, but beyond size
    // Map header at 0x1000: bucket pointer at +0x18, size at +0x20.
    put_u64(&mut bytes, 0x18, 0x1200);
    put_u32(&mut bytes, 0x20, 2);
    let reader = SnapshotReader { base: 0x1000, bytes };
    let map = CSMap::<u32, u32>::resolve(&reader, 0x1000).expect("map header");
    assert_eq!(map.size(), 2);
    assert_eq!(map.iter(&reader), vec![(1, 100), (2, 200)]);
}

#[test]
fn map_entry_with_a_chain_link_is_not_a_tombstone() {
    let mut bytes = vec![0u8; 0x200];
    // Bucket array at 0x2100 (offset 0x100): one record with hash 0 but a
    // set chain link: part of a bucket chain, not a tombstone.
    put_u32(&mut bytes, 0x118, 1);
    put_entry(&mut bytes, 0x120, 0, 3, 8, 80);
    // Map header at 0x2000.
    put_u64(&mut bytes, 0x18, 0x2100);
    put_u32(&mut bytes, 0x20, 1);
    let reader = SnapshotReader { base: 0x2000, bytes };
    let map = CSMap::<u32, u32>::resolve(&reader, 0x2000).expect("map header");
    assert_eq!(map.iter(&reader), vec![(8, 80)]);
}

#[test]
fn set_iter_projects_keys_only() {
    let mut bytes = vec![0u8; 0x200];
    // Bucket array of Entry<u32, ()>: width 12.
    put_u32(&mut bytes, 0x118, 3);
    let put_set_entry = |b: &mut Vec<u8>, off: usize, hash: u32, next: u32, key: u32| {
        put_u32(b, off, hash);
        put_u32(b, off + 4, next);
        put_u32(b, off + 8, key);
    };
    put_set_entry(&mut bytes, 0x120, 1, 0, 11);
    put_set_entry(&mut bytes, 0x12C, 0, 0, 0); // tombstone
    put_set_entry(&mut bytes, 0x138, 4, 0, 22);
    // Set (map) header at 0x1000.
    put_u64(&mut bytes, 0x18, 0x1100);
    put_u32(&mut bytes, 0x20, 2);
    let reader = SnapshotReader { base: 0x1000, bytes };
    let set = CSSet::<u32>::resolve(&reader, 0x1000).expect("set header");
    assert_eq!(set.size(), 2);
    assert_eq!(set.iter(&reader), vec![11, 22]);
}

/// An image holding a string header at `base` with the given UTF-16 units.
fn string_image(base: u64, count: u32, units: &[u16]) -> SnapshotReader {
    let mut bytes = vec![0u8; 0x14 + units.len() * 2];
    put_u32(&mut bytes, 0x10, count);
    for (i, u) in units.iter().enumerate() {
        put_u16(&mut bytes, 0x14 + i * 2, *u);
    }
    SnapshotReader { base, bytes }
}

#[test]
fn string_with_a_lone_surrogate_decodes_to_the_replacement_character() {
    // Three units, the middle one an unpaired high surrogate.
    let reader = string_image(0x500, 3, &[0x0048, 0xD800, 0x0069]);
    let s = CSString::resolve(&reader, 0x500).expect("string header");
    assert_eq!(s.size(), 3);
    let chars = s.chars(&reader);
    assert_eq!(chars, vec!['H', '\u{FFFD}', 'i']);
}

#[test]
fn string_with_a_valid_surrogate_pair_combines_it() {
    let reader = string_image(0x500, 3, &[0xD83D, 0xDE00, 0x0021]);
    let s = CSString::resolve(&reader, 0x500).expect("string header");
    assert_eq!(s.chars(&reader), vec!['\u{1F600}', '!']);
    assert_eq!(s.to_std_string(&reader), "\u{1F600}!");
}

#[test]
fn string_collection_truncates_at_the_byte_capacity() {
    // 'H' is one UTF-8 byte, 'é' two: a capacity of 2 holds only "H" once
    // the next character no longer fits.
    let reader = string_image(0x500, 3, &[0x0048, 0x00E9, 0x0069]);
    let s = CSString::resolve(&reader, 0x500).expect("string header");
    assert_eq!(s.to_string(&reader, 2), "H");
    assert_eq!(s.to_string(&reader, 3), "H\u{00E9}");
    assert_eq!(s.to_string(&reader, 0), "");
    assert_eq!(s.to_std_string(&reader), "H\u{00E9}i");
}

#[test]
fn empty_string_decodes_to_nothing() {
    let reader = string_image(0x500, 0, &[]);
    let s = CSString::resolve(&reader, 0x500).expect("string header");
    assert_eq!(s.chars(&reader), Vec::<char>::new());
    assert_eq!(s.to_std_string(&reader), "");
}

#[test]
fn empty_array_yields_nothing() {
    let reader = array_image(0x100, 0, &[]);
    let arr = Array::<u32>::resolve(&reader, 0x100).expect("array header");
    assert_eq!(arr.size(), 0);
    assert_eq!(arr.to_vec(&reader), Vec::<u32>::new());
    let mut it = arr.iter(&reader);
    assert_eq!(it.next(), None);
}

#[test]
fn map_size_beyond_the_live_count_yields_all_live_entries() {
    let mut bytes = vec![0u8; 0x300];
    put_u32(&mut bytes, 0x218, 2);
    put_entry(&mut bytes, 0x220, 9, 0, 1, 100);
    put_entry(&mut bytes, 0x230, 0, 0, 0, 0); // tombstone
    put_u64(&mut bytes, 0x18, 0x1200);
    // The header claims more live entries than the bucket array holds.
    put_u32(&mut bytes, 0x20, 5);
    let reader = SnapshotReader { base: 0x1000, bytes };
    let map = CSMap::<u32, u32>::resolve(&reader, 0x1000).expect("map header");
    assert_eq!(map.iter(&reader), vec![(1, 100)]);
}

#[test]
fn a_failed_nested_read_makes_the_whole_list_absent() {
    // A list header whose backing-array pointer leads outside the snapshot:
    // resolution never yields a partially populated view.
    let mut bytes = vec![0u8; 0x20];
    put_u64(&mut bytes, 0x10, 0xEEEE_0000);
    put_u32(&mut bytes, 0x18, 3);
    let reader = SnapshotReader { base: 0x700, bytes };
    assert!(List::<u32>::resolve(&reader, 0x700).is_none());
}

#[test]
fn decoding_integers_is_little_endian() {
    let bytes = vec![0x01u8, 0x02, 0x03, 0x04, 0x05, 0x06, 0x07, 0x08];
    assert_eq!(u16::decode(&bytes[0..2].to_vec()), 0x0201);
    assert_eq!(u32::decode(&bytes[0..4].to_vec()), 0x04030201);
    assert_eq!(u64::decode(&bytes.clone()), 0x0807060504030201);
    let p = Pointer::<u32>::decode(&bytes);
    assert_eq!(p.address_value(), 0x0807060504030201);
}
