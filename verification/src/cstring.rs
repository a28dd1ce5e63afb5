use vstd::prelude::*;

use crate::reader::MemReader;
use crate::shaped::{read_value, value_at, Shaped};
use crate::pointer::Resolve;
use crate::array::{iter_seq, read_prefix};
use vstd::utf8::is_scalar;

verus! {

/// Header offset of a string's UTF-16 code-unit count.
pub const STRING_SIZE_OFFSET: u64 = 0x10;

/// Header offset of a string's first code unit.
pub const STRING_DATA_OFFSET: u64 = 0x14;

/// A high surrogate: the first unit of a UTF-16 surrogate pair.
pub open spec fn is_high_surrogate(u: u16) -> bool {
    0xD800 <= u < 0xDC00
}

/// A low surrogate: the second unit of a UTF-16 surrogate pair.
pub open spec fn is_low_surrogate(u: u16) -> bool {
    0xDC00 <= u < 0xE000
}

/// Any surrogate code unit: not a Unicode scalar value by itself.
pub open spec fn is_surrogate(u: u16) -> bool {
    0xD800 <= u < 0xE000
}

/// The scalar value a valid surrogate pair encodes.
pub open spec fn surrogate_pair_scalar(hi: u16, lo: u16) -> u32
    recommends
        is_high_surrogate(hi),
        is_low_surrogate(lo),
{
    (0x10000 + (hi - 0xD800) * 0x400 + (lo - 0xDC00)) as u32
}

/// UTF-16 decoding: valid surrogate pairs combine into one character, an
/// unpaired or inverted surrogate becomes the replacement character, and any
/// other unit is its own character.
pub open spec fn utf16_decode(units: Seq<u16>) -> Seq<char>
    decreases units.len(),
{
    if units.len() == 0 {
        Seq::empty()
    } else {
        let u = units[0];
        if is_high_surrogate(u) && units.len() >= 2 && is_low_surrogate(units[1]) {
            seq![surrogate_pair_scalar(u, units[1]) as char] + utf16_decode(units.skip(2))
        } else if is_surrogate(u) {
            seq!['\u{FFFD}'] + utf16_decode(units.skip(1))
        } else {
            seq![u as char] + utf16_decode(units.skip(1))
        }
    }
}

/// Relies on char::from_u32: for a Unicode scalar value it returns the
/// character with that code point.
#[verifier::external_body]
fn char_from_scalar(u: u32) -> (r: char)
    requires
        is_scalar(u),
    ensures
        r == (u as char),
{
    char::from_u32(u).expect("a Unicode scalar value")
}

/// Relies on String::push: appends the given character to the end.
#[verifier::external_body]
fn string_push(s: &mut String, c: char)
    ensures
        final (s)@ == old(s)@.push(c),
{
    s.push(c);
}

/// Decodes a UTF-16 unit sequence.
pub fn utf16_chars(units: &Vec<u16>) -> (r: Vec<char>)
    ensures
        r@ == utf16_decode(units@),
{
    let n = units.len();
    let mut out: Vec<char> = Vec::new();
    let mut i: usize = 0;
    assert(units@.skip(0) =~= units@);
    while i < n
        invariant
            i <= n,
            n == units@.len(),
            out@ + utf16_decode(units@.skip(i as int)) == utf16_decode(units@),
        decreases n - i,
    {
        let ghost suffix = units@.skip(i as int);
        assert(suffix.len() == n - i);
        assert(suffix[0] == units@[i as int]);
        let u = units[i];
        if u >= 0xD800 && u < 0xDC00 && i + 1 < n && units[i + 1] >= 0xDC00 && units[i + 1]
            < 0xE000 {
            let lo = units[i + 1];
            assert(suffix[1] == units@[i + 1]);
            let cp: u32 = 0x10000 + (u as u32 - 0xD800) * 0x400 + (lo as u32 - 0xDC00);
            proof {
                assert(cp == surrogate_pair_scalar(u, lo));
                assert(is_scalar(cp));
                assert(utf16_decode(suffix) == seq![cp as char] + utf16_decode(suffix.skip(2)));
                assert(suffix.skip(2) =~= units@.skip(i + 2));
                assert((out@ + seq![cp as char]) + utf16_decode(suffix.skip(2)) =~= out@ + (seq![
                    cp as char,
                ] + utf16_decode(suffix.skip(2))));
            }
            let c = char_from_scalar(cp);
            out.push(c);
            i = i + 2;
        } else if u >= 0xD800 && u < 0xE000 {
            proof {
                assert(utf16_decode(suffix) == seq!['\u{FFFD}'] + utf16_decode(suffix.skip(1)));
                assert(suffix.skip(1) =~= units@.skip(i + 1));
                assert((out@ + seq!['\u{FFFD}']) + utf16_decode(suffix.skip(1)) =~= out@ + (seq![
                    '\u{FFFD}',
                ] + utf16_decode(suffix.skip(1))));
            }
            out.push('\u{FFFD}');
            i = i + 1;
        } else {
            proof {
                assert(is_scalar(u as u32));
                assert(utf16_decode(suffix) == seq![u as char] + utf16_decode(suffix.skip(1)));
                assert(suffix.skip(1) =~= units@.skip(i + 1));
                assert((out@ + seq![u as char]) + utf16_decode(suffix.skip(1)) =~= out@ + (seq![
                    u as char,
                ] + utf16_decode(suffix.skip(1))));
            }
            let c = char_from_scalar(u as u32);
            out.push(c);
            i = i + 1;
        }
    }
    assert(units@.skip(n as int) =~= Seq::<u16>::empty());
    assert(out@ =~= utf16_decode(units@));
    out
}

/// The number of bytes a character occupies in UTF-8.
pub open spec fn utf8_len(c: char) -> nat {
    let u = c as u32;
    if u < 0x80 {
        1
    } else if u < 0x800 {
        2
    } else if u < 0x10000 {
        3
    } else {
        4
    }
}

/// The longest prefix of `chars` whose UTF-8 encoding fits in `cap` bytes,
/// cut at the first character that no longer fits.
pub open spec fn take_budget(chars: Seq<char>, cap: nat) -> Seq<char>
    decreases chars.len(),
{
    if chars.len() == 0 {
        Seq::empty()
    } else if utf8_len(chars[0]) <= cap {
        seq![chars[0]] + take_budget(chars.skip(1), (cap - utf8_len(chars[0])) as nat)
    } else {
        Seq::empty()
    }
}

fn utf8_len_exec(c: char) -> (n: usize)
    ensures
        n as nat == utf8_len(c),
{
    let u = c as u32;
    if u < 0x80 {
        1
    } else if u < 0x800 {
        2
    } else if u < 0x10000 {
        3
    } else {
        4
    }
}

/// A managed string of the target runtime: its header address plus the
/// UTF-16 code-unit count, read once from the header at resolution time.
/// Character data is contiguous code units starting at a fixed offset from
/// the header.
#[derive(Clone, Copy, Debug)]
pub struct CSString {
    pub addr: u64,
    pub size: u32,
}

impl CSString {
    /// The code-unit count the header held at resolution time.
    pub fn size(&self) -> (r: u32)
        ensures
            r == self.size,
    {
        self.size
    }

    /// The code units iteration reads: up to `size` units in address order,
    /// cut short at the first unreadable one.
    pub open spec fn units<R: MemReader>(self, reader: R) -> Seq<u16> {
        let start = self.addr + STRING_DATA_OFFSET;
        let stop = start + self.size * 2;
        if stop <= u64::MAX {
            iter_seq::<u16, R>(reader, start as u64, self.size as nat)
        } else {
            Seq::empty()
        }
    }

    /// The decoded characters: unpaired or invalid surrogate sequences map
    /// to the replacement character rather than failing.
    pub fn chars<R: MemReader>(self, reader: R) -> (r: Vec<char>)
        ensures
            r@ == utf16_decode(self.units(reader)),
    {
        let start = match self.addr.checked_add(STRING_DATA_OFFSET) {
            Some(x) => x,
            None => {
                return Vec::new();
            },
        };
        let span = match (self.size as u64).checked_mul(2) {
            Some(x) => x,
            None => {
                return Vec::new();
            },
        };
        if span > u64::MAX - start {
            return Vec::new();
        }
        let units = read_prefix::<u16, R>(reader, start, self.size);
        utf16_chars(&units)
    }

    /// Collects the characters into a string, stopping at the first one whose
    /// UTF-8 encoding no longer fits in the remaining byte capacity:
    /// characters beyond the capacity are silently truncated.
    pub fn to_string<R: MemReader>(self, reader: R, cap: usize) -> (r: String)
        ensures
            r@ == take_budget(utf16_decode(self.units(reader)), cap as nat),
    {
        let chars = self.chars(reader);
        let mut s = String::new();
        let mut budget = cap;
        let mut i: usize = 0;
        let n = chars.len();
        assert(chars@.skip(0) =~= chars@);
        while i < n
            invariant
                i <= n,
                n == chars@.len(),
                chars@ == utf16_decode(self.units(reader)),
                s@ + take_budget(chars@.skip(i as int), budget as nat) == take_budget(
                    chars@,
                    cap as nat,
                ),
            decreases n - i,
        {
            let ghost suffix = chars@.skip(i as int);
            assert(suffix[0] == chars@[i as int]);
            let c = chars[i];
            let l = utf8_len_exec(c);
            if l <= budget {
                proof {
                    assert(take_budget(suffix, budget as nat) == seq![c] + take_budget(
                        suffix.skip(1),
                        (budget - l) as nat,
                    ));
                    assert(suffix.skip(1) =~= chars@.skip(i + 1));
                    assert((s@ + seq![c]) + take_budget(suffix.skip(1), (budget - l) as nat)
                        =~= s@ + (seq![c] + take_budget(suffix.skip(1), (budget - l) as nat)));
                }
                string_push(&mut s, c);
                budget = budget - l;
                i = i + 1;
            } else {
                assert(take_budget(suffix, budget as nat) =~= Seq::<char>::empty());
                assert(s@ + Seq::<char>::empty() =~= s@);
                assert(s@ =~= take_budget(chars@, cap as nat));
                return s;
            }
        }
        assert(chars@.skip(n as int) =~= Seq::<char>::empty());
        assert(s@ =~= take_budget(chars@, cap as nat));
        s
    }

    /// Collects all the characters into a string, unbounded.
    pub fn to_std_string<R: MemReader>(self, reader: R) -> (r: String)
        ensures
            r@ == utf16_decode(self.units(reader)),
    {
        let chars = self.chars(reader);
        let mut s = String::new();
        let mut i: usize = 0;
        let n = chars.len();
        while i < n
            invariant
                i <= n,
                n == chars@.len(),
                s@ == chars@.subrange(0, i as int),
            decreases n - i,
        {
            let c = chars[i];
            string_push(&mut s, c);
            assert(chars@.subrange(0, i as int).push(c) =~= chars@.subrange(0, i + 1));
            i = i + 1;
        }
        assert(s@ =~= chars@);
        s
    }
}

/// A string resolves by reading its code-unit count from the header.
impl<R: MemReader> Resolve<R> for CSString {
    open spec fn resolved_spec(reader: R, addr: u64) -> Option<CSString> {
        if addr + STRING_SIZE_OFFSET <= u64::MAX {
            match value_at::<u32, R>(reader, (addr + STRING_SIZE_OFFSET) as u64) {
                Option::Some(size) => Some(CSString { addr, size }),
                Option::None => None,
            }
        } else {
            None
        }
    }

    fn resolve(reader: R, addr: u64) -> (r: Option<CSString>) {
        let a = match addr.checked_add(STRING_SIZE_OFFSET) {
            Some(x) => x,
            None => {
                return None;
            },
        };
        match read_value::<u32, R>(&reader, a) {
            Some(size) => Some(CSString { addr, size }),
            None => None,
        }
    }
}

/// Law: a unit sequence with no valid surrogate pair decodes one character
/// per unit: each lone surrogate to the replacement character, every other
/// unit to itself.
pub proof fn lemma_utf16_decode_unpaired(units: Seq<u16>)
    requires
        forall|i: int|
            0 <= i < units.len() - 1 ==> !(is_high_surrogate(#[trigger] units[i])
                && is_low_surrogate(units[i + 1])),
    ensures
        utf16_decode(units).len() == units.len(),
        forall|i: int|
            0 <= i < units.len() ==> #[trigger] utf16_decode(units)[i] == (if is_surrogate(
                units[i],
            ) {
                '\u{FFFD}'
            } else {
                units[i] as char
            }),
    decreases units.len(),
{
    if units.len() > 0 {
        let u = units[0];
        let rest = units.skip(1);
        assert forall|i: int|
            0 <= i < rest.len() - 1 implies !(is_high_surrogate(#[trigger] rest[i])
            && is_low_surrogate(rest[i + 1])) by {
            assert(rest[i] == units[i + 1]);
            assert(rest[i + 1] == units[i + 2]);
        }
        lemma_utf16_decode_unpaired(rest);
        if units.len() >= 2 {
            assert(!(is_high_surrogate(units[0]) && is_low_surrogate(units[1])));
        }
        let head = if is_surrogate(u) {
            '\u{FFFD}'
        } else {
            u as char
        };
        assert(utf16_decode(units) == seq![head] + utf16_decode(rest));
        assert forall|i: int| 0 <= i < units.len() implies #[trigger] utf16_decode(units)[i] == (
        if is_surrogate(units[i]) {
            '\u{FFFD}'
        } else {
            units[i] as char
        }) by {
            if i > 0 {
                assert(utf16_decode(units)[i] == utf16_decode(rest)[i - 1]);
                assert(rest[i - 1] == units[i]);
            }
        }
    }
}

} // verus!
