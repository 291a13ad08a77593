//! Little-endian numbers, and the parcels that binder transactions carry.
use vstd::prelude::*;

use crate::text;

verus! {

broadcast use vstd::string::group_string_axioms;

/// The `n` bytes from `i` on as a number, the lowest byte first.
pub open spec fn le_at(b: Seq<u8>, i: int, n: nat) -> nat
    decreases n,
{
    if n == 0 {
        0
    } else {
        b[i] as nat + 256 * le_at(b, i + 1, (n - 1) as nat)
    }
}

/// The lowest `n` bytes of a number, the lowest byte first.
pub open spec fn le_bytes(x: nat, n: nat) -> Seq<u8>
    decreases n,
{
    if n == 0 {
        seq![]
    } else {
        seq![(x % 256) as u8] + le_bytes(x / 256, (n - 1) as nat)
    }
}

/// The first number that `n` bytes cannot hold.
pub open spec fn past(n: nat) -> nat
    decreases n,
{
    if n == 0 {
        1
    } else {
        256 * past((n - 1) as nat)
    }
}

/// The 32 bits of a signed number, as an unsigned one.
pub open spec fn bits32(x: int) -> nat {
    (if x < 0 {
        x + 0x1_0000_0000
    } else {
        x
    }) as nat
}

/// The signed number with those 32 bits.
pub open spec fn signed32(x: nat) -> int {
    if x >= 0x8000_0000 {
        x - 0x1_0000_0000
    } else {
        x as int
    }
}

pub(crate) proof fn lemma_le_bytes_len(x: nat, n: nat)
    ensures
        le_bytes(x, n).len() == n,
    decreases n,
{
    if n > 0 {
        lemma_le_bytes_len(x / 256, (n - 1) as nat);
    }
}

/// The bytes of a number, wherever they stand, are read back as that number.
pub proof fn number_reads_back(b: Seq<u8>, i: int, x: nat, n: nat)
    requires
        0 <= i,
        i + n <= b.len(),
        b.subrange(i, i + n) == le_bytes(x, n),
        x < past(n),
    ensures
        le_at(b, i, n) == x,
    decreases n,
{
    if n > 0 {
        let m = (n - 1) as nat;
        lemma_le_bytes_len(x / 256, m);
        let s = b.subrange(i, i + n);
        assert(s[0] == b[i]);
        assert(b.subrange(i + 1, i + 1 + m) =~= s.skip(1));
        assert(s.skip(1) =~= le_bytes(x / 256, m));
        number_reads_back(b, i + 1, x / 256, m);
    }
}

proof fn lemma_le_bound(b: Seq<u8>, i: int, n: nat)
    ensures
        le_at(b, i, n) < past(n),
    decreases n,
{
    if n > 0 {
        lemma_le_bound(b, i + 1, (n - 1) as nat);
    }
}

/// What stands behind or in front makes no difference to a number.
pub(crate) proof fn lemma_le_same(a: Seq<u8>, i: int, b: Seq<u8>, j: int, n: nat)
    requires
        forall|k: int| 0 <= k < n ==> a[#[trigger] (i + k)] == b[j + k],
    ensures
        le_at(a, i, n) == le_at(b, j, n),
    decreases n,
{
    if n > 0 {
        assert(a[i + 0] == b[j + 0]);
        assert forall|k: int| 0 <= k < n - 1 implies a[#[trigger] (i + 1 + k)] == b[j + 1 + k] by {
            assert(a[i + (k + 1)] == b[j + (k + 1)]);
        }
        lemma_le_same(a, i + 1, b, j + 1, (n - 1) as nat);
    }
}

/// The 32 bits from `i` on.
pub fn u32_at(b: &Vec<u8>, i: usize) -> (r: u32)
    requires
        i + 4 <= b.len(),
    ensures
        r == le_at(b@, i as int, 4),
{
    proof {
        reveal_with_fuel(le_at, 5);
    }
    b[i] as u32 + 256 * (b[i + 1] as u32 + 256 * (b[i + 2] as u32 + 256 * (b[i + 3] as u32)))
}

/// The 64 bits from `i` on.
pub fn u64_at(b: &Vec<u8>, i: usize) -> (r: u64)
    requires
        i + 8 <= b.len(),
    ensures
        r == le_at(b@, i as int, 8),
{
    let low: u32 = u32_at(b, i);
    let high: u32 = u32_at(b, i + 4);
    proof {
        reveal_with_fuel(le_at, 9);
    }
    low as u64 + 0x1_0000_0000 * (high as u64)
}

/// The signed number with those 32 bits.
pub fn signed_of(x: u32) -> (r: i32)
    ensures
        r == signed32(x as nat),
{
    if x >= 0x8000_0000 {
        (x as i64 - 0x1_0000_0000) as i32
    } else {
        x as i32
    }
}

/// The 32 bits of a signed number.
pub fn bits_of(x: i32) -> (r: u32)
    ensures
        r == bits32(x as int),
{
    if x < 0 {
        (x as i64 + 0x1_0000_0000) as u32
    } else {
        x as u32
    }
}

/// Appends 32 bits.
pub fn push_u32(v: &mut Vec<u8>, x: u32)
    ensures
        final(v)@ == old(v)@ + le_bytes(x as nat, 4),
{
    let ghost before = v@;
    v.push((x % 256) as u8);
    v.push((x / 256 % 256) as u8);
    v.push((x / 0x1_0000 % 256) as u8);
    v.push((x / 0x100_0000) as u8);
    proof {
        reveal_with_fuel(le_bytes, 5);
        let n = x as nat;
        assert(n / 256 / 256 == n / 0x1_0000);
        assert(n / 256 / 256 / 256 == n / 0x100_0000);
        assert(v@ =~= before + le_bytes(n, 4));
    }
}

/// Appends 64 bits.
pub fn push_u64(v: &mut Vec<u8>, x: u64)
    ensures
        final(v)@ == old(v)@ + le_bytes(x as nat, 8),
{
    let ghost before = v@;
    push_u32(v, (x % 0x1_0000_0000) as u32);
    push_u32(v, (x / 0x1_0000_0000) as u32);
    proof {
        let n = x as nat;
        lemma_split(n, 4, 4);
        assert(past(4) == 0x1_0000_0000) by {
            reveal_with_fuel(past, 5);
        }
        assert(v@ =~= before + le_bytes(n, 8));
    }
}

proof fn lemma_past_positive(n: nat)
    ensures
        past(n) > 0,
    decreases n,
{
    if n > 0 {
        lemma_past_positive((n - 1) as nat);
    }
}

/// The bytes of a number are those of its low part and then those of its high
/// part.
proof fn lemma_split(x: nat, m: nat, n: nat)
    ensures
        le_bytes(x, m + n) == le_bytes(x % past(m), m) + le_bytes(x / past(m), n),
    decreases m,
{
    if m == 0 {
        assert(le_bytes(x % 1, 0) =~= Seq::<u8>::empty());
        assert(x / 1 == x);
        assert(le_bytes(x, n) =~= Seq::<u8>::empty() + le_bytes(x, n));
    } else {
        let k = (m - 1) as nat;
        let p = past(k);
        lemma_past_positive(k);
        lemma_split(x / 256, k, n);
        assert(past(m) == 256 * p);
        vstd::arithmetic::div_mod::lemma_div_denominator(x as int, 256, p as int);
        assert(x / (256 * p) == x / 256 / p);
        vstd::arithmetic::div_mod::lemma_mod_breakdown(x as int, 256, p as int);
        let low = x % past(m);
        assert(low == 256 * ((x / 256) % p) + x % 256) by {
            vstd::arithmetic::div_mod::lemma_fundamental_div_mod(x as int, 256);
        }
        assert(low % 256 == x % 256);
        assert(low / 256 == (x / 256) % p);
        assert(((m + n) - 1) as nat == k + n);
        assert(le_bytes(x, m + n) == seq![(x % 256) as u8] + le_bytes(x / 256, k + n));
        assert(le_bytes(low, m) == seq![(low % 256) as u8] + le_bytes(low / 256, k));
        assert(le_bytes(x, m + n) =~= le_bytes(low, m) + le_bytes(x / past(m), n));
    }
}

/// Appends a signed number.
pub fn push_i32(v: &mut Vec<u8>, x: i32)
    ensures
        final(v)@ == old(v)@ + le_bytes(bits32(x as int), 4),
{
    push_u32(v, bits_of(x));
}

/// The zeros that fill up `n` bytes to a multiple of four.
pub open spec fn padding(n: nat) -> Seq<u8> {
    Seq::new(((4 - n % 4) % 4) as nat, |i: int| 0u8)
}

/// Fills up with zeros to a multiple of four bytes.
pub fn pad4(v: &mut Vec<u8>)
    ensures
        final(v)@ == old(v)@ + padding(old(v)@.len()),
        final(v)@.len() % 4 == 0,
{
    let ghost before = v@;
    proof {
        assert(v@ =~= before + Seq::new(0, |i: int| 0u8));
    }
    while v.len() % 4 != 0
        invariant
            before.len() <= v.len() <= before.len() + padding(before.len()).len(),
            v@ == before + Seq::new((v.len() - before.len()) as nat, |i: int| 0u8),
        decreases before.len() + padding(before.len()).len() - v.len(),
    {
        let ghost now = v@;
        v.push(0);
        proof {
            assert(v@ =~= before + Seq::new((v.len() - before.len()) as nat, |i: int| 0u8));
        }
    }
    proof {
        assert(v.len() == before.len() + padding(before.len()).len());
        assert(v@ =~= before + padding(before.len()));
    }
}

/// A character in UTF-16: one unit, or a pair of surrogates.
pub open spec fn char_units(c: char) -> Seq<u16> {
    let n = c as int;
    if n < 0x1_0000 {
        seq![n as u16]
    } else {
        seq![(0xD800 + (n - 0x1_0000) / 0x400) as u16, (0xDC00 + (n - 0x1_0000) % 0x400) as u16]
    }
}

/// A text in UTF-16.
pub open spec fn utf16(s: Seq<char>) -> Seq<u16>
    decreases s.len(),
{
    if s.len() == 0 {
        seq![]
    } else {
        utf16(s.drop_last()) + char_units(s.last())
    }
}

/// UTF-16 units as bytes.
pub open spec fn unit_bytes(u: Seq<u16>) -> Seq<u8>
    decreases u.len(),
{
    if u.len() == 0 {
        seq![]
    } else {
        unit_bytes(u.drop_last()) + le_bytes(u.last() as nat, 2)
    }
}

/// Appends the UTF-16 units of a character.
fn push_char_units(r: &mut Vec<u16>, c: char)
    ensures
        final(r)@ == old(r)@ + char_units(c),
{
    let n: u32 = c as u32;
    let ghost before = r@;
    if n < 0x1_0000 {
        r.push(n as u16);
    } else {
        r.push((0xD800 + (n - 0x1_0000) / 0x400) as u16);
        r.push((0xDC00 + (n - 0x1_0000) % 0x400) as u16);
    }
    proof {
        assert(r@ =~= before + char_units(c));
    }
}

/// The UTF-16 units of a text.
fn units_of(s: &str) -> (r: Vec<u16>)
    ensures
        r@ == utf16(s@),
{
    let cs = text::chars_of(s);
    let mut r: Vec<u16> = Vec::new();
    let mut i: usize = 0;
    proof {
        assert(cs@.take(0) =~= Seq::<char>::empty());
    }
    while i < cs.len()
        invariant
            i <= cs.len(),
            r@ == utf16(cs@.take(i as int)),
        decreases cs.len() - i,
    {
        let c: char = cs[i];
        push_char_units(&mut r, c);
        proof {
            let t = cs@.take(i + 1);
            assert(t.drop_last() =~= cs@.take(i as int));
            assert(t.last() == c);
        }
        i += 1;
    }
    proof {
        assert(cs@.take(i as int) =~= s@);
    }
    r
}

/// A text as a parcel holds it: the number of its UTF-16 units, the units, and
/// zeros up to a multiple of four bytes of the whole parcel.
pub open spec fn with_text(v: Seq<u8>, s: Seq<char>) -> Seq<u8> {
    let u = utf16(s);
    let body = v + le_bytes((u.len() % 0x1_0000_0000) as nat, 4) + unit_bytes(u);
    body + padding(body.len())
}

/// Appends a text in UTF-16.
pub fn push_utf16(v: &mut Vec<u8>, s: &str)
    ensures
        final(v)@ == with_text(old(v)@, s@),
{
    let units = units_of(s);
    let n: u64 = units.len() as u64;
    push_u32(v, (n % 0x1_0000_0000) as u32);
    let ghost before = v@;
    let mut i: usize = 0;
    proof {
        assert(units@.take(0) =~= Seq::<u16>::empty());
        assert(v@ =~= before + unit_bytes(units@.take(0)));
    }
    while i < units.len()
        invariant
            i <= units.len(),
            v@ == before + unit_bytes(units@.take(i as int)),
        decreases units.len() - i,
    {
        let u: u16 = units[i];
        let ghost now = v@;
        v.push((u % 256) as u8);
        v.push((u / 256) as u8);
        proof {
            let t = units@.take(i + 1);
            assert(t.drop_last() =~= units@.take(i as int));
            assert(t.last() == u);
            reveal_with_fuel(le_bytes, 3);
            assert(v@ =~= now + le_bytes(u as nat, 2));
            assert(v@ =~= before + unit_bytes(t));
        }
        i += 1;
    }
    proof {
        assert(units@.take(i as int) =~= units@);
    }
    pad4(v);
}

/// The first unit of a pair of surrogates.
pub open spec fn is_leading(u: u16) -> bool {
    0xD800 <= u < 0xDC00
}

/// The second unit of a pair of surrogates.
pub open spec fn is_trailing(u: u16) -> bool {
    0xDC00 <= u < 0xE000
}

/// The text of UTF-16 units: a pair of surrogates is one character, and a
/// surrogate without its partner is a replacement character.
pub open spec fn utf16_lossy(units: Seq<u16>) -> Seq<char>
    decreases units.len(),
{
    if units.len() == 0 {
        seq![]
    } else if is_leading(units[0]) && units.len() > 1 && is_trailing(units[1]) {
        let c = (0x1_0000 + (units[0] - 0xD800) * 0x400 + (units[1] - 0xDC00)) as char;
        seq![c] + utf16_lossy(units.skip(2))
    } else if is_leading(units[0]) || is_trailing(units[0]) {
        seq!['\u{FFFD}'] + utf16_lossy(units.skip(1))
    } else {
        seq![units[0] as char] + utf16_lossy(units.skip(1))
    }
}

/// `String::from_utf16_lossy`: the text of UTF-16 units, with a replacement
/// character for each surrogate that has no partner.
#[verifier::external_body]
fn lossy_units(units: &Vec<u16>) -> (r: String)
    ensures
        r@ == utf16_lossy(units@),
{
    String::from_utf16_lossy(units)
}

/// Reads a parcel from its start on.
pub struct ParcelReader<'a> {
    data: &'a Vec<u8>,
    pos: usize,
}

/// The longest text, in UTF-16 units, that is read.
pub const MAX_TEXT_UNITS: i32 = 4096;

/// The position after padding; never past the end.
pub open spec fn aligned(p: int, len: nat) -> int {
    let q = (p + 3) / 4 * 4;
    if q <= len {
        q
    } else {
        len as int
    }
}

/// Goes on to a multiple of four bytes, or to the end.
fn align4(p: usize, len: usize) -> (r: usize)
    requires
        p <= len,
    ensures
        r == aligned(p as int, len as nat),
        r <= len,
{
    let rest: usize = p % 4;
    let gap: usize = if rest == 0 {
        0
    } else {
        4 - rest
    };
    if gap <= len - p {
        p + gap
    } else {
        len
    }
}

/// A signed number at `p`.
pub open spec fn i32_read(b: Seq<u8>, p: int) -> Option<int> {
    if p + 4 <= b.len() {
        Some(signed32(le_at(b, p, 4)))
    } else {
        None
    }
}

/// The position after a signed number was asked for at `p`.
pub open spec fn after_i32(b: Seq<u8>, p: int) -> int {
    if p + 4 <= b.len() {
        p + 4
    } else {
        p
    }
}

/// The units of a text at `p`.
pub open spec fn text_units(b: Seq<u8>, p: int) -> Option<Seq<u16>> {
    match i32_read(b, p) {
        Some(n) => if 0 <= n <= MAX_TEXT_UNITS && p + 4 + 2 * n <= b.len() {
            Some(Seq::new(n as nat, |k: int| le_at(b, p + 4 + 2 * k, 2) as u16))
        } else {
            None
        },
        None => None,
    }
}

/// The position after a text was asked for at `p`: where there is none, behind
/// the number of units if that is there.
pub open spec fn after_text(b: Seq<u8>, p: int) -> int {
    match text_units(b, p) {
        Some(u) => aligned(p + 4 + 2 * u.len(), b.len()),
        None => after_i32(b, p),
    }
}

impl<'a> ParcelReader<'a> {
    /// The parcel.
    pub closed spec fn bytes(&self) -> Seq<u8> {
        self.data@
    }

    /// How far it has been read.
    pub closed spec fn at(&self) -> int {
        self.pos as int
    }

    /// The position lies in the parcel.
    pub open spec fn wf(&self) -> bool {
        0 <= self.at() <= self.bytes().len()
    }

    /// A reader at the start.
    pub fn new(data: &'a Vec<u8>) -> (r: ParcelReader<'a>)
        ensures
            r.wf(),
            r.bytes() == data@,
            r.at() == 0,
    {
        ParcelReader { data, pos: 0 }
    }

    /// Reads a signed number.
    pub fn read_i32(&mut self) -> (r: Option<i32>)
        requires
            old(self).wf(),
        ensures
            final(self).wf(),
            final(self).bytes() == old(self).bytes(),
            final(self).at() == after_i32(old(self).bytes(), old(self).at()),
            match r {
                Some(x) => i32_read(old(self).bytes(), old(self).at()) == Some(x as int),
                None => i32_read(old(self).bytes(), old(self).at()) is None,
            },
    {
        if self.data.len() - self.pos < 4 {
            return None;
        }
        let x: u32 = u32_at(self.data, self.pos);
        self.pos = self.pos + 4;
        Some(signed_of(x))
    }

    /// Reads 64 bits.
    pub fn read_u64(&mut self) -> (r: Option<u64>)
        requires
            old(self).wf(),
        ensures
            final(self).wf(),
            final(self).bytes() == old(self).bytes(),
            match r {
                Some(x) => old(self).at() + 8 <= old(self).bytes().len() && x == le_at(
                    old(self).bytes(),
                    old(self).at(),
                    8,
                ) && final(self).at() == old(self).at() + 8,
                None => old(self).at() + 8 > old(self).bytes().len() && final(self).at() == old(
                    self,
                ).at(),
            },
    {
        if self.data.len() - self.pos < 8 {
            return None;
        }
        let x: u64 = u64_at(self.data, self.pos);
        self.pos = self.pos + 8;
        Some(x)
    }

    /// Reads a text.
    pub fn read_utf16_str(&mut self) -> (r: Option<String>)
        requires
            old(self).wf(),
        ensures
            final(self).wf(),
            final(self).bytes() == old(self).bytes(),
            final(self).at() == after_text(old(self).bytes(), old(self).at()),
            match r {
                Some(s) => text_units(old(self).bytes(), old(self).at()) matches Some(u) && s@
                    == utf16_lossy(u),
                None => text_units(old(self).bytes(), old(self).at()) is None,
            },
    {
        let ghost p = self.at();
        let len: i32 = match self.read_i32() {
            Some(x) => x,
            None => {
                return None;
            },
        };
        if len < 0 || len > MAX_TEXT_UNITS {
            return None;
        }
        let bytes: usize = len as usize * 2;
        if self.data.len() - self.pos < bytes {
            return None;
        }
        let start: usize = self.pos;
        let mut units: Vec<u16> = Vec::new();
        let mut i: usize = 0;
        while i < len as usize
            invariant
                0 <= len <= MAX_TEXT_UNITS,
                i <= len,
                start + 2 * len <= self.data.len(),
                self.pos == start,
                self.data@ == old(self).data@,
                units@ == Seq::new(i as nat, |k: int| le_at(self.data@, start + 2 * k, 2) as u16),
            decreases len - i,
        {
            let ghost before = units@;
            let low: u8 = self.data[start + 2 * i];
            let high: u8 = self.data[start + 2 * i + 1];
            units.push(low as u16 + 256 * (high as u16));
            proof {
                reveal_with_fuel(le_at, 3);
                assert(units@ =~= Seq::new(
                    (i + 1) as nat,
                    |k: int| le_at(self.data@, start + 2 * k, 2) as u16,
                ));
            }
            i += 1;
        }
        self.pos = align4(start + bytes, self.data.len());
        assert(text_units(old(self).bytes(), p) == Some(units@));
        Some(lossy_units(&units))
    }
}

proof fn lemma_units_len(u: Seq<u16>)
    ensures
        unit_bytes(u).len() == 2 * u.len(),
    decreases u.len(),
{
    if u.len() > 0 {
        lemma_units_len(u.drop_last());
        lemma_le_bytes_len(u.last() as nat, 2);
    }
}

proof fn lemma_unit_at(u: Seq<u16>, k: int)
    requires
        0 <= k < u.len(),
    ensures
        unit_bytes(u).subrange(2 * k, 2 * k + 2) == le_bytes(u[k] as nat, 2),
    decreases u.len(),
{
    lemma_units_len(u);
    lemma_units_len(u.drop_last());
    lemma_le_bytes_len(u.last() as nat, 2);
    if k == u.len() - 1 {
        assert(unit_bytes(u).subrange(2 * k, 2 * k + 2) =~= le_bytes(u[k] as nat, 2));
    } else {
        lemma_unit_at(u.drop_last(), k);
        assert(unit_bytes(u).subrange(2 * k, 2 * k + 2) =~= unit_bytes(u.drop_last()).subrange(
            2 * k,
            2 * k + 2,
        ));
    }
}

/// The units of a text begin with those of its first character.
proof fn lemma_utf16_front(s: Seq<char>)
    requires
        s.len() > 0,
    ensures
        utf16(s) == char_units(s[0]) + utf16(s.skip(1)),
    decreases s.len(),
{
    if s.len() == 1 {
        assert(s.drop_last() =~= Seq::<char>::empty());
        assert(s.skip(1) =~= Seq::<char>::empty());
        assert(utf16(s) =~= char_units(s[0]) + utf16(s.skip(1)));
    } else {
        let t = s.drop_last();
        lemma_utf16_front(t);
        assert(s.skip(1).drop_last() =~= t.skip(1));
        assert(utf16(s) =~= char_units(s[0]) + utf16(s.skip(1)));
    }
}

/// The units of a character are read as that character.
proof fn lemma_first_char(c: char, rest: Seq<u16>)
    ensures
        utf16_lossy(char_units(c) + rest) == seq![c] + utf16_lossy(rest),
{
    let n = c as int;
    let u = char_units(c) + rest;
    if n < 0x1_0000 {
        assert(u[0] as int == n);
        assert(u.skip(1) =~= rest);
        assert(utf16_lossy(u) == seq![c] + utf16_lossy(u.skip(1)));
    } else {
        assert(u[0] == 0xD800 + (n - 0x1_0000) / 0x400);
        assert(u[1] == 0xDC00 + (n - 0x1_0000) % 0x400);
        assert(u.skip(2) =~= rest);
        assert(utf16_lossy(u) == seq![c] + utf16_lossy(u.skip(2)));
    }
}

/// The units of a text are read as that text.
pub proof fn units_read_back(s: Seq<char>)
    ensures
        utf16_lossy(utf16(s)) == s,
    decreases s.len(),
{
    if s.len() == 0 {
        assert(s =~= Seq::<char>::empty());
    } else {
        let rest = s.skip(1);
        lemma_utf16_front(s);
        units_read_back(rest);
        lemma_first_char(s[0], utf16(rest));
        assert(s =~= seq![s[0]] + rest);
    }
}

/// A text that was written to a parcel is read back, and reading goes on behind
/// it.
pub proof fn text_reads_back(v: Seq<u8>, s: Seq<char>, rest: Seq<u8>)
    requires
        utf16(s).len() <= MAX_TEXT_UNITS,
    ensures
        text_units(with_text(v, s) + rest, v.len() as int) == Some(utf16(s)),
        utf16_lossy(utf16(s)) == s,
        after_text(with_text(v, s) + rest, v.len() as int) == with_text(v, s).len(),
{
    units_read_back(s);
    let u = utf16(s);
    let n = u.len();
    let head = le_bytes(n, 4);
    let body = v + head + unit_bytes(u);
    let all = with_text(v, s) + rest;
    let p = v.len() as int;
    lemma_le_bytes_len(n, 4);
    lemma_units_len(u);
    assert(past(4) == 0x1_0000_0000) by {
        reveal_with_fuel(past, 5);
    }
    assert(all.subrange(p, p + 4) =~= head);
    number_reads_back(all, p, n, 4);
    let got = Seq::new(n, |k: int| le_at(all, p + 4 + 2 * k, 2) as u16);
    assert forall|k: int| 0 <= k < n implies got[k] == u[k] by {
        lemma_unit_at(u, k);
        assert(all.subrange(p + 4 + 2 * k, p + 4 + 2 * k + 2) =~= unit_bytes(u).subrange(
            2 * k,
            2 * k + 2,
        ));
        assert(past(2) == 0x1_0000) by {
            reveal_with_fuel(past, 3);
        }
        number_reads_back(all, p + 4 + 2 * k, u[k] as nat, 2);
    }
    assert(got =~= u);
}

/// Numbers are laid out with their lowest byte first.
pub proof fn lowest_bytes_come_first(x: nat, n: nat)
    requires
        n > 0,
    ensures
        le_bytes(x, n)[0] == x % 256,
        le_bytes(x, n).skip(1) == le_bytes(x / 256, (n - 1) as nat),
        le_bytes(x, n).len() == n,
{
    lemma_le_bytes_len(x, n);
    assert(le_bytes(x, n).skip(1) =~= le_bytes(x / 256, (n - 1) as nat));
}

} // verus!
