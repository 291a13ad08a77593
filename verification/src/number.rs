//! Decimal numbers: how they are read from text and written to it.
use vstd::prelude::*;

use crate::text;

verus! {

broadcast use vstd::string::group_string_axioms;

/// One of the ten decimal digits.
pub open spec fn is_digit(c: char) -> bool {
    '0' <= c && c <= '9'
}

/// Every character is a decimal digit.
pub open spec fn all_digits(s: Seq<char>) -> bool {
    forall|i: int| 0 <= i < s.len() ==> is_digit(#[trigger] s[i])
}

/// The number that a row of digits stands for.
pub open spec fn value(s: Seq<char>) -> nat
    decreases s.len(),
{
    if s.len() == 0 {
        0
    } else {
        10 * value(s.drop_last()) + (s.last() as nat - '0' as nat) as nat
    }
}

/// The text after a leading plus sign, if there is one.
pub open spec fn without_plus(s: Seq<char>) -> Seq<char> {
    if s.len() > 0 && s[0] == '+' {
        s.skip(1)
    } else {
        s
    }
}

/// The number written in `s`, if `s` is a row of digits (with or without a
/// plus sign before it) and the number is at most `max`.
pub open spec fn unsigned(s: Seq<char>, max: nat) -> Option<nat> {
    let d = without_plus(s);
    if d.len() > 0 && all_digits(d) && value(d) <= max {
        Some(value(d))
    } else {
        None
    }
}

/// The number written in `s`, if `s` is a row of digits (with or without a
/// sign before it) and the number lies between `min` and `max`.
pub open spec fn signed(s: Seq<char>, min: int, max: int) -> Option<int> {
    if s.len() > 0 && s[0] == '-' {
        let d = s.skip(1);
        if d.len() > 0 && all_digits(d) && min <= -value(d) {
            Some(-value(d))
        } else {
            None
        }
    } else {
        let d = without_plus(s);
        if d.len() > 0 && all_digits(d) && value(d) <= max {
            Some(value(d) as int)
        } else {
            None
        }
    }
}

/// The digit that stands for `d`.
pub open spec fn digit(d: nat) -> char
    recommends
        d < 10,
{
    ('0' as nat + d) as char
}

/// The decimal digits of `n`.
pub open spec fn dec(n: nat) -> Seq<char>
    decreases n,
{
    if n < 10 {
        seq![digit(n)]
    } else {
        dec(n / 10).push(digit(n % 10))
    }
}

/// The decimal digits of `i`, after a minus sign where `i` is negative.
pub open spec fn dec_int(i: int) -> Seq<char> {
    if i < 0 {
        seq!['-'] + dec((-i) as nat)
    } else {
        dec(i as nat)
    }
}

/// Reading the digits of a number gives the number back.
pub proof fn dec_reads_back(n: nat)
    ensures
        dec(n).len() > 0,
        all_digits(dec(n)),
        value(dec(n)) == n,
    decreases n,
{
    reveal_with_fuel(value, 2);
    if n < 10 {
        assert(dec(n).drop_last() == Seq::<char>::empty());
    } else {
        dec_reads_back(n / 10);
        assert(dec(n).drop_last() == dec(n / 10));
        assert(dec(n).last() == digit(n % 10));
    }
}

/// What is written of an unsigned number is read as that number.
pub proof fn unsigned_reads_dec(n: nat, max: nat)
    requires
        n <= max,
    ensures
        unsigned(dec(n), max) == Some(n),
{
    dec_reads_back(n);
    assert(is_digit(dec(n)[0]));
}

/// What is written of a signed number is read as that number.
pub proof fn signed_reads_dec_int(i: int, min: int, max: int)
    requires
        min <= i <= max,
    ensures
        signed(dec_int(i), min, max) == Some(i),
{
    if i < 0 {
        dec_reads_back((-i) as nat);
        assert(dec_int(i).skip(1) == dec((-i) as nat));
    } else {
        dec_reads_back(i as nat);
        assert(is_digit(dec(i as nat)[0]));
    }
}

/// A prefix of a row of digits stands for no more than the whole row.
proof fn lemma_value_prefix(s: Seq<char>, k: int)
    requires
        0 <= k <= s.len(),
        all_digits(s),
    ensures
        value(s.take(k)) <= value(s),
    decreases s.len() - k,
{
    if k < s.len() {
        let t = s.drop_last();
        assert(all_digits(t));
        lemma_value_prefix(t, k);
        assert(t.take(k) == s.take(k));
        assert(is_digit(s[s.len() - 1]));
    } else {
        assert(s.take(k) == s);
    }
}

/// The number that the digits from `from` on stand for.
fn digits_from(cs: &Vec<char>, from: usize) -> (r: Option<u64>)
    requires
        from <= cs.len(),
    ensures
        ({
            let d = cs@.skip(from as int);
            match r {
                Some(v) => d.len() > 0 && all_digits(d) && v == value(d),
                None => !(d.len() > 0 && all_digits(d) && value(d) <= u64::MAX),
            }
        }),
{
    let ghost d = cs@.skip(from as int);
    if from == cs.len() {
        return None;
    }
    let mut acc: u64 = 0;
    let mut i: usize = from;
    assert(d.take(0) == Seq::<char>::empty());
    while i < cs.len()
        invariant
            from <= i <= cs.len(),
            d == cs@.skip(from as int),
            all_digits(d.take(i - from)),
            acc == value(d.take(i - from)),
        decreases cs.len() - i,
    {
        let c = cs[i];
        let ghost k = i - from;
        assert(d[k] == c);
        if !('0' <= c && c <= '9') {
            assert(!is_digit(d[k]));
            return None;
        }
        let x: u64 = (c as u32 - '0' as u32) as u64;
        assert(d.take(k + 1).drop_last() == d.take(k));
        assert(d.take(k + 1).last() == c);
        assert(value(d.take(k + 1)) == 10 * acc + x);
        if acc > u64::MAX / 10 || (acc == u64::MAX / 10 && x > u64::MAX % 10) {
            proof {
                if all_digits(d) {
                    lemma_value_prefix(d, k + 1);
                }
            }
            return None;
        }
        acc = acc * 10 + x;
        i += 1;
        assert(all_digits(d.take(i - from)));
    }
    assert(d.take(d.len() as int) == d);
    Some(acc)
}

/// Reads an unsigned 64-bit number.
pub fn parse_u64(s: &str) -> (r: Option<u64>)
    ensures
        match r {
            Some(v) => unsigned(s@, u64::MAX as nat) == Some(v as nat),
            None => unsigned(s@, u64::MAX as nat) is None,
        },
{
    let cs = text::chars_of(s);
    assert(s@.skip(0) == s@);
    if cs.len() > 0 && cs[0] == '+' {
        digits_from(&cs, 1)
    } else {
        digits_from(&cs, 0)
    }
}

/// Reads an unsigned number of the machine's word size.
pub fn parse_usize(s: &str) -> (r: Option<usize>)
    ensures
        match r {
            Some(v) => unsigned(s@, usize::MAX as nat) == Some(v as nat),
            None => unsigned(s@, usize::MAX as nat) is None,
        },
{
    match parse_u64(s) {
        Some(v) => {
            if v <= usize::MAX as u64 {
                Some(v as usize)
            } else {
                None
            }
        },
        None => None,
    }
}

/// Reads an unsigned 32-bit number.
pub fn parse_u32(s: &str) -> (r: Option<u32>)
    ensures
        match r {
            Some(v) => unsigned(s@, u32::MAX as nat) == Some(v as nat),
            None => unsigned(s@, u32::MAX as nat) is None,
        },
{
    match parse_u64(s) {
        Some(v) => {
            if v <= u32::MAX as u64 {
                Some(v as u32)
            } else {
                None
            }
        },
        None => None,
    }
}

/// Reads an unsigned 16-bit number.
pub fn parse_u16(s: &str) -> (r: Option<u16>)
    ensures
        match r {
            Some(v) => unsigned(s@, u16::MAX as nat) == Some(v as nat),
            None => unsigned(s@, u16::MAX as nat) is None,
        },
{
    match parse_u64(s) {
        Some(v) => {
            if v <= u16::MAX as u64 {
                Some(v as u16)
            } else {
                None
            }
        },
        None => None,
    }
}

/// Reads a signed 32-bit number.
pub fn parse_i32(s: &str) -> (r: Option<i32>)
    ensures
        match r {
            Some(v) => signed(s@, i32::MIN as int, i32::MAX as int) == Some(v as int),
            None => signed(s@, i32::MIN as int, i32::MAX as int) is None,
        },
{
    let cs = text::chars_of(s);
    assert(s@.skip(0) == s@);
    if cs.len() > 0 && cs[0] == '-' {
        match digits_from(&cs, 1) {
            Some(v) => {
                if v <= 2147483648 {
                    Some((0i64 - v as i64) as i32)
                } else {
                    None
                }
            },
            None => None,
        }
    } else {
        let m: Option<u64> = if cs.len() > 0 && cs[0] == '+' {
            digits_from(&cs, 1)
        } else {
            digits_from(&cs, 0)
        };
        match m {
            Some(v) => {
                if v <= 2147483647 {
                    Some(v as i32)
                } else {
                    None
                }
            },
            None => None,
        }
    }
}

/// Writes a number in decimal behind what `out` holds.
pub fn push_u64(out: &mut String, n: u64)
    ensures
        final(out)@ == old(out)@ + dec(n as nat),
    decreases n,
{
    if n >= 10 {
        push_u64(out, n / 10);
    }
    let d: u32 = (n % 10) as u32;
    let c: char = match d {
        0 => '0',
        1 => '1',
        2 => '2',
        3 => '3',
        4 => '4',
        5 => '5',
        6 => '6',
        7 => '7',
        8 => '8',
        _ => '9',
    };
    assert(c == digit((n % 10) as nat));
    out.push(c);
}

/// Writes a signed number in decimal behind what `out` holds.
pub fn push_i32(out: &mut String, i: i32)
    ensures
        final(out)@ == old(out)@ + dec_int(i as int),
{
    let w: i64 = i as i64;
    if w < 0 {
        out.push('-');
        push_u64(out, (0 - w) as u64);
    } else {
        push_u64(out, w as u64);
    }
}

/// A hexadecimal digit.
pub open spec fn is_hex(c: char) -> bool {
    is_digit(c) || ('a' <= c && c <= 'f') || ('A' <= c && c <= 'F')
}

/// What a hexadecimal digit stands for.
pub open spec fn hex_digit(c: char) -> nat {
    if is_digit(c) {
        (c as int - '0' as int) as nat
    } else if 'a' <= c && c <= 'f' {
        (10 + (c as int - 'a' as int)) as nat
    } else {
        (10 + (c as int - 'A' as int)) as nat
    }
}

/// Every character is a hexadecimal digit.
pub open spec fn all_hex(s: Seq<char>) -> bool {
    forall|i: int| 0 <= i < s.len() ==> is_hex(#[trigger] s[i])
}

/// The number that a row of hexadecimal digits stands for.
pub open spec fn hex_value(s: Seq<char>) -> nat
    decreases s.len(),
{
    if s.len() == 0 {
        0
    } else {
        16 * hex_value(s.drop_last()) + hex_digit(s.last())
    }
}

/// The number written in `s`, if `s` is a row of hexadecimal digits (with or
/// without a plus sign before it) and the number fits in 64 bits.
pub open spec fn hexadecimal(s: Seq<char>) -> Option<nat> {
    let d = without_plus(s);
    if d.len() > 0 && all_hex(d) && hex_value(d) <= u64::MAX {
        Some(hex_value(d))
    } else {
        None
    }
}

proof fn lemma_hex_prefix(s: Seq<char>, k: int)
    requires
        0 <= k <= s.len(),
    ensures
        hex_value(s.take(k)) <= hex_value(s),
    decreases s.len() - k,
{
    if k < s.len() {
        let t = s.drop_last();
        lemma_hex_prefix(t, k);
        assert(t.take(k) == s.take(k));
    } else {
        assert(s.take(k) == s);
    }
}

/// What a hexadecimal digit stands for; nothing for another character.
fn hex_digit_of(c: char) -> (r: Option<u64>)
    ensures
        match r {
            Some(d) => is_hex(c) && d == hex_digit(c) && d < 16,
            None => !is_hex(c),
        },
{
    if '0' <= c && c <= '9' {
        Some((c as u32 - '0' as u32) as u64)
    } else if 'a' <= c && c <= 'f' {
        Some((10 + (c as u32 - 'a' as u32)) as u64)
    } else if 'A' <= c && c <= 'F' {
        Some((10 + (c as u32 - 'A' as u32)) as u64)
    } else {
        None
    }
}

/// Reads a hexadecimal number.
pub fn parse_hex(s: &str) -> (r: Option<u64>)
    ensures
        match r {
            Some(v) => hexadecimal(s@) == Some(v as nat),
            None => hexadecimal(s@) is None,
        },
{
    let cs = text::chars_of(s);
    let from: usize = if cs.len() > 0 && cs[0] == '+' {
        1
    } else {
        0
    };
    let ghost d = cs@.skip(from as int);
    proof {
        assert(d =~= without_plus(s@));
        assert(d.take(0) == Seq::<char>::empty());
    }
    if from == cs.len() {
        return None;
    }
    let mut acc: u64 = 0;
    let mut i: usize = from;
    while i < cs.len()
        invariant
            from <= i <= cs.len(),
            d == cs@.skip(from as int),
            d == without_plus(s@),
            all_hex(d.take(i - from)),
            acc == hex_value(d.take(i - from)),
        decreases cs.len() - i,
    {
        let c: char = cs[i];
        let ghost k = i - from;
        assert(d[k] == c);
        let x: u64 = match hex_digit_of(c) {
            Some(x) => x,
            None => {
                assert(!is_hex(d[k]));
                return None;
            },
        };
        proof {
            assert(d.take(k + 1).drop_last() == d.take(k));
            assert(d.take(k + 1).last() == c);
            lemma_hex_prefix(d, k + 1);
        }
        if acc > (u64::MAX - x) / 16 {
            return None;
        }
        acc = acc * 16 + x;
        proof {
            assert forall|j: int| 0 <= j < k + 1 implies is_hex(#[trigger] d.take(k + 1)[j]) by {
                if j < k {
                    assert(d.take(k)[j] == d[j]);
                }
            }
        }
        i += 1;
    }
    proof {
        assert(d.take(i - from) == d);
    }
    Some(acc)
}

/// Numbers are written in tens: the digits before the last one stand for ten
/// times as much, and the digits from `0` to `9` for their own.
pub proof fn digits_count_tens(n: nat, d: nat)
    requires
        d < 10,
    ensures
        0 < n ==> dec(10 * n + d) == dec(n) + dec(d),
        dec(0) == seq!['0'],
        dec(1) == seq!['1'],
        dec(2) == seq!['2'],
        dec(3) == seq!['3'],
        dec(4) == seq!['4'],
        dec(5) == seq!['5'],
        dec(6) == seq!['6'],
        dec(7) == seq!['7'],
        dec(8) == seq!['8'],
        dec(9) == seq!['9'],
{
    if 0 < n {
        assert((10 * n + d) / 10 == n && (10 * n + d) % 10 == d);
        assert(dec(10 * n + d) =~= dec(n) + dec(d));
    }
    assert(dec(0) =~= seq!['0']);
    assert(dec(1) =~= seq!['1']);
    assert(dec(2) =~= seq!['2']);
    assert(dec(3) =~= seq!['3']);
    assert(dec(4) =~= seq!['4']);
    assert(dec(5) =~= seq!['5']);
    assert(dec(6) =~= seq!['6']);
    assert(dec(7) =~= seq!['7']);
    assert(dec(8) =~= seq!['8']);
    assert(dec(9) =~= seq!['9']);
}

/// What is no row of digits is no number, and neither is one that is too large.
pub proof fn other_texts_are_no_numbers(s: Seq<char>, i: int, n: nat, max: nat)
    requires
        0 < i < s.len(),
        !('0' <= s[i] <= '9'),
    ensures
        unsigned(s, max) is None,
        signed(s, i32::MIN as int, i32::MAX as int) is None,
        unsigned(seq![], max) is None,
        n > max ==> unsigned(dec(n), max) is None,
{
    let d = without_plus(s);
    if s[0] == '+' {
        assert(d[i - 1] == s[i]);
        assert(!is_digit(d[i - 1]));
    } else {
        assert(!is_digit(d[i]));
    }
    if s[0] == '-' {
        assert(s.skip(1)[i - 1] == s[i]);
        assert(!is_digit(s.skip(1)[i - 1]));
    }
    dec_reads_back(n);
    assert(is_digit(dec(n)[0]));
}

} // verus!
