//! Unsigned 32-bit numbers written in decimal or hexadecimal, read as
//! `u32::from_str_radix` reads them.
use vstd::prelude::*;

verus! {

/// The value of an ASCII digit or letter; anything else gets a value no radix admits.
pub open spec fn digit_value(c: u8) -> int {
    if 48 <= c <= 57 {
        c - 48
    } else if 97 <= c <= 122 {
        c - 97 + 10
    } else if 65 <= c <= 90 {
        c - 65 + 10
    } else {
        99
    }
}

pub open spec fn all_digits(ds: Seq<u8>, radix: int) -> bool {
    forall|i: int| 0 <= i < ds.len() ==> digit_value(#[trigger] ds[i]) < radix
}

/// The number that the digits `ds` denote in base `radix`, without bound.
pub open spec fn digits_value(ds: Seq<u8>, radix: int) -> int
    decreases ds.len(),
{
    if ds.len() == 0 {
        0
    } else {
        digits_value(ds.drop_last(), radix) * radix + digit_value(ds.last())
    }
}

/// The digits after an optional leading `+`.
pub open spec fn unsigned_digits(s: Seq<u8>) -> Seq<u8> {
    if s.len() > 0 && s[0] == 43 {
        s.drop_first()
    } else {
        s
    }
}

/// What `u32::from_str_radix(s, radix)` gives: `None` for the empty text, a lone
/// sign, a byte that is no digit of the radix (a minus sign among them), or a
/// value above `u32::MAX`.
pub open spec fn parse_uint(s: Seq<u8>, radix: int) -> Option<u32> {
    let ds = unsigned_digits(s);
    if s.len() == 0 || (s.len() == 1 && (s[0] == 43 || s[0] == 45)) || !all_digits(ds, radix)
        || digits_value(ds, radix) > u32::MAX {
        None
    } else {
        Some(digits_value(ds, radix) as u32)
    }
}

pub open spec fn parse_dec(s: Seq<u8>) -> Option<u32> {
    parse_uint(s, 10)
}

pub open spec fn parse_hex(s: Seq<u8>) -> Option<u32> {
    parse_uint(s, 16)
}

proof fn lemma_digits_value_nonneg(ds: Seq<u8>, radix: int)
    requires
        radix >= 2,
    ensures
        digits_value(ds, radix) >= 0,
    decreases ds.len(),
{
    if ds.len() > 0 {
        lemma_digits_value_nonneg(ds.drop_last(), radix);
        let v = digits_value(ds.drop_last(), radix);
        assert(v * radix >= 0) by (nonlinear_arith)
            requires
                v >= 0,
                radix >= 2,
        ;
    }
}

/// Appending digits never makes the value smaller.
proof fn lemma_digits_value_grows(ds: Seq<u8>, i: int, radix: int)
    requires
        radix >= 2,
        0 <= i <= ds.len(),
    ensures
        digits_value(ds, radix) >= digits_value(ds.subrange(0, i), radix),
    decreases ds.len() - i,
{
    if i < ds.len() {
        lemma_digits_value_grows(ds, i + 1, radix);
        let pre = ds.subrange(0, i + 1);
        assert(pre.drop_last() =~= ds.subrange(0, i));
        lemma_digits_value_nonneg(ds.subrange(0, i), radix);
        let v = digits_value(ds.subrange(0, i), radix);
        assert(v * radix >= v) by (nonlinear_arith)
            requires
                v >= 0,
                radix >= 2,
        ;
    } else {
        assert(ds.subrange(0, i) =~= ds);
    }
}

fn digit_of(c: u8) -> (r: u32)
    ensures
        r == digit_value(c),
{
    if 48 <= c && c <= 57 {
        (c - 48) as u32
    } else if 97 <= c && c <= 122 {
        (c - 97 + 10) as u32
    } else if 65 <= c && c <= 90 {
        (c - 65 + 10) as u32
    } else {
        99
    }
}

/// Reads `s` as `u32::from_str_radix(s, radix)` does.
pub fn parse_u32_radix(s: &[u8], radix: u32) -> (r: Option<u32>)
    requires
        2 <= radix <= 36,
    ensures
        r == parse_uint(s@, radix as int),
{
    if s.len() == 0 {
        return None;
    }
    if s.len() == 1 && (s[0] == 43 || s[0] == 45) {
        return None;
    }
    let start: usize = if s[0] == 43 {
        1
    } else {
        0
    };
    let ghost ds = unsigned_digits(s@);
    assert(ds =~= s@.subrange(start as int, s@.len() as int));
    let mut v: u64 = 0;
    let mut i: usize = start;
    while i < s.len()
        invariant
            start <= i <= s.len(),
            2 <= radix <= 36,
            ds == s@.subrange(start as int, s@.len() as int),
            ds == unsigned_digits(s@),
            s@.len() > 0,
            all_digits(ds.subrange(0, i - start), radix as int),
            v == digits_value(ds.subrange(0, i - start), radix as int),
            v <= u32::MAX,
        decreases s.len() - i,
    {
        let d = digit_of(s[i]);
        let ghost pre = ds.subrange(0, i - start);
        let ghost pre1 = ds.subrange(0, i + 1 - start);
        assert(pre1.drop_last() =~= pre);
        assert(pre1.last() == s@[i as int]);
        if d >= radix {
            assert(!all_digits(ds, radix as int)) by {
                assert(ds[i - start] == s@[i as int]);
            }
            return None;
        }
        assert(v * (radix as u64) <= 0xffff_ffff * 36) by (nonlinear_arith)
            requires
                v <= 0xffff_ffff,
                radix <= 36,
        ;
        v = v * (radix as u64) + (d as u64);
        assert(v == digits_value(pre1, radix as int));
        assert(all_digits(pre1, radix as int)) by {
            assert forall|j: int| 0 <= j < pre1.len() implies digit_value(#[trigger] pre1[j])
                < radix by {
                if j < pre.len() {
                    assert(pre1[j] == pre[j]);
                }
            }
        }
        if v > 0xffff_ffff {
            proof {
                lemma_digits_value_grows(ds, i + 1 - start, radix as int);
            }
            return None;
        }
        i = i + 1;
    }
    assert(ds.subrange(0, i - start) =~= ds);
    Some(v as u32)
}

/// `s` is a nonempty run of the decimal digits `0`-`9`.
pub open spec fn is_decimal(s: Seq<u8>) -> bool {
    s.len() > 0 && forall|i: int| 0 <= i < s.len() ==> 48 <= #[trigger] s[i] <= 57
}

/// `s` is a nonempty run of hexadecimal digits `0`-`9`, `a`-`f`, `A`-`F`.
pub open spec fn is_hexadecimal(s: Seq<u8>) -> bool {
    s.len() > 0 && forall|i: int|
        0 <= i < s.len() ==> (48 <= #[trigger] s[i] <= 57 || 97 <= s[i] <= 102 || 65 <= s[i]
            <= 70)
}

/// Decimal digits read in base 10: a run of digits whose value fits in a
/// `u32` reads as that value.
pub proof fn lemma_decimal_reads_in_base_ten(s: Seq<u8>)
    requires
        is_decimal(s),
        digits_value(s, 10) <= u32::MAX,
    ensures
        parse_dec(s) == Some(digits_value(s, 10) as u32),
{
    assert(unsigned_digits(s) == s);
    assert(all_digits(s, 10));
}

/// Hexadecimal digits read in base 16.
pub proof fn lemma_hexadecimal_reads_in_base_sixteen(s: Seq<u8>)
    requires
        is_hexadecimal(s),
        digits_value(s, 16) <= u32::MAX,
    ensures
        parse_hex(s) == Some(digits_value(s, 16) as u32),
{
    assert(unsigned_digits(s) == s);
    assert(all_digits(s, 16));
}

} // verus!
