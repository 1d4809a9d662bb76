//! Reading numbers written in text, as the integer types' `from_str_radix`
//! and `from_str` read them.
use vstd::prelude::*;

verus! {

/// Whether `c` is a hexadecimal digit (either case).
pub open spec fn is_hex_digit(c: char) -> bool {
    ('0' <= c && c <= '9') || ('a' <= c && c <= 'f') || ('A' <= c && c <= 'F')
}

/// The value of the hexadecimal digit `c` (0 for any other character).
pub open spec fn hex_digit_value(c: char) -> nat {
    if '0' <= c && c <= '9' {
        (c as u32 - '0' as u32) as nat
    } else if 'a' <= c && c <= 'f' {
        (c as u32 - 'a' as u32 + 10) as nat
    } else if 'A' <= c && c <= 'F' {
        (c as u32 - 'A' as u32 + 10) as nat
    } else {
        0
    }
}

/// Whether `c` is a digit in base `radix` (10 or 16).
pub open spec fn is_digit(c: char, radix: nat) -> bool {
    is_hex_digit(c) && hex_digit_value(c) < radix
}

/// Every character of `d` is a digit in base `radix`.
pub open spec fn all_digits(d: Seq<char>, radix: nat) -> bool {
    forall|i: int| 0 <= i < d.len() ==> #[trigger] is_digit(d[i], radix)
}

/// The value of the numeral `d` in base `radix`, most significant digit first.
pub open spec fn numeral_value(d: Seq<char>, radix: nat) -> nat
    decreases d.len(),
{
    if d.len() == 0 {
        0
    } else {
        numeral_value(d.drop_last(), radix) * radix + hex_digit_value(d.last())
    }
}

/// What `from_str_radix(s, radix)` (and, for base 10, `str::parse`) gives
/// for an unsigned integer type whose largest value is `max`: an optional
/// `+`, then at least one digit, and a value that fits.
pub open spec fn unsigned_parse(s: Seq<char>, radix: nat, max: nat) -> Option<nat> {
    let d = if s.len() > 0 && s[0] == '+' { s.drop_first() } else { s };
    if d.len() == 0 || !all_digits(d, radix) || numeral_value(d, radix) > max {
        None
    } else {
        Some(numeral_value(d, radix))
    }
}

/// `from_str_radix(s, 16)` for an unsigned type whose largest value is `max`.
pub open spec fn radix16(s: Seq<char>, max: nat) -> Option<nat> {
    unsigned_parse(s, 16, max)
}

/// A numeral only grows as digits are appended.
pub proof fn lemma_numeral_value_prefix(d: Seq<char>, radix: nat, k: int)
    requires
        0 <= k <= d.len(),
        radix >= 1,
    ensures
        numeral_value(d.take(k), radix) <= numeral_value(d, radix),
    decreases d.len() - k,
{
    if k < d.len() {
        lemma_numeral_value_prefix(d, radix, k + 1);
        assert(d.take(k + 1).drop_last() == d.take(k));
        let v = numeral_value(d.take(k), radix);
        assert(v * radix >= v) by (nonlinear_arith)
            requires radix >= 1;
    } else {
        assert(d.take(k) == d);
    }
}

/// The value of the hexadecimal digit `c`.
pub fn hex_digit(c: char) -> (r: Option<u32>)
    ensures
        r is Some <==> is_hex_digit(c),
        r matches Some(v) ==> v == hex_digit_value(c) && v < 16,
{
    if '0' <= c && c <= '9' {
        Some(c as u32 - '0' as u32)
    } else if 'a' <= c && c <= 'f' {
        Some(c as u32 - 'a' as u32 + 10)
    } else if 'A' <= c && c <= 'F' {
        Some(c as u32 - 'A' as u32 + 10)
    } else {
        None
    }
}

/// Reads the characters `s[lo..hi]` as `from_str_radix(.., radix)` does for
/// an unsigned type whose largest value is `max`.
pub fn parse_unsigned(s: &Vec<char>, lo: usize, hi: usize, radix: u32, max: usize) -> (r: Option<usize>)
    requires
        lo <= hi <= s.len(),
        radix == 10 || radix == 16,
    ensures
        r matches Some(v) ==> unsigned_parse(s@.subrange(lo as int, hi as int), radix as nat, max as nat) == Some(v as nat),
        r is None ==> unsigned_parse(s@.subrange(lo as int, hi as int), radix as nat, max as nat) is None,
{
    let ghost t = s@.subrange(lo as int, hi as int);
    let start = if lo < hi && s[lo] == '+' { lo + 1 } else { lo };
    let ghost d = s@.subrange(start as int, hi as int);
    assert(d == (if t.len() > 0 && t[0] == '+' { t.drop_first() } else { t }));
    if start == hi {
        return None;
    }
    let mut acc: usize = 0;
    let mut i: usize = start;
    assert(d.take(0) == Seq::<char>::empty());
    while i < hi
        invariant
            lo <= start <= i <= hi <= s.len(),
            radix == 10 || radix == 16,
            d == s@.subrange(start as int, hi as int),
            t == s@.subrange(lo as int, hi as int),
            d == (if t.len() > 0 && t[0] == '+' { t.drop_first() } else { t }),
            acc as nat == numeral_value(d.take(i - start), radix as nat),
            acc <= max,
            all_digits(d.take(i - start), radix as nat),
        decreases hi - i,
    {
        let ghost k = i - start;
        assert(d.take(k + 1).drop_last() == d.take(k));
        assert(d.take(k + 1).last() == s@[i as int]);
        assert(d[k] == s@[i as int]);
        let digit = match hex_digit(s[i]) {
            Some(v) => if v < radix { Some(v) } else { None },
            None => None,
        };
        match digit {
            None => {
                assert(!is_digit(d[k], radix as nat));
                return None;
            },
            Some(v) => {
                let r = radix as usize;
                if v as usize > max || acc > (max - v as usize) / r {
                    proof {
                        lemma_numeral_value_prefix(d, radix as nat, k + 1);
                        assert(numeral_value(d.take(k + 1), radix as nat) == acc * radix + v);
                        if v as usize <= max {
                            let w = (max - v) as int;
                            assert(acc > w / (r as int) ==> acc * r > w) by (nonlinear_arith)
                                requires r > 0;
                        }
                    }
                    return None;
                }
                proof {
                    let w = (max - v) as int;
                    assert(acc <= w / (r as int) ==> acc * r <= w) by (nonlinear_arith)
                        requires r > 0, w >= 0;
                }
                acc = acc * r + v as usize;
                i = i + 1;
                assert forall|j: int| 0 <= j < d.take(k + 1).len() implies #[trigger] is_digit(d.take(k + 1)[j], radix as nat) by {
                    if j < k {
                        assert(d.take(k + 1)[j] == d.take(k)[j]);
                    }
                }
            },
        }
    }
    assert(d.take(hi - start) == d);
    Some(acc)
}

/// Reads the characters `s[lo..hi]` as `from_str_radix(.., 16)` does for an
/// unsigned type whose largest value is `max`.
pub fn parse_radix16(s: &Vec<char>, lo: usize, hi: usize, max: usize) -> (r: Option<usize>)
    requires
        lo <= hi <= s.len(),
    ensures
        r matches Some(v) ==> radix16(s@.subrange(lo as int, hi as int), max as nat) == Some(v as nat),
        r is None ==> radix16(s@.subrange(lo as int, hi as int), max as nat) is None,
{
    parse_unsigned(s, lo, hi, 16, max)
}

} // verus!
