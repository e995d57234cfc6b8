//! The 62-symbol alphabet `[0-9A-Za-z]` and fixed-width numerals over it.

use vstd::prelude::*;

verus! {

/// The value of an alphabet byte.
pub open spec fn spec_digit(c: u8) -> Option<u8> {
    if 48 <= c <= 57 {
        Some((c - 48) as u8)
    } else if 65 <= c <= 90 {
        Some((c - 55) as u8)
    } else if 97 <= c <= 122 {
        Some((c - 61) as u8)
    } else {
        None
    }
}

/// The alphabet byte of a digit below 62.
pub open spec fn spec_char(d: nat) -> u8 {
    if d < 10 {
        (d + 48) as u8
    } else if d < 36 {
        (d + 55) as u8
    } else {
        (d + 61) as u8
    }
}

pub open spec fn all_digits(s: Seq<u8>) -> bool {
    forall|i: int| 0 <= i < s.len() ==> #[trigger] spec_digit(s[i]) is Some
}

/// `62^n`.
pub open spec fn pow62(n: nat) -> nat
    decreases n,
{
    if n == 0 {
        1
    } else {
        62 * pow62((n - 1) as nat)
    }
}

pub proof fn lemma_pow62_six()
    ensures
        pow62(6) == 56800235584,
        pow62(5) == 916132832,
        pow62(3) == 238328,
        pow62(2) == 3844,
{
    assert(pow62(0) == 1);
    assert(pow62(1) == 62);
    assert(pow62(2) == 3844);
    assert(pow62(3) == 238328);
    assert(pow62(4) == 14776336);
    assert(pow62(5) == 916132832);
}

pub proof fn lemma_pow62_positive(a: nat)
    ensures
        1 <= pow62(a),
    decreases a,
{
    if a > 0 {
        lemma_pow62_positive((a - 1) as nat);
    }
}

pub proof fn lemma_pow62_monotone(a: nat, b: nat)
    requires
        a <= b,
    ensures
        1 <= pow62(a) <= pow62(b),
    decreases b,
{
    lemma_pow62_positive(a);
    if a < b {
        lemma_pow62_monotone(a, (b - 1) as nat);
    }
}

/// The number that the digits of `s` write, most significant first.
pub open spec fn digits_value(s: Seq<u8>) -> nat
    decreases s.len(),
{
    if s.len() == 0 {
        0
    } else {
        digits_value(s.drop_last()) * 62 + match spec_digit(s.last()) {
            Some(d) => d as nat,
            None => 0,
        }
    }
}

/// `v` written with exactly `w` digits, most significant first.
pub open spec fn fixed_digits(v: nat, w: nat) -> Seq<u8>
    decreases w,
{
    if w == 0 {
        Seq::empty()
    } else {
        fixed_digits(v / 62, (w - 1) as nat).push(spec_char(v % 62))
    }
}

pub proof fn lemma_char_digit(d: nat)
    requires
        d < 62,
    ensures
        spec_digit(spec_char(d)) == Some(d as u8),
{
}

pub proof fn lemma_digit_char(c: u8)
    requires
        spec_digit(c) is Some,
    ensures
        spec_char(spec_digit(c)->Some_0 as nat) == c,
        spec_digit(c)->Some_0 < 62,
{
}

/// A numeral read back and written again at its own width is itself.
pub proof fn lemma_fixed_digits_value(s: Seq<u8>)
    requires
        all_digits(s),
    ensures
        fixed_digits(digits_value(s), s.len()) == s,
        digits_value(s) < pow62(s.len()),
    decreases s.len(),
{
    if s.len() > 0 {
        let p = s.drop_last();
        assert(all_digits(p)) by {
            assert forall|i: int| 0 <= i < p.len() implies #[trigger] spec_digit(p[i]) is Some by {
                assert(spec_digit(s[i]) is Some);
            }
        }
        lemma_fixed_digits_value(p);
        assert(spec_digit(s[s.len() - 1]) is Some);
        lemma_digit_char(s.last());
        let d = spec_digit(s.last())->Some_0 as nat;
        let v = digits_value(p) * 62 + d;
        assert(v / 62 == digits_value(p) && v % 62 == d) by (nonlinear_arith)
            requires v == digits_value(p) * 62 + d, d < 62;
        let pw = pow62(p.len());
        assert(v < pw * 62) by (nonlinear_arith)
            requires v == digits_value(p) * 62 + d, d < 62, digits_value(p) < pw;
        assert(fixed_digits(v, s.len()) =~= s);
    }
}

/// The value of an alphabet byte, if it is one.
pub fn digit_value(c: u8) -> (r: Option<u8>)
    ensures
        r == spec_digit(c),
{
    if 48 <= c && c <= 57 {
        Some(c - 48)
    } else if 65 <= c && c <= 90 {
        Some(c - 55)
    } else if 97 <= c && c <= 122 {
        Some(c - 61)
    } else {
        None
    }
}

/// The alphabet byte of a digit.
pub fn digit_char(d: u8) -> (r: u8)
    requires
        d < 62,
    ensures
        r == spec_char(d as nat),
{
    if d < 10 {
        d + 48
    } else if d < 36 {
        d + 55
    } else {
        d + 61
    }
}

/// The number written by `s[start .. start + width]`, if all are digits.
pub fn read_number(s: &[u8], start: usize, width: usize) -> (r: Option<u64>)
    requires
        start + width <= s@.len(),
        start + width <= usize::MAX,
        width <= 6,
    ensures
        r is Some == all_digits(s@.subrange(start as int, start + width)),
        r matches Some(v) ==> v == digits_value(s@.subrange(start as int, start + width)),
{
    let mut v: u64 = 0;
    let mut i: usize = 0;
    while i < width
        invariant
            start + width <= s@.len(),
            start + width <= usize::MAX,
            width <= 6,
            i <= width,
            all_digits(s@.subrange(start as int, start + i)),
            v == digits_value(s@.subrange(start as int, start + i)),
            v < pow62(i as nat),
        decreases width - i,
    {
        let ghost prev = s@.subrange(start as int, start + i);
        let ghost next = s@.subrange(start as int, start + i + 1);
        assert(next.drop_last() =~= prev);
        match digit_value(s[start + i]) {
            None => {
                assert(!all_digits(s@.subrange(start as int, start + width))) by {
                    assert(s@.subrange(start as int, start + width)[i as int] == s@[start + i]);
                }
                return None;
            },
            Some(d) => {
                proof {
                    lemma_pow62_monotone((i + 1) as nat, 6);
                    lemma_pow62_six();
                    assert forall|j: int| 0 <= j < next.len() implies #[trigger] spec_digit(next[j]) is Some by {
                        if j < i { assert(next[j] == prev[j]); }
                    }
                }
                let pw = Ghost(pow62(i as nat));
                assert(v * 62 + d < pw@ * 62) by (nonlinear_arith)
                    requires v < pw@, d < 62;
                v = v * 62 + d as u64;
            },
        }
        i = i + 1;
    }
    Some(v)
}

/// Appends `v` written with exactly `width` digits.
pub fn write_number(v: u64, width: usize, out: &mut Vec<u8>)
    requires
        width <= 6,
    ensures
        final(out)@ == old(out)@ + fixed_digits(v as nat, width as nat),
    decreases width,
{
    if width > 0 {
        write_number(v / 62, width - 1, out);
        out.push(digit_char((v % 62) as u8));
    }
}

} // verus!
