//! Signed decimal integers: reading a token and writing a number.
use vstd::prelude::*;

verus! {

pub open spec fn is_digit(b: u8) -> bool {
    48 <= b <= 57
}

pub open spec fn all_digits(t: Seq<u8>) -> bool {
    forall|i: int| 0 <= i < t.len() ==> is_digit(#[trigger] t[i])
}

/// The value of a string of decimal digits.
pub open spec fn digits_value(t: Seq<u8>) -> int
    decreases t.len(),
{
    if t.len() == 0 {
        0
    } else {
        10 * digits_value(t.drop_last()) + (t.last() - 48)
    }
}

/// The integer that a token spells: an optional `+` or `-`, then one or more digits.
pub open spec fn token_int(t: Seq<u8>) -> Option<int> {
    if t.len() > 0 && (t[0] == 45u8 || t[0] == 43u8) {
        let d = t.subrange(1, t.len() as int);
        if d.len() > 0 && all_digits(d) {
            Some(if t[0] == 45u8 { -digits_value(d) } else { digits_value(d) })
        } else {
            None
        }
    } else if t.len() > 0 && all_digits(t) {
        Some(digits_value(t))
    } else {
        None
    }
}

/// The `i32` that a token spells, if it spells one in range.
pub open spec fn token_i32(t: Seq<u8>) -> Option<i32> {
    match token_int(t) {
        Some(v) => if i32::MIN <= v <= i32::MAX { Some(v as i32) } else { None },
        None => None,
    }
}

/// The decimal digits of a natural number, without leading zeros.
pub open spec fn nat_text(n: nat) -> Seq<u8>
    decreases n,
{
    if n < 10 {
        seq![(48 + n) as u8]
    } else {
        nat_text(n / 10) + seq![(48 + n % 10) as u8]
    }
}

/// The decimal text of an integer, with a `-` before a negative one.
pub open spec fn int_text(n: int) -> Seq<u8> {
    if n < 0 {
        seq![45u8] + nat_text((-n) as nat)
    } else {
        nat_text(n as nat)
    }
}

proof fn lemma_digits_value_nonneg(t: Seq<u8>)
    requires
        all_digits(t),
    ensures
        digits_value(t) >= 0,
    decreases t.len(),
{
    if t.len() > 0 {
        lemma_digits_value_nonneg(t.drop_last());
    }
}

/// Reads the value of a string of digits; `None` when it is empty, holds another
/// byte, or exceeds 2^31.
fn digits_upto_2_31(t: &Vec<u8>, start: usize) -> (r: Option<i64>)
    requires
        start <= t@.len(),
    ensures
        ({
            let d = t@.subrange(start as int, t@.len() as int);
            match r {
                Some(v) => d.len() > 0 && all_digits(d) && v == digits_value(d) && 0 <= v <= 2147483648,
                None => !(d.len() > 0 && all_digits(d) && digits_value(d) <= 2147483648),
            }
        }),
{
    if start == t.len() {
        return None;
    }
    let mut acc: i64 = 0;
    let mut over = false;
    let mut k: usize = start;
    while k < t.len()
        invariant
            start <= k <= t@.len(),
            all_digits(t@.subrange(start as int, k as int)),
            !over ==> acc == digits_value(t@.subrange(start as int, k as int)) && 0 <= acc <= 2147483648,
            over ==> digits_value(t@.subrange(start as int, k as int)) > 2147483648,
        decreases t@.len() - k,
    {
        let b = t[k];
        if b < 48 || b > 57 {
            proof {
                let d = t@.subrange(start as int, t@.len() as int);
                assert(d[k - start] == b);
            }
            return None;
        }
        proof {
            let p = t@.subrange(start as int, k as int);
            let p1 = t@.subrange(start as int, k as int + 1);
            assert(p1.drop_last() == p);
            assert(p1.last() == b);
            assert(all_digits(p1)) by {
                assert forall|i: int| 0 <= i < p1.len() implies is_digit(#[trigger] p1[i]) by {
                    if i < p.len() {
                        assert(p1[i] == p[i]);
                    }
                }
            }
            lemma_digits_value_nonneg(p);
        }
        if !over {
            acc = acc * 10 + (b - 48) as i64;
            if acc > 2147483648 {
                over = true;
            }
        }
        k += 1;
    }
    assert(t@.subrange(start as int, k as int) == t@.subrange(start as int, t@.len() as int));
    if over {
        None
    } else {
        Some(acc)
    }
}

/// Reads a token as a signed decimal `i32`; `None` when it is not one.
pub fn parse_i32(t: &Vec<u8>) -> (r: Option<i32>)
    ensures
        r == token_i32(t@),
{
    if t.len() == 0 {
        return None;
    }
    let signed = t[0] == 45u8 || t[0] == 43u8;
    let start: usize = if signed { 1 } else { 0 };
    assert(t@.subrange(0, t@.len() as int) == t@);
    match digits_upto_2_31(t, start) {
        Some(v) => {
            if t[0] == 45u8 {
                Some((-v) as i32)
            } else if v <= 2147483647 {
                Some(v as i32)
            } else {
                None
            }
        },
        None => None,
    }
}

/// Appends the decimal text of `n`.
fn push_nat(out: &mut Vec<u8>, n: u32)
    ensures
        final(out)@ == old(out)@ + nat_text(n as nat),
    decreases n,
{
    if n >= 10 {
        push_nat(out, n / 10);
    }
    out.push((48 + n % 10) as u8);
    assert(n < 10 ==> n % 10 == n);
}

/// Appends the decimal text of `n`, with a `-` before a negative number.
pub fn push_int(out: &mut Vec<u8>, n: i32)
    ensures
        final(out)@ == old(out)@ + int_text(n as int),
{
    if n < 0 {
        out.push(45u8);
        let m: u32 = (-(n as i64)) as u32;
        push_nat(out, m);
        assert(old(out)@.push(45u8) + nat_text(m as nat) == old(out)@ + (seq![45u8] + nat_text(m as nat)));
    } else {
        push_nat(out, n as u32);
    }
}

} // verus!
