//! Decimal rendering and reading of the unsigned timestamp fields.
//!
//! A record's header stores `start_time` and `duration` as plain decimal
//! digit runs.  [`dec_digits`] is the canonical rendering of a number (no
//! sign, no leading zeros except for zero itself) and [`dec_val`] the value
//! of a digit run; rendering then reading gives the number back.

use vstd::prelude::*;

verus! {

/// Whether `b` is an ASCII decimal digit.
pub open spec fn is_digit_byte(b: u8) -> bool {
    48 <= b && b <= 57
}

/// The decimal digits of `n`, most significant first.
pub open spec fn dec_digits(n: nat) -> Seq<u8>
    decreases n,
{
    if n < 10 {
        seq![(48 + n) as u8]
    } else {
        dec_digits(n / 10).push((48 + n % 10) as u8)
    }
}

/// The value of a run of decimal digits; the empty run counts as zero.
pub open spec fn dec_val(s: Seq<u8>) -> nat
    recommends
        forall|i: int| 0 <= i < s.len() ==> is_digit_byte(s[i]),
    decreases s.len(),
{
    if s.len() == 0 {
        0
    } else {
        (dec_val(s.drop_last()) * 10 + (s.last() - 48)) as nat
    }
}

/// The rendering of a number is a non-empty run of digits.
pub proof fn lemma_dec_digits_are_digits(n: nat)
    ensures
        dec_digits(n).len() >= 1,
        forall|i: int| 0 <= i < dec_digits(n).len() ==> is_digit_byte(#[trigger] dec_digits(n)[i]),
    decreases n,
{
    if n < 10 {
    } else {
        lemma_dec_digits_are_digits(n / 10);
    }
}

/// Reading back the rendering of a number gives the number.
pub proof fn lemma_dec_val_dec_digits(n: nat)
    ensures
        dec_val(dec_digits(n)) == n,
    decreases n,
{
    if n < 10 {
        assert((48 + n) as u8 == 48 + n);
        assert(dec_digits(n) == seq![(48 + n) as u8]);
        assert(dec_digits(n).drop_last() =~= Seq::<u8>::empty());
        assert(dec_val(dec_digits(n).drop_last()) == 0);
        assert(dec_val(dec_digits(n)) == (0 * 10 + ((48 + n) - 48)) as nat);
    } else {
        lemma_dec_val_dec_digits(n / 10);
        let s = dec_digits(n);
        assert((48 + n % 10) as u8 == 48 + n % 10);
        assert(s.drop_last() =~= dec_digits(n / 10));
        assert(s.last() == (48 + n % 10) as u8);
        vstd::arithmetic::div_mod::lemma_fundamental_div_mod(n as int, 10);
        assert(dec_val(s) == ((n / 10) * 10 + n % 10) as nat);
    }
}

/// Index of the first byte at or after `i` that is not a decimal digit, or
/// `s.len()` when the digits run to the end.
pub open spec fn digits_end(s: Seq<u8>, i: int) -> int
    decreases s.len() - i,
{
    if i < 0 || i >= s.len() {
        i
    } else if !is_digit_byte(s[i]) {
        i
    } else {
        digits_end(s, i + 1)
    }
}

/// Everything before [`digits_end`] is a digit, and the byte there is not.
pub proof fn lemma_digits_end(s: Seq<u8>, i: int)
    requires
        0 <= i <= s.len(),
    ensures
        i <= digits_end(s, i) <= s.len(),
        forall|j: int| i <= j < digits_end(s, i) ==> is_digit_byte(#[trigger] s[j]),
        digits_end(s, i) < s.len() ==> !is_digit_byte(s[digits_end(s, i)]),
    decreases s.len() - i,
{
    if i < s.len() && is_digit_byte(s[i]) {
        lemma_digits_end(s, i + 1);
    }
}

/// A digit run that stops at `e` pins [`digits_end`] to `e`.
pub proof fn lemma_digits_end_is(s: Seq<u8>, i: int, e: int)
    requires
        0 <= i <= e <= s.len(),
        forall|j: int| i <= j < e ==> is_digit_byte(#[trigger] s[j]),
        e < s.len() ==> !is_digit_byte(s[e]),
    ensures
        digits_end(s, i) == e,
    decreases e - i,
{
    if i < e {
        lemma_digits_end_is(s, i + 1, e);
    }
}

/// Read the decimal number that begins at `i`: the digit run must be
/// non-empty and its value must fit in a `u64`, else `None`.  On success the
/// value and the index just past the run are returned.
pub fn scan_number(s: &[u8], i: usize) -> (r: Option<(u64, usize)>)
    requires
        i <= s@.len(),
    ensures
        ({
            let e = digits_end(s@, i as int);
            let v = dec_val(s@.subrange(i as int, e));
            &&& (r is Some <==> i < e && v <= u64::MAX)
            &&& (r is Some ==> (r->0).0 == v && (r->0).1 == e)
        }),
{
    let n = s.len();
    let mut j: usize = i;
    let mut acc: u64 = 0;
    let mut over = false;
    proof {
        assert(s@.subrange(i as int, i as int) =~= Seq::<u8>::empty());
    }
    while j < n
        invariant
            i <= j <= n,
            n == s@.len(),
            digits_end(s@, i as int) == digits_end(s@, j as int),
            !over ==> acc == dec_val(s@.subrange(i as int, j as int)),
            over ==> dec_val(s@.subrange(i as int, j as int)) > u64::MAX,
        ensures
            i <= j <= n,
            j == digits_end(s@, i as int),
            !over ==> acc == dec_val(s@.subrange(i as int, j as int)),
            over ==> dec_val(s@.subrange(i as int, j as int)) > u64::MAX,
        decreases n - j,
    {
        let c = s[j];
        if c < 48 || c > 57 {
            proof {
                assert(digits_end(s@, j as int) == j);
            }
            break ;
        }
        let d = c - 48;
        proof {
            assert(s@.subrange(i as int, j + 1) =~= s@.subrange(i as int, j as int).push(s@[j as int]));
            assert(s@.subrange(i as int, j + 1).drop_last() =~= s@.subrange(i as int, j as int));
            vstd::arithmetic::div_mod::lemma_fundamental_div_mod(u64::MAX - d, 10);
        }
        if over || acc > (u64::MAX - d as u64) / 10 {
            proof {
                let prev = dec_val(s@.subrange(i as int, j as int));
                let next = dec_val(s@.subrange(i as int, j + 1));
                assert(next == prev * 10 + d);
                if over {
                    assert(prev * 10 >= prev) by (nonlinear_arith)
                        requires prev >= 0,
                    ;
                } else {
                    let q = ((u64::MAX - d) / 10) as int;
                    assert(prev > q);
                    assert(prev * 10 >= (q + 1) * 10) by (nonlinear_arith)
                        requires prev >= q + 1,
                    ;
                }
            }
            over = true;
        } else {
            proof {
                let q = ((u64::MAX - d) / 10) as int;
                assert(acc * 10 <= q * 10) by (nonlinear_arith)
                    requires acc <= q,
                ;
            }
            acc = acc * 10 + (d as u64);
        }
        j += 1;
    }
    if j == i {
        return None;
    }
    if over {
        return None;
    }
    Some((acc, j))
}

/// Append the decimal rendering of `n` to `buf`.
pub fn push_dec(buf: &mut Vec<u8>, n: u64)
    ensures
        final(buf)@ == old(buf)@ + dec_digits(n as nat),
    decreases n,
{
    if n < 10 {
        buf.push(48 + n as u8);
        proof {
            assert(old(buf)@.push((48 + n as nat) as u8) =~= old(buf)@ + dec_digits(n as nat));
        }
    } else {
        push_dec(buf, n / 10);
        buf.push(48 + (n % 10) as u8);
        proof {
            assert((old(buf)@ + dec_digits(n as nat / 10)).push((48 + n as nat % 10) as u8)
                =~= old(buf)@ + dec_digits(n as nat));
        }
    }
}

} // verus!
