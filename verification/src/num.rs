//! Decimal numbers as byte text: what a count line means, and reading and
//! writing one.
//!
//! A count line is accepted exactly when the standard library would accept it
//! as a `usize`: an optional leading `+`, then at least one ASCII digit, and
//! a value no greater than `usize::MAX`.

use vstd::prelude::*;

verus! {

/// The byte of the ASCII digit zero.
pub const DIGIT_ZERO: u8 = 48;

/// The byte of the ASCII plus sign.
pub const PLUS_SIGN: u8 = 43;

/// `b` is an ASCII decimal digit.
pub open spec fn is_dec_digit(b: u8) -> bool {
    DIGIT_ZERO <= b <= DIGIT_ZERO + 9
}

/// Every byte of `s` is an ASCII decimal digit.
pub open spec fn all_dec_digits(s: Seq<u8>) -> bool {
    forall|i: int| 0 <= i < s.len() ==> is_dec_digit(#[trigger] s[i])
}

/// The value of a string of decimal digits, most significant first.
pub open spec fn dec_val(s: Seq<u8>) -> int
    decreases s.len(),
{
    if s.len() == 0 {
        0
    } else {
        dec_val(s.drop_last()) * 10 + (s.last() - DIGIT_ZERO)
    }
}

/// `s` without an optional single leading plus sign.
pub open spec fn dec_body(s: Seq<u8>) -> Seq<u8> {
    if s.len() > 0 && s[0] == PLUS_SIGN {
        s.drop_first()
    } else {
        s
    }
}

/// `s` is a decimal count line that fits in a `usize`.
pub open spec fn is_usize_text(s: Seq<u8>) -> bool {
    let b = dec_body(s);
    b.len() > 0 && all_dec_digits(b) && dec_val(b) <= usize::MAX
}

/// The value of a decimal count line.
pub open spec fn usize_text_val(s: Seq<u8>) -> int {
    dec_val(dec_body(s))
}

/// The value of a digit string is never negative.
pub proof fn lemma_dec_val_nonneg(s: Seq<u8>)
    requires
        all_dec_digits(s),
    ensures
        dec_val(s) >= 0,
    decreases s.len(),
{
    if s.len() > 0 {
        assert(all_dec_digits(s.drop_last()));
        lemma_dec_val_nonneg(s.drop_last());
    }
}

/// Appending a digit multiplies the value by ten and adds the digit.
pub proof fn lemma_dec_val_push(s: Seq<u8>, d: u8)
    ensures
        dec_val(s.push(d)) == dec_val(s) * 10 + (d - DIGIT_ZERO),
{
    assert(s.push(d).drop_last() =~= s);
    assert(s.push(d).last() == d);
}

/// The value of a digit string bounds the value of each of its prefixes.
pub proof fn lemma_dec_val_prefix_le(s: Seq<u8>, k: int)
    requires
        all_dec_digits(s),
        0 <= k <= s.len(),
    ensures
        dec_val(s.take(k)) <= dec_val(s),
    decreases s.len() - k,
{
    if k < s.len() {
        lemma_dec_val_prefix_le(s, k + 1);
        lemma_dec_val_nonneg(s.take(k));
        assert(s.take(k + 1).drop_last() =~= s.take(k));
        assert(dec_val(s.take(k + 1)) == dec_val(s.take(k)) * 10 + (s[k] - DIGIT_ZERO));
    } else {
        assert(s.take(k) =~= s);
    }
}

/// The decimal digit string of a non-negative number, without sign or
/// leading zeros.
pub open spec fn dec_text(n: int) -> Seq<u8>
    decreases n,
{
    if n < 10 {
        seq![(DIGIT_ZERO + n) as u8]
    } else {
        dec_text(n / 10).push((DIGIT_ZERO + n % 10) as u8)
    }
}

/// A written number is all digits, and at least one.
pub proof fn lemma_dec_text_digits(n: int)
    requires
        n >= 0,
    ensures
        dec_text(n).len() >= 1,
        all_dec_digits(dec_text(n)),
    decreases n,
{
    if n < 10 {
        assert(is_dec_digit(dec_text(n)[0]));
    } else {
        lemma_dec_text_digits(n / 10);
        let s = dec_text(n / 10);
        let d = (DIGIT_ZERO + n % 10) as u8;
        assert(is_dec_digit(d));
        assert forall|i: int| 0 <= i < s.push(d).len() implies is_dec_digit(
            #[trigger] s.push(d)[i],
        ) by {
            if i < s.len() {
                assert(s.push(d)[i] == s[i]);
            }
        }
    }
}

/// Reading back a written number gives the number.
pub proof fn lemma_dec_text_val(n: int)
    requires
        n >= 0,
    ensures
        dec_val(dec_text(n)) == n,
    decreases n,
{
    if n < 10 {
        let d = (DIGIT_ZERO + n) as u8;
        assert(dec_text(n) == seq![d]);
        assert(seq![d].drop_last() =~= Seq::<u8>::empty());
        assert(dec_val(Seq::<u8>::empty()) == 0);
        assert(seq![d].last() == d);
        assert(dec_val(dec_text(n)) == d - DIGIT_ZERO);
    } else {
        lemma_dec_text_val(n / 10);
        lemma_dec_val_push(dec_text(n / 10), (DIGIT_ZERO + n % 10) as u8);
    }
}

/// Writes a number as its decimal digit string.
pub fn encode_usize_text(n: usize) -> (r: Vec<u8>)
    ensures
        r@ == dec_text(n as int),
    decreases n,
{
    if n < 10 {
        let mut r: Vec<u8> = Vec::new();
        r.push(DIGIT_ZERO + (n as u8));
        proof {
            assert(r@ =~= dec_text(n as int));
        }
        r
    } else {
        let mut r = encode_usize_text(n / 10);
        r.push(DIGIT_ZERO + ((n % 10) as u8));
        proof {
            assert(r@ =~= dec_text(n as int));
        }
        r
    }
}

/// Reads a digit string left to right, accumulating its value; `None` exactly
/// when a byte is not a digit or the value does not fit in a `usize`.
fn parse_digits(s: &Vec<u8>, start: usize) -> (r: Option<usize>)
    requires
        start <= s@.len(),
    ensures
        match r {
            Some(v) => all_dec_digits(s@.skip(start as int)) && v == dec_val(
                s@.skip(start as int),
            ),
            None => !(all_dec_digits(s@.skip(start as int)) && dec_val(s@.skip(start as int))
                <= usize::MAX),
        },
{
    let ghost digits = s@.skip(start as int);
    let n = s.len();
    let mut acc: usize = 0;
    let mut i: usize = start;
    proof {
        assert(digits.take(0) =~= Seq::<u8>::empty());
    }
    while i < n
        invariant
            start <= i <= n,
            n == s@.len(),
            digits == s@.skip(start as int),
            all_dec_digits(digits.take(i - start)),
            acc == dec_val(digits.take(i - start)),
        decreases n - i,
    {
        let b = s[i];
        proof {
            assert(digits[i - start] == b);
        }
        if b < DIGIT_ZERO || b > DIGIT_ZERO + 9 {
            proof {
                assert(!is_dec_digit(digits[i - start]));
            }
            return None;
        }
        let d = (b - DIGIT_ZERO) as usize;
        if acc > (usize::MAX - d) / 10 {
            proof {
                let k = i - start + 1;
                assert(digits.take(k).drop_last() =~= digits.take(k - 1));
                assert(all_dec_digits(digits.take(k)));
                assert(dec_val(digits.take(k)) == acc * 10 + d);
                assert(acc * 10 + d > usize::MAX) by (nonlinear_arith)
                    requires
                        acc > (usize::MAX - d) / 10,
                        0 <= d <= 9,
                ;
                if all_dec_digits(digits) {
                    lemma_dec_val_prefix_le(digits, k);
                }
            }
            return None;
        }
        proof {
            assert(acc * 10 + d <= usize::MAX) by (nonlinear_arith)
                requires
                    acc <= (usize::MAX - d) / 10,
                    0 <= d <= 9,
            ;
            let k = i - start + 1;
            assert(digits.take(k).drop_last() =~= digits.take(k - 1));
        }
        acc = acc * 10 + d;
        i = i + 1;
    }
    proof {
        assert(digits.take(n - start) =~= digits);
    }
    Some(acc)
}

/// Reads a whole count line; `None` exactly when the line is not a decimal
/// count that fits in a `usize`.
pub fn parse_usize_text(s: &Vec<u8>) -> (r: Option<usize>)
    ensures
        match r {
            Some(v) => is_usize_text(s@) && v == usize_text_val(s@),
            None => !is_usize_text(s@),
        },
{
    if s.len() == 0 {
        return None;
    }
    if s[0] == PLUS_SIGN {
        if s.len() == 1 {
            proof {
                assert(dec_body(s@) =~= s@.drop_first());
            }
            return None;
        }
        proof {
            assert(dec_body(s@) =~= s@.skip(1));
        }
        parse_digits(s, 1)
    } else {
        proof {
            assert(dec_body(s@) =~= s@.skip(0));
        }
        parse_digits(s, 0)
    }
}

} // verus!
