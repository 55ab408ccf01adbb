//! Hexadecimal point lines: what one means, and decoding and encoding one.
//!
//! Decoding accepts upper-case, lower-case and mixed digits; encoding writes
//! lower case. A line is valid only at exactly twice the expected byte length.

use vstd::prelude::*;

verus! {

/// `b` is an ASCII hexadecimal digit, of either case.
pub open spec fn is_hex_digit(b: u8) -> bool {
    (48 <= b <= 57) || (97 <= b <= 102) || (65 <= b <= 70)
}

/// The value of one hexadecimal digit.
pub open spec fn hex_digit_val(b: u8) -> int {
    if 48 <= b <= 57 {
        b - 48
    } else if 97 <= b <= 102 {
        b - 87
    } else {
        b - 55
    }
}

/// The lower-case digit byte for a value below sixteen.
pub open spec fn hex_digit_byte(v: int) -> u8 {
    if v < 10 {
        (48 + v) as u8
    } else {
        (87 + v) as u8
    }
}

/// `s` is a valid hexadecimal encoding of exactly `n` bytes.
pub open spec fn is_hex_text(s: Seq<u8>, n: nat) -> bool {
    s.len() == 2 * n && forall|i: int| 0 <= i < s.len() ==> is_hex_digit(#[trigger] s[i])
}

/// The bytes a hexadecimal string stands for: two digits each, high first.
pub open spec fn hex_bytes(s: Seq<u8>) -> Seq<u8> {
    Seq::new(s.len() / 2, |i: int| (hex_digit_val(s[2 * i]) * 16 + hex_digit_val(s[2 * i + 1])) as u8)
}

/// The lower-case hexadecimal encoding of a byte string.
pub open spec fn hex_encode(b: Seq<u8>) -> Seq<u8> {
    Seq::new(
        2 * b.len(),
        |i: int|
            if i % 2 == 0 {
                hex_digit_byte(b[i / 2] as int / 16)
            } else {
                hex_digit_byte(b[i / 2] as int % 16)
            },
    )
}

/// An encoded byte string is a valid hexadecimal line for its length.
pub proof fn lemma_hex_encode_valid(b: Seq<u8>)
    ensures
        is_hex_text(hex_encode(b), b.len()),
        forall|i: int|
            0 <= i < hex_encode(b).len() ==> is_hex_digit(#[trigger] hex_encode(b)[i])
                && hex_encode(b)[i] != crate::text::LINE_FEED,
{
    assert forall|i: int| 0 <= i < hex_encode(b).len() implies is_hex_digit(
        #[trigger] hex_encode(b)[i],
    ) && hex_encode(b)[i] != crate::text::LINE_FEED by {
        let v = if i % 2 == 0 {
            b[i / 2] as int / 16
        } else {
            b[i / 2] as int % 16
        };
        assert(0 <= v < 16);
    }
}

/// Decoding inverts encoding.
pub proof fn lemma_hex_bytes_of_encode(b: Seq<u8>)
    ensures
        hex_bytes(hex_encode(b)) == b,
{
    let e = hex_encode(b);
    assert forall|i: int| 0 <= i < b.len() implies hex_bytes(e)[i] == b[i] by {
        assert(e[2 * i] == hex_digit_byte(b[i] as int / 16));
        assert(e[2 * i + 1] == hex_digit_byte(b[i] as int % 16));
        assert(hex_digit_val(hex_digit_byte(b[i] as int / 16)) == b[i] as int / 16);
        assert(hex_digit_val(hex_digit_byte(b[i] as int % 16)) == b[i] as int % 16);
        assert(b[i] as int / 16 * 16 + b[i] as int % 16 == b[i]);
    }
    assert(hex_bytes(e) =~= b);
}

/// The value of one hexadecimal digit byte; `None` exactly on a non-digit.
fn hex_digit_value(b: u8) -> (r: Option<u8>)
    ensures
        match r {
            Some(v) => is_hex_digit(b) && v == hex_digit_val(b),
            None => !is_hex_digit(b),
        },
{
    if 48 <= b && b <= 57 {
        Some(b - 48)
    } else if 97 <= b && b <= 102 {
        Some(b - 87)
    } else if 65 <= b && b <= 70 {
        Some(b - 55)
    } else {
        None
    }
}

/// Decodes a hexadecimal line into exactly `out_len` bytes; `None` exactly
/// when the line has the wrong length or a byte that is no hexadecimal digit.
pub fn decode_hex_text(s: &Vec<u8>, out_len: usize) -> (r: Option<Vec<u8>>)
    requires
        out_len <= 96,
    ensures
        match r {
            Some(v) => is_hex_text(s@, out_len as nat) && v@ == hex_bytes(s@) && v@.len()
                == out_len,
            None => !is_hex_text(s@, out_len as nat),
        },
{
    if s.len() != 2 * out_len {
        return None;
    }
    let mut out: Vec<u8> = Vec::new();
    let mut i: usize = 0;
    while i < out_len
        invariant
            i <= out_len <= 96,
            s@.len() == 2 * out_len,
            out@.len() == i,
            forall|j: int| 0 <= j < 2 * i ==> is_hex_digit(#[trigger] s@[j]),
            forall|j: int|
                0 <= j < i ==> out@[j] == (hex_digit_val(s@[2 * j]) * 16 + hex_digit_val(
                    s@[2 * j + 1],
                )) as u8,
        decreases out_len - i,
    {
        let hi = match hex_digit_value(s[2 * i]) {
            Some(v) => v,
            None => {
                return None;
            },
        };
        let lo = match hex_digit_value(s[2 * i + 1]) {
            Some(v) => v,
            None => {
                return None;
            },
        };
        out.push(hi * 16 + lo);
        i = i + 1;
    }
    proof {
        assert(out@ =~= hex_bytes(s@));
    }
    Some(out)
}

/// Encodes a byte row as its lower-case hexadecimal line.
pub fn encode_hex_text(b: &Vec<u8>) -> (r: Vec<u8>)
    requires
        b@.len() <= 96,
    ensures
        r@ == hex_encode(b@),
{
    let n = b.len();
    let mut r: Vec<u8> = Vec::new();
    let mut i: usize = 0;
    while i < n
        invariant
            i <= n,
            n == b@.len() <= 96,
            r@.len() == 2 * i,
            forall|j: int| 0 <= j < 2 * i ==> r@[j] == hex_encode(b@)[j],
        decreases n - i,
    {
        let x = b[i];
        let hi = x / 16;
        let lo = x % 16;
        let hb = if hi < 10 {
            48 + hi
        } else {
            87 + hi
        };
        let lb = if lo < 10 {
            48 + lo
        } else {
            87 + lo
        };
        proof {
            assert(hb == hex_digit_byte(b@[i as int] as int / 16));
            assert(lb == hex_digit_byte(b@[i as int] as int % 16));
        }
        r.push(hb);
        r.push(lb);
        i = i + 1;
    }
    proof {
        assert(r@ =~= hex_encode(b@));
    }
    r
}

} // verus!
