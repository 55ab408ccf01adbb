//! Loading a trusted setup from its line-oriented text form, and writing one
//! back out.
//!
//! The text holds, in order: the number of G1 points as a decimal line, the
//! number of G2 points as a decimal line (it must be 65), one line of 96 hex
//! digits per G1 point, and one line of 192 hex digits per G2 point, with
//! nothing after them. `spec_parse` is the whole meaning of that format; the
//! executable parser is proved to agree with it on every input.

use vstd::prelude::*;
use vstd::string::StringSliceAdditionalSpecFns;

use crate::hex::{decode_hex_text, hex_bytes, hex_encode, is_hex_text};
use crate::num::{
    dec_body, dec_text, encode_usize_text, is_usize_text, lemma_dec_text_digits,
    lemma_dec_text_val, parse_usize_text, usize_text_val, PLUS_SIGN,
};
use crate::points::{
    groups_wf, rows_view, zero_group, G1Points, G2Points, KzgErrors, BYTES_PER_G1_POINT,
    BYTES_PER_G2_POINT, NUM_G1_POINTS, NUM_G2_POINTS,
};
use crate::text::{split_lines, text_lines, LINE_FEED};

verus! {

/// Some line with index in `[lo, hi)` exists and is not a hex encoding of
/// exactly `size` bytes.
pub open spec fn bad_hex_line(ls: Seq<Seq<u8>>, lo: int, hi: int, size: nat) -> bool {
    exists|i: int| lo <= i < hi && i < ls.len() && !is_hex_text(#[trigger] ls[i], size)
}

/// The G1 slots a parse fills: the first `n` lines after the two counts,
/// decoded; the remaining slots all zero.
pub open spec fn g1_slots(ls: Seq<Seq<u8>>, n: int) -> Seq<Seq<u8>> {
    Seq::new(
        NUM_G1_POINTS as nat,
        |i: int|
            if i < n {
                hex_bytes(ls[2 + i])
            } else {
                zero_group(BYTES_PER_G1_POINT as nat)
            },
    )
}

/// The G2 slots a parse fills: the 65 lines after the G1 lines, decoded.
pub open spec fn g2_slots(ls: Seq<Seq<u8>>, n: int) -> Seq<Seq<u8>> {
    Seq::new(NUM_G2_POINTS as nat, |i: int| hex_bytes(ls[2 + n + i]))
}

/// What parsing the point lines yields once both counts are accepted: the
/// first invalid line in reading order decides the error, a missing or extra
/// line is a format violation, and otherwise every slot is filled as
/// `g1_slots` and `g2_slots` say.
pub open spec fn spec_parse_points(ls: Seq<Seq<u8>>, n: int) -> Result<
    (Seq<Seq<u8>>, Seq<Seq<u8>>),
    KzgErrors,
> {
    if bad_hex_line(ls, 2, 2 + n, BYTES_PER_G1_POINT as nat) {
        Err(KzgErrors::ParseError)
    } else if ls.len() < 2 + n {
        Err(KzgErrors::FileFormatError)
    } else if bad_hex_line(ls, 2 + n, 2 + n + NUM_G2_POINTS, BYTES_PER_G2_POINT as nat) {
        Err(KzgErrors::ParseError)
    } else if ls.len() != 2 + n + NUM_G2_POINTS {
        Err(KzgErrors::FileFormatError)
    } else {
        Ok((g1_slots(ls, n), g2_slots(ls, n)))
    }
}

/// The meaning of the whole text format, over the text's bytes. A missing
/// count line is a format violation; an unreadable one a parse error; a G2
/// count other than 65 a count mismatch; a G1 count beyond the 4096 slots a
/// format violation, checked before any point line is read.
pub open spec fn spec_parse(text: Seq<u8>) -> Result<(Seq<Seq<u8>>, Seq<Seq<u8>>), KzgErrors> {
    let ls = text_lines(text);
    if ls.len() == 0 {
        Err(KzgErrors::FileFormatError)
    } else if !is_usize_text(ls[0]) {
        Err(KzgErrors::ParseError)
    } else if ls.len() == 1 {
        Err(KzgErrors::FileFormatError)
    } else if !is_usize_text(ls[1]) {
        Err(KzgErrors::ParseError)
    } else if usize_text_val(ls[1]) != NUM_G2_POINTS {
        Err(KzgErrors::MismatchedNumberOfPoints)
    } else if usize_text_val(ls[0]) > NUM_G1_POINTS {
        Err(KzgErrors::FileFormatError)
    } else {
        spec_parse_points(ls, usize_text_val(ls[0]))
    }
}

/// The parser's result agrees with the format's meaning: the same error, or
/// well-formed point sets holding exactly the slots the meaning gives.
pub open spec fn parse_agrees(
    r: Result<(Box<G1Points>, Box<G2Points>), KzgErrors>,
    sp: Result<(Seq<Seq<u8>>, Seq<Seq<u8>>), KzgErrors>,
) -> bool {
    match (r, sp) {
        (Ok(p), Ok(q)) => p.0@ == q.0 && p.1@ == q.1 && groups_wf(
            p.0@,
            NUM_G1_POINTS as nat,
            BYTES_PER_G1_POINT as nat,
        ) && groups_wf(p.1@, NUM_G2_POINTS as nat, BYTES_PER_G2_POINT as nat),
        (Err(e), Err(f)) => e == f,
        _ => false,
    }
}

/// Parses a trusted setup from the bytes of its text form.
pub fn parse_setup_bytes(text: &[u8]) -> (r: Result<(Box<G1Points>, Box<G2Points>), KzgErrors>)
    ensures
        parse_agrees(r, spec_parse(text@)),
{
    let lines = split_lines(text);
    let ghost ls = text_lines(text@);
    proof {
        assert(ls.len() == lines@.len());
    }
    if lines.len() == 0 {
        return Err(KzgErrors::FileFormatError);
    }
    proof {
        assert(ls[0] == lines@[0]@);
    }
    let n_g1 = match parse_usize_text(&lines[0]) {
        Some(v) => v,
        None => {
            return Err(KzgErrors::ParseError);
        },
    };
    if lines.len() == 1 {
        return Err(KzgErrors::FileFormatError);
    }
    proof {
        assert(ls[1] == lines@[1]@);
    }
    let n_g2 = match parse_usize_text(&lines[1]) {
        Some(v) => v,
        None => {
            return Err(KzgErrors::ParseError);
        },
    };
    if n_g2 != NUM_G2_POINTS {
        return Err(KzgErrors::MismatchedNumberOfPoints);
    }
    if n_g1 > NUM_G1_POINTS {
        return Err(KzgErrors::FileFormatError);
    }
    let mut g1 = G1Points::default();
    let mut i: usize = 0;
    while i < n_g1
        invariant
            i <= n_g1 <= NUM_G1_POINTS,
            ls == text_lines(text@),
            ls.len() == lines@.len(),
            ls.len() >= 2,
            rows_view(lines@) == ls,
            is_usize_text(ls[0]),
            usize_text_val(ls[0]) == n_g1,
            is_usize_text(ls[1]),
            usize_text_val(ls[1]) == NUM_G2_POINTS,
            groups_wf(g1@, NUM_G1_POINTS as nat, BYTES_PER_G1_POINT as nat),
            ls.len() >= 2 + i,
            forall|j: int|
                0 <= j < i ==> is_hex_text(#[trigger] ls[2 + j], BYTES_PER_G1_POINT as nat),
            forall|j: int|
                0 <= j < NUM_G1_POINTS ==> g1@[j] == if j < i {
                    hex_bytes(ls[2 + j])
                } else {
                    zero_group(BYTES_PER_G1_POINT as nat)
                },
        decreases n_g1 - i,
    {
        let idx = 2 + i;
        if idx >= lines.len() {
            proof {
                assert forall|k: int|
                    2 <= k < 2 + n_g1 && k < ls.len() implies is_hex_text(
                    #[trigger] ls[k],
                    BYTES_PER_G1_POINT as nat,
                ) by {
                    let j = k - 2;
                    assert(0 <= j < i);
                    assert(is_hex_text(ls[2 + j], BYTES_PER_G1_POINT as nat));
                    assert(ls[2 + j] == ls[k]);
                }
                assert(!bad_hex_line(ls, 2, 2 + n_g1, BYTES_PER_G1_POINT as nat));
                assert(ls.len() < 2 + n_g1);
            }
            return Err(KzgErrors::FileFormatError);
        }
        proof {
            assert(ls[idx as int] == lines@[idx as int]@);
        }
        let row = match decode_hex_text(&lines[idx], BYTES_PER_G1_POINT) {
            Some(v) => v,
            None => {
                proof {
                    assert(!is_hex_text(ls[2 + i], BYTES_PER_G1_POINT as nat));
                    assert(bad_hex_line(ls, 2, 2 + n_g1, BYTES_PER_G1_POINT as nat));
                }
                return Err(KzgErrors::ParseError);
            },
        };
        proof {
            crate::points::lemma_rows_view_update(g1.0@, i as int, row);
        }
        g1.0[i] = row;
        i = i + 1;
    }
    proof {
        assert forall|k: int|
            2 <= k < 2 + n_g1 && k < ls.len() implies is_hex_text(
            #[trigger] ls[k],
            BYTES_PER_G1_POINT as nat,
        ) by {
            let j = k - 2;
            assert(0 <= j < i);
            assert(is_hex_text(ls[2 + j], BYTES_PER_G1_POINT as nat));
            assert(ls[2 + j] == ls[k]);
        }
        assert(!bad_hex_line(ls, 2, 2 + n_g1, BYTES_PER_G1_POINT as nat));
        assert(ls.len() >= 2 + n_g1);
    }
    let mut g2 = G2Points::default();
    let mut j: usize = 0;
    while j < NUM_G2_POINTS
        invariant
            j <= NUM_G2_POINTS,
            n_g1 <= NUM_G1_POINTS,
            ls == text_lines(text@),
            ls.len() == lines@.len(),
            ls.len() >= 2 + n_g1,
            rows_view(lines@) == ls,
            is_usize_text(ls[0]),
            usize_text_val(ls[0]) == n_g1,
            is_usize_text(ls[1]),
            usize_text_val(ls[1]) == NUM_G2_POINTS,
            !bad_hex_line(ls, 2, 2 + n_g1, BYTES_PER_G1_POINT as nat),
            groups_wf(g1@, NUM_G1_POINTS as nat, BYTES_PER_G1_POINT as nat),
            forall|k: int|
                0 <= k < NUM_G1_POINTS ==> g1@[k] == if k < n_g1 {
                    hex_bytes(ls[2 + k])
                } else {
                    zero_group(BYTES_PER_G1_POINT as nat)
                },
            groups_wf(g2@, NUM_G2_POINTS as nat, BYTES_PER_G2_POINT as nat),
            ls.len() >= 2 + n_g1 + j,
            forall|k: int|
                0 <= k < j ==> is_hex_text(#[trigger] ls[2 + n_g1 + k], BYTES_PER_G2_POINT as nat),
            forall|k: int|
                0 <= k < j ==> g2@[k] == hex_bytes(ls[2 + n_g1 + k]),
        decreases NUM_G2_POINTS - j,
    {
        let idx = 2 + n_g1 + j;
        if idx >= lines.len() {
            proof {
                assert forall|k: int|
                    2 + n_g1 <= k < 2 + n_g1 + NUM_G2_POINTS && k < ls.len() implies is_hex_text(
                    #[trigger] ls[k],
                    BYTES_PER_G2_POINT as nat,
                ) by {
                    let m = k - 2 - n_g1;
                    assert(0 <= m < j);
                    assert(is_hex_text(ls[2 + n_g1 + m], BYTES_PER_G2_POINT as nat));
                    assert(ls[2 + n_g1 + m] == ls[k]);
                }
                assert(!bad_hex_line(
                    ls,
                    2 + n_g1,
                    2 + n_g1 + NUM_G2_POINTS,
                    BYTES_PER_G2_POINT as nat,
                ));
                assert(ls.len() < 2 + n_g1 + NUM_G2_POINTS);
            }
            return Err(KzgErrors::FileFormatError);
        }
        proof {
            assert(ls[idx as int] == lines@[idx as int]@);
        }
        let row = match decode_hex_text(&lines[idx], BYTES_PER_G2_POINT) {
            Some(v) => v,
            None => {
                proof {
                    assert(!is_hex_text(ls[2 + n_g1 + j], BYTES_PER_G2_POINT as nat));
                    assert(bad_hex_line(
                        ls,
                        2 + n_g1,
                        2 + n_g1 + NUM_G2_POINTS,
                        BYTES_PER_G2_POINT as nat,
                    ));
                }
                return Err(KzgErrors::ParseError);
            },
        };
        proof {
            crate::points::lemma_rows_view_update(g2.0@, j as int, row);
        }
        g2.0[j] = row;
        j = j + 1;
    }
    proof {
        assert forall|k: int|
            2 + n_g1 <= k < 2 + n_g1 + NUM_G2_POINTS && k < ls.len() implies is_hex_text(
            #[trigger] ls[k],
            BYTES_PER_G2_POINT as nat,
        ) by {
            let m = k - 2 - n_g1;
            assert(0 <= m < j);
            assert(is_hex_text(ls[2 + n_g1 + m], BYTES_PER_G2_POINT as nat));
            assert(ls[2 + n_g1 + m] == ls[k]);
        }
        assert(!bad_hex_line(ls, 2 + n_g1, 2 + n_g1 + NUM_G2_POINTS, BYTES_PER_G2_POINT as nat));
        assert(ls.len() >= 2 + n_g1 + NUM_G2_POINTS);
    }
    if lines.len() != 2 + n_g1 + NUM_G2_POINTS {
        return Err(KzgErrors::FileFormatError);
    }
    proof {
        assert(g1@ =~= g1_slots(ls, n_g1 as int));
        assert(g2@ =~= g2_slots(ls, n_g1 as int));
    }
    Ok((Box::new(g1), Box::new(g2)))
}

/// One hex line, closed by a line feed, for each row in order.
pub open spec fn hex_lines_blob(rows: Seq<Seq<u8>>) -> Seq<u8>
    decreases rows.len(),
{
    if rows.len() == 0 {
        Seq::<u8>::empty()
    } else {
        hex_encode(rows.first()) + seq![LINE_FEED] + hex_lines_blob(rows.drop_first())
    }
}

/// The hex line each row encodes to.
pub open spec fn encoded_lines(rows: Seq<Seq<u8>>) -> Seq<Seq<u8>> {
    Seq::new(rows.len(), |i: int| hex_encode(rows[i]))
}

/// The text form of a setup whose first `n` G1 slots are meaningful: the two
/// count lines, then the first `n` G1 rows and all G2 rows as hex lines.
pub open spec fn spec_encode(g1: Seq<Seq<u8>>, g2: Seq<Seq<u8>>, n: int) -> Seq<u8> {
    dec_text(n) + seq![LINE_FEED] + dec_text(NUM_G2_POINTS as int) + seq![LINE_FEED]
        + hex_lines_blob(g1.take(n)) + hex_lines_blob(g2)
}

/// One more row extends the blob by its line.
pub proof fn lemma_hex_blob_push(rows: Seq<Seq<u8>>, x: Seq<u8>)
    ensures
        hex_lines_blob(rows.push(x)) == hex_lines_blob(rows) + hex_encode(x) + seq![LINE_FEED],
    decreases rows.len(),
{
    let p = rows.push(x);
    if rows.len() == 0 {
        assert(p.first() == x);
        assert(p.drop_first() =~= Seq::<Seq<u8>>::empty());
        assert(hex_lines_blob(Seq::<Seq<u8>>::empty()) == Seq::<u8>::empty());
        assert(hex_lines_blob(p) == hex_encode(x) + seq![LINE_FEED] + Seq::<u8>::empty());
        assert(hex_lines_blob(p) =~= hex_lines_blob(rows) + hex_encode(x) + seq![LINE_FEED]);
    } else {
        assert(p.first() == rows.first());
        assert(p.drop_first() =~= rows.drop_first().push(x));
        lemma_hex_blob_push(rows.drop_first(), x);
        assert(hex_lines_blob(p) =~= hex_lines_blob(rows) + hex_encode(x) + seq![LINE_FEED]);
    }
}

/// The lines of a blob followed by any remainder: the rows' hex lines, then
/// the remainder's lines.
pub proof fn lemma_text_lines_blob(rows: Seq<Seq<u8>>, t: Seq<u8>)
    ensures
        text_lines(hex_lines_blob(rows) + t) == encoded_lines(rows) + text_lines(t),
    decreases rows.len(),
{
    if rows.len() == 0 {
        assert(hex_lines_blob(rows) + t =~= t);
        assert(encoded_lines(rows) + text_lines(t) =~= text_lines(t));
    } else {
        let head = hex_encode(rows.first());
        let rest = hex_lines_blob(rows.drop_first());
        crate::hex::lemma_hex_encode_valid(rows.first());
        lemma_text_lines_blob(rows.drop_first(), t);
        assert(hex_lines_blob(rows) + t =~= head + seq![LINE_FEED] + (rest + t));
        crate::text::lemma_text_lines_line_concat(head, rest + t);
        assert(encoded_lines(rows) =~= seq![head] + encoded_lines(rows.drop_first()));
        assert(text_lines(hex_lines_blob(rows) + t) =~= encoded_lines(rows) + text_lines(t));
    }
}

/// Writes a setup out in the text form `spec_parse` reads: the count lines,
/// the first `n_g1` G1 rows, and all 65 G2 rows, hex encoded in lower case.
pub fn encode_setup_text(g1: &G1Points, g2: &G2Points, n_g1: usize) -> (r: Vec<u8>)
    requires
        g1.wf(),
        g2.wf(),
        n_g1 <= NUM_G1_POINTS,
    ensures
        r@ == spec_encode(g1@, g2@, n_g1 as int),
{
    let mut out = encode_usize_text(n_g1);
    out.push(LINE_FEED);
    let mut second = encode_usize_text(NUM_G2_POINTS);
    out.append(&mut second);
    out.push(LINE_FEED);
    let ghost head = dec_text(n_g1 as int) + seq![LINE_FEED] + dec_text(NUM_G2_POINTS as int)
        + seq![LINE_FEED];
    proof {
        assert(g1@.take(0) =~= Seq::<Seq<u8>>::empty());
        assert(out@ =~= head + hex_lines_blob(g1@.take(0)));
    }
    let mut i: usize = 0;
    while i < n_g1
        invariant
            i <= n_g1 <= NUM_G1_POINTS,
            g1.wf(),
            out@ == head + hex_lines_blob(g1@.take(i as int)),
        decreases n_g1 - i,
    {
        proof {
            assert(g1@[i as int] == g1.0@[i as int]@);
        }
        let mut line = crate::hex::encode_hex_text(&g1.0[i]);
        out.append(&mut line);
        out.push(LINE_FEED);
        proof {
            assert(g1@.take(i + 1) =~= g1@.take(i as int).push(g1@[i as int]));
            lemma_hex_blob_push(g1@.take(i as int), g1@[i as int]);
            assert(out@ =~= head + hex_lines_blob(g1@.take(i + 1)));
        }
        i = i + 1;
    }
    let ghost head1 = head + hex_lines_blob(g1@.take(n_g1 as int));
    proof {
        assert(out@ =~= head1 + hex_lines_blob(g2@.take(0)));
        assert(g2@.take(0) =~= Seq::<Seq<u8>>::empty());
    }
    let mut j: usize = 0;
    while j < NUM_G2_POINTS
        invariant
            j <= NUM_G2_POINTS,
            g2.wf(),
            out@ == head1 + hex_lines_blob(g2@.take(j as int)),
        decreases NUM_G2_POINTS - j,
    {
        proof {
            assert(g2@[j as int] == g2.0@[j as int]@);
        }
        let mut line = crate::hex::encode_hex_text(&g2.0[j]);
        out.append(&mut line);
        out.push(LINE_FEED);
        proof {
            assert(g2@.take(j + 1) =~= g2@.take(j as int).push(g2@[j as int]));
            lemma_hex_blob_push(g2@.take(j as int), g2@[j as int]);
            assert(out@ =~= head1 + hex_lines_blob(g2@.take(j + 1)));
        }
        j = j + 1;
    }
    proof {
        assert(g2@.take(NUM_G2_POINTS as int) =~= g2@);
        assert(out@ =~= spec_encode(g1@, g2@, n_g1 as int));
    }
    out
}

/// Every well-formed text parses: whenever the lines hold a G1 count `n` of
/// at most 4096, a G2 count of exactly 65, then exactly `n` G1-sized hex
/// lines and 65 G2-sized hex lines, the parse succeeds, its first `n` G1
/// slots are the decoded lines in order, the rest stay zero, and all 65 G2
/// slots are the decoded lines in order.
pub proof fn lemma_valid_setup_text_parses(text: Seq<u8>, n: int)
    requires
        0 <= n <= NUM_G1_POINTS,
        text_lines(text).len() == 2 + n + NUM_G2_POINTS,
        is_usize_text(text_lines(text)[0]),
        usize_text_val(text_lines(text)[0]) == n,
        is_usize_text(text_lines(text)[1]),
        usize_text_val(text_lines(text)[1]) == NUM_G2_POINTS,
        forall|i: int|
            2 <= i < 2 + n ==> is_hex_text(#[trigger] text_lines(text)[i], BYTES_PER_G1_POINT as nat),
        forall|i: int|
            2 + n <= i < 2 + n + NUM_G2_POINTS ==> is_hex_text(
                #[trigger] text_lines(text)[i],
                BYTES_PER_G2_POINT as nat,
            ),
    ensures
        spec_parse(text) == Ok::<(Seq<Seq<u8>>, Seq<Seq<u8>>), KzgErrors>(
            (g1_slots(text_lines(text), n), g2_slots(text_lines(text), n)),
        ),
{
    let ls = text_lines(text);
    assert(!bad_hex_line(ls, 2, 2 + n, BYTES_PER_G1_POINT as nat));
    assert(!bad_hex_line(ls, 2 + n, 2 + n + NUM_G2_POINTS, BYTES_PER_G2_POINT as nat));
}

/// A G2 count other than 65 is rejected as a count mismatch whatever follows
/// it: nothing after the second line bears on the outcome.
pub proof fn lemma_wrong_g2_count_rejected(text: Seq<u8>)
    requires
        text_lines(text).len() >= 2,
        is_usize_text(text_lines(text)[0]),
        is_usize_text(text_lines(text)[1]),
        usize_text_val(text_lines(text)[1]) != NUM_G2_POINTS,
    ensures
        spec_parse(text) == Err::<(Seq<Seq<u8>>, Seq<Seq<u8>>), KzgErrors>(
            KzgErrors::MismatchedNumberOfPoints,
        ),
{
}

/// Writing a setup out and parsing the text back yields the same point sets:
/// for any well-formed pair whose G1 slots from `n` on are still zero, the
/// parse of the encoding succeeds with exactly that pair.
#[verifier::rlimit(100)]
pub proof fn lemma_setup_round_trip(g1: Seq<Seq<u8>>, g2: Seq<Seq<u8>>, n: int)
    requires
        0 <= n <= NUM_G1_POINTS,
        groups_wf(g1, NUM_G1_POINTS as nat, BYTES_PER_G1_POINT as nat),
        forall|i: int| n <= i < g1.len() ==> g1[i] == zero_group(BYTES_PER_G1_POINT as nat),
        groups_wf(g2, NUM_G2_POINTS as nat, BYTES_PER_G2_POINT as nat),
    ensures
        spec_parse(spec_encode(g1, g2, n)) == Ok::<(Seq<Seq<u8>>, Seq<Seq<u8>>), KzgErrors>(
            (g1, g2),
        ),
{
    let text = spec_encode(g1, g2, n);
    let tail2 = hex_lines_blob(g1.take(n)) + hex_lines_blob(g2);
    lemma_dec_text_digits(n);
    lemma_dec_text_val(n);
    lemma_dec_text_digits(NUM_G2_POINTS as int);
    lemma_dec_text_val(NUM_G2_POINTS as int);
    assert(forall|i: int|
        0 <= i < dec_text(n).len() ==> dec_text(n)[i] != LINE_FEED && dec_text(n)[i] != PLUS_SIGN);
    assert(forall|i: int|
        0 <= i < dec_text(NUM_G2_POINTS as int).len() ==> dec_text(NUM_G2_POINTS as int)[i]
            != LINE_FEED && dec_text(NUM_G2_POINTS as int)[i] != PLUS_SIGN);
    assert(text =~= dec_text(n) + seq![LINE_FEED] + (dec_text(NUM_G2_POINTS as int)
        + seq![LINE_FEED] + tail2));
    crate::text::lemma_text_lines_line_concat(
        dec_text(n),
        dec_text(NUM_G2_POINTS as int) + seq![LINE_FEED] + tail2,
    );
    crate::text::lemma_text_lines_line_concat(dec_text(NUM_G2_POINTS as int), tail2);
    lemma_text_lines_blob(g1.take(n), hex_lines_blob(g2));
    lemma_text_lines_blob(g2, Seq::<u8>::empty());
    assert(hex_lines_blob(g2) + Seq::<u8>::empty() =~= hex_lines_blob(g2));
    crate::text::lemma_text_lines_empty();
    let ls = text_lines(text);
    assert(ls =~= seq![dec_text(n), dec_text(NUM_G2_POINTS as int)] + encoded_lines(g1.take(n))
        + encoded_lines(g2));
    assert(ls.len() == 2 + n + NUM_G2_POINTS);
    assert(ls[0] == dec_text(n));
    assert(ls[1] == dec_text(NUM_G2_POINTS as int));
    assert(dec_body(ls[0]) == ls[0]);
    assert(dec_body(ls[1]) == ls[1]);
    assert(is_usize_text(ls[0]));
    assert(usize_text_val(ls[0]) == n);
    assert(is_usize_text(ls[1]));
    assert(usize_text_val(ls[1]) == NUM_G2_POINTS);
    assert forall|k: int| 2 <= k < 2 + n implies is_hex_text(
        #[trigger] ls[k],
        BYTES_PER_G1_POINT as nat,
    ) by {
        assert(ls[k] == encoded_lines(g1.take(n))[k - 2]);
        assert(g1.take(n)[k - 2] == g1[k - 2]);
        crate::hex::lemma_hex_encode_valid(g1[k - 2]);
        assert(g1[k - 2].len() == BYTES_PER_G1_POINT);
    }
    assert(!bad_hex_line(ls, 2, 2 + n, BYTES_PER_G1_POINT as nat));
    assert forall|k: int| 2 + n <= k < 2 + n + NUM_G2_POINTS implies is_hex_text(
        #[trigger] ls[k],
        BYTES_PER_G2_POINT as nat,
    ) by {
        assert(ls[k] == encoded_lines(g2)[k - 2 - n]);
        crate::hex::lemma_hex_encode_valid(g2[k - 2 - n]);
        assert(g2[k - 2 - n].len() == BYTES_PER_G2_POINT);
    }
    assert(!bad_hex_line(ls, 2 + n, 2 + n + NUM_G2_POINTS, BYTES_PER_G2_POINT as nat));
    assert forall|i: int| 0 <= i < NUM_G1_POINTS implies g1_slots(ls, n)[i] == g1[i] by {
        if i < n {
            assert(ls[2 + i] == encoded_lines(g1.take(n))[i]);
            assert(ls[2 + i] == hex_encode(g1[i]));
            crate::hex::lemma_hex_bytes_of_encode(g1[i]);
        }
    }
    assert(g1_slots(ls, n) =~= g1);
    assert forall|i: int| 0 <= i < NUM_G2_POINTS implies g2_slots(ls, n)[i] == g2[i] by {
        assert(ls[2 + n + i] == encoded_lines(g2)[i]);
        assert(ls[2 + n + i] == hex_encode(g2[i]));
        crate::hex::lemma_hex_bytes_of_encode(g2[i]);
    }
    assert(g2_slots(ls, n) =~= g2);
}

/// Parses a trusted setup from its text form.
///
/// A line feed is the one line separator; carriage returns are not stripped,
/// and a line bearing one fails decoding. The result and each error agree
/// exactly with `spec_parse` on the text's bytes.
pub fn format_kzg_settings(trusted_setup: &str) -> (r: Result<
    (Box<G1Points>, Box<G2Points>),
    KzgErrors,
>)
    ensures
        parse_agrees(r, spec_parse(trusted_setup.spec_bytes())),
{
    parse_setup_bytes(trusted_setup.as_bytes())
}

} // verus!
