//! Splitting a byte text into lines.
//!
//! A line feed (byte 10) is the one separator; a final line feed terminates
//! the last line rather than opening an empty one. Carriage returns are not
//! treated specially: a stray one stays in its line and later makes that line
//! fail decimal or hex decoding.

use vstd::prelude::*;

use crate::points::{lemma_rows_view_push, rows_view};

verus! {

/// The line-feed byte.
pub const LINE_FEED: u8 = 10;

/// `s` split at every line feed; a segment for each side of each separator,
/// so the result always has one segment more than `s` has line feeds.
pub open spec fn split_newlines(s: Seq<u8>) -> Seq<Seq<u8>>
    decreases s.len(),
{
    if s.len() == 0 {
        seq![Seq::<u8>::empty()]
    } else if s[0] == LINE_FEED {
        seq![Seq::<u8>::empty()] + split_newlines(s.drop_first())
    } else {
        let rest = split_newlines(s.drop_first());
        seq![seq![s[0]] + rest[0]] + rest.drop_first()
    }
}

/// The lines of a byte text: the segments between line feeds, except that a
/// final line feed closes the last line instead of starting an empty one.
pub open spec fn text_lines(s: Seq<u8>) -> Seq<Seq<u8>> {
    let raw = split_newlines(s);
    if raw.last().len() == 0 {
        raw.drop_last()
    } else {
        raw
    }
}

/// A split always yields at least one segment.
pub proof fn lemma_split_newlines_len(s: Seq<u8>)
    ensures
        split_newlines(s).len() >= 1,
    decreases s.len(),
{
    if s.len() != 0 {
        lemma_split_newlines_len(s.drop_first());
    }
}

/// How one leading byte extends a split: a line feed opens a fresh empty
/// segment, any other byte joins the first segment of the remainder's split.
pub proof fn lemma_split_newlines_step(s: Seq<u8>, i: int)
    requires
        0 <= i < s.len(),
    ensures
        s[i] == LINE_FEED ==> split_newlines(s.skip(i)) == seq![Seq::<u8>::empty()]
            + split_newlines(s.skip(i + 1)),
        s[i] != LINE_FEED ==> split_newlines(s.skip(i)) == seq![
            seq![s[i]] + split_newlines(s.skip(i + 1))[0],
        ] + split_newlines(s.skip(i + 1)).drop_first(),
{
    let t = s.skip(i);
    assert(t.len() > 0);
    assert(t[0] == s[i]);
    assert(t.drop_first() =~= s.skip(i + 1));
}

/// A split distributes over a line feed that follows a feed-free prefix.
pub proof fn lemma_split_newlines_concat(a: Seq<u8>, b: Seq<u8>)
    requires
        forall|i: int| 0 <= i < a.len() ==> a[i] != LINE_FEED,
    ensures
        split_newlines(a + seq![LINE_FEED] + b) == seq![a] + split_newlines(b),
    decreases a.len(),
{
    let s = a + seq![LINE_FEED] + b;
    if a.len() == 0 {
        assert(s[0] == LINE_FEED);
        assert(s.drop_first() =~= b);
        assert(a =~= Seq::<u8>::empty());
        assert(split_newlines(s) =~= seq![a] + split_newlines(b));
    } else {
        assert(s[0] == a[0]);
        assert(s.drop_first() =~= a.drop_first() + seq![LINE_FEED] + b);
        assert forall|i: int| 0 <= i < a.drop_first().len() implies a.drop_first()[i]
            != LINE_FEED by {
            assert(a.drop_first()[i] == a[i + 1]);
        }
        lemma_split_newlines_concat(a.drop_first(), b);
        lemma_split_newlines_len(b);
        let rest = split_newlines(s.drop_first());
        assert(rest == seq![a.drop_first()] + split_newlines(b));
        assert(rest[0] == a.drop_first());
        assert(seq![s[0]] + a.drop_first() =~= a);
        assert(rest.drop_first() =~= split_newlines(b));
        assert(split_newlines(s) =~= seq![a] + split_newlines(b));
    }
}

/// The lines of a feed-free line, a feed, and a remainder: that line, then
/// the remainder's lines.
pub proof fn lemma_text_lines_line_concat(a: Seq<u8>, b: Seq<u8>)
    requires
        forall|i: int| 0 <= i < a.len() ==> a[i] != LINE_FEED,
    ensures
        text_lines(a + seq![LINE_FEED] + b) == seq![a] + text_lines(b),
{
    lemma_split_newlines_concat(a, b);
    lemma_split_newlines_len(b);
    let raw = split_newlines(a + seq![LINE_FEED] + b);
    let rawb = split_newlines(b);
    assert(raw.last() == rawb.last());
    if rawb.last().len() == 0 {
        assert(raw.drop_last() =~= seq![a] + rawb.drop_last());
    }
    assert(text_lines(a + seq![LINE_FEED] + b) =~= seq![a] + text_lines(b));
}

/// An empty text has no lines.
pub proof fn lemma_text_lines_empty()
    ensures
        text_lines(Seq::<u8>::empty()) == Seq::<Seq<u8>>::empty(),
{
    assert(text_lines(Seq::<u8>::empty()) =~= Seq::<Seq<u8>>::empty());
}

/// Splits `text` into its lines, as `text_lines` describes.
pub fn split_lines(text: &[u8]) -> (r: Vec<Vec<u8>>)
    ensures
        rows_view(r@) == text_lines(text@),
{
    let n = text.len();
    let mut done: Vec<Vec<u8>> = Vec::new();
    let mut cur: Vec<u8> = Vec::new();
    let mut i: usize = 0;
    proof {
        lemma_split_newlines_len(text@);
        assert(text@.skip(0) =~= text@);
        assert(split_newlines(text@) =~= rows_view(done@) + seq![
            cur@ + split_newlines(text@.skip(0))[0],
        ] + split_newlines(text@.skip(0)).drop_first());
    }
    while i < n
        invariant
            i <= n,
            n == text@.len(),
            split_newlines(text@) == rows_view(done@) + seq![
                cur@ + split_newlines(text@.skip(i as int))[0],
            ] + split_newlines(text@.skip(i as int)).drop_first(),
        decreases n - i,
    {
        let b = text[i];
        proof {
            lemma_split_newlines_step(text@, i as int);
            lemma_split_newlines_len(text@.skip(i as int));
            lemma_split_newlines_len(text@.skip(i + 1));
        }
        if b == LINE_FEED {
            proof {
                lemma_rows_view_push(done@, cur);
                assert(split_newlines(text@) =~= rows_view(done@.push(cur)) + seq![
                    Seq::<u8>::empty() + split_newlines(text@.skip(i + 1))[0],
                ] + split_newlines(text@.skip(i + 1)).drop_first());
            }
            done.push(cur);
            cur = Vec::new();
        } else {
            proof {
                let s0 = split_newlines(text@.skip(i as int));
                let s1 = split_newlines(text@.skip(i + 1));
                assert(s0 == seq![seq![b] + s1[0]] + s1.drop_first());
                assert(s0[0] == seq![b] + s1[0]);
                assert(s0.drop_first() =~= s1.drop_first());
                assert(cur@ + s0[0] =~= cur@.push(b) + s1[0]);
                assert(split_newlines(text@) =~= rows_view(done@) + seq![
                    cur@.push(b) + split_newlines(text@.skip(i + 1))[0],
                ] + split_newlines(text@.skip(i + 1)).drop_first());
            }
            cur.push(b);
        }
        i = i + 1;
    }
    proof {
        assert(text@.skip(n as int) =~= Seq::<u8>::empty());
        assert(split_newlines(Seq::<u8>::empty()) == seq![Seq::<u8>::empty()]);
        assert(split_newlines(text@) =~= rows_view(done@).push(cur@));
    }
    if cur.len() == 0 {
        proof {
            let raw = split_newlines(text@);
            assert(raw.last() == cur@);
            assert(raw.drop_last() =~= rows_view(done@));
        }
        done
    } else {
        proof {
            lemma_rows_view_push(done@, cur);
            let raw = split_newlines(text@);
            assert(raw.last() == cur@);
            assert(raw =~= rows_view(done@.push(cur)));
        }
        done.push(cur);
        done
    }
}

} // verus!
