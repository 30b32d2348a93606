//! The longest-leftmost, non-overlapping scan shared by all matchers.
//!
//! A matcher is described by a function `m` from a text and a start position
//! to the end of the match that begins there, if any.  The scan reports the
//! match at the smallest starting position, then resumes just past its end,
//! so reported spans never overlap.

use vstd::prelude::*;

verus! {

/// The spans `(start, end)` that a left-to-right scan of `s` with matcher
/// `m` reports, beginning at position `pos`.
pub open spec fn spans_from(s: Seq<u8>, pos: int, m: spec_fn(Seq<u8>, int) -> Option<int>) -> Seq<
    (int, int),
>
    decreases s.len() - pos when 0 <= pos <= s.len()
{
    if pos < 0 || pos >= s.len() {
        Seq::empty()
    } else {
        match m(s, pos) {
            Some(j) => if pos < j <= s.len() {
                seq![(pos, j)] + spans_from(s, j, m)
            } else {
                Seq::empty()
            },
            None => spans_from(s, pos + 1, m),
        }
    }
}

/// The matched substrings, in reporting order.
pub open spec fn values_from(
    s: Seq<u8>,
    pos: int,
    m: spec_fn(Seq<u8>, int) -> Option<int>,
) -> Seq<Seq<u8>> {
    spans_from(s, pos, m).map_values(|sp: (int, int)| s.subrange(sp.0, sp.1))
}

/// A position without a match contributes nothing to the scan.
pub proof fn lemma_spans_none(s: Seq<u8>, pos: int, m: spec_fn(Seq<u8>, int) -> Option<int>)
    requires
        0 <= pos < s.len(),
        m(s, pos) is None,
    ensures
        spans_from(s, pos, m) == spans_from(s, pos + 1, m),
        values_from(s, pos, m) == values_from(s, pos + 1, m),
{
}

/// A match at `pos` heads the scan, which resumes at its end.
pub proof fn lemma_spans_some(s: Seq<u8>, pos: int, j: int, m: spec_fn(Seq<u8>, int) -> Option<int>)
    requires
        0 <= pos < s.len(),
        m(s, pos) == Some(j),
        pos < j <= s.len(),
    ensures
        spans_from(s, pos, m) == seq![(pos, j)] + spans_from(s, j, m),
        values_from(s, pos, m) == seq![s.subrange(pos, j)] + values_from(s, j, m),
{
    assert(values_from(s, pos, m) =~= seq![s.subrange(pos, j)] + values_from(s, j, m));
}

/// Every reported span stays within the text, has positive length, begins at
/// or after the scan start, and is a match of `m`; consecutive spans do not
/// overlap.
pub proof fn lemma_spans_shape(s: Seq<u8>, pos: int, m: spec_fn(Seq<u8>, int) -> Option<int>)
    requires
        0 <= pos <= s.len(),
    ensures
        forall|k: int|
            0 <= k < spans_from(s, pos, m).len() ==> {
                let sp = #[trigger] spans_from(s, pos, m)[k];
                pos <= sp.0 < sp.1 <= s.len() && m(s, sp.0) == Some(sp.1)
            },
        forall|k: int|
            0 <= k && k + 1 < spans_from(s, pos, m).len() ==> (#[trigger] spans_from(s, pos, m)[k]).1
                <= spans_from(s, pos, m)[k + 1].0,
    decreases s.len() - pos,
{
    if pos < s.len() {
        match m(s, pos) {
            Some(j) => {
                if pos < j <= s.len() {
                    lemma_spans_shape(s, j, m);
                    assert(spans_from(s, pos, m) == seq![(pos, j)] + spans_from(s, j, m));
                    let sp = spans_from(s, pos, m);
                    let rest = spans_from(s, j, m);
                    assert forall|k: int| 0 <= k && k + 1 < sp.len() implies (#[trigger] sp[k]).1 <= sp[
                        k + 1
                    ].0 by {
                        if k == 0 {
                            assert((seq![(pos, j)] + rest)[1] == rest[0]);
                        } else {
                            assert((seq![(pos, j)] + rest)[k] == rest[k - 1]);
                            assert((seq![(pos, j)] + rest)[k + 1] == rest[k]);
                        }
                    }
                }
            },
            None => {
                lemma_spans_shape(s, pos + 1, m);
                assert(spans_from(s, pos, m) == spans_from(s, pos + 1, m));
            },
        }
    }
}

/// The matcher's reported ends stay within the text and move forward.
pub open spec fn matcher_progresses(s: Seq<u8>, m: spec_fn(Seq<u8>, int) -> Option<int>) -> bool {
    forall|p: int|
        0 <= p < s.len() ==> (#[trigger] m(s, p) matches Some(q) ==> p < q <= s.len())
}

/// The scan passes no match over: wherever `m` matches at or after the
/// scan start, some reported span covers that starting position — either
/// the match itself is reported, or it overlaps an earlier, leftmost one.
pub proof fn lemma_spans_cover(
    s: Seq<u8>,
    pos: int,
    m: spec_fn(Seq<u8>, int) -> Option<int>,
    i: int,
)
    requires
        0 <= pos <= s.len(),
        pos <= i < s.len(),
        m(s, i) is Some,
        matcher_progresses(s, m),
    ensures
        exists|k: int|
            0 <= k < spans_from(s, pos, m).len() && (#[trigger] spans_from(s, pos, m)[k]).0 <= i
                < spans_from(s, pos, m)[k].1,
    decreases s.len() - pos,
{
    let sp = spans_from(s, pos, m);
    match m(s, pos) {
        Some(j) => {
            assert(pos < j <= s.len());
            assert(sp == seq![(pos, j)] + spans_from(s, j, m));
            if i < j {
                assert(sp[0] == (pos, j));
            } else {
                lemma_spans_cover(s, j, m, i);
                let k = choose|k: int|
                    0 <= k < spans_from(s, j, m).len() && (#[trigger] spans_from(s, j, m)[k]).0
                        <= i < spans_from(s, j, m)[k].1;
                assert(sp[k + 1] == spans_from(s, j, m)[k]);
            }
        },
        None => {
            assert(sp == spans_from(s, pos + 1, m));
            assert(pos < i);
            lemma_spans_cover(s, pos + 1, m, i);
        },
    }
}

/// The scan reports the matched substrings of its spans, index by index.
pub proof fn lemma_values_are_spans(s: Seq<u8>, pos: int, m: spec_fn(Seq<u8>, int) -> Option<int>)
    ensures
        values_from(s, pos, m).len() == spans_from(s, pos, m).len(),
        forall|k: int|
            0 <= k < spans_from(s, pos, m).len() ==> #[trigger] values_from(s, pos, m)[k]
                == s.subrange(spans_from(s, pos, m)[k].0, spans_from(s, pos, m)[k].1),
{
}

} // verus!
