//! The hash matcher: hex runs of length exactly 32, 40 or 64 (MD5-, SHA1-
//! and SHA256-shaped tokens), bounded by word boundaries on both sides.

use vstd::prelude::*;
use crate::ascii::{
    copy_range, hex_fn, is_hex_digit, run_end, scan_hex_run, word_at, word_before, word_boundary,
    word_here, lemma_run_end_bounds, lemma_run_end_is,
};
use crate::spans::{
    lemma_spans_cover, lemma_spans_none, lemma_spans_shape, lemma_spans_some,
    lemma_values_are_spans, matcher_progresses, spans_from, values_from,
};

verus! {

/// The three accepted token lengths.
pub open spec fn hash_length(n: int) -> bool {
    n == 32 || n == 40 || n == 64
}

/// End of the hash match starting at `i`, if any: the hex run from `i` must
/// be 32, 40 or 64 bytes long, with no word byte on either side of it.
pub open spec fn hash_match_end(s: Seq<u8>, i: int) -> Option<int> {
    let e = run_end(s, i, hex_fn());
    if !word_at(s, i - 1) && hash_length(e - i) && !word_at(s, e) {
        Some(e)
    } else {
        None
    }
}

/// The hash matcher as a function value, for the shared scan.
pub open spec fn hash_match_fn() -> spec_fn(Seq<u8>, int) -> Option<int> {
    |s: Seq<u8>, i: int| hash_match_end(s, i)
}

/// `s[i..j]` is a hash match: all hex digits, one of the three lengths,
/// and a word boundary at each end.
pub open spec fn hash_match_at(s: Seq<u8>, i: int, j: int) -> bool {
    &&& 0 <= i < j <= s.len()
    &&& hash_length(j - i)
    &&& forall|k: int| #![trigger s[k]] i <= k < j ==> is_hex_digit(s[k])
    &&& word_boundary(s, i)
    &&& word_boundary(s, j)
}

/// The spans the hash matcher reports on `s`, in scan order.
pub open spec fn hash_spans(s: Seq<u8>) -> Seq<(int, int)> {
    spans_from(s, 0, hash_match_fn())
}

/// The substrings the hash matcher reports on `s`, in scan order.
pub open spec fn hash_values(s: Seq<u8>) -> Seq<Seq<u8>> {
    values_from(s, 0, hash_match_fn())
}

/// The algorithmic match end agrees with the declarative match predicate.
pub proof fn lemma_hash_match_iff(s: Seq<u8>, i: int, j: int)
    requires
        0 <= i <= s.len(),
    ensures
        hash_match_end(s, i) == Some(j) <==> hash_match_at(s, i, j),
{
    lemma_run_end_bounds(s, i, hex_fn());
    let e = run_end(s, i, hex_fn());
    if hash_match_at(s, i, j) {
        assert(j == s.len() || !is_hex_digit(s[j])) by {
            assert(!word_at(s, j));
        }
        lemma_run_end_is(s, i, j, hex_fn());
    }
    if hash_match_end(s, i) == Some(j) {
        assert(is_hex_digit(s[i]));
        assert(is_hex_digit(s[j - 1]));
    }
}

/// Exec mirror of `hash_match_end`.
pub fn hash_end_at(s: &[u8], i: usize) -> (r: Option<usize>)
    requires
        i < s@.len(),
    ensures
        match r {
            Some(j) => i < j <= s@.len() && hash_match_end(s@, i as int) == Some(j as int),
            None => hash_match_end(s@, i as int) is None,
        },
{
    if word_before(s, i) {
        return None;
    }
    let e = scan_hex_run(s, i);
    let n = e - i;
    if (n == 32 || n == 40 || n == 64) && !word_here(s, e) {
        Some(e)
    } else {
        None
    }
}

/// Reports every hex token of length 32, 40 or 64 in `s`, left to right,
/// exactly as the word-boundary-anchored scan defines them.
pub fn find_hash(text: &[u8]) -> (r: Vec<Vec<u8>>)
    ensures
        r.deep_view() == hash_values(text@),
{
    let mut out: Vec<Vec<u8>> = Vec::new();
    let mut pos: usize = 0;
    while pos < text.len()
        invariant
            pos <= text@.len(),
            hash_values(text@) == out.deep_view() + values_from(
                text@,
                pos as int,
                hash_match_fn(),
            ),
        decreases text@.len() - pos,
    {
        match hash_end_at(text, pos) {
            Some(j) => {
                proof {
                    lemma_spans_some(text@, pos as int, j as int, hash_match_fn());
                }
                let v = copy_range(text, pos, j);
                let ghost prev = out.deep_view();
                out.push(v);
                proof {
                    assert(out.deep_view() =~~= prev.push(v@));
                }
                pos = j;
            },
            None => {
                proof {
                    lemma_spans_none(text@, pos as int, hash_match_fn());
                }
                pos = pos + 1;
            },
        }
    }
    proof {
        assert(values_from(text@, pos as int, hash_match_fn()) =~= Seq::<Seq<u8>>::empty());
        assert(out.deep_view() + Seq::<Seq<u8>>::empty() =~= out.deep_view());
    }
    out
}

/// Every span the hash matcher reports is exactly bounded: it satisfies the
/// declarative match predicate, so no byte just before or after it could
/// extend it under the matcher's grammar, and consecutive spans do not
/// overlap.
pub proof fn lemma_hash_spans_exact(s: Seq<u8>)
    ensures
        hash_values(s).len() == hash_spans(s).len(),
        forall|k: int|
            0 <= k < hash_spans(s).len() ==> {
                let sp = #[trigger] hash_spans(s)[k];
                hash_match_at(s, sp.0, sp.1) && hash_values(s)[k] == s.subrange(sp.0, sp.1)
            },
        forall|k: int|
            0 <= k && k + 1 < hash_spans(s).len() ==> (#[trigger] hash_spans(s)[k]).1 <= hash_spans(
                s,
            )[k + 1].0,
{
    lemma_spans_shape(s, 0, hash_match_fn());
    lemma_values_are_spans(s, 0, hash_match_fn());
    assert forall|k: int| 0 <= k < hash_spans(s).len() implies {
        let sp = #[trigger] hash_spans(s)[k];
        hash_match_at(s, sp.0, sp.1) && hash_values(s)[k] == s.subrange(sp.0, sp.1)
    } by {
        let sp = hash_spans(s)[k];
        lemma_hash_match_iff(s, sp.0, sp.1);
    }
}

/// The scan drops no hash match: wherever `s[i..j]` is a hash match, a
/// reported span covers its starting position.
pub proof fn lemma_hash_scan_complete(s: Seq<u8>, i: int, j: int)
    requires
        hash_match_at(s, i, j),
    ensures
        exists|k: int|
            0 <= k < hash_spans(s).len() && (#[trigger] hash_spans(s)[k]).0 <= i < hash_spans(
                s,
            )[k].1,
{
    lemma_hash_match_iff(s, i, j);
    assert forall|p: int|
        0 <= p < s.len() implies (#[trigger] hash_match_fn()(s, p) matches Some(q) ==> p < q
            <= s.len()) by {
        lemma_run_end_bounds(s, p, hex_fn());
    }
    assert(matcher_progresses(s, hash_match_fn()));
    lemma_spans_cover(s, 0, hash_match_fn(), i);
    let k0 = choose|k: int|
        0 <= k < spans_from(s, 0, hash_match_fn()).len() && (#[trigger] spans_from(
            s,
            0,
            hash_match_fn(),
        )[k]).0 <= i < spans_from(s, 0, hash_match_fn())[k].1;
    assert(0 <= k0 < hash_spans(s).len() && (hash_spans(s)[k0]).0 <= i < hash_spans(s)[k0].1);
}

/// A reported hash match cannot be widened: no strictly larger range that
/// contains it is itself a hash match, because the bytes just past either
/// word boundary would have to be hex digits, which are word bytes.
pub proof fn lemma_hash_no_widening(s: Seq<u8>, i: int, j: int, i2: int, j2: int)
    requires
        hash_match_at(s, i, j),
        hash_match_at(s, i2, j2),
        i2 <= i,
        j <= j2,
    ensures
        i2 == i && j2 == j,
{
    if i2 < i {
        assert(is_hex_digit(s[i - 1]));
        assert(is_hex_digit(s[i]));
        assert(word_at(s, i - 1) && word_at(s, i));
        assert(!word_boundary(s, i));
    }
    if j2 > j {
        assert(is_hex_digit(s[j]));
        assert(is_hex_digit(s[j - 1]));
        assert(word_at(s, j - 1) && word_at(s, j));
        assert(!word_boundary(s, j));
    }
}

} // verus!
