//! The IPv4 matcher: four dot-separated octet tokens with a word boundary at
//! each end of the dotted quad.
//!
//! An octet token is format-shaped, not numerically validated: any one or
//! two digits, or three digits drawn from `25x` (x up to 5), `2xy` (x up to
//! 4) or `1xy` — exactly the runs a `25[0-5]|2[0-4]\d|1?\d{1,2}` alternation
//! can consume up to the following delimiter.

use vstd::prelude::*;
use crate::ascii::{
    copy_range, digit_fn, is_digit, run_end, scan_digit_run, word_at, word_before, word_boundary,
    word_here, lemma_run_end_bounds, lemma_run_end_is,
};
use crate::spans::{
    lemma_spans_cover, lemma_spans_none, lemma_spans_shape, lemma_spans_some,
    lemma_values_are_spans, matcher_progresses, spans_from, values_from,
};

verus! {

/// A digit run that one octet alternative consumes whole: one or two digits,
/// or a three-digit run in 100–255.
pub open spec fn is_octet_token(t: Seq<u8>) -> bool {
    &&& 1 <= t.len() <= 3
    &&& (forall|k: int| #![trigger t[k]] 0 <= k < t.len() ==> is_digit(t[k]))
    &&& (t.len() <= 2 || t[0] == 0x31 || (t[0] == 0x32 && t[1] <= 0x34) || (t[0] == 0x32 && t[1]
        == 0x35 && t[2] <= 0x35))
}

/// End of the IPv4 match starting at `i`, if any.  Each octet must run
/// exactly up to the next dot (a shorter octet would be followed by a digit
/// where the dot is required), and the final octet must end on a word
/// boundary, so it runs to the end of its digit run.
pub open spec fn ipv4_match_end(s: Seq<u8>, i: int) -> Option<int> {
    let a = run_end(s, i, digit_fn());
    let b = run_end(s, a + 1, digit_fn());
    let c = run_end(s, b + 1, digit_fn());
    let d = run_end(s, c + 1, digit_fn());
    if !word_at(s, i - 1) && is_octet_token(s.subrange(i, a)) && a < s.len() && s[a] == 0x2e
        && is_octet_token(s.subrange(a + 1, b)) && b < s.len() && s[b] == 0x2e && is_octet_token(
        s.subrange(b + 1, c),
    ) && c < s.len() && s[c] == 0x2e && is_octet_token(s.subrange(c + 1, d)) && !word_at(s, d) {
        Some(d)
    } else {
        None
    }
}

/// The IPv4 matcher as a function value, for the shared scan.
pub open spec fn ipv4_match_fn() -> spec_fn(Seq<u8>, int) -> Option<int> {
    |s: Seq<u8>, i: int| ipv4_match_end(s, i)
}

/// `t` is a dotted quad: four octet tokens separated by three dots.
pub open spec fn is_quad(t: Seq<u8>) -> bool {
    exists|a: int, b: int, c: int|
        {
            &&& 0 < a < b < c < t.len()
            &&& #[trigger] t[a] == 0x2e
            &&& #[trigger] t[b] == 0x2e
            &&& #[trigger] t[c] == 0x2e
            &&& is_octet_token(t.subrange(0, a))
            &&& is_octet_token(t.subrange(a + 1, b))
            &&& is_octet_token(t.subrange(b + 1, c))
            &&& is_octet_token(t.subrange(c + 1, t.len() as int))
        }
}

/// `s[i..j]` is an IPv4 match: a dotted quad on word boundaries.
pub open spec fn ipv4_match_at(s: Seq<u8>, i: int, j: int) -> bool {
    &&& 0 <= i < j <= s.len()
    &&& word_boundary(s, i)
    &&& word_boundary(s, j)
    &&& is_quad(s.subrange(i, j))
}

/// The spans the IPv4 matcher reports on `s`, in scan order.
pub open spec fn ipv4_spans(s: Seq<u8>) -> Seq<(int, int)> {
    spans_from(s, 0, ipv4_match_fn())
}

/// The substrings the IPv4 matcher reports on `s`, in scan order.
pub open spec fn ipv4_values(s: Seq<u8>) -> Seq<Seq<u8>> {
    values_from(s, 0, ipv4_match_fn())
}

/// A reported match end makes the matched range a dotted quad on word
/// boundaries.
pub proof fn lemma_ipv4_end_match_at(s: Seq<u8>, i: int, j: int)
    requires
        0 <= i <= s.len(),
        ipv4_match_end(s, i) == Some(j),
    ensures
        ipv4_match_at(s, i, j),
{
    let a = run_end(s, i, digit_fn());
    lemma_run_end_bounds(s, i, digit_fn());
    assert(a < s.len());
    let b = run_end(s, a + 1, digit_fn());
    lemma_run_end_bounds(s, a + 1, digit_fn());
    assert(b < s.len());
    let c = run_end(s, b + 1, digit_fn());
    lemma_run_end_bounds(s, b + 1, digit_fn());
    assert(c < s.len());
    let d = run_end(s, c + 1, digit_fn());
    lemma_run_end_bounds(s, c + 1, digit_fn());
    assert(j == d && d <= s.len());
    let t = s.subrange(i, j);
    assert(t.subrange(0, a - i) =~= s.subrange(i, a));
    assert(t.subrange(a - i + 1, b - i) =~= s.subrange(a + 1, b));
    assert(t.subrange(b - i + 1, c - i) =~= s.subrange(b + 1, c));
    assert(t.subrange(c - i + 1, t.len() as int) =~= s.subrange(c + 1, d));
    assert(t[a - i] == 0x2e && t[b - i] == 0x2e && t[c - i] == 0x2e);
    assert(is_quad(t));
    assert(is_digit(s[i])) by {
        assert(s.subrange(i, a)[0] == s[i]);
    }
    assert(is_digit(s[j - 1])) by {
        assert(s.subrange(c + 1, d)[d - c - 2] == s[j - 1]);
    }
}

/// The converse: wherever a dotted quad sits on word boundaries, the matcher
/// reports exactly it.
#[verifier::rlimit(40)]
pub proof fn lemma_ipv4_match_at_end(s: Seq<u8>, i: int, j: int)
    requires
        ipv4_match_at(s, i, j),
    ensures
        ipv4_match_end(s, i) == Some(j),
{
    let t = s.subrange(i, j);
    let (a0, b0, c0) = choose|a: int, b: int, c: int|
        {
            &&& 0 < a < b < c < t.len()
            &&& #[trigger] t[a] == 0x2e
            &&& #[trigger] t[b] == 0x2e
            &&& #[trigger] t[c] == 0x2e
            &&& is_octet_token(t.subrange(0, a))
            &&& is_octet_token(t.subrange(a + 1, b))
            &&& is_octet_token(t.subrange(b + 1, c))
            &&& is_octet_token(t.subrange(c + 1, t.len() as int))
        };
    let a = i + a0;
    let b = i + b0;
    let c = i + c0;
    assert(s.subrange(i, a) =~= t.subrange(0, a0));
    assert(s.subrange(a + 1, b) =~= t.subrange(a0 + 1, b0));
    assert(s.subrange(b + 1, c) =~= t.subrange(b0 + 1, c0));
    assert(s.subrange(c + 1, j) =~= t.subrange(c0 + 1, t.len() as int));
    assert(s[a] == 0x2e) by {
        assert(t[a0] == s[i + a0]);
    }
    assert(s[b] == 0x2e) by {
        assert(t[b0] == s[i + b0]);
    }
    assert(s[c] == 0x2e) by {
        assert(t[c0] == s[i + c0]);
    }
    assert(run_end(s, i, digit_fn()) == a) by {
        assert forall|k: int| i <= k < a implies is_digit(#[trigger] s[k]) by {
            assert(t.subrange(0, a0)[k - i] == s[k]);
        }
        assert(!is_digit(s[a]));
        lemma_run_end_is(s, i, a, digit_fn());
    }
    assert(run_end(s, a + 1, digit_fn()) == b) by {
        assert forall|k: int| a + 1 <= k < b implies is_digit(#[trigger] s[k]) by {
            assert(t.subrange(a0 + 1, b0)[k - a - 1] == s[k]);
        }
        assert(!is_digit(s[b]));
        lemma_run_end_is(s, a + 1, b, digit_fn());
    }
    assert(run_end(s, b + 1, digit_fn()) == c) by {
        assert forall|k: int| b + 1 <= k < c implies is_digit(#[trigger] s[k]) by {
            assert(t.subrange(b0 + 1, c0)[k - b - 1] == s[k]);
        }
        assert(!is_digit(s[c]));
        lemma_run_end_is(s, b + 1, c, digit_fn());
    }
    assert(run_end(s, c + 1, digit_fn()) == j) by {
        assert forall|k: int| c + 1 <= k < j implies is_digit(#[trigger] s[k]) by {
            assert(t.subrange(c0 + 1, t.len() as int)[k - c - 1] == s[k]);
        }
        assert(is_digit(s[j - 1]));
        assert(j == s.len() || !is_digit(s[j])) by {
            assert(!word_at(s, j));
        }
        lemma_run_end_is(s, c + 1, j, digit_fn());
    }
    assert(is_digit(s[i])) by {
        assert(t.subrange(0, a0)[0] == s[i]);
    }
    assert(!word_at(s, i - 1));
    assert(is_digit(s[j - 1])) by {
        assert(s.subrange(c + 1, j)[j - c - 2] == s[j - 1]);
    }
    assert(!word_at(s, j));
}

/// Exec mirror of `octet` checking on a digit run `s[i..j]`.
fn octet_ok(s: &[u8], i: usize, j: usize) -> (r: bool)
    requires
        i <= j <= s@.len(),
        forall|k: int| #![trigger s@[k]] i <= k < j ==> is_digit(s@[k]),
    ensures
        r == is_octet_token(s@.subrange(i as int, j as int)),
{
    let ghost t = s@.subrange(i as int, j as int);
    proof {
        assert forall|k: int| 0 <= k < t.len() implies is_digit(#[trigger] t[k]) by {
            assert(t[k] == s@[i + k]);
        }
    }
    let n = j - i;
    if n < 1 || n > 3 {
        return false;
    }
    if n <= 2 {
        return true;
    }
    s[i] == 0x31 || (s[i] == 0x32 && s[i + 1] <= 0x34) || (s[i] == 0x32 && s[i + 1] == 0x35 && s[i
        + 2] <= 0x35)
}

/// Exec mirror of `ipv4_match_end`.
pub fn ipv4_end_at(s: &[u8], i: usize) -> (r: Option<usize>)
    requires
        i < s@.len(),
    ensures
        match r {
            Some(j) => i < j <= s@.len() && ipv4_match_end(s@, i as int) == Some(j as int),
            None => ipv4_match_end(s@, i as int) is None,
        },
{
    if word_before(s, i) {
        return None;
    }
    let a = scan_digit_run(s, i);
    if !octet_ok(s, i, a) {
        return None;
    }
    if a == s.len() || s[a] != 0x2e {
        return None;
    }
    let b = scan_digit_run(s, a + 1);
    if !octet_ok(s, a + 1, b) {
        return None;
    }
    if b == s.len() || s[b] != 0x2e {
        return None;
    }
    let c = scan_digit_run(s, b + 1);
    if !octet_ok(s, b + 1, c) {
        return None;
    }
    if c == s.len() || s[c] != 0x2e {
        return None;
    }
    let d = scan_digit_run(s, c + 1);
    if !octet_ok(s, c + 1, d) {
        return None;
    }
    if word_here(s, d) {
        return None;
    }
    Some(d)
}

/// Reports every IPv4-shaped dotted quad in `s`, left to right, exactly as
/// the word-boundary-anchored scan defines them.
pub fn find_ipv4(text: &[u8]) -> (r: Vec<Vec<u8>>)
    ensures
        r.deep_view() == ipv4_values(text@),
{
    let mut out: Vec<Vec<u8>> = Vec::new();
    let mut pos: usize = 0;
    while pos < text.len()
        invariant
            pos <= text@.len(),
            ipv4_values(text@) == out.deep_view() + values_from(
                text@,
                pos as int,
                ipv4_match_fn(),
            ),
        decreases text@.len() - pos,
    {
        match ipv4_end_at(text, pos) {
            Some(j) => {
                proof {
                    lemma_spans_some(text@, pos as int, j as int, ipv4_match_fn());
                }
                let v = copy_range(text, pos, j);
                let ghost prev = out.deep_view();
                out.push(v);
                proof {
                    assert(out.deep_view() =~~= prev.push(v@));
                }
                pos = j;
            },
            None => {
                proof {
                    lemma_spans_none(text@, pos as int, ipv4_match_fn());
                }
                pos = pos + 1;
            },
        }
    }
    proof {
        assert(values_from(text@, pos as int, ipv4_match_fn()) =~= Seq::<Seq<u8>>::empty());
        assert(out.deep_view() + Seq::<Seq<u8>>::empty() =~= out.deep_view());
    }
    out
}

/// Every span the IPv4 matcher reports is exactly bounded: a dotted quad on
/// word boundaries, with no over- or under-matching at either end, and
/// consecutive spans do not overlap.
pub proof fn lemma_ipv4_spans_exact(s: Seq<u8>)
    ensures
        ipv4_values(s).len() == ipv4_spans(s).len(),
        forall|k: int|
            0 <= k < ipv4_spans(s).len() ==> {
                let sp = #[trigger] ipv4_spans(s)[k];
                ipv4_match_at(s, sp.0, sp.1) && ipv4_values(s)[k] == s.subrange(sp.0, sp.1)
            },
        forall|k: int|
            0 <= k && k + 1 < ipv4_spans(s).len() ==> (#[trigger] ipv4_spans(s)[k]).1 <= ipv4_spans(
                s,
            )[k + 1].0,
{
    lemma_spans_shape(s, 0, ipv4_match_fn());
    lemma_values_are_spans(s, 0, ipv4_match_fn());
    assert forall|k: int| 0 <= k < ipv4_spans(s).len() implies {
        let sp = #[trigger] ipv4_spans(s)[k];
        ipv4_match_at(s, sp.0, sp.1) && ipv4_values(s)[k] == s.subrange(sp.0, sp.1)
    } by {
        let sp = ipv4_spans(s)[k];
        lemma_ipv4_end_match_at(s, sp.0, sp.1);
    }
}

/// The scan drops no IPv4 match: wherever `s[i..j]` is a dotted quad on
/// word boundaries, a reported span covers its starting position.
pub proof fn lemma_ipv4_scan_complete(s: Seq<u8>, i: int, j: int)
    requires
        ipv4_match_at(s, i, j),
    ensures
        exists|k: int|
            0 <= k < ipv4_spans(s).len() && (#[trigger] ipv4_spans(s)[k]).0 <= i < ipv4_spans(
                s,
            )[k].1,
{
    lemma_ipv4_match_at_end(s, i, j);
    assert forall|p: int|
        0 <= p < s.len() implies (#[trigger] ipv4_match_fn()(s, p) matches Some(q) ==> p < q
            <= s.len()) by {
        match ipv4_match_end(s, p) {
            Some(q) => lemma_ipv4_end_match_at(s, p, q),
            None => (),
        }
    }
    assert(matcher_progresses(s, ipv4_match_fn()));
    lemma_spans_cover(s, 0, ipv4_match_fn(), i);
    let k0 = choose|k: int|
        0 <= k < spans_from(s, 0, ipv4_match_fn()).len() && (#[trigger] spans_from(
            s,
            0,
            ipv4_match_fn(),
        )[k]).0 <= i < spans_from(s, 0, ipv4_match_fn())[k].1;
    assert(0 <= k0 < ipv4_spans(s).len() && (ipv4_spans(s)[k0]).0 <= i < ipv4_spans(s)[k0].1);
}

/// `a`, `b`, `c` are the dots of the quad `t`, and every other byte of `t`
/// is a digit.
spec fn quad_dots_at(t: Seq<u8>, a: int, b: int, c: int) -> bool {
    &&& 0 < a < b < c && c + 1 < t.len()
    &&& t[a] == 0x2e && t[b] == 0x2e && t[c] == 0x2e
    &&& forall|p: int|
        #![trigger t[p]]
        0 <= p < t.len() && p != a && p != b && p != c ==> is_digit(t[p])
}

/// A quad holds exactly three dots; all its other bytes are digits.
proof fn lemma_quad_dots(t: Seq<u8>)
    requires
        is_quad(t),
    ensures
        exists|a: int, b: int, c: int| #[trigger] quad_dots_at(t, a, b, c),
{
    let (a, b, c) = choose|a: int, b: int, c: int|
        {
            &&& 0 < a < b < c < t.len()
            &&& #[trigger] t[a] == 0x2e
            &&& #[trigger] t[b] == 0x2e
            &&& #[trigger] t[c] == 0x2e
            &&& is_octet_token(t.subrange(0, a))
            &&& is_octet_token(t.subrange(a + 1, b))
            &&& is_octet_token(t.subrange(b + 1, c))
            &&& is_octet_token(t.subrange(c + 1, t.len() as int))
        };
    assert forall|p: int| 0 <= p < t.len() && p != a && p != b && p != c implies is_digit(
        #[trigger] t[p],
    ) by {
        if p < a {
            assert(t.subrange(0, a)[p] == t[p]);
        } else if p < b {
            assert(t.subrange(a + 1, b)[p - a - 1] == t[p]);
        } else if p < c {
            assert(t.subrange(b + 1, c)[p - b - 1] == t[p]);
        } else {
            assert(t.subrange(c + 1, t.len() as int)[p - c - 1] == t[p]);
        }
    }
    assert(quad_dots_at(t, a, b, c));
}

/// A reported IPv4 match cannot be widened: no strictly larger range that
/// contains a word-bounded dotted quad is itself one.  A wider quad would
/// need the byte just past a boundary to be one of its own bytes — a digit
/// is ruled out by the boundary, and a fourth dot by the quad's three.
pub proof fn lemma_ipv4_no_widening(s: Seq<u8>, i: int, j: int, i2: int, j2: int)
    requires
        ipv4_match_at(s, i, j),
        ipv4_match_at(s, i2, j2),
        i2 <= i,
        j <= j2,
    ensures
        i2 == i && j2 == j,
{
    let t = s.subrange(i, j);
    let t2 = s.subrange(i2, j2);
    lemma_quad_dots(t);
    lemma_quad_dots(t2);
    let (a, b, c) = choose|a: int, b: int, c: int| quad_dots_at(t, a, b, c);
    let (a2, b2, c2) = choose|a: int, b: int, c: int| quad_dots_at(t2, a, b, c);
    assert(s[i + a] == 0x2e && s[i + b] == 0x2e && s[i + c] == 0x2e) by {
        assert(t[a] == s[i + a] && t[b] == s[i + b] && t[c] == s[i + c]);
    }
    assert(t2[i + a - i2] == s[i + a] && t2[i + b - i2] == s[i + b] && t2[i + c - i2] == s[i + c]);
    assert(i + a - i2 == a2 || i + a - i2 == b2 || i + a - i2 == c2);
    assert(i + b - i2 == a2 || i + b - i2 == b2 || i + b - i2 == c2);
    assert(i + c - i2 == a2 || i + c - i2 == b2 || i + c - i2 == c2);
    if i2 < i {
        assert(is_digit(t[0]));
        assert(word_at(s, i) && !word_at(s, i - 1));
        assert(t2[i - 1 - i2] == s[i - 1]);
        assert(!is_digit(s[i - 1]));
        assert(i - 1 - i2 == a2 || i - 1 - i2 == b2 || i - 1 - i2 == c2);
        assert(false);
    }
    if j2 > j {
        assert(is_digit(t[t.len() - 1]));
        assert(word_at(s, j - 1) && !word_at(s, j));
        assert(t2[j - i2] == s[j]);
        assert(!is_digit(s[j]));
        assert(j - i2 == a2 || j - i2 == b2 || j - i2 == c2);
        assert(false);
    }
}

} // verus!
