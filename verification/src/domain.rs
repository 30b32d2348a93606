//! The domain matcher: one or more dot-terminated labels of letters, digits
//! and hyphens, followed by one of a fixed, lowercase list of top-level
//! labels — `com`, `net`, `org`, `info`, `io`, `gov`, `edu`, `biz`, `co` —
//! with a word boundary at each end.
//!
//! The scan is greedy: it consumes as many `label.` groups as possible and
//! gives groups back one at a time until the remaining position starts a
//! top-level label that ends on a word boundary.  At any one position at
//! most one listed label can match with its boundary (`co` and `com` are
//! told apart by the byte after `co`), so the match end is deterministic.

use vstd::prelude::*;
use crate::ascii::{
    copy_range, is_label_byte, is_word_byte, label_fn, run_end, scan_label_run, word_at,
    word_before, word_boundary, word_here, lemma_run_end_bounds,
};
use crate::spans::{
    lemma_spans_cover, lemma_spans_none, lemma_spans_shape, lemma_spans_some,
    lemma_values_are_spans, matcher_progresses, spans_from, values_from,
};

verus! {

/// The two bytes of a top-level label stand at `p`.
pub open spec fn lit2_at(s: Seq<u8>, p: int, x0: u8, x1: u8) -> bool {
    p + 2 <= s.len() && s[p] == x0 && s[p + 1] == x1
}

/// The three bytes of a top-level label stand at `p`.
pub open spec fn lit3_at(s: Seq<u8>, p: int, x0: u8, x1: u8, x2: u8) -> bool {
    p + 3 <= s.len() && s[p] == x0 && s[p + 1] == x1 && s[p + 2] == x2
}

/// The four bytes of a top-level label stand at `p`.
pub open spec fn lit4_at(s: Seq<u8>, p: int, x0: u8, x1: u8, x2: u8, x3: u8) -> bool {
    p + 4 <= s.len() && s[p] == x0 && s[p + 1] == x1 && s[p + 2] == x2 && s[p + 3] == x3
}

/// End of a listed top-level label starting at `p` that also ends on a word
/// boundary, if any.  The labels are tried in the matcher's fixed order;
/// because each ends with the boundary test, at most one can succeed.
pub open spec fn tld_end(s: Seq<u8>, p: int) -> Option<int> {
    if lit3_at(s, p, 0x63, 0x6f, 0x6d) && !word_at(s, p + 3) {  // com
        Some(p + 3)
    } else if lit3_at(s, p, 0x6e, 0x65, 0x74) && !word_at(s, p + 3) {  // net
        Some(p + 3)
    } else if lit3_at(s, p, 0x6f, 0x72, 0x67) && !word_at(s, p + 3) {  // org
        Some(p + 3)
    } else if lit4_at(s, p, 0x69, 0x6e, 0x66, 0x6f) && !word_at(s, p + 4) {  // info
        Some(p + 4)
    } else if lit2_at(s, p, 0x69, 0x6f) && !word_at(s, p + 2) {  // io
        Some(p + 2)
    } else if lit3_at(s, p, 0x67, 0x6f, 0x76) && !word_at(s, p + 3) {  // gov
        Some(p + 3)
    } else if lit3_at(s, p, 0x65, 0x64, 0x75) && !word_at(s, p + 3) {  // edu
        Some(p + 3)
    } else if lit3_at(s, p, 0x62, 0x69, 0x7a) && !word_at(s, p + 3) {  // biz
        Some(p + 3)
    } else if lit2_at(s, p, 0x63, 0x6f) && !word_at(s, p + 2) {  // co
        Some(p + 2)
    } else {
        None
    }
}

/// One `label.` group starting at `p`: a nonempty label run whose next byte
/// is a dot; the group ends just past the dot.
pub open spec fn group_end(s: Seq<u8>, p: int) -> Option<int> {
    let r = run_end(s, p, label_fn());
    if r > p && r < s.len() && s[r] == 0x2e {
        Some(r + 1)
    } else {
        None
    }
}

/// End of `(label.)* tld` from `p`, preferring to consume another group and
/// falling back to a top-level label here — the greedy scan with
/// backtracking over the number of groups.
pub open spec fn dom_tail_end(s: Seq<u8>, p: int) -> Option<int>
    decreases s.len() - p when 0 <= p <= s.len()
{
    match group_end(s, p) {
        Some(q) => if p < q <= s.len() {
            match dom_tail_end(s, q) {
                Some(j) => Some(j),
                None => tld_end(s, p),
            }
        } else {
            tld_end(s, p)
        },
        None => tld_end(s, p),
    }
}

/// End of the domain match starting at `i`, if any: a word boundary, one
/// mandatory `label.` group, then `(label.)* tld` greedily.
pub open spec fn domain_match_end(s: Seq<u8>, i: int) -> Option<int> {
    if word_boundary(s, i) {
        match group_end(s, i) {
            Some(q) => if i < q <= s.len() {
                dom_tail_end(s, q)
            } else {
                None
            },
            None => None,
        }
    } else {
        None
    }
}

/// The domain matcher as a function value, for the shared scan.
pub open spec fn domain_match_fn() -> spec_fn(Seq<u8>, int) -> Option<int> {
    |s: Seq<u8>, i: int| domain_match_end(s, i)
}

/// What every reported domain span satisfies: word boundaries at both ends,
/// only label bytes and dots inside, at least one dot, and a listed
/// top-level label closing the span.
pub open spec fn domain_match_at(s: Seq<u8>, i: int, j: int) -> bool {
    &&& 0 <= i < j <= s.len()
    &&& word_boundary(s, i)
    &&& word_boundary(s, j)
    &&& (forall|k: int| #![trigger s[k]] i <= k < j ==> is_label_byte(s[k]) || s[k] == 0x2e)
    &&& is_label_byte(s[i])
    &&& s[i + 1] == 0x2e || is_label_byte(s[i + 1])
    &&& (exists|d: int| i < d < j && #[trigger] s[d] == 0x2e)
    &&& (exists|q: int| i < q < j && #[trigger] tld_end(s, q) == Some(j))
}

/// The spans the domain matcher reports on `s`, in scan order.
pub open spec fn domain_spans(s: Seq<u8>) -> Seq<(int, int)> {
    spans_from(s, 0, domain_match_fn())
}

/// The substrings the domain matcher reports on `s`, in scan order.
pub open spec fn domain_values(s: Seq<u8>) -> Seq<Seq<u8>> {
    values_from(s, 0, domain_match_fn())
}

/// A matched top-level label is made of lowercase letters and ends on a
/// word boundary.
proof fn lemma_tld_props(s: Seq<u8>, p: int, j: int)
    requires
        0 <= p,
        tld_end(s, p) == Some(j),
    ensures
        p + 2 <= j <= s.len(),
        !word_at(s, j),
        is_word_byte(s[j - 1]),
        forall|k: int| #![trigger s[k]] p <= k < j ==> is_label_byte(s[k]) && is_word_byte(s[k]),
{
}

/// Everything `(label.)* tld` consumes is label bytes and dots, and the
/// match ends with a listed top-level label on a word boundary.
proof fn lemma_dom_tail_props(s: Seq<u8>, p: int, j: int)
    requires
        0 <= p <= s.len(),
        dom_tail_end(s, p) == Some(j),
    ensures
        p + 2 <= j <= s.len(),
        !word_at(s, j),
        is_word_byte(s[j - 1]),
        forall|k: int| #![trigger s[k]] p <= k < j ==> is_label_byte(s[k]) || s[k] == 0x2e,
        exists|q: int| p <= q < j && #[trigger] tld_end(s, q) == Some(j),
    decreases s.len() - p,
{
    lemma_run_end_bounds(s, p, label_fn());
    let r = run_end(s, p, label_fn());
    match group_end(s, p) {
        Some(q) => {
            if dom_tail_end(s, q) is Some {
                assert(q == r + 1 && p < q <= s.len());
                lemma_dom_tail_props(s, q, j);
            } else {
                lemma_tld_props(s, p, j);
            }
        },
        None => {
            lemma_tld_props(s, p, j);
        },
    }
}

/// A reported domain match end satisfies the declarative span predicate.
pub proof fn lemma_domain_end_match_at(s: Seq<u8>, i: int, j: int)
    requires
        0 <= i <= s.len(),
        domain_match_end(s, i) == Some(j),
    ensures
        domain_match_at(s, i, j),
{
    lemma_run_end_bounds(s, i, label_fn());
    let r = run_end(s, i, label_fn());
    assert(r > i && r < s.len() && s[r] == 0x2e);
    lemma_dom_tail_props(s, r + 1, j);
    assert(word_at(s, j - 1));
    assert(i < r < j && s[r] == 0x2e);
    assert(is_label_byte(s[i]));
}

fn check_lit2(s: &[u8], p: usize, x0: u8, x1: u8) -> (r: bool)
    requires
        p <= s@.len(),
    ensures
        r == lit2_at(s@, p as int, x0, x1),
{
    s.len() - p >= 2 && s[p] == x0 && s[p + 1] == x1
}

fn check_lit3(s: &[u8], p: usize, x0: u8, x1: u8, x2: u8) -> (r: bool)
    requires
        p <= s@.len(),
    ensures
        r == lit3_at(s@, p as int, x0, x1, x2),
{
    s.len() - p >= 3 && s[p] == x0 && s[p + 1] == x1 && s[p + 2] == x2
}

fn check_lit4(s: &[u8], p: usize, x0: u8, x1: u8, x2: u8, x3: u8) -> (r: bool)
    requires
        p <= s@.len(),
    ensures
        r == lit4_at(s@, p as int, x0, x1, x2, x3),
{
    s.len() - p >= 4 && s[p] == x0 && s[p + 1] == x1 && s[p + 2] == x2 && s[p + 3] == x3
}

/// Exec mirror of `tld_end`.
fn tld_at(s: &[u8], p: usize) -> (r: Option<usize>)
    requires
        p <= s@.len(),
    ensures
        match r {
            Some(j) => p < j <= s@.len() && tld_end(s@, p as int) == Some(j as int),
            None => tld_end(s@, p as int) is None,
        },
{
    // No listed label fits past the end; the early exit also puts the
    // length's usize bound in scope for the arithmetic on `p` below.
    let n = s.len();
    if p >= n {
        return None;
    }
    if check_lit3(s, p, 0x63, 0x6f, 0x6d) {
        if !word_here(s, p + 3) {
            return Some(p + 3);
        }
    }
    if check_lit3(s, p, 0x6e, 0x65, 0x74) {
        if !word_here(s, p + 3) {
            return Some(p + 3);
        }
    }
    if check_lit3(s, p, 0x6f, 0x72, 0x67) {
        if !word_here(s, p + 3) {
            return Some(p + 3);
        }
    }
    if check_lit4(s, p, 0x69, 0x6e, 0x66, 0x6f) {
        if !word_here(s, p + 4) {
            return Some(p + 4);
        }
    }
    if check_lit2(s, p, 0x69, 0x6f) {
        if !word_here(s, p + 2) {
            return Some(p + 2);
        }
    }
    if check_lit3(s, p, 0x67, 0x6f, 0x76) {
        if !word_here(s, p + 3) {
            return Some(p + 3);
        }
    }
    if check_lit3(s, p, 0x65, 0x64, 0x75) {
        if !word_here(s, p + 3) {
            return Some(p + 3);
        }
    }
    if check_lit3(s, p, 0x62, 0x69, 0x7a) {
        if !word_here(s, p + 3) {
            return Some(p + 3);
        }
    }
    if check_lit2(s, p, 0x63, 0x6f) {
        if !word_here(s, p + 2) {
            return Some(p + 2);
        }
    }
    None
}

/// Exec mirror of `dom_tail_end`.
fn dom_tail_at(s: &[u8], p: usize) -> (r: Option<usize>)
    requires
        p <= s@.len(),
    ensures
        match r {
            Some(j) => p < j <= s@.len() && dom_tail_end(s@, p as int) == Some(j as int),
            None => dom_tail_end(s@, p as int) is None,
        },
    decreases s@.len() - p,
{
    let e = scan_label_run(s, p);
    if e > p && e < s.len() && s[e] == 0x2e {
        match dom_tail_at(s, e + 1) {
            Some(j) => Some(j),
            None => tld_at(s, p),
        }
    } else {
        tld_at(s, p)
    }
}

/// Exec mirror of `domain_match_end`.
pub fn domain_end_at(s: &[u8], i: usize) -> (r: Option<usize>)
    requires
        i < s@.len(),
    ensures
        match r {
            Some(j) => i < j <= s@.len() && domain_match_end(s@, i as int) == Some(j as int),
            None => domain_match_end(s@, i as int) is None,
        },
{
    let before = word_before(s, i);
    let here = word_here(s, i);
    if before == here {
        return None;
    }
    let e = scan_label_run(s, i);
    if e > i && e < s.len() && s[e] == 0x2e {
        dom_tail_at(s, e + 1)
    } else {
        None
    }
}

/// Reports every domain-shaped token with a listed top-level label in `s`,
/// left to right, exactly as the greedy word-boundary-anchored scan defines
/// them.
pub fn find_domain(text: &[u8]) -> (r: Vec<Vec<u8>>)
    ensures
        r.deep_view() == domain_values(text@),
{
    let mut out: Vec<Vec<u8>> = Vec::new();
    let mut pos: usize = 0;
    while pos < text.len()
        invariant
            pos <= text@.len(),
            domain_values(text@) == out.deep_view() + values_from(
                text@,
                pos as int,
                domain_match_fn(),
            ),
        decreases text@.len() - pos,
    {
        match domain_end_at(text, pos) {
            Some(j) => {
                proof {
                    lemma_spans_some(text@, pos as int, j as int, domain_match_fn());
                }
                let v = copy_range(text, pos, j);
                let ghost prev = out.deep_view();
                out.push(v);
                proof {
                    assert(out.deep_view() =~~= prev.push(v@));
                }
                pos = j;
            },
            None => {
                proof {
                    lemma_spans_none(text@, pos as int, domain_match_fn());
                }
                pos = pos + 1;
            },
        }
    }
    proof {
        assert(values_from(text@, pos as int, domain_match_fn()) =~= Seq::<Seq<u8>>::empty());
        assert(out.deep_view() + Seq::<Seq<u8>>::empty() =~= out.deep_view());
    }
    out
}

/// Every span the domain matcher reports is exactly bounded: word
/// boundaries at both ends, grammar bytes inside, a dot before the listed
/// top-level label that closes it, and consecutive spans do not overlap.
pub proof fn lemma_domain_spans_exact(s: Seq<u8>)
    ensures
        domain_values(s).len() == domain_spans(s).len(),
        forall|k: int|
            0 <= k < domain_spans(s).len() ==> {
                let sp = #[trigger] domain_spans(s)[k];
                domain_match_at(s, sp.0, sp.1) && domain_values(s)[k] == s.subrange(sp.0, sp.1)
            },
        forall|k: int|
            0 <= k && k + 1 < domain_spans(s).len() ==> (#[trigger] domain_spans(s)[k]).1
                <= domain_spans(s)[k + 1].0,
{
    lemma_spans_shape(s, 0, domain_match_fn());
    lemma_values_are_spans(s, 0, domain_match_fn());
    assert forall|k: int| 0 <= k < domain_spans(s).len() implies {
        let sp = #[trigger] domain_spans(s)[k];
        domain_match_at(s, sp.0, sp.1) && domain_values(s)[k] == s.subrange(sp.0, sp.1)
    } by {
        let sp = domain_spans(s)[k];
        lemma_domain_end_match_at(s, sp.0, sp.1);
    }
}

/// The scan drops no domain match: wherever the matcher matches at `i`, a
/// reported span covers that starting position.
pub proof fn lemma_domain_scan_complete(s: Seq<u8>, i: int)
    requires
        0 <= i < s.len(),
        domain_match_end(s, i) is Some,
    ensures
        exists|k: int|
            0 <= k < domain_spans(s).len() && (#[trigger] domain_spans(s)[k]).0 <= i
                < domain_spans(s)[k].1,
{
    assert forall|p: int|
        0 <= p < s.len() implies (#[trigger] domain_match_fn()(s, p) matches Some(q) ==> p < q
            <= s.len()) by {
        match domain_match_end(s, p) {
            Some(j) => lemma_domain_end_match_at(s, p, j),
            None => (),
        }
    }
    assert(matcher_progresses(s, domain_match_fn()));
    lemma_spans_cover(s, 0, domain_match_fn(), i);
    let k0 = choose|k: int|
        0 <= k < spans_from(s, 0, domain_match_fn()).len() && (#[trigger] spans_from(
            s,
            0,
            domain_match_fn(),
        )[k]).0 <= i < spans_from(s, 0, domain_match_fn())[k].1;
    assert(0 <= k0 < domain_spans(s).len() && (domain_spans(s)[k0]).0 <= i < domain_spans(s)[k0].1);
}

} // verus!
