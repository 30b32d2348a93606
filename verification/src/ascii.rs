//! Byte classes and word boundaries.
//!
//! The matchers work on the raw bytes of a file's text.  All pattern bytes
//! are ASCII; a byte outside ASCII is never a word byte, so every multi-byte
//! character acts as a boundary.
//!
//! This is an ASCII word model, and it deviates from a Unicode-aware word
//! boundary wherever non-ASCII text abuts a token: a Unicode-aware matcher
//! counts an accented letter, a CJK character or a non-ASCII digit as a
//! word character and so refuses a token that directly touches one, while
//! under this model such a neighbour is a boundary and the token matches;
//! likewise only the ASCII digits `0`-`9` take part in numeric tokens here.
//! On ASCII text the two models agree exactly.

use vstd::prelude::*;

verus! {

/// ASCII decimal digit, `0`–`9`.
pub open spec fn is_digit(b: u8) -> bool {
    0x30 <= b <= 0x39
}

/// ASCII hexadecimal digit, `0`–`9`, `a`–`f`, `A`–`F`.
pub open spec fn is_hex_digit(b: u8) -> bool {
    is_digit(b) || (0x41 <= b <= 0x46) || (0x61 <= b <= 0x66)
}

/// Word byte for the word-boundary rule: ASCII letters, digits, underscore.
pub open spec fn is_word_byte(b: u8) -> bool {
    is_digit(b) || (0x41 <= b <= 0x5a) || (0x61 <= b <= 0x7a) || b == 0x5f
}

/// Byte allowed inside a domain label: ASCII letters, digits, hyphen.
pub open spec fn is_label_byte(b: u8) -> bool {
    is_digit(b) || (0x41 <= b <= 0x5a) || (0x61 <= b <= 0x7a) || b == 0x2d
}

/// Whether position `k` of `s` holds a word byte; positions outside `s` do not.
pub open spec fn word_at(s: Seq<u8>, k: int) -> bool {
    0 <= k < s.len() && is_word_byte(s[k])
}

/// A word boundary sits between positions `i - 1` and `i` when the wordness
/// of the two sides differs; the edges of the text count as non-word.
pub open spec fn word_boundary(s: Seq<u8>, i: int) -> bool {
    word_at(s, i - 1) != word_at(s, i)
}

/// First position at or after `p` whose byte fails `f`, or the end of `s`.
pub open spec fn run_end(s: Seq<u8>, p: int, f: spec_fn(u8) -> bool) -> int
    decreases s.len() - p when 0 <= p <= s.len()
{
    if p < 0 || p >= s.len() || !f(s[p]) {
        p
    } else {
        run_end(s, p + 1, f)
    }
}

/// The hex-digit class as a function value, shared by specs and lemmas.
pub open spec fn hex_fn() -> spec_fn(u8) -> bool {
    |b: u8| is_hex_digit(b)
}

/// The decimal-digit class as a function value.
pub open spec fn digit_fn() -> spec_fn(u8) -> bool {
    |b: u8| is_digit(b)
}

/// The label-byte class as a function value.
pub open spec fn label_fn() -> spec_fn(u8) -> bool {
    |b: u8| is_label_byte(b)
}

pub proof fn lemma_run_end_bounds(s: Seq<u8>, p: int, f: spec_fn(u8) -> bool)
    requires
        0 <= p <= s.len(),
    ensures
        p <= run_end(s, p, f) <= s.len(),
        forall|k: int| #![trigger s[k]] p <= k < run_end(s, p, f) ==> f(s[k]),
        run_end(s, p, f) == s.len() || !f(s[run_end(s, p, f)]),
    decreases s.len() - p,
{
    if p < s.len() && f(s[p]) {
        lemma_run_end_bounds(s, p + 1, f);
    }
}

/// A run that is delimited on both sides determines `run_end` exactly.
pub proof fn lemma_run_end_is(s: Seq<u8>, p: int, q: int, f: spec_fn(u8) -> bool)
    requires
        0 <= p <= q <= s.len(),
        forall|k: int| #![trigger s[k]] p <= k < q ==> f(s[k]),
        q == s.len() || !f(s[q]),
    ensures
        run_end(s, p, f) == q,
    decreases q - p,
{
    if p < q {
        lemma_run_end_is(s, p + 1, q, f);
    }
}

pub fn check_digit(b: u8) -> (r: bool)
    ensures
        r == is_digit(b),
{
    b >= 0x30 && b <= 0x39
}

pub fn check_hex_digit(b: u8) -> (r: bool)
    ensures
        r == is_hex_digit(b),
{
    check_digit(b) || (b >= 0x41 && b <= 0x46) || (b >= 0x61 && b <= 0x66)
}

pub fn check_word_byte(b: u8) -> (r: bool)
    ensures
        r == is_word_byte(b),
{
    check_digit(b) || (b >= 0x41 && b <= 0x5a) || (b >= 0x61 && b <= 0x7a) || b == 0x5f
}

pub fn check_label_byte(b: u8) -> (r: bool)
    ensures
        r == is_label_byte(b),
{
    check_digit(b) || (b >= 0x41 && b <= 0x5a) || (b >= 0x61 && b <= 0x7a) || b == 0x2d
}

/// Whether a word byte stands just before position `i`.
pub fn word_before(s: &[u8], i: usize) -> (r: bool)
    requires
        i <= s@.len(),
    ensures
        r == word_at(s@, i as int - 1),
{
    i > 0 && check_word_byte(s[i - 1])
}

/// Whether a word byte stands at position `i` (false at the end of `s`).
pub fn word_here(s: &[u8], i: usize) -> (r: bool)
    requires
        i <= s@.len(),
    ensures
        r == word_at(s@, i as int),
{
    i < s.len() && check_word_byte(s[i])
}

pub fn scan_hex_run(s: &[u8], p: usize) -> (r: usize)
    requires
        p <= s@.len(),
    ensures
        p <= r <= s@.len(),
        r as int == run_end(s@, p as int, hex_fn()),
        forall|k: int| #![trigger s@[k]] p <= k < r ==> is_hex_digit(s@[k]),
        r == s@.len() || !is_hex_digit(s@[r as int]),
{
    proof {
        lemma_run_end_bounds(s@, p as int, hex_fn());
    }
    let mut i: usize = p;
    while i < s.len() && check_hex_digit(s[i])
        invariant
            p <= i <= s@.len(),
            run_end(s@, p as int, hex_fn()) == run_end(s@, i as int, hex_fn()),
        decreases s@.len() - i,
    {
        proof {
            assert(run_end(s@, i as int, hex_fn()) == run_end(s@, i as int + 1, hex_fn()));
        }
        i += 1;
    }
    proof {
        assert(run_end(s@, i as int, hex_fn()) == i as int);
    }
    i
}

pub fn scan_digit_run(s: &[u8], p: usize) -> (r: usize)
    requires
        p <= s@.len(),
    ensures
        p <= r <= s@.len(),
        r as int == run_end(s@, p as int, digit_fn()),
        forall|k: int| #![trigger s@[k]] p <= k < r ==> is_digit(s@[k]),
        r == s@.len() || !is_digit(s@[r as int]),
{
    proof {
        lemma_run_end_bounds(s@, p as int, digit_fn());
    }
    let mut i: usize = p;
    while i < s.len() && check_digit(s[i])
        invariant
            p <= i <= s@.len(),
            run_end(s@, p as int, digit_fn()) == run_end(s@, i as int, digit_fn()),
        decreases s@.len() - i,
    {
        proof {
            assert(run_end(s@, i as int, digit_fn()) == run_end(s@, i as int + 1, digit_fn()));
        }
        i += 1;
    }
    proof {
        assert(run_end(s@, i as int, digit_fn()) == i as int);
    }
    i
}

pub fn scan_label_run(s: &[u8], p: usize) -> (r: usize)
    requires
        p <= s@.len(),
    ensures
        p <= r <= s@.len(),
        r as int == run_end(s@, p as int, label_fn()),
        forall|k: int| #![trigger s@[k]] p <= k < r ==> is_label_byte(s@[k]),
        r == s@.len() || !is_label_byte(s@[r as int]),
{
    proof {
        lemma_run_end_bounds(s@, p as int, label_fn());
    }
    let mut i: usize = p;
    while i < s.len() && check_label_byte(s[i])
        invariant
            p <= i <= s@.len(),
            run_end(s@, p as int, label_fn()) == run_end(s@, i as int, label_fn()),
        decreases s@.len() - i,
    {
        proof {
            assert(run_end(s@, i as int, label_fn()) == run_end(s@, i as int + 1, label_fn()));
        }
        i += 1;
    }
    proof {
        assert(run_end(s@, i as int, label_fn()) == i as int);
    }
    i
}

/// Copies `s[i..j]` into a fresh vector.
pub fn copy_range(s: &[u8], i: usize, j: usize) -> (v: Vec<u8>)
    requires
        i <= j <= s@.len(),
    ensures
        v@ == s@.subrange(i as int, j as int),
{
    let mut v: Vec<u8> = Vec::new();
    let mut k: usize = i;
    while k < j
        invariant
            i <= k <= j <= s@.len(),
            v@ == s@.subrange(i as int, k as int),
        decreases j - k,
    {
        v.push(s[k]);
        proof {
            assert(s@.subrange(i as int, k as int + 1) =~= s@.subrange(i as int, k as int).push(
                s@[k as int],
            ));
        }
        k += 1;
    }
    v
}

} // verus!
