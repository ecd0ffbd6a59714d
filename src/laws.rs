//! Properties of the token sequence that hold for every input.
use vstd::prelude::*;
use crate::scanning::{
    byte_at, digits_end, is_digit, is_space, letters_end, lemma_digits_end_bounds,
    lemma_skip_spaces_bounds, is_letter, keywords, lemma_letters_end_bounds, lemma_scan_progress, operator_pair, scan,
    skip_spaces, tokens_from, tokens_of, ascii_chars, BANG, EQUALS, GREATER, LESS, UNDERSCORE,
};
use crate::lexer::Lexer;
use crate::token::TokenView;

verus! {

/// Scanning is total: a request from within the input either consumes
/// input or yields the end marker with the cursor one past the end; at or
/// past the end every request yields the end marker again and advances the
/// cursor by one. The requests from any position thus yield a finite
/// sequence, at most one token per remaining byte plus the end marker, which
/// comes last and only there.
pub proof fn lemma_totality(s: Seq<u8>, p: int)
    requires
        0 <= p <= s.len(),
    ensures
        scan(s, p).0 is Eof ==> scan(s, p).1 == s.len() + 1,
        !(scan(s, p).0 is Eof) ==> p < scan(s, p).1 <= s.len(),
        forall|n: int| n >= s.len() ==> #[trigger] scan(s, n) == (TokenView::Eof, n + 1),
        1 <= tokens_from(s, p).len() <= s.len() - p + 1,
        tokens_from(s, p).last() is Eof,
        forall|i: int| 0 <= i < tokens_from(s, p).len() - 1 ==> !(#[trigger] tokens_from(s, p)[i] is Eof),
    decreases s.len() - p,
{
    lemma_scan_progress(s, p);
    let (t, q) = scan(s, p);
    if !(t is Eof) {
        lemma_totality(s, q);
        let rest = tokens_from(s, q);
        assert(tokens_from(s, p) == seq![t] + rest);
        assert forall|i: int| 0 <= i < tokens_from(s, p).len() - 1 implies !(#[trigger] tokens_from(s, p)[i] is Eof) by {
            if i > 0 {
                assert(tokens_from(s, p)[i] == rest[i - 1]);
            }
        }
    }
}

/// Scanning is deterministic: two consistent scanners over the same input
/// with their cursors at the same position are in the same state, so the
/// next request of each yields the same token and moves both cursors to the
/// same position. Fresh scanners over equal strings start so (see
/// `Lexer::new`), and hence agree on every request that follows.
pub proof fn lemma_determinism(a: &Lexer, b: &Lexer)
    requires
        a.wf(),
        b.wf(),
        a@.input == b@.input,
        a@.position == b@.position,
    ensures
        a@ == b@,
        scan(a@.input, a@.position) == scan(b@.input, b@.position),
{
}

/// The cursor position after `k` requests made from position `p`.
pub open spec fn after_requests(s: Seq<u8>, p: int, k: nat) -> int
    decreases k,
{
    if k == 0 {
        p
    } else {
        after_requests(s, scan(s, p).1, (k - 1) as nat)
    }
}

/// The token sequence of an input lists what the requests of a fresh scanner
/// yield, one request after another: the request numbered `k` (from 0) is
/// made at `after_requests(s, 0, k)` and yields the `k`-th token.
pub proof fn lemma_requests_yield_tokens(s: Seq<u8>, k: nat)
    requires
        k < tokens_of(s).len(),
    ensures
        scan(s, after_requests(s, 0, k)).0 == tokens_of(s)[k as int],
{
    lemma_requests_from(s, 0, k);
}

proof fn lemma_requests_from(s: Seq<u8>, p: int, k: nat)
    requires
        0 <= p <= s.len(),
        k < tokens_from(s, p).len(),
    ensures
        scan(s, after_requests(s, p, k)).0 == tokens_from(s, p)[k as int],
    decreases k,
{
    lemma_scan_progress(s, p);
    if k > 0 {
        let q = scan(s, p).1;
        lemma_requests_from(s, q, (k - 1) as nat);
    }
}

/// A word that starts with a letter runs over the longest span of letters,
/// and yields a keyword exactly when the span spells one; otherwise an
/// identifier with the span's text.
pub proof fn lemma_keyword_partition(s: Seq<u8>, p: int)
    requires
        0 <= p,
        skip_spaces(s, p) < s.len(),
        is_letter(s[skip_spaces(s, p)]),
    ensures
        ({
            let k = skip_spaces(s, p);
            let (t, q) = scan(s, p);
            let w = s.subrange(k, q);
            &&& k < q <= s.len()
            &&& forall|i: int| 0 <= i < w.len() ==> is_letter(#[trigger] w[i])
            &&& q < s.len() ==> !is_letter(s[q])
            &&& t.is_keyword() <==> keywords().contains(w)
            &&& !keywords().contains(w) ==> t == TokenView::Ident(ascii_chars(w))
        }),
{
    let k = skip_spaces(s, p);
    lemma_skip_spaces_bounds(s, p);
    lemma_letters_end_bounds(s, k + 1);
    let (t, q) = scan(s, p);
    let w = s.subrange(k, q);
    assert forall|i: int| 0 <= i < w.len() implies is_letter(#[trigger] w[i]) by {
        assert(w[i] == s[k + i]);
    }
}

/// The operators `==`, `!=`, `<=` and `>=` at the start of a token are one
/// token each, never two.
pub proof fn lemma_two_byte_operators(s: Seq<u8>, p: int)
    requires
        0 <= p,
        skip_spaces(s, p) + 1 < s.len(),
        operator_pair(s[skip_spaces(s, p)]) is Some,
        s[skip_spaces(s, p) + 1] == EQUALS,
    ensures
        ({
            let k = skip_spaces(s, p);
            &&& scan(s, p).1 == k + 2
            &&& s[k] == EQUALS ==> scan(s, p).0 == TokenView::Equal
            &&& s[k] == BANG ==> scan(s, p).0 == TokenView::NotEqual
            &&& s[k] == LESS ==> scan(s, p).0 == TokenView::LessThanOrEqual
            &&& s[k] == GREATER ==> scan(s, p).0 == TokenView::GreaterThanOrEqual
        }),
{
    lemma_skip_spaces_bounds(s, p);
}

/// Whether every byte of `w` is whitespace.
pub open spec fn all_spaces(w: Seq<u8>) -> bool {
    forall|i: int| 0 <= i < w.len() ==> is_space(#[trigger] w[i])
}

/// `s` with `w` inserted at position `p`.
pub open spec fn insert_at(s: Seq<u8>, p: int, w: Seq<u8>) -> Seq<u8> {
    s.subrange(0, p) + w + s.subrange(p, s.len() as int)
}

/// Whether `p` lies between tokens for the requests made from `from` on:
/// one of them starts at or before `p`, and only whitespace lies between
/// its start and `p`. This takes in the start of the input and the end of
/// the input.
pub open spec fn reaches(s: Seq<u8>, from: int, p: int) -> bool
    decreases s.len() - from,
    via reaches_decreases
{
    if from <= p <= skip_spaces(s, from) {
        true
    } else {
        let (t, q) = scan(s, from);
        !(t is Eof) && reaches(s, q, p)
    }
}

#[via_fn]
proof fn reaches_decreases(s: Seq<u8>, from: int, p: int) {
    lemma_scan_progress(s, from);
}

/// `t` from `a + d` on is `s` from `a` on.
pub open spec fn shifted(s: Seq<u8>, t: Seq<u8>, a: int, d: int) -> bool {
    &&& 0 <= a
    &&& 0 <= a + d
    &&& t.len() == s.len() + d
    &&& forall|i: int| a <= i < s.len() ==> #[trigger] t[i + d] == s[i]
}

proof fn lemma_skip_shift(s: Seq<u8>, t: Seq<u8>, a: int, d: int, i: int)
    requires
        shifted(s, t, a, d),
        a <= i,
    ensures
        skip_spaces(t, i + d) == skip_spaces(s, i) + d,
    decreases s.len() - i,
{
    if i < s.len() {
        assert(t[i + d] == s[i]);
        lemma_skip_shift(s, t, a, d, i + 1);
    }
}

proof fn lemma_letters_shift(s: Seq<u8>, t: Seq<u8>, a: int, d: int, i: int)
    requires
        shifted(s, t, a, d),
        a <= i,
    ensures
        letters_end(t, i + d) == letters_end(s, i) + d,
    decreases s.len() - i,
{
    if i < s.len() {
        assert(t[i + d] == s[i]);
        lemma_letters_shift(s, t, a, d, i + 1);
    }
}

proof fn lemma_digits_shift(s: Seq<u8>, t: Seq<u8>, a: int, d: int, i: int)
    requires
        shifted(s, t, a, d),
        a <= i,
    ensures
        digits_end(t, i + d) == digits_end(s, i) + d,
    decreases s.len() - i,
{
    if i < s.len() {
        assert(t[i + d] == s[i]);
        lemma_digits_shift(s, t, a, d, i + 1);
    }
}

proof fn lemma_scan_shift(s: Seq<u8>, t: Seq<u8>, a: int, d: int, i: int)
    requires
        shifted(s, t, a, d),
        a <= i,
    ensures
        scan(t, i + d) == (scan(s, i).0, scan(s, i).1 + d),
{
    lemma_skip_shift(s, t, a, d, i);
    lemma_skip_spaces_bounds(s, i);
    let k = skip_spaces(s, i);
    if k < s.len() {
        assert(t[k + d] == s[k]);
        assert(byte_at(t, k + 1 + d) == byte_at(s, k + 1));
        lemma_letters_shift(s, t, a, d, k + 1);
        lemma_digits_shift(s, t, a, d, k + 1);
        lemma_letters_end_bounds(s, k + 1);
        lemma_digits_end_bounds(s, k + 1);
        let e = letters_end(s, k + 1);
        let f = digits_end(s, k + 1);
        assert(t.subrange(k + d, e + d) =~= s.subrange(k, e)) by {
            assert forall|j: int| 0 <= j < e - k implies t.subrange(k + d, e + d)[j] == s.subrange(
                k,
                e,
            )[j] by {
                assert(t[(k + j) + d] == s[k + j]);
            }
        }
        assert(t.subrange(k + d, f + d) =~= s.subrange(k, f)) by {
            assert forall|j: int| 0 <= j < f - k implies t.subrange(k + d, f + d)[j] == s.subrange(
                k,
                f,
            )[j] by {
                assert(t[(k + j) + d] == s[k + j]);
            }
        }
    }
}

proof fn lemma_tokens_shift(s: Seq<u8>, t: Seq<u8>, a: int, d: int, i: int)
    requires
        shifted(s, t, a, d),
        a <= i,
    ensures
        tokens_from(t, i + d) == tokens_from(s, i),
    decreases s.len() - i,
{
    lemma_scan_shift(s, t, a, d, i);
    lemma_scan_progress(s, i);
    let (tok, q) = scan(s, i);
    if !(tok is Eof) {
        lemma_tokens_shift(s, t, a, d, q);
    }
}

/// `t` and `s` agree before `p`, and `t` holds whitespace at `p` or ends
/// there.
pub open spec fn agree_before(s: Seq<u8>, t: Seq<u8>, p: int) -> bool {
    &&& 0 <= p <= s.len()
    &&& p <= t.len()
    &&& forall|j: int| 0 <= j < p ==> #[trigger] t[j] == s[j]
    &&& p < t.len() ==> is_space(t[p])
}

proof fn lemma_skip_agree(s: Seq<u8>, t: Seq<u8>, p: int, i: int)
    requires
        agree_before(s, t, p),
        0 <= i,
        skip_spaces(s, i) < p,
    ensures
        skip_spaces(t, i) == skip_spaces(s, i),
    decreases s.len() - i,
{
    lemma_skip_spaces_bounds(s, i);
    assert(t[i] == s[i]);
    if i < s.len() && is_space(s[i]) {
        lemma_skip_agree(s, t, p, i + 1);
    }
}

proof fn lemma_letters_agree(s: Seq<u8>, t: Seq<u8>, p: int, i: int)
    requires
        agree_before(s, t, p),
        0 <= i,
        letters_end(s, i) <= p,
    ensures
        letters_end(t, i) == letters_end(s, i),
    decreases s.len() - i,
{
    lemma_letters_end_bounds(s, i);
    if i < p {
        assert(t[i] == s[i]);
    }
    if i < s.len() && is_letter(s[i]) {
        lemma_letters_end_bounds(s, i + 1);
        lemma_letters_agree(s, t, p, i + 1);
    }
}

proof fn lemma_digits_agree(s: Seq<u8>, t: Seq<u8>, p: int, i: int)
    requires
        agree_before(s, t, p),
        0 <= i,
        digits_end(s, i) <= p,
    ensures
        digits_end(t, i) == digits_end(s, i),
    decreases s.len() - i,
{
    lemma_digits_end_bounds(s, i);
    if i < p {
        assert(t[i] == s[i]);
    }
    if i < s.len() && is_digit(s[i]) {
        lemma_digits_end_bounds(s, i + 1);
        lemma_digits_agree(s, t, p, i + 1);
    }
}

/// A token that ends by `p` is scanned alike in both inputs.
proof fn lemma_scan_agree(s: Seq<u8>, t: Seq<u8>, p: int, i: int)
    requires
        agree_before(s, t, p),
        0 <= i,
        !(scan(s, i).0 is Eof),
        scan(s, i).1 <= p,
    ensures
        scan(t, i) == scan(s, i),
{
    lemma_skip_spaces_bounds(s, i);
    let k = skip_spaces(s, i);
    lemma_letters_end_bounds(s, k + 1);
    lemma_digits_end_bounds(s, k + 1);
    lemma_skip_agree(s, t, p, i);
    assert(t[k] == s[k]);
    if k + 1 < p {
        assert(t[k + 1] == s[k + 1]);
    }
    let e = letters_end(s, k + 1);
    let f = digits_end(s, k + 1);
    if is_letter(s[k]) || s[k] == UNDERSCORE {
        lemma_letters_agree(s, t, p, k + 1);
        assert(t.subrange(k, e) =~= s.subrange(k, e));
    }
    if is_digit(s[k]) {
        lemma_digits_agree(s, t, p, k + 1);
        assert(t.subrange(k, f) =~= s.subrange(k, f));
    }
}

proof fn lemma_reaches_bounds(s: Seq<u8>, from: int, p: int)
    requires
        0 <= from <= s.len(),
        reaches(s, from, p),
    ensures
        from <= p <= s.len(),
    decreases s.len() - from,
{
    lemma_skip_spaces_bounds(s, from);
    if !(from <= p <= skip_spaces(s, from)) {
        lemma_scan_progress(s, from);
        lemma_reaches_bounds(s, scan(s, from).1, p);
    }
}

proof fn lemma_skip_run(t: Seq<u8>, p: int, n: int)
    requires
        0 <= p,
        0 <= n,
        p + n <= t.len(),
        forall|j: int| p <= j < p + n ==> is_space(#[trigger] t[j]),
    ensures
        skip_spaces(t, p) == skip_spaces(t, p + n),
    decreases n,
{
    if n > 0 {
        assert(is_space(t[p]));
        lemma_skip_run(t, p + 1, n - 1);
    }
}

proof fn lemma_tokens_agree(s: Seq<u8>, p: int, w: Seq<u8>, from: int)
    requires
        0 <= from <= p <= s.len(),
        0 < w.len(),
        all_spaces(w),
        reaches(s, from, p),
    ensures
        tokens_from(insert_at(s, p, w), from) == tokens_from(s, from),
    decreases s.len() - from,
{
    let t = insert_at(s, p, w);
    let n = w.len() as int;
    lemma_skip_spaces_bounds(s, from);
    if from <= p <= skip_spaces(s, from) {
        assert forall|j: int| from <= j < p + n implies is_space(#[trigger] t[j]) by {
            if j < p {
                assert(t[j] == s[j]);
            } else {
                assert(t[j] == w[j - p]);
            }
        }
        lemma_skip_run(t, from, p + n - from);
        assert forall|j: int| from <= j < p implies is_space(#[trigger] s[j]) by {}
        lemma_skip_run(s, from, p - from);
        assert(scan(t, from) == scan(t, p + n));
        assert(scan(s, from) == scan(s, p));
        assert(tokens_from(t, from) == tokens_from(t, p + n));
        assert(tokens_from(s, from) == tokens_from(s, p));
        assert forall|i: int| p <= i < s.len() implies #[trigger] t[i + n] == s[i] by {}
        lemma_tokens_shift(s, t, p, n, p);
    } else {
        lemma_scan_progress(s, from);
        let (tok, q) = scan(s, from);
        lemma_reaches_bounds(s, q, p);
        assert(agree_before(s, t, p)) by {
            assert(is_space(w[0]));
        }
        lemma_scan_agree(s, t, p, from);
        lemma_tokens_agree(s, p, w, q);
    }
}

/// Inserting a run of whitespace between tokens (before the first, after
/// the last, or inside the whitespace between two) leaves the token sequence
/// unchanged; read backwards, so does removing a run whose removal leaves
/// such a place where it stood.
pub proof fn lemma_whitespace_transparency(s: Seq<u8>, p: int, w: Seq<u8>)
    requires
        reaches(s, 0, p),
        all_spaces(w),
    ensures
        tokens_of(insert_at(s, p, w)) == tokens_of(s),
{
    lemma_reaches_bounds(s, 0, p);
    if w.len() == 0 {
        assert(insert_at(s, p, w) =~= s);
    } else {
        lemma_tokens_agree(s, p, w, 0);
    }
}

} // verus!
