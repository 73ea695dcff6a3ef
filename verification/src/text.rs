//! Literal search and replacement over byte strings.
//!
//! Documents, tags, class names and substitution tokens are all byte strings
//! (`Vec<u8>`), and every operation of the locator and the renderer reduces
//! to finding or replacing literal occurrences of one byte string inside
//! another.  The spec-level model is built from [`spec_find`] (the leftmost
//! occurrence at or after a position), [`spec_replace_first`] and
//! [`spec_replace_all`].  An empty pattern is defined to occur nowhere, so
//! replacing it is a no-op.

use vstd::prelude::*;
use vstd::slice::{slice_subrange, slice_to_vec};

verus! {

/// `pat` occurs in `text` starting at position `i`.
pub open spec fn match_at(text: Seq<u8>, pat: Seq<u8>, i: int) -> bool {
    0 <= i && i + pat.len() <= text.len() && text.subrange(i, i + pat.len() as int) == pat
}

/// Position of the leftmost occurrence of the non-empty pattern `pat` in
/// `text` at or after `from`, if any.
pub open spec fn spec_find(text: Seq<u8>, pat: Seq<u8>, from: int) -> Option<int>
    decreases text.len() - from,
{
    if from < 0 || pat.len() == 0 || from + pat.len() > text.len() {
        None
    } else if text.subrange(from, from + pat.len() as int) == pat {
        Some(from)
    } else {
        spec_find(text, pat, from + 1)
    }
}

/// `spec_find` returns exactly the leftmost match at or after `from`.
pub proof fn lemma_spec_find(text: Seq<u8>, pat: Seq<u8>, from: int)
    requires
        0 <= from,
        pat.len() > 0,
    ensures
        match spec_find(text, pat, from) {
            Some(i) => from <= i && match_at(text, pat, i) && (forall|j: int|
                from <= j < i ==> !match_at(text, pat, j)),
            None => forall|j: int| from <= j ==> !match_at(text, pat, j),
        },
    decreases text.len() - from,
{
    if from + pat.len() > text.len() {
        assert forall|j: int| from <= j implies !match_at(text, pat, j) by {}
    } else if text.subrange(from, from + pat.len() as int) == pat {
    } else {
        assert(!match_at(text, pat, from));
        lemma_spec_find(text, pat, from + 1);
    }
}

/// Whether `pat` occurs at position `i` of `text`.
#[verifier::loop_isolation(false)]
pub fn is_match_at(text: &Vec<u8>, pat: &Vec<u8>, i: usize) -> (b: bool)
    requires
        i <= text.len(),
        pat.len() <= text.len() - i,
    ensures
        b == match_at(text@, pat@, i as int),
{
    let mut j: usize = 0;
    while j < pat.len()
        invariant
            j <= pat.len(),
            forall|k: int| 0 <= k < j ==> text@[i + k] == pat@[k],
        decreases pat.len() - j,
    {
        if text[i + j] != pat[j] {
            assert(!match_at(text@, pat@, i as int)) by {
                assert(text@.subrange(i as int, i + pat@.len() as int) != pat@) by {
                    assert(text@.subrange(i as int, i + pat@.len() as int)[j as int]
                        == text@[i + j]);
                }
            }
            return false;
        }
        j += 1;
    }
    assert(text@.subrange(i as int, i + pat@.len() as int) =~= pat@);
    true
}

/// Leftmost occurrence of `pat` in `text` at or after `from`.
#[verifier::loop_isolation(false)]
pub fn find(text: &Vec<u8>, pat: &Vec<u8>, from: usize) -> (r: Option<usize>)
    requires
        from <= text.len(),
    ensures
        match r {
            Some(i) => spec_find(text@, pat@, from as int) == Some(i as int)
                && from <= i && match_at(text@, pat@, i as int),
            None => spec_find(text@, pat@, from as int) is None,
        },
{
    if pat.len() == 0 || pat.len() > text.len() {
        return None;
    }
    proof {
        lemma_spec_find(text@, pat@, from as int);
    }
    let last = text.len() - pat.len();
    if from > last {
        return None;
    }
    let mut i = from;
    while i <= last
        invariant
            from <= i <= last + 1,
            forall|j: int| from <= j < i ==> !match_at(text@, pat@, j),
        decreases last - i + 1,
    {
        if is_match_at(text, pat, i) {
            proof {
                match spec_find(text@, pat@, from as int) {
                    Some(s) => {
                        if s < i {
                            assert(!match_at(text@, pat@, s));
                        }
                        if i < s {
                            assert(!match_at(text@, pat@, i as int));
                        }
                    },
                    None => {
                        assert(!match_at(text@, pat@, i as int));
                    },
                }
            }
            return Some(i);
        }
        i += 1;
    }
    proof {
        assert forall|j: int| from <= j implies !match_at(text@, pat@, j) by {
            if j > last {
                assert(j + pat@.len() > text@.len());
            }
        }
        if let Some(s) = spec_find(text@, pat@, from as int) {
            assert(!match_at(text@, pat@, s));
        }
    }
    None
}

/// Copy of `text[a..b]`.
pub fn subvec(text: &Vec<u8>, a: usize, b: usize) -> (r: Vec<u8>)
    requires
        a <= b <= text.len(),
    ensures
        r@ == text@.subrange(a as int, b as int),
{
    slice_to_vec(slice_subrange(text.as_slice(), a, b))
}

/// Fresh copy of a byte string.
pub fn copy_bytes(v: &Vec<u8>) -> (r: Vec<u8>)
    ensures
        r@ == v@,
{
    let r = subvec(v, 0, v.len());
    proof {
        assert(v@.subrange(0, v@.len() as int) =~= v@);
    }
    r
}

/// Append all of `v` to `out`.
#[verifier::loop_isolation(false)]
pub fn push_all(out: &mut Vec<u8>, v: &Vec<u8>)
    ensures
        final(out)@ == old(out)@ + v@,
{
    let mut k: usize = 0;
    while k < v.len()
        invariant
            k <= v.len(),
            out@ == old(out)@ + v@.subrange(0, k as int),
        decreases v.len() - k,
    {
        out.push(v[k]);
        assert(out@ =~= old(out)@ + v@.subrange(0, k + 1));
        k += 1;
    }
    assert(out@ =~= old(out)@ + v@);
}

/// Append `text[a..b]` to `out`.
#[verifier::loop_isolation(false)]
pub fn push_range(out: &mut Vec<u8>, text: &Vec<u8>, a: usize, b: usize)
    requires
        a <= b <= text.len(),
    ensures
        final(out)@ == old(out)@ + text@.subrange(a as int, b as int),
{
    let mut k: usize = a;
    while k < b
        invariant
            a <= k <= b,
            out@ == old(out)@ + text@.subrange(a as int, k as int),
        decreases b - k,
    {
        out.push(text[k]);
        assert(out@ =~= old(out)@ + text@.subrange(a as int, k + 1));
        k += 1;
    }
}

/// Whether two byte strings hold the same bytes.
pub fn bytes_eq(a: &Vec<u8>, b: &Vec<u8>) -> (r: bool)
    ensures
        r == (a@ == b@),
{
    if a.len() != b.len() {
        return false;
    }
    let r = is_match_at(a, b, 0);
    proof {
        assert(a@.subrange(0, b@.len() as int) =~= a@);
    }
    r
}

/// `text` with the leftmost occurrence of `pat` replaced by `rep`; `text`
/// itself if `pat` does not occur.
pub open spec fn spec_replace_first(text: Seq<u8>, pat: Seq<u8>, rep: Seq<u8>) -> Seq<u8> {
    match spec_find(text, pat, 0) {
        Some(i) => text.subrange(0, i) + rep + text.subrange(
            i + pat.len() as int,
            text.len() as int,
        ),
        None => text,
    }
}

/// Replace the leftmost occurrence of `pat` in `text` by `rep`.
pub fn replace_first(text: &Vec<u8>, pat: &Vec<u8>, rep: &Vec<u8>) -> (r: Vec<u8>)
    ensures
        r@ == spec_replace_first(text@, pat@, rep@),
{
    match find(text, pat, 0) {
        Some(i) => {
            let mut out = subvec(text, 0, i);
            push_all(&mut out, rep);
            push_range(&mut out, text, i + pat.len(), text.len());
            out
        },
        None => subvec(text, 0, text.len()),
    }
}

/// `text` with every literal occurrence of the non-empty pattern `pat`
/// replaced by `rep`, scanning left to right without rescanning replacements.
pub open spec fn spec_replace_all(text: Seq<u8>, pat: Seq<u8>, rep: Seq<u8>) -> Seq<u8>
    decreases text.len(),
{
    if pat.len() == 0 || text.len() < pat.len() {
        text
    } else if text.subrange(0, pat.len() as int) == pat {
        rep + spec_replace_all(text.skip(pat.len() as int), pat, rep)
    } else {
        seq![text[0]] + spec_replace_all(text.skip(1), pat, rep)
    }
}

/// Replace every occurrence of `pat` in `text` by `rep`, left to right.
#[verifier::loop_isolation(false)]
pub fn replace_all(text: &Vec<u8>, pat: &Vec<u8>, rep: &Vec<u8>) -> (r: Vec<u8>)
    ensures
        r@ == spec_replace_all(text@, pat@, rep@),
{
    if pat.len() == 0 {
        return subvec(text, 0, text.len());
    }
    let mut out: Vec<u8> = Vec::new();
    let mut i: usize = 0;
    proof {
        assert(text@.skip(0) =~= text@);
        assert(Seq::<u8>::empty() + spec_replace_all(text@, pat@, rep@) =~= spec_replace_all(
            text@,
            pat@,
            rep@,
        ));
    }
    while text.len() - i >= pat.len()
        invariant
            i <= text.len(),
            spec_replace_all(text@, pat@, rep@) == out@ + spec_replace_all(
                text@.skip(i as int),
                pat@,
                rep@,
            ),
        decreases text.len() - i,
    {
        let ghost tail = text@.skip(i as int);
        assert(tail.subrange(0, pat@.len() as int) =~= text@.subrange(
            i as int,
            i + pat@.len() as int,
        ));
        if is_match_at(text, pat, i) {
            push_all(&mut out, rep);
            proof {
                assert(spec_replace_all(tail, pat@, rep@) == rep@ + spec_replace_all(
                    tail.skip(pat@.len() as int),
                    pat@,
                    rep@,
                ));
                assert(tail.skip(pat@.len() as int) =~= text@.skip(i + pat@.len() as int));
            }
            i += pat.len();
            assert(spec_replace_all(text@, pat@, rep@) =~= out@ + spec_replace_all(
                text@.skip(i as int),
                pat@,
                rep@,
            ));
        } else {
            let b = text[i];
            out.push(b);
            proof {
                assert(spec_replace_all(tail, pat@, rep@) == seq![tail[0]] + spec_replace_all(
                    tail.skip(1),
                    pat@,
                    rep@,
                ));
                assert(tail[0] == text@[i as int]);
                assert(tail.skip(1) =~= text@.skip(i + 1));
            }
            i += 1;
            assert(spec_replace_all(text@, pat@, rep@) =~= out@ + spec_replace_all(
                text@.skip(i as int),
                pat@,
                rep@,
            ));
        }
    }
    proof {
        assert(spec_replace_all(text@.skip(i as int), pat@, rep@) == text@.skip(i as int));
    }
    push_range(&mut out, text, i, text.len());
    assert(out@ =~= spec_replace_all(text@, pat@, rep@));
    out
}

/// Decimal digits of `n`, most significant first.
pub open spec fn spec_decimal(n: nat) -> Seq<u8>
    decreases n,
{
    if n < 10 {
        seq![(48 + n) as u8]
    } else {
        spec_decimal(n / 10) + seq![(48 + n % 10) as u8]
    }
}

/// Render `n` in decimal.
pub fn decimal(n: usize) -> (r: Vec<u8>)
    ensures
        r@ == spec_decimal(n as nat),
    decreases n,
{
    if n < 10 {
        let mut v: Vec<u8> = Vec::new();
        v.push(48 + (n as u8));
        assert(v@ =~= spec_decimal(n as nat));
        v
    } else {
        let mut v = decimal(n / 10);
        v.push(48 + ((n % 10) as u8));
        assert(v@ =~= spec_decimal(n as nat));
        v
    }
}

} // verus!
