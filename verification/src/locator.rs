//! The tag-block locator: extracts a tagged, optionally class-qualified,
//! span from a document without a DOM parse.
//!
//! A candidate is the next word-bounded `<tag` occurrence through the first
//! `</tag>` after it.  The close scan is deliberately not nesting-aware: a
//! nested same-named element truncates the span at its closing tag — a
//! documented limitation of the format, not corrected here.  When a class is
//! required, the candidate's opening tag must carry the literal
//! `class="<value>"` immediately after the tag name (surrounding whitespace
//! allowed); otherwise the scan resumes just past the candidate's closing
//! tag.  Matching is textual and case-sensitive throughout.

use vstd::prelude::*;
use crate::text::{match_at, spec_find, lemma_spec_find, find, is_match_at, push_all, subvec};

verus! {

/// HTML whitespace.
pub open spec fn is_space(b: u8) -> bool {
    b == 32 || b == 9 || b == 10 || b == 13
}

/// A byte that may close a tag name: whitespace, `>`, or `/`.
pub open spec fn is_boundary(b: u8) -> bool {
    is_space(b) || b == 62 || b == 47
}

/// `<` followed by the tag name.
pub open spec fn open_pat(tag: Seq<u8>) -> Seq<u8> {
    seq![60u8] + tag
}

/// `</tag>`.
pub open spec fn close_pat(tag: Seq<u8>) -> Seq<u8> {
    seq![60u8, 47u8] + tag + seq![62u8]
}

/// `class="value"`.
pub open spec fn class_pat(class: Seq<u8>) -> Seq<u8> {
    seq![99u8, 108u8, 97u8, 115u8, 115u8, 61u8, 34u8] + class + seq![34u8]
}

/// A word-bounded opening-tag occurrence at position `i`.
pub open spec fn tag_open_at(text: Seq<u8>, tag: Seq<u8>, i: int) -> bool {
    &&& match_at(text, open_pat(tag), i)
    &&& (i + 1 + tag.len() == text.len() || is_boundary(text[i + 1 + tag.len()]))
}

/// Position of the first word-bounded opening tag at or after `from`.
pub open spec fn spec_find_open(text: Seq<u8>, tag: Seq<u8>, from: int) -> Option<int>
    decreases text.len() - from,
{
    if from < 0 || from + 1 + tag.len() > text.len() {
        None
    } else if tag_open_at(text, tag, from) {
        Some(from)
    } else {
        spec_find_open(text, tag, from + 1)
    }
}

/// `spec_find_open` finds exactly the first occurrence.
pub proof fn lemma_spec_find_open(text: Seq<u8>, tag: Seq<u8>, from: int)
    requires
        0 <= from,
    ensures
        match spec_find_open(text, tag, from) {
            Some(i) => from <= i && tag_open_at(text, tag, i) && (forall|j: int|
                from <= j < i ==> !tag_open_at(text, tag, j)),
            None => forall|j: int| from <= j ==> !tag_open_at(text, tag, j),
        },
    decreases text.len() - from,
{
    if from + 1 + tag.len() > text.len() {
        assert forall|j: int| from <= j implies !tag_open_at(text, tag, j) by {
            assert(j + open_pat(tag).len() > text.len());
        }
    } else if !tag_open_at(text, tag, from) {
        lemma_spec_find_open(text, tag, from + 1);
    }
}

/// First position at or after `p` whose byte is not whitespace (or the end).
pub open spec fn spec_skip_spaces(text: Seq<u8>, p: int) -> int
    decreases text.len() - p,
{
    if p < 0 || p >= text.len() {
        p
    } else if is_space(text[p]) {
        spec_skip_spaces(text, p + 1)
    } else {
        p
    }
}

/// The opening tag at `o` carries `class="class"` immediately after its
/// name, modulo whitespace.
pub open spec fn class_at(text: Seq<u8>, tag: Seq<u8>, class: Seq<u8>, o: int) -> bool {
    match_at(text, class_pat(class), spec_skip_spaces(text, o + 1 + tag.len()))
}

/// The next candidate span at or after `from`: the first word-bounded
/// opening tag through the first closing tag after it, both inclusive.
pub open spec fn spec_candidate(text: Seq<u8>, tag: Seq<u8>, from: int) -> Option<(int, int)> {
    match spec_find_open(text, tag, from) {
        None => None,
        Some(o) => match spec_find(text, close_pat(tag), o) {
            None => None,
            Some(c) => Some((o, c + close_pat(tag).len() as int)),
        },
    }
}

/// Bounds of a candidate span.
pub proof fn lemma_spec_candidate(text: Seq<u8>, tag: Seq<u8>, from: int)
    requires
        0 <= from,
    ensures
        match spec_candidate(text, tag, from) {
            Some(sp) => from <= sp.0 < sp.1 <= text.len(),
            None => true,
        },
{
    lemma_spec_find_open(text, tag, from);
    if let Some(o) = spec_find_open(text, tag, from) {
        lemma_spec_find(text, close_pat(tag), o);
    }
}

/// The span of the first candidate at or after `from` whose opening tag
/// carries the class; candidates without it are skipped whole.
pub open spec fn spec_locate_class(text: Seq<u8>, tag: Seq<u8>, class: Seq<u8>, from: int) -> Option<
    (int, int),
>
    decreases text.len() - from,
    via spec_locate_class_decreases
{
    if from < 0 {
        None
    } else {
        match spec_candidate(text, tag, from) {
            None => None,
            Some(sp) => if class_at(text, tag, class, sp.0) {
                Some(sp)
            } else {
                spec_locate_class(text, tag, class, sp.1)
            },
        }
    }
}

#[via_fn]
proof fn spec_locate_class_decreases(text: Seq<u8>, tag: Seq<u8>, class: Seq<u8>, from: int) {
    if from >= 0 {
        lemma_spec_candidate(text, tag, from);
    }
}

/// Find the first word-bounded opening tag at or after `from`.
#[verifier::loop_isolation(false)]
fn find_open(text: &Vec<u8>, tag: &Vec<u8>, from: usize) -> (r: Option<usize>)
    requires
        from <= text.len(),
    ensures
        match r {
            Some(i) => spec_find_open(text@, tag@, from as int) == Some(i as int) && from <= i
                && tag_open_at(text@, tag@, i as int),
            None => spec_find_open(text@, tag@, from as int) is None,
        },
{
    proof {
        lemma_spec_find_open(text@, tag@, from as int);
    }
    let mut open_b: Vec<u8> = Vec::new();
    open_b.push(60);
    push_all(&mut open_b, tag);
    assert(open_b@ =~= open_pat(tag@));
    if tag.len() >= text.len() || text.len() - tag.len() - 1 < from {
        proof {
            assert forall|j: int| from <= j implies !tag_open_at(text@, tag@, j) by {
                assert(j + open_pat(tag@).len() > text@.len());
            }
            if let Some(s) = spec_find_open(text@, tag@, from as int) {
                assert(!tag_open_at(text@, tag@, s));
            }
        }
        return None;
    }
    let last = text.len() - tag.len() - 1;
    let mut i = from;
    while i <= last
        invariant
            from <= i <= last + 1,
            last == text.len() - tag.len() - 1,
            tag.len() + 1 <= text.len(),
            open_b@ == open_pat(tag@),
            forall|j: int| from <= j < i ==> !tag_open_at(text@, tag@, j),
        decreases last - i + 1,
    {
        if is_match_at(text, &open_b, i) {
            let e = i + 1 + tag.len();
            if e == text.len() || {
                let b = text[e];
                b == 32 || b == 9 || b == 10 || b == 13 || b == 62 || b == 47
            } {
                proof {
                    assert(tag_open_at(text@, tag@, i as int));
                    match spec_find_open(text@, tag@, from as int) {
                        Some(s) => {
                            if s < i {
                                assert(!tag_open_at(text@, tag@, s));
                            }
                            if i < s {
                                assert(!tag_open_at(text@, tag@, i as int));
                            }
                        },
                        None => {
                            assert(!tag_open_at(text@, tag@, i as int));
                        },
                    }
                }
                return Some(i);
            }
        }
        i += 1;
    }
    proof {
        assert forall|j: int| from <= j implies !tag_open_at(text@, tag@, j) by {
            if j > last {
                assert(j + open_pat(tag@).len() > text@.len());
            }
        }
        if let Some(s) = spec_find_open(text@, tag@, from as int) {
            assert(!tag_open_at(text@, tag@, s));
        }
    }
    None
}

/// Whether the opening tag at `o` carries the class, textually.
#[verifier::loop_isolation(false)]
fn class_match(text: &Vec<u8>, tag: &Vec<u8>, class: &Vec<u8>, o: usize) -> (b: bool)
    requires
        o + 1 + tag.len() <= text.len(),
    ensures
        b == class_at(text@, tag@, class@, o as int),
{
    let mut class_b: Vec<u8> = Vec::new();
    class_b.push(99);
    class_b.push(108);
    class_b.push(97);
    class_b.push(115);
    class_b.push(115);
    class_b.push(61);
    class_b.push(34);
    push_all(&mut class_b, class);
    class_b.push(34);
    assert(class_b@ =~= class_pat(class@));
    let start = o + 1 + tag.len();
    let mut q = start;
    #[verifier::loop_isolation(true)]
    while q < text.len()
        invariant
            start <= q <= text.len(),
            spec_skip_spaces(text@, start as int) == spec_skip_spaces(text@, q as int),
        ensures
            q <= text.len(),
            spec_skip_spaces(text@, start as int) == q as int,
        decreases text.len() - q,
    {
        let b = text[q];
        if !(b == 32 || b == 9 || b == 10 || b == 13) {
            assert(spec_skip_spaces(text@, q as int) == q as int);
            break;
        }
        q += 1;
    }
    if class_b.len() > text.len() - q {
        assert(!match_at(text@, class_pat(class@), q as int));
        return false;
    }
    is_match_at(text, &class_b, q)
}

/// Find the span of the first class-qualified element at or after `from`.
#[verifier::loop_isolation(false)]
pub fn locate_class_span(text: &Vec<u8>, tag: &Vec<u8>, class: &Vec<u8>, from: usize) -> (r: Option<
    (usize, usize),
>)
    requires
        from <= text.len(),
    ensures
        match r {
            Some(sp) => spec_locate_class(text@, tag@, class@, from as int) == Some(
                (sp.0 as int, sp.1 as int),
            ) && from <= sp.0 < sp.1 <= text.len(),
            None => spec_locate_class(text@, tag@, class@, from as int) is None,
        },
{
    let mut close_b: Vec<u8> = Vec::new();
    close_b.push(60);
    close_b.push(47);
    push_all(&mut close_b, tag);
    close_b.push(62);
    assert(close_b@ =~= close_pat(tag@));
    let mut pos = from;
    loop
        invariant
            from <= pos <= text.len(),
            close_b@ == close_pat(tag@),
            spec_locate_class(text@, tag@, class@, from as int) == spec_locate_class(
                text@,
                tag@,
                class@,
                pos as int,
            ),
        decreases text.len() - pos,
    {
        let o = match find_open(text, tag, pos) {
            Some(o) => o,
            None => {
                return None;
            },
        };
        let c = match find(text, &close_b, o) {
            Some(c) => c,
            None => {
                return None;
            },
        };
        let e = c + close_b.len();
        assert(spec_candidate(text@, tag@, pos as int) == Some((o as int, e as int)));
        if class_match(text, tag, class, o) {
            return Some((o, e));
        }
        proof {
            lemma_spec_candidate(text@, tag@, pos as int);
        }
        pos = e;
    }
}

/// Find the span of the first candidate at or after `from`, with no class
/// requirement.
pub fn locate_span(text: &Vec<u8>, tag: &Vec<u8>, from: usize) -> (r: Option<(usize, usize)>)
    requires
        from <= text.len(),
    ensures
        match r {
            Some(sp) => spec_candidate(text@, tag@, from as int) == Some((sp.0 as int, sp.1 as int))
                && from <= sp.0 < sp.1 <= text.len(),
            None => spec_candidate(text@, tag@, from as int) is None,
        },
{
    let mut close_b: Vec<u8> = Vec::new();
    close_b.push(60);
    close_b.push(47);
    push_all(&mut close_b, tag);
    close_b.push(62);
    assert(close_b@ =~= close_pat(tag@));
    let o = match find_open(text, tag, from) {
        Some(o) => o,
        None => {
            return None;
        },
    };
    let c = match find(text, &close_b, o) {
        Some(c) => c,
        None => {
            return None;
        },
    };
    Some((o, c + close_b.len()))
}

/// The tag name `body`.
pub open spec fn body_tag() -> Seq<u8> {
    seq![98u8, 111u8, 100u8, 121u8]
}

/// The tag name `table`.
pub open spec fn table_tag() -> Seq<u8> {
    seq![116u8, 97u8, 98u8, 108u8, 101u8]
}

/// The tag name `tr`.
pub open spec fn tr_tag() -> Seq<u8> {
    seq![116u8, 114u8]
}

/// The class value `title_block`.
pub open spec fn title_block_class() -> Seq<u8> {
    seq![116u8, 105u8, 116u8, 108u8, 101u8, 95u8, 98u8, 108u8, 111u8, 99u8, 107u8]
}

/// The class value `data_block`.
pub open spec fn data_block_class() -> Seq<u8> {
    seq![100u8, 97u8, 116u8, 97u8, 95u8, 98u8, 108u8, 111u8, 99u8, 107u8]
}

/// The class value `sorting_row`.
pub open spec fn sorting_row_class() -> Seq<u8> {
    seq![115u8, 111u8, 114u8, 116u8, 105u8, 110u8, 103u8, 95u8, 114u8, 111u8, 119u8]
}

/// The class value `pattern_row`.
pub open spec fn pattern_row_class() -> Seq<u8> {
    seq![112u8, 97u8, 116u8, 116u8, 101u8, 114u8, 110u8, 95u8, 114u8, 111u8, 119u8]
}

/// The bytes of `body`.
pub fn body_tag_bytes() -> (r: Vec<u8>)
    ensures
        r@ == body_tag(),
{
    let v: Vec<u8> = vec![98u8, 111u8, 100u8, 121u8];
    assert(v@ =~= body_tag());
    v
}

/// The bytes of `table`.
pub fn table_tag_bytes() -> (r: Vec<u8>)
    ensures
        r@ == table_tag(),
{
    let v: Vec<u8> = vec![116u8, 97u8, 98u8, 108u8, 101u8];
    assert(v@ =~= table_tag());
    v
}

/// The bytes of `tr`.
pub fn tr_tag_bytes() -> (r: Vec<u8>)
    ensures
        r@ == tr_tag(),
{
    let v: Vec<u8> = vec![116u8, 114u8];
    assert(v@ =~= tr_tag());
    v
}

/// The bytes of `title_block`.
pub fn title_block_class_bytes() -> (r: Vec<u8>)
    ensures
        r@ == title_block_class(),
{
    let v: Vec<u8> = vec![116u8, 105u8, 116u8, 108u8, 101u8, 95u8, 98u8, 108u8, 111u8, 99u8, 107u8];
    assert(v@ =~= title_block_class());
    v
}

/// The bytes of `data_block`.
pub fn data_block_class_bytes() -> (r: Vec<u8>)
    ensures
        r@ == data_block_class(),
{
    let v: Vec<u8> = vec![100u8, 97u8, 116u8, 97u8, 95u8, 98u8, 108u8, 111u8, 99u8, 107u8];
    assert(v@ =~= data_block_class());
    v
}

/// The bytes of `sorting_row`.
pub fn sorting_row_class_bytes() -> (r: Vec<u8>)
    ensures
        r@ == sorting_row_class(),
{
    let v: Vec<u8> = vec![115u8, 111u8, 114u8, 116u8, 105u8, 110u8, 103u8, 95u8, 114u8, 111u8, 119u8];
    assert(v@ =~= sorting_row_class());
    v
}

/// The bytes of `pattern_row`.
pub fn pattern_row_class_bytes() -> (r: Vec<u8>)
    ensures
        r@ == pattern_row_class(),
{
    let v: Vec<u8> = vec![112u8, 97u8, 116u8, 116u8, 101u8, 114u8, 110u8, 95u8, 114u8, 111u8, 119u8];
    assert(v@ =~= pattern_row_class());
    v
}

/// The `<body>` element span of a document.
pub open spec fn spec_body(doc: Seq<u8>) -> Option<Seq<u8>> {
    match spec_candidate(doc, body_tag(), 0) {
        Some(sp) => Some(doc.subrange(sp.0, sp.1)),
        None => None,
    }
}

/// The span of the first `tag` element carrying `class`, at or after `from`.
pub open spec fn spec_class_block(doc: Seq<u8>, tag: Seq<u8>, class: Seq<u8>, from: int) -> Option<
    Seq<u8>,
> {
    match spec_locate_class(doc, tag, class, from) {
        Some(sp) => Some(doc.subrange(sp.0, sp.1)),
        None => None,
    }
}

/// The `<table class="title_block">` span.
pub open spec fn spec_title_block(doc: Seq<u8>) -> Option<Seq<u8>> {
    spec_class_block(doc, table_tag(), title_block_class(), 0)
}

/// The `<table class="data_block">` span.
pub open spec fn spec_data_block(doc: Seq<u8>) -> Option<Seq<u8>> {
    spec_class_block(doc, table_tag(), data_block_class(), 0)
}

/// Title block, then data block in the text after it.
pub open spec fn spec_blocks(doc: Seq<u8>) -> Option<(Seq<u8>, Seq<u8>)> {
    match spec_locate_class(doc, table_tag(), title_block_class(), 0) {
        None => None,
        Some(tsp) => match spec_locate_class(doc, table_tag(), data_block_class(), tsp.1) {
            None => None,
            Some(dsp) => Some((doc.subrange(tsp.0, tsp.1), doc.subrange(dsp.0, dsp.1))),
        },
    }
}

/// The `<tr class="sorting_row">` span.
pub open spec fn spec_sorting_row(doc: Seq<u8>) -> Option<Seq<u8>> {
    spec_class_block(doc, tr_tag(), sorting_row_class(), 0)
}

/// The `<tr class="pattern_row">` span at or after `from`.
pub open spec fn spec_pattern_row_from(doc: Seq<u8>, from: int) -> Option<Seq<u8>> {
    spec_class_block(doc, tr_tag(), pattern_row_class(), from)
}

/// Sorting row, then pattern row in the text after it (from the start when
/// there is no sorting row).
pub open spec fn spec_rows(doc: Seq<u8>) -> (Option<Seq<u8>>, Option<Seq<u8>>) {
    match spec_locate_class(doc, tr_tag(), sorting_row_class(), 0) {
        Some(ssp) => (Some(doc.subrange(ssp.0, ssp.1)), spec_pattern_row_from(doc, ssp.1)),
        None => (None, spec_pattern_row_from(doc, 0)),
    }
}

/// Extract the `<body>` element of a document.
pub fn body(s: &Vec<u8>) -> (r: Option<Vec<u8>>)
    ensures
        match r {
            Some(v) => spec_body(s@) == Some(v@),
            None => spec_body(s@) is None,
        },
{
    let tag = body_tag_bytes();
    match locate_span(s, &tag, 0) {
        Some(sp) => Some(subvec(s, sp.0, sp.1)),
        None => None,
    }
}

/// Extract the `<table class="title_block">` element.
pub fn title_block(s: &Vec<u8>) -> (r: Option<Vec<u8>>)
    ensures
        match r {
            Some(v) => spec_title_block(s@) == Some(v@),
            None => spec_title_block(s@) is None,
        },
{
    let tag = table_tag_bytes();
    let class = title_block_class_bytes();
    match locate_class_span(s, &tag, &class, 0) {
        Some(sp) => Some(subvec(s, sp.0, sp.1)),
        None => None,
    }
}

/// Extract the `<table class="data_block">` element.
pub fn data_block(s: &Vec<u8>) -> (r: Option<Vec<u8>>)
    ensures
        match r {
            Some(v) => spec_data_block(s@) == Some(v@),
            None => spec_data_block(s@) is None,
        },
{
    let tag = table_tag_bytes();
    let class = data_block_class_bytes();
    match locate_class_span(s, &tag, &class, 0) {
        Some(sp) => Some(subvec(s, sp.0, sp.1)),
        None => None,
    }
}

/// Extract the title block, then the data block from the text after it.
pub fn blocks(s: &Vec<u8>) -> (r: Option<(Vec<u8>, Vec<u8>)>)
    ensures
        match r {
            Some(p) => spec_blocks(s@) == Some((p.0@, p.1@)),
            None => spec_blocks(s@) is None,
        },
{
    let tag = table_tag_bytes();
    let title_class = title_block_class_bytes();
    let data_class = data_block_class_bytes();
    let tsp = match locate_class_span(s, &tag, &title_class, 0) {
        Some(tsp) => tsp,
        None => {
            return None;
        },
    };
    let dsp = match locate_class_span(s, &tag, &data_class, tsp.1) {
        Some(dsp) => dsp,
        None => {
            return None;
        },
    };
    Some((subvec(s, tsp.0, tsp.1), subvec(s, dsp.0, dsp.1)))
}

/// Extract the `<tr class="sorting_row">` element, if present.
pub fn sorting_row(s: &Vec<u8>) -> (r: Option<Vec<u8>>)
    ensures
        match r {
            Some(v) => spec_sorting_row(s@) == Some(v@),
            None => spec_sorting_row(s@) is None,
        },
{
    let tag = tr_tag_bytes();
    let class = sorting_row_class_bytes();
    match locate_class_span(s, &tag, &class, 0) {
        Some(sp) => Some(subvec(s, sp.0, sp.1)),
        None => None,
    }
}

/// Extract the `<tr class="pattern_row">` element, if present.
pub fn pattern_row(s: &Vec<u8>) -> (r: Option<Vec<u8>>)
    ensures
        match r {
            Some(v) => spec_pattern_row_from(s@, 0) == Some(v@),
            None => spec_pattern_row_from(s@, 0) is None,
        },
{
    let tag = tr_tag_bytes();
    let class = pattern_row_class_bytes();
    match locate_class_span(s, &tag, &class, 0) {
        Some(sp) => Some(subvec(s, sp.0, sp.1)),
        None => None,
    }
}

/// Extract the sorting row and the pattern row after it, either optional.
pub fn rows(s: &Vec<u8>) -> (r: (Option<Vec<u8>>, Option<Vec<u8>>))
    ensures
        ({
            let sr = spec_rows(s@);
            &&& (match r.0 {
                Some(v) => sr.0 == Some(v@),
                None => sr.0 is None,
            })
            &&& (match r.1 {
                Some(v) => sr.1 == Some(v@),
                None => sr.1 is None,
            })
        }),
{
    let tag = tr_tag_bytes();
    let s_class = sorting_row_class_bytes();
    let p_class = pattern_row_class_bytes();
    match locate_class_span(s, &tag, &s_class, 0) {
        Some(ssp) => {
            let sr = subvec(s, ssp.0, ssp.1);
            match locate_class_span(s, &tag, &p_class, ssp.1) {
                Some(psp) => (Some(sr), Some(subvec(s, psp.0, psp.1))),
                None => (Some(sr), None),
            }
        },
        None => {
            match locate_class_span(s, &tag, &p_class, 0) {
                Some(psp) => (None, Some(subvec(s, psp.0, psp.1))),
                None => (None, None),
            }
        },
    }
}

} // verus!
