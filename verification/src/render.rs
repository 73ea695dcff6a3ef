//! The renderer: replicates the template's row fragments over grouped part
//! records and substitutes tokens, then splices the rendered data block into
//! the raw document and applies the global variables.
//!
//! Tokens are textual: a header `h` is substituted at every literal
//! occurrence of `_h`; `~n` carries the 1-based ordinal within a group and
//! `~id` the raw part id; a global key `k` is substituted at every literal
//! occurrence of `{{k}}`.  Global substitution runs strictly after the
//! row-level pass, so a global key colliding with a header name can never
//! clobber an unfilled row placeholder.

use vstd::prelude::*;
use crate::grouping::{cell_is_name, spec_sort_values};
use crate::model::{
    Buffer, BufferValue, Error, Part, PartDataValue, PartValue, Variable, VariableValue,
    spec_header_index,
};
use crate::order::{merge_assoc, views};
use crate::template::{Template, TemplateValue};
use crate::text::{
    copy_bytes, decimal, push_all, replace_all, replace_first, spec_decimal, spec_find,
    spec_replace_all, spec_replace_first, find,
};

verus! {

/// The substitution token of a header: `_` followed by the header name.
pub open spec fn marker(h: Seq<u8>) -> Seq<u8> {
    seq![95u8] + h
}

/// The ordinal token `~n`.
pub open spec fn tilde_n() -> Seq<u8> {
    seq![126u8, 110u8]
}

/// The part-id token `~id`.
pub open spec fn tilde_id() -> Seq<u8> {
    seq![126u8, 105u8, 100u8]
}

/// The substitution pattern of a global key: `{{` key `}}`.
pub open spec fn global_pat(k: Seq<u8>) -> Seq<u8> {
    seq![123u8, 123u8] + k + seq![125u8, 125u8]
}

/// The bytes of `marker(h@)`.
pub fn marker_bytes(h: &Vec<u8>) -> (r: Vec<u8>)
    ensures
        r@ == marker(h@),
{
    let mut v: Vec<u8> = Vec::new();
    v.push(95);
    push_all(&mut v, h);
    assert(v@ =~= marker(h@));
    v
}

/// The bytes of `~n`.
pub fn tilde_n_bytes() -> (r: Vec<u8>)
    ensures
        r@ == tilde_n(),
{
    let v: Vec<u8> = vec![126u8, 110u8];
    assert(v@ =~= tilde_n());
    v
}

/// The bytes of `~id`.
pub fn tilde_id_bytes() -> (r: Vec<u8>)
    ensures
        r@ == tilde_id(),
{
    let v: Vec<u8> = vec![126u8, 105u8, 100u8];
    assert(v@ =~= tilde_id());
    v
}

/// The bytes of `global_pat(k@)`.
pub fn global_pat_bytes(k: &Vec<u8>) -> (r: Vec<u8>)
    ensures
        r@ == global_pat(k@),
{
    let mut v: Vec<u8> = Vec::new();
    v.push(123);
    v.push(123);
    push_all(&mut v, k);
    v.push(125);
    v.push(125);
    assert(v@ =~= global_pat(k@));
    v
}

/// The row with, for each header from column `k` on, every occurrence of
/// the header's token replaced by the part's `Name` cell value in that
/// column; `List`-valued cells leave their header token unreplaced.
pub open spec fn spec_subst_headers(
    row: Seq<u8>,
    headers: Seq<Seq<u8>>,
    cells: Seq<VariableValue>,
    k: int,
) -> Seq<u8>
    decreases headers.len() - k,
{
    if k < 0 || k >= headers.len() {
        row
    } else {
        let row2 = match cells[k] {
            VariableValue::Name(v) => spec_replace_all(row, marker(headers[k]), v),
            VariableValue::List(_) => row,
        };
        spec_subst_headers(row2, headers, cells, k + 1)
    }
}

/// One rendered instance of `row` for one part: header tokens first, then
/// `~n` with the 1-based ordinal, then `~id` with the raw part id.
pub open spec fn spec_row_instance(row: Seq<u8>, headers: Seq<Seq<u8>>, p: PartValue, n: nat) -> Seq<
    u8,
> {
    spec_replace_all(
        spec_replace_all(spec_subst_headers(row, headers, p.cells, 0), tilde_n(), spec_decimal(n)),
        tilde_id(),
        p.id,
    )
}

/// One rendered instance of `row` for one part.
#[verifier::loop_isolation(false)]
pub fn row_instance(row: &Vec<u8>, headers: &Vec<Vec<u8>>, part: &Part, n: usize) -> (r: Vec<u8>)
    requires
        part@.cells.len() == views(headers@).len(),
        n >= 1,
    ensures
        r@ == spec_row_instance(row@, views(headers@), part@, n as nat),
{
    let ghost hs = views(headers@);
    let ghost cells = part@.cells;
    let mut cur = copy_bytes(row);
    let mut k: usize = 0;
    while k < headers.len()
        invariant
            k <= headers.len(),
            spec_subst_headers(row@, hs, cells, 0) == spec_subst_headers(cur@, hs, cells, k as int),
        decreases headers.len() - k,
    {
        proof {
            assert(part.cells@.len() == part@.cells.len());
            assert(cells[k as int] == part.cells@[k as int]@);
        }
        match &part.cells[k] {
            Variable::Name(v) => {
                let m = marker_bytes(&headers[k]);
                proof {
                    assert(m@ == marker(hs[k as int]));
                }
                let next = replace_all(&cur, &m, v);
                proof {
                    assert(spec_subst_headers(cur@, hs, cells, k as int) == spec_subst_headers(
                        next@,
                        hs,
                        cells,
                        k + 1,
                    ));
                }
                cur = next;
            },
            Variable::List(_) => {
                proof {
                    assert(spec_subst_headers(cur@, hs, cells, k as int) == spec_subst_headers(
                        cur@,
                        hs,
                        cells,
                        k + 1,
                    ));
                }
            },
        }
        k += 1;
    }
    let nd = decimal(n);
    let tn = tilde_n_bytes();
    let tid = tilde_id_bytes();
    let with_n = replace_all(&cur, &tn, &nd);
    let out = replace_all(&with_n, &tid, &part.id);
    proof {
        assert(part@.id == part.id@);
    }
    out
}

/// Position of the first header, in header order, whose token occurs in the
/// sorting row: the template's sorting variable.
pub open spec fn spec_find_sort_header(row: Seq<u8>, headers: Seq<Seq<u8>>, from: int) -> Option<
    int,
>
    decreases headers.len() - from,
{
    if from < 0 || from >= headers.len() {
        None
    } else if spec_find(row, marker(headers[from]), 0) is Some {
        Some(from)
    } else {
        spec_find_sort_header(row, headers, from + 1)
    }
}

/// Resolve the sorting variable of a sorting row against the headers.
#[verifier::loop_isolation(false)]
pub fn find_sort_header(row: &Vec<u8>, headers: &Vec<Vec<u8>>) -> (r: Option<usize>)
    ensures
        match r {
            Some(hi) => spec_find_sort_header(row@, views(headers@), 0) == Some(hi as int) && hi
                < headers@.len(),
            None => spec_find_sort_header(row@, views(headers@), 0) is None,
        },
{
    let ghost hs = views(headers@);
    let mut k: usize = 0;
    while k < headers.len()
        invariant
            k <= headers.len(),
            spec_find_sort_header(row@, hs, 0) == spec_find_sort_header(row@, hs, k as int),
        decreases headers.len() - k,
    {
        let m = marker_bytes(&headers[k]);
        proof {
            assert(m@ == marker(hs[k as int]));
        }
        if let Some(_) = find(row, &m, 0) {
            return Some(k);
        }
        k += 1;
    }
    None
}

/// One data-block instance per part, in part order, with 1-based ordinals
/// counting on from `n`.
pub open spec fn spec_plain_rows(
    db: Seq<u8>,
    headers: Seq<Seq<u8>>,
    parts: Seq<PartValue>,
    n: nat,
) -> Seq<u8>
    decreases parts.len(),
{
    if parts.len() == 0 {
        Seq::empty()
    } else {
        spec_row_instance(db, headers, parts[0], n + 1) + spec_plain_rows(
            db,
            headers,
            parts.drop_first(),
            n + 1,
        )
    }
}

/// Concatenated data-block instances for all parts, ordinals 1..N in part
/// order: the rendering of a template without grouping.
#[verifier::loop_isolation(false)]
pub fn plain_rows(db: &Vec<u8>, headers: &Vec<Vec<u8>>, parts: &Vec<Part>) -> (r: Vec<u8>)
    requires
        forall|i: int| 0 <= i < parts@.len() ==> (#[trigger] crate::model::part_views(
            parts@,
        )[i]).cells.len() == views(headers@).len(),
    ensures
        r@ == spec_plain_rows(db@, views(headers@), crate::model::part_views(parts@), 0),
{
    let ghost hs = views(headers@);
    let ghost pv = crate::model::part_views(parts@);
    let mut out: Vec<u8> = Vec::new();
    let mut i: usize = 0;
    proof {
        assert(pv.skip(0) =~= pv);
        assert(Seq::<u8>::empty() + spec_plain_rows(db@, hs, pv, 0) =~= spec_plain_rows(
            db@,
            hs,
            pv,
            0,
        ));
    }
    while i < parts.len()
        invariant
            i <= parts.len(),
            spec_plain_rows(db@, hs, pv, 0) == out@ + spec_plain_rows(
                db@,
                hs,
                pv.skip(i as int),
                i as nat,
            ),
        decreases parts.len() - i,
    {
        let ghost tail = pv.skip(i as int);
        proof {
            assert(tail[0] == pv[i as int]);
            assert(tail.drop_first() =~= pv.skip(i + 1));
            assert(pv[i as int] == parts@[i as int]@);
        }
        let inst = row_instance(db, headers, &parts[i], i + 1);
        push_all(&mut out, &inst);
        i += 1;
        assert(spec_plain_rows(db@, hs, pv, 0) =~= out@ + spec_plain_rows(
            db@,
            hs,
            pv.skip(i as int),
            i as nat,
        ));
    }
    proof {
        assert(pv.skip(parts@.len() as int) =~= Seq::<PartValue>::empty());
        assert(out@ =~= spec_plain_rows(db@, hs, pv, 0));
    }
    out
}

/// Law: rendering without grouping over N parts yields a data block that is
/// exactly the concatenation of N row instances, the instance of part `i`
/// carrying the ordinal `k + i + 1` — so, from `k == 0`, ordinals 1..N in
/// part order.
pub proof fn lemma_plain_rows_structure(
    db: Seq<u8>,
    headers: Seq<Seq<u8>>,
    parts: Seq<PartValue>,
    k: nat,
)
    ensures
        spec_plain_rows(db, headers, parts, k) == Seq::new(
            parts.len(),
            |i: int| spec_row_instance(db, headers, parts[i], (k + i + 1) as nat),
        ).flatten(),
    decreases parts.len(),
{
    let f = |i: int| spec_row_instance(db, headers, parts[i], (k + i + 1) as nat);
    let s = Seq::new(parts.len(), f);
    if parts.len() == 0 {
        assert(s.len() == 0);
        assert(s.flatten() == Seq::<u8>::empty()) by {
            reveal_with_fuel(Seq::<Seq<u8>>::flatten, 2);
            assert(s =~= Seq::<Seq<u8>>::empty());
        }
    } else {
        let t = parts.drop_first();
        lemma_plain_rows_structure(db, headers, t, k + 1);
        let g = |i: int| spec_row_instance(db, headers, t[i], (k + 1 + i + 1) as nat);
        let st = Seq::new(t.len(), g);
        assert(s.drop_first() =~= st) by {
            assert forall|i: int| 0 <= i < st.len() implies s.drop_first()[i] == st[i] by {
                assert(s.drop_first()[i] == s[i + 1]);
                assert(t[i] == parts[i + 1]);
            }
        }
        assert(s.flatten() == s[0] + s.drop_first().flatten()) by {
            reveal_with_fuel(Seq::<Seq<u8>>::flatten, 2);
        }
        assert(s[0] == spec_row_instance(db, headers, parts[0], k + 1));
    }
}

/// Law: under a table sorted strictly ascending by id, the ids fed to the
/// `~id` token of successive instances are pairwise distinct.
pub proof fn lemma_parts_ids_distinct(parts: Seq<PartValue>)
    requires
        forall|i: int, j: int| 0 <= i < j < parts.len() ==> crate::order::lex_lt(
            parts[i].id,
            parts[j].id,
        ),
    ensures
        forall|i: int, j: int| 0 <= i < j < parts.len() ==> parts[i].id != parts[j].id,
{
    assert forall|i: int, j: int| 0 <= i < j < parts.len() implies parts[i].id != parts[j].id by {
        crate::order::lemma_lex_lt_irreflexive(parts[i].id);
    }
}

/// Pattern-row instances for the parts whose sort-column cell is `Name(v)`,
/// in part order, ordinals counting on from `n`.
pub open spec fn spec_group_rows(
    row: Seq<u8>,
    headers: Seq<Seq<u8>>,
    parts: Seq<PartValue>,
    ci: int,
    v: Seq<u8>,
    n: nat,
) -> Seq<u8>
    decreases parts.len(),
{
    if parts.len() == 0 {
        Seq::empty()
    } else if cell_is_name(parts[0], ci, v) {
        spec_row_instance(row, headers, parts[0], n + 1) + spec_group_rows(
            row,
            headers,
            parts.drop_first(),
            ci,
            v,
            n + 1,
        )
    } else {
        spec_group_rows(row, headers, parts.drop_first(), ci, v, n)
    }
}

/// Concatenated pattern-row instances of one group, ordinals restarting at
/// 1 within the group.
#[verifier::loop_isolation(false)]
pub fn group_rows(
    row: &Vec<u8>,
    headers: &Vec<Vec<u8>>,
    parts: &Vec<Part>,
    ci: usize,
    v: &Vec<u8>,
) -> (r: Vec<u8>)
    requires
        ci < views(headers@).len(),
        forall|i: int| 0 <= i < parts@.len() ==> (#[trigger] crate::model::part_views(
            parts@,
        )[i]).cells.len() == views(headers@).len(),
    ensures
        r@ == spec_group_rows(row@, views(headers@), crate::model::part_views(parts@), ci as int, v@, 0),
{
    let ghost hs = views(headers@);
    let ghost pv = crate::model::part_views(parts@);
    let mut out: Vec<u8> = Vec::new();
    let mut k: usize = 0;
    let mut n: usize = 0;
    proof {
        assert(pv.skip(0) =~= pv);
        assert(Seq::<u8>::empty() + spec_group_rows(row@, hs, pv, ci as int, v@, 0)
            =~= spec_group_rows(row@, hs, pv, ci as int, v@, 0));
    }
    while k < parts.len()
        invariant
            k <= parts.len(),
            n <= k,
            spec_group_rows(row@, hs, pv, ci as int, v@, 0) == out@ + spec_group_rows(
                row@,
                hs,
                pv.skip(k as int),
                ci as int,
                v@,
                n as nat,
            ),
        decreases parts.len() - k,
    {
        let ghost tail = pv.skip(k as int);
        proof {
            assert(tail[0] == pv[k as int]);
            assert(tail.drop_first() =~= pv.skip(k + 1));
            assert(pv[k as int] == parts@[k as int]@);
        }
        let part = &parts[k];
        let mut matches_v = false;
        proof {
            assert(part.cells@.len() == part@.cells.len());
        }
        match &part.cells[ci] {
            Variable::Name(nv) => {
                proof {
                    assert(part@.cells[ci as int] == part.cells@[ci as int]@);
                }
                if crate::text::bytes_eq(nv, v) {
                    matches_v = true;
                    assert(cell_is_name(pv[k as int], ci as int, v@));
                } else {
                    assert(!cell_is_name(pv[k as int], ci as int, v@));
                }
            },
            Variable::List(_) => {
                proof {
                    assert(part@.cells[ci as int] == part.cells@[ci as int]@);
                    assert(!cell_is_name(pv[k as int], ci as int, v@));
                }
            },
        }
        if matches_v {
            let inst = row_instance(row, headers, part, n + 1);
            push_all(&mut out, &inst);
            n += 1;
        }
        k += 1;
        assert(spec_group_rows(row@, hs, pv, ci as int, v@, 0) =~= out@ + spec_group_rows(
            row@,
            hs,
            pv.skip(k as int),
            ci as int,
            v@,
            n as nat,
        ));
    }
    proof {
        assert(pv.skip(parts@.len() as int) =~= Seq::<PartValue>::empty());
        assert(out@ =~= spec_group_rows(row@, hs, pv, ci as int, v@, 0));
    }
    out
}

/// One group's rendered data block: the sorting row with the sort header's
/// token replaced by the group's value, and the pattern row replaced by the
/// group's concatenated pattern-row instances, each spliced over the first
/// literal occurrence of the original row text in a copy of the data block.
pub open spec fn spec_group_block(
    db: Seq<u8>,
    sr: Seq<u8>,
    pr: Seq<u8>,
    headers: Seq<Seq<u8>>,
    parts: Seq<PartValue>,
    ci: int,
    sh: Seq<u8>,
    v: Seq<u8>,
) -> Seq<u8> {
    spec_replace_first(
        spec_replace_first(db, sr, spec_replace_all(sr, marker(sh), v)),
        pr,
        spec_group_rows(pr, headers, parts, ci, v, 0),
    )
}

/// The rendered data blocks of all groups, concatenated in sort-value order.
pub open spec fn spec_grouped_blocks(
    db: Seq<u8>,
    sr: Seq<u8>,
    pr: Seq<u8>,
    headers: Seq<Seq<u8>>,
    parts: Seq<PartValue>,
    ci: int,
    sh: Seq<u8>,
    vals: Seq<Seq<u8>>,
) -> Seq<u8>
    decreases vals.len(),
{
    if vals.len() == 0 {
        Seq::empty()
    } else {
        spec_group_block(db, sr, pr, headers, parts, ci, sh, vals[0]) + spec_grouped_blocks(
            db,
            sr,
            pr,
            headers,
            parts,
            ci,
            sh,
            vals.drop_first(),
        )
    }
}

/// Render one data block per sort value and concatenate them.
#[verifier::loop_isolation(false)]
pub fn grouped_blocks(
    db: &Vec<u8>,
    sr: &Vec<u8>,
    pr: &Vec<u8>,
    headers: &Vec<Vec<u8>>,
    parts: &Vec<Part>,
    ci: usize,
    sh: &Vec<u8>,
    vals: &Vec<Vec<u8>>,
) -> (r: Vec<u8>)
    requires
        ci < views(headers@).len(),
        forall|i: int| 0 <= i < parts@.len() ==> (#[trigger] crate::model::part_views(
            parts@,
        )[i]).cells.len() == views(headers@).len(),
    ensures
        r@ == spec_grouped_blocks(
            db@,
            sr@,
            pr@,
            views(headers@),
            crate::model::part_views(parts@),
            ci as int,
            sh@,
            views(vals@),
        ),
{
    let ghost hs = views(headers@);
    let ghost pv = crate::model::part_views(parts@);
    let ghost vv = views(vals@);
    let m = marker_bytes(sh);
    let mut out: Vec<u8> = Vec::new();
    let mut q: usize = 0;
    proof {
        assert(vv.skip(0) =~= vv);
        assert(Seq::<u8>::empty() + spec_grouped_blocks(db@, sr@, pr@, hs, pv, ci as int, sh@, vv)
            =~= spec_grouped_blocks(db@, sr@, pr@, hs, pv, ci as int, sh@, vv));
    }
    while q < vals.len()
        invariant
            q <= vals.len(),
            m@ == marker(sh@),
            spec_grouped_blocks(db@, sr@, pr@, hs, pv, ci as int, sh@, vv) == out@
                + spec_grouped_blocks(db@, sr@, pr@, hs, pv, ci as int, sh@, vv.skip(q as int)),
        decreases vals.len() - q,
    {
        let ghost tail = vv.skip(q as int);
        proof {
            assert(tail[0] == vv[q as int]);
            assert(tail.drop_first() =~= vv.skip(q + 1));
            assert(vv[q as int] == vals@[q as int]@);
        }
        let v = &vals[q];
        let rendered_sr = replace_all(sr, &m, v);
        let rendered_prs = group_rows(pr, headers, parts, ci, v);
        let b1 = replace_first(db, sr, &rendered_sr);
        let b2 = replace_first(&b1, pr, &rendered_prs);
        proof {
            assert(b2@ == spec_group_block(db@, sr@, pr@, hs, pv, ci as int, sh@, vv[q as int]));
        }
        push_all(&mut out, &b2);
        q += 1;
        assert(spec_grouped_blocks(db@, sr@, pr@, hs, pv, ci as int, sh@, vv) =~= out@
            + spec_grouped_blocks(db@, sr@, pr@, hs, pv, ci as int, sh@, vv.skip(q as int)));
    }
    proof {
        assert(vv.skip(vals@.len() as int) =~= Seq::<Seq<u8>>::empty());
        assert(out@ =~= spec_grouped_blocks(db@, sr@, pr@, hs, pv, ci as int, sh@, vv));
    }
    out
}

/// `text` with, for each global entry in order, every occurrence of
/// `{{key}}` replaced by the value.
pub open spec fn spec_apply_globals(text: Seq<u8>, gs: Seq<(Seq<u8>, Seq<u8>)>) -> Seq<u8>
    decreases gs.len(),
{
    if gs.len() == 0 {
        text
    } else {
        spec_apply_globals(spec_replace_all(text, global_pat(gs[0].0), gs[0].1), gs.drop_first())
    }
}

/// Substitute every merged global variable into `text`: each key `k`, taken
/// ascending with the user entry overriding the project entry, replaces
/// every literal occurrence of `{{k}}` with its value.
#[verifier::loop_isolation(false)]
pub fn replace_globals(text: &Vec<u8>, buffer: &Buffer) -> (r: Vec<u8>)
    ensures
        r@ == spec_apply_globals(text@, merge_assoc(buffer@.projdata, buffer@.userdata)),
{
    let gs = buffer.globals();
    let ghost gsv = crate::order::pair_views(gs@);
    let mut cur = copy_bytes(text);
    let mut i: usize = 0;
    proof {
        assert(gsv.skip(0) =~= gsv);
    }
    while i < gs.len()
        invariant
            i <= gs.len(),
            spec_apply_globals(text@, gsv) == spec_apply_globals(cur@, gsv.skip(i as int)),
        decreases gs.len() - i,
    {
        let ghost tail = gsv.skip(i as int);
        proof {
            assert(tail[0] == gsv[i as int]);
            assert(tail.drop_first() =~= gsv.skip(i + 1));
            assert(gsv[i as int] == (gs@[i as int].0@, gs@[i as int].1@));
        }
        let pat = global_pat_bytes(&gs[i].0);
        cur = replace_all(&cur, &pat, &gs[i].1);
        i += 1;
    }
    proof {
        assert(gsv.skip(gs@.len() as int) =~= Seq::<(Seq<u8>, Seq<u8>)>::empty());
    }
    cur
}

/// The template's sorting row names a valid header.
pub open spec fn spec_grouping_requested(t: TemplateValue, headers: Seq<Seq<u8>>) -> bool {
    match t.sorting_row {
        Some(sr) => spec_find_sort_header(sr, headers, 0) is Some,
        None => false,
    }
}

/// The rendered data block: grouped when the template declares both rows
/// and its sorting variable resolves; otherwise one instance per part.
pub open spec fn spec_data_block_rendered(t: TemplateValue, pd: PartDataValue) -> Seq<u8> {
    if spec_grouping_requested(t, pd.headers) && t.pattern_row is Some {
        let sr = t.sorting_row->Some_0;
        let pr = t.pattern_row->Some_0;
        let hi = spec_find_sort_header(sr, pd.headers, 0)->Some_0;
        let sh = pd.headers[hi];
        let ci = spec_header_index(pd.headers, sh, 0)->Some_0;
        spec_grouped_blocks(t.data_block, sr, pr, pd.headers, pd.parts, ci, sh, spec_sort_values(pd, sh))
    } else {
        spec_plain_rows(t.data_block, pd.headers, pd.parts, 0)
    }
}

/// The rendered document: the first literal occurrence of the original data
/// block replaced by the rendered data block, then the global pass over the
/// whole resulting document.
pub open spec fn spec_render(t: TemplateValue, b: BufferValue) -> Seq<u8> {
    spec_apply_globals(
        spec_replace_first(t.raw, t.data_block, spec_data_block_rendered(t, b.partdata)),
        merge_assoc(b.projdata, b.userdata),
    )
}

/// Render one template over the buffer: a pure function of the two.
///
/// Fails with `TemplateParseFailure` exactly when grouping is requested (the
/// sorting row names a valid header) but the template has no pattern row.
pub fn render(t: &Template, b: &Buffer) -> (r: Result<Vec<u8>, Error>)
    requires
        b.wf(),
    ensures
        match r {
            Ok(out) => out@ == spec_render(t@, b@) && !(spec_grouping_requested(
                t@,
                b@.partdata.headers,
            ) && t@.pattern_row is None),
            Err(e) => e == Error::TemplateParseFailure && spec_grouping_requested(
                t@,
                b@.partdata.headers,
            ) && t@.pattern_row is None,
        },
{
    let ghost hs = b@.partdata.headers;
    let ghost pv = b@.partdata.parts;
    let rendered_db: Vec<u8> = match (&t.sorting_row, &t.pattern_row) {
        (Some(sr), Some(pr)) => {
            match find_sort_header(sr, &b.partdata.headers) {
                Some(hi) => {
                    let sh = &b.partdata.headers[hi];
                    proof {
                        assert(sh@ == hs[hi as int]);
                    }
                    let g = match b.partdata.group_by_header(sh) {
                        Ok(g) => g,
                        Err(_) => {
                            proof {
                                assert(hs[hi as int] == sh@);
                                assert(hs.contains(sh@));
                                assert(false);
                            }
                            return Err(Error::TemplateParseFailure);
                        },
                    };
                    let ci = match b.partdata.index_of_header(sh) {
                        Ok(ci) => ci,
                        Err(_) => {
                            proof {
                                assert(hs[hi as int] == sh@);
                                assert(hs.contains(sh@));
                                assert(false);
                            }
                            return Err(Error::TemplateParseFailure);
                        },
                    };
                    let out = grouped_blocks(
                        &t.data_block,
                        sr,
                        pr,
                        &b.partdata.headers,
                        &b.partdata.parts,
                        ci,
                        sh,
                        &g.sort_values,
                    );
                    proof {
                        assert(t@.sorting_row == Some(sr@));
                        assert(t@.pattern_row == Some(pr@));
                        assert(spec_grouping_requested(t@, hs));
                        assert(views(g.sort_values@) == spec_sort_values(b@.partdata, sh@));
                        assert(out@ == spec_data_block_rendered(t@, b@.partdata));
                    }
                    out
                },
                None => {
                    let out = plain_rows(&t.data_block, &b.partdata.headers, &b.partdata.parts);
                    proof {
                        assert(t@.sorting_row == Some(sr@));
                        assert(!spec_grouping_requested(t@, hs));
                        assert(out@ == spec_data_block_rendered(t@, b@.partdata));
                    }
                    out
                },
            }
        },
        (Some(sr), None) => {
            match find_sort_header(sr, &b.partdata.headers) {
                Some(_) => {
                    proof {
                        assert(t@.sorting_row == Some(sr@));
                        assert(spec_grouping_requested(t@, hs));
                        assert(t@.pattern_row is None);
                    }
                    return Err(Error::TemplateParseFailure);
                },
                None => {
                    let out = plain_rows(&t.data_block, &b.partdata.headers, &b.partdata.parts);
                    proof {
                        assert(t@.sorting_row == Some(sr@));
                        assert(!spec_grouping_requested(t@, hs));
                        assert(out@ == spec_data_block_rendered(t@, b@.partdata));
                    }
                    out
                },
            }
        },
        (None, _) => {
            let out = plain_rows(&t.data_block, &b.partdata.headers, &b.partdata.parts);
            proof {
                assert(t@.sorting_row is None);
                assert(!spec_grouping_requested(t@, hs));
                assert(out@ == spec_data_block_rendered(t@, b@.partdata));
            }
            out
        },
    };
    let doc1 = replace_first(&t.raw, &t.data_block, &rendered_db);
    let out = replace_globals(&doc1, b);
    proof {
        assert(out@ == spec_render(t@, b@));
    }
    Ok(out)
}

} // verus!
