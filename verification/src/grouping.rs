//! The grouping engine: a sort-value -> ordered-part-ids view of the part
//! table, built on demand for one sort header.
//!
//! Only `Name`-valued cells in the sort column take part in grouping;
//! `List`-valued cells there are excluded entirely.  Sort values are sorted
//! ascending and deduplicated; within one group, part ids come in part
//! iteration order (ascending id).

use vstd::prelude::*;
use crate::model::{
    Error, PartData, PartDataValue, PartValue, Variable, VariableValue, spec_header_index,
};
use crate::order::{spec_sort_dedup, sort_dedup, strictly_sorted, views};
use crate::text::{bytes_eq, copy_bytes};

verus! {

/// The part's sort-column cell is exactly `Name(v)`.
pub open spec fn cell_is_name(p: PartValue, ci: int, v: Seq<u8>) -> bool {
    p.cells[ci] == VariableValue::Name(v)
}

/// What one record contributes to the sort values: its `Name`-valued cell
/// in the sort column, if any.
pub open spec fn name_contrib(p: PartValue, ci: int) -> Seq<Seq<u8>> {
    match p.cells[ci] {
        VariableValue::Name(v) => seq![v],
        VariableValue::List(_) => Seq::empty(),
    }
}

/// All records' `Name` cells in the sort column, in record order.
pub open spec fn collected_names(parts: Seq<PartValue>, ci: int) -> Seq<Seq<u8>>
    decreases parts.len(),
{
    if parts.len() == 0 {
        Seq::empty()
    } else {
        name_contrib(parts[0], ci) + collected_names(parts.drop_first(), ci)
    }
}

pub proof fn lemma_collected_names_snoc(parts: Seq<PartValue>, p: PartValue, ci: int)
    ensures
        collected_names(parts.push(p), ci) == collected_names(parts, ci) + name_contrib(p, ci),
    decreases parts.len(),
{
    reveal_with_fuel(collected_names, 3);
    if parts.len() == 0 {
        assert(parts.push(p)[0] == p);
        assert(parts.push(p).drop_first() =~= Seq::<PartValue>::empty());
        assert(collected_names(parts.push(p), ci) =~= collected_names(parts, ci) + name_contrib(
            p,
            ci,
        ));
    } else {
        assert(parts.push(p)[0] == parts[0]);
        assert(parts.push(p).drop_first() =~= parts.drop_first().push(p));
        lemma_collected_names_snoc(parts.drop_first(), p, ci);
        assert(collected_names(parts.push(p), ci) =~= collected_names(parts, ci) + name_contrib(
            p,
            ci,
        ));
    }
}

/// A collected name is some record's `Name` cell in the sort column.
pub proof fn lemma_collected_names_contains(parts: Seq<PartValue>, ci: int)
    ensures
        forall|v: Seq<u8>| #[trigger] collected_names(parts, ci).contains(v) <==> exists|i: int|
            0 <= i < parts.len() && cell_is_name(#[trigger] parts[i], ci, v),
    decreases parts.len(),
{
    if parts.len() == 0 {
    } else {
        lemma_collected_names_contains(parts.drop_first(), ci);
        let t = parts.drop_first();
        assert forall|v: Seq<u8>| #[trigger] collected_names(parts, ci).contains(v) implies exists|
            i: int,
        | 0 <= i < parts.len() && cell_is_name(#[trigger] parts[i], ci, v) by {
            crate::order::lemma_concat_contains(
                name_contrib(parts[0], ci),
                collected_names(t, ci),
                v,
            );
            if name_contrib(parts[0], ci).contains(v) {
                assert(cell_is_name(parts[0], ci, v));
            } else {
                let i = choose|i: int| 0 <= i < t.len() && cell_is_name(#[trigger] t[i], ci, v);
                assert(t[i] == parts[i + 1]);
                assert(cell_is_name(parts[i + 1], ci, v));
            }
        }
        assert forall|v: Seq<u8>|
            (exists|i: int| 0 <= i < parts.len() && cell_is_name(
                #[trigger] parts[i],
                ci,
                v,
            )) implies #[trigger] collected_names(parts, ci).contains(v) by {
            crate::order::lemma_concat_contains(
                name_contrib(parts[0], ci),
                collected_names(t, ci),
                v,
            );
            let i = choose|i: int| 0 <= i < parts.len() && cell_is_name(#[trigger] parts[i], ci, v);
            if i == 0 {
                assert(name_contrib(parts[0], ci) == seq![v]);
                assert(name_contrib(parts[0], ci)[0] == v);
                assert(name_contrib(parts[0], ci).contains(v));
            } else {
                assert(t[i - 1] == parts[i]);
                assert(cell_is_name(t[i - 1], ci, v));
            }
        }
    }
}

/// The ids, in record order, of the records whose sort-column cell is
/// `Name(v)`.
pub open spec fn group_ids(parts: Seq<PartValue>, ci: int, v: Seq<u8>) -> Seq<Seq<u8>>
    decreases parts.len(),
{
    if parts.len() == 0 {
        Seq::empty()
    } else {
        (if cell_is_name(parts[0], ci, v) {
            seq![parts[0].id]
        } else {
            Seq::empty()
        }) + group_ids(parts.drop_first(), ci, v)
    }
}

pub proof fn lemma_group_ids_snoc(parts: Seq<PartValue>, p: PartValue, ci: int, v: Seq<u8>)
    ensures
        group_ids(parts.push(p), ci, v) == group_ids(parts, ci, v) + (if cell_is_name(p, ci, v) {
            seq![p.id]
        } else {
            Seq::<Seq<u8>>::empty()
        }),
    decreases parts.len(),
{
    reveal_with_fuel(group_ids, 3);
    let tail: Seq<Seq<u8>> = if cell_is_name(p, ci, v) {
        seq![p.id]
    } else {
        Seq::empty()
    };
    if parts.len() == 0 {
        assert(parts.push(p)[0] == p);
        assert(parts.push(p).drop_first() =~= Seq::<PartValue>::empty());
        assert(group_ids(parts.push(p), ci, v) =~= group_ids(parts, ci, v) + tail);
    } else {
        assert(parts.push(p)[0] == parts[0]);
        assert(parts.push(p).drop_first() =~= parts.drop_first().push(p));
        lemma_group_ids_snoc(parts.drop_first(), p, ci, v);
        assert(group_ids(parts.push(p), ci, v) =~= group_ids(parts, ci, v) + tail);
    }
}

/// Law: under unique part ids, the group of `v` holds each id at most once,
/// and holds exactly the ids of the records whose sort-column cell is
/// `Name(v)`.  Quantified over `v`, the groups therefore partition exactly
/// the `Name`-valued records.
pub proof fn lemma_group_ids_exact(parts: Seq<PartValue>, ci: int, v: Seq<u8>)
    requires
        forall|i: int, j: int| 0 <= i < j < parts.len() ==> parts[i].id != parts[j].id,
    ensures
        group_ids(parts, ci, v).no_duplicates(),
        forall|id: Seq<u8>| #[trigger] group_ids(parts, ci, v).contains(id) <==> exists|k: int|
            0 <= k < parts.len() && (#[trigger] parts[k]).id == id && cell_is_name(
                parts[k],
                ci,
                v,
            ),
    decreases parts.len(),
{
    if parts.len() == 0 {
    } else {
        let t = parts.drop_first();
        let g = group_ids(parts, ci, v);
        let gt = group_ids(t, ci, v);
        let head: Seq<Seq<u8>> = if cell_is_name(parts[0], ci, v) {
            seq![parts[0].id]
        } else {
            Seq::empty()
        };
        assert forall|i: int, j: int| 0 <= i < j < t.len() implies t[i].id != t[j].id by {
            assert(t[i] == parts[i + 1]);
            assert(t[j] == parts[j + 1]);
        }
        lemma_group_ids_exact(t, ci, v);
        // membership in both directions
        assert forall|id: Seq<u8>| #[trigger] g.contains(id) implies exists|k: int|
            0 <= k < parts.len() && (#[trigger] parts[k]).id == id && cell_is_name(
                parts[k],
                ci,
                v,
            ) by {
            crate::order::lemma_concat_contains(head, gt, id);
            if head.contains(id) {
                assert(parts[0].id == id && cell_is_name(parts[0], ci, v));
            } else {
                let k = choose|k: int|
                    0 <= k < t.len() && (#[trigger] t[k]).id == id && cell_is_name(t[k], ci, v);
                assert(t[k] == parts[k + 1]);
            }
        }
        assert forall|id: Seq<u8>|
            (exists|k: int|
                0 <= k < parts.len() && (#[trigger] parts[k]).id == id && cell_is_name(
                    parts[k],
                    ci,
                    v,
                )) implies #[trigger] g.contains(id) by {
            crate::order::lemma_concat_contains(head, gt, id);
            let k = choose|k: int|
                0 <= k < parts.len() && (#[trigger] parts[k]).id == id && cell_is_name(
                    parts[k],
                    ci,
                    v,
                );
            if k == 0 {
                assert(head == seq![parts[0].id]);
                assert(head[0] == id);
                assert(head.contains(id));
            } else {
                assert(t[k - 1] == parts[k]);
                assert(t[k - 1].id == id && cell_is_name(t[k - 1], ci, v));
                assert(gt.contains(id));
            }
        }
        // no duplicates: the head id (if any) cannot recur in the tail group
        if cell_is_name(parts[0], ci, v) {
            assert(g =~= seq![parts[0].id] + gt);
            if gt.contains(parts[0].id) {
                let k = choose|k: int|
                    0 <= k < t.len() && (#[trigger] t[k]).id == parts[0].id && cell_is_name(
                        t[k],
                        ci,
                        v,
                    );
                assert(t[k] == parts[k + 1]);
                assert(parts[0].id != parts[k + 1].id);
            }
            assert(!gt.contains(parts[0].id));
            assert forall|i: int, j: int| 0 <= i < j < g.len() implies g[i] != g[j] by {
                if i == 0 {
                    assert(g[j] == gt[j - 1]);
                    assert(gt.contains(gt[j - 1]));
                } else {
                    assert(g[i] == gt[i - 1]);
                    assert(g[j] == gt[j - 1]);
                }
            }
        } else {
            assert(g =~= gt);
        }
    }
}

/// Law, stated for a well-formed part table (ids strictly ascending): the
/// group of `v` holds each id at most once, and exactly the ids of the
/// records whose sort-column cell is `Name(v)`.
pub proof fn lemma_group_ids_exact_wf(pd: PartDataValue, ci: int, v: Seq<u8>)
    requires
        crate::model::pd_wf(pd),
    ensures
        group_ids(pd.parts, ci, v).no_duplicates(),
        forall|id: Seq<u8>| #[trigger] group_ids(pd.parts, ci, v).contains(id) <==> exists|k: int|
            0 <= k < pd.parts.len() && (#[trigger] pd.parts[k]).id == id && cell_is_name(
                pd.parts[k],
                ci,
                v,
            ),
{
    assert forall|i: int, j: int| 0 <= i < j < pd.parts.len() implies pd.parts[i].id
        != pd.parts[j].id by {
        crate::order::lemma_lex_lt_irreflexive(pd.parts[i].id);
    }
    lemma_group_ids_exact(pd.parts, ci, v);
}

/// The sort values of a part table under a sort header: the `Name` cells of
/// the sort column, sorted ascending, duplicates removed.
pub open spec fn spec_sort_values(pd: PartDataValue, h: Seq<u8>) -> Seq<Seq<u8>> {
    match spec_header_index(pd.headers, h, 0) {
        Some(ci) => spec_sort_dedup(collected_names(pd.parts, ci)),
        None => Seq::empty(),
    }
}

/// The derived sort-value -> ordered-part-ids view, keyed positionally:
/// `groups[i]` belongs to `sort_values[i]`.
pub struct GroupedView {
    pub sort_header: Vec<u8>,
    pub sort_values: Vec<Vec<u8>>,
    pub groups: Vec<Vec<Vec<u8>>>,
}

/// Views of a sequence of groups.
pub open spec fn group_views(s: Seq<Vec<Vec<u8>>>) -> Seq<Seq<Seq<u8>>> {
    s.map_values(|g: Vec<Vec<u8>>| views(g@))
}

/// The grouped view at spec level.
pub struct GroupedViewValue {
    pub sort_header: Seq<u8>,
    pub sort_values: Seq<Seq<u8>>,
    pub groups: Seq<Seq<Seq<u8>>>,
}

impl View for GroupedView {
    type V = GroupedViewValue;

    open spec fn view(&self) -> GroupedViewValue {
        GroupedViewValue {
            sort_header: self.sort_header@,
            sort_values: views(self.sort_values@),
            groups: group_views(self.groups@),
        }
    }
}

impl PartData {
    /// Group the part table by the given header.  Fails with
    /// `HeaderNotFound` exactly when the header is absent.
    #[verifier::loop_isolation(false)]
    pub fn group_by_header(&self, h: &Vec<u8>) -> (r: Result<GroupedView, Error>)
        requires
            self.wf(),
        ensures
            match r {
                Ok(g) => {
                    &&& spec_header_index(self@.headers, h@, 0) is Some
                    &&& g@.sort_header == h@
                    &&& g@.sort_values == spec_sort_values(self@, h@)
                    &&& strictly_sorted(g@.sort_values)
                    &&& (forall|v: Seq<u8>| #[trigger] g@.sort_values.contains(v) <==> exists|
                        i: int,
                    |
                        0 <= i < self@.parts.len() && cell_is_name(
                            #[trigger] self@.parts[i],
                            spec_header_index(self@.headers, h@, 0)->Some_0,
                            v,
                        ))
                    &&& g@.groups.len() == g@.sort_values.len()
                    &&& (forall|t: int|
                        0 <= t < g@.groups.len() ==> #[trigger] g@.groups[t] == group_ids(
                            self@.parts,
                            spec_header_index(self@.headers, h@, 0)->Some_0,
                            g@.sort_values[t],
                        ))
                },
                Err(e) => e == Error::HeaderNotFound && !self@.headers.contains(h@),
            },
    {
        let ci = match self.index_of_header(h) {
            Ok(ci) => ci,
            Err(e) => {
                return Err(e);
            },
        };
        let ghost pv = self@.parts;
        // collect the Name-valued cells of the sort column
        let mut raw: Vec<Vec<u8>> = Vec::new();
        let mut i: usize = 0;
        proof {
            assert(pv.subrange(0, 0) =~= Seq::<PartValue>::empty());
            assert(views(raw@) =~= collected_names(pv.subrange(0, 0), ci as int));
        }
        while i < self.parts.len()
            invariant
                i <= self.parts.len(),
                ci < self@.headers.len(),
                views(raw@) == collected_names(pv.subrange(0, i as int), ci as int),
            decreases self.parts.len() - i,
        {
            let part = &self.parts[i];
            proof {
                assert(pv[i as int] == part@);
                assert(pv.subrange(0, i + 1) =~= pv.subrange(0, i as int).push(pv[i as int]));
                lemma_collected_names_snoc(pv.subrange(0, i as int), pv[i as int], ci as int);
                assert(part@.cells.len() == self@.headers.len());
                assert(part.cells@.len() == part@.cells.len());
            }
            let ghost raw0 = views(raw@);
            match &part.cells[ci] {
                Variable::Name(v) => {
                    proof {
                        assert(part@.cells[ci as int] == part.cells@[ci as int]@);
                        assert(name_contrib(pv[i as int], ci as int) == seq![v@]);
                    }
                    raw.push(copy_bytes(v));
                    proof {
                        assert forall|q: int| 0 <= q < views(raw@).len() implies views(raw@)[q] == (
                        raw0 + seq![v@])[q] by {
                            if q < raw0.len() {
                            } else {
                                assert(views(raw@)[q] == v@);
                            }
                        }
                        assert(views(raw@) =~= raw0 + name_contrib(pv[i as int], ci as int));
                    }
                },
                Variable::List(_) => {
                    proof {
                        assert(part@.cells[ci as int] == part.cells@[ci as int]@);
                        assert(name_contrib(pv[i as int], ci as int) =~= Seq::<Seq<u8>>::empty());
                        assert(views(raw@) =~= raw0 + name_contrib(pv[i as int], ci as int));
                    }
                },
            }
            i += 1;
        }
        proof {
            assert(pv.subrange(0, pv.len() as int) =~= pv);
        }
        let sort_values = sort_dedup(&raw);
        let ghost sv = views(sort_values@);
        // collect, per sort value, the matching part ids in part order
        let mut groups: Vec<Vec<Vec<u8>>> = Vec::new();
        let mut t: usize = 0;
        while t < sort_values.len()
            invariant
                t <= sort_values.len(),
                ci < self@.headers.len(),
                groups@.len() == t,
                forall|q: int|
                    0 <= q < t ==> #[trigger] group_views(groups@)[q] == group_ids(
                        pv,
                        ci as int,
                        sv[q],
                    ),
            decreases sort_values.len() - t,
        {
            let v = &sort_values[t];
            let ghost vv = sv[t as int];
            proof {
                assert(vv == v@);
            }
            let mut ids: Vec<Vec<u8>> = Vec::new();
            let mut k: usize = 0;
            proof {
                assert(pv.subrange(0, 0) =~= Seq::<PartValue>::empty());
                assert(views(ids@) =~= group_ids(pv.subrange(0, 0), ci as int, vv));
            }
            while k < self.parts.len()
                invariant
                    k <= self.parts.len(),
                    ci < self@.headers.len(),
                    vv == sv[t as int],
                    t < sort_values@.len(),
                    vv == sort_values@[t as int]@,
                    views(ids@) == group_ids(pv.subrange(0, k as int), ci as int, vv),
                decreases self.parts.len() - k,
            {
                let part = &self.parts[k];
                proof {
                    assert(pv[k as int] == part@);
                    assert(pv.subrange(0, k + 1) =~= pv.subrange(0, k as int).push(pv[k as int]));
                    lemma_group_ids_snoc(pv.subrange(0, k as int), pv[k as int], ci as int, vv);
                    assert(part@.cells.len() == self@.headers.len());
                    assert(part.cells@.len() == part@.cells.len());
                }
                let ghost ids0 = views(ids@);
                let mut is_match = false;
                match &part.cells[ci] {
                    Variable::Name(nv) => {
                        proof {
                            assert(part@.cells[ci as int] == part.cells@[ci as int]@);
                        }
                        if bytes_eq(nv, v) {
                            is_match = true;
                            assert(cell_is_name(pv[k as int], ci as int, vv));
                        } else {
                            assert(!cell_is_name(pv[k as int], ci as int, vv));
                        }
                    },
                    Variable::List(_) => {
                        proof {
                            assert(part@.cells[ci as int] == part.cells@[ci as int]@);
                            assert(!cell_is_name(pv[k as int], ci as int, vv));
                        }
                    },
                }
                if is_match {
                    ids.push(copy_bytes(&part.id));
                    proof {
                        assert forall|q: int| 0 <= q < views(ids@).len() implies views(ids@)[q] == (
                        ids0 + seq![pv[k as int].id])[q] by {
                            if q < ids0.len() {
                            } else {
                                assert(views(ids@)[q] == part.id@);
                            }
                        }
                        assert(views(ids@) =~= ids0 + seq![pv[k as int].id]);
                    }
                } else {
                    proof {
                        assert(views(ids@) =~= ids0 + Seq::<Seq<u8>>::empty());
                    }
                }
                k += 1;
            }
            proof {
                assert(pv.subrange(0, pv.len() as int) =~= pv);
                assert(views(ids@) == group_ids(pv, ci as int, vv));
            }
            let ghost groups0 = groups@;
            groups.push(ids);
            proof {
                assert forall|q: int| 0 <= q < t + 1 implies #[trigger] group_views(groups@)[q]
                    == group_ids(pv, ci as int, sv[q]) by {
                    if q < t {
                        assert(group_views(groups@)[q] == group_views(groups0)[q]);
                    } else {
                        assert(group_views(groups@)[q] == views(ids@));
                    }
                }
            }
            t += 1;
        }
        let sort_header = copy_bytes(h);
        let g = GroupedView { sort_header, sort_values, groups };
        proof {
            lemma_collected_names_contains(pv, ci as int);
            assert(spec_header_index(self@.headers, h@, 0) == Some(ci as int));
            assert(g@.sort_values == spec_sort_values(self@, h@));
        }
        Ok(g)
    }
}

} // verus!
