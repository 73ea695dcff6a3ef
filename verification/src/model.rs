//! The data model: headers, cells, part records, global variables, and the
//! aggregate `Buffer` built once per run.
//!
//! A `Buffer` holds project-level and user-level globals (string-to-string
//! maps) and the part table: an ordered header row plus one record per part
//! id, each record's cells aligned positionally with the headers.  Mappings
//! are represented as vectors sorted strictly ascending by key in the
//! lexicographic order of [`crate::order`]; part iteration order is thereby
//! ascending part id, which makes every derived value deterministic.

use vstd::prelude::*;
use crate::order::{
    lex_lt, views, pair_views, sorted_keys, strictly_sorted, merge_assoc, sort_dedup,
    merge_assoc_vec,
};
use crate::text::{bytes_eq, copy_bytes};

verus! {

/// Error taxonomy of the whole run.
///
/// `MissingField` and `IoFailure` arise only at the input-acquisition and
/// file-writing edges; `HeaderNotFound` when a requested header is absent;
/// `TemplateParseFailure` when a template's zones cannot be located (or a
/// grouping template lacks its pattern row); `PartIdMismatch` when a grouped
/// part id is not present in the part table (proved unreachable here);
/// `DataIntegrity` when a part record's cell count does not match the
/// header count.
#[derive(Clone, Copy, Debug, PartialEq, Eq, Structural)]
pub enum Error {
    MissingField,
    HeaderNotFound,
    TemplateParseFailure,
    PartIdMismatch,
    IoFailure,
    DataIntegrity,
}

impl Error {
    /// Short description, for logs produced by callers.
    pub fn describe(&self) -> (r: &'static str)
        ensures
            r@ == match self {
                Error::MissingField => "missing top-level field"@,
                Error::HeaderNotFound => "header not found"@,
                Error::TemplateParseFailure => "template parse failure"@,
                Error::PartIdMismatch => "part id mismatch"@,
                Error::IoFailure => "io failure"@,
                Error::DataIntegrity => "part record does not match headers"@,
            },
    {
        match self {
            Error::MissingField => "missing top-level field",
            Error::HeaderNotFound => "header not found",
            Error::TemplateParseFailure => "template parse failure",
            Error::PartIdMismatch => "part id mismatch",
            Error::IoFailure => "io failure",
            Error::DataIntegrity => "part record does not match headers",
        }
    }
}

/// One cell of a part record: scalar, or multi-valued.
pub enum VariableValue {
    Name(Seq<u8>),
    List(Seq<Seq<u8>>),
}

/// One part record: its id and its cells, aligned with the headers.
pub struct PartValue {
    pub id: Seq<u8>,
    pub cells: Seq<VariableValue>,
}

/// The part table: column headers and the records in iteration order.
pub struct PartDataValue {
    pub headers: Seq<Seq<u8>>,
    pub parts: Seq<PartValue>,
}

/// The aggregate input of one run.
pub struct BufferValue {
    pub projdata: Seq<(Seq<u8>, Seq<u8>)>,
    pub userdata: Seq<(Seq<u8>, Seq<u8>)>,
    pub partdata: PartDataValue,
}

/// One cell of a part record — a tagged union, never a dynamically typed
/// value.  `Name` is a scalar; `List` is multi-valued (used at minimum for
/// the `"rep"` column, which lets one part appear in several reports).
pub enum Variable {
    Name(Vec<u8>),
    List(Vec<Vec<u8>>),
}

impl View for Variable {
    type V = VariableValue;

    open spec fn view(&self) -> VariableValue {
        match self {
            Variable::Name(v) => VariableValue::Name(v@),
            Variable::List(l) => VariableValue::List(views(l@)),
        }
    }
}

/// One part record.
pub struct Part {
    pub id: Vec<u8>,
    pub cells: Vec<Variable>,
}

impl View for Part {
    type V = PartValue;

    open spec fn view(&self) -> PartValue {
        PartValue { id: self.id@, cells: self.cells@.map_values(|c: Variable| c@) }
    }
}

/// Views of a sequence of parts.
pub open spec fn part_views(s: Seq<Part>) -> Seq<PartValue> {
    s.map_values(|p: Part| p@)
}

/// The part table.
pub struct PartData {
    pub headers: Vec<Vec<u8>>,
    pub parts: Vec<Part>,
}

impl View for PartData {
    type V = PartDataValue;

    open spec fn view(&self) -> PartDataValue {
        PartDataValue { headers: views(self.headers@), parts: part_views(self.parts@) }
    }
}

/// Some record has this id.
pub open spec fn has_part_id(parts: Seq<PartValue>, id: Seq<u8>) -> bool {
    exists|i: int| 0 <= i < parts.len() && parts[i].id == id
}

/// No two records share an id.
pub open spec fn unique_ids(parts: Seq<PartValue>) -> bool {
    forall|i: int, j: int| 0 <= i < j < parts.len() ==> parts[i].id != parts[j].id
}

/// Some entry has this key.
pub open spec fn has_key(s: Seq<(Seq<u8>, Seq<u8>)>, k: Seq<u8>) -> bool {
    exists|i: int| 0 <= i < s.len() && s[i].0 == k
}

/// No two entries share a key.
pub open spec fn unique_keys(s: Seq<(Seq<u8>, Seq<u8>)>) -> bool {
    forall|i: int, j: int| 0 <= i < j < s.len() ==> s[i].0 != s[j].0
}

/// The first record with this id, if any.
pub open spec fn first_part_with_id(parts: Seq<PartValue>, id: Seq<u8>) -> Option<PartValue>
    decreases parts.len(),
{
    if parts.len() == 0 {
        None
    } else if parts[0].id == id {
        Some(parts[0])
    } else {
        first_part_with_id(parts.drop_first(), id)
    }
}

/// The record at the least index carrying `id` is the first with it.
pub proof fn lemma_first_part_at(parts: Seq<PartValue>, id: Seq<u8>, f: int)
    requires
        0 <= f < parts.len(),
        parts[f].id == id,
        forall|l: int| 0 <= l < f ==> parts[l].id != id,
    ensures
        first_part_with_id(parts, id) == Some(parts[f]),
    decreases f,
{
    if f > 0 {
        let t = parts.drop_first();
        assert forall|l: int| 0 <= l < f - 1 implies t[l].id != id by {
            assert(t[l] == parts[l + 1]);
        }
        assert(t[f - 1] == parts[f]);
        lemma_first_part_at(t, id, f - 1);
    }
}

/// The first entry with this key, if any.
pub open spec fn first_with_key(s: Seq<(Seq<u8>, Seq<u8>)>, k: Seq<u8>) -> Option<
    (Seq<u8>, Seq<u8>),
>
    decreases s.len(),
{
    if s.len() == 0 {
        None
    } else if s[0].0 == k {
        Some(s[0])
    } else {
        first_with_key(s.drop_first(), k)
    }
}

/// The entry at the least index carrying `k` is the first with it.
pub proof fn lemma_first_with_key_at(s: Seq<(Seq<u8>, Seq<u8>)>, k: Seq<u8>, f: int)
    requires
        0 <= f < s.len(),
        s[f].0 == k,
        forall|l: int| 0 <= l < f ==> s[l].0 != k,
    ensures
        first_with_key(s, k) == Some(s[f]),
    decreases f,
{
    if f > 0 {
        let t = s.drop_first();
        assert forall|l: int| 0 <= l < f - 1 implies t[l].0 != k by {
            assert(t[l] == s[l + 1]);
        }
        assert(t[f - 1] == s[f]);
        lemma_first_with_key_at(t, k, f - 1);
    }
}

/// Well-formed part table: every record has one cell per header, and the
/// records are sorted strictly ascending by id.
pub open spec fn pd_wf(pd: PartDataValue) -> bool {
    &&& forall|i: int| 0 <= i < pd.parts.len() ==> #[trigger] pd.parts[i].cells.len()
        == pd.headers.len()
    &&& forall|i: int, j: int| 0 <= i < j < pd.parts.len() ==> lex_lt(
        pd.parts[i].id,
        pd.parts[j].id,
    )
}

impl PartData {
    pub open spec fn wf(&self) -> bool {
        pd_wf(self@)
    }
}

/// The aggregate root, constructed once per run and read-only thereafter.
pub struct Buffer {
    pub projdata: Vec<(Vec<u8>, Vec<u8>)>,
    pub userdata: Vec<(Vec<u8>, Vec<u8>)>,
    pub partdata: PartData,
}

impl View for Buffer {
    type V = BufferValue;

    open spec fn view(&self) -> BufferValue {
        BufferValue {
            projdata: pair_views(self.projdata@),
            userdata: pair_views(self.userdata@),
            partdata: self.partdata@,
        }
    }
}

/// Well-formed buffer: both global maps key-sorted, part table well-formed.
pub open spec fn buf_wf(b: BufferValue) -> bool {
    &&& sorted_keys(b.projdata)
    &&& sorted_keys(b.userdata)
    &&& pd_wf(b.partdata)
}

impl Buffer {
    pub open spec fn wf(&self) -> bool {
        buf_wf(self@)
    }
}

/// Position of the first header equal to `name` at or after `from`.
pub open spec fn spec_header_index(headers: Seq<Seq<u8>>, name: Seq<u8>, from: int) -> Option<int>
    decreases headers.len() - from,
{
    if from < 0 || from >= headers.len() {
        None
    } else if headers[from] == name {
        Some(from)
    } else {
        spec_header_index(headers, name, from + 1)
    }
}

/// `spec_header_index` finds exactly the first occurrence.
pub proof fn lemma_spec_header_index(headers: Seq<Seq<u8>>, name: Seq<u8>, from: int)
    requires
        0 <= from,
    ensures
        match spec_header_index(headers, name, from) {
            Some(i) => from <= i < headers.len() && headers[i] == name && (forall|j: int|
                from <= j < i ==> headers[j] != name),
            None => forall|j: int| from <= j < headers.len() ==> headers[j] != name,
        },
    decreases headers.len() - from,
{
    if from < headers.len() && headers[from] != name {
        lemma_spec_header_index(headers, name, from + 1);
    }
}

impl PartData {
    /// Position of a header, or `HeaderNotFound` if it is absent.
    #[verifier::loop_isolation(false)]
    pub fn index_of_header(&self, name: &Vec<u8>) -> (r: Result<usize, Error>)
        ensures
            match r {
                Ok(i) => spec_header_index(self@.headers, name@, 0) == Some(i as int)
                    && i < self@.headers.len() && self@.headers[i as int] == name@,
                Err(e) => e == Error::HeaderNotFound && spec_header_index(
                    self@.headers,
                    name@,
                    0,
                ) is None && !self@.headers.contains(name@),
            },
    {
        proof {
            lemma_spec_header_index(self@.headers, name@, 0);
        }
        let mut i: usize = 0;
        while i < self.headers.len()
            invariant
                i <= self.headers.len(),
                forall|j: int| 0 <= j < i ==> self@.headers[j] != name@,
            decreases self.headers.len() - i,
        {
            if bytes_eq(&self.headers[i], name) {
                proof {
                    match spec_header_index(self@.headers, name@, 0) {
                        Some(s) => {
                            if s < i {
                                assert(self@.headers[s] != name@);
                            }
                            if i < s {
                                assert(self@.headers[i as int] != name@);
                            }
                        },
                        None => {
                            assert(self@.headers[i as int] != name@);
                        },
                    }
                }
                return Ok(i);
            }
            i += 1;
        }
        proof {
            if let Some(s) = spec_header_index(self@.headers, name@, 0) {
                assert(self@.headers[s] != name@);
            }
            if self@.headers.contains(name@) {
                let k = choose|k: int| 0 <= k < self@.headers.len() && self@.headers[k] == name@;
                assert(self@.headers[k] != name@);
            }
        }
        Err(Error::HeaderNotFound)
    }
}

/// Fresh copy of a cell.
#[verifier::loop_isolation(false)]
pub fn variable_copy(v: &Variable) -> (r: Variable)
    ensures
        r@ == v@,
{
    match v {
        Variable::Name(s) => Variable::Name(copy_bytes(s)),
        Variable::List(l) => {
            let mut out: Vec<Vec<u8>> = Vec::new();
            let mut i: usize = 0;
            while i < l.len()
                invariant
                    i <= l.len(),
                    views(out@) == views(l@).subrange(0, i as int),
                decreases l.len() - i,
            {
                out.push(copy_bytes(&l[i]));
                assert(views(out@) =~= views(l@).subrange(0, i + 1));
                i += 1;
            }
            assert(views(out@) =~= views(l@));
            Variable::List(out)
        },
    }
}

/// Fresh copy of a part record.
#[verifier::loop_isolation(false)]
pub fn part_copy(p: &Part) -> (r: Part)
    ensures
        r@ == p@,
{
    let id = copy_bytes(&p.id);
    let mut cells: Vec<Variable> = Vec::new();
    let mut i: usize = 0;
    while i < p.cells.len()
        invariant
            i <= p.cells.len(),
            cells@.map_values(|c: Variable| c@) == p.cells@.map_values(|c: Variable| c@).subrange(
                0,
                i as int,
            ),
        decreases p.cells.len() - i,
    {
        cells.push(variable_copy(&p.cells[i]));
        assert(cells@.map_values(|c: Variable| c@) =~= p.cells@.map_values(
            |c: Variable| c@,
        ).subrange(0, i + 1));
        i += 1;
    }
    assert(cells@.map_values(|c: Variable| c@) =~= p.cells@.map_values(|c: Variable| c@));
    Part { id, cells }
}

/// Index of the first record with this id.
#[verifier::loop_isolation(false)]
fn find_first_part(parts: &Vec<Part>, id: &Vec<u8>) -> (r: Option<usize>)
    ensures
        match r {
            Some(k) => k < parts@.len() && part_views(parts@)[k as int].id == id@ && (forall|
                l: int,
            | 0 <= l < k ==> part_views(parts@)[l].id != id@),
            None => !has_part_id(part_views(parts@), id@),
        },
{
    let mut k: usize = 0;
    while k < parts.len()
        invariant
            k <= parts.len(),
            forall|l: int| 0 <= l < k ==> part_views(parts@)[l].id != id@,
        decreases parts.len() - k,
    {
        if bytes_eq(&parts[k].id, id) {
            return Some(k);
        }
        k += 1;
    }
    proof {
        if has_part_id(part_views(parts@), id@) {
            let l = choose|l: int|
                0 <= l < part_views(parts@).len() && part_views(parts@)[l].id == id@;
            assert(part_views(parts@)[l].id != id@);
        }
    }
    None
}

/// Index of the first entry with this key.
#[verifier::loop_isolation(false)]
fn find_first_key(entries: &Vec<(Vec<u8>, Vec<u8>)>, key: &Vec<u8>) -> (r: Option<usize>)
    ensures
        match r {
            Some(k) => k < entries@.len() && pair_views(entries@)[k as int].0 == key@ && (forall|
                l: int,
            | 0 <= l < k ==> pair_views(entries@)[l].0 != key@),
            None => !has_key(pair_views(entries@), key@),
        },
{
    let mut k: usize = 0;
    while k < entries.len()
        invariant
            k <= entries.len(),
            forall|l: int| 0 <= l < k ==> pair_views(entries@)[l].0 != key@,
        decreases entries.len() - k,
    {
        if bytes_eq(&entries[k].0, key) {
            return Some(k);
        }
        k += 1;
    }
    proof {
        if has_key(pair_views(entries@), key@) {
            let l = choose|l: int|
                0 <= l < pair_views(entries@).len() && pair_views(entries@)[l].0 == key@;
            assert(pair_views(entries@)[l].0 != key@);
        }
    }
    None
}

/// Canonical form of a string-to-string mapping given as entries in any
/// order: keys sorted strictly ascending, one entry per key (the first
/// entry of a repeated key wins).
#[verifier::loop_isolation(false)]
pub fn assoc_canon(entries: &Vec<(Vec<u8>, Vec<u8>)>) -> (r: Vec<(Vec<u8>, Vec<u8>)>)
    ensures
        sorted_keys(pair_views(r@)),
        forall|k: Seq<u8>| has_key(pair_views(r@), k) <==> has_key(pair_views(entries@), k),
        forall|t: int| 0 <= t < pair_views(r@).len() ==> pair_views(entries@).contains(
            #[trigger] pair_views(r@)[t],
        ),
        forall|t: int| 0 <= t < pair_views(r@).len() ==> first_with_key(
            pair_views(entries@),
            (#[trigger] pair_views(r@)[t]).0,
        ) == Some(pair_views(r@)[t]),
        unique_keys(pair_views(entries@)) ==> (forall|e: (Seq<u8>, Seq<u8>)|
            #[trigger] pair_views(r@).contains(e) <==> pair_views(entries@).contains(e)),
{
    let ghost ev = pair_views(entries@);
    let ghost keyseq = ev.map_values(|e: (Seq<u8>, Seq<u8>)| e.0);
    let mut keys: Vec<Vec<u8>> = Vec::new();
    let mut i: usize = 0;
    while i < entries.len()
        invariant
            i <= entries.len(),
            views(keys@) == keyseq.subrange(0, i as int),
        decreases entries.len() - i,
    {
        keys.push(copy_bytes(&entries[i].0));
        assert(views(keys@) =~= keyseq.subrange(0, i + 1));
        i += 1;
    }
    assert(views(keys@) =~= keyseq);
    let sorted = sort_dedup(&keys);
    let ghost sv = views(sorted@);
    let mut out: Vec<(Vec<u8>, Vec<u8>)> = Vec::new();
    let mut k: usize = 0;
    while k < sorted.len()
        invariant
            k <= sorted.len(),
            pair_views(out@).len() == k,
            forall|t: int| 0 <= t < k ==> #[trigger] pair_views(out@)[t].0 == sv[t],
            forall|t: int| 0 <= t < k ==> ev.contains(#[trigger] pair_views(out@)[t]),
            forall|t: int| 0 <= t < k ==> first_with_key(ev, (#[trigger] pair_views(out@)[t]).0)
                == Some(pair_views(out@)[t]),
        decreases sorted.len() - k,
    {
        proof {
            assert(sv.contains(sv[k as int]));
            assert(keyseq.contains(sv[k as int]));
            let l = choose|l: int| 0 <= l < keyseq.len() && keyseq[l] == sv[k as int];
            assert(ev[l].0 == sv[k as int]);
            assert(has_key(ev, sv[k as int]));
        }
        match find_first_key(entries, &sorted[k]) {
            Some(f) => {
                let entry = (copy_bytes(&entries[f].0), copy_bytes(&entries[f].1));
                proof {
                    assert((entry.0@, entry.1@) == ev[f as int]);
                    assert(sv[k as int] == sorted@[k as int]@);
                    assert(ev[f as int].0 == sv[k as int]);
                }
                let ghost out0 = out@;
                out.push(entry);
                proof {
                    assert forall|t: int| 0 <= t < k + 1 implies #[trigger] pair_views(out@)[t].0
                        == sv[t] by {
                        if t < k {
                            assert(pair_views(out@)[t] == pair_views(out0)[t]);
                        } else {
                            assert(pair_views(out@)[t] == (entry.0@, entry.1@));
                        }
                    }
                    assert forall|t: int| 0 <= t < k + 1 implies ev.contains(
                        #[trigger] pair_views(out@)[t],
                    ) by {
                        if t < k {
                            assert(pair_views(out@)[t] == pair_views(out0)[t]);
                        } else {
                            assert(pair_views(out@)[t] == ev[f as int]);
                            assert(ev.contains(ev[f as int]));
                        }
                    }
                    assert forall|t: int| 0 <= t < k + 1 implies first_with_key(
                        ev,
                        (#[trigger] pair_views(out@)[t]).0,
                    ) == Some(pair_views(out@)[t]) by {
                        if t < k {
                            assert(pair_views(out@)[t] == pair_views(out0)[t]);
                        } else {
                            assert(pair_views(out@)[t] == ev[f as int]);
                            lemma_first_with_key_at(ev, ev[f as int].0, f as int);
                        }
                    }
                }
            },
            None => {
                proof {
                    assert(false);
                }
                return Vec::new();
            },
        }
        k += 1;
    }
    proof {
        assert forall|key: Seq<u8>| has_key(pair_views(out@), key) implies has_key(ev, key) by {
            let t = choose|t: int|
                0 <= t < pair_views(out@).len() && pair_views(out@)[t].0 == key;
            assert(ev.contains(pair_views(out@)[t]));
            let l = choose|l: int| 0 <= l < ev.len() && ev[l] == pair_views(out@)[t];
            assert(ev[l].0 == key);
        }
        assert forall|key: Seq<u8>| has_key(ev, key) implies has_key(pair_views(out@), key) by {
            let l = choose|l: int| 0 <= l < ev.len() && ev[l].0 == key;
            assert(keyseq[l] == key);
            assert(keyseq.contains(key));
            assert(sv.contains(key));
            let t = choose|t: int| 0 <= t < sv.len() && sv[t] == key;
            assert(pair_views(out@)[t].0 == key);
        }
        if unique_keys(ev) {
            assert forall|e: (Seq<u8>, Seq<u8>)| ev.contains(e) implies pair_views(
                out@,
            ).contains(e) by {
                let l = choose|l: int| 0 <= l < ev.len() && ev[l] == e;
                assert(keyseq[l] == e.0);
                assert(keyseq.contains(e.0));
                assert(sv.contains(e.0));
                let t = choose|t: int| 0 <= t < sv.len() && sv[t] == e.0;
                assert(pair_views(out@)[t].0 == e.0);
                assert(ev.contains(pair_views(out@)[t]));
                let m = choose|m: int| 0 <= m < ev.len() && ev[m] == pair_views(out@)[t];
                if m < l {
                    assert(ev[m].0 != ev[l].0);
                } else if l < m {
                    assert(ev[l].0 != ev[m].0);
                }
                assert(pair_views(out@)[t] == e);
            }
            assert forall|e: (Seq<u8>, Seq<u8>)| pair_views(out@).contains(e) implies ev.contains(
                e,
            ) by {
                let t = choose|t: int|
                    0 <= t < pair_views(out@).len() && pair_views(out@)[t] == e;
                assert(ev.contains(pair_views(out@)[t]));
            }
        }
    }
    out
}

impl PartData {
    /// Build the part table from headers and records given in any order.
    ///
    /// Fails with `DataIntegrity` when some record's cell count differs
    /// from the header count.  Otherwise the records are stored sorted
    /// strictly ascending by id; of records sharing an id the first wins.
    #[verifier::loop_isolation(false)]
    pub fn new(headers: Vec<Vec<u8>>, parts: Vec<Part>) -> (r: Result<PartData, Error>)
        ensures
            match r {
                Ok(pd) => {
                    &&& pd@.headers == views(headers@)
                    &&& pd.wf()
                    &&& forall|i: int| 0 <= i < parts@.len() ==> #[trigger] part_views(
                        parts@,
                    )[i].cells.len() == views(headers@).len()
                    &&& forall|id: Seq<u8>| has_part_id(pd@.parts, id) <==> has_part_id(
                        part_views(parts@),
                        id,
                    )
                    &&& forall|t: int| 0 <= t < pd@.parts.len() ==> part_views(parts@).contains(
                        #[trigger] pd@.parts[t],
                    )
                    &&& forall|t: int| 0 <= t < pd@.parts.len() ==> first_part_with_id(
                        part_views(parts@),
                        (#[trigger] pd@.parts[t]).id,
                    ) == Some(pd@.parts[t])
                    &&& unique_ids(part_views(parts@)) ==> (forall|pv: PartValue|
                        #[trigger] pd@.parts.contains(pv) <==> part_views(parts@).contains(pv))
                },
                Err(e) => e == Error::DataIntegrity && exists|i: int|
                    0 <= i < parts@.len() && #[trigger] part_views(parts@)[i].cells.len()
                        != views(headers@).len(),
            },
    {
        let ghost inv = part_views(parts@);
        let mut c: usize = 0;
        while c < parts.len()
            invariant
                c <= parts.len(),
                forall|j: int| 0 <= j < c ==> #[trigger] inv[j].cells.len() == views(
                    headers@,
                ).len(),
            decreases parts.len() - c,
        {
            if parts[c].cells.len() != headers.len() {
                assert(inv[c as int].cells.len() != views(headers@).len());
                return Err(Error::DataIntegrity);
            }
            c += 1;
        }
        let ghost idseq = inv.map_values(|p: PartValue| p.id);
        let mut ids: Vec<Vec<u8>> = Vec::new();
        let mut i: usize = 0;
        while i < parts.len()
            invariant
                i <= parts.len(),
                views(ids@) == idseq.subrange(0, i as int),
            decreases parts.len() - i,
        {
            ids.push(copy_bytes(&parts[i].id));
            assert(views(ids@) =~= idseq.subrange(0, i + 1));
            i += 1;
        }
        assert(views(ids@) =~= idseq);
        let sorted = sort_dedup(&ids);
        let ghost sv = views(sorted@);
        let mut out: Vec<Part> = Vec::new();
        let mut k: usize = 0;
        while k < sorted.len()
            invariant
                k <= sorted.len(),
                part_views(out@).len() == k,
                forall|t: int| 0 <= t < k ==> #[trigger] part_views(out@)[t].id == sv[t],
                forall|t: int| 0 <= t < k ==> inv.contains(#[trigger] part_views(out@)[t]),
                forall|t: int| 0 <= t < k ==> first_part_with_id(
                    inv,
                    (#[trigger] part_views(out@)[t]).id,
                ) == Some(part_views(out@)[t]),
            decreases sorted.len() - k,
        {
            proof {
                assert(sv.contains(sv[k as int]));
                assert(idseq.contains(sv[k as int]));
                let l = choose|l: int| 0 <= l < idseq.len() && idseq[l] == sv[k as int];
                assert(inv[l].id == sv[k as int]);
                assert(has_part_id(inv, sv[k as int]));
            }
            match find_first_part(&parts, &sorted[k]) {
                Some(f) => {
                    let p = part_copy(&parts[f]);
                    proof {
                        assert(p@ == inv[f as int]);
                        assert(sv[k as int] == sorted@[k as int]@);
                        assert(inv[f as int].id == sv[k as int]);
                    }
                    let ghost out0 = out@;
                    out.push(p);
                    proof {
                        assert forall|t: int| 0 <= t < k + 1 implies #[trigger] part_views(
                            out@,
                        )[t].id == sv[t] by {
                            if t < k {
                                assert(part_views(out@)[t] == part_views(out0)[t]);
                            } else {
                                assert(part_views(out@)[t] == inv[f as int]);
                            }
                        }
                        assert forall|t: int| 0 <= t < k + 1 implies inv.contains(
                            #[trigger] part_views(out@)[t],
                        ) by {
                            if t < k {
                                assert(part_views(out@)[t] == part_views(out0)[t]);
                            } else {
                                assert(part_views(out@)[t] == inv[f as int]);
                                assert(inv.contains(inv[f as int]));
                            }
                        }
                        assert forall|t: int| 0 <= t < k + 1 implies first_part_with_id(
                            inv,
                            (#[trigger] part_views(out@)[t]).id,
                        ) == Some(part_views(out@)[t]) by {
                            if t < k {
                                assert(part_views(out@)[t] == part_views(out0)[t]);
                            } else {
                                assert(part_views(out@)[t] == inv[f as int]);
                                lemma_first_part_at(inv, inv[f as int].id, f as int);
                            }
                        }
                    }
                },
                None => {
                    proof {
                        assert(false);
                    }
                    return Err(Error::PartIdMismatch);
                },
            }
            k += 1;
        }
        let pd = PartData { headers, parts: out };
        proof {
            let outv = part_views(out@);
            assert(pd@.headers =~= views(headers@));
            assert forall|a: int, b: int| 0 <= a < b < outv.len() implies lex_lt(
                outv[a].id,
                outv[b].id,
            ) by {
                assert(outv[a].id == sv[a]);
                assert(outv[b].id == sv[b]);
            }
            assert forall|id: Seq<u8>| has_part_id(outv, id) implies has_part_id(inv, id) by {
                let t = choose|t: int| 0 <= t < outv.len() && outv[t].id == id;
                assert(inv.contains(outv[t]));
                let l = choose|l: int| 0 <= l < inv.len() && inv[l] == outv[t];
            }
            assert forall|id: Seq<u8>| has_part_id(inv, id) implies has_part_id(outv, id) by {
                let l = choose|l: int| 0 <= l < inv.len() && inv[l].id == id;
                assert(idseq[l] == id);
                assert(idseq.contains(id));
                assert(sv.contains(id));
                let t = choose|t: int| 0 <= t < sv.len() && sv[t] == id;
                assert(outv[t].id == id);
            }
            if unique_ids(inv) {
                assert forall|pv: PartValue| inv.contains(pv) implies outv.contains(pv) by {
                    let l = choose|l: int| 0 <= l < inv.len() && inv[l] == pv;
                    assert(idseq[l] == pv.id);
                    assert(idseq.contains(pv.id));
                    assert(sv.contains(pv.id));
                    let t = choose|t: int| 0 <= t < sv.len() && sv[t] == pv.id;
                    assert(outv[t].id == pv.id);
                    assert(inv.contains(outv[t]));
                    let m = choose|m: int| 0 <= m < inv.len() && inv[m] == outv[t];
                    if m < l {
                        assert(inv[m].id != inv[l].id);
                    } else if l < m {
                        assert(inv[l].id != inv[m].id);
                    }
                    assert(outv[t] == pv);
                }
                assert forall|pv: PartValue| outv.contains(pv) implies inv.contains(pv) by {
                    let t = choose|t: int| 0 <= t < outv.len() && outv[t] == pv;
                    assert(inv.contains(outv[t]));
                }
            }
        }
        Ok(pd)
    }
}

impl Buffer {
    /// Build the aggregate from the two global maps (entries in any order;
    /// of entries sharing a key the first wins) and the part table.
    pub fn new(
        projdata: &Vec<(Vec<u8>, Vec<u8>)>,
        userdata: &Vec<(Vec<u8>, Vec<u8>)>,
        partdata: PartData,
    ) -> (r: Buffer)
        requires
            partdata.wf(),
        ensures
            r.wf(),
            r@.partdata == partdata@,
            forall|k: Seq<u8>| has_key(r@.projdata, k) <==> has_key(pair_views(projdata@), k),
            forall|k: Seq<u8>| has_key(r@.userdata, k) <==> has_key(pair_views(userdata@), k),
            forall|t: int| 0 <= t < r@.projdata.len() ==> pair_views(projdata@).contains(
                #[trigger] r@.projdata[t],
            ),
            forall|t: int| 0 <= t < r@.userdata.len() ==> pair_views(userdata@).contains(
                #[trigger] r@.userdata[t],
            ),
            unique_keys(pair_views(projdata@)) ==> (forall|e: (Seq<u8>, Seq<u8>)|
                #[trigger] r@.projdata.contains(e) <==> pair_views(projdata@).contains(e)),
            unique_keys(pair_views(userdata@)) ==> (forall|e: (Seq<u8>, Seq<u8>)|
                #[trigger] r@.userdata.contains(e) <==> pair_views(userdata@).contains(e)),
    {
        Buffer {
            projdata: assoc_canon(projdata),
            userdata: assoc_canon(userdata),
            partdata,
        }
    }

    /// The merged global substitution variables, ordered ascending by key.
    /// On a key present in both maps the user entry overrides the project
    /// entry.
    pub fn globals(&self) -> (r: Vec<(Vec<u8>, Vec<u8>)>)
        ensures
            pair_views(r@) == merge_assoc(self@.projdata, self@.userdata),
    {
        merge_assoc_vec(&self.projdata, &self.userdata)
    }
}

/// A sequence of records sorted strictly ascending by id is determined by
/// its set of members.
pub proof fn lemma_sorted_parts_unique(a: Seq<PartValue>, b: Seq<PartValue>)
    requires
        forall|i: int, j: int| 0 <= i < j < a.len() ==> lex_lt(a[i].id, a[j].id),
        forall|i: int, j: int| 0 <= i < j < b.len() ==> lex_lt(b[i].id, b[j].id),
        forall|p: PartValue| #[trigger] a.contains(p) <==> b.contains(p),
    ensures
        a == b,
    decreases a.len(),
{
    if a.len() == 0 {
        if b.len() > 0 {
            assert(b.contains(b[0]));
            assert(a.contains(b[0]));
        } else {
            assert(a =~= b);
        }
    } else if b.len() == 0 {
        assert(a.contains(a[0]));
        assert(b.contains(a[0]));
    } else {
        assert(a.contains(a[0]));
        assert(b.contains(b[0]));
        assert(b.contains(a[0]));
        assert(a.contains(b[0]));
        assert(a[0] == b[0]) by {
            let k = choose|k: int| 0 <= k < b.len() && b[k] == a[0];
            let l = choose|l: int| 0 <= l < a.len() && a[l] == b[0];
            if k > 0 && l > 0 {
                assert(lex_lt(b[0].id, b[k].id));
                assert(lex_lt(a[0].id, a[l].id));
                crate::order::lemma_lex_lt_transitive(a[0].id, b[0].id, a[0].id);
                crate::order::lemma_lex_lt_irreflexive(a[0].id);
            }
        }
        let ta = a.drop_first();
        let tb = b.drop_first();
        assert forall|i: int, j: int| 0 <= i < j < ta.len() implies lex_lt(ta[i].id, ta[j].id) by {
            assert(ta[i] == a[i + 1]);
            assert(ta[j] == a[j + 1]);
        }
        assert forall|i: int, j: int| 0 <= i < j < tb.len() implies lex_lt(tb[i].id, tb[j].id) by {
            assert(tb[i] == b[i + 1]);
            assert(tb[j] == b[j + 1]);
        }
        assert forall|p: PartValue| #[trigger] ta.contains(p) implies tb.contains(p) by {
            let i = choose|i: int| 0 <= i < ta.len() && ta[i] == p;
            assert(a[i + 1] == p);
            assert(a.contains(p));
            assert(b.contains(p));
            let k = choose|k: int| 0 <= k < b.len() && b[k] == p;
            if k == 0 {
                // then p == a[0], but a[0].id is strictly below p.id
                crate::order::lemma_lex_lt_irreflexive(p.id);
            }
            assert(tb[k - 1] == p);
        }
        assert forall|p: PartValue| #[trigger] tb.contains(p) implies ta.contains(p) by {
            let i = choose|i: int| 0 <= i < tb.len() && tb[i] == p;
            assert(b[i + 1] == p);
            assert(b.contains(p));
            assert(a.contains(p));
            let k = choose|k: int| 0 <= k < a.len() && a[k] == p;
            if k == 0 {
                crate::order::lemma_lex_lt_irreflexive(p.id);
            }
            assert(ta[k - 1] == p);
        }
        lemma_sorted_parts_unique(ta, tb);
        assert forall|i: int| 0 <= i < a.len() implies a[i] == b[i] by {
            if i > 0 {
                assert(ta[i - 1] == tb[i - 1]);
            }
        }
        assert(a =~= b);
    }
}

/// Law: the report stems are deterministic and independent of the order in
/// which the part mapping was traversed while building the table.  Two
/// well-formed part tables with the same headers and the same set of
/// records are identical, and so are their stems.
pub proof fn lemma_stems_order_independent(a: PartDataValue, b: PartDataValue)
    requires
        pd_wf(a),
        pd_wf(b),
        a.headers == b.headers,
        forall|p: PartValue| #[trigger] a.parts.contains(p) <==> b.parts.contains(p),
    ensures
        a.parts == b.parts,
        spec_stems(a) == spec_stems(b),
{
    lemma_sorted_parts_unique(a.parts, b.parts);
}

/// The designated header naming the report-membership column: `"rep"`.
pub open spec fn rep_header() -> Seq<u8> {
    seq![114u8, 101u8, 112u8]
}

/// The bytes of `"rep"`.
pub fn rep_header_bytes() -> (r: Vec<u8>)
    ensures
        r@ == rep_header(),
{
    let v: Vec<u8> = vec![114u8, 101u8, 112u8];
    assert(v@ =~= rep_header());
    v
}

/// What one record contributes to the report stems: the entries of its
/// `"rep"` cell when that cell is a `List`; a `Name` cell there is not a
/// report membership and contributes nothing.
pub open spec fn rep_contrib(p: PartValue, ci: int) -> Seq<Seq<u8>> {
    match p.cells[ci] {
        VariableValue::List(l) => l,
        VariableValue::Name(_) => Seq::empty(),
    }
}

/// All records' contributions to the report stems, in record order.
pub open spec fn collected_stems(parts: Seq<PartValue>, ci: int) -> Seq<Seq<u8>>
    decreases parts.len(),
{
    if parts.len() == 0 {
        Seq::empty()
    } else {
        rep_contrib(parts[0], ci) + collected_stems(parts.drop_first(), ci)
    }
}

pub proof fn lemma_collected_stems_snoc(parts: Seq<PartValue>, p: PartValue, ci: int)
    ensures
        collected_stems(parts.push(p), ci) == collected_stems(parts, ci) + rep_contrib(p, ci),
    decreases parts.len(),
{
    reveal_with_fuel(collected_stems, 3);
    if parts.len() == 0 {
        assert(parts.push(p)[0] == p);
        assert(parts.push(p).drop_first() =~= Seq::<PartValue>::empty());
        assert(collected_stems(parts.push(p), ci) =~= collected_stems(parts, ci) + rep_contrib(
            p,
            ci,
        ));
    } else {
        assert(parts.push(p)[0] == parts[0]);
        assert(parts.push(p).drop_first() =~= parts.drop_first().push(p));
        lemma_collected_stems_snoc(parts.drop_first(), p, ci);
        assert(collected_stems(parts.push(p), ci) == rep_contrib(parts[0], ci) + (collected_stems(
            parts.drop_first(),
            ci,
        ) + rep_contrib(p, ci)));
        assert(collected_stems(parts.push(p), ci) =~= collected_stems(parts, ci) + rep_contrib(
            p,
            ci,
        ));
    }
}

/// A stem is some record's contribution.
pub proof fn lemma_collected_stems_contains(parts: Seq<PartValue>, ci: int)
    ensures
        forall|s: Seq<u8>| #[trigger] collected_stems(parts, ci).contains(s) <==> exists|i: int|
            0 <= i < parts.len() && #[trigger] rep_contrib(parts[i], ci).contains(s),
    decreases parts.len(),
{
    if parts.len() == 0 {
    } else {
        lemma_collected_stems_contains(parts.drop_first(), ci);
        let t = parts.drop_first();
        assert forall|s: Seq<u8>| #[trigger] collected_stems(parts, ci).contains(s) implies exists|
            i: int,
        | 0 <= i < parts.len() && #[trigger] rep_contrib(parts[i], ci).contains(s) by {
            crate::order::lemma_concat_contains(
                rep_contrib(parts[0], ci),
                collected_stems(t, ci),
                s,
            );
            if rep_contrib(parts[0], ci).contains(s) {
                assert(rep_contrib(parts[0], ci).contains(s));
            } else {
                let i = choose|i: int| 0 <= i < t.len() && #[trigger] rep_contrib(
                    t[i],
                    ci,
                ).contains(s);
                assert(t[i] == parts[i + 1]);
                assert(rep_contrib(parts[i + 1], ci).contains(s));
            }
        }
        assert forall|s: Seq<u8>|
            (exists|i: int| 0 <= i < parts.len() && #[trigger] rep_contrib(
                parts[i],
                ci,
            ).contains(s)) implies #[trigger] collected_stems(parts, ci).contains(s) by {
            crate::order::lemma_concat_contains(
                rep_contrib(parts[0], ci),
                collected_stems(t, ci),
                s,
            );
            let i = choose|i: int| 0 <= i < parts.len() && #[trigger] rep_contrib(
                parts[i],
                ci,
            ).contains(s);
            if i > 0 {
                assert(t[i - 1] == parts[i]);
                assert(rep_contrib(t[i - 1], ci).contains(s));
            }
        }
    }
}

/// The report stems of a part table: every entry of every `List`-valued
/// `"rep"` cell, sorted ascending with duplicates removed.
pub open spec fn spec_stems(pd: PartDataValue) -> Seq<Seq<u8>> {
    match spec_header_index(pd.headers, rep_header(), 0) {
        Some(ri) => crate::order::spec_sort_dedup(collected_stems(pd.parts, ri)),
        None => Seq::empty(),
    }
}

/// `s` names a report of this part table.
pub open spec fn is_stem(pd: PartDataValue, s: Seq<u8>) -> bool {
    match spec_header_index(pd.headers, rep_header(), 0) {
        Some(ri) => exists|i: int| 0 <= i < pd.parts.len() && #[trigger] rep_contrib(
            pd.parts[i],
            ri,
        ).contains(s),
        None => false,
    }
}

impl Buffer {
    /// The sorted, deduplicated sequence of report stems declared in the
    /// `"rep"` column.  Fails with `HeaderNotFound` exactly when `"rep"` is
    /// not among the headers.
    #[verifier::loop_isolation(false)]
    pub fn list_all_report_stems(&self) -> (r: Result<Vec<Vec<u8>>, Error>)
        requires
            self.wf(),
        ensures
            match r {
                Ok(stems) => {
                    &&& self@.partdata.headers.contains(rep_header())
                    &&& views(stems@) == spec_stems(self@.partdata)
                    &&& strictly_sorted(views(stems@))
                    &&& forall|s: Seq<u8>| #[trigger] views(stems@).contains(s) <==> is_stem(
                        self@.partdata,
                        s,
                    )
                },
                Err(e) => e == Error::HeaderNotFound && !self@.partdata.headers.contains(
                    rep_header(),
                ),
            },
    {
        let rep = rep_header_bytes();
        let ri = match self.partdata.index_of_header(&rep) {
            Ok(ri) => ri,
            Err(e) => {
                return Err(e);
            },
        };
        let ghost pv = self@.partdata.parts;
        let mut raw: Vec<Vec<u8>> = Vec::new();
        let mut i: usize = 0;
        proof {
            assert(pv.subrange(0, 0) =~= Seq::<PartValue>::empty());
        }
        while i < self.partdata.parts.len()
            invariant
                i <= self.partdata.parts.len(),
                ri < self@.partdata.headers.len(),
                views(raw@) == collected_stems(pv.subrange(0, i as int), ri as int),
            decreases self.partdata.parts.len() - i,
        {
            let part = &self.partdata.parts[i];
            proof {
                assert(pv[i as int] == part@);
                assert(pv.subrange(0, i + 1) =~= pv.subrange(0, i as int).push(pv[i as int]));
                lemma_collected_stems_snoc(pv.subrange(0, i as int), pv[i as int], ri as int);
            }
            assert(part@.cells.len() == self@.partdata.headers.len());
            assert(part.cells@.len() == part@.cells.len());
            {
                match &part.cells[ri] {
                    Variable::List(l) => {
                        proof {
                            assert(part@.cells[ri as int] == part.cells@[ri as int]@);
                            assert(rep_contrib(pv[i as int], ri as int) == views(l@));
                        }
                        let mut t: usize = 0;
                        let ghost raw0 = views(raw@);
                        proof {
                            assert(views(raw@) =~= raw0 + views(l@).subrange(0, 0));
                        }
                        while t < l.len()
                            invariant
                                t <= l.len(),
                                views(raw@) == raw0 + views(l@).subrange(0, t as int),
                            decreases l.len() - t,
                        {
                            let ghost rawpre = raw@;
                            raw.push(copy_bytes(&l[t]));
                            proof {
                                assert forall|q: int| 0 <= q < views(raw@).len() implies views(
                                    raw@,
                                )[q] == (raw0 + views(l@).subrange(0, t + 1))[q] by {
                                    if q < rawpre.len() {
                                        assert(views(raw@)[q] == views(rawpre)[q]);
                                    } else {
                                        assert(views(raw@)[q] == l@[t as int]@);
                                    }
                                }
                                assert(views(raw@) =~= raw0 + views(l@).subrange(0, t + 1));
                            }
                            t += 1;
                        }
                        assert(views(raw@) =~= raw0 + views(l@));
                    },
                    Variable::Name(_) => {
                        proof {
                            assert(part@.cells[ri as int] == part.cells@[ri as int]@);
                            assert(rep_contrib(pv[i as int], ri as int) =~= Seq::<Seq<u8>>::empty());
                            assert(views(raw@) =~= views(raw@) + rep_contrib(
                                pv[i as int],
                                ri as int,
                            ));
                        }
                    },
                }
            }
            i += 1;
        }
        proof {
            assert(pv.subrange(0, pv.len() as int) =~= pv);
        }
        let stems = crate::order::sort_dedup(&raw);
        proof {
            lemma_collected_stems_contains(pv, ri as int);
            assert(spec_header_index(self@.partdata.headers, rep_header(), 0) == Some(ri as int));
            assert(self@.partdata.headers[ri as int] == rep_header());
            assert(self@.partdata.headers.contains(rep_header()));
            assert(views(raw@) == collected_stems(pv, ri as int));
            assert(views(stems@) == spec_stems(self@.partdata));
        }
        Ok(stems)
    }
}

} // verus!
