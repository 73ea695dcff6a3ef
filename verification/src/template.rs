//! One template document, parsed into its five zones by the tag-block
//! locator, each zone narrowing the previous: the `<body>` inside the whole
//! document; the `title_block` and `data_block` tables inside the body; the
//! optional `sorting_row` and `pattern_row` rows inside the data block.

use vstd::prelude::*;
use crate::locator::{blocks, body, rows, spec_blocks, spec_body, spec_rows};
use crate::model::Error;

verus! {

/// View of an optional byte string.
pub open spec fn opt_view(o: Option<Vec<u8>>) -> Option<Seq<u8>> {
    match o {
        Some(v) => Some(v@),
        None => None,
    }
}

/// The five zones of one template at spec level.
pub struct TemplateValue {
    pub raw: Seq<u8>,
    pub body: Seq<u8>,
    pub title_block: Seq<u8>,
    pub data_block: Seq<u8>,
    pub sorting_row: Option<Seq<u8>>,
    pub pattern_row: Option<Seq<u8>>,
}

/// A parsed template: the raw document text and its five zones.
pub struct Template {
    pub raw: Vec<u8>,
    pub body: Vec<u8>,
    pub title_block: Vec<u8>,
    pub data_block: Vec<u8>,
    pub sorting_row: Option<Vec<u8>>,
    pub pattern_row: Option<Vec<u8>>,
}

impl View for Template {
    type V = TemplateValue;

    open spec fn view(&self) -> TemplateValue {
        TemplateValue {
            raw: self.raw@,
            body: self.body@,
            title_block: self.title_block@,
            data_block: self.data_block@,
            sorting_row: opt_view(self.sorting_row),
            pattern_row: opt_view(self.pattern_row),
        }
    }
}

/// The zones of a document: the body span; inside it the title block, then
/// the data block after it; inside the data block the optional sorting row,
/// then the optional pattern row after it.  `None` when one of the three
/// required zones cannot be located.
pub open spec fn spec_template(doc: Seq<u8>) -> Option<TemplateValue> {
    match spec_body(doc) {
        None => None,
        Some(b) => match spec_blocks(b) {
            None => None,
            Some(tb_db) => Some(
                TemplateValue {
                    raw: doc,
                    body: b,
                    title_block: tb_db.0,
                    data_block: tb_db.1,
                    sorting_row: spec_rows(tb_db.1).0,
                    pattern_row: spec_rows(tb_db.1).1,
                },
            ),
        },
    }
}

impl Template {
    /// Parse a raw template document into its five zones.  Fails with
    /// `TemplateParseFailure` exactly when the body, the title block or the
    /// data block cannot be located.
    pub fn new(raw: Vec<u8>) -> (r: Result<Template, Error>)
        ensures
            match r {
                Ok(t) => spec_template(raw@) == Some(t@),
                Err(e) => e == Error::TemplateParseFailure && spec_template(raw@) is None,
            },
    {
        let b = match body(&raw) {
            Some(b) => b,
            None => {
                return Err(Error::TemplateParseFailure);
            },
        };
        let (tb, db) = match blocks(&b) {
            Some(p) => p,
            None => {
                return Err(Error::TemplateParseFailure);
            },
        };
        let (sr, pr) = rows(&db);
        let t = Template {
            raw,
            body: b,
            title_block: tb,
            data_block: db,
            sorting_row: sr,
            pattern_row: pr,
        };
        Ok(t)
    }
}

} // verus!
