use html_nomicon::model::{Buffer, Error, Part, PartData, Variable};
use html_nomicon::render::{render, replace_globals};
use html_nomicon::template::Template;

fn rb(s: &str) -> Vec<u8> {
    s.as_bytes().to_vec()
}

fn rs(v: &[u8]) -> String {
    String::from_utf8(v.to_vec()).unwrap()
}

fn rpart(id: &str, cells: Vec<Variable>) -> Part {
    Part { id: rb(id), cells }
}

fn rbuffer(
    proj: Vec<(&str, &str)>,
    user: Vec<(&str, &str)>,
    headers: Vec<&str>,
    parts: Vec<Part>,
) -> Buffer {
    let proj: Vec<(Vec<u8>, Vec<u8>)> = proj.into_iter().map(|(k, v)| (rb(k), rb(v))).collect();
    let user: Vec<(Vec<u8>, Vec<u8>)> = user.into_iter().map(|(k, v)| (rb(k), rb(v))).collect();
    let headers = headers.into_iter().map(rb).collect();
    let pd = PartData::new(headers, parts).unwrap();
    Buffer::new(&proj, &user, pd)
}

#[test]
fn template_zones_parse() {
    let doc = rb(
        "<body><table class=\"title_block\"><td>T</td></table><table class=\"data_block\"><tr class=\"sorting_row\">[_sort]</tr><tr class=\"pattern_row\">(~n,~id,_id)</tr></table></body>",
    );
    let t = Template::new(doc).unwrap();
    assert_eq!(
        rs(&t.title_block),
        "<table class=\"title_block\"><td>T</td></table>"
    );
    assert_eq!(
        rs(&t.data_block),
        "<table class=\"data_block\"><tr class=\"sorting_row\">[_sort]</tr><tr class=\"pattern_row\">(~n,~id,_id)</tr></table>"
    );
    assert_eq!(
        t.sorting_row.as_deref().map(rs),
        Some("<tr class=\"sorting_row\">[_sort]</tr>".to_string())
    );
    assert_eq!(
        t.pattern_row.as_deref().map(rs),
        Some("<tr class=\"pattern_row\">(~n,~id,_id)</tr>".to_string())
    );
}

#[test]
fn template_without_data_block_fails() {
    let doc = rb("<body><table class=\"title_block\"><td>T</td></table></body>");
    match Template::new(doc) {
        Err(e) => assert_eq!(e, Error::TemplateParseFailure),
        Ok(_) => panic!("a template without a data block must not parse"),
    }
}

#[test]
fn grouped_rendering_example() {
    // headers [id, sort]; p1 -> A, p2 -> B, p3 -> A; grouped by "sort"
    let doc = rb(
        "<body><table class=\"title_block\"><td>T</td></table><table class=\"data_block\"><tr class=\"sorting_row\">[_sort]</tr><tr class=\"pattern_row\">(~n,~id,_id)</tr></table></body>",
    );
    let t = Template::new(doc).unwrap();
    let b = rbuffer(
        vec![],
        vec![],
        vec!["id", "sort"],
        vec![
            rpart("p1", vec![Variable::Name(rb("p1")), Variable::Name(rb("A"))]),
            rpart("p2", vec![Variable::Name(rb("p2")), Variable::Name(rb("B"))]),
            rpart("p3", vec![Variable::Name(rb("p3")), Variable::Name(rb("A"))]),
        ],
    );
    let out = rs(&render(&t, &b).unwrap());
    let mut expected = String::new();
    expected.push_str("<body><table class=\"title_block\"><td>T</td></table>");
    expected.push_str("<table class=\"data_block\"><tr class=\"sorting_row\">[A]</tr>");
    expected.push_str("<tr class=\"pattern_row\">(1,p1,p1)</tr><tr class=\"pattern_row\">(2,p3,p3)</tr></table>");
    expected.push_str("<table class=\"data_block\"><tr class=\"sorting_row\">[B]</tr>");
    expected.push_str("<tr class=\"pattern_row\">(1,p2,p2)</tr></table>");
    expected.push_str("</body>");
    assert_eq!(out, expected);
}

#[test]
fn plain_rendering_ordinals_ascending() {
    // no sorting or pattern row: one data-block instance per part, ~n = 1..N
    let doc = rb("<body><table class=\"title_block\"><td>T</td></table><table class=\"data_block\"><td>~n:~id</td></table></body>");
    let t = Template::new(doc).unwrap();
    let b = rbuffer(
        vec![],
        vec![],
        vec!["id"],
        vec![
            rpart("p2", vec![Variable::Name(rb("p2"))]),
            rpart("p1", vec![Variable::Name(rb("p1"))]),
            rpart("p3", vec![Variable::Name(rb("p3"))]),
        ],
    );
    let out = rs(&render(&t, &b).unwrap());
    let mut expected = String::new();
    expected.push_str("<body><table class=\"title_block\"><td>T</td></table>");
    expected.push_str("<table class=\"data_block\"><td>1:p1</td></table>");
    expected.push_str("<table class=\"data_block\"><td>2:p2</td></table>");
    expected.push_str("<table class=\"data_block\"><td>3:p3</td></table>");
    expected.push_str("</body>");
    assert_eq!(out, expected);
    // exactly N instances, pairwise distinct ids
    assert_eq!(out.matches("data_block").count(), 3);
    assert_eq!(out.matches(":p1").count(), 1);
    assert_eq!(out.matches(":p2").count(), 1);
    assert_eq!(out.matches(":p3").count(), 1);
}

#[test]
fn title_globals_round_trip() {
    let doc = rb(
        "<body><table class=\"title_block\"><td>Owner: {{owner}}</td></table><table class=\"data_block\"><td>x</td></table></body>",
    );
    let t = Template::new(doc).unwrap();
    let b = rbuffer(vec![("owner", "Acme")], vec![], vec!["id"], vec![]);
    let out = rs(&render(&t, &b).unwrap());
    assert!(out.contains("Owner: Acme"));
    assert_eq!(out.matches("{{owner}}").count(), 0);
}

#[test]
fn global_precedence_user_wins() {
    let text = rb("value: {{owner}}");
    let b = rbuffer(
        vec![("owner", "project")],
        vec![("owner", "user")],
        vec!["id"],
        vec![],
    );
    assert_eq!(rs(&replace_globals(&text, &b)), "value: user");
}

#[test]
fn grouping_requested_without_pattern_row_fails() {
    let doc = rb(
        "<body><table class=\"title_block\"><td>T</td></table><table class=\"data_block\"><tr class=\"sorting_row\">[_sort]</tr></table></body>",
    );
    let t = Template::new(doc).unwrap();
    let b = rbuffer(
        vec![],
        vec![],
        vec!["id", "sort"],
        vec![rpart("p1", vec![Variable::Name(rb("p1")), Variable::Name(rb("A"))])],
    );
    match render(&t, &b) {
        Err(e) => assert_eq!(e, Error::TemplateParseFailure),
        Ok(_) => panic!("grouping without a pattern row must fail"),
    }
}

#[test]
fn unresolved_sorting_variable_falls_back_to_plain() {
    // the sorting row names no known header, so rendering is ungrouped
    let doc = rb(
        "<body><table class=\"title_block\"><td>T</td></table><table class=\"data_block\"><tr class=\"sorting_row\">[_unknown]</tr><tr class=\"pattern_row\">(~n)</tr></table></body>",
    );
    let t = Template::new(doc).unwrap();
    let b = rbuffer(
        vec![],
        vec![],
        vec!["id"],
        vec![rpart("p1", vec![Variable::Name(rb("p1"))])],
    );
    let out = rs(&render(&t, &b).unwrap());
    // one whole data-block instance for the single part
    assert_eq!(out.matches("data_block").count(), 1);
    assert!(out.contains("[_unknown]"));
}

#[test]
fn list_cells_leave_header_token_unreplaced() {
    let doc = rb(
        "<body><table class=\"title_block\"><td>T</td></table><table class=\"data_block\"><td>_tags</td></table></body>",
    );
    let t = Template::new(doc).unwrap();
    let b = rbuffer(
        vec![],
        vec![],
        vec!["tags"],
        vec![rpart("p1", vec![Variable::List(vec![rb("x"), rb("y")])])],
    );
    let out = rs(&render(&t, &b).unwrap());
    assert!(out.contains("_tags"));
}

#[test]
fn globals_run_after_row_substitution() {
    // a global key colliding with a header name must not clobber row tokens:
    // the row pass fills _name first, the global pass then touches {{name}}
    let doc = rb(
        "<body><table class=\"title_block\"><td>{{name}}</td></table><table class=\"data_block\"><td>_name</td></table></body>",
    );
    let t = Template::new(doc).unwrap();
    let b = rbuffer(
        vec![("name", "GLOBAL")],
        vec![],
        vec!["name"],
        vec![rpart("p1", vec![Variable::Name(rb("cell"))])],
    );
    let out = rs(&render(&t, &b).unwrap());
    assert!(out.contains("<td>GLOBAL</td>"));
    assert!(out.contains("<td>cell</td>"));
}
