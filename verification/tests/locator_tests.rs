use html_nomicon::locator::{blocks, body, data_block, pattern_row, rows, sorting_row, title_block};
use html_nomicon::text::{decimal, find, replace_all, replace_first};

fn lb(s: &str) -> Vec<u8> {
    s.as_bytes().to_vec()
}

#[test]
fn find_leftmost_occurrence() {
    let text = lb("abcabc");
    assert_eq!(find(&text, &lb("bc"), 0), Some(1));
    assert_eq!(find(&text, &lb("bc"), 2), Some(4));
    assert_eq!(find(&text, &lb("zz"), 0), None);
    assert_eq!(find(&text, &lb(""), 0), None);
}

#[test]
fn replace_first_only_touches_leftmost() {
    let r = replace_first(&lb("one two one"), &lb("one"), &lb("1"));
    assert_eq!(r, lb("1 two one"));
    let r = replace_first(&lb("abc"), &lb("zz"), &lb("1"));
    assert_eq!(r, lb("abc"));
}

#[test]
fn replace_all_left_to_right_no_rescan() {
    assert_eq!(replace_all(&lb("aaa"), &lb("aa"), &lb("b")), lb("ba"));
    assert_eq!(replace_all(&lb("xyx"), &lb("x"), &lb("xx")), lb("xxyxx"));
    // an empty pattern occurs nowhere
    assert_eq!(replace_all(&lb("abc"), &lb(""), &lb("z")), lb("abc"));
}

#[test]
fn decimal_digits() {
    assert_eq!(decimal(0), lb("0"));
    assert_eq!(decimal(7), lb("7"));
    assert_eq!(decimal(907), lb("907"));
}

#[test]
fn body_span_through_first_close() {
    let doc = lb("<html><body><p>x</p></body><p>tail</p></html>");
    assert_eq!(body(&doc), Some(lb("<body><p>x</p></body>")));
    assert_eq!(body(&lb("<html>no body here</html>")), None);
}

#[test]
fn data_block_skips_unqualified_table() {
    // two table elements; only the second carries the class
    let doc = lb("<body><table><td>a</td></table><table class=\"data_block\"><td>b</td></table></body>");
    assert_eq!(
        data_block(&doc),
        Some(lb("<table class=\"data_block\"><td>b</td></table>"))
    );
}

#[test]
fn class_check_allows_extra_whitespace() {
    let doc = lb("<body><table \t\n class=\"data_block\"><td>b</td></table></body>");
    assert_eq!(
        data_block(&doc),
        Some(lb("<table \t\n class=\"data_block\"><td>b</td></table>"))
    );
}

#[test]
fn class_must_follow_tag_name() {
    // an attribute standing between the tag name and class breaks the match
    let doc = lb("<body><table id=\"z\" class=\"data_block\"><td>b</td></table></body>");
    assert_eq!(data_block(&doc), None);
}

#[test]
fn tag_name_is_word_bounded() {
    let doc = lb("<tablex class=\"data_block\"></tablex><table class=\"data_block\"><td></td></table>");
    assert_eq!(
        data_block(&doc),
        Some(lb("<table class=\"data_block\"><td></td></table>"))
    );
}

#[test]
fn nested_same_tag_truncates_span() {
    // the close scan is not nesting-aware: the inner closing tag wins
    let doc = lb("<table class=\"data_block\"><table></table></table>");
    assert_eq!(
        data_block(&doc),
        Some(lb("<table class=\"data_block\"><table></table>"))
    );
}

#[test]
fn title_block_and_blocks_in_sequence() {
    let doc = lb(
        "<table class=\"title_block\"><td>t</td></table><table class=\"data_block\"><td>d</td></table>",
    );
    assert_eq!(
        title_block(&doc),
        Some(lb("<table class=\"title_block\"><td>t</td></table>"))
    );
    let (tb, db) = blocks(&doc).unwrap();
    assert_eq!(tb, lb("<table class=\"title_block\"><td>t</td></table>"));
    assert_eq!(db, lb("<table class=\"data_block\"><td>d</td></table>"));
}

#[test]
fn rows_are_optional_and_ordered() {
    let db = lb(
        "<tr class=\"sorting_row\"><td>_s</td></tr><tr class=\"pattern_row\"><td>_p</td></tr>",
    );
    assert_eq!(
        sorting_row(&db),
        Some(lb("<tr class=\"sorting_row\"><td>_s</td></tr>"))
    );
    assert_eq!(
        pattern_row(&db),
        Some(lb("<tr class=\"pattern_row\"><td>_p</td></tr>"))
    );
    let (sr, pr) = rows(&db);
    assert_eq!(sr, Some(lb("<tr class=\"sorting_row\"><td>_s</td></tr>")));
    assert_eq!(pr, Some(lb("<tr class=\"pattern_row\"><td>_p</td></tr>")));
    let (sr, pr) = rows(&lb("<td>nothing</td>"));
    assert_eq!(sr, None);
    assert_eq!(pr, None);
}

#[test]
fn pattern_row_is_sought_after_the_sorting_row() {
    // a pattern row standing before the sorting row is not taken
    let db = lb(
        "<tr class=\"pattern_row\"><td>_p</td></tr><tr class=\"sorting_row\"><td>_s</td></tr>",
    );
    let (sr, pr) = rows(&db);
    assert_eq!(sr, Some(lb("<tr class=\"sorting_row\"><td>_s</td></tr>")));
    assert_eq!(pr, None);
}
