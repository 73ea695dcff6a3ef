use html_nomicon::grouping::GroupedView;
use html_nomicon::model::{Buffer, Error, Part, PartData, Variable};

fn mb(s: &str) -> Vec<u8> {
    s.as_bytes().to_vec()
}

fn mpart(id: &str, cells: Vec<Variable>) -> Part {
    Part { id: mb(id), cells }
}

fn mbuffer(headers: Vec<&str>, parts: Vec<Part>) -> Buffer {
    let headers = headers.into_iter().map(mb).collect();
    let pd = PartData::new(headers, parts).unwrap();
    let none: Vec<(Vec<u8>, Vec<u8>)> = Vec::new();
    Buffer::new(&none, &none, pd)
}

#[test]
fn cell_count_mismatch_is_data_integrity() {
    let headers = vec![mb("id"), mb("sort")];
    let parts = vec![mpart("p1", vec![Variable::Name(mb("p1"))])];
    match PartData::new(headers, parts) {
        Err(e) => assert_eq!(e, Error::DataIntegrity),
        Ok(_) => panic!("a one-cell record must not satisfy two headers"),
    }
}

#[test]
fn missing_rep_header_is_header_not_found() {
    let b = mbuffer(
        vec!["id"],
        vec![mpart("p1", vec![Variable::Name(mb("p1"))])],
    );
    match b.list_all_report_stems() {
        Err(e) => assert_eq!(e, Error::HeaderNotFound),
        Ok(_) => panic!("stems must fail without a rep header"),
    }
}

#[test]
fn stems_flatten_sort_dedupe() {
    let b = mbuffer(
        vec!["rep"],
        vec![
            mpart("pa", vec![Variable::List(vec![mb("r2"), mb("r1")])]),
            mpart("pb", vec![Variable::List(vec![mb("r1"), mb("r3")])]),
            // a Name cell in the rep column is not a report membership
            mpart("pc", vec![Variable::Name(mb("zzz"))]),
        ],
    );
    let stems = b.list_all_report_stems().unwrap();
    assert_eq!(stems, vec![mb("r1"), mb("r2"), mb("r3")]);
}

#[test]
fn stems_independent_of_insertion_order() {
    let p1 = || mpart("pa", vec![Variable::List(vec![mb("r2"), mb("r1")])]);
    let p2 = || mpart("pb", vec![Variable::List(vec![mb("r3")])]);
    let p3 = || mpart("pc", vec![Variable::List(vec![mb("r1")])]);
    let a = mbuffer(vec!["rep"], vec![p1(), p2(), p3()]);
    let b = mbuffer(vec!["rep"], vec![p3(), p1(), p2()]);
    assert_eq!(
        a.list_all_report_stems().unwrap(),
        b.list_all_report_stems().unwrap()
    );
}

#[test]
fn stems_of_empty_table_are_empty() {
    let b = mbuffer(vec!["rep"], vec![]);
    assert_eq!(b.list_all_report_stems().unwrap(), Vec::<Vec<u8>>::new());
    let b = mbuffer(
        vec!["rep"],
        vec![mpart("p1", vec![Variable::List(vec![])])],
    );
    assert_eq!(b.list_all_report_stems().unwrap(), Vec::<Vec<u8>>::new());
}

#[test]
fn globals_user_overrides_project() {
    let proj = vec![(mb("owner"), mb("project")), (mb("a"), mb("1"))];
    let user = vec![(mb("owner"), mb("user"))];
    let pd = PartData::new(vec![mb("id")], Vec::new()).unwrap();
    let b = Buffer::new(&proj, &user, pd);
    let gs = b.globals();
    assert_eq!(gs, vec![(mb("a"), mb("1")), (mb("owner"), mb("user"))]);
}

#[test]
fn group_by_missing_header_fails() {
    let b = mbuffer(
        vec!["id"],
        vec![mpart("p1", vec![Variable::Name(mb("p1"))])],
    );
    match b.partdata.group_by_header(&mb("nope")) {
        Err(e) => assert_eq!(e, Error::HeaderNotFound),
        Ok(_) => panic!("grouping by an absent header must fail"),
    }
}

#[test]
fn grouping_example_two_values() {
    // headers [id, sort]; p1 -> A, p2 -> B, p3 -> A
    let b = mbuffer(
        vec!["id", "sort"],
        vec![
            mpart("p1", vec![Variable::Name(mb("p1")), Variable::Name(mb("A"))]),
            mpart("p2", vec![Variable::Name(mb("p2")), Variable::Name(mb("B"))]),
            mpart("p3", vec![Variable::Name(mb("p3")), Variable::Name(mb("A"))]),
        ],
    );
    let g: GroupedView = b.partdata.group_by_header(&mb("sort")).unwrap();
    assert_eq!(g.sort_header, mb("sort"));
    assert_eq!(g.sort_values, vec![mb("A"), mb("B")]);
    assert_eq!(g.groups.len(), 2);
    assert_eq!(g.groups[0], vec![mb("p1"), mb("p3")]);
    assert_eq!(g.groups[1], vec![mb("p2")]);
}

#[test]
fn list_valued_sort_cells_are_excluded() {
    let b = mbuffer(
        vec!["id", "sort"],
        vec![
            mpart("p1", vec![Variable::Name(mb("p1")), Variable::Name(mb("A"))]),
            mpart(
                "p4",
                vec![Variable::Name(mb("p4")), Variable::List(vec![mb("A"), mb("B")])],
            ),
        ],
    );
    let g = b.partdata.group_by_header(&mb("sort")).unwrap();
    assert_eq!(g.sort_values, vec![mb("A")]);
    assert_eq!(g.groups[0], vec![mb("p1")]);
}

#[test]
fn groups_hold_each_name_part_exactly_once() {
    let b = mbuffer(
        vec!["id", "sort"],
        vec![
            mpart("p1", vec![Variable::Name(mb("p1")), Variable::Name(mb("A"))]),
            mpart("p2", vec![Variable::Name(mb("p2")), Variable::Name(mb("B"))]),
            mpart("p3", vec![Variable::Name(mb("p3")), Variable::Name(mb("A"))]),
            mpart("p4", vec![Variable::Name(mb("p4")), Variable::List(vec![mb("A")])]),
        ],
    );
    let g = b.partdata.group_by_header(&mb("sort")).unwrap();
    let mut seen: Vec<Vec<u8>> = Vec::new();
    for group in &g.groups {
        for id in group {
            assert!(!seen.contains(id), "a part id may appear only once");
            seen.push(id.clone());
        }
    }
    seen.sort();
    // exactly the Name-valued parts, p4 excluded
    assert_eq!(seen, vec![mb("p1"), mb("p2"), mb("p3")]);
}

#[test]
fn parts_canonicalized_ascending_by_id() {
    let b = mbuffer(
        vec!["id"],
        vec![
            mpart("zz", vec![Variable::Name(mb("zz"))]),
            mpart("aa", vec![Variable::Name(mb("aa"))]),
            mpart("mm", vec![Variable::Name(mb("mm"))]),
        ],
    );
    let ids: Vec<Vec<u8>> = b.partdata.parts.iter().map(|p| p.id.clone()).collect();
    assert_eq!(ids, vec![mb("aa"), mb("mm"), mb("zz")]);
}

#[test]
fn error_descriptions_are_distinct() {
    let all = [
        Error::MissingField,
        Error::HeaderNotFound,
        Error::TemplateParseFailure,
        Error::PartIdMismatch,
        Error::IoFailure,
        Error::DataIntegrity,
    ];
    for (i, a) in all.iter().enumerate() {
        for (j, b) in all.iter().enumerate() {
            if i != j {
                assert_ne!(a.describe(), b.describe());
            }
        }
    }
}
