use reason_ready::error::RrfError;
use reason_ready::filter::{
    at_most, ids_for_condition, ids_where, indexed_fields, less, resolve, Bounds, Condition, Filter,
    Scan, Step,
};
use reason_ready::keys::{pidx_key, pidx_value_prefix, FieldValue};

fn text(s: &str) -> FieldValue {
    FieldValue::Text(s.to_string())
}

fn num(x: f64) -> FieldValue {
    FieldValue::Number(x.to_bits())
}

fn rows() -> Vec<Vec<u8>> {
    let mut v = vec![
        pidx_key("kind", &text("mail"), "d1"),
        pidx_key("kind", &text("mail"), "d2"),
        pidx_key("kind", &text("file"), "d3"),
        pidx_key("kind", &text("mailbox"), "d4"),
        pidx_key("year", &num(-1.5), "d1"),
        pidx_key("year", &num(0.0), "d2"),
        pidx_key("year", &num(3.0), "d3"),
        pidx_key("year", &num(10.0), "d4"),
        pidx_key("year", &text("unknown"), "d5"),
        pidx_key("read", &FieldValue::Bool(true), "d2"),
        pidx_key("read", &FieldValue::Null, "d5"),
    ];
    v.sort();
    v
}

fn none() -> Bounds {
    Bounds { gt: None, gte: None, lt: None, lte: None }
}

fn range(b: Bounds) -> Vec<String> {
    ids_for_condition(&rows(), &Condition::Range { key: "year".to_string(), bounds: b })
        .into_sorted()
}

fn bits(x: f64) -> Option<u64> {
    Some(x.to_bits())
}

#[test]
fn a_value_matches_just_the_documents_that_have_it() {
    let eq = Condition::Eq { key: "kind".to_string(), value: text("mail") };
    assert_eq!(ids_for_condition(&rows(), &eq).into_sorted(), vec!["d1", "d2"]);
    let read = Condition::Eq { key: "read".to_string(), value: FieldValue::Bool(true) };
    assert_eq!(ids_for_condition(&rows(), &read).into_sorted(), vec!["d2"]);
    let zero = Condition::Eq { key: "year".to_string(), value: num(-0.0) };
    assert_eq!(ids_for_condition(&rows(), &zero).into_sorted(), vec!["d2"]);
}

#[test]
fn any_value_matches_the_documents_of_each() {
    let any = Condition::Any { key: "kind".to_string(), values: vec![text("file"), text("mailbox")] };
    assert_eq!(ids_for_condition(&rows(), &any).into_sorted(), vec!["d3", "d4"]);
    let no = Condition::Any { key: "kind".to_string(), values: vec![] };
    assert!(ids_for_condition(&rows(), &no).is_empty());
}

#[test]
fn existence_matches_every_value_of_the_field() {
    let year = Condition::Exists { key: "year".to_string() };
    assert_eq!(
        ids_for_condition(&rows(), &year).into_sorted(),
        vec!["d1", "d2", "d3", "d4", "d5"]
    );
    let read = Condition::Exists { key: "read".to_string() };
    assert_eq!(ids_for_condition(&rows(), &read).into_sorted(), vec!["d2", "d5"]);
    let ye = Condition::Exists { key: "ye".to_string() };
    assert!(ids_for_condition(&rows(), &ye).is_empty());
}

#[test]
fn ranges_take_just_the_numbers_within_their_bounds() {
    assert_eq!(range(none()), vec!["d1", "d2", "d3", "d4"]);
    assert_eq!(range(Bounds { gt: bits(0.0), ..none() }), vec!["d3", "d4"]);
    assert_eq!(range(Bounds { gte: bits(0.0), ..none() }), vec!["d2", "d3", "d4"]);
    assert_eq!(range(Bounds { gte: bits(-0.0), lt: bits(10.0), ..none() }), vec!["d2", "d3"]);
    assert_eq!(range(Bounds { gt: bits(-0.0), lte: bits(10.0), ..none() }), vec!["d3", "d4"]);
    assert_eq!(range(Bounds { lte: bits(-1.5), ..none() }), vec!["d1"]);
    assert!(range(Bounds { gt: bits(10.0), ..none() }).is_empty());
    assert!(range(Bounds { gte: bits(3.0), lt: bits(3.0), ..none() }).is_empty());
}

#[test]
fn bounds_compare_as_floats_do() {
    let xs = [f64::NEG_INFINITY, -2.0, -0.0, 0.0, 5e-324, 2.0, f64::INFINITY, f64::NAN];
    for a in xs {
        for b in xs {
            assert_eq!(less(a.to_bits(), b.to_bits()), a < b, "{a} {b}");
            assert_eq!(at_most(a.to_bits(), b.to_bits()), a <= b, "{a} {b}");
        }
    }
}

fn kind(v: &str) -> Condition {
    Condition::Eq { key: "kind".to_string(), value: text(v) }
}

const FIELDS: &[u8] = b"[\"kind\", \"year\", \"read\"]";

#[test]
fn a_filter_combines_its_conditions() {
    let from = Condition::Range { key: "year".to_string(), bounds: Bounds { gte: bits(0.0), ..none() } };
    let f = Filter {
        must: vec![from],
        should: vec![kind("mail"), kind("file")],
        must_not: vec![Condition::Exists { key: "read".to_string() }],
    };
    let got = ids_where(&rows(), Some(FIELDS), f).unwrap();
    assert_eq!(got, Some(vec!["d3".to_string()]));

    let only_should = Filter { must: vec![], should: vec![kind("file"), kind("mail")], must_not: vec![] };
    let got = ids_where(&rows(), Some(FIELDS), only_should).unwrap();
    assert_eq!(got, Some(vec!["d1".to_string(), "d2".to_string(), "d3".to_string()]));
}

#[test]
fn an_empty_intersection_asks_nothing_more() {
    let f = Filter {
        must: vec![kind("mail"), kind("file"), kind("mailbox")],
        should: vec![kind("mail")],
        must_not: vec![],
    };
    let mut r = resolve(f, Some(FIELDS)).unwrap().unwrap();
    let mut asked = 0;
    while let Some(c) = r.next() {
        let answer = ids_for_condition(&rows(), c);
        asked += 1;
        r.feed(answer);
    }
    assert_eq!(asked, 2);
    assert!(r.finish().is_empty());
}

#[test]
fn a_filter_that_indexes_cannot_answer_has_no_answer() {
    let only_not = Filter { must: vec![], should: vec![], must_not: vec![kind("mail")] };
    assert!(ids_where(&rows(), Some(FIELDS), only_not).unwrap().is_none());

    let unindexed = Filter { must: vec![kind("mail")], should: vec![], must_not: vec![] };
    assert!(ids_where(&rows(), Some(b"[\"year\"]"), unindexed).unwrap().is_none());

    let nothing_indexed = Filter { must: vec![kind("mail")], should: vec![], must_not: vec![] };
    assert!(ids_where(&rows(), None, nothing_indexed).unwrap().is_none());
}

#[test]
fn a_broken_field_list_is_an_error() {
    let f = Filter { must: vec![kind("mail")], should: vec![], must_not: vec![] };
    assert!(matches!(ids_where(&rows(), Some(b"{"), f), Err(RrfError::Json(_))));
    assert!(matches!(indexed_fields(Some(b"[1]")), Err(RrfError::Json(_))));
    assert_eq!(indexed_fields(Some(b"[\"a\",\"b\"]")).unwrap(), vec!["a", "b"]);
    assert!(indexed_fields(None).unwrap().is_empty());
}

#[test]
fn a_walk_passes_over_rows_that_are_no_numbers_of_full_length() {
    let scan = Scan::Range { prefix: b"year\x00n".to_vec(), bounds: none() };
    assert!(matches!(scan.step(b"year\x00nabc"), Step::Skip));
    assert!(matches!(scan.step(b"year\x00sabc"), Step::Stop));
    let mut row = pidx_key("year", &num(3.0), "d3");
    assert!(matches!(scan.step(&row), Step::Take(id) if id == "d3"));
    row.truncate(row.len() - 3);
    assert!(matches!(scan.step(&row), Step::Skip));
    let full = Scan::Value { prefix: pidx_value_prefix("year", &num(3.0)) };
    // Bytes that are no text are replaced.
    let mut odd = full.start();
    odd.extend_from_slice(&[0x64, 0xff]);
    assert!(matches!(full.step(&odd), Step::Take(id) if id == "d\u{fffd}"));
}
