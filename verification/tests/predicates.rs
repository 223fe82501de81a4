//! The conditions of rules.

use policylens::embedded::parse_json;
use policylens::json::{Json, JsonNumber};
use policylens::predicate::{
    accepts_order, evaluate, parse, NumberOrder, Op, PathSeg, Predicate, PredicateParseError,
};

fn json(text: &str) -> Json {
    parse_json(text).unwrap()
}

fn condition(text: &str) -> Predicate {
    match parse(text) {
        Ok(p) => p,
        Err(e) => panic!("{text} should parse: {}", e.message()),
    }
}

fn holds(text: &str, root: &str) -> bool {
    evaluate(&condition(text), &json(root))
}

#[test]
fn eq_bool() {
    let p = condition("_derived.public == true");
    assert!(evaluate(&p, &json(r#"{"_derived": {"public": true}}"#)));
    assert!(!evaluate(&p, &json(r#"{"_derived": {"public": false}}"#)));
}

#[test]
fn path_exists() {
    let p = condition("tags.sensitive exists");
    assert!(evaluate(&p, &json(r#"{"tags": {"sensitive": "true"}}"#)));
    assert!(!evaluate(&p, &json(r#"{"tags": {}}"#)));
}

#[test]
fn not_exists() {
    let p = condition("tags.sensitive not exists");
    assert!(evaluate(&p, &json(r#"{"tags": {}}"#)));
    assert!(!evaluate(&p, &json(r#"{"tags": {"sensitive": "true"}}"#)));
}

#[test]
fn contains_array() {
    let p = condition(r#"actions contains "s3:*""#);
    assert!(evaluate(&p, &json(r#"{"actions": ["s3:GetObject", "s3:*"]}"#)));
    assert!(!evaluate(&p, &json(r#"{"actions": ["s3:GetObject"]}"#)));
}

#[test]
fn and_conjunction() {
    let p = condition(r#"_derived.public == true && tags.sensitive == "true""#);
    assert!(evaluate(
        &p,
        &json(r#"{"_derived": {"public": true}, "tags": {"sensitive": "true"}}"#)
    ));
    assert!(!evaluate(
        &p,
        &json(r#"{"_derived": {"public": false}, "tags": {"sensitive": "true"}}"#)
    ));
}

#[test]
fn missing_path_is_false_not_error() {
    let p = condition("_derived.public == true");
    assert!(!evaluate(&p, &json("{}")));
}

#[test]
fn a_missing_path_meets_only_not_exists() {
    for text in ["a == 1", "a != 1", "a > 1", "a >= 1", "a < 1", "a <= 1", "a contains 1", "a exists"] {
        assert!(!holds(text, "{}"), "{text}");
    }
    assert!(holds("a not exists", "{}"));
}

#[test]
fn numbers_are_compared_by_value() {
    let root = r#"{"port": 443, "ratio": 0.5, "low": -3}"#;
    assert!(holds("port == 443", root));
    assert!(holds("port == 443.0", root));
    assert!(holds("port != 22", root));
    assert!(holds("port > 442.5", root));
    assert!(holds("port >= 443", root));
    assert!(!holds("port > 443", root));
    assert!(holds("port < 1e3", root));
    assert!(holds("port <= 443", root));
    assert!(holds("ratio == .5", root));
    assert!(holds("low < -2", root));
    assert!(holds("low > -inf", root));
    assert!(!holds("port == nan", root));
    assert!(!holds("port < nan", root));
    assert!(holds("port != nan", root));
}

#[test]
fn values_of_different_types_are_never_equal() {
    let root = r#"{"n": 1, "s": "1", "b": true}"#;
    assert!(!holds(r#"n == "1""#, root));
    assert!(!holds("s == 1", root));
    assert!(!holds(r#"b == "true""#, root));
    assert!(holds(r#"n != "1""#, root));
    assert!(!holds("s > 0", root));
}

#[test]
fn contains_looks_into_strings() {
    let root = r#"{"name": "prod-data", "list": [1, 2]}"#;
    assert!(holds(r#"name contains "prod""#, root));
    assert!(!holds(r#"name contains "test""#, root));
    assert!(holds("list contains 2", root));
    assert!(!holds("list contains 3", root));
    assert!(!holds("name contains 1", root));
}

#[test]
fn paths_go_through_lists() {
    let root = r#"{"rules": [{"ports": [[1, 2], [3, 4]]}]}"#;
    assert!(holds("rules[0].ports exists", root));
    assert!(holds("rules[0].ports[1][0] == 3", root));
    assert!(!holds("rules[1] exists", root));
    assert!(!holds("rules.ports exists", root));
}

#[test]
fn operators_inside_quotes_are_text() {
    let root = r#"{"note": "a==b && c"}"#;
    assert!(holds(r#"note == "a==b && c""#, root));
    assert!(holds(r#"note contains "==b &""#, root));
    assert!(!holds(r#"note != "a==b && c""#, root));
}

#[test]
fn a_condition_keeps_its_source_and_its_parts() {
    let p = condition(" a.b[2] >= 10 ");
    assert_eq!(p.source, " a.b[2] >= 10 ");
    assert_eq!(p.clauses.len(), 1);
    assert_eq!(p.clauses[0].op, Op::Ge);
    assert_eq!(p.clauses[0].path.len(), 3);
    assert!(matches!(&p.clauses[0].path[0], PathSeg::Field(name) if name == "a"));
    assert!(matches!(&p.clauses[0].path[2], PathSeg::Index(2)));
}

#[test]
fn texts_that_are_no_conditions_are_errors() {
    assert!(matches!(parse("  "), Err(PredicateParseError::Empty)));
    for text in ["a", "a = 1", "== 1", "a == b", "a[x] == 1", "a == \"x", "exists", "a[0 == 1 &&"] {
        match parse(text) {
            Err(PredicateParseError::BadClause(_)) => {}
            other => panic!("{text} should be a bad clause, got {other:?}"),
        }
    }
    match parse("a == 1 && b ==") {
        Err(e) => assert_eq!(e.message(), "could not parse clause `b ==`"),
        Ok(_) => panic!("the second clause is bad"),
    }
    assert_eq!(PredicateParseError::Empty.message(), "empty predicate");
    assert_eq!(
        PredicateParseError::UnterminatedString("x".to_string()).message(),
        "unterminated string literal in clause `x`"
    );
    assert_eq!(
        PredicateParseError::EmptyPath("x".to_string()).message(),
        "empty path in clause `x`"
    );
}

#[test]
fn number_literals_follow_the_decimal_grammar() {
    for text in ["1", "1.", ".5", "+1.5e-3", "-INF", "Infinity", "NaN", "1E5", "00"] {
        assert!(parse(&format!("a == {text}")).is_ok(), "{text}");
        assert!(text.parse::<f64>().is_ok(), "{text}");
    }
    for text in [".", "e5", "1e", "1e+", "--1", "0x1", "1_0", "infinit", "+", "1.2.3"] {
        assert!(parse(&format!("a == {text}")).is_err(), "{text}");
        assert!(text.parse::<f64>().is_err(), "{text}");
    }
}

#[test]
fn an_order_meets_the_operators_that_it_should() {
    assert!(accepts_order(Op::Ge, Some(NumberOrder::Equal)));
    assert!(accepts_order(Op::Le, Some(NumberOrder::Less)));
    assert!(!accepts_order(Op::Gt, Some(NumberOrder::Equal)));
    assert!(!accepts_order(Op::Eq, None));
    assert!(accepts_order(Op::Ne, None));
    assert!(!accepts_order(Op::Exists, Some(NumberOrder::Equal)));
}

#[test]
fn json_documents_are_read() {
    let v = json(r#" {"a": [1, -2, 2.5, null, true, "x"], "b": {"c": "d"}, "a2": 18446744073709551615} "#);
    let a = v.get("a").unwrap();
    assert!(matches!(a.at(0), Some(Json::Number(JsonNumber::PosInt(1)))));
    assert!(matches!(a.at(1), Some(Json::Number(JsonNumber::NegInt(-2)))));
    assert!(matches!(a.at(2), Some(Json::Number(JsonNumber::Float(t))) if t == "2.5"));
    assert!(matches!(a.at(3), Some(Json::Null)));
    assert_eq!(a.at(4).unwrap().as_bool(), Some(true));
    assert_eq!(a.at(5).unwrap().as_str(), Some("x"));
    assert_eq!(v.get("b").unwrap().get("c").unwrap().as_str(), Some("d"));
    assert_eq!(v.get("a2").unwrap().as_i64(), None);
    assert!(parse_json("{").is_none());
}

#[test]
fn the_text_of_a_double_stands_for_that_double() {
    for text in ["123456789.12345679", "0.1", "-2.2250738585072014e-308", "1.7976931348623157e308"] {
        let root = Json::Object(vec![(
            "x".to_string(),
            Json::Number(JsonNumber::Float(text.to_string())),
        )]);
        assert!(evaluate(&condition(&format!("x == {text}")), &root), "{text}");
        assert!(!evaluate(&condition(&format!("x < {text}")), &root), "{text}");
    }
}

#[test]
fn integers_are_compared_as_integers() {
    assert!(holds("from_port == 22", r#"{"from_port": 22}"#));
    assert!(holds("x < -1", r#"{"x": -9007199254740992}"#));
    assert!(holds("x != 9007199254740991", r#"{"x": 9007199254740992}"#));
    assert!(holds("x == -0", r#"{"x": 0}"#));
    assert!(holds("x >= 007", r#"{"x": 7}"#));
    // Beyond 53 bits, doubles decide.
    assert!(holds("x == 9007199254740993", r#"{"x": 9007199254740992}"#));
}
