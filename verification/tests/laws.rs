//! Laws of the library, on concrete values.

use policylens::classify::{can_classify, classify};
use policylens::embedded::{parse_json, promote_embedded_json};
use policylens::graph::{build_graph, can_build, IacGraph};
use policylens::json::{insert_entry, Json};
use policylens::matcher::run_rules;
use policylens::lexical::is_readable;
use policylens::parser::parse_source;
use policylens::predicate::{evaluate, parse};
use policylens::report::build_report;
use policylens::rule::{EdgeMatcher, EdgeStep, NodeMatcher, NodeStep, PathStep, Rule, Severity};
use policylens::scoring::score_finding;
use policylens::text::{decimal_text, join, parse_size, signed_text, split_text, trim};

fn graph(text: &str) -> IacGraph {
    assert!(is_readable(text));
    let files = vec![parse_source("main.tf", text).unwrap()];
    assert!(can_build(&files));
    build_graph(&files).map_err(|e| e.message()).unwrap()
}

#[test]
fn a_key_gives_back_the_value_that_it_was_given() {
    let mut entries = vec![("a".to_string(), Json::Bool(false)), ("b".to_string(), Json::Null)];
    insert_entry(&mut entries, "a".to_string(), Json::Bool(true));
    insert_entry(&mut entries, "c".to_string(), Json::Bool(false));
    let v = Json::Object(entries);
    assert_eq!(v.get("a").unwrap().as_bool(), Some(true));
    assert!(matches!(v.get("b"), Some(Json::Null)));
    assert_eq!(v.get("c").unwrap().as_bool(), Some(false));
    assert!(v.get("d").is_none());
    match v {
        Json::Object(entries) => assert_eq!(entries.len(), 3),
        other => panic!("expected an object, got {other:?}"),
    }
}

#[test]
fn documents_inside_documents_are_promoted_at_once() {
    let v = parse_json(r#"{"a": " {\"b\": \"[1, \\\"[2]\\\"]\"} ", "c": "{not json}"}"#).unwrap();
    let once = promote_embedded_json(v);
    let b = once.get("a").unwrap().get("b").unwrap();
    assert_eq!(b.at(0).unwrap().as_i64(), Some(1));
    assert_eq!(b.at(1).unwrap().at(0).unwrap().as_i64(), Some(2));
    assert_eq!(once.get("c").unwrap().as_str(), Some("{not json}"));
    let shown = format!("{once:?}");
    assert_eq!(format!("{:?}", promote_embedded_json(once)), shown);
}

#[test]
fn two_conditions_joined_hold_where_both_do() {
    let first = "a == 1 && note == \"x && y\"";
    let second = "b exists";
    let both = parse(&format!("{first} && {second}")).unwrap();
    assert_eq!(both.clauses.len(), 3);
    for root in [
        r#"{"a": 1, "note": "x && y", "b": 0}"#,
        r#"{"a": 1, "note": "x && y"}"#,
        r#"{"a": 2, "note": "x && y", "b": 0}"#,
        r#"{"a": 1, "note": "x", "b": 0}"#,
    ] {
        let v = parse_json(root).unwrap();
        let each = evaluate(&parse(first).unwrap(), &v) && evaluate(&parse(second).unwrap(), &v);
        assert_eq!(evaluate(&both, &v), each, "{root}");
    }
}

const EXPOSED: &str = r#"
resource "aws_security_group" "open" {
  ingress { cidr_blocks = ["0.0.0.0/0"] }
}
resource "aws_instance" "web" {
  vpc_security_group_ids = [aws_security_group.open.id]
  iam_instance_profile   = aws_iam_instance_profile.web.name
}
resource "aws_iam_instance_profile" "web" { role = aws_iam_role.web.name }
resource "aws_iam_role" "web" {}
resource "aws_iam_role_policy" "web" {
  role   = aws_iam_role.web.id
  policy = jsonencode({
    Statement = [{ Effect = "Allow", Action = "s3:GetObject", Resource = aws_s3_bucket.data.arn }]
  })
}
resource "aws_s3_bucket" "data" { tags = { sensitive = true } }
"#;

#[test]
fn classification_takes_nothing_away() {
    let before = graph(EXPOSED);
    let mut after = graph(EXPOSED);
    assert!(can_classify(&after));
    classify(&mut after);
    assert_eq!(before.node_count(), after.node_count());
    assert!(before.edge_count() < after.edge_count());
    for e in 0..before.edge_count() {
        assert_eq!(before.edge_ends(e), after.edge_ends(e));
        assert_eq!(before.edge_by_index(e).description, after.edge_by_index(e).description);
    }
    for ix in 0..before.node_count() {
        let (old, new) = (before.node_by_index(ix), after.node_by_index(ix));
        assert_eq!(old.id, new.id);
        assert_eq!(old.kind, new.kind);
        match &old.attrs {
            Json::Object(entries) => {
                for (key, value) in entries {
                    assert_eq!(format!("{value:?}"), format!("{:?}", new.attrs.get(key).unwrap()));
                }
            }
            other => panic!("expected an object, got {other:?}"),
        }
    }
}

fn node(kind: &str) -> PathStep {
    PathStep::Node(NodeStep {
        node: NodeMatcher { kind: Some(kind.to_string()), where_clause: None, bind: None },
    })
}

fn edge(kind: &str) -> PathStep {
    PathStep::Edge(EdgeStep {
        edge: EdgeMatcher {
            kind: kind.to_string(),
            where_clause: None,
            min_hops: 1,
            max_hops: 1,
        },
    })
}

#[test]
fn the_edges_of_a_reported_chain_follow_one_another() {
    let mut g = graph(EXPOSED);
    classify(&mut g);
    let rules = vec![Rule {
        id: "r".to_string(),
        title: "R".to_string(),
        description: "d".to_string(),
        severity_base: Severity::High,
        max_total_hops: 3,
        path: vec![
            node("SecurityGroup"),
            edge("NetworkReachable"),
            node("Instance"),
            edge("Attached"),
            node("IamRole"),
            edge("IamGrants"),
            node("S3Bucket"),
        ],
    }];
    let findings = run_rules(&g, &rules);
    assert_eq!(findings.len(), 1);
    let report = build_report("dir", &g, &rules, &findings);
    let f = &report.findings[0];
    assert_eq!(f.description, "d");
    assert_eq!(f.nodes.len(), 4);
    assert_eq!(f.edges.len(), 3);
    assert_eq!(f.edges[0].from, f.nodes[0].id);
    for i in 0..3 {
        assert_eq!(f.edges[i].from, f.nodes[i].id);
        assert_eq!(f.edges[i].to, f.nodes[i + 1].id);
    }
    assert_eq!(f.nodes[0].kind, "SecurityGroup");
    assert_eq!(f.nodes[0].file, "main.tf");
    // 70, less 10 for two more hops, plus 10 for the tag, plus 8 for the open group.
    assert_eq!(f.severity.score, 78);
    assert_eq!(f.edges[0].details.get("protocol").unwrap().as_str(), Some("tcp"));
    assert_eq!(f.edges[2].details.get("effect").unwrap().as_str(), Some("Allow"));
    assert!(f.edges[1].details.get("effect").is_none());
}

#[test]
fn texts_are_taken_apart_and_put_together() {
    assert_eq!(split_text("a.b..c", '.'), vec!["a", "b", "", "c"]);
    assert_eq!(split_text("", '.'), vec![""]);
    assert_eq!(join(&vec!["a".to_string(), "b".to_string()], ", "), "a, b");
    assert_eq!(join(&vec![], ", "), "");
    assert_eq!(trim(" \t\u{a0}x y\n"), "x y");
    assert_eq!(decimal_text(0), "0");
    assert_eq!(decimal_text(18446744073709551615), "18446744073709551615");
    assert_eq!(signed_text(-9223372036854775808), "-9223372036854775808");
    assert_eq!(parse_size("+12"), Some(12));
    assert_eq!(parse_size("-1"), None);
    assert_eq!(parse_size(""), None);
    assert_eq!(parse_size("99999999999999999999999"), None);
}

#[test]
fn neither_length_nor_bonuses_make_up_for_two_steps_of_severity() {
    let mut g = graph(
        r#"
resource "aws_s3_bucket" "b" {
  tags = { sensitive = "true" }
}
resource "aws_s3_bucket_acl" "b" {
  bucket = aws_s3_bucket.b.id
  acl    = "public-read"
}
"#,
    );
    assert!(can_classify(&g));
    classify(&mut g);
    let bucket = vec![0];
    let none: Vec<usize> = Vec::new();
    let low = score_finding(&g, Severity::Low, &bucket, 1).total;
    let medium = score_finding(&g, Severity::Medium, &bucket, 1).total;
    let high = score_finding(&g, Severity::High, &none, 9).total;
    let critical = score_finding(&g, Severity::Critical, &none, 9).total;
    assert_eq!((low, medium, high, critical), (48, 68, 50, 70));
    assert!(low < high && low < critical && medium < critical);
}

#[test]
fn a_statement_is_known_by_its_number_whatever_its_length() {
    let mut text = String::from(
        "resource \"aws_s3_bucket\" \"a\" {}\nresource \"aws_s3_bucket\" \"b\" {}\n\
         resource \"aws_iam_role\" \"r\" {}\nresource \"aws_iam_role_policy\" \"p\" {\n  \
         role = aws_iam_role.r.id\n  policy = jsonencode({ Statement = [\n",
    );
    for _ in 0..12 {
        text.push_str("{ Effect = \"Deny\", Action = \"s3:*\", Resource = aws_s3_bucket.a.arn },\n");
    }
    text.push_str("{ Effect = \"Allow\", Action = \"s3:Get\", Resource = [aws_s3_bucket.b.arn] }\n]})\n}\n");
    let mut g = graph(&text);
    assert!(can_classify(&g));
    let before = g.edge_count();
    classify(&mut g);
    assert_eq!(g.edge_count(), before + 1);
    let edge = g.edge_by_index(before);
    assert_eq!(edge.evidence.attr_path, "policy.Statement[12]");
    let (from, to) = g.edge_ends(before);
    assert_eq!(g.node_by_index(from).id, "aws_iam_role.r");
    assert_eq!(g.node_by_index(to).id, "aws_s3_bucket.b");
}
