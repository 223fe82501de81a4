//! The facts and edges that follow from what a graph means.

use policylens::actions::edge_derived_facts;
use policylens::classify::{can_classify, classify};
use policylens::graph::{build_graph, can_build, IacGraph};
use policylens::json::Json;
use policylens::matcher::edge_json;
use policylens::lexical::is_readable;
use policylens::parser::parse_source;
use policylens::types::EdgeKind;

fn classified(text: &str) -> IacGraph {
    assert!(is_readable(text));
    let files = vec![parse_source("main.tf", text).unwrap()];
    assert!(can_build(&files));
    let mut g = build_graph(&files).map_err(|e| e.message()).unwrap();
    assert!(can_classify(&g));
    classify(&mut g);
    g
}

fn fact(g: &IacGraph, id: &str, key: &str) -> Option<bool> {
    g.node(id).unwrap().attrs.get("_derived").and_then(|d| d.get(key)).and_then(|v| v.as_bool())
}

#[test]
fn a_bucket_is_public_only_where_something_opens_it() {
    let g = classified(
        r#"
resource "aws_s3_bucket" "alone" {}
resource "aws_s3_bucket" "blocked" {}
resource "aws_s3_bucket_public_access_block" "blocked" {
  bucket            = aws_s3_bucket.blocked.id
  block_public_acls = true
}
resource "aws_s3_bucket" "opened" {}
resource "aws_s3_bucket_public_access_block" "opened" {
  bucket             = aws_s3_bucket.opened.id
  ignore_public_acls = false
}
resource "aws_s3_bucket" "listed" {}
resource "aws_s3_bucket_acl" "listed" {
  bucket = aws_s3_bucket.listed.id
  acl    = "public-read"
}
resource "aws_s3_bucket" "closed" {}
resource "aws_s3_bucket_acl" "closed" {
  bucket = aws_s3_bucket.closed.id
  acl    = "private"
}
"#,
    );
    assert_eq!(fact(&g, "aws_s3_bucket.alone", "public"), Some(false));
    assert_eq!(fact(&g, "aws_s3_bucket.blocked", "public"), Some(false));
    assert_eq!(fact(&g, "aws_s3_bucket.opened", "public"), Some(true));
    assert_eq!(fact(&g, "aws_s3_bucket.listed", "public"), Some(true));
    assert_eq!(fact(&g, "aws_s3_bucket.closed", "public"), Some(false));
    assert_eq!(fact(&g, "aws_s3_bucket_acl.closed", "public"), None);
}

#[test]
fn a_tag_marks_a_bucket_as_sensitive() {
    let g = classified(
        r#"
resource "aws_s3_bucket" "a" { tags = { sensitive = "true" } }
resource "aws_s3_bucket" "b" { tags = { Sensitive = true } }
resource "aws_s3_bucket" "c" { tags = { SENSITIVE = "YES" } }
resource "aws_s3_bucket" "d" { tags = { sensitive = "1" } }
resource "aws_s3_bucket" "e" { tags = { sensitive = "no" } }
resource "aws_s3_bucket" "f" { tags = { sensitive = 1 } }
resource "aws_s3_bucket" "g" { tags = { other = "true" } }
resource "aws_s3_bucket" "h" {}
"#,
    );
    for (name, wanted) in
        [("a", true), ("b", true), ("c", true), ("d", true), ("e", false), ("f", false), ("g", false), ("h", false)]
    {
        assert_eq!(fact(&g, &format!("aws_s3_bucket.{name}"), "sensitive"), Some(wanted), "{name}");
    }
}

fn trust(statement: &str) -> Option<bool> {
    let text = format!(
        "resource \"aws_iam_role\" \"r\" {{\n  assume_role_policy = jsonencode({{ Statement = {statement} }})\n}}\n"
    );
    fact(&classified(&text), "aws_iam_role.r", "wildcard_trust")
}

#[test]
fn a_role_that_every_aws_principal_may_assume_is_told_apart() {
    assert_eq!(trust("[{ Effect = \"Allow\", Principal = \"*\" }]"), Some(true));
    assert_eq!(trust("[{ Effect = \"Allow\", Principal = { AWS = \"*\" } }]"), Some(true));
    assert_eq!(trust("{ Effect = \"Allow\", Principal = { AWS = [\"a\", \"*\"] } }"), Some(true));
    assert_eq!(trust("[{ Effect = \"Deny\", Principal = \"*\" }]"), Some(false));
    assert_eq!(trust("[{ Effect = \"Allow\", Principal = { Service = \"*\" } }]"), Some(false));
    assert_eq!(trust("[{ Effect = \"Allow\", Principal = { AWS = \"arn:aws:iam::1:root\" } }]"), Some(false));
    assert_eq!(trust("[{ Effect = \"Allow\" }]"), Some(false));
    let none = classified("resource \"aws_iam_role\" \"r\" {}\n");
    assert_eq!(fact(&none, "aws_iam_role.r", "wildcard_trust"), Some(false));
}

#[test]
fn a_security_group_is_open_where_a_rule_lets_in_everybody() {
    let g = classified(
        r#"
resource "aws_security_group" "open" {
  ingress { cidr_blocks = ["10.0.0.0/8"] }
  ingress { cidr_blocks = ["::/0"] }
}
resource "aws_security_group" "closed" {
  ingress { cidr_blocks = ["10.0.0.0/8"] }
  egress  { cidr_blocks = ["0.0.0.0/0"] }
}
"#,
    );
    assert_eq!(fact(&g, "aws_security_group.open", "open_ingress"), Some(true));
    assert_eq!(fact(&g, "aws_security_group.closed", "open_ingress"), Some(false));
}

fn invokable(permission: &str) -> Option<bool> {
    let text = format!(
        "resource \"aws_lambda_function\" \"f\" {{}}\n\
         resource \"aws_lambda_permission\" \"p\" {{\n  \
         function_name = aws_lambda_function.f.arn\n  {permission}\n}}\n"
    );
    fact(&classified(&text), "aws_lambda_function.f", "publicly_invokable")
}

#[test]
fn a_function_is_publicly_invokable_where_a_permission_lets_everybody() {
    assert_eq!(invokable("action = \"lambda:InvokeFunction\"\n  principal = \"*\""), Some(true));
    assert_eq!(invokable("action = \"*\"\n  principal = \"*\""), Some(true));
    assert_eq!(invokable("action = \"lambda:GetFunction\"\n  principal = \"*\""), Some(false));
    assert_eq!(
        invokable("action = \"lambda:InvokeFunction\"\n  principal = \"apigateway.amazonaws.com\""),
        Some(false)
    );
    assert_eq!(
        invokable("action = \"lambda:InvokeFunction\"\n  principal = \"*\"\n  source_arn = \"arn:x\""),
        Some(false)
    );
}

/// The edges that are no references: kind, source and target.
fn semantic(g: &IacGraph) -> Vec<String> {
    (0..g.edge_count())
        .filter(|e| g.edge_by_index(*e).kind != EdgeKind::References)
        .map(|e| {
            let (from, to) = g.edge_ends(e);
            format!("{} -> {}", g.node_by_index(from).id, g.node_by_index(to).id)
        })
        .collect()
}

#[test]
fn statements_grant_access_to_their_own_resources() {
    let g = classified(
        r#"
resource "aws_s3_bucket" "a" {}
resource "aws_s3_bucket" "b" {}
resource "aws_iam_role" "r" {}
resource "aws_iam_role_policy" "p" {
  role = aws_iam_role.r.id
  policy = jsonencode({
    Statement = [
      { Effect = "Allow", Action = "s3:GetObject", Resource = aws_s3_bucket.a.arn },
      { Effect = "Deny", Action = "s3:*", Resource = aws_s3_bucket.b.arn },
      { Effect = "Allow", Action = [], Resource = aws_s3_bucket.b.arn },
      { Effect = "Allow", Action = "s3:List", Resource = "*" },
    ]
  })
}
"#,
    );
    assert_eq!(semantic(&g), vec!["aws_iam_role.r -> aws_s3_bucket.a"]);
    let edge = g.edge_by_index(g.edge_count() - 1);
    match &edge.kind {
        EdgeKind::IamGrants { actions, effect, resource_match } => {
            assert_eq!(actions, &vec!["s3:GetObject".to_string()]);
            assert_eq!(effect, "Allow");
            assert_eq!(resource_match, "aws_s3_bucket.a.arn");
        }
        other => panic!("expected a grant, got {other:?}"),
    }
    assert_eq!(edge.evidence.attr_path, "policy.Statement[0]");
    assert_eq!(edge.evidence.resource_id, "aws_iam_role_policy.p");
    assert_eq!(
        edge.description,
        "aws_iam_role.r (via aws_iam_role_policy.p, statement 0) is granted [\"s3:GetObject\"] on \
         aws_s3_bucket.a"
    );
}

#[test]
fn statements_grant_access_to_every_resource_of_a_list() {
    let g = classified(
        r#"
resource "aws_s3_bucket" "a" {}
resource "aws_s3_bucket" "b" {}
resource "aws_iam_role" "r" {}
resource "aws_iam_role_policy" "p" {
  role = aws_iam_role.r.id
  policy = jsonencode({
    Statement = [{
      Effect   = "Allow"
      Action   = "s3:GetObject"
      Resource = [aws_s3_bucket.a.arn, aws_s3_bucket.b.arn]
    }]
  })
}
"#,
    );
    let mut granted = semantic(&g);
    granted.sort();
    assert_eq!(
        granted,
        vec!["aws_iam_role.r -> aws_s3_bucket.a", "aws_iam_role.r -> aws_s3_bucket.b"]
    );
    for e in g.edge_count() - 2..g.edge_count() {
        let edge = g.edge_by_index(e);
        assert_eq!(edge.evidence.attr_path, "policy.Statement[0]");
        match &edge.kind {
            EdgeKind::IamGrants { actions, resource_match, .. } => {
                assert_eq!(actions, &vec!["s3:GetObject".to_string()]);
                assert_eq!(resource_match, "aws_s3_bucket.a.arn,aws_s3_bucket.b.arn");
            }
            other => panic!("expected a grant, got {other:?}"),
        }
    }
}

#[test]
fn resources_are_told_by_the_number_of_their_statement() {
    let g = classified(
        r#"
resource "aws_s3_bucket" "a" {}
resource "aws_s3_bucket" "b" {}
resource "aws_s3_bucket" "c" {}
resource "aws_s3_bucket" "d" {}
resource "aws_iam_role" "r" {}
resource "aws_iam_role_policy" "p" {
  role = aws_iam_role.r.id
  policy = jsonencode({
    Statement = [
      { Effect = "Deny", Action = "s3:*", Resource = ["${aws_s3_bucket.a.arn}/*"] },
      { Effect = "Allow", Action = "s3:Get", Resource = format("%s/*", aws_s3_bucket.b.arn) },
      jsonencode({ Effect = "Allow", Action = "s3:Put", Resource = [aws_s3_bucket.c.arn] }),
      { Effect = "Allow", Action = "s3:List", NotResource = aws_s3_bucket.d.arn },
      { Effect = "Allow", Action = "s3:List", Condition = { Like = { Resource = aws_s3_bucket.d.arn } } },
    ]
  })
}
"#,
    );
    let mut granted = semantic(&g);
    granted.sort();
    assert_eq!(
        granted,
        vec!["aws_iam_role.r -> aws_s3_bucket.b", "aws_iam_role.r -> aws_s3_bucket.c"]
    );
}

#[test]
fn a_policy_without_numbered_statements_grants_access_to_any_of_its_resources() {
    let g = classified(
        r#"
resource "aws_s3_bucket" "a" {}
resource "aws_iam_role" "r" {}
resource "aws_iam_role_policy" "p" {
  role   = aws_iam_role.r.id
  policy = {
    Statement = { Effect = "Allow", Action = "s3:PutObject", Resource = aws_s3_bucket.a.arn }
  }
}
"#,
    );
    assert_eq!(semantic(&g), vec!["aws_iam_role.r -> aws_s3_bucket.a"]);
}

#[test]
fn what_an_unnumbered_statement_leaves_out_is_not_granted() {
    let g = classified(
        r#"
resource "aws_s3_bucket" "a" {}
resource "aws_s3_bucket" "b" {}
resource "aws_s3_bucket" "c" {}
resource "aws_iam_role" "r" {}
resource "aws_iam_role_policy" "excluding" {
  role   = aws_iam_role.r.id
  policy = jsonencode({
    Statement = { Effect = "Allow", Action = "s3:*", NotResource = aws_s3_bucket.a.arn }
  })
}
resource "aws_iam_role_policy" "conditional" {
  role   = aws_iam_role.r.id
  policy = jsonencode({
    Statement = {
      Effect    = "Allow"
      Action    = "s3:*"
      Resource  = [aws_s3_bucket.c.arn]
      Condition = { Like = { Resource = aws_s3_bucket.b.arn } }
    }
  })
}
"#,
    );
    assert_eq!(semantic(&g), vec!["aws_iam_role.r -> aws_s3_bucket.c"]);
}

#[test]
fn in_a_policy_written_as_one_text_only_resources_count() {
    let g = classified(
        r#"
resource "aws_s3_bucket" "a" {}
resource "aws_s3_bucket" "b" {}
resource "aws_s3_bucket" "bb" {}
resource "aws_iam_role" "r" {}
resource "aws_iam_role_policy" "excluding" {
  role   = aws_iam_role.r.id
  policy = "{\"Statement\":[{\"Effect\":\"Allow\",\"Action\":\"s3:*\",\"NotResource\":\"${aws_s3_bucket.b.arn}\"}]}"
}
resource "aws_iam_role_policy" "conditional" {
  role   = aws_iam_role.r.id
  policy = <<POLICY
{"Statement": [{
  "Effect": "Allow", "Action": "s3:*", "Resource": "*",
  "Condition": {"StringLike": {"aws:SourceArn": "${aws_s3_bucket.a.arn}"}}
}]}
POLICY
}
resource "aws_iam_role_policy" "listing" {
  role   = aws_iam_role.r.id
  policy = <<POLICY
{"Statement": [
  {"Effect": "Allow", "Action": "s3:Get", "Resource": ["${ aws_s3_bucket.bb.arn }/*"]},
  {"Effect": "Deny", "Action": "s3:Get", "NotResource": "${aws_s3_bucket.b.arn}"}
]}
POLICY
}
"#,
    );
    assert_eq!(semantic(&g), vec!["aws_iam_role.r -> aws_s3_bucket.bb"]);
}

#[test]
fn a_policy_written_as_one_text_grants_access_to_what_it_refers_to() {
    let g = classified(
        r#"
resource "aws_s3_bucket" "a" {}
resource "aws_s3_bucket" "b" {}
resource "aws_iam_role" "r" {}
resource "aws_iam_role_policy" "quoted" {
  role   = aws_iam_role.r.id
  policy = "{\"Statement\": [{\"Effect\": \"Allow\", \"Action\": \"s3:*\", \"Resource\": \"${aws_s3_bucket.a.arn}\"}]}"
}
resource "aws_iam_role_policy" "heredoc" {
  role   = aws_iam_role.r.id
  policy = <<POLICY
{"Statement": [{"Effect": "Allow", "Action": "s3:PutObject", "Resource": "${aws_s3_bucket.b.arn}/*"}]}
POLICY
}
"#,
    );
    assert_eq!(
        semantic(&g),
        vec!["aws_iam_role.r -> aws_s3_bucket.a", "aws_iam_role.r -> aws_s3_bucket.b"]
    );
    match &g.edge_by_index(g.edge_count() - 1).kind {
        EdgeKind::IamGrants { resource_match, .. } => {
            assert_eq!(resource_match, "${aws_s3_bucket.b.arn}/*");
        }
        other => panic!("expected a grant, got {other:?}"),
    }
}

#[test]
fn attached_policies_grant_to_every_role_that_they_are_attached_to() {
    let g = classified(
        r#"
resource "aws_s3_bucket" "a" {}
resource "aws_iam_role" "r" {}
resource "aws_iam_role" "s" {}
resource "aws_iam_policy" "p" {
  policy = jsonencode({ Statement = [{ Effect = "Allow", Action = "*", Resource = aws_s3_bucket.a.arn }] })
}
resource "aws_iam_role_policy_attachment" "r" {
  role       = aws_iam_role.r.name
  policy_arn = aws_iam_policy.p.arn
}
resource "aws_iam_role_policy_attachment" "s" {
  role       = aws_iam_role.s.name
  policy_arn = aws_iam_policy.p.arn
}
"#,
    );
    assert_eq!(
        semantic(&g),
        vec!["aws_iam_role.r -> aws_s3_bucket.a", "aws_iam_role.s -> aws_s3_bucket.a"]
    );
}

#[test]
fn open_groups_reach_instances_and_instances_run_as_roles() {
    let g = classified(
        r#"
resource "aws_security_group" "open" {
  ingress {
    from_port   = 22
    to_port     = 23
    cidr_blocks = ["0.0.0.0/0"]
  }
}
resource "aws_security_group" "closed" {
  ingress { cidr_blocks = ["10.0.0.0/8"] }
}
resource "aws_iam_role" "r" {}
resource "aws_iam_instance_profile" "p" { role = aws_iam_role.r.name }
resource "aws_instance" "i" {
  security_groups      = [aws_security_group.open.name, aws_security_group.closed.name]
  iam_instance_profile = aws_iam_instance_profile.p.name
}
"#,
    );
    assert_eq!(
        semantic(&g),
        vec!["aws_security_group.open -> aws_instance.i", "aws_instance.i -> aws_iam_role.r"]
    );
    let reach = g.edge_by_index(g.edge_count() - 2);
    assert_eq!(
        reach.kind,
        EdgeKind::NetworkReachable {
            protocol: "tcp".to_string(),
            from_port: 22,
            to_port: 23,
            cidr: "0.0.0.0/0".to_string(),
        }
    );
    assert_eq!(
        reach.description,
        "aws_security_group.open allows inbound from 0.0.0.0/0, reaching aws_instance.i"
    );
    let attached = g.edge_by_index(g.edge_count() - 1);
    assert_eq!(attached.kind, EdgeKind::Attached);
    assert_eq!(
        attached.description,
        "aws_instance.i runs as aws_iam_role.r (via instance profile aws_iam_instance_profile.p)"
    );
}

fn grant(actions: &[&str]) -> EdgeKind {
    EdgeKind::IamGrants {
        actions: actions.iter().map(|s| s.to_string()).collect(),
        effect: "Allow".to_string(),
        resource_match: String::new(),
    }
}

fn facts(actions: &[&str]) -> (bool, bool, bool) {
    let v = edge_derived_facts(&grant(actions));
    let get = |key: &str| v.get(key).and_then(|b| b.as_bool()).unwrap();
    (get("grants_write"), get("grants_wildcard"), get("grants_iam_escalation"))
}

#[test]
fn actions_are_told_apart_by_their_names() {
    assert_eq!(facts(&["s3:GetObject"]), (false, false, false));
    assert_eq!(facts(&["s3:GetObject", "s3:PutObject"]), (true, false, false));
    assert_eq!(facts(&["s3:*"]), (false, true, false));
    assert_eq!(facts(&["*"]), (true, true, true));
    assert_eq!(facts(&["iam:*"]), (false, true, true));
    assert_eq!(facts(&["IAM:PassRole"]), (false, false, true));
    assert_eq!(facts(&["iam:AttachRolePolicy"]), (false, false, true));
    assert!(matches!(edge_derived_facts(&EdgeKind::Attached), Json::Object(entries) if entries.is_empty()));
}

#[test]
fn an_edge_is_seen_by_conditions_with_its_fields_and_facts() {
    let g = classified(
        r#"
resource "aws_s3_bucket" "a" {}
resource "aws_iam_role" "r" {}
resource "aws_iam_role_policy" "p" {
  role   = aws_iam_role.r.id
  policy = jsonencode({ Statement = [{ Effect = "Allow", Action = "s3:*", Resource = aws_s3_bucket.a.arn }] })
}
"#,
    );
    let v = edge_json(g.edge_by_index(g.edge_count() - 1));
    assert_eq!(v.get("actions").unwrap().at(0).unwrap().as_str(), Some("s3:*"));
    assert_eq!(v.get("effect").unwrap().as_str(), Some("Allow"));
    assert_eq!(v.get("attr_path").unwrap().as_str(), Some("policy.Statement[0]"));
    assert_eq!(v.get("_derived").unwrap().get("grants_wildcard").unwrap().as_bool(), Some(true));
}

#[test]
fn what_stands_under_the_facts_is_in_the_way() {
    let text = "resource \"aws_iam_role\" \"r\" { _derived = \"x\" }\n";
    let files = vec![parse_source("main.tf", text).unwrap()];
    let g = build_graph(&files).map_err(|e| e.message()).unwrap();
    assert!(!can_classify(&g));
    let kept = classified("resource \"aws_iam_role\" \"r\" { _derived = { mine = 1 } }\n");
    let derived = kept.node("aws_iam_role.r").unwrap().attrs.get("_derived").unwrap().clone();
    assert_eq!(derived.get("mine").unwrap().as_i64(), Some(1));
    assert_eq!(derived.get("wildcard_trust").unwrap().as_bool(), Some(false));
}
