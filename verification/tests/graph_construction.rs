//! Given known source, exactly the nodes and edges that it implies.

use petgraph::graph::{EdgeIndex, NodeIndex};
use policylens::expr::RESERVED_ROOTS;
use policylens::graph::{build_graph, can_build, reserved_roots, GraphBuildError, IacGraph};
use policylens::json::{Json, JsonNumber};
use policylens::lexical::is_readable;
use policylens::parser::{from_body, parse_source, ParseError, ParsedFile};
use policylens::types::{EdgeKind, ResourceKind};

const BASIC: &str = r#"
resource "aws_s3_bucket" "data" {
  bucket = "example-data"
  tags = {
    sensitive = "true"
  }
}

resource "aws_s3_bucket_public_access_block" "data" {
  bucket                  = aws_s3_bucket.data.id
  block_public_acls       = false
  block_public_policy     = true
  ignore_public_acls      = true
  restrict_public_buckets = true
}

resource "aws_iam_role" "reader" {
  name = "reader"
  assume_role_policy = jsonencode({
    Version = "2012-10-17"
    Statement = [{
      Effect    = "Allow"
      Principal = { Service = "lambda.amazonaws.com" }
      Action    = "sts:AssumeRole"
    }]
  })
}

resource "aws_lambda_function" "consumer" {
  function_name = "consumer"
  role          = aws_iam_role.reader.arn
  environment {
    variables = {
      BUCKET_ARN = aws_s3_bucket.data.arn
    }
  }
}
"#;

fn file(path: &str, text: &str) -> ParsedFile {
    assert!(is_readable(text));
    match parse_source(path, text) {
        Ok(parsed) => parsed,
        Err(e) => panic!("{path} should parse: {e:?}"),
    }
}

fn graph(text: &str) -> IacGraph {
    let files = vec![file("main.tf", text)];
    assert!(can_build(&files));
    match build_graph(&files) {
        Ok(g) => g,
        Err(e) => panic!("should build: {}", e.message()),
    }
}

fn index(g: &IacGraph, id: &str) -> NodeIndex {
    NodeIndex::new(*g.index_of.get(id).unwrap())
}

fn edge_between(g: &IacGraph, from: &str, to: &str) -> Option<EdgeIndex> {
    g.graph.find_edge(index(g, from), index(g, to))
}

#[test]
fn parses_all_resources_with_correct_kinds() {
    let g = graph(BASIC);
    assert_eq!(g.node_count(), 4, "expected exactly the 4 resources in the fixture");

    let bucket = g.node("aws_s3_bucket.data").expect("bucket node should exist");
    assert_eq!(bucket.kind, ResourceKind::S3Bucket);
    assert_eq!(bucket.tf_type, "aws_s3_bucket");
    assert_eq!(bucket.tf_name, "data");

    let pab = g
        .node("aws_s3_bucket_public_access_block.data")
        .expect("public access block node should exist");
    assert_eq!(pab.kind, ResourceKind::S3BucketPublicAccessBlock);

    let role = g.node("aws_iam_role.reader").expect("role node should exist");
    assert_eq!(role.kind, ResourceKind::IamRole);

    let lambda = g.node("aws_lambda_function.consumer").expect("lambda node should exist");
    assert_eq!(lambda.kind, ResourceKind::LambdaFunction);
}

#[test]
fn discovers_expected_reference_edges() {
    let g = graph(BASIC);

    // aws_s3_bucket_public_access_block.data.bucket -> aws_s3_bucket.data
    assert!(
        edge_between(&g, "aws_s3_bucket_public_access_block.data", "aws_s3_bucket.data").is_some(),
        "expected a References edge from the public access block to the bucket"
    );

    // aws_lambda_function.consumer.role -> aws_iam_role.reader
    assert!(
        edge_between(&g, "aws_lambda_function.consumer", "aws_iam_role.reader").is_some(),
        "expected a References edge from the lambda to its execution role"
    );

    // aws_lambda_function.consumer.environment.variables.BUCKET_ARN -> aws_s3_bucket.data
    assert!(
        edge_between(&g, "aws_lambda_function.consumer", "aws_s3_bucket.data").is_some(),
        "expected a References edge from the lambda's environment variable to the bucket"
    );
    assert_eq!(g.edge_count(), 3);
}

#[test]
fn edge_evidence_has_correct_attr_path() {
    let g = graph(BASIC);
    let edge_ix = edge_between(&g, "aws_lambda_function.consumer", "aws_s3_bucket.data").unwrap();
    let edge = &g.graph[edge_ix];
    assert_eq!(edge.evidence.attr_path, "environment.variables.BUCKET_ARN");
    assert_eq!(edge.evidence.resource_id, "aws_lambda_function.consumer");
    assert_eq!(edge.evidence.file, "main.tf");
    assert_eq!(edge.kind, EdgeKind::References);
    assert_eq!(
        edge.description,
        "aws_lambda_function.consumer.environment.variables.BUCKET_ARN references \
         aws_s3_bucket.data (aws_s3_bucket.data.arn)"
    );
}

#[test]
fn tags_and_public_access_block_settings_are_preserved_in_attrs() {
    let g = graph(BASIC);
    let bucket = g.node("aws_s3_bucket.data").unwrap();
    assert_eq!(
        bucket.attrs.get("tags").and_then(|t| t.get("sensitive")).and_then(|v| v.as_str()),
        Some("true")
    );

    let pab = g.node("aws_s3_bucket_public_access_block.data").unwrap();
    assert_eq!(pab.attrs.get("block_public_acls").and_then(|v| v.as_bool()), Some(false));
    assert_eq!(pab.attrs.get("restrict_public_buckets").and_then(|v| v.as_bool()), Some(true));
}

#[test]
fn duplicate_resource_address_is_a_hard_error() {
    let files = vec![
        file("a.tf", "resource \"aws_s3_bucket\" \"dup\" {}\n"),
        file("b.tf", "resource \"aws_s3_bucket\" \"dup\" {}\n"),
    ];
    assert!(can_build(&files));
    match build_graph(&files) {
        Err(e) => {
            assert!(e.message().starts_with(
                "duplicate resource address `aws_s3_bucket.dup` (first seen in a.tf, again in b.tf)"
            ));
            let GraphBuildError::DuplicateResource { id, first_file, second_file } = e;
            assert_eq!(id, "aws_s3_bucket.dup");
            assert_eq!(first_file, "a.tf");
            assert_eq!(second_file, "b.tf");
        }
        Ok(_) => panic!("expected DuplicateResource error, got Ok"),
    }
}

#[test]
fn deterministic_node_and_edge_ordering_across_runs() {
    let g1 = graph(BASIC);
    let g2 = graph(BASIC);
    let ids1: Vec<_> = g1.graph.node_indices().map(|ix| g1.graph[ix].id.clone()).collect();
    let ids2: Vec<_> = g2.graph.node_indices().map(|ix| g2.graph[ix].id.clone()).collect();
    assert_eq!(ids1, ids2, "node ordering should be deterministic across repeated builds");
    assert_eq!(
        ids1,
        vec![
            "aws_s3_bucket.data",
            "aws_s3_bucket_public_access_block.data",
            "aws_iam_role.reader",
            "aws_lambda_function.consumer",
        ]
    );
}

#[test]
fn every_known_resource_type_has_a_kind() {
    let kinds = vec![
        ("aws_s3_bucket", ResourceKind::S3Bucket),
        ("aws_s3_bucket_policy", ResourceKind::S3BucketPolicy),
        ("aws_s3_bucket_public_access_block", ResourceKind::S3BucketPublicAccessBlock),
        ("aws_s3_bucket_acl", ResourceKind::S3BucketAcl),
        ("aws_iam_role", ResourceKind::IamRole),
        ("aws_iam_policy", ResourceKind::IamPolicy),
        ("aws_iam_role_policy", ResourceKind::IamRolePolicy),
        ("aws_iam_role_policy_attachment", ResourceKind::IamRolePolicyAttachment),
        ("aws_iam_instance_profile", ResourceKind::IamInstanceProfile),
        ("aws_lambda_function", ResourceKind::LambdaFunction),
        ("aws_lambda_permission", ResourceKind::LambdaPermission),
        ("aws_security_group", ResourceKind::SecurityGroup),
        ("aws_security_group_rule", ResourceKind::SecurityGroupRule),
        ("aws_instance", ResourceKind::Instance),
        ("aws_secretsmanager_secret", ResourceKind::SecretsManagerSecret),
        ("aws_dynamodb_table", ResourceKind::Other("aws_dynamodb_table".to_string())),
    ];
    for (tf_type, kind) in kinds {
        assert_eq!(ResourceKind::classify(tf_type), kind);
    }
}

#[test]
fn self_references_and_unknown_targets_make_no_edge() {
    let g = graph(
        r#"
resource "aws_s3_bucket" "a" {
  own     = aws_s3_bucket.a.arn
  missing = aws_s3_bucket.b.arn
  input   = var.name
  found   = data.aws_ami.latest.id
}
"#,
    );
    assert_eq!(g.node_count(), 1);
    assert_eq!(g.edge_count(), 0);
    assert_eq!(g.unresolved_node_count, 1);
}

#[test]
fn blocks_that_declare_no_resource_are_skipped() {
    let g = graph(
        r#"
variable "name" {}
locals {
  a = aws_s3_bucket.a.arn
}
resource "aws_s3_bucket" {}
resource "aws_s3_bucket" "a" {}
top = 1
"#,
    );
    assert_eq!(g.node_count(), 1);
    assert!(g.node("aws_s3_bucket.a").is_some());
    assert!(g.node("aws_s3_bucket.b").is_none());
}

#[test]
fn references_inside_templates_lists_calls_and_conditionals_are_found() {
    let g = graph(
        r#"
resource "aws_s3_bucket" "a" {}
resource "aws_s3_bucket" "b" {}
resource "aws_thing" "t" {
  list     = ["x", aws_s3_bucket.a.arn]
  call     = lower(aws_s3_bucket.a.id)
  cond     = var.x ? aws_s3_bucket.a.id : aws_s3_bucket.b.id
  indexed  = aws_s3_bucket.b[0].arn
  paren    = (aws_s3_bucket.a.arn)
  text     = "${aws_s3_bucket.b.arn}/*"
  nested {
    inner {
      key = { "k" = aws_s3_bucket.a.arn }
    }
  }
  heredoc = <<EOT
%{ if var.x }${aws_s3_bucket.a.arn}%{ else }${aws_s3_bucket.b.arn}%{ endif }
%{ for n in aws_s3_bucket.b.names }${n}%{ endfor }
EOT
}
"#,
    );
    let found: Vec<(String, String)> = (0..g.edge_count())
        .map(|e| {
            let edge = g.edge_by_index(e);
            let to = g.edge_ends(e).1;
            (edge.evidence.attr_path.clone(), g.node_by_index(to).id.clone())
        })
        .collect();
    let wanted: Vec<(String, String)> = vec![
        ("list[1]", "aws_s3_bucket.a"),
        ("call/arg0", "aws_s3_bucket.a"),
        ("cond", "aws_s3_bucket.a"),
        ("cond", "aws_s3_bucket.b"),
        ("indexed", "aws_s3_bucket.b"),
        ("paren", "aws_s3_bucket.a"),
        ("text", "aws_s3_bucket.b"),
        ("heredoc", "aws_s3_bucket.a"),
        ("heredoc", "aws_s3_bucket.b"),
        ("heredoc", "aws_s3_bucket.b"),
        ("nested.inner.key.\"k\"", "aws_s3_bucket.a"),
    ]
    .into_iter()
    .map(|(a, b)| (a.to_string(), b.to_string()))
    .collect();
    assert_eq!(found, wanted);
}

#[test]
fn the_edges_of_a_node_are_listed_newest_first() {
    let g = graph(
        r#"
resource "aws_s3_bucket" "a" {}
resource "aws_s3_bucket" "b" {}
resource "aws_thing" "t" {
  first  = aws_s3_bucket.a.arn
  second = aws_s3_bucket.b.arn
  third  = aws_s3_bucket.a.id
}
"#,
    );
    assert_eq!(g.outgoing(2), vec![2, 1, 0]);
    assert_eq!(g.incoming(0), vec![2, 0]);
    assert_eq!(g.edge_ends(1), (2, 1));
}

fn attr(text: &str) -> Json {
    let g = graph(&format!("resource \"aws_thing\" \"t\" {{\n  x = {text}\n}}\n"));
    g.node("aws_thing.t").unwrap().attrs.get("x").unwrap().clone()
}

fn is_text(v: &Json, text: &str) -> bool {
    v.as_str() == Some(text)
}

#[test]
fn values_come_out_as_json() {
    assert!(matches!(attr("null"), Json::Null));
    assert!(matches!(attr("true"), Json::Bool(true)));
    assert!(matches!(attr("443"), Json::Number(JsonNumber::PosInt(443))));
    assert!(matches!(attr("-1"), Json::Number(JsonNumber::NegInt(-1))));
    match attr("1.5") {
        Json::Number(JsonNumber::Float(text)) => assert_eq!(text, "1.5"),
        other => panic!("expected a float, got {other:?}"),
    }
    match attr("1e19") {
        Json::Number(JsonNumber::Float(text)) => assert!(text.starts_with("1e")),
        other => panic!("expected a float, got {other:?}"),
    }
    assert!(is_text(&attr("\"a\\tb\""), "a\tb"));
    assert!(is_text(&attr("[\"a\", \"b\"]").at(1).unwrap(), "b"));
    assert!(attr("[]").at(0).is_none());
    assert!(is_text(&attr("{ a = \"x\" }").get("a").unwrap(), "x"));
}

#[test]
fn what_the_text_leaves_open_is_marked() {
    assert!(is_text(&attr("var.x"), "unresolved:ref:var.x"));
    assert!(is_text(&attr("foo"), "unresolved:var:foo"));
    assert!(is_text(&attr("lower(\"X\")"), "unresolved:call:lower"));
    assert!(is_text(&attr("jsonencode(1, 2)"), "unresolved:call:jsonencode"));
    assert!(is_text(&attr("a ? 1 : 2"), "unresolved:expr:a ? 1 : 2"));
    assert!(is_text(&attr("1 + 2"), "unresolved:expr:1 + 2"));
    assert!(is_text(&attr("\"a\\tb ${var.x}\""), "a\tb ${var.x}"));
    assert!(is_text(&attr("(var.x)"), "unresolved:ref:var.x"));
}

#[test]
fn open_attributes_are_counted_by_resource() {
    let g = graph(
        r#"
resource "aws_a" "closed" { x = "plain" }
resource "aws_a" "open" {
  x = var.x
  y = var.y
}
resource "aws_a" "nested" {
  block {
    x = [{ y = "${var.x}" }]
  }
}
"#,
    );
    assert_eq!(g.unresolved_node_count, 2);
    assert!(!g.node("aws_a.closed").unwrap().has_unresolved_attrs);
    assert!(g.node("aws_a.open").unwrap().has_unresolved_attrs);
    assert!(g.node("aws_a.nested").unwrap().has_unresolved_attrs);
}

#[test]
fn repeated_blocks_become_a_list() {
    let g = graph(
        r#"
resource "aws_security_group" "sg" {
  note = "first"
  ingress { from_port = 22 }
  ingress { from_port = 443 }
  note { text = "second" }
}
"#,
    );
    let attrs = &g.node("aws_security_group.sg").unwrap().attrs;
    let ingress = attrs.get("ingress").unwrap();
    assert_eq!(ingress.at(0).unwrap().get("from_port").unwrap().as_i64(), Some(22));
    assert_eq!(ingress.at(1).unwrap().get("from_port").unwrap().as_i64(), Some(443));
    assert!(ingress.at(2).is_none());
    let note = attrs.get("note").unwrap();
    assert_eq!(note.at(0).unwrap().as_str(), Some("first"));
    assert_eq!(note.at(1).unwrap().get("text").unwrap().as_str(), Some("second"));
}

#[test]
fn a_heredoc_document_and_jsonencode_come_to_the_same_attributes() {
    let g = graph(
        r#"
resource "aws_iam_role" "encoded" {
  policy = jsonencode({ Statement = [{ Effect = "Allow" }] })
}
resource "aws_iam_role" "written" {
  policy = <<POLICY
{"Statement": [{"Effect": "Allow"}]}
POLICY
}
resource "aws_iam_role" "quoted" {
  policy = "{\"Statement\": \"[{\\\"Effect\\\": \\\"Allow\\\"}]\"}"
}
resource "aws_iam_role" "broken" {
  policy = "{not json}"
}
"#,
    );
    for id in ["aws_iam_role.encoded", "aws_iam_role.written", "aws_iam_role.quoted"] {
        let attrs = &g.node(id).unwrap().attrs;
        let statement = attrs.get("policy").unwrap().get("Statement").unwrap().at(0).unwrap();
        assert_eq!(statement.get("Effect").unwrap().as_str(), Some("Allow"), "{id}");
    }
    let broken = &g.node("aws_iam_role.broken").unwrap().attrs;
    assert_eq!(broken.get("policy").unwrap().as_str(), Some("{not json}"));
}

#[test]
fn a_file_that_is_not_well_formed_is_an_error() {
    match parse_source("bad.tf", "resource {") {
        Err(ParseError::Syntax { message }) => assert!(!message.is_empty()),
        other => panic!("expected a syntax error, got {other:?}"),
    }
}

#[test]
fn texts_that_the_parser_cannot_be_given_are_told_apart() {
    assert!(is_readable("x = 9223372036854775807\n"));
    assert!(!is_readable("x = 9223372036854775808\n"));
    assert!(!is_readable("x = -9223372036854775808\n"));
    assert!(!is_readable("x = [1, 9223372036854775808.y]\n"));
    assert!(!is_readable("x = [for y in99999999999999999999 : y]\n"));
    assert!(!is_readable("x = null-true-99999999999999999999\n"));
    assert!(!is_readable("x = true99999999999999999999\n"));
    assert!(!is_readable("x = [for y in z : y if99999999999999999999]\n"));
    assert!(!is_readable("x = [for y in z : [y] iftrue-99999999999999999999]\n"));
    assert!(!is_readable("x = {for k, v in99999999999999999999 : k => v}\n"));
    assert!(!is_readable("x = {forv in m : v => \"v\"...if99999999999999999999}\n"));
    assert!(!is_readable("x = { null-99999999999999999999 + 1 = 2 }\n"));
    assert!(!is_readable("x = [for y in [1, 99999999999999999999] : y]\n"));
    assert!(!is_readable("x = /* \" */ 99999999999999999999 # \"\n"));
    assert!(!is_readable("x = <<EOT\n99999999999999999999\n  EOT\ny = 99999999999999999999\n"));
    assert!(!is_readable("x = \"%{ if a }\" %{ endif }\"\ny = 99999999999999999999\n"));
    assert!(!is_readable("x = y.18446744073709551616\n"));
    assert!(!is_readable("x = \"\u{e9}\\n\"\n"));
    assert!(!is_readable("x \"\u{e9}\\n\" {}\n"));
}

#[test]
fn what_only_looks_like_a_number_or_a_string_is_read() {
    for text in [
        "x = \"9223372036854775808\"\n",
        "x = \"a 9223372036854775808 b\"\n",
        "x = in99999999999999999999\nif99999999999999999999 = y.if99999999999999999999\n",
        "x = \"${in99999999999999999999}\"\n",
        "x = [for y in in99999999999999999999 : if99999999999999999999.in99999999999999999999 if z]\n",
        "x = [for y in z : [in99999999999999999999, { if99999999999999999999 = 1 }] if y]\n",
        "x = { a = 1 if99999999999999999999 = 2, in99999999999999999999 : 3 }\n",
        "true-99999999999999999999 = 1\nnull-99999999999999999999 \"a\" {}\n",
        "x = { false-99999999999999999999 : 1, null-99999999999999999999 = 2 }\n",
        "x = y.true-99999999999999999999\n",
        "# 9223372036854775808\nx = 1 // 9223372036854775808\n",
        "/* \"\u{e9}\\n 9223372036854775808 */ x = 1\n",
        "x = 9223372036854775808.5\ny = 9223372036854775808e1\nz = 9223372036854775808.5E+2\n",
        "x = a9223372036854775808\ny-9223372036854775808 = 1\n",
        "x = y.9223372036854775808\n",
        "x = y.0.18446744073709551615.z\n",
        "x = \"\u{e9}a\\n\"\n",
        "x = \"say \\\"\u{e9}\\\" twice\"\n",
        "x = \"a\" # \u{e9}\\n\n",
        "x = <<EOT\n9223372036854775808 \"\u{e9}\\n\"\nEOT\n",
        "x = <<-EOT\n  \"${a[\"}\"]}\n  9223372036854775808\n  EOT\ny = 1\n",
        "x = \"${a}9223372036854775808${{ b = \"}\" }}9223372036854775808\"\n",
        "x = \"$${9223372036854775808}%%{9223372036854775808}\"\n",
        "x = \"%{ if a ~}\" 9223372036854775808 %{~ endif }\"\ny = 1\n",
        "x = \"%{ /* 1 */ for a in b }${a}%{ if c }\"%{ else }'%{ endif }%{ endfor }\"\ny = 1\n",
    ] {
        assert!(is_readable(text), "{text}");
        match parse_source("main.tf", text) {
            Ok(parsed) => assert!(parsed.body.len() > 0, "{text}"),
            Err(e) => panic!("{text} should parse: {e:?}"),
        }
    }
}

#[test]
fn digits_in_the_literal_text_of_a_template_are_no_numbers() {
    let text = "x = \"${var.a}-99999999999999999999-${var.b}\"\n";
    let body: hcl::Body = hcl::from_str(text).unwrap();
    let parsed = from_body("main.tf", &body).unwrap();
    assert_eq!(parsed.path, "main.tf");
    assert_eq!(parsed.body.len(), 1);
}

#[test]
fn numbers_in_the_code_of_a_template_have_to_fit() {
    for template in [
        "${c[99999999999999999999]}",
        "%{ if99999999999999999999 }%{ endif }",
        "%{~ for x in99999999999999999999 ~}%{ endfor }",
    ] {
        let text = format!("resource \"a\" \"b\" {{\n  x = \"{template}\"\n}}\n");
        assert!(is_readable(&text));
        match parse_source("main.tf", &text) {
            Err(ParseError::UnreadableTemplate) => {}
            other => panic!("expected an unreadable template, got {other:?}"),
        }
    }
    for template in [
        "${in99999999999999999999}",
        "%{ if if99999999999999999999 }99999999999999999999%{ endif }",
        "%{ for in99999999999999999999 in if99999999999999999999 }\\n%{ endfor }",
    ] {
        let text = format!("resource \"a\" \"b\" {{\n  x = \"{template}\"\n}}\n");
        assert!(is_readable(&text));
        assert_eq!(parse_source("main.tf", &text).unwrap().body.len(), 1);
    }
}

#[test]
fn escapes_matter_where_a_template_is_rendered() {
    let rendered = "resource \"a\" \"b\" {\n  x = [jsonencode(\"\u{e9}\\n${c.d}\")]\n}\n";
    match parse_source("main.tf", rendered) {
        Err(ParseError::UnreadableTemplate) => {}
        other => panic!("expected an unreadable template, got {other:?}"),
    }
    let passed_on = "resource \"a\" \"b\" {\n  x = format(\"\u{e9}\\n${a.c}\")\n}\nresource \"a\" \"c\" {}\n";
    let files = vec![parse_source("main.tf", passed_on).unwrap()];
    assert!(can_build(&files));
    let g = build_graph(&files).ok().unwrap();
    assert_eq!(g.edge_count(), 1);
    assert_eq!(g.edge_by_index(0).evidence.attr_path, "x/arg0");
}

#[test]
fn what_declares_no_resource_never_stands_in_the_way() {
    let text = "locals {\n  x = \"\u{e9}\\n${c.d}\"\n}\nresource \"a\" \"b\" {}\nx = 1\n";
    assert!(is_readable(text));
    let parsed = parse_source("main.tf", text).unwrap();
    assert_eq!(parsed.body.len(), 2);
}

#[test]
fn a_number_that_is_not_finite_is_null() {
    let body: hcl::Body = hcl::from_str("resource \"a\" \"b\" {\n  x = 1e999\n  y = 0.5\n}\n").unwrap();
    let files = vec![from_body("main.tf", &body).unwrap()];
    assert!(can_build(&files));
    let g = build_graph(&files).ok().unwrap();
    let attrs = &g.node("a.b").unwrap().attrs;
    assert!(matches!(attrs.get("x"), Some(Json::Null)));
    assert!(matches!(attrs.get("y"), Some(Json::Number(_))));
}

#[test]
fn a_template_that_the_parser_cannot_be_given_is_an_error() {
    // Taking the indentation off moves the escape inside the string.
    let text = "resource \"a\" \"b\" {\nx = <<-EOT\n   ${\"\u{e9}\u{e9}\n   \\n\"}\n   EOT\n}\n";
    assert!(is_readable(text));
    match parse_source("main.tf", text) {
        Err(ParseError::UnreadableTemplate) => {}
        other => panic!("expected an unreadable template, got {other:?}"),
    }
}

#[test]
fn the_reserved_roots_are_listed() {
    assert_eq!(reserved_roots(), RESERVED_ROOTS);
    assert!(RESERVED_ROOTS.contains(&"var"));
    assert!(!RESERVED_ROOTS.contains(&"aws_s3_bucket"));
}
