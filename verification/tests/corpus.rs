//! The whole way from source to findings, on configurations that hold a chain, that look suspicious
//! and hold none, and that hold nothing at all.

use policylens::classify::{can_classify, classify};
use policylens::files::rule_files;
use policylens::graph::{build_graph, can_build, IacGraph};
use policylens::matcher::run_rules;
use policylens::lexical::is_readable;
use policylens::parser::{parse_source, ParsedFile};
use policylens::rule::{
    can_validate, one, EdgeMatcher, EdgeStep, NodeMatcher, NodeStep, PathStep, Rule, RuleSet,
    Severity,
};

fn file(path: &str, text: &str) -> ParsedFile {
    assert!(is_readable(text));
    match parse_source(path, text) {
        Ok(parsed) => parsed,
        Err(e) => panic!("{path} should parse: {e:?}"),
    }
}

fn graph_of(path: &str, text: &str) -> IacGraph {
    let files = vec![file(path, text)];
    assert!(can_build(&files));
    let mut g = match build_graph(&files) {
        Ok(g) => g,
        Err(e) => panic!("should build: {}", e.message()),
    };
    assert!(can_classify(&g));
    classify(&mut g);
    g
}

/// The files of a directory of rules, as a directory lists them.
const RULE_DIRECTORY: [(&str, &str); 6] = [
    (
        "unauthenticated-compute-secret-access.yaml",
        r#"
id: unauthenticated-compute-secret-access
title: Publicly invokable function can read a secret
severity_base: critical
max_total_hops: 2
path:
  - node: { kind: LambdaFunction, where: "_derived.publicly_invokable == true" }
  - edge: { kind: References, where: 'attr_path == "role"' }
  - node: { kind: IamRole }
  - edge: { kind: IamGrants }
  - node: { kind: SecretsManagerSecret }
"#,
    ),
    ("README.md", "How rules are written."),
    (
        "public-storage-writable-by-untrusted-role.yaml",
        r#"
id: public-storage-writable-by-untrusted-role
title: Publicly accessible storage is writable by a role with untrusted trust policy
severity_base: high
max_total_hops: 1
path:
  - node: { kind: IamRole, where: "_derived.wildcard_trust == true" }
  - edge: { kind: IamGrants, where: "_derived.grants_write == true", min_hops: 1, max_hops: 1 }
  - node: { kind: S3Bucket, where: "_derived.public == true" }
"#,
    ),
    (
        "overly-permissive-role-sensitive-access.yaml",
        r#"
id: overly-permissive-role-sensitive-access
title: IAM role has wildcard-scoped access to a sensitive resource
severity_base: medium
max_total_hops: 1
path:
  - node: { kind: IamRole }
  - edge: { kind: IamGrants, where: "_derived.grants_wildcard == true" }
  - node: { kind: S3Bucket, where: "_derived.sensitive == true" }
"#,
    ),
    (
        "open-security-group-to-data-store.yml",
        r#"
id: open-security-group-to-data-store
title: Internet-reachable instance can reach sensitive data
severity_base: high
max_total_hops: 3
path:
  - node: { kind: SecurityGroup, where: "_derived.open_ingress == true" }
  - edge: { kind: NetworkReachable }
  - node: { kind: Instance }
  - edge: { kind: Attached }
  - node: { kind: IamRole }
  - edge: { kind: IamGrants }
  - node: { kind: S3Bucket, where: "_derived.sensitive == true" }
"#,
    ),
    (
        "iam-role-self-privilege-escalation.yaml",
        r#"
id: iam-role-self-privilege-escalation
title: IAM role that anyone can assume may change its own permissions
severity_base: critical
max_total_hops: 1
path:
  - node: { kind: IamRole, where: "_derived.wildcard_trust == true" }
  - edge: { kind: IamGrants, where: "_derived.grants_iam_escalation == true" }
  - node: { kind: IamRole }
"#,
    ),
];

fn text_of(v: &serde_yaml::Value, key: &str) -> Option<String> {
    v.get(key).and_then(|s| s.as_str()).map(|s| s.to_string())
}

fn hops_of(v: &serde_yaml::Value, key: &str) -> usize {
    v.get(key).and_then(|n| n.as_u64()).map(|n| n as usize).unwrap_or_else(one)
}

fn step_of(v: &serde_yaml::Value) -> PathStep {
    match (v.get("node"), v.get("edge")) {
        (Some(n), _) => PathStep::Node(NodeStep {
            node: NodeMatcher {
                kind: text_of(n, "kind"),
                where_clause: text_of(n, "where"),
                bind: text_of(n, "bind"),
            },
        }),
        (None, Some(e)) => PathStep::Edge(EdgeStep {
            edge: EdgeMatcher {
                kind: text_of(e, "kind").expect("an edge has a kind"),
                where_clause: text_of(e, "where"),
                min_hops: hops_of(e, "min_hops"),
                max_hops: hops_of(e, "max_hops"),
            },
        }),
        (None, None) => panic!("a step is a node or an edge"),
    }
}

fn rule_of(text: &str) -> Result<Rule, String> {
    let v: serde_yaml::Value = serde_yaml::from_str(text).map_err(|e| e.to_string())?;
    let severity_base = match text_of(&v, "severity_base").as_deref() {
        Some("low") => Severity::Low,
        Some("medium") => Severity::Medium,
        Some("high") => Severity::High,
        Some("critical") => Severity::Critical,
        other => return Err(format!("unknown severity {other:?}")),
    };
    Ok(Rule {
        id: text_of(&v, "id").ok_or("no id")?,
        title: text_of(&v, "title").ok_or("no title")?,
        description: text_of(&v, "description").unwrap_or_default(),
        severity_base,
        max_total_hops: hops_of(&v, "max_total_hops"),
        path: v.get("path").and_then(|p| p.as_sequence()).ok_or("no path")?.iter().map(step_of).collect(),
    })
}

/// The five built-in rules, loaded from their directory.
fn built_in_rules() -> RuleSet {
    let names: Vec<String> = RULE_DIRECTORY.iter().map(|(name, _)| name.to_string()).collect();
    let mut set = RuleSet::new();
    for name in rule_files(&names) {
        let (_, text) = RULE_DIRECTORY.iter().find(|(n, _)| *n == name).unwrap();
        let parsed = rule_of(text);
        if let Ok(r) = &parsed {
            assert!(can_validate(r));
        }
        match RuleSet::parse_one(parsed) {
            Ok(valid) => set.insert(valid),
            Err(e) => panic!("{name} should be valid: {}", e.message()),
        }
    }
    set
}

fn scan(text: &str) -> Vec<String> {
    let g = graph_of("main.tf", text);
    let rule_set = built_in_rules();
    run_rules(&g, &rule_set.rules).into_iter().map(|f| f.rule_id).collect()
}

#[test]
fn all_five_built_in_rules_are_present() {
    assert_eq!(built_in_rules().rules.len(), 5);
}

#[test]
fn load_and_validate_example_rules() {
    let set = built_in_rules();
    assert_eq!(set.rules.len(), 5, "expected all 5 built-in rules");
    let ids: Vec<_> = set.rules.iter().map(|r| r.id.as_str()).collect();
    assert!(ids.contains(&"public-storage-writable-by-untrusted-role"));
    assert!(ids.contains(&"iam-role-self-privilege-escalation"));
    assert!(ids.contains(&"overly-permissive-role-sensitive-access"));
    assert!(ids.contains(&"unauthenticated-compute-secret-access"));
    assert!(ids.contains(&"open-security-group-to-data-store"));
}

const PUBLIC_BUCKET_UNTRUSTED_ROLE: &str = r#"
resource "aws_s3_bucket" "exports" {
  bucket = "exports"
}

resource "aws_s3_bucket_public_access_block" "exports" {
  bucket                  = aws_s3_bucket.exports.id
  block_public_acls       = false
  block_public_policy     = false
  ignore_public_acls      = false
  restrict_public_buckets = false
}

resource "aws_iam_role" "cross_account_writer" {
  assume_role_policy = jsonencode({
    Statement = [{ Effect = "Allow", Principal = { AWS = "*" }, Action = "sts:AssumeRole" }]
  })
}

resource "aws_iam_role_policy" "writer_access" {
  role = aws_iam_role.cross_account_writer.id
  policy = jsonencode({
    Statement = [{
      Effect   = "Allow"
      Action   = ["s3:PutObject", "s3:GetObject"]
      Resource = "${aws_s3_bucket.exports.arn}/*"
    }]
  })
}
"#;

#[test]
fn vuln_01_triggers_public_storage_writable_by_untrusted_role() {
    let rule_ids = scan(PUBLIC_BUCKET_UNTRUSTED_ROLE);
    assert_eq!(
        rule_ids,
        vec!["public-storage-writable-by-untrusted-role".to_string()],
        "expected exactly one finding, from rule 1"
    );
}

#[test]
fn vuln_02_triggers_iam_self_privilege_escalation() {
    let rule_ids = scan(
        r#"
resource "aws_iam_role" "ci" {
  assume_role_policy = <<POLICY
{"Statement": [{"Effect": "Allow", "Principal": "*", "Action": "sts:AssumeRole"}]}
POLICY
}

resource "aws_iam_role_policy" "self_service" {
  role = aws_iam_role.ci.id
  policy = jsonencode({
    Statement = [{
      Effect   = "Allow"
      Action   = ["iam:PutRolePolicy"]
      Resource = aws_iam_role.ci.arn
    }]
  })
}
"#,
    );
    assert_eq!(
        rule_ids,
        vec!["iam-role-self-privilege-escalation".to_string()],
        "expected exactly one finding, from rule 5"
    );
}

#[test]
fn vuln_03_triggers_unauthenticated_compute_secret_access() {
    let rule_ids = scan(
        r#"
resource "aws_secretsmanager_secret" "db" {}

resource "aws_iam_role" "fn" {
  assume_role_policy = jsonencode({
    Statement = [{ Effect = "Allow", Principal = { Service = "lambda.amazonaws.com" } }]
  })
}

resource "aws_iam_policy" "read_secret" {
  policy = jsonencode({
    Statement = [{
      Effect   = "Allow"
      Action   = "secretsmanager:GetSecretValue"
      Resource = aws_secretsmanager_secret.db.arn
    }]
  })
}

resource "aws_iam_role_policy_attachment" "fn" {
  role       = aws_iam_role.fn.name
  policy_arn = aws_iam_policy.read_secret.arn
}

resource "aws_lambda_function" "api" {
  role = aws_iam_role.fn.arn
}

resource "aws_lambda_permission" "anyone" {
  action        = "lambda:InvokeFunction"
  function_name = aws_lambda_function.api.function_name
  principal     = "*"
}
"#,
    );
    assert_eq!(
        rule_ids,
        vec!["unauthenticated-compute-secret-access".to_string()],
        "expected exactly one finding, from rule 3"
    );
}

#[test]
fn safe_01_locked_down_bucket_with_wildcard_trust_role_triggers_nothing() {
    let rule_ids = scan(
        r#"
resource "aws_s3_bucket" "locked" {}
resource "aws_s3_bucket" "scratch" {}

resource "aws_s3_bucket_public_access_block" "locked" {
  bucket                  = aws_s3_bucket.locked.id
  block_public_acls       = true
  block_public_policy     = true
  ignore_public_acls      = true
  restrict_public_buckets = true
}

resource "aws_iam_role" "partner" {
  assume_role_policy = jsonencode({
    Statement = [{ Effect = "Allow", Principal = { AWS = "*" }, Action = "sts:AssumeRole" }]
  })
}

resource "aws_iam_role_policy" "partner" {
  role = aws_iam_role.partner.id
  policy = jsonencode({
    Statement = [{ Effect = "Allow", Action = "s3:GetObject", Resource = aws_s3_bucket.scratch.arn }]
  })
}
"#,
    );
    assert!(
        rule_ids.is_empty(),
        "expected no findings (PAB blocks all public access, wildcard-trust role has no grant to \
         the locked-down bucket), got: {rule_ids:?}"
    );
}

#[test]
fn safe_02_wildcard_grant_on_nonsensitive_bucket_triggers_nothing() {
    let rule_ids = scan(
        r#"
resource "aws_s3_bucket" "logs" {
  tags = { sensitive = "false" }
}

resource "aws_iam_role" "logger" {
  assume_role_policy = jsonencode({
    Statement = [{ Effect = "Allow", Principal = { Service = "ec2.amazonaws.com" } }]
  })
}

resource "aws_iam_role_policy" "logger" {
  role = aws_iam_role.logger.id
  policy = jsonencode({
    Statement = [{ Effect = "Allow", Action = "s3:*", Resource = aws_s3_bucket.logs.arn }]
  })
}
"#,
    );
    assert!(
        rule_ids.is_empty(),
        "expected no findings (wildcard s3:* grant exists, but target bucket isn't tagged \
         sensitive), got: {rule_ids:?}"
    );
}

#[test]
fn safe_03_open_sg_instance_with_no_sensitive_access_triggers_nothing() {
    let rule_ids = scan(
        r#"
resource "aws_security_group" "open" {
  ingress {
    from_port   = 443
    to_port     = 443
    protocol    = "tcp"
    cidr_blocks = ["0.0.0.0/0"]
  }
}

resource "aws_s3_bucket" "assets" {}

resource "aws_iam_role" "web" {
  assume_role_policy = jsonencode({
    Statement = [{ Effect = "Allow", Principal = { Service = "ec2.amazonaws.com" } }]
  })
}

resource "aws_iam_role_policy" "web" {
  role = aws_iam_role.web.id
  policy = jsonencode({
    Statement = [{ Effect = "Allow", Action = "s3:GetObject", Resource = aws_s3_bucket.assets.arn }]
  })
}

resource "aws_iam_instance_profile" "web" {
  role = aws_iam_role.web.name
}

resource "aws_instance" "web" {
  vpc_security_group_ids = [aws_security_group.open.id]
  iam_instance_profile   = aws_iam_instance_profile.web.name
}
"#,
    );
    assert!(
        rule_ids.is_empty(),
        "expected no findings (SG is genuinely open to 0.0.0.0/0, but the instance's role only \
         reaches a non-sensitive bucket), got: {rule_ids:?}"
    );
}

#[test]
fn zero_01_single_private_bucket_triggers_nothing() {
    let rule_ids = scan("resource \"aws_s3_bucket\" \"private\" {\n  bucket = \"private\"\n}\n");
    assert!(rule_ids.is_empty(), "expected no findings, got: {rule_ids:?}");
}

#[test]
fn zero_02_least_privilege_role_triggers_nothing() {
    let rule_ids = scan(
        r#"
resource "aws_s3_bucket" "records" {
  tags = { Sensitive = true }
}

resource "aws_iam_role" "auditor" {
  assume_role_policy = jsonencode({
    Statement = [{ Effect = "Allow", Principal = { AWS = "arn:aws:iam::111122223333:root" } }]
  })
}

resource "aws_iam_role_policy" "auditor" {
  role = aws_iam_role.auditor.id
  policy = jsonencode({
    Statement = [{ Effect = "Allow", Action = "s3:GetObject", Resource = aws_s3_bucket.records.arn }]
  })
}
"#,
    );
    assert!(
        rule_ids.is_empty(),
        "expected no findings (properly-scoped trust + properly-scoped grant to a sensitive \
         bucket is not, on its own, a chain), got: {rule_ids:?}"
    );
}
