//! Chains over several hops, the evidence for them, and how they are scored and rendered.

use policylens::classify::{can_classify, classify};
use policylens::graph::{build_graph, can_build, IacGraph};
use policylens::matcher::{run_rules, try_run_rules};
use policylens::lexical::is_readable;
use policylens::parser::{parse_source, ParsedFile};
use policylens::report::{build_report, render_human};
use policylens::rule::{
    can_validate, one, validate, EdgeMatcher, EdgeStep, NodeMatcher, NodeStep, PathStep, Rule,
    RuleLoadError, RuleSet, Severity,
};
use policylens::scan::{classify_graph, load_graph, scan_graph, ScanError};
use policylens::scoring::{label_for, score_finding, SeverityLabel};

fn file(path: &str, text: &str) -> ParsedFile {
    assert!(is_readable(text));
    match parse_source(path, text) {
        Ok(parsed) => parsed,
        Err(e) => panic!("{path} should parse: {e:?}"),
    }
}

fn graph_of(path: &str, text: &str) -> IacGraph {
    let files = vec![file(path, text)];
    assert!(can_build(&files));
    let mut g = match build_graph(&files) {
        Ok(g) => g,
        Err(e) => panic!("should build: {}", e.message()),
    };
    assert!(can_classify(&g));
    classify(&mut g);
    g
}

fn node(kind: &str, condition: Option<&str>) -> PathStep {
    PathStep::Node(NodeStep {
        node: NodeMatcher {
            kind: Some(kind.to_string()),
            where_clause: condition.map(|s| s.to_string()),
            bind: None,
        },
    })
}

fn edge(kind: &str, condition: Option<&str>) -> PathStep {
    PathStep::Edge(EdgeStep {
        edge: EdgeMatcher {
            kind: kind.to_string(),
            where_clause: condition.map(|s| s.to_string()),
            min_hops: one(),
            max_hops: one(),
        },
    })
}

fn rule(id: &str, title: &str, severity_base: Severity, max_total_hops: usize, path: Vec<PathStep>) -> Rule {
    Rule {
        id: id.to_string(),
        title: title.to_string(),
        description: String::new(),
        severity_base,
        max_total_hops,
        path,
    }
}

/// The five built-in rules.
fn built_in_rules() -> RuleSet {
    let rules = vec![
        rule(
            "iam-role-self-privilege-escalation",
            "IAM role that anyone can assume may change its own permissions",
            Severity::Critical,
            1,
            vec![
                node("IamRole", Some("_derived.wildcard_trust == true")),
                edge("IamGrants", Some("_derived.grants_iam_escalation == true")),
                node("IamRole", None),
            ],
        ),
        rule(
            "open-security-group-to-data-store",
            "Internet-reachable instance can reach sensitive data",
            Severity::High,
            3,
            vec![
                node("SecurityGroup", Some("_derived.open_ingress == true")),
                edge("NetworkReachable", None),
                node("Instance", None),
                edge("Attached", None),
                node("IamRole", None),
                edge("IamGrants", None),
                node("S3Bucket", Some("_derived.sensitive == true")),
            ],
        ),
        rule(
            "overly-permissive-role-sensitive-access",
            "IAM role has wildcard-scoped access to a sensitive resource",
            Severity::Medium,
            1,
            vec![
                node("IamRole", None),
                edge("IamGrants", Some("_derived.grants_wildcard == true")),
                node("S3Bucket", Some("_derived.sensitive == true")),
            ],
        ),
        rule(
            "public-storage-writable-by-untrusted-role",
            "Publicly accessible storage is writable by a role with untrusted trust policy",
            Severity::High,
            1,
            vec![
                node("IamRole", Some("_derived.wildcard_trust == true")),
                edge("IamGrants", Some("_derived.grants_write == true")),
                node("S3Bucket", Some("_derived.public == true")),
            ],
        ),
        rule(
            "unauthenticated-compute-secret-access",
            "Publicly invokable function can read a secret",
            Severity::Critical,
            2,
            vec![
                node("LambdaFunction", Some("_derived.publicly_invokable == true")),
                edge("References", Some("attr_path == \"role\"")),
                node("IamRole", None),
                edge("IamGrants", None),
                node("SecretsManagerSecret", None),
            ],
        ),
    ];
    let mut set = RuleSet::new();
    for r in rules {
        assert!(can_validate(&r));
        match RuleSet::parse_one(Ok(r)) {
            Ok(valid) => set.insert(valid),
            Err(e) => panic!("rule should be valid: {}", e.message()),
        }
    }
    set
}

const WILDCARD_TO_SENSITIVE: &str = r#"
resource "aws_s3_bucket" "sensitive_data" {
  tags = { sensitive = "true" }
}

resource "aws_iam_role" "broad_access" {
  assume_role_policy = jsonencode({
    Statement = [{ Effect = "Allow", Principal = { Service = "ec2.amazonaws.com" } }]
  })
}

resource "aws_iam_role_policy" "broad_access_policy" {
  role = aws_iam_role.broad_access.id
  policy = jsonencode({
    Statement = [{
      Effect   = "Allow"
      Action   = "s3:*"
      Resource = "${aws_s3_bucket.sensitive_data.arn}/*"
    }]
  })
}
"#;

const OPEN_GROUP_TO_SENSITIVE: &str = r#"
resource "aws_security_group" "open" {
  ingress {
    from_port   = 22
    to_port     = 22
    protocol    = "tcp"
    cidr_blocks = ["10.0.0.0/8", "0.0.0.0/0"]
  }
}

resource "aws_instance" "exposed" {
  vpc_security_group_ids = [aws_security_group.open.id]
  iam_instance_profile   = aws_iam_instance_profile.profile.name
}

resource "aws_iam_instance_profile" "profile" {
  role = aws_iam_role.instance_role.name
}

resource "aws_iam_role" "instance_role" {
  assume_role_policy = jsonencode({
    Statement = [{ Effect = "Allow", Principal = { Service = "ec2.amazonaws.com" } }]
  })
}

resource "aws_iam_role_policy" "reach_data" {
  role = aws_iam_role.instance_role.id
  policy = jsonencode({
    Statement = [{
      Effect   = "Allow"
      Action   = ["s3:GetObject"]
      Resource = aws_s3_bucket.sensitive_data.arn
    }]
  })
}

resource "aws_s3_bucket" "sensitive_data" {
  tags = { sensitive = "yes" }
}
"#;

#[test]
fn rule2_true_positive_wildcard_grant_to_sensitive_bucket() {
    let g = graph_of("rule2-tp/main.tf", WILDCARD_TO_SENSITIVE);
    let rule_set = built_in_rules();
    let findings = run_rules(&g, &rule_set.rules);

    let matches: Vec<_> = findings
        .iter()
        .filter(|f| f.rule_id == "overly-permissive-role-sensitive-access")
        .collect();
    assert_eq!(matches.len(), 1, "expected rule 2 to fire exactly once");
    assert_eq!(
        matches[0].node_ids,
        vec![
            "aws_iam_role.broad_access".to_string(),
            "aws_s3_bucket.sensitive_data".to_string()
        ]
    );
}

#[test]
fn rule4_true_positive_open_sg_to_sensitive_data_via_instance_role() {
    let g = graph_of("rule4-tp/main.tf", OPEN_GROUP_TO_SENSITIVE);
    let rule_set = built_in_rules();
    let findings = run_rules(&g, &rule_set.rules);

    let matches: Vec<_> = findings
        .iter()
        .filter(|f| f.rule_id == "open-security-group-to-data-store")
        .collect();
    assert_eq!(matches.len(), 1, "expected rule 4 to fire exactly once");
    assert_eq!(
        matches[0].node_ids,
        vec![
            "aws_security_group.open".to_string(),
            "aws_instance.exposed".to_string(),
            "aws_iam_role.instance_role".to_string(),
            "aws_s3_bucket.sensitive_data".to_string(),
        ],
        "expected the full 4-hop chain: SG -> Instance -> Role -> Bucket"
    );
}

#[test]
fn evidence_path_reconstructs_correct_file_and_attribute() {
    let g = graph_of("tests/fixtures/rule2-tp/main.tf", WILDCARD_TO_SENSITIVE);
    let rule_set = built_in_rules();
    let findings = run_rules(&g, &rule_set.rules);
    let report = build_report("tests/fixtures/rule2-tp", &g, &rule_set.rules, &findings);

    assert_eq!(report.findings.len(), 1);
    let f = &report.findings[0];

    // The chain has exactly one edge (role -> bucket).
    assert_eq!(f.edges.len(), 1);
    let edge = &f.edges[0];
    assert_eq!(edge.from, "aws_iam_role.broad_access");
    assert_eq!(edge.to, "aws_s3_bucket.sensitive_data");
    assert_eq!(edge.kind, "IamGrants");
    // The evidence points at the policy that declares the grant.
    assert!(
        edge.evidence_file.ends_with("rule2-tp/main.tf"),
        "evidence file should point at the actual source file, got {}",
        edge.evidence_file
    );
    assert_eq!(edge.evidence_attr_path, "policy.Statement[0]");
    assert!(
        edge.description.contains("aws_iam_role_policy.broad_access_policy"),
        "evidence description should name the resource that actually declared the grant, got: {}",
        edge.description
    );
    assert!(
        edge.description.contains("s3:*"),
        "evidence description should include the actual over-broad action, got: {}",
        edge.description
    );
}

#[test]
fn severity_score_and_explanation_are_internally_consistent() {
    let g = graph_of("tests/fixtures/rule2-tp/main.tf", WILDCARD_TO_SENSITIVE);
    let rule_set = built_in_rules();
    let findings = run_rules(&g, &rule_set.rules);
    let report = build_report("tests/fixtures/rule2-tp", &g, &rule_set.rules, &findings);

    let f = &report.findings[0];
    // The base is 50; the bucket is sensitive (+10); nothing is exposed; there is a single hop.
    assert_eq!(f.severity.score, 60, "score should match the documented formula exactly");
    assert_eq!(f.severity.label, "MEDIUM");
    assert!(f.severity.explanation.contains("base 50"));
    assert!(f.severity.explanation.contains("sensitivity bonus 10"));
    assert!(f.severity.explanation.contains("exposure bonus 0"));
}

#[test]
fn a_scan_is_rendered_as_text() {
    let text = r#"
resource "aws_s3_bucket" "exports" {}
resource "aws_s3_bucket_acl" "exports" {
  bucket = aws_s3_bucket.exports.id
  acl    = "public-read"
}
resource "aws_iam_role" "writer" {
  assume_role_policy = jsonencode({
    Statement = [{ Effect = "Allow", Principal = { AWS = ["x", "*"] } }]
  })
}
resource "aws_iam_role_policy" "access" {
  role = aws_iam_role.writer.id
  policy = jsonencode({
    Statement = [{
      Effect   = "Allow"
      Action   = ["s3:PutObject", "s3:GetObject"]
      Resource = "${aws_s3_bucket.exports.arn}/*"
    }]
  })
}
"#;
    let rule_set = built_in_rules();
    let files = vec![file("main.tf", text)];
    let mut g = match load_graph(&files) {
        Ok(g) => g,
        Err(e) => panic!("should build: {e:?}"),
    };
    assert!(classify_graph(&mut g).is_ok());
    let report = match scan_graph("dir", &g, &rule_set.rules) {
        Ok(report) => report,
        Err(e) => panic!("should scan: {}", e.message()),
    };
    assert_eq!(
        render_human(&report),
        "PolicyLens scan: dir\n  \
         4 resource(s), 4 edge(s), 2 unresolved attribute(s)\n\
         \n\
         1 finding(s):\n  \
         HIGH: 1\n\
         \n\
         [1] HIGH -- Publicly accessible storage is writable by a role with untrusted trust policy (score 78)\n  \
         rule: public-storage-writable-by-untrusted-role\n  \
         why this severity: base 70 (High) \u{2212} hop penalty 0 (0 extra hop(s) beyond the first, capped at 20) \
         + sensitivity bonus 0 (no sensitive-tagged resource in chain) \
         + exposure bonus 8 (chain includes a publicly-reachable entry point) = 78 -> HIGH\n  \
         chain (1 hop(s)):\n    \
         aws_iam_role.writer\n      \
         --[IamGrants]--> aws_s3_bucket.exports\n          \
         evidence: aws_iam_role.writer (via aws_iam_role_policy.access, statement 0) is granted \
         [\"s3:PutObject\", \"s3:GetObject\"] on aws_s3_bucket.exports \
         (main.tf, attribute `policy.Statement[0]`)\n"
    );
    assert_eq!(report.summary.total_findings, 1);
    assert_eq!(report.summary.by_severity, vec![("HIGH".to_string(), 1)]);
}

#[test]
fn a_scan_without_findings_says_so() {
    let g = graph_of("main.tf", "resource \"aws_s3_bucket\" \"a\" {}\n");
    let report = scan_graph("dir", &g, &built_in_rules().rules).unwrap();
    assert_eq!(
        render_human(&report),
        "PolicyLens scan: dir\n  1 resource(s), 0 edge(s), 0 unresolved attribute(s)\n\n\
         No cross-resource attack chains found.\n"
    );
}

#[test]
fn every_hop_of_a_longer_step_is_reported() {
    let text = r#"
resource "aws_a" "first" { next = aws_b.middle.id }
resource "aws_b" "middle" { next = aws_c.last.id }
resource "aws_c" "last" {}
"#;
    let g = graph_of("main.tf", text);
    let mut steps = edge("References", None);
    if let PathStep::Edge(step) = &mut steps {
        step.edge.max_hops = 3;
    }
    let rules = vec![rule(
        "wiring",
        "Wiring",
        Severity::Low,
        3,
        vec![node("aws_a", None), steps, node("aws_c", None)],
    )];
    let findings = run_rules(&g, &rules);
    assert_eq!(findings.len(), 1);
    assert_eq!(findings[0].node_ids, vec!["aws_a.first", "aws_c.last"]);
    assert_eq!(findings[0].edges, vec![0, 1]);
    let report = build_report("dir", &g, &rules, &findings);
    let f = &report.findings[0];
    assert_eq!(f.chain_length_hops, 2);
    assert_eq!(f.nodes[0].kind, "Other(\"aws_a\")");
    assert_eq!(f.severity.score, 25);
    let text = render_human(&report);
    assert!(text.contains("--[References]--> aws_b.middle"));
    assert!(text.contains("--[References]--> aws_c.last"));
}

#[test]
fn hops_stay_within_the_bounds_of_the_step_and_the_rule() {
    let text = r#"
resource "aws_a" "n0" { next = aws_a.n1.id }
resource "aws_a" "n1" { next = aws_a.n2.id }
resource "aws_a" "n2" { next = aws_a.n3.id }
resource "aws_a" "n3" {}
"#;
    let g = graph_of("main.tf", text);
    let run = |min: usize, max: usize, total: usize| -> Vec<usize> {
        let mut steps = edge("References", None);
        if let PathStep::Edge(step) = &mut steps {
            step.edge.min_hops = min;
            step.edge.max_hops = max;
        }
        let path = vec![node("aws_a", None), steps, node("aws_a", None)];
        let rules = vec![rule("r", "R", Severity::Low, total, path)];
        run_rules(&g, &rules).into_iter().map(|f| f.edges.len()).collect()
    };
    assert_eq!(run(1, 1, 1), vec![1, 1, 1]);
    assert_eq!(run(2, 3, 3), vec![2, 3, 2]);
    assert_eq!(run(1, 3, 2), vec![1, 2, 1, 2, 1]);
    assert_eq!(run(0, 1, 1), vec![1, 1, 1]);
    assert_eq!(run(1, 1, 0), Vec::<usize>::new());
}

#[test]
fn the_worst_chains_come_first_and_equal_ones_keep_their_order() {
    let text = r#"
resource "aws_a" "x" { to = aws_b.y.id }
resource "aws_b" "y" {}
"#;
    let g = graph_of("main.tf", text);
    let path = || vec![node("aws_a", None), edge("References", None), node("aws_b", None)];
    let rules = vec![
        rule("low", "L", Severity::Low, 1, path()),
        rule("first", "F", Severity::Critical, 1, path()),
        rule("middle", "M", Severity::Medium, 1, path()),
        rule("second", "S", Severity::Critical, 1, path()),
        rule("high", "H", Severity::High, 1, path()),
    ];
    let findings = run_rules(&g, &rules);
    let report = build_report("dir", &g, &rules, &findings);
    let order: Vec<_> = report.findings.iter().map(|f| f.rule_id.as_str()).collect();
    assert_eq!(order, vec!["first", "second", "high", "middle", "low"]);
    assert_eq!(
        report.summary.by_severity,
        vec![
            ("CRITICAL".to_string(), 2),
            ("HIGH".to_string(), 1),
            ("LOW".to_string(), 1),
            ("MEDIUM".to_string(), 1),
        ]
    );
    let total: usize = report.summary.by_severity.iter().map(|c| c.1).sum();
    assert_eq!(total, report.summary.total_findings);
}

#[test]
fn scores_follow_the_formula() {
    let g = graph_of("main.tf", "resource \"aws_a\" \"x\" {}\n");
    let score = |severity: Severity, edges: usize| score_finding(&g, severity, &vec![0], edges);
    assert_eq!(score(Severity::Critical, 1).total, 90);
    assert_eq!(score(Severity::Critical, 0).total, 90);
    assert_eq!(score(Severity::High, 2).total, 65);
    assert_eq!(score(Severity::Medium, 3).total, 40);
    assert_eq!(score(Severity::Low, 5).total, 10);
    assert_eq!(score(Severity::Low, 500).total, 10);
    assert_eq!(score(Severity::Low, 500).hop_penalty, 20);
    assert_eq!(score(Severity::High, 2).label, SeverityLabel::High);
    assert_eq!(label_for(84), SeverityLabel::High);
    assert_eq!(label_for(85), SeverityLabel::Critical);
    assert_eq!(label_for(64), SeverityLabel::Medium);
    assert_eq!(label_for(39), SeverityLabel::Low);
    assert_eq!(SeverityLabel::Critical.text(), "CRITICAL");
}

#[test]
fn a_score_never_exceeds_a_hundred() {
    let text = r#"
resource "aws_s3_bucket" "b" { tags = { SENSITIVE = "Yes" } }
resource "aws_s3_bucket_acl" "b" {
  bucket = aws_s3_bucket.b.id
  acl    = "public-read-write"
}
"#;
    let g = graph_of("main.tf", text);
    let s = score_finding(&g, Severity::Critical, &vec![0], 1);
    assert_eq!(s.sensitivity_bonus, 10);
    assert_eq!(s.exposure_bonus, 8);
    assert_eq!(s.total, 100);
    assert!(s.explanation.ends_with("= 100 -> CRITICAL"));
}

fn bad(path: Vec<PathStep>) -> Rule {
    rule("bad", "bad", Severity::Low, 1, path)
}

#[test]
fn rejects_path_not_starting_with_node() {
    let r = bad(vec![edge("References", None), node("S3Bucket", None)]);
    assert!(can_validate(&r));
    let err = RuleSet::parse_one(Ok(r)).unwrap_err();
    assert!(matches!(err, RuleLoadError::PathMustStartAndEndWithNode { .. }));
    assert_eq!(err.message(), "rule `bad`: path must start and end with a `node` step");
}

#[test]
fn rejects_non_alternating_path() {
    let r = bad(vec![node("S3Bucket", None), node("IamRole", None)]);
    assert!(can_validate(&r));
    let err = RuleSet::parse_one(Ok(r)).unwrap_err();
    assert!(matches!(err, RuleLoadError::PathMustAlternate { .. }));
}

#[test]
fn rejects_max_total_hops_too_small() {
    let mut steps = edge("References", None);
    if let PathStep::Edge(step) = &mut steps {
        step.edge.min_hops = 2;
        step.edge.max_hops = 3;
    }
    let r = bad(vec![node("S3Bucket", None), steps, node("IamRole", None)]);
    assert!(can_validate(&r));
    let err = RuleSet::parse_one(Ok(r)).unwrap_err();
    assert!(matches!(err, RuleLoadError::MaxTotalHopsTooSmall { total: 1, min_required: 2, .. }));
    assert_eq!(
        err.message(),
        "rule `bad`: max_total_hops (1) is smaller than the path's own minimum hop count (2) -- \
         this rule could never match"
    );
}

#[test]
fn rejects_empty_paths_bad_ranges_and_unreadable_texts() {
    assert!(matches!(validate(&bad(vec![])), Err(RuleLoadError::PathEmpty { .. })));
    let mut steps = edge("References", None);
    if let PathStep::Edge(step) = &mut steps {
        step.edge.min_hops = 2;
    }
    let r = bad(vec![node("S3Bucket", None), steps, node("IamRole", None)]);
    match validate(&r) {
        Err(e) => {
            assert!(matches!(e, RuleLoadError::InvalidHopRange { min: 2, max: 1, .. }));
            assert_eq!(e.message(), "rule `bad`: edge step has min_hops (2) > max_hops (1)");
        }
        Ok(()) => panic!("the range is bad"),
    }
    let err = RuleSet::parse_one(Err("no id".to_string())).unwrap_err();
    assert_eq!(err.message(), "failed to parse rule YAML: no id");
}

#[test]
fn hops_that_cannot_be_counted_are_told_apart() {
    let far = || {
        let mut steps = edge("References", None);
        if let PathStep::Edge(step) = &mut steps {
            step.edge.min_hops = usize::MAX;
            step.edge.max_hops = usize::MAX;
        }
        steps
    };
    let one_step = bad(vec![node("A", None), far(), node("B", None)]);
    assert!(can_validate(&one_step));
    let two_steps = bad(vec![node("A", None), far(), node("B", None), far(), node("C", None)]);
    assert!(!can_validate(&two_steps));
}

#[test]
fn a_bad_condition_is_an_error_where_it_is_looked_at() {
    let text = "resource \"aws_a\" \"x\" {}\n";
    let g = graph_of("main.tf", text);
    let rules = vec![rule("r", "R", Severity::Low, 1, vec![node("aws_a", Some("nonsense"))])];
    match try_run_rules(&g, &rules) {
        Err(e) => assert_eq!(
            e.message(),
            "invalid where-clause `nonsense`: could not parse clause `nonsense` (should have been \
             caught at rule load time)"
        ),
        Ok(_) => panic!("the condition is bad"),
    }
    assert!(scan_graph("dir", &g, &rules).is_err());

    // The second edge step is never looked at: no chain gets that far.
    let unreached = vec![rule(
        "r",
        "R",
        Severity::Low,
        2,
        vec![
            node("aws_a", None),
            edge("References", None),
            node("aws_b", None),
            edge("References", Some("nonsense")),
            node("aws_c", None),
        ],
    )];
    assert_eq!(try_run_rules(&g, &unreached).unwrap().len(), 0);
}

#[test]
fn a_scan_that_can_go_no_further_says_why() {
    let twice = vec![
        file("a.tf", "resource \"aws_a\" \"x\" {}\n"),
        file("b.tf", "resource \"aws_a\" \"x\" {}\n"),
    ];
    assert!(matches!(load_graph(&twice), Err(ScanError::Graph(_))));
    let taken = vec![file("a.tf", "resource \"aws_s3_bucket\" \"x\" { _derived = 1 }\n")];
    let mut g = match load_graph(&taken) {
        Ok(g) => g,
        Err(e) => panic!("should build: {e:?}"),
    };
    assert!(matches!(classify_graph(&mut g), Err(ScanError::Unclassifiable)));
    assert_eq!(g.node("aws_s3_bucket.x").unwrap().attrs.get("_derived").unwrap().as_i64(), Some(1));
}
