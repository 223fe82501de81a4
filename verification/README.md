# PolicyLens

Static analysis of Terraform configurations for attack chains that span several resources: a
public bucket, a role that may write to it, and a trust policy that lets anyone assume the role.
Each part may be defensible by itself; what is reported is the chain.

The library is written in Verus. Every function states what it returns, and every statement is
proved; what is taken on trust is what outside crates do, in functions marked
`#[verifier::external_body]` whose comments say what is claimed of them.

| Stage | Modules |
| --- | --- |
| Source to graph | `files`, `lexical`, `parser`, `syntax`, `expr`, `embedded`, `json`, `graph`, `digraph`, `types` |
| What the graph means | `attrs`, `facts`, `actions`, `grants`, `reach`, `links`, `classify` |
| Rules and chains | `rule`, `predicate`, `conditions`, `matcher`, `chains` |
| Reports | `scoring`, `report`, `rendering`, `scan` |

Laws that hold of the library as a whole are public proof functions whose names begin with `law_`:
that the findings of a rule are exactly the paths of the graph that it describes
(`chains::law_findings_are_the_chains`), that a longer chain never scores higher
(`scoring::law_longer_chains_score_no_higher`), that a report gives the worst first and loses
nothing (`report::law_report_is_worst_first`), and others.

`app/` holds the command line around the library: it reads directories and YAML, and writes JSON.

    policylens scan <dir>
    policylens debug-graph <dir> [--classified]
