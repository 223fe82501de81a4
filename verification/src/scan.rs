//! A scan, stage by stage: from files to a graph, to what the graph means, to a report. Each stage
//! takes whatever the one before gives, and says where it can go no further.

use crate::classify::{can_classify, classifiable, classified, classify};
use crate::graph::{
    GraphBuildError,
    IacGraph,
    all_distinct,
    build_graph,
    can_build,
    file_views,
    first_duplicate,
    graph_of,
    resources,
    within_limits,
};
use crate::matcher::{
    BadWhere,
    all_compile,
    all_findings,
    all_linear,
    is_bad_where,
    try_run_rules,
};
use crate::parser::ParsedFile;
use crate::report::{
    Report,
    build_report,
    law_findings_can_be_reported,
    law_report_can_be_rendered,
    report_of,
};
use crate::rule::Rule;
use vstd::prelude::*;

verus! {

/// Why a scan can go no further.
#[derive(Debug)]
pub enum ScanError {
    /// The files declare no graph.
    Graph(GraphBuildError),
    /// The graph of the files has more nodes or edges than there are positions for.
    TooLarge,
    /// The graph cannot be classified: something stands in the way of a fact, or there are more
    /// edges than there are positions for.
    Unclassifiable,
}

/// Builds the graph of the resources that some files declare.
pub fn load_graph(files: &Vec<ParsedFile>) -> (r: Result<IacGraph, ScanError>)
    ensures
        ({
            let rs = resources(file_views(files@));
            match r {
                Ok(graph) => within_limits(rs) && all_distinct(rs) && graph.wf() && graph@
                    == graph_of(rs),
                Err(ScanError::TooLarge) => !within_limits(rs),
                Err(ScanError::Graph(
                    GraphBuildError::DuplicateResource { id, first_file, second_file },
                )) => within_limits(rs) && exists|i: int, j: int| #[trigger]
                    first_duplicate(rs, i, j) && id@ == rs[i].id() && first_file@ == rs[i].file
                        && second_file@ == rs[j].file,
                Err(ScanError::Unclassifiable) => false,
            }
        }),
{
    if !can_build(files) {
        return Err(ScanError::TooLarge);
    }
    match build_graph(files) {
        Ok(graph) => Ok(graph),
        Err(e) => Err(ScanError::Graph(e)),
    }
}

/// Adds to a graph the facts about its nodes and the edges that follow from what it means, or
/// leaves it as it is.
pub fn classify_graph(graph: &mut IacGraph) -> (r: Result<(), ScanError>)
    requires
        old(graph).wf(),
    ensures
        final(graph).wf(),
        match r {
            Ok(_) => classifiable(old(graph)@) && final(graph)@ == classified(old(graph)@),
            Err(e) => e is Unclassifiable && !classifiable(old(graph)@) && *final(graph) == *old(
                graph,
            ),
        },
{
    if !can_classify(graph) {
        return Err(ScanError::Unclassifiable);
    }
    classify(graph);
    Ok(())
}

/// Reports the chains of a graph that some rules describe. The report can be rendered.
pub fn scan_graph(directory: &str, graph: &IacGraph, rules: &Vec<Rule>) -> (r: Result<
    Report,
    BadWhere,
>)
    requires
        graph.wf(),
        all_linear(rules@),
    ensures
        match r {
            Ok(report) => {
                &&& all_compile(graph@, rules@)
                &&& report@ == report_of(
                    directory@,
                    graph@,
                    graph.unresolved_node_count as nat,
                    rules@,
                    all_findings(graph@, rules@, rules@.len()),
                )
                &&& forall|i: int|
                    0 <= i < report@.findings.len() ==> (
                    #[trigger] report@.findings[i]).nodes.len() > 0
            },
            Err(bad) => !all_compile(graph@, rules@) && is_bad_where(graph@, rules@, bad),
        },
{
    let findings = match try_run_rules(graph, rules) {
        Ok(findings) => findings,
        Err(bad) => {
            return Err(bad);
        },
    };
    proof {
        let list = all_findings(graph@, rules@, rules@.len());
        law_findings_can_be_reported(graph@, rules@, rules@.len());
        law_report_can_be_rendered(graph@, rules@, list, list.len());
    }
    Ok(build_report(directory, graph, rules, &findings))
}

} // verus!
