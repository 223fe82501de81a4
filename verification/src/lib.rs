//! Static analysis of Terraform configurations for attack chains that span several resources.
//!
//! A scan goes through four stages. `parser` and `graph` turn source into a graph of resources and
//! the references between them; `classify` adds what the graph means; `matcher` finds the chains
//! that rules describe; `scoring` and `report` say how severe each is and where it comes from.
//!
//! The `laws_` modules state what the stages come to, in terms of what they are given and what they
//! give.

pub mod actions;
pub mod attrs;
pub mod chains;
pub mod classify;
pub mod conditions;
pub mod digraph;
pub mod embedded;
pub mod expr;
pub mod facts;
pub mod files;
pub mod grants;
pub mod graph;
pub mod json;
pub mod laws_conditions;
pub mod laws_facts;
pub mod laws_files;
pub mod laws_grants;
pub mod laws_graph;
pub mod laws_matching;
pub mod laws_parsing;
pub mod laws_reach;
pub mod laws_references;
pub mod laws_report;
pub mod laws_rules;
pub mod laws_text;
pub mod laws_values;
pub mod lexical;
pub mod links;
pub mod matcher;
pub mod parser;
pub mod predicate;
pub mod reach;
pub mod rendering;
pub mod report;
pub mod rule;
pub mod scan;
pub mod scoring;
pub mod syntax;
pub mod text;
pub mod types;
