//! Edges that are still to be added to a graph.

use crate::graph::LinkView;
use crate::types::Edge;
use vstd::prelude::*;

verus! {

/// An edge that is still to be added.
pub struct NewLink {
    pub from: usize,
    pub to: usize,
    pub edge: Edge,
}

impl View for NewLink {
    type V = LinkView;

    open spec fn view(&self) -> LinkView {
        LinkView { from: self.from as int, to: self.to as int, edge: self.edge@ }
    }
}

/// The contents of some new edges.
pub open spec fn new_views(list: Seq<NewLink>) -> Seq<LinkView> {
    list.map_values(|l: NewLink| l@)
}

/// Whether new edges join nodes of a graph with `n` nodes.
pub open spec fn all_within(list: Seq<NewLink>, n: nat) -> bool {
    forall|i: int| 0 <= i < list.len() ==> (#[trigger] list[i]).from < n && list[i].to < n
}

} // verus!
