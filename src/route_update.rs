use std::collections::HashMap;
use vstd::prelude::*;
use crate::command::{Command, LinkReport, SignalData};
use crate::graph::{AdjacencyMap, EdgeWeight, NodeId};
use crate::pathfinding::{compute_edge_weight_proportionalised, compute_next_hops_map, next_hops, scaled_edge_weight};
use crate::settings::AppSettings;

verus! {

/// `links` with each report's weight recorded in turn, a later report of a
/// transmitter replacing an earlier one.
pub open spec fn with_links(links: Map<NodeId, EdgeWeight>, reports: Seq<LinkReport>) -> Map<
    NodeId,
    EdgeWeight,
>
    decreases reports.len(),
{
    if reports.len() == 0 {
        links
    } else {
        with_links(links, reports.drop_last()).insert(
            reports.last().from,
            scaled_edge_weight(reports.last().rssi, reports.last().snr),
        )
    }
}

/// The graph after taking in one node's signal report.
pub open spec fn with_signal(
    adj: Map<NodeId, Map<NodeId, EdgeWeight>>,
    data: SignalData,
) -> Map<NodeId, Map<NodeId, EdgeWeight>> {
    let current = if adj.contains_key(data.to) {
        adj[data.to]
    } else {
        Map::empty()
    };
    adj.insert(data.to, with_links(current, data.links@))
}

/// Builds the link graph of the mesh from the signal reports that arrive
/// during a route update.
pub struct SignalCollector {
    adjacency: AdjacencyMap,
    gateway_ids: Vec<NodeId>,
}

impl SignalCollector {
    pub closed spec fn wf(&self) -> bool {
        self.adjacency.wf()
    }

    /// The links collected so far.
    pub closed spec fn graph(&self) -> Map<NodeId, Map<NodeId, EdgeWeight>> {
        self.adjacency@
    }

    /// The gateways reported so far, once per report.
    pub closed spec fn gateways(&self) -> Seq<NodeId> {
        self.gateway_ids@
    }

    pub fn new() -> (r: SignalCollector)
        ensures
            r.wf(),
            r.graph() == Map::<NodeId, Map<NodeId, EdgeWeight>>::empty(),
            r.gateways() == Seq::<NodeId>::empty(),
    {
        SignalCollector { adjacency: AdjacencyMap::new(), gateway_ids: Vec::new() }
    }

    /// Takes in one signal report: its node becomes a receiver of the graph,
    /// a gateway if it says so, and hears each reported link with the
    /// weight of its signal.
    pub fn add_signal_data(&mut self, data: &SignalData)
        requires
            old(self).wf(),
        ensures
            final(self).wf(),
            final(self).graph() == with_signal(old(self).graph(), *data),
            final(self).gateways() == (if data.is_gateway {
                old(self).gateways().push(data.to)
            } else {
                old(self).gateways()
            }),
    {
        if data.is_gateway {
            self.gateway_ids.push(data.to);
        }
        self.adjacency.add_node(data.to);
        let ghost start = if old(self).adjacency@.contains_key(data.to) {
            old(self).adjacency@[data.to]
        } else {
            Map::empty()
        };
        let mut i: usize = 0;
        while i < data.links.len()
            invariant
                self.adjacency.wf(),
                self.gateway_ids@ == (if data.is_gateway {
                    old(self).gateway_ids@.push(data.to)
                } else {
                    old(self).gateway_ids@
                }),
                i <= data.links@.len(),
                self.adjacency@ == old(self).adjacency@.insert(
                    data.to,
                    with_links(start, data.links@.subrange(0, i as int)),
                ),
            decreases data.links@.len() - i,
        {
            let link = data.links[i];
            let weight = compute_edge_weight_proportionalised(link.rssi, link.snr);
            self.adjacency.set_link(data.to, link.from, weight);
            assert(data.links@.subrange(0, i + 1).drop_last() =~= data.links@.subrange(0, i as int));
            i = i + 1;
        }
        assert(data.links@.subrange(0, data.links@.len() as int) =~= data.links@);
    }

    /// Takes in `message` if it is a signal report, and ignores it otherwise.
    pub fn collect<T>(&mut self, message: &Command<T>)
        requires
            old(self).wf(),
        ensures
            final(self).wf(),
            match *message {
                Command::SignalData(data) => final(self).graph() == with_signal(
                    old(self).graph(),
                    data,
                ) && final(self).gateways() == (if data.is_gateway {
                    old(self).gateways().push(data.to)
                } else {
                    old(self).gateways()
                }),
                _ => final(self).graph() == old(self).graph() && final(self).gateways() == old(
                    self,
                ).gateways(),
            },
    {
        match message {
            Command::SignalData(data) => self.add_signal_data(data),
            _ => {},
        }
    }

    /// The next-hop table of the graph collected so far.
    pub fn next_hops(&self, settings: &AppSettings) -> (r: HashMap<NodeId, Vec<NodeId>>)
        requires
            self.wf(),
        ensures
            r@.dom() == next_hops(self.graph(), self.gateways(), *settings).dom(),
            forall|v: NodeId| #[trigger]
                r@.contains_key(v) ==> r@[v]@ == next_hops(self.graph(), self.gateways(), *settings)[v],
    {
        compute_next_hops_map(settings, &self.adjacency, &self.gateway_ids)
    }
}

} // verus!
