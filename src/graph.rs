use std::collections::HashMap;
use vstd::prelude::*;

verus! {

broadcast use vstd::std_specs::hash::group_hash_axioms;

/// Identifier of a radio node.
pub type NodeId = u32;

/// Weight of a directed link, lower is better. `Some(w)` stands for
/// `w / WEIGHT_RANGE` hops (see `crate::pathfinding`); `None` marks an
/// unusable link, of infinite weight.
pub type EdgeWeight = Option<i64>;

/// For each receiving node, the weight of the link from each transmitter it
/// heard. Links are directional: `w(to, from)` need not equal `w(from, to)`.
pub struct AdjacencyMap {
    receivers: Vec<NodeId>,
    links: HashMap<NodeId, HashMap<NodeId, EdgeWeight>>,
}

impl View for AdjacencyMap {
    type V = Map<NodeId, Map<NodeId, EdgeWeight>>;

    closed spec fn view(&self) -> Map<NodeId, Map<NodeId, EdgeWeight>> {
        Map::new(|k: NodeId| self.links@.contains_key(k), |k: NodeId| self.links@[k]@)
    }
}

impl AdjacencyMap {
    pub closed spec fn wf(&self) -> bool {
        &&& self.receivers@.no_duplicates()
        &&& forall|k: NodeId| self.links@.contains_key(k) <==> self.receivers@.contains(k)
    }

    pub fn new() -> (r: AdjacencyMap)
        ensures
            r.wf(),
            r@ == Map::<NodeId, Map<NodeId, EdgeWeight>>::empty(),
    {
        let r = AdjacencyMap { receivers: Vec::new(), links: HashMap::new() };
        assert(r@ =~= Map::<NodeId, Map<NodeId, EdgeWeight>>::empty());
        r
    }

    pub fn contains_node(&self, node: NodeId) -> (r: bool)
        requires
            self.wf(),
        ensures
            r == self@.contains_key(node),
    {
        self.links.contains_key(&node)
    }

    /// Makes `node` a receiver of the map, with no links yet if it was not
    /// one already.
    pub fn add_node(&mut self, node: NodeId)
        requires
            old(self).wf(),
        ensures
            final(self).wf(),
            final(self)@ == (if old(self)@.contains_key(node) {
                old(self)@
            } else {
                old(self)@.insert(node, Map::empty())
            }),
    {
        if !self.links.contains_key(&node) {
            let inner: HashMap<NodeId, EdgeWeight> = HashMap::new();
            self.links.insert(node, inner);
            self.receivers.push(node);
            proof {
                assert(!old(self).receivers@.contains(node));
                assert forall|i: int, j: int|
                    0 <= i < self.receivers@.len() && 0 <= j < self.receivers@.len() && i != j
                        implies self.receivers@[i] != self.receivers@[j] by {
                    let n = old(self).receivers@.len() as int;
                    if i < n && j < n {
                        assert(old(self).receivers@[i] != old(self).receivers@[j]);
                    } else if i < n {
                        assert(old(self).receivers@.contains(self.receivers@[i]));
                    } else if j < n {
                        assert(old(self).receivers@.contains(self.receivers@[j]));
                    }
                };
                assert forall|k: NodeId| self.links@.contains_key(k) <==> self.receivers@.contains(
                    k,
                ) by {
                    if k != node {
                        assert(old(self).receivers@.contains(k) ==> self.receivers@.contains(k))
                            by {
                            if old(self).receivers@.contains(k) {
                                let i = old(self).receivers@.index_of(k);
                                assert(self.receivers@[i] == k);
                            }
                        };
                        assert(self.receivers@.contains(k) ==> old(self).receivers@.contains(k))
                            by {
                            if self.receivers@.contains(k) {
                                let i = self.receivers@.index_of(k);
                                assert(old(self).receivers@[i] == k);
                            }
                        };
                    } else {
                        assert(self.receivers@[self.receivers@.len() - 1] == node);
                    }
                };
            }
            assert(self@ =~= old(self)@.insert(node, Map::empty()));
        }
    }

    /// Records the weight of the link from `from` as heard by `to`,
    /// replacing an earlier one.
    pub fn set_link(&mut self, to: NodeId, from: NodeId, weight: EdgeWeight)
        requires
            old(self).wf(),
        ensures
            final(self).wf(),
            final(self)@ == old(self)@.insert(
                to,
                (if old(self)@.contains_key(to) {
                    old(self)@[to]
                } else {
                    Map::empty()
                }).insert(from, weight),
            ),
    {
        self.add_node(to);
        let ghost mid = self@;
        let removed = self.links.remove(&to);
        let mut inner = match removed {
            Some(m) => m,
            None => HashMap::new(),
        };
        assert(inner@ == mid[to]);
        inner.insert(from, weight);
        self.links.insert(to, inner);
        assert(forall|k: NodeId| self.links@.contains_key(k) <==> mid.contains_key(k));
        assert(self@ =~= mid.insert(to, mid[to].insert(from, weight)));
    }

    /// The weight of the link from `from` as heard by `to`, if it was heard.
    pub fn weight(&self, to: NodeId, from: NodeId) -> (r: Option<EdgeWeight>)
        requires
            self.wf(),
        ensures
            r == (if self@.contains_key(to) && self@[to].contains_key(from) {
                Some(self@[to][from])
            } else {
                None
            }),
    {
        match self.links.get(&to) {
            Some(inner) => match inner.get(&from) {
                Some(w) => Some(*w),
                None => None,
            },
            None => None,
        }
    }

    /// The receiving nodes, each once, in the order they were added.
    pub fn nodes(&self) -> (r: &Vec<NodeId>)
        requires
            self.wf(),
        ensures
            r@.no_duplicates(),
            forall|k: NodeId| self@.contains_key(k) <==> r@.contains(k),
    {
        &self.receivers
    }
}

} // verus!
