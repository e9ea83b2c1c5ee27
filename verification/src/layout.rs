use vstd::prelude::*;

use crate::store::CartographyEngine;
use crate::store::resolve_id;

verus! {

/// One node's seat in the deterministic initial placement of the
/// force-directed layout: the node at position `i` of the list is seated
/// at angle `i * tau / max(count, 1)` on a circle of radius one hundred,
/// with a pseudo-random depth that is a fixed function of `i`; a fixed
/// seed is pinned to the origin and excluded from force updates.
pub struct LayoutSeed {
    pub id: String,
    pub fixed: bool,
}

impl CartographyEngine {
    /// The deterministic seeding of the layout: one seed per node, in
    /// handle order; a seed is fixed exactly when the given center id
    /// resolves to its handle. The placement itself is a function of each
    /// seed's position in this list alone, so the list determines the
    /// whole initial layout.
    pub fn layout_seeds(&self, center_node_id: Option<&str>) -> (r: Vec<LayoutSeed>)
        requires
            self.wf(),
        ensures
            r@.len() == self.nodes@.len(),
            forall|i: int|
                0 <= i < r@.len() ==> (#[trigger] r@[i]).id@ == self.nodes@[i].id@ && (r@[i].fixed
                    <==> (center_node_id matches Some(c) && resolve_id(self.nodes@, c@) == Some(
                    i,
                ))),
    {
        let center: Option<usize> = match center_node_id {
            Some(c) => self.lookup(c),
            None => None,
        };
        let mut r: Vec<LayoutSeed> = Vec::new();
        let mut i: usize = 0;
        while i < self.nodes.len()
            invariant
                self.wf(),
                i <= self.nodes@.len(),
                r@.len() == i,
                match center_node_id {
                    Some(c) => match center {
                        Some(h) => resolve_id(self.nodes@, c@) == Some(h as int),
                        None => resolve_id(self.nodes@, c@) is None,
                    },
                    None => center is None,
                },
                forall|j: int|
                    0 <= j < i ==> (#[trigger] r@[j]).id@ == self.nodes@[j].id@ && (r@[j].fixed
                        <==> (center_node_id matches Some(c) && resolve_id(self.nodes@, c@)
                        == Some(j))),
            decreases self.nodes@.len() - i,
        {
            let fixed = match center {
                Some(h) => h == i,
                None => false,
            };
            let id = self.nodes[i].id.clone();
            r.push(LayoutSeed { id, fixed });
            i = i + 1;
        }
        r
    }
}

} // verus!
