//! Splitting the grouping into roads that span one or two grid cells and
//! roads that span three or more.
//!
//! Classification is stated over the mathematical view of the grouping: a
//! sequence of (name, position keys) pairs. A group of one or two positions
//! becomes a processed road, a group of three or more an unprocessed road,
//! and an empty group contributes to neither.

use vstd::prelude::*;
use crate::types::{StreetName, GridPosition, pos_key, pos_keys};
use crate::dedup::{RoadGroup, DeduplicatedRoads};

verus! {

/// The mathematical view of one road: the street name's characters and the
/// keys of its grid positions, in their stored order.
pub type RoadView = (Seq<char>, Seq<(Seq<char>, nat)>);

/// The view of one group of the deduplicated grouping.
pub open spec fn group_view(g: RoadGroup) -> RoadView {
    (g.name.0@, pos_keys(g.positions@))
}

/// The view of the whole grouping.
pub open spec fn grouping_view(roads: Seq<RoadGroup>) -> Seq<RoadView> {
    roads.map_values(|g: RoadGroup| group_view(g))
}

/// Wrapper for grid positions of a road that spans at most two grid cells.
pub enum FinalizedGridPositon {
    /// The road is contained in a single cell, such as "A6".
    SingleRect(GridPosition),
    /// The road crosses exactly two cells, the smaller one first.
    TwoRect(GridPosition, GridPosition),
}

/// The position keys a finalized position holds: one for a single cell, two
/// for a pair of cells.
pub open spec fn finalized_keys(f: FinalizedGridPositon) -> Seq<(Seq<char>, nat)> {
    match f {
        FinalizedGridPositon::SingleRect(p) => seq![pos_key(p)],
        FinalizedGridPositon::TwoRect(a, b) => seq![pos_key(a), pos_key(b)],
    }
}

/// Road that spans one or two grid cells.
pub struct ProcessedRoad {
    pub name: StreetName,
    pub position: FinalizedGridPositon,
}

/// The view of a processed road.
pub open spec fn processed_road_view(r: ProcessedRoad) -> RoadView {
    (r.name.0@, finalized_keys(r.position))
}

/// Road that spans three or more grid cells, kept for manual review.
pub struct UnprocessedRoad {
    pub name: StreetName,
    pub positions: Vec<GridPosition>,
}

/// The view of an unprocessed road.
pub open spec fn unprocessed_road_view(r: UnprocessedRoad) -> RoadView {
    (r.name.0@, pos_keys(r.positions@))
}

/// The processed roads, ordered by street name, with a `to_csv` rendering.
pub struct ProcessedRoadNames {
    pub processed: Vec<ProcessedRoad>,
}

/// The unprocessed roads, ordered by street name, with a `to_csv` rendering.
pub struct UnprocessedRoadNames {
    pub unprocessed: Vec<UnprocessedRoad>,
}

/// The views of a sequence of processed roads.
pub open spec fn processed_views(s: Seq<ProcessedRoad>) -> Seq<RoadView> {
    s.map_values(|r: ProcessedRoad| processed_road_view(r))
}

/// The views of a sequence of unprocessed roads.
pub open spec fn unprocessed_views(s: Seq<UnprocessedRoad>) -> Seq<RoadView> {
    s.map_values(|r: UnprocessedRoad| unprocessed_road_view(r))
}

/// The partition of a grouping view: roads of one or two positions in the
/// first component, roads of three or more in the second, both in the order
/// of the grouping; empty groups are dropped.
pub open spec fn spec_classify(g: Seq<RoadView>) -> (Seq<RoadView>, Seq<RoadView>)
    decreases g.len(),
{
    if g.len() == 0 {
        (Seq::empty(), Seq::empty())
    } else {
        let rest = spec_classify(g.drop_last());
        let last = g.last();
        if last.1.len() == 0 {
            rest
        } else if last.1.len() <= 2 {
            (rest.0.push(last), rest.1)
        } else {
            (rest.0, rest.1.push(last))
        }
    }
}

impl DeduplicatedRoads {
    /// Partitions the grouping: each group of one position becomes a
    /// `SingleRect` processed road, each group of two a `TwoRect` (in the
    /// stored order), each group of three or more an unprocessed road with
    /// all its positions, and each empty group is skipped. Both outputs keep
    /// the grouping's order.
    pub fn process(&self) -> (r: (ProcessedRoadNames, UnprocessedRoadNames))
        ensures
            processed_views(r.0.processed@) == spec_classify(grouping_view(self.roads@)).0,
            unprocessed_views(r.1.unprocessed@) == spec_classify(grouping_view(self.roads@)).1,
    {
        let mut processed: Vec<ProcessedRoad> = Vec::new();
        let mut unprocessed: Vec<UnprocessedRoad> = Vec::new();
        let mut i: usize = 0;
        while i < self.roads.len()
            invariant
                i <= self.roads.len(),
                processed_views(processed@) == spec_classify(
                    grouping_view(self.roads@.take(i as int)),
                ).0,
                unprocessed_views(unprocessed@) == spec_classify(
                    grouping_view(self.roads@.take(i as int)),
                ).1,
            decreases self.roads.len() - i,
        {
            let ghost pv_old = processed_views(processed@);
            let ghost uv_old = unprocessed_views(unprocessed@);
            let grp = self.roads[i].clone();
            let ghost gv = group_view(self.roads@[i as int]);
            proof {
                assert(group_view(grp) == gv);
            }
            if grp.positions.len() == 1 {
                let mut ps = grp.positions;
                let p0 = ps.remove(0);
                processed.push(
                    ProcessedRoad {
                        name: grp.name,
                        position: FinalizedGridPositon::SingleRect(p0),
                    },
                );
                proof {
                    assert(processed_views(processed@) =~= pv_old.push(gv)) by {
                        assert(finalized_keys(FinalizedGridPositon::SingleRect(p0)) =~= gv.1);
                    }
                }
            } else if grp.positions.len() == 2 {
                let mut ps = grp.positions;
                let p1 = ps.remove(1);
                let p0 = ps.remove(0);
                processed.push(
                    ProcessedRoad {
                        name: grp.name,
                        position: FinalizedGridPositon::TwoRect(p0, p1),
                    },
                );
                proof {
                    assert(processed_views(processed@) =~= pv_old.push(gv)) by {
                        assert(finalized_keys(FinalizedGridPositon::TwoRect(p0, p1)) =~= gv.1);
                    }
                }
            } else if grp.positions.len() >= 3 {
                unprocessed.push(UnprocessedRoad { name: grp.name, positions: grp.positions });
                proof {
                    assert(unprocessed_views(unprocessed@) =~= uv_old.push(gv));
                }
            }
            proof {
                let pre = self.roads@.take(i as int);
                let cur = self.roads@.take(i + 1 as int);
                assert(grouping_view(cur).drop_last() =~= grouping_view(pre));
                assert(grouping_view(cur).last() == gv);
                assert(grouping_view(cur).len() >= 1);
            }
            i += 1;
        }
        proof {
            assert(self.roads@.take(self.roads@.len() as int) =~= self.roads@);
        }
        (ProcessedRoadNames { processed }, UnprocessedRoadNames { unprocessed })
    }
}

} // verus!
