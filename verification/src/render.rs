//! Rendering the classified collections as delimiter-separated text.
//!
//! Each road becomes one line; lines are joined with a CRLF terminator
//! between entries, with no leading or trailing terminator. The delimiter is
//! caller-supplied and not validated.

use vstd::prelude::*;
use crate::types::{GridPosition, pos_key, pos_keys, spec_pos_text};
use crate::classify::{RoadView, FinalizedGridPositon, finalized_keys, ProcessedRoad,
    processed_road_view, UnprocessedRoad, unprocessed_road_view, ProcessedRoadNames,
    UnprocessedRoadNames, processed_views, unprocessed_views};

verus! {

/// The line terminator placed between rendered roads.
pub open spec fn crlf() -> Seq<char> {
    seq!['\r', '\n']
}

/// The text of a finalized position: a single cell renders as its own text,
/// a pair of cells as the two texts joined by a literal hyphen.
pub open spec fn spec_finalized_text(ks: Seq<(Seq<char>, nat)>) -> Seq<char> {
    if ks.len() == 1 {
        spec_pos_text(ks[0])
    } else {
        spec_pos_text(ks[0]) + seq!['-'] + spec_pos_text(ks[1])
    }
}

/// One processed line: the street name, the delimiter, the finalized
/// position's text.
pub open spec fn spec_processed_line(rv: RoadView, delim: Seq<char>) -> Seq<char> {
    rv.0 + delim + spec_finalized_text(rv.1)
}

/// The positions of an unprocessed road, each rendered individually, joined
/// by the delimiter.
pub open spec fn spec_pos_list(ks: Seq<(Seq<char>, nat)>, delim: Seq<char>) -> Seq<char>
    decreases ks.len(),
{
    if ks.len() == 0 {
        Seq::empty()
    } else if ks.len() == 1 {
        spec_pos_text(ks[0])
    } else {
        spec_pos_list(ks.drop_last(), delim) + delim + spec_pos_text(ks.last())
    }
}

/// One unprocessed line: the street name, the delimiter, then every position
/// separated by the same delimiter.
pub open spec fn spec_unprocessed_line(rv: RoadView, delim: Seq<char>) -> Seq<char> {
    rv.0 + delim + spec_pos_list(rv.1, delim)
}

/// The full processed text: one line per road, CRLF between lines, no
/// leading or trailing terminator; empty for an empty collection.
pub open spec fn spec_processed_csv(rs: Seq<RoadView>, delim: Seq<char>) -> Seq<char>
    decreases rs.len(),
{
    if rs.len() == 0 {
        Seq::empty()
    } else if rs.len() == 1 {
        spec_processed_line(rs[0], delim)
    } else {
        spec_processed_csv(rs.drop_last(), delim) + crlf() + spec_processed_line(rs.last(), delim)
    }
}

/// The full unprocessed text, joined like the processed text.
pub open spec fn spec_unprocessed_csv(rs: Seq<RoadView>, delim: Seq<char>) -> Seq<char>
    decreases rs.len(),
{
    if rs.len() == 0 {
        Seq::empty()
    } else if rs.len() == 1 {
        spec_unprocessed_line(rs[0], delim)
    } else {
        spec_unprocessed_csv(rs.drop_last(), delim) + crlf() + spec_unprocessed_line(
            rs.last(),
            delim,
        )
    }
}

impl FinalizedGridPositon {
    /// Renders the finalized position: "A9" for a single cell, "A9-I5" for
    /// two cells.
    pub fn render(&self) -> (r: String)
        ensures
            r@ == spec_finalized_text(finalized_keys(*self)),
    {
        match self {
            FinalizedGridPositon::SingleRect(p) => {
                let r = p.render();
                proof {
                    assert(finalized_keys(*self)[0] == pos_key(*p));
                }
                r
            },
            FinalizedGridPositon::TwoRect(a, b) => {
                let mut s = a.render();
                s.append("-");
                let t = b.render();
                s.append(t.as_str());
                proof {
                    reveal_strlit("-");
                    assert(finalized_keys(*self)[0] == pos_key(*a));
                    assert(finalized_keys(*self)[1] == pos_key(*b));
                    assert(s@ =~= spec_finalized_text(finalized_keys(*self)));
                }
                s
            },
        }
    }
}

impl ProcessedRoadNames {
    /// Renders every processed road as
    /// `"{street_name}{delimiter}{finalized_position_text}"`, the lines
    /// joined by CRLF with no trailing terminator.
    pub fn to_csv(&self, delimiter: &str) -> (r: String)
        ensures
            r@ == spec_processed_csv(processed_views(self.processed@), delimiter@),
    {
        let mut out = String::new();
        let mut i: usize = 0;
        while i < self.processed.len()
            invariant
                i <= self.processed.len(),
                out@ == spec_processed_csv(
                    processed_views(self.processed@.take(i as int)),
                    delimiter@,
                ),
            decreases self.processed.len() - i,
        {
            if i > 0 {
                out.append("\r\n");
            }
            let road = &self.processed[i];
            out.append(road.name.0.as_str());
            out.append(delimiter);
            let t = road.position.render();
            out.append(t.as_str());
            proof {
                reveal_strlit("\r\n");
                assert("\r\n"@ =~= crlf());
                let views1 = processed_views(self.processed@.take(i + 1 as int));
                assert(views1.drop_last() =~= processed_views(self.processed@.take(i as int)));
                assert(views1.last() == processed_road_view(self.processed@[i as int]));
                assert(out@ =~= spec_processed_csv(views1, delimiter@));
            }
            i += 1;
        }
        proof {
            assert(self.processed@.take(self.processed@.len() as int) =~= self.processed@);
        }
        out
    }
}

/// Renders a road's positions, each separated by the delimiter.
fn render_pos_list(ps: &Vec<GridPosition>, delimiter: &str) -> (r: String)
    ensures
        r@ == spec_pos_list(pos_keys(ps@), delimiter@),
{
    let ghost keys = pos_keys(ps@);
    let mut out = String::new();
    let mut j: usize = 0;
    while j < ps.len()
        invariant
            j <= ps.len(),
            keys == pos_keys(ps@),
            out@ == spec_pos_list(keys.take(j as int), delimiter@),
        decreases ps.len() - j,
    {
        if j > 0 {
            out.append(delimiter);
        }
        let t = ps[j].render();
        out.append(t.as_str());
        proof {
            assert(keys.take(j + 1 as int).drop_last() =~= keys.take(j as int));
            assert(keys.take(j + 1 as int).last() == pos_key(ps@[j as int]));
            assert(out@ =~= spec_pos_list(keys.take(j + 1 as int), delimiter@));
        }
        j += 1;
    }
    proof {
        assert(keys.take(keys.len() as int) =~= keys);
    }
    out
}

impl UnprocessedRoadNames {
    /// Renders every unprocessed road as the street name followed by each of
    /// its positions, all separated by the delimiter, the lines joined by
    /// CRLF with no trailing terminator.
    pub fn to_csv(&self, delimiter: &str) -> (r: String)
        ensures
            r@ == spec_unprocessed_csv(unprocessed_views(self.unprocessed@), delimiter@),
    {
        let mut out = String::new();
        let mut i: usize = 0;
        while i < self.unprocessed.len()
            invariant
                i <= self.unprocessed.len(),
                out@ == spec_unprocessed_csv(
                    unprocessed_views(self.unprocessed@.take(i as int)),
                    delimiter@,
                ),
            decreases self.unprocessed.len() - i,
        {
            if i > 0 {
                out.append("\r\n");
            }
            let road = &self.unprocessed[i];
            out.append(road.name.0.as_str());
            out.append(delimiter);
            let t = render_pos_list(&road.positions, delimiter);
            out.append(t.as_str());
            proof {
                reveal_strlit("\r\n");
                assert("\r\n"@ =~= crlf());
                let views1 = unprocessed_views(self.unprocessed@.take(i + 1 as int));
                assert(views1.drop_last() =~= unprocessed_views(
                    self.unprocessed@.take(i as int),
                ));
                assert(views1.last() == unprocessed_road_view(self.unprocessed@[i as int]));
                assert(out@ =~= spec_unprocessed_csv(views1, delimiter@));
            }
            i += 1;
        }
        proof {
            assert(self.unprocessed@.take(self.unprocessed@.len() as int) =~= self.unprocessed@);
        }
        out
    }
}

} // verus!
