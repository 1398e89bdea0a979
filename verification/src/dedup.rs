//! Grouping raw street records by name, with duplicate positions removed.
//!
//! The grouping is held as a vector of road groups sorted strictly by street
//! name, each group holding its grid positions sorted strictly by the
//! position order — so every distinct (name, position) pair of the input
//! appears exactly once, and the whole grouping is determined by the set of
//! pairs alone.

use vstd::prelude::*;
use crate::order::{seq_char_lt, str_compare, lemma_seq_char_lt_trichotomy,
    lemma_seq_char_lt_transitive};
use crate::types::{StreetName, GridPosition, InputStreetValue, pos_key, pos_lt,
    lemma_pos_lt_trichotomy, lemma_pos_lt_transitive};

verus! {

/// One entry of the grouping: a street name together with its deduplicated,
/// sorted grid positions.
#[derive(Debug, PartialEq, Eq)]
pub struct RoadGroup {
    pub name: StreetName,
    pub positions: Vec<GridPosition>,
}

impl Clone for RoadGroup {
    fn clone(&self) -> (r: Self)
        ensures
            r.name == self.name,
            r.positions@ == self.positions@,
    {
        let mut positions: Vec<GridPosition> = Vec::new();
        let mut i: usize = 0;
        while i < self.positions.len()
            invariant
                i <= self.positions.len(),
                positions@ =~= self.positions@.take(i as int),
            decreases self.positions.len() - i,
        {
            positions.push(self.positions[i].clone());
            i += 1;
        }
        proof {
            assert(self.positions@.take(self.positions@.len() as int) =~= self.positions@);
        }
        RoadGroup { name: self.name.clone(), positions }
    }
}

/// Deduplicated roads: a mapping from street name to its set of grid
/// positions, sorted by street name.
#[derive(Debug, PartialEq, Eq)]
pub struct DeduplicatedRoads {
    pub roads: Vec<RoadGroup>,
}

/// The positions are sorted strictly ascending, so no position occurs twice.
pub open spec fn positions_sorted(ps: Seq<GridPosition>) -> bool {
    forall|j: int, k: int|
        0 <= j < k < ps.len() ==> pos_lt(pos_key(ps[j]), pos_key(ps[k]))
}

/// The groups are sorted strictly ascending by street name, so no street
/// name occurs twice.
pub open spec fn names_sorted(roads: Seq<RoadGroup>) -> bool {
    forall|j: int, k: int|
        0 <= j < k < roads.len()
            ==> seq_char_lt(roads[j].name.0@, roads[k].name.0@)
}

/// The positions of `ps` contain the grid cell `k`.
pub open spec fn pos_in(ps: Seq<GridPosition>, k: (Seq<char>, nat)) -> bool {
    exists|j: int| 0 <= j < ps.len() && #[trigger] pos_key(ps[j]) == k
}

/// The grouping contains the (street name, grid cell) pair `(n, k)`.
pub open spec fn grouping_has(roads: Seq<RoadGroup>, n: Seq<char>, k: (Seq<char>, nat)) -> bool {
    exists|i: int|
        #![trigger roads[i]]
        0 <= i < roads.len() && roads[i].name.0@ == n && pos_in(roads[i].positions@, k)
}

/// The input sequence contains a record with street name `n` at grid cell `k`.
pub open spec fn input_has(streets: Seq<InputStreetValue>, n: Seq<char>, k: (Seq<char>, nat)) -> bool {
    exists|i: int|
        #![trigger streets[i]]
        0 <= i < streets.len() && streets[i].street_name.0@ == n
            && pos_key(streets[i].position) == k
}

impl DeduplicatedRoads {
    /// Well-formedness of the grouping: groups strictly sorted by street
    /// name, each group's positions strictly sorted.
    pub open spec fn wf(self) -> bool {
        &&& names_sorted(self.roads@)
        &&& forall|i: int|
            0 <= i < self.roads@.len() ==> positions_sorted(#[trigger] self.roads@[i].positions@)
    }

    /// Every group holds at least one position.
    pub open spec fn groups_nonempty(self) -> bool {
        forall|i: int| 0 <= i < self.roads@.len() ==> (#[trigger] self.roads@[i].positions@.len()) >= 1
    }
}

/// Inserts a position into a sorted position vector, keeping it sorted and
/// ignoring a position already present.
#[verifier::rlimit(30)]
fn insert_position(ps: &mut Vec<GridPosition>, p: &GridPosition)
    requires
        positions_sorted(old(ps)@),
    ensures
        positions_sorted(final(ps)@),
        final(ps)@.len() >= 1,
        final(ps)@.len() >= old(ps)@.len(),
        forall|k: (Seq<char>, nat)|
            #[trigger] pos_in(final(ps)@, k) <==> (pos_in(old(ps)@, k) || k == pos_key(*p)),
{
    let mut idx: usize = 0;
    while idx < ps.len() && ps[idx].is_before(p)
        invariant
            idx <= ps.len(),
            ps@ == old(ps)@,
            forall|j: int| 0 <= j < idx ==> pos_lt(#[trigger] pos_key(ps@[j]), pos_key(*p)),
        decreases ps.len() - idx,
    {
        idx += 1;
    }
    if idx < ps.len() && ps[idx].same_cell(p) {
        // The cell is already present: witness index `idx`.
        proof {
            assert(pos_in(ps@, pos_key(*p)));
            assert(forall|k: (Seq<char>, nat)|
                pos_in(ps@, k) <==> (pos_in(old(ps)@, k) || k == pos_key(*p)));
        }
        return ;
    }
    proof {
        if idx < ps@.len() {
            lemma_pos_lt_trichotomy(pos_key(ps@[idx as int]), pos_key(*p));
            assert(pos_lt(pos_key(*p), pos_key(ps@[idx as int])));
        }
    }
    let ghost before = ps@;
    ps.insert(idx, p.clone());
    proof {
        before.insert_ensures(idx as int, *p);
        assert(ps@ == before.insert(idx as int, *p));
        // Sortedness: entries below idx are smaller than p, entries above
        // are larger by transitivity through the old entry at idx.
        assert forall|j: int, k: int|
            0 <= j < k < ps@.len() implies pos_lt(pos_key(ps@[j]), pos_key(ps@[k])) by {
            let idxi = idx as int;
            if j < idxi && k == idxi {
                assert(ps@[j] == before[j]);
            } else if j < idxi && k > idxi {
                assert(ps@[j] == before[j]);
                assert(ps@[k] == before[k - 1]);
            } else if j == idxi && k > idxi {
                assert(ps@[k] == before[k - 1]);
                assert(pos_lt(pos_key(*p), pos_key(before[idxi])));
                if k - 1 > idxi {
                    lemma_pos_lt_transitive(
                        pos_key(*p),
                        pos_key(before[idxi]),
                        pos_key(before[k - 1]),
                    );
                }
            } else if k < idxi {
                assert(ps@[j] == before[j]);
                assert(ps@[k] == before[k]);
            } else {
                assert(ps@[j] == before[j - 1]);
                assert(ps@[k] == before[k - 1]);
            }
        }
        // Membership: the new vector holds exactly the old cells plus p's.
        assert forall|k: (Seq<char>, nat)|
            #[trigger] pos_in(ps@, k) implies (pos_in(before, k) || k == pos_key(*p)) by {
            let j = choose|j: int| 0 <= j < ps@.len() && #[trigger] pos_key(ps@[j]) == k;
            let idxi = idx as int;
            if j < idxi {
                assert(pos_key(before[j]) == k);
            } else if j > idxi {
                assert(pos_key(before[j - 1]) == k);
            }
        }
        assert forall|k: (Seq<char>, nat)|
            pos_in(before, k) || k == pos_key(*p) implies #[trigger] pos_in(ps@, k) by {
            let idxi = idx as int;
            if pos_in(before, k) {
                let j = choose|j: int| 0 <= j < before.len() && #[trigger] pos_key(before[j]) == k;
                if j < idxi {
                    assert(pos_key(ps@[j]) == k);
                } else {
                    assert(pos_key(ps@[j + 1]) == k);
                }
            } else {
                assert(pos_key(ps@[idxi]) == k);
            }
        }
    }
}

/// Adds one record to a sorted grouping: the position joins the group of the
/// record's street name, and a new group is created where the name is new.
fn add_record(roads: &mut Vec<RoadGroup>, rec: &InputStreetValue)
    requires
        names_sorted(old(roads)@),
        forall|i: int|
            0 <= i < old(roads)@.len()
                ==> positions_sorted(#[trigger] old(roads)@[i].positions@),
        forall|i: int|
            0 <= i < old(roads)@.len() ==> (#[trigger] old(roads)@[i].positions@.len()) >= 1,
    ensures
        names_sorted(final(roads)@),
        forall|i: int|
            0 <= i < final(roads)@.len()
                ==> positions_sorted(#[trigger] final(roads)@[i].positions@),
        forall|i: int|
            0 <= i < final(roads)@.len() ==> (#[trigger] final(roads)@[i].positions@.len()) >= 1,
        forall|n: Seq<char>, k: (Seq<char>, nat)|
            #[trigger] grouping_has(final(roads)@, n, k) <==> (grouping_has(old(roads)@, n, k)
                || (n == rec.street_name.0@ && k == pos_key(rec.position))),
{
    let mut idx: usize = 0;
    while idx < roads.len()
        && str_compare(roads[idx].name.0.as_str(), rec.street_name.0.as_str()) == 0
        invariant
            idx <= roads.len(),
            roads@ == old(roads)@,
            forall|j: int|
                0 <= j < idx
                    ==> seq_char_lt(#[trigger] roads@[j].name.0@, rec.street_name.0@),
        decreases roads.len() - idx,
    {
        idx += 1;
    }
    let ghost before = roads@;
    if idx < roads.len() && str_compare(roads[idx].name.0.as_str(), rec.street_name.0.as_str()) == 1 {
        // The street name already has a group: merge the position in.
        let mut grp = roads.remove(idx);
        insert_position(&mut grp.positions, &rec.position);
        let ghost grp_saved = grp;
        roads.insert(idx, grp);
        proof {
            let idxi = idx as int;
            assert(roads@ =~= before.update(idxi, grp_saved));
            assert(grp_saved.name.0@ == rec.street_name.0@);
            assert forall|j: int, k: int|
                0 <= j < k < roads@.len()
                    implies seq_char_lt(roads@[j].name.0@, roads@[k].name.0@) by {
                assert(roads@[j].name.0@ == before[j].name.0@);
                assert(roads@[k].name.0@ == before[k].name.0@);
            }
            assert forall|n: Seq<char>, k: (Seq<char>, nat)|
                #[trigger] grouping_has(roads@, n, k) implies (grouping_has(before, n, k)
                    || (n == rec.street_name.0@ && k == pos_key(rec.position))) by {
                let i = choose|i: int|
                    #![trigger roads@[i]]
                    0 <= i < roads@.len() && roads@[i].name.0@ == n
                        && pos_in(roads@[i].positions@, k);
                if i == idxi {
                    if pos_in(before[idxi].positions@, k) {
                        assert(grouping_has(before, n, k));
                    }
                } else {
                    assert(roads@[i] == before[i]);
                    assert(grouping_has(before, n, k));
                }
            }
            assert forall|n: Seq<char>, k: (Seq<char>, nat)|
                grouping_has(before, n, k) || (n == rec.street_name.0@ && k == pos_key(
                    rec.position,
                )) implies #[trigger] grouping_has(roads@, n, k) by {
                if grouping_has(before, n, k) {
                    let i = choose|i: int|
                        #![trigger before[i]]
                        0 <= i < before.len() && before[i].name.0@ == n
                            && pos_in(before[i].positions@, k);
                    if i == idxi {
                        assert(pos_in(roads@[idxi].positions@, k));
                        assert(roads@[idxi].name.0@ == n);
                    } else {
                        assert(roads@[i] == before[i]);
                    }
                } else {
                    assert(pos_in(roads@[idxi].positions@, k));
                    assert(roads@[idxi].name.0@ == n);
                }
            }
        }
    } else {
        // The street name is new: a fresh group is inserted at `idx`, which
        // keeps the names strictly sorted.
        proof {
            let idxi = idx as int;
            if idx < roads@.len() {
                lemma_seq_char_lt_trichotomy(roads@[idxi].name.0@, rec.street_name.0@);
                assert(seq_char_lt(rec.street_name.0@, roads@[idxi].name.0@));
            }
        }
        let mut ps: Vec<GridPosition> = Vec::new();
        ps.push(rec.position.clone());
        let grp = RoadGroup { name: rec.street_name.clone(), positions: ps };
        let ghost grp_saved = grp;
        roads.insert(idx, grp);
        proof {
            let idxi = idx as int;
            before.insert_ensures(idxi, grp_saved);
            assert(roads@ == before.insert(idxi, grp_saved));
            assert(grp_saved.positions@.len() == 1);
            assert(pos_key(grp_saved.positions@[0]) == pos_key(rec.position));
            assert forall|j: int, k: int|
                0 <= j < k < roads@.len()
                    implies seq_char_lt(roads@[j].name.0@, roads@[k].name.0@) by {
                if j < idxi && k == idxi {
                    assert(roads@[j] == before[j]);
                } else if j < idxi && k > idxi {
                    assert(roads@[j] == before[j]);
                    assert(roads@[k] == before[k - 1]);
                } else if j == idxi && k > idxi {
                    assert(roads@[k] == before[k - 1]);
                    if k - 1 > idxi {
                        lemma_seq_char_lt_transitive(
                            grp_saved.name.0@,
                            before[idxi].name.0@,
                            before[k - 1].name.0@,
                        );
                    }
                } else if k < idxi {
                    assert(roads@[j] == before[j]);
                    assert(roads@[k] == before[k]);
                } else {
                    assert(roads@[j] == before[j - 1]);
                    assert(roads@[k] == before[k - 1]);
                }
            }
            assert forall|i: int|
                0 <= i < roads@.len()
                    implies positions_sorted(#[trigger] roads@[i].positions@)
                        && roads@[i].positions@.len() >= 1 by {
                if i < idxi {
                    assert(roads@[i] == before[i]);
                } else if i > idxi {
                    assert(roads@[i] == before[i - 1]);
                }
            }
            assert forall|n: Seq<char>, k: (Seq<char>, nat)|
                #[trigger] grouping_has(roads@, n, k) implies (grouping_has(before, n, k)
                    || (n == rec.street_name.0@ && k == pos_key(rec.position))) by {
                let i = choose|i: int|
                    #![trigger roads@[i]]
                    0 <= i < roads@.len() && roads@[i].name.0@ == n
                        && pos_in(roads@[i].positions@, k);
                if i < idxi {
                    assert(roads@[i] == before[i]);
                    assert(grouping_has(before, n, k));
                } else if i > idxi {
                    assert(roads@[i] == before[i - 1]);
                    assert(grouping_has(before, n, k));
                } else {
                    let j = choose|j: int|
                        0 <= j < grp_saved.positions@.len() && #[trigger] pos_key(
                            grp_saved.positions@[j],
                        ) == k;
                    assert(j == 0);
                }
            }
            assert forall|n: Seq<char>, k: (Seq<char>, nat)|
                grouping_has(before, n, k) || (n == rec.street_name.0@ && k == pos_key(
                    rec.position,
                )) implies #[trigger] grouping_has(roads@, n, k) by {
                if grouping_has(before, n, k) {
                    let i = choose|i: int|
                        #![trigger before[i]]
                        0 <= i < before.len() && before[i].name.0@ == n
                            && pos_in(before[i].positions@, k);
                    if i < idxi {
                        assert(roads@[i] == before[i]);
                    } else {
                        assert(roads@[i + 1] == before[i]);
                    }
                } else {
                    assert(pos_in(roads@[idxi].positions@, k));
                }
            }
        }
    }
}

/// Extending the scanned prefix of the input by one record extends the
/// pairs it contains by exactly that record's pair.
proof fn lemma_input_has_take_step(s: Seq<InputStreetValue>, i: int)
    requires
        0 <= i < s.len(),
    ensures
        forall|n: Seq<char>, k: (Seq<char>, nat)|
            #[trigger] input_has(s.take(i + 1), n, k) <==> (input_has(s.take(i), n, k)
                || (n == s[i].street_name.0@ && k == pos_key(s[i].position))),
{
    assert forall|n: Seq<char>, k: (Seq<char>, nat)|
        #[trigger] input_has(s.take(i + 1), n, k) implies (input_has(s.take(i), n, k)
            || (n == s[i].street_name.0@ && k == pos_key(s[i].position))) by {
        let j = choose|j: int|
            #![trigger s.take(i + 1)[j]]
            0 <= j < s.take(i + 1).len() && s.take(i + 1)[j].street_name.0@ == n
                && pos_key(s.take(i + 1)[j].position) == k;
        if j < i {
            assert(s.take(i)[j] == s.take(i + 1)[j]);
            assert(input_has(s.take(i), n, k));
        } else {
            assert(s.take(i + 1)[j] == s[i]);
        }
    }
    assert forall|n: Seq<char>, k: (Seq<char>, nat)|
        input_has(s.take(i), n, k) || (n == s[i].street_name.0@ && k == pos_key(s[i].position))
            implies #[trigger] input_has(s.take(i + 1), n, k) by {
        if input_has(s.take(i), n, k) {
            let j = choose|j: int|
                #![trigger s.take(i)[j]]
                0 <= j < s.take(i).len() && s.take(i)[j].street_name.0@ == n
                    && pos_key(s.take(i)[j].position) == k;
            assert(s.take(i + 1)[j] == s.take(i)[j]);
        } else {
            assert(s.take(i + 1)[i] == s[i]);
        }
    }
}

/// What deduplication promises of its result: a well-formed grouping of
/// nonempty groups holding exactly the (name, position) pairs of the input.
pub open spec fn dedup_post(streets: Seq<InputStreetValue>, d: DeduplicatedRoads) -> bool {
    &&& d.wf()
    &&& d.groups_nonempty()
    &&& forall|n: Seq<char>, k: (Seq<char>, nat)|
        #[trigger] grouping_has(d.roads@, n, k) <==> input_has(streets, n, k)
}

impl DeduplicatedRoads {
    /// Groups the raw records by street name, with duplicate positions
    /// removed: the result is sorted strictly by street name, each group's
    /// positions are sorted strictly and nonempty, and the grouping holds
    /// exactly the (name, position) pairs of the input, however often and in
    /// whatever order they occurred there.
    pub fn from_streets(streets: &[InputStreetValue]) -> (result: Self)
        ensures
            dedup_post(streets@, result),
    {
        let mut roads: Vec<RoadGroup> = Vec::new();
        let mut i: usize = 0;
        while i < streets.len()
            invariant
                i <= streets.len(),
                names_sorted(roads@),
                forall|j: int|
                    0 <= j < roads@.len()
                        ==> positions_sorted(#[trigger] roads@[j].positions@),
                forall|j: int|
                    0 <= j < roads@.len() ==> (#[trigger] roads@[j].positions@.len()) >= 1,
                forall|n: Seq<char>, k: (Seq<char>, nat)|
                    #[trigger] grouping_has(roads@, n, k) <==> input_has(
                        streets@.take(i as int),
                        n,
                        k,
                    ),
            decreases streets.len() - i,
        {
            add_record(&mut roads, &streets[i]);
            proof {
                lemma_input_has_take_step(streets@, i as int);
            }
            i += 1;
        }
        proof {
            assert(streets@.take(streets@.len() as int) =~= streets@);
        }
        Self { roads }
    }
}

} // verus!
