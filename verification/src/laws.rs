//! The library-level laws: the grouping is determined by the input's set of
//! (name, position) pairs alone, classification partitions the grouping
//! completely by cardinality, and rendering joins lines with exactly one
//! CRLF between entries.

use vstd::prelude::*;
use crate::order::{seq_char_lt, lemma_seq_char_lt_trichotomy};
use crate::types::{GridPosition, InputStreetValue, pos_key, pos_keys, pos_lt,
    lemma_pos_lt_trichotomy};
use crate::dedup::{RoadGroup, DeduplicatedRoads, positions_sorted, names_sorted, pos_in,
    grouping_has, input_has, dedup_post};
use crate::classify::{RoadView, group_view, grouping_view, spec_classify};
use crate::render::{crlf, spec_processed_line, spec_unprocessed_line, spec_processed_csv,
    spec_unprocessed_csv};

verus! {

/// Some road of `rs` bears the street name `n`.
pub open spec fn views_name_in(rs: Seq<RoadView>, n: Seq<char>) -> bool {
    exists|i: int| 0 <= i < rs.len() && (#[trigger] rs[i]).0 == n
}

proof fn lemma_name_in_push(rs: Seq<RoadView>, rv: RoadView, n: Seq<char>)
    ensures
        views_name_in(rs.push(rv), n) <==> (views_name_in(rs, n) || rv.0 == n),
{
    if views_name_in(rs.push(rv), n) {
        let i = choose|i: int| 0 <= i < rs.push(rv).len() && (#[trigger] rs.push(rv)[i]).0 == n;
        if i < rs.len() {
            assert(rs[i] == rs.push(rv)[i]);
        }
    }
    if views_name_in(rs, n) {
        let i = choose|i: int| 0 <= i < rs.len() && (#[trigger] rs[i]).0 == n;
        assert(rs.push(rv)[i] == rs[i]);
    }
    if rv.0 == n {
        assert(rs.push(rv)[rs.len() as int] == rv);
    }
}

proof fn lemma_views_push_contains(rs: Seq<RoadView>, v: RoadView, x: RoadView)
    ensures
        rs.push(v).contains(x) <==> (rs.contains(x) || x == v),
{
    if rs.push(v).contains(x) {
        let i = choose|i: int| 0 <= i < rs.push(v).len() && rs.push(v)[i] == x;
        if i < rs.len() {
            assert(rs[i] == x);
        }
    }
    if rs.contains(x) {
        let i = choose|i: int| 0 <= i < rs.len() && rs[i] == x;
        assert(rs.push(v)[i] == x);
    }
    assert(rs.push(v)[rs.len() as int] == v);
}

/// Law of cardinality routing: classification keeps every road of one or two
/// positions, with all its positions, in the processed output, and every
/// road of three or more in the unprocessed output — and nothing else. A
/// processed road of one position is a `SingleRect` and one of two a
/// `TwoRect`, since `process` preserves these views and a finalized
/// position's key count equals its variant's cell count; the positions kept
/// are in the group's stored (ascending) order.
pub proof fn lemma_cardinality_routing(g: Seq<RoadView>)
    ensures
        forall|i: int|
            0 <= i < g.len() && 1 <= (#[trigger] g[i]).1.len() <= 2
                ==> spec_classify(g).0.contains(g[i]),
        forall|i: int|
            0 <= i < g.len() && (#[trigger] g[i]).1.len() >= 3
                ==> spec_classify(g).1.contains(g[i]),
        forall|rv: RoadView|
            #[trigger] spec_classify(g).0.contains(rv) ==> g.contains(rv) && 1 <= rv.1.len() <= 2,
        forall|rv: RoadView|
            #[trigger] spec_classify(g).1.contains(rv) ==> g.contains(rv) && rv.1.len() >= 3,
    decreases g.len(),
{
    if g.len() == 0 {
    } else {
        let h = g.drop_last();
        let last = g.last();
        lemma_cardinality_routing(h);
        let p0 = spec_classify(h).0;
        let u0 = spec_classify(h).1;
        let p = spec_classify(g).0;
        let u = spec_classify(g).1;
        assert(g[g.len() - 1] == last);
        assert forall|x: RoadView| #[trigger] h.contains(x) implies g.contains(x) by {
            let i = choose|i: int| 0 <= i < h.len() && h[i] == x;
            assert(g[i] == x);
        }
        assert forall|i: int|
            0 <= i < g.len() && 1 <= (#[trigger] g[i]).1.len() <= 2 implies p.contains(
            g[i],
        ) by {
            if i < g.len() - 1 {
                assert(h[i] == g[i]);
                assert(p0.contains(g[i]));
                if last.1.len() == 0 {
                } else if last.1.len() <= 2 {
                    lemma_views_push_contains(p0, last, g[i]);
                } else {
                }
            } else {
                lemma_views_push_contains(p0, last, last);
            }
        }
        assert forall|i: int|
            0 <= i < g.len() && (#[trigger] g[i]).1.len() >= 3 implies u.contains(g[i]) by {
            if i < g.len() - 1 {
                assert(h[i] == g[i]);
                assert(u0.contains(g[i]));
                if last.1.len() >= 3 {
                    lemma_views_push_contains(u0, last, g[i]);
                }
            } else {
                lemma_views_push_contains(u0, last, last);
            }
        }
        assert forall|rv: RoadView| #[trigger] p.contains(rv) implies g.contains(rv) && 1
            <= rv.1.len() <= 2 by {
            if last.1.len() == 0 || last.1.len() >= 3 {
            } else {
                lemma_views_push_contains(p0, last, rv);
            }
        }
        assert forall|rv: RoadView| #[trigger] u.contains(rv) implies g.contains(rv)
            && rv.1.len() >= 3 by {
            if last.1.len() >= 3 {
                lemma_views_push_contains(u0, last, rv);
            }
        }
    }
}

/// Law of partition completeness: when no street name occurs twice in the
/// grouping, every name with a nonempty position set appears in exactly one
/// of the two outputs — in the processed one iff it has one or two
/// positions — a name with an empty set appears in neither, and no name
/// appears in an output without appearing in the grouping.
pub proof fn lemma_partition_complete(g: Seq<RoadView>)
    requires
        forall|i: int, j: int|
            0 <= i < j < g.len() ==> (#[trigger] g[i]).0 != (#[trigger] g[j]).0,
    ensures
        forall|i: int|
            0 <= i < g.len()
                ==> (views_name_in(spec_classify(g).0, (#[trigger] g[i]).0) <==> 1 <= g[i].1.len()
                <= 2),
        forall|i: int|
            0 <= i < g.len()
                ==> (views_name_in(spec_classify(g).1, (#[trigger] g[i]).0) <==> g[i].1.len()
                >= 3),
        forall|n: Seq<char>|
            #[trigger] views_name_in(spec_classify(g).0, n) ==> views_name_in(g, n),
        forall|n: Seq<char>|
            #[trigger] views_name_in(spec_classify(g).1, n) ==> views_name_in(g, n),
    decreases g.len(),
{
    if g.len() == 0 {
    } else {
        let h = g.drop_last();
        let last = g.last();
        let li = g.len() - 1;
        assert(forall|i: int| 0 <= i < h.len() ==> h[i] == #[trigger] g[i]);
        lemma_partition_complete(h);
        let p0 = spec_classify(h).0;
        let u0 = spec_classify(h).1;
        let p = spec_classify(g).0;
        let u = spec_classify(g).1;
        assert(g[li] == last);
        // The last road's name is fresh: it occurs nowhere in the prefix,
        // hence in neither of the prefix's outputs.
        assert(!views_name_in(h, last.0)) by {
            if views_name_in(h, last.0) {
                let i = choose|i: int| 0 <= i < h.len() && (#[trigger] h[i]).0 == last.0;
                assert(g[i].0 == g[li].0);
            }
        }
        assert forall|n: Seq<char>| #[trigger] views_name_in(h, n) implies views_name_in(
            g,
            n,
        ) by {
            let i = choose|i: int| 0 <= i < h.len() && (#[trigger] h[i]).0 == n;
            assert(g[i].0 == n);
        }
        if last.1.len() == 0 {
            assert(p == p0 && u == u0);
        } else if last.1.len() <= 2 {
            assert(p == p0.push(last) && u == u0);
            assert forall|n: Seq<char>| true implies (#[trigger] views_name_in(p, n) <==> (
            views_name_in(p0, n) || last.0 == n)) by {
                lemma_name_in_push(p0, last, n);
            }
        } else {
            assert(u == u0.push(last) && p == p0);
            assert forall|n: Seq<char>| true implies (#[trigger] views_name_in(u, n) <==> (
            views_name_in(u0, n) || last.0 == n)) by {
                lemma_name_in_push(u0, last, n);
            }
        }
        assert forall|i: int|
            0 <= i < g.len() implies (views_name_in(p, (#[trigger] g[i]).0) <==> 1
            <= g[i].1.len() <= 2) && (views_name_in(u, g[i].0) <==> g[i].1.len() >= 3) by {
            if i < li {
                assert(g[i] == h[i]);
                assert(g[i].0 != last.0);
            } else {
            }
        }
    }
}

/// Law of order preservation: classification keeps the grouping's ascending
/// street-name order in both outputs.
pub proof fn lemma_classify_preserves_order(g: Seq<RoadView>)
    requires
        forall|i: int, j: int|
            0 <= i < j < g.len()
                ==> seq_char_lt((#[trigger] g[i]).0, (#[trigger] g[j]).0),
    ensures
        forall|i: int, j: int|
            0 <= i < j < spec_classify(g).0.len()
                ==> seq_char_lt(
                (#[trigger] spec_classify(g).0[i]).0,
                (#[trigger] spec_classify(g).0[j]).0,
            ),
        forall|i: int, j: int|
            0 <= i < j < spec_classify(g).1.len()
                ==> seq_char_lt(
                (#[trigger] spec_classify(g).1[i]).0,
                (#[trigger] spec_classify(g).1[j]).0,
            ),
    decreases g.len(),
{
    if g.len() == 0 {
    } else {
        let h = g.drop_last();
        let last = g.last();
        let li = g.len() - 1;
        assert(forall|i: int| 0 <= i < h.len() ==> h[i] == #[trigger] g[i]);
        lemma_classify_preserves_order(h);
        lemma_cardinality_routing(h);
        let p0 = spec_classify(h).0;
        let u0 = spec_classify(h).1;
        // Every road of the prefix's outputs comes before the last road.
        assert forall|m: int| 0 <= m < p0.len() implies seq_char_lt(
            (#[trigger] p0[m]).0,
            last.0,
        ) by {
            assert(p0.contains(p0[m]));
            let w = choose|w: int| 0 <= w < h.len() && h[w] == p0[m];
            assert(g[w] == p0[m]);
            assert(g[li] == last);
        }
        assert forall|m: int| 0 <= m < u0.len() implies seq_char_lt(
            (#[trigger] u0[m]).0,
            last.0,
        ) by {
            assert(u0.contains(u0[m]));
            let w = choose|w: int| 0 <= w < h.len() && h[w] == u0[m];
            assert(g[w] == u0[m]);
            assert(g[li] == last);
        }
        if last.1.len() == 0 {
        } else if last.1.len() <= 2 {
            let p = spec_classify(g).0;
            assert(p == p0.push(last));
            assert(forall|m: int| 0 <= m < p0.len() ==> p[m] == #[trigger] p0[m]);
            assert(p[p0.len() as int] == last);
        } else {
            let u = spec_classify(g).1;
            assert(u == u0.push(last));
            assert(forall|m: int| 0 <= m < u0.len() ==> u[m] == #[trigger] u0[m]);
            assert(u[u0.len() as int] == last);
        }
    }
}

/// Law of the multi-line join, processed side: with at least two roads the
/// text is the first line, exactly one CRLF, then the text of the remaining
/// roads — so CRLF stands exactly between lines and never trails.
pub proof fn lemma_processed_csv_join(rs: Seq<RoadView>, delim: Seq<char>)
    requires
        rs.len() >= 2,
    ensures
        spec_processed_csv(rs, delim) == spec_processed_line(rs[0], delim) + crlf()
            + spec_processed_csv(rs.drop_first(), delim),
    decreases rs.len(),
{
    let tail = rs.drop_first();
    assert(forall|i: int| 0 <= i < tail.len() ==> tail[i] == #[trigger] rs[i + 1]);
    if rs.len() == 2 {
        assert(rs.drop_last() =~= seq![rs[0]]);
        assert(tail =~= seq![rs[1]]);
        assert(spec_processed_csv(seq![rs[0]], delim) == spec_processed_line(rs[0], delim));
        assert(spec_processed_csv(tail, delim) == spec_processed_line(rs[1], delim));
    } else {
        let front = rs.drop_last();
        lemma_processed_csv_join(front, delim);
        assert(front.drop_first() =~= tail.drop_last());
        assert(tail.last() == rs.last());
        assert(front[0] == rs[0]);
        assert(spec_processed_csv(rs, delim) == spec_processed_csv(front, delim) + crlf()
            + spec_processed_line(rs.last(), delim));
        assert(spec_processed_csv(tail, delim) == spec_processed_csv(tail.drop_last(), delim)
            + crlf() + spec_processed_line(tail.last(), delim));
        assert(spec_processed_csv(rs, delim) =~= spec_processed_line(rs[0], delim) + crlf()
            + spec_processed_csv(tail, delim));
    }
}

/// Law of the multi-line join, unprocessed side.
pub proof fn lemma_unprocessed_csv_join(rs: Seq<RoadView>, delim: Seq<char>)
    requires
        rs.len() >= 2,
    ensures
        spec_unprocessed_csv(rs, delim) == spec_unprocessed_line(rs[0], delim) + crlf()
            + spec_unprocessed_csv(rs.drop_first(), delim),
    decreases rs.len(),
{
    let tail = rs.drop_first();
    assert(forall|i: int| 0 <= i < tail.len() ==> tail[i] == #[trigger] rs[i + 1]);
    if rs.len() == 2 {
        assert(rs.drop_last() =~= seq![rs[0]]);
        assert(tail =~= seq![rs[1]]);
        assert(spec_unprocessed_csv(seq![rs[0]], delim) == spec_unprocessed_line(rs[0], delim));
        assert(spec_unprocessed_csv(tail, delim) == spec_unprocessed_line(rs[1], delim));
    } else {
        let front = rs.drop_last();
        lemma_unprocessed_csv_join(front, delim);
        assert(front.drop_first() =~= tail.drop_last());
        assert(tail.last() == rs.last());
        assert(front[0] == rs[0]);
        assert(spec_unprocessed_csv(rs, delim) == spec_unprocessed_csv(front, delim) + crlf()
            + spec_unprocessed_line(rs.last(), delim));
        assert(spec_unprocessed_csv(tail, delim) == spec_unprocessed_csv(tail.drop_last(), delim)
            + crlf() + spec_unprocessed_line(tail.last(), delim));
        assert(spec_unprocessed_csv(rs, delim) =~= spec_unprocessed_line(rs[0], delim) + crlf()
            + spec_unprocessed_csv(tail, delim));
    }
}

/// For a strictly sorted position vector, dropping the first position drops
/// exactly the head's cell from the membership.
proof fn lemma_pos_in_drop_first(ps: Seq<GridPosition>)
    requires
        positions_sorted(ps),
        ps.len() >= 1,
    ensures
        forall|k: (Seq<char>, nat)|
            #[trigger] pos_in(ps.drop_first(), k) <==> (pos_in(ps, k) && k != pos_key(ps[0])),
{
    let tail = ps.drop_first();
    assert(forall|j: int| 0 <= j < tail.len() ==> tail[j] == #[trigger] ps[j + 1]);
    assert forall|k: (Seq<char>, nat)| #[trigger] pos_in(tail, k) implies (pos_in(ps, k) && k
        != pos_key(ps[0])) by {
        let j = choose|j: int| 0 <= j < tail.len() && #[trigger] pos_key(tail[j]) == k;
        assert(pos_key(ps[j + 1]) == k);
        assert(pos_lt(pos_key(ps[0]), pos_key(ps[j + 1])));
        lemma_pos_lt_trichotomy(pos_key(ps[0]), pos_key(ps[j + 1]));
    }
    assert forall|k: (Seq<char>, nat)| pos_in(ps, k) && k != pos_key(ps[0]) implies #[trigger]
        pos_in(tail, k) by {
        let j = choose|j: int| 0 <= j < ps.len() && #[trigger] pos_key(ps[j]) == k;
        assert(j >= 1);
        assert(pos_key(tail[j - 1]) == k);
    }
}

/// Two strictly sorted position vectors with the same cells have the same
/// key sequence.
proof fn lemma_sorted_positions_unique(ps: Seq<GridPosition>, qs: Seq<GridPosition>)
    requires
        positions_sorted(ps),
        positions_sorted(qs),
        forall|k: (Seq<char>, nat)| #[trigger] pos_in(ps, k) <==> pos_in(qs, k),
    ensures
        pos_keys(ps) == pos_keys(qs),
    decreases ps.len(),
{
    if ps.len() == 0 {
        if qs.len() > 0 {
            assert(pos_in(qs, pos_key(qs[0]))) by {
                assert(pos_key(qs[0]) == pos_key(qs[0]));
            }
            assert(pos_in(ps, pos_key(qs[0])));
            assert(false);
        }
        assert(pos_keys(ps) =~= pos_keys(qs));
    } else {
        if qs.len() == 0 {
            assert(pos_in(ps, pos_key(ps[0]))) by {
                assert(pos_key(ps[0]) == pos_key(ps[0]));
            }
            assert(pos_in(qs, pos_key(ps[0])));
            assert(false);
        }
        let pk = pos_key(ps[0]);
        let qk = pos_key(qs[0]);
        assert(pk == qk) by {
            if pk != qk {
                assert(pos_in(ps, pk));
                assert(pos_in(qs, pk));
                let j = choose|j: int| 0 <= j < qs.len() && #[trigger] pos_key(qs[j]) == pk;
                assert(j != 0);
                assert(pos_lt(qk, pk));
                assert(pos_in(qs, qk));
                assert(pos_in(ps, qk));
                let m = choose|m: int| 0 <= m < ps.len() && #[trigger] pos_key(ps[m]) == qk;
                assert(m != 0);
                assert(pos_lt(pk, qk));
                lemma_pos_lt_trichotomy(pk, qk);
            }
        }
        lemma_pos_in_drop_first(ps);
        lemma_pos_in_drop_first(qs);
        assert(forall|j: int|
            0 <= j < ps.drop_first().len() ==> ps.drop_first()[j] == #[trigger] ps[j + 1]);
        assert(forall|j: int|
            0 <= j < qs.drop_first().len() ==> qs.drop_first()[j] == #[trigger] qs[j + 1]);
        lemma_sorted_positions_unique(ps.drop_first(), qs.drop_first());
        assert(pos_keys(ps) =~= pos_keys(qs)) by {
            assert(pos_keys(ps.drop_first()).len() == pos_keys(qs.drop_first()).len());
            assert forall|j: int| 0 <= j < ps.len() implies #[trigger] pos_keys(ps)[j]
                == pos_keys(qs)[j] by {
                if j >= 1 {
                    assert(pos_keys(ps.drop_first())[j - 1] == pos_keys(qs.drop_first())[j - 1]);
                    assert(pos_keys(ps.drop_first())[j - 1] == pos_key(ps[j]));
                    assert(pos_keys(qs.drop_first())[j - 1] == pos_key(qs[j]));
                }
            }
        }
    }
}

/// For a strictly name-sorted grouping, dropping the first group drops
/// exactly the head name's pairs.
proof fn lemma_grouping_has_drop_first(roads: Seq<RoadGroup>)
    requires
        names_sorted(roads),
        roads.len() >= 1,
    ensures
        forall|n: Seq<char>, k: (Seq<char>, nat)|
            #[trigger] grouping_has(roads.drop_first(), n, k) <==> (grouping_has(roads, n, k) && n
                != roads[0].name.0@),
{
    let tail = roads.drop_first();
    assert(forall|i: int| 0 <= i < tail.len() ==> tail[i] == #[trigger] roads[i + 1]);
    assert forall|n: Seq<char>, k: (Seq<char>, nat)|
        #[trigger] grouping_has(tail, n, k) implies (grouping_has(roads, n, k) && n
        != roads[0].name.0@) by {
        let i = choose|i: int|
            #![trigger tail[i]]
            0 <= i < tail.len() && tail[i].name.0@ == n && pos_in(tail[i].positions@, k);
        assert(roads[i + 1].name.0@ == n && pos_in(roads[i + 1].positions@, k));
        assert(seq_char_lt(roads[0].name.0@, roads[i + 1].name.0@));
        lemma_seq_char_lt_trichotomy(roads[0].name.0@, roads[i + 1].name.0@);
    }
    assert forall|n: Seq<char>, k: (Seq<char>, nat)|
        grouping_has(roads, n, k) && n != roads[0].name.0@ implies #[trigger] grouping_has(
        tail,
        n,
        k,
    ) by {
        let i = choose|i: int|
            #![trigger roads[i]]
            0 <= i < roads.len() && roads[i].name.0@ == n && pos_in(roads[i].positions@, k);
        assert(i >= 1);
        assert(tail[i - 1].name.0@ == n && pos_in(tail[i - 1].positions@, k));
    }
}

/// Law of canonicity: two well-formed groupings of nonempty groups holding
/// the same (name, position) pairs are the same grouping. Everything the
/// pipeline later does — classification and rendering — is a function of
/// this view, so inputs with the same pairs give identical output text.
pub proof fn lemma_grouping_unique(a: Seq<RoadGroup>, b: Seq<RoadGroup>)
    requires
        names_sorted(a),
        names_sorted(b),
        forall|i: int| 0 <= i < a.len() ==> positions_sorted((#[trigger] a[i]).positions@),
        forall|i: int| 0 <= i < b.len() ==> positions_sorted((#[trigger] b[i]).positions@),
        forall|i: int| 0 <= i < a.len() ==> (#[trigger] a[i]).positions@.len() >= 1,
        forall|i: int| 0 <= i < b.len() ==> (#[trigger] b[i]).positions@.len() >= 1,
        forall|n: Seq<char>, k: (Seq<char>, nat)|
            #[trigger] grouping_has(a, n, k) <==> grouping_has(b, n, k),
    ensures
        grouping_view(a) == grouping_view(b),
    decreases a.len(),
{
    if a.len() == 0 {
        if b.len() > 0 {
            assert(pos_in(b[0].positions@, pos_key(b[0].positions@[0]))) by {
                assert(pos_key(b[0].positions@[0]) == pos_key(b[0].positions@[0]));
            }
            assert(grouping_has(b, b[0].name.0@, pos_key(b[0].positions@[0])));
            assert(grouping_has(a, b[0].name.0@, pos_key(b[0].positions@[0])));
            assert(false);
        }
        assert(grouping_view(a) =~= grouping_view(b));
    } else {
        let an = a[0].name.0@;
        let ka = pos_key(a[0].positions@[0]);
        assert(pos_in(a[0].positions@, ka)) by {
            assert(pos_key(a[0].positions@[0]) == ka);
        }
        assert(grouping_has(a, an, ka));
        if b.len() == 0 {
            assert(grouping_has(b, an, ka));
            assert(false);
        }
        let bn = b[0].name.0@;
        let kb = pos_key(b[0].positions@[0]);
        assert(pos_in(b[0].positions@, kb)) by {
            assert(pos_key(b[0].positions@[0]) == kb);
        }
        assert(grouping_has(b, bn, kb));
        // The head names agree: each head name occurs in the other grouping,
        // whose head is its minimum.
        assert(an == bn) by {
            if an != bn {
                assert(grouping_has(b, an, ka));
                let i = choose|i: int|
                    #![trigger b[i]]
                    0 <= i < b.len() && b[i].name.0@ == an && pos_in(b[i].positions@, ka);
                assert(i != 0);
                assert(seq_char_lt(bn, an));
                assert(grouping_has(a, bn, kb));
                let m = choose|m: int|
                    #![trigger a[m]]
                    0 <= m < a.len() && a[m].name.0@ == bn && pos_in(a[m].positions@, kb);
                assert(m != 0);
                assert(seq_char_lt(an, bn));
                lemma_seq_char_lt_trichotomy(an, bn);
            }
        }
        // The head groups hold the same cells.
        assert forall|k: (Seq<char>, nat)| #[trigger] pos_in(a[0].positions@, k) implies pos_in(
            b[0].positions@,
            k,
        ) by {
            assert(grouping_has(a, an, k));
            assert(grouping_has(b, an, k));
            let i = choose|i: int|
                #![trigger b[i]]
                0 <= i < b.len() && b[i].name.0@ == an && pos_in(b[i].positions@, k);
            if i != 0 {
                assert(seq_char_lt(bn, b[i].name.0@));
                lemma_seq_char_lt_trichotomy(bn, b[i].name.0@);
                assert(false);
            }
        }
        assert forall|k: (Seq<char>, nat)| #[trigger] pos_in(b[0].positions@, k) implies pos_in(
            a[0].positions@,
            k,
        ) by {
            assert(grouping_has(b, an, k));
            assert(grouping_has(a, an, k));
            let i = choose|i: int|
                #![trigger a[i]]
                0 <= i < a.len() && a[i].name.0@ == an && pos_in(a[i].positions@, k);
            if i != 0 {
                assert(seq_char_lt(an, a[i].name.0@));
                lemma_seq_char_lt_trichotomy(an, a[i].name.0@);
                assert(false);
            }
        }
        lemma_sorted_positions_unique(a[0].positions@, b[0].positions@);
        // The tails hold the same pairs, and are themselves well-formed.
        lemma_grouping_has_drop_first(a);
        lemma_grouping_has_drop_first(b);
        let at = a.drop_first();
        let bt = b.drop_first();
        assert(forall|i: int| 0 <= i < at.len() ==> at[i] == #[trigger] a[i + 1]);
        assert(forall|i: int| 0 <= i < bt.len() ==> bt[i] == #[trigger] b[i + 1]);
        assert(forall|n: Seq<char>, k: (Seq<char>, nat)|
            #[trigger] grouping_has(at, n, k) <==> grouping_has(bt, n, k));
        lemma_grouping_unique(at, bt);
        assert(grouping_view(a) =~= grouping_view(b)) by {
            assert(grouping_view(at).len() == grouping_view(bt).len());
            assert(a.len() == b.len());
            assert forall|i: int| 0 <= i < a.len() implies #[trigger] grouping_view(a)[i]
                == grouping_view(b)[i] by {
                if i == 0 {
                    assert(group_view(a[0]) == group_view(b[0]));
                } else {
                    assert(grouping_view(at)[i - 1] == grouping_view(bt)[i - 1]);
                    assert(grouping_view(at)[i - 1] == group_view(a[i]));
                    assert(grouping_view(bt)[i - 1] == group_view(b[i]));
                }
            }
        }
    }
}

/// A well-formed grouping seen at view level: as many road views as groups,
/// names strictly ascending and therefore pairwise distinct, every group's
/// position keys strictly ascending, and — for a grouping of nonempty
/// groups — every view nonempty. This connects `DeduplicatedRoads::wf` to
/// the hypotheses of the classification laws.
pub proof fn lemma_wf_grouping_view(d: DeduplicatedRoads)
    requires
        d.wf(),
    ensures
        grouping_view(d.roads@).len() == d.roads@.len(),
        forall|i: int|
            0 <= i < d.roads@.len() ==> #[trigger] grouping_view(d.roads@)[i] == group_view(
                d.roads@[i],
            ),
        forall|i: int, j: int|
            0 <= i < j < d.roads@.len()
                ==> seq_char_lt(
                (#[trigger] grouping_view(d.roads@)[i]).0,
                (#[trigger] grouping_view(d.roads@)[j]).0,
            ),
        forall|i: int, j: int|
            0 <= i < j < d.roads@.len()
                ==> (#[trigger] grouping_view(d.roads@)[i]).0 != (#[trigger] grouping_view(
                d.roads@,
            )[j]).0,
        forall|i: int, j: int, k: int|
            0 <= i < d.roads@.len() && 0 <= j < k < grouping_view(d.roads@)[i].1.len()
                ==> pos_lt(
                #[trigger] grouping_view(d.roads@)[i].1[j],
                #[trigger] grouping_view(d.roads@)[i].1[k],
            ),
        d.groups_nonempty() ==> forall|i: int|
            0 <= i < d.roads@.len() ==> (#[trigger] grouping_view(d.roads@)[i]).1.len() >= 1,
{
    let gv = grouping_view(d.roads@);
    assert forall|i: int, j: int| 0 <= i < j < d.roads@.len() implies seq_char_lt(
        (#[trigger] gv[i]).0,
        (#[trigger] gv[j]).0,
    ) && gv[i].0 != gv[j].0 by {
        assert(seq_char_lt(d.roads@[i].name.0@, d.roads@[j].name.0@));
        lemma_seq_char_lt_trichotomy(d.roads@[i].name.0@, d.roads@[j].name.0@);
    }
    assert forall|i: int, j: int, k: int|
        0 <= i < d.roads@.len() && 0 <= j < k < gv[i].1.len() implies pos_lt(
        #[trigger] gv[i].1[j],
        #[trigger] gv[i].1[k],
    ) by {
        assert(positions_sorted(d.roads@[i].positions@));
        assert(gv[i].1[j] == pos_key(d.roads@[i].positions@[j]));
        assert(gv[i].1[k] == pos_key(d.roads@[i].positions@[k]));
    }
}

/// Law of idempotent deduplication: inserting a duplicate of any record of
/// the input, at any place, leaves the deduplicated grouping unchanged.
pub proof fn lemma_dedup_duplicate_irrelevant(
    s: Seq<InputStreetValue>,
    i: int,
    j: int,
    a: DeduplicatedRoads,
    b: DeduplicatedRoads,
)
    requires
        0 <= i < s.len(),
        0 <= j <= s.len(),
        dedup_post(s, a),
        dedup_post(s.insert(j, s[i]), b),
    ensures
        grouping_view(a.roads@) == grouping_view(b.roads@),
{
    let s2 = s.insert(j, s[i]);
    s.insert_ensures(j, s[i]);
    assert forall|n: Seq<char>, k: (Seq<char>, nat)|
        #[trigger] input_has(s2, n, k) implies input_has(s, n, k) by {
        let m = choose|m: int|
            #![trigger s2[m]]
            0 <= m < s2.len() && s2[m].street_name.0@ == n && pos_key(s2[m].position) == k;
        if m < j {
            assert(s[m] == s2[m]);
        } else if m == j {
            assert(s2[m] == s[i]);
        } else {
            assert(s2[m] == s[m - 1]);
        }
    }
    assert forall|n: Seq<char>, k: (Seq<char>, nat)|
        #[trigger] input_has(s, n, k) implies input_has(s2, n, k) by {
        let m = choose|m: int|
            #![trigger s[m]]
            0 <= m < s.len() && s[m].street_name.0@ == n && pos_key(s[m].position) == k;
        if m < j {
            assert(s2[m] == s[m]);
        } else {
            assert(s2[m + 1] == s[m]);
        }
    }
    lemma_grouping_unique(a.roads@, b.roads@);
}

/// Law of input-order invariance: inputs that are permutations of each other
/// produce the same deduplicated grouping — and, since classification and
/// rendering are functions of the grouping view, identical output text.
pub proof fn lemma_dedup_order_irrelevant(
    s1: Seq<InputStreetValue>,
    s2: Seq<InputStreetValue>,
    a: DeduplicatedRoads,
    b: DeduplicatedRoads,
)
    requires
        s1.to_multiset() == s2.to_multiset(),
        dedup_post(s1, a),
        dedup_post(s2, b),
    ensures
        grouping_view(a.roads@) == grouping_view(b.roads@),
        spec_classify(grouping_view(a.roads@)) == spec_classify(grouping_view(b.roads@)),
        forall|delim: Seq<char>|
            #[trigger] spec_processed_csv(spec_classify(grouping_view(a.roads@)).0, delim)
                == spec_processed_csv(spec_classify(grouping_view(b.roads@)).0, delim),
        forall|delim: Seq<char>|
            #[trigger] spec_unprocessed_csv(spec_classify(grouping_view(a.roads@)).1, delim)
                == spec_unprocessed_csv(spec_classify(grouping_view(b.roads@)).1, delim),
{
    broadcast use vstd::seq_lib::group_to_multiset_ensures;

    assert forall|n: Seq<char>, k: (Seq<char>, nat)|
        #[trigger] input_has(s1, n, k) implies input_has(s2, n, k) by {
        let m = choose|m: int|
            #![trigger s1[m]]
            0 <= m < s1.len() && s1[m].street_name.0@ == n && pos_key(s1[m].position) == k;
        let rec = s1[m];
        assert(s1.contains(rec));
        assert(s1.to_multiset().count(rec) > 0);
        assert(s2.to_multiset().count(rec) > 0);
        assert(s2.contains(rec));
        let w = choose|w: int| 0 <= w < s2.len() && s2[w] == rec;
        assert(s2[w].street_name.0@ == n && pos_key(s2[w].position) == k);
    }
    assert forall|n: Seq<char>, k: (Seq<char>, nat)|
        #[trigger] input_has(s2, n, k) implies input_has(s1, n, k) by {
        let m = choose|m: int|
            #![trigger s2[m]]
            0 <= m < s2.len() && s2[m].street_name.0@ == n && pos_key(s2[m].position) == k;
        let rec = s2[m];
        assert(s2.contains(rec));
        assert(s2.to_multiset().count(rec) > 0);
        assert(s1.to_multiset().count(rec) > 0);
        assert(s1.contains(rec));
        let w = choose|w: int| 0 <= w < s1.len() && s1[w] == rec;
        assert(s1[w].street_name.0@ == n && pos_key(s1[w].position) == k);
    }
    lemma_grouping_unique(a.roads@, b.roads@);
}

} // verus!

