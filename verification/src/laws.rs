//! Laws of the merge engine, proved once and for all: conservation of tile
//! values under a swipe, and the maximality of sliding.

use vstd::prelude::*;

use vstd::multiset::Multiset;
use vstd::seq_lib::lemma_multiset_commutative;

use crate::model::Dir;
use crate::model::apply_lanes;
use crate::model::compact;
use crate::model::lane_result;
use crate::model::lane_seq;
use crate::model::legal;
use crate::model::lemma_compact_concat;
use crate::model::lemma_compact_full;
use crate::model::lemma_compact_parts;
use crate::model::lemma_lane_result_zeros;
use crate::model::lemma_merged_none;
use crate::model::lemma_merged_parts;
use crate::model::lemma_zcount_nonzero;
use crate::model::lemma_zcount_zeros;
use crate::model::merge_pairs;
use crate::model::merge_sums;
use crate::model::merged;
use crate::model::pad4;
use crate::model::zcount;

verus! {

/// A swiped lane is packed: compacting it recovers exactly the merged tiles,
/// with the empty cells all at the trailing end.
pub proof fn lemma_compact_of_result(l: Seq<int>)
    requires
        l.len() == 4,
    ensures
        compact(lane_result(l)) == merged(compact(l)),
{
    lemma_compact_parts(l);
    lemma_merged_parts(compact(l));
    let m = merged(compact(l));
    let z = Seq::new((4 - m.len()) as nat, |_i: int| 0int);
    lemma_compact_concat(m, z);
    lemma_zcount_zeros((4 - m.len()) as nat);
    lemma_compact_parts(z);
    assert(compact(z) =~= Seq::<int>::empty());
    lemma_zcount_nonzero(m);
    lemma_compact_full(m);
    assert(m + Seq::<int>::empty() =~= m);
}

/// Conservation of tile values under merging: the tiles after, together with
/// the two halves of every merged pair, are exactly the tiles before,
/// together with every merged pair's sum.  No value appears or disappears
/// except by merge arithmetic.
pub proof fn lemma_merged_multiset(t: Seq<int>)
    ensures
        merged(t).to_multiset().add(merge_pairs(t).to_multiset()).add(
            merge_pairs(t).to_multiset(),
        ) == t.to_multiset().add(merge_sums(t).to_multiset()),
    decreases t.len(),
{
    broadcast use vstd::seq_lib::group_to_multiset_ensures;
    broadcast use vstd::multiset::group_multiset_axioms;

    if t.len() <= 1 {
        assert(merge_pairs(t) =~= Seq::<int>::empty());
        assert(merge_sums(t) =~= Seq::<int>::empty());
        assert(merged(t).to_multiset().add(merge_pairs(t).to_multiset()).add(
            merge_pairs(t).to_multiset(),
        ) =~= t.to_multiset().add(merge_sums(t).to_multiset()));
    } else if t[0] == t[1] {
        lemma_merged_multiset(t.skip(2));
        assert(t =~= seq![t[0], t[1]] + t.skip(2));
        lemma_multiset_commutative(seq![t[0], t[1]], t.skip(2));
        assert(seq![t[0], t[1]].to_multiset() =~= Multiset::<int>::empty().insert(t[0]).insert(
            t[1],
        )) by {
            assert(seq![t[0], t[1]] =~= Seq::<int>::empty().push(t[0]).push(t[1]));
        }
        lemma_multiset_commutative(seq![2 * t[0]], merged(t.skip(2)));
        lemma_multiset_commutative(seq![t[0]], merge_pairs(t.skip(2)));
        lemma_multiset_commutative(seq![2 * t[0]], merge_sums(t.skip(2)));
        assert(seq![2 * t[0]].to_multiset() =~= Multiset::<int>::empty().insert(2 * t[0])) by {
            assert(seq![2 * t[0]] =~= Seq::<int>::empty().push(2 * t[0]));
        }
        assert(seq![t[0]].to_multiset() =~= Multiset::<int>::empty().insert(t[0])) by {
            assert(seq![t[0]] =~= Seq::<int>::empty().push(t[0]));
        }
        assert(merged(t) == seq![2 * t[0]] + merged(t.skip(2)));
        assert(merge_pairs(t) == seq![t[0]] + merge_pairs(t.skip(2)));
        assert(merge_sums(t) == seq![2 * t[0]] + merge_sums(t.skip(2)));
        assert forall|x: int|
            merged(t).to_multiset().add(merge_pairs(t).to_multiset()).add(
                merge_pairs(t).to_multiset(),
            ).count(x) == t.to_multiset().add(merge_sums(t).to_multiset()).count(x) by {
            assert(merged(t.skip(2)).to_multiset().add(merge_pairs(t.skip(2)).to_multiset()).add(
                merge_pairs(t.skip(2)).to_multiset(),
            ).count(x) == t.skip(2).to_multiset().add(merge_sums(t.skip(2)).to_multiset()).count(
                x,
            ));
            assert(merged(t).to_multiset().count(x) == seq![2 * t[0]].to_multiset().count(x)
                + merged(t.skip(2)).to_multiset().count(x));
            assert(merge_pairs(t).to_multiset().count(x) == seq![t[0]].to_multiset().count(x)
                + merge_pairs(t.skip(2)).to_multiset().count(x));
            assert(merge_sums(t).to_multiset().count(x) == seq![2 * t[0]].to_multiset().count(x)
                + merge_sums(t.skip(2)).to_multiset().count(x));
            assert(t.to_multiset().count(x) == seq![t[0], t[1]].to_multiset().count(x) + t.skip(
                2,
            ).to_multiset().count(x));
            assert(seq![t[0], t[1]].to_multiset().count(x) == seq![t[0]].to_multiset().count(x)
                + seq![t[0]].to_multiset().count(x)) by {
                assert(seq![t[0], t[1]].to_multiset() =~= Multiset::<int>::empty().insert(
                    t[0],
                ).insert(t[1]));
                assert(seq![t[0]].to_multiset() =~= Multiset::<int>::empty().insert(t[0]));
            }
        }
        assert(merged(t).to_multiset().add(merge_pairs(t).to_multiset()).add(
            merge_pairs(t).to_multiset(),
        ) =~= t.to_multiset().add(merge_sums(t).to_multiset()));
    } else {
        lemma_merged_multiset(t.skip(1));
        assert(t =~= seq![t[0]] + t.skip(1));
        lemma_multiset_commutative(seq![t[0]], t.skip(1));
        lemma_multiset_commutative(seq![t[0]], merged(t.skip(1)));
        assert(seq![t[0]].to_multiset() =~= Multiset::<int>::empty().insert(t[0])) by {
            assert(seq![t[0]] =~= Seq::<int>::empty().push(t[0]));
        }
        assert(merged(t) == seq![t[0]] + merged(t.skip(1)));
        assert(merge_pairs(t) == merge_pairs(t.skip(1)));
        assert(merge_sums(t) == merge_sums(t.skip(1)));
        assert forall|x: int|
            merged(t).to_multiset().add(merge_pairs(t).to_multiset()).add(
                merge_pairs(t).to_multiset(),
            ).count(x) == t.to_multiset().add(merge_sums(t).to_multiset()).count(x) by {
            assert(merged(t.skip(1)).to_multiset().add(merge_pairs(t.skip(1)).to_multiset()).add(
                merge_pairs(t.skip(1)).to_multiset(),
            ).count(x) == t.skip(1).to_multiset().add(merge_sums(t.skip(1)).to_multiset()).count(
                x,
            ));
            assert(merged(t).to_multiset().count(x) == seq![t[0]].to_multiset().count(x) + merged(
                t.skip(1),
            ).to_multiset().count(x));
            assert(t.to_multiset().count(x) == seq![t[0]].to_multiset().count(x) + t.skip(
                1,
            ).to_multiset().count(x));
        }
        assert(merged(t).to_multiset().add(merge_pairs(t).to_multiset()).add(
            merge_pairs(t).to_multiset(),
        ) =~= t.to_multiset().add(merge_sums(t).to_multiset()));
    }
}

/// Conservation under one swipe of a lane: the multiset law for its tiles,
/// and the occupied-cell law — the lane loses exactly one occupied cell per
/// merged pair.
pub proof fn lemma_lane_conservation(l: Seq<int>)
    requires
        l.len() == 4,
    ensures
        compact(lane_result(l)).to_multiset().add(merge_pairs(compact(l)).to_multiset()).add(
            merge_pairs(compact(l)).to_multiset(),
        ) == compact(l).to_multiset().add(merge_sums(compact(l)).to_multiset()),
        zcount(lane_result(l)) == zcount(l) + merge_pairs(compact(l)).len(),
{
    lemma_compact_of_result(l);
    lemma_merged_multiset(compact(l));
    lemma_lane_result_zeros(l);
}

/// Sliding is maximal: a swipe packs every lane toward the leading edge, so
/// repeating the same direction moves nothing, and is illegal outright
/// unless the swipe itself created a new adjacent equal pair.
pub proof fn lemma_repeat_swipe_illegal(s1: Seq<u64>, s2: Seq<u64>, d: Dir)
    requires
        s1.len() == 16,
        apply_lanes(s1, s2, d),
        forall|l: int, q: int|
            0 <= l < 4 && 0 <= q < 3 ==> !(#[trigger] lane_seq(s2, d, l)[q] != 0 && lane_seq(
                s2,
                d,
                l,
            )[q] == lane_seq(s2, d, l)[q + 1]),
    ensures
        !legal(s2, d),
{
    assert forall|l: int| 0 <= l < 4 implies lane_result(lane_seq(s2, d, l)) == lane_seq(
        s2,
        d,
        l,
    ) by {
        let lane1 = lane_seq(s1, d, l);
        let lane2 = lane_seq(s2, d, l);
        let m = merged(compact(lane1));
        lemma_compact_parts(lane1);
        lemma_merged_parts(compact(lane1));
        lemma_compact_of_result(lane1);
        assert(compact(lane2) == m);
        assert forall|q: int| 0 <= q < m.len() - 1 implies #[trigger] m[q] != m[q + 1] by {
            assert(lane2[q] == m[q] && lane2[q + 1] == m[q + 1]);
            assert(m[q] != 0);
        }
        lemma_merged_none(m);
        assert(lane_result(lane2) == pad4(m));
        assert(pad4(m) == lane2);
    }
}

/// The tiles of a grid, read lane by lane for direction `d`.  By
/// `lemma_sxy_bijective` the four lanes partition the sixteen cells, so this
/// is every occupied cell of the grid exactly once.
pub open spec fn grid_tiles(s: Seq<u64>, d: Dir) -> Seq<int> {
    compact(lane_seq(s, d, 0)) + compact(lane_seq(s, d, 1)) + compact(lane_seq(s, d, 2)) + compact(
        lane_seq(s, d, 3),
    )
}

/// The values merged by a swipe of grid `s` in direction `d`, one entry per
/// merged pair.
pub open spec fn grid_pairs(s: Seq<u64>, d: Dir) -> Seq<int> {
    merge_pairs(compact(lane_seq(s, d, 0))) + merge_pairs(compact(lane_seq(s, d, 1)))
        + merge_pairs(compact(lane_seq(s, d, 2))) + merge_pairs(compact(lane_seq(s, d, 3)))
}

/// The sums created by a swipe of grid `s` in direction `d`, one entry per
/// merged pair.
pub open spec fn grid_sums(s: Seq<u64>, d: Dir) -> Seq<int> {
    merge_sums(compact(lane_seq(s, d, 0))) + merge_sums(compact(lane_seq(s, d, 1))) + merge_sums(
        compact(lane_seq(s, d, 2)),
    ) + merge_sums(compact(lane_seq(s, d, 3)))
}

/// Conservation under one swipe of the whole grid: the multiset of tiles
/// after the move, together with both halves of every merged pair, equals
/// the multiset of tiles before, together with every merged pair's sum — no
/// tile value is created or destroyed except by merge arithmetic.
pub proof fn lemma_swipe_conservation(s1: Seq<u64>, s2: Seq<u64>, d: Dir)
    requires
        s1.len() == 16,
        apply_lanes(s1, s2, d),
    ensures
        grid_tiles(s2, d).to_multiset().add(grid_pairs(s1, d).to_multiset()).add(
            grid_pairs(s1, d).to_multiset(),
        ) == grid_tiles(s1, d).to_multiset().add(grid_sums(s1, d).to_multiset()),
        grid_tiles(s2, d).len() == grid_tiles(s1, d).len() - grid_pairs(s1, d).len(),
{
    broadcast use vstd::multiset::group_multiset_axioms;

    assert forall|l: int| 0 <= l < 4 implies compact(lane_seq(s2, d, l)).to_multiset().add(
        merge_pairs(compact(lane_seq(s1, d, l))).to_multiset(),
    ).add(merge_pairs(compact(lane_seq(s1, d, l))).to_multiset()) == compact(
        lane_seq(s1, d, l),
    ).to_multiset().add(merge_sums(compact(lane_seq(s1, d, l))).to_multiset()) && compact(
        lane_seq(s2, d, l),
    ).len() == compact(lane_seq(s1, d, l)).len() - merge_pairs(
        compact(lane_seq(s1, d, l)),
    ).len() by {
        lemma_compact_of_result(lane_seq(s1, d, l));
        lemma_merged_multiset(compact(lane_seq(s1, d, l)));
        lemma_compact_parts(lane_seq(s1, d, l));
        lemma_merged_parts(compact(lane_seq(s1, d, l)));
    }
    lemma_multiset_commutative(
        compact(lane_seq(s2, d, 0)) + compact(lane_seq(s2, d, 1)) + compact(lane_seq(s2, d, 2)),
        compact(lane_seq(s2, d, 3)),
    );
    lemma_multiset_commutative(
        compact(lane_seq(s2, d, 0)) + compact(lane_seq(s2, d, 1)),
        compact(lane_seq(s2, d, 2)),
    );
    lemma_multiset_commutative(compact(lane_seq(s2, d, 0)), compact(lane_seq(s2, d, 1)));
    lemma_multiset_commutative(
        compact(lane_seq(s1, d, 0)) + compact(lane_seq(s1, d, 1)) + compact(lane_seq(s1, d, 2)),
        compact(lane_seq(s1, d, 3)),
    );
    lemma_multiset_commutative(
        compact(lane_seq(s1, d, 0)) + compact(lane_seq(s1, d, 1)),
        compact(lane_seq(s1, d, 2)),
    );
    lemma_multiset_commutative(compact(lane_seq(s1, d, 0)), compact(lane_seq(s1, d, 1)));
    lemma_multiset_commutative(
        merge_pairs(compact(lane_seq(s1, d, 0))) + merge_pairs(compact(lane_seq(s1, d, 1)))
            + merge_pairs(compact(lane_seq(s1, d, 2))),
        merge_pairs(compact(lane_seq(s1, d, 3))),
    );
    lemma_multiset_commutative(
        merge_pairs(compact(lane_seq(s1, d, 0))) + merge_pairs(compact(lane_seq(s1, d, 1))),
        merge_pairs(compact(lane_seq(s1, d, 2))),
    );
    lemma_multiset_commutative(
        merge_pairs(compact(lane_seq(s1, d, 0))),
        merge_pairs(compact(lane_seq(s1, d, 1))),
    );
    lemma_multiset_commutative(
        merge_sums(compact(lane_seq(s1, d, 0))) + merge_sums(compact(lane_seq(s1, d, 1)))
            + merge_sums(compact(lane_seq(s1, d, 2))),
        merge_sums(compact(lane_seq(s1, d, 3))),
    );
    lemma_multiset_commutative(
        merge_sums(compact(lane_seq(s1, d, 0))) + merge_sums(compact(lane_seq(s1, d, 1))),
        merge_sums(compact(lane_seq(s1, d, 2))),
    );
    lemma_multiset_commutative(
        merge_sums(compact(lane_seq(s1, d, 0))),
        merge_sums(compact(lane_seq(s1, d, 1))),
    );
    assert forall|x: int|
        grid_tiles(s2, d).to_multiset().add(grid_pairs(s1, d).to_multiset()).add(
            grid_pairs(s1, d).to_multiset(),
        ).count(x) == grid_tiles(s1, d).to_multiset().add(grid_sums(s1, d).to_multiset()).count(
        x,
    ) by {
            assert(compact(lane_seq(s2, d, 0)).to_multiset().add(
                merge_pairs(compact(lane_seq(s1, d, 0))).to_multiset(),
            ).add(merge_pairs(compact(lane_seq(s1, d, 0))).to_multiset()).count(x) == compact(
                lane_seq(s1, d, 0),
            ).to_multiset().add(merge_sums(compact(lane_seq(s1, d, 0))).to_multiset()).count(x));
            assert(compact(lane_seq(s2, d, 1)).to_multiset().add(
                merge_pairs(compact(lane_seq(s1, d, 1))).to_multiset(),
            ).add(merge_pairs(compact(lane_seq(s1, d, 1))).to_multiset()).count(x) == compact(
                lane_seq(s1, d, 1),
            ).to_multiset().add(merge_sums(compact(lane_seq(s1, d, 1))).to_multiset()).count(x));
            assert(compact(lane_seq(s2, d, 2)).to_multiset().add(
                merge_pairs(compact(lane_seq(s1, d, 2))).to_multiset(),
            ).add(merge_pairs(compact(lane_seq(s1, d, 2))).to_multiset()).count(x) == compact(
                lane_seq(s1, d, 2),
            ).to_multiset().add(merge_sums(compact(lane_seq(s1, d, 2))).to_multiset()).count(x));
            assert(compact(lane_seq(s2, d, 3)).to_multiset().add(
                merge_pairs(compact(lane_seq(s1, d, 3))).to_multiset(),
            ).add(merge_pairs(compact(lane_seq(s1, d, 3))).to_multiset()).count(x) == compact(
                lane_seq(s1, d, 3),
            ).to_multiset().add(merge_sums(compact(lane_seq(s1, d, 3))).to_multiset()).count(x));
    }
    assert(grid_tiles(s2, d).to_multiset().add(grid_pairs(s1, d).to_multiset()).add(
        grid_pairs(s1, d).to_multiset(),
    ) =~= grid_tiles(s1, d).to_multiset().add(grid_sums(s1, d).to_multiset()));
}

} // verus!
