//! Mathematical model of the game: how a swipe acts on the sixteen cells.
//!
//! A swipe decomposes the grid into four independent lanes (rows or columns,
//! read from the leading edge in the direction of travel).  Each lane is
//! compacted (empties removed), then adjacent equal tiles merge pairwise from
//! the leading edge, each tile merging at most once; the merged lane is padded
//! with empties back to length four.  The score of a move is the sum of the
//! merged tile values.

use vstd::prelude::*;

verus! {

/// One of the four swipe directions.
#[derive(Clone, Copy, Debug, PartialEq, Eq, Structural)]
pub enum Dir {
    Up,
    Down,
    Left,
    Right,
}

/// Largest tile value a swipe accepts.  Far above anything reachable in play
/// (the largest tile obtainable on a 4x4 board is 131072), yet small enough
/// that merge results and accumulated scores stay well inside `u64`.
pub const TILE_LIMIT: u64 = 0x1_0000_0000;

/// A playout whose accumulated score passes this bound is cut short.  Far
/// above any reachable game score, and low enough that one more move's score
/// still fits in `u64`.
pub const SCORE_GUARD: u64 = 0x400_0000_0000_0000;

/// Linear cell index of offset `off` (distance from the leading edge) in lane
/// `lane` for direction `d`.  This mapping is the single source of truth for
/// traversal order: Left/Right traverse rows in ascending/descending column
/// order, Up/Down traverse columns in ascending/descending row order.
pub open spec fn sxy(d: Dir, lane: int, off: int) -> int {
    match d {
        Dir::Left => lane * 4 + off,
        Dir::Right => lane * 4 + 3 - off,
        Dir::Up => off * 4 + lane,
        Dir::Down => (3 - off) * 4 + lane,
    }
}

/// The four cell values of lane `lane` of grid `s`, read from the leading edge.
pub open spec fn lane_seq(s: Seq<u64>, d: Dir, lane: int) -> Seq<int> {
    Seq::new(4, |off: int| s[sxy(d, lane, off)] as int)
}

/// The tiles of a lane in order, with empty cells removed.
pub open spec fn compact(l: Seq<int>) -> Seq<int>
    decreases l.len(),
{
    if l.len() == 0 {
        Seq::empty()
    } else if l[0] == 0 {
        compact(l.skip(1))
    } else {
        seq![l[0]] + compact(l.skip(1))
    }
}

/// Pairwise merging of a compacted lane, from the leading edge: the first two
/// tiles merge if equal, and a merged tile takes no further part in the swipe.
pub open spec fn merged(t: Seq<int>) -> Seq<int>
    decreases t.len(),
{
    if t.len() <= 1 {
        t
    } else if t[0] == t[1] {
        seq![2 * t[0]] + merged(t.skip(2))
    } else {
        seq![t[0]] + merged(t.skip(1))
    }
}

/// Score gained by merging a compacted lane: each merge contributes the
/// post-merge value of its destination tile.
pub open spec fn merge_score(t: Seq<int>) -> int
    decreases t.len(),
{
    if t.len() <= 1 {
        0
    } else if t[0] == t[1] {
        2 * t[0] + merge_score(t.skip(2))
    } else {
        merge_score(t.skip(1))
    }
}

/// The values that merge during a swipe of a compacted lane, one entry per
/// merged pair (the pair `(v, v)` is recorded as `v`).
pub open spec fn merge_pairs(t: Seq<int>) -> Seq<int>
    decreases t.len(),
{
    if t.len() <= 1 {
        Seq::empty()
    } else if t[0] == t[1] {
        seq![t[0]] + merge_pairs(t.skip(2))
    } else {
        merge_pairs(t.skip(1))
    }
}

/// The sums created by the merges of a swipe of a compacted lane, one entry
/// per merged pair (the pair `(v, v)` is recorded as `2 * v`).
pub open spec fn merge_sums(t: Seq<int>) -> Seq<int>
    decreases t.len(),
{
    if t.len() <= 1 {
        Seq::empty()
    } else if t[0] == t[1] {
        seq![2 * t[0]] + merge_sums(t.skip(2))
    } else {
        merge_sums(t.skip(1))
    }
}

/// A lane padded with empty cells back to length four.
pub open spec fn pad4(t: Seq<int>) -> Seq<int> {
    if t.len() <= 4 {
        t + Seq::new((4 - t.len()) as nat, |_i: int| 0int)
    } else {
        t
    }
}

/// What one lane becomes under a swipe.
pub open spec fn lane_result(l: Seq<int>) -> Seq<int> {
    pad4(merged(compact(l)))
}

/// Score gained in one lane under a swipe.
pub open spec fn lane_score(l: Seq<int>) -> int {
    merge_score(compact(l))
}

/// A swipe is legal exactly when it changes some lane.
pub open spec fn legal(s: Seq<u64>, d: Dir) -> bool {
    exists|l: int| 0 <= l < 4 && lane_result(lane_seq(s, d, l)) != lane_seq(s, d, l)
}

/// Score gained by a swipe of grid `s` in direction `d` over the first `n`
/// lanes.
pub open spec fn score_upto(s: Seq<u64>, d: Dir, n: int) -> int
    decreases n,
{
    if n <= 0 {
        0
    } else {
        score_upto(s, d, n - 1) + lane_score(lane_seq(s, d, n - 1))
    }
}

/// Total score gained by a swipe of grid `s` in direction `d`.
pub open spec fn swipe_score(s: Seq<u64>, d: Dir) -> int {
    score_upto(s, d, 4)
}

/// `v` is a tile value: a power of two greater than or equal to two.
pub open spec fn is_tile(v: int) -> bool
    decreases v,
{
    v == 2 || (v > 2 && v % 2 == 0 && is_tile(v / 2))
}

/// Every non-empty cell of the grid holds a power of two at least two.
pub open spec fn grid_ok(s: Seq<u64>) -> bool {
    s.len() == 16 && forall|i: int| 0 <= i < 16 ==> s[i] == 0 || is_tile(s[i] as int)
}

/// Number of empty cells among the first `n` cells of `s`.
pub open spec fn count_zeros_upto(s: Seq<u64>, n: int) -> int
    decreases n,
{
    if n <= 0 {
        0
    } else {
        count_zeros_upto(s, n - 1) + if s[n - 1] == 0 {
            1int
        } else {
            0int
        }
    }
}

/// Number of empty cells of a grid.
pub open spec fn num_empty(s: Seq<u64>) -> int {
    count_zeros_upto(s, s.len() as int)
}

/// Number of empty cells of a lane.
pub open spec fn zcount(l: Seq<int>) -> int
    decreases l.len(),
{
    if l.len() == 0 {
        0
    } else {
        (if l[0] == 0 {
            1int
        } else {
            0int
        }) + zcount(l.skip(1))
    }
}

/// A lane as a sequence of mathematical integers.
pub open spec fn ints(s: Seq<u64>) -> Seq<int> {
    s.map_values(|v: u64| v as int)
}

/// Compacting one more cell keeps the tiles already collected and appends the
/// new cell exactly when it holds a tile.
pub proof fn lemma_compact_push(s: Seq<int>, v: int)
    ensures
        compact(s.push(v)) == if v == 0 {
            compact(s)
        } else {
            compact(s).push(v)
        },
    decreases s.len(),
{
    if s.len() == 0 {
        assert(s =~= Seq::<int>::empty());
        assert(s.push(v).skip(1) =~= Seq::<int>::empty());
        assert(compact(Seq::<int>::empty()) == Seq::<int>::empty());
        if v != 0 {
            assert(compact(s.push(v)) == seq![v] + compact(s.push(v).skip(1)));
            assert(seq![v] + Seq::<int>::empty() =~= Seq::<int>::empty().push(v));
        }
    } else {
        assert(s.push(v).skip(1) =~= s.skip(1).push(v));
        lemma_compact_push(s.skip(1), v);
        if s[0] != 0 && v != 0 {
            assert(seq![s[0]] + compact(s.skip(1)).push(v) =~= (seq![s[0]] + compact(s.skip(1))).push(
            v));
        }
    }
}

/// Compaction keeps exactly the tiles of the lane: the result holds no empty
/// cell, every entry is an entry of the lane, and the lengths account for the
/// empties removed.
pub proof fn lemma_compact_parts(l: Seq<int>)
    ensures
        compact(l).len() + zcount(l) == l.len(),
        zcount(l) >= 0,
        forall|j: int|
            0 <= j < compact(l).len() ==> compact(l)[j] != 0 && l.contains(compact(l)[j]),
    decreases l.len(),
{
    if l.len() == 0 {
    } else {
        lemma_compact_parts(l.skip(1));
        assert(forall|j: int|
            0 <= j < l.skip(1).len() ==> l.skip(1)[j] == l[j + 1] && l.contains(l[j + 1]));
        if l[0] != 0 {
            assert(forall|j: int|
                1 <= j < compact(l).len() ==> compact(l)[j] == compact(l.skip(1))[j - 1]);
            assert(l.contains(l[0]));
        }
    }
}

/// Merging keeps exactly the tiles of a compacted lane: one cell is freed per
/// merged pair, every resulting entry is a tile of the lane or the double of
/// one, and no resulting entry is empty.
pub proof fn lemma_merged_parts(t: Seq<int>)
    requires
        forall|j: int| 0 <= j < t.len() ==> t[j] != 0,
    ensures
        merged(t).len() + merge_pairs(t).len() == t.len(),
        merge_pairs(t).len() >= 0,
        forall|j: int|
            0 <= j < merged(t).len() ==> merged(t)[j] != 0 && (t.contains(merged(t)[j])
                || exists|k: int| 0 <= k < t.len() && merged(t)[j] == 2 * t[k]),
    decreases t.len(),
{
    if t.len() <= 1 {
        assert(forall|j: int| 0 <= j < merged(t).len() ==> t.contains(merged(t)[j]));
    } else if t[0] == t[1] {
        lemma_merged_parts(t.skip(2));
        assert(forall|j: int| 0 <= j < t.skip(2).len() ==> t.skip(2)[j] == t[j + 2]);
        assert(forall|j: int|
            1 <= j < merged(t).len() ==> merged(t)[j] == merged(t.skip(2))[j - 1]);
        assert(merged(t)[0] == 2 * t[0]);
        assert(forall|v: int| t.skip(2).contains(v) ==> t.contains(v)) by {
            assert(forall|v: int| t.skip(2).contains(v) ==> exists|k: int|
                0 <= k < t.skip(2).len() && t.skip(2)[k] == v);
            assert(forall|k: int| 0 <= k < t.skip(2).len() ==> t.skip(2)[k] == t[k + 2]);
        }
    } else {
        lemma_merged_parts(t.skip(1));
        assert(forall|j: int| 0 <= j < t.skip(1).len() ==> t.skip(1)[j] == t[j + 1]);
        assert(forall|j: int|
            1 <= j < merged(t).len() ==> merged(t)[j] == merged(t.skip(1))[j - 1]);
        assert(merged(t)[0] == t[0]);
        assert(forall|v: int| t.skip(1).contains(v) ==> t.contains(v)) by {
            assert(forall|v: int| t.skip(1).contains(v) ==> exists|k: int|
                0 <= k < t.skip(1).len() && t.skip(1)[k] == v);
        }
    }
}

/// The lane mapping hits only cells of the grid, hits each cell once, and
/// hits every cell.
pub proof fn lemma_sxy_bijective(d: Dir)
    ensures
        forall|l: int, o: int| 0 <= l < 4 && 0 <= o < 4 ==> 0 <= #[trigger] sxy(d, l, o) < 16,
        forall|l: int, o: int, l2: int, o2: int|
            0 <= l < 4 && 0 <= o < 4 && 0 <= l2 < 4 && 0 <= o2 < 4 && (l != l2 || o != o2)
                ==> #[trigger] sxy(d, l, o) != #[trigger] sxy(d, l2, o2),
        forall|i: int|
            0 <= i < 16 ==> 0 <= lane_of(d, i) < 4 && 0 <= off_of(d, i) < 4 && #[trigger] sxy(
                d,
                lane_of(d, i),
                off_of(d, i),
            ) == i,
{
}

/// The lane holding cell `i` under direction `d`.
pub open spec fn lane_of(d: Dir, i: int) -> int {
    match d {
        Dir::Left => i / 4,
        Dir::Right => i / 4,
        Dir::Up => i % 4,
        Dir::Down => i % 4,
    }
}

/// The offset of cell `i` from the leading edge under direction `d`.
pub open spec fn off_of(d: Dir, i: int) -> int {
    match d {
        Dir::Left => i % 4,
        Dir::Right => 3 - i % 4,
        Dir::Up => i / 4,
        Dir::Down => 3 - i / 4,
    }
}

/// Counting empty cells over a longer prefix never counts fewer, and at most
/// one more per cell.
pub proof fn lemma_count_zeros_mono(s: Seq<u64>, a: int, b: int)
    requires
        0 <= a <= b,
    ensures
        count_zeros_upto(s, a) <= count_zeros_upto(s, b) <= count_zeros_upto(s, a) + (b - a),
    decreases b - a,
{
    if a < b {
        lemma_count_zeros_mono(s, a, b - 1);
    }
}

/// Writing a tile into an empty cell lowers the empty count of every prefix
/// beyond it by one.
pub proof fn lemma_count_zeros_update(s: Seq<u64>, k: int, v: u64, n: int)
    requires
        0 <= k < s.len(),
        n <= s.len(),
        s[k] == 0,
        v != 0,
    ensures
        count_zeros_upto(s.update(k, v), n) == count_zeros_upto(s, n) - if k < n {
            1int
        } else {
            0int
        },
    decreases n,
{
    if n > 0 {
        lemma_count_zeros_update(s, k, v, n - 1);
    }
}

/// Empty-cell counts add up over concatenation.
pub proof fn lemma_zcount_concat(a: Seq<int>, b: Seq<int>)
    ensures
        zcount(a + b) == zcount(a) + zcount(b),
    decreases a.len(),
{
    if a.len() == 0 {
        assert(a + b =~= b);
    } else {
        assert((a + b).skip(1) =~= a.skip(1) + b);
        lemma_zcount_concat(a.skip(1), b);
    }
}

/// A run of empty cells counts its own length.
pub proof fn lemma_zcount_zeros(n: nat)
    ensures
        zcount(Seq::new(n, |_i: int| 0int)) == n,
    decreases n,
{
    if n > 0 {
        assert(Seq::new(n, |_i: int| 0int).skip(1) =~= Seq::new((n - 1) as nat, |_i: int| 0int));
        lemma_zcount_zeros((n - 1) as nat);
    }
}

/// A sequence of tiles has no empty cell to count.
pub proof fn lemma_zcount_nonzero(m: Seq<int>)
    requires
        forall|q: int| 0 <= q < m.len() ==> m[q] != 0,
    ensures
        zcount(m) == 0,
    decreases m.len(),
{
    if m.len() > 0 {
        assert(forall|q: int| 0 <= q < m.skip(1).len() ==> m.skip(1)[q] == m[q + 1]);
        lemma_zcount_nonzero(m.skip(1));
    }
}

/// Compacting a lane without empty cells changes nothing.
pub proof fn lemma_compact_full(l: Seq<int>)
    requires
        zcount(l) == 0,
    ensures
        compact(l) == l,
    decreases l.len(),
{
    if l.len() > 0 {
        lemma_compact_parts(l.skip(1));
        assert(l[0] != 0);
        lemma_compact_full(l.skip(1));
        assert(seq![l[0]] + l.skip(1) =~= l);
    }
}

/// A lane in which no two adjacent tiles are equal merges nothing.
pub proof fn lemma_merged_none(t: Seq<int>)
    requires
        forall|q: int| 0 <= q < t.len() - 1 ==> #[trigger] t[q] != t[q + 1],
    ensures
        merged(t) == t,
        merge_score(t) == 0,
        merge_pairs(t) == Seq::<int>::empty(),
    decreases t.len(),
{
    if t.len() <= 1 {
        assert(merge_pairs(t) =~= Seq::<int>::empty());
    } else {
        assert(forall|q: int| 0 <= q < t.skip(1).len() ==> t.skip(1)[q] == t[q + 1]);
        lemma_merged_none(t.skip(1));
        assert(seq![t[0]] + t.skip(1) =~= t);
    }
}

/// Compaction distributes over concatenation.
pub proof fn lemma_compact_concat(a: Seq<int>, b: Seq<int>)
    ensures
        compact(a + b) == compact(a) + compact(b),
    decreases a.len(),
{
    if a.len() == 0 {
        assert(a + b =~= b);
        assert(compact(a) + compact(b) =~= compact(b));
    } else {
        assert((a + b).skip(1) =~= a.skip(1) + b);
        lemma_compact_concat(a.skip(1), b);
        if a[0] != 0 {
            assert(seq![a[0]] + (compact(a.skip(1)) + compact(b)) =~= (seq![a[0]] + compact(
                a.skip(1),
            )) + compact(b));
        }
    }
}

/// A grid with an empty cell somewhere counts at least one empty cell.
pub proof fn lemma_zero_cell_num_empty(s: Seq<u64>, k: int)
    requires
        s.len() == 16,
        0 <= k < 16,
        s[k] == 0,
    ensures
        num_empty(s) >= 1,
{
    lemma_count_zeros_mono(s, 0, k);
    lemma_count_zeros_mono(s, k + 1, 16);
}

/// A lane that counts an empty cell holds one.
pub proof fn lemma_zcount_positive(l: Seq<int>)
    requires
        zcount(l) > 0,
    ensures
        exists|o: int| 0 <= o < l.len() && l[o] == 0,
    decreases l.len(),
{
    if l.len() > 0 {
        if l[0] == 0 {
        } else {
            lemma_zcount_positive(l.skip(1));
            let o = choose|o: int| 0 <= o < l.skip(1).len() && l.skip(1)[o] == 0;
            assert(l[o + 1] == 0);
        }
    }
}

/// A swipe frees exactly one cell per merged pair in every lane.
pub proof fn lemma_lane_result_zeros(l: Seq<int>)
    requires
        l.len() == 4,
    ensures
        zcount(lane_result(l)) == zcount(l) + merge_pairs(compact(l)).len(),
        merge_pairs(compact(l)).len() >= 0,
{
    lemma_compact_parts(l);
    lemma_merged_parts(compact(l));
    let m = merged(compact(l));
    lemma_zcount_nonzero(m);
    lemma_zcount_concat(m, Seq::new((4 - m.len()) as nat, |_i: int| 0int));
    lemma_zcount_zeros((4 - m.len()) as nat);
}

/// A legal swipe leaves at least one empty cell: either the board already
/// had one in the changed lane's grid, or the change merged a pair and freed
/// a cell.  This is what lets a new tile be spawned right after every
/// successful move.
pub proof fn lemma_legal_keeps_empty(s1: Seq<u64>, s2: Seq<u64>, d: Dir)
    requires
        s1.len() == 16,
        s2.len() == 16,
        forall|l: int| 0 <= l < 4 ==> lane_seq(s2, d, l) == lane_result(lane_seq(s1, d, l)),
        legal(s1, d),
    ensures
        num_empty(s2) >= 1,
{
    lemma_sxy_bijective(d);
    let l = choose|l: int| 0 <= l < 4 && lane_result(lane_seq(s1, d, l)) != lane_seq(s1, d, l);
    let lane = lane_seq(s1, d, l);
    lemma_lane_result_zeros(lane);
    lemma_compact_parts(lane);
    if zcount(lane) == 0 && merge_pairs(compact(lane)).len() == 0 {
        lemma_compact_full(lane);
        assert forall|q: int| 0 <= q < compact(lane).len() - 1 implies #[trigger] compact(
            lane,
        )[q] != compact(lane)[q + 1] by {
            if compact(lane)[q] == compact(lane)[q + 1] {
                lemma_merge_pairs_found(compact(lane), q);
            }
        }
        lemma_merged_none(compact(lane));
        assert(pad4(lane) =~= lane);
        assert(lane_result(lane) == lane);
    }
    assert(zcount(lane_seq(s2, d, l)) >= 1);
    lemma_zcount_positive(lane_seq(s2, d, l));
    let o = choose|o: int| 0 <= o < 4 && lane_seq(s2, d, l)[o] == 0;
    assert(s2[sxy(d, l, o)] == 0);
    lemma_zero_cell_num_empty(s2, sxy(d, l, o));
}

/// A lane with two adjacent equal tiles merges at least one pair.
pub proof fn lemma_merge_pairs_found(t: Seq<int>, q: int)
    requires
        forall|p: int| 0 <= p < t.len() ==> t[p] != 0,
        0 <= q < t.len() - 1,
        t[q] == t[q + 1],
    ensures
        merge_pairs(t).len() >= 1,
    decreases t.len(),
{
    if t.len() <= 1 {
    } else if t[0] == t[1] {
    } else {
        assert(forall|p: int| 0 <= p < t.skip(1).len() ==> t.skip(1)[p] == t[p + 1]);
        lemma_merge_pairs_found(t.skip(1), q - 1);
    }
}

/// Two grids whose lanes agree cell-wise are equal.
pub proof fn lemma_grids_equal(s1: Seq<u64>, s2: Seq<u64>, d: Dir)
    requires
        s1.len() == 16,
        s2.len() == 16,
        forall|l: int| 0 <= l < 4 ==> lane_seq(s1, d, l) == lane_seq(s2, d, l),
    ensures
        s1 == s2,
{
    lemma_sxy_bijective(d);
    assert forall|i: int| 0 <= i < 16 implies s1[i] == s2[i] by {
        let l = lane_of(d, i);
        let o = off_of(d, i);
        assert(lane_seq(s1, d, l)[o] == s1[i]);
        assert(lane_seq(s2, d, l)[o] == s2[i]);
    }
    assert(s1 =~= s2);
}

/// Two grids related lane-wise by one swipe in direction `d`.
pub open spec fn apply_lanes(s1: Seq<u64>, s2: Seq<u64>, d: Dir) -> bool {
    s2.len() == 16 && forall|l: int|
        0 <= l < 4 ==> lane_seq(s2, d, l) == lane_result(lane_seq(s1, d, l))
}

/// Doubling a tile value gives a tile value.
pub proof fn lemma_tile_double(v: int)
    requires
        is_tile(v),
    ensures
        is_tile(2 * v),
{
    assert(v >= 2);
    assert((2 * v) % 2 == 0 && (2 * v) / 2 == v);
}

/// A swipe of a lane of tiles yields a lane of tiles: every resulting cell is
/// empty, an old tile, or the sum of a merged pair.
pub proof fn lemma_lane_result_tiles(l: Seq<int>)
    requires
        forall|o: int| 0 <= o < l.len() ==> l[o] == 0 || is_tile(l[o]),
    ensures
        forall|o: int|
            0 <= o < lane_result(l).len() ==> lane_result(l)[o] == 0 || is_tile(lane_result(l)[o]),
{
    lemma_compact_parts(l);
    lemma_merged_parts(compact(l));
    let m = merged(compact(l));
    assert forall|o: int| 0 <= o < m.len() implies m[o] == 0 || is_tile(m[o]) by {
        if m[o] != 0 {
            if compact(l).contains(m[o]) {
                let q = choose|q: int| 0 <= q < compact(l).len() && compact(l)[q] == m[o];
                let w = choose|w: int| 0 <= w < l.len() && l[w] == compact(l)[q];
                assert(is_tile(l[w]));
            } else {
                let k = choose|k: int| 0 <= k < compact(l).len() && m[o] == 2 * compact(l)[k];
                let w = choose|w: int| 0 <= w < l.len() && l[w] == compact(l)[k];
                lemma_tile_double(l[w]);
            }
        }
    }
    assert forall|o: int| 0 <= o < lane_result(l).len() implies lane_result(l)[o] == 0 || is_tile(
        lane_result(l)[o],
    ) by {
        if o < m.len() {
            assert(lane_result(l)[o] == m[o]);
        } else {
            assert(lane_result(l)[o] == 0);
        }
    }
}

/// The power-of-two invariant is preserved by every swipe: starting from a
/// grid of tiles, the moved grid again holds only empty cells and powers of
/// two.
pub proof fn lemma_swipe_grid_ok(s1: Seq<u64>, s2: Seq<u64>, d: Dir)
    requires
        grid_ok(s1),
        apply_lanes(s1, s2, d),
    ensures
        grid_ok(s2),
{
    lemma_sxy_bijective(d);
    assert forall|k: int| 0 <= k < 16 implies s2[k] == 0 || is_tile(s2[k] as int) by {
        let l = lane_of(d, k);
        let o = off_of(d, k);
        assert forall|q: int| 0 <= q < 4 implies lane_seq(s1, d, l)[q] == 0 || is_tile(
            lane_seq(s1, d, l)[q],
        ) by {
            assert(s1[sxy(d, l, q)] == 0 || is_tile(s1[sxy(d, l, q)] as int));
        }
        lemma_lane_result_tiles(lane_seq(s1, d, l));
        assert(s2[k] as int == lane_seq(s2, d, l)[o]);
    }
}

/// The power-of-two invariant is preserved by every spawn: the new cell holds
/// 2 or 4, themselves powers of two.
pub proof fn lemma_spawn_grid_ok(s1: Seq<u64>, s2: Seq<u64>)
    requires
        grid_ok(s1),
        spawn_step(s1, s2),
    ensures
        grid_ok(s2),
{
    let (k, v) = choose|k: int, v: u64|
        0 <= k < 16 && s1[k] == 0 && (v == 2 || v == 4) && s2 == s1.update(k, v);
    assert(is_tile(2));
    assert(is_tile(4)) by {
        assert(4int / 2 == 2);
    }
}

/// Sum of the first `n` cell values of `s`.
pub open spec fn sum_upto(s: Seq<u64>, n: int) -> int
    decreases n,
{
    if n <= 0 {
        0
    } else {
        sum_upto(s, n - 1) + s[n - 1]
    }
}

/// Sum of all cell values of a grid.
pub open spec fn grid_sum(s: Seq<u64>) -> int {
    sum_upto(s, 16)
}

/// Sum of the cell values of a lane.
pub open spec fn lsum(l: Seq<int>) -> int
    decreases l.len(),
{
    if l.len() == 0 {
        0
    } else {
        l[0] + lsum(l.skip(1))
    }
}

/// Lane sums add up over concatenation.
pub proof fn lemma_lsum_concat(a: Seq<int>, b: Seq<int>)
    ensures
        lsum(a + b) == lsum(a) + lsum(b),
    decreases a.len(),
{
    if a.len() == 0 {
        assert(a + b =~= b);
    } else {
        assert((a + b).skip(1) =~= a.skip(1) + b);
        lemma_lsum_concat(a.skip(1), b);
    }
}

/// A run of empty cells sums to nothing.
pub proof fn lemma_lsum_zeros(n: nat)
    ensures
        lsum(Seq::new(n, |_i: int| 0int)) == 0,
    decreases n,
{
    if n > 0 {
        assert(Seq::new(n, |_i: int| 0int).skip(1) =~= Seq::new((n - 1) as nat, |_i: int| 0int));
        lemma_lsum_zeros((n - 1) as nat);
    }
}

/// Compaction preserves a lane's sum: the removed cells are empty.
pub proof fn lemma_lsum_compact(l: Seq<int>)
    ensures
        lsum(compact(l)) == lsum(l),
    decreases l.len(),
{
    if l.len() > 0 {
        lemma_lsum_compact(l.skip(1));
        if l[0] != 0 {
            lemma_lsum_concat(seq![l[0]], compact(l.skip(1)));
            assert(seq![l[0]].skip(1) =~= Seq::<int>::empty());
            assert(lsum(Seq::<int>::empty()) == 0);
            assert(lsum(seq![l[0]]) == l[0]);
        }
    }
}

/// Merging preserves a lane's sum: each pair is replaced by its sum.
pub proof fn lemma_lsum_merged(t: Seq<int>)
    ensures
        lsum(merged(t)) == lsum(t),
    decreases t.len(),
{
    if t.len() <= 1 {
    } else if t[0] == t[1] {
        lemma_lsum_merged(t.skip(2));
        lemma_lsum_concat(seq![2 * t[0]], merged(t.skip(2)));
        assert(seq![2 * t[0]].skip(1) =~= Seq::<int>::empty());
        assert(lsum(Seq::<int>::empty()) == 0);
        assert(lsum(seq![2 * t[0]]) == 2 * t[0]);
        assert(t.skip(1)[0] == t[1]);
        assert(t.skip(1).skip(1) =~= t.skip(2));
        assert(lsum(t.skip(1)) == t[1] + lsum(t.skip(2)));
        assert(lsum(t) == t[0] + t[1] + lsum(t.skip(2)));
    } else {
        lemma_lsum_merged(t.skip(1));
        lemma_lsum_concat(seq![t[0]], merged(t.skip(1)));
        assert(seq![t[0]].skip(1) =~= Seq::<int>::empty());
        assert(lsum(Seq::<int>::empty()) == 0);
        assert(lsum(seq![t[0]]) == t[0]);
    }
}

/// A swipe of one lane preserves its sum.
pub proof fn lemma_lane_sum(l: Seq<int>)
    requires
        l.len() == 4,
    ensures
        lsum(lane_result(l)) == lsum(l),
{
    lemma_lsum_compact(l);
    lemma_compact_parts(l);
    lemma_merged_parts(compact(l));
    lemma_lsum_merged(compact(l));
    let m = merged(compact(l));
    lemma_lsum_concat(m, Seq::new((4 - m.len()) as nat, |_i: int| 0int));
    lemma_lsum_zeros((4 - m.len()) as nat);
}

/// The four-term form of a lane's sum.
pub proof fn lemma_lsum4(l: Seq<int>)
    requires
        l.len() == 4,
    ensures
        lsum(l) == l[0] + l[1] + l[2] + l[3],
{
    reveal_with_fuel(lsum, 6);
    assert(l.skip(1)[0] == l[1] && l.skip(1)[1] == l[2] && l.skip(1)[2] == l[3]);
    assert(l.skip(1).skip(1)[0] == l[2] && l.skip(1).skip(1)[1] == l[3]);
    assert(l.skip(1).skip(1).skip(1)[0] == l[3]);
    assert(lsum(l.skip(1).skip(1).skip(1).skip(1)) == 0);
}

/// The sixteen-term form of a grid's sum.
#[verifier::rlimit(100)]
pub proof fn lemma_sum16(s: Seq<u64>)
    requires
        s.len() == 16,
    ensures
        grid_sum(s) == s[0] + s[1] + s[2] + s[3] + s[4] + s[5] + s[6] + s[7] + s[8] + s[9] + s[10]
            + s[11] + s[12] + s[13] + s[14] + s[15],
{
    reveal_with_fuel(sum_upto, 17);
}

/// Writing a tile into an empty cell raises every prefix sum beyond it by
/// the tile's value.
pub proof fn lemma_sum_update(s: Seq<u64>, k: int, v: u64, n: int)
    requires
        0 <= k < s.len(),
        n <= s.len(),
        s[k] == 0,
    ensures
        sum_upto(s.update(k, v), n) == sum_upto(s, n) + if k < n {
            v as int
        } else {
            0int
        },
    decreases n,
{
    if n > 0 {
        lemma_sum_update(s, k, v, n - 1);
    }
}

/// Cell sums are non-negative and bounded by the largest cell.
pub proof fn lemma_sum_bounds(s: Seq<u64>, n: int, b: u64)
    requires
        0 <= n <= s.len(),
        forall|i: int| 0 <= i < s.len() ==> s[i] <= b,
    ensures
        0 <= sum_upto(s, n) <= n * b,
    decreases n,
{
    if n > 0 {
        lemma_sum_bounds(s, n - 1, b);
        assert((n - 1) * b + b == n * b) by (nonlinear_arith);
    }
}

/// One spawn: some empty cell becomes a 2 or a 4 and nothing else changes.
pub open spec fn spawn_step(s: Seq<u64>, t: Seq<u64>) -> bool {
    exists|k: int, v: u64|
        0 <= k < 16 && s[k] == 0 && (v == 2 || v == 4) && t == #[trigger] s.update(k, v)
}

/// Grid `s` reaches grid `t` in `n` turns, each a legal swipe followed by a
/// spawn, gaining `sc` in total: the swipes' scores summed in play order.
pub open spec fn playout_steps(s: Seq<u64>, t: Seq<u64>, sc: int, n: int) -> bool
    decreases n,
{
    if n <= 0 {
        t == s && sc == 0
    } else {
        exists|d: Dir, mid: Seq<u64>, mid2: Seq<u64>|
            #![trigger apply_lanes(s, mid, d), spawn_step(mid, mid2)]
            legal(s, d) && apply_lanes(s, mid, d) && spawn_step(mid, mid2) && playout_steps(
                mid2,
                t,
                sc - swipe_score(s, d),
                n - 1,
            )
    }
}

/// A playout trace grows at its end: one more legal swipe and spawn extends
/// it by a turn and by that swipe's score.
pub proof fn lemma_playout_snoc(
    s: Seq<u64>,
    t: Seq<u64>,
    sc: int,
    n: int,
    d: Dir,
    mid: Seq<u64>,
    t2: Seq<u64>,
)
    requires
        playout_steps(s, t, sc, n),
        n >= 0,
        legal(t, d),
        apply_lanes(t, mid, d),
        spawn_step(mid, t2),
    ensures
        playout_steps(s, t2, sc + swipe_score(t, d), n + 1),
    decreases n,
{
    if n <= 0 {
        assert(playout_steps(t2, t2, 0, 0));
        assert(legal(s, d) && apply_lanes(s, mid, d) && spawn_step(mid, t2) && playout_steps(
            t2,
            t2,
            (sc + swipe_score(t, d)) - swipe_score(s, d),
            0,
        ));
    } else {
        let (d0, mid0, mid02) = choose|d0: Dir, mid0: Seq<u64>, mid02: Seq<u64>|
            legal(s, d0) && apply_lanes(s, mid0, d0) && spawn_step(mid0, mid02) && playout_steps(
                mid02,
                t,
                sc - swipe_score(s, d0),
                n - 1,
            );
        lemma_playout_snoc(mid02, t, sc - swipe_score(s, d0), n - 1, d, mid, t2);
        assert(legal(s, d0) && apply_lanes(s, mid0, d0) && spawn_step(mid0, mid02)
            && playout_steps(
            mid02,
            t2,
            (sc + swipe_score(t, d)) - swipe_score(s, d0),
            n,
        ));
    }
}


/// A grid's cell sum is the sum of its four lanes' sums.
pub proof fn lemma_grid_sum_lanes(s: Seq<u64>, d: Dir)
    requires
        s.len() == 16,
    ensures
        grid_sum(s) == lsum(lane_seq(s, d, 0)) + lsum(lane_seq(s, d, 1)) + lsum(
            lane_seq(s, d, 2),
        ) + lsum(lane_seq(s, d, 3)),
{
    match d {
        Dir::Up => lemma_grid_sum_lanes_up(s, d),
        Dir::Down => lemma_grid_sum_lanes_down(s, d),
        Dir::Left => lemma_grid_sum_lanes_left(s, d),
        Dir::Right => lemma_grid_sum_lanes_right(s, d),
    }
}

/// A swipe preserves the sum of the cells: sliding moves tiles and merging
/// replaces two equal tiles by their sum.
pub proof fn lemma_swipe_sum(s1: Seq<u64>, s2: Seq<u64>, d: Dir)
    requires
        s1.len() == 16,
        apply_lanes(s1, s2, d),
    ensures
        grid_sum(s2) == grid_sum(s1),
{
    lemma_grid_sum_lanes(s1, d);
    lemma_grid_sum_lanes(s2, d);
    assert forall|l: int| 0 <= l < 4 implies lsum(lane_seq(s2, d, l)) == lsum(
        lane_seq(s1, d, l),
    ) by {
        lemma_lane_sum(lane_seq(s1, d, l));
    }
}


/// One direction of `lemma_grid_sum_lanes`.
#[verifier::rlimit(100)]
proof fn lemma_grid_sum_lanes_left(s: Seq<u64>, d: Dir)
    requires
        s.len() == 16,
        d == Dir::Left,
    ensures
        grid_sum(s) == lsum(lane_seq(s, d, 0)) + lsum(lane_seq(s, d, 1)) + lsum(
            lane_seq(s, d, 2),
        ) + lsum(lane_seq(s, d, 3)),
{
    lemma_sum16(s);
    lemma_lsum4(lane_seq(s, d, 0));
    assert(lane_seq(s, d, 0)[0] == s[0] as int);
    assert(lane_seq(s, d, 0)[1] == s[1] as int);
    assert(lane_seq(s, d, 0)[2] == s[2] as int);
    assert(lane_seq(s, d, 0)[3] == s[3] as int);
    assert(lsum(lane_seq(s, d, 0)) == s[0] + s[1] + s[2] + s[3]);
    lemma_lsum4(lane_seq(s, d, 1));
    assert(lane_seq(s, d, 1)[0] == s[4] as int);
    assert(lane_seq(s, d, 1)[1] == s[5] as int);
    assert(lane_seq(s, d, 1)[2] == s[6] as int);
    assert(lane_seq(s, d, 1)[3] == s[7] as int);
    assert(lsum(lane_seq(s, d, 1)) == s[4] + s[5] + s[6] + s[7]);
    lemma_lsum4(lane_seq(s, d, 2));
    assert(lane_seq(s, d, 2)[0] == s[8] as int);
    assert(lane_seq(s, d, 2)[1] == s[9] as int);
    assert(lane_seq(s, d, 2)[2] == s[10] as int);
    assert(lane_seq(s, d, 2)[3] == s[11] as int);
    assert(lsum(lane_seq(s, d, 2)) == s[8] + s[9] + s[10] + s[11]);
    lemma_lsum4(lane_seq(s, d, 3));
    assert(lane_seq(s, d, 3)[0] == s[12] as int);
    assert(lane_seq(s, d, 3)[1] == s[13] as int);
    assert(lane_seq(s, d, 3)[2] == s[14] as int);
    assert(lane_seq(s, d, 3)[3] == s[15] as int);
    assert(lsum(lane_seq(s, d, 3)) == s[12] + s[13] + s[14] + s[15]);
}

/// One direction of `lemma_grid_sum_lanes`.
#[verifier::rlimit(100)]
proof fn lemma_grid_sum_lanes_right(s: Seq<u64>, d: Dir)
    requires
        s.len() == 16,
        d == Dir::Right,
    ensures
        grid_sum(s) == lsum(lane_seq(s, d, 0)) + lsum(lane_seq(s, d, 1)) + lsum(
            lane_seq(s, d, 2),
        ) + lsum(lane_seq(s, d, 3)),
{
    lemma_sum16(s);
    lemma_lsum4(lane_seq(s, d, 0));
    assert(lane_seq(s, d, 0)[0] == s[3] as int);
    assert(lane_seq(s, d, 0)[1] == s[2] as int);
    assert(lane_seq(s, d, 0)[2] == s[1] as int);
    assert(lane_seq(s, d, 0)[3] == s[0] as int);
    assert(lsum(lane_seq(s, d, 0)) == s[3] + s[2] + s[1] + s[0]);
    lemma_lsum4(lane_seq(s, d, 1));
    assert(lane_seq(s, d, 1)[0] == s[7] as int);
    assert(lane_seq(s, d, 1)[1] == s[6] as int);
    assert(lane_seq(s, d, 1)[2] == s[5] as int);
    assert(lane_seq(s, d, 1)[3] == s[4] as int);
    assert(lsum(lane_seq(s, d, 1)) == s[7] + s[6] + s[5] + s[4]);
    lemma_lsum4(lane_seq(s, d, 2));
    assert(lane_seq(s, d, 2)[0] == s[11] as int);
    assert(lane_seq(s, d, 2)[1] == s[10] as int);
    assert(lane_seq(s, d, 2)[2] == s[9] as int);
    assert(lane_seq(s, d, 2)[3] == s[8] as int);
    assert(lsum(lane_seq(s, d, 2)) == s[11] + s[10] + s[9] + s[8]);
    lemma_lsum4(lane_seq(s, d, 3));
    assert(lane_seq(s, d, 3)[0] == s[15] as int);
    assert(lane_seq(s, d, 3)[1] == s[14] as int);
    assert(lane_seq(s, d, 3)[2] == s[13] as int);
    assert(lane_seq(s, d, 3)[3] == s[12] as int);
    assert(lsum(lane_seq(s, d, 3)) == s[15] + s[14] + s[13] + s[12]);
}

/// One direction of `lemma_grid_sum_lanes`.
#[verifier::rlimit(100)]
proof fn lemma_grid_sum_lanes_up(s: Seq<u64>, d: Dir)
    requires
        s.len() == 16,
        d == Dir::Up,
    ensures
        grid_sum(s) == lsum(lane_seq(s, d, 0)) + lsum(lane_seq(s, d, 1)) + lsum(
            lane_seq(s, d, 2),
        ) + lsum(lane_seq(s, d, 3)),
{
    lemma_sum16(s);
    lemma_lsum4(lane_seq(s, d, 0));
    assert(lane_seq(s, d, 0)[0] == s[0] as int);
    assert(lane_seq(s, d, 0)[1] == s[4] as int);
    assert(lane_seq(s, d, 0)[2] == s[8] as int);
    assert(lane_seq(s, d, 0)[3] == s[12] as int);
    assert(lsum(lane_seq(s, d, 0)) == s[0] + s[4] + s[8] + s[12]);
    lemma_lsum4(lane_seq(s, d, 1));
    assert(lane_seq(s, d, 1)[0] == s[1] as int);
    assert(lane_seq(s, d, 1)[1] == s[5] as int);
    assert(lane_seq(s, d, 1)[2] == s[9] as int);
    assert(lane_seq(s, d, 1)[3] == s[13] as int);
    assert(lsum(lane_seq(s, d, 1)) == s[1] + s[5] + s[9] + s[13]);
    lemma_lsum4(lane_seq(s, d, 2));
    assert(lane_seq(s, d, 2)[0] == s[2] as int);
    assert(lane_seq(s, d, 2)[1] == s[6] as int);
    assert(lane_seq(s, d, 2)[2] == s[10] as int);
    assert(lane_seq(s, d, 2)[3] == s[14] as int);
    assert(lsum(lane_seq(s, d, 2)) == s[2] + s[6] + s[10] + s[14]);
    lemma_lsum4(lane_seq(s, d, 3));
    assert(lane_seq(s, d, 3)[0] == s[3] as int);
    assert(lane_seq(s, d, 3)[1] == s[7] as int);
    assert(lane_seq(s, d, 3)[2] == s[11] as int);
    assert(lane_seq(s, d, 3)[3] == s[15] as int);
    assert(lsum(lane_seq(s, d, 3)) == s[3] + s[7] + s[11] + s[15]);
}

/// One direction of `lemma_grid_sum_lanes`.
#[verifier::rlimit(100)]
proof fn lemma_grid_sum_lanes_down(s: Seq<u64>, d: Dir)
    requires
        s.len() == 16,
        d == Dir::Down,
    ensures
        grid_sum(s) == lsum(lane_seq(s, d, 0)) + lsum(lane_seq(s, d, 1)) + lsum(
            lane_seq(s, d, 2),
        ) + lsum(lane_seq(s, d, 3)),
{
    lemma_sum16(s);
    lemma_lsum4(lane_seq(s, d, 0));
    assert(lane_seq(s, d, 0)[0] == s[12] as int);
    assert(lane_seq(s, d, 0)[1] == s[8] as int);
    assert(lane_seq(s, d, 0)[2] == s[4] as int);
    assert(lane_seq(s, d, 0)[3] == s[0] as int);
    assert(lsum(lane_seq(s, d, 0)) == s[12] + s[8] + s[4] + s[0]);
    lemma_lsum4(lane_seq(s, d, 1));
    assert(lane_seq(s, d, 1)[0] == s[13] as int);
    assert(lane_seq(s, d, 1)[1] == s[9] as int);
    assert(lane_seq(s, d, 1)[2] == s[5] as int);
    assert(lane_seq(s, d, 1)[3] == s[1] as int);
    assert(lsum(lane_seq(s, d, 1)) == s[13] + s[9] + s[5] + s[1]);
    lemma_lsum4(lane_seq(s, d, 2));
    assert(lane_seq(s, d, 2)[0] == s[14] as int);
    assert(lane_seq(s, d, 2)[1] == s[10] as int);
    assert(lane_seq(s, d, 2)[2] == s[6] as int);
    assert(lane_seq(s, d, 2)[3] == s[2] as int);
    assert(lsum(lane_seq(s, d, 2)) == s[14] + s[10] + s[6] + s[2]);
    lemma_lsum4(lane_seq(s, d, 3));
    assert(lane_seq(s, d, 3)[0] == s[15] as int);
    assert(lane_seq(s, d, 3)[1] == s[11] as int);
    assert(lane_seq(s, d, 3)[2] == s[7] as int);
    assert(lane_seq(s, d, 3)[3] == s[3] as int);
    assert(lsum(lane_seq(s, d, 3)) == s[15] + s[11] + s[7] + s[3]);
}

} // verus!
