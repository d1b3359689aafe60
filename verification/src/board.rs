//! The 4x4 grid and the merge engine.

use vstd::prelude::*;

use crate::model::Dir;
use crate::model::TILE_LIMIT;
use crate::model::compact;
use crate::model::count_zeros_upto;
use crate::model::ints;
use crate::model::lane_of;
use crate::model::lane_result;
use crate::model::lane_score;
use crate::model::lane_seq;
use crate::model::legal;
use crate::model::lemma_compact_parts;
use crate::model::lemma_compact_push;
use crate::model::lemma_grids_equal;
use crate::model::lemma_merged_parts;
use crate::model::lemma_sxy_bijective;
use crate::model::merge_score;
use crate::model::off_of;
use crate::model::merged;
use crate::model::num_empty;
use crate::model::pad4;
use crate::model::score_upto;
use crate::model::swipe_score;
use crate::model::sxy;

verus! {

/// The 4x4 board: sixteen cells in row-major order, each empty (zero) or
/// holding a tile value.
#[derive(Clone, Copy, Debug)]
pub struct Board {
    pub cells: [u64; 16],
}

impl View for Board {
    type V = Seq<u64>;

    open spec fn view(&self) -> Seq<u64> {
        self.cells@
    }
}

impl Board {
    /// An empty board.
    pub fn new() -> (b: Board)
        ensures
            b@ == Seq::new(16, |i: int| 0u64),
            crate::model::grid_ok(b@),
            crate::model::num_empty(b@) == 16,
    {
        let b = Board { cells: [0u64; 16] };
        proof {
            assert(b@ =~= Seq::new(16, |i: int| 0u64));
            assert(crate::model::count_zeros_upto(b@, 16) == 16) by {
                reveal_with_fuel(crate::model::count_zeros_upto, 17);
            }
        }
        b
    }

    /// Cell value at row `i`, column `j`.
    pub fn get(&self, i: usize, j: usize) -> (v: u64)
        requires
            i < 4,
            j < 4,
        ensures
            v == self@[i * 4 + j],
    {
        self.cells[i * 4 + j]
    }

    /// Overwrite the cell at row `i`, column `j`.
    pub fn set(&mut self, i: usize, j: usize, v: u64)
        requires
            i < 4,
            j < 4,
        ensures
            final(self)@ == old(self)@.update((i * 4 + j) as int, v),
    {
        self.cells[i * 4 + j] = v;
    }

    /// Linear cell index of offset `j` in lane `i` for direction `dir`.
    pub fn get_xy(&self, dir: Dir, i: usize, j: usize) -> (k: usize)
        requires
            i < 4,
            j < 4,
        ensures
            k < 16,
            k == sxy(dir, i as int, j as int),
    {
        match dir {
            Dir::Left => i * 4 + j,
            Dir::Right => i * 4 + 3 - j,
            Dir::Up => j * 4 + i,
            Dir::Down => (3 - j) * 4 + i,
        }
    }


    /// Merge the compacted tiles `t` of one lane pairwise from the leading
    /// edge and pad the result back to four cells, returning the merged lane
    /// and the score gained.
    #[verifier::loop_isolation(false)]
    #[verifier::rlimit(60)]
    fn merge_lane(t: &Vec<u64>) -> (r: (Vec<u64>, u64))
        requires
            t@.len() <= 4,
            forall|q: int| 0 <= q < t@.len() ==> 0 < #[trigger] t@[q] <= TILE_LIMIT,
        ensures
            r.0@.len() == 4,
            ints(r.0@) == pad4(merged(ints(t@))),
            r.1 == merge_score(ints(t@)),
            r.1 <= 4 * TILE_LIMIT,
            forall|q: int| 0 <= q < 4 ==> r.0@[q] <= 2 * TILE_LIMIT,
    {
        let ghost tc = ints(t@);
        proof {
            assert(forall|q: int| 0 <= q < tc.len() ==> tc[q] != 0);
        }

        // Merge adjacent equal tiles pairwise from the leading edge.
        let mut out: Vec<u64> = Vec::new();
        let mut lane_sc: u64 = 0;
        let mut j: usize = 0;
        proof {
            assert(ints(out@) =~= Seq::<int>::empty());
            assert(ints(t@).skip(0) =~= ints(t@));
            assert(ints(out@) + merged(ints(t@)) =~= merged(tc));
        }
        while j < t.len()
            invariant
                j <= t@.len(),
                merged(tc) == ints(out@) + merged(ints(t@).skip(j as int)),
                merge_score(tc) == lane_sc + merge_score(ints(t@).skip(j as int)),
                lane_sc <= j * TILE_LIMIT,
                out@.len() <= j,
                forall|q: int| 0 <= q < out@.len() ==> out@[q] <= 2 * TILE_LIMIT,
            decreases t@.len() - j,
        {
            let ghost sk = ints(t@).skip(j as int);
            proof {
                assert(sk[0] == t@[j as int] as int);
                lemma_merged_parts(sk);
            }
            if j + 1 < t.len() && t[j] == t[j + 1] {
                let m = 2 * t[j];
                out.push(m);
                lane_sc = lane_sc + m;
                proof {
                    assert(sk.skip(2) =~= ints(t@).skip(j as int + 2));
                    assert(merged(sk) == seq![2 * sk[0]] + merged(sk.skip(2)));
                    assert(ints(out@) + merged(ints(t@).skip(j as int + 2)) =~= ints(
                        out@.drop_last(),
                    ) + merged(sk));
                    assert(merge_score(sk) == 2 * sk[0] + merge_score(sk.skip(2)));
                }
                j = j + 2;
            } else {
                out.push(t[j]);
                proof {
                    assert(sk.skip(1) =~= ints(t@).skip(j as int + 1));
                    if sk.len() == 1 {
                        assert(sk.skip(1) =~= Seq::<int>::empty());
                        assert(merged(sk) == sk);
                        assert(sk =~= seq![sk[0]]);
                        assert(merged(sk.skip(1)) =~= Seq::<int>::empty());
                        assert(merge_score(sk.skip(1)) == 0);
                    } else {
                        assert(sk[1] == t@[j as int + 1] as int);
                        assert(merged(sk) == seq![sk[0]] + merged(sk.skip(1)));
                        assert(merge_score(sk) == merge_score(sk.skip(1)));
                    }
                    assert(ints(out@) + merged(ints(t@).skip(j as int + 1)) =~= ints(
                        out@.drop_last(),
                    ) + merged(sk));
                }
                j = j + 1;
            }
        }
        proof {
            assert(ints(t@).skip(t@.len() as int) =~= Seq::<int>::empty());
            assert(merged(Seq::<int>::empty()) =~= Seq::<int>::empty());
            assert(ints(out@) + Seq::<int>::empty() =~= ints(out@));
            assert(ints(out@) == merged(tc));
            lemma_merged_parts(tc);
        }

        // Pad the lane back to length four with empty cells.
        while out.len() < 4
            invariant
                merged(tc).len() <= out@.len() <= 4,
                forall|q: int| 0 <= q < merged(tc).len() ==> ints(out@)[q] == merged(tc)[q],
                forall|q: int| merged(tc).len() <= q < out@.len() ==> out@[q] == 0,
                forall|q: int| 0 <= q < out@.len() ==> out@[q] <= 2 * TILE_LIMIT,
            decreases 4 - out@.len(),
        {
            out.push(0);
        }
        proof {
            assert(ints(out@) =~= pad4(merged(tc)));
        }
        (out, lane_sc)
    }

    /// Slide and merge the single lane `i` of a swipe in direction `dir`,
    /// returning the score gained in the lane and whether the lane changed.
    #[verifier::loop_isolation(false)]
    #[verifier::rlimit(100)]
    fn slide_lane(&mut self, dir: Dir, i: usize) -> (res: (u64, bool))
        requires
            i < 4,
            forall|o: int| 0 <= o < 4 ==> old(self)@[sxy(dir, i as int, o)] <= TILE_LIMIT,
        ensures
            lane_seq(final(self)@, dir, i as int) == lane_result(lane_seq(old(self)@, dir, i as int)),
            forall|k: int|
                0 <= k < 16 && lane_of(dir, k) != i ==> final(self)@[k] == old(self)@[k],
            forall|o: int| 0 <= o < 4 ==> final(self)@[sxy(dir, i as int, o)] <= 2 * TILE_LIMIT,
            res.0 == lane_score(lane_seq(old(self)@, dir, i as int)),
            res.0 <= 4 * TILE_LIMIT,
            res.1 <==> lane_result(lane_seq(old(self)@, dir, i as int)) != lane_seq(
                old(self)@,
                dir,
                i as int,
            ),
    {
        proof {
            lemma_sxy_bijective(dir);
        }
        let ghost lane = lane_seq(self@, dir, i as int);

        // Collect the tiles of the lane, leading edge first, empties removed.
        let mut t: Vec<u64> = Vec::new();
        let mut o: usize = 0;
        while o < 4
            invariant
                o <= 4,
                ints(t@) == compact(lane.take(o as int)),
                forall|q: int| 0 <= q < t@.len() ==> t@[q] <= TILE_LIMIT,
                t@.len() <= o,
            decreases 4 - o,
        {
            let k = self.get_xy(dir, i, o);
            let c = self.cells[k];
            proof {
                assert(lane[o as int] == c as int);
                assert(lane.take(o as int + 1) =~= lane.take(o as int).push(lane[o as int]));
                lemma_compact_push(lane.take(o as int), lane[o as int]);
            }
            if c != 0 {
                t.push(c);
            }
            proof {
                assert(ints(t@) =~= compact(lane.take(o as int + 1)));
            }
            o = o + 1;
        }
        proof {
            assert(lane.take(4) =~= lane);
            lemma_compact_parts(lane);
        }
        let ghost tc = compact(lane);
        proof {
            assert forall|q: int| 0 <= q < t@.len() implies 0 < #[trigger] t@[q] <= TILE_LIMIT by {
                assert(ints(t@)[q] != 0);
            }
        }
        let (out, lane_sc) = Board::merge_lane(&t);
        let changed = self.write_lane(dir, i, &out);
        proof {
            assert forall|o2: int| 0 <= o2 < 4 implies lane_seq(self@, dir, i as int)[o2]
                == ints(out@)[o2] by {
                assert(self@[sxy(dir, i as int, o2)] == out@[o2]);
            }
            assert(lane_seq(self@, dir, i as int) =~= ints(out@));
            assert(ints(out@) == lane_result(lane));
            assert(forall|o2: int|
                0 <= o2 < 4 ==> #[trigger] self@[sxy(dir, i as int, o2)] == out@[o2]
                    && out@[o2] <= 2 * TILE_LIMIT);
            if changed {
                let q = choose|q: int| 0 <= q < 4 && out@[q] != old(self)@[sxy(dir, i as int, q)];
                assert(lane_result(lane)[q] != lane[q]);
            } else {
                assert forall|q: int| 0 <= q < 4 implies lane_result(lane)[q] == lane[q] by {
                    assert(out@[q] == old(self)@[sxy(dir, i as int, q)]);
                }
                assert(lane_result(lane) =~= lane);
            }
        }
        (lane_sc, changed)
    }

    /// Number of empty cells of the board.
    #[verifier::loop_isolation(false)]
    pub fn count_empty(&self) -> (c: usize)
        ensures
            c == num_empty(self@),
            c <= 16,
    {
        let mut c: usize = 0;
        let mut k: usize = 0;
        while k < 16
            invariant
                k <= 16,
                c as int == count_zeros_upto(self@, k as int),
                c <= k,
            decreases 16 - k,
        {
            if self.cells[k] == 0 {
                c = c + 1;
            }
            k = k + 1;
        }
        c
    }

    /// Whether every cell of the board is within the tile bound a swipe
    /// accepts.
    #[verifier::loop_isolation(false)]
    pub fn tiles_in_range(&self) -> (r: bool)
        ensures
            r <==> forall|k: int| 0 <= k < 16 ==> self@[k] <= TILE_LIMIT,
    {
        let mut k: usize = 0;
        while k < 16
            invariant
                k <= 16,
                forall|q: int| 0 <= q < k ==> self@[q] <= TILE_LIMIT,
            decreases 16 - k,
        {
            if self.cells[k] > TILE_LIMIT {
                proof {
                    assert(self@[k as int] > TILE_LIMIT);
                }
                return false;
            }
            k = k + 1;
        }
        true
    }

    /// Apply one swipe: slide and merge every lane of the board in direction
    /// `dir`.  Returns the score gained when the move changed the board, and
    /// `None` when the move is illegal (no cell changed; the board is left as
    /// it was).
    #[verifier::loop_isolation(false)]
    #[verifier::rlimit(100)]
    pub fn swipe_move(&mut self, dir: Dir) -> (r: Option<u64>)
        requires
            forall|k: int| 0 <= k < 16 ==> old(self)@[k] <= TILE_LIMIT,
        ensures
            forall|l: int|
                0 <= l < 4 ==> lane_seq(final(self)@, dir, l) == lane_result(
                    lane_seq(old(self)@, dir, l),
                ),
            r is Some <==> legal(old(self)@, dir),
            r matches Some(sc) ==> sc == swipe_score(old(self)@, dir) && sc <= 16 * TILE_LIMIT,
            r is None ==> final(self)@ == old(self)@,
            forall|k: int| 0 <= k < 16 ==> final(self)@[k] <= 2 * TILE_LIMIT,
    {
        proof {
            lemma_sxy_bijective(dir);
        }
        let ghost orig = self@;
        let mut moved = false;
        let mut score: u64 = 0;
        let mut i: usize = 0;
        while i < 4
            invariant
                i <= 4,
                forall|l: int|
                    0 <= l < i ==> lane_seq(self@, dir, l) == lane_result(lane_seq(orig, dir, l)),
                forall|l: int, o: int|
                    i <= l < 4 && 0 <= o < 4 ==> self@[sxy(dir, l, o)] == orig[sxy(dir, l, o)],
                moved <==> exists|l: int|
                    0 <= l < i && lane_result(lane_seq(orig, dir, l)) != lane_seq(orig, dir, l),
                score == score_upto(orig, dir, i as int),
                score <= i * 4 * TILE_LIMIT,
                forall|k: int| 0 <= k < 16 ==> self@[k] <= 2 * TILE_LIMIT,
            decreases 4 - i,
        {
            let ghost pre = self@;
            proof {
                assert(lane_seq(pre, dir, i as int) =~= lane_seq(orig, dir, i as int));
            }
            let (sc, ch) = self.slide_lane(dir, i);
            moved = moved || ch;
            score = score + sc;
            proof {
                assert forall|l: int, o: int|
                    i + 1 <= l < 4 && 0 <= o < 4 implies self@[sxy(dir, l, o)] == orig[sxy(
                    dir,
                    l,
                    o,
                )] by {
                    assert(lane_of(dir, sxy(dir, l, o)) == l);
                    assert(self@[sxy(dir, l, o)] == pre[sxy(dir, l, o)]);
                }
                assert forall|l: int| 0 <= l < i + 1 implies lane_seq(self@, dir, l)
                    == lane_result(lane_seq(orig, dir, l)) by {
                    if l < i {
                        assert forall|o: int| 0 <= o < 4 implies lane_seq(self@, dir, l)[o]
                            == lane_seq(pre, dir, l)[o] by {
                            assert(lane_of(dir, sxy(dir, l, o)) == l);
                            assert(self@[sxy(dir, l, o)] == pre[sxy(dir, l, o)]);
                        }
                        assert(lane_seq(self@, dir, l) =~= lane_seq(pre, dir, l));
                    } else {
                        assert(lane_seq(self@, dir, l) == lane_result(lane_seq(pre, dir, l)));
                    }
                }
                assert forall|k: int| 0 <= k < 16 implies self@[k] <= 2 * TILE_LIMIT by {
                    let l = lane_of(dir, k);
                    let o = off_of(dir, k);
                    assert(sxy(dir, l, o) == k);
                    if l == i {
                        assert(self@[sxy(dir, i as int, o)] <= 2 * TILE_LIMIT);
                    } else {
                        assert(self@[k] == pre[k]);
                    }
                }
            }
            i = i + 1;
        }
        if moved {
            Some(score)
        } else {
            proof {
                assert forall|l: int| 0 <= l < 4 implies lane_seq(self@, dir, l) == lane_seq(
                    orig,
                    dir,
                    l,
                ) by {
                    assert(lane_result(lane_seq(orig, dir, l)) == lane_seq(orig, dir, l));
                }
                lemma_grids_equal(self@, orig, dir);
            }
            None
        }
    }

    /// Write the four cells `out` into lane `i` of a swipe in direction
    /// `dir`, reporting whether any cell of the lane changed.
    #[verifier::loop_isolation(false)]
    fn write_lane(&mut self, dir: Dir, i: usize, out: &Vec<u64>) -> (changed: bool)
        requires
            i < 4,
            out@.len() == 4,
        ensures
            forall|o: int| 0 <= o < 4 ==> final(self)@[sxy(dir, i as int, o)] == out@[o],
            forall|k: int|
                0 <= k < 16 && lane_of(dir, k) != i ==> final(self)@[k] == old(self)@[k],
            changed <==> exists|o: int|
                0 <= o < 4 && out@[o] != old(self)@[sxy(dir, i as int, o)],
    {
        proof {
            lemma_sxy_bijective(dir);
        }
        let mut changed = false;
        let mut o: usize = 0;
        while o < 4
            invariant
                o <= 4,
                forall|q: int| 0 <= q < o ==> self@[sxy(dir, i as int, q)] == out@[q],
                forall|q: int| o <= q < 4 ==> self@[sxy(dir, i as int, q)] == old(self)@[sxy(
                    dir,
                    i as int,
                    q,
                )],
                forall|k: int| 0 <= k < 16 && lane_of(dir, k) != i ==> self@[k] == old(self)@[k],
                changed <==> exists|q: int|
                    0 <= q < o && out@[q] != old(self)@[sxy(dir, i as int, q)],
            decreases 4 - o,
        {
            let k = self.get_xy(dir, i, o);
            let v = out[o];
            if v != self.cells[k] {
                changed = true;
            }
            self.cells[k] = v;
            o = o + 1;
        }
        changed
    }
}

} // verus!
