//! Spawning, random playouts, and the Monte Carlo move evaluator.

use vstd::prelude::*;

use crate::board::Board;
use crate::model::Dir;
use crate::model::SCORE_GUARD;
use crate::model::TILE_LIMIT;
use crate::model::apply_lanes;
use crate::model::count_zeros_upto;
use crate::model::grid_ok;
use crate::model::grid_sum;
use crate::model::legal;
use crate::model::lemma_count_zeros_mono;
use crate::model::lemma_count_zeros_update;
use crate::model::lemma_legal_keeps_empty;
use crate::model::lemma_playout_snoc;
use crate::model::lemma_spawn_grid_ok;
use crate::model::lemma_sum_bounds;
use crate::model::lemma_sum_update;
use crate::model::lemma_swipe_grid_ok;
use crate::model::lemma_swipe_sum;
use crate::model::num_empty;
use crate::model::playout_steps;
use crate::model::spawn_step;
use crate::model::swipe_score;
use crate::rng::choose_order;
use crate::rng::rand_below;

verus! {

impl Board {
    /// Write tile `v` into the `target`-th empty cell of the board, counted
    /// in cell index order.
    #[verifier::loop_isolation(false)]
    pub fn place_at_empty(&mut self, target: usize, v: u64)
        requires
            (target as int) < num_empty(old(self)@),
            v != 0,
        ensures
            exists|k: int|
                0 <= k < 16 && old(self)@[k] == 0 && #[trigger] count_zeros_upto(old(self)@, k)
                    == target as int && final(self)@ == old(self)@.update(k, v),
            num_empty(final(self)@) == num_empty(old(self)@) - 1,
    {
        // Walk the cells in index order to the chosen empty cell.
        let mut k: usize = 0;
        let mut seen: usize = 0;
        proof {
            lemma_count_zeros_mono(self@, 0, 16);
        }
        while seen < target || self.cells[k] != 0
            invariant
                k < 16,
                seen as int == count_zeros_upto(self@, k as int),
                seen <= target,
            decreases 16 - k, 1int - if self.cells[k as int] == 0 {
                1int
            } else {
                0int
            },
        {
            if self.cells[k] == 0 {
                seen = seen + 1;
            }
            k = k + 1;
            proof {
                if k == 16 {
                    lemma_count_zeros_mono(self@, 16, 16);
                    assert(false);
                } else {
                    lemma_count_zeros_mono(self@, k as int, 16);
                }
            }
        }
        proof {
            lemma_count_zeros_update(self@, k as int, v, 16);
            assert(count_zeros_upto(self@, k as int) == target as int);
        }
        self.cells[k] = v;
    }

    /// Insert one new tile into a uniformly chosen empty cell: value 2 with
    /// probability nine in ten, else 4.  The caller must make sure an empty
    /// cell exists.
    pub fn spawn(&mut self, rng: &mut rand::rngs::ThreadRng)
        requires
            num_empty(old(self)@) > 0,
        ensures
            spawn_step(old(self)@, final(self)@),
            num_empty(final(self)@) == num_empty(old(self)@) - 1,
    {
        let e = self.count_empty();
        let target = rand_below(rng, e);
        let v: u64 = if rand_below(rng, 10) < 9 {
            2
        } else {
            4
        };
        self.place_at_empty(target, v);
        proof {
            let k = choose|k: int|
                0 <= k < 16 && old(self)@[k] == 0 && #[trigger] count_zeros_upto(old(self)@, k)
                    == target as int && self@ == old(self)@.update(k, v);
            assert(self@ == old(self)@.update(k, v));
        }
    }

    /// Try the directions of `order` in order and apply the first legal
    /// swipe, returning that direction and its score; `None` when no
    /// direction of `order` is legal (the board is then unchanged).
    #[verifier::loop_isolation(false)]
    pub fn first_legal_swipe(&mut self, order: &Vec<Dir>) -> (r: Option<(Dir, u64)>)
        requires
            forall|k: int| 0 <= k < 16 ==> old(self)@[k] <= TILE_LIMIT,
        ensures
            r matches Some(p) ==> exists|q: int|
                0 <= q < order@.len() && #[trigger] order@[q] == p.0 && (forall|w: int|
                    0 <= w < q ==> !legal(old(self)@, order@[w])) && legal(old(self)@, p.0)
                    && apply_lanes(old(self)@, final(self)@, p.0) && p.1 == swipe_score(
                    old(self)@,
                    p.0,
                ),
            r matches Some(p) ==> p.1 <= 16 * TILE_LIMIT,
            r is None ==> final(self)@ == old(self)@ && forall|q: int|
                0 <= q < order@.len() ==> !legal(old(self)@, order@[q]),
            r is Some ==> num_empty(final(self)@) >= 1,
            forall|k: int| 0 <= k < 16 ==> final(self)@[k] <= 2 * TILE_LIMIT,
    {
        let mut idx: usize = 0;
        while idx < order.len()
            invariant
                idx <= order@.len(),
                self@ == old(self)@,
                forall|q: int| 0 <= q < idx ==> !legal(self@, order@[q]),
            decreases order@.len() - idx,
        {
            let d = order[idx];
            match self.swipe_move(d) {
                Some(sc) => {
                    proof {
                        lemma_legal_keeps_empty(old(self)@, self@, d);
                        assert(order@[idx as int] == d);
                    }
                    return Some((d, sc));
                },
                None => {},
            }
            idx = idx + 1;
        }
        None
    }

    /// Try the four directions in a uniformly random order and apply the
    /// first legal swipe, returning its score; `None` exactly when no
    /// direction is legal (the board is terminal and left unchanged).
    pub fn random_actions(&mut self, rng: &mut rand::rngs::ThreadRng) -> (r: Option<u64>)
        requires
            forall|k: int| 0 <= k < 16 ==> old(self)@[k] <= TILE_LIMIT,
        ensures
            r matches Some(sc) ==> exists|d: Dir|
                legal(old(self)@, d) && apply_lanes(old(self)@, final(self)@, d) && sc
                    == swipe_score(old(self)@, d),
            r is None ==> final(self)@ == old(self)@ && forall|d: Dir| !legal(old(self)@, d),
            r matches Some(sc) ==> sc <= 16 * TILE_LIMIT,
            forall|k: int| 0 <= k < 16 ==> final(self)@[k] <= 2 * TILE_LIMIT,
            r is Some ==> num_empty(final(self)@) >= 1,
    {
        let mut dirs: Vec<Dir> = Vec::new();
        dirs.push(Dir::Up);
        dirs.push(Dir::Down);
        dirs.push(Dir::Left);
        dirs.push(Dir::Right);
        let order = choose_order(rng, &dirs);
        match self.first_legal_swipe(&order) {
            Some(p) => {
                proof {
                    let q = choose|q: int|
                        0 <= q < order@.len() && #[trigger] order@[q] == p.0 && (forall|w: int|
                            0 <= w < q ==> !legal(old(self)@, order@[w])) && legal(old(self)@, p.0)
                            && apply_lanes(old(self)@, self@, p.0) && p.1 == swipe_score(
                            old(self)@,
                            p.0,
                        );
                    assert(legal(old(self)@, p.0) && apply_lanes(old(self)@, self@, p.0) && p.1
                        == swipe_score(old(self)@, p.0));
                }
                Some(p.1)
            },
            None => {
                proof {
                    assert forall|d: Dir| !legal(self@, d) by {
                        if d == Dir::Up {
                            assert(order@.contains(dirs@[0]));
                        } else if d == Dir::Down {
                            assert(order@.contains(dirs@[1]));
                        } else if d == Dir::Left {
                            assert(order@.contains(dirs@[2]));
                        } else {
                            assert(order@.contains(dirs@[3]));
                        }
                        let w = choose|w: int| 0 <= w < order@.len() && order@[w] == d;
                        assert(!legal(self@, order@[w]));
                    }
                }
                None
            },
        }
    }

    /// One uninformed random playout: repeatedly apply a random legal swipe
    /// and spawn a tile, until no move is legal; the accumulated score.  The
    /// result and the final grid arise from a sequence of legal swipes and
    /// spawns starting at the old grid, the total being the sum of their
    /// scores; the playout ends in a terminal position, unless a cell or the
    /// total has outgrown its bound, far beyond anything a game can reach.
    #[verifier::loop_isolation(false)]
    pub fn eval(&mut self, rng: &mut rand::rngs::ThreadRng) -> (total: u64)
        ensures
            grid_ok(old(self)@) ==> grid_ok(final(self)@),
            total <= SCORE_GUARD + 16 * TILE_LIMIT,
            exists|n: int|
                0 <= n && #[trigger] playout_steps(old(self)@, final(self)@, total as int, n),
            (forall|d: Dir| !legal(final(self)@, d)) || (exists|k: int|
                0 <= k < 16 && final(self)@[k] > TILE_LIMIT) || total >= SCORE_GUARD,
    {
        proof {
            assert(playout_steps(self@, self@, 0, 0));
        }
        if !self.tiles_in_range() {
            return 0;
        }
        proof {
            lemma_sum_bounds(self@, 16, TILE_LIMIT);
        }
        let mut total: u64 = 0;
        loop
            invariant
                grid_sum(self@) <= 16 * TILE_LIMIT + 4,
                total <= SCORE_GUARD + 16 * TILE_LIMIT,
                grid_ok(old(self)@) ==> grid_ok(self@),
                exists|n: int|
                    0 <= n && #[trigger] playout_steps(old(self)@, self@, total as int, n),
            decreases 16 * TILE_LIMIT + 4 - grid_sum(self@),
        {
            if total >= SCORE_GUARD {
                return total;
            }
            if !self.tiles_in_range() {
                return total;
            }
            proof {
                lemma_sum_bounds(self@, 16, TILE_LIMIT);
            }
            let ghost pre = self@;
            match self.random_actions(rng) {
                Some(sc) => {
                    let ghost d = choose|d: Dir|
                        legal(pre, d) && apply_lanes(pre, self@, d) && sc == swipe_score(pre, d);
                    proof {
                        if grid_ok(pre) {
                            lemma_swipe_grid_ok(pre, self@, d);
                        }
                        lemma_swipe_sum(pre, self@, d);
                    }
                    total = total + sc;
                    let ghost mid = self@;
                    self.spawn(rng);
                    proof {
                        if grid_ok(mid) {
                            lemma_spawn_grid_ok(mid, self@);
                        }
                        let (k, v) = choose|k: int, v: u64|
                            0 <= k < 16 && mid[k] == 0 && (v == 2 || v == 4) && self@
                                == #[trigger] mid.update(k, v);
                        lemma_sum_update(mid, k, v, 16);
                        let n = choose|n: int|
                            0 <= n && #[trigger] playout_steps(
                                old(self)@,
                                pre,
                                total as int - sc as int,
                                n,
                            );
                        lemma_playout_snoc(
                            old(self)@,
                            pre,
                            total as int - sc as int,
                            n,
                            d,
                            mid,
                            self@,
                        );
                    }
                },
                None => {
                    return total;
                },
            }
        }
    }

    /// Spawn one tile, then play the position out at random; the playout's
    /// accumulated score, under the same guarantees as the playout itself.
    pub fn run(&mut self, rng: &mut rand::rngs::ThreadRng) -> (total: u64)
        requires
            num_empty(old(self)@) > 0,
        ensures
            grid_ok(old(self)@) ==> grid_ok(final(self)@),
            total <= SCORE_GUARD + 16 * TILE_LIMIT,
            exists|mid: Seq<u64>, n: int|
                #![trigger playout_steps(mid, final(self)@, total as int, n)]
                spawn_step(old(self)@, mid) && 0 <= n && playout_steps(
                    mid,
                    final(self)@,
                    total as int,
                    n,
                ),
            (forall|d: Dir| !legal(final(self)@, d)) || (exists|k: int|
                0 <= k < 16 && final(self)@[k] > TILE_LIMIT) || total >= SCORE_GUARD,
    {
        let ghost pre = self@;
        self.spawn(rng);
        proof {
            if grid_ok(pre) {
                lemma_spawn_grid_ok(pre, self@);
            }
        }
        let ghost mid = self@;
        let total = self.eval(rng);
        proof {
            let n = choose|n: int|
                0 <= n && #[trigger] playout_steps(mid, self@, total as int, n);
            assert(spawn_step(pre, mid) && 0 <= n && playout_steps(mid, self@, total as int, n));
        }
        total
    }

    /// Choose the move to play: for each legal direction, in the fixed order
    /// Up, Down, Left, Right, sum `trials` random playouts from the moved
    /// position (plus the move's own score per trial) and keep the direction
    /// with the strictly greatest sum.  Returns `None` exactly when no
    /// direction is legal: the position is terminal.
    #[verifier::loop_isolation(false)]
    pub fn best_move(&self, rng: &mut rand::rngs::ThreadRng, trials: usize) -> (r: Option<Dir>)
        requires
            forall|k: int| 0 <= k < 16 ==> self@[k] <= TILE_LIMIT,
        ensures
            r is None <==> forall|d: Dir| !legal(self@, d),
            r matches Some(d) ==> legal(self@, d),
    {
        let mut dirs: Vec<Dir> = Vec::new();
        dirs.push(Dir::Up);
        dirs.push(Dir::Down);
        dirs.push(Dir::Left);
        dirs.push(Dir::Right);
        let mut best: Option<Dir> = None;
        let mut best_score: u128 = 0;
        let mut di: usize = 0;
        while di < 4
            invariant
                dirs@.len() == 4,
                dirs@[0] == Dir::Up && dirs@[1] == Dir::Down && dirs@[2] == Dir::Left && dirs@[3]
                    == Dir::Right,
                best is None ==> forall|q: int| 0 <= q < di ==> !legal(self@, dirs@[q]),
                best matches Some(d) ==> legal(self@, d),
            decreases 4 - di,
        {
            let d = dirs[di];
            let mut b2 = self.clone();
            match b2.swipe_move(d) {
                None => {},
                Some(base) => {
                    proof {
                        lemma_legal_keeps_empty(self@, b2@, d);
                    }
                    let mut score: u128 = 0;
                    let mut t: usize = 0;
                    while t < trials
                        invariant
                            score <= (t as u128) * 0x800_0000_0000_0000,
                            t <= trials,
                            num_empty(b2@) >= 1,
                            base <= 16 * TILE_LIMIT,
                        decreases trials - t,
                    {
                        let mut b3 = b2.clone();
                        let tr = b3.run(rng);
                        score = score + (base as u128) + (tr as u128);
                        t = t + 1;
                    }
                    if best.is_none() || score > best_score {
                        best_score = score;
                        best = Some(d);
                    }
                },
            }
            di = di + 1;
        }
        proof {
            if best is None {
                assert forall|d: Dir| !legal(self@, d) by {
                    if d == Dir::Up {
                        assert(!legal(self@, dirs@[0]));
                    } else if d == Dir::Down {
                        assert(!legal(self@, dirs@[1]));
                    } else if d == Dir::Left {
                        assert(!legal(self@, dirs@[2]));
                    } else {
                        assert(!legal(self@, dirs@[3]));
                    }
                }
            }
        }
        best
    }
}

} // verus!
