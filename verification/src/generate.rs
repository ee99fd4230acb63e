//! Random puzzle generation.
//!
//! Generation partitions the playable tiles into towers: it repeatedly picks
//! a remaining tile as a new tower's origin, grows up to four straight arms
//! of random length from it, and records the tower at the height its tiles
//! add up to. The planted partition becomes the solution array; the
//! occupancy array receives the tower origins. By construction the solved
//! state is reachable: it is exactly this partition collapsed to height 1.

use vstd::prelude::*;
use crate::field::{PlayingField, count_owned, lemma_count_owned_update, lemma_count_owned_zero,
    lemma_cells_ok_transfer, lemma_towers_ok_transfer};
use crate::tower::{Tower, Rect};
use crate::rng::{Rng, fisher_yates_shuffle_vec_inplace};
use crate::geometry::{unit_dir, ray_lin};

verus! {

/// Removes the one occurrence of `val` from a strictly sorted list.
fn remove_value(v: &mut Vec<usize>, val: usize)
    requires
        forall|k1: int, k2: int|
            0 <= k1 < k2 < old(v)@.len() ==> #[trigger] old(v)@[k1] < #[trigger] old(v)@[k2],
        old(v)@.contains(val),
    ensures
        final(v)@.len() == old(v)@.len() - 1,
        forall|k1: int, k2: int|
            0 <= k1 < k2 < final(v)@.len() ==> #[trigger] final(v)@[k1]
                < #[trigger] final(v)@[k2],
        forall|e: usize| #[trigger] final(v)@.contains(e) <==> (old(v)@.contains(e) && e != val),
{
    let mut k: usize = 0;
    while k < v.len()
        invariant
            v == old(v),
            forall|k1: int, k2: int|
                0 <= k1 < k2 < v@.len() ==> #[trigger] v@[k1] < #[trigger] v@[k2],
            forall|kk: int| 0 <= kk < k ==> v@[kk] != val,
            v@.contains(val),
            k <= v@.len(),
        decreases v@.len() - k,
    {
        if v[k] == val {
            let ghost pre = v@;
            v.remove(k);
            proof {
                let ki = k as int;
                assert(v@ =~= pre.remove(ki));
                pre.remove_ensures(ki);
                assert forall|k1: int, k2: int|
                    0 <= k1 < k2 < v@.len() implies #[trigger] v@[k1] < #[trigger] v@[k2] by {
                    if k2 < ki {
                        assert(v@[k1] == pre[k1] && v@[k2] == pre[k2]);
                    } else if k1 < ki {
                        assert(v@[k1] == pre[k1] && v@[k2] == pre[k2 + 1]);
                    } else {
                        assert(v@[k1] == pre[k1 + 1] && v@[k2] == pre[k2 + 1]);
                    }
                }
                assert forall|e: usize| #[trigger] v@.contains(e) implies (pre.contains(e) && e
                    != val) by {
                    let m = choose|m: int| 0 <= m < v@.len() && v@[m] == e;
                    if m < ki {
                        assert(pre[m] == e);
                        if e == val {
                            assert(pre[m] < pre[ki]);
                        }
                    } else {
                        assert(pre[m + 1] == e);
                        if e == val {
                            assert(pre[ki] < pre[m + 1]);
                        }
                    }
                }
                assert forall|e: usize| (pre.contains(e) && e != val) implies #[trigger] v@.contains(
                    e,
                ) by {
                    let m = choose|m: int| 0 <= m < pre.len() && pre[m] == e;
                    if m < ki {
                        assert(v@[m] == e);
                    } else if m == ki {
                        assert(false);
                    } else {
                        assert(v@[m - 1] == e);
                    }
                }
            }
            return ;
        }
        k += 1;
    }
    proof {
        let m = choose|m: int| 0 <= m < v@.len() && v@[m] == val;
        assert(false);
    }
}

impl PlayingField {
    /// Walks the playable empty run of the solution array from `(x0, y0)`,
    /// capped at `cap` steps.
    fn walk_empty_sol(&self, x0: i32, y0: i32, dx: i32, dy: i32, cap: i32) -> (s: i32)
        requires
            self.dims_ok(),
            unit_dir(dx as int, dy as int),
            self.in_bounds(x0 as int, y0 as int),
            0 <= cap <= self.steps_to_edge(x0 as int, y0 as int, dx as int, dy as int),
        ensures
            s == self.empty_run_p(
                self.field_solution@,
                x0 as int,
                y0 as int,
                dx as int,
                dy as int,
                cap as int,
            ),
            0 <= s <= cap,
    {
        let mut s: i32 = 0;
        let mut cx: i32 = x0;
        let mut cy: i32 = y0;
        loop
            invariant
                self.dims_ok(),
                unit_dir(dx as int, dy as int),
                self.in_bounds(x0 as int, y0 as int),
                0 <= cap <= self.steps_to_edge(x0 as int, y0 as int, dx as int, dy as int),
                0 <= s <= cap,
                cx as int == x0 + s * dx,
                cy as int == y0 + s * dy,
                self.in_bounds(cx as int, cy as int),
                self.empty_run_p(
                    self.field_solution@,
                    x0 as int,
                    y0 as int,
                    dx as int,
                    dy as int,
                    cap as int,
                ) == s + self.empty_run_p(
                    self.field_solution@,
                    cx as int,
                    cy as int,
                    dx as int,
                    dy as int,
                    cap - s,
                ),
            decreases cap - s,
        {
            if s == cap {
                return s;
            }
            let nx = cx + dx;
            let ny = cy + dy;
            proof {
                assert(self.steps_to_edge(cx as int, cy as int, dx as int, dy as int)
                    == self.steps_to_edge(x0 as int, y0 as int, dx as int, dy as int) - s)
                    by (nonlinear_arith)
                    requires
                        unit_dir(dx as int, dy as int),
                        cx as int == x0 + s * dx,
                        cy as int == y0 + s * dy,
                ;
                assert(self.in_bounds(nx as int, ny as int));
            }
            let li = self.lin_idx(nx, ny);
            let good = self.playable_exec(li) && (match self.field_solution[li] {
                Option::Some(_) => false,
                Option::None => true,
            });
            if good {
                proof {
                    assert(nx as int == x0 + (s + 1) * dx) by (nonlinear_arith)
                        requires
                            cx as int == x0 + s * dx,
                            nx as int == cx + dx,
                    ;
                    assert(ny as int == y0 + (s + 1) * dy) by (nonlinear_arith)
                        requires
                            cy as int == y0 + s * dy,
                            ny as int == cy + dy,
                    ;
                }
                s = s + 1;
                cx = nx;
                cy = ny;
            } else {
                return s;
            }
        }
    }
}


impl PlayingField {
    /// Generates a fresh random puzzle: partitions every playable tile into
    /// towers grown from random origins along random straight arms, plants
    /// the partition as the solution, sets every tower to full height and
    /// mirrors its origin into the occupancy array. A mask, when present,
    /// must match the field's dimensions.
    pub fn init_with_random_towers(&mut self, rng: &mut Rng)
        requires
            old(self).wf(),
            (old(self).mask matches Some(m) ==> (m.width == old(self).width && m.height == old(self).height)),
        ensures
            final(self).wf(),
            final(self).width == old(self).width,
            final(self).height == old(self).height,
            final(self).area == old(self).area,
            final(self).mask == old(self).mask,
            final(self).solution_covers(),
            final(self).solution_complete(),
            forall|t: int|
                0 <= t < final(self).towers@.len() ==> (#[trigger] final(self).towers@[t]).flattened_height == final(self).towers@[t].height,
            forall|t: int|
                0 <= t < final(self).towers@.len() ==> (#[trigger] final(self).towers@[t]).bounds
                    == (Rect {
                    x: final(self).towers@[t].x as i32,
                    y: final(self).towers@[t].y as i32,
                    w: 1,
                    h: 1,
                }),
            forall|t: int|
                0 <= t < final(self).towers@.len() ==> final(self).field@[
                    #[trigger] final(self).origin_lin(t)] == Some(t as usize),
            forall|i: int|
                0 <= i < final(self).area && #[trigger] final(self).field@[i] is Some ==> exists|
                    t: int,
                |
                    0 <= t < final(self).towers@.len() && #[trigger] final(self).origin_lin(t)
                        == i,
    {
        self.clear();
        let ghost w = self.width as int;
        let mut empties: Vec<usize> = Vec::new();
        let mut lin: usize = 0;
        while lin < self.area
            invariant
                self.wf(),
                self.width == old(self).width,
                self.height == old(self).height,
                self.area == old(self).area,
                self.mask == old(self).mask,
                w == self.width as int,
                self.towers@.len() == 0,
                forall|i: int| 0 <= i < self.area ==> self.field@[i] is None,
                forall|i: int| 0 <= i < self.area ==> self.field_solution@[i] is None,
                lin <= self.area,
                empties@.len() <= lin,
                forall|k1: int, k2: int|
                    0 <= k1 < k2 < empties@.len() ==> #[trigger] empties@[k1]
                        < #[trigger] empties@[k2],
                forall|k: int|
                    0 <= k < empties@.len() ==> (#[trigger] empties@[k]) < lin && self.playable(
                        empties@[k] as int,
                    ),
                forall|i: int|
                    0 <= i < lin && self.playable(i) ==> empties@.contains(i as usize),
            decreases self.area - lin,
        {
            if self.playable_exec(lin) {
                let ghost epre = empties@;
                empties.push(lin);
                proof {
                    assert forall|i: int|
                        0 <= i < lin + 1 && self.playable(i) implies empties@.contains(
                        i as usize,
                    ) by {
                        if i < lin {
                            assert(epre.contains(i as usize));
                            let m = choose|m: int| 0 <= m < epre.len() && epre[m] == i as usize;
                            assert(empties@[m] == i as usize);
                        } else {
                            assert(empties@[empties@.len() - 1] == lin);
                        }
                    }
                }
            }
            lin += 1;
        }
        while empties.len() > 0
            invariant
                self.width == old(self).width,
                self.height == old(self).height,
                self.area == old(self).area,
                self.mask == old(self).mask,
                w == self.width as int,
                self.wf(),
                self.solution_complete(),
                forall|t: int|
                    0 <= t < self.towers@.len() ==> (#[trigger] self.towers@[t]).flattened_height
                        == self.towers@[t].height,
                forall|t: int|
                    0 <= t < self.towers@.len() ==> (#[trigger] self.towers@[t]).bounds == (Rect {
                        x: self.towers@[t].x as i32,
                        y: self.towers@[t].y as i32,
                        w: 1,
                        h: 1,
                    }),
                forall|i: int|
                    0 <= i < self.area && #[trigger] self.field@[i] is Some ==> exists|t: int|
                        0 <= t < self.towers@.len() && #[trigger] self.origin_lin(t) == i,
                self.towers@.len() + empties@.len() <= self.area,
                forall|k1: int, k2: int|
                    0 <= k1 < k2 < empties@.len() ==> #[trigger] empties@[k1]
                        < #[trigger] empties@[k2],
                forall|k: int|
                    0 <= k < empties@.len() ==> (#[trigger] empties@[k]) < self.area
                        && self.playable(empties@[k] as int) && self.field_solution@[empties@[
                    k] as int] is None,
                forall|i: int|
                    0 <= i < self.area && self.playable(i) && #[trigger] self.field_solution@[i]
                        is None ==> empties@.contains(i as usize),
            decreases empties@.len(),
        {
            let ghost self0 = *self;
            let ghost empties0 = empties@;
            let ghost len0 = empties@.len();
            let pick = rng.next_below(empties.len());
            let lin0 = empties[pick];
            let x0 = lin0 % self.width;
            let y0 = lin0 / self.width;
            proof {
                assert(w >= 1);
                assert((lin0 as int) < self.area);
                vstd::arithmetic::div_mod::lemma_fundamental_div_mod(lin0 as int, w);
                vstd::arithmetic::div_mod::lemma_mod_bound(lin0 as int, w);
                assert(x0 as int == (lin0 as int) % w);
                assert(y0 as int == (lin0 as int) / w);
                assert(x0 + y0 * w == lin0);
                assert(y0 < self.height) by (nonlinear_arith)
                    requires
                        x0 + y0 * w == lin0,
                        0 <= x0,
                        0 <= y0,
                        (lin0 as int) < self.width * self.height,
                        w == self.width as int,
                        w >= 1,
                ;
                assert(self.lin_at(x0 as int, y0 as int) == lin0);
            }
            remove_value(&mut empties, lin0);
            let idx = self.towers.len();
            proof {
                lemma_count_owned_zero(self.field_solution@, idx);
                assert forall|u: usize| true implies #[trigger] count_owned(
                    self.field_solution@.update(lin0 as int, Some(idx)),
                    u,
                ) == count_owned(self.field_solution@, u) + (if u == idx {
                    1int
                } else {
                    0int
                }) by {
                    lemma_count_owned_update(self.field_solution@, u, lin0 as int, Some(idx));
                }
            }
            self.field_solution[lin0] = Option::Some(idx);
            proof {
                assert(self.field_solution@ == self0.field_solution@.update(
                    lin0 as int,
                    Some(idx),
                ));
                lemma_cells_ok_transfer(self0, *self, self.field@);
                lemma_towers_ok_transfer(self0, *self);
                assert forall|t: int| 0 <= t < self.towers@.len() implies {
                    let tn = #[trigger] self.towers@[t];
                    &&& self.field_solution@[self.lin_at(tn.x as int, tn.y as int)] == Some(
                        t as usize,
                    )
                    &&& count_owned(self.field_solution@, t as usize) == tn.height
                } by {
                    assert(self0.towers@[t] == self.towers@[t]);
                    self0.lemma_lin_bounds(self0.towers@[t].x as int, self0.towers@[t].y as int);
                    assert(self0.field_solution@[self0.lin_at(
                        self0.towers@[t].x as int,
                        self0.towers@[t].y as int,
                    )] == Some(t as usize));
                    lemma_count_owned_update(
                        self0.field_solution@,
                        t as usize,
                        lin0 as int,
                        Some(idx),
                    );
                    assert(self0.field_solution@[lin0 as int] is None);
                    assert(count_owned(self0.field_solution@, t as usize) == self0.towers@[
                        t].height);
                }
                assert(self.solution_complete());
                assert forall|i: int|
                    0 <= i < self.area && #[trigger] self.field@[i] is Some implies exists|t: int|
                    0 <= t < self.towers@.len() && #[trigger] self.origin_lin(t) == i by {
                    assert(self0.field@[i] is Some);
                    let t = choose|t: int|
                        0 <= t < self0.towers@.len() && #[trigger] self0.origin_lin(t) == i;
                    assert(self.towers@[t] == self0.towers@[t]);
                    assert(self.origin_lin(t) == i);
                }
                assert forall|i: int|
                    0 <= i < self.area implies ((#[trigger] self.field_solution@[i]) matches Some(
                    u,
                ) ==> (u as int) <= idx) by {
                    if i != lin0 as int && self.field_solution@[i] is Some {
                        assert(self0.field_solution@[i] is Some);
                    }
                }
                assert forall|i: int|
                    0 <= i < self.area && !self.playable(i) implies self.field_solution@[i]
                    is None by {
                    assert(!self0.playable(i));
                    assert(self0.field_solution@[i] is None);
                }
                assert forall|k: int|
                    0 <= k < empties@.len() implies (#[trigger] empties@[k]) < self.area
                        && self.playable(empties@[k] as int) && self.field_solution@[empties@[
                    k] as int] is None by {
                    assert(empties@.contains(empties@[k]));
                    assert(empties0.contains(empties@[k]) && empties@[k] != lin0);
                    let m = choose|m: int| 0 <= m < empties0.len() && empties0[m] == empties@[k];
                }
                assert forall|i: int|
                    0 <= i < self.area && self.playable(i) && #[trigger] self.field_solution@[i]
                        is None implies empties@.contains(i as usize) by {
                    assert(i != lin0 as int);
                    assert(self0.field_solution@[i] is None);
                    assert(self0.playable(i));
                    assert(empties0.contains(i as usize));
                }
            }
            let mut ht: i32 = 1;
            let mut dirs: Vec<(i32, i32)> = Vec::new();
            dirs.push((1, 0));
            dirs.push((-1, 0));
            dirs.push((0, 1));
            dirs.push((0, -1));
            let ghost dirs0 = dirs@;
            let dir_count = 1 + rng.next_below(4);
            let greed = rng.next_below(16);
            fisher_yates_shuffle_vec_inplace(&mut dirs, rng);
            proof {
                assert forall|j: int| 0 <= j < dirs@.len() implies unit_dir(
                    (#[trigger] dirs@[j]).0 as int,
                    dirs@[j].1 as int,
                ) by {
                    assert(dirs0.contains(dirs@[j]));
                    let m = choose|m: int| 0 <= m < dirs0.len() && dirs0[m] == dirs@[j];
                    assert(m == 0 || m == 1 || m == 2 || m == 3);
                }
            }
            let mut d: usize = 0;
            while d < dir_count
                invariant
                    self.width == old(self).width,
                    self.height == old(self).height,
                    self.area == old(self).area,
                    self.mask == old(self).mask,
                    w == self.width as int,
                    self.dims_ok(),
                    self.cells_ok(self.field@),
                    self.towers_ok(),
                    self.towers@.len() <= self.area,
                    self.solution_complete(),
                    idx == self.towers@.len(),
                    forall|t: int|
                        0 <= t < self.towers@.len() ==> (#[trigger] self.towers@[
                        t]).flattened_height == self.towers@[t].height,
                    forall|t: int|
                        0 <= t < self.towers@.len() ==> (#[trigger] self.towers@[t]).bounds == (
                        Rect {
                            x: self.towers@[t].x as i32,
                            y: self.towers@[t].y as i32,
                            w: 1,
                            h: 1,
                        }),
                    forall|i: int|
                        0 <= i < self.area && #[trigger] self.field@[i] is Some ==> exists|t: int|
                            0 <= t < self.towers@.len() && #[trigger] self.origin_lin(t) == i,
                    x0 < self.width,
                    y0 < self.height,
                    lin0 == x0 + y0 * w,
                    self.field_solution@[lin0 as int] == Some(idx),
                    self.playable(lin0 as int),
                    forall|i: int|
                        0 <= i < self.area ==> ((#[trigger] self.field_solution@[i]) matches Some(
                            u,
                        ) ==> (u as int) <= idx),
                    forall|i: int|
                        0 <= i < self.area && !self.playable(i) ==> self.field_solution@[i]
                            is None,
                    count_owned(self.field_solution@, idx) == ht as int,
                    1 <= ht,
                    ht as int <= 1 + 29 * (d as int),
                    d <= dir_count <= 4,
                    dirs@.len() == 4,
                    forall|jd: int|
                        0 <= jd < dirs@.len() ==> unit_dir(
                            (#[trigger] dirs@[jd]).0 as int,
                            dirs@[jd].1 as int,
                        ),
                    self.towers@.len() + 1 + empties@.len() <= self.area,
                    forall|k1: int, k2: int|
                        0 <= k1 < k2 < empties@.len() ==> #[trigger] empties@[k1]
                            < #[trigger] empties@[k2],
                    forall|k: int|
                        0 <= k < empties@.len() ==> (#[trigger] empties@[k]) < self.area
                            && self.playable(empties@[k] as int) && self.field_solution@[empties@[
                        k] as int] is None,
                    forall|i: int|
                        0 <= i < self.area && self.playable(i)
                            && #[trigger] self.field_solution@[i] is None ==> empties@.contains(
                            i as usize,
                        ),
                    empties@.len() <= len0 - 1,
                decreases dir_count - d,
            {
                let dv = dirs[d];
                let dvx = dv.0;
                let dvy = dv.1;
                proof {
                    assert(unit_dir(dvx as int, dvy as int));
                }
                let cap = self.steps_to_edge_exec(x0 as i32, y0 as i32, dvx, dvy);
                let ml = self.walk_empty_sol(x0 as i32, y0 as i32, dvx, dvy, cap);
                if ml == 0 {
                    d += 1;
                    continue ;
                }
                let l: i32 = if (greed >> d) & 1 == 1 {
                    ml
                } else {
                    1 + (rng.next_below(ml as usize) as i32)
                };
                proof {
                    assert(1 <= l <= ml);
                    self.lemma_empty_run_p_tiles(
                        self.field_solution@,
                        x0 as int,
                        y0 as int,
                        dvx as int,
                        dvy as int,
                        cap as int,
                    );
                    assert(cap as int <= 29);
                    assert forall|kk: int| 1 <= kk <= ml implies (self.playable(
                        #[trigger] ray_lin(x0 as int, y0 as int, dvx as int, dvy as int, w, kk),
                    ) && self.field_solution@[ray_lin(
                        x0 as int,
                        y0 as int,
                        dvx as int,
                        dvy as int,
                        w,
                        kk,
                    )] is None) by {
                        assert(self.playable(self.lin_at(
                            x0 + kk * (dvx as int),
                            y0 + kk * (dvy as int),
                        )) && self.field_solution@[self.lin_at(
                            x0 + kk * (dvx as int),
                            y0 + kk * (dvy as int),
                        )] is None);
                    }
                }
                let ghost xi = x0 as int;
                let ghost yi = y0 as int;
                let ghost ht_before = ht as int;
                let mut jj: i32 = 0;
                while jj < l
                    invariant
                        self.width == old(self).width,
                        self.height == old(self).height,
                        self.area == old(self).area,
                        self.mask == old(self).mask,
                        w == self.width as int,
                        self.dims_ok(),
                        self.cells_ok(self.field@),
                        self.towers_ok(),
                        self.towers@.len() <= self.area,
                        self.solution_complete(),
                        idx == self.towers@.len(),
                        forall|t: int|
                            0 <= t < self.towers@.len() ==> (#[trigger] self.towers@[
                            t]).flattened_height == self.towers@[t].height,
                        forall|t: int|
                            0 <= t < self.towers@.len() ==> (#[trigger] self.towers@[t]).bounds
                                == (Rect {
                                x: self.towers@[t].x as i32,
                                y: self.towers@[t].y as i32,
                                w: 1,
                                h: 1,
                            }),
                        forall|i: int|
                            0 <= i < self.area && #[trigger] self.field@[i] is Some ==> exists|
                                t: int,
                            |
                                0 <= t < self.towers@.len() && #[trigger] self.origin_lin(t) == i,
                        x0 < self.width,
                        y0 < self.height,
                        lin0 == x0 + y0 * w,
                        xi == x0 as int,
                        yi == y0 as int,
                        unit_dir(dvx as int, dvy as int),
                        self.field_solution@[lin0 as int] == Some(idx),
                        self.playable(lin0 as int),
                        forall|i: int|
                            0 <= i < self.area ==> ((#[trigger] self.field_solution@[i]) matches
                                Some(u) ==> (u as int) <= idx),
                        forall|i: int|
                            0 <= i < self.area && !self.playable(i) ==> self.field_solution@[i]
                                is None,
                        0 <= jj <= l,
                        1 <= l <= ml,
                        ml as int <= self.steps_to_edge(xi, yi, dvx as int, dvy as int),
                        ml <= 29,
                        count_owned(self.field_solution@, idx) == ht_before + jj,
                        ht as int == ht_before,
                        1 <= ht,
                        ht as int + l <= 1 + 29 * (d as int) + 29,
                        d < dir_count <= 4,
                        forall|kk: int|
                            1 <= kk <= ml ==> self.playable(
                                #[trigger] ray_lin(xi, yi, dvx as int, dvy as int, w, kk),
                            ),
                        forall|kk: int|
                            jj < kk <= ml ==> self.field_solution@[#[trigger] ray_lin(
                                xi,
                                yi,
                                dvx as int,
                                dvy as int,
                                w,
                                kk,
                            )] is None,
                        self.towers@.len() + 1 + empties@.len() <= self.area,
                        forall|k1: int, k2: int|
                            0 <= k1 < k2 < empties@.len() ==> #[trigger] empties@[k1]
                                < #[trigger] empties@[k2],
                        forall|k: int|
                            0 <= k < empties@.len() ==> (#[trigger] empties@[k]) < self.area
                                && self.playable(empties@[k] as int) && self.field_solution@[
                            empties@[k] as int] is None,
                        forall|i: int|
                            0 <= i < self.area && self.playable(i)
                                && #[trigger] self.field_solution@[i] is None
                            ==> empties@.contains(i as usize),
                        empties@.len() <= len0 - 1,
                    decreases l - jj,
                {
                    let ghost selfc = *self;
                    proof {
                        self.lemma_ray_in_bounds(xi, yi, dvx as int, dvy as int, jj + 1);
                    }
                    let px: i32 = (x0 as i32) + (jj + 1) * dvx;
                    let py: i32 = (y0 as i32) + (jj + 1) * dvy;
                    let cl = self.lin_idx(px, py);
                    proof {
                        assert(cl as int == ray_lin(xi, yi, dvx as int, dvy as int, w, jj + 1));
                        assert(self.field_solution@[cl as int] is None);
                        assert(self.playable(cl as int));
                        assert(empties@.contains(cl));
                    }
                    let ghost epre_c = empties@;
                    remove_value(&mut empties, cl);
                    let ghost sol_pre = self.field_solution@;
                    proof {
                        assert forall|u: usize| true implies #[trigger] count_owned(
                            sol_pre.update(cl as int, Some(idx)),
                            u,
                        ) == count_owned(sol_pre, u) + (if u == idx {
                            1int
                        } else {
                            0int
                        }) by {
                            lemma_count_owned_update(sol_pre, u, cl as int, Some(idx));
                        }
                    }
                    self.field_solution[cl] = Option::Some(idx);
                    proof {
                        assert(self.field_solution@ == sol_pre.update(cl as int, Some(idx)));
                        lemma_cells_ok_transfer(selfc, *self, self.field@);
                        lemma_towers_ok_transfer(selfc, *self);
                        assert forall|i: int|
                            0 <= i < self.area && #[trigger] self.field@[i] is Some implies exists|
                            t: int,
                        |
                            0 <= t < self.towers@.len() && #[trigger] self.origin_lin(t) == i by {
                            assert(selfc.field@[i] is Some);
                            let t = choose|t: int|
                                0 <= t < selfc.towers@.len() && #[trigger] selfc.origin_lin(t)
                                    == i;
                            assert(self.towers@[t] == selfc.towers@[t]);
                            assert(self.origin_lin(t) == i);
                        }
                        assert(lin0 != cl) by {
                            assert(sol_pre[lin0 as int] == Some(idx));
                        }
                        self.lemma_lin_bounds(x0 as int, y0 as int);
                        assert(0 <= lin0 < self.area);
                        assert(self.field_solution@[lin0 as int] == Some(idx));
                        assert forall|k: int|
                            0 <= k < empties@.len() implies (#[trigger] empties@[k]) < self.area
                                && self.playable(empties@[k] as int) && self.field_solution@[
                            empties@[k] as int] is None by {
                            assert(empties@.contains(empties@[k]));
                            assert(epre_c.contains(empties@[k]) && empties@[k] != cl);
                            let m = choose|m: int|
                                0 <= m < epre_c.len() && epre_c[m] == empties@[k];
                            assert(selfc.playable(empties@[k] as int));
                            assert(sol_pre[empties@[k] as int] is None);
                        }
                        assert forall|i: int|
                            0 <= i < self.area && self.playable(i)
                                && #[trigger] self.field_solution@[i] is None implies
                            empties@.contains(i as usize) by {
                            assert(i != cl as int);
                            assert(sol_pre[i] is None);
                            assert(selfc.playable(i));
                            assert(epre_c.contains(i as usize));
                        }
                        assert forall|i: int|
                            0 <= i < self.area && !self.playable(i) implies self.field_solution@[
                            i] is None by {
                            assert(!selfc.playable(i));
                            assert(sol_pre[i] is None);
                            assert(i != cl as int);
                        }
                        assert forall|t: int| 0 <= t < self.towers@.len() implies {
                            let tw = #[trigger] self.towers@[t];
                            &&& self.field_solution@[self.lin_at(tw.x as int, tw.y as int)]
                                == Some(t as usize)
                            &&& count_owned(self.field_solution@, t as usize) == tw.height
                        } by {
                            self.lemma_lin_bounds(
                                self.towers@[t].x as int,
                                self.towers@[t].y as int,
                            );
                            assert(sol_pre[self.lin_at(
                                self.towers@[t].x as int,
                                self.towers@[t].y as int,
                            )] == Some(t as usize));
                            lemma_count_owned_update(sol_pre, t as usize, cl as int, Some(idx));
                            assert(sol_pre[cl as int] is None);
                            assert(count_owned(sol_pre, t as usize) == self.towers@[t].height);
                        }
                        assert forall|kk: int|
                            jj + 1 < kk <= ml implies self.field_solution@[#[trigger] ray_lin(
                            xi,
                            yi,
                            dvx as int,
                            dvy as int,
                            w,
                            kk,
                        )] is None by {
                            Self::lemma_ray_distinct(xi, yi, dvx as int, dvy as int, kk, jj + 1);
                            self.lemma_ray_in_bounds(xi, yi, dvx as int, dvy as int, kk);
                            self.lemma_ray_in_bounds(xi, yi, dvx as int, dvy as int, jj + 1);
                            self.lemma_lin_bounds(
                                xi + kk * (dvx as int),
                                yi + kk * (dvy as int),
                            );
                            if ray_lin(xi, yi, dvx as int, dvy as int, w, kk) == cl as int {
                                self.lemma_lin_injective(
                                    xi + kk * (dvx as int),
                                    yi + kk * (dvy as int),
                                    xi + (jj + 1) * (dvx as int),
                                    yi + (jj + 1) * (dvy as int),
                                );
                                assert(false);
                            }
                            assert(sol_pre[ray_lin(xi, yi, dvx as int, dvy as int, w, kk)]
                                is None);
                        }
                    }
                    jj = jj + 1;
                }
                ht = ht + l;
                d += 1;
            }
            let tw = Tower {
                x: x0,
                y: y0,
                height: ht,
                flattened_height: ht,
                bounds: Rect { x: x0 as i32, y: y0 as i32, w: 1, h: 1 },
            };
            let ghost self_push = *self;
            let ghost towers_pre = self.towers@;
            let ghost field_pre = self.field@;
            let ghost olins = Seq::new(towers_pre.len(), |t: int| self.origin_lin(t));
            proof {
                assert forall|i: int| 0 <= i < self.area && #[trigger] field_pre[i] is Some
                    implies exists|t: int| 0 <= t < olins.len() && #[trigger] olins[t] == i by {
                    let t = choose|t: int|
                        0 <= t < self.towers@.len() && #[trigger] self.origin_lin(t) == i;
                    assert(olins[t] == i);
                }
                assert(field_pre[lin0 as int] is None) by {
                    if field_pre[lin0 as int] is Some {
                        let t = choose|t: int|
                            0 <= t < self.towers@.len() && #[trigger] self.origin_lin(t)
                                == lin0 as int;
                        assert(self.field_solution@[self.lin_at(
                            self.towers@[t].x as int,
                            self.towers@[t].y as int,
                        )] == Some(t as usize));
                        assert(self.field_solution@[lin0 as int] == Some(idx));
                        assert(false);
                    }
                }
                lemma_count_owned_zero(field_pre, idx);
                assert forall|u: usize| true implies #[trigger] count_owned(
                    field_pre.update(lin0 as int, Some(idx)),
                    u,
                ) == count_owned(field_pre, u) + (if u == idx {
                    1int
                } else {
                    0int
                }) by {
                    lemma_count_owned_update(field_pre, u, lin0 as int, Some(idx));
                }
            }
            self.towers.push(tw);
            self.field[lin0] = Option::Some(idx);
            proof {
                assert(self.field@ == field_pre.update(lin0 as int, Some(idx)));
                assert(self.towers@.len() == idx + 1);
                assert(self.towers@[idx as int] == tw);
                assert(self.origin_lin(idx as int) == lin0 as int);
                assert forall|t: int| 0 <= t < idx implies #[trigger] self.origin_lin(t) == olins[
                    t] by {
                    assert(self.towers@[t] == towers_pre[t]);
                }
                assert forall|t: int| 0 <= t < self.towers@.len() implies {
                    let tn = #[trigger] self.towers@[t];
                    &&& tn.x < self.width
                    &&& tn.y < self.height
                    &&& 1 <= tn.flattened_height
                    &&& tn.height <= 255
                    &&& self.field@[self.lin_at(tn.x as int, tn.y as int)] == Some(t as usize)
                    &&& tn.flattened_height + count_owned(self.field@, t as usize) == tn.height
                        + 1
                    &&& 0 <= tn.bounds.x <= 255
                    &&& 0 <= tn.bounds.y <= 255
                    &&& 0 <= tn.bounds.w <= 255
                    &&& 0 <= tn.bounds.h <= 255
                } by {
                    if t < idx {
                        assert(self.towers@[t] == towers_pre[t]);
                        self.lemma_lin_bounds(self.towers@[t].x as int, self.towers@[t].y as int);
                        assert(self.field_solution@[self.lin_at(
                            self.towers@[t].x as int,
                            self.towers@[t].y as int,
                        )] == Some(t as usize));
                        assert(self.lin_at(self.towers@[t].x as int, self.towers@[t].y as int)
                            != lin0 as int) by {
                            if self.lin_at(self.towers@[t].x as int, self.towers@[t].y as int)
                                == lin0 as int {
                                assert(self.field_solution@[lin0 as int] == Some(idx));
                            }
                        }
                        assert(field_pre[self.lin_at(
                            self.towers@[t].x as int,
                            self.towers@[t].y as int,
                        )] == Some(t as usize));
                    }
                }
                assert(self.towers_ok());
                assert forall|t: int| 0 <= t < self.towers@.len() implies {
                    let tn = #[trigger] self.towers@[t];
                    &&& self.field_solution@[self.lin_at(tn.x as int, tn.y as int)] == Some(
                        t as usize,
                    )
                    &&& count_owned(self.field_solution@, t as usize) == tn.height
                } by {
                    if t < idx {
                        assert(self.towers@[t] == towers_pre[t]);
                    }
                }
                assert(self.solution_complete());
                assert(self.dims_ok());
                assert forall|i: int|
                    0 <= i < self.field@.len() implies ((#[trigger] self.field@[i]) matches Some(
                    u,
                ) ==> (u as int) < self.towers@.len()) by {
                    if i != lin0 as int && self.field@[i] is Some {
                        assert(field_pre[i] is Some);
                    }
                }
                assert forall|i: int|
                    0 <= i < self.field@.len() && !self.playable(i) implies self.field@[i]
                    is None by {
                    assert(!self_push.playable(i));
                    assert(i != lin0 as int);
                    assert(field_pre[i] is None);
                }
                assert(self.cells_ok(self.field@));
                assert forall|i: int|
                    0 <= i < self.field_solution@.len() implies ((
                #[trigger] self.field_solution@[i]) matches Some(u) ==> (u as int)
                    < self.towers@.len()) by {
                }
                assert forall|i: int|
                    0 <= i < self.field_solution@.len() && !self.playable(i) implies
                    self.field_solution@[i] is None by {
                    assert(!self_push.playable(i));
                    assert(self_push.field_solution@[i] is None);
                }
                assert(self.cells_ok(self.field_solution@));
                assert(self.towers@.len() <= self.area);
                assert(self.wf());
                assert forall|i: int|
                    0 <= i < self.area && #[trigger] self.field@[i] is Some implies exists|t: int|
                    0 <= t < self.towers@.len() && #[trigger] self.origin_lin(t) == i by {
                    if i == lin0 as int {
                        assert(self.origin_lin(idx as int) == i);
                    } else {
                        assert(field_pre[i] is Some);
                        let t = choose|t: int| 0 <= t < olins.len() && #[trigger] olins[t] == i;
                        assert(self.origin_lin(t) == i);
                    }
                }
            }
        }
        proof {
            assert forall|i: int| 0 <= i < self.area implies (self.playable(i) <==> (
            #[trigger] self.field_solution@[i]) is Some) by {
                if self.playable(i) && self.field_solution@[i] is None {
                    assert(empties@.contains(i as usize));
                }
            }
        }
    }
}

} // verus!
