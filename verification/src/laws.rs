//! Cross-cutting laws of the engine, stated and proved once.

use vstd::prelude::*;
use crate::field::PlayingField;
use crate::tower::Rect;
use crate::geometry::{spec_signum, spec_abs, unit_dir};

verus! {

impl PlayingField {
    /// A mask-aware owned run never exceeds a non-negative step budget.
    pub proof fn lemma_owned_run_p_le(
        self,
        cells: Seq<Option<usize>>,
        x: int,
        y: int,
        dx: int,
        dy: int,
        t: usize,
        n: int,
    )
        ensures
            0 <= self.owned_run_p(cells, x, y, dx, dy, t, n) <= spec_abs(n),
        decreases n,
    {
        if n > 0 && self.playable(self.lin_at(x + dx, y + dy)) && cells[self.lin_at(
            x + dx,
            y + dy,
        )] == Some(t) {
            self.lemma_owned_run_p_le(cells, x + dx, y + dy, dx, dy, t, n - 1);
        }
    }

    /// The exact value of an unmasked owned run: the walk reaches step `m`
    /// and is stopped there, by the budget or by an unowned tile.
    pub proof fn lemma_owned_run_value(
        self,
        cells: Seq<Option<usize>>,
        x: int,
        y: int,
        dx: int,
        dy: int,
        t: usize,
        cap: int,
        m: int,
    )
        requires
            0 <= m <= cap,
            forall|k: int|
                1 <= k <= m ==> cells[#[trigger] self.lin_at(x + k * dx, y + k * dy)] == Some(t),
            m == cap || cells[self.lin_at(x + (m + 1) * dx, y + (m + 1) * dy)] != Some(t),
        ensures
            self.owned_run(cells, x, y, dx, dy, t, cap) == m,
        decreases cap,
    {
        if m == 0 {
            if cap > 0 {
                assert(x + 1 * dx == x + dx && y + 1 * dy == y + dy) by (nonlinear_arith);
                assert(cells[self.lin_at(x + dx, y + dy)] != Some(t));
            }
        } else {
            assert(x + 1 * dx == x + dx && y + 1 * dy == y + dy) by (nonlinear_arith);
            assert(cells[self.lin_at(x + dx, y + dy)] == Some(t));
            assert forall|k: int|
                1 <= k <= m - 1 implies cells[#[trigger] self.lin_at(
                (x + dx) + k * dx,
                (y + dy) + k * dy,
            )] == Some(t) by {
                assert((x + dx) + k * dx == x + (k + 1) * dx && (y + dy) + k * dy == y + (k + 1)
                    * dy) by (nonlinear_arith);
                assert(cells[self.lin_at(x + (k + 1) * dx, y + (k + 1) * dy)] == Some(t));
            }
            assert((x + dx) + m * dx == x + (m + 1) * dx && (y + dy) + m * dy == y + (m + 1) * dy)
                by (nonlinear_arith);
            self.lemma_owned_run_value(cells, x + dx, y + dy, dx, dy, t, cap - 1, m - 1);
        }
    }

    /// Bounds tightness: a probed bounding rectangle contains the probing
    /// tile, and each of its four edges touches a tile still owned by the
    /// tower along the probing ray in that direction.
    pub proof fn lemma_probe_rect_edges_touch(self, txy: (i32, i32), t: usize)
        requires
            self.wf(),
            self.in_bounds(txy.0 as int, txy.1 as int),
            self.playable(self.lin_at(txy.0 as int, txy.1 as int)),
            self.field@[self.lin_at(txy.0 as int, txy.1 as int)] == Some(t),
        ensures
            ({
                let r = self.probe_rect(txy, t);
                &&& r.x <= txy.0 < r.x + r.w
                &&& r.y <= txy.1 < r.y + r.h
                &&& self.in_bounds(r.x as int, txy.1 as int)
                &&& self.in_bounds(r.x + r.w - 1, txy.1 as int)
                &&& self.in_bounds(txy.0 as int, r.y as int)
                &&& self.in_bounds(txy.0 as int, r.y + r.h - 1)
                &&& self.field@[self.lin_at(r.x as int, txy.1 as int)] == Some(t)
                &&& self.field@[self.lin_at(r.x + r.w - 1, txy.1 as int)] == Some(t)
                &&& self.field@[self.lin_at(txy.0 as int, r.y as int)] == Some(t)
                &&& self.field@[self.lin_at(txy.0 as int, r.y + r.h - 1)] == Some(t)
            }),
    {
        let xi = txy.0 as int;
        let yi = txy.1 as int;
        let right = self.owned_run_p(self.field@, xi, yi, 1, 0, t, self.steps_to_edge(xi, yi, 1, 0));
        let left = self.owned_run_p(
            self.field@,
            xi,
            yi,
            -1,
            0,
            t,
            self.steps_to_edge(xi, yi, -1, 0),
        );
        let down = self.owned_run_p(self.field@, xi, yi, 0, 1, t, self.steps_to_edge(xi, yi, 0, 1));
        let up = self.owned_run_p(self.field@, xi, yi, 0, -1, t, self.steps_to_edge(xi, yi, 0, -1));
        self.lemma_owned_run_p_le(self.field@, xi, yi, 1, 0, t, self.steps_to_edge(xi, yi, 1, 0));
        self.lemma_owned_run_p_le(self.field@, xi, yi, -1, 0, t, self.steps_to_edge(xi, yi, -1, 0));
        self.lemma_owned_run_p_le(self.field@, xi, yi, 0, 1, t, self.steps_to_edge(xi, yi, 0, 1));
        self.lemma_owned_run_p_le(self.field@, xi, yi, 0, -1, t, self.steps_to_edge(xi, yi, 0, -1));
        self.lemma_owned_run_p_tiles(self.field@, xi, yi, 1, 0, t, self.steps_to_edge(xi, yi, 1, 0));
        self.lemma_owned_run_p_tiles(
            self.field@,
            xi,
            yi,
            -1,
            0,
            t,
            self.steps_to_edge(xi, yi, -1, 0),
        );
        self.lemma_owned_run_p_tiles(self.field@, xi, yi, 0, 1, t, self.steps_to_edge(xi, yi, 0, 1));
        self.lemma_owned_run_p_tiles(
            self.field@,
            xi,
            yi,
            0,
            -1,
            t,
            self.steps_to_edge(xi, yi, 0, -1),
        );
        if left > 0 {
            assert(self.field@[self.lin_at(xi + left * -1, yi + left * 0)] == Some(t));
            assert(xi + left * -1 == xi - left && yi + left * 0 == yi) by (nonlinear_arith);
        }
        if right > 0 {
            assert(self.field@[self.lin_at(xi + right * 1, yi + right * 0)] == Some(t));
            assert(xi + right * 1 == xi + right && yi + right * 0 == yi) by (nonlinear_arith);
        }
        if up > 0 {
            assert(self.field@[self.lin_at(xi + up * 0, yi + up * -1)] == Some(t));
            assert(xi + up * 0 == xi && yi + up * -1 == yi - up) by (nonlinear_arith);
        }
        if down > 0 {
            assert(self.field@[self.lin_at(xi + down * 0, yi + down * 1)] == Some(t));
            assert(xi + down * 0 == xi && yi + down * 1 == yi + down) by (nonlinear_arith);
        }
        assert(self.probe_rect(txy, t) == (Rect {
            x: (txy.0 - left) as i32,
            y: (txy.1 - up) as i32,
            w: (left + right + 1) as i32,
            h: (up + down + 1) as i32,
        }));
    }

    /// Flatten/deflatten inverse: after a flatten whose query covered
    /// `tiles`, the reverse destination query from the same origin aimed at
    /// the first covered tile returns exactly `tiles` again, and applying
    /// the deflatten restores the prior occupancy and flattened height.
    ///
    /// `f` is the state before the flatten and `g` the state after it, as
    /// the apply operation's contract describes `g`. The law asks that the
    /// flatten was initiated on the owner's origin tile and that the tower
    /// did not also own the tile one step beyond the destination: a tower
    /// split across the ray would otherwise be reclaimed past `tiles`.
    #[verifier::rlimit(100)]
    pub proof fn lemma_flatten_deflatten_inverse(
        f: PlayingField,
        g: PlayingField,
        txy: (i32, i32),
        pxy: (i32, i32),
    )
        requires
            f.wf(),
            f.flatten_xys_ok(txy, pxy),
            f.flatten_xys_tiles(txy, pxy).len() >= 1,
            ({
                let t = f.field@[f.lin_at(txy.0 as int, txy.1 as int)]->0;
                f.towers@[t as int].x as int == txy.0 as int && f.towers@[t as int].y as int
                    == txy.1 as int
            }),
            ({
                let dx = spec_signum(pxy.0 - txy.0);
                let dy = spec_signum(pxy.1 - txy.1);
                let n = spec_abs(pxy.0 - txy.0) + spec_abs(pxy.1 - txy.1);
                let t = f.field@[f.lin_at(txy.0 as int, txy.1 as int)]->0;
                n == f.steps_to_edge(txy.0 as int, txy.1 as int, dx, dy) || f.field@[f.lin_at(
                    txy.0 + (n + 1) * dx,
                    txy.1 + (n + 1) * dy,
                )] != Some(t)
            }),
            g.width == f.width,
            g.height == f.height,
            g.area == f.area,
            g.mask == f.mask,
            g.field@.len() == f.field@.len(),
            forall|i: int|
                0 <= i < g.field@.len() ==> #[trigger] g.field@[i] == (if f.tiles_cover(
                    f.flatten_xys_tiles(txy, pxy),
                    i,
                ) {
                    f.field@[f.lin_at(txy.0 as int, txy.1 as int)]
                } else {
                    f.field@[i]
                }),
            g.towers@.len() == f.towers@.len(),
            forall|u: int|
                0 <= u < g.towers@.len() && u != f.field@[f.lin_at(
                    txy.0 as int,
                    txy.1 as int,
                )]->0 as int ==> #[trigger] g.towers@[u] == f.towers@[u],
            ({
                let t = f.field@[f.lin_at(txy.0 as int, txy.1 as int)]->0;
                &&& g.towers@[t as int].x == f.towers@[t as int].x
                &&& g.towers@[t as int].y == f.towers@[t as int].y
                &&& g.towers@[t as int].flattened_height == f.towers@[t as int].flattened_height
                    - f.flatten_xys_tiles(txy, pxy).len()
            }),
        ensures
            ({
                let t = f.field@[f.lin_at(txy.0 as int, txy.1 as int)]->0;
                let tiles = f.flatten_xys_tiles(txy, pxy);
                let q = tiles[0];
                &&& g.deflatten_xys_ok(txy, q)
                &&& g.deflatten_xys_tiles(txy, q) == tiles
                &&& g.valid_deflatten_tiles(txy, tiles)
                &&& g.towers@[t as int].x as int == txy.0 as int
                &&& g.towers@[t as int].y as int == txy.1 as int
                &&& (forall|i: int|
                    0 <= i < g.field@.len() ==> ((if g.tiles_cover(tiles, i) {
                        Option::<usize>::None
                    } else {
                        g.field@[i]
                    }) == #[trigger] f.field@[i]))
                &&& g.towers@[t as int].flattened_height + tiles.len() == f.towers@[
                    t as int].flattened_height
            }),
    {
        let li = f.lin_at(txy.0 as int, txy.1 as int);
        let t = f.field@[li]->0;
        let tiles = f.flatten_xys_tiles(txy, pxy);
        let dx = spec_signum(pxy.0 - txy.0);
        let dy = spec_signum(pxy.1 - txy.1);
        let n = spec_abs(pxy.0 - txy.0) + spec_abs(pxy.1 - txy.1);
        let s = f.owned_run(f.field@, txy.0 as int, txy.1 as int, dx, dy, t, n);
        let xi = txy.0 as int;
        let yi = txy.1 as int;
        assert(unit_dir(dx, dy));
        f.lemma_lin_bounds(xi, yi);
        assert(1 <= n);
        if pxy.1 == txy.1 {
            if pxy.0 > txy.0 {
                assert(dx == 1 && dy == 0 && n == pxy.0 - txy.0);
                assert(n <= f.width - 1 - xi);
            } else {
                assert(dx == -1 && dy == 0 && n == txy.0 - pxy.0);
                assert(n <= xi);
            }
        } else {
            if pxy.1 > txy.1 {
                assert(dx == 0 && dy == 1 && n == pxy.1 - txy.1);
                assert(n <= f.height - 1 - yi);
            } else {
                assert(dx == 0 && dy == -1 && n == txy.1 - pxy.1);
                assert(n <= yi);
            }
        }
        assert(n <= f.steps_to_edge(xi, yi, dx, dy));
        f.lemma_owned_run_le(f.field@, xi, yi, dx, dy, t, n);
        assert(tiles.len() == n - s);
        assert forall|j: int| 0 <= j < tiles.len() implies #[trigger] tiles[j] == (((xi + (s + 1
            + j) * dx) as i32), ((yi + (s + 1 + j) * dy) as i32)) by {
        }
        assert forall|j: int| 0 <= j < tiles.len() implies f.in_bounds(
            (#[trigger] tiles[j]).0 as int,
            tiles[j].1 as int,
        ) && f.field@[f.lin_at(tiles[j].0 as int, tiles[j].1 as int)] is None && f.lin_at(
            tiles[j].0 as int,
            tiles[j].1 as int,
        ) == f.lin_at(xi + (s + 1 + j) * dx, yi + (s + 1 + j) * dy) by {
            f.lemma_ray_in_bounds(xi, yi, dx, dy, s + 1 + j);
            f.lemma_lin_bounds(xi + (s + 1 + j) * dx, yi + (s + 1 + j) * dy);
            assert(f.field@[f.lin_at(xi + (s + 1 + j) * dx, yi + (s + 1 + j) * dy)] is None);
        }
        // tiles cover exactly the ray positions s+1..=n
        assert forall|k: int| s + 1 <= k <= n implies f.tiles_cover(
            tiles,
            #[trigger] f.lin_at(xi + k * dx, yi + k * dy),
        ) by {
            assert(tiles[k - s - 1] == (((xi + k * dx) as i32), ((yi + k * dy) as i32)));
            f.lemma_ray_in_bounds(xi, yi, dx, dy, k);
            f.lemma_lin_bounds(xi + k * dx, yi + k * dy);
            assert(f.lin_at((tiles[k - s - 1]).0 as int, (tiles[k - s - 1]).1 as int) == f.lin_at(
                xi + k * dx,
                yi + k * dy,
            ));
        }
        // the origin tile is not covered
        assert(!f.tiles_cover(tiles, li)) by {
            if f.tiles_cover(tiles, li) {
                let j = choose|j: int|
                    0 <= j < tiles.len() && f.lin_at(
                        (#[trigger] tiles[j]).0 as int,
                        tiles[j].1 as int,
                    ) == li;
                assert(f.field@[li] is Some);
            }
        }
        assert(g.field@[li] == Some(t));
        // the reverse query's aim: the first covered tile
        let q = tiles[0];
        let qx = q.0 as int;
        let qy = q.1 as int;
        assert(qx == xi + (s + 1) * dx && qy == yi + (s + 1) * dy);
        assert(g.field@[g.lin_at(qx, qy)] == Some(t)) by {
            f.lemma_ray_in_bounds(xi, yi, dx, dy, s + 1);
            f.lemma_lin_bounds(qx, qy);
            assert(g.lin_at(qx, qy) == f.lin_at(qx, qy));
            assert(f.tiles_cover(tiles, f.lin_at(qx, qy)));
        }
        assert(spec_signum(q.0 - txy.0) == dx && spec_signum(q.1 - txy.1) == dy)
            by (nonlinear_arith)
            requires
                unit_dir(dx, dy),
                qx == xi + (s + 1) * dx,
                qy == yi + (s + 1) * dy,
                s + 1 >= 1,
                q.0 == qx,
                q.1 == qy,
                txy.0 == xi,
                txy.1 == yi,
        ;
        assert(!(q.0 == txy.0 && q.1 == txy.1) && (q.0 == txy.0 || q.1 == txy.1))
            by (nonlinear_arith)
            requires
                unit_dir(dx, dy),
                qx == xi + (s + 1) * dx,
                qy == yi + (s + 1) * dy,
                s + 1 >= 1,
                q.0 == qx,
                q.1 == qy,
                txy.0 == xi,
                txy.1 == yi,
        ;
        assert(g.deflatten_xys_ok(txy, q));
        // the owned run from q in g runs through the covered stretch and
        // stops right after the destination
        let cap_q = g.steps_to_edge(qx, qy, dx, dy);
        assert(cap_q == f.steps_to_edge(xi, yi, dx, dy) - (s + 1)) by (nonlinear_arith)
            requires
                unit_dir(dx, dy),
                qx == xi + (s + 1) * dx,
                qy == yi + (s + 1) * dy,
                g.width == f.width,
                g.height == f.height,
                cap_q == g.steps_to_edge(qx, qy, dx, dy),
        ;
        let m = n - s - 1;
        assert(0 <= m <= cap_q);
        assert forall|k: int| 1 <= k <= m implies g.field@[#[trigger] g.lin_at(
            qx + k * dx,
            qy + k * dy,
        )] == Some(t) by {
            assert(qx + k * dx == xi + (s + 1 + k) * dx && qy + k * dy == yi + (s + 1 + k) * dy)
                by (nonlinear_arith)
                requires
                    qx == xi + (s + 1) * dx,
                    qy == yi + (s + 1) * dy,
            ;
            f.lemma_ray_in_bounds(xi, yi, dx, dy, s + 1 + k);
            f.lemma_lin_bounds(xi + (s + 1 + k) * dx, yi + (s + 1 + k) * dy);
            assert(f.tiles_cover(tiles, f.lin_at(xi + (s + 1 + k) * dx, yi + (s + 1 + k) * dy)));
        }
        if m < cap_q {
            assert(qx + (m + 1) * dx == xi + (n + 1) * dx && qy + (m + 1) * dy == yi + (n + 1)
                * dy) by (nonlinear_arith)
                requires
                    qx == xi + (s + 1) * dx,
                    qy == yi + (s + 1) * dy,
                    m == n - s - 1,
            ;
            assert(n + 1 <= f.steps_to_edge(xi, yi, dx, dy));
            f.lemma_ray_in_bounds(xi, yi, dx, dy, n + 1);
            f.lemma_lin_bounds(xi + (n + 1) * dx, yi + (n + 1) * dy);
            assert(f.field@[f.lin_at(xi + (n + 1) * dx, yi + (n + 1) * dy)] != Some(t));
            assert(g.field@[g.lin_at(qx + (m + 1) * dx, qy + (m + 1) * dy)] != Some(t)) by {
                let ii = f.lin_at(xi + (n + 1) * dx, yi + (n + 1) * dy);
                if f.tiles_cover(tiles, ii) {
                    let j = choose|j: int|
                        0 <= j < tiles.len() && f.lin_at(
                            (#[trigger] tiles[j]).0 as int,
                            tiles[j].1 as int,
                        ) == ii;
                    f.lemma_ray_in_bounds(xi, yi, dx, dy, s + 1 + j);
                    Self::lemma_ray_distinct(xi, yi, dx, dy, s + 1 + j, n + 1);
                    f.lemma_lin_injective(
                        tiles[j].0 as int,
                        tiles[j].1 as int,
                        xi + (n + 1) * dx,
                        yi + (n + 1) * dy,
                    );
                    assert(false);
                }
                assert(g.field@[ii] == f.field@[ii]);
            }
        }
        g.lemma_owned_run_value(g.field@, qx, qy, dx, dy, t, cap_q, m);
        let back = g.deflatten_xys_tiles(txy, q);
        assert(back.len() == m + 1 == tiles.len());
        assert forall|j: int| 0 <= j < back.len() implies #[trigger] back[j] == tiles[j] by {
            assert(back[j] == (((qx + j * dx) as i32), ((qy + j * dy) as i32)));
            assert(qx + j * dx == xi + (s + 1 + j) * dx && qy + j * dy == yi + (s + 1 + j) * dy)
                by (nonlinear_arith)
                requires
                    qx == xi + (s + 1) * dx,
                    qy == yi + (s + 1) * dy,
            ;
        }
        assert(back =~= tiles);
        // the returned list is a valid deflatten application
        assert forall|j: int| 0 <= j < tiles.len() implies g.field@[g.lin_at(
            (#[trigger] tiles[j]).0 as int,
            tiles[j].1 as int,
        )] == g.field@[g.lin_at(txy.0 as int, txy.1 as int)] && tiles[j] != txy by {
            f.lemma_ray_in_bounds(xi, yi, dx, dy, s + 1 + j);
            assert(f.tiles_cover(tiles, f.lin_at(xi + (s + 1 + j) * dx, yi + (s + 1 + j) * dy)));
            Self::lemma_ray_distinct(xi, yi, dx, dy, s + 1 + j, 0);
        }
        assert forall|j1: int, j2: int|
            0 <= j1 < j2 < tiles.len() implies #[trigger] tiles[j1] != #[trigger] tiles[j2] by {
            Self::lemma_ray_distinct(xi, yi, dx, dy, s + 1 + j1, s + 1 + j2);
        }
        assert(g.valid_deflatten_tiles(txy, tiles));
        // clearing the covered tiles restores the occupancy before the flatten
        assert forall|i: int| 0 <= i < g.field@.len() implies ((if g.tiles_cover(tiles, i) {
            Option::<usize>::None
        } else {
            g.field@[i]
        }) == #[trigger] f.field@[i]) by {
            assert(g.tiles_cover(tiles, i) == f.tiles_cover(tiles, i));
            if f.tiles_cover(tiles, i) {
                let j = choose|j: int|
                    0 <= j < tiles.len() && f.lin_at(
                        (#[trigger] tiles[j]).0 as int,
                        tiles[j].1 as int,
                    ) == i;
                assert(f.field@[i] is None);
            }
        }
    }
}

} // verus!
