//! Move geometry: ray walks, flatten/deflatten queries and applications,
//! and bounding-box maintenance.
//!
//! All move geometry is strictly axis-aligned: a query walks a horizontal or
//! vertical ray from the tile the move was initiated on. Queries never
//! mutate; they either fail or return the ordered list of tiles the matching
//! apply operation would change.

use vstd::prelude::*;
use crate::field::{PlayingField, count_owned, lemma_count_owned_update, lemma_count_owned_pos,
    lemma_cells_ok_transfer};
use crate::tower::{Tower, Rect};

verus! {

/// Sign of `v` as `-1`, `0` or `1`.
pub open spec fn spec_signum(v: int) -> int {
    if v > 0 {
        1
    } else if v < 0 {
        -1
    } else {
        0
    }
}

/// Magnitude of `v`.
pub open spec fn spec_abs(v: int) -> int {
    if v >= 0 {
        v
    } else {
        -v
    }
}

/// Linear index of the `k`-th tile on the ray from `(x, y)` in direction
/// `(dx, dy)` over a row width of `w`.
pub open spec fn ray_lin(x: int, y: int, dx: int, dy: int, w: int, k: int) -> int {
    (x + k * dx) + (y + k * dy) * w
}

/// `(dx, dy)` is one of the four cardinal unit directions.
pub open spec fn unit_dir(dx: int, dy: int) -> bool {
    ||| (dx == 1 && dy == 0)
    ||| (dx == -1 && dy == 0)
    ||| (dx == 0 && dy == 1)
    ||| (dx == 0 && dy == -1)
}

/// Sign of `v` as an executable step.
fn signum_i32(v: i32) -> (r: i32)
    ensures
        r as int == spec_signum(v as int),
{
    if v > 0 {
        1
    } else if v < 0 {
        -1
    } else {
        0
    }
}

/// Magnitude of `v` as an executable step; the engine only takes it of
/// small coordinate differences.
fn abs_i32(v: i32) -> (r: i32)
    requires
        v != i32::MIN,
    ensures
        r as int == spec_abs(v as int),
{
    if v < 0 {
        -v
    } else {
        v
    }
}

impl PlayingField {
    /// How many steps fit from `(x, y)` in direction `(dx, dy)` before the
    /// walk would leave the field.
    pub open spec fn steps_to_edge(self, x: int, y: int, dx: int, dy: int) -> int {
        if dx == 1 {
            self.width - 1 - x
        } else if dx == -1 {
            x
        } else if dy == 1 {
            self.height - 1 - y
        } else {
            y
        }
    }

    /// Length of the run of tiles owned by `t` when walking from `(x, y)`
    /// (exclusive) in direction `(dx, dy)`, looking at most `n` steps and
    /// ignoring the mask.
    pub open spec fn owned_run(
        self,
        cells: Seq<Option<usize>>,
        x: int,
        y: int,
        dx: int,
        dy: int,
        t: usize,
        n: int,
    ) -> int
        decreases n,
    {
        if n <= 0 {
            0
        } else if cells[self.lin_at(x + dx, y + dy)] == Some(t) {
            1 + self.owned_run(cells, x + dx, y + dy, dx, dy, t, n - 1)
        } else {
            0
        }
    }

    /// Like [`Self::owned_run`], but a masked-out tile also ends the run.
    pub open spec fn owned_run_p(
        self,
        cells: Seq<Option<usize>>,
        x: int,
        y: int,
        dx: int,
        dy: int,
        t: usize,
        n: int,
    ) -> int
        decreases n,
    {
        if n <= 0 {
            0
        } else if self.playable(self.lin_at(x + dx, y + dy)) && cells[self.lin_at(x + dx, y + dy)]
            == Some(t) {
            1 + self.owned_run_p(cells, x + dx, y + dy, dx, dy, t, n - 1)
        } else {
            0
        }
    }

    /// Length of the run of playable empty tiles when walking from `(x, y)`
    /// (exclusive) in direction `(dx, dy)`, looking at most `n` steps.
    pub open spec fn empty_run_p(
        self,
        cells: Seq<Option<usize>>,
        x: int,
        y: int,
        dx: int,
        dy: int,
        n: int,
    ) -> int
        decreases n,
    {
        if n <= 0 {
            0
        } else if self.playable(self.lin_at(x + dx, y + dy)) && cells[self.lin_at(x + dx, y + dy)]
            is None {
            1 + self.empty_run_p(cells, x + dx, y + dy, dx, dy, n - 1)
        } else {
            0
        }
    }

    /// A run never exceeds its step budget.
    pub proof fn lemma_owned_run_le(
        self,
        cells: Seq<Option<usize>>,
        x: int,
        y: int,
        dx: int,
        dy: int,
        t: usize,
        n: int,
    )
        ensures
            0 <= self.owned_run(cells, x, y, dx, dy, t, n) <= spec_abs(n),
        decreases n,
    {
        if n > 0 && cells[self.lin_at(x + dx, y + dy)] == Some(t) {
            self.lemma_owned_run_le(cells, x + dx, y + dy, dx, dy, t, n - 1);
        }
    }

    /// Every tile within an unmasked owned run is owned by the tower.
    pub proof fn lemma_owned_run_tiles(
        self,
        cells: Seq<Option<usize>>,
        x: int,
        y: int,
        dx: int,
        dy: int,
        t: usize,
        n: int,
    )
        ensures
            forall|k: int|
                1 <= k <= self.owned_run(cells, x, y, dx, dy, t, n) ==> cells[#[trigger] self.lin_at(
                    x + k * dx,
                    y + k * dy,
                )] == Some(t),
        decreases n,
    {
        if n > 0 && cells[self.lin_at(x + dx, y + dy)] == Some(t) {
            self.lemma_owned_run_tiles(cells, x + dx, y + dy, dx, dy, t, n - 1);
            assert forall|k: int|
                1 <= k <= self.owned_run(cells, x, y, dx, dy, t, n) implies cells[
            #[trigger] self.lin_at(x + k * dx, y + k * dy)] == Some(t) by {
                if k > 1 {
                    assert(cells[self.lin_at(x + dx + (k - 1) * dx, y + dy + (k - 1) * dy)] == Some(
                        t,
                    ));
                    assert(x + dx + (k - 1) * dx == x + k * dx) by (nonlinear_arith);
                    assert(y + dy + (k - 1) * dy == y + k * dy) by (nonlinear_arith);
                }
            }
        }
    }

    /// Every tile within a mask-aware owned run is playable and owned.
    pub proof fn lemma_owned_run_p_tiles(
        self,
        cells: Seq<Option<usize>>,
        x: int,
        y: int,
        dx: int,
        dy: int,
        t: usize,
        n: int,
    )
        ensures
            forall|k: int|
                1 <= k <= self.owned_run_p(cells, x, y, dx, dy, t, n) ==> (self.playable(
                    #[trigger] self.lin_at(x + k * dx, y + k * dy),
                ) && cells[self.lin_at(x + k * dx, y + k * dy)] == Some(t)),
        decreases n,
    {
        if n > 0 && self.playable(self.lin_at(x + dx, y + dy)) && cells[self.lin_at(
            x + dx,
            y + dy,
        )] == Some(t) {
            self.lemma_owned_run_p_tiles(cells, x + dx, y + dy, dx, dy, t, n - 1);
            assert forall|k: int|
                1 <= k <= self.owned_run_p(cells, x, y, dx, dy, t, n) implies (self.playable(
                #[trigger] self.lin_at(x + k * dx, y + k * dy),
            ) && cells[self.lin_at(x + k * dx, y + k * dy)] == Some(t)) by {
                if k > 1 {
                    assert(x + dx + (k - 1) * dx == x + k * dx) by (nonlinear_arith);
                    assert(y + dy + (k - 1) * dy == y + k * dy) by (nonlinear_arith);
                    assert(self.playable(self.lin_at(x + dx + (k - 1) * dx, y + dy + (k - 1) * dy))
                        && cells[self.lin_at(x + dx + (k - 1) * dx, y + dy + (k - 1) * dy)] == Some(
                        t,
                    ));
                }
            }
        }
    }

    /// Executable linear index of an in-bounds tile.
    pub(crate) fn lin_idx(&self, x: i32, y: i32) -> (r: usize)
        requires
            self.area == self.width * self.height,
            self.in_bounds(x as int, y as int),
        ensures
            r == self.lin_at(x as int, y as int),
            r < self.area,
    {
        proof {
            self.lemma_lin_bounds(x as int, y as int);
        }
        (x as usize) + (y as usize) * self.width
    }

    /// Walks the unmasked owned run from `(x0, y0)`, capped at `cap` steps.
    fn walk_owned(&self, x0: i32, y0: i32, dx: i32, dy: i32, t: usize, cap: i32) -> (s: i32)
        requires
            self.dims_ok(),
            unit_dir(dx as int, dy as int),
            self.in_bounds(x0 as int, y0 as int),
            0 <= cap <= self.steps_to_edge(x0 as int, y0 as int, dx as int, dy as int),
        ensures
            s == self.owned_run(self.field@, x0 as int, y0 as int, dx as int, dy as int, t, cap as int),
            0 <= s <= cap,
    {
        let mut s: i32 = 0;
        let mut cx: i32 = x0;
        let mut cy: i32 = y0;
        loop
            invariant
                self.dims_ok(),
                unit_dir(dx as int, dy as int),
                self.in_bounds(x0 as int, y0 as int),
                0 <= cap <= self.steps_to_edge(x0 as int, y0 as int, dx as int, dy as int),
                0 <= s <= cap,
                cx as int == x0 + s * dx,
                cy as int == y0 + s * dy,
                self.in_bounds(cx as int, cy as int),
                self.owned_run(self.field@, x0 as int, y0 as int, dx as int, dy as int, t, cap as int)
                    == s + self.owned_run(
                    self.field@,
                    cx as int,
                    cy as int,
                    dx as int,
                    dy as int,
                    t,
                    cap - s,
                ),
            decreases cap - s,
        {
            if s == cap {
                return s;
            }
            let nx = cx + dx;
            let ny = cy + dy;
            proof {
                assert(self.steps_to_edge(cx as int, cy as int, dx as int, dy as int)
                    == self.steps_to_edge(x0 as int, y0 as int, dx as int, dy as int) - s)
                    by (nonlinear_arith)
                    requires
                        unit_dir(dx as int, dy as int),
                        cx as int == x0 + s * dx,
                        cy as int == y0 + s * dy,
                ;
                assert(self.in_bounds(nx as int, ny as int));
            }
            let li = self.lin_idx(nx, ny);
            let owned = match self.field[li] {
                Option::Some(u) => u == t,
                Option::None => false,
            };
            if owned {
                proof {
                    assert(nx as int == x0 + (s + 1) * dx) by (nonlinear_arith)
                        requires
                            cx as int == x0 + s * dx,
                            nx as int == cx + dx,
                    ;
                    assert(ny as int == y0 + (s + 1) * dy) by (nonlinear_arith)
                        requires
                            cy as int == y0 + s * dy,
                            ny as int == cy + dy,
                    ;
                }
                s = s + 1;
                cx = nx;
                cy = ny;
            } else {
                return s;
            }
        }
    }

    /// A step count within the edge budget keeps the walk on the field.
    pub proof fn lemma_ray_in_bounds(self, x: int, y: int, dx: int, dy: int, k: int)
        requires
            self.in_bounds(x, y),
            unit_dir(dx, dy),
            0 <= k <= self.steps_to_edge(x, y, dx, dy),
        ensures
            self.in_bounds(x + k * dx, y + k * dy),
    {
        assert(self.in_bounds(x + k * dx, y + k * dy)) by (nonlinear_arith)
            requires
                self.in_bounds(x, y),
                unit_dir(dx, dy),
                0 <= k <= self.steps_to_edge(x, y, dx, dy),
        ;
    }

    /// Two distinct steps along a ray land on distinct tiles, and never on a
    /// tile strictly behind the walk's start.
    pub proof fn lemma_ray_distinct(x: int, y: int, dx: int, dy: int, j1: int, j2: int)
        requires
            unit_dir(dx, dy),
            j1 != j2,
        ensures
            x + j1 * dx != x + j2 * dx || y + j1 * dy != y + j2 * dy,
    {
        assert(j1 * dx != j2 * dx || j1 * dy != j2 * dy) by (nonlinear_arith)
            requires
                unit_dir(dx, dy),
                j1 != j2,
        ;
    }

    /// Executable distance to the field edge in a cardinal direction.
    pub(crate) fn steps_to_edge_exec(&self, x: i32, y: i32, dx: i32, dy: i32) -> (r: i32)
        requires
            self.dims_ok(),
            self.in_bounds(x as int, y as int),
            unit_dir(dx as int, dy as int),
        ensures
            r as int == self.steps_to_edge(x as int, y as int, dx as int, dy as int),
            0 <= r,
    {
        if dx == 1 {
            (self.width as i32) - 1 - x
        } else if dx == -1 {
            x
        } else if dy == 1 {
            (self.height as i32) - 1 - y
        } else {
            y
        }
    }

    /// The tiles an applied deflatten may clear: at least one, each owned by
    /// the tower under the initiating tile and none of them that tile itself.
    pub open spec fn valid_deflatten_tiles(self, txy: (i32, i32), tiles: Seq<(i32, i32)>) -> bool {
        &&& self.in_bounds(txy.0 as int, txy.1 as int)
        &&& self.field@[self.lin_at(txy.0 as int, txy.1 as int)] is Some
        &&& 1 <= tiles.len()
        &&& forall|j: int|
            0 <= j < tiles.len() ==> self.in_bounds(
                (#[trigger] tiles[j]).0 as int,
                tiles[j].1 as int,
            )
        &&& forall|j: int|
            0 <= j < tiles.len() ==> self.field@[self.lin_at(
                (#[trigger] tiles[j]).0 as int,
                tiles[j].1 as int,
            )] == self.field@[self.lin_at(txy.0 as int, txy.1 as int)]
        &&& forall|j: int| 0 <= j < tiles.len() ==> (#[trigger] tiles[j]) != txy
        &&& forall|j1: int, j2: int|
            0 <= j1 < j2 < tiles.len() ==> #[trigger] tiles[j1] != #[trigger] tiles[j2]
    }

    /// When a deflatten query aimed at a destination tile succeeds: both
    /// tiles on the field, distinct and collinear, and both owned by the
    /// same tower. Neither the mask nor the flattened height is consulted.
    pub open spec fn deflatten_xys_ok(self, txy: (i32, i32), pxy: (i32, i32)) -> bool {
        &&& self.in_bounds(txy.0 as int, txy.1 as int)
        &&& self.in_bounds(pxy.0 as int, pxy.1 as int)
        &&& !(pxy.0 == txy.0 && pxy.1 == txy.1)
        &&& (pxy.0 == txy.0 || pxy.1 == txy.1)
        &&& self.field@[self.lin_at(txy.0 as int, txy.1 as int)] is Some
        &&& self.field@[self.lin_at(pxy.0 as int, pxy.1 as int)] == self.field@[self.lin_at(
            txy.0 as int,
            txy.1 as int,
        )]
    }

    /// What a successful destination deflatten query returns: the
    /// destination tile and every consecutive tile owned by the same tower
    /// strictly beyond it on the ray away from the initiating tile.
    pub open spec fn deflatten_xys_tiles(self, txy: (i32, i32), pxy: (i32, i32)) -> Seq<(i32, i32)> {
        let dx = spec_signum(pxy.0 - txy.0);
        let dy = spec_signum(pxy.1 - txy.1);
        let t = self.field@[self.lin_at(txy.0 as int, txy.1 as int)]->0;
        let r = self.owned_run(
            self.field@,
            pxy.0 as int,
            pxy.1 as int,
            dx,
            dy,
            t,
            self.steps_to_edge(pxy.0 as int, pxy.1 as int, dx, dy),
        );
        Seq::new((r + 1) as nat, |j: int| (((pxy.0 + j * dx) as i32, (pxy.1 + j * dy) as i32)))
    }

    /// Queries a deflatten of the tower under `tower_xy` aimed at
    /// `pointing_xy`: fails unless both tiles are in bounds, collinear and
    /// distinct and both belong to one tower; otherwise returns the owned
    /// tiles from `pointing_xy` outward, destination first.
    pub fn calc_deflatten_xys(&self, tower_xy: (i32, i32), pointing_xy: (i32, i32)) -> (r: Option<
        Vec<(i32, i32)>,
    >)
        requires
            self.wf(),
        ensures
            r is Some <==> self.deflatten_xys_ok(tower_xy, pointing_xy),
            (r matches Some(v) ==> v@ == self.deflatten_xys_tiles(tower_xy, pointing_xy)),
            (r matches Some(v) ==> self.valid_deflatten_tiles(tower_xy, v@)),
    {
        if !self.is_inside_xy(tower_xy) || !self.is_inside_xy(pointing_xy) {
            return Option::None;
        }
        if (pointing_xy.0 == tower_xy.0 && pointing_xy.1 == tower_xy.1) || (pointing_xy.0
            != tower_xy.0 && pointing_xy.1 != tower_xy.1) {
            return Option::None;
        }
        let lin_idx = self.lin_idx(tower_xy.0, tower_xy.1);
        let t: usize = match self.field[lin_idx] {
            Option::Some(u) => u,
            Option::None => { return Option::None; },
        };
        let plin = self.lin_idx(pointing_xy.0, pointing_xy.1);
        let same = match self.field[plin] {
            Option::Some(u) => u == t,
            Option::None => false,
        };
        if !same {
            return Option::None;
        }
        let dx = signum_i32(pointing_xy.0 - tower_xy.0);
        let dy = signum_i32(pointing_xy.1 - tower_xy.1);
        let cap = self.steps_to_edge_exec(pointing_xy.0, pointing_xy.1, dx, dy);
        let run = self.walk_owned(pointing_xy.0, pointing_xy.1, dx, dy, t, cap);
        let ghost tiles = self.deflatten_xys_tiles(tower_xy, pointing_xy);
        proof {
            assert(tiles.len() == run + 1);
        }
        let mut v: Vec<(i32, i32)> = Vec::new();
        let mut cx = pointing_xy.0;
        let mut cy = pointing_xy.1;
        let mut j: i32 = 0;
        while j <= run
            invariant
                self.wf(),
                unit_dir(dx as int, dy as int),
                self.in_bounds(pointing_xy.0 as int, pointing_xy.1 as int),
                0 <= run <= cap,
                cap == self.steps_to_edge(
                    pointing_xy.0 as int,
                    pointing_xy.1 as int,
                    dx as int,
                    dy as int,
                ),
                0 <= j <= run + 1,
                cx as int == pointing_xy.0 + j * dx,
                cy as int == pointing_xy.1 + j * dy,
                tiles.len() == run + 1,
                v@.len() == j,
                forall|jj: int|
                    0 <= jj < j ==> #[trigger] v@[jj] == (((pointing_xy.0 + jj * dx) as i32), ((
                    pointing_xy.1 + jj * dy) as i32)),
            decreases run + 1 - j,
        {
            proof {
                self.lemma_ray_in_bounds(
                    pointing_xy.0 as int,
                    pointing_xy.1 as int,
                    dx as int,
                    dy as int,
                    j as int,
                );
            }
            v.push((cx, cy));
            proof {
                assert(cx + dx == pointing_xy.0 + (j + 1) * dx) by (nonlinear_arith)
                    requires
                        cx as int == pointing_xy.0 + j * dx,
                ;
                assert(cy + dy == pointing_xy.1 + (j + 1) * dy) by (nonlinear_arith)
                    requires
                        cy as int == pointing_xy.1 + j * dy,
                ;
            }
            cx = cx + dx;
            cy = cy + dy;
            j = j + 1;
        }
        proof {
            assert(v@ =~= tiles);
            self.lemma_owned_run_tiles(
                self.field@,
                pointing_xy.0 as int,
                pointing_xy.1 as int,
                dx as int,
                dy as int,
                t,
                cap as int,
            );
            assert forall|j: int| 0 <= j < tiles.len() implies self.in_bounds(
                (#[trigger] tiles[j]).0 as int,
                tiles[j].1 as int,
            ) && self.field@[self.lin_at(tiles[j].0 as int, tiles[j].1 as int)] == Some(t) by {
                self.lemma_ray_in_bounds(
                    pointing_xy.0 as int,
                    pointing_xy.1 as int,
                    dx as int,
                    dy as int,
                    j,
                );
                if j > 0 {
                    assert(self.field@[self.lin_at(
                        pointing_xy.0 + j * dx,
                        pointing_xy.1 + j * dy,
                    )] == Some(t));
                }
            }
            assert forall|j: int| 0 <= j < tiles.len() implies (#[trigger] tiles[j]) != tower_xy by {
                if tiles[j] == tower_xy {
                    assert(pointing_xy.0 + j * dx == tower_xy.0 && pointing_xy.1 + j * dy
                        == tower_xy.1);
                    assert(false) by (nonlinear_arith)
                        requires
                            dx as int == spec_signum(pointing_xy.0 - tower_xy.0),
                            dy as int == spec_signum(pointing_xy.1 - tower_xy.1),
                            !(pointing_xy.0 == tower_xy.0 && pointing_xy.1 == tower_xy.1),
                            (pointing_xy.0 == tower_xy.0 || pointing_xy.1 == tower_xy.1),
                            j >= 0,
                            pointing_xy.0 + j * dx == tower_xy.0,
                            pointing_xy.1 + j * dy == tower_xy.1,
                    ;
                }
            }
            assert forall|j1: int, j2: int|
                0 <= j1 < j2 < tiles.len() implies #[trigger] tiles[j1] != #[trigger] tiles[j2] by {
                Self::lemma_ray_distinct(
                    pointing_xy.0 as int,
                    pointing_xy.1 as int,
                    dx as int,
                    dy as int,
                    j1,
                    j2,
                );
                self.lemma_ray_in_bounds(
                    pointing_xy.0 as int,
                    pointing_xy.1 as int,
                    dx as int,
                    dy as int,
                    j1,
                );
                self.lemma_ray_in_bounds(
                    pointing_xy.0 as int,
                    pointing_xy.1 as int,
                    dx as int,
                    dy as int,
                    j2,
                );
            }
        }
        Option::Some(v)
    }

    /// When a directional deflatten query succeeds: the initiating tile is
    /// on the field and owned, and the tower extends at least one tile in
    /// the walked direction. The mask and the flattened height are not
    /// consulted.
    pub open spec fn deflatten_towards_ok(self, txy: (i32, i32), dx: int, dy: int) -> bool {
        &&& self.in_bounds(txy.0 as int, txy.1 as int)
        &&& self.field@[self.lin_at(txy.0 as int, txy.1 as int)] is Some
        &&& self.owned_run(
            self.field@,
            txy.0 as int,
            txy.1 as int,
            dx,
            dy,
            self.field@[self.lin_at(txy.0 as int, txy.1 as int)]->0,
            self.steps_to_edge(txy.0 as int, txy.1 as int, dx, dy),
        ) >= 1
    }

    /// What a successful directional deflatten query returns: up to `count`
    /// owned tiles walking from the tower's far edge in that direction back
    /// toward the initiating tile, farthest first and stopping before it.
    pub open spec fn deflatten_towards_tiles(self, txy: (i32, i32), dx: int, dy: int, count: i32) -> Seq<
        (i32, i32),
    > {
        let t = self.field@[self.lin_at(txy.0 as int, txy.1 as int)]->0;
        let far = self.owned_run(
            self.field@,
            txy.0 as int,
            txy.1 as int,
            dx,
            dy,
            t,
            self.steps_to_edge(txy.0 as int, txy.1 as int, dx, dy),
        );
        let cnt = if count <= far {
            count as int
        } else {
            far
        };
        Seq::new(
            cnt as nat,
            |j: int| (((txy.0 + (far - j) * dx) as i32), ((txy.1 + (far - j) * dy) as i32)),
        )
    }

    /// Queries a deflatten of the tower under `tower_xy` walking in `dir`:
    /// fails on a diagonal direction, off the field, on an unowned tile, or
    /// when nothing of the tower extends that way; otherwise returns up to
    /// `count` owned tiles from the far edge back toward `tower_xy`.
    pub fn calc_deflatten_towards_xys(&self, tower_xy: (i32, i32), dir: (i32, i32), count: i32) -> (r:
        Option<Vec<(i32, i32)>>)
        requires
            self.wf(),
            !(dir.0 == 0 && dir.1 == 0),
            count >= 1,
        ensures
            r is Some <==> (unit_dir(spec_signum(dir.0 as int), spec_signum(dir.1 as int))
                && self.deflatten_towards_ok(
                tower_xy,
                spec_signum(dir.0 as int),
                spec_signum(dir.1 as int),
            )),
            (r matches Some(v) ==> v@ == self.deflatten_towards_tiles(
                tower_xy,
                spec_signum(dir.0 as int),
                spec_signum(dir.1 as int),
                count,
            )),
            (r matches Some(v) ==> self.valid_deflatten_tiles(tower_xy, v@)),
    {
        let dx = signum_i32(dir.0);
        let dy = signum_i32(dir.1);
        if dx != 0 && dy != 0 {
            return Option::None;
        }
        if !self.is_inside_xy(tower_xy) {
            return Option::None;
        }
        let lin_idx = self.lin_idx(tower_xy.0, tower_xy.1);
        let t: usize = match self.field[lin_idx] {
            Option::Some(u) => u,
            Option::None => { return Option::None; },
        };
        let cap = self.steps_to_edge_exec(tower_xy.0, tower_xy.1, dx, dy);
        let far = self.walk_owned(tower_xy.0, tower_xy.1, dx, dy, t, cap);
        if far == 0 {
            return Option::None;
        }
        let cnt: i32 = if count <= far {
            count
        } else {
            far
        };
        let ghost tiles = self.deflatten_towards_tiles(
            tower_xy,
            spec_signum(dir.0 as int),
            spec_signum(dir.1 as int),
            count,
        );
        proof {
            assert(tiles.len() == cnt);
        }
        let mut v: Vec<(i32, i32)> = Vec::new();
        let mut j: i32 = 0;
        while j < cnt
            invariant
                self.wf(),
                unit_dir(dx as int, dy as int),
                self.in_bounds(tower_xy.0 as int, tower_xy.1 as int),
                1 <= far <= cap,
                1 <= cnt <= far,
                cap == self.steps_to_edge(
                    tower_xy.0 as int,
                    tower_xy.1 as int,
                    dx as int,
                    dy as int,
                ),
                0 <= j <= cnt,
                tiles.len() == cnt,
                forall|jj: int|
                    0 <= jj < cnt ==> #[trigger] tiles[jj] == (((tower_xy.0 + (far - jj)
                        * dx) as i32), ((tower_xy.1 + (far - jj) * dy) as i32)),
                v@.len() == j,
                forall|jj: int| 0 <= jj < j ==> #[trigger] v@[jj] == tiles[jj],
            decreases cnt - j,
        {
            proof {
                self.lemma_ray_in_bounds(
                    tower_xy.0 as int,
                    tower_xy.1 as int,
                    dx as int,
                    dy as int,
                    far - j,
                );
            }
            let k: i32 = far - j;
            let px: i32 = tower_xy.0 + k * dx;
            let py: i32 = tower_xy.1 + k * dy;
            v.push((px, py));
            j = j + 1;
        }
        proof {
            assert(v@ =~= tiles);
            self.lemma_owned_run_tiles(
                self.field@,
                tower_xy.0 as int,
                tower_xy.1 as int,
                dx as int,
                dy as int,
                t,
                cap as int,
            );
            assert forall|j: int| 0 <= j < tiles.len() implies self.in_bounds(
                (#[trigger] tiles[j]).0 as int,
                tiles[j].1 as int,
            ) && self.field@[self.lin_at(tiles[j].0 as int, tiles[j].1 as int)] == Some(t) && tiles[
                j] != tower_xy by {
                self.lemma_ray_in_bounds(
                    tower_xy.0 as int,
                    tower_xy.1 as int,
                    dx as int,
                    dy as int,
                    far - j,
                );
                assert(1 <= far - j <= far);
                assert(self.field@[self.lin_at(
                    tower_xy.0 + (far - j) * dx,
                    tower_xy.1 + (far - j) * dy,
                )] == Some(t));
                Self::lemma_ray_distinct(
                    tower_xy.0 as int,
                    tower_xy.1 as int,
                    dx as int,
                    dy as int,
                    far - j,
                    0,
                );
            }
            assert forall|j1: int, j2: int|
                0 <= j1 < j2 < tiles.len() implies #[trigger] tiles[j1] != #[trigger] tiles[j2] by {
                Self::lemma_ray_distinct(
                    tower_xy.0 as int,
                    tower_xy.1 as int,
                    dx as int,
                    dy as int,
                    far - j1,
                    far - j2,
                );
                self.lemma_ray_in_bounds(
                    tower_xy.0 as int,
                    tower_xy.1 as int,
                    dx as int,
                    dy as int,
                    far - j1,
                );
                self.lemma_ray_in_bounds(
                    tower_xy.0 as int,
                    tower_xy.1 as int,
                    dx as int,
                    dy as int,
                    far - j2,
                );
            }
        }
        Option::Some(v)
    }

    /// Whether tile `li` is playable, as an executable test.
    pub(crate) fn playable_exec(&self, li: usize) -> (r: bool)
        requires
            self.dims_ok(),
            li < self.area,
        ensures
            r == self.playable(li as int),
    {
        match &self.mask {
            Option::None => true,
            Option::Some(m) => m.mask[li],
        }
    }

    /// The tiles an applied flatten may cover: at least one and at most the
    /// initiating tower's spare height, each a playable empty tile on the
    /// field, pairwise distinct.
    pub open spec fn valid_flatten_tiles(self, txy: (i32, i32), tiles: Seq<(i32, i32)>) -> bool {
        &&& self.in_bounds(txy.0 as int, txy.1 as int)
        &&& self.field@[self.lin_at(txy.0 as int, txy.1 as int)] is Some
        &&& 1 <= tiles.len()
        &&& tiles.len() <= self.towers@[self.field@[self.lin_at(txy.0 as int, txy.1 as int)]->0 as int].flattened_height
            - 1
        &&& forall|j: int|
            0 <= j < tiles.len() ==> self.in_bounds(
                (#[trigger] tiles[j]).0 as int,
                tiles[j].1 as int,
            )
        &&& forall|j: int|
            0 <= j < tiles.len() ==> self.playable(
                self.lin_at((#[trigger] tiles[j]).0 as int, tiles[j].1 as int),
            )
        &&& forall|j: int|
            0 <= j < tiles.len() ==> self.field@[self.lin_at(
                (#[trigger] tiles[j]).0 as int,
                tiles[j].1 as int,
            )] is None
        &&& forall|j1: int, j2: int|
            0 <= j1 < j2 < tiles.len() ==> #[trigger] tiles[j1] != #[trigger] tiles[j2]
    }

    /// When a flatten query aimed at a destination tile succeeds: both tiles
    /// on the field, distinct and collinear, the initiating tile playable and
    /// owned by a tower with spare height, every walked tile playable, the
    /// ray one owned prefix followed only by empty tiles up to the
    /// destination, and the empty stretch within the spare height.
    pub open spec fn flatten_xys_ok(self, txy: (i32, i32), pxy: (i32, i32)) -> bool {
        let dx = spec_signum(pxy.0 - txy.0);
        let dy = spec_signum(pxy.1 - txy.1);
        let n = spec_abs(pxy.0 - txy.0) + spec_abs(pxy.1 - txy.1);
        let li = self.lin_at(txy.0 as int, txy.1 as int);
        &&& self.in_bounds(txy.0 as int, txy.1 as int)
        &&& self.in_bounds(pxy.0 as int, pxy.1 as int)
        &&& !(pxy.0 == txy.0 && pxy.1 == txy.1)
        &&& (pxy.0 == txy.0 || pxy.1 == txy.1)
        &&& self.playable(li)
        &&& self.field@[li] is Some
        &&& self.towers@[self.field@[li]->0 as int].flattened_height > 1
        &&& (forall|k: int|
            1 <= k <= n ==> self.playable(#[trigger] self.lin_at(txy.0 + k * dx, txy.1 + k * dy)))
        &&& {
            let t = self.field@[li]->0;
            let s = self.owned_run(self.field@, txy.0 as int, txy.1 as int, dx, dy, t, n);
            &&& (forall|k: int|
                s < k <= n ==> self.field@[#[trigger] self.lin_at(
                    txy.0 + k * dx,
                    txy.1 + k * dy,
                )] is None)
            &&& n - s <= self.towers@[t as int].flattened_height - 1
        }
    }

    /// What a successful destination flatten query returns: the empty tiles
    /// on the ray past the tower's owned prefix, through the destination.
    pub open spec fn flatten_xys_tiles(self, txy: (i32, i32), pxy: (i32, i32)) -> Seq<(i32, i32)> {
        let dx = spec_signum(pxy.0 - txy.0);
        let dy = spec_signum(pxy.1 - txy.1);
        let n = spec_abs(pxy.0 - txy.0) + spec_abs(pxy.1 - txy.1);
        let t = self.field@[self.lin_at(txy.0 as int, txy.1 as int)]->0;
        let s = self.owned_run(self.field@, txy.0 as int, txy.1 as int, dx, dy, t, n);
        Seq::new(
            (n - s) as nat,
            |j: int| (((txy.0 + (s + 1 + j) * dx) as i32), ((txy.1 + (s + 1 + j) * dy) as i32)),
        )
    }

    /// Queries a flatten of the tower under `tower_xy` aimed exactly at
    /// `pointing_xy`; fails rather than return a partial stretch.
    pub fn calc_flatten_xys(&self, tower_xy: (i32, i32), pointing_xy: (i32, i32)) -> (r: Option<
        Vec<(i32, i32)>,
    >)
        requires
            self.wf(),
        ensures
            r is Some <==> self.flatten_xys_ok(tower_xy, pointing_xy),
            (r matches Some(v) ==> v@ == self.flatten_xys_tiles(tower_xy, pointing_xy)),
            (r matches Some(v) ==> (v@.len() > 0 ==> self.valid_flatten_tiles(tower_xy, v@))),
    {
        if !self.is_inside_xy(tower_xy) || !self.is_inside_xy(pointing_xy) {
            return Option::None;
        }
        if (pointing_xy.0 == tower_xy.0 && pointing_xy.1 == tower_xy.1) || (pointing_xy.0
            != tower_xy.0 && pointing_xy.1 != tower_xy.1) {
            return Option::None;
        }
        let li = self.lin_idx(tower_xy.0, tower_xy.1);
        if !self.playable_exec(li) {
            return Option::None;
        }
        let t: usize = match self.field[li] {
            Option::Some(u) => u,
            Option::None => { return Option::None; },
        };
        let fh: i32 = self.towers[t].flattened_height;
        if fh <= 1 {
            return Option::None;
        }
        let dx = signum_i32(pointing_xy.0 - tower_xy.0);
        let dy = signum_i32(pointing_xy.1 - tower_xy.1);
        let n: i32 = abs_i32(pointing_xy.0 - tower_xy.0) + abs_i32(pointing_xy.1 - tower_xy.1);
        proof {
            assert(unit_dir(dx as int, dy as int));
            assert(1 <= n && n <= self.steps_to_edge(
                tower_xy.0 as int,
                tower_xy.1 as int,
                dx as int,
                dy as int,
            )) by (nonlinear_arith)
                requires
                    self.in_bounds(tower_xy.0 as int, tower_xy.1 as int),
                    self.in_bounds(pointing_xy.0 as int, pointing_xy.1 as int),
                    !(pointing_xy.0 == tower_xy.0 && pointing_xy.1 == tower_xy.1),
                    (pointing_xy.0 == tower_xy.0 || pointing_xy.1 == tower_xy.1),
                    dx as int == spec_signum(pointing_xy.0 - tower_xy.0),
                    dy as int == spec_signum(pointing_xy.1 - tower_xy.1),
                    n as int == spec_abs(pointing_xy.0 - tower_xy.0) + spec_abs(
                        pointing_xy.1 - tower_xy.1,
                    ),
            ;
        }
        // every tile on the segment must be playable
        let mut k: i32 = 1;
        while k <= n
            invariant
                self.wf(),
                unit_dir(dx as int, dy as int),
                self.in_bounds(tower_xy.0 as int, tower_xy.1 as int),
                dx as int == spec_signum(pointing_xy.0 - tower_xy.0),
                dy as int == spec_signum(pointing_xy.1 - tower_xy.1),
                n as int == spec_abs(pointing_xy.0 - tower_xy.0) + spec_abs(
                    pointing_xy.1 - tower_xy.1,
                ),
                1 <= n <= self.steps_to_edge(
                    tower_xy.0 as int,
                    tower_xy.1 as int,
                    dx as int,
                    dy as int,
                ),
                1 <= k <= n + 1,
                forall|kk: int|
                    1 <= kk < k ==> self.playable(#[trigger] self.lin_at(
                        tower_xy.0 + kk * dx,
                        tower_xy.1 + kk * dy,
                    )),
            decreases n + 1 - k,
        {
            proof {
                self.lemma_ray_in_bounds(
                    tower_xy.0 as int,
                    tower_xy.1 as int,
                    dx as int,
                    dy as int,
                    k as int,
                );
            }
            let lik = self.lin_idx(tower_xy.0 + k * dx, tower_xy.1 + k * dy);
            if !self.playable_exec(lik) {
                proof {
                    let ki = k as int;
                    assert(lik == self.lin_at(
                        tower_xy.0 + ki * (dx as int),
                        tower_xy.1 + ki * (dy as int),
                    ));
                    assert(!self.playable(self.lin_at(
                        tower_xy.0 + ki * (dx as int),
                        tower_xy.1 + ki * (dy as int),
                    )));
                    assert(!self.flatten_xys_ok(tower_xy, pointing_xy));
                }
                return Option::None;
            }
            k = k + 1;
        }
        // the owned prefix, then only empty tiles may follow
        let s = self.walk_owned(tower_xy.0, tower_xy.1, dx, dy, t, n);
        if n - s > fh - 1 {
            return Option::None;
        }
        let mut kk: i32 = s + 1;
        while kk <= n
            invariant
                self.wf(),
                unit_dir(dx as int, dy as int),
                self.in_bounds(tower_xy.0 as int, tower_xy.1 as int),
                dx as int == spec_signum(pointing_xy.0 - tower_xy.0),
                dy as int == spec_signum(pointing_xy.1 - tower_xy.1),
                n as int == spec_abs(pointing_xy.0 - tower_xy.0) + spec_abs(
                    pointing_xy.1 - tower_xy.1,
                ),
                1 <= n <= self.steps_to_edge(
                    tower_xy.0 as int,
                    tower_xy.1 as int,
                    dx as int,
                    dy as int,
                ),
                self.field@[self.lin_at(tower_xy.0 as int, tower_xy.1 as int)] == Some(t),
                (t as int) < self.towers@.len(),
                fh == self.towers@[t as int].flattened_height,
                s == self.owned_run(
                    self.field@,
                    tower_xy.0 as int,
                    tower_xy.1 as int,
                    dx as int,
                    dy as int,
                    t,
                    n as int,
                ),
                0 <= s <= n,
                n - s <= fh - 1,
                s + 1 <= kk <= n + 1,
                forall|k2: int|
                    s < k2 < kk ==> self.field@[#[trigger] self.lin_at(
                        tower_xy.0 + k2 * dx,
                        tower_xy.1 + k2 * dy,
                    )] is None,
            decreases n + 1 - kk,
        {
            proof {
                self.lemma_ray_in_bounds(
                    tower_xy.0 as int,
                    tower_xy.1 as int,
                    dx as int,
                    dy as int,
                    kk as int,
                );
            }
            let lik = self.lin_idx(tower_xy.0 + kk * dx, tower_xy.1 + kk * dy);
            match self.field[lik] {
                Option::Some(_) => {
                    proof {
                        let ki = kk as int;
                        assert(lik == self.lin_at(
                            tower_xy.0 + ki * (dx as int),
                            tower_xy.1 + ki * (dy as int),
                        ));
                        assert(self.field@[self.lin_at(
                            tower_xy.0 + ki * (dx as int),
                            tower_xy.1 + ki * (dy as int),
                        )] is Some);
                        assert(!self.flatten_xys_ok(tower_xy, pointing_xy));
                    }
                    return Option::None;
                },
                Option::None => {},
            }
            kk = kk + 1;
        }
        proof {
            assert(self.flatten_xys_ok(tower_xy, pointing_xy));
        }
        let ghost tiles = self.flatten_xys_tiles(tower_xy, pointing_xy);
        proof {
            assert(tiles.len() == n - s);
            assert forall|jj: int| 0 <= jj < n - s implies #[trigger] tiles[jj] == (((tower_xy.0 + (
            s + 1 + jj) * dx) as i32), ((tower_xy.1 + (s + 1 + jj) * dy) as i32)) by {
            }
        }
        let cnt: i32 = n - s;
        let mut v: Vec<(i32, i32)> = Vec::new();
        let mut j: i32 = 0;
        while j < cnt
            invariant
                self.wf(),
                unit_dir(dx as int, dy as int),
                self.in_bounds(tower_xy.0 as int, tower_xy.1 as int),
                1 <= n <= self.steps_to_edge(
                    tower_xy.0 as int,
                    tower_xy.1 as int,
                    dx as int,
                    dy as int,
                ),
                0 <= s <= n,
                cnt == n - s,
                self.flatten_xys_ok(tower_xy, pointing_xy),
                tiles == self.flatten_xys_tiles(tower_xy, pointing_xy),
                tiles.len() == cnt,
                forall|jj: int|
                    0 <= jj < cnt ==> #[trigger] tiles[jj] == (((tower_xy.0 + (s + 1 + jj)
                        * dx) as i32), ((tower_xy.1 + (s + 1 + jj) * dy) as i32)),
                0 <= j <= cnt,
                v@.len() == j,
                forall|jj: int| 0 <= jj < j ==> #[trigger] v@[jj] == tiles[jj],
            decreases cnt - j,
        {
            proof {
                self.lemma_ray_in_bounds(
                    tower_xy.0 as int,
                    tower_xy.1 as int,
                    dx as int,
                    dy as int,
                    s + 1 + j,
                );
            }
            let px: i32 = tower_xy.0 + (s + 1 + j) * dx;
            let py: i32 = tower_xy.1 + (s + 1 + j) * dy;
            v.push((px, py));
            j = j + 1;
        }
        proof {
            assert(v@ =~= tiles);
            let sdx = spec_signum(pointing_xy.0 - tower_xy.0);
            let sdy = spec_signum(pointing_xy.1 - tower_xy.1);
            let sn = spec_abs(pointing_xy.0 - tower_xy.0) + spec_abs(pointing_xy.1 - tower_xy.1);
            let st = self.field@[self.lin_at(tower_xy.0 as int, tower_xy.1 as int)]->0;
            let ss = self.owned_run(
                self.field@,
                tower_xy.0 as int,
                tower_xy.1 as int,
                sdx,
                sdy,
                st,
                sn,
            );
            if tiles.len() > 0 {
                assert forall|j: int| 0 <= j < tiles.len() implies self.in_bounds(
                    (#[trigger] tiles[j]).0 as int,
                    tiles[j].1 as int,
                ) && self.playable(self.lin_at(tiles[j].0 as int, tiles[j].1 as int))
                    && self.field@[self.lin_at(tiles[j].0 as int, tiles[j].1 as int)] is None by {
                    self.lemma_ray_in_bounds(tower_xy.0 as int, tower_xy.1 as int, sdx, sdy, ss + 1
                        + j);
                    assert(self.playable(self.lin_at(
                        tower_xy.0 + (ss + 1 + j) * sdx,
                        tower_xy.1 + (ss + 1 + j) * sdy,
                    )));
                    assert(self.field@[self.lin_at(
                        tower_xy.0 + (ss + 1 + j) * sdx,
                        tower_xy.1 + (ss + 1 + j) * sdy,
                    )] is None);
                }
                assert forall|j1: int, j2: int|
                    0 <= j1 < j2 < tiles.len() implies #[trigger] tiles[j1] != #[trigger] tiles[j2]
                    by {
                    Self::lemma_ray_distinct(
                        tower_xy.0 as int,
                        tower_xy.1 as int,
                        sdx,
                        sdy,
                        ss + 1 + j1,
                        ss + 1 + j2,
                    );
                    self.lemma_ray_in_bounds(tower_xy.0 as int, tower_xy.1 as int, sdx, sdy, ss + 1
                        + j1);
                    self.lemma_ray_in_bounds(tower_xy.0 as int, tower_xy.1 as int, sdx, sdy, ss + 1
                        + j2);
                }
            }
        }
        Option::Some(v)
    }

    /// Every tile within a playable empty run is playable and empty.
    pub proof fn lemma_empty_run_p_tiles(
        self,
        cells: Seq<Option<usize>>,
        x: int,
        y: int,
        dx: int,
        dy: int,
        n: int,
    )
        ensures
            forall|k: int|
                1 <= k <= self.empty_run_p(cells, x, y, dx, dy, n) ==> (self.playable(
                    #[trigger] self.lin_at(x + k * dx, y + k * dy),
                ) && cells[self.lin_at(x + k * dx, y + k * dy)] is None),
        decreases n,
    {
        if n > 0 && self.playable(self.lin_at(x + dx, y + dy)) && cells[self.lin_at(
            x + dx,
            y + dy,
        )] is None {
            self.lemma_empty_run_p_tiles(cells, x + dx, y + dy, dx, dy, n - 1);
            assert forall|k: int|
                1 <= k <= self.empty_run_p(cells, x, y, dx, dy, n) implies (self.playable(
                #[trigger] self.lin_at(x + k * dx, y + k * dy),
            ) && cells[self.lin_at(x + k * dx, y + k * dy)] is None) by {
                if k > 1 {
                    assert(x + dx + (k - 1) * dx == x + k * dx) by (nonlinear_arith);
                    assert(y + dy + (k - 1) * dy == y + k * dy) by (nonlinear_arith);
                    assert(self.playable(self.lin_at(x + dx + (k - 1) * dx, y + dy + (k - 1) * dy))
                        && cells[self.lin_at(x + dx + (k - 1) * dx, y + dy + (k - 1) * dy)]
                        is None);
                }
            }
        }
    }

    /// Walks the mask-aware owned run from `(x0, y0)`, capped at `cap` steps.
    fn walk_owned_p(&self, x0: i32, y0: i32, dx: i32, dy: i32, t: usize, cap: i32) -> (s: i32)
        requires
            self.dims_ok(),
            unit_dir(dx as int, dy as int),
            self.in_bounds(x0 as int, y0 as int),
            0 <= cap <= self.steps_to_edge(x0 as int, y0 as int, dx as int, dy as int),
        ensures
            s == self.owned_run_p(
                self.field@,
                x0 as int,
                y0 as int,
                dx as int,
                dy as int,
                t,
                cap as int,
            ),
            0 <= s <= cap,
    {
        let mut s: i32 = 0;
        let mut cx: i32 = x0;
        let mut cy: i32 = y0;
        loop
            invariant
                self.dims_ok(),
                unit_dir(dx as int, dy as int),
                self.in_bounds(x0 as int, y0 as int),
                0 <= cap <= self.steps_to_edge(x0 as int, y0 as int, dx as int, dy as int),
                0 <= s <= cap,
                cx as int == x0 + s * dx,
                cy as int == y0 + s * dy,
                self.in_bounds(cx as int, cy as int),
                self.owned_run_p(
                    self.field@,
                    x0 as int,
                    y0 as int,
                    dx as int,
                    dy as int,
                    t,
                    cap as int,
                ) == s + self.owned_run_p(
                    self.field@,
                    cx as int,
                    cy as int,
                    dx as int,
                    dy as int,
                    t,
                    cap - s,
                ),
            decreases cap - s,
        {
            if s == cap {
                return s;
            }
            let nx = cx + dx;
            let ny = cy + dy;
            proof {
                assert(self.steps_to_edge(cx as int, cy as int, dx as int, dy as int)
                    == self.steps_to_edge(x0 as int, y0 as int, dx as int, dy as int) - s)
                    by (nonlinear_arith)
                    requires
                        unit_dir(dx as int, dy as int),
                        cx as int == x0 + s * dx,
                        cy as int == y0 + s * dy,
                ;
                assert(self.in_bounds(nx as int, ny as int));
            }
            let li = self.lin_idx(nx, ny);
            let good = self.playable_exec(li) && (match self.field[li] {
                Option::Some(u) => u == t,
                Option::None => false,
            });
            if good {
                proof {
                    assert(nx as int == x0 + (s + 1) * dx) by (nonlinear_arith)
                        requires
                            cx as int == x0 + s * dx,
                            nx as int == cx + dx,
                    ;
                    assert(ny as int == y0 + (s + 1) * dy) by (nonlinear_arith)
                        requires
                            cy as int == y0 + s * dy,
                            ny as int == cy + dy,
                    ;
                }
                s = s + 1;
                cx = nx;
                cy = ny;
            } else {
                return s;
            }
        }
    }

    /// Walks the playable empty run from `(x0, y0)`, capped at `cap` steps.
    fn walk_empty_p(&self, x0: i32, y0: i32, dx: i32, dy: i32, cap: i32) -> (s: i32)
        requires
            self.dims_ok(),
            unit_dir(dx as int, dy as int),
            self.in_bounds(x0 as int, y0 as int),
            0 <= cap <= self.steps_to_edge(x0 as int, y0 as int, dx as int, dy as int),
        ensures
            s == self.empty_run_p(self.field@, x0 as int, y0 as int, dx as int, dy as int, cap as int),
            0 <= s <= cap,
    {
        let mut s: i32 = 0;
        let mut cx: i32 = x0;
        let mut cy: i32 = y0;
        loop
            invariant
                self.dims_ok(),
                unit_dir(dx as int, dy as int),
                self.in_bounds(x0 as int, y0 as int),
                0 <= cap <= self.steps_to_edge(x0 as int, y0 as int, dx as int, dy as int),
                0 <= s <= cap,
                cx as int == x0 + s * dx,
                cy as int == y0 + s * dy,
                self.in_bounds(cx as int, cy as int),
                self.empty_run_p(self.field@, x0 as int, y0 as int, dx as int, dy as int, cap as int)
                    == s + self.empty_run_p(
                    self.field@,
                    cx as int,
                    cy as int,
                    dx as int,
                    dy as int,
                    cap - s,
                ),
            decreases cap - s,
        {
            if s == cap {
                return s;
            }
            let nx = cx + dx;
            let ny = cy + dy;
            proof {
                assert(self.steps_to_edge(cx as int, cy as int, dx as int, dy as int)
                    == self.steps_to_edge(x0 as int, y0 as int, dx as int, dy as int) - s)
                    by (nonlinear_arith)
                    requires
                        unit_dir(dx as int, dy as int),
                        cx as int == x0 + s * dx,
                        cy as int == y0 + s * dy,
                ;
                assert(self.in_bounds(nx as int, ny as int));
            }
            let li = self.lin_idx(nx, ny);
            let good = self.playable_exec(li) && (match self.field[li] {
                Option::Some(_) => false,
                Option::None => true,
            });
            if good {
                proof {
                    assert(nx as int == x0 + (s + 1) * dx) by (nonlinear_arith)
                        requires
                            cx as int == x0 + s * dx,
                            nx as int == cx + dx,
                    ;
                    assert(ny as int == y0 + (s + 1) * dy) by (nonlinear_arith)
                        requires
                            cy as int == y0 + s * dy,
                            ny as int == cy + dy,
                    ;
                }
                s = s + 1;
                cx = nx;
                cy = ny;
            } else {
                return s;
            }
        }
    }

    /// The owned prefix a directional flatten walks over before it may
    /// start covering empty tiles.
    pub open spec fn flatten_towards_prefix(self, txy: (i32, i32), dx: int, dy: int) -> int {
        self.owned_run_p(
            self.field@,
            txy.0 as int,
            txy.1 as int,
            dx,
            dy,
            self.field@[self.lin_at(txy.0 as int, txy.1 as int)]->0,
            self.steps_to_edge(txy.0 as int, txy.1 as int, dx, dy),
        )
    }

    /// How many playable empty tiles follow the owned prefix on the ray.
    pub open spec fn flatten_towards_avail(self, txy: (i32, i32), dx: int, dy: int) -> int {
        let s = self.flatten_towards_prefix(txy, dx, dy);
        let sx = txy.0 + s * dx;
        let sy = txy.1 + s * dy;
        self.empty_run_p(self.field@, sx, sy, dx, dy, self.steps_to_edge(sx, sy, dx, dy))
    }

    /// How many tiles a directional flatten covers: the empty stretch,
    /// clipped to the spare height and to the caller's `count`.
    pub open spec fn flatten_towards_count(self, txy: (i32, i32), dx: int, dy: int, count: i32) -> int {
        let fh = self.towers@[self.field@[self.lin_at(txy.0 as int, txy.1 as int)]->0 as int].flattened_height as int;
        let c = if fh - 1 <= count {
            fh - 1
        } else {
            count as int
        };
        let avail = self.flatten_towards_avail(txy, dx, dy);
        if c <= avail {
            c
        } else {
            avail
        }
    }

    /// When a directional flatten query succeeds: the initiating tile on the
    /// field, playable and owned by a tower with spare height, and at least
    /// one empty tile to cover.
    pub open spec fn flatten_towards_ok(self, txy: (i32, i32), dx: int, dy: int, count: i32) -> bool {
        &&& self.in_bounds(txy.0 as int, txy.1 as int)
        &&& self.playable(self.lin_at(txy.0 as int, txy.1 as int))
        &&& self.field@[self.lin_at(txy.0 as int, txy.1 as int)] is Some
        &&& self.towers@[self.field@[self.lin_at(txy.0 as int, txy.1 as int)]->0 as int].flattened_height
            > 1
        &&& self.flatten_towards_count(txy, dx, dy, count) >= 1
    }

    /// What a successful directional flatten query returns: the covered
    /// empty tiles just past the owned prefix, nearest first.
    pub open spec fn flatten_towards_tiles(self, txy: (i32, i32), dx: int, dy: int, count: i32) -> Seq<
        (i32, i32),
    > {
        let s = self.flatten_towards_prefix(txy, dx, dy);
        let e = self.flatten_towards_count(txy, dx, dy, count);
        Seq::new(
            e as nat,
            |j: int| (((txy.0 + (s + 1 + j) * dx) as i32), ((txy.1 + (s + 1 + j) * dy) as i32)),
        )
    }

    /// Queries a flatten of the tower under `tower_xy` walking in `dir` for
    /// up to `count` tiles; succeeds with a possibly shorter stretch, or
    /// fails on a diagonal direction or when it cannot cover even one tile.
    pub fn calc_flatten_towards_xys(&self, tower_xy: (i32, i32), dir: (i32, i32), count: i32) -> (r:
        Option<Vec<(i32, i32)>>)
        requires
            self.wf(),
            !(dir.0 == 0 && dir.1 == 0),
            count >= 1,
        ensures
            r is Some <==> (unit_dir(spec_signum(dir.0 as int), spec_signum(dir.1 as int))
                && self.flatten_towards_ok(
                tower_xy,
                spec_signum(dir.0 as int),
                spec_signum(dir.1 as int),
                count,
            )),
            (r matches Some(v) ==> v@ == self.flatten_towards_tiles(
                tower_xy,
                spec_signum(dir.0 as int),
                spec_signum(dir.1 as int),
                count,
            )),
            (r matches Some(v) ==> (v@.len() >= 1 && self.valid_flatten_tiles(tower_xy, v@))),
    {
        let dx = signum_i32(dir.0);
        let dy = signum_i32(dir.1);
        if dx != 0 && dy != 0 {
            return Option::None;
        }
        if !self.is_inside_xy(tower_xy) {
            return Option::None;
        }
        let li = self.lin_idx(tower_xy.0, tower_xy.1);
        if !self.playable_exec(li) {
            return Option::None;
        }
        let t: usize = match self.field[li] {
            Option::Some(u) => u,
            Option::None => { return Option::None; },
        };
        let fh: i32 = self.towers[t].flattened_height;
        if fh <= 1 {
            return Option::None;
        }
        let cap1 = self.steps_to_edge_exec(tower_xy.0, tower_xy.1, dx, dy);
        let s = self.walk_owned_p(tower_xy.0, tower_xy.1, dx, dy, t, cap1);
        proof {
            self.lemma_ray_in_bounds(
                tower_xy.0 as int,
                tower_xy.1 as int,
                dx as int,
                dy as int,
                s as int,
            );
            assert(self.steps_to_edge(
                tower_xy.0 + s * dx,
                tower_xy.1 + s * dy,
                dx as int,
                dy as int,
            ) == cap1 - s) by (nonlinear_arith)
                requires
                    unit_dir(dx as int, dy as int),
                    cap1 as int == self.steps_to_edge(
                        tower_xy.0 as int,
                        tower_xy.1 as int,
                        dx as int,
                        dy as int,
                    ),
            ;
        }
        let sx: i32 = tower_xy.0 + s * dx;
        let sy: i32 = tower_xy.1 + s * dy;
        let cap2: i32 = cap1 - s;
        let avail = self.walk_empty_p(sx, sy, dx, dy, cap2);
        let c: i32 = if fh - 1 <= count {
            fh - 1
        } else {
            count
        };
        let e: i32 = if c <= avail {
            c
        } else {
            avail
        };
        proof {
            assert(s as int == self.flatten_towards_prefix(tower_xy, dx as int, dy as int));
            assert(avail as int == self.flatten_towards_avail(tower_xy, dx as int, dy as int));
            assert(e as int == self.flatten_towards_count(tower_xy, dx as int, dy as int, count));
        }
        if e == 0 {
            return Option::None;
        }
        let ghost tiles = self.flatten_towards_tiles(tower_xy, dx as int, dy as int, count);
        proof {
            assert(tiles.len() == e);
        }
        let mut v: Vec<(i32, i32)> = Vec::new();
        let mut j: i32 = 0;
        while j < e
            invariant
                self.wf(),
                unit_dir(dx as int, dy as int),
                self.in_bounds(tower_xy.0 as int, tower_xy.1 as int),
                0 <= s,
                1 <= e,
                s + e <= self.steps_to_edge(
                    tower_xy.0 as int,
                    tower_xy.1 as int,
                    dx as int,
                    dy as int,
                ),
                tiles.len() == e,
                forall|jj: int|
                    0 <= jj < e ==> #[trigger] tiles[jj] == (((tower_xy.0 + (s + 1 + jj)
                        * dx) as i32), ((tower_xy.1 + (s + 1 + jj) * dy) as i32)),
                0 <= j <= e,
                v@.len() == j,
                forall|jj: int| 0 <= jj < j ==> #[trigger] v@[jj] == tiles[jj],
            decreases e - j,
        {
            proof {
                self.lemma_ray_in_bounds(
                    tower_xy.0 as int,
                    tower_xy.1 as int,
                    dx as int,
                    dy as int,
                    s + 1 + j,
                );
            }
            let px: i32 = tower_xy.0 + (s + 1 + j) * dx;
            let py: i32 = tower_xy.1 + (s + 1 + j) * dy;
            v.push((px, py));
            j = j + 1;
        }
        proof {
            assert(v@ =~= tiles);
            self.lemma_empty_run_p_tiles(
                self.field@,
                sx as int,
                sy as int,
                dx as int,
                dy as int,
                cap2 as int,
            );
            assert forall|j: int| 0 <= j < tiles.len() implies self.in_bounds(
                (#[trigger] tiles[j]).0 as int,
                tiles[j].1 as int,
            ) && self.playable(self.lin_at(tiles[j].0 as int, tiles[j].1 as int))
                && self.field@[self.lin_at(tiles[j].0 as int, tiles[j].1 as int)] is None by {
                self.lemma_ray_in_bounds(
                    tower_xy.0 as int,
                    tower_xy.1 as int,
                    dx as int,
                    dy as int,
                    s + 1 + j,
                );
                assert(1 <= j + 1 <= avail);
                assert(self.playable(self.lin_at(sx + (j + 1) * dx, sy + (j + 1) * dy))
                    && self.field@[self.lin_at(sx + (j + 1) * dx, sy + (j + 1) * dy)] is None);
                assert(sx + (j + 1) * dx == tower_xy.0 + (s + 1 + j) * dx) by (nonlinear_arith)
                    requires
                        sx as int == tower_xy.0 + s * dx,
                ;
                assert(sy + (j + 1) * dy == tower_xy.1 + (s + 1 + j) * dy) by (nonlinear_arith)
                    requires
                        sy as int == tower_xy.1 + s * dy,
                ;
            }
            assert forall|j1: int, j2: int|
                0 <= j1 < j2 < tiles.len() implies #[trigger] tiles[j1] != #[trigger] tiles[j2] by {
                Self::lemma_ray_distinct(
                    tower_xy.0 as int,
                    tower_xy.1 as int,
                    dx as int,
                    dy as int,
                    s + 1 + j1,
                    s + 1 + j2,
                );
                self.lemma_ray_in_bounds(
                    tower_xy.0 as int,
                    tower_xy.1 as int,
                    dx as int,
                    dy as int,
                    s + 1 + j1,
                );
                self.lemma_ray_in_bounds(
                    tower_xy.0 as int,
                    tower_xy.1 as int,
                    dx as int,
                    dy as int,
                    s + 1 + j2,
                );
            }
        }
        Option::Some(v)
    }

    /// A mask-aware owned run only depends on the cells, the mask and the
    /// field geometry, not on the tower list.
    pub proof fn lemma_owned_run_p_congruence(
        a: PlayingField,
        b: PlayingField,
        cells: Seq<Option<usize>>,
        x: int,
        y: int,
        dx: int,
        dy: int,
        t: usize,
        n: int,
    )
        requires
            a.mask == b.mask,
            a.width == b.width,
            a.height == b.height,
        ensures
            a.owned_run_p(cells, x, y, dx, dy, t, n) == b.owned_run_p(cells, x, y, dx, dy, t, n),
        decreases n,
    {
        if n > 0 {
            Self::lemma_owned_run_p_congruence(a, b, cells, x + dx, y + dy, dx, dy, t, n - 1);
        }
    }

    /// A probed bounding rectangle only depends on the cells, the mask and
    /// the field geometry.
    pub proof fn lemma_probe_rect_congruence(a: PlayingField, b: PlayingField, txy: (i32, i32), t: usize)
        requires
            a.field@ == b.field@,
            a.mask == b.mask,
            a.width == b.width,
            a.height == b.height,
        ensures
            a.probe_rect(txy, t) == b.probe_rect(txy, t),
    {
        Self::lemma_owned_run_p_congruence(
            a,
            b,
            a.field@,
            txy.0 as int,
            txy.1 as int,
            1,
            0,
            t,
            a.steps_to_edge(txy.0 as int, txy.1 as int, 1, 0),
        );
        Self::lemma_owned_run_p_congruence(
            a,
            b,
            a.field@,
            txy.0 as int,
            txy.1 as int,
            -1,
            0,
            t,
            a.steps_to_edge(txy.0 as int, txy.1 as int, -1, 0),
        );
        Self::lemma_owned_run_p_congruence(
            a,
            b,
            a.field@,
            txy.0 as int,
            txy.1 as int,
            0,
            1,
            t,
            a.steps_to_edge(txy.0 as int, txy.1 as int, 0, 1),
        );
        Self::lemma_owned_run_p_congruence(
            a,
            b,
            a.field@,
            txy.0 as int,
            txy.1 as int,
            0,
            -1,
            t,
            a.steps_to_edge(txy.0 as int, txy.1 as int, 0, -1),
        );
    }

    /// Whether some tile of `tiles` has linear index `i`.
    pub open spec fn tiles_cover(self, tiles: Seq<(i32, i32)>, i: int) -> bool {
        exists|j: int|
            0 <= j < tiles.len() && self.lin_at((#[trigger] tiles[j]).0 as int, tiles[j].1 as int)
                == i
    }

    /// The rectangle spanned by probing the four cardinal rays from `txy`
    /// for consecutive playable tiles owned by `t`.
    pub open spec fn probe_rect(self, txy: (i32, i32), t: usize) -> Rect {
        let right = self.owned_run_p(
            self.field@,
            txy.0 as int,
            txy.1 as int,
            1,
            0,
            t,
            self.steps_to_edge(txy.0 as int, txy.1 as int, 1, 0),
        );
        let left = self.owned_run_p(
            self.field@,
            txy.0 as int,
            txy.1 as int,
            -1,
            0,
            t,
            self.steps_to_edge(txy.0 as int, txy.1 as int, -1, 0),
        );
        let down = self.owned_run_p(
            self.field@,
            txy.0 as int,
            txy.1 as int,
            0,
            1,
            t,
            self.steps_to_edge(txy.0 as int, txy.1 as int, 0, 1),
        );
        let up = self.owned_run_p(
            self.field@,
            txy.0 as int,
            txy.1 as int,
            0,
            -1,
            t,
            self.steps_to_edge(txy.0 as int, txy.1 as int, 0, -1),
        );
        Rect {
            x: (txy.0 - left) as i32,
            y: (txy.1 - up) as i32,
            w: (left + right + 1) as i32,
            h: (up + down + 1) as i32,
        }
    }

    /// Recomputes the cached bounding rectangle of the tower under
    /// `tower_xy` by probing the four cardinal rays; a call off the field,
    /// on a masked-out tile or on an empty tile changes nothing.
    pub fn recalc_tower_bounds(&mut self, tower_xy: (i32, i32))
        requires
            old(self).wf(),
        ensures
            final(self).wf(),
            final(self).width == old(self).width,
            final(self).height == old(self).height,
            final(self).area == old(self).area,
            final(self).mask == old(self).mask,
            final(self).field == old(self).field,
            final(self).field_solution == old(self).field_solution,
            !(old(self).in_bounds(tower_xy.0 as int, tower_xy.1 as int) && old(self).playable(
                old(self).lin_at(tower_xy.0 as int, tower_xy.1 as int),
            ) && old(self).field@[old(self).lin_at(tower_xy.0 as int, tower_xy.1 as int)] is Some)
                ==> *final(self) == *old(self),
            (old(self).in_bounds(tower_xy.0 as int, tower_xy.1 as int) && old(self).playable(
                old(self).lin_at(tower_xy.0 as int, tower_xy.1 as int),
            ) && old(self).field@[old(self).lin_at(tower_xy.0 as int, tower_xy.1 as int)] is Some)
                ==> final(self).towers@ == old(self).towers@.update(
                old(self).field@[old(self).lin_at(tower_xy.0 as int, tower_xy.1 as int)]->0 as int,
                (Tower {
                    bounds: old(self).probe_rect(
                        tower_xy,
                        old(self).field@[old(self).lin_at(
                            tower_xy.0 as int,
                            tower_xy.1 as int,
                        )]->0,
                    ),
                    ..old(self).towers@[old(self).field@[old(self).lin_at(
                        tower_xy.0 as int,
                        tower_xy.1 as int,
                    )]->0 as int]
                }),
            ),
    {
        if !self.is_inside_xy(tower_xy) {
            return ;
        }
        let li = self.lin_idx(tower_xy.0, tower_xy.1);
        if !self.playable_exec(li) {
            return ;
        }
        let t: usize = match self.field[li] {
            Option::Some(u) => u,
            Option::None => { return ; },
        };
        let cap_r = self.steps_to_edge_exec(tower_xy.0, tower_xy.1, 1, 0);
        let right = self.walk_owned_p(tower_xy.0, tower_xy.1, 1, 0, t, cap_r);
        let cap_l = self.steps_to_edge_exec(tower_xy.0, tower_xy.1, -1, 0);
        let left = self.walk_owned_p(tower_xy.0, tower_xy.1, -1, 0, t, cap_l);
        let cap_d = self.steps_to_edge_exec(tower_xy.0, tower_xy.1, 0, 1);
        let down = self.walk_owned_p(tower_xy.0, tower_xy.1, 0, 1, t, cap_d);
        let cap_u = self.steps_to_edge_exec(tower_xy.0, tower_xy.1, 0, -1);
        let up = self.walk_owned_p(tower_xy.0, tower_xy.1, 0, -1, t, cap_u);
        let bounds = Rect {
            x: tower_xy.0 - left,
            y: tower_xy.1 - up,
            w: left + right + 1,
            h: up + down + 1,
        };
        proof {
            assert(bounds == old(self).probe_rect(tower_xy, t));
        }
        let mut tw = self.towers[t];
        tw.bounds = bounds;
        self.towers[t] = tw;
        proof {
            lemma_cells_ok_transfer(*old(self), *self, self.field@);
            lemma_cells_ok_transfer(*old(self), *self, self.field_solution@);
            assert forall|u: int| 0 <= u < self.towers@.len() implies {
                let tu = #[trigger] self.towers@[u];
                &&& tu.x < self.width
                &&& tu.y < self.height
                &&& 1 <= tu.flattened_height
                &&& tu.height <= 255
                &&& self.field@[self.lin_at(tu.x as int, tu.y as int)] == Some(u as usize)
                &&& tu.flattened_height + count_owned(self.field@, u as usize) == tu.height + 1
                &&& 0 <= tu.bounds.x <= 255
                &&& 0 <= tu.bounds.y <= 255
                &&& 0 <= tu.bounds.w <= 255
                &&& 0 <= tu.bounds.h <= 255
            } by {
                assert(old(self).towers@[u].x == self.towers@[u].x);
                assert(old(self).towers@[u].flattened_height == self.towers@[u].flattened_height);
            }
        }
    }

    /// Applies a flatten: covers each listed tile with the initiating
    /// tower's index, lowers its flattened height by the count and refreshes
    /// its bounds. An empty list is a failed no-op; the list is expected
    /// from a matching query.
    pub fn flatten(&mut self, tower_xy: (i32, i32), to_flatten_xys: Vec<(i32, i32)>) -> (r: bool)
        requires
            old(self).wf(),
            to_flatten_xys@.len() > 0 ==> old(self).valid_flatten_tiles(
                tower_xy,
                to_flatten_xys@,
            ),
        ensures
            r == (to_flatten_xys@.len() > 0),
            !r ==> *final(self) == *old(self),
            r ==> final(self).wf(),
            final(self).width == old(self).width,
            final(self).height == old(self).height,
            final(self).area == old(self).area,
            final(self).mask == old(self).mask,
            final(self).field_solution == old(self).field_solution,
            final(self).field@.len() == old(self).field@.len(),
            r ==> (forall|i: int|
                0 <= i < final(self).field@.len() ==> final(self).field@[i] == (if old(
                    self,
                ).tiles_cover(to_flatten_xys@, i) {
                    old(self).field@[old(self).lin_at(tower_xy.0 as int, tower_xy.1 as int)]
                } else {
                    old(self).field@[i]
                })),
            r ==> final(self).towers@ == old(self).towers@.update(
                old(self).field@[old(self).lin_at(tower_xy.0 as int, tower_xy.1 as int)]->0 as int,
                (Tower {
                    flattened_height: (old(self).towers@[old(self).field@[old(self).lin_at(
                        tower_xy.0 as int,
                        tower_xy.1 as int,
                    )]->0 as int].flattened_height - to_flatten_xys@.len()) as i32,
                    bounds: final(self).probe_rect(
                        tower_xy,
                        old(self).field@[old(self).lin_at(
                            tower_xy.0 as int,
                            tower_xy.1 as int,
                        )]->0,
                    ),
                    ..old(self).towers@[old(self).field@[old(self).lin_at(
                        tower_xy.0 as int,
                        tower_xy.1 as int,
                    )]->0 as int]
                }),
            ),
    {
        if to_flatten_xys.len() == 0 {
            return false;
        }
        let ghost tiles = to_flatten_xys@;
        let li = self.lin_idx(tower_xy.0, tower_xy.1);
        let t: usize = match self.field[li] {
            Option::Some(u) => u,
            Option::None => {
                proof {
                    assert(false);
                }
                0
            },
        };
        let ghost fh0 = self.towers@[t as int].flattened_height;
        let mut j: usize = 0;
        while j < to_flatten_xys.len()
            invariant
                old(self).wf(),
                tiles == to_flatten_xys@,
                tiles.len() > 0,
                old(self).valid_flatten_tiles(tower_xy, tiles),
                li == old(self).lin_at(tower_xy.0 as int, tower_xy.1 as int),
                old(self).field@[li as int] == Some(t),
                self.width == old(self).width,
                self.height == old(self).height,
                self.area == old(self).area,
                self.mask == old(self).mask,
                self.towers == old(self).towers,
                self.field_solution == old(self).field_solution,
                self.field@.len() == old(self).field@.len(),
                0 <= j <= tiles.len(),
                forall|i: int|
                    0 <= i < self.field@.len() ==> #[trigger] self.field@[i] == (if old(
                        self,
                    ).tiles_cover(tiles.take(j as int), i) {
                        Some(t)
                    } else {
                        old(self).field@[i]
                    }),
                count_owned(self.field@, t) == count_owned(old(self).field@, t) + j,
                forall|u: usize|
                    u != t ==> #[trigger] count_owned(self.field@, u) == count_owned(
                        old(self).field@,
                        u,
                    ),
            decreases tiles.len() - j,
        {
            let (px, py) = to_flatten_xys[j];
            let lij = self.lin_idx(px, py);
            let ghost cells_before = self.field@;
            proof {
                assert(old(self).in_bounds(tiles[j as int].0 as int, tiles[j as int].1 as int));
                assert(!old(self).tiles_cover(tiles.take(j as int), lij as int)) by {
                    if old(self).tiles_cover(tiles.take(j as int), lij as int) {
                        let jj = choose|jj: int|
                            0 <= jj < tiles.take(j as int).len() && old(self).lin_at(
                                (#[trigger] tiles.take(j as int)[jj]).0 as int,
                                tiles.take(j as int)[jj].1 as int,
                            ) == lij as int;
                        old(self).lemma_lin_injective(
                            tiles[jj].0 as int,
                            tiles[jj].1 as int,
                            tiles[j as int].0 as int,
                            tiles[j as int].1 as int,
                        );
                    }
                }
                assert(cells_before[lij as int] == old(self).field@[lij as int]);
                assert(old(self).field@[lij as int] is None);
                assert forall|u: usize| true implies #[trigger] count_owned(
                    cells_before.update(lij as int, Some(t)),
                    u,
                ) == count_owned(cells_before, u) + (if u == t {
                    1int
                } else {
                    0int
                }) by {
                    lemma_count_owned_update(cells_before, u, lij as int, Some(t));
                }
            }
            self.field[lij] = Some(t);
            proof {
                assert(tiles.take(j as int + 1) =~= tiles.take(j as int).push(tiles[j as int]));
                assert forall|i: int| 0 <= i < self.field@.len() implies #[trigger] self.field@[i]
                    == (if old(self).tiles_cover(tiles.take(j as int + 1), i) {
                    Some(t)
                } else {
                    old(self).field@[i]
                }) by {
                    let pre = tiles.take(j as int);
                    let ext = tiles.take(j as int + 1);
                    if i == lij as int {
                        assert(old(self).lin_at(
                            (ext[j as int]).0 as int,
                            (ext[j as int]).1 as int,
                        ) == i);
                        assert(old(self).tiles_cover(ext, i));
                    } else {
                        if old(self).tiles_cover(pre, i) {
                            let jj = choose|jj: int|
                                0 <= jj < pre.len() && old(self).lin_at(
                                    (#[trigger] pre[jj]).0 as int,
                                    pre[jj].1 as int,
                                ) == i;
                            assert(ext[jj] == pre[jj]);
                            assert(old(self).tiles_cover(ext, i));
                        } else if old(self).tiles_cover(ext, i) {
                            let jj = choose|jj: int|
                                0 <= jj < ext.len() && old(self).lin_at(
                                    (#[trigger] ext[jj]).0 as int,
                                    ext[jj].1 as int,
                                ) == i;
                            assert(jj < j as int || jj == j as int);
                            if jj < j as int {
                                assert(pre[jj] == ext[jj]);
                                assert(old(self).tiles_cover(pre, i));
                            }
                        }
                    }
                }
            }
            j = j + 1;
        }
        proof {
            assert(tiles.take(tiles.len() as int) =~= tiles);
        }
        let mut tw = self.towers[t];
        proof {
            assert(tiles.len() <= fh0 - 1);
        }
        tw.flattened_height = tw.flattened_height - (to_flatten_xys.len() as i32);
        self.towers[t] = tw;
        proof {
            lemma_cells_ok_transfer(*old(self), *self, self.field_solution@);
            assert forall|i: int| 0 <= i < self.field@.len() implies ((#[trigger] self.field@[i])
                matches Some(u) ==> (u as int) < self.towers@.len()) by {
                if self.field@[i] is Some && !old(self).tiles_cover(tiles, i) {
                    assert(old(self).field@[i] == self.field@[i]);
                }
            }
            assert forall|i: int| 0 <= i < self.field@.len() && !self.playable(i) implies
                self.field@[i] is None by {
                assert(!old(self).playable(i));
                if old(self).tiles_cover(tiles, i) {
                    let jj = choose|jj: int|
                        0 <= jj < tiles.len() && old(self).lin_at(
                            (#[trigger] tiles[jj]).0 as int,
                            tiles[jj].1 as int,
                        ) == i;
                    assert(old(self).playable(old(self).lin_at(
                        tiles[jj].0 as int,
                        tiles[jj].1 as int,
                    )));
                    assert(false);
                } else {
                    assert(self.field@[i] == old(self).field@[i]);
                }
            }
            assert forall|u: int| 0 <= u < self.towers@.len() implies {
                let tu = #[trigger] self.towers@[u];
                &&& tu.x < self.width
                &&& tu.y < self.height
                &&& 1 <= tu.flattened_height
                &&& tu.height <= 255
                &&& self.field@[self.lin_at(tu.x as int, tu.y as int)] == Some(u as usize)
                &&& tu.flattened_height + count_owned(self.field@, u as usize) == tu.height + 1
                &&& 0 <= tu.bounds.x <= 255
                &&& 0 <= tu.bounds.y <= 255
                &&& 0 <= tu.bounds.w <= 255
                &&& 0 <= tu.bounds.h <= 255
            } by {
                let tu0 = old(self).towers@[u];
                assert(tu0.x == self.towers@[u].x && tu0.y == self.towers@[u].y);
                old(self).lemma_lin_bounds(tu0.x as int, tu0.y as int);
                assert(old(self).field@[old(self).lin_at(tu0.x as int, tu0.y as int)] == Some(
                    u as usize,
                ));
                assert(!old(self).tiles_cover(tiles, self.lin_at(tu0.x as int, tu0.y as int)))
                    by {
                    let i = self.lin_at(tu0.x as int, tu0.y as int);
                    if old(self).tiles_cover(tiles, i) {
                        let jj = choose|jj: int|
                            0 <= jj < tiles.len() && old(self).lin_at(
                                (#[trigger] tiles[jj]).0 as int,
                                tiles[jj].1 as int,
                            ) == i;
                        assert(old(self).field@[i] is None);
                        assert(false);
                    }
                }
                assert(self.field@[self.lin_at(tu0.x as int, tu0.y as int)] == Some(u as usize));
            }
            assert(self.wf());
        }
        let ghost mid = *self;
        self.recalc_tower_bounds(tower_xy);
        proof {
            assert(self.field@[li as int] == Some(t));
            Self::lemma_probe_rect_congruence(mid, *self, tower_xy, t);
            assert(self.towers@ =~= old(self).towers@.update(
                t as int,
                (Tower {
                    flattened_height: (fh0 - tiles.len()) as i32,
                    bounds: self.probe_rect(tower_xy, t),
                    ..old(self).towers@[t as int]
                }),
            ));
        }
        true
    }

    /// Applies a deflatten: clears each listed tile back to empty, raises
    /// the tower's flattened height by the count and refreshes its bounds.
    /// An empty list is a failed no-op; the list is expected from a matching
    /// query, initiated on the tower's origin tile.
    pub fn deflatten(&mut self, tower_xy: (i32, i32), to_deflatten_xys: Vec<(i32, i32)>) -> (r:
        bool)
        requires
            old(self).wf(),
            to_deflatten_xys@.len() > 0 ==> old(self).valid_deflatten_tiles(
                tower_xy,
                to_deflatten_xys@,
            ),
            to_deflatten_xys@.len() > 0 ==> {
                let t = old(self).field@[old(self).lin_at(tower_xy.0 as int, tower_xy.1 as int)]->0;
                old(self).towers@[t as int].x as int == tower_xy.0 as int && old(
                    self,
                ).towers@[t as int].y as int == tower_xy.1 as int
            },
        ensures
            r == (to_deflatten_xys@.len() > 0),
            !r ==> *final(self) == *old(self),
            r ==> final(self).wf(),
            final(self).width == old(self).width,
            final(self).height == old(self).height,
            final(self).area == old(self).area,
            final(self).mask == old(self).mask,
            final(self).field_solution == old(self).field_solution,
            final(self).field@.len() == old(self).field@.len(),
            r ==> (forall|i: int|
                0 <= i < final(self).field@.len() ==> final(self).field@[i] == (if old(
                    self,
                ).tiles_cover(to_deflatten_xys@, i) {
                    Option::<usize>::None
                } else {
                    old(self).field@[i]
                })),
            r ==> final(self).towers@ == old(self).towers@.update(
                old(self).field@[old(self).lin_at(tower_xy.0 as int, tower_xy.1 as int)]->0 as int,
                (Tower {
                    flattened_height: (old(self).towers@[old(self).field@[old(self).lin_at(
                        tower_xy.0 as int,
                        tower_xy.1 as int,
                    )]->0 as int].flattened_height + to_deflatten_xys@.len()) as i32,
                    bounds: final(self).probe_rect(
                        tower_xy,
                        old(self).field@[old(self).lin_at(
                            tower_xy.0 as int,
                            tower_xy.1 as int,
                        )]->0,
                    ),
                    ..old(self).towers@[old(self).field@[old(self).lin_at(
                        tower_xy.0 as int,
                        tower_xy.1 as int,
                    )]->0 as int]
                }),
            ),
    {
        if to_deflatten_xys.len() == 0 {
            return false;
        }
        let ghost tiles = to_deflatten_xys@;
        let li = self.lin_idx(tower_xy.0, tower_xy.1);
        let t: usize = match self.field[li] {
            Option::Some(u) => u,
            Option::None => {
                proof {
                    assert(false);
                }
                0
            },
        };
        let ghost fh0 = self.towers@[t as int].flattened_height;
        let mut j: usize = 0;
        while j < to_deflatten_xys.len()
            invariant
                old(self).wf(),
                tiles == to_deflatten_xys@,
                tiles.len() > 0,
                old(self).valid_deflatten_tiles(tower_xy, tiles),
                li == old(self).lin_at(tower_xy.0 as int, tower_xy.1 as int),
                old(self).field@[li as int] == Some(t),
                old(self).towers@[t as int].x as int == tower_xy.0 as int,
                old(self).towers@[t as int].y as int == tower_xy.1 as int,
                self.width == old(self).width,
                self.height == old(self).height,
                self.area == old(self).area,
                self.mask == old(self).mask,
                self.towers == old(self).towers,
                self.field_solution == old(self).field_solution,
                self.field@.len() == old(self).field@.len(),
                0 <= j <= tiles.len(),
                forall|i: int|
                    0 <= i < self.field@.len() ==> #[trigger] self.field@[i] == (if old(
                        self,
                    ).tiles_cover(tiles.take(j as int), i) {
                        Option::<usize>::None
                    } else {
                        old(self).field@[i]
                    }),
                count_owned(self.field@, t) == count_owned(old(self).field@, t) - j,
                forall|u: usize|
                    u != t ==> #[trigger] count_owned(self.field@, u) == count_owned(
                        old(self).field@,
                        u,
                    ),
            decreases tiles.len() - j,
        {
            let (px, py) = to_deflatten_xys[j];
            let lij = self.lin_idx(px, py);
            let ghost cells_before = self.field@;
            proof {
                assert(old(self).in_bounds(tiles[j as int].0 as int, tiles[j as int].1 as int));
                assert(!old(self).tiles_cover(tiles.take(j as int), lij as int)) by {
                    if old(self).tiles_cover(tiles.take(j as int), lij as int) {
                        let jj = choose|jj: int|
                            0 <= jj < tiles.take(j as int).len() && old(self).lin_at(
                                (#[trigger] tiles.take(j as int)[jj]).0 as int,
                                tiles.take(j as int)[jj].1 as int,
                            ) == lij as int;
                        old(self).lemma_lin_injective(
                            tiles[jj].0 as int,
                            tiles[jj].1 as int,
                            tiles[j as int].0 as int,
                            tiles[j as int].1 as int,
                        );
                    }
                }
                assert(cells_before[lij as int] == old(self).field@[lij as int]);
                assert(old(self).field@[lij as int] == Some(t));
                assert forall|u: usize| true implies #[trigger] count_owned(
                    cells_before.update(lij as int, Option::<usize>::None),
                    u,
                ) == count_owned(cells_before, u) - (if u == t {
                    1int
                } else {
                    0int
                }) by {
                    lemma_count_owned_update(cells_before, u, lij as int, Option::<usize>::None);
                }
            }
            self.field[lij] = Option::None;
            proof {
                assert(tiles.take(j as int + 1) =~= tiles.take(j as int).push(tiles[j as int]));
                assert forall|i: int| 0 <= i < self.field@.len() implies #[trigger] self.field@[i]
                    == (if old(self).tiles_cover(tiles.take(j as int + 1), i) {
                    Option::<usize>::None
                } else {
                    old(self).field@[i]
                }) by {
                    let pre = tiles.take(j as int);
                    let ext = tiles.take(j as int + 1);
                    if i == lij as int {
                        assert(old(self).lin_at(
                            (ext[j as int]).0 as int,
                            (ext[j as int]).1 as int,
                        ) == i);
                        assert(old(self).tiles_cover(ext, i));
                    } else {
                        if old(self).tiles_cover(pre, i) {
                            let jj = choose|jj: int|
                                0 <= jj < pre.len() && old(self).lin_at(
                                    (#[trigger] pre[jj]).0 as int,
                                    pre[jj].1 as int,
                                ) == i;
                            assert(ext[jj] == pre[jj]);
                            assert(old(self).tiles_cover(ext, i));
                        } else if old(self).tiles_cover(ext, i) {
                            let jj = choose|jj: int|
                                0 <= jj < ext.len() && old(self).lin_at(
                                    (#[trigger] ext[jj]).0 as int,
                                    ext[jj].1 as int,
                                ) == i;
                            if jj < j as int {
                                assert(pre[jj] == ext[jj]);
                                assert(old(self).tiles_cover(pre, i));
                            }
                        }
                    }
                }
            }
            j = j + 1;
        }
        proof {
            assert(self.field@[li as int] == Some(t)) by {
                if old(self).tiles_cover(tiles, li as int) {
                    let jj = choose|jj: int|
                        0 <= jj < tiles.len() && old(self).lin_at(
                            (#[trigger] tiles[jj]).0 as int,
                            tiles[jj].1 as int,
                        ) == li as int;
                    old(self).lemma_lin_injective(
                        tiles[jj].0 as int,
                        tiles[jj].1 as int,
                        tower_xy.0 as int,
                        tower_xy.1 as int,
                    );
                    assert(false);
                }
            }
            lemma_count_owned_pos(self.field@, t, li as int);
            assert(count_owned(old(self).field@, t) - tiles.len() >= 1);
        }
        proof {
            assert(tiles.take(tiles.len() as int) =~= tiles);
        }
        let mut tw = self.towers[t];
        tw.flattened_height = tw.flattened_height + (to_deflatten_xys.len() as i32);
        self.towers[t] = tw;
        proof {
            lemma_cells_ok_transfer(*old(self), *self, self.field_solution@);
            assert forall|i: int| 0 <= i < self.field@.len() implies ((#[trigger] self.field@[i])
                matches Some(u) ==> (u as int) < self.towers@.len()) by {
                if self.field@[i] is Some {
                    assert(old(self).field@[i] == self.field@[i]);
                }
            }
            assert forall|i: int| 0 <= i < self.field@.len() && !self.playable(i) implies
                self.field@[i] is None by {
                assert(!old(self).playable(i));
                if !old(self).tiles_cover(tiles, i) {
                    assert(self.field@[i] == old(self).field@[i]);
                }
            }
            assert forall|u: int| 0 <= u < self.towers@.len() implies {
                let tu = #[trigger] self.towers@[u];
                &&& tu.x < self.width
                &&& tu.y < self.height
                &&& 1 <= tu.flattened_height
                &&& tu.height <= 255
                &&& self.field@[self.lin_at(tu.x as int, tu.y as int)] == Some(u as usize)
                &&& tu.flattened_height + count_owned(self.field@, u as usize) == tu.height + 1
                &&& 0 <= tu.bounds.x <= 255
                &&& 0 <= tu.bounds.y <= 255
                &&& 0 <= tu.bounds.w <= 255
                &&& 0 <= tu.bounds.h <= 255
            } by {
                let tu0 = old(self).towers@[u];
                assert(tu0.x == self.towers@[u].x && tu0.y == self.towers@[u].y);
                old(self).lemma_lin_bounds(tu0.x as int, tu0.y as int);
                assert(old(self).field@[old(self).lin_at(tu0.x as int, tu0.y as int)] == Some(
                    u as usize,
                ));
                assert(!old(self).tiles_cover(tiles, self.lin_at(tu0.x as int, tu0.y as int)))
                    by {
                    let i = self.lin_at(tu0.x as int, tu0.y as int);
                    if old(self).tiles_cover(tiles, i) {
                        let jj = choose|jj: int|
                            0 <= jj < tiles.len() && old(self).lin_at(
                                (#[trigger] tiles[jj]).0 as int,
                                tiles[jj].1 as int,
                            ) == i;
                        assert(old(self).field@[i] == Some(t));
                        assert(u as usize == t);
                        assert(tiles[jj] != tower_xy);
                        old(self).lemma_lin_injective(
                            tiles[jj].0 as int,
                            tiles[jj].1 as int,
                            tower_xy.0 as int,
                            tower_xy.1 as int,
                        );
                        assert(false);
                    }
                }
                assert(self.field@[self.lin_at(tu0.x as int, tu0.y as int)] == Some(u as usize));
            }
            assert(self.wf());
        }
        let ghost mid = *self;
        self.recalc_tower_bounds(tower_xy);
        proof {
            assert(self.field@[li as int] == Some(t));
            Self::lemma_probe_rect_congruence(mid, *self, tower_xy, t);
            assert(self.towers@ =~= old(self).towers@.update(
                t as int,
                (Tower {
                    flattened_height: (fh0 + tiles.len()) as i32,
                    bounds: self.probe_rect(tower_xy, t),
                    ..old(self).towers@[t as int]
                }),
            ));
        }
        true
    }
}

} // verus!
