//! The grid engine: field state, its invariant, and whole-field operations.
//!
//! A field owns the tower list, the current occupancy array (`field`), the
//! immutable solved occupancy array (`field_solution`), and an optional
//! playability mask. Both arrays are row-major, indexed by `x + y * width`,
//! and hold either the owning tower's index or nothing.

use vstd::prelude::*;
use crate::defs::{MAX_PLAYING_FIELD_WIDTH, MAX_PLAYING_FIELD_HEIGHT, MAX_PLAYING_FIELD_AREA};
use crate::mask::PlayingFieldMask;
use crate::tower::Tower;

verus! {

/// How many entries of `cells` name tower `t` as their owner.
pub open spec fn count_owned(cells: Seq<Option<usize>>, t: usize) -> int
    decreases cells.len(),
{
    if cells.len() == 0 {
        0
    } else {
        count_owned(cells.drop_last(), t) + if cells.last() == Some(t) {
            1int
        } else {
            0int
        }
    }
}

/// An ownership count never leaves `[0, cells.len()]`.
pub proof fn lemma_count_owned_bounds(cells: Seq<Option<usize>>, t: usize)
    ensures
        0 <= count_owned(cells, t) <= cells.len(),
    decreases cells.len(),
{
    if cells.len() > 0 {
        lemma_count_owned_bounds(cells.drop_last(), t);
    }
}

/// Overwriting one entry moves each tower's ownership count by the entry's
/// old and new contribution alone.
pub proof fn lemma_count_owned_update(cells: Seq<Option<usize>>, t: usize, i: int, v: Option<usize>)
    requires
        0 <= i < cells.len(),
    ensures
        count_owned(cells.update(i, v), t) == count_owned(cells, t) - (
        if cells[i] == Some(t) {
            1int
        } else {
            0int
        }) + (if v == Some(t) {
            1int
        } else {
            0int
        }),
    decreases cells.len(),
{
    let updated = cells.update(i, v);
    assert(updated.len() == cells.len());
    if i == cells.len() - 1 {
        assert(updated.drop_last() =~= cells.drop_last());
        assert(updated.last() == v);
    } else {
        assert(updated.drop_last() =~= cells.drop_last().update(i, v));
        assert(updated.last() == cells.last());
        lemma_count_owned_update(cells.drop_last(), t, i, v);
    }
}

/// A tower owning no entry has count zero.
pub proof fn lemma_count_owned_zero(cells: Seq<Option<usize>>, t: usize)
    requires
        forall|j: int| 0 <= j < cells.len() ==> cells[j] != Some(t),
    ensures
        count_owned(cells, t) == 0,
    decreases cells.len(),
{
    if cells.len() > 0 {
        lemma_count_owned_zero(cells.drop_last(), t);
    }
}

/// An owned entry makes the count positive.
pub proof fn lemma_count_owned_pos(cells: Seq<Option<usize>>, t: usize, i: int)
    requires
        0 <= i < cells.len(),
        cells[i] == Some(t),
    ensures
        count_owned(cells, t) >= 1,
    decreases cells.len(),
{
    if i == cells.len() - 1 {
        lemma_count_owned_bounds(cells.drop_last(), t);
    } else {
        lemma_count_owned_pos(cells.drop_last(), t, i);
        lemma_count_owned_bounds(cells, t);
        assert(count_owned(cells, t) >= count_owned(cells.drop_last(), t));
    }
}

/// The playing field.
pub struct PlayingField {
    pub width: usize,
    pub height: usize,
    pub area: usize,
    pub towers: Vec<Tower>,
    pub field: Vec<Option<usize>>,
    pub field_solution: Vec<Option<usize>>,
    pub mask: Option<PlayingFieldMask>,
}

impl PlayingField {
    /// Row-major linear index of tile `(x, y)`.
    pub open spec fn lin_at(self, x: int, y: int) -> int {
        x + y * self.width
    }

    /// Whether `(x, y)` lies on the field.
    pub open spec fn in_bounds(self, x: int, y: int) -> bool {
        0 <= x < self.width && 0 <= y < self.height
    }

    /// Whether tile `i` takes part in the puzzle.
    pub open spec fn playable(self, i: int) -> bool {
        match self.mask {
            Option::None => true,
            Option::Some(m) => m.mask@[i],
        }
    }

    /// Current owner of tile `(x, y)`, if any.
    pub open spec fn cell(self, x: int, y: int) -> Option<usize> {
        self.field@[self.lin_at(x, y)]
    }

    /// Linear index of tower `t`'s origin tile.
    pub open spec fn origin_lin(self, t: int) -> int {
        self.lin_at(self.towers@[t].x as int, self.towers@[t].y as int)
    }

    /// Structural soundness of one occupancy array: full length, owners that
    /// exist, and masked-out tiles empty.
    pub open spec fn cells_ok(self, cells: Seq<Option<usize>>) -> bool {
        &&& cells.len() == self.area
        &&& forall|i: int|
            0 <= i < cells.len() ==> ((#[trigger] cells[i]) matches Some(t) ==> (t as int)
                < self.towers@.len())
        &&& forall|i: int| 0 <= i < cells.len() && !self.playable(i) ==> cells[i] is None
    }

    /// Per-tower soundness: origin on the field and currently owned by the
    /// tower, heights positive, occupancy accounting exact (flattened height
    /// plus tiles spread equals total height plus the origin tile), and every
    /// serialized scalar within one byte.
    pub open spec fn towers_ok(self) -> bool {
        forall|t: int|
            0 <= t < self.towers@.len() ==> {
                let tw = #[trigger] self.towers@[t];
                &&& tw.x < self.width
                &&& tw.y < self.height
                &&& 1 <= tw.flattened_height
                &&& tw.height <= 255
                &&& self.field@[self.lin_at(tw.x as int, tw.y as int)] == Some(t as usize)
                &&& tw.flattened_height + count_owned(self.field@, t as usize) == tw.height + 1
                &&& 0 <= tw.bounds.x <= 255
                &&& 0 <= tw.bounds.y <= 255
                &&& 0 <= tw.bounds.w <= 255
                &&& 0 <= tw.bounds.h <= 255
            }
    }

    /// The geometric part of the invariant: in-range dimensions, arrays of
    /// full length, and a sound mask.
    pub open spec fn dims_ok(self) -> bool {
        &&& 1 <= self.width <= MAX_PLAYING_FIELD_WIDTH
        &&& 1 <= self.height <= MAX_PLAYING_FIELD_HEIGHT
        &&& self.area == self.width * self.height
        &&& self.area <= MAX_PLAYING_FIELD_AREA
        &&& self.field@.len() == self.area
        &&& self.field_solution@.len() == self.area
        &&& (self.mask matches Some(m) ==> m.wf())
    }

    /// The field invariant, established at construction and by generation and
    /// preserved by every move.
    pub open spec fn wf(self) -> bool {
        &&& self.dims_ok()
        &&& self.towers@.len() <= self.area
        &&& self.cells_ok(self.field@)
        &&& self.cells_ok(self.field_solution@)
        &&& self.towers_ok()
    }

    /// The planted solution assigns every tower its origin and exactly
    /// `height` tiles.
    pub open spec fn solution_complete(self) -> bool {
        forall|t: int|
            0 <= t < self.towers@.len() ==> {
                let tw = #[trigger] self.towers@[t];
                &&& self.field_solution@[self.lin_at(tw.x as int, tw.y as int)] == Some(t as usize)
                &&& count_owned(self.field_solution@, t as usize) == tw.height
            }
    }

    /// The planted solution covers exactly the playable tiles.
    pub open spec fn solution_covers(self) -> bool {
        forall|i: int|
            0 <= i < self.area ==> (self.playable(i) <==> (#[trigger] self.field_solution@[i])
                is Some)
    }

    /// Every tower is flattened down to height 1.
    pub open spec fn spec_is_solved(self) -> bool {
        forall|t: int| 0 <= t < self.towers@.len() ==> (#[trigger] self.towers@[t]).flattened_height
            <= 1
    }

    /// A linear index of an in-bounds tile lies inside the arrays.
    pub proof fn lemma_lin_bounds(self, x: int, y: int)
        requires
            self.area == self.width * self.height,
            self.in_bounds(x, y),
        ensures
            0 <= self.lin_at(x, y) < self.area,
    {
        assert(0 <= x + y * self.width < self.width * self.height) by (nonlinear_arith)
            requires
                0 <= x < self.width,
                0 <= y < self.height,
        ;
    }

    /// Distinct in-bounds tiles have distinct linear indices.
    pub proof fn lemma_lin_injective(self, x1: int, y1: int, x2: int, y2: int)
        requires
            self.in_bounds(x1, y1),
            self.in_bounds(x2, y2),
            self.lin_at(x1, y1) == self.lin_at(x2, y2),
        ensures
            x1 == x2 && y1 == y2,
    {
        assert(x1 == x2 && y1 == y2) by (nonlinear_arith)
            requires
                0 <= x1 < self.width,
                0 <= x2 < self.width,
                0 <= y1 < self.height,
                0 <= y2 < self.height,
                x1 + y1 * self.width == x2 + y2 * self.width,
        ;
    }
}

/// `cells_ok` carries over to a field with the same geometry and mask and
/// at least as many towers.
pub proof fn lemma_cells_ok_transfer(pre: PlayingField, post: PlayingField, cells: Seq<
    Option<usize>,
>)
    requires
        pre.cells_ok(cells),
        post.area == pre.area,
        post.mask == pre.mask,
        post.towers@.len() >= pre.towers@.len(),
    ensures
        post.cells_ok(cells),
{
    assert forall|i: int| 0 <= i < cells.len() && !post.playable(i) implies cells[i] is None by {
        assert(!pre.playable(i));
    }
    assert forall|i: int|
        0 <= i < cells.len() implies ((#[trigger] cells[i]) matches Some(t) ==> (t as int)
            < post.towers@.len()) by {
        if cells[i] is Some {
            assert((cells[i]->0 as int) < pre.towers@.len());
        }
    }
}

/// `towers_ok` carries over to a field with the same towers, occupancy and
/// geometry.
pub proof fn lemma_towers_ok_transfer(pre: PlayingField, post: PlayingField)
    requires
        pre.towers_ok(),
        post.towers@ == pre.towers@,
        post.field@ == pre.field@,
        post.width == pre.width,
        post.height == pre.height,
    ensures
        post.towers_ok(),
{
    assert forall|t: int| 0 <= t < post.towers@.len() implies {
        let tw = #[trigger] post.towers@[t];
        &&& tw.x < post.width
        &&& tw.y < post.height
        &&& 1 <= tw.flattened_height
        &&& tw.height <= 255
        &&& post.field@[post.lin_at(tw.x as int, tw.y as int)] == Some(t as usize)
        &&& tw.flattened_height + count_owned(post.field@, t as usize) == tw.height + 1
        &&& 0 <= tw.bounds.x <= 255
        &&& 0 <= tw.bounds.y <= 255
        &&& 0 <= tw.bounds.w <= 255
        &&& 0 <= tw.bounds.h <= 255
    } by {
        assert(pre.towers@[t] == post.towers@[t]);
        assert(pre.field@[pre.lin_at(pre.towers@[t].x as int, pre.towers@[t].y as int)] == Some(
            t as usize,
        ));
    }
}

/// A fresh occupancy array of `n` empty tiles.
pub fn none_cells(n: usize) -> (r: Vec<Option<usize>>)
    ensures
        r@.len() == n,
        forall|i: int| 0 <= i < n ==> r@[i] is None,
{
    let mut v: Vec<Option<usize>> = Vec::new();
    while v.len() < n
        invariant
            v@.len() <= n,
            forall|i: int| 0 <= i < v@.len() ==> v@[i] is None,
        decreases n - v@.len(),
    {
        v.push(Option::None);
    }
    v
}

impl PlayingField {
    /// Builds an empty field. Dimensions outside the supported range are a
    /// fatal caller error; a mask, when given, must carry its own invariant.
    pub fn new(width: usize, height: usize, mask: Option<PlayingFieldMask>) -> (r: Self)
        requires
            0 < width <= MAX_PLAYING_FIELD_WIDTH,
            0 < height <= MAX_PLAYING_FIELD_HEIGHT,
            mask matches Some(m) ==> m.wf(),
        ensures
            r.wf(),
            r.width == width,
            r.height == height,
            r.area == width * height,
            r.towers@.len() == 0,
            forall|i: int| 0 <= i < r.area ==> r.field@[i] is None,
            forall|i: int| 0 <= i < r.area ==> r.field_solution@[i] is None,
            r.mask == mask,
    {
        proof {
            assert(width * height <= MAX_PLAYING_FIELD_AREA) by (nonlinear_arith)
                requires
                    0 < width <= MAX_PLAYING_FIELD_WIDTH,
                    0 < height <= MAX_PLAYING_FIELD_HEIGHT,
                    MAX_PLAYING_FIELD_AREA == MAX_PLAYING_FIELD_WIDTH * MAX_PLAYING_FIELD_HEIGHT,
            ;
        }
        let area = width * height;
        PlayingField {
            width,
            height,
            area,
            towers: Vec::new(),
            field: none_cells(area),
            field_solution: none_cells(area),
            mask,
        }
    }

    /// Drops every tower and empties both occupancy arrays, readying the
    /// field for a fresh generation.
    pub fn clear(&mut self)
        requires
            old(self).wf(),
        ensures
            final(self).wf(),
            final(self).width == old(self).width,
            final(self).height == old(self).height,
            final(self).area == old(self).area,
            final(self).mask == old(self).mask,
            final(self).towers@.len() == 0,
            forall|i: int| 0 <= i < final(self).area ==> final(self).field@[i] is None,
            forall|i: int| 0 <= i < final(self).area ==> final(self).field_solution@[i] is None,
    {
        self.towers.clear();
        self.field = none_cells(self.area);
        self.field_solution = none_cells(self.area);
    }

    /// Whether the coordinate pair lies on the field.
    pub fn is_inside(&self, x: i32, y: i32) -> (r: bool)
        ensures
            r == self.in_bounds(x as int, y as int),
    {
        x >= 0 && (x as usize) < self.width && y >= 0 && (y as usize) < self.height
    }

    /// Tuple form of [`Self::is_inside`].
    pub fn is_inside_xy(&self, xy: (i32, i32)) -> (r: bool)
        ensures
            r == self.in_bounds(xy.0 as int, xy.1 as int),
    {
        self.is_inside(xy.0, xy.1)
    }

    /// Whether every tower is flattened down to height 1.
    pub fn is_solved(&self) -> (r: bool)
        ensures
            r == self.spec_is_solved(),
    {
        let mut t: usize = 0;
        while t < self.towers.len()
            invariant
                t <= self.towers@.len(),
                forall|u: int| 0 <= u < t ==> (#[trigger] self.towers@[u]).flattened_height <= 1,
            decreases self.towers@.len() - t,
        {
            if self.towers[t].flattened_height > 1 {
                return false;
            }
            t += 1;
        }
        true
    }

    /// Restores the playable starting layout: every tower back at full
    /// height, and exactly the tower origins occupied.
    pub fn reset_to_start_state(&mut self)
        requires
            old(self).wf(),
        ensures
            final(self).wf(),
            final(self).width == old(self).width,
            final(self).height == old(self).height,
            final(self).area == old(self).area,
            final(self).mask == old(self).mask,
            final(self).field_solution == old(self).field_solution,
            final(self).towers@.len() == old(self).towers@.len(),
            forall|t: int|
                0 <= t < final(self).towers@.len() ==> #[trigger] final(self).towers@[t] == (Tower {
                    flattened_height: old(self).towers@[t].height,
                    ..old(self).towers@[t]
                }),
            forall|t: int|
                0 <= t < final(self).towers@.len() ==> final(self).field@[
                    #[trigger] final(self).origin_lin(t)] == Some(t as usize),
            forall|i: int|
                0 <= i < final(self).area && final(self).field@[i] is Some ==> exists|t: int|
                    0 <= t < final(self).towers@.len() && #[trigger] final(self).origin_lin(t) == i,
    {
        let ghost towers0 = self.towers@;
        let ghost w = self.width as int;
        proof {
            assert forall|t: int| 0 <= t < towers0.len() implies 0 <= (#[trigger] towers0[t]).x
                + towers0[t].y * w < old(self).area by {
                assert(old(self).field@[old(self).origin_lin(t)] == Some(t as usize));
                old(self).lemma_lin_bounds(towers0[t].x as int, towers0[t].y as int);
            }
            assert forall|t1: int, t2: int|
                0 <= t1 < towers0.len() && 0 <= t2 < towers0.len() && t1 != t2 implies (
            #[trigger] towers0[t1]).x + towers0[t1].y * w != (#[trigger] towers0[t2]).x
                + towers0[t2].y * w by {
                if towers0[t1].x + towers0[t1].y * w == towers0[t2].x + towers0[t2].y * w {
                    assert(old(self).field@[old(self).origin_lin(t1)] == Some(t1 as usize));
                    assert(old(self).field@[old(self).origin_lin(t2)] == Some(t2 as usize));
                }
            }
            assert forall|t: int| 0 <= t < towers0.len() implies (#[trigger] towers0[t]).height
                >= 1 by {
                assert(old(self).field@[old(self).origin_lin(t)] == Some(t as usize));
                lemma_count_owned_pos(
                    old(self).field@,
                    t as usize,
                    towers0[t].x + towers0[t].y * w,
                );
            }
        }
        self.field = none_cells(self.area);
        proof {
            assert forall|u: int| 0 <= u < towers0.len() implies #[trigger] count_owned(
                self.field@,
                u as usize,
            ) == 0 by {
                lemma_count_owned_zero(self.field@, u as usize);
            }
        }
        let mut t: usize = 0;
        while t < self.towers.len()
            invariant
                self.width == old(self).width,
                self.height == old(self).height,
                self.area == old(self).area,
                self.mask == old(self).mask,
                self.field_solution == old(self).field_solution,
                old(self).wf(),
                w == self.width as int,
                self.towers@.len() == towers0.len(),
                towers0 == old(self).towers@,
                t <= self.towers@.len(),
                forall|u: int|
                    0 <= u < towers0.len() ==> 0 <= (#[trigger] towers0[u]).x + towers0[u].y * w
                        < self.area,
                forall|u: int|
                    0 <= u < towers0.len() ==> (#[trigger] towers0[u]).height >= 1 && towers0[u].x
                        < self.width && towers0[u].y < self.height,
                forall|t1: int, t2: int|
                    0 <= t1 < towers0.len() && 0 <= t2 < towers0.len() && t1 != t2 ==> (
                    #[trigger] towers0[t1]).x + towers0[t1].y * w != (#[trigger] towers0[t2]).x
                        + towers0[t2].y * w,
                forall|u: int|
                    t <= u < self.towers@.len() ==> #[trigger] self.towers@[u] == towers0[u],
                forall|u: int|
                    0 <= u < t ==> #[trigger] self.towers@[u] == (Tower {
                        flattened_height: towers0[u].height,
                        ..towers0[u]
                    }),
                self.field@.len() == self.area,
                forall|u: int|
                    0 <= u < t ==> #[trigger] self.field@[towers0[u].x + towers0[u].y * w] == Some(
                        u as usize,
                    ),
                forall|i: int|
                    0 <= i < self.area && #[trigger] self.field@[i] is Some ==> exists|u: int|
                        0 <= u < t && towers0[u].x + towers0[u].y * w == i && self.field@[i]
                            == Some(u as usize),
                forall|u: int|
                    0 <= u < t ==> #[trigger] count_owned(self.field@, u as usize) == 1,
                forall|u: int|
                    t <= u < towers0.len() ==> #[trigger] count_owned(self.field@, u as usize)
                        == 0,
            decreases self.towers@.len() - t,
        {
            let tw = self.towers[t];
            proof {
                assert(tw == towers0[t as int]);
            }
            let idx: usize = tw.x + tw.y * self.width;
            let ghost cells_before = self.field@;
            proof {
                assert(idx as int == towers0[t as int].x + towers0[t as int].y * w);
                assert(0 <= idx < self.area);
                if cells_before[idx as int] is Some {
                    assert(self.field@[idx as int] is Some);
                    let uu = choose|u: int|
                        0 <= u < t && towers0[u].x + towers0[u].y * w == idx as int && self.field@[
                            idx as int] == Some(u as usize);
                    assert(false);
                }
                assert(cells_before[idx as int] is None);
                assert forall|u: int| 0 <= u < towers0.len() implies #[trigger] count_owned(
                    cells_before.update(idx as int, Some(t)),
                    u as usize,
                ) == count_owned(cells_before, u as usize) + (if u == t {
                    1int
                } else {
                    0int
                }) by {
                    lemma_count_owned_update(cells_before, u as usize, idx as int, Some(t));
                }
            }
            self.field[idx] = Some(t);
            let mut updated = self.towers[t];
            updated.flattened_height = updated.height;
            self.towers[t] = updated;
            t += 1;
        }
        proof {
            assert forall|u: int| 0 <= u < towers0.len() implies #[trigger] self.origin_lin(u)
                == towers0[u].x + towers0[u].y * w by {
                assert(self.towers@[u].x == towers0[u].x && self.towers@[u].y == towers0[u].y);
            }
            assert forall|i: int| 0 <= i < self.area && !self.playable(i) implies self.field@[i]
                is None by {
                if self.field@[i] is Some {
                    let u = choose|u: int|
                        0 <= u < towers0.len() && towers0[u].x + towers0[u].y * w == i
                            && self.field@[i] == Some(u as usize);
                    assert(old(self).towers@[u] == towers0[u]);
                    assert(old(self).field@[old(self).origin_lin(u)] == Some(u as usize));
                    assert(old(self).origin_lin(u) == i);
                    assert(self.mask == old(self).mask);
                    assert(!old(self).playable(i));
                    assert(old(self).field@[i] is None);
                    assert(false);
                }
            }
            assert(self.cells_ok(self.field@));
            assert forall|i: int|
                0 <= i < self.area && !self.playable(i) implies self.field_solution@[i] is None by {
                assert(!old(self).playable(i));
                assert(old(self).field_solution@[i] is None);
            }
            assert(self.cells_ok(self.field_solution@));
            assert forall|t: int| 0 <= t < self.towers@.len() implies ((#[trigger] self.towers@[t]).x
                < self.width && self.towers@[t].y < self.height && 1 <= self.towers@[t].flattened_height
                && self.towers@[t].height <= 255 && self.field@[self.lin_at(
                self.towers@[t].x as int,
                self.towers@[t].y as int,
            )] == Some(t as usize) && self.towers@[t].flattened_height + count_owned(
                self.field@,
                t as usize,
            ) == self.towers@[t].height + 1 && 0 <= self.towers@[t].bounds.x <= 255 && 0
                <= self.towers@[t].bounds.y <= 255 && 0 <= self.towers@[t].bounds.w <= 255 && 0
                <= self.towers@[t].bounds.h <= 255) by {
                assert(self.towers@[t] == (Tower {
                    flattened_height: towers0[t].height,
                    ..towers0[t]
                }));
                assert(old(self).towers@[t] == towers0[t]);
                assert(self.field@[towers0[t].x + towers0[t].y * w] == Some(t as usize));
                assert(self.lin_at(self.towers@[t].x as int, self.towers@[t].y as int) == towers0[
                    t].x + towers0[t].y * w);
                assert(count_owned(self.field@, t as usize) == 1);
            }
            assert(self.towers_ok());
            assert forall|i: int| 0 <= i < self.area && self.field@[i] is Some implies exists|t: int|
                0 <= t < self.towers@.len() && #[trigger] self.origin_lin(t) == i by {
                let u = choose|u: int|
                    0 <= u < towers0.len() && towers0[u].x + towers0[u].y * w == i && self.field@[
                        i] == Some(u as usize);
                assert(self.origin_lin(u) == i);
            }
        }
    }

    /// Sets the solved reference layout: occupancy becomes the planted
    /// solution and every tower is flattened to height 1.
    pub fn set_to_solution_state(&mut self)
        requires
            old(self).wf(),
            old(self).solution_complete(),
        ensures
            final(self).wf(),
            final(self).width == old(self).width,
            final(self).height == old(self).height,
            final(self).area == old(self).area,
            final(self).mask == old(self).mask,
            final(self).field_solution == old(self).field_solution,
            final(self).field@ == old(self).field_solution@,
            final(self).towers@.len() == old(self).towers@.len(),
            forall|t: int|
                0 <= t < final(self).towers@.len() ==> #[trigger] final(self).towers@[t] == (Tower {
                    flattened_height: 1,
                    ..old(self).towers@[t]
                }),
            final(self).spec_is_solved(),
    {
        let mut copied: Vec<Option<usize>> = Vec::new();
        let mut i: usize = 0;
        while i < self.area
            invariant
                old(self).wf(),
                self == old(self),
                i <= self.area,
                copied@.len() == i,
                forall|j: int| 0 <= j < i ==> copied@[j] == self.field_solution@[j],
            decreases self.area - i,
        {
            copied.push(self.field_solution[i]);
            i += 1;
        }
        proof {
            assert(copied@ =~= old(self).field_solution@);
        }
        self.field = copied;
        let mut t: usize = 0;
        while t < self.towers.len()
            invariant
                old(self).wf(),
                self.width == old(self).width,
                self.height == old(self).height,
                self.area == old(self).area,
                self.mask == old(self).mask,
                self.field_solution == old(self).field_solution,
                self.field@ == old(self).field_solution@,
                self.towers@.len() == old(self).towers@.len(),
                t <= self.towers@.len(),
                forall|u: int| t <= u < self.towers@.len() ==> #[trigger] self.towers@[u] == old(
                    self,
                ).towers@[u],
                forall|u: int|
                    0 <= u < t ==> #[trigger] self.towers@[u] == (Tower {
                        flattened_height: 1,
                        ..old(self).towers@[u]
                    }),
            decreases self.towers@.len() - t,
        {
            let mut updated = self.towers[t];
            updated.flattened_height = 1;
            self.towers[t] = updated;
            t += 1;
        }
        proof {
            assert(old(self).solution_complete());
            assert(self.field@ == old(self).field_solution@);
            assert forall|i: int| 0 <= i < self.area && !self.playable(i) implies self.field@[i]
                is None by {
                assert(self.mask == old(self).mask);
                assert(!old(self).playable(i));
                assert(old(self).field_solution@[i] is None);
            }
            assert forall|t: int|
                0 <= t < self.towers@.len() implies (#[trigger] self.towers@[t]).flattened_height
                + count_owned(self.field@, t as usize) == self.towers@[t].height + 1
                && self.field@[self.lin_at(self.towers@[t].x as int, self.towers@[t].y as int)]
                == Some(t as usize) by {
                assert(old(self).towers@[t].x == self.towers@[t].x);
                assert(count_owned(self.field@, t as usize) == count_owned(
                    old(self).field_solution@,
                    t as usize,
                ));
            }
        }
    }
}

} // verus!
