//! The curve model: an ordered store of control points, a group table that
//! partitions them into Bezier segments, and a cached row of sampled curve
//! points per segment.
//!
//! Groups hold positions into the control point store. Consecutive groups
//! share exactly one boundary position: the last entry of one group is the
//! first entry of the next, which keeps the chained curve continuous. Since
//! groups only ever grow at the tail and shrink from the tail, each group is
//! a run of consecutive positions, the first group starts at position zero,
//! and the last group ends at the last stored point.

use vstd::prelude::*;

verus! {

use crate::eval::{
    COORD_LIMIT, MAX_GROUP_SIZE, RESOLUTION, SAMPLE_SCALE, bez, evaluate, lemma_bez_first,
    lemma_bez_last, lemma_pow_int_adds, lemma_sample_scale, pow_int, to_ints,
};

/// A user-placed 2D control point, identified by its position in the store.
#[derive(Clone, Copy, PartialEq, Eq, Structural, Debug)]
pub struct ControlPoint {
    pub x: i64,
    pub y: i64,
}

/// A point on the sampled curve, in fixed-point units: the stored coordinate
/// is the exact curve coordinate multiplied by `SAMPLE_SCALE`.
#[derive(Clone, Copy, PartialEq, Eq, Structural, Debug)]
pub struct SamplePoint {
    pub x: i64,
    pub y: i64,
}

/// Why a mutation was rejected.
#[derive(Clone, Copy, PartialEq, Eq, Structural, Debug)]
pub enum CurveError {
    /// The operation received a position that is not currently valid.
    OutOfBounds,
}

/// A coordinate small enough that sampling can never overflow.
pub open spec fn coord_ok(v: i64) -> bool {
    -COORD_LIMIT <= v <= COORD_LIMIT
}

/// Both coordinates of the point are within `COORD_LIMIT`.
pub open spec fn point_ok(p: ControlPoint) -> bool {
    coord_ok(p.x) && coord_ok(p.y)
}

/// The x coordinates of the group's control points, in group order.
pub open spec fn xs_of(g: Seq<usize>, cps: Seq<ControlPoint>) -> Seq<int> {
    Seq::new(g.len(), |j: int| cps[g[j] as int].x as int)
}

/// The y coordinates of the group's control points, in group order.
pub open spec fn ys_of(g: Seq<usize>, cps: Seq<ControlPoint>) -> Seq<int> {
    Seq::new(g.len(), |j: int| cps[g[j] as int].y as int)
}

/// Factor that brings a blend of `len` coordinates, already scaled by
/// `RESOLUTION^(len - 1)`, to the common fixed-point scale `SAMPLE_SCALE`.
pub open spec fn group_scale(len: nat) -> int {
    pow_int(RESOLUTION as int, (MAX_GROUP_SIZE - len) as nat)
}

/// The sample for step `k` holds the exact blend of the group's control
/// points at parameter `k / RESOLUTION`, at the common fixed-point scale.
pub open spec fn sample_ok(g: Seq<usize>, cps: Seq<ControlPoint>, k: int, sp: SamplePoint) -> bool {
    &&& sp.x as int == bez(xs_of(g, cps), k, RESOLUTION as int) * group_scale(g.len())
    &&& sp.y as int == bez(ys_of(g, cps), k, RESOLUTION as int) * group_scale(g.len())
}

/// A freshly computed sample row for the group: one exact sample for each of
/// the `RESOLUTION + 1` evenly spaced parameter values.
pub open spec fn row_ok(g: Seq<usize>, cps: Seq<ControlPoint>, row: Seq<SamplePoint>) -> bool {
    &&& row.len() == RESOLUTION + 1
    &&& forall|k: int| 0 <= k <= RESOLUTION ==> sample_ok(g, cps, k, #[trigger] row[k])
}

/// The group table after a control point is deleted: the last entry of the
/// last group is popped, and if that leaves the last group below two entries
/// while other groups remain, the whole last group is spliced out.
pub open spec fn groups_after_delete(gs: Seq<Seq<usize>>) -> Seq<Seq<usize>> {
    let trimmed = gs.update(gs.len() - 1, gs.last().drop_last());
    if trimmed.len() > 1 && trimmed.last().len() < 2 {
        trimmed.drop_last()
    } else {
        trimmed
    }
}

/// The point lies within `tol` of `(x, y)` in both axes.
pub open spec fn near(p: ControlPoint, x: int, y: int, tol: int) -> bool {
    &&& -tol <= p.x - x <= tol
    &&& -tol <= p.y - y <= tol
}

/// The position whose groups are resampled after a deletion: the position
/// that now occupies the deleted slot, clamped to the last valid position
/// when the deleted point was at the tail.
pub open spec fn delete_target(index: int, new_count: int) -> int {
    if index == new_count {
        index - 1
    } else {
        index
    }
}

/// The curve model: all state of the editor core.
pub struct CurveModel {
    control_points: Vec<ControlPoint>,
    groups: Vec<Vec<usize>>,
    samples: Vec<Vec<SamplePoint>>,
}

impl CurveModel {
    /// The stored control points.
    pub closed spec fn points(self) -> Seq<ControlPoint> {
        self.control_points@
    }

    /// How many control points are stored.
    pub open spec fn point_count(self) -> nat {
        self.points().len()
    }

    /// How many groups the table holds.
    pub closed spec fn group_count(self) -> nat {
        self.groups@.len()
    }

    /// How many cached sample rows there are.
    pub closed spec fn cache_count(self) -> nat {
        self.samples@.len()
    }

    /// The group table as a sequence of position sequences.
    pub open spec fn gps(self) -> Seq<Seq<usize>> {
        Seq::new(self.group_count(), |i: int| self.group_at(i))
    }

    /// The sample cache as a sequence of sample rows.
    pub open spec fn smps(self) -> Seq<Seq<SamplePoint>> {
        Seq::new(self.cache_count(), |i: int| self.samples_at(i))
    }

    /// The positions of group `i`.
    pub closed spec fn group_at(self, i: int) -> Seq<usize> {
        self.groups@[i]@
    }

    /// The cached sample row of group `i`.
    pub closed spec fn samples_at(self, i: int) -> Seq<SamplePoint> {
        self.samples@[i]@
    }

    /// Structural invariant of the group table.
    pub open spec fn groups_wf(self) -> bool {
        &&& (self.point_count() == 0 <==> self.group_count() == 0)
        &&& forall|i: int|
            0 <= i < self.group_count() ==> 1 <= #[trigger] self.group_at(i).len()
                <= MAX_GROUP_SIZE
        &&& forall|i: int| 1 <= i < self.group_count() ==> #[trigger] self.group_at(i).len() >= 2
        &&& (self.group_count() > 1 ==> self.group_at(0).len() >= 2)
        &&& forall|i: int, j: int|
            0 <= i < self.group_count() && 0 <= j < self.group_at(i).len()
                ==> #[trigger] self.group_at(i)[j] < self.point_count()
        &&& forall|i: int, j: int|
            0 <= i < self.group_count() && 0 <= j < self.group_at(i).len()
                ==> #[trigger] self.group_at(i)[j] == self.group_at(i)[0] + j
        &&& (self.group_count() > 0 ==> self.group_at(0)[0] == 0)
        &&& forall|i: int|
            1 <= i < self.group_count() ==> #[trigger] self.group_at(i)[0] == self.group_at(
                i - 1,
            ).last()
        &&& (self.group_count() > 0 ==> self.group_at(self.group_count() - 1).last()
            == self.point_count() - 1)
        &&& forall|i1: int, i2: int|
            0 <= i1 <= i2 < self.group_count() ==> #[trigger] self.group_at(i1).last()
                <= #[trigger] self.group_at(i2).last()
    }

    /// Everything but the shape of the sample rows: the group table is
    /// structurally sound, coordinates are bounded, and there is one cache
    /// row per group.
    pub open spec fn wf_base(self) -> bool {
        &&& self.groups_wf()
        &&& forall|i: int| 0 <= i < self.point_count() ==> point_ok(#[trigger] self.points()[i])
        &&& self.cache_count() == self.group_count()
    }

    /// Full well-formedness: additionally, every cache row holds exactly
    /// `RESOLUTION + 1` samples.
    pub open spec fn wf(self) -> bool {
        &&& self.wf_base()
        &&& forall|i: int|
            0 <= i < self.group_count() ==> #[trigger] self.samples_at(i).len() == RESOLUTION + 1
    }

    /// An empty model: no points, no groups, no cached samples.
    pub fn new() -> (m: CurveModel)
        ensures
            m.wf(),
            m.point_count() == 0,
            m.group_count() == 0,
            m.smps().len() == 0,
    {
        CurveModel { control_points: Vec::new(), groups: Vec::new(), samples: Vec::new() }
    }

    /// Read-only view of the control points, for drawing markers and the
    /// connecting lines between consecutive points.
    pub fn control_points(&self) -> (r: &Vec<ControlPoint>)
        ensures
            r@ == self.points(),
    {
        &self.control_points
    }

    /// Read-only view of the group table.
    pub fn groups(&self) -> (r: &Vec<Vec<usize>>)
        ensures
            r@.len() == self.group_count(),
            forall|i: int| 0 <= i < r@.len() ==> #[trigger] r@[i]@ == self.group_at(i),
    {
        &self.groups
    }

    /// Read-only view of the sample cache: one row of sampled curve points
    /// per group, for drawing the rendered curve.
    pub fn sample_points(&self) -> (r: &Vec<Vec<SamplePoint>>)
        ensures
            r@.len() == self.smps().len(),
            forall|i: int| 0 <= i < r@.len() ==> #[trigger] r@[i]@ == self.samples_at(i),
    {
        &self.samples
    }
}

/// Two models with the same points and the same group table satisfy the same
/// structural invariant.
proof fn lemma_groups_wf_same(a: CurveModel, b: CurveModel)
    requires
        a.groups_wf(),
        a.groups@ == b.groups@,
        a.points().len() == b.points().len(),
    ensures
        b.groups_wf(),
{
    assert(b.group_count() == a.group_count());
    assert(forall|i: int|
        0 <= i < b.group_count() ==> #[trigger] b.group_at(i) == a.group_at(i));
}

/// Models with equal group table views agree on every group.
proof fn lemma_gps_eq_pointwise(a: CurveModel, b: CurveModel)
    requires
        a.gps() == b.gps(),
    ensures
        a.group_count() == b.group_count(),
        forall|i: int| 0 <= i < a.group_count() ==> #[trigger] a.group_at(i) == b.group_at(i),
{
    assert(a.gps().len() == a.group_count());
    assert(b.gps().len() == b.group_count());
    assert forall|i: int| 0 <= i < a.group_count() implies #[trigger] a.group_at(i) == b.group_at(
        i,
    ) by {
        assert(a.gps()[i] == a.group_at(i));
        assert(b.gps()[i] == b.group_at(i));
    }
}

/// True exactly when the group holds the given position.
fn group_contains(g: &Vec<usize>, p: usize) -> (b: bool)
    ensures
        b == g@.contains(p),
{
    let mut j: usize = 0;
    while j < g.len()
        invariant
            j <= g@.len(),
            forall|t: int| 0 <= t < j ==> g@[t] != p,
        decreases g@.len() - j,
    {
        if g[j] == p {
            assert(g@[j as int] == p);
            return true;
        }
        j += 1;
    }
    false
}

/// The fixed-point factor for a group of `len` control points.
fn scale_for(len: usize) -> (s: i64)
    requires
        1 <= len <= MAX_GROUP_SIZE,
    ensures
        s == group_scale(len as nat),
        1 <= s <= SAMPLE_SCALE,
{
    proof {
        assert(pow_int(16, 0) == 1);
        assert(pow_int(16, 1) == 16);
        assert(pow_int(16, 2) == 256);
        assert(pow_int(16, 3) == 4096);
    }
    if len == 1 {
        4096
    } else if len == 2 {
        256
    } else if len == 3 {
        16
    } else {
        1
    }
}

impl CurveModel {
    /// Recomputes the cached sample row of group `gi` from the current
    /// control points.
    fn recompute_group(&mut self, gi: usize)
        requires
            old(self).wf_base(),
            gi < old(self).group_count(),
        ensures
            final(self).wf_base(),
            final(self).points() == old(self).points(),
            final(self).gps() == old(self).gps(),
            final(self).group_count() == old(self).group_count(),
            final(self).cache_count() == old(self).cache_count(),
            forall|i: int|
                0 <= i < final(self).cache_count() && i != gi ==> #[trigger] final(self).samples_at(
                    i,
                ) == old(self).samples_at(i),
            row_ok(
                final(self).group_at(gi as int),
                final(self).points(),
                final(self).samples_at(gi as int),
            ),
    {
        let glen = self.groups[gi].len();
        let mut xs: Vec<i64> = Vec::new();
        let mut ys: Vec<i64> = Vec::new();
        let mut j: usize = 0;
        while j < glen
            invariant
                *self == *old(self),
                gi < self.group_count(),
                glen == self.group_at(gi as int).len(),
                self.wf_base(),
                j <= glen,
                xs@.len() == j,
                ys@.len() == j,
                forall|t: int|
                    0 <= t < j ==> #[trigger] xs@[t] == self.points()[self.group_at(gi as int)[t] as int].x,
                forall|t: int|
                    0 <= t < j ==> #[trigger] ys@[t] == self.points()[self.group_at(gi as int)[t] as int].y,
            decreases glen - j,
        {
            let idx = self.groups[gi][j];
            assert(idx < self.point_count());
            xs.push(self.control_points[idx].x);
            ys.push(self.control_points[idx].y);
            j += 1;
        }
        let ghost g = self.group_at(gi as int);
        let ghost cps = self.points();
        proof {
            assert(to_ints(xs@) =~= xs_of(g, cps));
            assert(to_ints(ys@) =~= ys_of(g, cps));
            assert(forall|t: int|
                0 <= t < xs@.len() ==> -COORD_LIMIT <= #[trigger] xs@[t] <= COORD_LIMIT);
            assert(forall|t: int|
                0 <= t < ys@.len() ==> -COORD_LIMIT <= #[trigger] ys@[t] <= COORD_LIMIT);
        }
        let scale = scale_for(glen);
        let mut row: Vec<SamplePoint> = Vec::new();
        let mut k: usize = 0;
        while k <= RESOLUTION
            invariant
                *self == *old(self),
                gi < self.group_count(),
                self.wf_base(),
                g == self.group_at(gi as int),
                cps == self.points(),
                glen == g.len(),
                1 <= glen <= MAX_GROUP_SIZE,
                scale == group_scale(glen as nat),
                1 <= scale <= SAMPLE_SCALE,
                to_ints(xs@) == xs_of(g, cps),
                to_ints(ys@) == ys_of(g, cps),
                xs@.len() == glen,
                ys@.len() == glen,
                forall|t: int|
                    0 <= t < xs@.len() ==> -COORD_LIMIT <= #[trigger] xs@[t] <= COORD_LIMIT,
                forall|t: int|
                    0 <= t < ys@.len() ==> -COORD_LIMIT <= #[trigger] ys@[t] <= COORD_LIMIT,
                k <= RESOLUTION + 1,
                row@.len() == k,
                forall|t: int| 0 <= t < k ==> sample_ok(g, cps, t, #[trigger] row@[t]),
            decreases RESOLUTION + 1 - k,
        {
            let ex = evaluate(xs.as_slice(), k, RESOLUTION);
            let ey = evaluate(ys.as_slice(), k, RESOLUTION);
            proof {
                lemma_scaled_sample_fits(glen as nat, ex as int);
                lemma_scaled_sample_fits(glen as nat, ey as int);
            }
            row.push(SamplePoint { x: ex * scale, y: ey * scale });
            k += 1;
        }
        self.samples.set(gi, row);
        proof {
            assert(self.gps() =~~= old(self).gps());
            lemma_groups_wf_same(*old(self), *self);
            assert(row_ok(self.group_at(gi as int), self.points(), self.samples_at(gi as int)));
        }
    }

    /// Recomputes the cached sample row of every group that contains the
    /// given control point position. Positions held by no group (including
    /// out-of-range ones) leave the cache unchanged.
    pub fn recompute_samples_touching(&mut self, point_index: usize)
        requires
            old(self).wf(),
        ensures
            final(self).wf(),
            final(self).points() == old(self).points(),
            final(self).gps() == old(self).gps(),
            final(self).group_count() == old(self).group_count(),
            final(self).smps().len() == old(self).smps().len(),
            forall|i: int|
                0 <= i < final(self).group_count() && final(self).group_at(i).contains(point_index)
                    ==> row_ok(
                    final(self).group_at(i),
                    final(self).points(),
                    #[trigger] final(self).samples_at(i),
                ),
            forall|i: int|
                0 <= i < final(self).group_count() && !final(self).group_at(i).contains(
                    point_index,
                ) ==> #[trigger] final(self).samples_at(i) == old(self).samples_at(i),
    {
        let mut gi: usize = 0;
        while gi < self.groups.len()
            invariant
                self.wf(),
                self.points() == old(self).points(),
                self.gps() == old(self).gps(),
                self.group_count() == old(self).group_count(),
                self.cache_count() == old(self).cache_count(),
                gi <= self.group_count(),
                forall|i: int|
                    0 <= i < gi && self.group_at(i).contains(point_index) ==> row_ok(
                        self.group_at(i),
                        self.points(),
                        #[trigger] self.samples_at(i),
                    ),
                forall|i: int|
                    0 <= i < self.group_count() && !(0 <= i < gi && self.group_at(i).contains(
                        point_index,
                    )) ==> #[trigger] self.samples_at(i) == old(self).samples_at(i),
            decreases self.group_count() - gi,
        {
            let ghost prev = *self;
            let touched = group_contains(&self.groups[gi], point_index);
            proof {
                assert(touched == prev.group_at(gi as int).contains(point_index));
            }
            if touched {
                self.recompute_group(gi);
            }
            proof {
                lemma_gps_eq_pointwise(prev, *self);
                assert forall|i: int|
                    0 <= i <= gi && self.group_at(i).contains(point_index) implies row_ok(
                    self.group_at(i),
                    self.points(),
                    #[trigger] self.samples_at(i),
                ) by {
                    if i == gi {
                        assert(touched);
                    } else {
                        assert(row_ok(prev.group_at(i), prev.points(), prev.samples_at(i)));
                    }
                }
                assert forall|i: int|
                    0 <= i < self.group_count() && !(0 <= i <= gi && self.group_at(i).contains(
                        point_index,
                    )) implies #[trigger] self.samples_at(i) == old(self).samples_at(i) by {
                    assert(touched == self.group_at(gi as int).contains(point_index));
                    if touched {
                        assert(i != gi);
                        assert(i < self.cache_count());
                        assert(self.samples_at(i) == prev.samples_at(i));
                    } else {
                        assert(*self == prev);
                    }
                }
            }
            gi += 1;
        }
    }

    /// Recomputes the cached sample row of one group, by its position in the
    /// group table; rejects a position that names no group.
    pub fn recompute_group_samples(&mut self, group_index: usize) -> (r: Result<(), CurveError>)
        requires
            old(self).wf(),
        ensures
            final(self).wf(),
            final(self).points() == old(self).points(),
            final(self).gps() == old(self).gps(),
            final(self).group_count() == old(self).group_count(),
            group_index >= old(self).group_count() ==> r == Err::<(), CurveError>(
                CurveError::OutOfBounds,
            ) && *final(self) == *old(self),
            group_index < old(self).group_count() ==> r == Ok::<(), CurveError>(()) && row_ok(
                final(self).group_at(group_index as int),
                final(self).points(),
                final(self).samples_at(group_index as int),
            ) && forall|i: int|
                0 <= i < final(self).group_count() && i != group_index
                    ==> #[trigger] final(self).samples_at(i) == old(self).samples_at(i),
    {
        if group_index >= self.groups.len() {
            return Err(CurveError::OutOfBounds);
        }
        self.recompute_group(group_index);
        Ok(())
    }

    /// The positions in the group table of every group that contains the
    /// given control point position, in ascending order.
    pub fn groups_of_point(&self, point_index: usize) -> (r: Vec<usize>)
        ensures
            forall|t: int|
                0 <= t < r@.len() ==> #[trigger] r@[t] < self.group_count() && self.group_at(
                    r@[t] as int,
                ).contains(point_index),
            forall|g: int|
                0 <= g < self.group_count() && #[trigger] self.group_at(g).contains(point_index)
                    ==> r@.contains(g as usize),
            forall|t1: int, t2: int| 0 <= t1 < t2 < r@.len() ==> r@[t1] < r@[t2],
    {
        let mut r: Vec<usize> = Vec::new();
        let mut gi: usize = 0;
        while gi < self.groups.len()
            invariant
                gi <= self.group_count(),
                forall|t: int|
                    0 <= t < r@.len() ==> #[trigger] r@[t] < gi && self.group_at(
                        r@[t] as int,
                    ).contains(point_index),
                forall|g: int|
                    0 <= g < gi && #[trigger] self.group_at(g).contains(point_index)
                        ==> r@.contains(g as usize),
                forall|t1: int, t2: int| 0 <= t1 < t2 < r@.len() ==> r@[t1] < r@[t2],
            decreases self.group_count() - gi,
        {
            let ghost prev_r = r@;
            if group_contains(&self.groups[gi], point_index) {
                r.push(gi);
            }
            proof {
                assert forall|g: int|
                    0 <= g <= gi && #[trigger] self.group_at(g).contains(point_index) implies
                    r@.contains(g as usize) by {
                    if g == gi {
                        assert(r@[r@.len() - 1] == gi);
                    } else {
                        assert(prev_r.contains(g as usize));
                        let t = choose|t: int| 0 <= t < prev_r.len() && prev_r[t] == g as usize;
                        assert(r@[t] == g as usize);
                    }
                }
            }
            gi += 1;
        }
        r
    }

    /// Appends a control point and places it in the group table: into a
    /// first group if none exists yet, onto the last group while it has room,
    /// or into a fresh group seeded with the previous last position so that
    /// the new segment joins the old one at a shared boundary point. Then
    /// refreshes the sample rows of every group holding the new point.
    /// Returns the new point's position.
    pub fn add_point(&mut self, x: i64, y: i64) -> (idx: usize)
        requires
            old(self).wf(),
            coord_ok(x),
            coord_ok(y),
        ensures
            final(self).wf(),
            idx == old(self).point_count(),
            final(self).point_count() == old(self).point_count() + 1,
            final(self).points() == old(self).points().push(ControlPoint { x, y }),
            ({
                let og = old(self).gps();
                if og.len() == 0 {
                    final(self).gps() == seq![seq![idx]]
                } else if og.last().len() < MAX_GROUP_SIZE {
                    final(self).gps() == og.update(og.len() - 1, og.last().push(idx))
                } else {
                    final(self).gps() == og.push(seq![(idx - 1) as usize, idx])
                }
            }),
            final(self).group_at(final(self).group_count() - 1).contains(idx),
            final(self).smps().len() == final(self).group_count(),
            forall|i: int|
                0 <= i < final(self).group_count() && final(self).group_at(i).contains(idx)
                    ==> row_ok(
                    final(self).group_at(i),
                    final(self).points(),
                    #[trigger] final(self).samples_at(i),
                ),
            forall|i: int|
                0 <= i < final(self).group_count() && !final(self).group_at(i).contains(idx)
                    ==> #[trigger] final(self).samples_at(i) == old(self).samples_at(i),
    {
        self.control_points.push(ControlPoint { x, y });
        let added_index = self.control_points.len() - 1;
        if self.groups.len() > 0 {
            let lgi = self.groups.len() - 1;
            if self.groups[lgi].len() < MAX_GROUP_SIZE {
                let mut lg = self.groups.pop().unwrap();
                lg.push(added_index);
                self.groups.push(lg);
                proof {
                    let og = *old(self);
                    assert(self.group_count() == og.group_count());
                    assert(forall|i: int|
                        0 <= i < self.group_count() - 1 ==> #[trigger] self.group_at(i)
                            == og.group_at(i));
                    assert(self.group_at(lgi as int) == og.group_at(lgi as int).push(added_index));
                    assert(self.gps() =~~= og.gps().update(
                        og.gps().len() - 1,
                        og.gps().last().push(added_index),
                    ));
                    assert(og.group_at(lgi as int).last() == og.point_count() - 1);
                    assert(self.group_at(lgi as int)[0] == og.group_at(lgi as int)[0]);
                }
            } else {
                let mut ng: Vec<usize> = Vec::new();
                ng.push(added_index - 1);
                ng.push(added_index);
                self.groups.push(ng);
                self.samples.push(Vec::new());
                proof {
                    let og = *old(self);
                    assert(self.group_count() == og.group_count() + 1);
                    assert(forall|i: int|
                        0 <= i < self.group_count() - 1 ==> #[trigger] self.group_at(i)
                            == og.group_at(i));
                    assert(self.group_at(lgi as int + 1) =~= seq![
                        (added_index - 1) as usize,
                        added_index,
                    ]);
                    assert(self.gps() =~~= og.gps().push(
                        seq![(added_index - 1) as usize, added_index],
                    ));
                    assert(og.group_at(lgi as int).last() == og.point_count() - 1);
                }
            }
        } else {
            let mut g0: Vec<usize> = Vec::new();
            g0.push(added_index);
            self.groups.push(g0);
            self.samples.push(Vec::new());
            proof {
                assert(self.group_count() == 1);
                assert(self.group_at(0) =~= seq![added_index]);
                assert(self.gps() =~~= seq![seq![added_index]]);
            }
        }
        proof {
            assert(self.wf_base());
        }
        let last_gi = self.groups.len() - 1;
        let ghost mid = *self;
        self.recompute_group(last_gi);
        proof {
            lemma_gps_eq_pointwise(mid, *self);
            assert(self.group_at(last_gi as int).last() == added_index);
            assert(self.group_at(last_gi as int).contains(added_index));
            assert forall|i: int|
                0 <= i < self.group_count() && i != last_gi implies !(
            #[trigger] self.group_at(i).contains(added_index)) by {
                assert forall|j: int|
                    0 <= j < self.group_at(i).len() implies #[trigger] self.group_at(i)[j]
                        != added_index by {
                    lemma_nonfinal_entry(*self, i, j);
                }
            }
            assert forall|i: int|
                0 <= i < self.group_count() implies #[trigger] self.samples_at(i).len()
                    == RESOLUTION + 1 by {
                if i != last_gi {
                    assert(self.samples_at(i) == mid.samples_at(i));
                    assert(mid.samples_at(i) == old(self).samples_at(i));
                    assert(old(self).samples_at(i).len() == RESOLUTION + 1);
                }
            }
        }
        added_index
    }

    /// Overwrites the coordinates of the control point at `index`; the group
    /// table and the sample cache are untouched, so the caller triggers
    /// recomputation separately. Rejects a position that names no point.
    pub fn move_point(&mut self, index: usize, x: i64, y: i64) -> (r: Result<(), CurveError>)
        requires
            old(self).wf(),
            coord_ok(x),
            coord_ok(y),
        ensures
            final(self).wf(),
            index >= old(self).point_count() ==> r == Err::<(), CurveError>(CurveError::OutOfBounds)
                && *final(self) == *old(self),
            index < old(self).point_count() ==> {
                &&& r == Ok::<(), CurveError>(())
                &&& final(self).points() == old(self).points().update(
                    index as int,
                    ControlPoint { x, y },
                )
                &&& final(self).gps() == old(self).gps()
                &&& final(self).smps() == old(self).smps()
            },
    {
        if index >= self.control_points.len() {
            return Err(CurveError::OutOfBounds);
        }
        self.control_points.set(index, ControlPoint { x, y });
        proof {
            lemma_groups_wf_same(*old(self), *self);
            assert(self.gps() =~~= old(self).gps());
            assert(self.smps() =~~= old(self).smps());
            assert(forall|i: int|
                0 <= i < self.group_count() ==> #[trigger] self.samples_at(i) == old(
                    self,
                ).samples_at(i));
            assert forall|i: int| 0 <= i < self.point_count() implies point_ok(
                #[trigger] self.points()[i],
            ) by {
                if i != index {
                    assert(self.points()[i] == old(self).points()[i]);
                }
            }
        }
        Ok(())
    }

    /// Removes the control point at `index` and repairs the group table:
    /// the last entry of the last group is popped (removal shifts every
    /// later position down by one, so the largest position disappears), a
    /// last group left with fewer than two entries is spliced out together
    /// with its cache row unless it is the only group, and the sample rows
    /// of every group containing the position that now occupies the deleted
    /// slot are refreshed. Deleting the last remaining point empties the
    /// model. Rejects a position that names no point.
    #[verifier::rlimit(40)]
    pub fn delete_point(&mut self, index: usize) -> (r: Result<(), CurveError>)
        requires
            old(self).wf(),
        ensures
            final(self).wf(),
            index >= old(self).point_count() ==> r == Err::<(), CurveError>(CurveError::OutOfBounds)
                && *final(self) == *old(self),
            index < old(self).point_count() ==> {
                &&& r == Ok::<(), CurveError>(())
                &&& final(self).point_count() == old(self).point_count() - 1
                &&& final(self).points() == old(self).points().remove(index as int)
                &&& (final(self).point_count() == 0 ==> {
                    &&& final(self).group_count() == 0
                    &&& final(self).smps().len() == 0
                })
                &&& (final(self).point_count() > 0 ==> {
                    &&& final(self).gps() == groups_after_delete(old(self).gps())
                    &&& ({
                        let target = delete_target(
                            index as int,
                            final(self).point_count() as int,
                        );
                        &&& forall|i: int|
                            0 <= i < final(self).group_count() && final(self).group_at(i).contains(
                                target as usize,
                            ) ==> row_ok(
                                final(self).group_at(i),
                                final(self).points(),
                                #[trigger] final(self).samples_at(i),
                            )
                        &&& forall|i: int|
                            0 <= i < final(self).group_count() && !final(self).group_at(
                                i,
                            ).contains(target as usize) ==> #[trigger] final(self).samples_at(i)
                                == old(self).samples_at(i)
                    })
                })
            },
    {
        if index >= self.control_points.len() {
            return Err(CurveError::OutOfBounds);
        }
        let ghost og = *old(self);
        self.control_points.remove(index);
        if self.control_points.len() == 0 {
            self.groups = Vec::new();
            self.samples = Vec::new();
            return Ok(());
        }
        proof {
            assert(og.group_count() >= 1);
            assert(og.group_at(og.group_count() - 1).last() == og.point_count() - 1);
            if og.group_count() == 1 {
                // the sole group is a run from 0 to the old last position
                assert(og.group_at(0)[0] == 0);
                assert(og.group_at(0).last() == og.group_at(0)[0] + og.group_at(0).len() - 1);
                assert(og.group_at(0).len() == og.point_count());
            }
            assert(og.group_at(og.group_count() - 1).len() >= 2);
        }
        let mut last_group = self.groups.pop().unwrap();
        last_group.pop();
        let ghost lgi = og.group_count() - 1;
        let ghost trimmed = og.group_at(lgi).drop_last();
        proof {
            assert(last_group@ == trimmed);
            assert(trimmed.last() == og.group_at(lgi)[og.group_at(lgi).len() - 2]);
            assert(trimmed.last() == og.group_at(lgi)[0] + og.group_at(lgi).len() - 2);
            assert(og.group_at(lgi).last() == og.group_at(lgi)[0] + og.group_at(lgi).len() - 1);
            assert(trimmed.last() == og.point_count() - 2);
        }
        if last_group.len() >= 2 || self.groups.len() == 0 {
            self.groups.push(last_group);
            proof {
                assert(self.group_count() == og.group_count());
                assert(forall|i: int|
                    0 <= i < self.group_count() - 1 ==> #[trigger] self.group_at(i) == og.group_at(
                        i,
                    ));
                assert(self.group_at(lgi) == trimmed);
                assert(self.gps() =~~= og.gps().update(og.gps().len() - 1, og.gps().last().drop_last()));
                assert(self.gps() == groups_after_delete(og.gps()));
                assert forall|i: int, j: int|
                    0 <= i < self.group_count() && 0 <= j < self.group_at(i).len()
                        implies #[trigger] self.group_at(i)[j] < self.point_count() by {
                    lemma_nonfinal_entry(og, i, j);
                }
                assert forall|i1: int, i2: int|
                    0 <= i1 <= i2 < self.group_count() implies #[trigger] self.group_at(
                    i1,
                ).last() <= #[trigger] self.group_at(i2).last() by {
                    if i2 == lgi && i1 < lgi {
                        lemma_nonfinal_entry(og, i1, og.group_at(i1).len() - 1);
                    }
                }
                assert(self.groups_wf());
                assert(forall|i: int|
                    0 <= i < self.group_count() ==> #[trigger] self.samples_at(i)
                        == og.samples_at(i));
                assert(self.wf());
            }
        } else {
            self.samples.pop();
            proof {
                assert(self.group_count() == og.group_count() - 1);
                assert(og.group_count() >= 2);
                assert(forall|i: int|
                    0 <= i < self.group_count() ==> #[trigger] self.group_at(i) == og.group_at(i));
                assert(self.gps() =~~= og.gps().drop_last());
                assert(og.gps().update(og.gps().len() - 1, og.gps().last().drop_last()).drop_last()
                    =~~= og.gps().drop_last());
                assert(trimmed.len() < 2);
                assert(self.gps() == groups_after_delete(og.gps()));
                assert(og.group_at(lgi).len() == 2);
                assert(self.group_at(self.group_count() - 1).last() == og.group_at(lgi)[0]);
                assert(self.group_at(self.group_count() - 1).last() == self.point_count() - 1);
                assert forall|i: int, j: int|
                    0 <= i < self.group_count() && 0 <= j < self.group_at(i).len()
                        implies #[trigger] self.group_at(i)[j] < self.point_count() by {
                    lemma_nonfinal_entry(og, i, j);
                }
                assert(self.groups_wf());
                assert(forall|i: int|
                    0 <= i < self.group_count() ==> #[trigger] self.samples_at(i)
                        == og.samples_at(i));
                assert(self.wf());
            }
        }
        let target = if index == self.control_points.len() {
            index - 1
        } else {
            index
        };
        let ghost mid = *self;
        self.recompute_samples_touching(target);
        proof {
            lemma_gps_eq_pointwise(mid, *self);
            assert(target as int == delete_target(index as int, self.point_count() as int));
            assert forall|i: int|
                0 <= i < self.group_count() && !self.group_at(i).contains(target) implies
                #[trigger] self.samples_at(i) == og.samples_at(i) by {
                assert(self.samples_at(i) == mid.samples_at(i));
            }
        }
        Ok(())
    }

    /// Linear scan for a control point whose coordinates are within
    /// `tolerance` of `(x, y)` in both axes; on overlap the highest matching
    /// position wins, because the scan ascends and later matches overwrite
    /// earlier ones. Returns `None` when no point is near.
    pub fn find_point_near(&self, x: i64, y: i64, tolerance: i64) -> (r: Option<usize>)
        requires
            self.wf(),
            coord_ok(x),
            coord_ok(y),
            0 <= tolerance <= COORD_LIMIT,
        ensures
            match r {
                Some(i) => {
                    &&& i < self.point_count()
                    &&& near(self.points()[i as int], x as int, y as int, tolerance as int)
                    &&& forall|j: int|
                        i < j < self.point_count() ==> !near(
                            #[trigger] self.points()[j],
                            x as int,
                            y as int,
                            tolerance as int,
                        )
                },
                None => forall|j: int|
                    0 <= j < self.point_count() ==> !near(
                        #[trigger] self.points()[j],
                        x as int,
                        y as int,
                        tolerance as int,
                    ),
            },
    {
        let mut found: Option<usize> = None;
        let mut j: usize = 0;
        while j < self.control_points.len()
            invariant
                self.wf(),
                coord_ok(x),
                coord_ok(y),
                0 <= tolerance <= COORD_LIMIT,
                j <= self.point_count(),
                match found {
                    Some(i) => {
                        &&& i < j
                        &&& near(self.points()[i as int], x as int, y as int, tolerance as int)
                        &&& forall|t: int|
                            i < t < j ==> !near(
                                #[trigger] self.points()[t],
                                x as int,
                                y as int,
                                tolerance as int,
                            )
                    },
                    None => forall|t: int|
                        0 <= t < j ==> !near(
                            #[trigger] self.points()[t],
                            x as int,
                            y as int,
                            tolerance as int,
                        ),
                },
            decreases self.point_count() - j,
        {
            let p = self.control_points[j];
            assert(point_ok(p));
            let dx = p.x - x;
            let dy = p.y - y;
            if -tolerance <= dx && dx <= tolerance && -tolerance <= dy && dy <= tolerance {
                found = Some(j);
            }
            j += 1;
        }
        found
    }

    /// The control points of one group, in group order.
    pub fn points_of_group(&self, group_index: usize) -> (r: Vec<ControlPoint>)
        requires
            self.wf(),
            group_index < self.group_count(),
        ensures
            r@.len() == self.group_at(group_index as int).len(),
            forall|j: int|
                0 <= j < r@.len() ==> #[trigger] r@[j] == self.points()[self.group_at(
                    group_index as int,
                )[j] as int],
    {
        let glen = self.groups[group_index].len();
        let mut r: Vec<ControlPoint> = Vec::new();
        let mut j: usize = 0;
        while j < glen
            invariant
                self.wf(),
                group_index < self.group_count(),
                glen == self.group_at(group_index as int).len(),
                j <= glen,
                r@.len() == j,
                forall|t: int|
                    0 <= t < j ==> #[trigger] r@[t] == self.points()[self.group_at(
                        group_index as int,
                    )[t] as int],
            decreases glen - j,
        {
            let idx = self.groups[group_index][j];
            assert(idx < self.point_count());
            r.push(self.control_points[idx]);
            j += 1;
        }
        r
    }
}

/// Multiplying a blend bounded by `RESOLUTION^(len-1) * COORD_LIMIT` by the
/// group's fixed-point factor stays within `SAMPLE_SCALE * COORD_LIMIT`.
proof fn lemma_scaled_sample_fits(len: nat, v: int)
    requires
        1 <= len <= MAX_GROUP_SIZE,
        -(pow_int(RESOLUTION as int, (len - 1) as nat) * COORD_LIMIT) <= v <= pow_int(
            RESOLUTION as int,
            (len - 1) as nat,
        ) * COORD_LIMIT,
    ensures
        -(SAMPLE_SCALE * COORD_LIMIT) <= v * group_scale(len) <= SAMPLE_SCALE * COORD_LIMIT,
{
    let p = pow_int(RESOLUTION as int, (len - 1) as nat);
    let s = group_scale(len);
    lemma_pow_int_adds(RESOLUTION as int, (len - 1) as nat, (MAX_GROUP_SIZE - len) as nat);
    lemma_sample_scale();
    assert(p * s == SAMPLE_SCALE);
    crate::eval::lemma_pow_int_pos(RESOLUTION as int, (len - 1) as nat);
    crate::eval::lemma_pow_int_pos(RESOLUTION as int, (MAX_GROUP_SIZE - len) as nat);
    assert(-((p * s) * COORD_LIMIT) <= v * s <= (p * s) * COORD_LIMIT) by (nonlinear_arith)
        requires
            p >= 1,
            s >= 1,
            -(p * COORD_LIMIT) <= v <= p * COORD_LIMIT,
    ;
}

/// Every position in a group other than the very last position of the last
/// group refers to a point strictly below the last stored point.
pub proof fn lemma_nonfinal_entry(m: CurveModel, i: int, j: int)
    requires
        m.groups_wf(),
        0 <= i < m.group_count(),
        0 <= j < m.group_at(i).len(),
        !(i == m.group_count() - 1 && j == m.group_at(i).len() - 1),
    ensures
        m.group_at(i)[j] < m.point_count() - 1,
{
    let last = m.group_count() - 1;
    assert(m.group_at(i)[j] == m.group_at(i)[0] + j);
    assert(m.group_at(i).last() == m.group_at(i)[0] + (m.group_at(i).len() - 1));
    if i == last {
        assert(m.group_at(i).last() == m.point_count() - 1);
    } else {
        assert(m.group_at(i + 1)[0] == m.group_at(i).last());
        assert(m.group_at(i + 1)[0] == m.group_at(i + 1).last() - (m.group_at(i + 1).len() - 1));
        assert(m.group_at(i + 1).len() >= 2);
        assert(m.group_at(i + 1).last() <= m.group_at(last).last());
        assert(m.group_at(last).last() == m.point_count() - 1);
    }
}

/// Continuity law: in a well-formed model, every two adjacent groups share
/// exactly their boundary position — the last entry of one group is the
/// first entry of the next — so consecutive curve segments join.
pub proof fn lemma_adjacent_groups_share_boundary(m: CurveModel)
    requires
        m.wf(),
    ensures
        forall|i: int|
            0 <= i < m.group_count() - 1 ==> (#[trigger] m.gps()[i]).last() == m.gps()[i + 1][0],
{
    assert forall|i: int|
        0 <= i < m.group_count() - 1 implies (#[trigger] m.gps()[i]).last() == m.gps()[i + 1][0] by {
        assert(m.gps()[i] == m.group_at(i));
        assert(m.gps()[i + 1] == m.group_at(i + 1));
        assert(m.group_at(i + 1)[0] == m.group_at(i).last());
    }
}

/// Cache shape law: in a well-formed model there is exactly one cached
/// sample row per group, and every row holds exactly `RESOLUTION + 1`
/// sampled points.
pub proof fn lemma_cache_shape(m: CurveModel)
    requires
        m.wf(),
    ensures
        m.smps().len() == m.group_count(),
        forall|i: int| 0 <= i < m.group_count() ==> (#[trigger] m.smps()[i]).len() == RESOLUTION + 1,
{
    assert forall|i: int|
        0 <= i < m.group_count() implies (#[trigger] m.smps()[i]).len() == RESOLUTION + 1 by {
        assert(m.smps()[i] == m.samples_at(i));
    }
}

/// Endpoint exactness law: a freshly computed sample row starts at the
/// group's first control point and ends at its last control point, both
/// exactly, at the fixed-point scale.
pub proof fn lemma_row_endpoints(g: Seq<usize>, cps: Seq<ControlPoint>, row: Seq<SamplePoint>)
    requires
        row_ok(g, cps, row),
        1 <= g.len() <= MAX_GROUP_SIZE,
    ensures
        row[0].x as int == SAMPLE_SCALE * (cps[g[0] as int].x as int),
        row[0].y as int == SAMPLE_SCALE * (cps[g[0] as int].y as int),
        row[RESOLUTION as int].x as int == SAMPLE_SCALE * (cps[g.last() as int].x as int),
        row[RESOLUTION as int].y as int == SAMPLE_SCALE * (cps[g.last() as int].y as int),
{
    let xs = xs_of(g, cps);
    let ys = ys_of(g, cps);
    let p = pow_int(RESOLUTION as int, (g.len() - 1) as nat);
    let s = group_scale(g.len());
    lemma_bez_first(xs, RESOLUTION as int);
    lemma_bez_first(ys, RESOLUTION as int);
    lemma_bez_last(xs, RESOLUTION as int);
    lemma_bez_last(ys, RESOLUTION as int);
    lemma_pow_int_adds(RESOLUTION as int, (g.len() - 1) as nat, (MAX_GROUP_SIZE - g.len()) as nat);
    lemma_sample_scale();
    assert(p * s == SAMPLE_SCALE);
    assert(xs[0] == cps[g[0] as int].x as int);
    assert(ys[0] == cps[g[0] as int].y as int);
    assert(xs.last() == cps[g.last() as int].x as int);
    assert(ys.last() == cps[g.last() as int].y as int);
    assert(sample_ok(g, cps, 0, row[0]));
    assert(sample_ok(g, cps, RESOLUTION as int, row[RESOLUTION as int]));
    assert((p * xs[0]) * s == (p * s) * xs[0]) by (nonlinear_arith);
    assert((p * ys[0]) * s == (p * s) * ys[0]) by (nonlinear_arith);
    assert((p * xs.last()) * s == (p * s) * xs.last()) by (nonlinear_arith);
    assert((p * ys.last()) * s == (p * s) * ys.last()) by (nonlinear_arith);
}

} // verus!
