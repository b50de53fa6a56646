//! Points and axis-aligned boxes of the 3-D domain.
//!
//! Coordinates are unsigned fixed-point values: a driver picks the scale
//! that maps its world coordinates onto `u64`. A box is an ordered pair
//! of corners; on an axis where the low corner exceeds the high corner
//! the box wraps across the periodic seam of the domain.

use vstd::prelude::*;

verus! {

/// A point of the domain, one fixed-point coordinate per axis.
#[derive(Debug, Clone, Copy, PartialEq, Eq, Structural)]
pub struct Vec3(pub u64, pub u64, pub u64);

/// An axis-aligned box: low corner, high corner. `lo <= hi` on an axis
/// means the ordinary half-open interval `[lo, hi)`; `lo > hi` means the
/// wrapped region `[lo, MAX] union [0, hi)` on that axis.
#[derive(Debug, Clone, Copy, PartialEq, Eq, Structural)]
pub struct Bound(pub Vec3, pub Vec3);

impl Vec3 {
    /// Component-wise sum.
    pub fn add(self, rhs: Vec3) -> (r: Vec3)
        requires
            self.0 + rhs.0 <= u64::MAX,
            self.1 + rhs.1 <= u64::MAX,
            self.2 + rhs.2 <= u64::MAX,
        ensures
            r.0 == self.0 + rhs.0,
            r.1 == self.1 + rhs.1,
            r.2 == self.2 + rhs.2,
    {
        Vec3(self.0 + rhs.0, self.1 + rhs.1, self.2 + rhs.2)
    }

    /// Uniform scaling by an integer factor.
    pub fn scale(self, k: u64) -> (r: Vec3)
        requires
            self.0 * k <= u64::MAX,
            self.1 * k <= u64::MAX,
            self.2 * k <= u64::MAX,
        ensures
            r.0 == self.0 * k,
            r.1 == self.1 * k,
            r.2 == self.2 * k,
    {
        Vec3(self.0 * k, self.1 * k, self.2 * k)
    }
}

/// One axis of the containment test: the half-open interval `[lo, hi)`
/// when the axis is normal, the wrapped region when `lo > hi`.
pub open spec fn axis_in(lo: u64, hi: u64, p: u64) -> bool {
    if lo <= hi {
        lo <= p && p < hi
    } else {
        lo <= p || p < hi
    }
}

/// One axis of the overlap test. Wraparound is honored on the side of
/// `other` (the query box) only.
pub open spec fn axis_overlap(slo: u64, shi: u64, olo: u64, ohi: u64) -> bool {
    if olo <= ohi {
        olo < shi && slo < ohi
    } else {
        olo < shi || slo < ohi
    }
}

/// The floor of the average of two coordinates.
pub open spec fn mid(lo: u64, hi: u64) -> u64 {
    (((lo + hi) as int) / 2) as u64
}

impl Bound {
    /// The box is normal (not wrapped) on every axis.
    pub open spec fn spec_proper(self) -> bool {
        self.0.0 <= self.1.0 && self.0.1 <= self.1.1 && self.0.2 <= self.1.2
    }

    /// The point lies inside the box, axis by axis, honoring wraparound.
    pub open spec fn spec_in_bound(self, p: Vec3) -> bool {
        axis_in(self.0.0, self.1.0, p.0) && axis_in(self.0.1, self.1.1, p.1) && axis_in(
            self.0.2,
            self.1.2,
            p.2,
        )
    }

    /// The two boxes share some region; wraparound is honored on the side
    /// of `other` only.
    pub open spec fn spec_overlap(self, other: Bound) -> bool {
        axis_overlap(self.0.0, self.1.0, other.0.0, other.1.0) && axis_overlap(
            self.0.1,
            self.1.1,
            other.0.1,
            other.1.1,
        ) && axis_overlap(self.0.2, self.1.2, other.0.2, other.1.2)
    }

    /// The midpoint of the box, axis by axis.
    pub open spec fn spec_center(self) -> Vec3 {
        Vec3(mid(self.0.0, self.1.0), mid(self.0.1, self.1.1), mid(self.0.2, self.1.2))
    }

    /// Whether the box is normal on every axis.
    pub fn is_proper(&self) -> (r: bool)
        ensures
            r == self.spec_proper(),
    {
        self.0.0 <= self.1.0 && self.0.1 <= self.1.1 && self.0.2 <= self.1.2
    }

    /// Containment test: low-inclusive, high-exclusive on a normal axis;
    /// on a wrapped axis the point may sit on either side of the seam.
    pub fn is_in_bound(&self, pos: &Vec3) -> (r: bool)
        ensures
            r == self.spec_in_bound(*pos),
    {
        let x_cond = if self.0.0 <= self.1.0 {
            self.0.0 <= pos.0 && pos.0 < self.1.0
        } else {
            self.0.0 <= pos.0 || pos.0 < self.1.0
        };
        let y_cond = if self.0.1 <= self.1.1 {
            self.0.1 <= pos.1 && pos.1 < self.1.1
        } else {
            self.0.1 <= pos.1 || pos.1 < self.1.1
        };
        let z_cond = if self.0.2 <= self.1.2 {
            self.0.2 <= pos.2 && pos.2 < self.1.2
        } else {
            self.0.2 <= pos.2 || pos.2 < self.1.2
        };
        x_cond && y_cond && z_cond
    }

    /// Overlap test between this box and another; the seam logic follows
    /// the orientation of `other`, never of `self`.
    pub fn is_overlap(&self, other: &Bound) -> (r: bool)
        ensures
            r == self.spec_overlap(*other),
    {
        let x_cond = if other.0.0 <= other.1.0 {
            other.0.0 < self.1.0 && self.0.0 < other.1.0
        } else {
            other.0.0 < self.1.0 || self.0.0 < other.1.0
        };
        let y_cond = if other.0.1 <= other.1.1 {
            other.0.1 < self.1.1 && self.0.1 < other.1.1
        } else {
            other.0.1 < self.1.1 || self.0.1 < other.1.1
        };
        let z_cond = if other.0.2 <= other.1.2 {
            other.0.2 < self.1.2 && self.0.2 < other.1.2
        } else {
            other.0.2 < self.1.2 || self.0.2 < other.1.2
        };
        x_cond && y_cond && z_cond
    }

    /// The center used to split the box into octants.
    pub fn subdivision_center(&self) -> (c: Vec3)
        ensures
            c == self.spec_center(),
    {
        Vec3(mid_u64(self.0.0, self.1.0), mid_u64(self.0.1, self.1.1), mid_u64(self.0.2, self.1.2))
    }

    /// The sub-box a point falls into when this box is split at `center`:
    /// on each axis, the low half `[lo, center)` when the point is below
    /// the center, the high half `[center, hi)` otherwise.
    pub open spec fn spec_subdivision_bound(self, center: Vec3, pos: Vec3) -> Bound {
        Bound(
            Vec3(
                if pos.0 < center.0 {
                    self.0.0
                } else {
                    center.0
                },
                if pos.1 < center.1 {
                    self.0.1
                } else {
                    center.1
                },
                if pos.2 < center.2 {
                    self.0.2
                } else {
                    center.2
                },
            ),
            Vec3(
                if pos.0 < center.0 {
                    center.0
                } else {
                    self.1.0
                },
                if pos.1 < center.1 {
                    center.1
                } else {
                    self.1.1
                },
                if pos.2 < center.2 {
                    center.2
                } else {
                    self.1.2
                },
            ),
        )
    }

    /// Executable form of [`Bound::spec_subdivision_bound`].
    pub fn subdivision_bound(&self, center: &Vec3, pos: &Vec3) -> (r: Bound)
        ensures
            r == self.spec_subdivision_bound(*center, *pos),
    {
        let x = if pos.0 < center.0 {
            (self.0.0, center.0)
        } else {
            (center.0, self.1.0)
        };
        let y = if pos.1 < center.1 {
            (self.0.1, center.1)
        } else {
            (center.1, self.1.1)
        };
        let z = if pos.2 < center.2 {
            (self.0.2, center.2)
        } else {
            (center.2, self.1.2)
        };
        Bound(Vec3(x.0, y.0, z.0), Vec3(x.1, y.1, z.1))
    }
}

/// The octant code of a point relative to a center: bit 0 set when the
/// point sits at or above the center on the x axis, bit 1 for y, bit 2
/// for z. Ties resolve to the high side, so insertion is deterministic.
pub open spec fn oct_index(center: Vec3, pos: Vec3) -> int {
    (if pos.0 < center.0 {
        0int
    } else {
        1int
    }) + (if pos.1 < center.1 {
        0int
    } else {
        2int
    }) + (if pos.2 < center.2 {
        0int
    } else {
        4int
    })
}

/// The sub-box of `b` for one octant, by the high/low choice on each axis.
pub open spec fn oct_halves(b: Bound, xh: bool, yh: bool, zh: bool) -> Bound {
    let c = b.spec_center();
    Bound(
        Vec3(
            if xh {
                c.0
            } else {
                b.0.0
            },
            if yh {
                c.1
            } else {
                b.0.1
            },
            if zh {
                c.2
            } else {
                b.0.2
            },
        ),
        Vec3(
            if xh {
                b.1.0
            } else {
                c.0
            },
            if yh {
                b.1.1
            } else {
                c.1
            },
            if zh {
                b.1.2
            } else {
                c.2
            },
        ),
    )
}

/// The sub-box of `b` that octant `k` of `b` covers.
pub open spec fn oct_bound(b: Bound, k: int) -> Bound {
    oct_halves(b, k % 2 == 1, (k / 2) % 2 == 1, (k / 4) % 2 == 1)
}

/// The octant a point falls into when a box centered at `center` is split.
pub fn subdivision_index(center: &Vec3, position: &Vec3) -> (k: usize)
    ensures
        k == oct_index(*center, *position),
        k < 8,
{
    let index_x: usize = if position.0 < center.0 {
        0
    } else {
        1
    };
    let index_y: usize = if position.1 < center.1 {
        0
    } else {
        2
    };
    let index_z: usize = if position.2 < center.2 {
        0
    } else {
        4
    };
    index_x + index_y + index_z
}

/// The total edge length of a proper box, the measure that shrinks as the
/// tree subdivides.
pub open spec fn width_sum(b: Bound) -> int {
    (b.1.0 - b.0.0) + (b.1.1 - b.0.1) + (b.1.2 - b.0.2)
}

/// The midpoint of a normal interval lies inside it, and strictly so once
/// the interval is at least two coordinates wide.
pub proof fn lemma_mid_halves(lo: u64, hi: u64)
    requires
        lo <= hi,
    ensures
        lo <= mid(lo, hi) <= hi,
        hi - lo >= 2 ==> lo < mid(lo, hi) && mid(lo, hi) < hi,
{
    vstd::arithmetic::div_mod::lemma_fundamental_div_mod(lo as int + hi as int, 2);
}

/// Splitting a proper box yields eight proper sub-boxes.
pub proof fn lemma_oct_bound_proper(b: Bound, k: int)
    requires
        b.spec_proper(),
    ensures
        oct_bound(b, k).spec_proper(),
{
    lemma_mid_halves(b.0.0, b.1.0);
    lemma_mid_halves(b.0.1, b.1.1);
    lemma_mid_halves(b.0.2, b.1.2);
}

/// A point of a proper box lies in the octant its code names, and the
/// split rule produces exactly that octant's sub-box.
pub proof fn lemma_octant_of_point(b: Bound, p: Vec3)
    requires
        b.spec_proper(),
        b.spec_in_bound(p),
    ensures
        0 <= oct_index(b.spec_center(), p) < 8,
        b.spec_subdivision_bound(b.spec_center(), p) == oct_bound(
            b,
            oct_index(b.spec_center(), p),
        ),
        oct_bound(b, oct_index(b.spec_center(), p)).spec_in_bound(p),
{
    lemma_mid_halves(b.0.0, b.1.0);
    lemma_mid_halves(b.0.1, b.1.1);
    lemma_mid_halves(b.0.2, b.1.2);
}

/// Every octant of a proper box stays within the box.
pub proof fn lemma_oct_bound_subset(b: Bound, k: int, p: Vec3)
    requires
        b.spec_proper(),
        oct_bound(b, k).spec_in_bound(p),
    ensures
        b.spec_in_bound(p),
{
    lemma_mid_halves(b.0.0, b.1.0);
    lemma_mid_halves(b.0.1, b.1.1);
    lemma_mid_halves(b.0.2, b.1.2);
}

/// Consistency of containment and overlap: a box holding a point overlaps
/// every box that contains that point, whether or not the other box wraps.
pub proof fn lemma_in_bound_overlap(b: Bound, q: Bound, p: Vec3)
    requires
        b.spec_proper(),
        b.spec_in_bound(p),
        q.spec_in_bound(p),
    ensures
        b.spec_overlap(q),
{
}

/// Once a proper box holds two points with distinct positions, each of its
/// octants is strictly narrower than the box itself.
pub proof fn lemma_octant_width(b: Bound, k: int, p1: Vec3, p2: Vec3)
    requires
        b.spec_proper(),
        b.spec_in_bound(p1),
        b.spec_in_bound(p2),
        p1 != p2,
    ensures
        0 <= width_sum(oct_bound(b, k)),
        width_sum(oct_bound(b, k)) < width_sum(b),
{
    lemma_mid_halves(b.0.0, b.1.0);
    lemma_mid_halves(b.0.1, b.1.1);
    lemma_mid_halves(b.0.2, b.1.2);
    if p1.0 != p2.0 {
        assert(b.1.0 - b.0.0 >= 2);
    } else if p1.1 != p2.1 {
        assert(b.1.1 - b.0.1 >= 2);
    } else {
        assert(p1.2 != p2.2);
        assert(b.1.2 - b.0.2 >= 2);
    }
}

/// The floor of the average, computed without overflowing.
fn mid_u64(lo: u64, hi: u64) -> (m: u64)
    ensures
        m == mid(lo, hi),
{
    let carry: u64 = if lo % 2 == 1 && hi % 2 == 1 {
        1
    } else {
        0
    };
    proof {
        vstd::arithmetic::div_mod::lemma_fundamental_div_mod(lo as int, 2);
        vstd::arithmetic::div_mod::lemma_fundamental_div_mod(hi as int, 2);
        vstd::arithmetic::div_mod::lemma_fundamental_div_mod(lo as int + hi as int, 2);
    }
    lo / 2 + hi / 2 + carry
}

} // verus!
