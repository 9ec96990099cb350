//! `ZRange`: a half-open box `[start, end)` of Z-space, and the region algebra
//! on such boxes.
use vstd::prelude::*;
use vstd::arithmetic::power2::{pow2, lemma_pow2_unfold, lemma_pow2_pos, lemma2_to64};
use vstd::arithmetic::div_mod::{lemma_div_denominator, lemma_fundamental_div_mod};

use crate::coords::{array_get, array_set, array_len};
use crate::point::{ZPoint, ZOp, all_le, filled, is_combination, combinable, has_greater, point_order};
use std::cmp::Ordering;
use crate::ZDim;

verus! {

/// The box `{p : start[i] <= p[i] < end[i] for all i}`.
#[derive(Debug)]
pub struct ZRange {
    pub start: ZPoint,
    pub end: ZPoint,
}

/// The extent of each dimension, `e[i] - s[i]`.
pub open spec fn extents(s: Seq<i32>, e: Seq<i32>) -> Seq<int> {
    Seq::new(s.len(), |i: int| e[i] - s[i])
}

/// The product of a sequence of integers (1 when empty).
pub open spec fn product(x: Seq<int>) -> int
    decreases x.len(),
{
    if x.len() == 0 {
        1
    } else {
        product(x.drop_last()) * x.last()
    }
}

/// Some dimension has zero extent.
pub open spec fn has_flat(s: Seq<i32>, e: Seq<i32>) -> bool {
    exists|i: int| 0 <= i < s.len() && s[i] == e[i]
}

/// In every dimension `s[i] < e[i]` and `s[i] <= p[i] - d <= e[i]`: the
/// containment rule, for the point `p` shifted down by `d`.
pub open spec fn box_contains(s: Seq<i32>, e: Seq<i32>, p: Seq<i32>, d: int) -> bool {
    forall|i: int| 0 <= i < s.len() ==> s[i] < e[i] && s[i] <= p[i] - d <= e[i]
}

impl ZRange {
    /// Equal dimensionality and `start <= end` in every dimension.
    pub open spec fn wf(&self) -> bool {
        all_le(self.start@, self.end@)
    }

    /// The number of points of the box.
    pub open spec fn spec_size(&self) -> int {
        product(extents(self.start@, self.end@))
    }

    /// The box holds no point.
    pub open spec fn spec_is_empty(&self) -> bool {
        has_flat(self.start@, self.end@)
    }

    /// The end of the canonical form: the start when the box is empty.
    pub open spec fn norm_end(&self) -> Seq<i32> {
        if self.spec_is_empty() { self.start@ } else { self.end@ }
    }
}

/// The product is non-negative, and zero exactly when a factor is zero.
pub proof fn lemma_product_zero(x: Seq<int>)
    requires
        forall|i: int| 0 <= i < x.len() ==> x[i] >= 0,
    ensures
        product(x) >= 0,
        product(x) == 0 <==> exists|i: int| 0 <= i < x.len() && x[i] == 0,
    decreases x.len(),
{
    if x.len() > 0 {
        let y = x.drop_last();
        lemma_product_zero(y);
        assert(product(y) * x.last() >= 0) by (nonlinear_arith)
            requires product(y) >= 0, x.last() >= 0;
        if product(x) == 0 {
            assert(product(y) == 0 || x.last() == 0) by (nonlinear_arith)
                requires product(y) * x.last() == 0;
            if product(y) == 0 {
                let i = choose|i: int| 0 <= i < y.len() && y[i] == 0;
                assert(x[i] == 0);
            } else {
                assert(x[x.len() - 1] == 0);
            }
        }
        if exists|i: int| 0 <= i < x.len() && x[i] == 0 {
            let i = choose|i: int| 0 <= i < x.len() && x[i] == 0;
            if i < x.len() - 1 {
                assert(y[i] == 0);
            }
        }
    }
}

/// With every factor at least one, a prefix's product is at most the whole's.
proof fn lemma_product_prefix(x: Seq<int>, j: int)
    requires
        0 <= j <= x.len(),
        forall|i: int| 0 <= i < x.len() ==> x[i] >= 1,
    ensures
        1 <= product(x.take(j)) <= product(x),
    decreases x.len(),
{
    if x.len() == 0 {
        assert(x.take(j) =~= x);
    } else if j == x.len() {
        assert(x.take(j) =~= x);
        lemma_product_prefix(x.drop_last(), j - 1);
        assert(x.drop_last().take(j - 1) =~= x.drop_last().take(j - 1));
        let p = product(x.drop_last());
        assert(p * x.last() >= 1) by (nonlinear_arith)
            requires p >= 1, x.last() >= 1;
    } else {
        lemma_product_prefix(x.drop_last(), j);
        assert(x.drop_last().take(j) =~= x.take(j));
        let p = product(x.drop_last());
        assert(p <= p * x.last()) by (nonlinear_arith)
            requires p >= 1, x.last() >= 1;
    }
}

impl Clone for ZRange {
    fn clone(&self) -> (r: Self)
        ensures
            r.start@ == self.start@,
            r.end@ == self.end@,
    {
        ZRange { start: self.start.clone(), end: self.end.clone() }
    }
}

impl PartialEq for ZRange {
    /// Equal starts and equal ends.
    fn eq(&self, other: &ZRange) -> (r: bool) {
        self.start == other.start && self.end == other.end
    }
}

impl vstd::std_specs::cmp::PartialEqSpecImpl for ZRange {
    open spec fn obeys_eq_spec() -> bool {
        true
    }

    open spec fn eq_spec(&self, other: &ZRange) -> bool {
        self.start@ == other.start@ && self.end@ == other.end@
    }
}

impl Eq for ZRange {
}

impl ZDim for ZRange {
    open spec fn spec_ndim(&self) -> nat {
        self.start@.len()
    }

    fn ndim(&self) -> (r: usize) {
        self.start.ndim()
    }
}

impl ZRange {
    /// The box `[start, end)`; `start <= end` in every dimension.
    pub fn between(start: &ZPoint, end: &ZPoint) -> (r: ZRange)
        requires
            all_le(start@, end@),
        ensures
            r.wf(),
            r.start@ == start@,
            r.end@ == end@,
    {
        ZRange { start: start.clone(), end: end.clone() }
    }

    /// The box `[start, end)`, or `None` when the dimensionalities differ or
    /// some `start[i] > end[i]`.
    pub fn try_between(start: &ZPoint, end: &ZPoint) -> (r: Option<ZRange>)
        ensures
            r is None <==> !all_le(start@, end@),
            r matches Some(b) ==> b.wf() && b.start@ == start@ && b.end@ == end@,
    {
        let n = array_len(&start.coords);
        if n != array_len(&end.coords) {
            return None;
        }
        let mut i: usize = 0;
        while i < n
            invariant
                n == start@.len(),
                n == end@.len(),
                i <= n,
                forall|j: int| 0 <= j < i ==> start@[j] <= end@[j],
            decreases n - i,
        {
            if array_get(&start.coords, i) > array_get(&end.coords, i) {
                return None;
            }
            i += 1;
        }
        Some(ZRange::between(start, end))
    }

    /// The last point of a non-empty box: `end - 1`.
    pub fn inclusive_end(&self) -> (r: ZPoint)
        requires
            self.wf(),
            !self.spec_is_empty(),
        ensures
            r@.len() == self.end@.len(),
            forall|i: int| 0 <= i < r@.len() ==> r@[i] == self.end@[i] - 1,
    {
        assert forall|i: int| 0 <= i < self.end@.len() implies self.end@[i] > self.start@[i] by {
            if self.end@[i] == self.start@[i] {
                assert(has_flat(self.start@, self.end@));
            }
        }
        let r = self.end.combine_scalar(1, ZOp::Sub);
        assert(is_combination(ZOp::Sub, self.end@, filled(self.end@.len(), 1), r@));
        r
    }

    /// The empty box `[zeros(ndim), zeros(ndim))`.
    pub fn zeros(ndim: usize) -> (r: ZRange)
        requires
            ndim <= isize::MAX / 4,
        ensures
            r.wf(),
            r.start@ == filled(ndim as nat, 0),
            r.end@ == filled(ndim as nat, 0),
    {
        let start = ZPoint::zeros(ndim);
        ZRange::between(&start, &start)
    }

    /// The box `[0, shape)`; `shape` is non-negative.
    pub fn from_shape(shape: &ZPoint) -> (r: ZRange)
        requires
            forall|i: int| 0 <= i < shape@.len() ==> shape@[i] >= 0,
        ensures
            r.wf(),
            r.start@ == filled(shape@.len(), 0),
            r.end@ == shape@,
    {
        ZRange::between(&ZPoint::zeros_like(shape), shape)
    }

    /// The box moved by `offset`: `[start + offset, end + offset)`.
    pub fn translate(&self, offset: &ZPoint) -> (r: ZRange)
        requires
            self.wf(),
            combinable(ZOp::Add, self.start@, offset@),
            combinable(ZOp::Add, self.end@, offset@),
        ensures
            r.wf(),
            is_combination(ZOp::Add, self.start@, offset@, r.start@),
            is_combination(ZOp::Add, self.end@, offset@, r.end@),
    {
        let s = self.start.add(offset);
        let e = self.end.add(offset);
        ZRange::between(&s, &e)
    }

    /// The extents `end - start`.
    pub fn shape(&self) -> (r: ZPoint)
        requires
            self.wf(),
            combinable(ZOp::Sub, self.end@, self.start@),
        ensures
            r@.len() == self.start@.len(),
            forall|i: int| 0 <= i < r@.len() ==> r@[i] == extents(self.start@, self.end@)[i],
    {
        self.end.sub(&self.start)
    }

    /// Whether the box is empty: some dimension has zero extent, which is to
    /// say its size is zero.
    pub fn is_empty(&self) -> (r: bool)
        requires
            self.wf(),
        ensures
            r == self.spec_is_empty(),
            r == (self.spec_size() == 0),
    {
        proof {
            lemma_product_zero(extents(self.start@, self.end@));
            if self.spec_size() == 0 {
                let i = choose|i: int|
                    0 <= i < self.start@.len() && extents(self.start@, self.end@)[i] == 0;
                assert(self.start@[i] == self.end@[i]);
            }
            if self.spec_is_empty() {
                let i = choose|i: int| 0 <= i < self.start@.len() && self.start@[i] == self.end@[i];
                assert(extents(self.start@, self.end@)[i] == 0);
            }
        }
        let n = array_len(&self.start.coords);
        let mut i: usize = 0;
        while i < n
            invariant
                self.wf(),
                self.spec_is_empty() == (self.spec_size() == 0),
                n == self.start@.len(),
                i <= n,
                forall|j: int| 0 <= j < i ==> self.start@[j] != self.end@[j],
            decreases n - i,
        {
            if array_get(&self.start.coords, i) == array_get(&self.end.coords, i) {
                return true;
            }
            i += 1;
        }
        false
    }

    /// Whether the box holds at least one point.
    pub fn is_not_empty(&self) -> (r: bool)
        requires
            self.wf(),
        ensures
            r == !self.spec_is_empty(),
            r == (self.spec_size() != 0),
    {
        !self.is_empty()
    }

    /// The number of points: the product of the extents.
    pub fn size(&self) -> (r: usize)
        requires
            self.wf(),
            self.spec_size() <= usize::MAX,
        ensures
            r == self.spec_size(),
    {
        if self.is_empty() {
            return 0;
        }
        let ghost x = extents(self.start@, self.end@);
        proof {
            assert forall|i: int| 0 <= i < x.len() implies x[i] >= 1 by {
                if x[i] == 0 {
                    assert(self.start@[i] == self.end@[i]);
                }
            }
        }
        let n = array_len(&self.start.coords);
        let mut acc: usize = 1;
        let mut i: usize = 0;
        while i < n
            invariant
                self.wf(),
                n == self.start@.len(),
                x == extents(self.start@, self.end@),
                forall|j: int| 0 <= j < x.len() ==> x[j] >= 1,
                product(x) <= usize::MAX,
                i <= n,
                acc == product(x.take(i as int)),
            decreases n - i,
        {
            let s = array_get(&self.start.coords, i);
            let e = array_get(&self.end.coords, i);
            let ext = (e as i64 - s as i64) as usize;
            proof {
                lemma_product_prefix(x, i + 1);
                assert(x.take(i + 1).drop_last() =~= x.take(i as int));
                assert(x.take(i + 1).last() == x[i as int]);
            }
            acc = acc * ext;
            i += 1;
        }
        proof {
            assert(x.take(n as int) =~= x);
        }
        acc
    }

    /// The canonical form: `[start, start)` for an empty box, the box itself
    /// otherwise.
    pub fn normalize(&self) -> (r: ZRange)
        requires
            self.wf(),
        ensures
            r.wf(),
            r.start@ == self.start@,
            r.end@ == self.norm_end(),
    {
        if self.is_empty() {
            ZRange { start: self.start.clone(), end: self.start.clone() }
        } else {
            self.clone()
        }
    }

    /// The `(start[i], end[i])` pairs, by dimension.
    pub fn dim_iter(&self) -> (r: Vec<(i32, i32)>)
        requires
            self.wf(),
        ensures
            r@.len() == self.start@.len(),
            forall|i: int| 0 <= i < r@.len() ==> r@[i] == (self.start@[i], self.end@[i]),
    {
        let n = array_len(&self.start.coords);
        let mut r: Vec<(i32, i32)> = Vec::new();
        let mut i: usize = 0;
        while i < n
            invariant
                self.wf(),
                n == self.start@.len(),
                i <= n,
                r@.len() == i,
                forall|j: int| 0 <= j < i ==> r@[j] == (self.start@[j], self.end@[j]),
            decreases n - i,
        {
            r.push((array_get(&self.start.coords, i), array_get(&self.end.coords, i)));
            i += 1;
        }
        r
    }

    /// The containment rule for `point` shifted down by `d` (0 or 1).
    fn contains_shifted(&self, point: &ZPoint, d: i64) -> (r: bool)
        requires
            self.wf(),
            point@.len() == self.start@.len(),
            0 <= d <= 1,
        ensures
            r == box_contains(self.start@, self.end@, point@, d as int),
    {
        let n = array_len(&self.start.coords);
        let mut i: usize = 0;
        while i < n
            invariant
                self.wf(),
                n == self.start@.len(),
                point@.len() == n,
                i <= n,
                0 <= d <= 1,
                forall|j: int| 0 <= j < i ==> {
                    &&& self.start@[j] < self.end@[j]
                    &&& self.start@[j] <= point@[j] - d <= self.end@[j]
                },
            decreases n - i,
        {
            let s = array_get(&self.start.coords, i) as i64;
            let e = array_get(&self.end.coords, i) as i64;
            let p = array_get(&point.coords, i) as i64 - d;
            if !(s < e && s <= p && p <= e) {
                return false;
            }
            i += 1;
        }
        true
    }

    /// In every dimension `start[i] < end[i]` and `start[i] <= point[i] <= end[i]`
    /// (the upper bound included).
    pub fn contains(&self, point: &ZPoint) -> (r: bool)
        requires
            self.wf(),
            point@.len() == self.start@.len(),
        ensures
            r == box_contains(self.start@, self.end@, point@, 0),
    {
        self.contains_shifted(point, 0)
    }

    /// Whether this box contains `other.start` and `other.end - 1`.
    pub fn contains_range(&self, other: &ZRange) -> (r: bool)
        requires
            self.wf(),
            other.wf(),
            other.start@.len() == self.start@.len(),
        ensures
            r == (box_contains(self.start@, self.end@, other.start@, 0) && box_contains(
                self.start@,
                self.end@,
                other.end@,
                1,
            )),
    {
        self.contains_shifted(&other.start, 0) && self.contains_shifted(&other.end, 1)
    }
}

/// Whether child `k` of a split over the first `m` dimensions takes the upper
/// side `[pivot[d], end[d])` of dimension `d`: bit `m - 1 - d` of `k`, so that
/// dimension 0 is the most significant choice.
pub open spec fn upper_side(k: int, m: nat, d: int) -> bool {
    (k / (pow2((m - 1 - d) as nat) as int)) % 2 == 1
}

/// The start of child `k` of the split of `[s, e)` at `p` over the first `m`
/// dimensions.
pub open spec fn split_start(s: Seq<i32>, p: Seq<i32>, k: int, m: nat) -> Seq<i32> {
    Seq::new(s.len(), |d: int| if d < m && upper_side(k, m, d) { p[d] } else { s[d] })
}

/// The end of child `k` of the split of `[s, e)` at `p` over the first `m`
/// dimensions.
pub open spec fn split_end(e: Seq<i32>, p: Seq<i32>, k: int, m: nat) -> Seq<i32> {
    Seq::new(e.len(), |d: int| if d < m && !upper_side(k, m, d) { p[d] } else { e[d] })
}

/// Appending choice `b` to the children index `j` over `m` dimensions keeps
/// the earlier choices and makes `b` the choice for dimension `m`.
proof fn lemma_upper_side_step(j: int, b: int, m: nat, d: int)
    requires
        0 <= j,
        0 <= b <= 1,
        0 <= d <= m,
    ensures
        upper_side(2 * j + b, m + 1, d) == if d == m {
            b == 1
        } else {
            upper_side(j, m, d)
        },
{
    if d == m {
        lemma2_to64();
        assert(((m + 1) - 1 - d) as nat == 0);
        assert(pow2(0) == 1);
        assert((2 * j + b) / 1 == 2 * j + b);
        assert((2 * j + b) % 2 == b);
    } else {
        let e = (m - d) as nat;
        lemma_pow2_unfold(e);
        lemma_pow2_pos((e - 1) as nat);
        let q = pow2((e - 1) as nat) as int;
        assert(((m + 1) - 1 - d) as nat == e);
        assert((m - 1 - d) as nat == (e - 1) as nat);
        lemma_div_denominator(2 * j + b, 2, q);
        assert((2 * j + b) / 2 == j);
        assert(pow2(e) as int == 2 * q);
        assert((2 * j + b) / (pow2(e) as int) == j / q);
    }
}

impl ZRange {
    /// All `2^ndim` children of the box split at `pivot`: child `k` takes, in
    /// dimension `d`, the lower part `[start[d], pivot[d])` or the upper part
    /// `[pivot[d], end[d])` as bit `ndim - 1 - d` of `k` is 0 or 1. Empty and
    /// repeated children are kept.
    pub fn split_trivial(&self, pivot: &ZPoint) -> (r: Vec<ZRange>)
        requires
            self.wf(),
            all_le(self.start@, pivot@),
            all_le(pivot@, self.end@),
        ensures
            r@.len() == pow2(self.start@.len()),
            forall|k: int|
                0 <= k < r@.len() ==> {
                    &&& (#[trigger] r@[k]).wf()
                    &&& r@[k].start@ == split_start(self.start@, pivot@, k, self.start@.len())
                    &&& r@[k].end@ == split_end(self.end@, pivot@, k, self.start@.len())
                },
            views(r@) == split_children(self.start@, self.end@, pivot@),
    {
        let ghost s = self.start@;
        let ghost e = self.end@;
        let ghost pv = pivot@;
        let n = array_len(&pivot.coords);
        let mut children: Vec<ZRange> = Vec::new();
        children.push(self.clone());
        proof {
            lemma2_to64();
            assert(split_start(s, pv, 0, 0) =~= s);
            assert(split_end(e, pv, 0, 0) =~= e);
        }
        let mut dim: usize = 0;
        while dim < n
            invariant
                n == s.len(),
                s.len() == e.len(),
                pv == pivot@,
                pv.len() == s.len(),
                all_le(s, pv),
                all_le(pv, e),
                dim <= n,
                children@.len() == pow2(dim as nat),
                forall|k: int|
                    0 <= k < children@.len() ==> {
                        &&& (#[trigger] children@[k]).wf()
                        &&& children@[k].start@ == split_start(s, pv, k, dim as nat)
                        &&& children@[k].end@ == split_end(e, pv, k, dim as nat)
                    },
            decreases n - dim,
        {
            let p = pivot.get(dim);
            let mut next: Vec<ZRange> = Vec::new();
            let mut j: usize = 0;
            while j < children.len()
                invariant
                    n == s.len(),
                    s.len() == e.len(),
                    pv == pivot@,
                    pv.len() == s.len(),
                    all_le(s, pv),
                    all_le(pv, e),
                    dim < n,
                    p == pv[dim as int],
                    j <= children@.len(),
                    next@.len() == 2 * j,
                    forall|k: int|
                        0 <= k < children@.len() ==> {
                            &&& (#[trigger] children@[k]).wf()
                            &&& children@[k].start@ == split_start(s, pv, k, dim as nat)
                            &&& children@[k].end@ == split_end(e, pv, k, dim as nat)
                        },
                    forall|k: int|
                        0 <= k < next@.len() ==> {
                            &&& (#[trigger] next@[k]).wf()
                            &&& next@[k].start@ == split_start(s, pv, k, (dim + 1) as nat)
                            &&& next@[k].end@ == split_end(e, pv, k, (dim + 1) as nat)
                        },
                decreases children@.len() - j,
            {
                let child = &children[j];
                let mut left = child.clone();
                let mut right = child.clone();
                array_set(&mut left.end.coords, dim, p);
                array_set(&mut right.start.coords, dim, p);
                proof {
                    let m = dim as nat;
                    assert(child.start@ == split_start(s, pv, j as int, m));
                    assert(child.end@ == split_end(e, pv, j as int, m));
                    let k0 = 2 * j as int;
                    assert forall|d: int| 0 <= d < s.len() implies
                        left.start@[d] == split_start(s, pv, k0, m + 1)[d]
                        && left.end@[d] == split_end(e, pv, k0, m + 1)[d]
                        && right.start@[d] == split_start(s, pv, k0 + 1, m + 1)[d]
                        && right.end@[d] == split_end(e, pv, k0 + 1, m + 1)[d] by {
                        if d <= m {
                            lemma_upper_side_step(j as int, 0, m, d);
                            lemma_upper_side_step(j as int, 1, m, d);
                        }
                    }
                    assert(left.start@ =~= split_start(s, pv, 2 * j, m + 1));
                    assert(left.end@ =~= split_end(e, pv, 2 * j, m + 1));
                    assert(right.start@ =~= split_start(s, pv, 2 * j + 1, m + 1));
                    assert(right.end@ =~= split_end(e, pv, 2 * j + 1, m + 1));
                }
                next.push(left);
                next.push(right);
                j += 1;
            }
            proof {
                lemma_pow2_unfold((dim + 1) as nat);
            }
            children = next;
            dim += 1;
        }
        proof {
            assert(views(children@) =~= split_children(s, e, pv));
        }
        children
    }

    /// The non-empty children of `split_trivial(pivot)`, in the same order.
    pub fn split(&self, pivot: &ZPoint) -> (r: Vec<ZRange>)
        requires
            self.wf(),
            all_le(self.start@, pivot@),
            all_le(pivot@, self.end@),
        ensures
            views(r@) == split_children(self.start@, self.end@, pivot@).filter(
                |c: (Seq<i32>, Seq<i32>)| !has_flat(c.0, c.1),
            ),
            forall|k: int| 0 <= k < r@.len() ==> (#[trigger] r@[k]).wf(),
    {
        let all = self.split_trivial(pivot);
        let mut r: Vec<ZRange> = Vec::new();
        let mut i: usize = 0;
        while i < all.len()
            invariant
                i <= all@.len(),
                forall|k: int| 0 <= k < all@.len() ==> (#[trigger] all@[k]).wf(),
                forall|k: int| 0 <= k < r@.len() ==> (#[trigger] r@[k]).wf(),
                views(r@) == views(all@).take(i as int).filter(
                    |c: (Seq<i32>, Seq<i32>)| !has_flat(c.0, c.1),
                ),
            decreases all@.len() - i,
        {
            let ghost before = views(all@).take(i as int);
            proof {
                assert(views(all@).take(i + 1).drop_last() =~= before);
                reveal(Seq::filter);
            }
            let ghost old_r = r;
            if all[i].is_not_empty() {
                r.push(all[i].clone());
                proof {
                    assert(views(r@) =~= views(old_r@).push(view_of(all@[i as int])));
                }
            }
            i += 1;
        }
        proof {
            assert(views(all@).take(all@.len() as int) =~= views(all@));
        }
        r
    }
}

/// The children of the split of `[s, e)` at `p`, as (start, end) pairs.
pub open spec fn split_children(s: Seq<i32>, e: Seq<i32>, p: Seq<i32>) -> Seq<(Seq<i32>, Seq<i32>)> {
    Seq::new(pow2(s.len()), |k: int| (split_start(s, p, k, s.len()), split_end(e, p, k, s.len())))
}

/// The start and end coordinates of a box.
pub open spec fn view_of(c: ZRange) -> (Seq<i32>, Seq<i32>) {
    (c.start@, c.end@)
}

/// The start and end coordinates of each box.
pub open spec fn views(cs: Seq<ZRange>) -> Seq<(Seq<i32>, Seq<i32>)> {
    cs.map_values(|c: ZRange| view_of(c))
}

/// The number of chunks of size `cs` that cover an extent `ext`: the whole
/// chunks, and one more for a remainder.
pub open spec fn chunk_count(ext: int, cs: int) -> int {
    ext / cs + if ext % cs > 0 { 1int } else { 0int }
}

/// Coordinatewise minimum.
pub open spec fn seq_min(a: Seq<i32>, b: Seq<i32>) -> Seq<i32> {
    Seq::new(a.len(), |i: int| if a[i] <= b[i] { a[i] } else { b[i] })
}

/// Coordinatewise maximum.
pub open spec fn seq_max(a: Seq<i32>, b: Seq<i32>) -> Seq<i32> {
    Seq::new(a.len(), |i: int| if a[i] >= b[i] { a[i] } else { b[i] })
}

/// `v` is the least start coordinate `d` among the first `m` boxes.
pub open spec fn least_start(rs: Seq<ZRange>, m: int, d: int, v: i32) -> bool {
    &&& forall|j: int| 0 <= j < m ==> v <= (#[trigger] rs[j]).start@[d]
    &&& exists|j: int| 0 <= j < m && v == (#[trigger] rs[j]).start@[d]
}

/// `v` is the greatest canonical end coordinate `d` among the first `m` boxes.
pub open spec fn greatest_end(rs: Seq<ZRange>, m: int, d: int, v: i32) -> bool {
    &&& forall|j: int| 0 <= j < m ==> v >= (#[trigger] rs[j]).norm_end()[d]
    &&& exists|j: int| 0 <= j < m && v == (#[trigger] rs[j]).norm_end()[d]
}

/// Boxes of one dimensionality `n`, each well formed.
pub open spec fn uniform(rs: Seq<ZRange>, n: nat) -> bool {
    forall|j: int| 0 <= j < rs.len() ==> (#[trigger] rs[j]).wf() && rs[j].start@.len() == n
}

/// Coordinatewise minimum of two points of equal dimensionality.
fn point_min(a: &ZPoint, b: &ZPoint) -> (r: ZPoint)
    requires
        a@.len() == b@.len(),
    ensures
        r@ == seq_min(a@, b@),
{
    let n = array_len(&a.coords);
    let mut v: Vec<i32> = Vec::new();
    let mut i: usize = 0;
    while i < n
        invariant
            n == a@.len(),
            n == b@.len(),
            i <= n,
            v@ =~= seq_min(a@, b@).take(i as int),
        decreases n - i,
    {
        let x = array_get(&a.coords, i);
        let y = array_get(&b.coords, i);
        v.push(if x <= y { x } else { y });
        i += 1;
    }
    assert(v@ =~= seq_min(a@, b@));
    ZPoint::from(v)
}

/// Coordinatewise maximum of two points of equal dimensionality.
fn point_max(a: &ZPoint, b: &ZPoint) -> (r: ZPoint)
    requires
        a@.len() == b@.len(),
    ensures
        r@ == seq_max(a@, b@),
{
    let n = array_len(&a.coords);
    let mut v: Vec<i32> = Vec::new();
    let mut i: usize = 0;
    while i < n
        invariant
            n == a@.len(),
            n == b@.len(),
            i <= n,
            v@ =~= seq_max(a@, b@).take(i as int),
        decreases n - i,
    {
        let x = array_get(&a.coords, i);
        let y = array_get(&b.coords, i);
        v.push(if x >= y { x } else { y });
        i += 1;
    }
    assert(v@ =~= seq_max(a@, b@));
    ZPoint::from(v)
}

impl ZRange {
    /// The box cut along dimension `dim` into consecutive boxes of extent
    /// `chunk_size`, the last one holding what remains; the other dimensions
    /// are kept. Chunk `k` spans `[start[dim] + k * chunk_size,
    /// min(start[dim] + (k + 1) * chunk_size, end[dim]))`.
    pub fn chunk_dim(&self, dim: usize, chunk_size: usize) -> (r: Vec<ZRange>)
        requires
            self.wf(),
            !self.spec_is_empty(),
            dim < self.start@.len(),
            chunk_size > 0,
        ensures
            r@.len() == chunk_count(
                self.end@[dim as int] - self.start@[dim as int],
                chunk_size as int,
            ),
            forall|k: int|
                0 <= k < r@.len() ==> {
                    &&& (#[trigger] r@[k]).wf()
                    &&& r@[k].start@ == self.start@.update(
                        dim as int,
                        (self.start@[dim as int] + k * chunk_size) as i32,
                    )
                    &&& r@[k].end@ == self.end@.update(
                        dim as int,
                        if self.start@[dim as int] + (k + 1) * chunk_size <= self.end@[dim as int] {
                            (self.start@[dim as int] + (k + 1) * chunk_size) as i32
                        } else {
                            self.end@[dim as int]
                        },
                    )
                },
    {
        let ghost s = self.start@;
        let ghost e = self.end@;
        let ghost di = dim as int;
        let s_d = self.start.get(dim);
        let e_d = self.end.get(dim);
        let dim_size: usize = (e_d as i64 - s_d as i64) as usize;
        let whole: usize = dim_size / chunk_size;
        let rem: usize = dim_size % chunk_size;
        proof {
            lemma_fundamental_div_mod(dim_size as int, chunk_size as int);
        }
        let mut result: Vec<ZRange> = Vec::new();
        let mut k: usize = 0;
        while k < whole
            invariant
                self.wf(),
                s == self.start@,
                e == self.end@,
                di == dim,
                dim < s.len(),
                s_d == s[di],
                e_d == e[di],
                dim_size == e_d - s_d,
                chunk_size > 0,
                whole == dim_size / chunk_size,
                dim_size == chunk_size * whole + rem,
                k <= whole,
                result@.len() == k,
                forall|j: int|
                    0 <= j < k ==> {
                        &&& (#[trigger] result@[j]).wf()
                        &&& result@[j].start@ == s.update(di, (s[di] + j * chunk_size) as i32)
                        &&& result@[j].end@ == e.update(
                            di,
                            if s[di] + (j + 1) * chunk_size <= e[di] {
                                (s[di] + (j + 1) * chunk_size) as i32
                            } else {
                                e[di]
                            },
                        )
                    },
            decreases whole - k,
        {
            proof {
                assert((k + 1) * chunk_size <= chunk_size * whole) by (nonlinear_arith)
                    requires k + 1 <= whole, chunk_size > 0;
                assert(k * chunk_size + chunk_size == (k + 1) * chunk_size) by (nonlinear_arith);
                assert(s[di] + (k + 1) * chunk_size <= e[di]);
            }
            let off: usize = k * chunk_size;
            let lo: i32 = (s_d as i64 + off as i64) as i32;
            let hi: i32 = (s_d as i64 + off as i64 + chunk_size as i64) as i32;
            let mut lo_pt = self.start.clone();
            let mut hi_pt = self.end.clone();
            array_set(&mut lo_pt.coords, dim, lo);
            array_set(&mut hi_pt.coords, dim, hi);
            result.push(ZRange::between(&lo_pt, &hi_pt));
            k += 1;
        }
        if rem > 0 {
            proof {
                assert(whole * chunk_size <= dim_size) by (nonlinear_arith)
                    requires dim_size == chunk_size * whole + rem, rem >= 0;
            }
            let off: usize = whole * chunk_size;
            let lo: i32 = (s_d as i64 + off as i64) as i32;
            let mut lo_pt = self.start.clone();
            array_set(&mut lo_pt.coords, dim, lo);
            result.push(ZRange::between(&lo_pt, &self.end));
            proof {
                assert((whole + 1) * chunk_size > dim_size) by (nonlinear_arith)
                    requires dim_size == chunk_size * whole + rem, rem < chunk_size;
            }
        }
        result
    }

    /// The bounding box of the canonical forms of `ranges`: per dimension the
    /// least start and the greatest canonical end.
    pub fn super_range(ranges: &Vec<ZRange>) -> (r: ZRange)
        requires
            ranges@.len() > 0,
            uniform(ranges@, ranges@[0].start@.len()),
        ensures
            r.wf(),
            r.start@.len() == ranges@[0].start@.len(),
            forall|d: int|
                0 <= d < r.start@.len() ==> least_start(ranges@, ranges@.len() as int, d, r.start@[d]),
            forall|d: int|
                0 <= d < r.start@.len() ==> greatest_end(ranges@, ranges@.len() as int, d, r.end@[d]),
    {
        let ghost rs = ranges@;
        let mut normalized: Vec<ZRange> = Vec::new();
        let mut i: usize = 0;
        while i < ranges.len()
            invariant
                rs == ranges@,
                uniform(rs, rs[0].start@.len()),
                i <= rs.len(),
                normalized@.len() == i,
                forall|j: int|
                    0 <= j < i ==> {
                        &&& (#[trigger] normalized@[j]).wf()
                        &&& normalized@[j].start@ == rs[j].start@
                        &&& normalized@[j].end@ == rs[j].norm_end()
                    },
            decreases rs.len() - i,
        {
            normalized.push(ranges[i].normalize());
            i += 1;
        }
        let mut start = normalized[0].start.clone();
        let mut end = normalized[0].end.clone();
        let n = array_len(&start.coords);
        proof {
            assert forall|d: int| 0 <= d < n implies least_start(rs, 1, d, start@[d])
                && greatest_end(rs, 1, d, end@[d]) by {
                assert(rs[0].start@[d] == start@[d]);
                assert(rs[0].norm_end()[d] == end@[d]);
            }
        }
        let mut i: usize = 1;
        while i < normalized.len()
            invariant
                rs == ranges@,
                uniform(rs, n as nat),
                1 <= i <= rs.len(),
                normalized@.len() == rs.len(),
                forall|j: int|
                    0 <= j < rs.len() ==> {
                        &&& (#[trigger] normalized@[j]).wf()
                        &&& normalized@[j].start@ == rs[j].start@
                        &&& normalized@[j].end@ == rs[j].norm_end()
                    },
                start@.len() == n,
                end@.len() == n,
                forall|d: int| 0 <= d < n ==> least_start(rs, i as int, d, start@[d]),
                forall|d: int| 0 <= d < n ==> greatest_end(rs, i as int, d, end@[d]),
            decreases rs.len() - i,
        {
            let cur = &normalized[i];
            let mut d: usize = 0;
            while d < n
                invariant
                    rs == ranges@,
                    uniform(rs, n as nat),
                    1 <= i < rs.len(),
                    cur.start@ == rs[i as int].start@,
                    cur.end@ == rs[i as int].norm_end(),
                    cur.wf(),
                    start@.len() == n,
                    end@.len() == n,
                    d <= n,
                    forall|x: int| 0 <= x < d ==> least_start(rs, i + 1, x, start@[x]),
                    forall|x: int| 0 <= x < d ==> greatest_end(rs, i + 1, x, end@[x]),
                    forall|x: int| d <= x < n ==> least_start(rs, i as int, x, start@[x]),
                    forall|x: int| d <= x < n ==> greatest_end(rs, i as int, x, end@[x]),
                decreases n - d,
            {
                let ghost old_start = start@;
                let ghost old_end = end@;
                let a = array_get(&start.coords, d);
                let b = array_get(&cur.start.coords, d);
                if b < a {
                    array_set(&mut start.coords, d, b);
                }
                let a = array_get(&end.coords, d);
                let b = array_get(&cur.end.coords, d);
                if b > a {
                    array_set(&mut end.coords, d, b);
                }
                proof {
                    let x = d as int;
                    assert(least_start(rs, i as int, x, old_start[x]));
                    assert(greatest_end(rs, i as int, x, old_end[x]));
                    assert(least_start(rs, i + 1, x, start@[x]));
                    assert(greatest_end(rs, i + 1, x, end@[x]));
                }
                d += 1;
            }
            i += 1;
        }
        proof {
            assert forall|d: int| 0 <= d < n implies start@[d] <= end@[d] by {
                assert(least_start(rs, rs.len() as int, d, start@[d]));
                assert(greatest_end(rs, rs.len() as int, d, end@[d]));
                assert(rs[0].wf());
                assert(start@[d] <= rs[0].start@[d]);
                assert(end@[d] >= rs[0].norm_end()[d]);
            }
        }
        ZRange::between(&start, &end)
    }
}

/// The partial order ranks `a` at most `b` exactly when `a <= b` in every
/// coordinate.
proof fn lemma_order_le(a: Seq<i32>, b: Seq<i32>)
    requires
        a.len() == b.len(),
    ensures
        (point_order(a, b) matches Some(Ordering::Less | Ordering::Equal)) <==> all_le(a, b),
{
    if !all_le(a, b) {
        let i = choose|i: int| 0 <= i < a.len() && !(a[i] <= b[i]);
        assert(has_greater(a, b));
    }
}

impl ZRange {
    /// The bounding box of the two boxes, when it has exactly as many points
    /// as the two together: they are adjacent along one axis and agree on all
    /// others. Otherwise `None`.
    pub fn join(&self, other: &ZRange) -> (r: Option<ZRange>)
        requires
            self.wf(),
            other.wf(),
            other.start@.len() == self.start@.len(),
            self.spec_size() <= usize::MAX,
            other.spec_size() <= usize::MAX,
            product(
                extents(seq_min(self.start@, other.start@), seq_max(self.end@, other.end@)),
            ) <= usize::MAX,
        ensures
            r is Some <==> product(
                extents(seq_min(self.start@, other.start@), seq_max(self.end@, other.end@)),
            ) == self.spec_size() + other.spec_size(),
            r matches Some(b) ==> {
                &&& b.wf()
                &&& b.start@ == seq_min(self.start@, other.start@)
                &&& b.end@ == seq_max(self.end@, other.end@)
            },
    {
        let start = point_min(&self.start, &other.start);
        let end = point_max(&self.end, &other.end);
        let range = ZRange::between(&start, &end);
        let total = range.size();
        let a = self.size();
        let b = other.size();
        if total < a || total - a != b {
            return None;
        }
        Some(range)
    }

    /// The box of the points that both boxes hold, `[max(starts), min(ends))`,
    /// when that box is non-empty; otherwise `None`.
    pub fn intersection(&self, other: &ZRange) -> (r: Option<ZRange>)
        requires
            self.wf(),
            other.wf(),
            other.start@.len() == self.start@.len(),
        ensures
            r is Some <==> forall|d: int|
                0 <= d < self.start@.len() ==> seq_max(self.start@, other.start@)[d] < seq_min(
                    self.end@,
                    other.end@,
                )[d],
            r matches Some(b) ==> {
                &&& b.wf()
                &&& b.start@ == seq_max(self.start@, other.start@)
                &&& b.end@ == seq_min(self.end@, other.end@)
            },
    {
        let ghost lo = seq_max(self.start@, other.start@);
        let ghost hi = seq_min(self.end@, other.end@);
        let ghost n = self.start@.len();
        if self.is_empty() || other.is_empty() {
            proof {
                let t = if self.spec_is_empty() { *self } else { *other };
                let d = choose|d: int| 0 <= d < t.start@.len() && t.start@[d] == t.end@[d];
                assert(!(lo[d] < hi[d]));
            }
            return None;
        }
        let start = point_max(&self.start, &other.start);
        let end = point_min(&self.end, &other.end);
        proof {
            lemma_order_le(start@, end@);
        }
        if !start.le(&end) {
            proof {
                let d = choose|d: int| 0 <= d < n && !(lo[d] <= hi[d]);
            }
            return None;
        }
        let range = ZRange::between(&start, &end);
        if range.is_not_empty() && self.contains_range(&range) && other.contains_range(&range) {
            Some(range)
        } else {
            proof {
                if forall|d: int| 0 <= d < n ==> lo[d] < hi[d] {
                    assert(!has_flat(lo, hi));
                    assert(box_contains(self.start@, self.end@, lo, 0));
                    assert(box_contains(self.start@, self.end@, hi, 1));
                    assert(box_contains(other.start@, other.end@, lo, 0));
                    assert(box_contains(other.start@, other.end@, hi, 1));
                }
            }
            None
        }
    }
}

/// The child index whose sides, dimension by dimension, are `sides`.
pub open spec fn index_of_sides(sides: Seq<bool>) -> int
    decreases sides.len(),
{
    if sides.len() == 0 {
        0
    } else {
        2 * index_of_sides(sides.drop_last()) + if sides.last() { 1int } else { 0int }
    }
}

/// Every choice of sides is made by one child index below `2^n`.
proof fn lemma_index_of_sides(sides: Seq<bool>)
    ensures
        0 <= index_of_sides(sides) < pow2(sides.len()),
        forall|d: int|
            0 <= d < sides.len() ==> upper_side(index_of_sides(sides), sides.len(), d) == sides[d],
    decreases sides.len(),
{
    lemma2_to64();
    if sides.len() > 0 {
        let m = (sides.len() - 1) as nat;
        let prev = sides.drop_last();
        lemma_index_of_sides(prev);
        let j = index_of_sides(prev);
        let b: int = if sides.last() { 1 } else { 0 };
        lemma_pow2_unfold(sides.len());
        assert forall|d: int| 0 <= d < sides.len() implies upper_side(
            index_of_sides(sides),
            sides.len(),
            d,
        ) == sides[d] by {
            lemma_upper_side_step(j, b, m, d);
            if d < m {
                assert(prev[d] == sides[d]);
            }
        }
    }
}

/// Child 0 takes the lower side of every dimension.
proof fn lemma_first_child_lower(n: nat, d: int)
    requires
        0 <= d < n,
    ensures
        !upper_side(0, n, d),
{
    lemma_pow2_pos((n - 1 - d) as nat);
}

/// A box's size is the product of its shape's coordinates; a box with a
/// dimension of zero extent has size zero and is empty.
pub proof fn lemma_size_of_shape(r: ZRange)
    requires
        r.wf(),
    ensures
        r.spec_size() == product(extents(r.start@, r.end@)),
        extents(r.start@, r.end@).len() == r.start@.len(),
        forall|i: int|
            0 <= i < r.start@.len() ==> extents(r.start@, r.end@)[i] == r.end@[i] - r.start@[i],
        has_flat(r.start@, r.end@) ==> r.spec_size() == 0 && r.spec_is_empty(),
{
    lemma_product_zero(extents(r.start@, r.end@));
    if has_flat(r.start@, r.end@) {
        let i = choose|i: int| 0 <= i < r.start@.len() && r.start@[i] == r.end@[i];
        assert(extents(r.start@, r.end@)[i] == 0);
    }
}

/// The bounding box of the canonical forms of all children of a split is the
/// box that was split, when that box is non-empty or the pivot is its end.
pub proof fn lemma_super_range_of_split(r: ZRange, pivot: Seq<i32>, children: Seq<ZRange>, sup: ZRange)
    requires
        r.wf(),
        all_le(r.start@, pivot),
        all_le(pivot, r.end@),
        !r.spec_is_empty() || pivot == r.end@,
        views(children) == split_children(r.start@, r.end@, pivot),
        uniform(children, r.start@.len()),
        sup.wf(),
        sup.start@.len() == r.start@.len(),
        forall|d: int|
            0 <= d < sup.start@.len() ==> least_start(children, children.len() as int, d, sup.start@[d]),
        forall|d: int|
            0 <= d < sup.start@.len() ==> greatest_end(children, children.len() as int, d, sup.end@[d]),
    ensures
        sup.start@ == r.start@,
        sup.end@ == r.end@,
{
    let s = r.start@;
    let e = r.end@;
    let n = s.len();
    let cn = children.len() as int;
    assert(views(children).len() == cn);
    assert(split_children(s, e, pivot).len() == pow2(n));
    assert(cn == pow2(n));
    lemma_pow2_pos(n);
    assert forall|j: int| 0 <= j < cn implies
        (#[trigger] children[j]).start@ == split_start(s, pivot, j, n)
        && children[j].end@ == split_end(e, pivot, j, n) by {
        assert(views(children)[j] == split_children(s, e, pivot)[j]);
    }
    assert forall|d: int| 0 <= d < n implies sup.start@[d] == s[d] && sup.end@[d] == e[d] by {
        // the least start
        lemma_first_child_lower(n, d);
        assert(children[0].start@[d] == s[d]);
        let j = choose|j: int| 0 <= j < cn && sup.start@[d] == (#[trigger] children[j]).start@[d];
        assert(children[j].start@[d] >= s[d]);
        // the greatest end
        let j2 = choose|j: int| 0 <= j < cn && sup.end@[d] == (#[trigger] children[j]).norm_end()[d];
        assert(children[j2].wf());
        assert(children[j2].norm_end()[d] <= e[d]);
        let sides = if pivot == e {
            Seq::new(n, |x: int| true)
        } else {
            Seq::new(n, |x: int| if x == d { pivot[x] < e[x] } else { pivot[x] == s[x] })
        };
        lemma_index_of_sides(sides);
        let k = index_of_sides(sides);
        let c = children[k];
        if pivot != e {
            assert forall|x: int| 0 <= x < n implies c.start@[x] != c.end@[x] by {
                assert(upper_side(k, n, x) == sides[x]);
                if s[x] == e[x] {
                    assert(has_flat(s, e));
                }
            }
            assert(!c.spec_is_empty());
        }
        assert(upper_side(k, n, d) == sides[d]);
        assert(c.norm_end()[d] == e[d]);
        assert(sup.end@[d] >= c.norm_end()[d]);
    }
    assert(sup.start@ =~= s);
    assert(sup.end@ =~= e);
}

/// The intersection does not depend on the order of its operands: both
/// orders test the same condition and give the same box.
pub proof fn lemma_intersection_commutes(a: ZRange, b: ZRange)
    requires
        a.wf(),
        b.wf(),
        a.start@.len() == b.start@.len(),
    ensures
        seq_max(a.start@, b.start@) == seq_max(b.start@, a.start@),
        seq_min(a.end@, b.end@) == seq_min(b.end@, a.end@),
{
    assert(seq_max(a.start@, b.start@) =~= seq_max(b.start@, a.start@));
    assert(seq_min(a.end@, b.end@) =~= seq_min(b.end@, a.end@));
}

} // verus!
