//! `ZPoint`: an immutable point of Z-space, with elementwise arithmetic and
//! a partial order.
use std::cmp::Ordering;
use vstd::prelude::*;

use crate::coords::{
    Coords, array_elems, fits_i32, trunc_div, trunc_rem, array_from_vec, array_from_elem,
    array_len, array_get, array_clone, array_to_vec, array_add, array_sub, array_mul, array_div,
    array_rem, array_neg,
};
use crate::ZDim;

verus! {

/// A point with integer coordinates; its dimensionality is its coordinate count.
#[derive(Debug)]
pub struct ZPoint {
    pub coords: Coords,
}

impl View for ZPoint {
    type V = Seq<i32>;

    open spec fn view(&self) -> Seq<i32> {
        array_elems(self.coords)
    }
}

impl ZDim for ZPoint {
    open spec fn spec_ndim(&self) -> nat {
        self@.len()
    }

    fn ndim(&self) -> (r: usize) {
        array_len(&self.coords)
    }
}

impl Clone for ZPoint {
    fn clone(&self) -> (r: Self)
        ensures
            r@ == self@,
    {
        ZPoint { coords: array_clone(&self.coords) }
    }
}

/// Some coordinate of `a` is below the matching coordinate of `b`.
pub open spec fn has_less(a: Seq<i32>, b: Seq<i32>) -> bool {
    exists|i: int| 0 <= i < a.len() && i < b.len() && a[i] < b[i]
}

/// Some coordinate of `a` is above the matching coordinate of `b`.
pub open spec fn has_greater(a: Seq<i32>, b: Seq<i32>) -> bool {
    exists|i: int| 0 <= i < a.len() && i < b.len() && a[i] > b[i]
}

/// The partial order of points: `Less` when no coordinate is above and one is
/// below, `Greater` symmetrically, `Equal` when all coordinates agree, and no
/// ordering when the coordinates disagree in direction (or the lengths differ).
pub open spec fn point_order(a: Seq<i32>, b: Seq<i32>) -> Option<Ordering> {
    if a.len() != b.len() {
        None
    } else if has_less(a, b) && has_greater(a, b) {
        None
    } else if has_less(a, b) {
        Some(Ordering::Less)
    } else if has_greater(a, b) {
        Some(Ordering::Greater)
    } else {
        Some(Ordering::Equal)
    }
}

/// `a <= b` in every coordinate (same length).
pub open spec fn all_le(a: Seq<i32>, b: Seq<i32>) -> bool {
    a.len() == b.len() && forall|i: int| 0 <= i < a.len() ==> a[i] <= b[i]
}

impl PartialEq for ZPoint {
    /// Equal dimensionality and equal coordinates.
    fn eq(&self, other: &ZPoint) -> (r: bool) {
        let n = array_len(&self.coords);
        if n != array_len(&other.coords) {
            return false;
        }
        let mut i: usize = 0;
        while i < n
            invariant
                n == self@.len(),
                n == other@.len(),
                i <= n,
                forall|j: int| 0 <= j < i ==> self@[j] == other@[j],
            decreases n - i,
        {
            if array_get(&self.coords, i) != array_get(&other.coords, i) {
                return false;
            }
            i += 1;
        }
        assert(self@ =~= other@);
        true
    }
}

impl vstd::std_specs::cmp::PartialEqSpecImpl for ZPoint {
    open spec fn obeys_eq_spec() -> bool {
        true
    }

    open spec fn eq_spec(&self, other: &ZPoint) -> bool {
        self@ == other@
    }
}

impl Eq for ZPoint {
}

impl PartialOrd for ZPoint {
    /// The partial order `point_order`: points of different dimensionality are
    /// never ordered.
    fn partial_cmp(&self, other: &ZPoint) -> (r: Option<Ordering>) {
        let n = array_len(&self.coords);
        if n != array_len(&other.coords) {
            return None;
        }
        let mut less = false;
        let mut greater = false;
        let mut i: usize = 0;
        while i < n
            invariant
                n == self@.len(),
                n == other@.len(),
                i <= n,
                less == exists|j: int| 0 <= j < i && self@[j] < other@[j],
                greater == exists|j: int| 0 <= j < i && self@[j] > other@[j],
            decreases n - i,
        {
            let x = array_get(&self.coords, i);
            let y = array_get(&other.coords, i);
            if x < y {
                less = true;
            } else if x > y {
                greater = true;
            }
            i += 1;
        }
        if less && greater {
            None
        } else if less {
            Some(Ordering::Less)
        } else if greater {
            Some(Ordering::Greater)
        } else {
            Some(Ordering::Equal)
        }
    }
}

impl vstd::std_specs::cmp::PartialOrdSpecImpl for ZPoint {
    open spec fn obeys_partial_cmp_spec() -> bool {
        true
    }

    open spec fn partial_cmp_spec(&self, other: &ZPoint) -> Option<Ordering> {
        point_order(self@, other@)
    }
}

/// An elementwise operation on coordinates.
#[derive(Clone, Copy, Debug, PartialEq, Eq, Structural)]
pub enum ZOp {
    Add,
    Sub,
    Mul,
    Div,
    Rem,
}

/// Whether `op` on `x` and `y` gives a value that an `i32` holds (and, for
/// division and remainder, the divisor is not zero).
pub open spec fn op_defined(op: ZOp, x: int, y: int) -> bool {
    match op {
        ZOp::Add => fits_i32(x + y),
        ZOp::Sub => fits_i32(x - y),
        ZOp::Mul => fits_i32(x * y),
        ZOp::Div | ZOp::Rem => y != 0 && fits_i32(trunc_div(x, y)),
    }
}

/// The value of `op` on `x` and `y`; division truncates toward zero.
pub open spec fn op_value(op: ZOp, x: int, y: int) -> int {
    match op {
        ZOp::Add => x + y,
        ZOp::Sub => x - y,
        ZOp::Mul => x * y,
        ZOp::Div => trunc_div(x, y),
        ZOp::Rem => trunc_rem(x, y),
    }
}

/// `a` and `b` have equal length and `op` is defined on each coordinate pair.
pub open spec fn combinable(op: ZOp, a: Seq<i32>, b: Seq<i32>) -> bool {
    &&& a.len() == b.len()
    &&& forall|i: int| 0 <= i < a.len() ==> op_defined(op, a[i] as int, b[i] as int)
}

/// `r` is `op` applied to `a` and `b` coordinate by coordinate.
pub open spec fn is_combination(op: ZOp, a: Seq<i32>, b: Seq<i32>, r: Seq<i32>) -> bool {
    &&& r.len() == a.len()
    &&& forall|i: int| 0 <= i < r.len() ==> r[i] as int == op_value(op, a[i] as int, b[i] as int)
}

/// `n` coordinates, each `v`.
pub open spec fn filled(n: nat, v: i32) -> Seq<i32> {
    Seq::new(n, |i: int| v)
}

impl ZPoint {
    /// The point whose coordinates are the vector's elements, in order.
    pub fn from(item: Vec<i32>) -> (r: ZPoint)
        ensures
            r@ == item@,
    {
        ZPoint { coords: array_from_vec(item) }
    }

    /// The 0-dimensional point.
    pub fn scalar() -> (r: ZPoint)
        ensures
            r@ == Seq::<i32>::empty(),
    {
        ZPoint { coords: array_from_vec(Vec::new()) }
    }

    /// `ndim` zeros.
    pub fn zeros(ndim: usize) -> (r: ZPoint)
        requires
            ndim <= isize::MAX / 4,
        ensures
            r@ == filled(ndim as nat, 0),
    {
        ZPoint { coords: array_from_elem(ndim, 0) }
    }

    /// Zeros, as many as `other` has coordinates.
    pub fn zeros_like(other: &ZPoint) -> (r: ZPoint)
        ensures
            r@ == filled(other@.len(), 0),
    {
        ZPoint::zeros(array_len(&other.coords))
    }

    /// `ndim` ones.
    pub fn ones(ndim: usize) -> (r: ZPoint)
        requires
            ndim <= isize::MAX / 4,
        ensures
            r@ == filled(ndim as nat, 1),
    {
        ZPoint { coords: array_from_elem(ndim, 1) }
    }

    /// Ones, as many as `other` has coordinates.
    pub fn ones_like(other: &ZPoint) -> (r: ZPoint)
        ensures
            r@ == filled(other@.len(), 1),
    {
        ZPoint::ones(array_len(&other.coords))
    }

    /// `ndim` coordinates, each `value`.
    pub fn full(ndim: usize, value: i32) -> (r: ZPoint)
        requires
            ndim <= isize::MAX / 4,
        ensures
            r@ == filled(ndim as nat, value),
    {
        ZPoint { coords: array_from_elem(ndim, value) }
    }

    /// `value`, as many times as `other` has coordinates.
    pub fn full_like(other: &ZPoint, value: i32) -> (r: ZPoint)
        ensures
            r@ == filled(other@.len(), value),
    {
        ZPoint::full(array_len(&other.coords), value)
    }

    /// The coordinate at `index`.
    pub fn get(&self, index: usize) -> (r: i32)
        requires
            index < self@.len(),
        ensures
            r == self@[index as int],
    {
        array_get(&self.coords, index)
    }

    /// The coordinates, in order.
    pub fn to_vec(&self) -> (r: Vec<i32>)
        ensures
            r@ == self@,
    {
        array_to_vec(&self.coords)
    }

    /// `op` applied coordinate by coordinate to two points of equal dimensionality.
    pub fn combine(&self, other: &ZPoint, op: ZOp) -> (r: ZPoint)
        requires
            combinable(op, self@, other@),
        ensures
            is_combination(op, self@, other@, r@),
    {
        let coords = match op {
            ZOp::Add => array_add(&self.coords, &other.coords),
            ZOp::Sub => array_sub(&self.coords, &other.coords),
            ZOp::Mul => array_mul(&self.coords, &other.coords),
            ZOp::Div => array_div(&self.coords, &other.coords),
            ZOp::Rem => array_rem(&self.coords, &other.coords),
        };
        ZPoint { coords }
    }

    /// `op` with the scalar `value` as right operand of every coordinate.
    pub fn combine_scalar(&self, value: i32, op: ZOp) -> (r: ZPoint)
        requires
            combinable(op, self@, filled(self@.len(), value)),
        ensures
            is_combination(op, self@, filled(self@.len(), value), r@),
    {
        let other = ZPoint::full_like(self, value);
        self.combine(&other, op)
    }

    /// `op` with the scalar `value` as left operand of every coordinate.
    pub fn scalar_combine(value: i32, p: &ZPoint, op: ZOp) -> (r: ZPoint)
        requires
            combinable(op, filled(p@.len(), value), p@),
        ensures
            is_combination(op, filled(p@.len(), value), p@, r@),
    {
        let v = ZPoint::full_like(p, value);
        v.combine(p, op)
    }

    /// Elementwise sum.
    pub fn add(&self, other: &ZPoint) -> (r: ZPoint)
        requires
            combinable(ZOp::Add, self@, other@),
        ensures
            is_combination(ZOp::Add, self@, other@, r@),
    {
        self.combine(other, ZOp::Add)
    }

    /// Elementwise difference.
    pub fn sub(&self, other: &ZPoint) -> (r: ZPoint)
        requires
            combinable(ZOp::Sub, self@, other@),
        ensures
            is_combination(ZOp::Sub, self@, other@, r@),
    {
        self.combine(other, ZOp::Sub)
    }

    /// Elementwise product.
    pub fn mul(&self, other: &ZPoint) -> (r: ZPoint)
        requires
            combinable(ZOp::Mul, self@, other@),
        ensures
            is_combination(ZOp::Mul, self@, other@, r@),
    {
        self.combine(other, ZOp::Mul)
    }

    /// Elementwise quotient, truncated toward zero.
    pub fn div(&self, other: &ZPoint) -> (r: ZPoint)
        requires
            combinable(ZOp::Div, self@, other@),
        ensures
            is_combination(ZOp::Div, self@, other@, r@),
    {
        self.combine(other, ZOp::Div)
    }

    /// Elementwise remainder, with the sign of the dividend.
    pub fn rem(&self, other: &ZPoint) -> (r: ZPoint)
        requires
            combinable(ZOp::Rem, self@, other@),
        ensures
            is_combination(ZOp::Rem, self@, other@, r@),
    {
        self.combine(other, ZOp::Rem)
    }

    /// Every coordinate negated.
    pub fn neg(&self) -> (r: ZPoint)
        requires
            forall|i: int| 0 <= i < self@.len() ==> self@[i] != i32::MIN,
        ensures
            r@.len() == self@.len(),
            forall|i: int| 0 <= i < r@.len() ==> r@[i] == -self@[i],
    {
        ZPoint { coords: array_neg(&self.coords) }
    }
}

/// Adding ones to zeros gives a point of ones, and multiplying ones by a point
/// filled with `k` gives that point back, in every dimensionality `n`.
pub proof fn lemma_fill_identities(n: nat, k: i32)
    ensures
        combinable(ZOp::Add, filled(n, 0), filled(n, 1)),
        is_combination(ZOp::Add, filled(n, 0), filled(n, 1), filled(n, 1)),
        combinable(ZOp::Mul, filled(n, 1), filled(n, k)),
        is_combination(ZOp::Mul, filled(n, 1), filled(n, k), filled(n, k)),
{
    assert forall|i: int| 0 <= i < n implies op_defined(
        ZOp::Mul,
        filled(n, 1)[i] as int,
        filled(n, k)[i] as int,
    ) && op_value(ZOp::Mul, filled(n, 1)[i] as int, filled(n, k)[i] as int) == filled(n, k)[i] by {
        assert(1 * (k as int) == k as int);
    }
}

/// Of two points of one dimensionality exactly one holds: the first is less,
/// equal, greater, or the two are unordered; they are unordered exactly when
/// one coordinate is smaller and another larger.
pub proof fn lemma_partial_order_cases(a: ZPoint, b: ZPoint)
    requires
        a@.len() == b@.len(),
    ensures
        point_order(a@, b@) == Some(Ordering::Equal) <==> a@ == b@,
        point_order(a@, b@) == Some(Ordering::Less) <==> (all_le(a@, b@) && a@ != b@),
        point_order(a@, b@) == Some(Ordering::Greater) <==> (all_le(b@, a@) && a@ != b@),
        point_order(a@, b@) is None <==> (has_less(a@, b@) && has_greater(a@, b@)),
{
    if !has_less(a@, b@) && !has_greater(a@, b@) {
        assert forall|i: int| 0 <= i < a@.len() implies a@[i] == b@[i] by {
            if a@[i] < b@[i] {
                assert(has_less(a@, b@));
            }
            if a@[i] > b@[i] {
                assert(has_greater(a@, b@));
            }
        }
        assert(a@ =~= b@);
    }
    if !all_le(a@, b@) {
        let i = choose|i: int| 0 <= i < a@.len() && !(a@[i] <= b@[i]);
        assert(has_greater(a@, b@));
    }
    if !all_le(b@, a@) {
        let i = choose|i: int| 0 <= i < a@.len() && !(b@[i] <= a@[i]);
        assert(has_less(a@, b@));
    }
}

/// A point rebuilt from its coordinates, in order, is the same point.
pub proof fn lemma_from_coordinates_round_trip(p: ZPoint, coordinates: Vec<i32>, q: ZPoint)
    requires
        coordinates@ == p@,
        q@ == coordinates@,
    ensures
        q@ == p@,
{
}

/// The comparison of one coordinate pair.
pub open spec fn coord_order(x: i32, y: i32) -> Ordering {
    if x < y {
        Ordering::Less
    } else if x > y {
        Ordering::Greater
    } else {
        Ordering::Equal
    }
}

/// One step of the left-to-right fold of coordinate comparisons: `Equal`
/// defers to the next result, agreeing results are absorbed, and `Less`
/// meeting `Greater` (or the reverse) leaves the points unordered.
pub open spec fn fold_step(acc: Option<Ordering>, c: Ordering) -> Option<Ordering> {
    match acc {
        None => None,
        Some(Ordering::Equal) => Some(c),
        Some(Ordering::Less) => if c == Ordering::Greater { None } else { Some(Ordering::Less) },
        Some(Ordering::Greater) => if c == Ordering::Less { None } else { Some(Ordering::Greater) },
    }
}

/// The fold of the comparisons of the first `m` coordinate pairs.
pub open spec fn folded_order(a: Seq<i32>, b: Seq<i32>, m: nat) -> Option<Ordering>
    decreases m,
{
    if m == 0 {
        Some(Ordering::Equal)
    } else {
        fold_step(folded_order(a, b, (m - 1) as nat), coord_order(a[m - 1], b[m - 1]))
    }
}

/// The partial order is the left-to-right fold of the coordinate comparisons.
pub proof fn lemma_order_is_fold(a: Seq<i32>, b: Seq<i32>)
    requires
        a.len() == b.len(),
    ensures
        folded_order(a, b, a.len()) == point_order(a, b),
    decreases a.len(),
{
    if a.len() > 0 {
        let m = (a.len() - 1) as nat;
        let a0 = a.drop_last();
        let b0 = b.drop_last();
        lemma_order_is_fold(a0, b0);
        assert forall|k: nat| k <= m implies folded_order(a, b, k) == folded_order(a0, b0, k) by {
            lemma_fold_prefix(a, b, a0, b0, k);
        }
        if has_less(a0, b0) {
            let i = choose|i: int| 0 <= i < a0.len() && i < b0.len() && a0[i] < b0[i];
            assert(a[i] < b[i]);
        }
        if has_greater(a0, b0) {
            let i = choose|i: int| 0 <= i < a0.len() && i < b0.len() && a0[i] > b0[i];
            assert(a[i] > b[i]);
        }
        if has_less(a, b) {
            let i = choose|i: int| 0 <= i < a.len() && i < b.len() && a[i] < b[i];
            if i < m {
                assert(a0[i] < b0[i]);
            }
        }
        if has_greater(a, b) {
            let i = choose|i: int| 0 <= i < a.len() && i < b.len() && a[i] > b[i];
            if i < m {
                assert(a0[i] > b0[i]);
            }
        }
    }
}

/// The fold over a prefix only reads that prefix.
proof fn lemma_fold_prefix(a: Seq<i32>, b: Seq<i32>, a0: Seq<i32>, b0: Seq<i32>, k: nat)
    requires
        k <= a0.len(),
        a0.len() <= a.len(),
        b0.len() == a0.len(),
        b.len() == a.len(),
        forall|i: int| 0 <= i < a0.len() ==> a0[i] == a[i] && b0[i] == b[i],
    ensures
        folded_order(a, b, k) == folded_order(a0, b0, k),
    decreases k,
{
    if k > 0 {
        lemma_fold_prefix(a, b, a0, b0, (k - 1) as nat);
    }
}

impl<'a> std::ops::Add<&'a ZPoint> for &'a ZPoint {
    type Output = ZPoint;

    /// Elementwise sum.
    fn add(self, rhs: &'a ZPoint) -> (r: ZPoint)
        ensures
            is_combination(ZOp::Add, self@, rhs@, r@),
    {
        self.combine(rhs, ZOp::Add)
    }
}

impl<'a> vstd::std_specs::ops::AddSpecImpl<&'a ZPoint> for &'a ZPoint {
    open spec fn obeys_add_spec() -> bool {
        false
    }

    open spec fn add_req(self, rhs: &'a ZPoint) -> bool {
        combinable(ZOp::Add, self@, rhs@)
    }

    open spec fn add_spec(self, rhs: &'a ZPoint) -> ZPoint {
        arbitrary()
    }
}

impl<'a> std::ops::Sub<&'a ZPoint> for &'a ZPoint {
    type Output = ZPoint;

    /// Elementwise difference.
    fn sub(self, rhs: &'a ZPoint) -> (r: ZPoint)
        ensures
            is_combination(ZOp::Sub, self@, rhs@, r@),
    {
        self.combine(rhs, ZOp::Sub)
    }
}

impl<'a> vstd::std_specs::ops::SubSpecImpl<&'a ZPoint> for &'a ZPoint {
    open spec fn obeys_sub_spec() -> bool {
        false
    }

    open spec fn sub_req(self, rhs: &'a ZPoint) -> bool {
        combinable(ZOp::Sub, self@, rhs@)
    }

    open spec fn sub_spec(self, rhs: &'a ZPoint) -> ZPoint {
        arbitrary()
    }
}

impl<'a> std::ops::Mul<&'a ZPoint> for &'a ZPoint {
    type Output = ZPoint;

    /// Elementwise product.
    fn mul(self, rhs: &'a ZPoint) -> (r: ZPoint)
        ensures
            is_combination(ZOp::Mul, self@, rhs@, r@),
    {
        self.combine(rhs, ZOp::Mul)
    }
}

impl<'a> vstd::std_specs::ops::MulSpecImpl<&'a ZPoint> for &'a ZPoint {
    open spec fn obeys_mul_spec() -> bool {
        false
    }

    open spec fn mul_req(self, rhs: &'a ZPoint) -> bool {
        combinable(ZOp::Mul, self@, rhs@)
    }

    open spec fn mul_spec(self, rhs: &'a ZPoint) -> ZPoint {
        arbitrary()
    }
}

impl<'a> std::ops::Div<&'a ZPoint> for &'a ZPoint {
    type Output = ZPoint;

    /// Elementwise quotient, truncated toward zero.
    fn div(self, rhs: &'a ZPoint) -> (r: ZPoint)
        ensures
            is_combination(ZOp::Div, self@, rhs@, r@),
    {
        self.combine(rhs, ZOp::Div)
    }
}

impl<'a> vstd::std_specs::ops::DivSpecImpl<&'a ZPoint> for &'a ZPoint {
    open spec fn obeys_div_spec() -> bool {
        false
    }

    open spec fn div_req(self, rhs: &'a ZPoint) -> bool {
        combinable(ZOp::Div, self@, rhs@)
    }

    open spec fn div_spec(self, rhs: &'a ZPoint) -> ZPoint {
        arbitrary()
    }
}

impl<'a> std::ops::Rem<&'a ZPoint> for &'a ZPoint {
    type Output = ZPoint;

    /// Elementwise remainder, with the sign of the dividend.
    fn rem(self, rhs: &'a ZPoint) -> (r: ZPoint)
        ensures
            is_combination(ZOp::Rem, self@, rhs@, r@),
    {
        self.combine(rhs, ZOp::Rem)
    }
}

impl<'a> vstd::std_specs::ops::RemSpecImpl<&'a ZPoint> for &'a ZPoint {
    open spec fn obeys_rem_spec() -> bool {
        false
    }

    open spec fn rem_req(self, rhs: &'a ZPoint) -> bool {
        combinable(ZOp::Rem, self@, rhs@)
    }

    open spec fn rem_spec(self, rhs: &'a ZPoint) -> ZPoint {
        arbitrary()
    }
}

} // verus!
