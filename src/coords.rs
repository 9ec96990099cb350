//! Coordinate storage: a one-dimensional ndarray of `i32`, reached only
//! through the small set of array operations below.
use vstd::prelude::*;

verus! {

/// A one-dimensional ndarray of `i32`, opaque to the verifier; what it holds
/// is `array_elems(self)`.
#[verifier::external_body]
#[derive(Debug)]
pub struct Coords {
    arr: ndarray::Array1<i32>,
}

/// The elements of the array, in index order.
pub uninterp spec fn array_elems(a: Coords) -> Seq<i32>;

/// Whether an integer is representable as an `i32`.
pub open spec fn fits_i32(x: int) -> bool {
    i32::MIN <= x <= i32::MAX
}

pub open spec fn abs(x: int) -> int {
    if x < 0 { -x } else { x }
}

/// Integer division truncating toward zero, as `i32 / i32` computes it.
pub open spec fn trunc_div(a: int, b: int) -> int {
    let q = abs(a) / abs(b);
    if (a < 0) != (b < 0) { -q } else { q }
}

/// The remainder matching `trunc_div`, as `i32 % i32` computes it.
pub open spec fn trunc_rem(a: int, b: int) -> int {
    a - b * trunc_div(a, b)
}

/// Relies on `ndarray::Array1::from_vec`: the array holds the vector's elements in order.
#[verifier::external_body]
pub(crate) fn array_from_vec(v: Vec<i32>) -> (r: Coords)
    ensures
        array_elems(r) == v@,
{
    Coords { arr: ndarray::Array1::from_vec(v) }
}

/// Relies on `ndarray::Array1::from_elem`: `n` copies of `v`, in a buffer of
/// `4 * n` bytes, which must fit in `isize`.
#[verifier::external_body]
pub(crate) fn array_from_elem(n: usize, v: i32) -> (r: Coords)
    requires
        n <= isize::MAX / 4,
    ensures
        array_elems(r) == Seq::new(n as nat, |i: int| v),
{
    Coords { arr: ndarray::Array1::from_elem(n, v) }
}

/// Relies on `ndarray::ArrayBase::len`: the number of elements, whose `4 * r`
/// bytes lie in one allocation, which never exceeds `isize::MAX` bytes.
#[verifier::external_body]
pub(crate) fn array_len(a: &Coords) -> (r: usize)
    ensures
        r == array_elems(*a).len(),
        r <= isize::MAX / 4,
{
    a.arr.len()
}

/// Relies on ndarray's `Index<usize>` for `Array1`: the element at `i`.
#[verifier::external_body]
pub(crate) fn array_get(a: &Coords, i: usize) -> (r: i32)
    requires
        i < array_elems(*a).len(),
    ensures
        r == array_elems(*a)[i as int],
{
    a.arr[i]
}

/// Relies on ndarray's `IndexMut<usize>` for `Array1`: replaces the element at `i`.
#[verifier::external_body]
pub(crate) fn array_set(a: &mut Coords, i: usize, v: i32)
    requires
        i < array_elems(*old(a)).len(),
    ensures
        array_elems(*final(a)) == array_elems(*old(a)).update(i as int, v),
{
    a.arr[i] = v;
}

/// Relies on `Clone` for ndarray's `ArrayBase`: an array with the same elements.
#[verifier::external_body]
pub(crate) fn array_clone(a: &Coords) -> (r: Coords)
    ensures
        array_elems(r) == array_elems(*a),
{
    Coords { arr: a.arr.clone() }
}

/// Relies on `ndarray::ArrayBase::to_vec`: the elements in index order.
#[verifier::external_body]
pub(crate) fn array_to_vec(a: &Coords) -> (r: Vec<i32>)
    ensures
        r@ == array_elems(*a),
{
    a.arr.to_vec()
}

/// Relies on ndarray's `Add` for `&Array1`: elementwise sum of equal-length arrays.
#[verifier::external_body]
pub(crate) fn array_add(a: &Coords, b: &Coords) -> (r: Coords)
    requires
        array_elems(*a).len() == array_elems(*b).len(),
        forall|i: int| 0 <= i < array_elems(*a).len()
            ==> fits_i32(array_elems(*a)[i] + array_elems(*b)[i]),
    ensures
        array_elems(r).len() == array_elems(*a).len(),
        forall|i: int| 0 <= i < array_elems(r).len()
            ==> array_elems(r)[i] == array_elems(*a)[i] + array_elems(*b)[i],
{
    Coords { arr: &a.arr + &b.arr }
}

/// Relies on ndarray's `Sub` for `&Array1`: elementwise difference of equal-length arrays.
#[verifier::external_body]
pub(crate) fn array_sub(a: &Coords, b: &Coords) -> (r: Coords)
    requires
        array_elems(*a).len() == array_elems(*b).len(),
        forall|i: int| 0 <= i < array_elems(*a).len()
            ==> fits_i32(array_elems(*a)[i] - array_elems(*b)[i]),
    ensures
        array_elems(r).len() == array_elems(*a).len(),
        forall|i: int| 0 <= i < array_elems(r).len()
            ==> array_elems(r)[i] == array_elems(*a)[i] - array_elems(*b)[i],
{
    Coords { arr: &a.arr - &b.arr }
}

/// Relies on ndarray's `Mul` for `&Array1`: elementwise product of equal-length arrays.
#[verifier::external_body]
pub(crate) fn array_mul(a: &Coords, b: &Coords) -> (r: Coords)
    requires
        array_elems(*a).len() == array_elems(*b).len(),
        forall|i: int| 0 <= i < array_elems(*a).len()
            ==> fits_i32(array_elems(*a)[i] * array_elems(*b)[i]),
    ensures
        array_elems(r).len() == array_elems(*a).len(),
        forall|i: int| 0 <= i < array_elems(r).len()
            ==> array_elems(r)[i] == array_elems(*a)[i] * array_elems(*b)[i],
{
    Coords { arr: &a.arr * &b.arr }
}

/// Relies on ndarray's `Div` for `&Array1`: elementwise `i32` division of equal-length arrays.
#[verifier::external_body]
pub(crate) fn array_div(a: &Coords, b: &Coords) -> (r: Coords)
    requires
        array_elems(*a).len() == array_elems(*b).len(),
        forall|i: int| 0 <= i < array_elems(*a).len()
            ==> array_elems(*b)[i] != 0 && fits_i32(
                trunc_div(array_elems(*a)[i] as int, array_elems(*b)[i] as int),
            ),
    ensures
        array_elems(r).len() == array_elems(*a).len(),
        forall|i: int| 0 <= i < array_elems(r).len()
            ==> array_elems(r)[i] == trunc_div(array_elems(*a)[i] as int, array_elems(*b)[i] as int),
{
    Coords { arr: &a.arr / &b.arr }
}

/// Relies on ndarray's `Rem` for `&Array1`: elementwise `i32` remainder of equal-length arrays.
#[verifier::external_body]
pub(crate) fn array_rem(a: &Coords, b: &Coords) -> (r: Coords)
    requires
        array_elems(*a).len() == array_elems(*b).len(),
        forall|i: int| 0 <= i < array_elems(*a).len()
            ==> array_elems(*b)[i] != 0 && fits_i32(
                trunc_div(array_elems(*a)[i] as int, array_elems(*b)[i] as int),
            ),
    ensures
        array_elems(r).len() == array_elems(*a).len(),
        forall|i: int| 0 <= i < array_elems(r).len()
            ==> array_elems(r)[i] == trunc_rem(array_elems(*a)[i] as int, array_elems(*b)[i] as int),
{
    Coords { arr: &a.arr % &b.arr }
}

/// Relies on ndarray's `Neg` for `&Array1`: elementwise negation.
#[verifier::external_body]
pub(crate) fn array_neg(a: &Coords) -> (r: Coords)
    requires
        forall|i: int| 0 <= i < array_elems(*a).len() ==> array_elems(*a)[i] != i32::MIN,
    ensures
        array_elems(r).len() == array_elems(*a).len(),
        forall|i: int| 0 <= i < array_elems(r).len() ==> array_elems(r)[i] == -array_elems(*a)[i],
{
    Coords { arr: -&a.arr }
}

} // verus!
