//! Sizing of compute dispatches.
use vstd::prelude::*;

verus! {

/// Number of workgroups to launch along each of the three axes.
#[derive(Clone, Copy, Debug, PartialEq, Eq, Structural)]
pub struct CubeCount {
    pub x: u32,
    pub y: u32,
    pub z: u32,
}

/// `a / b`, rounded up.
pub open spec fn ceil_div(a: int, b: int) -> int {
    if a % b == 0 {
        a / b
    } else {
        a / b + 1
    }
}

/// The size along axis `k`, which is 1 where `sizes` has no such axis.
pub open spec fn size_or_one(sizes: Seq<u32>, k: int) -> u32 {
    if k < sizes.len() {
        sizes[k]
    } else {
        1
    }
}

/// `a / b`, rounded up.
fn div_ceil(a: u32, b: u32) -> (q: u32)
    requires
        b > 0,
    ensures
        q == ceil_div(a as int, b as int),
{
    let d = a / b;
    if a % b != 0 {
        assert(d < u32::MAX) by (nonlinear_arith)
            requires
                d == a / b,
                a % b != 0,
                b > 0,
                a <= u32::MAX,
        ;
        d + 1
    } else {
        d
    }
}

/// Number of workgroups of size `workgroup_size` that cover `sizes` work
/// items: along each axis the size divided by the workgroup's extent, rounded
/// up. An axis that `sizes` leaves out has one item.
pub fn calc_cube_count<const D: usize>(sizes: [u32; D], workgroup_size: [u32; 3]) -> (count:
    CubeCount)
    requires
        workgroup_size[0] > 0,
        workgroup_size[1] > 0,
        workgroup_size[2] > 0,
    ensures
        count.x == ceil_div(size_or_one(sizes@, 0) as int, workgroup_size[0] as int),
        count.y == ceil_div(size_or_one(sizes@, 1) as int, workgroup_size[1] as int),
        count.z == ceil_div(size_or_one(sizes@, 2) as int, workgroup_size[2] as int),
{
    let sx: u32 = if 0 < D { sizes[0] } else { 1 };
    let sy: u32 = if 1 < D { sizes[1] } else { 1 };
    let sz: u32 = if 2 < D { sizes[2] } else { 1 };
    CubeCount {
        x: div_ceil(sx, workgroup_size[0]),
        y: div_ceil(sy, workgroup_size[1]),
        z: div_ceil(sz, workgroup_size[2]),
    }
}

/// Product of the first `k` extents of `shape`.
pub open spec fn product_upto(shape: Seq<usize>, k: int) -> int
    decreases k,
{
    if k <= 0 {
        1
    } else {
        product_upto(shape, k - 1) * shape[k - 1]
    }
}

/// Number of elements of a tensor of shape `shape`.
pub open spec fn num_elements(shape: Seq<usize>) -> int {
    product_upto(shape, shape.len() as int)
}

/// A product with a zero among its factors is zero.
proof fn lemma_product_zero(shape: Seq<usize>, z: int, k: int)
    requires
        0 <= z < k <= shape.len(),
        shape[z] == 0,
    ensures
        product_upto(shape, k) == 0,
    decreases k,
{
    if z < k - 1 {
        lemma_product_zero(shape, z, k - 1);
        let rest = product_upto(shape, k - 1);
        let last = shape[k - 1] as int;
        assert(rest * last == 0) by (nonlinear_arith)
            requires
                rest == 0,
        ;
    } else {
        let rest = product_upto(shape, k - 1);
        let last = shape[k - 1] as int;
        assert(rest * last == 0) by (nonlinear_arith)
            requires
                last == 0,
        ;
    }
}

/// A product of factors above zero grows with every factor.
proof fn lemma_product_grows(shape: Seq<usize>, k1: int, k2: int)
    requires
        0 <= k1 <= k2 <= shape.len(),
        forall|i: int| 0 <= i < shape.len() ==> (#[trigger] shape[i]) > 0,
    ensures
        1 <= product_upto(shape, k1) <= product_upto(shape, k2),
    decreases k2,
{
    if k1 < k2 {
        lemma_product_grows(shape, k1, k2 - 1);
        let rest = product_upto(shape, k2 - 1);
        let last = shape[k2 - 1] as int;
        assert(rest <= rest * last) by (nonlinear_arith)
            requires
                rest >= 1,
                last >= 1,
        ;
    } else if k1 > 0 {
        lemma_product_grows(shape, k1 - 1, k2 - 1);
        let rest = product_upto(shape, k1 - 1);
        let last = shape[k1 - 1] as int;
        assert(rest <= rest * last) by (nonlinear_arith)
            requires
                rest >= 1,
                last >= 1,
        ;
    }
}

/// Size in bytes of the buffer of a tensor of shape `shape` whose elements
/// take `elem_size` bytes each; `None` where the size cannot be addressed.
pub fn buffer_bytes(shape: &Vec<usize>, elem_size: usize) -> (size: Option<usize>)
    ensures
        match size {
            Some(bytes) => bytes == num_elements(shape@) * elem_size,
            None => num_elements(shape@) * elem_size > usize::MAX,
        },
{
    let n = shape.len();
    let mut z: usize = 0;
    while z < n
        invariant
            z <= n,
            n == shape.len(),
            forall|i: int| 0 <= i < z ==> (#[trigger] shape@[i]) > 0,
        decreases n - z,
    {
        if shape[z] == 0 {
            proof {
                lemma_product_zero(shape@, z as int, n as int);
                let count = num_elements(shape@);
                assert(count * elem_size == 0) by (nonlinear_arith)
                    requires
                        count == 0,
                ;
            }
            return Some(0);
        }
        z += 1;
    }
    let mut count: usize = 1;
    let mut k: usize = 0;
    while k < n
        invariant
            k <= n,
            n == shape.len(),
            forall|i: int| 0 <= i < n ==> (#[trigger] shape@[i]) > 0,
            count == product_upto(shape@, k as int),
        decreases n - k,
    {
        match count.checked_mul(shape[k]) {
            Some(next) => {
                count = next;
            },
            None => {
                proof {
                    lemma_product_grows(shape@, k + 1, n as int);
                    let total = num_elements(shape@);
                    assert(total * elem_size >= total || elem_size == 0) by (nonlinear_arith)
                        requires
                            total >= 1,
                            elem_size >= 0,
                    ;
                }
                if elem_size == 0 {
                    return Some(0);
                }
                return None;
            },
        }
        k += 1;
    }
    count.checked_mul(elem_size)
}

} // verus!
