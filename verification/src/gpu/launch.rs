//! Hardware-adaptive launch geometry.
//!
//! Every kernel takes its shape from here, from the runtime's own reported
//! properties. A workgroup is a whole number of planes (warps or wavefronts) where
//! the runtime has them. A runtime without planes runs a unit on an operating-system
//! thread, and there the kernels split in two: one that synchronises gets a single
//! unit per cube, because a barrier costs a scheduler round; one that does not gets
//! the whole machine.
//!
//! Geometry is stable across launches: the width of a cube never follows the size of
//! the problem, the number of cubes does.

use vstd::prelude::*;

verus! {

/// Units per workgroup to aim for on a runtime with planes.
pub const PREFERRED_BLOCK: u32 = 256;

/// Scalar operations a unit should be worth before a plane-less runtime is asked to
/// dispatch another thread for it.
pub const WORK_PER_CPU_UNIT: usize = 32768;

/// Ceiling on units per workgroup on a plane-less runtime.
pub const CPU_CUBE_DIM_MAX: u32 = 64;

/// Units per workgroup on a plane-less runtime for a kernel that synchronises.
pub const CPU_SYNC_CUBE_UNITS: u32 = 1;

/// What a runtime reports of its hardware.
#[derive(Clone, Copy, Debug, PartialEq, Eq, Structural)]
pub struct Hardware {
    /// Widest plane; 1 on a runtime that has none.
    pub plane_size_max: u32,
    pub max_units_per_cube: u32,
    /// Cores of a runtime that executes on the host, where it says.
    pub num_cpu_cores: Option<u32>,
    /// Per-axis grid limits.
    pub max_cube_count_x: u32,
    pub max_cube_count_y: u32,
    pub max_cube_count_z: u32,
}

/// How many cubes a launch takes.
#[derive(Clone, Copy, Debug, PartialEq, Eq, Structural)]
pub enum CubeCount {
    /// This many along each axis.
    Static(u32, u32, u32),
    /// As many as give every one of this many lanes a unit; the runtime spreads
    /// them over the axes.
    Elementwise(usize),
}

pub open spec fn max_of(a: int, b: int) -> int {
    if a >= b {
        a
    } else {
        b
    }
}

pub open spec fn min_of(a: int, b: int) -> int {
    if a <= b {
        a
    } else {
        b
    }
}

/// `ceil(a / b)`.
pub open spec fn ceil_div(a: int, b: int) -> int {
    if a % b == 0 {
        a / b
    } else {
        a / b + 1
    }
}

/// `ceil(a / b)` is the least count of `b`s that covers `a`.
pub proof fn lemma_ceil_div(a: int, b: int)
    requires
        0 <= a,
        0 < b,
    ensures
        0 <= ceil_div(a, b) <= a,
        a <= ceil_div(a, b) * b < a + b,
        a > 0 ==> 0 < ceil_div(a, b),
        forall|k: int| 0 <= k < ceil_div(a, b) ==> #[trigger] (k * b) < a,
{
    vstd::arithmetic::div_mod::lemma_fundamental_div_mod(a, b);
    let q = a / b;
    let r = a % b;
    assert(b * q == q * b) by (nonlinear_arith);
    assert((q + 1) * b == q * b + b) by (nonlinear_arith);
    assert(0 <= q) by (nonlinear_arith)
        requires
            0 <= a,
            0 < b,
            a == b * q + r,
            0 <= r < b,
    ;
    assert(q == 0 ==> q * b == 0) by (nonlinear_arith);
    assert(q <= b * q) by (nonlinear_arith)
        requires
            0 <= q,
            1 <= b,
    ;
    assert forall|k: int| 0 <= k < ceil_div(a, b) implies #[trigger] (k * b) < a by {
        assert(k * b < a) by (nonlinear_arith)
            requires
                a == b * q + r,
                0 <= r < b,
                0 < b,
                k < q || (k <= q && r > 0),
        ;
    }
}

/// `ceil(a / b)` on machine words.
pub fn div_ceil_u32(a: u32, b: u32) -> (q: u32)
    requires
        b > 0,
    ensures
        q == ceil_div(a as int, b as int),
{
    proof {
        lemma_ceil_div(a as int, b as int);
    }
    if a % b == 0 {
        a / b
    } else {
        a / b + 1
    }
}

/// `ceil(a / b)` on sizes.
pub fn div_ceil(a: usize, b: usize) -> (q: usize)
    requires
        b > 0,
    ensures
        q == ceil_div(a as int, b as int),
{
    proof {
        lemma_ceil_div(a as int, b as int);
    }
    if a % b == 0 {
        a / b
    } else {
        a / b + 1
    }
}

fn max_u32(a: u32, b: u32) -> (m: u32)
    ensures
        m == max_of(a as int, b as int),
{
    if a >= b {
        a
    } else {
        b
    }
}

fn min_u32(a: u32, b: u32) -> (m: u32)
    ensures
        m == min_of(a as int, b as int),
{
    if a <= b {
        a
    } else {
        b
    }
}

impl Hardware {
    /// The cores a plane-less runtime may run units on.
    pub open spec fn cores(&self) -> int {
        min_of(
            max_of(
                match self.num_cpu_cores {
                    Some(n) => n as int,
                    None => 1,
                },
                1,
            ),
            CPU_CUBE_DIM_MAX as int,
        )
    }

    /// [`block_1d`] of `preferred`.
    pub open spec fn block(&self, preferred: int) -> int {
        let plane = self.plane_size_max as int;
        if plane <= 1 {
            1
        } else {
            // Whole planes, never more than the device allows, never fewer than one.
            min_of(
                max_of(preferred / plane, 1) * plane,
                max_of(self.max_units_per_cube as int, plane) / plane * plane,
            )
        }
    }

    /// [`units_per_cube`] of `lanes` units of `work_per_lane` scalar operations.
    pub open spec fn units(&self, lanes: int, work_per_lane: int) -> int {
        if self.plane_size_max > 1 {
            self.block(PREFERRED_BLOCK as int)
        } else if lanes * max_of(work_per_lane, 1) < WORK_PER_CPU_UNIT {
            1
        } else {
            self.cores()
        }
    }
}

/// Whether the runtime executes on hardware SIMD planes rather than on
/// operating-system threads.
pub fn has_planes(hardware: &Hardware) -> (planes: bool)
    ensures
        planes == (hardware.plane_size_max > 1),
{
    hardware.plane_size_max > 1
}

/// Whether a kernel should use its cooperative shape (a whole cube on one work item,
/// exchanging partial results through shared memory) rather than its serial one,
/// where a single unit owns a whole work item.
///
/// True exactly when the runtime has planes, which is what makes a barrier cheap.
pub fn cooperative(hardware: &Hardware) -> (coop: bool)
    ensures
        coop == (hardware.plane_size_max > 1),
{
    has_planes(hardware)
}

/// A 1-D workgroup size for kernels that synchronise: `preferred` rounded down to a
/// whole number of planes and clamped to the device's maximum, or a single unit where
/// there are no planes.
pub fn block_1d(hardware: &Hardware, preferred: u32) -> (block: u32)
    ensures
        block == hardware.block(preferred as int),
        block > 0,
        hardware.plane_size_max > 1 ==> block % hardware.plane_size_max == 0,
        block <= max_of(max_of(preferred as int, hardware.plane_size_max as int), 1),
{
    let plane: u32 = max_u32(hardware.plane_size_max, 1);
    if plane == 1 {
        return CPU_SYNC_CUBE_UNITS;
    }
    let limit: u32 = max_u32(hardware.max_units_per_cube, plane);
    let planes: u32 = max_u32(preferred / plane, 1);
    proof {
        vstd::arithmetic::div_mod::lemma_fundamental_div_mod(preferred as int, plane as int);
        vstd::arithmetic::div_mod::lemma_fundamental_div_mod(limit as int, plane as int);
        assert(preferred / plane * plane <= preferred) by (nonlinear_arith)
            requires
                preferred == plane * (preferred / plane) + preferred % plane,
                0 <= preferred % plane,
        ;
        assert(limit / plane * plane <= limit) by (nonlinear_arith)
            requires
                limit == plane * (limit / plane) + limit % plane,
                0 <= limit % plane,
        ;
        assert(1 * plane == plane);
        assert(limit / plane * plane >= plane) by (nonlinear_arith)
            requires
                limit == plane * (limit / plane) + limit % plane,
                limit % plane < plane,
                limit >= plane,
        ;
        assert(planes * plane >= plane) by (nonlinear_arith)
            requires
                planes >= 1,
        ;
        vstd::arithmetic::div_mod::lemma_mod_multiples_basic(planes as int, plane as int);
        vstd::arithmetic::div_mod::lemma_mod_multiples_basic((limit / plane) as int, plane as int);
    }
    let whole: u32 = limit / plane * plane;
    min_u32(planes * plane, whole)
}

/// Units per workgroup for `lanes` units of `work_per_lane` scalar operations.
///
/// Independent of `lanes` but for the question whether the launch is worth any
/// threads at all: every distinct width is another compilation of the kernel.
fn units_per_cube(hardware: &Hardware, lanes: usize, work_per_lane: usize) -> (units: u32)
    ensures
        units == hardware.units(lanes as int, work_per_lane as int),
        units > 0,
        units <= max_of(PREFERRED_BLOCK as int, hardware.plane_size_max as int),
{
    if has_planes(hardware) {
        return block_1d(hardware, PREFERRED_BLOCK);
    }
    let reported: u32 = match hardware.num_cpu_cores {
        Some(n) => n,
        None => 1,
    };
    let cores: u32 = min_u32(max_u32(reported, 1), CPU_CUBE_DIM_MAX);
    let work: usize = if work_per_lane == 0 {
        1
    } else {
        work_per_lane
    };
    let small: bool = match lanes.checked_mul(work) {
        Some(total) => total < WORK_PER_CPU_UNIT,
        None => false,
    };
    if small {
        return 1;
    }
    cores
}

/// Geometry for a kernel that maps one unit to one element, whose units are not all
/// the same size: the cube count and the units per cube.
pub fn elementwise_with_work(hardware: &Hardware, lanes: usize, work_per_lane: usize) -> (shape: (
    CubeCount,
    u32,
))
    ensures
        lanes == 0 ==> shape == (CubeCount::Static(1, 1, 1), 1u32),
        lanes > 0 ==> shape.0 == CubeCount::Elementwise(lanes) && shape.1 == hardware.units(
            lanes as int,
            work_per_lane as int,
        ),
{
    if lanes == 0 {
        // A single idle cube is the cheaper thing to hand a backend that dislikes
        // an empty dispatch.
        return (CubeCount::Static(1, 1, 1), 1);
    }
    (CubeCount::Elementwise(lanes), units_per_cube(hardware, lanes, work_per_lane))
}

/// [`elementwise_with_work`] for a kernel worth one scalar operation per unit.
pub fn elementwise(hardware: &Hardware, lanes: usize) -> (shape: (CubeCount, u32))
    ensures
        lanes == 0 ==> shape == (CubeCount::Static(1, 1, 1), 1u32),
        lanes > 0 ==> shape.0 == CubeCount::Elementwise(lanes) && shape.1 == hardware.units(
            lanes as int,
            1,
        ),
{
    elementwise_with_work(hardware, lanes, 1)
}

/// [`elementwise_with_work`] for a kernel whose unit takes a run of consecutive lanes
/// rather than one: the geometry and the run length.
///
/// Unit `u` takes the lanes from `u * run` up to `u * run + run`, as far as there are
/// lanes. With planes the run is one; without, a single cube covers the range.
pub fn elementwise_runs(hardware: &Hardware, lanes: usize, work_per_lane: usize) -> (shape: (
    CubeCount,
    u32,
    usize,
))
    ensures
        hardware.plane_size_max > 1 && lanes > 0 ==> shape == (
            CubeCount::Elementwise(lanes),
            hardware.units(lanes as int, work_per_lane as int) as u32,
            1usize,
        ),
        lanes == 0 ==> shape == (CubeCount::Static(1, 1, 1), 1u32, 1usize),
        hardware.plane_size_max <= 1 && lanes > 0 ==> shape.0 == CubeCount::Static(1, 1, 1)
            && shape.1 == hardware.units(lanes as int, work_per_lane as int) && shape.2 == ceil_div(
            lanes as int,
            shape.1 as int,
        ) && shape.1 * shape.2 >= lanes,
{
    if has_planes(hardware) || lanes == 0 {
        let (count, units) = elementwise_with_work(hardware, lanes, work_per_lane);
        return (count, units, 1);
    }
    let units: u32 = units_per_cube(hardware, lanes, work_per_lane);
    proof {
        lemma_ceil_div(lanes as int, units as int);
        let run = ceil_div(lanes as int, units as int);
        assert(units * run == run * units) by (nonlinear_arith);
    }
    (CubeCount::Static(1, 1, 1), units, div_ceil(lanes, units as usize))
}

/// The run length a plane-less runtime wants for `lanes` split over `units`; one on a
/// runtime with planes.
pub fn run_length(hardware: &Hardware, lanes: usize, units: u32) -> (run: usize)
    ensures
        hardware.plane_size_max > 1 ==> run == 1,
        hardware.plane_size_max <= 1 ==> run == max_of(
            ceil_div(lanes as int, max_of(units as int, 1)),
            1,
        ),
{
    if has_planes(hardware) {
        1
    } else {
        let run: usize = div_ceil(lanes, max_u32(units, 1) as usize);
        if run == 0 {
            1
        } else {
            run
        }
    }
}

/// The cube width the serial shape runs at: every core on a plane-less runtime, a
/// plane-aligned block elsewhere.
pub fn serial_width(hardware: &Hardware) -> (width: u32)
    ensures
        hardware.plane_size_max > 1 ==> width == hardware.block(PREFERRED_BLOCK as int),
        hardware.plane_size_max <= 1 ==> width == hardware.cores(),
        width > 0,
        width <= max_of(PREFERRED_BLOCK as int, hardware.plane_size_max as int),
{
    units_per_cube(hardware, WORK_PER_CPU_UNIT, 1)
}

/// [`block_1d`] for a kernel that never synchronises, which has nothing to lose from
/// a wide cube on a plane-less runtime.
pub fn free_block_1d(hardware: &Hardware, preferred: u32) -> (block: u32)
    ensures
        hardware.plane_size_max > 1 ==> block == hardware.block(preferred as int),
        hardware.plane_size_max <= 1 ==> block == hardware.cores(),
        block > 0,
{
    if has_planes(hardware) {
        block_1d(hardware, preferred)
    } else {
        serial_width(hardware)
    }
}

/// [`block_1d`] for a kernel whose units cooperate through a shared-memory scan or tree
/// reduction: the largest power of two in it, which is what such a loop covers.
pub fn scan_block_1d(hardware: &Hardware, preferred: u32) -> (block: u32)
    ensures
        exists|k: nat| block == #[trigger] vstd::arithmetic::power2::pow2(k),
        block <= hardware.block(preferred as int) < 2 * block,
{
    let whole: u32 = block_1d(hardware, preferred);
    let mut block: u32 = 1;
    let ghost mut k: nat = 0;
    proof {
        vstd::arithmetic::power2::lemma2_to64();
    }
    while block <= whole / 2
        invariant
            whole > 0,
            0 < block <= whole,
            block == vstd::arithmetic::power2::pow2(k),
        decreases whole - block,
    {
        proof {
            vstd::arithmetic::power2::lemma_pow2_unfold(k + 1);
            k = k + 1;
        }
        block = block * 2;
    }
    block
}

/// Cube-count geometry for a kernel that maps one whole cube to one item of work, the
/// items numbered by the flattened cube index.
///
/// Spreads `cubes` across X, then Y, then Z so that no axis exceeds the device's
/// limit. A partially filled last row or plane overprovisions, so the kernel checks
/// the flattened index itself.
pub fn cubes_1d(hardware: &Hardware, cubes: u32) -> (count: CubeCount)
    ensures
        count matches CubeCount::Static(x, y, z) && x > 0 && y > 0 && z > 0 && x <= max_of(
            hardware.max_cube_count_x as int,
            1,
        ) && y <= max_of(hardware.max_cube_count_y as int, 1) && z <= max_of(
            hardware.max_cube_count_z as int,
            1,
        ) && (cubes == 0 ==> (x, y, z) == (1u32, 1u32, 1u32)) && (cubes > 0 ==> {
            let rows = ceil_div(cubes as int, x as int);
            &&& x == min_of(cubes as int, max_of(hardware.max_cube_count_x as int, 1))
            &&& y == min_of(rows, max_of(hardware.max_cube_count_y as int, 1))
            &&& z == min_of(
                ceil_div(rows, y as int),
                max_of(hardware.max_cube_count_z as int, 1),
            )
        }),
{
    if cubes == 0 {
        return CubeCount::Static(1, 1, 1);
    }
    let x: u32 = min_u32(cubes, max_u32(hardware.max_cube_count_x, 1));
    proof {
        lemma_ceil_div(cubes as int, x as int);
    }
    let rows: u32 = div_ceil_u32(cubes, x);
    let y: u32 = min_u32(rows, max_u32(hardware.max_cube_count_y, 1));
    proof {
        lemma_ceil_div(rows as int, y as int);
    }
    let z: u32 = min_u32(div_ceil_u32(rows, y), max_u32(hardware.max_cube_count_z, 1));
    CubeCount::Static(x, y, z)
}

/// Every item has a cube: wherever the three axes together can hold `cubes` items, the
/// grid [`cubes_1d`] gives has at least that many.
pub proof fn lemma_cubes_cover(hardware: &Hardware, cubes: int, x: int, y: int, z: int)
    requires
        cubes > 0,
        x == min_of(cubes, max_of(hardware.max_cube_count_x as int, 1)),
        y == min_of(ceil_div(cubes, x), max_of(hardware.max_cube_count_y as int, 1)),
        z == min_of(
            ceil_div(ceil_div(cubes, x), y),
            max_of(hardware.max_cube_count_z as int, 1),
        ),
        cubes <= hardware.max_cube_count_x * hardware.max_cube_count_y * hardware.max_cube_count_z,
    ensures
        x * y * z >= cubes,
{
    lemma_ceil_div(cubes, x);
    let rows = ceil_div(cubes, x);
    lemma_ceil_div(rows, y);
    let planes = ceil_div(rows, y);
    let (mx, my, mz) = (
        hardware.max_cube_count_x as int,
        hardware.max_cube_count_y as int,
        hardware.max_cube_count_z as int,
    );
    if z == planes {
        assert(x * y * z >= cubes) by (nonlinear_arith)
            requires
                z * y >= rows,
                rows * x >= cubes,
                x > 0,
        ;
    } else {
        assert(mx > 0 && my > 0 && mz > 0) by (nonlinear_arith)
            requires
                0 < cubes <= mx * my * mz,
                0 <= mx,
                0 <= my,
                0 <= mz,
        ;
        if y == rows {
            assert(rows % rows == 0 && rows / rows == 1) by {
                vstd::arithmetic::div_mod::lemma_div_by_self(rows);
                vstd::arithmetic::div_mod::lemma_mod_self_0(rows);
            }
            assert(planes == 1);
        } else if x == cubes {
            assert(cubes % cubes == 0 && cubes / cubes == 1) by {
                vstd::arithmetic::div_mod::lemma_div_by_self(cubes);
                vstd::arithmetic::div_mod::lemma_mod_self_0(cubes);
            }
            assert(rows == 1);
        } else {
            assert(x * y * z == mx * my * mz);
        }
    }
}

/// The widest vector width among `widths`, widest first, that divides every one of
/// `extents` exactly; one where none does.
///
/// A partial trailing vector would read or write past the end, so the length and
/// every offset a kernel adds to an index must be a multiple of the width.
pub fn line_size_for(widths: &[usize], extents: &[usize]) -> (width: usize)
    ensures
        (exists|i: int|
            0 <= i < widths.len() && width == #[trigger] widths[i] && divides_all(width as int, extents@)
                && forall|j: int| 0 <= j < i ==> !divides_all(#[trigger] widths[j] as int, extents@))
            || (width == 1 && forall|j: int|
            0 <= j < widths.len() ==> !divides_all(#[trigger] widths[j] as int, extents@)),
{
    let mut i: usize = 0;
    while i < widths.len()
        invariant
            i <= widths.len(),
            forall|j: int| 0 <= j < i ==> !divides_all(#[trigger] widths[j] as int, extents@),
        decreases widths.len() - i,
    {
        let width: usize = widths[i];
        let mut fit: bool = true;
        let mut e: usize = 0;
        while e < extents.len()
            invariant
                e <= extents.len(),
                fit == forall|j: int|
                    0 <= j < e ==> multiple_of(#[trigger] extents[j] as int, width as int),
            decreases extents.len() - e,
        {
            if !extents[e].is_multiple_of(width) {
                fit = false;
            }
            e += 1;
        }
        if fit {
            return width;
        }
        i += 1;
    }
    1
}

/// `e` is a multiple of `width`; zero is a multiple of every width, and the only
/// multiple of zero.
pub open spec fn multiple_of(e: int, width: int) -> bool {
    if width == 0 {
        e == 0
    } else {
        e % width == 0
    }
}

pub open spec fn divides_all(width: int, extents: Seq<usize>) -> bool {
    forall|j: int| 0 <= j < extents.len() ==> multiple_of(#[trigger] extents[j] as int, width)
}

/// A block is made of whole planes: as many as the preferred size and the device have room for, and
/// one at least. A device without planes has a block of one.
pub proof fn lemma_block(hardware: &Hardware, preferred: int)
    requires
        preferred >= 0,
    ensures
        hardware.plane_size_max <= 1 ==> hardware.block(preferred) == 1,
        hardware.plane_size_max > 1 ==> {
            let plane = hardware.plane_size_max as int;
            let block = hardware.block(preferred);
            &&& block % plane == 0
            &&& block >= plane
            &&& preferred >= plane ==> block <= preferred
            &&& hardware.max_units_per_cube >= plane ==> block <= hardware.max_units_per_cube
            &&& block + plane > preferred || block + plane > hardware.max_units_per_cube
        },
{
    let plane = hardware.plane_size_max as int;
    if plane > 1 {
        let most = max_of(hardware.max_units_per_cube as int, plane);
        let a = max_of(preferred / plane, 1);
        let b = most / plane;
        vstd::arithmetic::div_mod::lemma_fundamental_div_mod(preferred, plane);
        vstd::arithmetic::div_mod::lemma_fundamental_div_mod(most, plane);
        vstd::arithmetic::div_mod::lemma_mod_multiples_basic(a, plane);
        vstd::arithmetic::div_mod::lemma_mod_multiples_basic(b, plane);
        assert(plane * (preferred / plane) == (preferred / plane) * plane) by (nonlinear_arith);
        assert(plane * b == b * plane) by (nonlinear_arith);
        assert(b >= 1) by (nonlinear_arith)
            requires
                most == b * plane + most % plane,
                most % plane < plane,
                most >= plane,
                plane > 1,
        ;
        assert(a * plane >= plane && b * plane >= plane) by (nonlinear_arith)
            requires
                a >= 1,
                b >= 1,
                plane > 1,
        ;
        assert(1 * plane == plane);
        if preferred >= plane {
            assert(preferred / plane >= 1) by (nonlinear_arith)
                requires
                    preferred == (preferred / plane) * plane + preferred % plane,
                    preferred % plane < plane,
                    preferred >= plane,
                    plane > 1,
            ;
        }
    }
}

/// The units of a device without planes are its cores, one where it does not say and no more than
/// the most; little work is done by one unit.
pub proof fn lemma_units(hardware: &Hardware, lanes: int, work_per_lane: int)
    ensures
        1 <= hardware.cores() <= CPU_CUBE_DIM_MAX,
        hardware.num_cpu_cores is None ==> hardware.cores() == 1,
        hardware.num_cpu_cores matches Some(n) && 1 <= n <= CPU_CUBE_DIM_MAX ==> hardware.cores()
            == hardware.num_cpu_cores->0,
        hardware.num_cpu_cores matches Some(n) && n > CPU_CUBE_DIM_MAX ==> hardware.cores() == CPU_CUBE_DIM_MAX,
        hardware.plane_size_max > 1 ==> hardware.units(lanes, work_per_lane) == hardware.block(PREFERRED_BLOCK as int),
        hardware.plane_size_max <= 1 && work_per_lane >= 1 && lanes * work_per_lane < WORK_PER_CPU_UNIT
            ==> hardware.units(lanes, work_per_lane) == 1,
        hardware.plane_size_max <= 1 && work_per_lane >= 1 && lanes * work_per_lane >= WORK_PER_CPU_UNIT
            ==> hardware.units(lanes, work_per_lane) == hardware.cores(),
{
}

/// The smaller and the larger of two numbers.
pub proof fn lemma_smaller_larger(a: int, b: int)
    ensures
        min_of(a, b) <= a && min_of(a, b) <= b && (min_of(a, b) == a || min_of(a, b) == b),
        max_of(a, b) >= a && max_of(a, b) >= b && (max_of(a, b) == a || max_of(a, b) == b),
{
}

/// A width fits an extent exactly where the extent is made of whole widths.
pub proof fn lemma_multiple_of(e: int, width: int, k: int)
    requires
        width > 0,
    ensures
        multiple_of(k * width, width),
        multiple_of(e, width) ==> e == (e / width) * width,
        multiple_of(e, 1),
{
    vstd::arithmetic::div_mod::lemma_mod_multiples_basic(k, width);
    vstd::arithmetic::div_mod::lemma_fundamental_div_mod(e, width);
    assert(width * (e / width) == (e / width) * width) by (nonlinear_arith);
}

} // verus!
