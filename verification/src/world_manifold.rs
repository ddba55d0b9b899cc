//! The deformable terrain field: a sparse scalar grid over a fixed 10000 x
//! 10000 cell extent, shaped by additive deformation kernels, with height
//! and finite-difference gradient queries.
//!
//! A world position maps to a cell through a fixed linear scale (three
//! cells per unit) and center offset, rounded to the nearest cell. Cells
//! that were never touched read as zero. Every applied deformation is
//! recorded, and `flatten` replays the record with negated magnitudes,
//! which restores every cell exactly — the accumulation operator is plain
//! addition on exact integers.
//!
//! The kernel falloff law is inverse-square decay: a kernel cell at offset
//! `(dx, dy)` from the center holds `magnitude * FRAC / (1 + dx^2 + dy^2)`,
//! truncated toward zero, over a 17 x 17 window (radius 8, odd size, true
//! center cell).

use std::collections::HashMap;
use vstd::prelude::*;
use crate::fixed::FRAC;
use crate::fixed::fx_mul;
use crate::fixed::fx_mul_spec;
use crate::fixed::lemma_fx_mul_div_bound;
use crate::fixed::lemma_mul_abs_bound;
use crate::fixed::lemma_tdiv_abs_le;
use crate::fixed::scale_div;
use crate::fixed::tdiv;
use crate::vec3::V3;
use crate::vec3::Vec3;
use crate::vec3::vec_bounded;

verus! {

broadcast use vstd::std_specs::hash::group_hash_axioms;

/// Cells per grid side; valid kernel centers lie in `[1, GRID_EXTENT - 2]`.
pub const GRID_EXTENT: i64 = 10000;

/// Smallest world coordinate that maps to a valid kernel center cell.
pub const WORLD_COORD_MIN: i64 = -1666500;

/// Largest world coordinate that maps to a valid kernel center cell.
pub const WORLD_COORD_MAX: i64 = 1666166;

/// Largest deformation magnitude one call accepts.
pub const MAX_MAGNITUDE: i64 = 1000000;

/// Most deformation records the history holds at once.
pub const MAX_DEFORMS: usize = 65536;

/// Kernel cells run over offsets `-KERNEL_RADIUS ..= KERNEL_RADIUS`.
pub const KERNEL_RADIUS: i64 = 8;

/// Kernel side length: `2 * KERNEL_RADIUS + 1`, odd by construction.
pub const KERNEL_SIZE: i64 = 17;

/// Number of cells in one kernel: `KERNEL_SIZE * KERNEL_SIZE`.
pub const KERNEL_CELLS: usize = 289;

/// No kernel cell exceeds this: `MAX_MAGNITUDE * FRAC`.
pub const KERNEL_VALUE_LIMIT: i64 = 1000000000;

/// No grid cell exceeds this while the history is within `MAX_DEFORMS`:
/// `MAX_DEFORMS * KERNEL_VALUE_LIMIT`.
pub const CELL_VALUE_LIMIT: i64 = 65536000000000;

/// The square root of two in fixed point, the diagonal weight of the
/// gradient stencil.
pub const SQRT_2: i64 = 1414;

/// Every gradient component stays within this bound on a well-formed
/// field.
pub const GRADIENT_LIMIT: i64 = 0x2_0000_0000_0000;

/// The single fatal error class: a world position that maps outside the
/// valid grid range. The field never clamps such a query.
#[derive(Clone, Copy, PartialEq, Eq, Structural, Debug)]
pub enum FieldError {
    OutOfBounds,
}

/// One recorded accumulation: magnitude and the world position it was
/// applied at.
#[derive(Clone, Copy, PartialEq, Eq, Structural, Debug)]
pub struct Deformation {
    pub magnitude: i64,
    pub x: i64,
    pub y: i64,
}

/// The deformable field: sparse cell storage, the kernel cache keyed by
/// magnitude, and the history of applied deformations.
pub struct WorldManifold {
    pub field: HashMap<u64, i64>,
    pub deform_memo: HashMap<i64, Vec<i64>>,
    pub deform_stack: Vec<Deformation>,
}

/// The cell a world coordinate maps to: `round(w * 3 / 1000) + 5000`,
/// written as one floor division.
pub open spec fn cell_of(w: int) -> int {
    (3 * w + 5000500) / 1000
}

/// Both coordinates map to a valid kernel center: one cell of margin on
/// every side, because gradient sampling touches the eight neighbors.
pub open spec fn pos_in_bounds(x: int, y: int) -> bool {
    &&& 1 <= cell_of(x) <= GRID_EXTENT - 2
    &&& 1 <= cell_of(y) <= GRID_EXTENT - 2
}

/// Storage key of cell `(cx, cy)`; injective over the grid.
pub open spec fn cell_key(cx: int, cy: int) -> u64 {
    (cy * GRID_EXTENT + cx) as u64
}

/// Kernel falloff law: inverse-square decay from the center, in fixed
/// point, truncated toward zero. Negating the magnitude negates every
/// cell exactly.
pub open spec fn kernel_value(m: int, dx: int, dy: int) -> int {
    tdiv(m * (FRAC as int), 1 + dx * dx + dy * dy)
}

/// `k` is the correctly computed kernel for magnitude `m`, flattened in
/// row-major order with the center at offset `(8, 8)`.
pub open spec fn kernel_ok(k: Seq<i64>, m: int) -> bool {
    &&& k.len() == KERNEL_CELLS
    &&& forall|i: int|
        0 <= i < KERNEL_CELLS ==> #[trigger] k[i] == kernel_value(
            m,
            (i % (KERNEL_SIZE as int)) - KERNEL_RADIUS,
            (i / (KERNEL_SIZE as int)) - KERNEL_RADIUS,
        )
}

/// Every cached kernel belongs to its key.
pub open spec fn memo_wf(m: HashMap<i64, Vec<i64>>) -> bool {
    forall|mag: i64| m@.contains_key(mag) ==> kernel_ok(#[trigger] m@[mag]@, mag as int)
}

/// What one blended kernel centered at `(ccx, ccy)` adds to cell
/// `(cx, cy)`: the kernel value inside the window, nothing outside.
pub open spec fn window_term(ccx: int, ccy: int, m: int, cx: int, cy: int) -> int {
    if -(KERNEL_RADIUS as int) <= cx - ccx <= KERNEL_RADIUS as int && -(KERNEL_RADIUS as int) <= cy
        - ccy <= KERNEL_RADIUS as int {
        kernel_value(m, cx - ccx, cy - ccy)
    } else {
        0
    }
}

/// What one recorded deformation contributes to cell `(cx, cy)`.
pub open spec fn contribution(d: Deformation, cx: int, cy: int) -> int {
    window_term(cell_of(d.x as int), cell_of(d.y as int), d.magnitude as int, cx, cy)
}

/// Total contribution of a history of deformations to cell `(cx, cy)`.
pub open spec fn stack_sum(s: Seq<Deformation>, cx: int, cy: int) -> int
    decreases s.len(),
{
    if s.len() == 0 {
        0
    } else {
        stack_sum(s.drop_last(), cx, cy) + contribution(s.last(), cx, cy)
    }
}

/// A record the history may hold: bounded magnitude, position inside the
/// valid grid range.
pub open spec fn deformation_ok(d: Deformation) -> bool {
    &&& -MAX_MAGNITUDE <= d.magnitude <= MAX_MAGNITUDE
    &&& pos_in_bounds(d.x as int, d.y as int)
}

/// The scalar value of cell `(cx, cy)` in a cell store: the stored value,
/// or zero for a never-touched cell.
pub open spec fn map_cell(m: Map<u64, i64>, cx: int, cy: int) -> int {
    if m.contains_key(cell_key(cx, cy)) {
        m[cell_key(cx, cy)] as int
    } else {
        0
    }
}

impl WorldManifold {
    /// The scalar value of cell `(cx, cy)`: stored value, or zero for a
    /// never-touched cell.
    pub open spec fn spec_cell(&self, cx: int, cy: int) -> int {
        map_cell(self.field@, cx, cy)
    }

    /// Height at the cell a world position maps to.
    pub open spec fn spec_height(&self, x: int, y: int) -> int {
        self.spec_cell(cell_of(x), cell_of(y))
    }

    /// Well-formedness: the history is bounded and every record valid,
    /// every cached kernel correct, every stored key a real cell, and
    /// every cell holds exactly what the history says it accumulated.
    pub open spec fn wf(&self) -> bool {
        &&& self.deform_stack@.len() <= MAX_DEFORMS
        &&& forall|i: int|
            0 <= i < self.deform_stack@.len() ==> deformation_ok(#[trigger] self.deform_stack@[i])
        &&& memo_wf(self.deform_memo)
        &&& forall|k: u64| self.field@.contains_key(k) ==> k < 100000000
        &&& forall|cx: int, cy: int|
            0 <= cx < GRID_EXTENT && 0 <= cy < GRID_EXTENT ==> #[trigger] self.spec_cell(cx, cy)
                == stack_sum(self.deform_stack@, cx, cy)
    }

    /// A fresh field: empty storage, empty cache, empty history — every
    /// cell reads zero.
    pub fn default() -> (r: WorldManifold)
        ensures
            r.wf(),
            r.deform_stack@.len() == 0,
            r.deform_memo@.len() == 0,
            forall|cx: int, cy: int|
                0 <= cx < GRID_EXTENT && 0 <= cy < GRID_EXTENT ==> #[trigger] r.spec_cell(cx, cy)
                    == 0,
    {
        WorldManifold {
            field: HashMap::new(),
            deform_memo: HashMap::new(),
            deform_stack: Vec::new(),
        }
    }

    /// Number of distinct kernels computed so far; `deform` grows it only
    /// on a cache miss.
    pub fn kernel_count(&self) -> (r: usize)
        ensures
            r == self.deform_memo@.len(),
    {
        self.deform_memo.len()
    }

    /// Map a world position to its grid cell, failing exactly when the
    /// cell falls outside the valid range.
    pub fn world_pos_to_field_pos_2d(x: i64, y: i64) -> (r: Option<(i64, i64)>)
        ensures
            r is Some <==> pos_in_bounds(x as int, y as int),
            r matches Some(c) ==> c.0 == cell_of(x as int) && c.1 == cell_of(y as int) && 1 <= c.0
                <= GRID_EXTENT - 2 && 1 <= c.1 <= GRID_EXTENT - 2,
    {
        if x < WORLD_COORD_MIN || x > WORLD_COORD_MAX || y < WORLD_COORD_MIN || y
            > WORLD_COORD_MAX {
            proof {
                lemma_bounds_window(x as int);
                lemma_bounds_window(y as int);
            }
            None
        } else {
            proof {
                lemma_bounds_window(x as int);
                lemma_bounds_window(y as int);
            }
            let cx = (((3 * x + 5000500) as u64) / 1000) as i64;
            let cy = (((3 * y + 5000500) as u64) / 1000) as i64;
            Some((cx, cy))
        }
    }

    /// Map a world position to its grid cell, ignoring the unused third
    /// component.
    pub fn world_pos_to_field_pos(pos: Vec3) -> (r: Option<(i64, i64)>)
        ensures
            r is Some <==> pos_in_bounds(pos@.x, pos@.y),
            r matches Some(c) ==> c.0 == cell_of(pos@.x) && c.1 == cell_of(pos@.y) && 1 <= c.0
                <= GRID_EXTENT - 2 && 1 <= c.1 <= GRID_EXTENT - 2,
    {
        Self::world_pos_to_field_pos_2d(pos.x, pos.y)
    }

    /// Read one cell directly.
    fn get_cell(&self, cx: i64, cy: i64) -> (r: i64)
        requires
            0 <= cx < GRID_EXTENT,
            0 <= cy < GRID_EXTENT,
        ensures
            r as int == self.spec_cell(cx as int, cy as int),
    {
        let key: u64 = (cy * GRID_EXTENT + cx) as u64;
        match self.field.get(&key) {
            Some(v) => *v,
            None => 0,
        }
    }

    /// Height of the terrain at a world position: the mapped cell's
    /// accumulated value, or the bounds failure when the position maps
    /// outside the valid range.
    pub fn height_at(&self, x: i64, y: i64) -> (r: Result<i64, FieldError>)
        requires
            self.wf(),
        ensures
            r is Ok <==> pos_in_bounds(x as int, y as int),
            r matches Ok(h) ==> h == self.spec_height(x as int, y as int),
    {
        match Self::world_pos_to_field_pos_2d(x, y) {
            Some((cx, cy)) => Ok(self.get_cell(cx, cy)),
            None => Err(FieldError::OutOfBounds),
        }
    }
}

impl WorldManifold {
    /// Compute the kernel for one magnitude: 17 x 17 inverse-square
    /// falloff values in row-major order.
    fn calculate_deformation(magnitude: i64) -> (k: Vec<i64>)
        requires
            -MAX_MAGNITUDE <= magnitude <= MAX_MAGNITUDE,
        ensures
            kernel_ok(k@, magnitude as int),
    {
        let mut k: Vec<i64> = Vec::new();
        let mut i: usize = 0;
        while i < KERNEL_CELLS
            invariant
                -MAX_MAGNITUDE <= magnitude <= MAX_MAGNITUDE,
                i <= KERNEL_CELLS,
                k@.len() == i,
                forall|j: int|
                    0 <= j < i ==> #[trigger] k@[j] == kernel_value(
                        magnitude as int,
                        (j % (KERNEL_SIZE as int)) - KERNEL_RADIUS as int,
                        (j / (KERNEL_SIZE as int)) - KERNEL_RADIUS as int,
                    ),
            decreases KERNEL_CELLS - i,
        {
            let col = (i % 17) as i64;
            let row = (i / 17) as i64;
            let dx = col - KERNEL_RADIUS;
            let dy = row - KERNEL_RADIUS;
            proof {
                lemma_mul_abs_bound(dx as int, dx as int, 8, 8);
                lemma_mul_abs_bound(dy as int, dy as int, 8, 8);
                assert(dx * dx >= 0 && dy * dy >= 0) by (nonlinear_arith);
                lemma_mul_abs_bound(magnitude as int, FRAC as int, MAX_MAGNITUDE as int, FRAC as int);
                lemma_tdiv_abs_le(magnitude * (FRAC as int), 1 + dx * dx + dy * dy);
            }
            let den: i64 = 1 + dx * dx + dy * dy;
            let v = scale_div(magnitude, FRAC, den);
            k.push(v);
            i = i + 1;
        }
        k
    }

    /// Look the kernel for `magnitude` up in the cache, computing and
    /// inserting it only if it was never seen. A cache hit leaves the
    /// cache exactly as it was: nothing is recomputed.
    fn find_deformation(deform_memo: &mut HashMap<i64, Vec<i64>>, magnitude: i64)
        requires
            -MAX_MAGNITUDE <= magnitude <= MAX_MAGNITUDE,
            memo_wf(*old(deform_memo)),
        ensures
            memo_wf(*final(deform_memo)),
            final(deform_memo)@.contains_key(magnitude),
            old(deform_memo)@.contains_key(magnitude) ==> *final(deform_memo) == *old(
                deform_memo,
            ),
            !old(deform_memo)@.contains_key(magnitude) ==> final(deform_memo)@.len() == old(
                deform_memo,
            )@.len() + 1,
            final(deform_memo)@.remove(magnitude) == old(deform_memo)@.remove(magnitude),
    {
        if deform_memo.contains_key(&magnitude) {
            return ;
        }
        let k = Self::calculate_deformation(magnitude);
        deform_memo.insert(magnitude, k);
        proof {
            assert(deform_memo@.remove(magnitude) =~= old(deform_memo)@.remove(magnitude));
        }
    }

    /// Additively blend the kernel for `magnitude` into the grid,
    /// centered at cell `(ccx, ccy)` and clipped to the grid bounds.
    fn blend_kernel(&mut self, ccx: i64, ccy: i64, magnitude: i64)
        requires
            1 <= ccx <= GRID_EXTENT - 2,
            1 <= ccy <= GRID_EXTENT - 2,
            -MAX_MAGNITUDE <= magnitude <= MAX_MAGNITUDE,
            memo_wf(old(self).deform_memo),
            forall|k: u64| old(self).field@.contains_key(k) ==> k < 100000000,
            forall|cx: int, cy: int|
                0 <= cx < GRID_EXTENT && 0 <= cy < GRID_EXTENT ==> -(CELL_VALUE_LIMIT as int)
                    <= #[trigger] old(self).spec_cell(cx, cy) <= CELL_VALUE_LIMIT as int,
        ensures
            final(self).deform_stack == old(self).deform_stack,
            memo_wf(final(self).deform_memo),
            final(self).deform_memo@.contains_key(magnitude),
            old(self).deform_memo@.contains_key(magnitude)
                ==> final(self).deform_memo == old(self).deform_memo,
            !old(self).deform_memo@.contains_key(magnitude)
                ==> final(self).deform_memo@.len() == old(self).deform_memo@.len() + 1,
            final(self).deform_memo@.remove(magnitude) == old(self).deform_memo@.remove(
                magnitude,
            ),
            forall|k: u64| final(self).field@.contains_key(k) ==> k < 100000000,
            forall|cx: int, cy: int|
                0 <= cx < GRID_EXTENT && 0 <= cy < GRID_EXTENT
                    ==> #[trigger] final(self).spec_cell(cx, cy) == old(self).spec_cell(cx, cy)
                    + window_term(ccx as int, ccy as int, magnitude as int, cx, cy),
    {
        Self::find_deformation(&mut self.deform_memo, magnitude);
        let ghost base = self.field@;
        let ghost memo1 = self.deform_memo;
        let ghost stack1 = self.deform_stack;
        proof {
            assert forall|cx: int, cy: int|
                0 <= cx < GRID_EXTENT && 0 <= cy < GRID_EXTENT implies -(CELL_VALUE_LIMIT as int)
                <= #[trigger] map_cell(base, cx, cy) <= CELL_VALUE_LIMIT as int by {
                assert(old(self).spec_cell(cx, cy) == map_cell(base, cx, cy));
            }
        }
        let mut i: usize = 0;
        while i < KERNEL_CELLS
            invariant
                i <= KERNEL_CELLS,
                1 <= ccx <= GRID_EXTENT - 2,
                1 <= ccy <= GRID_EXTENT - 2,
                -MAX_MAGNITUDE <= magnitude <= MAX_MAGNITUDE,
                self.deform_memo == memo1,
                self.deform_stack == stack1,
                memo_wf(memo1),
                memo1@.contains_key(magnitude),
                forall|k: u64| self.field@.contains_key(k) ==> k < 100000000,
                forall|cx: int, cy: int|
                    0 <= cx < GRID_EXTENT && 0 <= cy < GRID_EXTENT ==> -(CELL_VALUE_LIMIT as int)
                        <= #[trigger] map_cell(base, cx, cy) <= CELL_VALUE_LIMIT as int,
                forall|cx: int, cy: int|
                    0 <= cx < GRID_EXTENT && 0 <= cy < GRID_EXTENT
                        ==> #[trigger] map_cell(self.field@, cx, cy) == map_cell(base, cx, cy)
                        + window_prefix(ccx as int, ccy as int, magnitude as int, cx, cy, i as int),
            decreases KERNEL_CELLS - i,
        {
            let ghost pre = self.field@;
            let col = (i % 17) as i64;
            let row = (i / 17) as i64;
            let tx = ccx - KERNEL_RADIUS + col;
            let ty = ccy - KERNEL_RADIUS + row;
            proof {
                assert(17 * (row as int) + (col as int) == i as int);
            }
            if 0 <= tx && tx < GRID_EXTENT && 0 <= ty && ty < GRID_EXTENT {
                let key: u64 = (ty * GRID_EXTENT + tx) as u64;
                let cur = match self.field.get(&key) {
                    Some(v) => *v,
                    None => 0,
                };
                let kv = match self.deform_memo.get(&magnitude) {
                    Some(kk) => kk[i],
                    None => 0,
                };
                proof {
                    assert(key == cell_key(tx as int, ty as int));
                    assert(kernel_ok(memo1@[magnitude]@, magnitude as int));
                    assert(kv == kernel_value(
                        magnitude as int,
                        tx as int - ccx as int,
                        ty as int - ccy as int,
                    ));
                    assert(map_cell(self.field@, tx as int, ty as int) == map_cell(
                        base,
                        tx as int,
                        ty as int,
                    ) + window_prefix(
                        ccx as int,
                        ccy as int,
                        magnitude as int,
                        tx as int,
                        ty as int,
                        i as int,
                    ));
                    assert(window_prefix(
                        ccx as int,
                        ccy as int,
                        magnitude as int,
                        tx as int,
                        ty as int,
                        i as int,
                    ) == 0);
                    assert(cur == map_cell(base, tx as int, ty as int));
                    lemma_kernel_value_bound(
                        magnitude as int,
                        tx as int - ccx as int,
                        ty as int - ccy as int,
                    );
                }
                self.field.insert(key, cur + kv);
                proof {
                    assert(self.field@ == pre.insert(key, (cur + kv) as i64));
                    assert forall|cx: int, cy: int|
                        0 <= cx < GRID_EXTENT && 0 <= cy < GRID_EXTENT implies #[trigger] map_cell(
                        self.field@,
                        cx,
                        cy,
                    ) == map_cell(base, cx, cy) + window_prefix(
                        ccx as int,
                        ccy as int,
                        magnitude as int,
                        cx,
                        cy,
                        i as int + 1,
                    ) by {
                        if cx == tx as int && cy == ty as int {
                            assert(map_cell(self.field@, cx, cy) == cur + kv);
                        } else {
                            assert(cell_key(cx, cy) != cell_key(tx as int, ty as int)) by {
                                if cell_key(cx, cy) == cell_key(tx as int, ty as int) {
                                    lemma_cell_key_injective(cx, cy, tx as int, ty as int);
                                }
                            }
                            assert(map_cell(self.field@, cx, cy) == map_cell(pre, cx, cy));
                            assert(map_cell(pre, cx, cy) == map_cell(base, cx, cy)
                                + window_prefix(
                                ccx as int,
                                ccy as int,
                                magnitude as int,
                                cx,
                                cy,
                                i as int,
                            ));
                            let dx: int = cx - ccx as int;
                            let dy: int = cy - ccy as int;
                            if -8 <= dx <= 8 && -8 <= dy <= 8 && (dy + 8) * 17 + (dx + 8) == i as int {
                                assert(dy + 8 == row as int && dx + 8 == col as int);
                                assert(false);
                            }
                        }
                    }
                }
            } else {
                proof {
                    assert forall|cx: int, cy: int|
                        0 <= cx < GRID_EXTENT && 0 <= cy < GRID_EXTENT implies window_prefix(
                        ccx as int,
                        ccy as int,
                        magnitude as int,
                        cx,
                        cy,
                        i as int + 1,
                    ) == window_prefix(
                        ccx as int,
                        ccy as int,
                        magnitude as int,
                        cx,
                        cy,
                        i as int,
                    ) by {
                        let dx: int = cx - ccx as int;
                        let dy: int = cy - ccy as int;
                        if -8 <= dx <= 8 && -8 <= dy <= 8 && (dy + 8) * 17 + (dx + 8) == i as int {
                            assert(dy + 8 == row as int && dx + 8 == col as int);
                            assert(cx == tx as int && cy == ty as int);
                            assert(false);
                        }
                    }
                }
            }
            i = i + 1;
        }
        proof {
            assert forall|cx: int, cy: int|
                0 <= cx < GRID_EXTENT && 0 <= cy < GRID_EXTENT implies #[trigger] self.spec_cell(
                cx,
                cy,
            ) == old(self).spec_cell(cx, cy) + window_term(
                ccx as int,
                ccy as int,
                magnitude as int,
                cx,
                cy,
            ) by {
                assert(map_cell(self.field@, cx, cy) == map_cell(base, cx, cy) + window_prefix(
                    ccx as int,
                    ccy as int,
                    magnitude as int,
                    cx,
                    cy,
                    KERNEL_CELLS as int,
                ));
                let dx: int = cx - ccx as int;
                let dy: int = cy - ccy as int;
                if -8 <= dx <= 8 && -8 <= dy <= 8 {
                    assert((dy + 8) * 17 + (dx + 8) < 289);
                }
            }
        }
    }
}

impl WorldManifold {
    /// Apply one deformation: record it, then additively blend the kernel
    /// for `magnitude` (computed once per distinct magnitude, cached
    /// thereafter) into the grid centered at the mapped cell. Fails
    /// exactly when the position maps outside the valid grid range, and
    /// then changes nothing.
    pub fn deform(&mut self, pos: Vec3, magnitude: i64) -> (r: Result<(), FieldError>)
        requires
            old(self).wf(),
            -MAX_MAGNITUDE <= magnitude <= MAX_MAGNITUDE,
            old(self).deform_stack@.len() < MAX_DEFORMS,
        ensures
            final(self).wf(),
            r is Ok <==> pos_in_bounds(pos@.x, pos@.y),
            r is Err ==> *final(self) == *old(self),
            r is Ok ==> final(self).deform_stack@ == old(self).deform_stack@.push(
                (Deformation { magnitude: magnitude, x: pos.x, y: pos.y }),
            ),
            r is Ok ==> forall|cx: int, cy: int|
                0 <= cx < GRID_EXTENT && 0 <= cy < GRID_EXTENT
                    ==> #[trigger] final(self).spec_cell(cx, cy) == old(self).spec_cell(cx, cy)
                    + contribution((Deformation { magnitude: magnitude, x: pos.x, y: pos.y }), cx, cy),
            r is Ok ==> final(self).deform_memo@.contains_key(magnitude),
            r is Ok && old(self).deform_memo@.contains_key(magnitude)
                ==> final(self).deform_memo == old(self).deform_memo,
            r is Ok && !old(self).deform_memo@.contains_key(magnitude)
                ==> final(self).deform_memo@.len() == old(self).deform_memo@.len() + 1,
    {
        match Self::world_pos_to_field_pos(pos) {
            None => Err(FieldError::OutOfBounds),
            Some((ccx, ccy)) => {
                let ghost rec = Deformation { magnitude: magnitude, x: pos.x, y: pos.y };
                self.deform_stack.push(
                    Deformation { magnitude: magnitude, x: pos.x, y: pos.y },
                );
                proof {
                    assert forall|cx: int, cy: int|
                        0 <= cx < GRID_EXTENT && 0 <= cy < GRID_EXTENT implies -(CELL_VALUE_LIMIT
                        as int) <= #[trigger] self.spec_cell(cx, cy) <= CELL_VALUE_LIMIT
                        as int by {
                        assert(old(self).spec_cell(cx, cy) == stack_sum(
                            old(self).deform_stack@,
                            cx,
                            cy,
                        ));
                        lemma_stack_sum_bound(old(self).deform_stack@, cx, cy);
                    }
                }
                self.blend_kernel(ccx, ccy, magnitude);
                proof {
                    assert forall|cx: int, cy: int|
                        0 <= cx < GRID_EXTENT && 0 <= cy < GRID_EXTENT implies #[trigger]
                        self.spec_cell(cx, cy) == stack_sum(self.deform_stack@, cx, cy) by {
                        assert(old(self).spec_cell(cx, cy) == stack_sum(
                            old(self).deform_stack@,
                            cx,
                            cy,
                        ));
                        lemma_stack_sum_push(old(self).deform_stack@, rec, cx, cy);
                    }
                    assert forall|i: int|
                        0 <= i < self.deform_stack@.len() implies deformation_ok(
                        #[trigger] self.deform_stack@[i],
                    ) by {
                        if i < old(self).deform_stack@.len() {
                            assert(deformation_ok(old(self).deform_stack@[i]));
                        }
                    }
                }
                Ok(())
            },
        }
    }

    /// Replay every recorded deformation with its magnitude negated, then
    /// clear the history: every cell returns exactly to zero, the state
    /// the field was constructed in.
    pub fn flatten(&mut self)
        requires
            old(self).wf(),
        ensures
            final(self).wf(),
            final(self).deform_stack@.len() == 0,
            forall|cx: int, cy: int|
                0 <= cx < GRID_EXTENT && 0 <= cy < GRID_EXTENT
                    ==> #[trigger] final(self).spec_cell(cx, cy) == 0,
    {
        let ghost stack0 = self.deform_stack@;
        let n = self.deform_stack.len();
        let mut i: usize = 0;
        proof {
            assert forall|cx: int, cy: int|
                0 <= cx < GRID_EXTENT && 0 <= cy < GRID_EXTENT implies #[trigger] self.spec_cell(
                cx,
                cy,
            ) == stack_sum(stack0.skip(0), cx, cy) by {
                assert(stack0.skip(0) =~= stack0);
            }
        }
        while i < n
            invariant
                i <= n,
                n == stack0.len(),
                n <= MAX_DEFORMS,
                self.deform_stack@ == stack0,
                forall|j: int| 0 <= j < stack0.len() ==> deformation_ok(#[trigger] stack0[j]),
                memo_wf(self.deform_memo),
                forall|k: u64| self.field@.contains_key(k) ==> k < 100000000,
                forall|cx: int, cy: int|
                    0 <= cx < GRID_EXTENT && 0 <= cy < GRID_EXTENT ==> #[trigger] self.spec_cell(
                        cx,
                        cy,
                    ) == stack_sum(stack0.skip(i as int), cx, cy),
            decreases n - i,
        {
            let d = self.deform_stack[i];
            let ghost pre = *self;
            match Self::world_pos_to_field_pos_2d(d.x, d.y) {
                Some((ccx, ccy)) => {
                    proof {
                        assert(deformation_ok(stack0[i as int]));
                        assert forall|j: int|
                            0 <= j < stack0.skip(i as int).len() implies deformation_ok(
                            #[trigger] stack0.skip(i as int)[j],
                        ) by {
                            assert(deformation_ok(stack0[i as int + j]));
                        }
                        assert forall|cx: int, cy: int|
                            0 <= cx < GRID_EXTENT && 0 <= cy < GRID_EXTENT implies -(
                        CELL_VALUE_LIMIT as int) <= #[trigger] self.spec_cell(cx, cy)
                            <= CELL_VALUE_LIMIT as int by {
                            lemma_stack_sum_bound(stack0.skip(i as int), cx, cy);
                        }
                    }
                    self.blend_kernel(ccx, ccy, -d.magnitude);
                    proof {
                        assert forall|cx: int, cy: int|
                            0 <= cx < GRID_EXTENT && 0 <= cy < GRID_EXTENT implies #[trigger]
                            self.spec_cell(cx, cy) == stack_sum(
                            stack0.skip(i as int + 1),
                            cx,
                            cy,
                        ) by {
                            assert(self.spec_cell(cx, cy) == pre.spec_cell(cx, cy) + window_term(
                                ccx as int,
                                ccy as int,
                                -d.magnitude as int,
                                cx,
                                cy,
                            ));
                            lemma_kernel_value_neg(d.magnitude as int, cx - ccx as int, cy - ccy as int);
                            assert(window_term(ccx as int, ccy as int, -d.magnitude as int, cx, cy)
                                == -contribution(d, cx, cy));
                            lemma_stack_sum_skip(stack0, i as int, cx, cy);
                        }
                    }
                },
                None => {
                    proof {
                        assert(deformation_ok(stack0[i as int]));
                        assert(false);
                    }
                },
            }
            i = i + 1;
        }
        let ghost before_clear = *self;
        self.deform_stack.clear();
        proof {
            assert forall|cx: int, cy: int|
                0 <= cx < GRID_EXTENT && 0 <= cy < GRID_EXTENT implies #[trigger] self.spec_cell(
                cx,
                cy,
            ) == 0 by {
                assert(stack0.skip(n as int) =~= Seq::<Deformation>::empty());
                assert(before_clear.spec_cell(cx, cy) == stack_sum(
                    stack0.skip(n as int),
                    cx,
                    cy,
                ));
            }
        }
    }
}

impl WorldManifold {
    /// Finite-difference slope along `x` at cell `(ccx, ccy)`: the three
    /// cells of the left column minus the three of the right column, the
    /// diagonal neighbors weighted by the square root of two in fixed
    /// point. Positive values push a particle away from higher field
    /// values on its right.
    pub open spec fn gradient_x_spec(&self, ccx: int, ccy: int) -> int {
        fx_mul_spec(self.spec_cell(ccx - 1, ccy + 1), SQRT_2 as int) + self.spec_cell(
            ccx - 1,
            ccy,
        ) + fx_mul_spec(self.spec_cell(ccx - 1, ccy - 1), SQRT_2 as int) - fx_mul_spec(
            self.spec_cell(ccx + 1, ccy + 1),
            SQRT_2 as int,
        ) - self.spec_cell(ccx + 1, ccy) - fx_mul_spec(
            self.spec_cell(ccx + 1, ccy - 1),
            SQRT_2 as int,
        )
    }

    /// Finite-difference slope along `y`: the lower row minus the upper
    /// row, diagonals weighted like the `x` stencil.
    pub open spec fn gradient_y_spec(&self, ccx: int, ccy: int) -> int {
        fx_mul_spec(self.spec_cell(ccx + 1, ccy - 1), SQRT_2 as int) + self.spec_cell(
            ccx,
            ccy - 1,
        ) + fx_mul_spec(self.spec_cell(ccx - 1, ccy - 1), SQRT_2 as int) - fx_mul_spec(
            self.spec_cell(ccx + 1, ccy + 1),
            SQRT_2 as int,
        ) - self.spec_cell(ccx, ccy + 1) - fx_mul_spec(
            self.spec_cell(ccx - 1, ccy + 1),
            SQRT_2 as int,
        )
    }

    /// The horizontal slope of the field at a world position, as a
    /// vector pointing away from higher field values; the vertical
    /// component is always zero. Fails exactly when the position maps
    /// outside the valid grid range.
    #[verifier::rlimit(100)]
    pub fn gradient_at(&self, pos: Vec3) -> (r: Result<Vec3, FieldError>)
        requires
            self.wf(),
        ensures
            r is Ok <==> pos_in_bounds(pos@.x, pos@.y),
            r matches Ok(g) ==> g@ == (V3 {
                x: self.gradient_x_spec(cell_of(pos@.x), cell_of(pos@.y)),
                y: self.gradient_y_spec(cell_of(pos@.x), cell_of(pos@.y)),
                z: 0,
            }),
            r matches Ok(g) ==> vec_bounded(g@, GRADIENT_LIMIT as int),
    {
        match Self::world_pos_to_field_pos(pos) {
            None => Err(FieldError::OutOfBounds),
            Some((ccx, ccy)) => {
                proof {
                    lemma_wf_cells_bounded(*self);
                }
                let c_lu = self.get_cell(ccx - 1, ccy + 1);
                let c_l = self.get_cell(ccx - 1, ccy);
                let c_ld = self.get_cell(ccx - 1, ccy - 1);
                let c_ru = self.get_cell(ccx + 1, ccy + 1);
                let c_r = self.get_cell(ccx + 1, ccy);
                let c_rd = self.get_cell(ccx + 1, ccy - 1);
                let c_u = self.get_cell(ccx, ccy + 1);
                let c_d = self.get_cell(ccx, ccy - 1);
                proof {
                    lemma_fx_mul_div_bound(c_lu as int, SQRT_2 as int, CELL_VALUE_LIMIT as int, SQRT_2 as int);
                    lemma_fx_mul_div_bound(c_ld as int, SQRT_2 as int, CELL_VALUE_LIMIT as int, SQRT_2 as int);
                    lemma_fx_mul_div_bound(c_ru as int, SQRT_2 as int, CELL_VALUE_LIMIT as int, SQRT_2 as int);
                    lemma_fx_mul_div_bound(c_rd as int, SQRT_2 as int, CELL_VALUE_LIMIT as int, SQRT_2 as int);
                }
                let w_lu = fx_mul(c_lu, SQRT_2);
                let w_ld = fx_mul(c_ld, SQRT_2);
                let w_ru = fx_mul(c_ru, SQRT_2);
                let w_rd = fx_mul(c_rd, SQRT_2);
                let gx = w_lu + c_l + w_ld - w_ru - c_r - w_rd;
                let gy = w_rd + c_d + w_ld - w_ru - c_u - w_lu;
                Ok(Vec3::new(gx, gy, 0))
            },
        }
    }
}

/// In a well-formed field no cell value exceeds `CELL_VALUE_LIMIT`.
pub proof fn lemma_wf_cells_bounded(w: WorldManifold)
    requires
        w.wf(),
    ensures
        forall|cx: int, cy: int|
            0 <= cx < GRID_EXTENT && 0 <= cy < GRID_EXTENT ==> -(CELL_VALUE_LIMIT as int)
                <= #[trigger] w.spec_cell(cx, cy) <= CELL_VALUE_LIMIT as int,
{
    assert forall|cx: int, cy: int|
        0 <= cx < GRID_EXTENT && 0 <= cy < GRID_EXTENT implies -(CELL_VALUE_LIMIT as int)
        <= #[trigger] w.spec_cell(cx, cy) <= CELL_VALUE_LIMIT as int by {
        lemma_stack_sum_bound(w.deform_stack@, cx, cy);
    }
}

/// On a freshly constructed or just-flattened field — one with no
/// recorded deformations — the height and both gradient components read
/// zero at every in-bounds position.
pub proof fn lemma_zero_field_baseline(w: WorldManifold, x: int, y: int)
    requires
        w.wf(),
        w.deform_stack@.len() == 0,
        pos_in_bounds(x, y),
    ensures
        w.spec_height(x, y) == 0,
        w.gradient_x_spec(cell_of(x), cell_of(y)) == 0,
        w.gradient_y_spec(cell_of(x), cell_of(y)) == 0,
{
    let ccx = cell_of(x);
    let ccy = cell_of(y);
    assert(w.spec_cell(ccx, ccy) == 0);
    assert(w.spec_cell(ccx - 1, ccy + 1) == 0);
    assert(w.spec_cell(ccx - 1, ccy) == 0);
    assert(w.spec_cell(ccx - 1, ccy - 1) == 0);
    assert(w.spec_cell(ccx + 1, ccy + 1) == 0);
    assert(w.spec_cell(ccx + 1, ccy) == 0);
    assert(w.spec_cell(ccx + 1, ccy - 1) == 0);
    assert(w.spec_cell(ccx, ccy + 1) == 0);
    assert(w.spec_cell(ccx, ccy - 1) == 0);
}

/// Negating a record's magnitude negates its contribution to every cell:
/// the model behind `flatten` being an exact inverse.
pub proof fn lemma_contribution_negated(d: Deformation, nd: Deformation, cx: int, cy: int)
    requires
        nd.x == d.x,
        nd.y == d.y,
        nd.magnitude == -d.magnitude,
    ensures
        contribution(nd, cx, cy) == -contribution(d, cx, cy),
{
    lemma_kernel_value_neg(
        d.magnitude as int,
        cx - cell_of(d.x as int),
        cy - cell_of(d.y as int),
    );
}

/// Flatten is an inverse, stated over the model: a replay of a history
/// with every magnitude negated contributes the exact opposite of the
/// history to every cell, so the two sums cancel to zero.
pub proof fn lemma_negated_history_cancels(
    s: Seq<Deformation>,
    neg: Seq<Deformation>,
    cx: int,
    cy: int,
)
    requires
        neg.len() == s.len(),
        forall|i: int|
            0 <= i < s.len() ==> (#[trigger] neg[i]).x == s[i].x && neg[i].y == s[i].y
                && neg[i].magnitude == -s[i].magnitude,
    ensures
        stack_sum(s, cx, cy) + stack_sum(neg, cx, cy) == 0,
    decreases s.len(),
{
    if s.len() > 0 {
        assert(forall|i: int|
            0 <= i < s.drop_last().len() ==> (#[trigger] neg.drop_last()[i]).x
                == s.drop_last()[i].x && neg.drop_last()[i].y == s.drop_last()[i].y
                && neg.drop_last()[i].magnitude == -s.drop_last()[i].magnitude);
        lemma_negated_history_cancels(s.drop_last(), neg.drop_last(), cx, cy);
        lemma_contribution_negated(s.last(), neg.last(), cx, cy);
    }
}

/// The part of one blended kernel already applied after `n` of its cells
/// were processed in row-major order.
pub open spec fn window_prefix(ccx: int, ccy: int, m: int, cx: int, cy: int, n: int) -> int {
    let dx = cx - ccx;
    let dy = cy - ccy;
    if -(KERNEL_RADIUS as int) <= dx <= KERNEL_RADIUS as int && -(KERNEL_RADIUS as int) <= dy
        <= KERNEL_RADIUS as int && (dy + KERNEL_RADIUS as int) * (KERNEL_SIZE as int) + (dx
        + KERNEL_RADIUS as int) < n {
        kernel_value(m, dx, dy)
    } else {
        0
    }
}

/// One kernel cell never exceeds `MAX_MAGNITUDE * FRAC` in magnitude.
pub proof fn lemma_kernel_value_bound(m: int, dx: int, dy: int)
    requires
        -(MAX_MAGNITUDE as int) <= m <= MAX_MAGNITUDE as int,
    ensures
        -(KERNEL_VALUE_LIMIT as int) <= kernel_value(m, dx, dy) <= KERNEL_VALUE_LIMIT as int,
{
    assert(dx * dx >= 0 && dy * dy >= 0) by (nonlinear_arith);
    lemma_mul_abs_bound(m, FRAC as int, MAX_MAGNITUDE as int, FRAC as int);
    lemma_tdiv_abs_le(m * (FRAC as int), 1 + dx * dx + dy * dy);
}

/// Negating the magnitude negates every kernel cell exactly.
pub proof fn lemma_kernel_value_neg(m: int, dx: int, dy: int)
    ensures
        kernel_value(-m, dx, dy) == -kernel_value(m, dx, dy),
{
    assert(dx * dx >= 0 && dy * dy >= 0) by (nonlinear_arith);
    assert((-m) * (FRAC as int) == -(m * (FRAC as int))) by (nonlinear_arith);
    crate::fixed::lemma_tdiv_neg(m * (FRAC as int), 1 + dx * dx + dy * dy);
}

/// One record's contribution to any cell is bounded like a kernel cell.
pub proof fn lemma_contribution_bound(d: Deformation, cx: int, cy: int)
    requires
        -MAX_MAGNITUDE <= d.magnitude <= MAX_MAGNITUDE,
    ensures
        -(KERNEL_VALUE_LIMIT as int) <= contribution(d, cx, cy) <= KERNEL_VALUE_LIMIT as int,
{
    lemma_kernel_value_bound(
        d.magnitude as int,
        cx - cell_of(d.x as int),
        cy - cell_of(d.y as int),
    );
}

/// Appending a record adds exactly its contribution to the history sum.
pub proof fn lemma_stack_sum_push(s: Seq<Deformation>, d: Deformation, cx: int, cy: int)
    ensures
        stack_sum(s.push(d), cx, cy) == stack_sum(s, cx, cy) + contribution(d, cx, cy),
{
    assert(s.push(d).drop_last() =~= s);
    assert(s.push(d).last() == d);
}

/// The history sum splits at any index: the record there plus the sum of
/// what follows it.
pub proof fn lemma_stack_sum_skip(s: Seq<Deformation>, i: int, cx: int, cy: int)
    requires
        0 <= i < s.len(),
    ensures
        stack_sum(s.skip(i), cx, cy) == contribution(s[i], cx, cy) + stack_sum(
            s.skip(i + 1),
            cx,
            cy,
        ),
    decreases s.len(),
{
    if i + 1 == s.len() {
        assert(s.skip(i).len() == 1);
        assert(s.skip(i).last() == s[i]);
        assert(s.skip(i).drop_last() =~= s.skip(i + 1));
        assert(s.skip(i + 1).len() == 0);
    } else {
        assert(s.skip(i).last() == s.last());
        assert(s.skip(i).drop_last() =~= s.drop_last().skip(i));
        assert(s.skip(i + 1).last() == s.last());
        assert(s.skip(i + 1).drop_last() =~= s.drop_last().skip(i + 1));
        lemma_stack_sum_skip(s.drop_last(), i, cx, cy);
        assert(s.drop_last()[i] == s[i]);
    }
}

/// A history of bounded records contributes at most
/// `len * KERNEL_VALUE_LIMIT` to any cell.
pub proof fn lemma_stack_sum_bound(s: Seq<Deformation>, cx: int, cy: int)
    requires
        forall|i: int| 0 <= i < s.len() ==> deformation_ok(#[trigger] s[i]),
    ensures
        -(s.len() * (KERNEL_VALUE_LIMIT as int)) <= stack_sum(s, cx, cy) <= s.len() * (
        KERNEL_VALUE_LIMIT as int),
    decreases s.len(),
{
    if s.len() > 0 {
        assert(forall|i: int|
            0 <= i < s.drop_last().len() ==> deformation_ok(#[trigger] s.drop_last()[i]));
        lemma_stack_sum_bound(s.drop_last(), cx, cy);
        lemma_contribution_bound(s.last(), cx, cy);
    }
}

/// The window of world coordinates that map inside the valid cell range
/// is exactly `[WORLD_COORD_MIN, WORLD_COORD_MAX]`.
proof fn lemma_bounds_window(w: int)
    ensures
        1 <= cell_of(w) <= GRID_EXTENT - 2 <==> WORLD_COORD_MIN <= w <= WORLD_COORD_MAX,
{
    if w >= WORLD_COORD_MIN {
        assert(3 * w + 5000500 >= 1000);
        assert(cell_of(w) >= 1);
    }
    if w <= WORLD_COORD_MAX {
        assert(3 * w + 5000500 <= 9998998);
        assert(cell_of(w) <= 9998);
    }
    if w < WORLD_COORD_MIN {
        assert(3 * w + 5000500 <= 999);
        assert(cell_of(w) <= 0);
    }
    if w > WORLD_COORD_MAX {
        assert(3 * w + 5000500 >= 9999001);
        assert(cell_of(w) >= 9999);
    }
}

/// Distinct cells have distinct storage keys.
proof fn lemma_cell_key_injective(cx1: int, cy1: int, cx2: int, cy2: int)
    requires
        0 <= cx1 < GRID_EXTENT,
        0 <= cy1 < GRID_EXTENT,
        0 <= cx2 < GRID_EXTENT,
        0 <= cy2 < GRID_EXTENT,
        cell_key(cx1, cy1) == cell_key(cx2, cy2),
    ensures
        cx1 == cx2 && cy1 == cy2,
{
    assert(cy1 * (GRID_EXTENT as int) + cx1 == cy2 * (GRID_EXTENT as int) + cx2);
    assert(cy1 == cy2) by (nonlinear_arith)
        requires
            cy1 * 10000 + cx1 == cy2 * 10000 + cx2,
            0 <= cx1 < 10000,
            0 <= cx2 < 10000,
            0 <= cy1 < 10000,
            0 <= cy2 < 10000,
    ;
}

} // verus!
