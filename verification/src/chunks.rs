use vstd::prelude::*;
use bevy::platform::collections::HashSet;
use bevy::platform::hash::FixedHasher;

verus! {

/// Radius, in chunk cells, of the disc of terrain chunks kept around the camera.
pub const RENDER_DIST: i32 = 32;

/// Side length of the square grid of offsets that is scanned for the disc.
pub open spec fn grid_side() -> int {
    2 * RENDER_DIST
}

/// The `k`-th offset `(x, z)` of the scan: rows of constant `z` from `-RENDER_DIST`
/// upwards, and within a row `x` from `-RENDER_DIST` upwards.
pub open spec fn grid_offset(k: int) -> (int, int) {
    (k % grid_side() - RENDER_DIST, k / grid_side() - RENDER_DIST)
}

/// An offset lies in the render disc when its squared length is at most the
/// squared render distance.
pub open spec fn in_disc(x: int, z: int) -> bool {
    x * x + z * z <= RENDER_DIST * RENDER_DIST
}

/// An integer clamped into the range of `i32`, as a float-to-integer cast clamps.
pub open spec fn clamp_i32(v: int) -> i32 {
    if v > i32::MAX {
        i32::MAX
    } else if v < i32::MIN {
        i32::MIN
    } else {
        v as i32
    }
}

/// The chunk cell at offset `(x, z)` from the camera's cell.
pub open spec fn cell_at(cam: (i32, i32), x: int, z: int) -> (i32, i32) {
    (clamp_i32(cam.0 + x), clamp_i32(cam.1 + z))
}

/// The cells to spawn after scanning the first `n` grid offsets: in scan order,
/// each offset in the disc whose cell is not among the `kept` cells.
pub open spec fn spawn_plan(cam: (i32, i32), kept: Set<(i32, i32)>, n: nat) -> Seq<(i32, i32)>
    decreases n,
{
    if n == 0 {
        Seq::empty()
    } else {
        let prev = spawn_plan(cam, kept, (n - 1) as nat);
        let (x, z) = grid_offset(n - 1);
        let c = cell_at(cam, x, z);
        if in_disc(x, z) && !kept.contains(c) {
            prev.push(c)
        } else {
            prev
        }
    }
}

/// Number of offsets in the full scan.
pub open spec fn grid_len() -> nat {
    (grid_side() * grid_side()) as nat
}

/// The cell of the `k`-th scanned offset.
pub open spec fn offset_cell(cam: (i32, i32), k: int) -> (i32, i32) {
    cell_at(cam, grid_offset(k).0, grid_offset(k).1)
}

/// Whether the `k`-th scanned offset lies in the render disc.
pub open spec fn offset_in_disc(k: int) -> bool {
    in_disc(grid_offset(k).0, grid_offset(k).1)
}

/// A camera cell far enough from the ends of `i32` that no offset cell is clamped.
pub open spec fn unclamped(cam: (i32, i32)) -> bool {
    &&& i32::MIN + RENDER_DIST <= cam.0 <= i32::MAX - RENDER_DIST
    &&& i32::MIN + RENDER_DIST <= cam.1 <= i32::MAX - RENDER_DIST
}

/// The cell is the cell of one of the first `n` scanned offsets that lie in the disc.
pub open spec fn scanned_disc_cell(cam: (i32, i32), n: int, c: (i32, i32)) -> bool {
    exists|k: int| 0 <= k < n && offset_in_disc(k) && c == #[trigger] offset_cell(cam, k)
}

proof fn lemma_plan_prefix(cam: (i32, i32), kept: Set<(i32, i32)>, n: nat)
    ensures
        forall|k: int|
            0 <= k < n && offset_in_disc(k) ==> kept.contains(#[trigger] offset_cell(cam, k))
                || spawn_plan(cam, kept, n).contains(offset_cell(cam, k)),
        forall|i: int|
            0 <= i < spawn_plan(cam, kept, n).len() ==> !kept.contains(
                #[trigger] spawn_plan(cam, kept, n)[i],
            ),
        forall|i: int|
            0 <= i < spawn_plan(cam, kept, n).len() ==> scanned_disc_cell(
                cam,
                n as int,
                #[trigger] spawn_plan(cam, kept, n)[i],
            ),
    decreases n,
{
    if n > 0 {
        let m = (n - 1) as nat;
        lemma_plan_prefix(cam, kept, m);
        let c = offset_cell(cam, m as int);
        let added = offset_in_disc(m as int) && !kept.contains(c);
        assert(added ==> spawn_plan(cam, kept, n) == spawn_plan(cam, kept, m).push(c));
        assert(!added ==> spawn_plan(cam, kept, n) == spawn_plan(cam, kept, m));
        assert forall|i: int| 0 <= i < spawn_plan(cam, kept, m).len() implies spawn_plan(
            cam,
            kept,
            n,
        )[i] == spawn_plan(cam, kept, m)[i] by {}
        assert(added ==> spawn_plan(cam, kept, n)[spawn_plan(cam, kept, m).len() as int] == c);
        assert forall|k: int| 0 <= k < n && offset_in_disc(k) implies kept.contains(
            #[trigger] offset_cell(cam, k),
        ) || spawn_plan(cam, kept, n).contains(offset_cell(cam, k)) by {
            if k < m && !kept.contains(offset_cell(cam, k)) {
                let j = choose|j: int|
                    0 <= j < spawn_plan(cam, kept, m).len() && spawn_plan(cam, kept, m)[j]
                        == offset_cell(cam, k);
                assert(spawn_plan(cam, kept, n)[j] == spawn_plan(cam, kept, m)[j]);
            }
            if k == m && !kept.contains(offset_cell(cam, k)) {
                assert(spawn_plan(cam, kept, n)[spawn_plan(cam, kept, m).len() as int] == c);
            }
        }
        assert forall|i: int| 0 <= i < spawn_plan(cam, kept, n).len() implies scanned_disc_cell(
            cam,
            n as int,
            #[trigger] spawn_plan(cam, kept, n)[i],
        ) by {
            if i < spawn_plan(cam, kept, m).len() {
                assert(spawn_plan(cam, kept, n)[i] == spawn_plan(cam, kept, m)[i]);
                assert(scanned_disc_cell(cam, m as int, spawn_plan(cam, kept, m)[i]));
                let k = choose|k: int|
                    0 <= k < m && offset_in_disc(k) && spawn_plan(cam, kept, m)[i]
                        == #[trigger] offset_cell(cam, k);
                assert(spawn_plan(cam, kept, n)[i] == offset_cell(cam, k));
            } else {
                assert(spawn_plan(cam, kept, n)[i] == offset_cell(cam, m as int));
            }
        }
        assert forall|i: int| 0 <= i < spawn_plan(cam, kept, n).len() implies !kept.contains(
            #[trigger] spawn_plan(cam, kept, n)[i],
        ) by {
            if i < spawn_plan(cam, kept, m).len() {
                assert(spawn_plan(cam, kept, n)[i] == spawn_plan(cam, kept, m)[i]);
            }
        }
    } else {
        assert(spawn_plan(cam, kept, n).len() == 0);
    }
}

/// Every offset `(x, z)` of the scan is the `k`-th one for `k = (z + 32) * 64 + (x + 32)`.
proof fn lemma_offset_index(x: int, z: int) -> (k: int)
    requires
        -RENDER_DIST <= x < RENDER_DIST,
        -RENDER_DIST <= z < RENDER_DIST,
    ensures
        0 <= k < grid_len(),
        grid_offset(k) == (x, z),
{
    let k = (z + 32) * 64 + (x + 32);
    assert(grid_len() == 4096) by (nonlinear_arith);
    assert(0 <= k < 4096 && k % 64 - 32 == x && k / 64 - 32 == z) by (nonlinear_arith)
        requires
            k == (z + 32) * 64 + (x + 32),
            -32 <= x < 32,
            -32 <= z < 32,
    ;
    k
}

/// A value of `clamp_i32` is the integer itself when it fits in an `i32`, and the
/// nearest end of the `i32` range otherwise.
pub proof fn lemma_clamp_i32(v: int)
    ensures
        i32::MIN <= v <= i32::MAX ==> clamp_i32(v) as int == v,
        v > i32::MAX ==> clamp_i32(v) == i32::MAX,
        v < i32::MIN ==> clamp_i32(v) == i32::MIN,
{
}

/// After the planned chunks are spawned, every cell of the render disc around
/// the camera's cell holds a chunk: the cell `(cam.0 + x, cam.1 + z)` (clamped
/// into `i32`) of every offset with `-32 <= x, z < 32` and `x² + z² <= 32²` was
/// either kept or is planned.
pub proof fn lemma_plan_covers_disc(cam: (i32, i32), kept: Set<(i32, i32)>, x: int, z: int)
    requires
        -32 <= x < 32,
        -32 <= z < 32,
        x * x + z * z <= 32 * 32,
    ensures
        kept.contains((clamp_i32(cam.0 + x), clamp_i32(cam.1 + z))) || spawn_plan(
            cam,
            kept,
            grid_len(),
        ).contains((clamp_i32(cam.0 + x), clamp_i32(cam.1 + z))),
{
    let k = lemma_offset_index(x, z);
    lemma_plan_prefix(cam, kept, grid_len());
    assert(offset_cell(cam, k) == cell_at(cam, x, z));
}

/// After the planned chunks are spawned, every cell `c` of the render disc around
/// the camera's cell holds a chunk: when `c` lies at an offset `(dx, dz)` from the
/// camera's cell with `-32 <= dx, dz < 32` and `dx² + dz² <= 32²`, it was either
/// kept or is planned.
pub proof fn lemma_plan_covers_disc_cell(cam: (i32, i32), kept: Set<(i32, i32)>, c: (i32, i32))
    requires
        -32 <= c.0 - cam.0 < 32,
        -32 <= c.1 - cam.1 < 32,
        (c.0 - cam.0) * (c.0 - cam.0) + (c.1 - cam.1) * (c.1 - cam.1) <= 32 * 32,
    ensures
        kept.contains(c) || spawn_plan(cam, kept, grid_len()).contains(c),
{
    let x = c.0 - cam.0;
    let z = c.1 - cam.1;
    lemma_plan_covers_disc(cam, kept, x, z);
    lemma_clamp_i32(cam.0 + x);
    lemma_clamp_i32(cam.1 + z);
    assert((clamp_i32(cam.0 + x), clamp_i32(cam.1 + z)) == c);
}

/// The coverage of the render disc, for kept cells given as a sequence.
proof fn lemma_plan_covers_disc_of_cells(cam: (i32, i32), kept: Seq<(i32, i32)>)
    ensures
        forall|c: (i32, i32)|
            -32 <= c.0 - cam.0 < 32 && -32 <= c.1 - cam.1 < 32 && (c.0 - cam.0) * (c.0 - cam.0) + (
            c.1 - cam.1) * (c.1 - cam.1) <= 32 * 32 ==> kept.contains(c) || #[trigger] spawn_plan(
                cam,
                kept.to_set(),
                grid_len(),
            ).contains(c),
{
    assert forall|c: (i32, i32)|
        -32 <= c.0 - cam.0 < 32 && -32 <= c.1 - cam.1 < 32 && (c.0 - cam.0) * (c.0 - cam.0) + (
        c.1 - cam.1) * (c.1 - cam.1) <= 32 * 32 implies kept.contains(c) || #[trigger] spawn_plan(
            cam,
            kept.to_set(),
            grid_len(),
        ).contains(c) by {
        lemma_plan_covers_disc_cell(cam, kept.to_set(), c);
    }
}

/// A planned cell is never one that is already kept, and it lies within 32 cells
/// of the camera's cell along each axis (below on the negative side, strictly
/// below on the positive side); when no coordinate is clamped at the ends of
/// `i32`, its offset `(dx, dz)` from the camera's cell satisfies `dx² + dz² <= 32²`.
pub proof fn lemma_plan_spawns_only_missing_disc_cells(
    cam: (i32, i32),
    kept: Set<(i32, i32)>,
    i: int,
)
    requires
        0 <= i < spawn_plan(cam, kept, grid_len()).len(),
    ensures
        !kept.contains(spawn_plan(cam, kept, grid_len())[i]),
        cam.0 - 32 <= spawn_plan(cam, kept, grid_len())[i].0 < cam.0 + 32,
        cam.1 - 32 <= spawn_plan(cam, kept, grid_len())[i].1 < cam.1 + 32,
        i32::MIN + 32 <= cam.0 <= i32::MAX - 32 && i32::MIN + 32 <= cam.1 <= i32::MAX - 32 ==> {
            let dx = spawn_plan(cam, kept, grid_len())[i].0 - cam.0;
            let dz = spawn_plan(cam, kept, grid_len())[i].1 - cam.1;
            dx * dx + dz * dz <= 32 * 32
        },
        exists|x: int, z: int|
            #![trigger cell_at(cam, x, z)]
            -32 <= x < 32 && -32 <= z < 32 && x * x + z * z <= 32 * 32
                && spawn_plan(cam, kept, grid_len())[i] == (
                clamp_i32(cam.0 + x),
                clamp_i32(cam.1 + z),
            ),
{
    lemma_plan_prefix(cam, kept, grid_len());
    let plan = spawn_plan(cam, kept, grid_len());
    assert(scanned_disc_cell(cam, grid_len() as int, plan[i]));
    let k = choose|k: int|
        0 <= k < grid_len() && offset_in_disc(k) && plan[i] == #[trigger] offset_cell(cam, k);
    let (x, z) = grid_offset(k);
    assert(grid_len() == 4096) by (nonlinear_arith);
    assert(-32 <= x < 32 && -32 <= z < 32) by (nonlinear_arith)
        requires
            0 <= k < 4096,
            x == k % 64 - 32,
            z == k / 64 - 32,
    ;
    assert(plan[i] == cell_at(cam, x, z));
    lemma_clamp_i32(cam.0 + x);
    lemma_clamp_i32(cam.1 + z);
}

proof fn lemma_offset_cell_injective(cam: (i32, i32), k1: int, k2: int)
    requires
        unclamped(cam),
        0 <= k1 < grid_len(),
        0 <= k2 < grid_len(),
        offset_cell(cam, k1) == offset_cell(cam, k2),
    ensures
        k1 == k2,
{
    assert(grid_len() == 4096) by (nonlinear_arith);
    let (x1, z1) = grid_offset(k1);
    let (x2, z2) = grid_offset(k2);
    assert(-32 <= x1 < 32 && -32 <= z1 < 32 && -32 <= x2 < 32 && -32 <= z2 < 32) by (nonlinear_arith)
        requires
            0 <= k1 < 4096,
            0 <= k2 < 4096,
            x1 == k1 % 64 - 32,
            z1 == k1 / 64 - 32,
            x2 == k2 % 64 - 32,
            z2 == k2 / 64 - 32,
    ;
    assert(x1 == x2 && z1 == z2);
    assert(k1 == k2) by (nonlinear_arith)
        requires
            0 <= k1,
            0 <= k2,
            k1 % 64 == k2 % 64,
            k1 / 64 == k2 / 64,
    ;
}

proof fn lemma_plan_prefix_distinct(cam: (i32, i32), kept: Set<(i32, i32)>, n: nat)
    requires
        unclamped(cam),
        n <= grid_len(),
    ensures
        spawn_plan(cam, kept, n).no_duplicates(),
    decreases n,
{
    if n > 0 {
        let m = (n - 1) as nat;
        lemma_plan_prefix_distinct(cam, kept, m);
        lemma_plan_prefix(cam, kept, m);
        let prev = spawn_plan(cam, kept, m);
        let c = offset_cell(cam, m as int);
        if offset_in_disc(m as int) && !kept.contains(c) {
            assert(spawn_plan(cam, kept, n) == prev.push(c));
            assert forall|i: int| 0 <= i < prev.len() implies #[trigger] prev[i] != c by {
                assert(scanned_disc_cell(cam, m as int, prev[i]));
                let k = choose|k: int|
                    0 <= k < m && offset_in_disc(k) && prev[i] == #[trigger] offset_cell(cam, k);
                if prev[i] == c {
                    lemma_offset_cell_injective(cam, k, m as int);
                }
            }
            let cur = prev.push(c);
            assert forall|i: int, j: int|
                0 <= i < cur.len() && 0 <= j < cur.len() && i != j implies cur[i] != cur[j] by {
                if i < prev.len() && j < prev.len() {
                    assert(cur[i] == prev[i] && cur[j] == prev[j]);
                } else if i < prev.len() {
                    assert(cur[i] == prev[i]);
                } else if j < prev.len() {
                    assert(cur[j] == prev[j]);
                }
            }
        } else {
            assert(spawn_plan(cam, kept, n) == prev);
        }
    }
}

/// As long as no cell coordinate reaches the ends of `i32`, no cell is planned twice.
pub proof fn lemma_plan_has_no_duplicates(cam: (i32, i32), kept: Set<(i32, i32)>)
    requires
        unclamped(cam),
    ensures
        spawn_plan(cam, kept, grid_len()).no_duplicates(),
{
    lemma_plan_prefix_distinct(cam, kept, grid_len());
}

proof fn lemma_plan_prefix_empty(cam: (i32, i32), kept: Set<(i32, i32)>, n: nat)
    requires
        forall|k: int| 0 <= k < n && offset_in_disc(k) ==> kept.contains(#[trigger] offset_cell(cam, k)),
    ensures
        spawn_plan(cam, kept, n).len() == 0,
    decreases n,
{
    if n > 0 {
        lemma_plan_prefix_empty(cam, kept, (n - 1) as nat);
        assert(offset_in_disc(n - 1) ==> kept.contains(offset_cell(cam, n - 1)));
    }
}

/// Planning again, once the planned cells are spawned and kept, plans nothing:
/// the update reaches a fixed point in one step while the camera stays in its cell.
pub proof fn lemma_plan_then_replan_is_empty(cam: (i32, i32), kept: Set<(i32, i32)>)
    ensures
        spawn_plan(cam, kept + spawn_plan(cam, kept, grid_len()).to_set(), grid_len()).len() == 0,
{
    let plan = spawn_plan(cam, kept, grid_len());
    let all = kept + plan.to_set();
    lemma_plan_prefix(cam, kept, grid_len());
    assert forall|k: int| 0 <= k < grid_len() && offset_in_disc(k) implies all.contains(
        #[trigger] offset_cell(cam, k),
    ) by {
        if !kept.contains(offset_cell(cam, k)) {
            assert(plan.contains(offset_cell(cam, k)));
        }
    }
    lemma_plan_prefix_empty(cam, all, grid_len());
}

proof fn lemma_row_major_key(ax: int, az: int, bx: int, bz: int)
    requires
        -32 <= ax < 32,
        -32 <= bx < 32,
        az * 64 + ax < bz * 64 + bx,
    ensures
        az < bz || (az == bz && ax < bx),
{
    assert(az < bz || (az == bz && ax < bx)) by (nonlinear_arith)
        requires
            -32 <= ax < 32,
            -32 <= bx < 32,
            az * 64 + ax < bz * 64 + bx,
    ;
}

proof fn lemma_plan_prefix_sorted(cam: (i32, i32), kept: Set<(i32, i32)>, n: nat)
    requires
        unclamped(cam),
        n <= grid_len(),
    ensures
        forall|i: int|
            0 <= i < spawn_plan(cam, kept, n).len() ==> {
                let d = #[trigger] spawn_plan(cam, kept, n)[i];
                &&& -32 <= d.0 - cam.0 < 32
                &&& -32 <= d.1 - cam.1 < 32
                &&& (d.1 - cam.1) * 64 + (d.0 - cam.0) + 2080 < n
            },
        forall|i: int, j: int|
            0 <= i < j < spawn_plan(cam, kept, n).len() ==> {
                let a = #[trigger] spawn_plan(cam, kept, n)[i];
                let b = #[trigger] spawn_plan(cam, kept, n)[j];
                a.1 < b.1 || (a.1 == b.1 && a.0 < b.0)
            },
    decreases n,
{
    if n > 0 {
        let m = (n - 1) as nat;
        lemma_plan_prefix_sorted(cam, kept, m);
        let prev = spawn_plan(cam, kept, m);
        let c = offset_cell(cam, m as int);
        let (x, z) = grid_offset(m as int);
        assert(grid_len() == 4096) by (nonlinear_arith);
        assert(-32 <= x < 32 && -32 <= z < 32 && z * 64 + x + 2080 == m) by (nonlinear_arith)
            requires
                0 <= m < 4096,
                x == m % 64 - 32,
                z == m / 64 - 32,
        ;
        lemma_clamp_i32(cam.0 + x);
        lemma_clamp_i32(cam.1 + z);
        assert(c.0 - cam.0 == x && c.1 - cam.1 == z);
        if offset_in_disc(m as int) && !kept.contains(c) {
            let cur = prev.push(c);
            assert(spawn_plan(cam, kept, n) == cur);
            assert forall|i: int| 0 <= i < cur.len() implies {
                let d = #[trigger] cur[i];
                &&& -32 <= d.0 - cam.0 < 32
                &&& -32 <= d.1 - cam.1 < 32
                &&& (d.1 - cam.1) * 64 + (d.0 - cam.0) + 2080 < n
            } by {
                if i < prev.len() {
                    assert(cur[i] == prev[i]);
                }
            }
            assert forall|i: int, j: int| 0 <= i < j < cur.len() implies {
                let a = #[trigger] cur[i];
                let b = #[trigger] cur[j];
                a.1 < b.1 || (a.1 == b.1 && a.0 < b.0)
            } by {
                assert(cur[i] == prev[i]);
                if j < prev.len() {
                    assert(cur[j] == prev[j]);
                } else {
                    let a = prev[i];
                    lemma_row_major_key(a.0 - cam.0, a.1 - cam.1, x, z);
                }
            }
        } else {
            assert(spawn_plan(cam, kept, n) == prev);
        }
    }
}

/// While no cell coordinate reaches the ends of `i32`, the cells are planned row
/// by row: in increasing `z`, and within a row in increasing `x`.
pub proof fn lemma_plan_is_row_major(cam: (i32, i32), kept: Set<(i32, i32)>, i: int, j: int)
    requires
        i32::MIN + 32 <= cam.0 <= i32::MAX - 32,
        i32::MIN + 32 <= cam.1 <= i32::MAX - 32,
        0 <= i < j < spawn_plan(cam, kept, grid_len()).len(),
    ensures
        spawn_plan(cam, kept, grid_len())[i].1 < spawn_plan(cam, kept, grid_len())[j].1 || (
        spawn_plan(cam, kept, grid_len())[i].1 == spawn_plan(cam, kept, grid_len())[j].1
            && spawn_plan(cam, kept, grid_len())[i].0 < spawn_plan(cam, kept, grid_len())[j].0),
{
    assert(grid_len() == 4096) by (nonlinear_arith);
    lemma_plan_prefix_sorted(cam, kept, grid_len());
}

/// Declares the engine's hash set, `bevy::platform::collections::HashSet`, as an
/// opaque type; what a set holds is named by `cell_set_contents`.
#[verifier::external_type_specification]
#[verifier::external_body]
#[verifier::reject_recursive_types(T)]
#[verifier::reject_recursive_types(S)]
pub struct ExHashSet<T, S>(HashSet<T, S>);

/// Declares `bevy::platform::hash::FixedHasher`, the default hasher of the engine's
/// hash set, as an opaque type.
#[verifier::external_type_specification]
#[verifier::external_body]
pub struct ExFixedHasher(FixedHasher);

/// The cells that a set of chunk cells holds; the wrappers below state what each
/// call of the engine's hash set does to it.
pub uninterp spec fn cell_set_contents(s: HashSet<(i32, i32)>) -> Set<(i32, i32)>;

/// Calls `bevy::platform::collections::HashSet::new`, which creates an empty set.
#[verifier::external_body]
fn cell_set_new() -> (s: HashSet<(i32, i32)>)
    ensures
        cell_set_contents(s) == Set::<(i32, i32)>::empty(),
{
    HashSet::new()
}

/// Calls `HashSet::insert`, after which the set holds the value besides what it held.
#[verifier::external_body]
fn cell_set_insert(s: &mut HashSet<(i32, i32)>, c: (i32, i32))
    ensures
        cell_set_contents(*final(s)) == cell_set_contents(*old(s)).insert(c),
{
    s.insert(c);
}

/// Calls `HashSet::contains`, which tells whether the set holds the value.
#[verifier::external_body]
fn cell_set_contains(s: &HashSet<(i32, i32)>, c: &(i32, i32)) -> (b: bool)
    ensures
        b == cell_set_contents(*s).contains(*c),
{
    s.contains(c)
}

/// The sum of a camera cell coordinate and an offset, clamped into `i32`.
fn offset_coord(base: i32, off: i32) -> (r: i32)
    requires
        -RENDER_DIST <= off < RENDER_DIST,
    ensures
        r == clamp_i32(base + off),
{
    let s: i64 = base as i64 + off as i64;
    if s > i32::MAX as i64 {
        i32::MAX
    } else if s < i32::MIN as i64 {
        i32::MIN
    } else {
        s as i32
    }
}

/// Decides which chunk cells to spawn: the cells kept after despawning the far
/// chunks go into a set, then every offset of the render disc around the camera's
/// cell is scanned, and its cell is spawned unless the set holds it.
pub fn chunks_to_spawn(kept_cells: &Vec<(i32, i32)>, cam_cell: (i32, i32)) -> (spawn: Vec<(i32, i32)>)
    ensures
        spawn@ == spawn_plan(cam_cell, kept_cells@.to_set(), grid_len()),
        forall|c: (i32, i32)|
            -32 <= c.0 - cam_cell.0 < 32 && -32 <= c.1 - cam_cell.1 < 32 && (c.0 - cam_cell.0) * (c.0
                - cam_cell.0) + (c.1 - cam_cell.1) * (c.1 - cam_cell.1) <= 32 * 32
                ==> kept_cells@.contains(c) || #[trigger] spawn@.contains(c),
        forall|i: int|
            0 <= i < spawn@.len() ==> {
                &&& !kept_cells@.contains(#[trigger] spawn@[i])
                &&& cam_cell.0 - 32 <= spawn@[i].0 < cam_cell.0 + 32
                &&& cam_cell.1 - 32 <= spawn@[i].1 < cam_cell.1 + 32
                &&& i32::MIN + 32 <= cam_cell.0 <= i32::MAX - 32 && i32::MIN + 32 <= cam_cell.1
                    <= i32::MAX - 32 ==> (spawn@[i].0 - cam_cell.0) * (spawn@[i].0 - cam_cell.0)
                    + (spawn@[i].1 - cam_cell.1) * (spawn@[i].1 - cam_cell.1) <= 32 * 32
            },
        i32::MIN + 32 <= cam_cell.0 <= i32::MAX - 32 && i32::MIN + 32 <= cam_cell.1 <= i32::MAX
            - 32 ==> spawn@.no_duplicates(),
        i32::MIN + 32 <= cam_cell.0 <= i32::MAX - 32 && i32::MIN + 32 <= cam_cell.1 <= i32::MAX
            - 32 ==> forall|i: int, j: int|
            0 <= i < j < spawn@.len() ==> #[trigger] spawn@[i].1 < #[trigger] spawn@[j].1 || (
            spawn@[i].1 == spawn@[j].1 && spawn@[i].0 < spawn@[j].0),
{
    let mut chunks = cell_set_new();
    let n = kept_cells.len();
    let mut i: usize = 0;
    while i < n
        invariant
            n == kept_cells@.len(),
            i <= n,
            cell_set_contents(chunks) =~= kept_cells@.take(i as int).to_set(),
        decreases n - i,
    {
        let c = kept_cells[i];
        cell_set_insert(&mut chunks, c);
        assert(kept_cells@.take(i + 1) =~= kept_cells@.take(i as int).push(c));
        proof {
            kept_cells@.take(i as int).lemma_push_to_set_commute(c);
        }
        i = i + 1;
    }
    assert(kept_cells@.take(n as int) =~= kept_cells@);
    let ghost kept = kept_cells@.to_set();
    let mut spawn: Vec<(i32, i32)> = Vec::new();
    let mut z: i32 = -RENDER_DIST;
    assert((z + RENDER_DIST) * grid_side() == 0) by (nonlinear_arith)
        requires
            z == -RENDER_DIST,
    ;
    while z < RENDER_DIST
        invariant
            -RENDER_DIST <= z <= RENDER_DIST,
            cell_set_contents(chunks) == kept,
            spawn@ == spawn_plan(cam_cell, kept, ((z + RENDER_DIST) * grid_side()) as nat),
        decreases RENDER_DIST - z,
    {
        let mut x: i32 = -RENDER_DIST;
        while x < RENDER_DIST
            invariant
                -RENDER_DIST <= x <= RENDER_DIST,
                -RENDER_DIST <= z < RENDER_DIST,
                cell_set_contents(chunks) == kept,
                spawn@ == spawn_plan(
                    cam_cell,
                    kept,
                    ((z + RENDER_DIST) * grid_side() + (x + RENDER_DIST)) as nat,
                ),
            decreases RENDER_DIST - x,
        {
            let ghost k: int = (z + RENDER_DIST) * grid_side() + (x + RENDER_DIST);
            assert(grid_offset(k) == (x as int, z as int)) by (nonlinear_arith)
                requires
                    k == (z + 32) * 64 + (x + 32),
                    -32 <= x < 32,
                    -32 <= z < 32,
            ;
            assert(0 <= x * x <= 1024 && 0 <= z * z <= 1024) by (nonlinear_arith)
                requires
                    -32 <= x < 32,
                    -32 <= z < 32,
            ;
            if x * x + z * z <= RENDER_DIST * RENDER_DIST {
                let c = (offset_coord(cam_cell.0, x), offset_coord(cam_cell.1, z));
                if !cell_set_contains(&chunks, &c) {
                    spawn.push(c);
                }
            }
            x = x + 1;
        }
        assert((z + 32) * 64 + (x + 32) == (z + 1 + 32) * 64) by (nonlinear_arith)
            requires
                x == 32,
        ;
        z = z + 1;
    }
    assert((z + RENDER_DIST) * grid_side() == grid_len()) by (nonlinear_arith)
        requires
            z == RENDER_DIST,
    ;
    assert(spawn@ == spawn_plan(cam_cell, kept, grid_len()));
    proof {
        lemma_plan_covers_disc_of_cells(cam_cell, kept_cells@);
        assert forall|i: int| 0 <= i < spawn@.len() implies {
            &&& !kept_cells@.contains(#[trigger] spawn@[i])
            &&& cam_cell.0 - 32 <= spawn@[i].0 < cam_cell.0 + 32
            &&& cam_cell.1 - 32 <= spawn@[i].1 < cam_cell.1 + 32
            &&& i32::MIN + 32 <= cam_cell.0 <= i32::MAX - 32 && i32::MIN + 32 <= cam_cell.1
                <= i32::MAX - 32 ==> (spawn@[i].0 - cam_cell.0) * (spawn@[i].0 - cam_cell.0)
                + (spawn@[i].1 - cam_cell.1) * (spawn@[i].1 - cam_cell.1) <= 32 * 32
        } by {
            lemma_plan_spawns_only_missing_disc_cells(cam_cell, kept, i);
            assert(kept.contains(spawn@[i]) == kept_cells@.contains(spawn@[i]));
        }
        if unclamped(cam_cell) {
            lemma_plan_has_no_duplicates(cam_cell, kept);
            assert forall|i: int, j: int| 0 <= i < j < spawn@.len() implies #[trigger] spawn@[i].1
                < #[trigger] spawn@[j].1 || (spawn@[i].1 == spawn@[j].1 && spawn@[i].0
                < spawn@[j].0) by {
                lemma_plan_is_row_major(cam_cell, kept, i, j);
            }
        }
    }
    spawn
}

} // verus!
