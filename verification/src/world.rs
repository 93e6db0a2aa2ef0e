//! The world all peers agree on.
//!
//! umwelt validates a configuration and derives the rest of it. What a herd
//! reads of the result is held in [`World`], as plain values.

use umwelt::{ConfigError, WorldConfig};
use vstd::arithmetic::power2::{lemma2_to64, lemma_pow2_strictly_increases, pow2};
use vstd::prelude::*;

use crate::units::{clamped, MAX_METERS};

verus! {

/// A world, as umwelt built it. Distances are in raw units.
#[derive(Clone, Copy, Debug, PartialEq, Eq, Structural)]
pub struct World {
    /// Region edge length on both horizontal axes.
    pub region_size: i32,
    /// Vertical range.
    pub vertical_extent: i32,
    /// Cell edge length.
    pub cell_size: i32,
    /// How far a viewer perceives.
    pub horizontal_view_radius: i32,
    /// How far anything may move in a second.
    pub max_horizontal_speed: i32,
    /// Ticks per second.
    pub tick_hz: u32,
    /// Cells along one axis.
    pub cells_per_axis: u32,
    /// Cells in the whole region.
    pub cells_per_region: u32,
    /// Whether a horizontal position crosses the wire unrounded.
    pub lossless: bool,
    /// What two peers compare to see that they decode each other's packets.
    pub protocol_hash: u64,
}

/// Why there is no world.
#[derive(Clone, Copy, Debug, PartialEq, Eq, Structural)]
pub enum WorldError {
    /// The tick rate does not divide a second into whole milliseconds.
    TickRateIndivisible {
        /// What was asked for.
        tick_hz: u32,
    },
}

/// Whether `n` is a power of two.
pub open spec fn is_power_of_two(n: int) -> bool {
    exists|k: nat| n == #[trigger] pow2(k)
}

/// Whether `cell` is the cell edge derived from a view radius: the largest power
/// of two in half of it, and never less than one unit.
pub open spec fn is_cell_for(cell: int, view: int) -> bool {
    let half = if view / 2 < 1 {
        1
    } else {
        view / 2
    };
    &&& is_power_of_two(cell)
    &&& cell <= half < 2 * cell
}

/// Whether umwelt accepts a world asked for in whole meters and ticks per
/// second, whose cells come out at `cell` units.
pub open spec fn is_valid(
    region_m: int,
    vertical_m: int,
    view_m: int,
    speed_m: int,
    tick_hz: int,
    cell: int,
) -> bool {
    &&& region_m > 0 && vertical_m > 0 && view_m > 0 && speed_m > 0
    &&& is_power_of_two(region_m * 1024)
    &&& is_power_of_two(vertical_m * 1024)
    &&& view_m <= region_m
    &&& tick_hz > 0 && 1000int % tick_hz == 0
    &&& speed_m * 1024 / tick_hz < cell
}

/// The digest of what affects decoding: the region edge, the vertical range, the
/// cell edge and the view radius, in raw units. The value of
/// `WorldConfig::protocol_hash`; the other things it covers, the unit and the
/// widths on the wire, are fixed or follow from the two extents.
pub uninterp spec fn protocol_digest(region: int, vertical: int, cell: int, view: int) -> u64;

/// `umwelt::ConfigError`, carried unread.
#[verifier::external_type_specification]
#[verifier::external_body]
pub struct ExConfigError(umwelt::ConfigError);

/// Builds a world: `WorldConfigBuilder::build`, with all five fields set, and
/// what the accessors of its result say. It succeeds on what [`is_valid`]
/// accepts, and then derives the cell edge from the view radius and the cell
/// counts from the cell edge. The counts are multiplied in 32 bits, so a region
/// of more cells than that holds is left out, as are distances that do not fit.
#[verifier::external_body]
fn build_world(region_m: i32, vertical_m: i32, view_m: i32, speed_m: i32, tick_hz: u32) -> (r:
    Result<World, ConfigError>)
    requires
        -MAX_METERS <= region_m <= MAX_METERS,
        -MAX_METERS <= vertical_m <= MAX_METERS,
        -MAX_METERS <= view_m <= MAX_METERS,
        -MAX_METERS <= speed_m <= MAX_METERS,
        forall|cell: int| #[trigger]
            is_cell_for(cell, view_m * 1024) ==> region_m * 1024 < 65536 * cell,
    ensures
        forall|cell: int| #[trigger]
            is_cell_for(cell, view_m * 1024) ==> {
                &&& r is Ok <==> is_valid(
                    region_m as int,
                    vertical_m as int,
                    view_m as int,
                    speed_m as int,
                    tick_hz as int,
                    cell,
                )
                &&& r matches Ok(w) ==> {
                    &&& w.region_size == region_m * 1024
                    &&& w.vertical_extent == vertical_m * 1024
                    &&& w.cell_size == cell
                    &&& w.horizontal_view_radius == view_m * 1024
                    &&& w.max_horizontal_speed == speed_m * 1024
                    &&& w.tick_hz == tick_hz
                    &&& w.cells_per_axis == region_m * 1024 / cell
                    &&& w.cells_per_region == w.cells_per_axis * w.cells_per_axis
                    &&& w.lossless
                    &&& w.protocol_hash == protocol_digest(
                        region_m * 1024,
                        vertical_m * 1024,
                        cell,
                        view_m * 1024,
                    )
                }
            },
{
    let asked = WorldConfig::builder().region_size_m(region_m).vertical_extent_m(vertical_m);
    let asked = asked.horizontal_view_radius_m(view_m).max_horizontal_speed_m_per_sec(speed_m);
    let c = asked.tick_hz(tick_hz).build()?;
    Ok(World {
        region_size: c.region_size().raw(),
        vertical_extent: c.vertical_extent().raw(),
        cell_size: c.cell_size().raw(),
        horizontal_view_radius: c.horizontal_view_radius().raw(),
        max_horizontal_speed: c.max_horizontal_speed().raw(),
        tick_hz: c.tick_hz(),
        cells_per_axis: c.cells_per_axis(),
        cells_per_region: c.cells_per_region(),
        lossless: c.is_lossless_horizontal(),
        protocol_hash: c.protocol_hash(),
    })
}

/// A tick rate that divides a second into whole milliseconds.
pub open spec fn is_tick_rate(hz: int) -> bool {
    hz > 0 && 1000int % hz == 0
}

/// A rate that divides a second into whole milliseconds is at most a thousand.
pub(crate) proof fn rates_fit(hz: int)
    requires
        is_tick_rate(hz),
    ensures
        1 <= hz <= 1000,
{
    if hz > 1000 {
        assert(1000int % hz == 1000) by (nonlinear_arith)
            requires
                hz > 1000,
        ;
    }
}

/// The world of every peer, at a tick rate: 4096 m across, 1024 m high, in cells
/// of 128 m, seen for 256 m, where nothing moves faster than 40 m a second.
pub open spec fn world_at(tick_hz: u32) -> World {
    World {
        region_size: 4_194_304,
        vertical_extent: 1_048_576,
        cell_size: 131_072,
        horizontal_view_radius: 262_144,
        max_horizontal_speed: 40_960,
        tick_hz,
        cells_per_axis: 32,
        cells_per_region: 1024,
        lossless: true,
        protocol_hash: protocol_digest(4_194_304, 1_048_576, 131_072, 262_144),
    }
}

/// The default world at a chosen tick rate. Wire precision is lossless here, so
/// a position an edge sends comes back exactly.
pub fn world(tick_hz: u32) -> (r: Result<World, WorldError>)
    ensures
        r == if is_tick_rate(tick_hz as int) {
            Ok(world_at(tick_hz))
        } else {
            Err(WorldError::TickRateIndivisible { tick_hz })
        },
{
    proof {
        cells_of_the_view();
        let hz = tick_hz as int;
        if hz > 0 {
            assert(40960int / hz <= 40960) by (nonlinear_arith)
                requires
                    hz > 0,
            ;
        }
        assert(is_cell_for(131072, 256int * 1024));
    }
    match build_world(4096, 1024, 256, 40, tick_hz) {
        Ok(w) => {
            assert(w.cells_per_axis * w.cells_per_axis == 1024) by (nonlinear_arith)
                requires
                    w.cells_per_axis == 32,
            ;
            Ok(w)
        },
        Err(_) => Err(WorldError::TickRateIndivisible { tick_hz }),
    }
}

/// A view radius of 256 m has cells of 128 m and no other, and both extents are
/// powers of two.
proof fn cells_of_the_view()
    ensures
        is_cell_for(131072, 262144),
        forall|cell: int| #[trigger] is_cell_for(cell, 262144) ==> cell == 131072,
        is_power_of_two(4194304),
        is_power_of_two(1048576),
{
    lemma2_to64();
    assert(pow2(17) == 131072);
    assert(pow2(20) == 1048576);
    assert(pow2(22) == 4194304);
    assert forall|cell: int| #[trigger] is_cell_for(cell, 262144) implies cell == 131072 by {
        let k = choose|k: nat| cell == #[trigger] pow2(k);
        if k < 17 {
            lemma_pow2_strictly_increases(k, 17);
            if k < 16 {
                lemma_pow2_strictly_increases(k, 16);
            }
            assert(pow2(16) == 65536);
        }
        if k > 17 {
            lemma_pow2_strictly_increases(17, k);
            if k > 18 {
                lemma_pow2_strictly_increases(18, k);
            }
            assert(pow2(18) == 262144);
        }
    }
}

/// The three peers cannot drift apart: at any two tick rates they build worlds
/// with one protocol digest, since the rate is carried beside it.
pub proof fn peers_agree_on_the_world(a: u32, b: u32)
    requires
        is_tick_rate(a as int),
        is_tick_rate(b as int),
    ensures
        world_at(a).protocol_hash == world_at(b).protocol_hash,
        world_at(a) == (World { tick_hz: a, ..world_at(b) }),
{
}

impl World {
    /// A world whose cells divide it evenly and whose ticks divide a second.
    pub open spec fn wf(self) -> bool {
        &&& 0 < self.region_size <= 0x4000_0000
        &&& 0 < self.vertical_extent
        &&& 0 < self.cell_size
        &&& 0 < self.cells_per_axis <= 65535
        &&& self.region_size == self.cell_size * self.cells_per_axis
        &&& self.cells_per_region == self.cells_per_axis * self.cells_per_axis
        &&& is_tick_rate(self.tick_hz as int)
    }

    /// The column or row a coordinate falls in. One outside the region counts to
    /// the nearest.
    pub open spec fn axis_cell(self, v: int) -> int {
        clamped(v / self.cell_size as int, 0, self.cells_per_axis - 1)
    }

    /// The cell a position falls in, row by row.
    pub open spec fn cell_at(self, x: int, y: int) -> int {
        self.axis_cell(y) * self.cells_per_axis + self.axis_cell(x)
    }
}

/// The column or row a coordinate falls in, by the division `WorldConfig` makes.
fn axis_cell(world: &World, v: i32) -> (c: u32)
    requires
        world.wf(),
    ensures
        c == world.axis_cell(v as int),
        c < world.cells_per_axis,
{
    let raw: i32 = if v > 0 { v } else { 0 };
    let c: u32 = (raw / world.cell_size) as u32;
    proof {
        let size = world.cell_size as int;
        if v < 0 {
            assert(v as int / size < 0) by (nonlinear_arith)
                requires
                    v < 0,
                    size > 0,
            ;
        }
        assert(raw as int / size >= 0) by (nonlinear_arith)
            requires
                raw >= 0,
                size > 0,
        ;
        assert(0int / size == 0) by (nonlinear_arith)
            requires
                size > 0,
        ;
    }
    if c < world.cells_per_axis {
        c
    } else {
        world.cells_per_axis - 1
    }
}

/// A cell index is inside the region, wherever the position is.
pub(crate) proof fn cells_are_in_the_region(world: World, x: int, y: int)
    requires
        world.wf(),
    ensures
        0 <= world.cell_at(x, y) < world.cells_per_region,
{
    let n = world.cells_per_axis as int;
    let cx = world.axis_cell(x);
    let cy = world.axis_cell(y);
    assert(0 <= cy * n + cx < n * n) by (nonlinear_arith)
        requires
            0 <= cx < n,
            0 <= cy < n,
    ;
}

/// Which cell a position falls in, flattened.
pub fn cell_index(world: &World, x: i32, y: i32) -> (c: usize)
    requires
        world.wf(),
    ensures
        c == world.cell_at(x as int, y as int),
        c < world.cells_per_region,
{
    let cx: u32 = axis_cell(world, x);
    let cy: u32 = axis_cell(world, y);
    proof {
        let n = world.cells_per_axis as int;
        cells_are_in_the_region(*world, x as int, y as int);
        assert(n * n <= 65535 * 65535) by (nonlinear_arith)
            requires
                0 <= n <= 65535,
        ;
        assert(cy * n >= 0) by (nonlinear_arith)
            requires
                cy >= 0,
                n >= 0,
        ;
    }
    cy as usize * world.cells_per_axis as usize + cx as usize
}

/// A position inside the region is in the cell whose square it stands on: cells come
/// in rows from the south, each row from the west. A position outside counts to the
/// nearest column and row.
pub proof fn a_position_is_in_its_cell(world: World, x: int, y: int, col: int, row: int)
    requires
        world.wf(),
        0 <= col < world.cells_per_axis,
        0 <= row < world.cells_per_axis,
        col * world.cell_size <= x || col == 0,
        x < (col + 1) * world.cell_size || col == world.cells_per_axis - 1,
        row * world.cell_size <= y || row == 0,
        y < (row + 1) * world.cell_size || row == world.cells_per_axis - 1,
    ensures
        world.cell_at(x, y) == row * world.cells_per_axis + col,
{
    a_coordinate_is_in_its_column(world, x, col);
    a_coordinate_is_in_its_column(world, y, row);
}

/// A coordinate is in the column or row that spans it.
proof fn a_coordinate_is_in_its_column(world: World, v: int, c: int)
    requires
        world.wf(),
        0 <= c < world.cells_per_axis,
        c * world.cell_size <= v || c == 0,
        v < (c + 1) * world.cell_size || c == world.cells_per_axis - 1,
    ensures
        world.axis_cell(v) == c,
{
    let size = world.cell_size as int;
    let q = v / size;
    vstd::arithmetic::div_mod::lemma_fundamental_div_mod(v, size);
    vstd::arithmetic::div_mod::lemma_mod_bound(v, size);
    if c * size <= v {
        assert(q >= c) by (nonlinear_arith)
            requires
                c * size <= v,
                v < size * q + size,
                size > 0,
        ;
    }
    if v < (c + 1) * size {
        assert(q <= c) by (nonlinear_arith)
            requires
                v < (c + 1) * size,
                size * q <= v,
                size > 0,
        ;
    }
}

/// A rate is one a world can tick at if some whole number of milliseconds, as many
/// times as it ticks, makes a second.
pub proof fn a_tick_is_whole_milliseconds(hz: int, ms: int)
    requires
        hz > 0,
    ensures
        ms * hz == 1000 ==> is_tick_rate(hz),
        is_tick_rate(hz) ==> exists|n: int| #[trigger] (n * hz) == 1000,
{
    if ms * hz == 1000 {
        vstd::arithmetic::div_mod::lemma_mod_multiples_basic(ms, hz);
    }
    if is_tick_rate(hz) {
        vstd::arithmetic::div_mod::lemma_fundamental_div_mod(1000, hz);
        let n = 1000int / hz;
        assert(n * hz == hz * n) by (nonlinear_arith);
    }
}

/// The world of every peer is a square of 4096 m, 1024 m high, in 32 by 32 cells of
/// 128 m, half as wide as anyone sees. Nothing crosses a cell in one tick.
pub proof fn the_world_is_four_kilometers_wide(tick_hz: u32)
    requires
        is_tick_rate(tick_hz as int),
    ensures
        ({
            let w = world_at(tick_hz);
            &&& w.wf()
            &&& w.region_size == 4096 * 1024
            &&& w.vertical_extent == 1024 * 1024
            &&& w.cell_size == 128 * 1024
            &&& w.horizontal_view_radius == 256 * 1024
            &&& w.max_horizontal_speed == 40 * 1024
            &&& w.cells_per_axis == 32
            &&& w.cells_per_region == 32 * 32
            &&& w.tick_hz == tick_hz
            &&& w.lossless
            &&& w.max_horizontal_speed < w.cell_size * w.tick_hz
        }),
{
}

} // verus!
