//! The costmap: obstacles on a grid, inflated by the robot's size.

use crate::bytes::{le_value, read_le};
use crate::double::{double_at_most, double_less, is_double_at_most, is_double_less};
use crate::single::{is_less, less};
use crate::sync::Time;
use vstd::prelude::*;
use vstd::string::*;

verus! {

/// Cells of a row, and rows.
pub const WIDTH_CELLS: usize = 1000;

pub const HEIGHT_CELLS: usize = 1000;

/// The pattern of 0.05, the size of a cell in metres.
pub const RESOLUTION: u64 = 0x3fa9_9999_9999_999a;

/// The pattern of -25.0, where the grid begins in both directions.
pub const ORIGIN: u64 = 0xc039_0000_0000_0000;

/// The pattern of -0.2, below which nothing is an obstacle.
pub const MIN_OBSTACLE_HEIGHT: u32 = 0xbe4c_cccd;

/// The pattern of 2.0, above which nothing is an obstacle.
pub const MAX_OBSTACLE_HEIGHT: u32 = 0x4000_0000;

/// The pattern of 15.0, beyond which nothing is an obstacle.
pub const OBSTACLE_MAX_RANGE: u32 = 0x4170_0000;

/// The pattern of 0.3, the robot's radius.
pub const ROBOT_RADIUS: u64 = 0x3fd3_3333_3333_3333;

/// The pattern of 0.55, how far obstacles are inflated.
pub const INFLATION_RADIUS: u64 = 0x3fe1_9999_9999_999a;

pub const FREE_SPACE: u8 = 0;

pub const INSCRIBED_INFLATED_OBSTACLE: u8 = 253;

pub const LETHAL_OBSTACLE: u8 = 254;

pub const NO_INFORMATION: u8 = 255;

/// A costmap. `resolution` and the origin are double-precision bit patterns,
/// in metres.
pub struct Grid {
    pub width: usize,
    pub height: usize,
    pub resolution: u64,
    pub origin_x: u64,
    pub origin_y: u64,
    /// Row by row.
    pub cells: Vec<u8>,
}

/// A place in the world, and the cell that a division by the resolution puts
/// it in.
#[derive(Clone, Copy)]
pub struct Place {
    /// Double-precision bit patterns.
    pub wx: u64,
    pub wy: u64,
    pub mx: usize,
    pub my: usize,
}

/// A point that may be an obstacle: its height and its distance as
/// single-precision bit patterns, and its place.
#[derive(Clone, Copy)]
pub struct Sighting {
    pub z: u32,
    pub range: u32,
    pub place: Place,
}

/// A distance from an obstacle, a double-precision bit pattern, and the cost
/// that decays with it.
#[derive(Clone, Copy)]
pub struct Ring {
    pub dist: u64,
    pub decayed: u8,
}

/// The cost at a distance from an obstacle. `None` where it is too far.
pub open spec fn ring_cost(r: Ring) -> Option<u8> {
    if double_less(INFLATION_RADIUS, r.dist) {
        None
    } else if double_at_most(r.dist, ROBOT_RADIUS) {
        Some(INSCRIBED_INFLATED_OBSTACLE)
    } else {
        Some(r.decayed)
    }
}

/// The cost at a distance from an obstacle. `None` where it is too far.
fn cost_at(r: &Ring) -> (c: Option<u8>)
    ensures
        c == ring_cost(*r),
{
    if is_double_less(INFLATION_RADIUS, r.dist) {
        None
    } else if is_double_at_most(r.dist, ROBOT_RADIUS) {
        Some(INSCRIBED_INFLATED_OBSTACLE)
    } else {
        Some(r.decayed)
    }
}

/// Index of the cell in column `x` of row `y`.
pub open spec fn at(x: int, y: int, width: int) -> int {
    y * width + x
}

/// The sum of the squares.
pub open spec fn squares(dx: int, dy: int) -> int {
    dx * dx + dy * dy
}

/// The cost that an obstacle at `(u, v)` gives the cell at `(x, y)`, if it
/// reaches it. `rings` is indexed by the square of the distance in cells.
pub open spec fn gives(rings: Seq<Ring>, radius: int, u: int, v: int, x: int, y: int) -> Option<u8> {
    if -radius <= x - u <= radius && -radius <= y - v <= radius {
        ring_cost(rings[squares(x - u, y - v)])
    } else {
        None
    }
}

/// Whether a radius and the costs at all distances within it fit together.
pub open spec fn rings_ok(rings: Seq<Ring>, radius: int) -> bool {
    &&& 0 <= radius <= 32767
    &&& rings.len() > squares(radius, radius)
    &&& forall|i: int|
        0 <= i < rings.len() ==> (#[trigger] rings[i]).decayed < INSCRIBED_INFLATED_OBSTACLE
}

/// The cost of a cell that is given another one: the higher, unless it is an
/// obstacle itself.
pub open spec fn bumped(cost: u8, given: Option<u8>) -> u8 {
    match given {
        Some(c) => if cost != LETHAL_OBSTACLE && c > cost {
            c
        } else {
            cost
        },
        None => cost,
    }
}

/// Whether the obstacle at `(u, v)` of `cells` gives the cell at `(x, y)` the
/// cost `c`.
pub open spec fn source(
    cells: Seq<u8>,
    width: int,
    height: int,
    rings: Seq<Ring>,
    radius: int,
    u: int,
    v: int,
    x: int,
    y: int,
    c: u8,
) -> bool {
    &&& 0 <= u < width
    &&& 0 <= v < height
    &&& cells[at(u, v, width)] == LETHAL_OBSTACLE
    &&& gives(rings, radius, u, v, x, y) == Some(c)
}

/// Whether `after` is what the obstacles in `before` make of it: they stay,
/// and any other cell has the highest of its own cost and of those that
/// obstacles give it.
pub open spec fn inflated(
    before: Seq<u8>,
    after: Seq<u8>,
    width: int,
    height: int,
    rings: Seq<Ring>,
    radius: int,
) -> bool {
    &&& after.len() == before.len()
    &&& forall|x: int, y: int|
        0 <= x < width && 0 <= y < height ==> highest(
            before,
            #[trigger] after[at(x, y, width)],
            width,
            height,
            rings,
            radius,
            x,
            y,
        )
}

/// Whether `cost` is the highest of the cell's own and of those that
/// obstacles give it, or the cell is an obstacle and stays one.
pub open spec fn highest(
    before: Seq<u8>,
    cost: u8,
    width: int,
    height: int,
    rings: Seq<Ring>,
    radius: int,
    x: int,
    y: int,
) -> bool {
    let own = before[at(x, y, width)];
    if own == LETHAL_OBSTACLE {
        cost == LETHAL_OBSTACLE
    } else {
        &&& cost >= own
        &&& forall|u: int, v: int, c: u8| #[trigger]
            source(before, width, height, rings, radius, u, v, x, y, c) ==> cost >= c
        &&& cost == own || exists|u: int, v: int| #[trigger]
            source(before, width, height, rings, radius, u, v, x, y, cost)
    }
}

/// Cells lie within the grid, and no two at the same place.
proof fn places_differ(x: int, y: int, u: int, v: int, width: int, height: int)
    requires
        0 <= x < width,
        0 <= y < height,
        0 <= u < width,
        0 <= v < height,
    ensures
        0 <= at(x, y, width) < width * height,
        at(x, y, width) == at(u, v, width) ==> x == u && y == v,
{
    assert(0 <= y * width && y * width + width <= width * height) by (nonlinear_arith)
        requires
            0 <= y < height,
            0 <= width,
    ;
    if y < v {
        assert(y * width + width <= v * width) by (nonlinear_arith)
            requires
                y < v,
                0 <= width,
        ;
    }
    if v < y {
        assert(v * width + width <= y * width) by (nonlinear_arith)
            requires
                v < y,
                0 <= width,
        ;
    }
}

/// The square of a distance within the radius is an index of the rings.
proof fn squares_bound(dx: int, dy: int, radius: int)
    requires
        -radius <= dx <= radius,
        -radius <= dy <= radius,
    ensures
        0 <= dx * dx <= radius * radius,
        0 <= dy * dy <= radius * radius,
        0 <= squares(dx, dy) <= squares(radius, radius),
{
    assert(0 <= dx * dx <= radius * radius) by (nonlinear_arith)
        requires
            -radius <= dx <= radius,
    ;
    assert(0 <= dy * dy <= radius * radius) by (nonlinear_arith)
        requires
            -radius <= dy <= radius,
    ;
}

/// Gives every cell the cost that an obstacle at `(lx, ly)` gives it.
fn spread(
    cells: &mut Vec<u8>,
    width: usize,
    height: usize,
    lx: usize,
    ly: usize,
    radius: usize,
    rings: &Vec<Ring>,
)
    requires
        lx < width,
        ly < height,
        width <= i32::MAX,
        height <= i32::MAX,
        old(cells)@.len() == width * height,
        rings_ok(rings@, radius as int),
    ensures
        final(cells)@.len() == old(cells)@.len(),
        forall|x: int, y: int|
            0 <= x < width && 0 <= y < height ==> #[trigger] final(cells)@[at(x, y, width as int)]
                == bumped(
                old(cells)@[at(x, y, width as int)],
                gives(rings@, radius as int, lx as int, ly as int, x, y),
            ),
{
    let x0: usize = if lx > radius {
        lx - radius
    } else {
        0
    };
    let y0: usize = if ly > radius {
        ly - radius
    } else {
        0
    };
    let x1: usize = if width - lx > radius + 1 {
        lx + radius + 1
    } else {
        width
    };
    let y1: usize = if height - ly > radius + 1 {
        ly + radius + 1
    } else {
        height
    };
    let n: usize = cells.len();
    let ghost w = width as int;
    let ghost before = cells@;
    let mut y: usize = y0;
    while y < y1
        invariant
            y0 <= y <= y1 <= height,
            x0 <= x1 <= width,
            lx < width,
            ly < height,
            width <= i32::MAX,
            height <= i32::MAX,
            w == width,
            rings_ok(rings@, radius as int),
            cells@.len() == n,
            before.len() == n,
            n == width * height,
            x0 == lx - radius || (x0 == 0 && lx <= radius),
                x1 == lx + radius + 1 || (x1 == width && width <= lx + radius + 1),
            y0 == ly - radius || (y0 == 0 && ly <= radius),
                y1 == ly + radius + 1 || (y1 == height && height <= ly + radius + 1),
            forall|c: int, r: int|
                0 <= c < w && 0 <= r < height ==> #[trigger] cells@[at(c, r, w)] == if r < y {
                    bumped(
                        before[at(c, r, w)],
                        gives(rings@, radius as int, lx as int, ly as int, c, r),
                    )
                } else {
                    before[at(c, r, w)]
                },
        decreases y1 - y,
    {
        let mut x: usize = x0;
        while x < x1
            invariant
                y0 <= y < y1 <= height,
                x0 <= x <= x1 <= width,
                lx < width,
                ly < height,
                width <= i32::MAX,
                height <= i32::MAX,
                w == width,
                rings_ok(rings@, radius as int),
                cells@.len() == n,
                before.len() == n,
                n == width * height,
                x0 == lx - radius || (x0 == 0 && lx <= radius),
                x1 == lx + radius + 1 || (x1 == width && width <= lx + radius + 1),
                y0 == ly - radius || (y0 == 0 && ly <= radius),
                y1 == ly + radius + 1 || (y1 == height && height <= ly + radius + 1),
                forall|c: int, r: int|
                    0 <= c < w && 0 <= r < height ==> #[trigger] cells@[at(c, r, w)] == if r < y || (
                    r == y && c < x) {
                        bumped(
                            before[at(c, r, w)],
                            gives(rings@, radius as int, lx as int, ly as int, c, r),
                        )
                    } else {
                        before[at(c, r, w)]
                    },
            decreases x1 - x,
        {
            let dx: usize = if x < lx {
                lx - x
            } else {
                x - lx
            };
            let dy: usize = if y < ly {
                ly - y
            } else {
                y - ly
            };
            proof {
                places_differ(x as int, y as int, x as int, y as int, w, height as int);
                squares_bound(dx as int, dy as int, radius as int);
                squares_bound(radius as int, radius as int, 32767);
                assert(squares(x - lx, y - ly) == squares(dx as int, dy as int))
                    by (nonlinear_arith)
                    requires
                        dx == x - lx || dx == lx - x,
                        dy == y - ly || dy == ly - y,
                ;
                assert(y * width + x < width * height);
                assert(y * width >= 0) by (nonlinear_arith);
            }
            let i: usize = y * width + x;
            let ghost mid = cells@;
            assert(i == at(x as int, y as int, w));
            let cost: u8 = cells[i];
            if cost != LETHAL_OBSTACLE {
                match cost_at(&rings[dx * dx + dy * dy]) {
                    None => {},
                    Some(c) => {
                        if c > cost {
                            cells.set(i, c);
                        }
                    },
                }
            }
            assert forall|c: int, r: int| 0 <= c < w && 0 <= r < height implies #[trigger] cells@[at(
                c,
                r,
                w,
            )] == if r < y || (r == y && c < x + 1) {
                bumped(
                    before[at(c, r, w)],
                    gives(rings@, radius as int, lx as int, ly as int, c, r),
                )
            } else {
                before[at(c, r, w)]
            } by {
                places_differ(c, r, x as int, y as int, w, height as int);
                assert(mid[at(c, r, w)] == if r < y || (r == y && c < x) {
                    bumped(
                        before[at(c, r, w)],
                        gives(rings@, radius as int, lx as int, ly as int, c, r),
                    )
                } else {
                    before[at(c, r, w)]
                });
            }
            x = x + 1;
        }
        y = y + 1;
    }
}

impl Grid {
    /// Whether there is a cell for every place.
    pub open spec fn wf(&self) -> bool {
        &&& self.cells@.len() == self.width * self.height
        &&& self.width <= i32::MAX
        &&& self.height <= i32::MAX
    }

    /// A grid of which nothing is known.
    pub fn new(width: usize, height: usize, resolution: u64, origin_x: u64, origin_y: u64) -> (g: Self)
        requires
            width * height <= usize::MAX,
            width <= i32::MAX,
            height <= i32::MAX,
        ensures
            g.wf(),
            g.width == width,
            g.height == height,
            g.resolution == resolution,
            g.origin_x == origin_x,
            g.origin_y == origin_y,
            forall|i: int| 0 <= i < g.cells@.len() ==> g.cells@[i] == NO_INFORMATION,
    {
        let mut cells: Vec<u8> = Vec::new();
        let n: usize = width * height;
        let mut i: usize = 0;
        while i < n
            invariant
                i <= n,
                cells@.len() == i,
                forall|k: int| 0 <= k < i ==> cells@[k] == NO_INFORMATION,
            decreases n - i,
        {
            cells.push(NO_INFORMATION);
            i = i + 1;
        }
        Grid { width, height, resolution, origin_x, origin_y, cells }
    }

    /// Whether a place lies on the grid.
    pub open spec fn on_grid(&self, p: Place) -> bool {
        &&& !double_less(p.wx, self.origin_x)
        &&& !double_less(p.wy, self.origin_y)
        &&& p.mx < self.width
        &&& p.my < self.height
    }

    /// Whether nothing but the cells differs.
    pub open spec fn same_frame(&self, other: &Self) -> bool {
        &&& self.width == other.width
        &&& self.height == other.height
        &&& self.resolution == other.resolution
        &&& self.origin_x == other.origin_x
        &&& self.origin_y == other.origin_y
    }

    /// The cell of a place. `None` if it is off the grid.
    pub fn world_to_map(&self, p: &Place) -> (r: Option<(usize, usize)>)
        ensures
            r == if self.on_grid(*p) {
                Some((p.mx, p.my))
            } else {
                None
            },
    {
        if is_double_less(p.wx, self.origin_x) || is_double_less(p.wy, self.origin_y) {
            return None;
        }
        if p.mx >= self.width || p.my >= self.height {
            return None;
        }
        Some((p.mx, p.my))
    }

    /// Makes every cell free.
    pub fn clear_to_free(&mut self)
        ensures
            final(self).same_frame(old(self)),
            final(self).cells@.len() == old(self).cells@.len(),
            forall|i: int| 0 <= i < final(self).cells@.len() ==> final(self).cells@[i] == FREE_SPACE,
    {
        let n: usize = self.cells.len();
        let mut i: usize = 0;
        while i < n
            invariant
                i <= n,
                n == self.cells@.len(),
                n == old(self).cells@.len(),
                self.same_frame(old(self)),
                forall|k: int| 0 <= k < i ==> self.cells@[k] == FREE_SPACE,
            decreases n - i,
        {
            self.cells.set(i, FREE_SPACE);
            i = i + 1;
        }
    }

    /// Puts an obstacle at a place, if it lies on the grid.
    pub fn mark_obstacle(&mut self, p: &Place)
        requires
            old(self).wf(),
        ensures
            final(self).wf(),
            final(self).same_frame(old(self)),
            final(self).cells@ == if old(self).on_grid(*p) {
                old(self).cells@.update(
                    at(p.mx as int, p.my as int, old(self).width as int),
                    LETHAL_OBSTACLE,
                )
            } else {
                old(self).cells@
            },
    {
        match self.world_to_map(p) {
            None => {},
            Some((mx, my)) => {
                let n: usize = self.cells.len();
                proof {
                    places_differ(
                        mx as int,
                        my as int,
                        mx as int,
                        my as int,
                        self.width as int,
                        self.height as int,
                    );
                    assert(my * self.width >= 0) by (nonlinear_arith);
                }
                let i: usize = my * self.width + mx;
                self.cells.set(i, LETHAL_OBSTACLE);
            },
        }
    }

    /// Inflates the obstacles: `rings` tells the costs by the square of the
    /// distance in cells, up to `radius` cells in each direction.
    pub fn inflate(&mut self, radius: usize, rings: &Vec<Ring>)
        requires
            old(self).wf(),
            rings_ok(rings@, radius as int),
        ensures
            final(self).wf(),
            final(self).same_frame(old(self)),
            inflated(
                old(self).cells@,
                final(self).cells@,
                old(self).width as int,
                old(self).height as int,
                rings@,
                radius as int,
            ),
    {
        let ghost before = self.cells@;
        let ghost w = self.width as int;
        let ghost h = self.height as int;
        let n: usize = self.cells.len();
        let mut grown: Vec<u8> = self.cells.clone();
        assert(grown@ =~= before);
        let mut v: usize = 0;
        while v < self.height
            invariant
                v <= self.height,
                self.wf(),
                *self == *old(self),
                self.cells@ == before,
                w == self.width,
                h == self.height,
                n == before.len(),
                grown@.len() == n,
                rings_ok(rings@, radius as int),
                forall|x: int, y: int|
                    0 <= x < w && 0 <= y < h ==> highest_so_far(
                        before,
                        #[trigger] grown@[at(x, y, w)],
                        w,
                        h,
                        rings@,
                        radius as int,
                        x,
                        y,
                        0,
                        v as int,
                    ),
            decreases self.height - v,
        {
            let mut u: usize = 0;
            while u < self.width
                invariant
                    u <= self.width,
                    v < self.height,
                    self.wf(),
                    *self == *old(self),
                    self.cells@ == before,
                    w == self.width,
                    h == self.height,
                    n == before.len(),
                    grown@.len() == n,
                    rings_ok(rings@, radius as int),
                    forall|x: int, y: int|
                        0 <= x < w && 0 <= y < h ==> highest_so_far(
                            before,
                            #[trigger] grown@[at(x, y, w)],
                            w,
                            h,
                            rings@,
                            radius as int,
                            x,
                            y,
                            u as int,
                            v as int,
                        ),
                decreases self.width - u,
            {
                let ghost mid = grown@;
                proof {
                    places_differ(u as int, v as int, u as int, v as int, w, h);
                    assert(v * self.width >= 0) by (nonlinear_arith);
                }
                let i: usize = v * self.width + u;
                let lethal: bool = self.cells[i] == LETHAL_OBSTACLE;
                if lethal {
                    spread(&mut grown, self.width, self.height, u, v, radius, rings);
                }
                assert forall|x: int, y: int| 0 <= x < w && 0 <= y < h implies highest_so_far(
                    before,
                    #[trigger] grown@[at(x, y, w)],
                    w,
                    h,
                    rings@,
                    radius as int,
                    x,
                    y,
                    u + 1,
                    v as int,
                ) by {
                    assert(highest_so_far(
                        before,
                        mid[at(x, y, w)],
                        w,
                        h,
                        rings@,
                        radius as int,
                        x,
                        y,
                        u as int,
                        v as int,
                    ));
                    one_more_source(
                        before,
                        mid[at(x, y, w)],
                        grown@[at(x, y, w)],
                        w,
                        h,
                        rings@,
                        radius as int,
                        x,
                        y,
                        u as int,
                        v as int,
                    );
                }
                u = u + 1;
            }
            assert forall|x: int, y: int| 0 <= x < w && 0 <= y < h implies highest_so_far(
                before,
                #[trigger] grown@[at(x, y, w)],
                w,
                h,
                rings@,
                radius as int,
                x,
                y,
                0,
                v + 1,
            ) by {
                let cost = grown@[at(x, y, w)];
                assert(highest_so_far(before, cost, w, h, rings@, radius as int, x, y, w, v as int));
            }
            v = v + 1;
        }
        self.cells = grown;
        assert forall|x: int, y: int| 0 <= x < w && 0 <= y < h implies highest(
            before,
            #[trigger] self.cells@[at(x, y, w)],
            w,
            h,
            rings@,
            radius as int,
            x,
            y,
        ) by {
            let cost = self.cells@[at(x, y, w)];
            assert(highest_so_far(before, cost, w, h, rings@, radius as int, x, y, 0, h));
        }
    }
}

/// Whether `cost` is the highest of the cell's own and of those that the
/// obstacles before `(u0, v0)` give it.
spec fn highest_so_far(
    before: Seq<u8>,
    cost: u8,
    width: int,
    height: int,
    rings: Seq<Ring>,
    radius: int,
    x: int,
    y: int,
    u0: int,
    v0: int,
) -> bool {
    let own = before[at(x, y, width)];
    if own == LETHAL_OBSTACLE {
        cost == LETHAL_OBSTACLE
    } else {
        &&& cost >= own
        &&& cost != LETHAL_OBSTACLE
        &&& forall|u: int, v: int, c: u8| #[trigger]
            source(before, width, height, rings, radius, u, v, x, y, c) && (v < v0 || (v == v0 && u
                < u0)) ==> cost >= c
        &&& cost == own || exists|u: int, v: int| #[trigger]
            source(before, width, height, rings, radius, u, v, x, y, cost)
    }
}

proof fn one_more_source(
    before: Seq<u8>,
    was: u8,
    cost: u8,
    width: int,
    height: int,
    rings: Seq<Ring>,
    radius: int,
    x: int,
    y: int,
    u0: int,
    v0: int,
)
    requires
        rings_ok(rings, radius),
        0 <= u0 < width,
        0 <= v0 < height,
        0 <= x < width,
        0 <= y < height,
        highest_so_far(before, was, width, height, rings, radius, x, y, u0, v0),
        cost == if before[at(u0, v0, width)] == LETHAL_OBSTACLE {
            bumped(was, gives(rings, radius, u0, v0, x, y))
        } else {
            was
        },
    ensures
        highest_so_far(before, cost, width, height, rings, radius, x, y, u0 + 1, v0),
{
    let own = before[at(x, y, width)];
    if own != LETHAL_OBSTACLE {
        assert forall|u: int, v: int, c: u8| #[trigger]
            source(before, width, height, rings, radius, u, v, x, y, c) && (v < v0 || (v == v0 && u
                < u0 + 1)) implies cost >= c by {
            if v == v0 && u == u0 {
            }
        }
        if cost != was {
            assert(source(before, width, height, rings, radius, u0, v0, x, y, cost));
            squares_bound(x - u0, y - v0, radius);
            assert(rings[squares(x - u0, y - v0)].decayed < INSCRIBED_INFLATED_OBSTACLE);
        }
    }
}

/// A byte as a signed one with the same bits.
pub open spec fn signed_byte(c: u8) -> i8 {
    if c >= 128 {
        (c - 256) as i8
    } else {
        c as i8
    }
}

/// Cells as they are published.
pub open spec fn signed_bytes(cells: Seq<u8>) -> Seq<i8> {
    cells.map_values(|c: u8| signed_byte(c))
}

/// Whether a point is an obstacle: neither too low, too high nor too far. A
/// measure that is not a number rules nothing out.
pub open spec fn is_obstacle(s: Sighting) -> bool {
    &&& !less(s.z, MIN_OBSTACLE_HEIGHT)
    &&& !less(MAX_OBSTACLE_HEIGHT, s.z)
    &&& !less(OBSTACLE_MAX_RANGE, s.range)
}

/// A published costmap. `resolution` and the origin are double-precision bit
/// patterns.
pub struct Costmap {
    pub stamp: Time,
    pub frame_id: String,
    pub layer: String,
    pub resolution: u64,
    pub size_x: u32,
    pub size_y: u32,
    pub origin_x: u64,
    pub origin_y: u64,
    pub data: Vec<i8>,
}

impl Grid {
    /// Whether one of the first `n` sightings is an obstacle in cell `i`.
    pub open spec fn hit(&self, sightings: Seq<Sighting>, n: int, i: int) -> bool {
        exists|k: int|
            0 <= k < n && is_obstacle(#[trigger] sightings[k]) && self.on_grid(sightings[k].place)
                && i == at(
                sightings[k].place.mx as int,
                sightings[k].place.my as int,
                self.width as int,
            )
    }

    /// The cells with an obstacle wherever one of the first `n` sightings
    /// puts one, and free elsewhere.
    pub open spec fn marked(&self, sightings: Seq<Sighting>, n: int) -> Seq<u8> {
        Seq::new(
            (self.width * self.height) as nat,
            |i: int|
                if self.hit(sightings, n, i) {
                    LETHAL_OBSTACLE
                } else {
                    FREE_SPACE
                },
        )
    }

    /// The cells as signed bytes.
    pub fn to_i8_data(&self) -> (r: Vec<i8>)
        ensures
            r@ == signed_bytes(self.cells@),
    {
        let mut data: Vec<i8> = Vec::new();
        let n: usize = self.cells.len();
        let mut i: usize = 0;
        while i < n
            invariant
                i <= n,
                n == self.cells@.len(),
                data@ == signed_bytes(self.cells@.take(i as int)),
            decreases n - i,
        {
            let c: u8 = self.cells[i];
            data.push(
                if c >= 128 {
                    (c as i16 - 256) as i8
                } else {
                    c as i8
                },
            );
            i = i + 1;
            assert(data@ =~= signed_bytes(self.cells@.take(i as int)));
        }
        assert(self.cells@.take(i as int) =~= self.cells@);
        data
    }

    /// Replaces all obstacles by those among the sightings.
    fn mark_all(&mut self, sightings: &Vec<Sighting>)
        requires
            old(self).wf(),
        ensures
            final(self).wf(),
            final(self).same_frame(old(self)),
            final(self).cells@ == old(self).marked(sightings@, sightings@.len() as int),
    {
        self.clear_to_free();
        assert(self.cells@ =~= old(self).marked(sightings@, 0));
        let mut k: usize = 0;
        while k < sightings.len()
            invariant
                k <= sightings@.len(),
                self.wf(),
                old(self).wf(),
                self.same_frame(old(self)),
                self.cells@ == old(self).marked(sightings@, k as int),
            decreases sightings@.len() - k,
        {
            let s: Sighting = sightings[k];
            let ghost was = self.cells@;
            let ghost w = self.width as int;
            if !is_less(s.z, MIN_OBSTACLE_HEIGHT) && !is_less(MAX_OBSTACLE_HEIGHT, s.z)
                && !is_less(OBSTACLE_MAX_RANGE, s.range) {
                self.mark_obstacle(&s.place);
            }
            proof {
                if self.on_grid(s.place) {
                    places_differ(
                        s.place.mx as int,
                        s.place.my as int,
                        s.place.mx as int,
                        s.place.my as int,
                        w,
                        self.height as int,
                    );
                }
                let next = old(self).marked(sightings@, k + 1);
                assert forall|i: int| 0 <= i < was.len() implies self.cells@[i] == next[i] by {
                    assert(old(self).hit(sightings@, k + 1, i) <==> old(self).hit(
                        sightings@,
                        k as int,
                        i,
                    ) || (is_obstacle(s) && old(self).on_grid(s.place) && i == at(
                        s.place.mx as int,
                        s.place.my as int,
                        w,
                    ))) by {
                        assert(sightings@[k as int] == s);
                    }
                }
                assert(self.cells@ =~= next);
            }
            k = k + 1;
        }
    }

    /// Rebuilds the costmap from the sightings of one cloud and gives the
    /// message to publish, stamped as the cloud is.
    pub fn on_synced_pair(
        &mut self,
        sightings: &Vec<Sighting>,
        radius: usize,
        rings: &Vec<Ring>,
        stamp: Time,
        frame_id: &str,
    ) -> (m: Costmap)
        requires
            old(self).wf(),
            rings_ok(rings@, radius as int),
        ensures
            final(self).wf(),
            final(self).same_frame(old(self)),
            inflated(
                old(self).marked(sightings@, sightings@.len() as int),
                final(self).cells@,
                old(self).width as int,
                old(self).height as int,
                rings@,
                radius as int,
            ),
            m.stamp == stamp,
            m.frame_id@ == frame_id@,
            m.layer@ == "fused_perception"@,
            m.resolution == old(self).resolution,
            m.size_x == old(self).width,
            m.size_y == old(self).height,
            m.origin_x == old(self).origin_x,
            m.origin_y == old(self).origin_y,
            m.data@ == signed_bytes(final(self).cells@),
    {
        self.mark_all(sightings);
        self.inflate(radius, rings);
        Costmap {
            stamp,
            frame_id: frame_id.to_owned(),
            layer: "fused_perception".to_owned(),
            resolution: self.resolution,
            size_x: self.width as u32,
            size_y: self.height as u32,
            origin_x: self.origin_x,
            origin_y: self.origin_y,
            data: self.to_i8_data(),
        }
    }
}

/// A field of the records of a received cloud.
pub struct FieldInfo {
    pub name: String,
    pub offset: u32,
}

/// A received cloud: records of `point_step` bytes, with little-endian
/// single-precision coordinates where the fields say.
pub struct CloudRecords {
    pub fields: Vec<FieldInfo>,
    pub point_step: u32,
    pub data: Vec<u8>,
}

/// Offset of the first of the fields from `from` on that has the given name,
/// or else the given one.
pub open spec fn offset_of(fields: Seq<FieldInfo>, name: Seq<char>, default: u32, from: int) -> u32
    decreases fields.len() - from,
{
    if from >= fields.len() {
        default
    } else if fields[from].name@ == name {
        fields[from].offset
    } else {
        offset_of(fields, name, default, from + 1)
    }
}

/// Offset of a field by its name.
fn find_offset(fields: &Vec<FieldInfo>, name: &str, default: u32) -> (r: u32)
    ensures
        r == offset_of(fields@, name@, default, 0),
{
    let wanted = name.to_owned();
    let mut i: usize = 0;
    while i < fields.len()
        invariant
            i <= fields@.len(),
            wanted@ == name@,
            offset_of(fields@, name@, default, 0) == offset_of(fields@, name@, default, i as int),
        decreases fields@.len() - i,
    {
        if fields[i].name == wanted {
            return fields[i].offset;
        }
        i = i + 1;
    }
    default
}

/// The coordinate at offset `off` of the record at `base`. `None` where the
/// data ends before it does.
pub open spec fn coordinate(data: Seq<u8>, base: int, off: int) -> Option<u32> {
    if base + off + 4 <= data.len() {
        Some(le_value(data, base + off) as u32)
    } else {
        None
    }
}

fn read_coordinate(data: &Vec<u8>, base: usize, off: u32) -> (r: Option<u32>)
    requires
        base <= data@.len(),
    ensures
        r == coordinate(data@, base as int, off as int),
{
    let room: usize = data.len() - base;
    if room >= 4 && off as u64 <= (room - 4) as u64 {
        Some(read_le(data.as_slice(), base + off as usize))
    } else {
        None
    }
}

/// The position that record `i` holds, if all of it is there.
pub open spec fn position(cloud: CloudRecords, i: int) -> Option<(u32, u32, u32)> {
    let base = i * cloud.point_step;
    let x = coordinate(cloud.data@, base, offset_of(cloud.fields@, "x"@, 0, 0) as int);
    let y = coordinate(cloud.data@, base, offset_of(cloud.fields@, "y"@, 4, 0) as int);
    let z = coordinate(cloud.data@, base, offset_of(cloud.fields@, "z"@, 8, 0) as int);
    if x is Some && y is Some && z is Some {
        Some((x->0, y->0, z->0))
    } else {
        None
    }
}

/// The positions of the first `n` records, without those that are cut off.
pub open spec fn positions(cloud: CloudRecords, n: int) -> Seq<(u32, u32, u32)>
    decreases n,
{
    if n <= 0 {
        Seq::empty()
    } else {
        match position(cloud, n - 1) {
            Some(p) => positions(cloud, n - 1).push(p),
            None => positions(cloud, n - 1),
        }
    }
}

/// Whole records of a cloud.
pub open spec fn record_count(cloud: CloudRecords) -> int {
    if cloud.point_step > 0 {
        cloud.data@.len() as int / cloud.point_step as int
    } else {
        0
    }
}

/// The positions of a cloud, as single-precision bit patterns.
pub fn iter_xyz(cloud: &CloudRecords) -> (r: Vec<(u32, u32, u32)>)
    ensures
        r@ == positions(*cloud, record_count(*cloud)),
{
    let mut out: Vec<(u32, u32, u32)> = Vec::new();
    if cloud.point_step == 0 {
        return out;
    }
    let x_off: u32 = find_offset(&cloud.fields, "x", 0);
    let y_off: u32 = find_offset(&cloud.fields, "y", 4);
    let z_off: u32 = find_offset(&cloud.fields, "z", 8);
    let step: usize = cloud.point_step as usize;
    let len: usize = cloud.data.len();
    let n: usize = len / step;
    let mut i: usize = 0;
    let mut base: usize = 0;
    while i < n
        invariant
            i <= n,
            step == cloud.point_step,
            step > 0,
            len == cloud.data@.len(),
            n == len as int / step as int,
            base == i * step,
            x_off == offset_of(cloud.fields@, "x"@, 0, 0),
            y_off == offset_of(cloud.fields@, "y"@, 4, 0),
            z_off == offset_of(cloud.fields@, "z"@, 8, 0),
            out@ == positions(*cloud, i as int),
        decreases n - i,
    {
        assert(i * step + step <= len) by (nonlinear_arith)
            requires
                i < n,
                step > 0,
                n == len as int / step as int,
        ;
        assert((i + 1) * step == i * step + step) by (nonlinear_arith);
        match (
            read_coordinate(&cloud.data, base, x_off),
            read_coordinate(&cloud.data, base, y_off),
            read_coordinate(&cloud.data, base, z_off),
        ) {
            (Some(x), Some(y), Some(z)) => {
                out.push((x, y, z));
            },
            _ => {},
        }
        base = base + step;
        i = i + 1;
    }
    out
}

/// Inflating only raises costs: an obstacle stays, no cost sinks, and no new
/// obstacle comes up.
pub proof fn inflation_only_raises(
    before: Seq<u8>,
    after: Seq<u8>,
    width: int,
    height: int,
    rings: Seq<Ring>,
    radius: int,
    x: int,
    y: int,
)
    requires
        inflated(before, after, width, height, rings, radius),
        rings_ok(rings, radius),
        0 <= x < width,
        0 <= y < height,
    ensures
        before[at(x, y, width)] <= after[at(x, y, width)],
        before[at(x, y, width)] == LETHAL_OBSTACLE <==> after[at(x, y, width)] == LETHAL_OBSTACLE,
{
    let own = before[at(x, y, width)];
    let cost = after[at(x, y, width)];
    assert(highest(before, cost, width, height, rings, radius, x, y));
    if own != LETHAL_OBSTACLE && cost != own {
        let (u, v) = choose|u: int, v: int| #[trigger]
            source(before, width, height, rings, radius, u, v, x, y, cost);
        squares_bound(x - u, y - v, radius);
        assert(rings[squares(x - u, y - v)].decayed < INSCRIBED_INFLATED_OBSTACLE);
    }
}

/// A cell that no obstacle reaches keeps its cost.
pub proof fn out_of_reach_unchanged(
    before: Seq<u8>,
    after: Seq<u8>,
    width: int,
    height: int,
    rings: Seq<Ring>,
    radius: int,
    x: int,
    y: int,
)
    requires
        inflated(before, after, width, height, rings, radius),
        0 <= x < width,
        0 <= y < height,
        forall|u: int, v: int, c: u8|
            !#[trigger] source(before, width, height, rings, radius, u, v, x, y, c),
    ensures
        after[at(x, y, width)] == before[at(x, y, width)],
{
    assert(highest(before, after[at(x, y, width)], width, height, rings, radius, x, y));
}

/// What inflating makes of the cells is determined, and inflating again
/// changes nothing.
pub proof fn inflating_twice_is_inflating_once(
    before: Seq<u8>,
    after: Seq<u8>,
    again: Seq<u8>,
    width: int,
    height: int,
    rings: Seq<Ring>,
    radius: int,
    x: int,
    y: int,
)
    requires
        inflated(before, after, width, height, rings, radius),
        inflated(before, again, width, height, rings, radius) || inflated(
            after,
            again,
            width,
            height,
            rings,
            radius,
        ),
        rings_ok(rings, radius),
        0 <= x < width,
        0 <= y < height,
    ensures
        again[at(x, y, width)] == after[at(x, y, width)],
{
    let a = after[at(x, y, width)];
    let b = again[at(x, y, width)];
    inflation_only_raises(before, after, width, height, rings, radius, x, y);
    assert(highest(before, a, width, height, rings, radius, x, y));
    if inflated(before, again, width, height, rings, radius) {
        assert(highest(before, b, width, height, rings, radius, x, y));
    } else {
        assert(highest(after, b, width, height, rings, radius, x, y));
        assert forall|u: int, v: int, c: u8| #[trigger]
            source(after, width, height, rings, radius, u, v, x, y, c) implies source(
            before,
            width,
            height,
            rings,
            radius,
            u,
            v,
            x,
            y,
            c,
        ) by {
            inflation_only_raises(before, after, width, height, rings, radius, u, v);
        }
    }
}

/// A published cost reads back as the cost it was.
pub proof fn signed_bytes_read_back(cells: Seq<u8>, i: int)
    requires
        0 <= i < cells.len(),
    ensures
        signed_bytes(cells)[i] as int % 256 == cells[i],
{
}

/// Which cells of a costmap are obstacles: those that a sighting on the grid
/// is in whose height is neither below -0.2 nor above 2.0 and whose distance
/// is not above 15.0, however near it is, and no others.
pub proof fn sightings_make_their_cells_obstacles(
    grid: Grid,
    sightings: Seq<Sighting>,
    after: Seq<u8>,
    rings: Seq<Ring>,
    radius: int,
    x: int,
    y: int,
)
    requires
        grid.wf(),
        rings_ok(rings, radius),
        inflated(
            grid.marked(sightings, sightings.len() as int),
            after,
            grid.width as int,
            grid.height as int,
            rings,
            radius,
        ),
        0 <= x < grid.width,
        0 <= y < grid.height,
    ensures
        0 <= y * grid.width + x < after.len(),
        after[y * grid.width + x] == 254 <==> exists|k: int|
            #![trigger sightings[k]]
            {
                let s = sightings[k];
                &&& 0 <= k < sightings.len()
                &&& !less(s.z, 0xbe4c_cccd) && !less(0x4000_0000, s.z)
                &&& !less(0x4170_0000, s.range)
                &&& !double_less(s.place.wx, grid.origin_x) && !double_less(
                    s.place.wy,
                    grid.origin_y,
                )
                &&& s.place.mx == x && s.place.my == y
            },
        signed_bytes(after).len() == after.len(),
        after[y * grid.width + x] == 254 <==> signed_bytes(after)[y * grid.width + x] == -2,
{
    let n = sightings.len() as int;
    let w = grid.width as int;
    let h = grid.height as int;
    let before = grid.marked(sightings, n);
    let i = at(x, y, w);
    places_differ(x, y, x, y, w, h);
    assert(before.len() == w * h);
    assert(before[i] == if grid.hit(sightings, n, i) {
        LETHAL_OBSTACLE
    } else {
        FREE_SPACE
    });
    inflation_only_raises(before, after, w, h, rings, radius, x, y);
    assert(i == y * grid.width + x);
    if grid.hit(sightings, n, i) {
        let k = choose|k: int|
            0 <= k < n && is_obstacle(#[trigger] sightings[k]) && grid.on_grid(sightings[k].place)
                && i == at(sightings[k].place.mx as int, sightings[k].place.my as int, w);
        places_differ(
            x,
            y,
            sightings[k].place.mx as int,
            sightings[k].place.my as int,
            w,
            h,
        );
        assert(sightings[k].place.mx == x && sightings[k].place.my == y);
    }
    if exists|k: int|
        #![trigger sightings[k]]
        {
            let s = sightings[k];
            &&& 0 <= k < n
            &&& !less(s.z, 0xbe4c_cccd) && !less(0x4000_0000, s.z)
            &&& !less(0x4170_0000, s.range)
            &&& !double_less(s.place.wx, grid.origin_x) && !double_less(s.place.wy, grid.origin_y)
            &&& s.place.mx == x && s.place.my == y
        } {
        let k = choose|k: int|
            #![trigger sightings[k]]
            {
                let s = sightings[k];
                &&& 0 <= k < n
                &&& !less(s.z, 0xbe4c_cccd) && !less(0x4000_0000, s.z)
                &&& !less(0x4170_0000, s.range)
                &&& !double_less(s.place.wx, grid.origin_x) && !double_less(
                    s.place.wy,
                    grid.origin_y,
                )
                &&& s.place.mx == x && s.place.my == y
            };
        assert(is_obstacle(sightings[k]) && grid.on_grid(sightings[k].place));
    }
}

/// What an obstacle does to the cells around it. A cell no farther than 0.3
/// costs 253 at least; one that is farther, but no farther than 0.55, costs at
/// least what is left at its distance. That holds within the radius, the same
/// in all directions.
pub proof fn obstacles_raise_the_cells_around_them(
    before: Seq<u8>,
    after: Seq<u8>,
    width: int,
    height: int,
    rings: Seq<Ring>,
    radius: int,
    u: int,
    v: int,
    x: int,
    y: int,
)
    requires
        inflated(before, after, width, height, rings, radius),
        rings_ok(rings, radius),
        0 <= u < width,
        0 <= v < height,
        0 <= x < width,
        0 <= y < height,
        before[v * width + u] == 254,
        -radius <= x - u <= radius,
        -radius <= y - v <= radius,
    ensures
        ({
            let ring = rings[(x - u) * (x - u) + (y - v) * (y - v)];
            let cost = after[y * width + x];
            &&& double_at_most(ring.dist, 0x3fd3_3333_3333_3333) ==> cost >= 253
            &&& !double_at_most(ring.dist, 0x3fd3_3333_3333_3333) && !double_less(
                0x3fe1_9999_9999_999a,
                ring.dist,
            ) ==> cost >= ring.decayed
        }),
{
    let cost = after[at(x, y, width)];
    assert(highest(before, cost, width, height, rings, radius, x, y));
    let ring = rings[squares(x - u, y - v)];
    match ring_cost(ring) {
        Some(c) => {
            assert(source(before, width, height, rings, radius, u, v, x, y, c));
        },
        None => {},
    }
    squares_bound(x - u, y - v, radius);
    assert(ring.decayed < 253);
}

/// Where a cost comes from. A cell keeps its own cost, or has the one that
/// some obstacle within the radius gives it: 253 at a distance of no more than
/// 0.3, and what is left at its distance up to 0.55.
pub proof fn costs_come_from_obstacles(
    before: Seq<u8>,
    after: Seq<u8>,
    width: int,
    height: int,
    rings: Seq<Ring>,
    radius: int,
    x: int,
    y: int,
)
    requires
        inflated(before, after, width, height, rings, radius),
        0 <= x < width,
        0 <= y < height,
    ensures
        after.len() == before.len(),
        after[y * width + x] == before[y * width + x] || exists|u: int, v: int|
            #![trigger before[v * width + u]]
            {
                let ring = rings[(x - u) * (x - u) + (y - v) * (y - v)];
                &&& 0 <= u < width && 0 <= v < height
                &&& -radius <= x - u <= radius && -radius <= y - v <= radius
                &&& before[v * width + u] == 254
                &&& !double_less(0x3fe1_9999_9999_999a, ring.dist)
                &&& after[y * width + x] == if double_at_most(ring.dist, 0x3fd3_3333_3333_3333) {
                    253u8
                } else {
                    ring.decayed
                }
            },
{
    let own = before[at(x, y, width)];
    let cost = after[at(x, y, width)];
    assert(highest(before, cost, width, height, rings, radius, x, y));
    if own != LETHAL_OBSTACLE && cost != own {
        let (u, v) = choose|u: int, v: int| #[trigger]
            source(before, width, height, rings, radius, u, v, x, y, cost);
        assert(before[v * width + u] == 254);
    }
}

/// Before its obstacles are inflated, a costmap is free wherever none is.
pub proof fn costmaps_start_free(grid: Grid, sightings: Seq<Sighting>, n: int, i: int)
    requires
        0 <= i < grid.width * grid.height,
    ensures
        grid.marked(sightings, n).len() == grid.width * grid.height,
        grid.marked(sightings, n)[i] == 0 || grid.marked(sightings, n)[i] == 254,
{
}

/// The frame of the costmap, and the costs it knows: a thousand cells of 0.05
/// each way, beginning 25 behind and to the side of the sensor.
pub proof fn frame_of_the_costmap()
    ensures
        WIDTH_CELLS == 1000,
        HEIGHT_CELLS == 1000,
        RESOLUTION == 0x3fa9_9999_9999_999a,
        ORIGIN == 0xc039_0000_0000_0000,
        FREE_SPACE == 0,
        NO_INFORMATION == 255,
{
}

/// The offset of a field is that of the first field with its name, or the
/// given one where there is none.
pub proof fn offset_is_that_of_the_first_field(
    fields: Seq<FieldInfo>,
    name: Seq<char>,
    default: u32,
    i: int,
)
    requires
        0 <= i <= fields.len(),
        forall|k: int| 0 <= k < i ==> (#[trigger] fields[k]).name@ != name,
        i < fields.len() ==> fields[i].name@ == name,
    ensures
        i < fields.len() ==> offset_of(fields, name, default, 0) == fields[i].offset,
        i == fields.len() ==> offset_of(fields, name, default, 0) == default,
{
    offset_from(fields, name, default, 0, i);
}

proof fn offset_from(fields: Seq<FieldInfo>, name: Seq<char>, default: u32, from: int, i: int)
    requires
        0 <= from <= i <= fields.len(),
        forall|k: int| 0 <= k < i ==> (#[trigger] fields[k]).name@ != name,
        i < fields.len() ==> fields[i].name@ == name,
    ensures
        i < fields.len() ==> offset_of(fields, name, default, from) == fields[i].offset,
        i == fields.len() ==> offset_of(fields, name, default, from) == default,
    decreases i - from,
{
    if from < i {
        assert(fields[from].name@ != name);
        offset_from(fields, name, default, from + 1, i);
    }
}

/// The positions of a cloud: one for every whole record, in order, each of the
/// three numbers that stand little-endian at the offsets of the fields `x`,
/// `y` and `z`; without such fields, at 0, 4 and 8. A record whose numbers the
/// data does not hold is left out.
pub proof fn positions_stand_in_the_records(cloud: CloudRecords, n: int, i: int)
    requires
        cloud.point_step > 0,
        n == cloud.data@.len() as int / cloud.point_step as int,
        0 <= i < n,
    ensures
        record_count(cloud) == n,
        ({
            let x = offset_of(cloud.fields@, "x"@, 0, 0) as int;
            let y = offset_of(cloud.fields@, "y"@, 4, 0) as int;
            let z = offset_of(cloud.fields@, "z"@, 8, 0) as int;
            let base = i * cloud.point_step;
            let all = positions(cloud, n);
            let data = cloud.data@;
            &&& x + 4 <= cloud.point_step && y + 4 <= cloud.point_step && z + 4 <= cloud.point_step
                ==> {
                &&& all.len() == n
                &&& all[i].0 == data[base + x] + 0x100 * data[base + x + 1] + 0x1_0000 * data[base
                    + x + 2] + 0x100_0000 * data[base + x + 3]
                &&& all[i].1 == data[base + y] + 0x100 * data[base + y + 1] + 0x1_0000 * data[base
                    + y + 2] + 0x100_0000 * data[base + y + 3]
                &&& all[i].2 == data[base + z] + 0x100 * data[base + z + 1] + 0x1_0000 * data[base
                    + z + 2] + 0x100_0000 * data[base + z + 3]
            }
            &&& base + x + 4 > data.len() || base + y + 4 > data.len() || base + z + 4 > data.len()
                ==> positions(cloud, i + 1) == positions(cloud, i)
        }),
{
    let x = offset_of(cloud.fields@, "x"@, 0, 0) as int;
    let y = offset_of(cloud.fields@, "y"@, 4, 0) as int;
    let z = offset_of(cloud.fields@, "z"@, 8, 0) as int;
    if x + 4 <= cloud.point_step && y + 4 <= cloud.point_step && z + 4 <= cloud.point_step {
        all_positions(cloud, n, n, i);
        record_within(cloud, n, i);
    }
}

proof fn record_within(cloud: CloudRecords, n: int, i: int)
    requires
        cloud.point_step > 0,
        n == cloud.data@.len() as int / cloud.point_step as int,
        0 <= i < n,
    ensures
        0 <= i * cloud.point_step,
        i * cloud.point_step + cloud.point_step <= cloud.data@.len(),
{
    let step = cloud.point_step as int;
    let len = cloud.data@.len() as int;
    assert(0 <= i * step && i * step + step <= len) by (nonlinear_arith)
        requires
            0 <= i < n,
            step > 0,
            len >= 0,
            n == len / step,
    ;
}

proof fn all_positions(cloud: CloudRecords, n: int, upto: int, i: int)
    requires
        cloud.point_step > 0,
        n == cloud.data@.len() as int / cloud.point_step as int,
        0 <= upto <= n,
        offset_of(cloud.fields@, "x"@, 0, 0) + 4 <= cloud.point_step,
        offset_of(cloud.fields@, "y"@, 4, 0) + 4 <= cloud.point_step,
        offset_of(cloud.fields@, "z"@, 8, 0) + 4 <= cloud.point_step,
    ensures
        positions(cloud, upto).len() == upto,
        0 <= i < upto ==> position(cloud, i) == Some(positions(cloud, upto)[i]),
    decreases upto,
{
    if upto > 0 {
        all_positions(cloud, n, upto - 1, i);
        record_within(cloud, n, upto - 1);
    }
}

/// Whatever is done to its cells, a costmap keeps its size, its resolution and
/// its place.
pub proof fn frames_are_kept(before: Grid, after: Grid)
    requires
        after.same_frame(&before),
    ensures
        after.width == before.width,
        after.height == before.height,
        after.resolution == before.resolution,
        after.origin_x == before.origin_x,
        after.origin_y == before.origin_y,
{
}

} // verus!
