//! Azimuths in hundredths of a degree: sections of the circle, the frame
//! boundary, and the steps between the blocks of a packet.

use vstd::prelude::*;

verus! {

/// Blocks in a measurement packet.
pub const BLOCKS_PER_PKT: usize = 12;

/// An azimuth step above this has crossed the part of the circle in which the
/// sensor does not fire.
pub const BLIND_STEP: i32 = 100;

/// `v` brought into `[0, 36000)` by whole turns.
pub fn azimuth_round(v: i32) -> (r: i32)
    ensures
        r == v as int % 36000,
        0 <= r < 36000,
{
    ((v % 36000) + 36000) % 36000
}

/// The part of the circle from `start` up to but without `end`.
pub struct AzimuthSection {
    pub full_round: bool,
    pub start: i32,
    pub end: i32,
    pub cross_zero: bool,
}

impl AzimuthSection {
    /// The section between two angles: the full circle where they differ by
    /// whole turns.
    pub fn new(start: i32, end: i32) -> (s: Self)
        requires
            i32::MIN <= end - start <= i32::MAX,
        ensures
            s.full_round == ((end - start) % 36000 == 0),
            s.start == start as int % 36000,
            s.end == end as int % 36000,
            s.cross_zero == (s.start > s.end),
    {
        let full_round: bool = azimuth_round(end - start) == 0;
        let s: i32 = azimuth_round(start);
        let e: i32 = azimuth_round(end);
        AzimuthSection { full_round, start: s, end: e, cross_zero: s > e }
    }

    /// Whether an angle lies in the section.
    pub open spec fn covers(&self, angle: int) -> bool {
        self.full_round || if self.cross_zero {
            angle >= self.start || angle < self.end
        } else {
            self.start <= angle < self.end
        }
    }

    /// Whether an angle lies in the section.
    pub fn contains(&self, angle: i32) -> (r: bool)
        ensures
            r == self.covers(angle as int),
    {
        if self.full_round {
            return true;
        }
        if self.cross_zero {
            angle >= self.start || angle < self.end
        } else {
            angle >= self.start && angle < self.end
        }
    }
}

/// A section built from two angles covers exactly the directions that one
/// meets on the way from the first to the second, the second left out, and
/// all of them where the two are the same direction.
pub proof fn section_is_an_arc(s: AzimuthSection, start: int, end: int, angle: int)
    requires
        s.full_round == ((end - start) % 36000 == 0),
        s.start == start % 36000,
        s.end == end % 36000,
        s.cross_zero == (s.start > s.end),
        0 <= angle < 36000,
    ensures
        s.covers(angle) <==> ((end - start) % 36000 == 0 || (angle - start) % 36000 < (end - start)
            % 36000),
{
}

/// Tells where a new revolution begins.
pub struct SplitStrategyByAngle {
    pub split_angle: i32,
    pub prev_angle: i32,
}

/// Whether a step from `prev` to `angle` passes `split_angle`, where a step
/// back stands for one across zero.
pub open spec fn passes(split_angle: int, prev: int, angle: int) -> bool {
    let from = if angle < prev {
        prev - 36000
    } else {
        prev
    };
    from < split_angle <= angle
}

impl SplitStrategyByAngle {
    /// Starts at the boundary itself.
    pub fn new(split_angle: i32) -> (s: Self)
        ensures
            s.split_angle == split_angle,
            s.prev_angle == split_angle,
    {
        SplitStrategyByAngle { split_angle, prev_angle: split_angle }
    }

    /// Takes the azimuth of the next block and says whether it begins a new
    /// revolution.
    pub fn new_block(&mut self, angle: i32) -> (split: bool)
        requires
            angle < old(self).prev_angle ==> old(self).prev_angle - 36000 >= i32::MIN,
        ensures
            final(self).split_angle == old(self).split_angle,
            final(self).prev_angle == angle,
            split == passes(
                old(self).split_angle as int,
                old(self).prev_angle as int,
                angle as int,
            ),
    {
        if angle < self.prev_angle {
            self.prev_angle = self.prev_angle - 36000;
        }
        let split: bool = self.prev_angle < self.split_angle && self.split_angle <= angle;
        self.prev_angle = angle;
        split
    }
}

/// With the boundary at zero and azimuths in `[0, 36000)`, a new revolution
/// begins exactly when the azimuth falls back.
pub proof fn zero_boundary_splits_on_wrap(prev: int, angle: int)
    requires
        0 <= prev < 36000,
        0 <= angle < 36000,
    ensures
        passes(0, prev, angle) <==> angle < prev,
{
}

/// How many blocks share an azimuth: two where the sensor reports two returns.
pub open spec fn group_size(dual: bool) -> int {
    if dual {
        2
    } else {
        1
    }
}

/// The azimuth step from group `g` of blocks to the next.
pub open spec fn raw_step(azimuths: Seq<i32>, dual: bool, g: int) -> int {
    let d = azimuths[(g + 1) * group_size(dual)] - azimuths[g * group_size(dual)];
    if d < 0 {
        d + 36000
    } else {
        d
    }
}

/// Whether the step from group `g` to the next crosses the blind part of the
/// circle.
pub open spec fn crosses_blind(azimuths: Seq<i32>, dual: bool, g: int) -> bool {
    raw_step(azimuths, dual, g) > BLIND_STEP
}

/// The azimuth step of block `blk`: that to the next group, or the nominal
/// one in the last group and across the blind part of the circle.
pub open spec fn block_step(
    azimuths: Seq<i32>,
    block_az_duration: int,
    dual: bool,
    blk: int,
) -> int {
    let g = blk / group_size(dual);
    if (g + 1) * group_size(dual) >= 12 || crosses_blind(azimuths, dual, g) {
        block_az_duration
    } else {
        raw_step(azimuths, dual, g)
    }
}

/// The steps between the blocks of one packet.
pub struct BlockIter {
    /// Azimuth step of each block.
    pub az_diffs: Vec<i32>,
    /// For each step from one group of blocks to the next, whether it crosses
    /// the blind part of the circle and takes that part's time instead of
    /// one block's.
    pub crossed: Vec<bool>,
    /// How many steps come before each block.
    pub group_of: Vec<usize>,
}

/// Steps between the blocks of a packet, given their azimuths. Blocks come in
/// pairs of the same azimuth where `dual` is set.
pub fn compute_block_iter(azimuths: &Vec<i32>, block_az_duration: i32, dual: bool) -> (r: BlockIter)
    requires
        azimuths@.len() == BLOCKS_PER_PKT,
        forall|i: int, j: int|
            0 <= i < 12 && 0 <= j < 12 ==> i32::MIN <= #[trigger] azimuths@[i]
                - #[trigger] azimuths@[j] <= i32::MAX,
    ensures
        r.az_diffs@.len() == BLOCKS_PER_PKT,
        r.group_of@.len() == BLOCKS_PER_PKT,
        r.crossed@.len() == 12int / group_size(dual) - 1,
        forall|blk: int|
            0 <= blk < 12 ==> #[trigger] r.az_diffs@[blk] == block_step(
                azimuths@,
                block_az_duration as int,
                dual,
                blk,
            ),
        forall|blk: int|
            0 <= blk < 12 ==> #[trigger] r.group_of@[blk] == blk / group_size(dual),
        forall|g: int|
            0 <= g < r.crossed@.len() ==> #[trigger] r.crossed@[g] == crosses_blind(
                azimuths@,
                dual,
                g,
            ),
{
    let mut az_diffs: Vec<i32> = Vec::new();
    let mut crossed: Vec<bool> = Vec::new();
    let mut group_of: Vec<usize> = Vec::new();
    let step: usize = if dual {
        2
    } else {
        1
    };
    let groups: usize = if dual {
        6
    } else {
        12
    };
    let mut g: usize = 0;
    while g < groups
        invariant
            g <= groups,
            step == group_size(dual),
            groups == 12int / group_size(dual),
            groups * step == 12,
            step == 1 || step == 2,
            azimuths@.len() == 12,
            forall|i: int, j: int|
                0 <= i < 12 && 0 <= j < 12 ==> i32::MIN <= #[trigger] azimuths@[i]
                    - #[trigger] azimuths@[j] <= i32::MAX,
            az_diffs@.len() == g * step,
            group_of@.len() == g * step,
            crossed@.len() == if g < groups {
                g as int
            } else {
                groups - 1
            },
            forall|blk: int|
                0 <= blk < g * step ==> #[trigger] az_diffs@[blk] == block_step(
                    azimuths@,
                    block_az_duration as int,
                    dual,
                    blk,
                ),
            forall|blk: int|
                0 <= blk < g * step ==> #[trigger] group_of@[blk] == blk / group_size(dual),
            forall|k: int|
                0 <= k < crossed@.len() ==> #[trigger] crossed@[k] == crosses_blind(
                    azimuths@,
                    dual,
                    k,
                ),
        decreases groups - g,
    {
        assert(g * step < 12 && (g + 1) * step == g * step + step && (g + 1) * step <= 12)
            by (nonlinear_arith)
            requires
                g < groups,
                groups * step == 12,
                step == 1 || step == 2,
        ;
        let mut az_diff: i32 = block_az_duration;
        if g + 1 < groups {
            assert((g + 1) * step < 12) by (nonlinear_arith)
                requires
                    g + 1 < groups,
                    groups * step == 12,
                    step == 1 || step == 2,
            ;
            let mut d: i32 = azimuths[(g + 1) * step] - azimuths[g * step];
            if d < 0 {
                d = d + 36000;
            }
            let blind: bool = d > BLIND_STEP;
            crossed.push(blind);
            if !blind {
                az_diff = d;
            }
        }
        let mut s: usize = 0;
        while s < step
            invariant
                s <= step,
                g < groups,
                step == group_size(dual),
                groups == 12int / group_size(dual),
                step == 1 || step == 2,
                az_diffs@.len() == g * step + s,
                group_of@.len() == g * step + s,
                az_diff == block_step(azimuths@, block_az_duration as int, dual, g * step),
                forall|blk: int|
                    0 <= blk < g * step + s ==> #[trigger] az_diffs@[blk] == block_step(
                        azimuths@,
                        block_az_duration as int,
                        dual,
                        blk,
                    ),
                forall|blk: int|
                    0 <= blk < g * step + s ==> #[trigger] group_of@[blk] == blk / group_size(dual),
            decreases step - s,
        {
            assert((g * step + s) / group_size(dual) == g && (g * step) / group_size(dual) == g);
            az_diffs.push(az_diff);
            group_of.push(g);
            s = s + 1;
        }
        g = g + 1;
    }
    BlockIter { az_diffs, crossed, group_of }
}

/// Directions off the circle are taken as they are: those below zero or from a
/// full turn on lie in a section only where that is the full circle or runs
/// across zero.
pub proof fn section_off_the_circle(s: AzimuthSection, start: int, end: int, angle: int)
    requires
        s.full_round == ((end - start) % 36000 == 0),
        s.start == start % 36000,
        s.end == end % 36000,
        s.cross_zero == (s.start > s.end),
        angle < 0 || 36000 <= angle,
    ensures
        s.covers(angle) <==> start % 36000 == end % 36000 || start % 36000 > end % 36000,
{
}

/// A step forward passes the boundary where that lies on the way, and a step
/// back is one forward from a turn earlier. With the boundary at zero, a new
/// revolution begins exactly where the azimuth falls back from within the
/// circle.
pub proof fn passing_is_on_the_way(split_angle: int, prev: int, angle: int)
    ensures
        prev <= angle ==> (passes(split_angle, prev, angle) <==> prev < split_angle && split_angle
            <= angle),
        angle < prev ==> (passes(split_angle, prev, angle) <==> prev < split_angle + 36000
            && split_angle <= angle),
        0 <= prev && 0 <= angle ==> (passes(0, prev, angle) <==> angle < prev && prev < 36000),
{
}

/// The step of a block, from the azimuths: forward round the circle to the
/// next azimuth that is measured, unless that is more than a degree. Then, and
/// behind the last azimuth, it is the nominal step.
pub proof fn steps_go_forward(azimuths: Seq<i32>, nominal: int, dual: bool, blk: int)
    requires
        azimuths.len() == 12,
        0 <= blk < 12,
    ensures
        ({
            let at = if dual {
                2 * (blk / 2)
            } else {
                blk
            };
            let next = if dual {
                at + 2
            } else {
                at + 1
            };
            let way = azimuths[next] - azimuths[at];
            let step = block_step(azimuths, nominal, dual, blk);
            &&& next >= 12 ==> step == nominal
            &&& next < 12 && 0 <= way <= 100 ==> step == way
            &&& next < 12 && way > 100 ==> step == nominal
            &&& next < 12 && way < 0 && way + 36000 <= 100 ==> step == way + 36000
            &&& next < 12 && way < 0 && way + 36000 > 100 ==> step == nominal
        }),
{
    let g = blk / group_size(dual);
    if dual {
        assert((g + 1) * group_size(dual) == 2 * g + 2 && g * group_size(dual) == 2 * g);
    }
}

} // verus!
