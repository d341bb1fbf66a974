//! The set graph: the same-ring segments of one revolution, and the clusters
//! that they form across rings.

use crate::flood::{edges_of, flood_fill, flood_label, labels_same, opened_labels, targets_in_range};
use crate::range_graph::{
    cell_index, described_ring_lists_cells, describes_ring, describes_segment, label_at, larger,
    larger_of, lists_cells, members_ascend, row_ascends, same_points, segment_member_is, segmented,
    segmenting_keeps_points, segments_partition_ring, RangeGraph, RangeNode, NUM_CELLS, NUM_RINGS,
};
use crate::single::{is_less, less, nan};
use vstd::prelude::*;

verus! {

/// One same-ring segment. `range` and the means are single-precision bit
/// patterns.
pub struct GraphNode {
    pub range: u32,
    pub x_mean: u32,
    pub y_mean: u32,
    pub z_mean: u32,
    /// Label of the segment within its ring.
    pub alpha: i32,
    /// Cluster, numbered from one.
    pub cluster: i32,
    /// First column.
    pub start_pos: i32,
    /// Last column.
    pub end_pos: i32,
    /// Cells of the range graph that belong to the segment.
    pub members: Vec<i32>,
    /// How many of the members the scan found before the seam; the rest
    /// continue the segment from the end of the ring, and their sums are
    /// added to those of the first ones as a whole.
    pub head: usize,
}

impl GraphNode {
    /// A segment without cells.
    pub fn new() -> (n: Self)
        ensures
            n.range == 0,
            n.x_mean == 0,
            n.y_mean == 0,
            n.z_mean == 0,
            n.alpha == -1,
            n.cluster == -1,
            n.start_pos == -1,
            n.end_pos == -1,
            n.members@ == Seq::<i32>::empty(),
            n.head == 0,
    {
        GraphNode {
            range: 0,
            x_mean: 0,
            y_mean: 0,
            z_mean: 0,
            alpha: -1,
            cluster: -1,
            start_pos: -1,
            end_pos: -1,
            members: Vec::new(),
            head: 0,
        }
    }
}

/// One row of segments per ring.
pub struct SetGraph {
    pub nodes: Vec<Vec<GraphNode>>,
}

impl SetGraph {
    /// Whether there is a row for every ring.
    pub open spec fn wf(&self) -> bool {
        self.nodes@.len() == NUM_RINGS
    }

    /// One empty row per ring.
    pub fn new() -> (g: Self)
        ensures
            g.wf(),
            forall|i: int| 0 <= i < NUM_RINGS ==> (#[trigger] g.nodes@[i])@.len() == 0,
    {
        let mut nodes: Vec<Vec<GraphNode>> = Vec::new();
        let mut i: usize = 0;
        while i < NUM_RINGS
            invariant
                i <= NUM_RINGS,
                nodes@.len() == i,
                forall|k: int| 0 <= k < i ==> (#[trigger] nodes@[k])@.len() == 0,
            decreases NUM_RINGS - i,
        {
            nodes.push(Vec::new());
            i = i + 1;
        }
        SetGraph { nodes }
    }

    /// Empties every row.
    pub fn clear(&mut self)
        ensures
            final(self).nodes@.len() == old(self).nodes@.len(),
            forall|i: int|
                0 <= i < final(self).nodes@.len() ==> (#[trigger] final(self).nodes@[i])@.len()
                    == 0,
    {
        let n: usize = self.nodes.len();
        let mut i: usize = 0;
        while i < n
            invariant
                i <= n,
                n == old(self).nodes@.len(),
                self.nodes@.len() == n,
                forall|k: int| 0 <= k < i ==> (#[trigger] self.nodes@[k])@.len() == 0,
            decreases n - i,
        {
            self.nodes[i].clear();
            i = i + 1;
        }
    }
}

/// The means of a segment over its cells, as single-precision bit patterns.
#[derive(Clone, Copy)]
pub struct SegmentMeans {
    pub range: u32,
    pub x: u32,
    pub y: u32,
    pub z: u32,
}

/// A segment with the given means.
pub open spec fn with_means(node: GraphNode, m: SegmentMeans) -> GraphNode {
    GraphNode { range: m.range, x_mean: m.x, y_mean: m.y, z_mean: m.z, ..node }
}

/// Whether `after` is `before` with every segment given its means.
pub open spec fn meant(
    before: Seq<Vec<GraphNode>>,
    after: Seq<Vec<GraphNode>>,
    means: Seq<Vec<SegmentMeans>>,
) -> bool {
    &&& after.len() == before.len()
    &&& forall|i: int| #![trigger after[i]]
        0 <= i < before.len() ==> after[i]@.len() == before[i]@.len()
    &&& forall|i: int, j: int| #![trigger after[i]@[j]]
        is_segment(before, i, j) ==> after[i]@[j] == with_means(before[i]@[j], means[i]@[j])
}

impl SetGraph {
    /// Gives every segment its means.
    pub fn set_means(&mut self, means: &Vec<Vec<SegmentMeans>>)
        requires
            old(self).wf(),
            means@.len() == NUM_RINGS,
            forall|i: int|
                0 <= i < NUM_RINGS ==> (#[trigger] means@[i])@.len() == old(self).nodes@[i]@.len(),
        ensures
            final(self).wf(),
            meant(old(self).nodes@, final(self).nodes@, means@),
    {
        let ghost before = self.nodes@;
        let mut i: usize = 0;
        while i < NUM_RINGS
            invariant
                i <= NUM_RINGS,
                before.len() == NUM_RINGS,
                self.nodes@.len() == NUM_RINGS,
                means@.len() == NUM_RINGS,
                forall|a: int|
                    0 <= a < NUM_RINGS ==> (#[trigger] means@[a])@.len() == before[a]@.len(),
                forall|a: int| #![trigger self.nodes@[a]]
                    0 <= a < NUM_RINGS ==> self.nodes@[a]@.len() == before[a]@.len(),
                forall|a: int, b: int| #![trigger self.nodes@[a]@[b]]
                    is_segment(before, a, b) ==> self.nodes@[a]@[b] == if a < i {
                        with_means(before[a]@[b], means@[a]@[b])
                    } else {
                        before[a]@[b]
                    },
            decreases NUM_RINGS - i,
        {
            let n: usize = self.nodes[i].len();
            assert(means@[i as int]@.len() == n);
            let mut j: usize = 0;
            while j < n
                invariant
                    i < NUM_RINGS,
                    j <= n,
                    n == before[i as int]@.len(),
                    n == means@[i as int]@.len(),
                    before.len() == NUM_RINGS,
                    self.nodes@.len() == NUM_RINGS,
                    means@.len() == NUM_RINGS,
                    forall|a: int| #![trigger self.nodes@[a]]
                        0 <= a < NUM_RINGS ==> self.nodes@[a]@.len() == before[a]@.len(),
                    forall|a: int, b: int| #![trigger self.nodes@[a]@[b]]
                        is_segment(before, a, b) ==> self.nodes@[a]@[b] == if a < i || (a == i && b
                            < j) {
                            with_means(before[a]@[b], means@[a]@[b])
                        } else {
                            before[a]@[b]
                        },
                decreases n - j,
            {
                let m: SegmentMeans = means[i][j];
                let ghost mid = self.nodes@;
                assert(mid[i as int]@[j as int] == before[i as int]@[j as int]);
                self.nodes[i][j].range = m.range;
                self.nodes[i][j].x_mean = m.x;
                self.nodes[i][j].y_mean = m.y;
                self.nodes[i][j].z_mean = m.z;
                assert forall|a: int, b: int| #![trigger self.nodes@[a]@[b]]
                    is_segment(before, a, b) implies self.nodes@[a]@[b] == if a < i || (a == i && b
                    < j + 1) {
                    with_means(before[a]@[b], means@[a]@[b])
                } else {
                    before[a]@[b]
                } by {
                    if !(a == i && b == j) {
                        assert(self.nodes@[a]@[b] == mid[a]@[b]);
                    }
                }
                j = j + 1;
            }
            i = i + 1;
        }
    }
}

/// Giving the segments of a ring their means leaves them the segments they
/// are.
pub proof fn means_keep_segments(
    before: Seq<Vec<GraphNode>>,
    after: Seq<Vec<GraphNode>>,
    means: Seq<Vec<SegmentMeans>>,
    nodes: Seq<RangeNode>,
    splits: Seq<bool>,
    seam_split: bool,
    ring: int,
)
    requires
        meant(before, after, means),
        0 <= ring < before.len(),
        describes_ring(before[ring]@, nodes, splits, seam_split, ring),
    ensures
        describes_ring(after[ring]@, nodes, splits, seam_split, ring),
        lists_cells(after[ring]@, nodes, splits, seam_split, ring),
{
    assert forall|k: int| 0 <= k < after[ring]@.len() implies describes_segment(
        #[trigger] after[ring]@[k],
        nodes,
        splits,
        seam_split,
        ring,
        k + 1,
    ) by {
        assert(is_segment(before, ring, k));
        assert(describes_segment(before[ring]@[k], nodes, splits, seam_split, ring, k + 1));
    }
    described_ring_lists_cells(after[ring]@, nodes, splits, seam_split, ring);
}

/// What the merge test measures between two segments, as single-precision bit
/// patterns.
#[derive(Clone, Copy)]
pub struct LinkMeasure {
    /// Distance between the two segments, with the difference in height.
    pub full: u32,
    /// Distance between them, seen from above.
    pub flat: u32,
    /// Size of the difference in height.
    pub dz: u32,
    /// Difference in height below which it does not count.
    pub dz_gate: u32,
    /// Distance below which they merge, before its floor.
    pub scaled: u32,
}

/// Distance between two segments: a difference in height below its gate does
/// not count.
pub open spec fn link_dist(link: LinkMeasure) -> u32 {
    if less(link.dz, link.dz_gate) {
        link.flat
    } else {
        link.full
    }
}

/// Whether the measured segments merge: they are nearer than the threshold,
/// which has a floor.
pub open spec fn near(link: LinkMeasure, min_gap_m: u32) -> bool {
    less(link_dist(link), larger(link.scaled, min_gap_m))
}

/// Whether the measured segments merge.
fn is_near(link: &LinkMeasure, min_gap_m: u32) -> (r: bool)
    ensures
        r == near(*link, min_gap_m),
{
    let dist: u32 = if is_less(link.dz, link.dz_gate) {
        link.flat
    } else {
        link.full
    };
    is_less(dist, larger_of(link.scaled, min_gap_m))
}

/// Segments that are nearer than the floor always merge, and so do those that
/// are nearer than the scaled threshold; no others do.
pub proof fn floor_of_merging(link: LinkMeasure, min_gap_m: u32)
    requires
        !nan(link.scaled),
        !nan(min_gap_m),
    ensures
        near(link, min_gap_m) <==> less(link_dist(link), min_gap_m) || less(
            link_dist(link),
            link.scaled,
        ),
{
}

/// Whether `cand` ends before `cur` starts.
pub open spec fn is_before(cand: GraphNode, cur: GraphNode) -> bool {
    cand.end_pos < cur.start_pos
}

/// Whether `cand` starts after `cur` ends.
pub open spec fn is_after(cand: GraphNode, cur: GraphNode) -> bool {
    !is_before(cand, cur) && cand.start_pos > cur.end_pos
}

/// The first segment of `row`, from `from` on, that starts after `cur` ends,
/// or the length of the row.
pub open spec fn first_after(row: Seq<GraphNode>, cur: GraphNode, from: int) -> int
    decreases row.len() - from,
{
    if from >= row.len() {
        row.len() as int
    } else if is_after(row[from], cur) {
        from
    } else {
        first_after(row, cur, from + 1)
    }
}

/// The segments among the first `upto` of ring `rn` that do not end before
/// `cur` starts.
pub open spec fn connected(
    row: Seq<GraphNode>,
    cur: GraphNode,
    rn: usize,
    upto: int,
) -> Seq<(usize, usize)>
    decreases upto,
{
    if upto <= 0 {
        Seq::empty()
    } else {
        let rest = connected(row, cur, rn, upto - 1);
        if is_before(row[upto - 1], cur) {
            rest
        } else {
            rest.push((rn, (upto - 1) as usize))
        }
    }
}

/// The last segment among the first `upto` of ring `rn` that ends before `cur`
/// starts.
pub open spec fn last_before(
    row: Seq<GraphNode>,
    cur: GraphNode,
    rn: usize,
    upto: int,
) -> Seq<(usize, usize)>
    decreases upto,
{
    if upto <= 0 {
        Seq::empty()
    } else if is_before(row[upto - 1], cur) {
        seq![(rn, (upto - 1) as usize)]
    } else {
        last_before(row, cur, rn, upto - 1)
    }
}

/// The segments of ring `rn` that may merge with `cur`: those whose columns
/// overlap with it, then the nearest one on either side.
pub open spec fn ring_candidates(
    row: Seq<GraphNode>,
    cur: GraphNode,
    rn: usize,
) -> Seq<(usize, usize)> {
    let stop = first_after(row, cur, 0);
    connected(row, cur, rn, stop) + last_before(row, cur, rn, stop) + if stop < row.len() {
        seq![(rn, stop as usize)]
    } else {
        Seq::empty()
    }
}

/// The segments in the rings next to `ri` that may merge with segment `ci` of
/// it: those of the ring below, then those of the ring above.
pub open spec fn candidates_of(
    nodes: Seq<Vec<GraphNode>>,
    ri: usize,
    ci: usize,
) -> Seq<(usize, usize)> {
    let cur = nodes[ri as int]@[ci as int];
    let below = if ri > 0 {
        ring_candidates(nodes[ri - 1]@, cur, (ri - 1) as usize)
    } else {
        Seq::empty()
    };
    let above = if ri + 1 < NUM_RINGS {
        ring_candidates(nodes[ri + 1]@, cur, (ri + 1) as usize)
    } else {
        Seq::empty()
    };
    below + above
}

/// The first `upto` candidates without those that are too far.
pub open spec fn kept(
    cands: Seq<(usize, usize)>,
    links: Seq<LinkMeasure>,
    min_gap_m: u32,
    upto: int,
) -> Seq<(usize, usize)>
    decreases upto,
{
    if upto <= 0 {
        Seq::empty()
    } else {
        let rest = kept(cands, links, min_gap_m, upto - 1);
        if near(links[upto - 1], min_gap_m) {
            rest.push(cands[upto - 1])
        } else {
            rest
        }
    }
}

/// The candidates of a segment that are close enough to merge with it.
pub open spec fn neighbors_of(
    nodes: Seq<Vec<GraphNode>>,
    ri: usize,
    ci: usize,
    links: Seq<LinkMeasure>,
    min_gap_m: u32,
) -> Seq<(usize, usize)> {
    let cands = candidates_of(nodes, ri, ci);
    kept(cands, links, min_gap_m, cands.len() as int)
}

/// Whether ring `i` has a segment `j`.
pub open spec fn is_segment(nodes: Seq<Vec<GraphNode>>, i: int, j: int) -> bool {
    0 <= i < nodes.len() && 0 <= j < nodes[i]@.len()
}

/// How many segments the first `upto` rings have.
pub open spec fn segments_in(nodes: Seq<Vec<GraphNode>>, upto: int) -> int
    decreases upto,
{
    if upto <= 0 {
        0
    } else {
        segments_in(nodes, upto - 1) + nodes[upto - 1]@.len()
    }
}

/// Position of a segment when all are listed ring after ring.
pub open spec fn position(nodes: Seq<Vec<GraphNode>>, i: int, j: int) -> int {
    segments_in(nodes, i) + j
}

/// Whether the segment at position `u` merges with the one at position `v`.
pub open spec fn merges(
    nodes: Seq<Vec<GraphNode>>,
    links: Seq<Vec<Vec<LinkMeasure>>>,
    min_gap_m: u32,
    u: int,
    v: int,
) -> bool {
    exists|i: usize, j: usize, k: usize, l: usize|
        #![trigger is_segment(nodes, i as int, j as int), is_segment(nodes, k as int, l as int)]
        {
            &&& is_segment(nodes, i as int, j as int)
            &&& is_segment(nodes, k as int, l as int)
            &&& position(nodes, i as int, j as int) == u
            &&& position(nodes, k as int, l as int) == v
            &&& neighbors_of(nodes, i, j, links[i as int]@[j as int]@, min_gap_m).contains((k, l))
        }
}

/// The merge relation between positions.
pub open spec fn merge_relation(
    nodes: Seq<Vec<GraphNode>>,
    links: Seq<Vec<Vec<LinkMeasure>>>,
    min_gap_m: u32,
) -> spec_fn(int, int) -> bool {
    |u: int, v: int| merges(nodes, links, min_gap_m, u, v)
}

/// The cluster of a segment: segments are visited ring after ring, and each
/// one that is in no cluster yet opens one and draws in whatever it reaches
/// by merging.
pub open spec fn cluster_of(
    nodes: Seq<Vec<GraphNode>>,
    links: Seq<Vec<Vec<LinkMeasure>>>,
    min_gap_m: u32,
    i: int,
    j: int,
) -> int {
    flood_label(
        merge_relation(nodes, links, min_gap_m),
        segments_in(nodes, nodes.len() as int),
        position(nodes, i, j),
    )
}

/// The cluster of each segment, as it is written.
pub open spec fn cluster_ids(
    nodes: Seq<Vec<GraphNode>>,
    links: Seq<Vec<Vec<LinkMeasure>>>,
    min_gap_m: u32,
) -> spec_fn(int, int) -> i32 {
    |i: int, j: int| cluster_of(nodes, links, min_gap_m, i, j) as i32
}

/// How many clusters there are.
pub open spec fn cluster_count(
    nodes: Seq<Vec<GraphNode>>,
    links: Seq<Vec<Vec<LinkMeasure>>>,
    min_gap_m: u32,
) -> int {
    let n = segments_in(nodes, nodes.len() as int);
    opened_labels(merge_relation(nodes, links, min_gap_m), n, n)
}

/// How many cells the segments of cluster `c` have that stand before segment
/// `j` of ring `i`.
pub open spec fn cells_in_cluster(nodes: Seq<Vec<GraphNode>>, c: i32, i: int, j: int) -> nat
    decreases i, j,
{
    if j > 0 {
        cells_in_cluster(nodes, c, i, j - 1) + if nodes[i]@[j - 1].cluster == c {
            nodes[i]@[j - 1].members@.len()
        } else {
            0
        }
    } else if i > 0 {
        cells_in_cluster(nodes, c, i - 1, nodes[i - 1]@.len() as int)
    } else {
        0
    }
}

/// The cluster id that the cells of a segment are given: that of its cluster,
/// or none where the cluster has too few cells.
pub open spec fn published_cluster(
    nodes: Seq<Vec<GraphNode>>,
    min_cluster_points: u32,
    c: i32,
) -> i32 {
    if cells_in_cluster(nodes, c, nodes.len() as int, 0) >= min_cluster_points {
        c
    } else {
        -1i32
    }
}

/// The cluster id of a cell after the segments before segment `j` of ring `i`
/// have written theirs: that of the last one that has the cell as a member,
/// or what the cell had.
pub open spec fn written_beta(
    nodes: Seq<Vec<GraphNode>>,
    min_cluster_points: u32,
    beta: i32,
    cell: int,
    i: int,
    j: int,
) -> i32
    decreases i, j,
{
    if j > 0 {
        if nodes[i]@[j - 1].members@.contains(cell as i32) {
            published_cluster(nodes, min_cluster_points, nodes[i]@[j - 1].cluster)
        } else {
            written_beta(nodes, min_cluster_points, beta, cell, i, j - 1)
        }
    } else if i > 0 {
        written_beta(
            nodes,
            min_cluster_points,
            beta,
            cell,
            i - 1,
            nodes[i - 1]@.len() as int,
        )
    } else {
        beta
    }
}

/// Whether `links` has one measure for every candidate of every segment.
pub open spec fn measured(
    nodes: Seq<Vec<GraphNode>>,
    links: Seq<Vec<Vec<LinkMeasure>>>,
) -> bool {
    &&& links.len() == nodes.len()
    &&& forall|i: int|
        0 <= i < nodes.len() ==> (#[trigger] links[i])@.len() == nodes[i]@.len()
    &&& forall|i: int, j: int|
        is_segment(nodes, i, j) ==> (#[trigger] links[i]@[j])@.len() == candidates_of(
            nodes,
            i as usize,
            j as usize,
        ).len()
}

/// Whether every member of every segment is one of `cells` cells.
pub open spec fn members_in_range(nodes: Seq<Vec<GraphNode>>, cells: int) -> bool {
    forall|i: int, j: int, t: int|
        is_segment(nodes, i, j) && 0 <= t < nodes[i]@[j].members@.len()
            ==> 0 <= #[trigger] nodes[i]@[j].members@[t] < cells
}

proof fn first_after_bounds(row: Seq<GraphNode>, cur: GraphNode, from: int)
    requires
        0 <= from <= row.len(),
    ensures
        from <= first_after(row, cur, from) <= row.len(),
    decreases row.len() - from,
{
    if from < row.len() && !is_after(row[from], cur) {
        first_after_bounds(row, cur, from + 1);
    }
}

/// Passing over segments that do not start after `cur` ends changes nothing.
proof fn first_after_skips(row: Seq<GraphNode>, cur: GraphNode, from: int, to: int)
    requires
        0 <= from <= to <= row.len(),
        forall|k: int| from <= k < to ==> !is_after(#[trigger] row[k], cur),
    ensures
        first_after(row, cur, from) == first_after(row, cur, to),
    decreases to - from,
{
    if from < to {
        assert(!is_after(row[from], cur));
        first_after_skips(row, cur, from + 1, to);
    }
}

proof fn connected_in_row(row: Seq<GraphNode>, cur: GraphNode, rn: usize, upto: int, t: int)
    requires
        0 <= upto <= row.len(),
        row.len() <= usize::MAX,
        0 <= t < connected(row, cur, rn, upto).len(),
    ensures
        connected(row, cur, rn, upto)[t].0 == rn,
        connected(row, cur, rn, upto)[t].1 < row.len(),
    decreases upto,
{
    if t < connected(row, cur, rn, upto - 1).len() {
        connected_in_row(row, cur, rn, upto - 1, t);
    }
}

proof fn last_before_in_row(row: Seq<GraphNode>, cur: GraphNode, rn: usize, upto: int)
    requires
        0 <= upto <= row.len(),
        row.len() <= usize::MAX,
    ensures
        last_before(row, cur, rn, upto).len() <= 1,
        last_before(row, cur, rn, upto).len() == 1 ==> last_before(row, cur, rn, upto)[0].0 == rn
            && last_before(row, cur, rn, upto)[0].1 < upto,
    decreases upto,
{
    if upto > 0 && !is_before(row[upto - 1], cur) {
        last_before_in_row(row, cur, rn, upto - 1);
    }
}

/// A candidate is a segment of the ring it names.
proof fn ring_candidate_in_row(row: Seq<GraphNode>, cur: GraphNode, rn: usize, t: int)
    requires
        row.len() <= usize::MAX,
        0 <= t < ring_candidates(row, cur, rn).len(),
    ensures
        ring_candidates(row, cur, rn)[t].0 == rn,
        ring_candidates(row, cur, rn)[t].1 < row.len(),
{
    let stop = first_after(row, cur, 0);
    first_after_bounds(row, cur, 0);
    last_before_in_row(row, cur, rn, stop);
    if t < connected(row, cur, rn, stop).len() {
        connected_in_row(row, cur, rn, stop, t);
    }
}

/// A candidate is a segment of a ring next to that of the segment it may merge
/// with.
pub proof fn candidate_is_adjacent(nodes: Seq<Vec<GraphNode>>, ri: usize, ci: usize, t: int)
    requires
        nodes.len() == NUM_RINGS,
        ri < NUM_RINGS,
        0 <= t < candidates_of(nodes, ri, ci).len(),
    ensures
        ({
            let c = candidates_of(nodes, ri, ci)[t];
            &&& is_segment(nodes, c.0 as int, c.1 as int)
            &&& c.0 + 1 == ri || c.0 == ri + 1
        }),
{
    let cur = nodes[ri as int]@[ci as int];
    let below = if ri > 0 {
        ring_candidates(nodes[ri - 1]@, cur, (ri - 1) as usize)
    } else {
        Seq::empty()
    };
    if t < below.len() {
        assert(nodes[ri - 1].len() == nodes[ri - 1]@.len());
        ring_candidate_in_row(nodes[ri - 1]@, cur, (ri - 1) as usize, t);
    } else {
        assert(nodes[ri + 1].len() == nodes[ri + 1]@.len());
        ring_candidate_in_row(nodes[ri + 1]@, cur, (ri + 1) as usize, t - below.len());
    }
}

/// What is kept was a candidate.
proof fn kept_is_candidate(
    cands: Seq<(usize, usize)>,
    links: Seq<LinkMeasure>,
    min_gap_m: u32,
    upto: int,
    t: int,
) -> (s: int)
    requires
        0 <= upto <= cands.len(),
        0 <= t < kept(cands, links, min_gap_m, upto).len(),
    ensures
        0 <= s < upto,
        kept(cands, links, min_gap_m, upto)[t] == cands[s],
        near(links[s], min_gap_m),
    decreases upto,
{
    if t < kept(cands, links, min_gap_m, upto - 1).len() {
        kept_is_candidate(cands, links, min_gap_m, upto - 1, t)
    } else {
        upto - 1
    }
}

/// Appends the candidates of one ring.
fn push_ring_candidates(
    row: &Vec<GraphNode>,
    cur: &GraphNode,
    rn: usize,
    out: &mut Vec<(usize, usize)>,
)
    ensures
        final(out)@ == old(out)@ + ring_candidates(row@, *cur, rn),
{
    let ghost out0 = out@;
    let mut before: Option<usize> = None;
    let n: usize = row.len();
    let mut cn: usize = 0;
    while cn < n && (row[cn].end_pos < cur.start_pos || row[cn].start_pos <= cur.end_pos)
        invariant
            n == row@.len(),
            cn <= n,
            out@ == out0 + connected(row@, *cur, rn, cn as int),
            forall|k: int| 0 <= k < cn ==> !is_after(#[trigger] row@[k], *cur),
            match before {
                None => last_before(row@, *cur, rn, cn as int) == Seq::<(usize, usize)>::empty(),
                Some(b) => last_before(row@, *cur, rn, cn as int) == seq![(rn, b)],
            },
        decreases n - cn,
    {
        let ghost have = out@;
        if row[cn].end_pos < cur.start_pos {
            before = Some(cn);
        } else {
            out.push((rn, cn));
            assert(out@ =~= out0 + connected(row@, *cur, rn, cn as int).push((rn, cn)));
        }
        cn = cn + 1;
    }
    proof {
        first_after_skips(row@, *cur, 0, cn as int);
        assert(first_after(row@, *cur, 0) == cn);
    }
    match before {
        Some(b) => {
            out.push((rn, b));
        },
        None => {},
    }
    if cn < n {
        out.push((rn, cn));
    }
    assert(out@ =~= out0 + ring_candidates(row@, *cur, rn));
}

/// Segments have distinct positions.
proof fn position_is_unique(nodes: Seq<Vec<GraphNode>>, i: int, j: int, k: int, l: int)
    requires
        is_segment(nodes, i, j),
        is_segment(nodes, k, l),
        position(nodes, i, j) == position(nodes, k, l),
    ensures
        i == k,
        j == l,
{
    if i < k {
        segments_grow(nodes, i + 1, k);
    } else if k < i {
        segments_grow(nodes, k + 1, i);
    }
}

proof fn segments_grow(nodes: Seq<Vec<GraphNode>>, a: int, b: int)
    requires
        0 <= a <= b,
    ensures
        0 <= segments_in(nodes, a) <= segments_in(nodes, b),
    decreases b,
{
    if a < b {
        segments_grow(nodes, a, b - 1);
    } else if b > 0 {
        segments_grow(nodes, a - 1, b - 1);
    }
}

/// Every position is that of a segment.
proof fn position_is_taken(nodes: Seq<Vec<GraphNode>>, upto: int, u: int) -> (ij: (int, int))
    requires
        0 <= upto <= nodes.len(),
        0 <= u < segments_in(nodes, upto),
    ensures
        is_segment(nodes, ij.0, ij.1),
        position(nodes, ij.0, ij.1) == u,
    decreases upto,
{
    if u >= segments_in(nodes, upto - 1) {
        (upto - 1, u - segments_in(nodes, upto - 1))
    } else {
        position_is_taken(nodes, upto - 1, u)
    }
}

impl SetGraph {
    /// The segments in the rings directly below and above that may merge with
    /// segment `ci` of ring `ri`, in the order in which they are tried.
    pub fn candidates(&self, ri: usize, ci: usize) -> (r: Vec<(usize, usize)>)
        requires
            self.wf(),
            is_segment(self.nodes@, ri as int, ci as int),
        ensures
            r@ == candidates_of(self.nodes@, ri, ci),
    {
        let mut out: Vec<(usize, usize)> = Vec::new();
        let cur = &self.nodes[ri][ci];
        if ri > 0 {
            push_ring_candidates(&self.nodes[ri - 1], cur, ri - 1, &mut out);
        }
        if ri + 1 < NUM_RINGS {
            push_ring_candidates(&self.nodes[ri + 1], cur, ri + 1, &mut out);
        }
        assert(out@ =~= candidates_of(self.nodes@, ri, ci));
        out
    }

    /// The candidates of segment `ci` of ring `ri` that are close enough to
    /// merge with it. `links` holds one measure per candidate.
    pub fn get_neighbors(
        &self,
        ri: usize,
        ci: usize,
        links: &Vec<LinkMeasure>,
        min_gap_m: u32,
    ) -> (r: Vec<(usize, usize)>)
        requires
            self.wf(),
            is_segment(self.nodes@, ri as int, ci as int),
            links@.len() == candidates_of(self.nodes@, ri, ci).len(),
        ensures
            r@ == neighbors_of(self.nodes@, ri, ci, links@, min_gap_m),
    {
        let cands = self.candidates(ri, ci);
        let mut out: Vec<(usize, usize)> = Vec::new();
        let n: usize = cands.len();
        let mut k: usize = 0;
        while k < n
            invariant
                n == cands@.len(),
                n == links@.len(),
                k <= n,
                out@ == kept(cands@, links@, min_gap_m, k as int),
            decreases n - k,
        {
            if is_near(&links[k], min_gap_m) {
                out.push(cands[k]);
            }
            k = k + 1;
        }
        out
    }
}

/// Whether `base` holds, for each ring, the position of its first segment.
spec fn is_base(nodes: Seq<Vec<GraphNode>>, base: Seq<usize>) -> bool {
    &&& base.len() == nodes.len() + 1
    &&& forall|i: int| 0 <= i <= nodes.len() ==> #[trigger] base[i] == segments_in(nodes, i)
}

/// Whether the list at the position of segment `j` of ring `i` holds the
/// positions of its neighbors.
spec fn lists_neighbors(
    nodes: Seq<Vec<GraphNode>>,
    links: Seq<Vec<Vec<LinkMeasure>>>,
    min_gap_m: u32,
    list: Seq<usize>,
    i: int,
    j: int,
) -> bool {
    let nb = neighbors_of(nodes, i as usize, j as usize, links[i]@[j]@, min_gap_m);
    &&& list.len() == nb.len()
    &&& forall|t: int|
        0 <= t < nb.len() ==> #[trigger] list[t] == position(nodes, nb[t].0 as int, nb[t].1 as int)
            && is_segment(nodes, nb[t].0 as int, nb[t].1 as int)
}

/// A list of neighbor positions has the edges of the merge relation.
proof fn lists_are_edges(
    nodes: Seq<Vec<GraphNode>>,
    links: Seq<Vec<Vec<LinkMeasure>>>,
    min_gap_m: u32,
    adj: Seq<Vec<usize>>,
    u: int,
    v: int,
)
    requires
        nodes.len() == NUM_RINGS,
        adj.len() == segments_in(nodes, nodes.len() as int),
        adj.len() <= i32::MAX,
        forall|i: int, j: int|
            #[trigger] is_segment(nodes, i, j) ==> lists_neighbors(
                nodes,
                links,
                min_gap_m,
                adj[position(nodes, i, j)]@,
                i,
                j,
            ),
        0 <= u < adj.len(),
        0 <= v < adj.len(),
    ensures
        edges_of(adj)(u, v) == merge_relation(nodes, links, min_gap_m)(u, v),
{
    let (i, j) = position_is_taken(nodes, nodes.len() as int, u);
    assert(nodes[i].len() == nodes[i]@.len());
    let nb = neighbors_of(nodes, i as usize, j as usize, links[i]@[j]@, min_gap_m);
    assert(lists_neighbors(nodes, links, min_gap_m, adj[u]@, i, j));
    if adj[u]@.contains(v as usize) {
        let t = choose|t: int| 0 <= t < adj[u]@.len() && adj[u]@[t] == v as usize;
        assert(nb[t] == (nb[t].0, nb[t].1));
        assert(is_segment(nodes, i as usize as int, j as usize as int));
        assert(is_segment(nodes, nb[t].0 as int, nb[t].1 as int));
        assert(merges(nodes, links, min_gap_m, u, v));
    }
    if merges(nodes, links, min_gap_m, u, v) {
        let (a, b, k, l) = choose|a: usize, b: usize, k: usize, l: usize|
            #![trigger is_segment(nodes, a as int, b as int), is_segment(nodes, k as int, l as int)]
            {
                &&& is_segment(nodes, a as int, b as int)
                &&& is_segment(nodes, k as int, l as int)
                &&& position(nodes, a as int, b as int) == u
                &&& position(nodes, k as int, l as int) == v
                &&& neighbors_of(nodes, a, b, links[a as int]@[b as int]@, min_gap_m).contains((k, l))
            };
        position_is_unique(nodes, i, j, a as int, b as int);
        let t = choose|t: int| 0 <= t < nb.len() && nb[t] == (k, l);
        assert(adj[u]@[t] == v as usize);
    }
}

/// Positions lie below the number of segments.
proof fn position_bound(nodes: Seq<Vec<GraphNode>>, i: int, j: int)
    requires
        is_segment(nodes, i, j),
    ensures
        0 <= position(nodes, i, j) < segments_in(nodes, nodes.len() as int),
{
    segments_grow(nodes, 0, i);
    segments_grow(nodes, i + 1, nodes.len() as int);
}

/// The number of cells with the plain addition capped.
spec fn capped(n: nat) -> int {
    if n > usize::MAX {
        usize::MAX as int
    } else {
        n as int
    }
}

impl SetGraph {
    /// The position of each ring's first segment.
    fn bases(&self) -> (base: Vec<usize>)
        requires
            self.wf(),
            segments_in(self.nodes@, NUM_RINGS as int) <= i32::MAX,
        ensures
            is_base(self.nodes@, base@),
    {
        let mut base: Vec<usize> = Vec::new();
        base.push(0);
        let mut at: usize = 0;
        let mut i: usize = 0;
        while i < NUM_RINGS
            invariant
                i <= NUM_RINGS,
                self.wf(),
                segments_in(self.nodes@, NUM_RINGS as int) <= i32::MAX,
                at == segments_in(self.nodes@, i as int),
                base@.len() == i + 1,
                forall|k: int| 0 <= k <= i ==> #[trigger] base@[k] == segments_in(self.nodes@, k),
            decreases NUM_RINGS - i,
        {
            proof {
                segments_grow(self.nodes@, i + 1, NUM_RINGS as int);
            }
            at = at + self.nodes[i].len();
            base.push(at);
            i = i + 1;
        }
        base
    }

    /// The neighbors of one segment, as positions.
    fn neighbor_list(
        &self,
        base: &Vec<usize>,
        links: &Vec<Vec<Vec<LinkMeasure>>>,
        min_gap_m: u32,
        i: usize,
        j: usize,
    ) -> (list: Vec<usize>)
        requires
            self.wf(),
            is_base(self.nodes@, base@),
            measured(self.nodes@, links@),
            is_segment(self.nodes@, i as int, j as int),
            segments_in(self.nodes@, NUM_RINGS as int) <= i32::MAX,
        ensures
            lists_neighbors(self.nodes@, links@, min_gap_m, list@, i as int, j as int),
    {
        assert(links@[i as int]@.len() == self.nodes@[i as int]@.len());
        assert(links@[i as int]@[j as int]@.len() == candidates_of(self.nodes@, i, j).len());
        let nb = self.get_neighbors(i, j, &links[i][j], min_gap_m);
        let mut list: Vec<usize> = Vec::new();
        let n: usize = nb.len();
        let mut t: usize = 0;
        while t < n
            invariant
                self.wf(),
                is_base(self.nodes@, base@),
                is_segment(self.nodes@, i as int, j as int),
                segments_in(self.nodes@, NUM_RINGS as int) <= i32::MAX,
                nb@ == neighbors_of(self.nodes@, i, j, links@[i as int]@[j as int]@, min_gap_m),
                n == nb@.len(),
                t <= n,
                list@.len() == t,
                forall|s: int|
                    0 <= s < t ==> #[trigger] list@[s] == position(
                        self.nodes@,
                        nb@[s].0 as int,
                        nb@[s].1 as int,
                    ) && is_segment(self.nodes@, nb@[s].0 as int, nb@[s].1 as int),
            decreases n - t,
        {
            let (rn, cn) = nb[t];
            proof {
                let cands = candidates_of(self.nodes@, i, j);
                let s = kept_is_candidate(
                    cands,
                    links@[i as int]@[j as int]@,
                    min_gap_m,
                    cands.len() as int,
                    t as int,
                );
                candidate_is_adjacent(self.nodes@, i, j, s);
                assert(nb@[t as int] == (rn, cn));
                position_bound(self.nodes@, rn as int, cn as int);
                assert(base@[rn as int] == segments_in(self.nodes@, rn as int));
            }
            list.push(base[rn] + cn);
            t = t + 1;
        }
        list
    }

    /// The neighbors of every segment, as positions.
    fn neighbor_lists(
        &self,
        base: &Vec<usize>,
        links: &Vec<Vec<Vec<LinkMeasure>>>,
        min_gap_m: u32,
    ) -> (adj: Vec<Vec<usize>>)
        requires
            self.wf(),
            is_base(self.nodes@, base@),
            measured(self.nodes@, links@),
            segments_in(self.nodes@, NUM_RINGS as int) <= i32::MAX,
        ensures
            adj@.len() == segments_in(self.nodes@, NUM_RINGS as int),
            targets_in_range(adj@),
            forall|i: int, j: int|
                #[trigger] is_segment(self.nodes@, i, j) ==> lists_neighbors(
                    self.nodes@,
                    links@,
                    min_gap_m,
                    adj@[position(self.nodes@, i, j)]@,
                    i,
                    j,
                ),
    {
        let mut adj: Vec<Vec<usize>> = Vec::new();
        let mut i: usize = 0;
        while i < NUM_RINGS
            invariant
                i <= NUM_RINGS,
                self.wf(),
                is_base(self.nodes@, base@),
                measured(self.nodes@, links@),
                segments_in(self.nodes@, NUM_RINGS as int) <= i32::MAX,
                adj@.len() == segments_in(self.nodes@, i as int),
                forall|a: int, b: int|
                    a < i && #[trigger] is_segment(self.nodes@, a, b) ==> lists_neighbors(
                        self.nodes@,
                        links@,
                        min_gap_m,
                        adj@[position(self.nodes@, a, b)]@,
                        a,
                        b,
                    ),
            decreases NUM_RINGS - i,
        {
            let n: usize = self.nodes[i].len();
            let mut j: usize = 0;
            while j < n
                invariant
                    i < NUM_RINGS,
                    n == self.nodes@[i as int]@.len(),
                    j <= n,
                    self.wf(),
                    is_base(self.nodes@, base@),
                    measured(self.nodes@, links@),
                    segments_in(self.nodes@, NUM_RINGS as int) <= i32::MAX,
                    adj@.len() == position(self.nodes@, i as int, j as int),
                    forall|a: int, b: int|
                        (a < i || (a == i && b < j)) && #[trigger] is_segment(self.nodes@, a, b)
                            ==> lists_neighbors(
                            self.nodes@,
                            links@,
                            min_gap_m,
                            adj@[position(self.nodes@, a, b)]@,
                            a,
                            b,
                        ),
                decreases n - j,
            {
                let ghost adj0 = adj@;
                let list = self.neighbor_list(base, links, min_gap_m, i, j);
                adj.push(list);
                assert forall|a: int, b: int|
                    (a < i || (a == i && b < j + 1)) && #[trigger] is_segment(
                        self.nodes@,
                        a,
                        b,
                    ) implies lists_neighbors(
                    self.nodes@,
                    links@,
                    min_gap_m,
                    adj@[position(self.nodes@, a, b)]@,
                    a,
                    b,
                ) by {
                    if a < i {
                        segments_grow(self.nodes@, 0, a);
                        segments_grow(self.nodes@, a + 1, i as int);
                        assert(adj@[position(self.nodes@, a, b)] == adj0[position(
                            self.nodes@,
                            a,
                            b,
                        )]);
                    } else if b < j {
                        segments_grow(self.nodes@, 0, a);
                        assert(adj@[position(self.nodes@, a, b)] == adj0[position(
                            self.nodes@,
                            a,
                            b,
                        )]);
                    }
                }
                j = j + 1;
            }
            i = i + 1;
        }
        assert forall|u: int, k: int|
            0 <= u < adj@.len() && 0 <= k < adj@[u]@.len() implies #[trigger] adj@[u]@[k]
            < adj@.len() by {
            let (a, b) = position_is_taken(self.nodes@, NUM_RINGS as int, u);
            assert(lists_neighbors(self.nodes@, links@, min_gap_m, adj@[u]@, a, b));
            assert(self.nodes@[a].len() == self.nodes@[a]@.len());
            let nb = neighbors_of(self.nodes@, a as usize, b as usize, links@[a]@[b]@, min_gap_m);
            assert(adj@[u]@[k] == position(self.nodes@, nb[k].0 as int, nb[k].1 as int));
            position_bound(self.nodes@, nb[k].0 as int, nb[k].1 as int);
        }
        adj
    }

    /// Gives every segment the label at its position.
    fn assign_clusters(&mut self, base: &Vec<usize>, labels: &Vec<i32>)
        requires
            old(self).wf(),
            is_base(old(self).nodes@, base@),
            labels@.len() == segments_in(old(self).nodes@, NUM_RINGS as int),
            segments_in(old(self).nodes@, NUM_RINGS as int) <= i32::MAX,
        ensures
            final(self).wf(),
            clustered(
                old(self).nodes@,
                final(self).nodes@,
                |i: int, j: int| labels@[position(old(self).nodes@, i, j)],
            ),
    {
        let ghost nodes0 = self.nodes@;
        let mut i: usize = 0;
        while i < NUM_RINGS
            invariant
                i <= NUM_RINGS,
                nodes0.len() == NUM_RINGS,
                self.nodes@.len() == NUM_RINGS,
                is_base(nodes0, base@),
                labels@.len() == segments_in(nodes0, NUM_RINGS as int),
                segments_in(nodes0, NUM_RINGS as int) <= i32::MAX,
                forall|a: int| i <= a < NUM_RINGS ==> #[trigger] self.nodes@[a] == nodes0[a],
                forall|a: int| #![trigger self.nodes@[a]]
                    0 <= a < NUM_RINGS ==> self.nodes@[a]@.len() == nodes0[a]@.len(),
                forall|a: int, b: int| #![trigger self.nodes@[a]@[b]]
                    0 <= a < i && 0 <= b < nodes0[a]@.len() ==> self.nodes@[a]@[b] == (GraphNode {
                        cluster: labels@[position(nodes0, a, b)],
                        ..nodes0[a]@[b]
                    }),
            decreases NUM_RINGS - i,
        {
            let n: usize = self.nodes[i].len();
            let mut j: usize = 0;
            while j < n
                invariant
                    i < NUM_RINGS,
                    n == nodes0[i as int]@.len(),
                    j <= n,
                    nodes0.len() == NUM_RINGS,
                    self.nodes@.len() == NUM_RINGS,
                    is_base(nodes0, base@),
                    labels@.len() == segments_in(nodes0, NUM_RINGS as int),
                    segments_in(nodes0, NUM_RINGS as int) <= i32::MAX,
                    forall|a: int| i < a < NUM_RINGS ==> #[trigger] self.nodes@[a] == nodes0[a],
                    forall|a: int| #![trigger self.nodes@[a]]
                        0 <= a < NUM_RINGS ==> self.nodes@[a]@.len() == nodes0[a]@.len(),
                    forall|b: int| #![trigger self.nodes@[i as int]@[b]]
                        j <= b < n ==> self.nodes@[i as int]@[b] == nodes0[i as int]@[b],
                    forall|a: int, b: int| #![trigger self.nodes@[a]@[b]]
                        0 <= b < nodes0[a]@.len() && (0 <= a < i || (a == i && b < j))
                            ==> self.nodes@[a]@[b] == (GraphNode {
                            cluster: labels@[position(nodes0, a, b)],
                            ..nodes0[a]@[b]
                        }),
                decreases n - j,
            {
                proof {
                    position_bound(nodes0, i as int, j as int);
                    assert(base@[i as int] == segments_in(nodes0, i as int));
                }
                let label: i32 = labels[base[i] + j];
                self.nodes[i][j].cluster = label;
                j = j + 1;
            }
            i = i + 1;
        }
    }

    /// How many cells each cluster has, capped at the largest count.
    fn cluster_sizes(&self, count: i32) -> (sizes: Vec<usize>)
        requires
            self.wf(),
            0 <= count < i32::MAX,
            forall|i: int, j: int| #![trigger self.nodes@[i]@[j]]
                is_segment(self.nodes@, i, j) ==> 1 <= self.nodes@[i]@[j].cluster <= count,
        ensures
            sizes@.len() == count + 1,
            forall|c: int|
                0 <= c <= count ==> #[trigger] sizes@[c] == capped(
                    cells_in_cluster(self.nodes@, c as i32, NUM_RINGS as int, 0),
                ),
    {
        let mut sizes: Vec<usize> = Vec::new();
        let mut c: i32 = 0;
        while c <= count
            invariant
                0 <= c <= count + 1,
                count < i32::MAX,
                sizes@.len() == c,
                forall|k: int| 0 <= k < c ==> #[trigger] sizes@[k] == 0,
            decreases count + 1 - c,
        {
            sizes.push(0);
            c = c + 1;
        }
        let mut i: usize = 0;
        while i < NUM_RINGS
            invariant
                i <= NUM_RINGS,
                self.wf(),
                0 <= count < i32::MAX,
                forall|a: int, b: int| #![trigger self.nodes@[a]@[b]]
                    is_segment(self.nodes@, a, b) ==> 1 <= self.nodes@[a]@[b].cluster <= count,
                sizes@.len() == count + 1,
                forall|k: int|
                    0 <= k <= count ==> #[trigger] sizes@[k] == capped(
                        cells_in_cluster(self.nodes@, k as i32, i as int, 0),
                    ),
            decreases NUM_RINGS - i,
        {
            let n: usize = self.nodes[i].len();
            let mut j: usize = 0;
            while j < n
                invariant
                    i < NUM_RINGS,
                    n == self.nodes@[i as int]@.len(),
                    j <= n,
                    self.wf(),
                    0 <= count < i32::MAX,
                    forall|a: int, b: int| #![trigger self.nodes@[a]@[b]]
                        is_segment(self.nodes@, a, b) ==> 1 <= self.nodes@[a]@[b].cluster <= count,
                    sizes@.len() == count + 1,
                    forall|k: int|
                        0 <= k <= count ==> #[trigger] sizes@[k] == capped(
                            cells_in_cluster(self.nodes@, k as i32, i as int, j as int),
                        ),
                decreases n - j,
            {
                assert(is_segment(self.nodes@, i as int, j as int));
                let k: usize = self.nodes[i][j].cluster as usize;
                let size: usize = sizes[k].saturating_add(self.nodes[i][j].members.len());
                sizes[k] = size;
                j = j + 1;
            }
            i = i + 1;
        }
        sizes
    }

    /// Writes the cluster ids onto the cells of the range graph.
    fn publish_clusters(&self, g_r: &mut RangeGraph, sizes: &Vec<usize>, min_cluster_points: u32)
        requires
            self.wf(),
            members_in_range(self.nodes@, old(g_r).nodes@.len() as int),
            old(g_r).nodes@.len() <= i32::MAX,
            forall|i: int, j: int| #![trigger self.nodes@[i]@[j]]
                is_segment(self.nodes@, i, j) ==> 1 <= self.nodes@[i]@[j].cluster < sizes@.len(),
            sizes@.len() <= i32::MAX,
            forall|c: int|
                0 <= c < sizes@.len() ==> #[trigger] sizes@[c] == capped(
                    cells_in_cluster(self.nodes@, c as i32, NUM_RINGS as int, 0),
                ),
        ensures
            final(g_r).nodes@.len() == old(g_r).nodes@.len(),
            forall|k: int|
                0 <= k < old(g_r).nodes@.len() ==> #[trigger] final(g_r).nodes@[k] == (RangeNode {
                    beta: written_beta(
                        self.nodes@,
                        min_cluster_points,
                        old(g_r).nodes@[k].beta,
                        k,
                        NUM_RINGS as int,
                        0,
                    ),
                    ..old(g_r).nodes@[k]
                }),
    {
        let ghost cells0 = g_r.nodes@;
        let ghost nodes = self.nodes@;
        let mut i: usize = 0;
        while i < NUM_RINGS
            invariant
                i <= NUM_RINGS,
                self.wf(),
                nodes == self.nodes@,
                members_in_range(nodes, cells0.len() as int),
                cells0.len() <= i32::MAX,
                g_r.nodes@.len() == cells0.len(),
                sizes@.len() <= i32::MAX,
                forall|a: int, b: int| #![trigger self.nodes@[a]@[b]]
                    is_segment(nodes, a, b) ==> 1 <= self.nodes@[a]@[b].cluster < sizes@.len(),
                forall|c: int|
                    0 <= c < sizes@.len() ==> #[trigger] sizes@[c] == capped(
                        cells_in_cluster(nodes, c as i32, NUM_RINGS as int, 0),
                    ),
                forall|k: int|
                    0 <= k < cells0.len() ==> #[trigger] g_r.nodes@[k] == (RangeNode {
                        beta: written_beta(
                            nodes,
                            min_cluster_points,
                            cells0[k].beta,
                            k,
                            i as int,
                            0,
                        ),
                        ..cells0[k]
                    }),
            decreases NUM_RINGS - i,
        {
            let n: usize = self.nodes[i].len();
            let mut j: usize = 0;
            while j < n
                invariant
                    i < NUM_RINGS,
                    n == self.nodes@[i as int]@.len(),
                    j <= n,
                    self.wf(),
                    nodes == self.nodes@,
                    members_in_range(nodes, cells0.len() as int),
                    cells0.len() <= i32::MAX,
                    g_r.nodes@.len() == cells0.len(),
                    sizes@.len() <= i32::MAX,
                    forall|a: int, b: int| #![trigger self.nodes@[a]@[b]]
                        is_segment(nodes, a, b) ==> 1 <= self.nodes@[a]@[b].cluster < sizes@.len(),
                    forall|c: int|
                        0 <= c < sizes@.len() ==> #[trigger] sizes@[c] == capped(
                            cells_in_cluster(nodes, c as i32, NUM_RINGS as int, 0),
                        ),
                    forall|k: int|
                        0 <= k < cells0.len() ==> #[trigger] g_r.nodes@[k] == (RangeNode {
                            beta: written_beta(
                                nodes,
                                min_cluster_points,
                                cells0[k].beta,
                                k,
                                i as int,
                                j as int,
                            ),
                            ..cells0[k]
                        }),
                decreases n - j,
            {
                assert(is_segment(nodes, i as int, j as int));
                let c: i32 = self.nodes[i][j].cluster;
                let size: usize = sizes[c as usize];
                let beta: i32 = if size >= min_cluster_points as usize {
                    c
                } else {
                    -1
                };
                assert(beta == published_cluster(nodes, min_cluster_points, c)) by {
                    assert(sizes@[c as int] == capped(
                        cells_in_cluster(nodes, c, NUM_RINGS as int, 0),
                    ));
                }
                let ghost members = nodes[i as int]@[j as int].members@;
                let ghost had = g_r.nodes@;
                let m: usize = self.nodes[i][j].members.len();
                let mut t: usize = 0;
                while t < m
                    invariant
                        i < NUM_RINGS,
                        j < self.nodes@[i as int]@.len(),
                        self.wf(),
                        nodes == self.nodes@,
                        is_segment(nodes, i as int, j as int),
                        members_in_range(nodes, cells0.len() as int),
                        cells0.len() <= i32::MAX,
                        had.len() == cells0.len(),
                        g_r.nodes@.len() == cells0.len(),
                        members == nodes[i as int]@[j as int].members@,
                        m == members.len(),
                        t <= m,
                        forall|k: int|
                            0 <= k < cells0.len() ==> #[trigger] g_r.nodes@[k] == (RangeNode {
                                beta: if members.take(t as int).contains(k as i32) {
                                    beta
                                } else {
                                    had[k].beta
                                },
                                ..had[k]
                            }),
                    decreases m - t,
                {
                    let cell: i32 = self.nodes[i][j].members[t];
                    let ghost prev = g_r.nodes@;
                    assert(members[t as int] == cell);
                    assert(0 <= nodes[i as int]@[j as int].members@[t as int] < cells0.len());
                    g_r.nodes[cell as usize].beta = beta;
                    proof {
                        let done = members.take(t as int);
                        let more = members.take(t + 1);
                        assert(more =~= done.push(cell));
                        assert forall|k: int| 0 <= k < cells0.len() implies #[trigger] g_r.nodes@[k]
                            == (RangeNode {
                            beta: if more.contains(k as i32) {
                                beta
                            } else {
                                had[k].beta
                            },
                            ..had[k]
                        }) by {
                            assert(prev[k] == (RangeNode {
                                beta: if done.contains(k as i32) {
                                    beta
                                } else {
                                    had[k].beta
                                },
                                ..had[k]
                            }));
                            if done.contains(k as i32) {
                                let s = choose|s: int| 0 <= s < done.len() && done[s] == k as i32;
                                assert(more[s] == k as i32);
                            }
                            assert(more[t as int] == cell);
                            if more.contains(k as i32) && k != cell {
                                let s = choose|s: int| 0 <= s < more.len() && more[s] == k as i32;
                                assert(done[s] == k as i32);
                            }
                        }
                    }
                    t = t + 1;
                }
                assert(members.take(m as int) =~= members);
                j = j + 1;
            }
            i = i + 1;
        }
    }

    /// Merges segments across rings into clusters and writes each cluster's id
    /// onto the cells of `g_r` that belong to it (`RangeNode::beta`). Clusters
    /// with fewer than `min_cluster_points` cells are published as none.
    /// Returns how many clusters there are.
    ///
    /// `links` holds, for every segment, one measure per candidate.
    pub fn second_segmentation(
        &mut self,
        g_r: &mut RangeGraph,
        links: &Vec<Vec<Vec<LinkMeasure>>>,
        min_cluster_points: u32,
        min_gap_m: u32,
    ) -> (count: i32)
        requires
            old(self).wf(),
            measured(old(self).nodes@, links@),
            members_in_range(old(self).nodes@, old(g_r).nodes@.len() as int),
            old(g_r).nodes@.len() <= i32::MAX,
            segments_in(old(self).nodes@, NUM_RINGS as int) < i32::MAX,
        ensures
            final(self).wf(),
            clustered(
                old(self).nodes@,
                final(self).nodes@,
                cluster_ids(old(self).nodes@, links@, min_gap_m),
            ),
            count == cluster_count(old(self).nodes@, links@, min_gap_m),
            final(g_r).nodes@.len() == old(g_r).nodes@.len(),
            forall|k: int|
                0 <= k < old(g_r).nodes@.len() ==> #[trigger] final(g_r).nodes@[k] == (RangeNode {
                    beta: written_beta(
                        final(self).nodes@,
                        min_cluster_points,
                        old(g_r).nodes@[k].beta,
                        k,
                        NUM_RINGS as int,
                        0,
                    ),
                    ..old(g_r).nodes@[k]
                }),
    {
        let ghost nodes0 = self.nodes@;
        let ghost n = segments_in(nodes0, NUM_RINGS as int);
        let base = self.bases();
        let adj = self.neighbor_lists(&base, links, min_gap_m);
        let (labels, count) = flood_fill(&adj);
        proof {
            let e1 = edges_of(adj@);
            let e2 = merge_relation(nodes0, links@, min_gap_m);
            assert forall|a: int, b: int| 0 <= a < n && 0 <= b < n implies #[trigger] e1(a, b) == e2(
                a,
                b,
            ) by {
                lists_are_edges(nodes0, links@, min_gap_m, adj@, a, b);
            }
            assert forall|v: int| 0 <= v < n implies #[trigger] labels@[v] == flood_label(e2, n, v)
                && 1 <= labels@[v] <= count by {
                crate::flood::origin_exists(e1, n, v, 0);
                let u = crate::flood::origin(e1, n, v);
                labels_same(e1, e2, n, u);
                crate::flood::origin_is(e2, n, u, v);
                crate::flood::label_range(e1, n, v);
            }
            labels_same(e1, e2, n, n);
            assert(0 <= count <= n) by {
                segments_grow(nodes0, 0, NUM_RINGS as int);
                crate::flood::labels_bound(e1, n, n);
            }
        }
        self.assign_clusters(&base, &labels);
        proof {
            assert forall|i: int, j: int| #![trigger self.nodes@[i]@[j]]
                is_segment(self.nodes@, i, j) implies 1 <= self.nodes@[i]@[j].cluster <= count by {
                assert(self.nodes@[i]@.len() == nodes0[i]@.len());
                position_bound(nodes0, i, j);
            }
            assert forall|i: int, j: int, t: int|
                is_segment(self.nodes@, i, j) && 0 <= t
                    < self.nodes@[i]@[j].members@.len() implies 0
                <= #[trigger] self.nodes@[i]@[j].members@[t] < g_r.nodes@.len() by {
                assert(self.nodes@[i]@.len() == nodes0[i]@.len());
                assert(is_segment(nodes0, i, j));
                assert(self.nodes@[i]@[j].members@ == nodes0[i]@[j].members@);
                assert(0 <= nodes0[i]@[j].members@[t] < g_r.nodes@.len());
            }
            assert forall|i: int, j: int| #![trigger self.nodes@[i]@[j]]
                is_segment(nodes0, i, j) implies self.nodes@[i]@[j].cluster == cluster_of(
                nodes0,
                links@,
                min_gap_m,
                i,
                j,
            ) by {
                position_bound(nodes0, i, j);
                assert(labels@[position(nodes0, i, j)] == flood_label(
                    merge_relation(nodes0, links@, min_gap_m),
                    n,
                    position(nodes0, i, j),
                ));
            }
        }
        let sizes = self.cluster_sizes(count);
        self.publish_clusters(g_r, &sizes, min_cluster_points);
        count
    }
}

/// Whether `after` is `before` with each segment's cluster set to what
/// `cluster` says.
pub open spec fn clustered(
    before: Seq<Vec<GraphNode>>,
    after: Seq<Vec<GraphNode>>,
    cluster: spec_fn(int, int) -> i32,
) -> bool {
    &&& after.len() == before.len()
    &&& forall|i: int| #![trigger after[i]]
        0 <= i < before.len() ==> after[i]@.len() == before[i]@.len()
    &&& forall|i: int, j: int| #![trigger after[i]@[j]]
        is_segment(before, i, j) ==> after[i]@[j] == (GraphNode {
            cluster: cluster(i, j),
            ..before[i]@[j]
        })
}

/// Whether every row lists the cells of its ring's segments.
pub open spec fn lists_all_cells(
    rows: Seq<Vec<GraphNode>>,
    nodes: Seq<RangeNode>,
    splits: Seq<bool>,
    seams: Seq<bool>,
) -> bool {
    &&& rows.len() == NUM_RINGS
    &&& forall|r: int|
        0 <= r < NUM_RINGS ==> lists_cells((#[trigger] rows[r])@, nodes, splits, seams[r], r)
}

/// Clustering the segments leaves them with the cells they have.
pub proof fn clustering_keeps_cells(
    before: Seq<Vec<GraphNode>>,
    after: Seq<Vec<GraphNode>>,
    cluster: spec_fn(int, int) -> i32,
    nodes: Seq<RangeNode>,
    splits: Seq<bool>,
    seams: Seq<bool>,
)
    requires
        lists_all_cells(before, nodes, splits, seams),
        clustered(before, after, cluster),
    ensures
        lists_all_cells(after, nodes, splits, seams),
{
    assert forall|r: int| 0 <= r < NUM_RINGS implies lists_cells(
        (#[trigger] after[r])@,
        nodes,
        splits,
        seams[r],
        r,
    ) by {
        assert(lists_cells(before[r]@, nodes, splits, seams[r], r));
        assert forall|k: int| 0 <= k < after[r]@.len() implies (#[trigger] after[r]@[k]).members@
            == before[r]@[k].members@ by {
            assert(is_segment(before, r, k));
        }
    }
}

/// An occupied cell is given the cluster of the one segment that it belongs
/// to; an empty cell keeps what it had.
pub proof fn cell_gets_its_cluster(
    rows: Seq<Vec<GraphNode>>,
    nodes: Seq<RangeNode>,
    splits: Seq<bool>,
    seams: Seq<bool>,
    min_cluster_points: u32,
    beta: i32,
    ring: int,
    col: int,
)
    requires
        lists_all_cells(rows, nodes, splits, seams),
        0 <= ring < 32,
        0 <= col < 3600,
    ensures
        ({
            let cell = cell_index(ring, col);
            let k = label_at(nodes, splits, seams[ring], ring, col) - 1;
            let got = written_beta(rows, min_cluster_points, beta, cell, 32, 0);
            if nodes[cell].valid {
                &&& is_segment(rows, ring, k)
                &&& rows[ring]@[k].members@.contains(cell as i32)
                &&& got == published_cluster(rows, min_cluster_points, rows[ring]@[k].cluster)
            } else {
                got == beta
            }
        }),
{
    let cell = cell_index(ring, col);
    let k = label_at(nodes, splits, seams[ring], ring, col) - 1;
    segments_partition_ring(rows[ring]@, nodes, splits, seams[ring], ring, col);
    assert forall|i: int, j: int| #[trigger] is_segment(rows, i, j) implies (
    rows[i]@[j].members@.contains(cell as i32) <==> (nodes[cell].valid && i == ring && j == k)) by {
        if i == ring {
            assert(rows[ring]@[j].members@.contains(cell as i32) <==> (nodes[cell].valid && label_at(
                nodes,
                splits,
                seams[ring],
                ring,
                col,
            ) == j + 1));
        } else if rows[i]@[j].members@.contains(cell as i32) {
            let t = choose|t: int|
                0 <= t < rows[i]@[j].members@.len() && rows[i]@[j].members@[t] == cell as i32;
            segment_member_is(rows[i]@, nodes, splits, seams[i], i, j, t);
        }
    }
    single_writer(rows, min_cluster_points, beta, cell, nodes[cell].valid, ring, k, 32, 0);
}

/// Where one segment alone has a cell, the cell is given that segment's
/// cluster.
proof fn single_writer(
    rows: Seq<Vec<GraphNode>>,
    min_cluster_points: u32,
    beta: i32,
    cell: int,
    owned: bool,
    ring: int,
    k: int,
    i: int,
    j: int,
)
    requires
        forall|a: int, b: int| #[trigger]
            is_segment(rows, a, b) ==> (rows[a]@[b].members@.contains(cell as i32) <==> (owned && a
                == ring && b == k)),
        owned ==> is_segment(rows, ring, k),
        0 <= i <= rows.len(),
        i < rows.len() ==> 0 <= j <= rows[i]@.len(),
        i == rows.len() ==> j == 0,
    ensures
        written_beta(rows, min_cluster_points, beta, cell, i, j) == if owned && (ring < i || (ring
            == i && k < j)) {
            published_cluster(rows, min_cluster_points, rows[ring]@[k].cluster)
        } else {
            beta
        },
    decreases i, j,
{
    if j > 0 {
        assert(is_segment(rows, i, j - 1));
        single_writer(rows, min_cluster_points, beta, cell, owned, ring, k, i, j - 1);
    } else if i > 0 {
        single_writer(
            rows,
            min_cluster_points,
            beta,
            cell,
            owned,
            ring,
            k,
            i - 1,
            rows[i - 1]@.len() as int,
        );
    }
}

/// The cells of the segments of cluster `c` that stand before segment `j` of
/// ring `i`.
pub open spec fn cluster_cells(rows: Seq<Vec<GraphNode>>, c: i32, i: int, j: int) -> Set<i32>
    decreases i, j,
{
    if j > 0 {
        let rest = cluster_cells(rows, c, i, j - 1);
        if rows[i]@[j - 1].cluster == c {
            rest + rows[i]@[j - 1].members@.to_set()
        } else {
            rest
        }
    } else if i > 0 {
        cluster_cells(rows, c, i - 1, rows[i - 1]@.len() as int)
    } else {
        Set::empty()
    }
}

/// The occupied cells that carry the cluster id `c`.
pub open spec fn cells_with(nodes: Seq<RangeNode>, c: i32) -> Set<i32> {
    Set::new(|k: i32| 0 <= k < nodes.len() && nodes[k as int].valid && nodes[k as int].beta == c)
}

/// The segments of a cluster have no cell in common, so counting their
/// members counts its cells.
proof fn members_are_counted_once(
    rows: Seq<Vec<GraphNode>>,
    nodes: Seq<RangeNode>,
    splits: Seq<bool>,
    seams: Seq<bool>,
    c: i32,
    i: int,
    j: int,
)
    requires
        lists_all_cells(rows, nodes, splits, seams),
        0 <= i <= rows.len(),
        i < rows.len() ==> 0 <= j <= rows[i]@.len(),
        i == rows.len() ==> j == 0,
    ensures
        cluster_cells(rows, c, i, j).finite(),
        cluster_cells(rows, c, i, j).len() == cells_in_cluster(rows, c, i, j),
        forall|k: i32| #[trigger]
            cluster_cells(rows, c, i, j).contains(k) <==> exists|a: int, b: int|
                #![trigger rows[a]@[b]]
                {
                    &&& is_segment(rows, a, b)
                    &&& a < i || (a == i && b < j)
                    &&& rows[a]@[b].cluster == c
                    &&& rows[a]@[b].members@.contains(k)
                },
    decreases i, j,
{
    if j > 0 {
        members_are_counted_once(rows, nodes, splits, seams, c, i, j - 1);
        let rest = cluster_cells(rows, c, i, j - 1);
        let members = rows[i]@[j - 1].members@;
        assert(is_segment(rows, i, j - 1));
        assert(lists_cells(rows[i]@, nodes, splits, seams[i], i));
        assert(members.no_duplicates()) by {
            assert forall|s: int, t: int|
                0 <= s < members.len() && 0 <= t < members.len() && s != t implies members[s]
                != members[t] by {
                if s < t {
                    members_ascend(rows[i]@, nodes, splits, seams[i], i, j - 1, s, t);
                } else {
                    members_ascend(rows[i]@, nodes, splits, seams[i], i, j - 1, t, s);
                }
            }
        }
        members.unique_seq_to_set();
        assert(members.to_set().finite()) by {
            vstd::seq_lib::seq_to_set_is_finite(members);
        }
        assert(rest.disjoint(members.to_set())) by {
            assert forall|k: i32| rest.contains(k) implies !members.contains(k) by {
                let (a, b) = choose|a: int, b: int|
                    #![trigger rows[a]@[b]]
                    {
                        &&& is_segment(rows, a, b)
                        &&& a < i || (a == i && b < j - 1)
                        &&& rows[a]@[b].cluster == c
                        &&& rows[a]@[b].members@.contains(k)
                    };
                if members.contains(k) {
                    one_segment_per_cell(rows, nodes, splits, seams, a, b, i, j - 1, k);
                }
            }
        }
        vstd::set_lib::lemma_set_disjoint_lens(rest, members.to_set());
        assert forall|k: i32| #[trigger]
            cluster_cells(rows, c, i, j).contains(k) implies exists|a: int, b: int|
                #![trigger rows[a]@[b]]
                {
                    &&& is_segment(rows, a, b)
                    &&& a < i || (a == i && b < j)
                    &&& rows[a]@[b].cluster == c
                    &&& rows[a]@[b].members@.contains(k)
                } by {
            if !rest.contains(k) {
                assert(rows[i]@[j - 1].members@.contains(k));
            }
        }
    } else if i > 0 {
        members_are_counted_once(rows, nodes, splits, seams, c, i - 1, rows[i - 1]@.len() as int);
    }
}

/// No two segments have a cell in common.
proof fn one_segment_per_cell(
    rows: Seq<Vec<GraphNode>>,
    nodes: Seq<RangeNode>,
    splits: Seq<bool>,
    seams: Seq<bool>,
    a: int,
    b: int,
    i: int,
    j: int,
    k: i32,
)
    requires
        lists_all_cells(rows, nodes, splits, seams),
        is_segment(rows, a, b),
        is_segment(rows, i, j),
        rows[a]@[b].members@.contains(k),
        rows[i]@[j].members@.contains(k),
    ensures
        a == i,
        b == j,
{
    let s = choose|s: int| 0 <= s < rows[a]@[b].members@.len() && rows[a]@[b].members@[s] == k;
    let t = choose|t: int| 0 <= t < rows[i]@[j].members@.len() && rows[i]@[j].members@[t] == k;
    assert(lists_cells(rows[a]@, nodes, splits, seams[a], a));
    assert(lists_cells(rows[i]@, nodes, splits, seams[i], i));
    segment_member_is(rows[a]@, nodes, splits, seams[a], a, b, s);
    segment_member_is(rows[i]@, nodes, splits, seams[i], i, j, t);
}

/// A cluster that any cell carries has at least as many cells as the smallest
/// one that is published, and each of its cells carries it: clusters are
/// published as a whole or not at all.
pub proof fn published_clusters_are_large(
    rows: Seq<Vec<GraphNode>>,
    nodes: Seq<RangeNode>,
    splits: Seq<bool>,
    seams: Seq<bool>,
    min_cluster_points: u32,
    after: Seq<RangeNode>,
    cell: int,
)
    requires
        lists_all_cells(rows, nodes, splits, seams),
        nodes.len() == NUM_CELLS,
        after.len() == NUM_CELLS,
        forall|k: int|
            0 <= k < NUM_CELLS ==> (#[trigger] after[k]).valid == nodes[k].valid && after[k].beta
                == written_beta(rows, min_cluster_points, nodes[k].beta, k, 32, 0),
        0 <= cell < NUM_CELLS,
        after[cell].valid,
        after[cell].beta != -1,
    ensures
        cells_with(after, after[cell].beta) == cluster_cells(rows, after[cell].beta, 32, 0),
        cells_with(after, after[cell].beta).finite(),
        cells_with(after, after[cell].beta).len() >= min_cluster_points,
{
    let c = after[cell].beta;
    members_are_counted_once(rows, nodes, splits, seams, c, 32, 0);
    cell_gets_its_cluster(
        rows,
        nodes,
        splits,
        seams,
        min_cluster_points,
        nodes[cell].beta,
        cell / 3600,
        cell % 3600,
    );
    assert(cell == cell_index(cell / 3600, cell % 3600));
    assert(published_cluster(rows, min_cluster_points, c) == c);
    assert forall|k: i32| cells_with(after, c).contains(k) == cluster_cells(
        rows,
        c,
        32,
        0,
    ).contains(k) by {
        if cells_with(after, c).contains(k) {
            let ring = k as int / 3600;
            let col = k as int % 3600;
            cell_gets_its_cluster(
                rows,
                nodes,
                splits,
                seams,
                min_cluster_points,
                nodes[k as int].beta,
                ring,
                col,
            );
            let at = label_at(nodes, splits, seams[ring], ring, col) - 1;
            assert(k == cell_index(ring, col));
            assert(rows[ring]@[at].members@.contains(k));
        }
        if cluster_cells(rows, c, 32, 0).contains(k) {
            let (a, b) = choose|a: int, b: int|
                #![trigger rows[a]@[b]]
                {
                    &&& is_segment(rows, a, b)
                    &&& a < 32 || (a == 32 && b < 0)
                    &&& rows[a]@[b].cluster == c
                    &&& rows[a]@[b].members@.contains(k)
                };
            let t = choose|t: int|
                0 <= t < rows[a]@[b].members@.len() && rows[a]@[b].members@[t] == k;
            assert(lists_cells(rows[a]@, nodes, splits, seams[a], a));
            segment_member_is(rows[a]@, nodes, splits, seams[a], a, b, t);
            cell_gets_its_cluster(
                rows,
                nodes,
                splits,
                seams,
                min_cluster_points,
                nodes[k as int].beta,
                a,
                k - cell_index(a, 0),
            );
            assert(k == cell_index(a, k - cell_index(a, 0)));
            assert(after[k as int].valid == nodes[k as int].valid);
        }
    }
    assert(cells_with(after, c) =~= cluster_cells(rows, c, 32, 0));
}

/// Segments that reach each other by merging are in one cluster.
pub proof fn mutual_merge_one_cluster(
    nodes: Seq<Vec<GraphNode>>,
    links: Seq<Vec<Vec<LinkMeasure>>>,
    min_gap_m: u32,
    i: int,
    j: int,
    k: int,
    l: int,
)
    requires
        is_segment(nodes, i, j),
        is_segment(nodes, k, l),
        crate::flood::reaches(
            merge_relation(nodes, links, min_gap_m),
            segments_in(nodes, nodes.len() as int),
            position(nodes, i, j),
            position(nodes, k, l),
        ),
        crate::flood::reaches(
            merge_relation(nodes, links, min_gap_m),
            segments_in(nodes, nodes.len() as int),
            position(nodes, k, l),
            position(nodes, i, j),
        ),
    ensures
        cluster_of(nodes, links, min_gap_m, i, j) == cluster_of(nodes, links, min_gap_m, k, l),
{
    position_bound(nodes, i, j);
    position_bound(nodes, k, l);
    crate::flood::mutual_reach_same_label(
        merge_relation(nodes, links, min_gap_m),
        segments_in(nodes, nodes.len() as int),
        position(nodes, i, j),
        position(nodes, k, l),
    );
}

/// A segment that merges with another draws it into its own cluster, unless
/// an earlier cluster has it already; where each merges with the other, they
/// are in one cluster.
pub proof fn neighbours_are_drawn_in(
    nodes: Seq<Vec<GraphNode>>,
    links: Seq<Vec<Vec<LinkMeasure>>>,
    min_gap_m: u32,
    i: usize,
    j: usize,
    k: usize,
    l: usize,
)
    requires
        is_segment(nodes, i as int, j as int),
        is_segment(nodes, k as int, l as int),
        neighbors_of(nodes, i, j, links[i as int]@[j as int]@, min_gap_m).contains((k, l)),
    ensures
        cluster_of(nodes, links, min_gap_m, k as int, l as int) <= cluster_of(
            nodes,
            links,
            min_gap_m,
            i as int,
            j as int,
        ),
        neighbors_of(nodes, k, l, links[k as int]@[l as int]@, min_gap_m).contains((i, j))
            ==> cluster_of(nodes, links, min_gap_m, k as int, l as int) == cluster_of(
            nodes,
            links,
            min_gap_m,
            i as int,
            j as int,
        ),
{
    let e = merge_relation(nodes, links, min_gap_m);
    let n = segments_in(nodes, nodes.len() as int);
    let u = position(nodes, i as int, j as int);
    let v = position(nodes, k as int, l as int);
    position_bound(nodes, i as int, j as int);
    position_bound(nodes, k as int, l as int);
    crate::flood::reaches_self(e, n, u);
    assert(merges(nodes, links, min_gap_m, u, v));
    crate::flood::reaches_step(e, n, u, u, v);
    crate::flood::reached_no_later(e, n, u, v);
    if neighbors_of(nodes, k, l, links[k as int]@[l as int]@, min_gap_m).contains((i, j)) {
        crate::flood::reaches_self(e, n, v);
        assert(merges(nodes, links, min_gap_m, v, u));
        crate::flood::reaches_step(e, n, v, v, u);
        crate::flood::mutual_reach_same_label(e, n, u, v);
    }
}

/// Cutting the rings into segments, and then merging those into clusters,
/// leaves the cells with the points they hold.
pub proof fn clustering_keeps_points(
    before: Seq<RangeNode>,
    labelled: Seq<RangeNode>,
    rows: Seq<Vec<GraphNode>>,
    splits: Seq<bool>,
    seams: Seq<bool>,
    merged: Seq<Vec<GraphNode>>,
    min_cluster_points: u32,
    after: Seq<RangeNode>,
)
    requires
        before.len() == NUM_CELLS,
        labelled.len() == NUM_CELLS,
        segmented(before, labelled, rows, splits, seams),
        after.len() == labelled.len(),
        forall|k: int|
            0 <= k < labelled.len() ==> #[trigger] after[k] == (RangeNode {
                beta: written_beta(
                    merged,
                    min_cluster_points,
                    labelled[k].beta,
                    k,
                    NUM_RINGS as int,
                    0,
                ),
                ..labelled[k]
            }),
    ensures
        same_points(before, after),
{
    segmenting_keeps_points(before, labelled, rows, splits, seams);
    assert forall|k: int| 0 <= k < after.len() implies #[trigger] after[k] == (RangeNode {
        alpha: after[k].alpha,
        beta: after[k].beta,
        ..before[k]
    }) by {
        assert(labelled[k] == (RangeNode {
            alpha: labelled[k].alpha,
            beta: labelled[k].beta,
            ..before[k]
        }));
    }
}

/// Whether the columns of two segments overlap.
pub open spec fn overlap(a: GraphNode, b: GraphNode) -> bool {
    a.start_pos <= b.end_pos && b.start_pos <= a.end_pos
}

/// Whether the segments of a row are sorted by their first columns.
pub open spec fn sorted(row: Seq<GraphNode>) -> bool {
    forall|a: int, b: int|
        0 <= a <= b < row.len() ==> (#[trigger] row[a]).start_pos <= (#[trigger] row[b]).start_pos
}

/// The segments that a ring was cut into are sorted.
pub proof fn segments_are_sorted(
    before: Seq<RangeNode>,
    after: Seq<RangeNode>,
    rows: Seq<Vec<GraphNode>>,
    splits: Seq<bool>,
    seams: Seq<bool>,
    ring: int,
)
    requires
        segmented(before, after, rows, splits, seams),
        0 <= ring < 32,
    ensures
        sorted(rows[ring]@),
{
    row_ascends(rows[ring]@, before, splits, seams[ring], ring);
}

/// Whether `m` is what is measured from segment `ci` of ring `ri` to segment
/// `cn` of ring `rn`, wherever that is a candidate.
pub open spec fn measured_as(
    nodes: Seq<Vec<GraphNode>>,
    links: Seq<Vec<Vec<LinkMeasure>>>,
    ri: usize,
    ci: usize,
    rn: usize,
    cn: usize,
    m: LinkMeasure,
) -> bool {
    forall|s: int|
        0 <= s < candidates_of(nodes, ri, ci).len() && #[trigger] candidates_of(nodes, ri, ci)[s]
            == (rn, cn) ==> links[ri as int]@[ci as int]@[s] == m
}

/// A segment of a ring next to it whose columns overlap with it is a
/// candidate of a segment.
pub proof fn overlapping_is_candidate(
    nodes: Seq<Vec<GraphNode>>,
    ri: usize,
    ci: usize,
    rn: usize,
    cn: usize,
) -> (s: int)
    requires
        nodes.len() == NUM_RINGS,
        is_segment(nodes, ri as int, ci as int),
        is_segment(nodes, rn as int, cn as int),
        ri + 1 == rn || rn + 1 == ri,
        sorted(nodes[rn as int]@),
        overlap(nodes[ri as int]@[ci as int], nodes[rn as int]@[cn as int]),
    ensures
        0 <= s < candidates_of(nodes, ri, ci).len(),
        candidates_of(nodes, ri, ci)[s] == (rn, cn),
{
    let cur = nodes[ri as int]@[ci as int];
    let row = nodes[rn as int]@;
    assert forall|k: int| 0 <= k < cn + 1 implies !is_after(#[trigger] row[k], cur) by {
        assert(row[k].start_pos <= row[cn as int].start_pos);
    }
    first_after_skips(row, cur, 0, cn + 1);
    first_after_bounds(row, cur, cn + 1);
    let stop = first_after(row, cur, 0);
    let t = connected_has(row, cur, rn, stop, cn as int);
    let there = ring_candidates(row, cur, rn);
    assert(there[t] == (rn, cn));
    if rn < ri {
        assert(candidates_of(nodes, ri, ci)[t] == there[t]);
        t
    } else {
        let below = if ri > 0 {
            ring_candidates(nodes[ri - 1]@, cur, (ri - 1) as usize)
        } else {
            Seq::empty()
        };
        assert(candidates_of(nodes, ri, ci)[below.len() + t] == there[t]);
        below.len() + t
    }
}

/// Every segment that does not end before `cur` starts is connected.
proof fn connected_has(row: Seq<GraphNode>, cur: GraphNode, rn: usize, upto: int, k: int) -> (t: int)
    requires
        0 <= k < upto <= row.len(),
        !is_before(row[k], cur),
    ensures
        0 <= t < connected(row, cur, rn, upto).len(),
        connected(row, cur, rn, upto)[t] == (rn, k as usize),
    decreases upto,
{
    let rest = connected(row, cur, rn, upto - 1);
    if k == upto - 1 {
        rest.len() as int
    } else {
        connected_has(row, cur, rn, upto - 1, k)
    }
}

/// A candidate that is near enough is kept.
proof fn near_is_kept(
    cands: Seq<(usize, usize)>,
    links: Seq<LinkMeasure>,
    min_gap_m: u32,
    upto: int,
    s: int,
)
    requires
        0 <= s < upto <= cands.len(),
        near(links[s], min_gap_m),
    ensures
        kept(cands, links, min_gap_m, upto).contains(cands[s]),
    decreases upto,
{
    let rest = kept(cands, links, min_gap_m, upto - 1);
    let all = kept(cands, links, min_gap_m, upto);
    if s == upto - 1 {
        assert(all[all.len() - 1] == cands[s]);
    } else {
        near_is_kept(cands, links, min_gap_m, upto - 1, s);
        let t = choose|t: int| 0 <= t < rest.len() && rest[t] == cands[s];
        assert(all[t] == cands[s]);
    }
}

/// Segments of rings next to each other whose columns overlap, and whose
/// distance is below the threshold as measured from either, are in one cluster
/// when the segments have been clustered.
pub proof fn near_overlapping_segments_share_a_cluster(
    before: Seq<Vec<GraphNode>>,
    after: Seq<Vec<GraphNode>>,
    links: Seq<Vec<Vec<LinkMeasure>>>,
    min_gap_m: u32,
    ri: usize,
    ci: usize,
    rn: usize,
    cn: usize,
    there: LinkMeasure,
    back: LinkMeasure,
)
    requires
        clustered(before, after, cluster_ids(before, links, min_gap_m)),
        before.len() == NUM_RINGS,
        is_segment(before, ri as int, ci as int),
        is_segment(before, rn as int, cn as int),
        ri + 1 == rn || rn + 1 == ri,
        sorted(before[ri as int]@),
        sorted(before[rn as int]@),
        overlap(before[ri as int]@[ci as int], before[rn as int]@[cn as int]),
        measured_as(before, links, ri, ci, rn, cn, there),
        measured_as(before, links, rn, cn, ri, ci, back),
        near(there, min_gap_m),
        near(back, min_gap_m),
    ensures
        after[ri as int]@[ci as int].cluster == after[rn as int]@[cn as int].cluster,
{
    let s = overlapping_is_candidate(before, ri, ci, rn, cn);
    let t = overlapping_is_candidate(before, rn, cn, ri, ci);
    let cands = candidates_of(before, ri, ci);
    let others = candidates_of(before, rn, cn);
    near_is_kept(cands, links[ri as int]@[ci as int]@, min_gap_m, cands.len() as int, s);
    near_is_kept(others, links[rn as int]@[cn as int]@, min_gap_m, others.len() as int, t);
    neighbours_are_drawn_in(before, links, min_gap_m, ri, ci, rn, cn);
}

/// No cluster number is skipped: every number from one to the number of
/// clusters is that of a segment.
pub proof fn every_cluster_number_is_used(
    nodes: Seq<Vec<GraphNode>>,
    links: Seq<Vec<Vec<LinkMeasure>>>,
    min_gap_m: u32,
    c: int,
) -> (ij: (int, int))
    requires
        1 <= c <= cluster_count(nodes, links, min_gap_m),
    ensures
        is_segment(nodes, ij.0, ij.1),
        cluster_of(nodes, links, min_gap_m, ij.0, ij.1) == c,
{
    let n = segments_in(nodes, nodes.len() as int);
    segments_grow(nodes, 0, nodes.len() as int);
    let v = crate::flood::every_label_is_used(
        merge_relation(nodes, links, min_gap_m),
        n,
        n,
        c,
    );
    position_is_taken(nodes, nodes.len() as int, v)
}

/// Clusters are numbered from one to their number.
pub proof fn cluster_numbers(
    nodes: Seq<Vec<GraphNode>>,
    links: Seq<Vec<Vec<LinkMeasure>>>,
    min_gap_m: u32,
    i: int,
    j: int,
)
    requires
        is_segment(nodes, i, j),
    ensures
        1 <= cluster_of(nodes, links, min_gap_m, i, j) <= cluster_count(nodes, links, min_gap_m)
            <= segments_in(nodes, nodes.len() as int),
{
    let n = segments_in(nodes, nodes.len() as int);
    position_bound(nodes, i, j);
    crate::flood::label_range(merge_relation(nodes, links, min_gap_m), n, position(nodes, i, j));
    crate::flood::labels_bound(merge_relation(nodes, links, min_gap_m), n, n);
}

proof fn nothing_before_the_first_after(row: Seq<GraphNode>, cur: GraphNode, from: int)
    requires
        0 <= from <= row.len(),
    ensures
        from <= first_after(row, cur, from) <= row.len(),
        forall|k: int|
            from <= k < first_after(row, cur, from) ==> !is_after(#[trigger] row[k], cur),
        first_after(row, cur, from) < row.len() ==> is_after(
            row[first_after(row, cur, from)],
            cur,
        ),
    decreases row.len() - from,
{
    if from < row.len() && !is_after(row[from], cur) {
        nothing_before_the_first_after(row, cur, from + 1);
    }
}

proof fn connected_is(row: Seq<GraphNode>, cur: GraphNode, rn: usize, upto: int, t: int)
    requires
        0 <= upto <= row.len(),
        row.len() <= usize::MAX,
        0 <= t < connected(row, cur, rn, upto).len(),
    ensures
        connected(row, cur, rn, upto)[t].1 < upto,
        !is_before(row[connected(row, cur, rn, upto)[t].1 as int], cur),
    decreases upto,
{
    if t < connected(row, cur, rn, upto - 1).len() {
        connected_is(row, cur, rn, upto - 1, t);
    }
}

proof fn last_before_is(row: Seq<GraphNode>, cur: GraphNode, rn: usize, upto: int)
    requires
        0 <= upto <= row.len(),
        row.len() <= usize::MAX,
    ensures
        last_before(row, cur, rn, upto).len() <= 1,
        last_before(row, cur, rn, upto).len() == 0 ==> forall|k: int|
            0 <= k < upto ==> !is_before(#[trigger] row[k], cur),
        last_before(row, cur, rn, upto).len() == 1 ==> {
            let b = last_before(row, cur, rn, upto)[0];
            &&& b.0 == rn
            &&& b.1 < upto
            &&& is_before(row[b.1 as int], cur)
            &&& forall|k: int| b.1 < k < upto ==> !is_before(#[trigger] row[k], cur)
        },
    decreases upto,
{
    if upto > 0 && !is_before(row[upto - 1], cur) {
        last_before_is(row, cur, rn, upto - 1);
    }
}

/// The candidates in one row.
proof fn ring_candidates_are(row: Seq<GraphNode>, cur: GraphNode, rn: usize, cn: usize)
    requires
        row.len() <= usize::MAX,
        cn < row.len(),
        cur.start_pos <= cur.end_pos,
        forall|k: int| 0 <= k < row.len() ==> (#[trigger] row[k]).start_pos <= row[k].end_pos,
        forall|a: int, b: int|
            0 <= a <= b < row.len() ==> (#[trigger] row[a]).start_pos <= (
            #[trigger] row[b]).start_pos,
    ensures
        ring_candidates(row, cur, rn).contains((rn, cn)) <==> {
            let cand = row[cn as int];
            ||| (cand.start_pos <= cur.end_pos && cur.start_pos <= cand.end_pos)
            ||| (cand.end_pos < cur.start_pos && forall|k: int|
                cn < k < row.len() ==> (#[trigger] row[k]).end_pos >= cur.start_pos)
            ||| (cand.start_pos > cur.end_pos && forall|k: int|
                0 <= k < cn ==> (#[trigger] row[k]).start_pos <= cur.end_pos)
        },
{
    let all = ring_candidates(row, cur, rn);
    let stop = first_after(row, cur, 0);
    nothing_before_the_first_after(row, cur, 0);
    let inner = connected(row, cur, rn, stop);
    let before = last_before(row, cur, rn, stop);
    last_before_is(row, cur, rn, stop);
    let cand = row[cn as int];
    if all.contains((rn, cn)) {
        let t = choose|t: int| 0 <= t < all.len() && all[t] == (rn, cn);
        if t < inner.len() {
            assert(all[t] == inner[t]);
            connected_is(row, cur, rn, stop, t);
            assert(!is_after(cand, cur));
        } else if t < inner.len() + before.len() {
            assert(all[t] == before[0]);
            assert forall|k: int| cn < k < row.len() implies (#[trigger] row[k]).end_pos
                >= cur.start_pos by {
                if k < stop {
                    assert(!is_before(row[k], cur));
                } else {
                    assert(row[stop].start_pos <= row[k].start_pos);
                }
            }
        } else {
            assert(cn == stop);
            assert forall|k: int| 0 <= k < cn implies (#[trigger] row[k]).start_pos
                <= cur.end_pos by {
                assert(!is_after(row[k], cur));
            }
        }
    }
    if cand.start_pos <= cur.end_pos && cur.start_pos <= cand.end_pos {
        if stop <= cn {
            assert(row[stop].start_pos <= cand.start_pos);
        }
        let t = connected_has(row, cur, rn, stop, cn as int);
        assert(all[t] == (rn, cn));
    } else if cand.end_pos < cur.start_pos && forall|k: int|
        cn < k < row.len() ==> (#[trigger] row[k]).end_pos >= cur.start_pos {
        if stop <= cn {
            assert(row[stop].start_pos <= cand.start_pos);
        }
        assert(is_before(row[cn as int], cur));
        assert(before.len() == 1);
        let b = before[0].1;
        if b < cn {
            assert(!is_before(row[cn as int], cur));
        } else if cn < b {
            assert(row[b as int].end_pos >= cur.start_pos);
        }
        assert(all[inner.len() as int] == before[0]);
    } else if cand.start_pos > cur.end_pos && forall|k: int|
        0 <= k < cn ==> (#[trigger] row[k]).start_pos <= cur.end_pos {
        assert(is_after(cand, cur));
        if stop < cn {
            assert(row[stop].start_pos <= cur.end_pos);
        }
        assert(stop == cn);
        assert(all[(inner.len() + before.len()) as int] == (rn, cn));
    }
}

/// Which segments are tried for a merge with a given one: those of the rings
/// directly below and above whose columns overlap with it, and in each of
/// those rings the last one that ends before it starts and the first one that
/// starts after it ends. All rings are alike in that, and no other segments
/// are tried.
pub proof fn overlapping_and_next_segments_are_candidates(
    nodes: Seq<Vec<GraphNode>>,
    ri: usize,
    ci: usize,
    rn: usize,
    cn: usize,
)
    requires
        nodes.len() == 32,
        ri < 32,
        ci < nodes[ri as int]@.len(),
        rn < 32,
        cn < nodes[rn as int]@.len(),
        forall|r: int, k: int| #![trigger nodes[r]@[k]]
            0 <= r < 32 && 0 <= k < nodes[r]@.len() ==> nodes[r]@[k].start_pos
                <= nodes[r]@[k].end_pos,
        forall|r: int, a: int, b: int| #![trigger nodes[r]@[a], nodes[r]@[b]]
            0 <= r < 32 && 0 <= a <= b < nodes[r]@.len() ==> nodes[r]@[a].start_pos
                <= nodes[r]@[b].start_pos,
    ensures
        candidates_of(nodes, ri, ci).contains((rn, cn)) <==> {
            let cur = nodes[ri as int]@[ci as int];
            let row = nodes[rn as int]@;
            let cand = row[cn as int];
            &&& rn == ri + 1 || ri == rn + 1
            &&& {
                ||| (cand.start_pos <= cur.end_pos && cur.start_pos <= cand.end_pos)
                ||| (cand.end_pos < cur.start_pos && forall|k: int|
                    cn < k < row.len() ==> (#[trigger] row[k]).end_pos >= cur.start_pos)
                ||| (cand.start_pos > cur.end_pos && forall|k: int|
                    0 <= k < cn ==> (#[trigger] row[k]).start_pos <= cur.end_pos)
            }
        },
{
    let cur = nodes[ri as int]@[ci as int];
    let row = nodes[rn as int]@;
    let all = candidates_of(nodes, ri, ci);
    let below = if ri > 0 {
        ring_candidates(nodes[ri - 1]@, cur, (ri - 1) as usize)
    } else {
        Seq::empty()
    };
    assert(nodes[rn as int].len() == row.len());
    ring_candidates_are(row, cur, rn, cn);
    if all.contains((rn, cn)) {
        let t = choose|t: int| 0 <= t < all.len() && all[t] == (rn, cn);
        candidate_is_adjacent(nodes, ri, ci, t);
        if t < below.len() {
            assert(nodes[ri - 1].len() == nodes[ri - 1]@.len());
            ring_candidate_in_row(nodes[ri - 1]@, cur, (ri - 1) as usize, t);
            assert(ring_candidates(row, cur, rn)[t] == (rn, cn));
        } else {
            assert(nodes[ri + 1].len() == nodes[ri + 1]@.len());
            ring_candidate_in_row(nodes[ri + 1]@, cur, (ri + 1) as usize, t - below.len());
            assert(ring_candidates(row, cur, rn)[t - below.len()] == (rn, cn));
        }
    }
    if ring_candidates(row, cur, rn).contains((rn, cn)) && (rn == ri + 1 || ri == rn + 1) {
        let there = ring_candidates(row, cur, rn);
        let t = choose|t: int| 0 <= t < there.len() && there[t] == (rn, cn);
        if rn < ri {
            assert(all[t] == (rn, cn));
        } else {
            assert(all[below.len() + t] == (rn, cn));
        }
    }
}

/// Whether two measured segments merge: where the difference in height is
/// below its gate, the distance seen from above counts, else the one with the
/// height; and it has to be smaller than the scaled threshold or than the
/// floor. A threshold that is not a number does not count.
pub proof fn merging_is_by_distance(link: LinkMeasure, min_gap_m: u32)
    ensures
        less(link.dz, link.dz_gate) ==> (near(link, min_gap_m) <==> less(link.flat, link.scaled)
            || less(link.flat, min_gap_m)),
        !less(link.dz, link.dz_gate) ==> (near(link, min_gap_m) <==> less(link.full, link.scaled)
            || less(link.full, min_gap_m)),
{
}

/// Segments that are candidates of each other, and near as measured from
/// either, are in one cluster when the segments have been clustered. Where
/// only the first has the second as a near candidate, the second is in its
/// cluster or in an earlier one.
pub proof fn near_candidates_share_a_cluster(
    before: Seq<Vec<GraphNode>>,
    after: Seq<Vec<GraphNode>>,
    links: Seq<Vec<Vec<LinkMeasure>>>,
    min_gap_m: u32,
    ri: usize,
    ci: usize,
    s: int,
    rn: usize,
    cn: usize,
    t: int,
)
    requires
        clustered(before, after, cluster_ids(before, links, min_gap_m)),
        before.len() == 32,
        segments_in(before, 32) < i32::MAX,
        ri < 32,
        ci < before[ri as int]@.len(),
        rn < 32,
        cn < before[rn as int]@.len(),
        0 <= s < candidates_of(before, ri, ci).len(),
        candidates_of(before, ri, ci)[s] == (rn, cn),
        ({
            let m = links[ri as int]@[ci as int]@[s];
            let dist = if less(m.dz, m.dz_gate) {
                m.flat
            } else {
                m.full
            };
            less(dist, m.scaled) || less(dist, min_gap_m)
        }),
    ensures
        after[rn as int]@[cn as int].cluster <= after[ri as int]@[ci as int].cluster,
        ({
            let m = links[rn as int]@[cn as int]@[t];
            let dist = if less(m.dz, m.dz_gate) {
                m.flat
            } else {
                m.full
            };
            &&& 0 <= t < candidates_of(before, rn, cn).len()
            &&& candidates_of(before, rn, cn)[t] == (ri, ci)
            &&& less(dist, m.scaled) || less(dist, min_gap_m)
        }) ==> after[rn as int]@[cn as int].cluster == after[ri as int]@[ci as int].cluster,
{
    let m = links[ri as int]@[ci as int]@[s];
    let w = links[rn as int]@[cn as int]@[t];
    merging_is_by_distance(m, min_gap_m);
    merging_is_by_distance(w, min_gap_m);
    let cands = candidates_of(before, ri, ci);
    let others = candidates_of(before, rn, cn);
    near_is_kept(cands, links[ri as int]@[ci as int]@, min_gap_m, cands.len() as int, s);
    if 0 <= t < others.len() && others[t] == (ri, ci) && near(w, min_gap_m) {
        near_is_kept(others, links[rn as int]@[cn as int]@, min_gap_m, others.len() as int, t);
    }
    assert(is_segment(before, ri as int, ci as int));
    assert(is_segment(before, rn as int, cn as int));
    neighbours_are_drawn_in(before, links, min_gap_m, ri, ci, rn, cn);
    cluster_numbers(before, links, min_gap_m, ri as int, ci as int);
    cluster_numbers(before, links, min_gap_m, rn as int, cn as int);
}

/// Clusters hold together: a segment whose cluster an earlier segment has is
/// near a segment of that cluster whose candidate it is. A segment that is
/// near none whose candidate it is has a cluster that no earlier segment has.
pub proof fn clusters_hold_together(
    before: Seq<Vec<GraphNode>>,
    after: Seq<Vec<GraphNode>>,
    links: Seq<Vec<Vec<LinkMeasure>>>,
    min_gap_m: u32,
    ri: usize,
    ci: usize,
    rn: usize,
    cn: usize,
)
    requires
        clustered(before, after, cluster_ids(before, links, min_gap_m)),
        before.len() == 32,
        segments_in(before, 32) < i32::MAX,
        ri < 32,
        ci < before[ri as int]@.len(),
        rn < 32,
        cn < before[rn as int]@.len(),
        ri < rn || (ri == rn && ci < cn),
        after[ri as int]@[ci as int].cluster == after[rn as int]@[cn as int].cluster,
    ensures
        exists|i: usize, j: usize, s: int|
            #![trigger candidates_of(before, i, j)[s]]
            {
                let m = links[i as int]@[j as int]@[s];
                let dist = if less(m.dz, m.dz_gate) {
                    m.flat
                } else {
                    m.full
                };
                &&& i < 32 && j < before[i as int]@.len()
                &&& 0 <= s < candidates_of(before, i, j).len()
                &&& candidates_of(before, i, j)[s] == (rn, cn)
                &&& less(dist, m.scaled) || less(dist, min_gap_m)
                &&& after[i as int]@[j as int].cluster == after[rn as int]@[cn as int].cluster
            },
{
    let e = merge_relation(before, links, min_gap_m);
    let n = segments_in(before, before.len() as int);
    assert(is_segment(before, ri as int, ci as int));
    assert(is_segment(before, rn as int, cn as int));
    let u = position(before, ri as int, ci as int);
    let v = position(before, rn as int, cn as int);
    position_bound(before, ri as int, ci as int);
    position_bound(before, rn as int, cn as int);
    cluster_numbers(before, links, min_gap_m, ri as int, ci as int);
    cluster_numbers(before, links, min_gap_m, rn as int, cn as int);
    assert(u < v) by {
        if ri < rn {
            segments_grow(before, ri + 1, rn as int);
        }
    }
    crate::flood::same_label_same_origin(e, n, u, v);
    crate::flood::origin_exists(e, n, u, 0);
    crate::flood::origin_exists(e, n, v, 0);
    let a = crate::flood::origin(e, n, v);
    assert(a <= u) by {
        crate::flood::reaches_self(e, n, u);
    }
    let w = crate::flood::reaching_ends_with_an_edge(e, n, a, v);
    assert forall|x: int| 0 <= x < a implies !#[trigger] crate::flood::reaches(e, n, x, w) by {
        if crate::flood::reaches(e, n, x, w) {
            crate::flood::reaches_step(e, n, x, w, v);
        }
    }
    crate::flood::origin_is(e, n, a, w);
    crate::flood::same_label_same_origin(e, n, w, v);
    assert(merges(before, links, min_gap_m, w, v));
    let (i, j, k, l) = choose|i: usize, j: usize, k: usize, l: usize|
        #![trigger is_segment(before, i as int, j as int), is_segment(before, k as int, l as int)]
        {
            &&& is_segment(before, i as int, j as int)
            &&& is_segment(before, k as int, l as int)
            &&& position(before, i as int, j as int) == w
            &&& position(before, k as int, l as int) == v
            &&& neighbors_of(before, i, j, links[i as int]@[j as int]@, min_gap_m).contains((k, l))
        };
    position_is_unique(before, k as int, l as int, rn as int, cn as int);
    let cands = candidates_of(before, i, j);
    let near_ones = neighbors_of(before, i, j, links[i as int]@[j as int]@, min_gap_m);
    let t = choose|t: int| 0 <= t < near_ones.len() && near_ones[t] == (k, l);
    let s = kept_is_candidate(
        cands,
        links[i as int]@[j as int]@,
        min_gap_m,
        cands.len() as int,
        t,
    );
    merging_is_by_distance(links[i as int]@[j as int]@[s], min_gap_m);
    cluster_numbers(before, links, min_gap_m, i as int, j as int);
    assert(candidates_of(before, i, j)[s] == (rn, cn));
    assert(after[i as int]@[j as int].cluster == after[rn as int]@[cn as int].cluster);
}

/// What a cell is given: the cells of all segments of one cluster carry its
/// number where there are at least so many of them as the smallest cluster has
/// that is published, and none where there are fewer. An empty cell keeps what
/// it had.
pub proof fn clusters_are_published_by_size(
    rows: Seq<Vec<GraphNode>>,
    nodes: Seq<RangeNode>,
    splits: Seq<bool>,
    seams: Seq<bool>,
    min_cluster_points: u32,
    after: Seq<RangeNode>,
    i: int,
    j: int,
    t: int,
)
    requires
        lists_all_cells(rows, nodes, splits, seams),
        after.len() == 115200,
        forall|k: int|
            0 <= k < 115200 ==> (#[trigger] after[k]).beta == written_beta(
                rows,
                min_cluster_points,
                nodes[k].beta,
                k,
                32,
                0,
            ),
        0 <= i < 32,
        0 <= j < rows[i]@.len(),
        0 <= t < rows[i]@[j].members@.len(),
    ensures
        ({
            let c = rows[i]@[j].cluster;
            let cells = Set::new(
                |k: i32|
                    exists|a: int, b: int|
                        #![trigger rows[a]@[b]]
                        0 <= a < 32 && 0 <= b < rows[a]@.len() && rows[a]@[b].cluster == c
                            && rows[a]@[b].members@.contains(k),
            );
            &&& cells.finite()
            &&& cells.len() >= min_cluster_points ==> after[rows[i]@[j].members@[t] as int].beta
                == c
            &&& cells.len() < min_cluster_points ==> after[rows[i]@[j].members@[t] as int].beta
                == -1
        }),
        forall|k: int|
            0 <= k < 115200 && !nodes[k].valid ==> (#[trigger] after[k]).beta == nodes[k].beta,
{
    let c = rows[i]@[j].cluster;
    let cells = Set::new(
        |k: i32|
            exists|a: int, b: int|
                #![trigger rows[a]@[b]]
                0 <= a < 32 && 0 <= b < rows[a]@.len() && rows[a]@[b].cluster == c
                    && rows[a]@[b].members@.contains(k),
    );
    members_are_counted_once(rows, nodes, splits, seams, c, 32, 0);
    let counted = cluster_cells(rows, c, 32, 0);
    assert forall|k: i32| cells.contains(k) == counted.contains(k) by {
        if counted.contains(k) {
            let (a, b) = choose|a: int, b: int|
                #![trigger rows[a]@[b]]
                {
                    &&& is_segment(rows, a, b)
                    &&& a < 32 || (a == 32 && b < 0)
                    &&& rows[a]@[b].cluster == c
                    &&& rows[a]@[b].members@.contains(k)
                };
            assert(rows[a]@[b].members@.contains(k));
        }
        if cells.contains(k) {
            let (a, b) = choose|a: int, b: int|
                #![trigger rows[a]@[b]]
                0 <= a < 32 && 0 <= b < rows[a]@.len() && rows[a]@[b].cluster == c
                    && rows[a]@[b].members@.contains(k);
            assert(is_segment(rows, a, b));
        }
    }
    assert(cells =~= counted);
    let cell = rows[i]@[j].members@[t] as int;
    segment_member_is(rows[i]@, nodes, splits, seams[i], i, j, t);
    let col = cell - cell_index(i, 0);
    cell_gets_its_cluster(
        rows,
        nodes,
        splits,
        seams,
        min_cluster_points,
        nodes[cell].beta,
        i,
        col,
    );
    assert forall|k: int| 0 <= k < 115200 && !nodes[k].valid implies (#[trigger] after[k]).beta
        == nodes[k].beta by {
        cell_gets_its_cluster(
            rows,
            nodes,
            splits,
            seams,
            min_cluster_points,
            nodes[k].beta,
            k / 3600,
            k % 3600,
        );
        assert(k == cell_index(k / 3600, k % 3600));
    }
}

/// The neighbours of a segment are exactly those of its candidates that are
/// near as measured.
pub proof fn neighbours_are_the_near_candidates(
    nodes: Seq<Vec<GraphNode>>,
    ri: usize,
    ci: usize,
    links: Seq<LinkMeasure>,
    min_gap_m: u32,
    c: (usize, usize),
)
    ensures
        neighbors_of(nodes, ri, ci, links, min_gap_m).contains(c) <==> exists|s: int|
            #![trigger candidates_of(nodes, ri, ci)[s]]
            {
                let dist = if less(links[s].dz, links[s].dz_gate) {
                    links[s].flat
                } else {
                    links[s].full
                };
                &&& 0 <= s < candidates_of(nodes, ri, ci).len()
                &&& candidates_of(nodes, ri, ci)[s] == c
                &&& less(dist, links[s].scaled) || less(dist, min_gap_m)
            },
{
    let cands = candidates_of(nodes, ri, ci);
    let n = cands.len() as int;
    let all = neighbors_of(nodes, ri, ci, links, min_gap_m);
    if all.contains(c) {
        let t = choose|t: int| 0 <= t < all.len() && all[t] == c;
        let s = kept_is_candidate(cands, links, min_gap_m, n, t);
        merging_is_by_distance(links[s], min_gap_m);
        assert(candidates_of(nodes, ri, ci)[s] == c);
    }
    assert forall|s: int|
        #![trigger cands[s]]
        0 <= s < n && cands[s] == c && near(links[s], min_gap_m) implies all.contains(c) by {
        near_is_kept(cands, links, min_gap_m, n, s);
    }
    assert forall|s: int| #![trigger cands[s]] 0 <= s < n implies (near(links[s], min_gap_m) <==> {
        let dist = if less(links[s].dz, links[s].dz_gate) {
            links[s].flat
        } else {
            links[s].full
        };
        less(dist, links[s].scaled) || less(dist, min_gap_m)
    }) by {
        merging_is_by_distance(links[s], min_gap_m);
    }
}

/// A segment is given its own four means, and nothing else of it changes.
pub proof fn segments_are_given_their_means(
    before: Seq<Vec<GraphNode>>,
    after: Seq<Vec<GraphNode>>,
    means: Seq<Vec<SegmentMeans>>,
    i: int,
    j: int,
)
    requires
        meant(before, after, means),
        0 <= i < before.len(),
        0 <= j < before[i]@.len(),
    ensures
        after.len() == before.len(),
        after[i]@.len() == before[i]@.len(),
        after[i]@[j].range == means[i]@[j].range,
        after[i]@[j].x_mean == means[i]@[j].x,
        after[i]@[j].y_mean == means[i]@[j].y,
        after[i]@[j].z_mean == means[i]@[j].z,
        after[i]@[j].alpha == before[i]@[j].alpha,
        after[i]@[j].cluster == before[i]@[j].cluster,
        after[i]@[j].start_pos == before[i]@[j].start_pos,
        after[i]@[j].end_pos == before[i]@[j].end_pos,
        after[i]@[j].members@ == before[i]@[j].members@,
        after[i]@[j].head == before[i]@[j].head,
{
    assert(is_segment(before, i, j));
}

/// Clustering changes nothing of a segment but its cluster.
pub proof fn clustering_sets_only_clusters(
    before: Seq<Vec<GraphNode>>,
    after: Seq<Vec<GraphNode>>,
    cluster: spec_fn(int, int) -> i32,
    i: int,
    j: int,
)
    requires
        clustered(before, after, cluster),
        0 <= i < before.len(),
        0 <= j < before[i]@.len(),
    ensures
        after.len() == before.len(),
        after[i]@.len() == before[i]@.len(),
        after[i]@[j].cluster == cluster(i, j),
        after[i]@[j].range == before[i]@[j].range,
        after[i]@[j].x_mean == before[i]@[j].x_mean,
        after[i]@[j].y_mean == before[i]@[j].y_mean,
        after[i]@[j].z_mean == before[i]@[j].z_mean,
        after[i]@[j].alpha == before[i]@[j].alpha,
        after[i]@[j].start_pos == before[i]@[j].start_pos,
        after[i]@[j].end_pos == before[i]@[j].end_pos,
        after[i]@[j].members@ == before[i]@[j].members@,
        after[i]@[j].head == before[i]@[j].head,
{
    assert(is_segment(before, i, j));
}

} // verus!
