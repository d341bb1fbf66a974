//! The range graph: one cell per ring and azimuth column, holding the closest
//! point that landed there in one revolution.

use crate::angle::azimuth_round;
use crate::set_graph::{GraphNode, SetGraph};
use crate::single::{at_most, is_at_most, is_less, is_nan, less, nan};
use vstd::prelude::*;

verus! {

/// Rings of the grid: one per physical channel.
pub const NUM_RINGS: usize = 32;

/// Width of an azimuth column, in hundredths of a degree.
pub const AZ_RES_CENTIDEG: i32 = 10;

/// Azimuth columns of a ring.
pub const NUM_COLS: usize = 3600;

/// Cells of the grid.
pub const NUM_CELLS: usize = 115200;

/// One cell. `x`, `y`, `z` and `range` are single-precision bit patterns.
#[derive(Clone, Copy)]
pub struct RangeNode {
    pub x: u32,
    pub y: u32,
    pub z: u32,
    pub range: u32,
    /// Calibrated azimuth of the point, hundredths of a degree.
    pub azimuth_centideg: i32,
    /// Index of the point among the points of its revolution.
    pub point_idx: i32,
    pub valid: bool,
    /// Same-ring segment, numbered from one.
    pub alpha: i32,
    /// Cluster, numbered from one.
    pub beta: i32,
}

/// A cell that no point has landed in.
pub open spec fn empty_node() -> RangeNode {
    RangeNode {
        x: 0,
        y: 0,
        z: 0,
        range: 0,
        azimuth_centideg: 0,
        point_idx: -1i32,
        valid: false,
        alpha: -1i32,
        beta: -1i32,
    }
}

/// A cell that holds one point, in no segment and no cluster.
pub open spec fn point_node(
    x: u32,
    y: u32,
    z: u32,
    range: u32,
    azimuth_centideg: i32,
    point_idx: i32,
) -> RangeNode {
    RangeNode {
        x,
        y,
        z,
        range,
        azimuth_centideg,
        point_idx,
        valid: true,
        alpha: -1i32,
        beta: -1i32,
    }
}

impl RangeNode {
    /// A cell that no point has landed in.
    pub fn new() -> (r: Self)
        ensures
            r == empty_node(),
    {
        RangeNode {
            x: 0,
            y: 0,
            z: 0,
            range: 0,
            azimuth_centideg: 0,
            point_idx: -1,
            valid: false,
            alpha: -1,
            beta: -1,
        }
    }
}

/// The grid, ring after ring.
pub struct RangeGraph {
    pub nodes: Vec<RangeNode>,
}

/// Index of a cell in the grid.
pub open spec fn cell_index(ring: int, col: int) -> int {
    ring * 3600 + col
}

/// Column of an azimuth.
pub open spec fn column_of(azimuth_centideg: int) -> int {
    azimuth_centideg / 10 % 3600
}

/// The grid after a point has been offered to the cell at `idx`: the point
/// takes the cell if the cell is empty or holds a farther one.
pub open spec fn offered(nodes: Seq<RangeNode>, idx: int, node: RangeNode) -> Seq<RangeNode> {
    if !nodes[idx].valid || less(node.range, nodes[idx].range) {
        nodes.update(idx, node)
    } else {
        nodes
    }
}

/// The grid after all of `offers` have been offered to the cell at `idx`.
pub open spec fn all_offered(nodes: Seq<RangeNode>, idx: int, offers: Seq<RangeNode>) -> Seq<
    RangeNode,
>
    decreases offers.len(),
{
    if offers.len() == 0 {
        nodes
    } else {
        offered(all_offered(nodes, idx, offers.drop_last()), idx, offers.last())
    }
}

/// Of the points that an empty cell is offered, it holds the nearest, and the
/// first of those that are equally near.
pub proof fn nearest_point_wins(nodes: Seq<RangeNode>, idx: int, offers: Seq<RangeNode>) -> (k: int)
    requires
        0 <= idx < nodes.len(),
        !nodes[idx].valid,
        offers.len() > 0,
        forall|j: int|
            0 <= j < offers.len() ==> (#[trigger] offers[j]).valid && !nan(offers[j].range),
    ensures
        0 <= k < offers.len(),
        all_offered(nodes, idx, offers)[idx] == offers[k],
        all_offered(nodes, idx, offers).len() == nodes.len(),
        forall|j: int|
            0 <= j < offers.len() ==> at_most(offers[k].range, (#[trigger] offers[j]).range),
        forall|j: int| 0 <= j < k ==> less(offers[k].range, (#[trigger] offers[j]).range),
        forall|i: int|
            0 <= i < nodes.len() && i != idx ==> #[trigger] all_offered(nodes, idx, offers)[i]
                == nodes[i],
    decreases offers.len(),
{
    let n = offers.len() - 1;
    let before = offers.drop_last();
    assert(offers[n].valid && !nan(offers[n].range));
    if n == 0 {
        assert(all_offered(nodes, idx, before) == nodes);
        0
    } else {
        let k = nearest_point_wins(nodes, idx, before);
        assert(before[k] == offers[k]);
        assert forall|j: int| 0 <= j < n implies at_most(
            offers[k].range,
            (#[trigger] offers[j]).range,
        ) by {
            assert(before[j] == offers[j]);
        }
        assert forall|j: int| 0 <= j < k implies less(
            offers[k].range,
            (#[trigger] offers[j]).range,
        ) by {
            assert(before[j] == offers[j]);
        }
        if less(offers[n].range, offers[k].range) {
            n
        } else {
            k
        }
    }
}

/// How many segments a scan of `ring` has opened once it has passed the first
/// `upto` columns: the first occupied cell opens one, and so does every later
/// occupied cell that `splits` marks.
pub open spec fn opened(nodes: Seq<RangeNode>, splits: Seq<bool>, ring: int, upto: int) -> int
    decreases upto,
{
    if upto <= 0 {
        0
    } else {
        let before = opened(nodes, splits, ring, upto - 1);
        let idx = cell_index(ring, upto - 1);
        if nodes[idx].valid && (before == 0 || splits[idx]) {
            before + 1
        } else {
            before
        }
    }
}

/// Whether the last segment of `ring` continues into its first across the
/// seam between the last and the first column.
pub open spec fn joined(
    nodes: Seq<RangeNode>,
    splits: Seq<bool>,
    seam_split: bool,
    ring: int,
) -> bool {
    opened(nodes, splits, ring, 3600) >= 2 && !seam_split
}

/// Label of an occupied cell: the segment that the scan was in, or the first
/// one if the last segment continues into it.
pub open spec fn label_at(
    nodes: Seq<RangeNode>,
    splits: Seq<bool>,
    seam_split: bool,
    ring: int,
    col: int,
) -> int {
    let scanned = opened(nodes, splits, ring, col + 1);
    if joined(nodes, splits, seam_split, ring) && scanned == opened(nodes, splits, ring, 3600) {
        1
    } else {
        scanned
    }
}

/// Cells that the scan put in segment `label` among the first `upto` columns
/// of `ring`, in ascending order.
pub open spec fn scanned_cells(
    nodes: Seq<RangeNode>,
    splits: Seq<bool>,
    ring: int,
    label: int,
    upto: int,
) -> Seq<i32>
    decreases upto,
{
    if upto <= 0 {
        Seq::empty()
    } else {
        let rest = scanned_cells(nodes, splits, ring, label, upto - 1);
        let idx = cell_index(ring, upto - 1);
        if nodes[idx].valid && opened(nodes, splits, ring, upto) == label {
            rest.push(idx as i32)
        } else {
            rest
        }
    }
}

/// Cells of segment `label`: those of the scan, and for the first segment also
/// those of the last one where it continues across the seam.
pub open spec fn segment_cells(
    nodes: Seq<RangeNode>,
    splits: Seq<bool>,
    seam_split: bool,
    ring: int,
    label: int,
) -> Seq<i32> {
    let own = scanned_cells(nodes, splits, ring, label, 3600);
    if label == 1 && joined(nodes, splits, seam_split, ring) {
        own + scanned_cells(nodes, splits, ring, opened(nodes, splits, ring, 3600), 3600)
    } else {
        own
    }
}

/// How many segments `ring` has.
pub open spec fn segment_count(
    nodes: Seq<RangeNode>,
    splits: Seq<bool>,
    seam_split: bool,
    ring: int,
) -> int {
    let total = opened(nodes, splits, ring, 3600);
    if joined(nodes, splits, seam_split, ring) {
        total - 1
    } else {
        total
    }
}

/// Whether `node` describes segment `label` of `ring`, whatever its means are.
/// It belongs to no cluster yet.
pub open spec fn describes_segment(
    node: GraphNode,
    nodes: Seq<RangeNode>,
    splits: Seq<bool>,
    seam_split: bool,
    ring: int,
    label: int,
) -> bool {
    let cells = segment_cells(nodes, splits, seam_split, ring, label);
    &&& node.alpha == label
    &&& node.cluster == -1
    &&& node.members@ == cells
    &&& node.head == scanned_cells(nodes, splits, ring, label, 3600).len()
    &&& cells.len() > 0
    &&& node.start_pos == cells[0] - cell_index(ring, 0)
    &&& node.end_pos == cells.last() - cell_index(ring, 0)
}

/// Whether the means of a segment are still to be filled in.
pub open spec fn unfilled(node: GraphNode) -> bool {
    node.range == 0 && node.x_mean == 0 && node.y_mean == 0 && node.z_mean == 0
}

/// Whether the means of all segments are still to be filled in.
pub open spec fn all_unfilled(rows: Seq<Vec<GraphNode>>) -> bool {
    forall|ring: int, k: int|
        0 <= ring < rows.len() && 0 <= k < rows[ring]@.len() ==> unfilled(
            #[trigger] rows[ring]@[k],
        )
}

/// Whether `row` lists the segments of `ring` in label order.
pub open spec fn describes_ring(
    row: Seq<GraphNode>,
    nodes: Seq<RangeNode>,
    splits: Seq<bool>,
    seam_split: bool,
    ring: int,
) -> bool {
    &&& row.len() == segment_count(nodes, splits, seam_split, ring)
    &&& forall|k: int|
        0 <= k < row.len() ==> describes_segment(
            #[trigger] row[k],
            nodes,
            splits,
            seam_split,
            ring,
            k + 1,
        )
}

/// Whether `after` is `before` with every occupied cell labelled, and `rows`
/// lists the segments of every ring, where `splits` and `seams` say whether a
/// cell is cut off from the occupied one before it, and a ring's first
/// occupied cell from its last.
pub open spec fn segmented(
    before: Seq<RangeNode>,
    after: Seq<RangeNode>,
    rows: Seq<Vec<GraphNode>>,
    splits: Seq<bool>,
    seams: Seq<bool>,
) -> bool {
    &&& forall|ring: int, col: int| #![trigger cell_index(ring, col)]
        0 <= ring < 32 && 0 <= col < 3600 ==> after[cell_index(ring, col)] == labelled_cell(
            before,
            splits,
            seams[ring],
            ring,
            col,
        )
    &&& forall|ring: int|
        0 <= ring < 32 ==> describes_ring(
            (#[trigger] rows[ring])@,
            before,
            splits,
            seams[ring],
            ring,
        )
}

/// Whether `row` holds the cells of the segments of `ring` in label order,
/// whatever else it says of them.
pub open spec fn lists_cells(
    row: Seq<GraphNode>,
    nodes: Seq<RangeNode>,
    splits: Seq<bool>,
    seam_split: bool,
    ring: int,
) -> bool {
    &&& row.len() == segment_count(nodes, splits, seam_split, ring)
    &&& forall|k: int|
        0 <= k < row.len() ==> (#[trigger] row[k]).members@ == segment_cells(
            nodes,
            splits,
            seam_split,
            ring,
            k + 1,
        )
}

/// The cell at column `col` of `ring` with its segment label.
pub open spec fn labelled_cell(
    nodes: Seq<RangeNode>,
    splits: Seq<bool>,
    seam_split: bool,
    ring: int,
    col: int,
) -> RangeNode {
    let node = nodes[cell_index(ring, col)];
    if node.valid {
        RangeNode { alpha: label_at(nodes, splits, seam_split, ring, col) as i32, ..node }
    } else {
        node
    }
}

/// A scan never closes a segment again.
proof fn opened_grows(nodes: Seq<RangeNode>, splits: Seq<bool>, ring: int, a: int, b: int)
    requires
        0 <= a <= b,
    ensures
        0 <= opened(nodes, splits, ring, a) <= opened(nodes, splits, ring, b),
        opened(nodes, splits, ring, b) <= b,
    decreases b,
{
    if a < b {
        opened_grows(nodes, splits, ring, a, b - 1);
    } else if b > 0 {
        opened_grows(nodes, splits, ring, a - 1, b - 1);
    }
}

/// A segment that the scan has not opened yet has no cells.
proof fn unopened_is_empty(
    nodes: Seq<RangeNode>,
    splits: Seq<bool>,
    ring: int,
    label: int,
    upto: int,
)
    requires
        0 <= upto,
        label > opened(nodes, splits, ring, upto),
    ensures
        scanned_cells(nodes, splits, ring, label, upto).len() == 0,
    decreases upto,
{
    if upto > 0 {
        opened_grows(nodes, splits, ring, upto - 1, upto);
        unopened_is_empty(nodes, splits, ring, label, upto - 1);
    }
}

/// What a cell of a scanned segment is.
pub proof fn scanned_cell_is(
    nodes: Seq<RangeNode>,
    splits: Seq<bool>,
    ring: int,
    label: int,
    upto: int,
    t: int,
)
    requires
        0 <= ring < 32,
        0 <= upto <= 3600,
        0 <= t < scanned_cells(nodes, splits, ring, label, upto).len(),
    ensures
        ({
            let c = scanned_cells(nodes, splits, ring, label, upto)[t];
            let col = c - cell_index(ring, 0);
            &&& 0 <= col < upto
            &&& c == cell_index(ring, col)
            &&& nodes[c as int].valid
            &&& opened(nodes, splits, ring, col + 1) == label
        }),
    decreases upto,
{
    let rest = scanned_cells(nodes, splits, ring, label, upto - 1);
    if t < rest.len() {
        scanned_cell_is(nodes, splits, ring, label, upto - 1, t);
    }
}

/// Every occupied cell stands in the segment that the scan was in.
pub proof fn scanned_cell_found(
    nodes: Seq<RangeNode>,
    splits: Seq<bool>,
    ring: int,
    label: int,
    upto: int,
    col: int,
) -> (t: int)
    requires
        0 <= ring < 32,
        0 <= col < upto <= 3600,
        nodes[cell_index(ring, col)].valid,
        opened(nodes, splits, ring, col + 1) == label,
    ensures
        0 <= t < scanned_cells(nodes, splits, ring, label, upto).len(),
        scanned_cells(nodes, splits, ring, label, upto)[t] == cell_index(ring, col),
    decreases upto,
{
    let cells = scanned_cells(nodes, splits, ring, label, upto);
    if col == upto - 1 {
        cells.len() - 1
    } else {
        scanned_cell_found(nodes, splits, ring, label, upto - 1, col)
    }
}

/// The cells of a scanned segment stand in ascending order.
pub proof fn scanned_cells_ascend(
    nodes: Seq<RangeNode>,
    splits: Seq<bool>,
    ring: int,
    label: int,
    upto: int,
    s: int,
    t: int,
)
    requires
        0 <= ring < 32,
        0 <= upto <= 3600,
        0 <= s < t < scanned_cells(nodes, splits, ring, label, upto).len(),
    ensures
        scanned_cells(nodes, splits, ring, label, upto)[s] < scanned_cells(
            nodes,
            splits,
            ring,
            label,
            upto,
        )[t],
    decreases upto,
{
    let rest = scanned_cells(nodes, splits, ring, label, upto - 1);
    if t < rest.len() {
        scanned_cells_ascend(nodes, splits, ring, label, upto - 1, s, t);
    } else {
        scanned_cell_is(nodes, splits, ring, label, upto - 1, s);
    }
}

/// An opened segment has a cell.
proof fn opened_is_occupied(
    nodes: Seq<RangeNode>,
    splits: Seq<bool>,
    ring: int,
    label: int,
    upto: int,
)
    requires
        0 <= upto,
        1 <= label <= opened(nodes, splits, ring, upto),
    ensures
        scanned_cells(nodes, splits, ring, label, upto).len() > 0,
    decreases upto,
{
    if upto > 0 && label <= opened(nodes, splits, ring, upto - 1) {
        opened_is_occupied(nodes, splits, ring, label, upto - 1);
    }
}

impl RangeGraph {
    /// Whether the grid has all its cells.
    pub open spec fn wf(&self) -> bool {
        self.nodes@.len() == NUM_CELLS
    }

    /// A grid of empty cells.
    pub fn new() -> (g: Self)
        ensures
            g.wf(),
            forall|i: int| 0 <= i < NUM_CELLS ==> #[trigger] g.nodes@[i] == empty_node(),
    {
        let mut nodes: Vec<RangeNode> = Vec::new();
        let mut i: usize = 0;
        while i < NUM_CELLS
            invariant
                i <= NUM_CELLS,
                nodes@.len() == i,
                forall|k: int| 0 <= k < i ==> #[trigger] nodes@[k] == empty_node(),
            decreases NUM_CELLS - i,
        {
            nodes.push(RangeNode::new());
            i = i + 1;
        }
        RangeGraph { nodes }
    }

    /// Empties every cell, ready for the next revolution.
    pub fn clear(&mut self)
        ensures
            final(self).nodes@.len() == old(self).nodes@.len(),
            forall|i: int|
                0 <= i < final(self).nodes@.len() ==> #[trigger] final(self).nodes@[i]
                    == empty_node(),
    {
        let n: usize = self.nodes.len();
        let mut i: usize = 0;
        while i < n
            invariant
                i <= n,
                n == old(self).nodes@.len(),
                self.nodes@.len() == n,
                forall|k: int| 0 <= k < i ==> #[trigger] self.nodes@[k] == empty_node(),
            decreases n - i,
        {
            self.nodes[i] = RangeNode::new();
            i = i + 1;
        }
    }

    /// Offers one decoded point to its cell. The cell keeps whichever point
    /// is closer to the sensor, the earlier one where they are equally far.
    pub fn insert(
        &mut self,
        ring: usize,
        azimuth_centideg: i32,
        x: u32,
        y: u32,
        z: u32,
        range: u32,
        point_idx: i32,
    )
        requires
            old(self).wf(),
            ring < NUM_RINGS,
            0 <= azimuth_centideg,
        ensures
            final(self).wf(),
            final(self).nodes@ == offered(
                old(self).nodes@,
                cell_index(ring as int, column_of(azimuth_centideg as int)),
                point_node(x, y, z, range, azimuth_centideg, point_idx),
            ),
    {
        let col: usize = (azimuth_centideg / AZ_RES_CENTIDEG) as usize % NUM_COLS;
        let idx: usize = ring * NUM_COLS + col;
        assert(idx == cell_index(ring as int, column_of(azimuth_centideg as int)));
        if !self.nodes[idx].valid || is_less(range, self.nodes[idx].range) {
            self.nodes[idx] = RangeNode {
                x,
                y,
                z,
                range,
                azimuth_centideg,
                point_idx,
                valid: true,
                alpha: -1,
                beta: -1,
            };
        }
    }
}

/// Whether `node` has collected segment `label` of `ring` over the first
/// `upto` columns.
spec fn collects(
    node: GraphNode,
    nodes: Seq<RangeNode>,
    splits: Seq<bool>,
    ring: int,
    label: int,
    upto: int,
) -> bool {
    let cells = scanned_cells(nodes, splits, ring, label, upto);
    &&& node.alpha == label
    &&& node.cluster == -1
    &&& unfilled(node)
    &&& node.members@ == cells
    &&& node.head == cells.len()
    &&& cells.len() > 0
    &&& node.start_pos == cells[0] - cell_index(ring, 0)
    &&& node.end_pos == cells.last() - cell_index(ring, 0)
}

/// The cell at column `col` of `ring` once the scan has passed it.
spec fn scanned_cell(nodes: Seq<RangeNode>, splits: Seq<bool>, ring: int, col: int) -> RangeNode {
    let node = nodes[cell_index(ring, col)];
    if node.valid {
        RangeNode { alpha: opened(nodes, splits, ring, col + 1) as i32, ..node }
    } else {
        node
    }
}

impl RangeGraph {
    /// Scans one ring: labels its occupied cells and collects its segments.
    fn scan_ring(&mut self, ring: usize, splits: &Vec<bool>) -> (row: Vec<GraphNode>)
        requires
            old(self).wf(),
            ring < NUM_RINGS,
            splits@.len() == NUM_CELLS,
        ensures
            final(self).wf(),
            row@.len() == opened(old(self).nodes@, splits@, ring as int, 3600),
            forall|k: int|
                0 <= k < row@.len() ==> collects(
                    #[trigger] row@[k],
                    old(self).nodes@,
                    splits@,
                    ring as int,
                    k + 1,
                    3600,
                ),
            forall|col: int| #![trigger cell_index(ring as int, col)]
                0 <= col < 3600 ==> final(self).nodes@[cell_index(ring as int, col)]
                    == scanned_cell(old(self).nodes@, splits@, ring as int, col),
            forall|i: int| #![trigger final(self).nodes@[i]]
                0 <= i < NUM_CELLS && !(cell_index(ring as int, 0) <= i < cell_index(
                    ring as int,
                    3600,
                )) ==> final(self).nodes@[i] == old(self).nodes@[i],
    {
        let ghost nodes0 = self.nodes@;
        let ghost r = ring as int;
        let mut row: Vec<GraphNode> = Vec::new();
        let mut l_cnt: i32 = 0;
        let mut j: usize = 0;
        while j < NUM_COLS
            invariant
                j <= NUM_COLS,
                nodes0.len() == NUM_CELLS,
                self.nodes@.len() == NUM_CELLS,
                splits@.len() == NUM_CELLS,
                ring < NUM_RINGS,
                r == ring,
                0 <= l_cnt <= j,
                l_cnt == opened(nodes0, splits@, r, j as int),
                row@.len() == l_cnt,
                forall|k: int|
                    0 <= k < row@.len() ==> collects(
                        #[trigger] row@[k],
                        nodes0,
                        splits@,
                        r,
                        k + 1,
                        j as int,
                    ),
                forall|col: int| #![trigger cell_index(r, col)]
                    0 <= col < j ==> self.nodes@[cell_index(r, col)] == scanned_cell(
                        nodes0,
                        splits@,
                        r,
                        col,
                    ),
                forall|i: int| #![trigger self.nodes@[i]]
                    0 <= i < NUM_CELLS && !(cell_index(r, 0) <= i < cell_index(r, j as int))
                        ==> self.nodes@[i] == nodes0[i],
            decreases NUM_COLS - j,
        {
            let idx: usize = ring * NUM_COLS + j;
            assert(idx == cell_index(r, j as int));
            assert(self.nodes@[idx as int] == nodes0[idx as int]);
            if self.nodes[idx].valid {
                let ghost row0 = row@;
                let fresh: bool = l_cnt == 0 || splits[idx];
                if fresh {
                    proof {
                        unopened_is_empty(nodes0, splits@, r, l_cnt + 1, j as int);
                    }
                    l_cnt = l_cnt + 1;
                    row.push(GraphNode::new());
                }
                assert(l_cnt == opened(nodes0, splits@, r, j + 1));
                self.nodes[idx].alpha = l_cnt;
                let last: usize = row.len() - 1;
                let ghost cells = scanned_cells(nodes0, splits@, r, l_cnt as int, j as int);
                assert(row@[last as int].members@ == cells);
                row[last].alpha = l_cnt;
                row[last].members.push(idx as i32);
                row[last].head = row[last].members.len();
                if row[last].start_pos == -1 || (j as i32) < row[last].start_pos {
                    row[last].start_pos = j as i32;
                }
                if row[last].end_pos == -1 || j as i32 > row[last].end_pos {
                    row[last].end_pos = j as i32;
                }
                proof {
                    let after = scanned_cells(nodes0, splits@, r, l_cnt as int, j + 1);
                    assert(after == cells.push(idx as i32));
                    if cells.len() > 0 {
                        scanned_cell_is(nodes0, splits@, r, l_cnt as int, j as int, 0);
                        scanned_cell_is(
                            nodes0,
                            splits@,
                            r,
                            l_cnt as int,
                            j as int,
                            cells.len() - 1,
                        );
                    }
                    assert(collects(row@[last as int], nodes0, splits@, r, l_cnt as int, j + 1));
                    assert forall|k: int| 0 <= k < row@.len() implies collects(
                        #[trigger] row@[k],
                        nodes0,
                        splits@,
                        r,
                        k + 1,
                        j + 1,
                    ) by {
                        if k < last {
                            assert(row@[k] == row0[k]);
                        }
                    }
                }
            }
            assert forall|col: int| #![trigger cell_index(r, col)] 0 <= col < j
                + 1 implies self.nodes@[cell_index(r, col)] == scanned_cell(
                nodes0,
                splits@,
                r,
                col,
            ) by {
                assert(col < j ==> cell_index(r, col) != idx);
            }
            j = j + 1;
        }
        row
    }

    /// Labels one ring and collects its segments, the last one folded into
    /// the first where they meet across the seam.
    fn segment_ring(&mut self, ring: usize, splits: &Vec<bool>, seam_split: bool) -> (row: Vec<
        GraphNode,
    >)
        requires
            old(self).wf(),
            ring < NUM_RINGS,
            splits@.len() == NUM_CELLS,
        ensures
            final(self).wf(),
            describes_ring(row@, old(self).nodes@, splits@, seam_split, ring as int),
            forall|k: int| 0 <= k < row@.len() ==> unfilled(#[trigger] row@[k]),
            forall|col: int| #![trigger cell_index(ring as int, col)]
                0 <= col < 3600 ==> final(self).nodes@[cell_index(ring as int, col)]
                    == labelled_cell(old(self).nodes@, splits@, seam_split, ring as int, col),
            forall|i: int| #![trigger final(self).nodes@[i]]
                0 <= i < NUM_CELLS && !(cell_index(ring as int, 0) <= i < cell_index(
                    ring as int,
                    3600,
                )) ==> final(self).nodes@[i] == old(self).nodes@[i],
    {
        let ghost nodes0 = self.nodes@;
        let ghost r = ring as int;
        let ghost total = opened(nodes0, splits@, r, 3600);
        let mut row = self.scan_ring(ring, splits);
        proof {
            opened_grows(nodes0, splits@, r, 0, 3600);
        }
        if row.len() < 2 || seam_split {
            assert forall|k: int| 0 <= k < row@.len() implies describes_segment(
                #[trigger] row@[k],
                nodes0,
                splits@,
                seam_split,
                r,
                k + 1,
            ) by {
                assert(collects(row@[k], nodes0, splits@, r, k + 1, 3600));
            }
            assert forall|k: int| 0 <= k < row@.len() implies unfilled(#[trigger] row@[k]) by {
                assert(collects(row@[k], nodes0, splits@, r, k + 1, 3600));
            }
            return row;
        }
        let ghost row0 = row@;
        let ghost nodes1 = self.nodes@;
        let ghost first_cells = scanned_cells(nodes0, splits@, r, 1, 3600);
        let ghost last_cells = scanned_cells(nodes0, splits@, r, total, 3600);
        proof {
            assert(collects(row0[0], nodes0, splits@, r, 1, 3600));
            assert(collects(row0[total - 1], nodes0, splits@, r, total, 3600));
        }
        let popped = row.pop();
        let mut last_node = match popped {
            Some(n) => n,
            None => {
                return row;
            },
        };
        assert(last_node.members@ == last_cells);
        let m: usize = last_node.members.len();
        let mut t: usize = 0;
        while t < m
            invariant
                m == last_cells.len(),
                t <= m,
                last_node.members@ == last_cells,
                last_cells == scanned_cells(nodes0, splits@, r, total, 3600),
                nodes0.len() == NUM_CELLS,
                nodes1.len() == NUM_CELLS,
                self.nodes@.len() == NUM_CELLS,
                ring < NUM_RINGS,
                r == ring,
                forall|s: int| #![trigger last_cells[s]]
                    0 <= s < t ==> self.nodes@[last_cells[s] as int] == (RangeNode {
                        alpha: 1i32,
                        ..nodes1[last_cells[s] as int]
                    }),
                forall|i: int| #![trigger self.nodes@[i]]
                    0 <= i < NUM_CELLS && !last_cells.take(t as int).contains(i as i32)
                        ==> self.nodes@[i] == nodes1[i],
            decreases m - t,
        {
            let ghost prev = self.nodes@;
            let c: i32 = last_node.members[t];
            proof {
                scanned_cell_is(nodes0, splits@, r, total, 3600, t as int);
            }
            assert(!last_cells.take(t as int).contains(c)) by {
                if last_cells.take(t as int).contains(c) {
                    let s = choose|s: int| 0 <= s < t && last_cells.take(t as int)[s] == c;
                    scanned_cells_ascend(nodes0, splits@, r, total, 3600, s, t as int);
                }
            }
            assert(self.nodes@[c as int] == nodes1[c as int]);
            self.nodes[c as usize].alpha = 1;
            proof {
                let done = last_cells.take(t + 1);
                assert forall|i: int| #![trigger self.nodes@[i]]
                    0 <= i < NUM_CELLS && !done.contains(i as i32) implies self.nodes@[i]
                    == nodes1[i] by {
                    assert(done[t as int] == c);
                    if last_cells.take(t as int).contains(i as i32) {
                        let s = choose|s: int|
                            0 <= s < t && last_cells.take(t as int)[s] == i as i32;
                        assert(done[s] == i as i32);
                    }
                    assert(prev[i] == nodes1[i]);
                }
                assert forall|s: int| #![trigger last_cells[s]] 0 <= s < t
                    + 1 implies self.nodes@[last_cells[s] as int] == (RangeNode {
                    alpha: 1i32,
                    ..nodes1[last_cells[s] as int]
                }) by {
                    if s < t {
                        scanned_cells_ascend(nodes0, splits@, r, total, 3600, s, t as int);
                        scanned_cell_is(nodes0, splits@, r, total, 3600, s);
                    }
                }
            }
            t = t + 1;
        }
        assert(last_cells.take(m as int) =~= last_cells);
        if last_node.start_pos < row[0].start_pos {
            row[0].start_pos = last_node.start_pos;
        }
        if last_node.end_pos > row[0].end_pos {
            row[0].end_pos = last_node.end_pos;
        }
        row[0].members.append(&mut last_node.members);
        proof {
            let f = first_cells.len() - 1;
            scanned_cell_is(nodes0, splits@, r, 1, 3600, 0);
            scanned_cell_is(nodes0, splits@, r, 1, 3600, f);
            scanned_cell_is(nodes0, splits@, r, total, 3600, 0);
            scanned_cell_is(nodes0, splits@, r, total, 3600, last_cells.len() - 1);
            let first_start = first_cells[0] - cell_index(r, 0);
            let first_end = first_cells[f] - cell_index(r, 0);
            let last_start = last_cells[0] - cell_index(r, 0);
            let last_end = last_cells.last() - cell_index(r, 0);
            if last_start <= first_start {
                opened_grows(nodes0, splits@, r, last_start + 1, first_start + 1);
            }
            if last_end <= first_end {
                opened_grows(nodes0, splits@, r, last_end + 1, first_end + 1);
            }
            assert(describes_segment(row@[0], nodes0, splits@, seam_split, r, 1));
            assert forall|k: int| 0 <= k < row@.len() implies unfilled(#[trigger] row@[k]) by {
                assert(collects(row0[k], nodes0, splits@, r, k + 1, 3600));
            }
            assert forall|k: int| 0 <= k < row@.len() implies describes_segment(
                #[trigger] row@[k],
                nodes0,
                splits@,
                seam_split,
                r,
                k + 1,
            ) by {
                if k > 0 {
                    assert(row@[k] == row0[k]);
                    assert(collects(row0[k], nodes0, splits@, r, k + 1, 3600));
                }
            }
            assert forall|col: int| #![trigger cell_index(r, col)]
                0 <= col < 3600 implies self.nodes@[cell_index(r, col)] == labelled_cell(
                nodes0,
                splits@,
                seam_split,
                r,
                col,
            ) by {
                let i = cell_index(r, col);
                assert(nodes1[i] == scanned_cell(nodes0, splits@, r, col));
                if nodes0[i].valid && opened(nodes0, splits@, r, col + 1) == total {
                    let s = scanned_cell_found(nodes0, splits@, r, total, 3600, col);
                    assert(last_cells[s] == i);
                } else {
                    if last_cells.contains(i as i32) {
                        let s = choose|s: int| 0 <= s < last_cells.len() && last_cells[s]
                            == i as i32;
                        scanned_cell_is(nodes0, splits@, r, total, 3600, s);
                    }
                    assert(self.nodes@[i] == nodes1[i]);
                }
            }
            assert forall|i: int| #![trigger self.nodes@[i]]
                0 <= i < NUM_CELLS && !(cell_index(r, 0) <= i < cell_index(
                    r,
                    3600,
                )) implies self.nodes@[i] == nodes0[i] by {
                if last_cells.contains(i as i32) {
                    let s = choose|s: int| 0 <= s < last_cells.len() && last_cells[s] == i as i32;
                    scanned_cell_is(nodes0, splits@, r, total, 3600, s);
                }
            }
        }
        row
    }

    /// Labels the same-ring segments of every ring (`RangeNode::alpha`) and
    /// rebuilds the rows of `set_graph` from them, cutting where it is told.
    ///
    /// `splits` says for each occupied cell whether it belongs to another
    /// segment than the occupied cell before it in its ring, and `seams` says
    /// the same of each ring's first occupied cell with regard to its last.
    pub fn cut_rings(&mut self, set_graph: &mut SetGraph, splits: &Vec<bool>, seams: &Vec<bool>)
        requires
            old(self).wf(),
            old(set_graph).wf(),
            splits@.len() == NUM_CELLS,
            seams@.len() == NUM_RINGS,
        ensures
            final(self).wf(),
            final(set_graph).wf(),
            all_unfilled(final(set_graph).nodes@),
            segmented(
                old(self).nodes@,
                final(self).nodes@,
                final(set_graph).nodes@,
                splits@,
                seams@,
            ),
    {
        let ghost nodes0 = self.nodes@;
        set_graph.clear();
        let mut i: usize = 0;
        while i < NUM_RINGS
            invariant
                i <= NUM_RINGS,
                nodes0.len() == NUM_CELLS,
                self.nodes@.len() == NUM_CELLS,
                set_graph.nodes@.len() == NUM_RINGS,
                splits@.len() == NUM_CELLS,
                seams@.len() == NUM_RINGS,
                forall|ring: int, col: int| #![trigger cell_index(ring, col)]
                    0 <= ring < i && 0 <= col < 3600 ==> self.nodes@[cell_index(ring, col)]
                        == labelled_cell(nodes0, splits@, seams@[ring], ring, col),
                forall|k: int| #![trigger self.nodes@[k]]
                    cell_index(i as int, 0) <= k < NUM_CELLS ==> self.nodes@[k] == nodes0[k],
                forall|ring: int|
                    0 <= ring < i ==> describes_ring(
                        (#[trigger] set_graph.nodes@[ring])@,
                        nodes0,
                        splits@,
                        seams@[ring],
                        ring,
                    ),
                forall|ring: int, k: int|
                    0 <= ring < i && 0 <= k < set_graph.nodes@[ring]@.len() ==> unfilled(
                        #[trigger] set_graph.nodes@[ring]@[k],
                    ),
            decreases NUM_RINGS - i,
        {
            let ghost here = self.nodes@;
            let seam: bool = seams[i];
            let row = self.segment_ring(i, splits, seam);
            proof {
                ring_alone_matters(here, nodes0, splits@, seam, i as int);
                assert forall|ring: int, col: int| #![trigger cell_index(ring, col)]
                    0 <= ring < i + 1 && 0 <= col < 3600 implies self.nodes@[cell_index(ring, col)]
                    == labelled_cell(nodes0, splits@, seams@[ring], ring, col) by {
                    let c = cell_index(ring, col);
                    if ring < i {
                        assert(here[c] == labelled_cell(nodes0, splits@, seams@[ring], ring, col));
                        assert(self.nodes@[c] == here[c]);
                    } else {
                        assert(self.nodes@[c] == labelled_cell(here, splits@, seam, ring, col));
                        assert(here[c] == nodes0[c]);
                    }
                }
                assert forall|k: int| 0 <= k < row@.len() implies describes_segment(
                    #[trigger] row@[k],
                    nodes0,
                    splits@,
                    seam,
                    i as int,
                    k + 1,
                ) by {
                    assert(describes_segment(row@[k], here, splits@, seam, i as int, k + 1));
                }
            }
            set_graph.nodes[i] = row;
            i = i + 1;
        }
    }
}

/// What the scan of a ring finds depends on the cells of that ring alone.
proof fn ring_alone_matters(
    a: Seq<RangeNode>,
    b: Seq<RangeNode>,
    splits: Seq<bool>,
    seam_split: bool,
    ring: int,
)
    requires
        forall|col: int| #![trigger cell_index(ring, col)]
            0 <= col < 3600 ==> a[cell_index(ring, col)] == b[cell_index(ring, col)],
    ensures
        forall|upto: int|
            0 <= upto <= 3600 ==> #[trigger] opened(a, splits, ring, upto) == opened(
                b,
                splits,
                ring,
                upto,
            ),
        forall|label: int|
            #[trigger] segment_cells(a, splits, seam_split, ring, label) == segment_cells(
                b,
                splits,
                seam_split,
                ring,
                label,
            ),
        forall|label: int|
            #[trigger] scanned_cells(a, splits, ring, label, 3600) == scanned_cells(
                b,
                splits,
                ring,
                label,
                3600,
            ),
{
    assert forall|upto: int| 0 <= upto <= 3600 implies #[trigger] opened(a, splits, ring, upto)
        == opened(b, splits, ring, upto) by {
        same_opened(a, b, splits, ring, upto);
    }
    assert forall|label: int|
        #[trigger] scanned_cells(a, splits, ring, label, 3600) == scanned_cells(
            b,
            splits,
            ring,
            label,
            3600,
        ) by {
        same_cells(a, b, splits, ring, label, 3600);
    }
}

proof fn same_opened(
    a: Seq<RangeNode>,
    b: Seq<RangeNode>,
    splits: Seq<bool>,
    ring: int,
    upto: int,
)
    requires
        forall|col: int| #![trigger cell_index(ring, col)]
            0 <= col < 3600 ==> a[cell_index(ring, col)] == b[cell_index(ring, col)],
        upto <= 3600,
    ensures
        opened(a, splits, ring, upto) == opened(b, splits, ring, upto),
    decreases upto,
{
    if upto > 0 {
        same_opened(a, b, splits, ring, upto - 1);
        let c = cell_index(ring, upto - 1);
    }
}

proof fn same_cells(
    a: Seq<RangeNode>,
    b: Seq<RangeNode>,
    splits: Seq<bool>,
    ring: int,
    label: int,
    upto: int,
)
    requires
        forall|col: int| #![trigger cell_index(ring, col)]
            0 <= col < 3600 ==> a[cell_index(ring, col)] == b[cell_index(ring, col)],
        upto <= 3600,
    ensures
        scanned_cells(a, splits, ring, label, upto) == scanned_cells(b, splits, ring, label, upto),
    decreases upto,
{
    if upto > 0 {
        same_cells(a, b, splits, ring, label, upto - 1);
        same_opened(a, b, splits, ring, upto);
        let c = cell_index(ring, upto - 1);
    }
}

/// A row that describes a ring lists its cells.
pub proof fn described_ring_lists_cells(
    row: Seq<GraphNode>,
    nodes: Seq<RangeNode>,
    splits: Seq<bool>,
    seam_split: bool,
    ring: int,
)
    requires
        describes_ring(row, nodes, splits, seam_split, ring),
    ensures
        lists_cells(row, nodes, splits, seam_split, ring),
{
    assert forall|k: int| 0 <= k < row.len() implies (#[trigger] row[k]).members@ == segment_cells(
        nodes,
        splits,
        seam_split,
        ring,
        k + 1,
    ) by {
        assert(describes_segment(row[k], nodes, splits, seam_split, ring, k + 1));
    }
}

/// What a member of a segment is: an occupied cell of the ring that carries
/// the segment's label.
pub proof fn segment_member_is(
    row: Seq<GraphNode>,
    nodes: Seq<RangeNode>,
    splits: Seq<bool>,
    seam_split: bool,
    ring: int,
    k: int,
    t: int,
)
    requires
        lists_cells(row, nodes, splits, seam_split, ring),
        0 <= ring < 32,
        0 <= k < row.len(),
        0 <= t < row[k].members@.len(),
    ensures
        ({
            let c = row[k].members@[t];
            let col = c - cell_index(ring, 0);
            &&& 0 <= col < 3600
            &&& c == cell_index(ring, col)
            &&& nodes[c as int].valid
            &&& label_at(nodes, splits, seam_split, ring, col) == k + 1
        }),
{
    let total = opened(nodes, splits, ring, 3600);
    assert(row[k].members@ == segment_cells(nodes, splits, seam_split, ring, k + 1));
    let own = scanned_cells(nodes, splits, ring, k + 1, 3600);
    if t < own.len() {
        scanned_cell_is(nodes, splits, ring, k + 1, 3600, t);
    } else {
        scanned_cell_is(nodes, splits, ring, total, 3600, t - own.len());
    }
}

/// The segments of a ring divide its occupied cells among them: every
/// occupied cell is a member of the segment whose label it carries, and of no
/// other, and an empty cell is a member of none.
pub proof fn segments_partition_ring(
    row: Seq<GraphNode>,
    nodes: Seq<RangeNode>,
    splits: Seq<bool>,
    seam_split: bool,
    ring: int,
    col: int,
)
    requires
        lists_cells(row, nodes, splits, seam_split, ring),
        0 <= ring < 32,
        0 <= col < 3600,
    ensures
        nodes[cell_index(ring, col)].valid ==> 1 <= label_at(nodes, splits, seam_split, ring, col)
            <= row.len(),
        forall|k: int|
            0 <= k < row.len() ==> ((#[trigger] row[k]).members@.contains(
                cell_index(ring, col) as i32,
            ) <==> (nodes[cell_index(ring, col)].valid && label_at(
                nodes,
                splits,
                seam_split,
                ring,
                col,
            ) == k + 1)),
{
    let c = cell_index(ring, col);
    let total = opened(nodes, splits, ring, 3600);
    let scanned = opened(nodes, splits, ring, col + 1);
    opened_grows(nodes, splits, ring, 0, col);
    opened_grows(nodes, splits, ring, col + 1, 3600);
    assert forall|k: int| 0 <= k < row.len() implies ((#[trigger] row[k]).members@.contains(
        c as i32,
    ) <==> (nodes[c].valid && label_at(nodes, splits, seam_split, ring, col) == k + 1)) by {
        assert(row[k].members@ == segment_cells(nodes, splits, seam_split, ring, k + 1));
        if row[k].members@.contains(c as i32) {
            let t = choose|t: int| 0 <= t < row[k].members@.len() && row[k].members@[t] == c as i32;
            segment_member_is(row, nodes, splits, seam_split, ring, k, t);
        }
        if nodes[c].valid && label_at(nodes, splits, seam_split, ring, col) == k + 1 {
            let t = scanned_cell_found(nodes, splits, ring, scanned, 3600, col);
            let own = scanned_cells(nodes, splits, ring, k + 1, 3600);
            if scanned == k + 1 {
                assert(row[k].members@[t] == c as i32);
            } else {
                assert(row[k].members@[own.len() + t] == c as i32);
            }
        }
    }
}

/// The members of a segment ascend, so none stands in it twice.
pub proof fn members_ascend(
    row: Seq<GraphNode>,
    nodes: Seq<RangeNode>,
    splits: Seq<bool>,
    seam_split: bool,
    ring: int,
    k: int,
    s: int,
    t: int,
)
    requires
        lists_cells(row, nodes, splits, seam_split, ring),
        0 <= ring < 32,
        0 <= k < row.len(),
        0 <= s < t < row[k].members@.len(),
    ensures
        row[k].members@[s] < row[k].members@[t],
{
    let total = opened(nodes, splits, ring, 3600);
    assert(row[k].members@ == segment_cells(nodes, splits, seam_split, ring, k + 1));
    let own = scanned_cells(nodes, splits, ring, k + 1, 3600);
    if t < own.len() {
        scanned_cells_ascend(nodes, splits, ring, k + 1, 3600, s, t);
    } else if s >= own.len() {
        scanned_cells_ascend(nodes, splits, ring, total, 3600, s - own.len(), t - own.len());
    } else {
        scanned_cell_is(nodes, splits, ring, k + 1, 3600, s);
        scanned_cell_is(nodes, splits, ring, total, 3600, t - own.len());
        let cs = own[s] - cell_index(ring, 0);
        let ct = scanned_cells(nodes, splits, ring, total, 3600)[t - own.len()] - cell_index(
            ring,
            0,
        );
        if ct <= cs {
            opened_grows(nodes, splits, ring, ct + 1, cs + 1);
        }
    }
}

/// The members of every segment ascend, and no segment of the ring starts
/// where another does: the row ascends by first column.
pub proof fn row_ascends(
    row: Seq<GraphNode>,
    nodes: Seq<RangeNode>,
    splits: Seq<bool>,
    seam_split: bool,
    ring: int,
)
    requires
        describes_ring(row, nodes, splits, seam_split, ring),
        0 <= ring < 32,
    ensures
        forall|k: int, s: int, t: int|
            0 <= k < row.len() && 0 <= s < t < row[k].members@.len()
                ==> #[trigger] row[k].members@[s] < #[trigger] row[k].members@[t],
        forall|a: int, b: int|
            0 <= a < b < row.len() ==> (#[trigger] row[a]).start_pos < (#[trigger] row[b]).start_pos,
        forall|a: int|
            0 <= a < row.len() ==> 0 <= (#[trigger] row[a]).start_pos <= row[a].end_pos < 3600,
{
    let total = opened(nodes, splits, ring, 3600);
    opened_grows(nodes, splits, ring, 0, 3600);
    described_ring_lists_cells(row, nodes, splits, seam_split, ring);
    assert forall|k: int, s: int, t: int|
        0 <= k < row.len() && 0 <= s < t < row[k].members@.len() implies #[trigger] row[k].members@[s]
        < #[trigger] row[k].members@[t] by {
        members_ascend(row, nodes, splits, seam_split, ring, k, s, t);
    }
    assert forall|a: int, b: int| 0 <= a < b < row.len() implies (#[trigger] row[a]).start_pos < (
    #[trigger] row[b]).start_pos by {
        assert(describes_segment(row[a], nodes, splits, seam_split, ring, a + 1));
        assert(describes_segment(row[b], nodes, splits, seam_split, ring, b + 1));
        opened_is_occupied(nodes, splits, ring, a + 1, 3600);
        opened_is_occupied(nodes, splits, ring, b + 1, 3600);
        scanned_cell_is(nodes, splits, ring, a + 1, 3600, 0);
        scanned_cell_is(nodes, splits, ring, b + 1, 3600, 0);
        let ca = row[a].start_pos as int;
        let cb = row[b].start_pos as int;
        if cb <= ca {
            opened_grows(nodes, splits, ring, cb + 1, ca + 1);
        }
    }
    assert forall|a: int| 0 <= a < row.len() implies 0 <= (#[trigger] row[a]).start_pos
        <= row[a].end_pos < 3600 by {
        assert(describes_segment(row[a], nodes, splits, seam_split, ring, a + 1));
        let m = row[a].members@.len();
        segment_member_is(row, nodes, splits, seam_split, ring, a, 0);
        segment_member_is(row, nodes, splits, seam_split, ring, a, m - 1);
        if m > 1 {
            assert(row[a].members@[0] < row[a].members@[m - 1]);
        }
    }
}

/// The shorter way round between two azimuths.
pub open spec fn circular_gap(a: int, b: int) -> int {
    let d = (a - b) % 36000;
    if d <= 18000 {
        d
    } else {
        36000 - d
    }
}

/// The gap is the same in both directions, at most half a turn, and nothing
/// exactly where the azimuths point the same way; it is the distance that is
/// left when one of the two is moved by the best number of whole turns.
pub proof fn gap_is_the_shorter_way(a: int, b: int, turns: int)
    ensures
        circular_gap(a, b) == circular_gap(b, a),
        0 <= circular_gap(a, b) <= 18000,
        circular_gap(a, b) == 0 <==> a % 36000 == b % 36000,
        a - b - 36000 * turns <= -circular_gap(a, b) || circular_gap(a, b) <= a - b - 36000 * turns,
{
    let d = a - b;
    let q = d / 36000;
    assert(turns <= q || turns >= q + 1);
}

/// What the split test measures between two cells of a ring, as
/// single-precision bit patterns.
#[derive(Clone, Copy)]
pub struct SplitMeasure {
    /// Distance between the two points.
    pub dist: u32,
    /// Distance at which the test splits, before its floor.
    pub scaled: u32,
    /// Angle between the directions in which the two segments run.
    pub angle: u32,
    /// How far the bisector of that angle points towards the sensor.
    pub toward: u32,
}

/// The larger of two numbers; where one is not a number, the other.
pub open spec fn larger(a: u32, b: u32) -> u32 {
    if nan(a) || at_most(a, b) {
        b
    } else {
        a
    }
}

/// The larger of two numbers; where one is not a number, the other.
pub fn larger_of(a: u32, b: u32) -> (r: u32)
    ensures
        r == larger(a, b),
{
    if is_nan(a) || is_at_most(a, b) {
        b
    } else {
        a
    }
}

/// Whether the measured gap separates two segments: it is wider than the
/// threshold, or the two segments meet in a concave corner.
pub open spec fn separates(m: SplitMeasure, th_z: u32, min_gap_m: u32) -> bool {
    less(larger(m.scaled, min_gap_m), m.dist) || (less(m.angle, th_z) && less(0, m.toward))
}

/// A gap no wider than the floor, or than the scaled threshold, does not
/// separate, but for a concave corner; a wider one does.
pub proof fn floor_of_separating(m: SplitMeasure, th_z: u32, min_gap_m: u32)
    requires
        !nan(m.dist),
        !nan(m.scaled),
        !nan(min_gap_m),
    ensures
        separates(m, th_z, min_gap_m) <==> (less(min_gap_m, m.dist) && less(m.scaled, m.dist)) || (
        less(m.angle, th_z) && less(0, m.toward)),
{
}

/// Whether the split test separates the cell at `idx_cur` from the one at
/// `idx_pre`, given what is measured between them: the cells just inside the
/// two segments that meet there are occupied, and the gap is wide enough.
pub open spec fn split_test(
    nodes: Seq<RangeNode>,
    idx_cur: int,
    idx_pre: int,
    ring: int,
    m: SplitMeasure,
    th_z: u32,
    min_gap_m: u32,
) -> bool {
    &&& nodes[cell_index(ring, (idx_cur % 3600 + 1) % 3600)].valid
    &&& nodes[cell_index(ring, (idx_pre % 3600 + 3599) % 3600)].valid
    &&& separates(m, th_z, min_gap_m)
}

/// The last occupied cell among the first `upto` columns of `ring`.
pub open spec fn last_occupied(nodes: Seq<RangeNode>, ring: int, upto: int) -> Option<usize>
    decreases upto,
{
    if upto <= 0 {
        None
    } else if nodes[cell_index(ring, upto - 1)].valid {
        Some(cell_index(ring, upto - 1) as usize)
    } else {
        last_occupied(nodes, ring, upto - 1)
    }
}

/// The first occupied cell of `ring` from column `from` on.
pub open spec fn first_occupied(nodes: Seq<RangeNode>, ring: int, from: int) -> Option<usize>
    decreases 3600 - from,
{
    if from >= 3600 {
        None
    } else if nodes[cell_index(ring, from)].valid {
        Some(cell_index(ring, from) as usize)
    } else {
        first_occupied(nodes, ring, from + 1)
    }
}

/// Whether the cell at column `col` of `ring` is cut off from the occupied
/// cell `pre` before it. Where there is none, or nothing to judge by, it is
/// not.
pub open spec fn cut_at(
    nodes: Seq<RangeNode>,
    measures: Seq<SplitMeasure>,
    th_z: u32,
    min_gap_m: u32,
    ring: int,
    col: int,
    pre: Option<usize>,
) -> bool {
    match pre {
        None => false,
        Some(p) => split_test(
            nodes,
            cell_index(ring, col),
            p as int,
            ring,
            measures[cell_index(ring, col)],
            th_z,
            min_gap_m,
        ),
    }
}

/// For every cell, whether it is occupied and cut off from the occupied one
/// before it in its ring.
pub open spec fn cuts_of(
    nodes: Seq<RangeNode>,
    measures: Seq<SplitMeasure>,
    th_z: u32,
    min_gap_m: u32,
) -> Seq<bool> {
    Seq::new(
        NUM_CELLS as nat,
        |i: int|
            nodes[i].valid && cut_at(
                nodes,
                measures,
                th_z,
                min_gap_m,
                i / 3600,
                i % 3600,
                last_occupied(nodes, i / 3600, i % 3600),
            ),
    )
}

/// Whether the first occupied cell of `ring` is cut off from the last one,
/// across the seam.
pub open spec fn seam_at(
    nodes: Seq<RangeNode>,
    seam_measures: Seq<SplitMeasure>,
    th_z: u32,
    min_gap_m: u32,
    ring: int,
) -> bool {
    match (first_occupied(nodes, ring, 0), last_occupied(nodes, ring, 3600)) {
        (Some(first), Some(last)) => split_test(
            nodes,
            first as int,
            last as int,
            ring,
            seam_measures[ring],
            th_z,
            min_gap_m,
        ),
        _ => false,
    }
}

/// For every ring, whether its seam cuts it.
pub open spec fn seams_of(
    nodes: Seq<RangeNode>,
    seam_measures: Seq<SplitMeasure>,
    th_z: u32,
    min_gap_m: u32,
) -> Seq<bool> {
    Seq::new(
        NUM_RINGS as nat,
        |ring: int| seam_at(nodes, seam_measures, th_z, min_gap_m, ring),
    )
}

/// Whatever is known to be the last occupied cell is it.
proof fn latest_is_last_occupied(
    nodes: Seq<RangeNode>,
    ring: int,
    upto: int,
    last: Option<usize>,
)
    requires
        latest(nodes, ring, upto, last),
        0 <= ring < 32,
        0 <= upto <= 3600,
    ensures
        last == last_occupied(nodes, ring, upto),
    decreases upto,
{
    if upto > 0 {
        let c = cell_index(ring, upto - 1);
        if nodes[c].valid {
            assert(last == Some(c as usize));
        } else {
            latest_is_last_occupied(nodes, ring, upto - 1, last);
        }
    }
}

/// A cell with only empty ones before it is the first occupied one.
proof fn first_occupied_is(nodes: Seq<RangeNode>, ring: int, from: int, first: Option<usize>)
    requires
        0 <= ring < 32,
        0 <= from <= 3600,
        match first {
            None => forall|i: int| #![trigger nodes[i]]
                cell_index(ring, from) <= i < cell_index(ring, 3600) ==> !nodes[i].valid,
            Some(f) => {
                &&& cell_index(ring, from) <= f < cell_index(ring, 3600)
                &&& nodes[f as int].valid
                &&& forall|i: int| #![trigger nodes[i]]
                    cell_index(ring, from) <= i < f ==> !nodes[i].valid
            },
        },
    ensures
        first == first_occupied(nodes, ring, from),
    decreases 3600 - from,
{
    if from < 3600 {
        let c = cell_index(ring, from);
        if nodes[c].valid {
            assert(first == Some(c as usize));
        } else {
            first_occupied_is(nodes, ring, from + 1, first);
        }
    }
}

impl RangeGraph {
    /// Smallest circular difference between two azimuths, in `[0, 18000]`.
    pub fn azimuth_gap_centideg(a: i32, b: i32) -> (gap: i32)
        requires
            i32::MIN <= a - b <= i32::MAX,
        ensures
            0 <= gap <= 18000,
            gap == circular_gap(a as int, b as int),
    {
        let raw: i32 = azimuth_round(a - b);
        if raw <= 36000 - raw {
            raw
        } else {
            36000 - raw
        }
    }

    /// The cells just inside the two segments that meet between `idx_pre` and
    /// `idx_cur`: the one after the current cell and the one before the
    /// previous cell, around the ring. `None` if one of them is empty.
    pub fn get_vecs(&self, idx_cur: usize, idx_pre: usize, ring: usize) -> (r: Option<
        (usize, usize),
    >)
        requires
            self.wf(),
            ring < NUM_RINGS,
        ensures
            ({
                let after = cell_index(ring as int, (idx_cur % 3600 + 1) % 3600);
                let before = cell_index(ring as int, (idx_pre % 3600 + 3599) % 3600);
                if self.nodes@[after].valid && self.nodes@[before].valid {
                    r == Some((after as usize, before as usize))
                } else {
                    r is None
                }
            }),
    {
        let col_pre: usize = idx_pre % NUM_COLS;
        let col_cur: usize = idx_cur % NUM_COLS;
        let idx_pre_inner: usize = ring * NUM_COLS + (col_pre + NUM_COLS - 1) % NUM_COLS;
        let idx_cur_inner: usize = ring * NUM_COLS + (col_cur + 1) % NUM_COLS;
        if !self.nodes[idx_pre_inner].valid || !self.nodes[idx_cur_inner].valid {
            return None;
        }
        Some((idx_cur_inner, idx_pre_inner))
    }

    /// Whether the cells at `idx_cur` and `idx_pre` belong to different
    /// segments. Where a cell inside one of the segments is empty there is
    /// nothing to judge by, and the segment goes on.
    pub fn should_split(
        &self,
        idx_cur: usize,
        idx_pre: usize,
        ring: usize,
        measure: &SplitMeasure,
        th_z: u32,
        min_gap_m: u32,
    ) -> (r: bool)
        requires
            self.wf(),
            ring < NUM_RINGS,
        ensures
            r == split_test(
                self.nodes@,
                idx_cur as int,
                idx_pre as int,
                ring as int,
                *measure,
                th_z,
                min_gap_m,
            ),
    {
        match self.get_vecs(idx_cur, idx_pre, ring) {
            None => false,
            Some(_) => {
                let threshold: u32 = larger_of(measure.scaled, min_gap_m);
                is_less(threshold, measure.dist) || (is_less(measure.angle, th_z) && is_less(
                    0,
                    measure.toward,
                ))
            },
        }
    }

    /// For each occupied cell, the occupied cell before it in its ring.
    pub fn predecessors(&self) -> (r: Vec<Option<usize>>)
        requires
            self.wf(),
        ensures
            r@.len() == NUM_CELLS,
            forall|ring: int, col: int| #![trigger cell_index(ring, col)]
                0 <= ring < 32 && 0 <= col < 3600 ==> precedes(
                    self.nodes@,
                    ring,
                    col,
                    r@[cell_index(ring, col)],
                ),
    {
        let mut r: Vec<Option<usize>> = Vec::new();
        let mut i: usize = 0;
        while i < NUM_RINGS
            invariant
                i <= NUM_RINGS,
                self.wf(),
                r@.len() == cell_index(i as int, 0),
                forall|ring: int, col: int| #![trigger cell_index(ring, col)]
                    0 <= ring < i && 0 <= col < 3600 ==> precedes(
                        self.nodes@,
                        ring,
                        col,
                        r@[cell_index(ring, col)],
                    ),
            decreases NUM_RINGS - i,
        {
            let mut last: Option<usize> = None;
            let mut j: usize = 0;
            while j < NUM_COLS
                invariant
                    i < NUM_RINGS,
                    j <= NUM_COLS,
                    self.wf(),
                    r@.len() == cell_index(i as int, j as int),
                    latest(self.nodes@, i as int, j as int, last),
                    forall|ring: int, col: int| #![trigger cell_index(ring, col)]
                        0 <= ring < 32 && 0 <= col < 3600 && cell_index(ring, col) < cell_index(
                            i as int,
                            j as int,
                        ) ==> precedes(self.nodes@, ring, col, r@[cell_index(ring, col)]),
                decreases NUM_COLS - j,
            {
                let idx: usize = i * NUM_COLS + j;
                let ghost r0 = r@;
                if self.nodes[idx].valid {
                    r.push(last);
                    last = Some(idx);
                } else {
                    r.push(None);
                }
                assert forall|ring: int, col: int| #![trigger cell_index(ring, col)]
                    0 <= ring < 32 && 0 <= col < 3600 && cell_index(ring, col) < cell_index(
                        i as int,
                        j + 1,
                    ) implies precedes(self.nodes@, ring, col, r@[cell_index(ring, col)]) by {
                    if cell_index(ring, col) < idx {
                        assert(r@[cell_index(ring, col)] == r0[cell_index(ring, col)]);
                    } else {
                        assert(ring == i && col == j);
                    }
                }
                j = j + 1;
            }
            i = i + 1;
        }
        r
    }

    /// The first and the last occupied cell of a ring.
    pub fn ring_ends(&self, ring: usize) -> (r: Option<(usize, usize)>)
        requires
            self.wf(),
            ring < NUM_RINGS,
        ensures
            match r {
                None => {
                    &&& first_occupied(self.nodes@, ring as int, 0) is None
                    &&& last_occupied(self.nodes@, ring as int, 3600) is None
                },
                Some((first, last)) => {
                    &&& first_occupied(self.nodes@, ring as int, 0) == Some(first)
                    &&& last_occupied(self.nodes@, ring as int, 3600) == Some(last)
                },
            },
    {
        let base: usize = ring * NUM_COLS;
        let mut ends: Option<(usize, usize)> = None;
        let mut j: usize = 0;
        while j < NUM_COLS
            invariant
                j <= NUM_COLS,
                self.wf(),
                ring < NUM_RINGS,
                base == cell_index(ring as int, 0),
                match ends {
                    None => forall|i: int| #![trigger self.nodes@[i]]
                        base <= i < base + j ==> !self.nodes@[i].valid,
                    Some((first, last)) => {
                        &&& base <= first <= last < base + j
                        &&& self.nodes@[first as int].valid
                        &&& self.nodes@[last as int].valid
                        &&& forall|i: int| #![trigger self.nodes@[i]]
                            base <= i < first || last < i < base + j ==> !self.nodes@[i].valid
                    },
                },
            decreases NUM_COLS - j,
        {
            let idx: usize = base + j;
            if self.nodes[idx].valid {
                ends = match ends {
                    None => Some((idx, idx)),
                    Some((first, _)) => Some((first, idx)),
                };
            }
            j = j + 1;
        }
        proof {
            let first: Option<usize> = match ends {
                None => None,
                Some((f, l)) => Some(f),
            };
            let last: Option<usize> = match ends {
                None => None,
                Some((f, l)) => Some(l),
            };
            first_occupied_is(self.nodes@, ring as int, 0, first);
            latest_is_last_occupied(self.nodes@, ring as int, 3600, last);
        }
        ends
    }

    /// For every cell, whether the split test cuts it off from the occupied
    /// one before it. `measures` holds for each such cell what is measured
    /// between the two.
    pub fn cuts(&self, measures: &Vec<SplitMeasure>, th_z: u32, min_gap_m: u32) -> (r: Vec<bool>)
        requires
            self.wf(),
            measures@.len() == NUM_CELLS,
        ensures
            r@ == cuts_of(self.nodes@, measures@, th_z, min_gap_m),
    {
        let pre = self.predecessors();
        let ghost flags = cuts_of(self.nodes@, measures@, th_z, min_gap_m);
        let mut r: Vec<bool> = Vec::new();
        let mut i: usize = 0;
        while i < NUM_CELLS
            invariant
                i <= NUM_CELLS,
                self.wf(),
                measures@.len() == NUM_CELLS,
                pre@.len() == NUM_CELLS,
                forall|ring: int, col: int| #![trigger cell_index(ring, col)]
                    0 <= ring < 32 && 0 <= col < 3600 ==> precedes(
                        self.nodes@,
                        ring,
                        col,
                        pre@[cell_index(ring, col)],
                    ),
                flags == cuts_of(self.nodes@, measures@, th_z, min_gap_m),
                r@.len() == i,
                forall|k: int| 0 <= k < i ==> r@[k] == #[trigger] flags[k],
            decreases NUM_CELLS - i,
        {
            let ring: usize = i / NUM_COLS;
            let ghost col = i as int % 3600;
            assert(cell_index(ring as int, col) == i);
            assert(precedes(self.nodes@, ring as int, col, pre@[i as int]));
            let cut: bool = match pre[i] {
                None => false,
                Some(p) => self.should_split(i, p, ring, &measures[i], th_z, min_gap_m),
            };
            proof {
                if self.nodes@[i as int].valid {
                    latest_is_last_occupied(self.nodes@, ring as int, col, pre@[i as int]);
                }
                assert(cut == flags[i as int]);
            }
            r.push(cut);
            i = i + 1;
        }
        assert(r@ =~= flags);
        r
    }

    /// For every ring, whether the split test cuts it at its seam.
    /// `seam_measures` holds for each ring what is measured between its first
    /// and its last occupied cell.
    pub fn seams(&self, seam_measures: &Vec<SplitMeasure>, th_z: u32, min_gap_m: u32) -> (r: Vec<
        bool,
    >)
        requires
            self.wf(),
            seam_measures@.len() == NUM_RINGS,
        ensures
            r@ == seams_of(self.nodes@, seam_measures@, th_z, min_gap_m),
    {
        let ghost flags = seams_of(self.nodes@, seam_measures@, th_z, min_gap_m);
        let mut r: Vec<bool> = Vec::new();
        let mut ring: usize = 0;
        while ring < NUM_RINGS
            invariant
                ring <= NUM_RINGS,
                self.wf(),
                seam_measures@.len() == NUM_RINGS,
                flags == seams_of(self.nodes@, seam_measures@, th_z, min_gap_m),
                r@.len() == ring,
                forall|k: int| 0 <= k < ring ==> r@[k] == #[trigger] flags[k],
            decreases NUM_RINGS - ring,
        {
            let cut: bool = match self.ring_ends(ring) {
                None => false,
                Some((first, last)) => self.should_split(
                    first,
                    last,
                    ring,
                    &seam_measures[ring],
                    th_z,
                    min_gap_m,
                ),
            };
            assert(cut == flags[ring as int]);
            r.push(cut);
            ring = ring + 1;
        }
        assert(r@ =~= flags);
        r
    }

    /// Labels the same-ring segments of every ring (`RangeNode::alpha`) and
    /// rebuilds the rows of `set_graph` from them.
    ///
    /// A segment goes on from one occupied cell of a ring to the next, and
    /// from the last one to the first, unless the split test separates the
    /// two. `measures` holds for each occupied cell what is measured between
    /// it and the occupied one before it, `seam_measures` for each ring what
    /// is measured between its first and its last; `min_gap_m` is the floor
    /// under the distance that separates in every test.
    pub fn first_segmentation(
        &mut self,
        set_graph: &mut SetGraph,
        measures: &Vec<SplitMeasure>,
        seam_measures: &Vec<SplitMeasure>,
        th_z: u32,
        min_gap_m: u32,
    )
        requires
            old(self).wf(),
            old(set_graph).wf(),
            measures@.len() == NUM_CELLS,
            seam_measures@.len() == NUM_RINGS,
        ensures
            final(self).wf(),
            final(set_graph).wf(),
            all_unfilled(final(set_graph).nodes@),
            segmented(
                old(self).nodes@,
                final(self).nodes@,
                final(set_graph).nodes@,
                cuts_of(old(self).nodes@, measures@, th_z, min_gap_m),
                seams_of(old(self).nodes@, seam_measures@, th_z, min_gap_m),
            ),
    {
        let splits = self.cuts(measures, th_z, min_gap_m);
        let seams = self.seams(seam_measures, th_z, min_gap_m);
        self.cut_rings(set_graph, &splits, &seams);
    }
}

/// A stretch of empty cells opens no segment and adds no cell to one.
pub proof fn empty_cells_change_nothing(
    nodes: Seq<RangeNode>,
    splits: Seq<bool>,
    ring: int,
    label: int,
    a: int,
    b: int,
)
    requires
        0 <= a <= b <= 3600,
        forall|col: int| #![trigger cell_index(ring, col)]
            a <= col < b ==> !nodes[cell_index(ring, col)].valid,
    ensures
        opened(nodes, splits, ring, b) == opened(nodes, splits, ring, a),
        scanned_cells(nodes, splits, ring, label, b) == scanned_cells(
            nodes,
            splits,
            ring,
            label,
            a,
        ),
    decreases b - a,
{
    if a < b {
        let c = cell_index(ring, b - 1);
        empty_cells_change_nothing(nodes, splits, ring, label, a, b - 1);
    }
}

/// Whether the cells at columns `c` and `d` of `ring` are occupied, with none
/// between them.
pub open spec fn consecutive(nodes: Seq<RangeNode>, ring: int, c: int, d: int) -> bool {
    &&& 0 <= ring < 32
    &&& 0 <= c < d < 3600
    &&& nodes[cell_index(ring, c)].valid
    &&& nodes[cell_index(ring, d)].valid
    &&& forall|col: int| #![trigger cell_index(ring, col)]
        c < col < d ==> !nodes[cell_index(ring, col)].valid
}

/// Whether the cells hold the same points, whatever segments and clusters they
/// are in.
pub open spec fn same_points(before: Seq<RangeNode>, after: Seq<RangeNode>) -> bool {
    &&& after.len() == before.len()
    &&& forall|k: int|
        0 <= k < after.len() ==> #[trigger] after[k] == (RangeNode {
            alpha: after[k].alpha,
            beta: after[k].beta,
            ..before[k]
        })
}

/// Labelling the segments leaves the cells with the points they hold.
pub proof fn segmenting_keeps_points(
    before: Seq<RangeNode>,
    after: Seq<RangeNode>,
    rows: Seq<Vec<GraphNode>>,
    splits: Seq<bool>,
    seams: Seq<bool>,
)
    requires
        before.len() == NUM_CELLS,
        after.len() == NUM_CELLS,
        segmented(before, after, rows, splits, seams),
    ensures
        same_points(before, after),
{
    assert forall|k: int| 0 <= k < after.len() implies #[trigger] after[k] == (RangeNode {
        alpha: after[k].alpha,
        beta: after[k].beta,
        ..before[k]
    }) by {
        assert(k == cell_index(k / 3600, k % 3600));
    }
}

/// Of two consecutive cells, the second is tested against the first.
proof fn tested_against_the_one_before(
    nodes: Seq<RangeNode>,
    splits: Seq<bool>,
    measures: Seq<SplitMeasure>,
    th_z: u32,
    min_gap_m: u32,
    ring: int,
    c: int,
    d: int,
)
    requires
        consecutive(nodes, ring, c, d),
        splits == cuts_of(nodes, measures, th_z, min_gap_m),
    ensures
        splits[cell_index(ring, d)] == split_test(
            nodes,
            cell_index(ring, d),
            cell_index(ring, c),
            ring,
            measures[cell_index(ring, d)],
            th_z,
            min_gap_m,
        ),
        opened(nodes, splits, ring, c + 1) >= 1,
        opened(nodes, splits, ring, d + 1) == opened(nodes, splits, ring, c + 1) + if splits[
        cell_index(ring, d)] {
            1int
        } else {
            0int
        },
{
    let i = cell_index(ring, d);
    let before = Some(cell_index(ring, c) as usize);
    assert(i / 3600 == ring && i % 3600 == d);
    assert forall|k: int| #![trigger nodes[k]]
        cell_index(ring, c) < k < cell_index(ring, d) implies !nodes[k].valid by {
        assert(k == cell_index(ring, k - cell_index(ring, 0)));
    }
    latest_is_last_occupied(nodes, ring, d, before);
    opened_grows(nodes, splits, ring, 0, c);
    empty_cells_change_nothing(nodes, splits, ring, 1, c + 1, d);
}

/// Consecutive occupied cells of a ring that the split test does not separate
/// have one label and are in one segment. The test's distance has the given
/// floor for every pair.
pub proof fn unseparated_neighbours_share_a_segment(
    before: Seq<RangeNode>,
    after: Seq<RangeNode>,
    rows: Seq<Vec<GraphNode>>,
    measures: Seq<SplitMeasure>,
    seam_measures: Seq<SplitMeasure>,
    th_z: u32,
    min_gap_m: u32,
    ring: int,
    c: int,
    d: int,
) -> (k: int)
    requires
        segmented(
            before,
            after,
            rows,
            cuts_of(before, measures, th_z, min_gap_m),
            seams_of(before, seam_measures, th_z, min_gap_m),
        ),
        consecutive(before, ring, c, d),
        !split_test(
            before,
            cell_index(ring, d),
            cell_index(ring, c),
            ring,
            measures[cell_index(ring, d)],
            th_z,
            min_gap_m,
        ),
    ensures
        after[cell_index(ring, d)].alpha == after[cell_index(ring, c)].alpha,
        0 <= k < rows[ring]@.len(),
        rows[ring]@[k].alpha == after[cell_index(ring, c)].alpha,
        rows[ring]@[k].members@.contains(cell_index(ring, c) as i32),
        rows[ring]@[k].members@.contains(cell_index(ring, d) as i32),
{
    let splits = cuts_of(before, measures, th_z, min_gap_m);
    let seams = seams_of(before, seam_measures, th_z, min_gap_m);
    tested_against_the_one_before(before, splits, measures, th_z, min_gap_m, ring, c, d);
    same_label_same_segment(before, after, rows, splits, seams, ring, c, d)
}

/// Two cells with the same label are in one segment.
proof fn same_label_same_segment(
    before: Seq<RangeNode>,
    after: Seq<RangeNode>,
    rows: Seq<Vec<GraphNode>>,
    splits: Seq<bool>,
    seams: Seq<bool>,
    ring: int,
    c: int,
    d: int,
) -> (k: int)
    requires
        segmented(before, after, rows, splits, seams),
        0 <= ring < 32,
        0 <= c < 3600,
        0 <= d < 3600,
        before[cell_index(ring, c)].valid,
        before[cell_index(ring, d)].valid,
        label_at(before, splits, seams[ring], ring, c) == label_at(
            before,
            splits,
            seams[ring],
            ring,
            d,
        ),
    ensures
        after[cell_index(ring, d)].alpha == after[cell_index(ring, c)].alpha,
        0 <= k < rows[ring]@.len(),
        rows[ring]@[k].alpha == after[cell_index(ring, c)].alpha,
        rows[ring]@[k].members@.contains(cell_index(ring, c) as i32),
        rows[ring]@[k].members@.contains(cell_index(ring, d) as i32),
        forall|j: int|
            0 <= j < rows[ring]@.len() && j != k ==> !(#[trigger] rows[ring]@[j]).members@.contains(
                cell_index(ring, c) as i32,
            ) && !rows[ring]@[j].members@.contains(cell_index(ring, d) as i32),
{
    let row = rows[ring]@;
    let k = label_at(before, splits, seams[ring], ring, c) - 1;
    assert(describes_ring(row, before, splits, seams[ring], ring));
    described_ring_lists_cells(row, before, splits, seams[ring], ring);
    segments_partition_ring(row, before, splits, seams[ring], ring, c);
    segments_partition_ring(row, before, splits, seams[ring], ring, d);
    assert(describes_segment(row[k], before, splits, seams[ring], ring, k + 1));
    k
}

/// Consecutive occupied cells of a ring that the split test separates are in
/// different segments, unless the ring has one segment only: one that runs
/// from the second cell through the seam to the first.
pub proof fn separated_neighbours_are_apart(
    before: Seq<RangeNode>,
    after: Seq<RangeNode>,
    rows: Seq<Vec<GraphNode>>,
    measures: Seq<SplitMeasure>,
    seam_measures: Seq<SplitMeasure>,
    th_z: u32,
    min_gap_m: u32,
    ring: int,
    c: int,
    d: int,
)
    requires
        segmented(
            before,
            after,
            rows,
            cuts_of(before, measures, th_z, min_gap_m),
            seams_of(before, seam_measures, th_z, min_gap_m),
        ),
        consecutive(before, ring, c, d),
        split_test(
            before,
            cell_index(ring, d),
            cell_index(ring, c),
            ring,
            measures[cell_index(ring, d)],
            th_z,
            min_gap_m,
        ),
    ensures
        after[cell_index(ring, d)].alpha != after[cell_index(ring, c)].alpha || (rows[ring]@.len()
            == 1 && !seam_at(before, seam_measures, th_z, min_gap_m, ring)),
{
    let splits = cuts_of(before, measures, th_z, min_gap_m);
    let seams = seams_of(before, seam_measures, th_z, min_gap_m);
    tested_against_the_one_before(before, splits, measures, th_z, min_gap_m, ring, c, d);
    opened_grows(before, splits, ring, d + 1, 3600);
    opened_bound(before, splits, ring, c + 1);
    opened_bound(before, splits, ring, d + 1);
    assert(describes_ring(rows[ring]@, before, splits, seams[ring], ring));
}

/// A scan opens at most one segment per column.
proof fn opened_bound(nodes: Seq<RangeNode>, splits: Seq<bool>, ring: int, upto: int)
    requires
        0 <= upto,
    ensures
        0 <= opened(nodes, splits, ring, upto) <= upto,
    decreases upto,
{
    if upto > 0 {
        opened_bound(nodes, splits, ring, upto - 1);
    }
}

/// A ring whose first and last occupied cells the split test does not
/// separate is not cut at its seam: the two cells have one label, and one
/// segment alone has both.
pub proof fn unseparated_seam_joins_the_ring(
    before: Seq<RangeNode>,
    after: Seq<RangeNode>,
    rows: Seq<Vec<GraphNode>>,
    measures: Seq<SplitMeasure>,
    seam_measures: Seq<SplitMeasure>,
    th_z: u32,
    min_gap_m: u32,
    ring: int,
    first: int,
    last: int,
) -> (k: int)
    requires
        segmented(
            before,
            after,
            rows,
            cuts_of(before, measures, th_z, min_gap_m),
            seams_of(before, seam_measures, th_z, min_gap_m),
        ),
        0 <= ring < 32,
        0 <= first <= last < 3600,
        before[cell_index(ring, first)].valid,
        before[cell_index(ring, last)].valid,
        forall|col: int| #![trigger cell_index(ring, col)]
            0 <= col < first || last < col < 3600 ==> !before[cell_index(ring, col)].valid,
        !split_test(
            before,
            cell_index(ring, first),
            cell_index(ring, last),
            ring,
            seam_measures[ring],
            th_z,
            min_gap_m,
        ),
    ensures
        after[cell_index(ring, first)].alpha == after[cell_index(ring, last)].alpha,
        0 <= k < rows[ring]@.len(),
        rows[ring]@[k].alpha == after[cell_index(ring, first)].alpha,
        rows[ring]@[k].members@.contains(cell_index(ring, first) as i32),
        rows[ring]@[k].members@.contains(cell_index(ring, last) as i32),
        forall|j: int|
            0 <= j < rows[ring]@.len() && j != k ==> !(#[trigger] rows[ring]@[j]).members@.contains(
                cell_index(ring, first) as i32,
            ) && !rows[ring]@[j].members@.contains(cell_index(ring, last) as i32),
{
    let splits = cuts_of(before, measures, th_z, min_gap_m);
    let seams = seams_of(before, seam_measures, th_z, min_gap_m);
    assert forall|i: int| #![trigger before[i]]
        cell_index(ring, 0) <= i < cell_index(ring, first) || cell_index(ring, last) < i
            < cell_index(ring, 3600) implies !before[i].valid by {
        assert(i == cell_index(ring, i - cell_index(ring, 0)));
    }
    first_occupied_is(before, ring, 0, Some(cell_index(ring, first) as usize));
    latest_is_last_occupied(before, ring, 3600, Some(cell_index(ring, last) as usize));
    assert(!seams[ring]);
    empty_cells_change_nothing(before, splits, ring, 1, 0, first);
    empty_cells_change_nothing(before, splits, ring, 1, last + 1, 3600);
    opened_grows(before, splits, ring, first + 1, last + 1);
    same_label_same_segment(before, after, rows, splits, seams, ring, last, first)
}

/// Whether `last` is the last occupied cell among the first `upto` columns of
/// `ring`.
pub open spec fn latest(
    nodes: Seq<RangeNode>,
    ring: int,
    upto: int,
    last: Option<usize>,
) -> bool {
    match last {
        None => forall|i: int| #![trigger nodes[i]]
            cell_index(ring, 0) <= i < cell_index(ring, upto) ==> !nodes[i].valid,
        Some(p) => {
            &&& cell_index(ring, 0) <= p < cell_index(ring, upto)
            &&& nodes[p as int].valid
            &&& forall|i: int| #![trigger nodes[i]]
                p < i < cell_index(ring, upto) ==> !nodes[i].valid
        },
    }
}

/// Whether `pre` is the occupied cell before an occupied cell; an empty cell
/// has none.
pub open spec fn precedes(
    nodes: Seq<RangeNode>,
    ring: int,
    col: int,
    pre: Option<usize>,
) -> bool {
    if nodes[cell_index(ring, col)].valid {
        latest(nodes, ring, col, pre)
    } else {
        pre is None
    }
}

/// What the split test answers. With the cell after the current one and the
/// cell before the previous one occupied, around the ring, it separates the
/// two exactly where their distance is above both the scaled threshold and the
/// floor, or they meet in a concave corner; how many columns lie between them
/// does not matter. With one of those cells empty it never separates. A
/// threshold that is not a number does not count.
pub proof fn split_test_is_by_distance_or_corner(
    nodes: Seq<RangeNode>,
    idx_cur: int,
    idx_pre: int,
    ring: int,
    m: SplitMeasure,
    th_z: u32,
    min_gap_m: u32,
)
    requires
        nodes.len() == 115200,
        0 <= ring < 32,
        0 <= idx_cur,
        0 <= idx_pre,
    ensures
        ({
            let after = nodes[3600 * ring + (idx_cur + 1) % 3600];
            let before = nodes[3600 * ring + (idx_pre + 3599) % 3600];
            split_test(nodes, idx_cur, idx_pre, ring, m, th_z, min_gap_m) <==> {
                &&& after.valid
                &&& before.valid
                &&& {
                    ||| (less(m.angle, th_z) && less(0, m.toward))
                    ||| (less(m.scaled, m.dist) && less(min_gap_m, m.dist))
                    ||| (nan(m.scaled) && less(min_gap_m, m.dist))
                    ||| (nan(min_gap_m) && less(m.scaled, m.dist))
                }
            }
        }),
{
    assert((idx_cur % 3600 + 1) % 3600 == (idx_cur + 1) % 3600);
    assert((idx_pre % 3600 + 3599) % 3600 == (idx_pre + 3599) % 3600);
}

/// Two occupied cells of a ring with none between them are in one segment
/// exactly where the split test does not separate them, whatever the number of
/// empty columns between them; but a ring that is cut once only, and not at
/// its seam, is one segment all the same. The same holds of a ring's last
/// occupied cell and its first.
pub proof fn rings_are_cut_where_cells_are_apart(
    before: Seq<RangeNode>,
    after: Seq<RangeNode>,
    rows: Seq<Vec<GraphNode>>,
    measures: Seq<SplitMeasure>,
    seam_measures: Seq<SplitMeasure>,
    th_z: u32,
    min_gap_m: u32,
    ring: int,
    c: int,
    d: int,
)
    requires
        before.len() == 115200,
        segmented(
            before,
            after,
            rows,
            cuts_of(before, measures, th_z, min_gap_m),
            seams_of(before, seam_measures, th_z, min_gap_m),
        ),
        0 <= ring < 32,
        0 <= c < 3600,
        0 <= d < 3600,
        before[3600 * ring + c].valid,
        before[3600 * ring + d].valid,
        (c < d && forall|col: int|
            #![trigger before[3600 * ring + col]]
            c < col < d ==> !before[3600 * ring + col].valid) || (d <= c && forall|col: int|
            #![trigger before[3600 * ring + col]]
            0 <= col < d || c < col < 3600 ==> !before[3600 * ring + col].valid),
    ensures
        ({
            let m = if c < d {
                measures[3600 * ring + d]
            } else {
                seam_measures[ring]
            };
            let apart = {
                &&& before[3600 * ring + (d + 1) % 3600].valid
                &&& before[3600 * ring + (c + 3599) % 3600].valid
                &&& {
                    ||| (less(m.angle, th_z) && less(0, m.toward))
                    ||| (less(m.scaled, m.dist) && less(min_gap_m, m.dist))
                    ||| (nan(m.scaled) && less(min_gap_m, m.dist))
                    ||| (nan(min_gap_m) && less(m.scaled, m.dist))
                }
            };
            let one = after[3600 * ring + c].alpha == after[3600 * ring + d].alpha;
            &&& !apart ==> one
            &&& apart && rows[ring]@.len() >= 2 ==> !one
        }),
{
    let m = if c < d {
        measures[3600 * ring + d]
    } else {
        seam_measures[ring]
    };
    split_test_in_columns(before, ring, c, d, m, th_z, min_gap_m);
    if c < d {
        columns_are_consecutive(before, ring, c, d);
        one_segment_or_apart(
            before,
            after,
            rows,
            measures,
            seam_measures,
            th_z,
            min_gap_m,
            ring,
            c,
            d,
        );
    } else {
        columns_are_outermost(before, ring, d, c);
        one_segment_or_apart_at_the_seam(
            before,
            after,
            rows,
            measures,
            seam_measures,
            th_z,
            min_gap_m,
            ring,
            d,
            c,
        );
    }
}

proof fn split_test_in_columns(
    nodes: Seq<RangeNode>,
    ring: int,
    c: int,
    d: int,
    m: SplitMeasure,
    th_z: u32,
    min_gap_m: u32,
)
    requires
        nodes.len() == 115200,
        0 <= ring < 32,
        0 <= c < 3600,
        0 <= d < 3600,
    ensures
        cell_index(ring, c) == 3600 * ring + c,
        cell_index(ring, d) == 3600 * ring + d,
        split_test(nodes, cell_index(ring, d), cell_index(ring, c), ring, m, th_z, min_gap_m)
            <==> {
            &&& nodes[3600 * ring + (d + 1) % 3600].valid
            &&& nodes[3600 * ring + (c + 3599) % 3600].valid
            &&& {
                ||| (less(m.angle, th_z) && less(0, m.toward))
                ||| (less(m.scaled, m.dist) && less(min_gap_m, m.dist))
                ||| (nan(m.scaled) && less(min_gap_m, m.dist))
                ||| (nan(min_gap_m) && less(m.scaled, m.dist))
            }
        },
{
    split_test_is_by_distance_or_corner(
        nodes,
        cell_index(ring, d),
        cell_index(ring, c),
        ring,
        m,
        th_z,
        min_gap_m,
    );
    assert((cell_index(ring, d) + 1) % 3600 == (d + 1) % 3600);
    assert((cell_index(ring, c) + 3599) % 3600 == (c + 3599) % 3600);
}

proof fn columns_are_consecutive(nodes: Seq<RangeNode>, ring: int, c: int, d: int)
    requires
        0 <= ring < 32,
        0 <= c < d < 3600,
        nodes[3600 * ring + c].valid,
        nodes[3600 * ring + d].valid,
        forall|col: int|
            #![trigger nodes[3600 * ring + col]]
            c < col < d ==> !nodes[3600 * ring + col].valid,
    ensures
        consecutive(nodes, ring, c, d),
{
    assert(cell_index(ring, c) == 3600 * ring + c && cell_index(ring, d) == 3600 * ring + d);
    assert forall|col: int| #![trigger cell_index(ring, col)] c < col < d implies !nodes[cell_index(
        ring,
        col,
    )].valid by {
        assert(cell_index(ring, col) == 3600 * ring + col);
        assert(!nodes[3600 * ring + col].valid);
    }
}

proof fn columns_are_outermost(nodes: Seq<RangeNode>, ring: int, first: int, last: int)
    requires
        forall|col: int|
            #![trigger nodes[3600 * ring + col]]
            0 <= col < first || last < col < 3600 ==> !nodes[3600 * ring + col].valid,
    ensures
        forall|col: int| #![trigger cell_index(ring, col)]
            0 <= col < first || last < col < 3600 ==> !nodes[cell_index(ring, col)].valid,
{
    assert forall|col: int| #![trigger cell_index(ring, col)]
        0 <= col < first || last < col < 3600 implies !nodes[cell_index(ring, col)].valid by {
        assert(cell_index(ring, col) == 3600 * ring + col);
        assert(!nodes[3600 * ring + col].valid);
    }
}

proof fn one_segment_or_apart(
    before: Seq<RangeNode>,
    after: Seq<RangeNode>,
    rows: Seq<Vec<GraphNode>>,
    measures: Seq<SplitMeasure>,
    seam_measures: Seq<SplitMeasure>,
    th_z: u32,
    min_gap_m: u32,
    ring: int,
    c: int,
    d: int,
)
    requires
        segmented(
            before,
            after,
            rows,
            cuts_of(before, measures, th_z, min_gap_m),
            seams_of(before, seam_measures, th_z, min_gap_m),
        ),
        consecutive(before, ring, c, d),
    ensures
        ({
            let split = split_test(
                before,
                cell_index(ring, d),
                cell_index(ring, c),
                ring,
                measures[cell_index(ring, d)],
                th_z,
                min_gap_m,
            );
            let one = after[cell_index(ring, c)].alpha == after[cell_index(ring, d)].alpha;
            (!split ==> one) && (split && rows[ring]@.len() >= 2 ==> !one)
        }),
{
    if split_test(
        before,
        cell_index(ring, d),
        cell_index(ring, c),
        ring,
        measures[cell_index(ring, d)],
        th_z,
        min_gap_m,
    ) {
        separated_neighbours_are_apart(
            before,
            after,
            rows,
            measures,
            seam_measures,
            th_z,
            min_gap_m,
            ring,
            c,
            d,
        );
    } else {
        let k = unseparated_neighbours_share_a_segment(
            before,
            after,
            rows,
            measures,
            seam_measures,
            th_z,
            min_gap_m,
            ring,
            c,
            d,
        );
    }
}

proof fn one_segment_or_apart_at_the_seam(
    before: Seq<RangeNode>,
    after: Seq<RangeNode>,
    rows: Seq<Vec<GraphNode>>,
    measures: Seq<SplitMeasure>,
    seam_measures: Seq<SplitMeasure>,
    th_z: u32,
    min_gap_m: u32,
    ring: int,
    first: int,
    last: int,
)
    requires
        segmented(
            before,
            after,
            rows,
            cuts_of(before, measures, th_z, min_gap_m),
            seams_of(before, seam_measures, th_z, min_gap_m),
        ),
        0 <= ring < 32,
        0 <= first <= last < 3600,
        before[cell_index(ring, first)].valid,
        before[cell_index(ring, last)].valid,
        forall|col: int| #![trigger cell_index(ring, col)]
            0 <= col < first || last < col < 3600 ==> !before[cell_index(ring, col)].valid,
    ensures
        ({
            let split = split_test(
                before,
                cell_index(ring, first),
                cell_index(ring, last),
                ring,
                seam_measures[ring],
                th_z,
                min_gap_m,
            );
            let one = after[cell_index(ring, first)].alpha == after[cell_index(ring, last)].alpha;
            (!split ==> one) && (split && rows[ring]@.len() >= 2 ==> !one)
        }),
{
    if split_test(
        before,
        cell_index(ring, first),
        cell_index(ring, last),
        ring,
        seam_measures[ring],
        th_z,
        min_gap_m,
    ) {
        if rows[ring]@.len() >= 2 {
            seam_cut_keeps_ends_apart(
                before,
                after,
                rows,
                cuts_of(before, measures, th_z, min_gap_m),
                seams_of(before, seam_measures, th_z, min_gap_m),
                th_z,
                min_gap_m,
                seam_measures,
                ring,
                first,
                last,
            );
        }
    } else {
        let k = unseparated_seam_joins_the_ring(
            before,
            after,
            rows,
            measures,
            seam_measures,
            th_z,
            min_gap_m,
            ring,
            first,
            last,
        );
    }
}

/// Where the seam of a ring separates its last occupied cell from its first,
/// the two have different labels, unless the ring is one segment.
proof fn seam_cut_keeps_ends_apart(
    before: Seq<RangeNode>,
    after: Seq<RangeNode>,
    rows: Seq<Vec<GraphNode>>,
    splits: Seq<bool>,
    seams: Seq<bool>,
    th_z: u32,
    min_gap_m: u32,
    seam_measures: Seq<SplitMeasure>,
    ring: int,
    first: int,
    last: int,
)
    requires
        segmented(before, after, rows, splits, seams),
        seams == seams_of(before, seam_measures, th_z, min_gap_m),
        0 <= ring < 32,
        0 <= first <= last < 3600,
        before[cell_index(ring, first)].valid,
        before[cell_index(ring, last)].valid,
        forall|col: int| #![trigger cell_index(ring, col)]
            0 <= col < first || last < col < 3600 ==> !before[cell_index(ring, col)].valid,
        split_test(
            before,
            cell_index(ring, first),
            cell_index(ring, last),
            ring,
            seam_measures[ring],
            th_z,
            min_gap_m,
        ),
        rows[ring]@.len() >= 2,
    ensures
        after[cell_index(ring, first)].alpha != after[cell_index(ring, last)].alpha,
{
    assert forall|i: int| #![trigger before[i]]
        cell_index(ring, 0) <= i < cell_index(ring, first) || cell_index(ring, last) < i
            < cell_index(ring, 3600) implies !before[i].valid by {
        assert(i == cell_index(ring, i - cell_index(ring, 0)));
    }
    first_occupied_is(before, ring, 0, Some(cell_index(ring, first) as usize));
    latest_is_last_occupied(before, ring, 3600, Some(cell_index(ring, last) as usize));
    assert(seams[ring]);
    empty_cells_change_nothing(before, splits, ring, 1, 0, first);
    empty_cells_change_nothing(before, splits, ring, 1, last + 1, 3600);
    assert(describes_ring(rows[ring]@, before, splits, seams[ring], ring));
    opened_bound(before, splits, ring, 3600);
}

/// What the segments of a ring list: segment `k` has exactly the occupied
/// cells of the ring with the label `k + 1`, and its columns run from the
/// first of them to the last. Every occupied cell has the label of a segment.
/// Empty cells, and all of a cell but its label, stay as they were.
pub proof fn segments_list_their_cells(
    before: Seq<RangeNode>,
    after: Seq<RangeNode>,
    rows: Seq<Vec<GraphNode>>,
    splits: Seq<bool>,
    seams: Seq<bool>,
    ring: int,
    k: int,
    col: int,
)
    requires
        before.len() == 115200,
        segmented(before, after, rows, splits, seams),
        0 <= ring < 32,
        0 <= k < rows[ring]@.len(),
        0 <= col < 3600,
    ensures
        ({
            let s = rows[ring]@[k];
            let cell = 3600 * ring + col;
            let has = s.members@.contains(cell as i32);
            &&& has <==> before[cell].valid && after[cell].alpha == k + 1
            &&& has ==> s.start_pos <= col <= s.end_pos
            &&& s.members@.len() > 0
            &&& s.members@.contains((3600 * ring + s.start_pos) as i32)
            &&& s.members@.contains((3600 * ring + s.end_pos) as i32)
            &&& s.alpha == k + 1
            &&& s.cluster == -1
            &&& before[cell].valid ==> 1 <= after[cell].alpha <= rows[ring]@.len()
            &&& after[cell] == (RangeNode { alpha: after[cell].alpha, ..before[cell] })
            &&& !before[cell].valid ==> after[cell] == before[cell]
        }),
{
    let row = rows[ring]@;
    let cell = cell_index(ring, col);
    assert(cell == 3600 * ring + col);
    assert(describes_ring(row, before, splits, seams[ring], ring));
    assert(describes_segment(row[k], before, splits, seams[ring], ring, k + 1));
    described_ring_lists_cells(row, before, splits, seams[ring], ring);
    segments_partition_ring(row, before, splits, seams[ring], ring, col);
    opened_bound(before, splits, ring, col + 1);
    opened_bound(before, splits, ring, 3600);
    let s = row[k];
    let n = s.members@.len();
    segment_member_is(row, before, splits, seams[ring], ring, k, 0);
    segment_member_is(row, before, splits, seams[ring], ring, k, n - 1);
    assert(s.members@[0] == 3600 * ring + s.start_pos);
    assert(s.members@[n - 1] == 3600 * ring + s.end_pos);
    assert(s.members@.contains(s.members@[0]) && s.members@.contains(s.members@[n - 1]));
    if s.members@.contains(cell as i32) {
        let t = choose|t: int| 0 <= t < n && s.members@[t] == cell as i32;
        if 0 < t {
            members_ascend(row, before, splits, seams[ring], ring, k, 0, t);
        }
        if t < n - 1 {
            members_ascend(row, before, splits, seams[ring], ring, k, t, n - 1);
        }
    }
}

/// Where a point lands: in the cell of its ring and of its tenth of a degree.
/// It takes the cell where that is empty or holds a point that is farther, and
/// brings all its numbers with it; no other cell changes.
pub proof fn point_lands_in_its_column(
    nodes: Seq<RangeNode>,
    ring: int,
    az: i32,
    x: u32,
    y: u32,
    z: u32,
    range: u32,
    point_idx: i32,
    k: int,
)
    requires
        nodes.len() == 115200,
        0 <= ring < 32,
        0 <= az < 36000,
        0 <= k < 115200,
    ensures
        ({
            let node = point_node(x, y, z, range, az, point_idx);
            let after = offered(nodes, cell_index(ring, column_of(az as int)), node);
            let here = k / 3600 == ring && 10 * (k % 3600) <= az < 10 * (k % 3600) + 10;
            &&& after.len() == 115200
            &&& !here ==> after[k] == nodes[k]
            &&& here && nodes[k].valid && !less(range, nodes[k].range) ==> after[k] == nodes[k]
            &&& here && (!nodes[k].valid || less(range, nodes[k].range)) ==> {
                &&& after[k].x == x
                &&& after[k].y == y
                &&& after[k].z == z
                &&& after[k].range == range
                &&& after[k].azimuth_centideg == az
                &&& after[k].point_idx == point_idx
                &&& after[k].valid
                &&& after[k].alpha == -1
                &&& after[k].beta == -1
            }
        }),
{
}

/// The larger of two numbers is one of them, and neither is above it; what is
/// not a number is left out where the other is one.
pub proof fn larger_is_the_upper_bound(a: u32, b: u32)
    ensures
        larger(a, b) == a || larger(a, b) == b,
        !nan(a) ==> at_most(a, larger(a, b)),
        !nan(b) ==> at_most(b, larger(a, b)),
        nan(larger(a, b)) ==> nan(a) && nan(b),
{
}

/// Labels ascend along a ring, but where the last segment continues into the
/// first across the seam.
pub proof fn labels_ascend_along_a_ring(
    before: Seq<RangeNode>,
    after: Seq<RangeNode>,
    rows: Seq<Vec<GraphNode>>,
    splits: Seq<bool>,
    seams: Seq<bool>,
    ring: int,
    c: int,
    d: int,
)
    requires
        segmented(before, after, rows, splits, seams),
        0 <= ring < 32,
        0 <= c < d < 3600,
        before[3600 * ring + c].valid,
        before[3600 * ring + d].valid,
    ensures
        after[3600 * ring + c].alpha <= after[3600 * ring + d].alpha || (after[3600 * ring
            + d].alpha == 1 && forall|col: int|
            #![trigger after[3600 * ring + col]]
            d <= col < 3600 && before[3600 * ring + col].valid ==> after[3600 * ring + col].alpha
                == 1),
{
    assert(cell_index(ring, c) == 3600 * ring + c && cell_index(ring, d) == 3600 * ring + d);
    opened_grows(before, splits, ring, c + 1, d + 1);
    opened_grows(before, splits, ring, d + 1, 3600);
    opened_bound(before, splits, ring, c + 1);
    opened_bound(before, splits, ring, d + 1);
    opened_bound(before, splits, ring, 3600);
    assert forall|col: int|
        #![trigger after[3600 * ring + col]]
        d <= col < 3600 && before[3600 * ring + col].valid && opened(before, splits, ring, d + 1)
            == opened(before, splits, ring, 3600) && joined(
            before,
            splits,
            seams[ring],
            ring,
        ) implies after[3600 * ring + col].alpha == 1 by {
        assert(cell_index(ring, col) == 3600 * ring + col);
        opened_grows(before, splits, ring, d + 1, col + 1);
        opened_grows(before, splits, ring, col + 1, 3600);
    }
}

/// The gap between two azimuths leads from one to the other, forward or back.
pub proof fn gap_leads_from_one_to_the_other(a: int, b: int)
    ensures
        (b + circular_gap(a, b)) % 36000 == a % 36000 || (b - circular_gap(a, b)) % 36000 == a
            % 36000,
        0 <= circular_gap(a, b) <= 18000,
{
}

/// Only the first segment of a ring can continue across the seam: all members
/// of any other come before it.
pub proof fn only_the_first_segment_crosses_the_seam(
    before: Seq<RangeNode>,
    after: Seq<RangeNode>,
    rows: Seq<Vec<GraphNode>>,
    splits: Seq<bool>,
    seams: Seq<bool>,
    ring: int,
    k: int,
)
    requires
        segmented(before, after, rows, splits, seams),
        0 <= ring < 32,
        0 <= k < rows[ring]@.len(),
    ensures
        rows[ring]@[k].head <= rows[ring]@[k].members@.len(),
        k > 0 ==> rows[ring]@[k].head == rows[ring]@[k].members@.len(),
        seams[ring] ==> rows[ring]@[k].head == rows[ring]@[k].members@.len(),
{
    assert(describes_ring(rows[ring]@, before, splits, seams[ring], ring));
    assert(describes_segment(rows[ring]@[k], before, splits, seams[ring], ring, k + 1));
}

/// A cell that no point has landed in is in no segment and no cluster and
/// names no point.
pub proof fn empty_cells_hold_nothing()
    ensures
        !empty_node().valid,
        empty_node().point_idx == -1,
        empty_node().alpha == -1,
        empty_node().beta == -1,
        empty_node().x == 0,
        empty_node().y == 0,
        empty_node().z == 0,
        empty_node().range == 0,
        empty_node().azimuth_centideg == 0,
{
}

} // verus!
