use rslidar::flood::flood_fill;
use rslidar::range_graph::{RangeGraph, RangeNode, SplitMeasure, NUM_COLS, NUM_RINGS};
use rslidar::set_graph::{GraphNode, LinkMeasure, SegmentMeans, SetGraph};
use std::collections::{BTreeMap, HashMap, VecDeque};

struct Lcg(u64);

impl Lcg {
    fn next(&mut self, n: u64) -> u64 {
        self.0 = self.0.wrapping_mul(6364136223846793005).wrapping_add(1442695040888963407);
        (self.0 >> 33) % n
    }
}

fn random_graph(seed: u64, points: usize) -> RangeGraph {
    let mut rng = Lcg(seed);
    let mut g = RangeGraph::new();
    for p in 0..points {
        let ring = rng.next(6) as usize;
        let az = rng.next(400) as i32 * if rng.next(2) == 0 { 10 } else { 90 };
        let r = (1.0 + rng.next(100) as f32).to_bits();
        g.insert(ring, az, r, r, r, r, p as i32);
    }
    g
}

#[test]
fn empty_cells_and_segments() {
    let n = RangeNode::new();
    assert!(!n.valid && n.point_idx == -1 && n.alpha == -1 && n.beta == -1 && n.range == 0);
    let g = GraphNode::new();
    assert!(g.members.is_empty() && g.alpha == -1 && g.cluster == -1);
    assert_eq!((g.start_pos, g.end_pos), (-1, -1));
    let r = RangeGraph::new();
    assert_eq!(r.nodes.len(), NUM_RINGS * NUM_COLS);
    assert!(r.nodes.iter().all(|n| !n.valid));
    assert_eq!(SetGraph::new().nodes.len(), NUM_RINGS);
}

#[test]
fn a_cell_keeps_the_nearest_point() {
    let mut g = RangeGraph::new();
    for (i, r) in [5.0f32, 7.0, 3.0, 3.0, 4.0].iter().enumerate() {
        g.insert(2, 1234, 0, 0, 0, r.to_bits(), i as i32);
    }
    let n = &g.nodes[2 * NUM_COLS + 123];
    assert!(n.valid);
    assert_eq!((n.point_idx, f32::from_bits(n.range), n.azimuth_centideg), (2, 3.0, 1234));
    assert_eq!(g.nodes.iter().filter(|n| n.valid).count(), 1);
    g.clear();
    assert!(g.nodes.iter().all(|n| !n.valid && n.point_idx == -1));
}

#[test]
fn split_needs_cells_inside_both_segments() {
    let mut g = RangeGraph::new();
    let far = SplitMeasure { dist: 9.0f32.to_bits(), scaled: 0, angle: 0, toward: 0 };
    let base = 3 * NUM_COLS;
    for az in [90, 100, 110, 120] {
        g.insert(3, az, 0, 0, 0, 1.0f32.to_bits(), 0);
    }
    assert_eq!(g.get_vecs(base + 11, base + 10, 3), Some((base + 12, base + 9)));
    assert!(g.should_split(base + 11, base + 10, 3, &far, 0, 0.5f32.to_bits()));
    assert_eq!(g.get_vecs(base + 12, base + 11, 3), None);
    assert!(!g.should_split(base + 12, base + 11, 3, &far, 0, 0.5f32.to_bits()));
    g.insert(3, 0, 0, 0, 0, 1.0f32.to_bits(), 0);
    g.insert(3, 10, 0, 0, 0, 1.0f32.to_bits(), 0);
    g.insert(3, 35990, 0, 0, 0, 1.0f32.to_bits(), 0);
    g.insert(3, 35980, 0, 0, 0, 1.0f32.to_bits(), 0);
    assert_eq!(g.get_vecs(base, base + 3599, 3), Some((base + 1, base + 3598)));
}

fn verdict(dist: f32, scaled: f32, angle: f32, toward: f32) -> bool {
    let mut g = RangeGraph::new();
    for az in [90, 100, 110, 120] {
        g.insert(0, az, 0, 0, 0, 1.0f32.to_bits(), 0);
    }
    let m = SplitMeasure {
        dist: dist.to_bits(),
        scaled: scaled.to_bits(),
        angle: angle.to_bits(),
        toward: toward.to_bits(),
    };
    g.should_split(11, 10, 0, &m, 0.1f32.to_bits(), 0.5f32.to_bits())
}

#[test]
fn split_by_distance_or_concave_corner() {
    for dist in [0.4f32, 0.5, 0.51, 2.0, f32::NAN] {
        for scaled in [0.1f32, 0.5, 1.5, f32::NAN] {
            for angle in [0.05f32, 0.1, 3.0, f32::NAN] {
                for toward in [-1.0f32, 0.0, 1.0, f32::NAN] {
                    let expect = dist > scaled.max(0.5) || (angle < 0.1 && toward > 0.0);
                    assert_eq!(verdict(dist, scaled, angle, toward), expect);
                }
            }
        }
    }
}

#[test]
fn cells_know_their_predecessors() {
    let g = random_graph(5, 500);
    let pre = g.predecessors();
    for ring in 0..NUM_RINGS {
        let mut last = None;
        let mut ends: Option<(usize, usize)> = None;
        for col in 0..NUM_COLS {
            let i = ring * NUM_COLS + col;
            if g.nodes[i].valid {
                assert_eq!(pre[i], last);
                last = Some(i);
                ends = Some((ends.map_or(i, |e| e.0), i));
            }
        }
        assert_eq!(g.ring_ends(ring), ends);
    }
}

struct Row {
    alpha: i32,
    start: i32,
    end: i32,
    members: Vec<i32>,
}

fn expected_segments(
    nodes: &mut Vec<RangeNode>,
    splits: &[bool],
    seams: &[bool],
) -> Vec<Vec<Row>> {
    let mut out = Vec::new();
    for i in 0..NUM_RINGS {
        let mut l_cnt = 0;
        let mut map: BTreeMap<i32, Vec<i32>> = BTreeMap::new();
        for j in 0..NUM_COLS {
            let idx = i * NUM_COLS + j;
            if !nodes[idx].valid {
                continue;
            }
            if l_cnt == 0 || splits[idx] {
                l_cnt += 1;
            }
            nodes[idx].alpha = l_cnt;
            map.entry(l_cnt).or_insert_with(Vec::new).push(idx as i32);
        }
        let cols: Vec<usize> =
            (0..NUM_COLS).map(|j| i * NUM_COLS + j).filter(|&k| nodes[k].valid).collect();
        if let (Some(&f), Some(&l)) = (cols.first(), cols.last()) {
            let (fa, la) = (nodes[f].alpha, nodes[l].alpha);
            if fa != la && !seams[i] {
                let tail = map.remove(&la).unwrap();
                for &k in &tail {
                    nodes[k as usize].alpha = fa;
                }
                map.get_mut(&fa).unwrap().extend(tail);
            }
        }
        let base = (i * NUM_COLS) as i32;
        let mut rows: Vec<Row> = map
            .into_iter()
            .map(|(alpha, members)| Row {
                alpha,
                start: members.iter().min().unwrap() - base,
                end: members.iter().max().unwrap() - base,
                members,
            })
            .collect();
        rows.sort_by_key(|r| r.start);
        out.push(rows);
    }
    out
}

fn segmented(seed: u64, points: usize) -> (RangeGraph, SetGraph, Vec<Vec<Row>>) {
    let mut g = random_graph(seed, points);
    let mut rng = Lcg(seed * 31 + 7);
    let splits: Vec<bool> = (0..g.nodes.len()).map(|_| rng.next(4) == 0).collect();
    let seams: Vec<bool> = (0..NUM_RINGS).map(|_| rng.next(2) == 0).collect();
    let mut nodes = g.nodes.clone();
    let expect = expected_segments(&mut nodes, &splits, &seams);
    let mut s = SetGraph::new();
    g.cut_rings(&mut s, &splits, &seams);
    for (a, b) in g.nodes.iter().zip(nodes.iter()) {
        assert_eq!((a.alpha, a.beta, a.valid, a.point_idx), (b.alpha, b.beta, b.valid, b.point_idx));
    }
    (g, s, expect)
}

#[test]
fn rings_are_cut_into_segments() {
    for seed in 1..12 {
        for points in [0usize, 1, 5, 60, 800] {
            let (_, s, expect) = segmented(seed, points);
            for i in 0..NUM_RINGS {
                assert_eq!(s.nodes[i].len(), expect[i].len());
                for (n, e) in s.nodes[i].iter().zip(expect[i].iter()) {
                    assert_eq!((n.alpha, n.start_pos, n.end_pos), (e.alpha, e.start, e.end));
                    assert_eq!(n.members, e.members);
                    assert_eq!(n.cluster, -1);
                    assert_eq!((n.range, n.x_mean, n.y_mean, n.z_mean), (0, 0, 0, 0));
                    assert!(n.head <= n.members.len());
                }
            }
        }
    }
}

#[test]
fn segment_joined_across_the_seam() {
    let mut g = RangeGraph::new();
    for az in [0, 10, 20, 18000, 18010, 35980, 35990] {
        g.insert(0, az, 0, 0, 0, 1.0f32.to_bits(), 0);
    }
    let mut splits = vec![false; g.nodes.len()];
    splits[1800] = true;
    splits[3598] = true;
    let mut seams = vec![true; NUM_RINGS];
    let mut s = SetGraph::new();
    let mut apart = RangeGraph { nodes: g.nodes.clone() };
    apart.cut_rings(&mut s, &splits, &seams);
    assert_eq!(s.nodes[0].len(), 3);
    seams[0] = false;
    g.cut_rings(&mut s, &splits, &seams);
    assert_eq!(s.nodes[0].len(), 2);
    assert_eq!(s.nodes[0][0].members, vec![0, 1, 2, 3598, 3599]);
    assert_eq!(s.nodes[0][0].head, 3);
    assert_eq!((s.nodes[0][0].start_pos, s.nodes[0][0].end_pos), (0, 3599));
    assert_eq!(g.nodes[3599].alpha, 1);
    assert_eq!(g.nodes[1800].alpha, 2);
    s.clear();
    assert!(s.nodes.iter().all(|r| r.is_empty()) && s.nodes.len() == NUM_RINGS);
}

fn expected_candidates(rows: &[Vec<GraphNode>], ri: usize, ci: usize) -> Vec<(usize, usize)> {
    let mut out = Vec::new();
    let cur = &rows[ri][ci];
    for dr in [-1i32, 1] {
        let rn = ri as i32 + dr;
        if rn < 0 || rn as usize >= NUM_RINGS {
            continue;
        }
        let rn = rn as usize;
        let (mut before, mut after) = (None, None);
        for (cn, cand) in rows[rn].iter().enumerate() {
            if cand.end_pos < cur.start_pos {
                before = Some(cn);
                continue;
            }
            if cand.start_pos > cur.end_pos {
                after = Some(cn);
                break;
            }
            out.push((rn, cn));
        }
        out.extend(before.map(|c| (rn, c)));
        out.extend(after.map(|c| (rn, c)));
    }
    out
}

fn link(dist: f32) -> LinkMeasure {
    LinkMeasure {
        full: dist.to_bits(),
        flat: 9.0f32.to_bits(),
        dz: 1.0f32.to_bits(),
        dz_gate: 0,
        scaled: 0.1f32.to_bits(),
    }
}

const FLOOR: u32 = 0x3f80_0000;

fn random_links(s: &SetGraph, seed: u64, density: u64) -> Vec<Vec<Vec<LinkMeasure>>> {
    let mut rng = Lcg(seed);
    let mut links = Vec::new();
    for i in 0..NUM_RINGS {
        let mut row = Vec::new();
        for j in 0..s.nodes[i].len() {
            let n = s.candidates(i, j).len();
            row.push(
                (0..n)
                    .map(|_| link(if rng.next(10) < density { 0.0 } else { 2.0 }))
                    .collect(),
            );
        }
        links.push(row);
    }
    links
}

#[test]
fn candidates_overlap_or_are_next() {
    for seed in 1..8 {
        let (_, s, _) = segmented(seed, 700);
        let links = random_links(&s, seed, 5);
        for i in 0..NUM_RINGS {
            for j in 0..s.nodes[i].len() {
                let expect = expected_candidates(&s.nodes, i, j);
                assert_eq!(s.candidates(i, j), expect);
                let near: Vec<(usize, usize)> = expect
                    .iter()
                    .zip(links[i][j].iter())
                    .filter(|(_, l)| l.full == 0)
                    .map(|(&c, _)| c)
                    .collect();
                assert_eq!(s.get_neighbors(i, j, &links[i][j], FLOOR), near);
            }
        }
    }
}

#[test]
fn segments_are_flooded_into_clusters() {
    for seed in 1..10 {
        for density in [0u64, 2, 5, 10] {
            let (mut g, mut s, _) = segmented(seed, 700);
            let links = random_links(&s, seed + 100, density);
            let mut cluster: Vec<Vec<i32>> = s.nodes.iter().map(|r| vec![-1; r.len()]).collect();
            let mut count = 0;
            for i in 0..NUM_RINGS {
                for j in 0..s.nodes[i].len() {
                    if cluster[i][j] != -1 {
                        continue;
                    }
                    count += 1;
                    cluster[i][j] = count;
                    let mut q = VecDeque::from([(i, j)]);
                    while let Some((ri, ci)) = q.pop_front() {
                        for (rn, cn) in s.get_neighbors(ri, ci, &links[ri][ci], FLOOR) {
                            if cluster[rn][cn] == -1 {
                                cluster[rn][cn] = count;
                                q.push_back((rn, cn));
                            }
                        }
                    }
                }
            }
            let mut sizes: HashMap<i32, usize> = HashMap::new();
            for i in 0..NUM_RINGS {
                for j in 0..s.nodes[i].len() {
                    *sizes.entry(cluster[i][j]).or_insert(0) += s.nodes[i][j].members.len();
                }
            }
            let mut beta: Vec<i32> = g.nodes.iter().map(|n| n.beta).collect();
            for i in 0..NUM_RINGS {
                for j in 0..s.nodes[i].len() {
                    let c = cluster[i][j];
                    for &m in &s.nodes[i][j].members {
                        beta[m as usize] = if sizes[&c] >= 10 { c } else { -1 };
                    }
                }
            }
            assert_eq!(s.second_segmentation(&mut g, &links, 10, FLOOR), count);
            for i in 0..NUM_RINGS {
                for j in 0..s.nodes[i].len() {
                    assert_eq!(s.nodes[i][j].cluster, cluster[i][j]);
                }
            }
            assert_eq!(g.nodes.iter().map(|n| n.beta).collect::<Vec<i32>>(), beta);
        }
    }
}

#[test]
fn small_clusters_are_not_published() {
    let mut g = RangeGraph::new();
    for az in 0..10 {
        g.insert(0, az * 10, 0, 0, 0, 1.0f32.to_bits(), az);
    }
    g.insert(5, 0, 0, 0, 0, 1.0f32.to_bits(), 10);
    let splits = vec![false; g.nodes.len()];
    let seams = vec![true; NUM_RINGS];
    let mut s = SetGraph::new();
    g.cut_rings(&mut s, &splits, &seams);
    let links = random_links(&s, 1, 0);
    assert_eq!(s.second_segmentation(&mut g, &links, 10, FLOOR), 2);
    assert_eq!(g.nodes[3].beta, 1);
    assert_eq!(g.nodes[5 * NUM_COLS].beta, -1);
    assert_eq!(s.nodes[5][0].cluster, 2);
    assert_eq!(s.second_segmentation(&mut g, &links, 11, FLOOR), 2);
    assert_eq!(g.nodes[3].beta, -1);
    assert_eq!(s.second_segmentation(&mut g, &links, 0, FLOOR), 2);
    assert_eq!(g.nodes[5 * NUM_COLS].beta, 2);
}

#[test]
fn flood_fill_follows_directed_links() {
    let adj: Vec<Vec<usize>> = vec![vec![2], vec![], vec![], vec![0, 1], vec![3], vec![5]];
    let (labels, count) = flood_fill(&adj);
    assert_eq!(labels, vec![1, 2, 1, 3, 4, 5]);
    assert_eq!(count, 5);
    let (labels, count) = flood_fill(&vec![vec![1], vec![2], vec![0], vec![]]);
    assert_eq!(labels, vec![1, 1, 1, 2]);
    assert_eq!(count, 2);
    assert_eq!(flood_fill(&vec![]), (vec![], 0));
}

#[test]
fn published_clusters_hold_enough_cells() {
    for seed in 1..6 {
        let (mut g, mut s, _) = segmented(seed, 900);
        let links = random_links(&s, seed, 4);
        s.second_segmentation(&mut g, &links, 25, FLOOR);
        let mut cells: HashMap<i32, usize> = HashMap::new();
        for n in g.nodes.iter().filter(|n| n.valid && n.beta != -1) {
            *cells.entry(n.beta).or_insert(0) += 1;
        }
        for row in &s.nodes {
            for node in row {
                let size: usize = s
                    .nodes
                    .iter()
                    .flatten()
                    .filter(|o| o.cluster == node.cluster)
                    .map(|o| o.members.len())
                    .sum();
                assert_eq!(cells.get(&node.cluster).copied(), (size >= 25).then_some(size));
            }
        }
    }
}

fn xy(n: &RangeNode) -> (f32, f32) {
    (f32::from_bits(n.x), f32::from_bits(n.y))
}

fn measure(g: &RangeGraph, cur: usize, pre: usize, th_d: f32) -> SplitMeasure {
    let none = SplitMeasure { dist: 0, scaled: 0, angle: 0, toward: 0 };
    let Some((ci, pi)) = g.get_vecs(cur, pre, cur / NUM_COLS) else {
        return none;
    };
    let (c, p) = (xy(&g.nodes[cur]), xy(&g.nodes[pre]));
    let (a, b) = (xy(&g.nodes[ci]), xy(&g.nodes[pi]));
    let v1 = (a.0 - c.0, a.1 - c.1);
    let v2 = (b.0 - p.0, b.1 - p.1);
    let norm = |v: (f32, f32)| (v.0 * v.0 + v.1 * v.1).sqrt();
    let dot = |u: (f32, f32), v: (f32, f32)| u.0 * v.0 + u.1 * v.1;
    let sum = (v1.0 + v2.0, v1.1 + v2.1);
    let bisector = (sum.0 / norm(sum), sum.1 / norm(sum));
    let mid = (-(c.0 + p.0) / 2.0, -(c.1 + p.1) / 2.0);
    let gap = RangeGraph::azimuth_gap_centideg(
        g.nodes[cur].azimuth_centideg,
        g.nodes[pre].azimuth_centideg,
    );
    let range = (f32::from_bits(g.nodes[cur].range) + f32::from_bits(g.nodes[pre].range)) / 2.0;
    SplitMeasure {
        dist: norm((c.0 - p.0, c.1 - p.1)).to_bits(),
        scaled: (th_d * range * (gap as f32 / 100.0).to_radians()).to_bits(),
        angle: (dot(v1, v2) / (norm(v1) * norm(v2))).acos().to_bits(),
        toward: dot(mid, bisector).to_bits(),
    }
}

fn measures(g: &RangeGraph, th_d: f32) -> (Vec<SplitMeasure>, Vec<SplitMeasure>) {
    let none = SplitMeasure { dist: 0, scaled: 0, angle: 0, toward: 0 };
    let cells = g
        .predecessors()
        .iter()
        .enumerate()
        .map(|(i, p)| p.map_or(none, |p| measure(g, i, p, th_d)))
        .collect();
    let seams = (0..NUM_RINGS)
        .map(|r| g.ring_ends(r).map_or(none, |(f, l)| measure(g, f, l, th_d)))
        .collect();
    (cells, seams)
}

fn put(g: &mut RangeGraph, ring: usize, az: i32, x: f32, y: f32, range: f32, i: i32) {
    g.insert(ring, az, x.to_bits(), y.to_bits(), 0, range.to_bits(), i);
}

#[test]
fn a_wide_gap_cuts_a_ring() {
    let mut g = RangeGraph::new();
    put(&mut g, 0, 100, 1.0, 0.0, 1.0, 0);
    put(&mut g, 0, 110, 1.0, 0.1, 1.0, 1);
    put(&mut g, 0, 120, 9.0, 0.0, 9.0, 2);
    put(&mut g, 0, 130, 9.0, 0.1, 9.0, 3);
    let (cells, seams) = measures(&g, 5.0);
    let mut s = SetGraph::new();
    g.first_segmentation(&mut s, &cells, &seams, 0, 0.5f32.to_bits());
    assert_eq!(s.nodes[0].len(), 2);
    let (a, b) = (&s.nodes[0][0], &s.nodes[0][1]);
    assert_eq!((a.alpha, a.start_pos, a.end_pos), (1, 10, 11));
    assert_eq!(a.members, vec![10, 11]);
    assert_eq!((b.alpha, b.start_pos, b.end_pos), (2, 12, 13));
    assert_eq!(b.members, vec![12, 13]);
    assert!(s.nodes[1..].iter().all(|r| r.is_empty()));
    let one = 1.0f32.to_bits();
    let nine = 9.0f32.to_bits();
    let mut means: Vec<Vec<SegmentMeans>> = vec![vec![]; NUM_RINGS];
    means[0] = vec![
        SegmentMeans { range: one, x: one, y: 0.05f32.to_bits(), z: 0 },
        SegmentMeans { range: nine, x: nine, y: 0.05f32.to_bits(), z: 7 },
    ];
    s.set_means(&means);
    let (a, b) = (&s.nodes[0][0], &s.nodes[0][1]);
    assert_eq!((a.range, a.x_mean, a.y_mean, a.z_mean), (one, one, 0.05f32.to_bits(), 0));
    assert_eq!((b.range, b.x_mean, b.z_mean), (nine, nine, 7));
    assert_eq!((b.alpha, b.members.clone()), (2, vec![12, 13]));
}

#[test]
fn the_floor_holds_for_every_pair() {
    let mut g = RangeGraph::new();
    for (i, (az, x)) in [(100, 1.0f32), (110, 1.0), (120, 1.4), (130, 1.4)].iter().enumerate() {
        put(&mut g, 0, *az, *x, 0.05 * (i % 2) as f32, *x, i as i32);
    }
    for (floor, segments) in [(0.3f32, 2), (0.5, 1)] {
        let mut h = RangeGraph { nodes: g.nodes.clone() };
        let (cells, seams) = measures(&h, 1.0);
        let mut s = SetGraph::new();
        h.first_segmentation(&mut s, &cells, &seams, 0, floor.to_bits());
        assert_eq!(s.nodes[0].len(), segments);
        assert_eq!(h.nodes[11].alpha == h.nodes[12].alpha, segments == 1);
    }
}

#[test]
fn rings_are_cut_where_the_split_test_says() {
    for seed in 1..10u64 {
        let mut rng = Lcg(seed);
        let mut g = RangeGraph::new();
        for p in 0..2500 {
            let ring = rng.next(3) as usize;
            let az = rng.next(3600) as i32 * 10;
            let r = 2.0 + rng.next(3) as f32 * if rng.next(20) == 0 { 2.0 } else { 0.1 };
            let a = (az as f32 / 100.0).to_radians();
            put(&mut g, ring, az, r * a.cos(), -r * a.sin(), r, p);
        }
        let (th_z, floor) = (0.6f32.to_bits(), 0.25f32.to_bits());
        let (cells, seam_measures) = measures(&g, 1.5);
        let pre = g.predecessors();
        let splits: Vec<bool> = (0..g.nodes.len())
            .map(|i| {
                pre[i].is_some_and(|p| {
                    g.should_split(i, p, i / NUM_COLS, &cells[i], th_z, floor)
                })
            })
            .collect();
        let seams: Vec<bool> = (0..NUM_RINGS)
            .map(|r| {
                g.ring_ends(r).is_some_and(|(f, l)| {
                    g.should_split(f, l, r, &seam_measures[r], th_z, floor)
                })
            })
            .collect();
        assert!(splits.iter().any(|&b| b) && splits.iter().any(|&b| !b));
        assert_eq!(g.cuts(&cells, th_z, floor), splits);
        assert_eq!(g.seams(&seam_measures, th_z, floor), seams);
        let before = g.nodes.clone();
        let mut nodes = g.nodes.clone();
        let expect = expected_segments(&mut nodes, &splits, &seams);
        let mut s = SetGraph::new();
        g.first_segmentation(&mut s, &cells, &seam_measures, th_z, floor);
        for i in 0..NUM_RINGS {
            assert_eq!(s.nodes[i].len(), expect[i].len());
            for (n, e) in s.nodes[i].iter().zip(expect[i].iter()) {
                assert_eq!((n.alpha, &n.members), (e.alpha, &e.members));
            }
        }
        for i in 0..before.len() {
            assert_eq!(g.nodes[i].alpha, nodes[i].alpha);
            if let Some(p) = pre[i] {
                let ring = i / NUM_COLS;
                if !splits[i] {
                    assert_eq!(g.nodes[i].alpha, g.nodes[p].alpha);
                } else if s.nodes[ring].len() > 1 {
                    assert!(g.nodes[i].alpha != g.nodes[p].alpha);
                }
            }
        }
        for r in 0..NUM_RINGS {
            if let Some((f, l)) = g.ring_ends(r) {
                if !seams[r] {
                    assert_eq!(g.nodes[f].alpha, g.nodes[l].alpha);
                    let holders: Vec<&GraphNode> = s.nodes[r]
                        .iter()
                        .filter(|n| n.members.contains(&(f as i32)) || n.members.contains(&(l as i32)))
                        .collect();
                    assert_eq!(holders.len(), 1);
                }
            }
        }
    }
}

#[test]
fn segments_merge_below_the_threshold() {
    let mut g = RangeGraph::new();
    put(&mut g, 0, 0, 1.0, 0.0, 1.0, 0);
    put(&mut g, 1, 0, 1.0, 0.0, 1.0, 1);
    let none = SplitMeasure { dist: 0, scaled: 0, angle: 0, toward: 0 };
    let mut s = SetGraph::new();
    g.first_segmentation(&mut s, &vec![none; g.nodes.len()], &vec![none; NUM_RINGS], 0, 0);
    let values = [0.0f32, 0.3, 0.5, 0.7, 2.0, f32::NAN];
    for full in values {
        for flat in values {
            for dz in values {
                for scaled in values {
                    let m = LinkMeasure {
                        full: full.to_bits(),
                        flat: flat.to_bits(),
                        dz: dz.to_bits(),
                        dz_gate: 0.5f32.to_bits(),
                        scaled: scaled.to_bits(),
                    };
                    let dist = if dz < 0.5 { flat } else { full };
                    let near = dist < scaled.max(0.5);
                    let got = s.get_neighbors(0, 0, &vec![m], 0.5f32.to_bits());
                    assert_eq!(got, if near { vec![(1, 0)] } else { vec![] });
                }
            }
        }
    }
}

#[test]
fn no_cluster_number_is_skipped() {
    for seed in 1..6 {
        for density in [0u64, 3, 10] {
            let (mut g, mut s, _) = segmented(seed, 700);
            let links = random_links(&s, seed + 7, density);
            let count = s.second_segmentation(&mut g, &links, 0, FLOOR);
            let mut used = vec![false; count as usize + 1];
            for n in s.nodes.iter().flatten() {
                used[n.cluster as usize] = true;
            }
            assert!(!used[0] && used[1..].iter().all(|&u| u));
        }
    }
}

#[test]
fn near_overlapping_segments_share_their_cluster() {
    let (mut g, mut s, _) = segmented(3, 700);
    let links: Vec<Vec<Vec<LinkMeasure>>> = (0..NUM_RINGS)
        .map(|i| {
            (0..s.nodes[i].len())
                .map(|j| {
                    s.candidates(i, j)
                        .iter()
                        .map(|&(k, l)| link(if (i + j + k + l) % 3 == 0 { 0.0 } else { 2.0 }))
                        .collect()
                })
                .collect()
        })
        .collect();
    let rows: Vec<Vec<(i32, i32)>> = s
        .nodes
        .iter()
        .map(|r| r.iter().map(|n| (n.start_pos, n.end_pos)).collect())
        .collect();
    assert!(rows.iter().all(|r| r.windows(2).all(|w| w[0].0 <= w[1].0)));
    s.second_segmentation(&mut g, &links, 0, FLOOR);
    let mut pairs = 0;
    for i in 0..NUM_RINGS - 1 {
        for (j, a) in rows[i].iter().enumerate() {
            for (l, b) in rows[i + 1].iter().enumerate() {
                if a.0 <= b.1 && b.0 <= a.1 && (2 * i + 1 + j + l) % 3 == 0 {
                    assert_eq!(s.nodes[i][j].cluster, s.nodes[i + 1][l].cluster);
                    pairs += 1;
                }
            }
        }
    }
    assert!(pairs > 0);
}

#[test]
fn segmentation_keeps_the_points_of_the_cells() {
    let (mut g, mut s, _) = segmented(4, 700);
    let before = random_graph(4, 700);
    let links = random_links(&s, 4, 5);
    s.second_segmentation(&mut g, &links, 0, FLOOR);
    for (a, b) in before.nodes.iter().zip(&g.nodes) {
        assert_eq!((a.valid, a.point_idx), (b.valid, b.point_idx));
        assert_eq!((a.x, a.y, a.z, a.range), (b.x, b.y, b.z, b.range));
        assert_eq!(a.azimuth_centideg, b.azimuth_centideg);
    }
}
