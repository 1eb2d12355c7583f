use darkroom_core::cut::{cut_network, graph_cut, residual_reach, Cell, CutGrid, CUT_INF};
use darkroom_core::seam::{rect_overlap, PairCoverage};

fn grid_5x2(right: [i64; 5]) -> CutGrid {
    let row = [Cell::IOnly, Cell::Both, Cell::Both, Cell::Both, Cell::JOnly];
    let mut cells = Vec::new();
    cells.extend_from_slice(&row);
    cells.extend_from_slice(&row);
    let mut r = Vec::new();
    r.extend_from_slice(&right);
    r.extend_from_slice(&right);
    CutGrid {
        gw: 5,
        gh: 2,
        cells,
        probe_i: vec![false; 10],
        probe_j: vec![false; 10],
        right: r,
        down: vec![1; 10],
    }
}

#[test]
fn network_links_terminals_and_neighbours() {
    let grid = grid_5x2([0, 10, 1, 0, 0]);
    let (nodes, arcs) = cut_network(&grid);
    assert_eq!(nodes, vec![0, 1, 3, 4, 5, 8, 9, 10]);
    // Cell 1 (node 3): from the source, to its right and down neighbours.
    assert_eq!(&arcs[0..5], &[((0, 3), CUT_INF), ((3, 4), 10), ((4, 3), 10), ((3, 8), 1), ((8, 3), 1)]);
    // Cell 3 (node 5) borders the frame-j-only column: a link to the sink.
    assert!(arcs.contains(&((5, 1), CUT_INF)));
    assert!(!arcs.iter().any(|((a, b), _)| *a == 1 || *b == 0));
    assert_eq!(arcs.len(), 4 + 2 * 4 + 2 * 3);
}

#[test]
fn residual_search_follows_unsaturated_arcs() {
    // 0 -> 2 (cap 5, flow 5: saturated), 0 -> 3 (cap 5, flow 2), 3 -> 2 (cap 1), 2 -> 1.
    let caps = [((0, 2), 5), ((0, 3), 5), ((3, 2), 1), ((2, 1), 7)];
    let flows = [((0, 2), 5), ((0, 3), 1), ((3, 2), 1), ((2, 1), 6)];
    let seen = residual_reach(4, &caps, &flows);
    // 3 is reachable (4 left), 2 only via 3 -> 2 which is saturated; 1 not at all.
    assert_eq!(seen, vec![true, false, false, true]);
    let none = residual_reach(4, &caps, &[]);
    assert_eq!(none, vec![true, true, true, true]);
}

#[test]
fn graph_cut_follows_the_cheapest_seam() {
    // The links between columns 2 and 3 are cheap, so the cut runs there.
    let grid = grid_5x2([0, 10, 1, 0, 0]);
    let cov = PairCoverage { has_i: vec![true; 10], has_j: vec![true; 10] };
    let mut ids = vec![1u8; 10];
    graph_cut(&mut ids, 5, &grid, &cov, 0, 1, (0, 0, 5, 2), 1);
    assert_eq!(ids, vec![0, 0, 0, 1, 1, 0, 0, 0, 1, 1]);
    // The expensive links now on the other side: the cut moves left.
    let grid2 = grid_5x2([0, 1, 10, 0, 0]);
    let mut ids2 = vec![0u8; 10];
    graph_cut(&mut ids2, 5, &grid2, &cov, 0, 1, (0, 0, 5, 2), 1);
    assert_eq!(ids2, vec![0, 0, 1, 1, 1, 0, 0, 1, 1, 1]);
}

#[test]
fn graph_cut_leaves_thin_or_unshared_overlaps() {
    let grid = grid_5x2([0, 10, 1, 0, 0]);
    let cov = PairCoverage { has_i: vec![true; 5], has_j: vec![true; 5] };
    let mut ids = vec![1u8; 10];
    graph_cut(&mut ids, 5, &grid, &cov, 0, 1, (0, 0, 5, 1), 1);
    assert_eq!(ids, vec![1u8; 10]);
    let lonely = CutGrid {
        gw: 2,
        gh: 2,
        cells: vec![Cell::IOnly, Cell::JOnly, Cell::Neither, Cell::IOnly],
        probe_i: vec![false; 4],
        probe_j: vec![false; 4],
        right: vec![1; 4],
        down: vec![1; 4],
    };
    let cov2 = PairCoverage { has_i: vec![true; 4], has_j: vec![true; 4] };
    let mut ids2 = vec![1u8, 1, 1, 1];
    graph_cut(&mut ids2, 2, &lonely, &cov2, 0, 1, (0, 0, 2, 2), 1);
    assert_eq!(ids2, vec![1u8, 1, 1, 1]);
}

/// Coverage of the two frames of `graph_cut_partitions_overlap`: frame `i` covers columns
/// `[0, split + ov)`, frame `j` columns `[split, canvas_w)`, both every row; both show the same
/// background.
fn classify(cx: i64, cy: i64, canvas_w: i64, canvas_h: i64, split: i64, ov: i64) -> Cell {
    if cx < 0 || cy < 0 || cx >= canvas_w {
        return Cell::Neither;
    }
    let hi = cx < split + ov && cy < canvas_h;
    let hj = cx >= split && cx < canvas_w && cy < canvas_h;
    match (hi, hj) {
        (true, true) => Cell::Both,
        (true, false) => Cell::IOnly,
        (false, true) => Cell::JOnly,
        (false, false) => Cell::Neither,
    }
}

#[test]
fn graph_cut_partitions_overlap() {
    let (cw, ch) = (110usize, 70usize);
    let (split, ov) = (40usize, 40usize);
    let rect = rect_overlap((0, 0, split + ov, ch), (split, 0, cw - split, ch)).unwrap();
    let (rx, ry, ow, oh) = rect;
    // Voronoi start: frame i wherever it has data (equal weights favour i), else j.
    let mut ids: Vec<u8> = (0..cw * ch).map(|p| if p % cw < split + ov { 0 } else { 1 }).collect();
    let stride = (((ow * oh) as f64 / 150_000.0).sqrt().ceil() as usize).max(1);
    let gw = ow.div_ceil(stride);
    let gh = oh.div_ceil(stride);
    let centre = |gx: usize, gy: usize| -> (i64, i64) {
        (
            (rx + (gx * stride + stride / 2).min(ow - 1)) as i64,
            (ry + (gy * stride + stride / 2).min(oh - 1)) as i64,
        )
    };
    let cls = |x: i64, y: i64| classify(x, y, cw as i64, ch as i64, split as i64, ov as i64);
    let mut cells = Vec::new();
    let mut probe_i = Vec::new();
    let mut probe_j = Vec::new();
    for gy in 0..gh {
        for gx in 0..gw {
            let (cx, cy) = centre(gx, gy);
            cells.push(cls(cx, cy));
            let s = stride as i64;
            let mut probes = Vec::new();
            if gx == 0 {
                probes.push(cls(cx - s, cy));
            }
            if gx == gw - 1 {
                probes.push(cls(cx + s, cy));
            }
            if gy == 0 {
                probes.push(cls(cx, cy - s));
            }
            if gy == gh - 1 {
                probes.push(cls(cx, cy + s));
            }
            probe_i.push(probes.contains(&Cell::IOnly));
            probe_j.push(probes.contains(&Cell::JOnly));
        }
    }
    // Identical backgrounds: zero colour disagreement, so every n-link has capacity 0 * scale + 1.
    let grid = CutGrid { gw, gh, cells, probe_i, probe_j, right: vec![1; gw * gh], down: vec![1; gw * gh] };
    let cov = PairCoverage { has_i: vec![true; ow * oh], has_j: vec![true; ow * oh] };
    graph_cut(&mut ids, cw, &grid, &cov, 0, 1, rect, stride);
    assert_eq!(ids[(ch / 2) * cw + rect.0], 0, "left band edge should be frame i");
    assert_eq!(ids[(ch / 2) * cw + rect.0 + rect.2 - 1], 1, "right band edge should be frame j");
}
