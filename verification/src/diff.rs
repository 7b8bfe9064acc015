//! Pixel-level image comparison with a structured report.
//!
//! Two images of equal size are compared pixel by pixel; a pixel differs when
//! one of its four channels differs by more than the threshold. Differing
//! pixels are tallied per square cell of a grid, and 4-connected groups of
//! cells holding differences are reported as regions. A region can be named
//! by the deepest widget under its centre.
use vstd::prelude::*;
use crate::cluster::{
    CellCluster,
    cluster_cells,
    component,
    describes,
    grid_shape,
    is_leader,
    leaders_in_order,
    lemma_component_occupied,
    lemma_component_reflexive,
    lemma_weight_bounds,
    occupied,
    total_below,
    weights_sum,
};
use crate::grid_math::{cells_across, lemma_cells_across, lemma_grid_small, lemma_pixel_cell};
use crate::pixels::PixelBuffer;

verus! {

broadcast use vstd::string::group_string_axioms;

/// Configuration for image comparison.
#[derive(Debug, Clone, Copy)]
pub struct DiffConfig {
    /// Per-channel difference at or below which pixels count as equal.
    pub threshold: u8,
    /// Side of the grid cells used to cluster differences, in pixels
    /// (0 is treated as 1).
    pub cell_size: u32,
}

impl Default for DiffConfig {
    fn default() -> (c: Self)
        ensures
            c.threshold == 0,
            c.cell_size == 32,
    {
        DiffConfig { threshold: 0, cell_size: 32 }
    }
}

/// A group of adjacent grid cells holding differences.
#[derive(Debug, Clone)]
pub struct DiffRegion {
    /// Left edge (pixels).
    pub x: u32,
    /// Top edge (pixels).
    pub y: u32,
    /// Width (pixels), clipped to the image.
    pub width: u32,
    /// Height (pixels), clipped to the image.
    pub height: u32,
    /// Number of differing pixels in the region.
    pub diff_pixels: u64,
    /// "low", "medium" or "high" by the share of differing pixels.
    pub severity: String,
    /// Identifier of the widget shown under the region, when one is known.
    pub widget_id: Option<String>,
}

/// The outcome of a comparison.
#[derive(Debug, Clone)]
pub struct DiffReport {
    /// The images match within the threshold.
    pub passed: bool,
    /// Number of differing pixels.
    pub diff_pixels: u64,
    /// Number of pixels compared.
    pub total_pixels: u64,
    /// Largest per-channel difference over all pixels.
    pub max_channel_diff: u8,
    /// Image width.
    pub width: u32,
    /// Image height.
    pub height: u32,
    /// Regions of differences, in the order of their first cell.
    pub regions: Vec<DiffRegion>,
}

pub open spec fn channel_gap(a: u8, b: u8) -> int {
    if a >= b {
        a - b
    } else {
        b - a
    }
}

pub open spec fn max_of(a: int, b: int) -> int {
    if a >= b {
        a
    } else {
        b
    }
}

/// Largest channel difference of pixel `i`.
pub open spec fn pixel_gap(e: Seq<u8>, a: Seq<u8>, i: int) -> int {
    max_of(
        max_of(channel_gap(e[4 * i], a[4 * i]), channel_gap(e[4 * i + 1], a[4 * i + 1])),
        max_of(channel_gap(e[4 * i + 2], a[4 * i + 2]), channel_gap(e[4 * i + 3], a[4 * i + 3])),
    )
}

/// Pixel `i` differs beyond the threshold.
pub open spec fn pixel_differs(e: Seq<u8>, a: Seq<u8>, threshold: u8, i: int) -> bool {
    pixel_gap(e, a, i) > threshold
}

/// Number of differing pixels among the first `k`.
pub open spec fn differing_below(e: Seq<u8>, a: Seq<u8>, threshold: u8, k: int) -> int
    decreases k,
{
    if k <= 0 {
        0
    } else {
        differing_below(e, a, threshold, k - 1) + if pixel_differs(e, a, threshold, k - 1) {
            1int
        } else {
            0
        }
    }
}

/// Largest channel difference among the first `k` pixels (0 when none).
pub open spec fn max_gap_below(e: Seq<u8>, a: Seq<u8>, k: int) -> int
    decreases k,
{
    if k <= 0 {
        0
    } else {
        max_of(max_gap_below(e, a, k - 1), pixel_gap(e, a, k - 1))
    }
}

/// Side of the clustering cells: the configured size, at least 1.
pub open spec fn cell_side(cell_size: u32) -> int {
    if cell_size == 0 {
        1
    } else {
        cell_size as int
    }
}

/// Row-major index of the grid cell holding pixel `p` of a `w`-wide image.
pub open spec fn pixel_cell(w: int, cs: int, p: int) -> int {
    ((p / w) / cs) * cells_across(w, cs) + (p % w) / cs
}

/// Number of differing pixels among the first `k` that fall in `cell`.
pub open spec fn cell_tally(
    e: Seq<u8>,
    a: Seq<u8>,
    threshold: u8,
    w: int,
    cs: int,
    cell: int,
    k: int,
) -> int
    decreases k,
{
    if k <= 0 {
        0
    } else {
        cell_tally(e, a, threshold, w, cs, cell, k - 1) + if pixel_differs(e, a, threshold, k - 1)
            && pixel_cell(w, cs, k - 1) == cell {
            1int
        } else {
            0
        }
    }
}

/// Differing pixels per grid cell, row-major.
pub open spec fn cell_counts(e: Seq<u8>, a: Seq<u8>, threshold: u8, w: int, h: int, cs: int) -> Seq<
    u32,
> {
    Seq::new(
        (cells_across(w, cs) * cells_across(h, cs)) as nat,
        |c: int| cell_tally(e, a, threshold, w, cs, c, w * h) as u32,
    )
}

/// Severity of a region with `diff` differing pixels out of `total`:
/// below 5% is low, below 25% medium, otherwise high.
pub open spec fn severity_label(diff: int, total: int) -> Seq<char> {
    if total <= 0 || 20 * diff < total {
        "low"@
    } else if 4 * diff < total {
        "medium"@
    } else {
        "high"@
    }
}

/// A region is low when under 5% of its pixels differ, medium from 5% up
/// to under 25%, and high from 25% on; more differing pixels in the same
/// region never lower the severity.
pub proof fn lemma_severity_by_share(diff: int, more: int, total: int)
    requires
        total > 0,
        0 <= diff <= more,
    ensures
        100 * diff < 5 * total ==> severity_label(diff, total) == "low"@,
        5 * total <= 100 * diff < 25 * total ==> severity_label(diff, total) == "medium"@,
        25 * total <= 100 * diff ==> severity_label(diff, total) == "high"@,
        severity_label(diff, total) == "high"@ ==> severity_label(more, total) == "high"@,
        severity_label(diff, total) == "medium"@ ==> severity_label(more, total) != "low"@,
{
    reveal_strlit("low");
    reveal_strlit("medium");
    reveal_strlit("high");
    assert("low"@.len() != "medium"@.len());
    assert("low"@ != "high"@) by {
        assert("low"@[0] != "high"@[0]);
    }
    assert("medium"@.len() != "high"@.len());
}

pub open spec fn min_of(a: int, b: int) -> int {
    if a <= b {
        a
    } else {
        b
    }
}

/// `r` is the pixel region covered by cluster `cl` of `cs`-sided cells,
/// clipped to a `w` x `h` image.
pub open spec fn region_from(r: DiffRegion, cl: CellCluster, w: int, h: int, cs: int) -> bool {
    &&& r.x == cl.min_col * cs
    &&& r.y == cl.min_row * cs
    &&& r.width == min_of((cl.max_col + 1) * cs, w) - cl.min_col * cs
    &&& r.height == min_of((cl.max_row + 1) * cs, h) - cl.min_row * cs
    &&& r.diff_pixels == cl.weight
    &&& r.severity@ == severity_label(cl.weight as int, r.width * r.height)
    &&& r.widget_id is None
}

/// Sum of the differing pixels of a list of regions.
pub open spec fn regions_diff_sum(rs: Seq<DiffRegion>) -> int
    decreases rs.len(),
{
    if rs.len() == 0 {
        0
    } else {
        regions_diff_sum(rs.drop_last()) + rs.last().diff_pixels
    }
}

/// The regions of `regions` come from `clusters`, the clusters of `cells`
/// led by `leads`.
pub open spec fn regions_follow(
    regions: Seq<DiffRegion>,
    cells: Seq<u32>,
    w: int,
    h: int,
    cs: int,
    leads: Seq<int>,
    clusters: Seq<CellCluster>,
) -> bool {
    &&& leaders_in_order(cells, cells_across(w, cs), leads)
    &&& leads.len() == regions.len()
    &&& clusters.len() == regions.len()
    &&& forall|k: int|
        0 <= k < leads.len() ==> describes(
            #[trigger] clusters[k],
            cells,
            cells_across(w, cs),
            component(cells, cells_across(w, cs), leads[k]),
        ) && region_from(regions[k], clusters[k], w, h, cs)
}

/// The regions of `regions` are the clusters of `cells`, in the order of
/// their first cell.
pub open spec fn regions_match(
    regions: Seq<DiffRegion>,
    cells: Seq<u32>,
    w: int,
    h: int,
    cs: int,
) -> bool {
    exists|leads: Seq<int>, clusters: Seq<CellCluster>|
        #[trigger] regions_follow(regions, cells, w, h, cs, leads, clusters)
}

/// The comparison may run without arithmetic overflow.
pub open spec fn comparable(expected: PixelBuffer, actual: PixelBuffer, config: DiffConfig) -> bool {
    &&& expected.spec_width() == actual.spec_width()
    &&& expected.spec_height() == actual.spec_height()
    &&& expected.spec_width() * expected.spec_height() <= u32::MAX
    &&& expected.spec_width() + cell_side(config.cell_size) <= u32::MAX
    &&& expected.spec_height() + cell_side(config.cell_size) <= u32::MAX
}

fn gap(a: u8, b: u8) -> (g: u8)
    ensures
        g == channel_gap(a, b),
{
    if a >= b {
        a - b
    } else {
        b - a
    }
}

fn larger(a: u8, b: u8) -> (m: u8)
    ensures
        m == max_of(a as int, b as int),
{
    if a >= b {
        a
    } else {
        b
    }
}

proof fn lemma_differing_bounded(e: Seq<u8>, a: Seq<u8>, threshold: u8, k: int)
    requires
        k >= 0,
    ensures
        0 <= differing_below(e, a, threshold, k) <= k,
    decreases k,
{
    if k > 0 {
        lemma_differing_bounded(e, a, threshold, k - 1);
    }
}

proof fn lemma_tally_bounded(
    e: Seq<u8>,
    a: Seq<u8>,
    threshold: u8,
    w: int,
    cs: int,
    cell: int,
    k: int,
)
    requires
        k >= 0,
    ensures
        0 <= cell_tally(e, a, threshold, w, cs, cell, k) <= k,
    decreases k,
{
    if k > 0 {
        lemma_tally_bounded(e, a, threshold, w, cs, cell, k - 1);
    }
}

proof fn lemma_total_update(s: Seq<u32>, c: int, v: u32, k: int)
    requires
        0 <= c < s.len(),
        0 <= k <= s.len(),
    ensures
        total_below(s.update(c, v), k) == total_below(s, k) + if c < k {
            v - s[c]
        } else {
            0
        },
    decreases k,
{
    if k > 0 {
        lemma_total_update(s, c, v, k - 1);
    }
}

proof fn lemma_total_zero(s: Seq<u32>, k: int)
    requires
        0 <= k <= s.len(),
        forall|i: int| 0 <= i < s.len() ==> s[i] == 0,
    ensures
        total_below(s, k) == 0,
    decreases k,
{
    if k > 0 {
        lemma_total_zero(s, k - 1);
    }
}

/// What a cluster of the grid guarantees about its ranges and weight.
proof fn lemma_cluster_fits(cells: Seq<u32>, cols: int, rows: int, leader: int, cl: CellCluster)
    requires
        grid_shape(cells.len() as int, cols, rows),
        occupied(cells, leader),
        describes(cl, cells, cols, component(cells, cols, leader)),
    ensures
        cl.min_col <= cl.max_col < cols,
        cl.min_row <= cl.max_row < rows,
        cl.weight <= total_below(cells, cells.len() as int),
{
    let comp = component(cells, cols, leader);
    let n = cells.len() as int;
    lemma_component_reflexive(cells, cols, leader);
    assert(comp.contains(leader));
    assert(cols > 0) by (nonlinear_arith)
        requires
            n == cols * rows,
            n > leader >= 0,
            cols >= 0,
            rows >= 0,
    ;
    let xc = choose|x: int| #[trigger] comp.contains(x) && x % cols == cl.max_col;
    lemma_component_occupied(cells, cols, leader, xc);
    vstd::arithmetic::div_mod::lemma_mod_bound(xc, cols);
    let xr = choose|x: int| #[trigger] comp.contains(x) && x / cols == cl.max_row;
    lemma_component_occupied(cells, cols, leader, xr);
    vstd::arithmetic::div_mod::lemma_fundamental_div_mod(xr, cols);
    vstd::arithmetic::div_mod::lemma_mod_bound(xr, cols);
    let q = xr / cols;
    let r = xr % cols;
    assert(q < rows) by (nonlinear_arith)
        requires
            xr == cols * q + r,
            0 <= r < cols,
            xr < n,
            n == cols * rows,
    ;
    assert(comp.contains(leader));
    lemma_weight_bounds(cells, comp, n);
}

/// Region of pixels covered by a cluster, with its severity.
fn make_region(cl: CellCluster, w: u32, h: u32, cs: u32) -> (r: DiffRegion)
    requires
        cs >= 1,
        w + cs - 1 <= u32::MAX,
        h + cs - 1 <= u32::MAX,
        cl.min_col <= cl.max_col < cells_across(w as int, cs as int),
        cl.min_row <= cl.max_row < cells_across(h as int, cs as int),
        w as int * h as int <= u32::MAX,
        cl.weight <= w as int * h as int,
    ensures
        region_from(r, cl, w as int, h as int, cs as int),
{
    proof {
        lemma_cells_across(w as int, cs as int);
        lemma_cells_across(h as int, cs as int);
        let cols = cells_across(w as int, cs as int);
        let rows = cells_across(h as int, cs as int);
        assert((cl.max_col + 1) * cs <= cols * cs && cl.min_col * cs <= (cols - 1) * cs
            && cl.min_col * cs < (cl.max_col + 1) * cs) by (nonlinear_arith)
            requires
                cl.min_col <= cl.max_col < cols,
                cs >= 1,
        ;
        assert((cl.max_row + 1) * cs <= rows * cs && cl.min_row * cs <= (rows - 1) * cs
            && cl.min_row * cs < (cl.max_row + 1) * cs) by (nonlinear_arith)
            requires
                cl.min_row <= cl.max_row < rows,
                cs >= 1,
        ;
    }
    let rx = cl.min_col * cs;
    let ry = cl.min_row * cs;
    let right = (cl.max_col + 1) * cs;
    let bottom = (cl.max_row + 1) * cs;
    let rw = (if right <= w { right } else { w }) - rx;
    let rh = (if bottom <= h { bottom } else { h }) - ry;
    proof {
        assert(rw as int * rh as int <= w as int * h as int) by (nonlinear_arith)
            requires
                0 <= rw <= w,
                0 <= rh <= h,
        ;
    }
    let total: u64 = (rw as u64) * (rh as u64);
    let diff = cl.weight;
    let severity = if total == 0 || 20 * diff < total {
        "low".to_string()
    } else if 4 * diff < total {
        "medium".to_string()
    } else {
        "high".to_string()
    };
    DiffRegion { x: rx, y: ry, width: rw, height: rh, diff_pixels: diff, severity, widget_id: None }
}

/// Compares two images of equal size and reports the differing pixels, the
/// largest channel difference and the regions of differences.
pub fn compare_images(expected: &PixelBuffer, actual: &PixelBuffer, config: &DiffConfig) -> (report:
    DiffReport)
    requires
        comparable(*expected, *actual, *config),
    ensures
        ({
            let w = expected.spec_width();
            let h = expected.spec_height();
            let e = expected.bytes();
            let a = actual.bytes();
            let cs = cell_side(config.cell_size);
            &&& report.width == w
            &&& report.height == h
            &&& report.total_pixels == w * h
            &&& report.diff_pixels == differing_below(e, a, config.threshold, w * h)
            &&& report.max_channel_diff == max_gap_below(e, a, w * h)
            &&& report.passed == (report.diff_pixels == 0)
            &&& regions_match(report.regions@, cell_counts(e, a, config.threshold, w, h, cs), w, h, cs)
            &&& regions_diff_sum(report.regions@) == report.diff_pixels
        }),
{
    let w = expected.width();
    let h = expected.height();
    let exp_raw = expected.as_raw();
    let act_raw = actual.as_raw();
    let ghost e = exp_raw@;
    let ghost a = act_raw@;
    let threshold = config.threshold;
    let n: usize = (w * h) as usize;
    let total_pixels: u64 = (w as u64) * (h as u64);
    // Per-pixel comparison.
    let mut diff_mask: Vec<bool> = Vec::new();
    let mut diff_pixels: u64 = 0;
    let mut max_channel_diff: u8 = 0;
    let mut i: usize = 0;
    while i < n
        invariant
            n == w as int * h as int,
            n <= u32::MAX,
            e.len() == n * 4,
            a.len() == n * 4,
            exp_raw@ == e,
            act_raw@ == a,
            exp_raw.len() == n * 4,
            act_raw.len() == n * 4,
            i <= n,
            diff_mask.len() == i,
            forall|j: int| 0 <= j < i ==> diff_mask@[j] == pixel_differs(e, a, threshold, j),
            diff_pixels == differing_below(e, a, threshold, i as int),
            max_channel_diff == max_gap_below(e, a, i as int),
        decreases n - i,
    {
        proof {
            lemma_differing_bounded(e, a, threshold, i as int);
        }
        let base = i * 4;
        let dr = gap(exp_raw[base], act_raw[base]);
        let dg = gap(exp_raw[base + 1], act_raw[base + 1]);
        let db = gap(exp_raw[base + 2], act_raw[base + 2]);
        let da = gap(exp_raw[base + 3], act_raw[base + 3]);
        let max_d = larger(larger(dr, dg), larger(db, da));
        if max_d > threshold {
            diff_mask.push(true);
            diff_pixels = diff_pixels + 1;
        } else {
            diff_mask.push(false);
        }
        max_channel_diff = larger(max_channel_diff, max_d);
        i = i + 1;
    }
    // Differences per grid cell.
    let cs: u32 = if config.cell_size == 0 { 1 } else { config.cell_size };
    assert(cs == cell_side(config.cell_size));
    assert(w + cs <= u32::MAX);
    assert(h + cs <= u32::MAX);
    let cols = (w + cs - 1) / cs;
    let rows = (h + cs - 1) / cs;
    proof {
        lemma_grid_small(w as int, h as int, cs as int);
        lemma_cells_across(w as int, cs as int);
        lemma_cells_across(h as int, cs as int);
    }
    let grid_len = (cols * rows) as usize;
    let mut counts: Vec<u32> = Vec::new();
    while counts.len() < grid_len
        invariant
            counts.len() <= grid_len,
            forall|c: int| 0 <= c < counts.len() ==> counts@[c] == 0u32,
        decreases grid_len - counts.len(),
    {
        counts.push(0);
    }
    proof {
        lemma_total_zero(counts@, grid_len as int);
    }
    let w_us = w as usize;
    let cs_us = cs as usize;
    let cols_us = cols as usize;
    let mut p: usize = 0;
    while p < n
        invariant
            n == w as int * h as int,
            n <= u32::MAX,
            diff_mask.len() == n,
            forall|j: int| 0 <= j < n ==> diff_mask@[j] == pixel_differs(e, a, threshold, j),
            cs >= 1,
            cs_us == cs,
            w_us == w,
            cols_us == cols,
            cols == cells_across(w as int, cs as int),
            rows == cells_across(h as int, cs as int),
            grid_len == cols * rows,
            p <= n,
            counts.len() == grid_len,
            forall|c: int|
                0 <= c < grid_len ==> #[trigger] counts@[c] == cell_tally(
                    e,
                    a,
                    threshold,
                    w as int,
                    cs as int,
                    c,
                    p as int,
                ),
            total_below(counts@, grid_len as int) == differing_below(e, a, threshold, p as int),
        decreases n - p,
    {
        proof {
            lemma_pixel_cell(p as int, w as int, h as int, cs as int);
        }
        if diff_mask[p] {
            let px = p % w_us;
            let py = p / w_us;
            let cell = (py / cs_us) * cols_us + px / cs_us;
            proof {
                lemma_tally_bounded(e, a, threshold, w as int, cs as int, cell as int, p as int);
                lemma_total_update(counts@, cell as int, (counts@[cell as int] + 1) as u32, grid_len as int);
            }
            let old_count = counts[cell];
            counts.set(cell, old_count + 1);
        }
        p = p + 1;
    }
    let ghost cells = cell_counts(e, a, threshold, w as int, h as int, cs as int);
    assert(counts@ =~= cells);
    // Clusters of cells, then pixel regions.
    let clusters = cluster_cells(&counts, cols, rows);
    let ghost leads = choose|leads: Seq<int>|
        {
            &&& leaders_in_order(cells, cols as int, leads)
            &&& leads.len() == clusters.len()
            &&& forall|k: int|
                0 <= k < leads.len() ==> describes(
                    #[trigger] clusters@[k],
                    cells,
                    cols as int,
                    component(cells, cols as int, leads[k]),
                )
        };
    proof {
        lemma_differing_bounded(e, a, threshold, n as int);
    }
    let mut regions: Vec<DiffRegion> = Vec::new();
    let mut k: usize = 0;
    while k < clusters.len()
        invariant
            cells == counts@,
            grid_shape(counts.len() as int, cols as int, rows as int),
            cols == cells_across(w as int, cs as int),
            rows == cells_across(h as int, cs as int),
            cs >= 1,
            w + cs - 1 <= u32::MAX,
            h + cs - 1 <= u32::MAX,
            w as int * h as int <= u32::MAX,
            total_below(cells, counts.len() as int) == diff_pixels,
            diff_pixels <= w as int * h as int,
            leaders_in_order(cells, cols as int, leads),
            leads.len() == clusters.len(),
            forall|j: int|
                0 <= j < leads.len() ==> describes(
                    #[trigger] clusters@[j],
                    cells,
                    cols as int,
                    component(cells, cols as int, leads[j]),
                ),
            k <= clusters.len(),
            regions.len() == k,
            forall|j: int|
                0 <= j < k ==> region_from(
                    #[trigger] regions@[j],
                    clusters@[j],
                    w as int,
                    h as int,
                    cs as int,
                ),
            regions_diff_sum(regions@) == weights_sum(clusters@.subrange(0, k as int)),
        decreases clusters.len() - k,
    {
        let cl = clusters[k];
        proof {
            lemma_cluster_fits(cells, cols as int, rows as int, leads[k as int], cl);
        }
        let region = make_region(cl, w, h, cs);
        let ghost before = regions@;
        regions.push(region);
        proof {
            assert(regions@.drop_last() =~= before);
            assert(clusters@.subrange(0, k + 1).drop_last() =~= clusters@.subrange(0, k as int));
        }
        k = k + 1;
    }
    assert(clusters@.subrange(0, clusters.len() as int) =~= clusters@);
    assert(regions_follow(regions@, cells, w as int, h as int, cs as int, leads, clusters@));
    DiffReport {
        passed: diff_pixels == 0,
        diff_pixels,
        total_pixels,
        max_channel_diff,
        width: w,
        height: h,
        regions,
    }
}

/// Byte `j` of the diff overlay: pixels that differ beyond the threshold are
/// magenta, the others are the actual pixel with its colour halved.
pub open spec fn overlay_byte(e: Seq<u8>, a: Seq<u8>, threshold: u8, j: int) -> u8 {
    let i = j / 4;
    let ch = j % 4;
    if pixel_differs(e, a, threshold, i) {
        if ch == 1 {
            0
        } else {
            255
        }
    } else if ch < 3 {
        (a[j] / 2) as u8
    } else {
        a[j]
    }
}

/// An image that shows where two images of equal size differ: changed pixels
/// in magenta, unchanged ones dimmed by half (their alpha kept).
pub fn diff_overlay(expected: &PixelBuffer, actual: &PixelBuffer, config: &DiffConfig) -> (img:
    PixelBuffer)
    requires
        expected.spec_width() == actual.spec_width(),
        expected.spec_height() == actual.spec_height(),
        expected.spec_width() * expected.spec_height() <= u32::MAX,
    ensures
        img.spec_width() == expected.spec_width(),
        img.spec_height() == expected.spec_height(),
        img.bytes() == Seq::new(
            (expected.spec_width() * expected.spec_height() * 4) as nat,
            |j: int| overlay_byte(expected.bytes(), actual.bytes(), config.threshold, j),
        ),
{
    let w = expected.width();
    let h = expected.height();
    let e = expected.as_raw();
    let a = actual.as_raw();
    let ghost eb = e@;
    let ghost ab = a@;
    let n: usize = (w as usize) * (h as usize);
    let total = e.len();
    assert(total == n * 4);
    let mut out: Vec<u8> = Vec::new();
    let mut i: usize = 0;
    while i < n
        invariant
            i <= n,
            n == w as int * h as int,
            n <= u32::MAX,
            n * 4 <= usize::MAX,
            e@ == eb,
            a@ == ab,
            eb.len() == n * 4,
            ab.len() == n * 4,
            out@.len() == 4 * i,
            forall|j: int| 0 <= j < 4 * i ==> #[trigger] out@[j] == overlay_byte(
                eb,
                ab,
                config.threshold,
                j,
            ),
        decreases n - i,
    {
        let base = i * 4;
        let d = larger(
            larger(gap(e[base], a[base]), gap(e[base + 1], a[base + 1])),
            larger(gap(e[base + 2], a[base + 2]), gap(e[base + 3], a[base + 3])),
        );
        let ghost o0 = out@;
        if d > config.threshold {
            out.push(255);
            out.push(0);
            out.push(255);
            out.push(255);
        } else {
            out.push(a[base] / 2);
            out.push(a[base + 1] / 2);
            out.push(a[base + 2] / 2);
            out.push(a[base + 3]);
        }
        proof {
            assert(d as int == pixel_gap(eb, ab, i as int));
            assert forall|j: int| 0 <= j < 4 * (i + 1) implies #[trigger] out@[j] == overlay_byte(
                eb,
                ab,
                config.threshold,
                j,
            ) by {
                if j >= 4 * i {
                    assert(j / 4 == i as int);
                    assert(j % 4 == j - 4 * i);
                } else {
                    assert(out@[j] == o0[j]);
                }
            }
        }
        i = i + 1;
    }
    match PixelBuffer::from_raw(w, h, out) {
        Some(img) => {
            assert(img.bytes() =~= Seq::new(
                (expected.spec_width() * expected.spec_height() * 4) as nat,
                |j: int| overlay_byte(expected.bytes(), actual.bytes(), config.threshold, j),
            ));
            img
        },
        None => {
            assert(false);
            PixelBuffer::new(0, 0)
        },
    }
}

proof fn lemma_same_bytes_agree(e: Seq<u8>, threshold: u8, w: int, cs: int, cell: int, k: int)
    ensures
        differing_below(e, e, threshold, k) == 0,
        cell_tally(e, e, threshold, w, cs, cell, k) == 0,
    decreases k,
{
    if k > 0 {
        lemma_same_bytes_agree(e, threshold, w, cs, cell, k - 1);
        assert(pixel_gap(e, e, k - 1) == 0);
    }
}

/// An image compared with itself passes: no pixel differs and there is no
/// region of differences.
pub proof fn lemma_identical_images_pass(
    e: Seq<u8>,
    threshold: u8,
    w: int,
    h: int,
    cs: int,
    regions: Seq<DiffRegion>,
)
    requires
        regions_match(regions, cell_counts(e, e, threshold, w, h, cs), w, h, cs),
    ensures
        differing_below(e, e, threshold, w * h) == 0,
        regions.len() == 0,
{
    let cells = cell_counts(e, e, threshold, w, h, cs);
    lemma_same_bytes_agree(e, threshold, w, cs, 0, w * h);
    let (leads, clusters) = choose|leads: Seq<int>, clusters: Seq<CellCluster>|
        #[trigger] regions_follow(regions, cells, w, h, cs, leads, clusters);
    if regions.len() > 0 {
        let x = leads[0];
        assert(is_leader(cells, cells_across(w, cs), x));
        lemma_same_bytes_agree(e, threshold, w, cs, x, w * h);
        assert(cells[x] == 0);
    }
}

/// Byte `j` of a screenshot mismatch image: pixels that differ beyond the
/// tolerance are opaque red, the others are the actual pixel, opaque, with
/// its colour cut to a third.
pub open spec fn mismatch_byte(e: Seq<u8>, a: Seq<u8>, tolerance: u8, j: int) -> u8 {
    let i = j / 4;
    let ch = j % 4;
    if pixel_differs(e, a, tolerance, i) {
        if ch == 0 || ch == 3 {
            255
        } else {
            0
        }
    } else if ch < 3 {
        (a[j] / 3) as u8
    } else {
        255
    }
}

/// Compares a screenshot with its golden image of the same size: the number
/// of pixels that differ beyond `tolerance`, and an image marking them.
pub fn screenshot_diff(golden: &PixelBuffer, actual: &PixelBuffer, tolerance: u8) -> (r: (
    u64,
    PixelBuffer,
))
    requires
        golden.spec_width() == actual.spec_width(),
        golden.spec_height() == actual.spec_height(),
    ensures
        r.0 == differing_below(
            golden.bytes(),
            actual.bytes(),
            tolerance,
            golden.spec_width() * golden.spec_height(),
        ),
        r.1.spec_width() == golden.spec_width(),
        r.1.spec_height() == golden.spec_height(),
        r.1.bytes() == Seq::new(
            (golden.spec_width() * golden.spec_height() * 4) as nat,
            |j: int| mismatch_byte(golden.bytes(), actual.bytes(), tolerance, j),
        ),
{
    let w = golden.width();
    let h = golden.height();
    let e = golden.as_raw();
    let a = actual.as_raw();
    let ghost eb = e@;
    let ghost ab = a@;
    let total = e.len();
    assert(total == w as int * h as int * 4);
    let n: usize = (w as usize) * (h as usize);
    let mut out: Vec<u8> = Vec::new();
    let mut count: u64 = 0;
    let mut i: usize = 0;
    while i < n
        invariant
            i <= n,
            n == w as int * h as int,
            n * 4 <= usize::MAX,
            e@ == eb,
            a@ == ab,
            eb.len() == n * 4,
            ab.len() == n * 4,
            out@.len() == 4 * i,
            count == differing_below(eb, ab, tolerance, i as int),
            forall|j: int| 0 <= j < 4 * i ==> #[trigger] out@[j] == mismatch_byte(
                eb,
                ab,
                tolerance,
                j,
            ),
        decreases n - i,
    {
        proof {
            lemma_differing_bounded(eb, ab, tolerance, i as int);
        }
        let base = i * 4;
        let d = larger(
            larger(gap(e[base], a[base]), gap(e[base + 1], a[base + 1])),
            larger(gap(e[base + 2], a[base + 2]), gap(e[base + 3], a[base + 3])),
        );
        let ghost o0 = out@;
        if d > tolerance {
            out.push(255);
            out.push(0);
            out.push(0);
            out.push(255);
            count = count + 1;
        } else {
            out.push(a[base] / 3);
            out.push(a[base + 1] / 3);
            out.push(a[base + 2] / 3);
            out.push(255);
        }
        proof {
            assert(d as int == pixel_gap(eb, ab, i as int));
            assert forall|j: int| 0 <= j < 4 * (i + 1) implies #[trigger] out@[j] == mismatch_byte(
                eb,
                ab,
                tolerance,
                j,
            ) by {
                if j >= 4 * i {
                    assert(j / 4 == i as int);
                    assert(j % 4 == j - 4 * i);
                } else {
                    assert(out@[j] == o0[j]);
                }
            }
        }
        i = i + 1;
    }
    match PixelBuffer::from_raw(w, h, out) {
        Some(img) => {
            assert(img.bytes() =~= Seq::new(
                (golden.spec_width() * golden.spec_height() * 4) as nat,
                |j: int| mismatch_byte(golden.bytes(), actual.bytes(), tolerance, j),
            ));
            (count, img)
        },
        None => {
            assert(false);
            (count, PixelBuffer::new(0, 0))
        },
    }
}

/// A widget as the search for the widget under a point sees it: whether
/// its bounds hold the point, the id it is reported by, and its children.
#[derive(Debug)]
pub struct HitNode {
    pub holds_point: bool,
    pub id: Option<String>,
    pub children: Vec<HitNode>,
}

/// The id found among `nodes[0..k]`, taken from the last to the first: for
/// a node whose bounds hold the point, the id found among its children, or
/// else its own id; a node with neither passes the search to the one before.
pub open spec fn hit_from(nodes: Seq<HitNode>, k: int) -> Option<Seq<char>>
    decreases nodes, k,
{
    if k <= 0 || k > nodes.len() {
        None
    } else {
        proof {
            assert(decreases_to!(nodes => nodes[k - 1]));
            assert(decreases_to!(nodes[k - 1] => nodes[k - 1].children));
            assert(decreases_to!(nodes[k - 1].children => nodes[k - 1].children@));
        }
        let n = nodes[k - 1];
        let own = if n.holds_point {
            match hit_from(n.children@, n.children@.len() as int) {
                Some(s) => Some(s),
                None => match n.id {
                    Some(s) => Some(s@),
                    None => None,
                },
            }
        } else {
            None
        };
        match own {
            Some(s) => Some(s),
            None => hit_from(nodes, k - 1),
        }
    }
}

fn hit_in(nodes: &Vec<HitNode>) -> (r: Option<String>)
    ensures
        match r {
            Some(s) => hit_from(nodes@, nodes@.len() as int) == Some(s@),
            None => hit_from(nodes@, nodes@.len() as int) is None,
        },
    decreases nodes@,
{
    let mut k: usize = nodes.len();
    while k > 0
        invariant
            k <= nodes.len(),
            hit_from(nodes@, nodes@.len() as int) == hit_from(nodes@, k as int),
        decreases k,
    {
        let n = &nodes[k - 1];
        if n.holds_point {
            proof {
                assert(decreases_to!(nodes@ => nodes@[k - 1]));
                assert(decreases_to!(nodes@ => nodes@[k - 1].children@));
            }
            match hit_in(&n.children) {
                Some(s) => {
                    return Some(s);
                },
                None => match &n.id {
                    Some(s) => {
                        return Some(s.clone());
                    },
                    None => {},
                },
            }
        }
        k = k - 1;
    }
    None
}

/// The id of the deepest widget under `root` whose bounds hold the point:
/// children are searched from the last to the first, a widget without an id
/// gives way to the one found before it, and nothing is found when the
/// root's bounds miss the point.
pub fn deepest_widget(root: &HitNode) -> (r: Option<String>)
    ensures
        match r {
            Some(s) => hit_from(seq![*root], 1) == Some(s@),
            None => hit_from(seq![*root], 1) is None,
        },
{
    proof {
        let one = seq![*root];
        assert(one[0] == *root);
        assert(hit_from(one, 0) is None);
    }
    if !root.holds_point {
        return None;
    }
    match hit_in(&root.children) {
        Some(s) => Some(s),
        None => match &root.id {
            Some(s) => Some(s.clone()),
            None => None,
        },
    }
}

} // verus!
