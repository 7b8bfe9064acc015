//! Grouping the occupied cells of a grid into 4-connected clusters.
//!
//! A grid of `cols` columns is stored row-major as a sequence of counts; a
//! cell is occupied when its count is non-zero. Two cells are adjacent when
//! they share an edge. A cluster is a connected component of occupied cells;
//! clusters are reported in the order of their first (lowest-index) cell.
use vstd::prelude::*;
use std::collections::VecDeque;

verus! {

/// Cells `a` and `b` of a grid with `n` cells and `cols` columns share an edge.
pub open spec fn adjacent(cols: int, n: int, a: int, b: int) -> bool {
    &&& 0 <= a < n
    &&& 0 <= b < n
    &&& {
        ||| (b == a + 1 && b % cols != 0)
        ||| (a == b + 1 && a % cols != 0)
        ||| b == a + cols
        ||| a == b + cols
    }
}

/// Cell `x` exists and holds a non-zero count.
pub open spec fn occupied(counts: Seq<u32>, x: int) -> bool {
    0 <= x < counts.len() && counts[x] > 0
}

/// Every occupied neighbour of a cell of `s` is in `s`.
pub open spec fn closed_under_adjacency(counts: Seq<u32>, cols: int, s: Set<int>) -> bool {
    forall|a: int, b: int|
        #![trigger s.contains(a), adjacent(cols, counts.len() as int, a, b)]
        s.contains(a) && adjacent(cols, counts.len() as int, a, b) && occupied(counts, b)
            ==> s.contains(b)
}

/// Cell `x` lies in every adjacency-closed set that holds `start`, that is,
/// `x` can be reached from `start` through occupied neighbours.
pub open spec fn same_component(counts: Seq<u32>, cols: int, start: int, x: int) -> bool {
    forall|s: Set<int>|
        #![trigger closed_under_adjacency(counts, cols, s)]
        closed_under_adjacency(counts, cols, s) && s.contains(start) ==> s.contains(x)
}

/// The cluster of `start`.
pub open spec fn component(counts: Seq<u32>, cols: int, start: int) -> Set<int> {
    Set::new(|x: int| same_component(counts, cols, start, x))
}

/// `i` is the lowest cell of its cluster.
pub open spec fn is_leader(counts: Seq<u32>, cols: int, i: int) -> bool {
    &&& occupied(counts, i)
    &&& forall|j: int| 0 <= j < i ==> !#[trigger] same_component(counts, cols, i, j)
}

/// Sum of the counts of the cells of `s` below `k`.
pub open spec fn weight_below(counts: Seq<u32>, s: Set<int>, k: int) -> int
    decreases k,
{
    if k <= 0 {
        0
    } else {
        weight_below(counts, s, k - 1) + if s.contains(k - 1) {
            counts[k - 1] as int
        } else {
            0
        }
    }
}

/// Sum of all counts below `k`.
pub open spec fn total_below(counts: Seq<u32>, k: int) -> int
    decreases k,
{
    if k <= 0 {
        0
    } else {
        total_below(counts, k - 1) + counts[k - 1] as int
    }
}

/// `lo..=hi` is the exact range of columns of the cells of `s`.
pub open spec fn column_span(cols: int, s: Set<int>, lo: int, hi: int) -> bool {
    &&& forall|x: int| #[trigger] s.contains(x) ==> lo <= x % cols <= hi
    &&& exists|x: int| #[trigger] s.contains(x) && x % cols == lo
    &&& exists|x: int| #[trigger] s.contains(x) && x % cols == hi
}

/// `lo..=hi` is the exact range of rows of the cells of `s`.
pub open spec fn row_span(cols: int, s: Set<int>, lo: int, hi: int) -> bool {
    &&& forall|x: int| #[trigger] s.contains(x) ==> lo <= x / cols <= hi
    &&& exists|x: int| #[trigger] s.contains(x) && x / cols == lo
    &&& exists|x: int| #[trigger] s.contains(x) && x / cols == hi
}

/// A cluster: its column and row ranges and the sum of its counts.
#[derive(Debug, Clone, Copy, PartialEq, Eq)]
pub struct CellCluster {
    pub min_col: u32,
    pub max_col: u32,
    pub min_row: u32,
    pub max_row: u32,
    pub weight: u64,
}

/// `c` describes the cell set `s`.
pub open spec fn describes(c: CellCluster, counts: Seq<u32>, cols: int, s: Set<int>) -> bool {
    &&& column_span(cols, s, c.min_col as int, c.max_col as int)
    &&& row_span(cols, s, c.min_row as int, c.max_row as int)
    &&& c.weight == weight_below(counts, s, counts.len() as int)
}

/// `leads` lists, in increasing order, exactly the leaders of the grid.
pub open spec fn leaders_in_order(counts: Seq<u32>, cols: int, leads: Seq<int>) -> bool {
    &&& forall|i: int, j: int| 0 <= i < j < leads.len() ==> leads[i] < leads[j]
    &&& forall|i: int| 0 <= i < leads.len() ==> is_leader(counts, cols, #[trigger] leads[i])
    &&& forall|x: int| is_leader(counts, cols, x) ==> #[trigger] leads.contains(x)
}

/// Sum of the weights of a list of clusters.
pub open spec fn weights_sum(cs: Seq<CellCluster>) -> int
    decreases cs.len(),
{
    if cs.len() == 0 {
        0
    } else {
        weights_sum(cs.drop_last()) + cs.last().weight
    }
}

/// The grid shape: `n == cols * rows` cells.
pub open spec fn grid_shape(n: int, cols: int, rows: int) -> bool {
    &&& n == cols * rows
    &&& n <= u32::MAX
    &&& cols >= 0
    &&& rows >= 0
}

// ---------------------------------------------------------------------------
// Facts about components
// ---------------------------------------------------------------------------

pub proof fn lemma_adjacent_symmetric(cols: int, n: int, a: int, b: int)
    ensures
        adjacent(cols, n, a, b) == adjacent(cols, n, b, a),
{
}

/// A closed set holding `start` holds its whole component.
pub proof fn lemma_component_within(counts: Seq<u32>, cols: int, start: int, s: Set<int>, x: int)
    requires
        closed_under_adjacency(counts, cols, s),
        s.contains(start),
        same_component(counts, cols, start, x),
    ensures
        s.contains(x),
{
}

pub proof fn lemma_component_reflexive(counts: Seq<u32>, cols: int, start: int)
    ensures
        same_component(counts, cols, start, start),
{
}

/// Components grow along occupied neighbours.
pub proof fn lemma_component_step(counts: Seq<u32>, cols: int, start: int, a: int, b: int)
    requires
        same_component(counts, cols, start, a),
        adjacent(cols, counts.len() as int, a, b),
        occupied(counts, b),
    ensures
        same_component(counts, cols, start, b),
{
    assert forall|s: Set<int>|
        closed_under_adjacency(counts, cols, s) && s.contains(start) implies s.contains(b) by {
        assert(s.contains(a));
    }
}

pub proof fn lemma_component_transitive(counts: Seq<u32>, cols: int, a: int, b: int, c: int)
    requires
        same_component(counts, cols, a, b),
        same_component(counts, cols, b, c),
    ensures
        same_component(counts, cols, a, c),
{
    assert forall|s: Set<int>|
        closed_under_adjacency(counts, cols, s) && s.contains(a) implies s.contains(c) by {
        assert(s.contains(b));
    }
}

/// A component of an occupied cell holds only occupied cells.
pub proof fn lemma_component_occupied(counts: Seq<u32>, cols: int, start: int, x: int)
    requires
        occupied(counts, start),
        same_component(counts, cols, start, x),
    ensures
        occupied(counts, x),
{
    let s = Set::new(|y: int| occupied(counts, y));
    assert(closed_under_adjacency(counts, cols, s));
    assert(s.contains(start));
}

/// Being in the same component is symmetric for occupied cells.
pub proof fn lemma_component_symmetric(counts: Seq<u32>, cols: int, i: int, j: int)
    requires
        occupied(counts, i),
        same_component(counts, cols, i, j),
    ensures
        same_component(counts, cols, j, i),
{
    if !same_component(counts, cols, j, i) {
        let n = counts.len() as int;
        let outside = Set::new(|x: int| occupied(counts, x) && !same_component(counts, cols, j, x));
        assert forall|a: int, b: int|
            outside.contains(a) && adjacent(cols, n, a, b) && occupied(counts, b) implies outside.contains(
            b,
        ) by {
            if same_component(counts, cols, j, b) {
                lemma_adjacent_symmetric(cols, n, a, b);
                lemma_component_step(counts, cols, j, b, a);
            }
        }
        assert(closed_under_adjacency(counts, cols, outside));
        assert(outside.contains(i));
        lemma_component_within(counts, cols, i, outside, j);
        lemma_component_reflexive(counts, cols, j);
    }
}

// ---------------------------------------------------------------------------
// Facts about weights
// ---------------------------------------------------------------------------

pub proof fn lemma_weight_insert(counts: Seq<u32>, s: Set<int>, a: int, k: int)
    requires
        !s.contains(a),
    ensures
        weight_below(counts, s.insert(a), k) == weight_below(counts, s, k) + if 0 <= a < k {
            counts[a] as int
        } else {
            0
        },
    decreases k,
{
    if k > 0 {
        lemma_weight_insert(counts, s, a, k - 1);
    }
}

pub proof fn lemma_weight_empty(counts: Seq<u32>, k: int)
    ensures
        weight_below(counts, Set::empty(), k) == 0,
    decreases k,
{
    if k > 0 {
        lemma_weight_empty(counts, k - 1);
    }
}

pub proof fn lemma_weight_union(counts: Seq<u32>, s: Set<int>, t: Set<int>, k: int)
    requires
        s.disjoint(t),
    ensures
        weight_below(counts, s.union(t), k) == weight_below(counts, s, k) + weight_below(
            counts,
            t,
            k,
        ),
    decreases k,
{
    if k > 0 {
        lemma_weight_union(counts, s, t, k - 1);
    }
}

pub proof fn lemma_weight_extensional(counts: Seq<u32>, s: Set<int>, t: Set<int>, k: int)
    requires
        forall|x: int| 0 <= x < k ==> (s.contains(x) <==> t.contains(x)),
    ensures
        weight_below(counts, s, k) == weight_below(counts, t, k),
    decreases k,
{
    if k > 0 {
        lemma_weight_extensional(counts, s, t, k - 1);
    }
}

pub proof fn lemma_weight_bounds(counts: Seq<u32>, s: Set<int>, k: int)
    requires
        0 <= k <= counts.len(),
    ensures
        0 <= weight_below(counts, s, k) <= total_below(counts, k),
        total_below(counts, k) <= k * (u32::MAX as int),
    decreases k,
{
    if k > 0 {
        lemma_weight_bounds(counts, s, k - 1);
    }
}

/// A set holding every occupied cell below `k` weighs as much as all cells.
pub proof fn lemma_weight_covers_all(counts: Seq<u32>, s: Set<int>, k: int)
    requires
        0 <= k <= counts.len(),
        forall|x: int| 0 <= x < k && occupied(counts, x) ==> s.contains(x),
    ensures
        weight_below(counts, s, k) == total_below(counts, k),
    decreases k,
{
    if k > 0 {
        lemma_weight_covers_all(counts, s, k - 1);
    }
}


proof fn lemma_cols_positive(n: int, cols: int, rows: int)
    requires
        grid_shape(n, cols, rows),
        n > 0,
    ensures
        cols > 0,
        rows > 0,
        cols <= n,
{
    assert(cols > 0 && rows > 0 && cols <= n) by (nonlinear_arith)
        requires
            n == cols * rows,
            n > 0,
            cols >= 0,
            rows >= 0,
    ;
}

proof fn lemma_weight_fits(counts: Seq<u32>, s: Set<int>)
    requires
        counts.len() <= u32::MAX,
    ensures
        0 <= weight_below(counts, s, counts.len() as int) <= total_below(counts, counts.len() as int),
        total_below(counts, counts.len() as int) <= u32::MAX as int * u32::MAX as int,
{
    let n = counts.len() as int;
    lemma_weight_bounds(counts, s, n);
    assert(n * (u32::MAX as int) <= u32::MAX as int * u32::MAX as int) by (nonlinear_arith)
        requires
            0 <= n <= u32::MAX,
    ;
}

/// Every entry of the visit marks is set exactly for the cells of `seen`
/// and `cur`.
pub open spec fn marks(v: Seq<bool>, seen: Set<int>, cur: Set<int>) -> bool {
    forall|x: int|
        #![trigger v[x]]
        #![trigger cur.contains(x)]
        0 <= x < v.len() ==> (v[x] <==> (seen.contains(x) || cur.contains(x)))
}

/// The work queue holds, without repetition, exactly the cells of `cur`
/// that are not `done`.
pub open spec fn queue_ok(q: Seq<usize>, cur: Set<int>, done: Set<int>) -> bool {
    &&& forall|i: int|
        0 <= i < q.len() ==> cur.contains(#[trigger] q[i] as int) && !done.contains(q[i] as int)
    &&& forall|i: int, j: int| 0 <= i < j < q.len() ==> q[i] != q[j]
    &&& forall|x: int|
        #![trigger cur.contains(x)]
        cur.contains(x) && !done.contains(x) ==> exists|i: int|
            0 <= i < q.len() && #[trigger] q[i] as int == x
}

proof fn lemma_queue_pop(q: Seq<usize>, cur: Set<int>, done: Set<int>)
    requires
        queue_ok(q, cur, done),
        q.len() > 0,
    ensures
        queue_ok(q.drop_first(), cur, done.insert(q[0] as int)),
        cur.contains(q[0] as int),
        !done.contains(q[0] as int),
{
    let a = q[0] as int;
    let r = q.drop_first();
    let d = done.insert(a);
    assert forall|i: int| 0 <= i < r.len() implies cur.contains(#[trigger] r[i] as int) && !d.contains(
        r[i] as int,
    ) by {
        assert(r[i] == q[i + 1]);
        assert(q[0] != q[i + 1]);
    }
    assert forall|x: int| #![trigger cur.contains(x)] cur.contains(x) && !d.contains(x) implies exists|i: int|
        0 <= i < r.len() && #[trigger] r[i] as int == x by {
        let i = choose|i: int| 0 <= i < q.len() && #[trigger] q[i] as int == x;
        assert(i != 0);
        assert(r[i - 1] == q[i]);
    }
}

proof fn lemma_queue_push(q: Seq<usize>, cur: Set<int>, done: Set<int>, b: usize)
    requires
        queue_ok(q, cur, done),
        !cur.contains(b as int),
        forall|x: int| #[trigger] done.contains(x) ==> cur.contains(x),
    ensures
        queue_ok(q.push(b), cur.insert(b as int), done),
{
    let r = q.push(b);
    let c2 = cur.insert(b as int);
    assert forall|i: int| 0 <= i < r.len() implies c2.contains(#[trigger] r[i] as int) && !done.contains(
        r[i] as int,
    ) by {
        if i < q.len() {
            assert(r[i] == q[i]);
        }
    }
    assert forall|i: int, j: int| 0 <= i < j < r.len() implies r[i] != r[j] by {
        if j == q.len() {
            assert(cur.contains(q[i] as int));
        }
    }
    assert forall|x: int| #![trigger c2.contains(x)] c2.contains(x) && !done.contains(x) implies exists|i: int|
        0 <= i < r.len() && #[trigger] r[i] as int == x by {
        if x == b as int {
            assert(r[q.len() as int] as int == x);
        } else {
            assert(cur.contains(x));
            let i = choose|i: int| 0 <= i < q.len() && #[trigger] q[i] as int == x;
            assert(r[i] == q[i]);
        }
    }
}

/// Marks and enqueues cell `b` when it is occupied and not yet visited.
fn visit_cell(
    counts: &Vec<u32>,
    visited: &mut Vec<bool>,
    queue: &mut VecDeque<usize>,
    b: usize,
    Ghost(seen): Ghost<Set<int>>,
    Ghost(cur): Ghost<Set<int>>,
    Ghost(done): Ghost<Set<int>>,
    Ghost(start): Ghost<int>,
    Ghost(c): Ghost<int>,
) -> (new_cur: Ghost<Set<int>>)
    requires
        b < counts.len(),
        old(visited).len() == counts.len(),
        marks(old(visited)@, seen, cur),
        queue_ok(old(queue)@, cur, done),
        forall|x: int| #[trigger] done.contains(x) ==> cur.contains(x),
        occupied(counts@, b as int) ==> same_component(counts@, c, start, b as int),
        forall|x: int|
            #[trigger] cur.contains(x) ==> 0 <= x < counts.len() && same_component(
                counts@,
                c,
                start,
                x,
            ),
    ensures
        final(visited).len() == counts.len(),
        marks(final(visited)@, seen, new_cur@),
        queue_ok(final(queue)@, new_cur@, done),
        forall|x: int|
            #[trigger] new_cur@.contains(x) ==> 0 <= x < counts.len() && same_component(
                counts@,
                c,
                start,
                x,
            ),
        forall|x: int| #[trigger] cur.contains(x) ==> new_cur@.contains(x),
        forall|x: int| 0 <= x < counts.len() && old(visited)@[x] ==> #[trigger] final(visited)@[x],
        occupied(counts@, b as int) ==> final(visited)@[b as int],
{
    if !visited[b] && counts[b] > 0 {
        proof {
            lemma_queue_push(queue@, cur, done, b);
        }
        let ghost v0 = visited@;
        visited.set(b, true);
        queue.push_back(b);
        let ghost next = cur.insert(b as int);
        assert forall|x: int| 0 <= x < visited@.len() implies (visited@[x] <==> (seen.contains(x) || #[trigger] next.contains(x))) by {
            if x != b as int {
                assert(visited@[x] == v0[x]);
                assert(v0[x] <==> (seen.contains(x) || cur.contains(x)));
            }
        }
        Ghost(next)
    } else {
        Ghost(cur)
    }
}

/// Explores the cluster of the occupied, unvisited cell `start`, marking its
/// cells as visited, and returns its description and its cell set.
fn explore_cluster(
    counts: &Vec<u32>,
    cols: u32,
    rows: u32,
    visited: &mut Vec<bool>,
    start: usize,
    Ghost(seen): Ghost<Set<int>>,
) -> (res: CellCluster)
    requires
        grid_shape(counts.len() as int, cols as int, rows as int),
        start < counts.len(),
        occupied(counts@, start as int),
        old(visited).len() == counts.len(),
        forall|x: int| 0 <= x < counts.len() ==> (old(visited)@[x] <==> #[trigger] seen.contains(x)),
        forall|x: int| #[trigger] seen.contains(x) ==> !same_component(counts@, cols as int, start as int, x),
    ensures
        final(visited).len() == counts.len(),
        describes(res, counts@, cols as int, component(counts@, cols as int, start as int)),
        forall|x: int|
            0 <= x < counts.len() ==> (#[trigger] final(visited)@[x] <==> (seen.contains(x)
                || same_component(counts@, cols as int, start as int, x))),
{
    let n = counts.len();
    let ghost cs = counts@;
    let ghost c = cols as int;
    proof {
        lemma_cols_positive(n as int, c, rows as int);
    }
        let cols_us = cols as usize;
        let mut queue: VecDeque<usize> = VecDeque::new();
        let ghost mut cur: Set<int> = Set::empty();
        proof {
            lemma_component_reflexive(cs, c, start as int);
            lemma_queue_push(queue@, cur, Set::empty(), start);
        }
        visited.set(start, true);
        queue.push_back(start);
        proof {
            cur = cur.insert(start as int);
        }
        let ghost mut done: Set<int> = Set::empty();
        proof {
            lemma_weight_empty(cs, n as int);
        }
        let mut min_gc: u32 = (start % cols_us) as u32;
        let mut max_gc: u32 = min_gc;
        let mut min_gr: u32 = (start / cols_us) as u32;
        let mut max_gr: u32 = min_gr;
        let mut weight: u64 = 0;
        assert(marks(visited@, seen, cur));
        while queue.len() > 0
            invariant
                n == counts.len(),
                cs == counts@,
                c == cols as int,
                cols_us == cols,
                grid_shape(n as int, c, rows as int),
                c > 0,
                c <= n,
                start < n,
                occupied(cs, start as int),
                visited.len() == n,
                marks(visited@, seen, cur),
                forall|x: int| #[trigger] seen.contains(x) ==> !same_component(cs, c, start as int, x),
                forall|x: int|
                    #[trigger] cur.contains(x) ==> 0 <= x < n && same_component(cs, c, start as int, x),
                cur.contains(start as int),
                forall|x: int| #[trigger] done.contains(x) ==> cur.contains(x),
                done.finite(),
                done.len() <= n,
                queue_ok(queue@, cur, done),
                forall|a: int, b: int|
                    #![trigger done.contains(a), adjacent(c, n as int, a, b)]
                    done.contains(a) && adjacent(c, n as int, a, b) && occupied(cs, b) ==> cur.contains(b),
                weight == weight_below(cs, done, n as int),
                forall|x: int|
                    #[trigger] done.contains(x) ==> min_gc <= x % c <= max_gc && min_gr <= x / c <= max_gr,
                exists|x: int| (x == start || done.contains(x)) && #[trigger] (x % c) == min_gc,
                exists|x: int| (x == start || done.contains(x)) && #[trigger] (x % c) == max_gc,
                exists|x: int| (x == start || done.contains(x)) && #[trigger] (x / c) == min_gr,
                exists|x: int| (x == start || done.contains(x)) && #[trigger] (x / c) == max_gr,
            decreases n - done.len(),
        {
            let ghost q_before = queue@;
            let idx = queue.pop_front().unwrap();
            let ghost a = idx as int;
            let ghost done_before = done;
            proof {
                lemma_queue_pop(q_before, cur, done);
                assert(queue@ =~= q_before.drop_first());
                done = done.insert(a);
                lemma_weight_fits(cs, done);
                lemma_weight_insert(cs, done_before, a, n as int);
                vstd::set_lib::lemma_int_range(0, n as int);
                vstd::set_lib::lemma_len_subset(done, vstd::set_lib::set_int_range(0, n as int));
            }
            let gc = idx % cols_us;
            let gr = idx / cols_us;
            weight = weight + counts[idx] as u64;
            if (gc as u32) < min_gc {
                min_gc = gc as u32;
            }
            if (gc as u32) > max_gc {
                max_gc = gc as u32;
            }
            if (gr as u32) < min_gr {
                min_gr = gr as u32;
            }
            if (gr as u32) > max_gr {
                max_gr = gr as u32;
            }
            let ghost cur_before = cur;
            let ghost v_before = visited@;
            // The four neighbours sharing an edge with `idx`.
            if idx > 0 && idx % cols_us != 0 {
                let b = idx - 1;
                proof {
                    if occupied(cs, b as int) {
                        lemma_component_step(cs, c, start as int, a, b as int);
                    }
                }
                let g = visit_cell(counts, visited, &mut queue, b, Ghost(seen), Ghost(cur), Ghost(done), Ghost(start as int), Ghost(c));
                proof { cur = g@; }
            }
            if idx + 1 < n && (idx + 1) % cols_us != 0 {
                let b = idx + 1;
                proof {
                    if occupied(cs, b as int) {
                        lemma_component_step(cs, c, start as int, a, b as int);
                    }
                }
                let g = visit_cell(counts, visited, &mut queue, b, Ghost(seen), Ghost(cur), Ghost(done), Ghost(start as int), Ghost(c));
                proof { cur = g@; }
            }
            if idx >= cols_us {
                let b = idx - cols_us;
                proof {
                    if occupied(cs, b as int) {
                        lemma_component_step(cs, c, start as int, a, b as int);
                    }
                }
                let g = visit_cell(counts, visited, &mut queue, b, Ghost(seen), Ghost(cur), Ghost(done), Ghost(start as int), Ghost(c));
                proof { cur = g@; }
            }
            if idx < n - cols_us {
                let b = idx + cols_us;
                proof {
                    if occupied(cs, b as int) {
                        lemma_component_step(cs, c, start as int, a, b as int);
                    }
                }
                let g = visit_cell(counts, visited, &mut queue, b, Ghost(seen), Ghost(cur), Ghost(done), Ghost(start as int), Ghost(c));
                proof { cur = g@; }
            }
            proof {
                assert forall|aa: int, bb: int|
                    #![trigger done.contains(aa), adjacent(c, n as int, aa, bb)]
                    done.contains(aa) && adjacent(c, n as int, aa, bb) && occupied(cs, bb) implies cur.contains(bb) by {
                    if aa == a {
                        lemma_component_step(cs, c, start as int, a, bb);
                        assert(visited@[bb]);
                        assert(!seen.contains(bb));
                    } else {
                        assert(done_before.contains(aa));
                        assert(cur_before.contains(bb));
                    }
                }
            }
        }
        // The cluster of `start` has been fully explored.
        proof {
            assert forall|x: int| #[trigger] cur.contains(x) implies done.contains(x) by {
                if !done.contains(x) {
                    let i = choose|i: int| 0 <= i < queue@.len() && #[trigger] queue@[i] as int == x;
                }
            }
            assert(closed_under_adjacency(cs, c, done));
            assert forall|x: int| #[trigger] component(cs, c, start as int).contains(x) <==> done.contains(x) by {
                if same_component(cs, c, start as int, x) {
                    lemma_component_within(cs, c, start as int, done, x);
                }
            }
            assert(component(cs, c, start as int) =~= done);
        }
        let cluster = CellCluster { min_col: min_gc, max_col: max_gc, min_row: min_gr, max_row: max_gr, weight };
        proof {
            assert forall|x: int| 0 <= x < n implies (#[trigger] visited@[x] <==> (seen.contains(x) || same_component(cs, c, start as int, x))) by {
                assert(visited@[x] <==> (seen.contains(x) || cur.contains(x)));
                assert(component(cs, c, start as int).contains(x) <==> done.contains(x));
            }
        }
        cluster
}

/// The bookkeeping of a scan over the cells below `start`: `seen` is the
/// union of the clusters of the leaders found so far, listed in `leads`, and
/// `res` describes those clusters.
pub open spec fn scan_state(
    cs: Seq<u32>,
    c: int,
    start: int,
    seen: Set<int>,
    leads: Seq<int>,
    res: Seq<CellCluster>,
) -> bool {
    &&& forall|x: int| #[trigger] seen.contains(x) ==> occupied(cs, x)
    &&& forall|x: int|
        #[trigger] seen.contains(x) ==> exists|k: int|
            0 <= k < leads.len() && same_component(cs, c, leads[k], x)
    &&& forall|k: int, x: int|
        0 <= k < leads.len() && #[trigger] same_component(cs, c, leads[k], x) ==> seen.contains(x)
    &&& forall|x: int| 0 <= x < start && occupied(cs, x) ==> #[trigger] seen.contains(x)
    &&& forall|i: int, j: int| 0 <= i < j < leads.len() ==> leads[i] < leads[j]
    &&& forall|i: int| 0 <= i < leads.len() ==> #[trigger] leads[i] < start && is_leader(cs, c, leads[i])
    &&& forall|x: int| 0 <= x < start && is_leader(cs, c, x) ==> #[trigger] leads.contains(x)
    &&& res.len() == leads.len()
    &&& forall|k: int|
        0 <= k < leads.len() ==> describes(#[trigger] res[k], cs, c, component(cs, c, leads[k]))
    &&& weights_sum(res) == weight_below(cs, seen, cs.len() as int)
}

proof fn lemma_scan_skip(
    cs: Seq<u32>,
    c: int,
    start: int,
    seen: Set<int>,
    leads: Seq<int>,
    res: Seq<CellCluster>,
)
    requires
        scan_state(cs, c, start, seen, leads, res),
        0 <= start < cs.len(),
        !occupied(cs, start) || seen.contains(start),
    ensures
        scan_state(cs, c, start + 1, seen, leads, res),
{
    if occupied(cs, start) {
        let k = choose|k: int| 0 <= k < leads.len() && same_component(cs, c, leads[k], start);
        assert(is_leader(cs, c, leads[k]));
        lemma_component_symmetric(cs, c, leads[k], start);
        assert(!is_leader(cs, c, start));
    }
    assert forall|x: int| 0 <= x < start + 1 && is_leader(cs, c, x) implies #[trigger] leads.contains(x) by {
        if x == start {
            assert(!is_leader(cs, c, start));
        }
    }
    assert forall|x: int| 0 <= x < start + 1 && occupied(cs, x) implies #[trigger] seen.contains(x) by {
    }
    assert forall|i: int| 0 <= i < leads.len() implies #[trigger] leads[i] < start + 1 && is_leader(cs, c, leads[i]) by {
    }
}

proof fn lemma_scan_leader(
    cs: Seq<u32>,
    c: int,
    start: int,
    seen: Set<int>,
    leads: Seq<int>,
    res: Seq<CellCluster>,
)
    requires
        scan_state(cs, c, start, seen, leads, res),
        0 <= start < cs.len(),
        occupied(cs, start),
        !seen.contains(start),
    ensures
        is_leader(cs, c, start),
        forall|x: int| #[trigger] seen.contains(x) ==> !same_component(cs, c, start, x),
{
    assert forall|x: int| #[trigger] seen.contains(x) implies !same_component(cs, c, start, x) by {
        if same_component(cs, c, start, x) {
            let k = choose|k: int| 0 <= k < leads.len() && same_component(cs, c, leads[k], x);
            lemma_component_symmetric(cs, c, start, x);
            lemma_component_transitive(cs, c, leads[k], x, start);
        }
    }
    assert forall|j: int| 0 <= j < start implies !#[trigger] same_component(cs, c, start, j) by {
        if same_component(cs, c, start, j) {
            lemma_component_occupied(cs, c, start, j);
            assert(seen.contains(j));
        }
    }
}

proof fn lemma_scan_add(
    cs: Seq<u32>,
    c: int,
    start: int,
    seen: Set<int>,
    leads: Seq<int>,
    res: Seq<CellCluster>,
    cluster: CellCluster,
    done: Set<int>,
)
    requires
        scan_state(cs, c, start, seen, leads, res),
        0 <= start < cs.len(),
        occupied(cs, start),
        is_leader(cs, c, start),
        forall|x: int| #[trigger] seen.contains(x) ==> !same_component(cs, c, start, x),
        done == component(cs, c, start),
        describes(cluster, cs, c, done),
    ensures
        scan_state(cs, c, start + 1, seen.union(done), leads.push(start), res.push(cluster)),
{
    let n = cs.len() as int;
    let seen2 = seen.union(done);
    let leads2 = leads.push(start);
    let res2 = res.push(cluster);
    lemma_component_reflexive(cs, c, start);
    assert(seen.disjoint(done));
    lemma_weight_union(cs, seen, done, n);
    assert(res2.drop_last() =~= res);
    assert forall|x: int| #[trigger] seen2.contains(x) implies occupied(cs, x) by {
        if done.contains(x) {
            lemma_component_occupied(cs, c, start, x);
        }
    }
    assert forall|x: int| #[trigger] seen2.contains(x) implies exists|k: int|
        0 <= k < leads2.len() && same_component(cs, c, leads2[k], x) by {
        if done.contains(x) {
            assert(leads2[leads.len() as int] == start);
        } else {
            let k = choose|k: int| 0 <= k < leads.len() && same_component(cs, c, leads[k], x);
            assert(leads2[k] == leads[k]);
        }
    }
    assert forall|k: int, x: int|
        0 <= k < leads2.len() && #[trigger] same_component(cs, c, leads2[k], x) implies seen2.contains(x) by {
        if k < leads.len() {
            assert(leads2[k] == leads[k]);
        } else {
            assert(done.contains(x));
        }
    }
    assert forall|x: int| 0 <= x < start + 1 && occupied(cs, x) implies #[trigger] seen2.contains(x) by {
        if x < start {
            assert(seen.contains(x));
        }
    }
    assert forall|i: int| 0 <= i < leads2.len() implies #[trigger] leads2[i] < start + 1 && is_leader(cs, c, leads2[i]) by {
        if i < leads.len() {
            assert(leads2[i] == leads[i]);
        }
    }
    assert forall|i: int, j: int| 0 <= i < j < leads2.len() implies leads2[i] < leads2[j] by {
        assert(leads2[i] == leads[i]);
        if j < leads.len() {
            assert(leads2[j] == leads[j]);
        } else {
            assert(leads[i] < start);
        }
    }
    assert forall|x: int| 0 <= x < start + 1 && is_leader(cs, c, x) implies #[trigger] leads2.contains(x) by {
        if x < start {
            assert(leads.contains(x));
            let k = choose|k: int| 0 <= k < leads.len() && leads[k] == x;
            assert(leads2[k] == x);
        } else {
            assert(leads2[leads.len() as int] == x);
        }
    }
    assert forall|k: int| 0 <= k < leads2.len() implies describes(#[trigger] res2[k], cs, c, component(cs, c, leads2[k])) by {
        if k < leads.len() {
            assert(res2[k] == res[k]);
            assert(leads2[k] == leads[k]);
        }
    }
}

/// Groups the occupied cells of a `cols` x `rows` grid into 4-connected
/// clusters, in the order of each cluster's lowest cell, and returns for each
/// cluster its column range, row range and the sum of its counts.
pub fn cluster_cells(counts: &Vec<u32>, cols: u32, rows: u32) -> (res: Vec<CellCluster>)
    requires
        grid_shape(counts.len() as int, cols as int, rows as int),
    ensures
        exists|leads: Seq<int>|
            {
                &&& leaders_in_order(counts@, cols as int, leads)
                &&& leads.len() == res.len()
                &&& forall|k: int|
                    0 <= k < leads.len() ==> describes(
                        #[trigger] res@[k],
                        counts@,
                        cols as int,
                        component(counts@, cols as int, leads[k]),
                    )
            },
        weights_sum(res@) == total_below(counts@, counts.len() as int),
{
    let n = counts.len();
    let ghost cs = counts@;
    let ghost c = cols as int;
    let mut visited: Vec<bool> = Vec::new();
    let mut fill: usize = 0;
    while fill < n
        invariant
            fill <= n,
            visited.len() == fill,
            forall|x: int| 0 <= x < fill ==> !visited@[x],
        decreases n - fill,
    {
        visited.push(false);
        fill = fill + 1;
    }
    let mut res: Vec<CellCluster> = Vec::new();
    let ghost mut leads: Seq<int> = Seq::empty();
    let ghost mut seen: Set<int> = Set::empty();
    proof {
        lemma_weight_empty(cs, n as int);
    }
    let mut start: usize = 0;
    while start < n
        invariant
            n == counts.len(),
            cs == counts@,
            c == cols as int,
            grid_shape(n as int, c, rows as int),
            start <= n,
            visited.len() == n,
            forall|x: int| 0 <= x < n ==> (visited@[x] <==> #[trigger] seen.contains(x)),
            scan_state(cs, c, start as int, seen, leads, res@),
        decreases n - start,
    {
        if counts[start] == 0 || visited[start] {
            proof {
                lemma_scan_skip(cs, c, start as int, seen, leads, res@);
            }
            start = start + 1;
        } else {
            proof {
                lemma_scan_leader(cs, c, start as int, seen, leads, res@);
            }
            let cluster = explore_cluster(counts, cols, rows, &mut visited, start, Ghost(seen));
            let ghost comp = component(cs, c, start as int);
            proof {
                lemma_scan_add(cs, c, start as int, seen, leads, res@, cluster, comp);
            }
            res.push(cluster);
            proof {
                let seen0 = seen;
                leads = leads.push(start as int);
                seen = seen.union(comp);
                assert forall|x: int| 0 <= x < n implies (visited@[x] <==> #[trigger] seen.contains(x)) by {
                    assert(visited@[x] <==> (seen0.contains(x) || same_component(cs, c, start as int, x)));
                    assert(comp.contains(x) == same_component(cs, c, start as int, x));
                }
            }
            start = start + 1;
        }
    }
    proof {
        lemma_weight_covers_all(cs, seen, n as int);
        assert(leaders_in_order(cs, c, leads));
    }
    res
}

} // verus!
