//! Dynamic time warping between two paths, restricted to a diagonal band
//! and abandoned early once a whole row exceeds a cutoff.
use vstd::prelude::*;
use crate::geometry::{Point, dist_spec, euclidean_dist, lemma_sq_dist_bounds, MAX_DIST};

verus! {

/// The smaller of two costs, where `None` is an infinite cost.
pub open spec fn min_opt(a: Option<nat>, b: Option<nat>) -> Option<nat> {
    match (a, b) {
        (None, _) => b,
        (_, None) => a,
        (Some(x), Some(y)) => Some(if x <= y { x } else { y }),
    }
}

/// The warping cost of aligning the first `i` points of `s` with the first
/// `j` points of `t`, where only cells with `|i - j| <= w` may be used;
/// `None` where no alignment reaches the cell.
#[verifier::opaque]
pub open spec fn cell(s: Seq<Point>, t: Seq<Point>, w: nat, i: nat, j: nat) -> Option<nat>
    decreases i + j,
{
    if i == 0 && j == 0 {
        Some(0)
    } else if i == 0 || j == 0 || i > s.len() || j > t.len() || i > j + w || j > i + w {
        None
    } else {
        let up = cell(s, t, w, (i - 1) as nat, j);
        let left = cell(s, t, w, i, (j - 1) as nat);
        let diag = cell(s, t, w, (i - 1) as nat, (j - 1) as nat);
        match min_opt(min_opt(up, left), diag) {
            Some(v) => Some(dist_spec(s[i - 1], t[j - 1]) + v),
            None => None,
        }
    }
}

/// The least cell among columns `1..=k` of row `i`.
pub open spec fn prefix_min(s: Seq<Point>, t: Seq<Point>, w: nat, i: nat, k: nat) -> Option<nat>
    decreases k,
{
    if k == 0 {
        None
    } else {
        min_opt(prefix_min(s, t, w, i, (k - 1) as nat), cell(s, t, w, i, k))
    }
}

/// The least cell of row `i`.
pub open spec fn row_min(s: Seq<Point>, t: Seq<Point>, w: nat, i: nat) -> Option<nat> {
    prefix_min(s, t, w, i, t.len())
}

/// Whether a row minimum lies beyond the cutoff (`None`: no cutoff).
pub open spec fn exceeds(m: Option<nat>, cutoff: Option<u128>) -> bool {
    match cutoff {
        None => false,
        Some(c) => match m {
            None => true,
            Some(v) => v > c,
        },
    }
}

/// Whether one of rows `1..=k` lies wholly beyond the cutoff.
pub open spec fn pruned(s: Seq<Point>, t: Seq<Point>, w: nat, cutoff: Option<u128>, k: nat) -> bool
    decreases k,
{
    if k == 0 {
        false
    } else {
        pruned(s, t, w, cutoff, (k - 1) as nat) || exceeds(row_min(s, t, w, k), cutoff)
    }
}

/// Whether the band of half-width `w` cannot join the two ends.
pub open spec fn out_of_band(n: nat, m: nat, w: nat) -> bool {
    n > m + w || m > n + w
}

/// The banded warping distance with early abandonment: `None` (infinite)
/// for an empty path, for lengths the band cannot join, and when some row
/// lies wholly beyond the cutoff; else the cost of the last cell.
pub open spec fn dtw_spec(s: Seq<Point>, t: Seq<Point>, w: nat, cutoff: Option<u128>) -> Option<u128> {
    if s.len() == 0 || t.len() == 0 || out_of_band(s.len(), t.len(), w) {
        None
    } else if pruned(s, t, w, cutoff, s.len()) {
        None
    } else {
        match cell(s, t, w, s.len(), t.len()) {
            Some(v) => Some(v as u128),
            None => None,
        }
    }
}

/// A cell as the two-row table stores it: infinity is the largest value.
pub open spec fn enc(o: Option<nat>) -> u128 {
    match o {
        Some(v) => v as u128,
        None => u128::MAX,
    }
}

const INF: u128 = u128::MAX;

/// Bound on every finite distance.
pub const DIST_BOUND: u128 = 0x10_0000_0000_0000_0000_0000_0000;

/// The cells that the recurrence does not compute.
pub proof fn lemma_cell_edges(s: Seq<Point>, t: Seq<Point>, w: nat, i: nat, j: nat)
    ensures
        i == 0 && j == 0 ==> cell(s, t, w, i, j) == Some(0nat),
        (i == 0 || j == 0 || i > s.len() || j > t.len() || i > j + w || j > i + w) && !(i == 0 && j
            == 0) ==> cell(s, t, w, i, j) == None::<nat>,
{
    reveal(cell);
}

/// Largest cost that a cell of a table of `i + j` steps can hold.
proof fn lemma_cell_bound(s: Seq<Point>, t: Seq<Point>, w: nat, i: nat, j: nat)
    ensures
        cell(s, t, w, i, j) matches Some(v) ==> v <= (i + j) * MAX_DIST,
    decreases i + j,
{
    reveal(cell);
    if i > 0 && j > 0 {
        lemma_cell_bound(s, t, w, (i - 1) as nat, j);
        lemma_cell_bound(s, t, w, i, (j - 1) as nat);
        lemma_cell_bound(s, t, w, (i - 1) as nat, (j - 1) as nat);
        if i <= s.len() && j <= t.len() {
            lemma_sq_dist_bounds(s[i - 1], t[j - 1]);
        }
        assert((i - 1 + j) * MAX_DIST + MAX_DIST == (i + j) * MAX_DIST) by (nonlinear_arith);
        assert((i - 1 + j - 1) * MAX_DIST <= (i - 1 + j) * MAX_DIST) by (nonlinear_arith)
            requires
                i >= 1,
                j >= 1,
        ;
    }
}

proof fn lemma_cell_fits(s: Seq<Point>, t: Seq<Point>, w: nat, i: nat, j: nat)
    requires
        i <= usize::MAX,
        j <= usize::MAX,
    ensures
        cell(s, t, w, i, j) matches Some(v) ==> v + MAX_DIST < u128::MAX,
{
    lemma_cell_bound(s, t, w, i, j);
    assert((i + j) * MAX_DIST + MAX_DIST < u128::MAX) by (nonlinear_arith)
        requires
            i <= usize::MAX,
            j <= usize::MAX,
    ;
}

proof fn lemma_prefix_min_bound(s: Seq<Point>, t: Seq<Point>, w: nat, i: nat, k: nat)
    requires
        i <= usize::MAX,
        k <= usize::MAX,
    ensures
        prefix_min(s, t, w, i, k) matches Some(v) ==> v + MAX_DIST < u128::MAX,
    decreases k,
{
    if k > 0 {
        lemma_prefix_min_bound(s, t, w, i, (k - 1) as nat);
        lemma_cell_fits(s, t, w, i, k);
    }
}

proof fn lemma_prefix_min_empty(s: Seq<Point>, t: Seq<Point>, w: nat, i: nat, k: nat)
    requires
        i >= 1,
        k == 0 || k + w < i,
    ensures
        prefix_min(s, t, w, i, k) == None::<nat>,
    decreases k,
{
    if k > 0 {
        lemma_prefix_min_empty(s, t, w, i, (k - 1) as nat);
        lemma_cell_edges(s, t, w, i, k);
    }
}

proof fn lemma_prefix_min_tail(s: Seq<Point>, t: Seq<Point>, w: nat, i: nat, hi: nat, k: nat)
    requires
        i >= 1,
        hi <= k,
        hi == t.len() || hi == i + w,
    ensures
        prefix_min(s, t, w, i, k) == prefix_min(s, t, w, i, hi),
    decreases k,
{
    if k > hi {
        lemma_prefix_min_tail(s, t, w, i, hi, (k - 1) as nat);
        lemma_cell_edges(s, t, w, i, k);
    }
}

proof fn lemma_pruned_mono(s: Seq<Point>, t: Seq<Point>, w: nat, c: Option<u128>, k: nat, n: nat)
    requires
        k <= n,
        pruned(s, t, w, c, k),
    ensures
        pruned(s, t, w, c, n),
    decreases n,
{
    if n > k {
        lemma_pruned_mono(s, t, w, c, k, (n - 1) as nat);
    }
}



proof fn lemma_enc_min(x: Option<nat>, y: Option<nat>)
    requires
        x matches Some(v) ==> v < u128::MAX,
        y matches Some(v) ==> v < u128::MAX,
    ensures
        enc(min_opt(x, y)) == (if enc(x) <= enc(y) { enc(x) } else { enc(y) }),
        min_opt(x, y) matches Some(v) ==> v < u128::MAX,
{
}

/// One step of the recurrence, on the stored form of the three cells that
/// a cell reads.
proof fn lemma_cell_step(
    s: Seq<Point>,
    t: Seq<Point>,
    w: nat,
    i: nat,
    j: nat,
    a: u128,
    b: u128,
    d: u128,
    cost: u64,
)
    requires
        1 <= i <= s.len(),
        1 <= j <= t.len(),
        i <= j + w,
        j <= i + w,
        s.len() <= usize::MAX,
        t.len() <= usize::MAX,
        a == enc(cell(s, t, w, (i - 1) as nat, j)),
        b == enc(cell(s, t, w, i, (j - 1) as nat)),
        d == enc(cell(s, t, w, (i - 1) as nat, (j - 1) as nat)),
        cost == dist_spec(s[i - 1], t[j - 1]),
    ensures
        ({
            let ab = if a <= b { a } else { b };
            let pm = if ab <= d { ab } else { d };
            &&& pm == u128::MAX ==> cell(s, t, w, i, j) == None::<nat>
            &&& pm != u128::MAX ==> pm + cost < u128::MAX && cell(s, t, w, i, j) == Some(
                (pm + cost) as nat,
            )
        }),
{
    reveal(cell);
    lemma_cell_fits(s, t, w, (i - 1) as nat, j);
    lemma_cell_fits(s, t, w, i, (j - 1) as nat);
    lemma_cell_fits(s, t, w, (i - 1) as nat, (j - 1) as nat);
    lemma_cell_fits(s, t, w, i, j);
    let up = cell(s, t, w, (i - 1) as nat, j);
    let left = cell(s, t, w, i, (j - 1) as nat);
    let diag = cell(s, t, w, (i - 1) as nat, (j - 1) as nat);
    lemma_enc_min(up, left);
    lemma_enc_min(min_opt(up, left), diag);
    lemma_sq_dist_bounds(s[i - 1], t[j - 1]);
}

/// The first column whose cell row `i` reads from the row above, less one.
pub open spec fn band_lo(i: int, w: int) -> int {
    if i > w + 1 {
        i - w - 1
    } else {
        0
    }
}

/// Banded dynamic time warping between `s` and `t` with window `window`,
/// keeping two rows of the table. After each row, if no cell of the row is
/// within `cutoff`, the alignment is abandoned. `None` stands for an
/// infinite distance; `cutoff == None` never abandons.
pub fn dtw_distance_fast(s: &[Point], t: &[Point], window: usize, cutoff: Option<u128>) -> (r:
    Option<u128>)
    ensures
        r == dtw_spec(s@, t@, window as nat, cutoff),
        out_of_band(s@.len(), t@.len(), window as nat) ==> r is None,
        r matches Some(v) ==> v < DIST_BOUND,
{
    let n = s.len();
    let m = t.len();
    let ghost w = window as nat;
    if n == 0 || m == 0 {
        return None;
    }
    let len_diff: usize = if n >= m {
        n - m
    } else {
        m - n
    };
    if len_diff > window {
        return None;
    }
    // Column `j >= 1` of a row is kept at index `j - 1`; column 0 of the
    // row above apart.

    let mut prev: Vec<u128> = vec![INF; m];
    let mut curr: Vec<u128> = vec![INF; m];
    let mut prev0: u128 = 0;
    proof {
        lemma_cell_edges(s@, t@, w, 0, 0);
        assert forall|j: int| 1 <= j <= m implies #[trigger] prev@[j - 1] == enc(
            cell(s@, t@, w, 0, j as nat),
        ) by {
            lemma_cell_edges(s@, t@, w, 0, j as nat);
        }
    }
    let mut i0: usize = 0;
    while i0 < n
        invariant
            0 <= i0 <= n,
            n == s@.len(),
            m == t@.len(),
            1 <= n,
            1 <= m,
            !out_of_band(n as nat, m as nat, w),
            w == window,
            prev@.len() == m,
            curr@.len() == m,
            prev0 == enc(cell(s@, t@, w, i0 as nat, 0)),
            forall|j: int|
                band_lo(i0 as int, w as int) <= j <= m && j >= 1 ==> #[trigger] prev@[j - 1]
                    == enc(cell(s@, t@, w, i0 as nat, j as nat)),
            forall|j: int| i0 - 1 + w < j <= m && j >= 1 ==> #[trigger] curr@[j - 1] == INF,
            !pruned(s@, t@, w, cutoff, i0 as nat),
        decreases n - i0,
    {
        let i: usize = i0 + 1;
        let j_start: usize = if i > window {
            i - window
        } else {
            1
        };
        let j_end: usize = if window >= m || i >= m - window {
            m
        } else {
            i + window
        };
        if j_start > 1 {
            curr[j_start - 2] = INF;
        }
        proof {
            lemma_cell_edges(s@, t@, w, i as nat, (j_start - 1) as nat);
            lemma_prefix_min_empty(s@, t@, w, i as nat, (j_start - 1) as nat);
        }
        let mut row_min: u128 = INF;
        let mut jj: usize = j_start - 1;
        while jj < j_end
            invariant
                1 <= i <= n,
                i == i0 + 1,
                n == s@.len(),
                m == t@.len(),
                1 <= m,
                !out_of_band(n as nat, m as nat, w),
                w == window,
                j_start == (if i > w { i - w } else { 1 }),
                j_end == (if i + w >= m { m as int } else { i + w }),
                j_start - 1 <= jj <= j_end,
                prev@.len() == m,
                curr@.len() == m,
                prev0 == enc(cell(s@, t@, w, i0 as nat, 0)),
                forall|k: int|
                    band_lo(i0 as int, w as int) <= k <= m && k >= 1 ==> #[trigger] prev@[k - 1]
                        == enc(cell(s@, t@, w, i0 as nat, k as nat)),
                forall|k: int| j_end < k <= m && k >= 1 ==> #[trigger] curr@[k - 1] == INF,
                forall|k: int|
                    j_start - 1 <= k <= jj && k >= 1 ==> #[trigger] curr@[k - 1] == enc(
                        cell(s@, t@, w, i as nat, k as nat),
                    ),
                row_min == enc(prefix_min(s@, t@, w, i as nat, jj as nat)),
            decreases j_end - jj,
        {
            let j: usize = jj + 1;
            let cost = euclidean_dist(&s[i - 1], &t[j - 1]);
            let a = prev[j - 1];
            let b = if j == 1 {
                INF
            } else {
                curr[j - 2]
            };
            let d = if j == 1 {
                prev0
            } else {
                prev[j - 2]
            };
            let ab = if a <= b {
                a
            } else {
                b
            };
            let pm = if ab <= d {
                ab
            } else {
                d
            };
            proof {
                if j > 1 {
                    assert(curr@[j - 2] == enc(cell(s@, t@, w, i as nat, (j - 1) as nat)));
                    assert(prev@[j - 2] == enc(cell(s@, t@, w, i0 as nat, (j - 1) as nat)));
                }
                assert(prev@[j - 1] == enc(cell(s@, t@, w, i0 as nat, j as nat)));
                lemma_cell_edges(s@, t@, w, i as nat, 0);
                lemma_cell_step(s@, t@, w, i as nat, j as nat, a, b, d, cost);
                lemma_prefix_min_bound(s@, t@, w, i as nat, jj as nat);
                lemma_cell_fits(s@, t@, w, i as nat, j as nat);
                lemma_enc_min(
                    prefix_min(s@, t@, w, i as nat, jj as nat),
                    cell(s@, t@, w, i as nat, j as nat),
                );
            }
            let v: u128 = if pm == INF {
                INF
            } else {
                cost as u128 + pm
            };
            curr[j - 1] = v;
            if v < row_min {
                row_min = v;
            }
            jj = j;
        }
        proof {
            lemma_prefix_min_tail(s@, t@, w, i as nat, j_end as nat, m as nat);
            lemma_prefix_min_bound(s@, t@, w, i as nat, m as nat);
            assert forall|k: int| band_lo(i as int, w as int) <= k <= m && k >= 1 implies #[trigger] curr@[k - 1]
                == enc(cell(s@, t@, w, i as nat, k as nat)) by {
                lemma_cell_edges(s@, t@, w, i as nat, k as nat);
            }
            assert forall|k: int| i - 1 + w < k <= m && k >= 1 implies #[trigger] prev@[k - 1] == INF by {
                assert(band_lo(i0 as int, w as int) <= k);
                lemma_cell_edges(s@, t@, w, i0 as nat, k as nat);
            }
        }
        let stop = match cutoff {
            Some(c) => row_min == INF || row_min > c,
            None => false,
        };
        if stop {
            proof {
                lemma_pruned_mono(s@, t@, w, cutoff, i as nat, n as nat);
            }
            return None;
        }
        let tmp = prev;
        prev = curr;
        curr = tmp;
        prev0 = INF;
        proof {
            lemma_cell_edges(s@, t@, w, i as nat, 0);
        }
        i0 = i;
    }
    proof {
        lemma_cell_fits(s@, t@, w, n as nat, m as nat);
        lemma_cell_bound(s@, t@, w, n as nat, m as nat);
        assert((n + m) * MAX_DIST < DIST_BOUND) by (nonlinear_arith)
            requires
                n <= usize::MAX,
                m <= usize::MAX,
        ;
    }
    assert(prev@[m - 1] == enc(cell(s@, t@, w, n as nat, m as nat)));
    if prev[m - 1] == INF {
        None
    } else {
        Some(prev[m - 1])
    }
}


/// Unbanded dynamic time warping: the whole table, with no cutoff.
pub fn dtw_distance(s: &[Point], t: &[Point]) -> (r: Option<u128>)
    ensures
        r == dtw_spec(s@, t@, if s@.len() >= t@.len() { s@.len() } else { t@.len() }, None),
{
    let w: usize = if s.len() >= t.len() {
        s.len()
    } else {
        t.len()
    };
    dtw_distance_fast(s, t, w, None)
}

proof fn lemma_not_pruned_without_cutoff(s: Seq<Point>, t: Seq<Point>, w: nat, k: nat)
    ensures
        !pruned(s, t, w, None, k),
    decreases k,
{
    if k > 0 {
        lemma_not_pruned_without_cutoff(s, t, w, (k - 1) as nat);
    }
}

proof fn lemma_cell_diagonal(s: Seq<Point>, w: nat, i: nat)
    requires
        i <= s.len(),
    ensures
        cell(s, s, w, i, i) == Some(0nat),
    decreases i,
{
    reveal(cell);
    if i > 0 {
        lemma_cell_diagonal(s, w, (i - 1) as nat);
        lemma_sq_dist_bounds(s[i - 1], s[i - 1]);
    }
}

/// A non-empty path is at distance zero from itself.
pub proof fn lemma_dtw_self_zero(s: Seq<Point>, w: nat)
    requires
        s.len() > 0,
    ensures
        dtw_spec(s, s, w, None) == Some(0u128),
{
    lemma_not_pruned_without_cutoff(s, s, w, s.len());
    lemma_cell_diagonal(s, w, s.len());
}

proof fn lemma_cell_symmetric(s: Seq<Point>, t: Seq<Point>, w: nat, i: nat, j: nat)
    ensures
        cell(s, t, w, i, j) == cell(t, s, w, j, i),
    decreases i + j,
{
    reveal(cell);
    if i > 0 && j > 0 {
        lemma_cell_symmetric(s, t, w, (i - 1) as nat, j);
        lemma_cell_symmetric(s, t, w, i, (j - 1) as nat);
        lemma_cell_symmetric(s, t, w, (i - 1) as nat, (j - 1) as nat);
        if i <= s.len() && j <= t.len() {
            lemma_sq_dist_bounds(s[i - 1], t[j - 1]);
        }
    }
}

/// `c2` abandons at least wherever `c1` does.
pub open spec fn tighter(c2: Option<u128>, c1: Option<u128>) -> bool {
    match c1 {
        None => true,
        Some(a) => match c2 {
            None => false,
            Some(b) => b <= a,
        },
    }
}

proof fn lemma_pruned_tighter(
    s: Seq<Point>,
    t: Seq<Point>,
    w: nat,
    c1: Option<u128>,
    c2: Option<u128>,
    k: nat,
)
    requires
        tighter(c2, c1),
    ensures
        pruned(s, t, w, c1, k) ==> pruned(s, t, w, c2, k),
    decreases k,
{
    if k > 0 {
        lemma_pruned_tighter(s, t, w, c1, c2, (k - 1) as nat);
    }
}

/// A band the lengths cannot cross gives an infinite distance, whatever
/// the points.
pub proof fn lemma_dtw_out_of_band(s: Seq<Point>, t: Seq<Point>, w: nat, c: Option<u128>)
    requires
        out_of_band(s.len(), t.len(), w),
    ensures
        dtw_spec(s, t, w, c) is None,
{
}

/// Tightening the cutoff can only turn a finite distance into an infinite
/// one: it never makes an infinite distance finite, nor changes a finite
/// one.
pub proof fn lemma_dtw_cutoff_tighter(
    s: Seq<Point>,
    t: Seq<Point>,
    w: nat,
    c1: Option<u128>,
    c2: Option<u128>,
)
    requires
        tighter(c2, c1),
    ensures
        dtw_spec(s, t, w, c1) is None ==> dtw_spec(s, t, w, c2) is None,
        dtw_spec(s, t, w, c2) is Some ==> dtw_spec(s, t, w, c2) == dtw_spec(s, t, w, c1),
{
    lemma_pruned_tighter(s, t, w, c1, c2, s.len());
}


proof fn lemma_prefix_min_le(s: Seq<Point>, t: Seq<Point>, w: nat, i: nat, k: nat, j: nat, v: nat)
    requires
        1 <= j <= k,
        cell(s, t, w, i, j) == Some(v),
    ensures
        prefix_min(s, t, w, i, k) matches Some(r) && r <= v,
    decreases k,
{
    if j < k {
        lemma_prefix_min_le(s, t, w, i, (k - 1) as nat, j, v);
    }
}

/// Along a finite alignment costs never decrease, so every earlier row
/// holds a cell no dearer than the alignment's end.
proof fn lemma_rows_within(s: Seq<Point>, t: Seq<Point>, w: nat, i: nat, j: nat, v: nat, k: nat)
    requires
        cell(s, t, w, i, j) == Some(v),
        1 <= k <= i,
        j <= t.len(),
    ensures
        row_min(s, t, w, k) matches Some(r) && r <= v,
    decreases i + j,
{
    reveal(cell);
    if k == i {
        if j == 0 {
            assert(false);
        }
        lemma_prefix_min_le(s, t, w, i, t.len(), j, v);
    } else {
        let up = cell(s, t, w, (i - 1) as nat, j);
        let left = cell(s, t, w, i, (j - 1) as nat);
        let diag = cell(s, t, w, (i - 1) as nat, (j - 1) as nat);
        if j == 0 {
            assert(false);
        }
        let m = min_opt(min_opt(up, left), diag);
        if up is Some && m == up {
            lemma_rows_within(s, t, w, (i - 1) as nat, j, up->Some_0, k);
        } else if left is Some && m == left {
            lemma_rows_within(s, t, w, i, (j - 1) as nat, left->Some_0, k);
        } else {
            let d = diag->Some_0;
            lemma_rows_within(s, t, w, (i - 1) as nat, (j - 1) as nat, d, k);
        }
    }
}

proof fn lemma_not_pruned_within(s: Seq<Point>, t: Seq<Point>, w: nat, c: u128, v: nat, k: nat)
    requires
        cell(s, t, w, s.len(), t.len()) == Some(v),
        v <= c,
        k <= s.len(),
    ensures
        !pruned(s, t, w, Some(c), k),
    decreases k,
{
    if k > 0 {
        lemma_not_pruned_within(s, t, w, c, v, (k - 1) as nat);
        lemma_rows_within(s, t, w, s.len(), t.len(), v, k);
    }
}

/// The cutoff only abandons alignments whose full cost lies beyond it:
/// where the unpruned distance is within the cutoff, the result is that
/// distance.
pub proof fn lemma_dtw_within_cutoff(s: Seq<Point>, t: Seq<Point>, w: nat, c: u128)
    requires
        s.len() <= usize::MAX,
        t.len() <= usize::MAX,
        dtw_spec(s, t, w, None) matches Some(d) && d <= c,
    ensures
        dtw_spec(s, t, w, Some(c)) == dtw_spec(s, t, w, None),
{
    lemma_not_pruned_without_cutoff(s, t, w, s.len());
    let v = cell(s, t, w, s.len(), t.len())->Some_0;
    lemma_cell_fits(s, t, w, s.len(), t.len());
    lemma_not_pruned_within(s, t, w, c, v, s.len());
}


/// The distance does not depend on the order of the two paths, without a
/// cutoff and under any cutoff that the distance is within. (A cutoff
/// below the distance is checked row by row along the first path, so
/// there the two orders may abandon differently.)
pub proof fn lemma_dtw_symmetric(s: Seq<Point>, t: Seq<Point>, w: nat, cutoff: Option<u128>)
    requires
        s.len() <= usize::MAX,
        t.len() <= usize::MAX,
        match cutoff {
            None => true,
            Some(c) => dtw_spec(s, t, w, None) matches Some(d) && d <= c,
        },
    ensures
        dtw_spec(s, t, w, cutoff) == dtw_spec(t, s, w, cutoff),
{
    lemma_not_pruned_without_cutoff(s, t, w, s.len());
    lemma_not_pruned_without_cutoff(t, s, w, t.len());
    lemma_cell_symmetric(s, t, w, s.len(), t.len());
    assert(dtw_spec(s, t, w, None) == dtw_spec(t, s, w, None));
    if let Some(c) = cutoff {
        lemma_dtw_within_cutoff(s, t, w, c);
        lemma_dtw_within_cutoff(t, s, w, c);
    }
}

} // verus!
