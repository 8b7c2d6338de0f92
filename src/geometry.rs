//! Keyboard geometry: key coordinates, word paths and path simplification.
//!
//! Coordinates are integers in thousandths of a key width, so the QWERTY
//! grid lands on exact values and every computation stays exact.
use vstd::prelude::*;
use crate::table::{assoc, lemma_assoc_ends, lemma_assoc_step};

verus! {

/// Coordinate units per key width.
pub const KEY_UNIT: i32 = 1000;

/// Largest spacing between consecutive points of a raw path (half a key).
pub const STEP: u64 = 500;

/// Squared distance under which two consecutive points are merged
/// (a hundredth of a key, squared).
pub const MERGE_SQ: u128 = 100;

/// A position on the keyboard plane.
#[derive(Clone, Copy, Debug, PartialEq, Eq, Structural)]
pub struct Point {
    pub x: i32,
    pub y: i32,
}

/// Squared Euclidean distance between two points.
pub open spec fn sq_dist(p: Point, q: Point) -> nat {
    ((p.x - q.x) * (p.x - q.x) + (p.y - q.y) * (p.y - q.y)) as nat
}

/// The integer square root: the largest `r` with `r * r <= n`.
pub open spec fn isqrt(n: nat) -> nat
    decreases n,
{
    if n == 0 {
        0
    } else {
        let r = isqrt((n - 1) as nat);
        if (r + 1) * (r + 1) <= n {
            r + 1
        } else {
            r
        }
    }
}

/// Euclidean distance, rounded down to whole coordinate units.
pub open spec fn dist_spec(p: Point, q: Point) -> nat {
    isqrt(sq_dist(p, q))
}

/// Upper bound on any distance between two points.
pub const MAX_DIST: u64 = 0x2_0000_0000;

pub proof fn lemma_isqrt(n: nat)
    ensures
        isqrt(n) * isqrt(n) <= n < (isqrt(n) + 1) * (isqrt(n) + 1),
    decreases n,
{
    if n > 0 {
        lemma_isqrt((n - 1) as nat);
        let r = isqrt((n - 1) as nat);
        assert((r + 1) * (r + 1) < (r + 2) * (r + 2)) by (nonlinear_arith);
        if (r + 1) * (r + 1) <= n {
            assert(isqrt(n) == r + 1);
            assert(n < (r + 2) * (r + 2));
        } else {
            assert(isqrt(n) == r);
        }
    } else {
        assert(isqrt(0) == 0);
        assert(0 * 0 <= 0 < 1 * 1) by (nonlinear_arith);
    }
}

pub proof fn lemma_isqrt_unique(n: nat, r: nat)
    requires
        r * r <= n < (r + 1) * (r + 1),
    ensures
        isqrt(n) == r,
{
    lemma_isqrt(n);
    let q = isqrt(n);
    if q < r {
        assert((q + 1) * (q + 1) <= r * r) by (nonlinear_arith)
            requires
                q + 1 <= r,
        ;
    } else if r < q {
        assert((r + 1) * (r + 1) <= q * q) by (nonlinear_arith)
            requires
                r + 1 <= q,
        ;
    }
}

pub proof fn lemma_sq_dist_bounds(p: Point, q: Point)
    ensures
        sq_dist(p, q) < 0x4_0000_0000_0000_0000,
        dist_spec(p, q) < MAX_DIST,
        sq_dist(p, q) == sq_dist(q, p),
        dist_spec(p, q) == dist_spec(q, p),
        p == q ==> sq_dist(p, q) == 0 && dist_spec(p, q) == 0,
{
    let dx = p.x - q.x;
    let dy = p.y - q.y;
    assert(dx * dx < 0x1_0000_0000_0000_0000) by (nonlinear_arith)
        requires
            -0x1_0000_0000 < dx < 0x1_0000_0000,
    ;
    assert(dy * dy < 0x1_0000_0000_0000_0000) by (nonlinear_arith)
        requires
            -0x1_0000_0000 < dy < 0x1_0000_0000,
    ;
    assert(dx * dx >= 0 && dy * dy >= 0) by (nonlinear_arith);
    assert((q.x - p.x) * (q.x - p.x) == dx * dx) by (nonlinear_arith)
        requires
            dx == p.x - q.x,
    ;
    assert((q.y - p.y) * (q.y - p.y) == dy * dy) by (nonlinear_arith)
        requires
            dy == p.y - q.y,
    ;
    if p == q {
        assert(dx * dx + dy * dy == 0) by (nonlinear_arith)
            requires
                dx == 0,
                dy == 0,
        ;
        assert(0 * 0 <= 0 < 1 * 1) by (nonlinear_arith);
        lemma_isqrt_unique(0, 0);
    }
    let n = sq_dist(p, q);
    lemma_isqrt(n);
    let r = isqrt(n);
    assert(r < MAX_DIST) by (nonlinear_arith)
        requires
            r * r <= n,
            n < 0x4_0000_0000_0000_0000,
    ;
}

/// Integer square root by bisection.
fn isqrt_exec(n: u128) -> (r: u64)
    requires
        n < 0x4_0000_0000_0000_0000,
    ensures
        r == isqrt(n as nat),
{
    let mut lo: u128 = 0;
    let mut hi: u128 = 0x2_0000_0000;
    assert(hi * hi == 0x4_0000_0000_0000_0000) by (nonlinear_arith) requires hi == 0x2_0000_0000;
    while hi - lo > 1
        invariant
            lo < hi <= 0x2_0000_0000,
            lo * lo <= n,
            n < hi * hi,
        decreases hi - lo,
    {
        let mid: u128 = lo + (hi - lo) / 2;
        assert(mid * mid <= 0x4_0000_0000_0000_0000) by (nonlinear_arith)
            requires
                mid <= 0x2_0000_0000,
        ;
        if mid * mid <= n {
            lo = mid;
        } else {
            hi = mid;
        }
    }
    proof {
        lemma_isqrt_unique(n as nat, lo as nat);
    }
    lo as u64
}

/// Squared distance between two points.
pub fn squared_dist(p: &Point, q: &Point) -> (r: u128)
    ensures
        r == sq_dist(*p, *q),
{
    let dx: i128 = p.x as i128 - q.x as i128;
    let dy: i128 = p.y as i128 - q.y as i128;
    proof {
        lemma_sq_dist_bounds(*p, *q);
    }
    assert(0 <= dx * dx < 0x1_0000_0000_0000_0000) by (nonlinear_arith)
        requires
            -0x1_0000_0000 < dx < 0x1_0000_0000,
    ;
    assert(0 <= dy * dy < 0x1_0000_0000_0000_0000) by (nonlinear_arith)
        requires
            -0x1_0000_0000 < dy < 0x1_0000_0000,
    ;
    (dx * dx + dy * dy) as u128
}

/// Euclidean distance between two points, rounded down.
pub fn euclidean_dist(p: &Point, q: &Point) -> (r: u64)
    ensures
        r == dist_spec(*p, *q),
        r < MAX_DIST,
{
    proof {
        lemma_sq_dist_bounds(*p, *q);
    }
    isqrt_exec(squared_dist(p, q))
}

/// Collects the characters of a string slice, in order.
pub fn chars_of(s: &str) -> (r: Vec<char>)
    ensures
        r@ == s@,
{
    let mut r: Vec<char> = Vec::new();
    for c in it: s.chars()
        invariant
            r@ == it.seq().take(it.index() as int),
            it.seq() == s@,
    {
        r.push(c);
    }
    r
}

/// ASCII case folding of one character.
pub open spec fn fold_spec(c: char) -> char {
    if 'A' <= c && c <= 'Z' {
        ((c as u32) + 32) as char
    } else {
        c
    }
}

/// Lowers an ASCII capital letter; leaves every other character as it is.
pub fn fold(c: char) -> (r: char)
    ensures
        r == fold_spec(c),
{
    if 'A' <= c && c <= 'Z' {
        ((c as u8) + 32) as char
    } else {
        c
    }
}


/// A keyboard layout: each key's character and the position of its centre.
/// Where a character is listed twice, its first entry counts.
pub struct Layout {
    pub keys: Vec<(char, Point)>,
}

impl Layout {
    /// The position of the key for `c`, if the layout has one.
    pub open spec fn key(&self, c: char) -> Option<Point> {
        assoc(self.keys@, c)
    }

    /// Looks up the position of the key for `c`.
    pub fn get(&self, c: char) -> (r: Option<Point>)
        ensures
            r == self.key(c),
    {
        let n = self.keys.len();
        let mut i: usize = 0;
        proof {
            lemma_assoc_ends(self.keys@, c);
        }
        while i < n
            invariant
                i <= n == self.keys@.len(),
                assoc(self.keys@.subrange(i as int, n as int), c) == self.key(c),
            decreases n - i,
        {
            proof {
                lemma_assoc_step(self.keys@, i as int, c);
            }
            if self.keys[i].0 == c {
                return Some(self.keys[i].1);
            }
            i = i + 1;
        }
        None
    }
}

/// One keyboard row: its keys one unit apart, starting at `(x0, y)`.
pub open spec fn row_keys(cs: Seq<char>, x0: int, y: int) -> Seq<(char, Point)> {
    Seq::new(cs.len(), |i: int| (cs[i], Point { x: (x0 + 1000 * i) as i32, y: y as i32 }))
}

/// The three QWERTY rows, the lower ones shifted right by half a key and
/// by one and a half keys.
pub open spec fn qwerty_keys() -> Seq<(char, Point)> {
    row_keys(seq!['q', 'w', 'e', 'r', 't', 'y', 'u', 'i', 'o', 'p'], 0, 0)
        + row_keys(seq!['a', 's', 'd', 'f', 'g', 'h', 'j', 'k', 'l'], 500, 1000)
        + row_keys(seq!['z', 'x', 'c', 'v', 'b', 'n', 'm'], 1500, 2000)
}

fn push_row(keys: &mut Vec<(char, Point)>, cs: Vec<char>, x0: i32, y: i32)
    requires
        cs@.len() <= 10,
        0 <= x0 <= 2000,
    ensures
        final(keys)@ == old(keys)@ + row_keys(cs@, x0 as int, y as int),
{
    let n = cs.len();
    for i in 0..n
        invariant
            n == cs@.len() <= 10,
            0 <= x0 <= 2000,
            keys@ == old(keys)@ + row_keys(cs@, x0 as int, y as int).take(i as int),
    {
        let p = Point { x: x0 + 1000 * (i as i32), y };
        keys.push((cs[i], p));
        assert(row_keys(cs@, x0 as int, y as int).take(i + 1) =~= row_keys(
            cs@,
            x0 as int,
            y as int,
        ).take(i as int).push((cs@[i as int], p)));
    }
    assert(row_keys(cs@, x0 as int, y as int).take(n as int) =~= row_keys(cs@, x0 as int, y as int));
}

/// The standard QWERTY layout, one key width apart.
pub fn get_keyboard_layout() -> (r: Layout)
    ensures
        r.keys@ == qwerty_keys(),
{
    let mut keys: Vec<(char, Point)> = Vec::new();
    push_row(&mut keys, vec!['q', 'w', 'e', 'r', 't', 'y', 'u', 'i', 'o', 'p'], 0, 0);
    push_row(&mut keys, vec!['a', 's', 'd', 'f', 'g', 'h', 'j', 'k', 'l'], 500, 1000);
    push_row(&mut keys, vec!['z', 'x', 'c', 'v', 'b', 'n', 'm'], 1500, 2000);
    assert(keys@ =~= qwerty_keys());
    Layout { keys }
}


/// The key positions that the characters of `cs` reach, case-folded;
/// characters without a key are skipped.
pub open spec fn key_points(cs: Seq<char>, keys: Seq<(char, Point)>) -> Seq<Point>
    decreases cs.len(),
{
    if cs.len() == 0 {
        Seq::empty()
    } else {
        let pre = key_points(cs.drop_last(), keys);
        match assoc(keys, fold_spec(cs.last())) {
            Some(p) => pre.push(p),
            None => pre,
        }
    }
}

/// Rounds `a + (b - a) * s / n` towards `a`.
pub open spec fn lerp(a: int, b: int, s: int, n: int) -> int {
    if a <= b {
        a + (b - a) * s / n
    } else {
        a - (a - b) * s / n
    }
}

/// The `s`-th of `n` evenly spaced points from `p` towards `q`.
pub open spec fn interp(p: Point, q: Point, s: int, n: int) -> Point {
    Point { x: lerp(p.x as int, q.x as int, s, n) as i32, y: lerp(p.y as int, q.y as int, s, n) as i32 }
}

/// How many pieces the stretch from `p` to `q` is cut into: one where the
/// keys are at most a step apart, else the distance in steps, rounded up.
pub open spec fn steps(p: Point, q: Point) -> nat {
    if sq_dist(p, q) > (STEP * STEP) as nat {
        (dist_spec(p, q) + STEP - 1) as nat / (STEP as nat)
    } else {
        1
    }
}

/// The points that follow `p` on the way to `q`: the intermediate points,
/// then `q` itself.
pub open spec fn segment(p: Point, q: Point) -> Seq<Point> {
    let n = steps(p, q);
    Seq::new((n - 1) as nat, |k: int| interp(p, q, k + 1, n as int)).push(q)
}

/// The raw path through a sequence of key positions.
pub open spec fn path_through(kp: Seq<Point>) -> Seq<Point>
    decreases kp.len(),
{
    if kp.len() <= 1 {
        kp
    } else {
        path_through(kp.drop_last()) + segment(kp[kp.len() - 2], kp.last())
    }
}

/// The raw path of a text over a layout.
pub open spec fn word_path_spec(text: Seq<char>, keys: Seq<(char, Point)>) -> Seq<Point> {
    path_through(key_points(text, keys))
}

proof fn lemma_steps(p: Point, q: Point)
    ensures
        1 <= steps(p, q) < MAX_DIST,
{
    lemma_sq_dist_bounds(p, q);
    let n = sq_dist(p, q);
    if n > 250000 {
        lemma_isqrt(n);
        let r = isqrt(n);
        if r < 500 {
            assert((r + 1) * (r + 1) <= 250000) by (nonlinear_arith)
                requires
                    r < 500,
            ;
        }
    }
}

fn lerp_exec(a: i32, b: i32, s: u64, n: u64) -> (r: i32)
    requires
        1 <= s < n < MAX_DIST,
    ensures
        r as int == lerp(a as int, b as int, s as int, n as int),
{
    if a <= b {
        let d: u128 = (b as i64 - a as i64) as u128;
        assert(d * s < 0x1_0000_0000 * 0x2_0000_0000) by (nonlinear_arith)
            requires
                d < 0x1_0000_0000,
                s < 0x2_0000_0000,
        ;
        let q: u128 = d * (s as u128) / (n as u128);
        assert(q <= d) by (nonlinear_arith)
            requires
                q as int == (d as int) * (s as int) / (n as int),
                s < n,
                0 < n,
                d >= 0,
        ;
        (a as i64 + q as i64) as i32
    } else {
        let d: u128 = (a as i64 - b as i64) as u128;
        assert(d * s < 0x1_0000_0000 * 0x2_0000_0000) by (nonlinear_arith)
            requires
                d < 0x1_0000_0000,
                s < 0x2_0000_0000,
        ;
        let q: u128 = d * (s as u128) / (n as u128);
        assert(q <= d) by (nonlinear_arith)
            requires
                q as int == (d as int) * (s as int) / (n as int),
                s < n,
                0 < n,
                d >= 0,
        ;
        (a as i64 - q as i64) as i32
    }
}

/// Appends the segment from `p` to `q`.
fn push_segment(path: &mut Vec<Point>, p: Point, q: Point)
    ensures
        final(path)@ == old(path)@ + segment(p, q),
{
    proof {
        lemma_steps(p, q);
    }
    let n: u64 = if squared_dist(&p, &q) > (STEP * STEP) as u128 {
        (euclidean_dist(&p, &q) + (STEP - 1)) / STEP
    } else {
        1
    };
    let ghost mids = Seq::new((n - 1) as nat, |k: int| interp(p, q, k + 1, n as int));
    for s in 1..n
        invariant
            1 <= n < MAX_DIST,
            n == steps(p, q),
            mids == Seq::new((n - 1) as nat, |k: int| interp(p, q, k + 1, n as int)),
            path@ == old(path)@ + mids.take(s - 1),
    {
        let pt = Point { x: lerp_exec(p.x, q.x, s, n), y: lerp_exec(p.y, q.y, s, n) };
        path.push(pt);
        assert(mids.take(s as int) =~= mids.take(s - 1).push(pt));
    }
    assert(mids.take(n - 1) =~= mids);
    path.push(q);
    assert(path@ =~= old(path)@ + segment(p, q));
}

/// The raw path that a text traces over a layout: the key of each character
/// that has one, in order, with points at most a step apart between
/// consecutive keys. Empty when no character has a key.
pub fn get_word_path(word: &str, layout: &Layout) -> (r: Vec<Point>)
    ensures
        r@ == word_path_spec(word@, layout.keys@),
        gaps_bounded(r@),
{
    proof {
        lemma_word_path_gaps(word@, layout.keys@);
    }
    let cs = chars_of(word);
    let mut kp: Vec<Point> = Vec::new();
    for i in 0..cs.len()
        invariant
            cs@ == word@,
            kp@ == key_points(cs@.take(i as int), layout.keys@),
    {
        assert(cs@.take(i + 1).drop_last() =~= cs@.take(i as int));
        match layout.get(fold(cs[i])) {
            Some(p) => kp.push(p),
            None => {},
        }
    }
    assert(cs@.take(cs@.len() as int) =~= cs@);
    if kp.len() == 0 {
        return Vec::new();
    }
    let mut path: Vec<Point> = Vec::new();
    path.push(kp[0]);
    assert(kp@.take(1) =~= seq![kp@[0]]);
    for i in 1..kp.len()
        invariant
            1 <= kp@.len(),
            path@ == path_through(kp@.take(i as int)),
    {
        assert(kp@.take(i + 1).drop_last() =~= kp@.take(i as int));
        push_segment(&mut path, kp[i - 1], kp[i]);
    }
    assert(kp@.take(kp@.len() as int) =~= kp@);
    path
}


/// The simplified form of a path: the first point, then each point that
/// lies more than a hundredth of a key from the last point kept.
pub open spec fn simplify_spec(p: Seq<Point>) -> Seq<Point>
    decreases p.len(),
{
    if p.len() <= 1 {
        p
    } else {
        let s = simplify_spec(p.drop_last());
        if sq_dist(p.last(), s.last()) > MERGE_SQ as nat {
            s.push(p.last())
        } else {
            s
        }
    }
}

/// Consecutive points lie more than a hundredth of a key apart.
pub open spec fn separated(p: Seq<Point>) -> bool {
    forall|i: int| 1 <= i < p.len() ==> sq_dist(#[trigger] p[i], p[i - 1]) > MERGE_SQ as nat
}

pub proof fn lemma_simplify_shape(p: Seq<Point>)
    ensures
        simplify_spec(p).len() <= p.len(),
        p.len() > 0 ==> simplify_spec(p).len() > 0 && simplify_spec(p)[0] == p[0],
        separated(simplify_spec(p)),
    decreases p.len(),
{
    if p.len() > 1 {
        lemma_simplify_shape(p.drop_last());
    }
}

proof fn lemma_simplify_separated(p: Seq<Point>)
    requires
        separated(p),
    ensures
        simplify_spec(p) == p,
    decreases p.len(),
{
    if p.len() > 1 {
        let q = p.drop_last();
        assert(separated(q)) by {
            assert forall|i: int| 1 <= i < q.len() implies sq_dist(#[trigger] q[i], q[i - 1])
                > MERGE_SQ as nat by {
                assert(q[i] == p[i] && q[i - 1] == p[i - 1]);
            }
        }
        lemma_simplify_separated(q);
        assert(sq_dist(p[p.len() - 1], p[p.len() - 2]) > MERGE_SQ as nat);
        assert(q.push(p.last()) =~= p);
    }
}

/// Simplifying a path a second time changes nothing.
pub proof fn lemma_simplify_idempotent(p: Seq<Point>)
    ensures
        simplify_spec(simplify_spec(p)) == simplify_spec(p),
{
    lemma_simplify_shape(p);
    lemma_simplify_separated(simplify_spec(p));
}

/// Drops each point that lies within a hundredth of a key of the last
/// point kept.
pub fn simplify_path(path: &[Point]) -> (r: Vec<Point>)
    ensures
        r@ == simplify_spec(path@),
{
    let n = path.len();
    if n == 0 {
        return Vec::new();
    }
    let mut r: Vec<Point> = Vec::new();
    r.push(path[0]);
    assert(path@.take(1) =~= seq![path@[0]]);
    for i in 1..n
        invariant
            n == path@.len() >= 1,
            r@ == simplify_spec(path@.take(i as int)),
    {
        proof {
            lemma_simplify_shape(path@.take(i as int));
        }
        assert(path@.take(i + 1).drop_last() =~= path@.take(i as int));
        let last = r[r.len() - 1];
        if squared_dist(&path[i], &last) > MERGE_SQ {
            r.push(path[i]);
        }
    }
    assert(path@.take(n as int) =~= path@);
    r
}

proof fn lemma_key_points_all(cs: Seq<char>, keys: Seq<(char, Point)>)
    requires
        forall|i: int| 0 <= i < cs.len() ==> (#[trigger] assoc(keys, fold_spec(cs[i]))) is Some,
    ensures
        key_points(cs, keys).len() == cs.len(),
        cs.len() > 0 ==> key_points(cs, keys)[0] == assoc(keys, fold_spec(cs[0]))->Some_0,
    decreases cs.len(),
{
    if cs.len() > 0 {
        let pre = cs.drop_last();
        assert forall|i: int| 0 <= i < pre.len() implies (#[trigger] assoc(
            keys,
            fold_spec(pre[i]),
        )) is Some by {
            assert(pre[i] == cs[i]);
        }
        assert(assoc(keys, fold_spec(cs[cs.len() - 1])) is Some);
        lemma_key_points_all(pre, keys);
        if pre.len() > 0 {
            assert(pre[0] == cs[0]);
        }
    }
}

proof fn lemma_path_through_start(kp: Seq<Point>)
    requires
        kp.len() > 0,
    ensures
        path_through(kp).len() > 0,
        path_through(kp)[0] == kp[0],
    decreases kp.len(),
{
    if kp.len() > 1 {
        lemma_path_through_start(kp.drop_last());
    }
}

/// A non-empty word whose every character has a key traces a non-empty
/// path that starts on the key of its first character.
pub proof fn lemma_word_path_starts_on_first_key(w: Seq<char>, layout: Layout)
    requires
        w.len() > 0,
        forall|i: int| 0 <= i < w.len() ==> (#[trigger] layout.key(fold_spec(w[i]))) is Some,
    ensures
        word_path_spec(w, layout.keys@).len() > 0,
        word_path_spec(w, layout.keys@)[0] == layout.key(fold_spec(w[0]))->Some_0,
{
    assert forall|i: int| 0 <= i < w.len() implies (#[trigger] assoc(
        layout.keys@,
        fold_spec(w[i]),
    )) is Some by {
        assert(layout.key(fold_spec(w[i])) is Some);
    }
    lemma_key_points_all(w, layout.keys@);
    lemma_path_through_start(key_points(w, layout.keys@));
}


/// A text none of whose characters has a key traces an empty path.
pub proof fn lemma_word_path_unmapped(w: Seq<char>, keys: Seq<(char, Point)>)
    requires
        forall|i: int| 0 <= i < w.len() ==> (#[trigger] assoc(keys, fold_spec(w[i]))) is None,
    ensures
        word_path_spec(w, keys).len() == 0,
    decreases w.len(),
{
    if w.len() > 0 {
        let pre = w.drop_last();
        assert forall|i: int| 0 <= i < pre.len() implies (#[trigger] assoc(keys, fold_spec(pre[i]))) is None by {
            assert(pre[i] == w[i]);
        }
        assert(assoc(keys, fold_spec(w[w.len() - 1])) is None);
        lemma_word_path_unmapped(pre, keys);
    }
}


/// Largest squared gap between consecutive points of a raw path: half a
/// key, plus the rounding of the integer grid (503 thousandths, squared).
pub const MAX_GAP_SQ: u128 = 253009;

/// Consecutive points lie at most `MAX_GAP_SQ` apart, squared.
pub open spec fn gaps_bounded(p: Seq<Point>) -> bool {
    forall|i: int| 0 <= i < p.len() - 1 ==> sq_dist(#[trigger] p[i], p[i + 1]) <= MAX_GAP_SQ as nat
}

proof fn lemma_div_parts(x: int, y: int, n: int)
    requires
        x >= 0,
        y >= 0,
        n > 0,
    ensures
        x / n + y / n <= (x + y) / n <= x / n + y / n + 1,
{
    vstd::arithmetic::div_mod::lemma_fundamental_div_mod(x, n);
    vstd::arithmetic::div_mod::lemma_fundamental_div_mod(y, n);
    vstd::arithmetic::div_mod::lemma_fundamental_div_mod(x + y, n);
    vstd::arithmetic::div_mod::lemma_mod_pos_bound(x, n);
    vstd::arithmetic::div_mod::lemma_mod_pos_bound(y, n);
    vstd::arithmetic::div_mod::lemma_mod_pos_bound(x + y, n);
    let (qx, qy, q) = (x / n, y / n, (x + y) / n);
    let (rx, ry, r) = (x % n, y % n, (x + y) % n);
    assert(qx + qy <= q <= qx + qy + 1) by (nonlinear_arith)
        requires
            x == n * qx + rx,
            y == n * qy + ry,
            x + y == n * q + r,
            0 <= rx < n,
            0 <= ry < n,
            0 <= r < n,
    ;
}

/// Where the `s`-th interpolated coordinate lies, and how far it moves at
/// the next step.
proof fn lemma_lerp(a: int, b: int, s: int, n: int)
    requires
        0 <= s < n,
    ensures
        a <= b ==> a <= lerp(a, b, s, n) <= b && a <= lerp(a, b, s + 1, n) <= b,
        b < a ==> b <= lerp(a, b, s, n) <= a && b <= lerp(a, b, s + 1, n) <= a,
        lerp(a, b, 0, n) == a,
        lerp(a, b, n, n) == b,
        ({
            let g = lerp(a, b, s + 1, n) - lerp(a, b, s, n);
            let d = if a <= b { b - a } else { a - b };
            -(d / n + 1) <= g <= d / n + 1
        }),
{
    let d = if a <= b { b - a } else { a - b };
    assert(d * s / n <= d && d * (s + 1) / n <= d && 0 <= d * s / n) by (nonlinear_arith)
        requires
            d >= 0,
            0 <= s < n,
    ;
    assert(d * 0 / n == 0 && d * n / n == d) by (nonlinear_arith)
        requires
            n > 0,
    ;
    assert(d * (s + 1) == d * s + d) by (nonlinear_arith);
    assert(d * s >= 0) by (nonlinear_arith)
        requires
            d >= 0,
            s >= 0,
    ;
    lemma_div_parts(d * s, d, n);
}

/// Consecutive interpolated points are at most a gap apart.
proof fn lemma_interp_gap(p: Point, q: Point, s: int)
    requires
        0 <= s < steps(p, q),
    ensures
        sq_dist(interp(p, q, s, steps(p, q) as int), interp(p, q, s + 1, steps(p, q) as int))
            <= MAX_GAP_SQ as nat,
{
    lemma_steps(p, q);
    lemma_sq_dist_bounds(p, q);
    let n = steps(p, q) as int;
    lemma_lerp(p.x as int, q.x as int, s, n);
    lemma_lerp(p.y as int, q.y as int, s, n);
    let u = interp(p, q, s, n);
    let v = interp(p, q, s + 1, n);
    let gx = v.x - u.x;
    let gy = v.y - u.y;
    let dx = if p.x <= q.x { q.x - p.x } else { p.x - q.x };
    let dy = if p.y <= q.y { q.y - p.y } else { p.y - q.y };
    let ax = dx / n;
    let ay = dy / n;
    assert(sq_dist(u, v) == gx * gx + gy * gy) by (nonlinear_arith)
        requires
            gx == v.x - u.x,
            gy == v.y - u.y,
            sq_dist(u, v) == ((u.x - v.x) * (u.x - v.x) + (u.y - v.y) * (u.y - v.y)) as nat,
    ;
    let big = sq_dist(p, q);
    assert(big == dx * dx + dy * dy) by (nonlinear_arith)
        requires
            dx == p.x - q.x || dx == q.x - p.x,
            dy == p.y - q.y || dy == q.y - p.y,
            big == ((p.x - q.x) * (p.x - q.x) + (p.y - q.y) * (p.y - q.y)) as nat,
    ;
    if big <= 250000 {
        assert(n == 1);
        assert(u == p && v == q);
    } else {
        let r = isqrt(big);
        lemma_isqrt(big);
        assert(n * 500 >= r);
        assert(0 <= ax && 0 <= ay) by (nonlinear_arith)
            requires
                ax == dx / n,
                ay == dy / n,
                dx >= 0,
                dy >= 0,
                n > 0,
        ;
        assert(n * ax <= dx && n * ay <= dy) by (nonlinear_arith)
            requires
                ax == dx / n,
                ay == dy / n,
                dx >= 0,
                dy >= 0,
                n > 0,
        ;
        assert(n * n * (ax * ax + ay * ay) <= big) by (nonlinear_arith)
            requires
                0 <= n * ax <= dx,
                0 <= n * ay <= dy,
                big == dx * dx + dy * dy,
        ;
        assert(ax * ax + ay * ay <= 251000) by (nonlinear_arith)
            requires
                n * n * (ax * ax + ay * ay) <= big,
                big < (r + 1) * (r + 1),
                r <= n * 500,
                n >= 1,
                r >= 0,
        ;
        assert(ax + ay <= 708) by (nonlinear_arith)
            requires
                ax * ax + ay * ay <= 251000,
                ax >= 0,
                ay >= 0,
        ;
        assert(gx * gx + gy * gy <= MAX_GAP_SQ) by (nonlinear_arith)
            requires
                -(ax + 1) <= gx <= ax + 1,
                -(ay + 1) <= gy <= ay + 1,
                ax * ax + ay * ay <= 251000,
                ax + ay <= 708,
                ax >= 0,
                ay >= 0,
        ;
    }
}


proof fn lemma_segment_gaps(p: Point, q: Point)
    ensures
        segment(p, q).len() >= 1,
        segment(p, q).last() == q,
        gaps_bounded(seq![p] + segment(p, q)),
{
    lemma_steps(p, q);
    let n = steps(p, q) as int;
    let full = seq![p] + segment(p, q);
    lemma_lerp(p.x as int, q.x as int, 0, n);
    lemma_lerp(p.y as int, q.y as int, 0, n);
    assert forall|k: int| 0 <= k <= n implies #[trigger] full[k] == interp(p, q, k, n) by {
        if k == 0 {
            assert(interp(p, q, 0, n) == p);
        } else if k == n {
            lemma_lerp(p.x as int, q.x as int, n - 1, n);
            lemma_lerp(p.y as int, q.y as int, n - 1, n);
            assert(interp(p, q, n, n) == q);
        }
    }
    assert forall|i: int| 0 <= i < full.len() - 1 implies sq_dist(#[trigger] full[i], full[i + 1])
        <= MAX_GAP_SQ as nat by {
        assert(full[i] == interp(p, q, i, n));
        assert(full[i + 1] == interp(p, q, i + 1, n));
        lemma_interp_gap(p, q, i);
    }
}

proof fn lemma_path_gaps(kp: Seq<Point>)
    ensures
        gaps_bounded(path_through(kp)),
        kp.len() > 0 ==> path_through(kp).len() > 0 && path_through(kp).last() == kp.last(),
    decreases kp.len(),
{
    if kp.len() > 1 {
        let pre = kp.drop_last();
        let a = kp[kp.len() - 2];
        let b = kp.last();
        lemma_path_gaps(pre);
        lemma_segment_gaps(a, b);
        let head = path_through(pre);
        let seg = segment(a, b);
        let full = seq![a] + seg;
        let path = head + seg;
        assert(pre.last() == a);
        assert forall|i: int| 0 <= i < path.len() - 1 implies sq_dist(#[trigger] path[i], path[i + 1])
            <= MAX_GAP_SQ as nat by {
            let l = head.len() as int;
            if i < l - 1 {
                assert(path[i] == head[i] && path[i + 1] == head[i + 1]);
            } else {
                let k = i - l + 1;
                assert(path[i] == full[k] && path[i + 1] == full[k + 1]);
            }
        }
    }
}

/// Consecutive points of a raw word path lie at most half a key apart,
/// up to the rounding of the integer grid.
pub proof fn lemma_word_path_gaps(w: Seq<char>, keys: Seq<(char, Point)>)
    ensures
        gaps_bounded(word_path_spec(w, keys)),
{
    lemma_path_gaps(key_points(w, keys));
}

} // verus!
