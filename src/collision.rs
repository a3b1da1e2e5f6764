use vstd::prelude::*;
use vstd::math::abs;
use vstd::arithmetic::div_mod::{
    lemma_div_is_ordered, lemma_div_multiples_vanish, lemma_div_pos_is_pos, lemma_fundamental_div_mod,
    lemma_mod_pos_bound,
};
use crate::geometry::{Point, Envelope, COORD_LIMIT, meets, clip, clip_coord, div_toward_zero, div_toward_zero_exec, is_root, root, isqrt, lemma_root_unique,
    lemma_root_exists};
use crate::cell::{Cell, cell_box, dist2, squared_distance};
use crate::spatial::{build_index, query_index, indexed_boxes};

verus! {

/// Magnitude of one component of a push: `|d| * (s - dist) / dist` rounded
/// down, where `d` is that component of the centre vector, `d2` the squared
/// centre distance `dist * dist` and `s` the sum of the radii. It is computed
/// exactly as `root(d * d * s * s / d2) - |d|`, since the integer square root of
/// the rounded-down quotient is the rounded-down square root of the quotient.
pub open spec fn push_part(d: int, d2: int, s: int) -> int {
    root((d * d * (s * s)) / d2) - abs(d)
}

/// A magnitude `m` directed against the sign of `d`.
pub open spec fn away(d: int, m: int) -> int {
    if d > 0 {
        -m
    } else if d < 0 {
        m
    } else {
        0
    }
}

/// Push felt by cell `a` from cell `b`, and whether it counts as an overlap.
/// The cells overlap when the centre distance (rounded down, which decides
/// this exactly) is below the sum of the radii; `a` is then pushed away from
/// `b` along the line of centres by the full penetration, each component
/// rounded toward zero. Coinciding centres give no push but still count.
pub open spec fn push(a: Cell, b: Cell) -> (int, int, int) {
    let d2 = dist2(a.pos, b.pos);
    let s = a.size + b.size;
    let dx = b.pos.x - a.pos.x;
    let dy = b.pos.y - a.pos.y;
    if root(d2) >= s {
        (0, 0, 0)
    } else if root(d2) == 0 {
        (0, 0, 1)
    } else {
        (away(dx, push_part(dx, d2, s)), away(dy, push_part(dy, d2, s)), 1)
    }
}

/// What cell `j` contributes to cell `i`: nothing unless their boxes meet.
pub open spec fn share(cells: Seq<Cell>, i: int, j: int) -> (int, int, int) {
    if meets(cell_box(cells[j]), cell_box(cells[i])) {
        push(cells[i], cells[j])
    } else {
        (0, 0, 0)
    }
}

pub open spec fn add3(a: (int, int, int), b: (int, int, int)) -> (int, int, int) {
    (a.0 + b.0, a.1 + b.1, a.2 + b.2)
}

/// Total push on cell `i` from cells `0 .. n`, with the overlap count.
pub open spec fn total_push(cells: Seq<Cell>, i: int, n: int) -> (int, int, int)
    decreases n,
{
    if n <= 0 {
        (0, 0, 0)
    } else {
        add3(total_push(cells, i, n - 1), share(cells, i, n - 1))
    }
}

/// Total push on cell `i` from the cells listed in `s`, in that order.
pub open spec fn listed_push(cells: Seq<Cell>, i: int, s: Seq<usize>) -> (int, int, int)
    decreases s.len(),
{
    if s.len() == 0 {
        (0, 0, 0)
    } else {
        add3(listed_push(cells, i, s.drop_last()), share(cells, i, s.last() as int))
    }
}

/// Where cell `i` would go before the arena bounds are enforced.
pub open spec fn moved(cells: Seq<Cell>, i: int, scale: bool) -> (int, int) {
    let t = total_push(cells, i, cells.len() as int);
    let c = cells[i];
    if scale {
        let k = if t.2 > 1 {
            t.2
        } else {
            1
        };
        (clip(c.pos.x + div_toward_zero(t.0, k)), clip(c.pos.y + div_toward_zero(t.1, k)))
    } else {
        (clip(c.pos.x + t.0), clip(c.pos.y + t.1))
    }
}

/// Bound enforcement by priority: low x, high x, low y, high y; only the first
/// violated bound is corrected.
pub open spec fn clamped(p: (int, int), r: int, w: int, h: int) -> (int, int) {
    if p.0 < r {
        (r, p.1)
    } else if p.0 > w - r {
        (w - r, p.1)
    } else if p.1 < r {
        (p.0, r)
    } else if p.1 > h - r {
        (p.0, h - r)
    } else {
        p
    }
}

/// A cell of radius `r` centred on `p` lies inside the `w` by `h` arena.
pub open spec fn inside(p: (int, int), r: int, w: int, h: int) -> bool {
    r <= p.0 <= w - r && r <= p.1 <= h - r
}

/// Cell `i` after one collision pass.
pub open spec fn pass_cell(cells: Seq<Cell>, i: int, scale: bool, w: int, h: int) -> Cell {
    let p = clamped(moved(cells, i, scale), cells[i].size as int, w, h);
    Cell { pos: Point { x: p.0 as i64, y: p.1 as i64 }, size: cells[i].size, vel: cells[i].vel }
}

/// All cells after one collision pass.
pub open spec fn pass(cells: Seq<Cell>, scale: bool, w: int, h: int) -> Seq<Cell> {
    Seq::new(cells.len(), |i: int| pass_cell(cells, i, scale, w, h))
}

/// All cells after `k` collision passes.
pub open spec fn passes(cells: Seq<Cell>, k: nat, scale: bool, w: int, h: int) -> Seq<Cell>
    decreases k,
{
    if k == 0 {
        cells
    } else {
        pass(passes(cells, (k - 1) as nat, scale, w, h), scale, w, h)
    }
}

pub open spec fn all_wf(cells: Seq<Cell>) -> bool {
    forall|k: int| 0 <= k < cells.len() ==> (#[trigger] cells[k]).wf()
}

/// An arena side length that the fixed-point model can hold.
pub open spec fn side_ok(w: int) -> bool {
    0 <= w <= COORD_LIMIT
}

proof fn lemma_listed_remove(cells: Seq<Cell>, i: int, s: Seq<usize>, k: int)
    requires
        0 <= k < s.len(),
    ensures
        listed_push(cells, i, s) == add3(listed_push(cells, i, s.remove(k)), share(cells, i, s[k] as int)),
    decreases s.len(),
{
    if k == s.len() - 1 {
        assert(s.remove(k) =~= s.drop_last());
    } else {
        let t = s.drop_last();
        lemma_listed_remove(cells, i, t, k);
        assert(s.remove(k).drop_last() =~= t.remove(k));
        assert(s.remove(k).last() == s.last());
    }
}

/// The push summed over any duplicate-free listing of exactly the cells whose
/// boxes meet cell `i`'s box equals the push summed over all cells.
proof fn lemma_listed_is_total(cells: Seq<Cell>, i: int, s: Seq<usize>, n: int)
    requires
        0 <= n <= cells.len(),
        n <= usize::MAX,
        0 <= i < cells.len(),
        s.no_duplicates(),
        forall|j: usize|
            #![trigger s.contains(j)]
            s.contains(j) <==> (j < n && meets(cell_box(cells[j as int]), cell_box(cells[i]))),
    ensures
        listed_push(cells, i, s) == total_push(cells, i, n),
    decreases n,
{
    if n == 0 {
        if s.len() > 0 {
            assert(s.contains(s[0]));
        }
        assert(s =~= Seq::<usize>::empty());
    } else {
        let m = (n - 1) as usize;
        if meets(cell_box(cells[m as int]), cell_box(cells[i])) {
            assert(s.contains(m));
            let k = choose|k: int| 0 <= k < s.len() && s[k] == m;
            let t = s.remove(k);
            assert forall|a: int, b: int| 0 <= a < t.len() && 0 <= b < t.len() && a != b implies t[a]
                != t[b] by {
                let a2 = if a < k {
                    a
                } else {
                    a + 1
                };
                let b2 = if b < k {
                    b
                } else {
                    b + 1
                };
                assert(t[a] == s[a2] && t[b] == s[b2]);
            }
            assert forall|j: usize|
                #![trigger t.contains(j)]
                t.contains(j) <==> (j < n - 1 && meets(cell_box(cells[j as int]), cell_box(cells[i]))) by {
                if t.contains(j) {
                    let a = choose|a: int| 0 <= a < t.len() && t[a] == j;
                    let b = if a < k {
                        a
                    } else {
                        a + 1
                    };
                    assert(s[b] == j);
                    assert(s.contains(j));
                }
                if j < n - 1 && meets(cell_box(cells[j as int]), cell_box(cells[i])) {
                    assert(s.contains(j));
                    let b = choose|b: int| 0 <= b < s.len() && s[b] == j;
                    assert(b != k);
                    let a = if b < k {
                        b
                    } else {
                        b - 1
                    };
                    assert(0 <= a < t.len());
                    assert(t[a] == s[b]);
                    assert(t.contains(j));
                }
            }
            lemma_listed_is_total(cells, i, t, n - 1);
            lemma_listed_remove(cells, i, s, k);
        } else {
            assert forall|j: usize|
                #![trigger s.contains(j)]
                s.contains(j) <==> (j < n - 1 && meets(cell_box(cells[j as int]), cell_box(cells[i]))) by {}
            lemma_listed_is_total(cells, i, s, n - 1);
        }
    }
}

/// `push_part` is the true push component rounded down: with `t = m + |d|`,
/// `t * t * d2 <= d * d * s * s < (t + 1) * (t + 1) * d2`, that is
/// `t <= |d| * s / dist < t + 1`. It is never negative and never above `s`.
pub proof fn lemma_push_part(d: int, d2: int, s: int)
    requires
        0 < d2,
        d * d <= d2,
        d2 < s * s,
        0 < s,
    ensures
        ({
            let m = push_part(d, d2, s);
            let t = m + abs(d);
            &&& 0 <= m <= s
            &&& t * t * d2 <= d * d * (s * s)
            &&& d * d * (s * s) < (t + 1) * (t + 1) * d2
        }),
{
    let x = d * d * (s * s);
    let q = x / d2;
    assert(0 <= x) by (nonlinear_arith)
        requires
            x == d * d * (s * s),
    ;
    lemma_div_pos_is_pos(x, d2);
    lemma_fundamental_div_mod(x, d2);
    lemma_mod_pos_bound(x, d2);
    lemma_root_exists(q);
    let t = root(q);
    assert(t * t * d2 <= x) by (nonlinear_arith)
        requires
            0 <= t * t <= q,
            x == d2 * q + x % d2,
            0 <= x % d2,
            0 < d2,
    ;
    assert(x < (t + 1) * (t + 1) * d2) by (nonlinear_arith)
        requires
            q < (t + 1) * (t + 1),
            x == d2 * q + x % d2,
            x % d2 < d2,
            0 < d2,
    ;
    // |d| <= t, since x / d2 >= d * d
    let dd = d * d;
    assert(dd * d2 <= x) by (nonlinear_arith)
        requires
            dd == d * d,
            x == d * d * (s * s),
            d2 < s * s,
    ;
    lemma_div_is_ordered(dd * d2, x, d2);
    lemma_div_multiples_vanish(dd, d2);
    assert(d2 * dd == dd * d2) by (nonlinear_arith);
    lemma_root_of_square(abs(d) as int);
    assert(abs(d) * abs(d) == dd) by (nonlinear_arith)
        requires
            dd == d * d,
    ;
    lemma_root_monotone(dd, q);
    // t <= s, since x / d2 <= s * s
    assert(x <= d2 * (s * s)) by (nonlinear_arith)
        requires
            x == d * d * (s * s),
            d * d <= d2,
    ;
    lemma_div_is_ordered(x, d2 * (s * s), d2);
    lemma_div_multiples_vanish(s * s, d2);
    lemma_root_of_square(s);
    lemma_root_monotone(q, s * s);
}

/// One component of a push, computed exactly.
fn push_part_exec(d: i128, d2: i128, s: i128) -> (r: i128)
    requires
        0 < d2,
        d * d <= d2,
        d2 < s * s,
        0 < s <= 0x8000_0000,
    ensures
        r == away(d as int, push_part(d as int, d2 as int, s as int)),
        -0x8000_0000 <= r <= 0x8000_0000,
{
    proof {
        lemma_push_part(d as int, d2 as int, s as int);
        assert(-s < d < s) by (nonlinear_arith)
            requires
                d * d < s * s,
                0 < s,
        ;
        assert(d * d * (s * s) < 0x1000_0000_0000_0000_0000_0000_0000_0000) by (nonlinear_arith)
            requires
                -s < d < s,
                0 < s <= 0x8000_0000,
        ;
    }
    proof {
        assert(0 <= d * d <= 0x4000_0000_0000_0000 && 0 < s * s <= 0x4000_0000_0000_0000) by (nonlinear_arith)
            requires
                -s < d < s,
                0 < s <= 0x8000_0000,
        ;
    }
    let dd = d * d;
    let ss = s * s;
    let x = (dd * ss) as u128;
    let q = x / (d2 as u128);
    let t = isqrt(q) as i128;
    let ad: i128 = if d < 0 {
        -d
    } else {
        d
    };
    let m = t - ad;
    if d > 0 {
        -m
    } else if d < 0 {
        m
    } else {
        0
    }
}

/// The push of `b` on `a`, computed exactly.
fn cell_push(a: &Cell, b: &Cell) -> (r: (i128, i128, i128))
    requires
        a.wf(),
        b.wf(),
    ensures
        (r.0 as int, r.1 as int, r.2 as int) == push(*a, *b),
        -0x2_0000_0000 <= r.0 <= 0x2_0000_0000,
        -0x2_0000_0000 <= r.1 <= 0x2_0000_0000,
        0 <= r.2 <= 1,
{
    let s = (a.size as i128) + (b.size as i128);
    let d2 = squared_distance(a.pos, b.pos);
    let dist = isqrt(d2 as u128) as i128;
    if dist >= s {
        (0, 0, 0)
    } else if dist == 0 {
        (0, 0, 1)
    } else {
        let dx = (b.pos.x as i128) - (a.pos.x as i128);
        let dy = (b.pos.y as i128) - (a.pos.y as i128);
        proof {
            assert(d2 == dx * dx + dy * dy && dx * dx <= d2 && dy * dy <= d2) by (nonlinear_arith)
                requires
                    dx == b.pos.x - a.pos.x,
                    dy == b.pos.y - a.pos.y,
                    d2 == dist2(a.pos, b.pos),
            ;
            assert(0 < d2 < s * s) by (nonlinear_arith)
                requires
                    0 < dist < s,
                    dist * dist <= d2 < (dist + 1) * (dist + 1),
            ;
        }
        (push_part_exec(dx, d2, s), push_part_exec(dy, d2, s), 1)
    }
}

/// Sums the pushes on cell `i` from the listed cells, whose boxes all meet its box.
fn listed_push_exec(cells: &Vec<Cell>, i: usize, found: &Vec<usize>) -> (r: (i128, i128, i128))
    requires
        i < cells.len(),
        all_wf(cells@),
        forall|k: int|
            0 <= k < found.len() ==> #[trigger] found[k] < cells.len() && meets(
                cell_box(cells[found[k] as int]),
                cell_box(cells[i as int]),
            ),
    ensures
        (r.0 as int, r.1 as int, r.2 as int) == listed_push(cells@, i as int, found@),
        -(found.len() as int) * 0x2_0000_0000 <= r.0 <= (found.len() as int) * 0x2_0000_0000,
        -(found.len() as int) * 0x2_0000_0000 <= r.1 <= (found.len() as int) * 0x2_0000_0000,
        0 <= r.2,
{
    let mut sx: i128 = 0;
    let mut sy: i128 = 0;
    let mut cnt: i128 = 0;
    let mut k: usize = 0;
    while k < found.len()
        invariant
            k <= found.len(),
            i < cells.len(),
            all_wf(cells@),
            forall|k: int|
                0 <= k < found.len() ==> #[trigger] found[k] < cells.len() && meets(
                    cell_box(cells[found[k] as int]),
                    cell_box(cells[i as int]),
                ),
            (sx as int, sy as int, cnt as int) == listed_push(cells@, i as int, found@.take(k as int)),
            -(k as int) * 0x2_0000_0000 <= sx <= (k as int) * 0x2_0000_0000,
            -(k as int) * 0x2_0000_0000 <= sy <= (k as int) * 0x2_0000_0000,
            0 <= cnt <= k,
        decreases found.len() - k,
    {
        let j = found[k];
        let p = cell_push(&cells[i], &cells[j]);
        proof {
            assert(found@.take(k + 1).drop_last() =~= found@.take(k as int));
        }
        sx = sx + p.0;
        sy = sy + p.1;
        cnt = cnt + p.2;
        k = k + 1;
    }
    proof {
        assert(found@.take(found.len() as int) =~= found@);
    }
    (sx, sy, cnt)
}

/// Bound enforcement by priority, computed exactly.
pub fn clamp_position(p: Point, r: i64, w: i64, h: i64) -> (q: Point)
    requires
        p.bounded(),
        0 < r <= 0x1_0000_0000,
        side_ok(w as int),
        side_ok(h as int),
    ensures
        (q.x as int, q.y as int) == clamped((p.x as int, p.y as int), r as int, w as int, h as int),
        q.bounded(),
{
    if p.x < r {
        Point { x: r, y: p.y }
    } else if p.x > w - r {
        Point { x: w - r, y: p.y }
    } else if p.y < r {
        Point { x: p.x, y: r }
    } else if p.y > h - r {
        Point { x: p.x, y: h - r }
    } else {
        p
    }
}

/// One collision pass over `cells` in a `w` by `h` arena: every cell is pushed
/// out of the cells it overlaps (found through a spatial index), then brought
/// back towards the arena by the priority rule.
pub fn collision_pass(cells: &Vec<Cell>, scale: bool, w: i64, h: i64) -> (r: Vec<Cell>)
    requires
        all_wf(cells@),
        side_ok(w as int),
        side_ok(h as int),
    ensures
        r@ == pass(cells@, scale, w as int, h as int),
        all_wf(r@),
{
    let n = cells.len();
    let mut boxes: Vec<Envelope> = Vec::new();
    let mut j: usize = 0;
    while j < n
        invariant
            n == cells.len(),
            j <= n,
            all_wf(cells@),
            boxes.len() == j,
            forall|k: int| 0 <= k < j ==> #[trigger] boxes[k] == cell_box(cells[k]),
        decreases n - j,
    {
        boxes.push(cells[j].envelope());
        j = j + 1;
    }
    let index = build_index(&boxes);
    let mut next: Vec<Cell> = Vec::new();
    let mut i: usize = 0;
    while i < n
        invariant
            n == cells.len(),
            i <= n,
            all_wf(cells@),
            side_ok(w as int),
            side_ok(h as int),
            boxes@ == indexed_boxes(index),
            boxes.len() == n,
            forall|k: int| 0 <= k < n ==> #[trigger] boxes[k] == cell_box(cells[k]),
            next.len() == i,
            forall|k: int| 0 <= k < i ==> #[trigger] next[k] == pass_cell(cells@, k, scale, w as int, h as int),
            all_wf(next@),
        decreases n - i,
    {
        let c = cells[i];
        let found = query_index(&index, c.envelope());
        proof {
            assert forall|k: int| 0 <= k < found.len() implies #[trigger] found[k] < cells.len() && meets(
                cell_box(cells[found[k] as int]),
                cell_box(cells[i as int]),
            ) by {
                assert(found@.contains(found[k]));
            }
            lemma_listed_is_total(cells@, i as int, found@, n as int);
        }
        let t = listed_push_exec(cells, i, &found);
        let (mx, my) = if scale {
            let k: i128 = if t.2 > 1 {
                t.2
            } else {
                1
            };
            (div_toward_zero_exec(t.0, k), div_toward_zero_exec(t.1, k))
        } else {
            (t.0, t.1)
        };
        let p = Point { x: clip_coord(c.pos.x as i128 + mx), y: clip_coord(c.pos.y as i128 + my) };
        let q = clamp_position(p, c.size, w, h);
        next.push(Cell { pos: q, size: c.size, vel: c.vel });
        i = i + 1;
    }
    proof {
        assert(next@ =~= pass(cells@, scale, w as int, h as int));
    }
    next
}

} // verus!

verus! {

/// A position that strays past the arena on at most one axis is brought fully
/// inside by the priority rule, provided the cell fits in the arena.
pub proof fn lemma_clamp_settles(p: (int, int), r: int, w: int, h: int)
    requires
        0 < r,
        2 * r <= w,
        2 * r <= h,
        !((p.0 < r || p.0 > w - r) && (p.1 < r || p.1 > h - r)),
    ensures
        inside(clamped(p, r, w, h), r, w, h),
{
}

/// A position already inside the arena is left where it is.
pub proof fn lemma_clamp_keeps_inside(p: (int, int), r: int, w: int, h: int)
    requires
        inside(p, r, w, h),
    ensures
        clamped(p, r, w, h) == p,
{
}

/// Two applications of the priority rule bring any position inside an arena
/// that the cell fits in: a corner is settled one axis per application.
pub proof fn lemma_clamp_twice(p: (int, int), r: int, w: int, h: int)
    requires
        0 < r,
        2 * r <= w,
        2 * r <= h,
    ensures
        inside(clamped(clamped(p, r, w, h), r, w, h), r, w, h),
{
}

/// A position past both low bounds is corrected on the x axis only: its y
/// coordinate is kept, and stays out of bounds.
pub proof fn lemma_clamp_priority(p: (int, int), r: int, w: int, h: int)
    requires
        p.0 < r,
        p.1 < r,
    ensures
        clamped(p, r, w, h) == (r, p.1),
        !inside(clamped(p, r, w, h), r, w, h),
{
}

/// After a collision pass, a cell whose pushed position strayed past the arena
/// on at most one axis lies inside the arena; one that strayed past both low
/// bounds was snapped on the x axis only.
pub proof fn lemma_pass_bounds(cells: Seq<Cell>, scale: bool, w: int, h: int, i: int)
    requires
        all_wf(cells),
        side_ok(w),
        side_ok(h),
        0 <= i < cells.len(),
        2 * cells[i].size <= w,
        2 * cells[i].size <= h,
    ensures
        ({
            let m = moved(cells, i, scale);
            let r = cells[i].size as int;
            let q = pass(cells, scale, w, h)[i].pos;
            &&& (!((m.0 < r || m.0 > w - r) && (m.1 < r || m.1 > h - r)) ==> inside((q.x as int, q.y as int), r, w, h))
            &&& (m.0 < r && m.1 < r ==> q.x == r && q.y == m.1)
        }),
{
    let m = moved(cells, i, scale);
    let r = cells[i].size as int;
    if !((m.0 < r || m.0 > w - r) && (m.1 < r || m.1 > h - r)) {
        lemma_clamp_settles(m, r, w, h);
    }
}

} // verus!

verus! {

proof fn lemma_root_of_square(d: int)
    requires
        0 <= d,
    ensures
        root(d * d) == d,
{
    assert(is_root(d * d, d)) by (nonlinear_arith)
        requires
            0 <= d,
    ;
    lemma_root_unique(d * d, d, root(d * d));
}

/// Two overlapping cells side by side on a horizontal line, far enough from the
/// walls that a pass does not snap them: one scaled collision pass keeps them on
/// the line and in order, pushes them apart by the overlap rounded down to an
/// even number of units, and so leaves at most one unit of overlap, never more
/// than before.
pub proof fn lemma_pair_separates(a: Cell, b: Cell, w: int, h: int)
    requires
        a.wf(),
        b.wf(),
        side_ok(w),
        side_ok(h),
        a.pos.y == b.pos.y,
        a.pos.x < b.pos.x,
        b.pos.x - a.pos.x < a.size + b.size,
        a.pos.x - (a.size + b.size - (b.pos.x - a.pos.x)) >= a.size,
        b.pos.x + (a.size + b.size - (b.pos.x - a.pos.x)) <= w - b.size,
        a.size <= a.pos.y <= h - a.size,
        b.size <= b.pos.y <= h - b.size,
    ensures
        ({
            let depth = a.size + b.size - (b.pos.x - a.pos.x);
            let c = pass(seq![a, b], true, w, h);
            &&& c[0].pos.y == a.pos.y && c[1].pos.y == b.pos.y
            &&& c[0].pos.x == a.pos.x - depth / 2
            &&& c[1].pos.x == b.pos.x + depth / 2
            &&& a.size + b.size - (c[1].pos.x - c[0].pos.x) == depth % 2
            &&& depth % 2 <= depth
        }),
{
    let cells = seq![a, b];
    let dx = b.pos.x - a.pos.x;
    let depth = a.size + b.size - dx;
    assert(cells[0] == a && cells[1] == b);
    assert(is_root(0, 0));
    lemma_root_unique(0, 0, root(0));
    assert(dist2(a.pos, a.pos) == 0);
    assert(dist2(b.pos, b.pos) == 0);
    assert(dist2(a.pos, b.pos) == dx * dx && dist2(b.pos, a.pos) == dx * dx) by (nonlinear_arith)
        requires
            dx == b.pos.x - a.pos.x,
            a.pos.y == b.pos.y,
            dist2(a.pos, b.pos) == (a.pos.x - b.pos.x) * (a.pos.x - b.pos.x) + (a.pos.y - b.pos.y) * (
            a.pos.y - b.pos.y),
            dist2(b.pos, a.pos) == (b.pos.x - a.pos.x) * (b.pos.x - a.pos.x) + (b.pos.y - a.pos.y) * (
            b.pos.y - a.pos.y),
    ;
    lemma_root_of_square(dx);
    let sum = a.size + b.size;
    assert(0 < dx * dx) by (nonlinear_arith)
        requires
            0 < dx,
    ;
    lemma_div_multiples_vanish(sum * sum, dx * dx);
    assert(dx * dx * (sum * sum) == (dx * dx) * (sum * sum));
    lemma_root_of_square(sum);
    assert(push_part(dx, dx * dx, sum) == depth);
    assert((-dx) * (-dx) == dx * dx) by (nonlinear_arith);
    assert(push_part(-dx, dx * dx, sum) == depth);
    assert(push(a, a) == (0int, 0int, 1int));
    assert(push(b, b) == (0int, 0int, 1int));
    assert(push(a, b) == (-depth, 0int, 1int));
    assert(push(b, a) == (depth, 0int, 1int));
    assert(meets(cell_box(a), cell_box(a)));
    assert(meets(cell_box(b), cell_box(a)));
    assert(meets(cell_box(a), cell_box(b)));
    assert(meets(cell_box(b), cell_box(b)));
    assert(total_push(cells, 0, 0) == (0int, 0int, 0int));
    assert(total_push(cells, 0, 1) == (0int, 0int, 1int));
    assert(total_push(cells, 0, 2) == (-depth, 0int, 2int));
    assert(total_push(cells, 1, 0) == (0int, 0int, 0int));
    assert(total_push(cells, 1, 1) == (depth, 0int, 1int));
    assert(total_push(cells, 1, 2) == (depth, 0int, 2int));
    assert(div_toward_zero(-depth, 2) == -(depth / 2));
    assert(moved(cells, 0, true) == (a.pos.x - depth / 2, a.pos.y as int));
    assert(moved(cells, 1, true) == (b.pos.x + depth / 2, b.pos.y as int));
}

} // verus!

verus! {

/// Two cells side by side on a horizontal line that overlap by at most one unit,
/// away from the walls, are left where they are by a scaled collision pass.
pub proof fn lemma_pair_at_rest(a: Cell, b: Cell, w: int, h: int)
    requires
        a.wf(),
        b.wf(),
        side_ok(w),
        side_ok(h),
        a.pos.y == b.pos.y,
        a.pos.x < b.pos.x,
        0 <= a.size + b.size - (b.pos.x - a.pos.x) <= 1,
        a.pos.x - 1 >= a.size,
        b.pos.x + 1 <= w - b.size,
        a.size <= a.pos.y <= h - a.size,
        b.size <= b.pos.y <= h - b.size,
    ensures
        pass(seq![a, b], true, w, h) == seq![a, b],
{
    let cells = seq![a, b];
    let dx = b.pos.x - a.pos.x;
    if a.size + b.size - dx == 1 {
        lemma_pair_separates(a, b, w, h);
    } else {
        assert(cells[0] == a && cells[1] == b);
        assert(is_root(0, 0));
        lemma_root_unique(0, 0, root(0));
        assert(dist2(a.pos, a.pos) == 0);
        assert(dist2(b.pos, b.pos) == 0);
        assert(dist2(a.pos, b.pos) == dx * dx && dist2(b.pos, a.pos) == dx * dx) by (nonlinear_arith)
            requires
                dx == b.pos.x - a.pos.x,
                a.pos.y == b.pos.y,
                dist2(a.pos, b.pos) == (a.pos.x - b.pos.x) * (a.pos.x - b.pos.x) + (a.pos.y - b.pos.y) * (
                a.pos.y - b.pos.y),
                dist2(b.pos, a.pos) == (b.pos.x - a.pos.x) * (b.pos.x - a.pos.x) + (b.pos.y - a.pos.y) * (
                b.pos.y - a.pos.y),
        ;
        lemma_root_of_square(dx);
        assert(push(a, a) == (0int, 0int, 1int));
        assert(push(b, b) == (0int, 0int, 1int));
        assert(push(a, b) == (0int, 0int, 0int));
        assert(push(b, a) == (0int, 0int, 0int));
        assert(meets(cell_box(a), cell_box(a)));
        assert(meets(cell_box(b), cell_box(b)));
        assert(total_push(cells, 0, 0) == (0int, 0int, 0int));
        assert(total_push(cells, 1, 0) == (0int, 0int, 0int));
        assert(total_push(cells, 0, 1) == (0int, 0int, 1int));
        assert(total_push(cells, 0, 2) == (0int, 0int, 1int));
        assert(total_push(cells, 1, 1) == (0int, 0int, 0int));
        assert(total_push(cells, 1, 2) == (0int, 0int, 1int));
        assert(moved(cells, 0, true) == (a.pos.x as int, a.pos.y as int));
        assert(moved(cells, 1, true) == (b.pos.x as int, b.pos.y as int));
    }
    assert(pass(cells, true, w, h) =~= cells);
}

proof fn lemma_pair_second_pass(a: Cell, b: Cell, w: int, h: int)
    requires
        a.wf(),
        b.wf(),
        side_ok(w),
        side_ok(h),
        a.pos.y == b.pos.y,
        a.pos.x < b.pos.x,
        b.pos.x - a.pos.x < a.size + b.size,
        a.pos.x - (a.size + b.size - (b.pos.x - a.pos.x)) >= a.size,
        b.pos.x + (a.size + b.size - (b.pos.x - a.pos.x)) <= w - b.size,
        a.size <= a.pos.y <= h - a.size,
        b.size <= b.pos.y <= h - b.size,
    ensures
        pass(pass(seq![a, b], true, w, h), true, w, h) == pass(seq![a, b], true, w, h),
{
    lemma_pair_separates(a, b, w, h);
    let cells = seq![a, b];
    let c = pass(cells, true, w, h);
    let c0 = c[0];
    let c1 = c[1];
    assert(c0 == pass_cell(cells, 0, true, w, h));
    assert(c1 == pass_cell(cells, 1, true, w, h));
    assert(c0.size == a.size && c0.vel == a.vel);
    assert(c1.size == b.size && c1.vel == b.vel);
    assert(c =~= seq![c0, c1]);
    lemma_pair_at_rest(c0, c1, w, h);
}

/// For the pair of `lemma_pair_separates`, every number of scaled collision
/// passes from one on gives the result of the first: more passes never bring
/// back overlap, and at most one unit of it remains.
pub proof fn lemma_pair_passes(a: Cell, b: Cell, w: int, h: int, k: nat)
    requires
        a.wf(),
        b.wf(),
        side_ok(w),
        side_ok(h),
        a.pos.y == b.pos.y,
        a.pos.x < b.pos.x,
        b.pos.x - a.pos.x < a.size + b.size,
        a.pos.x - (a.size + b.size - (b.pos.x - a.pos.x)) >= a.size,
        b.pos.x + (a.size + b.size - (b.pos.x - a.pos.x)) <= w - b.size,
        a.size <= a.pos.y <= h - a.size,
        b.size <= b.pos.y <= h - b.size,
        1 <= k,
    ensures
        passes(seq![a, b], k, true, w, h) == pass(seq![a, b], true, w, h),
    decreases k,
{
    let cells = seq![a, b];
    assert(passes(cells, k, true, w, h) == pass(passes(cells, (k - 1) as nat, true, w, h), true, w, h));
    if k > 1 {
        lemma_pair_passes(a, b, w, h, (k - 1) as nat);
        lemma_pair_second_pass(a, b, w, h);
    } else {
        assert(passes(cells, 0, true, w, h) == cells);
    }
}

} // verus!

verus! {

proof fn lemma_toward_zero_odd(x: int, c: int)
    requires
        0 < c,
    ensures
        div_toward_zero(-x, c) == -div_toward_zero(x, c),
        x >= 0 ==> div_toward_zero(x, c) >= 0,
        x <= 0 ==> div_toward_zero(x, c) <= 0,
{
    if x >= 0 {
        lemma_div_pos_is_pos(x, c);
    } else {
        lemma_div_pos_is_pos(-x, c);
    }
}

/// The integer square root never decreases as its argument grows.
proof fn lemma_root_monotone(m: int, n: int)
    requires
        0 <= m <= n,
    ensures
        root(m) <= root(n),
{
    lemma_root_exists(m);
    lemma_root_exists(n);
    let (r, s) = (root(m), root(n));
    if s < r {
        assert((s + 1) * (s + 1) <= r * r) by (nonlinear_arith)
            requires
                0 <= s,
                s + 1 <= r,
        ;
    }
}

/// A value kept inside the arena by `clip` needed no clipping.
proof fn lemma_clip_inside(v: int, r: int, w: int)
    requires
        0 < r,
        side_ok(w),
        r <= clip(v) <= w - r,
    ensures
        clip(v) == v,
{
}

/// A component `d` moved against itself by `2 * |mx| <= m` ends no longer than `m + |d|`.
proof fn lemma_spread_part(d: int, m: int, mx: int)
    requires
        2 * abs(mx) <= m,
        d * mx <= 0,
    ensures
        (d - 2 * mx) * (d - 2 * mx) <= (m + abs(d)) * (m + abs(d)),
{
    assert((d - 2 * mx) * (d - 2 * mx) <= (m + abs(d)) * (m + abs(d))) by (nonlinear_arith)
        requires
            2 * abs(mx) <= m,
            d * mx <= 0,
            abs(d) == (if d >= 0 { d } else { -d }),
            abs(mx) == (if mx >= 0 { mx } else { -mx }),
    ;
}

/// A component `d` moved against itself by `2 * |mx| >= m - 1` ends, squared,
/// at least `t * t - 2 * t` with `t = m + |d|`.
proof fn lemma_close_part(d: int, m: int, mx: int)
    requires
        2 * abs(mx) >= m - 1,
        d * mx <= 0,
        0 <= m,
    ensures
        (d - 2 * mx) * (d - 2 * mx) >= (m + abs(d)) * (m + abs(d)) - 2 * (m + abs(d)),
{
    let t = m + abs(d);
    let e = d - 2 * mx;
    assert(abs(e) == abs(d) + 2 * abs(mx)) by (nonlinear_arith)
        requires
            e == d - 2 * mx,
            d * mx <= 0,
            abs(d) == (if d >= 0 { d } else { -d }),
            abs(mx) == (if mx >= 0 { mx } else { -mx }),
            abs(e) == (if e >= 0 { e } else { -e }),
    ;
    assert(e * e == abs(e) * abs(e)) by (nonlinear_arith)
        requires
            abs(e) == (if e >= 0 { e } else { -e }),
    ;
    assert(abs(e) * abs(e) >= t * t - 2 * t) by (nonlinear_arith)
        requires
            abs(e) >= t - 1,
            abs(e) >= 0,
            t >= 0,
    ;
}

/// Half of `x` rounded toward zero, doubled, loses at most one unit.
proof fn lemma_half(x: int)
    ensures
        abs(x) - 1 <= 2 * abs(div_toward_zero(x, 2)) <= abs(x),
{
}

/// After a scaled pass that takes both components of an overlapping pair's
/// push (rounded) the centre vector is at least the sum of the radii less three.
proof fn lemma_pair_close_bound(dx: int, dy: int, d2: int, sum: int, px: int, py: int, mx: int, my: int)
    requires
        d2 == dx * dx + dy * dy,
        0 < d2,
        sum >= 30,
        0 <= px,
        0 <= py,
        2 * abs(mx) >= px - 1,
        2 * abs(my) >= py - 1,
        dx * mx <= 0,
        dy * my <= 0,
        (px + abs(dx)) * (px + abs(dx)) * d2 <= dx * dx * (sum * sum),
        dx * dx * (sum * sum) < (px + abs(dx) + 1) * (px + abs(dx) + 1) * d2,
        (py + abs(dy)) * (py + abs(dy)) * d2 <= dy * dy * (sum * sum),
        dy * dy * (sum * sum) < (py + abs(dy) + 1) * (py + abs(dy) + 1) * d2,
    ensures
        (dx - 2 * mx) * (dx - 2 * mx) + (dy - 2 * my) * (dy - 2 * my) >= (sum - 3) * (sum - 3),
{
    lemma_close_part(dx, px, mx);
    lemma_close_part(dy, py, my);
    let tx = px + abs(dx);
    let ty = py + abs(dy);
    let ex = dx - 2 * mx;
    let ey = dy - 2 * my;
    assert((tx + 1) * (tx + 1) + (ty + 1) * (ty + 1) > sum * sum) by (nonlinear_arith)
        requires
            dx * dx * (sum * sum) < (tx + 1) * (tx + 1) * d2,
            dy * dy * (sum * sum) < (ty + 1) * (ty + 1) * d2,
            d2 == dx * dx + dy * dy,
            0 < d2,
    ;
    assert(tx * tx + ty * ty <= sum * sum) by (nonlinear_arith)
        requires
            tx * tx * d2 <= dx * dx * (sum * sum),
            ty * ty * d2 <= dy * dy * (sum * sum),
            d2 == dx * dx + dy * dy,
            0 < d2,
    ;
    let tt = tx + ty;
    assert(tt * tt <= 2 * (sum * sum)) by (nonlinear_arith)
        requires
            tt == tx + ty,
            tx * tx + ty * ty <= sum * sum,
    ;
    lemma_bound_sum(tt, sum);
    assert(ex * ex + ey * ey >= (sum - 3) * (sum - 3)) by (nonlinear_arith)
        requires
            ex * ex >= tx * tx - 2 * tx,
            ey * ey >= ty * ty - 2 * ty,
            (tx + 1) * (tx + 1) + (ty + 1) * (ty + 1) > sum * sum,
            4 * (tx + ty) <= 6 * sum - 10,
    ;
}

/// With `t * t <= 2 * s * s` and `s >= 30`, `4 * t <= 6 * s - 10`.
proof fn lemma_bound_sum(t: int, s: int)
    requires
        0 <= t,
        t * t <= 2 * (s * s),
        s >= 30,
    ensures
        4 * t <= 6 * s - 10,
{
    if 4 * t > 6 * s - 10 {
        assert((4 * t) * (4 * t) > (6 * s - 10) * (6 * s - 10)) by (nonlinear_arith)
            requires
                4 * t > 6 * s - 10,
                6 * s - 10 > 0,
        ;
        assert(s * (s - 30) >= 0) by (nonlinear_arith)
            requires
                s >= 30,
        ;
        assert(false) by (nonlinear_arith)
            requires
                (4 * t) * (4 * t) > (6 * s - 10) * (6 * s - 10),
                t * t <= 2 * (s * s),
                s * (s - 30) >= 0,
        ;
    }
}

/// Where one collision pass sends two cells before bounds are enforced: `a`
/// moves by `m` and `b` by `-m`, against the centre vector. A scaled pass
/// never moves them further apart than the sum of their radii, if they were
/// no further apart than that.
#[verifier::rlimit(40)]
proof fn lemma_pair_moved(a: Cell, b: Cell, scale: bool) -> (m: (int, int))
    requires
        a.wf(),
        b.wf(),
    ensures
        moved(seq![a, b], 0, scale) == (clip(a.pos.x + m.0), clip(a.pos.y + m.1)),
        moved(seq![a, b], 1, scale) == (clip(b.pos.x - m.0), clip(b.pos.y - m.1)),
        (b.pos.x - a.pos.x) * m.0 <= 0,
        (b.pos.y - a.pos.y) * m.1 <= 0,
        scale && 0 < root(dist2(a.pos, b.pos)) < a.size + b.size && a.size + b.size >= 30 ==> ({
            let ex = b.pos.x - a.pos.x - 2 * m.0;
            let ey = b.pos.y - a.pos.y - 2 * m.1;
            ex * ex + ey * ey >= (a.size + b.size - 3) * (a.size + b.size - 3)
        }),
        scale && dist2(a.pos, b.pos) <= (a.size + b.size) * (a.size + b.size) ==> ({
            let ex = b.pos.x - a.pos.x - 2 * m.0;
            let ey = b.pos.y - a.pos.y - 2 * m.1;
            ex * ex + ey * ey <= (a.size + b.size) * (a.size + b.size)
        }),
{
    let cells = seq![a, b];
    assert(cells[0] == a && cells[1] == b);
    let dx = b.pos.x - a.pos.x;
    let dy = b.pos.y - a.pos.y;
    let d2 = dist2(a.pos, b.pos);
    assert(d2 == dx * dx + dy * dy && dist2(b.pos, a.pos) == d2 && 0 <= d2) by (nonlinear_arith)
        requires
            dx == b.pos.x - a.pos.x,
            dy == b.pos.y - a.pos.y,
            d2 == (a.pos.x - b.pos.x) * (a.pos.x - b.pos.x) + (a.pos.y - b.pos.y) * (a.pos.y - b.pos.y),
            dist2(b.pos, a.pos) == (b.pos.x - a.pos.x) * (b.pos.x - a.pos.x) + (b.pos.y - a.pos.y) * (
            b.pos.y - a.pos.y),
    ;
    assert(is_root(0, 0));
    lemma_root_unique(0, 0, root(0));
    assert(dist2(a.pos, a.pos) == 0);
    assert(dist2(b.pos, b.pos) == 0);
    assert(push(a, a) == (0int, 0int, 1int));
    assert(push(b, b) == (0int, 0int, 1int));
    assert(meets(cell_box(a), cell_box(a)));
    assert(meets(cell_box(b), cell_box(b)));
    lemma_root_exists(d2);
    let sum = a.size + b.size;
    // the push of b on a is (-u, -v); that of a on b is (u, v)
    let (u, v) = if 0 < root(d2) < sum {
        assert(0 < d2 < sum * sum && dx * dx <= d2 && dy * dy <= d2) by (nonlinear_arith)
            requires
                0 < root(d2) < sum,
                root(d2) * root(d2) <= d2 < (root(d2) + 1) * (root(d2) + 1),
                d2 == dx * dx + dy * dy,
        ;
        lemma_push_part(dx, d2, sum);
        lemma_push_part(dy, d2, sum);
        assert((-dx) * (-dx) == dx * dx && (-dy) * (-dy) == dy * dy) by (nonlinear_arith);
        assert(push_part(-dx, d2, sum) == push_part(dx, d2, sum));
        assert(push_part(-dy, d2, sum) == push_part(dy, d2, sum));
        (-away(dx, push_part(dx, d2, sum)), -away(dy, push_part(dy, d2, sum)))
    } else {
        (0int, 0int)
    };
    assert(push(a, b) == (-u, -v, push(a, b).2));
    assert(push(b, a) == (u, v, push(a, b).2));
    assert(dx >= 0 ==> u >= 0);
    assert(dx <= 0 ==> u <= 0);
    assert(dy >= 0 ==> v >= 0);
    assert(dy <= 0 ==> v <= 0);
    let e = push(a, b).2;
    let s0 = if meets(cell_box(b), cell_box(a)) {
        (-u, -v, e)
    } else {
        (0int, 0int, 0int)
    };
    assert(meets(cell_box(b), cell_box(a)) == meets(cell_box(a), cell_box(b)));
    assert(total_push(cells, 0, 0) == (0int, 0int, 0int));
    assert(total_push(cells, 1, 0) == (0int, 0int, 0int));
    assert(total_push(cells, 0, 1) == (0int, 0int, 1int));
    assert(total_push(cells, 0, 2) == add3((0int, 0int, 1int), s0));
    assert(total_push(cells, 1, 1) == (-s0.0, -s0.1, s0.2));
    assert(total_push(cells, 1, 2) == add3((-s0.0, -s0.1, s0.2), (0int, 0int, 1int)));
    let k = if 1 + s0.2 > 1 {
        1 + s0.2
    } else {
        1
    };
    lemma_toward_zero_odd(s0.0, k);
    lemma_toward_zero_odd(s0.1, k);
    let mx = if scale {
        div_toward_zero(s0.0, k)
    } else {
        s0.0
    };
    let my = if scale {
        div_toward_zero(s0.1, k)
    } else {
        s0.1
    };
    assert(moved(cells, 0, scale) == (clip(a.pos.x + mx), clip(a.pos.y + my)));
    // mx has the sign of -dx, my that of -dy
    assert(dx * mx <= 0 && dy * my <= 0) by (nonlinear_arith)
        requires
            dx >= 0 ==> mx <= 0,
            dx <= 0 ==> mx >= 0,
            dy >= 0 ==> my <= 0,
            dy <= 0 ==> my >= 0,
    ;
    if scale && d2 <= sum * sum {
        if 0 < root(d2) < sum {
            let px = push_part(dx, d2, sum);
            let py = push_part(dy, d2, sum);
            assert(2 * abs(mx) <= px && 2 * abs(my) <= py);
            lemma_spread_part(dx, px, mx);
            lemma_spread_part(dy, py, my);
            let tx = px + abs(dx);
            let ty = py + abs(dy);
            assert(tx * tx + ty * ty <= sum * sum) by (nonlinear_arith)
                requires
                    tx * tx * d2 <= dx * dx * (sum * sum),
                    ty * ty * d2 <= dy * dy * (sum * sum),
                    d2 == dx * dx + dy * dy,
                    0 < d2,
            ;
        } else {
            assert(mx == 0 && my == 0);
        }
    }
    if scale && 0 < root(d2) < sum && sum >= 30 {
        assert(0 < d2 < sum * sum && dx * dx <= d2 && dy * dy <= d2) by (nonlinear_arith)
            requires
                0 < root(d2) < sum,
                root(d2) * root(d2) <= d2 < (root(d2) + 1) * (root(d2) + 1),
                d2 == dx * dx + dy * dy,
        ;
        assert(-sum < dx < sum && -sum < dy < sum) by (nonlinear_arith)
            requires
                dx * dx < sum * sum,
                dy * dy < sum * sum,
                0 < sum,
        ;
        assert(meets(cell_box(b), cell_box(a)));
        let px = push_part(dx, d2, sum);
        let py = push_part(dy, d2, sum);
        lemma_push_part(dx, d2, sum);
        lemma_push_part(dy, d2, sum);
        assert(k == 2);
        assert(u == -away(dx, px) && v == -away(dy, py));
        if dx == 0 {
            assert(dx * dx * (sum * sum) == 0) by (nonlinear_arith)
                requires
                    dx == 0,
            ;
            assert(0int / d2 == 0);
        }
        if dy == 0 {
            assert(dy * dy * (sum * sum) == 0) by (nonlinear_arith)
                requires
                    dy == 0,
            ;
            assert(0int / d2 == 0);
        }
        assert(abs(u) == px && abs(v) == py);
        lemma_half(-u);
        lemma_half(-v);
        lemma_pair_close_bound(dx, dy, d2, sum, px, py, mx, my);
    }

    assert(moved(cells, 1, scale) == (clip(b.pos.x - mx), clip(b.pos.y - my)));
    (mx, my)
}

/// Any two cells, with one collision pass (scaled or not) that snaps neither of them
/// against a wall: the pass keeps the midpoint of their centres and never
/// brings them closer, so their penetration does not grow.
pub proof fn lemma_pair_no_closer(a: Cell, b: Cell, scale: bool, w: int, h: int)
    requires
        a.wf(),
        b.wf(),
        side_ok(w),
        side_ok(h),
        inside(moved(seq![a, b], 0, scale), a.size as int, w, h),
        inside(moved(seq![a, b], 1, scale), b.size as int, w, h),
    ensures
        ({
            let c = pass(seq![a, b], scale, w, h);
            &&& c[0].pos.x + c[1].pos.x == a.pos.x + b.pos.x
            &&& c[0].pos.y + c[1].pos.y == a.pos.y + b.pos.y
            &&& dist2(c[0].pos, c[1].pos) >= dist2(a.pos, b.pos)
            &&& root(dist2(c[0].pos, c[1].pos)) >= root(dist2(a.pos, b.pos))
        }),
{
    let cells = seq![a, b];
    assert(cells[0] == a && cells[1] == b);
    let dx = b.pos.x - a.pos.x;
    let dy = b.pos.y - a.pos.y;
    let d2 = dist2(a.pos, b.pos);
    assert(d2 == dx * dx + dy * dy && 0 <= d2) by (nonlinear_arith)
        requires
            dx == b.pos.x - a.pos.x,
            dy == b.pos.y - a.pos.y,
            d2 == (a.pos.x - b.pos.x) * (a.pos.x - b.pos.x) + (a.pos.y - b.pos.y) * (a.pos.y - b.pos.y),
    ;
    let (mx, my) = lemma_pair_moved(a, b, scale);
    lemma_clip_inside(a.pos.x + mx, a.size as int, w);
    lemma_clip_inside(a.pos.y + my, a.size as int, h);
    lemma_clip_inside(b.pos.x - mx, b.size as int, w);
    lemma_clip_inside(b.pos.y - my, b.size as int, h);
    lemma_clamp_keeps_inside(moved(cells, 0, scale), a.size as int, w, h);
    lemma_clamp_keeps_inside(moved(cells, 1, scale), b.size as int, w, h);
    let c = pass(cells, scale, w, h);
    assert(c[0].pos.x == a.pos.x + mx && c[0].pos.y == a.pos.y + my);
    assert(c[1].pos.x == b.pos.x - mx && c[1].pos.y == b.pos.y - my);
    let d2n = dist2(c[0].pos, c[1].pos);
    assert(d2n >= d2) by (nonlinear_arith)
        requires
            d2n == (c[0].pos.x - c[1].pos.x) * (c[0].pos.x - c[1].pos.x) + (c[0].pos.y - c[1].pos.y) * (
            c[0].pos.y - c[1].pos.y),
            c[0].pos.x - c[1].pos.x == -dx + 2 * mx,
            c[0].pos.y - c[1].pos.y == -dy + 2 * my,
            d2 == dx * dx + dy * dy,
            dx * mx <= 0,
            dy * my <= 0,
    ;
    lemma_root_monotone(d2, d2n);
}

} // verus!

verus! {

/// Centre distance (rounded down) of the first two cells after `j` passes.
pub open spec fn pair_gap(cells: Seq<Cell>, j: nat, scale: bool, w: int, h: int) -> int {
    let s = passes(cells, j, scale, w, h);
    root(dist2(s[0].pos, s[1].pos))
}

/// Pass number `j + 1` snaps neither of the first two cells against a wall.
pub open spec fn pair_clear(cells: Seq<Cell>, j: nat, scale: bool, w: int, h: int) -> bool {
    let s = passes(cells, j, scale, w, h);
    &&& inside(moved(s, 0, scale), s[0].size as int, w, h)
    &&& inside(moved(s, 1, scale), s[1].size as int, w, h)
}

/// A pass that snaps neither of two cells keeps them well formed and, by
/// `lemma_pair_no_closer`, no closer.
proof fn lemma_clear_pass(s: Seq<Cell>, scale: bool, w: int, h: int)
    requires
        s.len() == 2,
        all_wf(s),
        side_ok(w),
        side_ok(h),
        inside(moved(s, 0, scale), s[0].size as int, w, h),
        inside(moved(s, 1, scale), s[1].size as int, w, h),
    ensures
        pass(s, scale, w, h).len() == 2,
        all_wf(pass(s, scale, w, h)),
        root(dist2(s[0].pos, s[1].pos)) <= root(dist2(pass(s, scale, w, h)[0].pos, pass(s, scale, w, h)[1].pos)),
{
    assert(s =~= seq![s[0], s[1]]);
    assert(s[0].wf() && s[1].wf());
    lemma_pair_no_closer(s[0], s[1], scale, w, h);
    let c = pass(s, scale, w, h);
    lemma_clamp_keeps_inside(moved(s, 0, scale), s[0].size as int, w, h);
    lemma_clamp_keeps_inside(moved(s, 1, scale), s[1].size as int, w, h);
    assert(c[0] == pass_cell(s, 0, scale, w, h));
    assert(c[1] == pass_cell(s, 1, scale, w, h));
    assert(c[0].wf() && c[1].wf());
    assert forall|k: int| 0 <= k < c.len() implies (#[trigger] c[k]).wf() by {
        if k == 0 {
        } else {
            assert(k == 1);
        }
    }
}

proof fn lemma_pair_state(cells: Seq<Cell>, scale: bool, w: int, h: int, j: nat)
    requires
        cells.len() == 2,
        all_wf(cells),
        side_ok(w),
        side_ok(h),
        forall|i: nat| i < j ==> #[trigger] pair_clear(cells, i, scale, w, h),
    ensures
        passes(cells, j, scale, w, h).len() == 2,
        all_wf(passes(cells, j, scale, w, h)),
        j >= 1 ==> pair_gap(cells, (j - 1) as nat, scale, w, h) <= pair_gap(cells, j, scale, w, h),
    decreases j,
{
    if j == 0 {
        assert(passes(cells, 0, scale, w, h) == cells);
    } else {
        let jm = (j - 1) as nat;
        lemma_pair_state(cells, scale, w, h, jm);
        let s = passes(cells, jm, scale, w, h);
        assert(pair_clear(cells, jm, scale, w, h));
        lemma_clear_pass(s, scale, w, h);
        assert(passes(cells, j, scale, w, h) == pass(s, scale, w, h));
    }
}

/// Two cells under collision passes (scaled or not) none of which snaps a cell
/// against a wall: their centre distance never shrinks from one pass to a
/// later one, so more passes never leave more penetration.
pub proof fn lemma_pair_passes_no_closer(cells: Seq<Cell>, scale: bool, w: int, h: int, k: nat)
    requires
        cells.len() == 2,
        all_wf(cells),
        side_ok(w),
        side_ok(h),
        forall|i: nat| i <= k ==> #[trigger] pair_clear(cells, i, scale, w, h),
    ensures
        forall|j1: nat, j2: nat|
            j1 <= j2 <= k + 1 ==> #[trigger] pair_gap(cells, j1, scale, w, h) <= #[trigger] pair_gap(cells, j2, scale, w, h),
    decreases k,
{
    lemma_pair_state(cells, scale, w, h, k + 1);
    if k > 0 {
        lemma_pair_passes_no_closer(cells, scale, w, h, (k - 1) as nat);
    } else {
        lemma_pair_state(cells, scale, w, h, 0);
    }
    assert forall|j1: nat, j2: nat| j1 <= j2 <= k + 1 implies #[trigger] pair_gap(cells, j1, scale, w, h)
        <= #[trigger] pair_gap(cells, j2, scale, w, h) by {
        if j2 == k + 1 && j1 < j2 {
            if k > 0 {
                assert(pair_gap(cells, j1, scale, w, h) <= pair_gap(cells, k, scale, w, h));
            }
        }
    }
}

} // verus!

verus! {

/// Both cells' centres lie at least twice the sum of their radii from every wall.
pub open spec fn pair_far_from_walls(cells: Seq<Cell>, w: int, h: int) -> bool {
    let s = cells[0].size + cells[1].size;
    &&& 2 * s <= cells[0].pos.x <= w - 2 * s
    &&& 2 * s <= cells[0].pos.y <= h - 2 * s
    &&& 2 * s <= cells[1].pos.x <= w - 2 * s
    &&& 2 * s <= cells[1].pos.y <= h - 2 * s
}

/// What scaled passes keep of a pair that starts far from the walls: the
/// radii, the midpoint, and a centre distance of at most the sum of the radii.
pub open spec fn pair_kept(t: Seq<Cell>, cells: Seq<Cell>) -> bool {
    let s = cells[0].size + cells[1].size;
    &&& t.len() == 2
    &&& all_wf(t)
    &&& t[0].size == cells[0].size
    &&& t[1].size == cells[1].size
    &&& t[0].pos.x + t[1].pos.x == cells[0].pos.x + cells[1].pos.x
    &&& t[0].pos.y + t[1].pos.y == cells[0].pos.y + cells[1].pos.y
    &&& dist2(t[0].pos, t[1].pos) <= s * s
}

proof fn lemma_pair_step(t: Seq<Cell>, cells: Seq<Cell>, w: int, h: int)
    requires
        cells.len() == 2,
        side_ok(w),
        side_ok(h),
        pair_far_from_walls(cells, w, h),
        pair_kept(t, cells),
    ensures
        inside(moved(t, 0, true), t[0].size as int, w, h),
        inside(moved(t, 1, true), t[1].size as int, w, h),
        pair_kept(pass(t, true, w, h), cells),
        0 < root(dist2(t[0].pos, t[1].pos)) < cells[0].size + cells[1].size && cells[0].size
            + cells[1].size >= 30 ==> root(dist2(pass(t, true, w, h)[0].pos, pass(t, true, w, h)[1].pos))
            >= cells[0].size + cells[1].size - 3,
{
    let s = cells[0].size + cells[1].size;
    let (a, b) = (t[0], t[1]);
    assert(t =~= seq![a, b]);
    assert(a.wf() && b.wf());
    let (mx, my) = lemma_pair_moved(a, b, true);
    let ex = b.pos.x - a.pos.x - 2 * mx;
    let ey = b.pos.y - a.pos.y - 2 * my;
    assert(-s <= ex <= s && -s <= ey <= s) by (nonlinear_arith)
        requires
            ex * ex + ey * ey <= s * s,
            0 < s,
    ;
    lemma_clip_inside(a.pos.x + mx, a.size as int, w);
    lemma_clip_inside(a.pos.y + my, a.size as int, h);
    lemma_clip_inside(b.pos.x - mx, b.size as int, w);
    lemma_clip_inside(b.pos.y - my, b.size as int, h);
    lemma_clamp_keeps_inside(moved(t, 0, true), a.size as int, w, h);
    lemma_clamp_keeps_inside(moved(t, 1, true), b.size as int, w, h);
    lemma_clear_pass(t, true, w, h);
    let c = pass(t, true, w, h);
    assert(c[0] == pass_cell(t, 0, true, w, h));
    assert(c[1] == pass_cell(t, 1, true, w, h));
    assert(c[0].pos.x == a.pos.x + mx && c[0].pos.y == a.pos.y + my);
    assert(c[1].pos.x == b.pos.x - mx && c[1].pos.y == b.pos.y - my);
    assert(dist2(c[0].pos, c[1].pos) == ex * ex + ey * ey) by (nonlinear_arith)
        requires
            c[0].pos.x - c[1].pos.x == -ex,
            c[0].pos.y - c[1].pos.y == -ey,
            dist2(c[0].pos, c[1].pos) == (c[0].pos.x - c[1].pos.x) * (c[0].pos.x - c[1].pos.x) + (
            c[0].pos.y - c[1].pos.y) * (c[0].pos.y - c[1].pos.y),
    ;
    if 0 < root(dist2(a.pos, b.pos)) < s && s >= 30 {
        lemma_root_of_square(s - 3);
        assert(0 <= (s - 3) * (s - 3)) by (nonlinear_arith);
        lemma_root_monotone((s - 3) * (s - 3), dist2(c[0].pos, c[1].pos));
    }
}

proof fn lemma_pair_walls_state(cells: Seq<Cell>, w: int, h: int, j: nat)
    requires
        cells.len() == 2,
        all_wf(cells),
        side_ok(w),
        side_ok(h),
        pair_far_from_walls(cells, w, h),
        dist2(cells[0].pos, cells[1].pos) <= (cells[0].size + cells[1].size) * (cells[0].size
            + cells[1].size),
    ensures
        pair_kept(passes(cells, j, true, w, h), cells),
        pair_clear(cells, j, true, w, h),
    decreases j,
{
    if j == 0 {
        assert(passes(cells, 0, true, w, h) == cells);
    } else {
        lemma_pair_walls_state(cells, w, h, (j - 1) as nat);
        lemma_pair_step(passes(cells, (j - 1) as nat, true, w, h), cells, w, h);
        assert(passes(cells, j, true, w, h) == pass(passes(cells, (j - 1) as nat, true, w, h), true, w, h));
    }
    lemma_pair_step(passes(cells, j, true, w, h), cells, w, h);
}

/// Two cells no further apart than the sum of their radii, both at least
/// twice that sum from every wall: under scaled collision passes their centre
/// distance never shrinks from one pass to a later one, so more passes never
/// leave more penetration.
pub proof fn lemma_pair_far_from_walls(cells: Seq<Cell>, w: int, h: int, k: nat)
    requires
        cells.len() == 2,
        all_wf(cells),
        side_ok(w),
        side_ok(h),
        pair_far_from_walls(cells, w, h),
        dist2(cells[0].pos, cells[1].pos) <= (cells[0].size + cells[1].size) * (cells[0].size
            + cells[1].size),
    ensures
        forall|j1: nat, j2: nat|
            j1 <= j2 <= k + 1 ==> #[trigger] pair_gap(cells, j1, true, w, h) <= #[trigger] pair_gap(
                cells,
                j2,
                true,
                w,
                h,
            ),
{
    assert forall|i: nat| i <= k implies #[trigger] pair_clear(cells, i, true, w, h) by {
        lemma_pair_walls_state(cells, w, h, i);
    }
    lemma_pair_passes_no_closer(cells, true, w, h, k);
}

} // verus!

verus! {

/// Two overlapping cells with distinct centres, both at least twice the sum of
/// their radii from every wall, that sum being at least 30 units: after any
/// number of scaled collision passes from one on, their centre distance is at
/// least the sum of the radii less three units.
pub proof fn lemma_pair_settles(cells: Seq<Cell>, w: int, h: int, k: nat)
    requires
        cells.len() == 2,
        all_wf(cells),
        side_ok(w),
        side_ok(h),
        pair_far_from_walls(cells, w, h),
        0 < root(dist2(cells[0].pos, cells[1].pos)) < cells[0].size + cells[1].size,
        cells[0].size + cells[1].size >= 30,
    ensures
        forall|j: nat|
            1 <= j <= k + 1 ==> #[trigger] pair_gap(cells, j, true, w, h) >= cells[0].size + cells[1].size
                - 3,
{
    let s = cells[0].size + cells[1].size;
    let d2 = dist2(cells[0].pos, cells[1].pos);
    assert(0 <= d2) by (nonlinear_arith)
        requires
            d2 == (cells[0].pos.x - cells[1].pos.x) * (cells[0].pos.x - cells[1].pos.x) + (cells[0].pos.y
                - cells[1].pos.y) * (cells[0].pos.y - cells[1].pos.y),
    ;
    lemma_root_exists(d2);
    assert(d2 <= s * s) by (nonlinear_arith)
        requires
            d2 < (root(d2) + 1) * (root(d2) + 1),
            0 <= root(d2) < s,
    ;
    lemma_pair_walls_state(cells, w, h, 0);
    assert(passes(cells, 0, true, w, h) == cells);
    lemma_pair_step(cells, cells, w, h);
    assert(passes(cells, 1, true, w, h) == pass(passes(cells, 0, true, w, h), true, w, h));
    assert(pair_gap(cells, 1, true, w, h) >= s - 3);
    lemma_pair_far_from_walls(cells, w, h, k);
    assert forall|j: nat| 1 <= j <= k + 1 implies #[trigger] pair_gap(cells, j, true, w, h) >= s - 3 by {
        assert(pair_gap(cells, 1, true, w, h) <= pair_gap(cells, j, true, w, h));
    }
}

} // verus!
